use seamless::borders::{average_color, color_to_hex};
use seamless::cli::CompareAlgorithm;

#[test]
fn test_average_color_exact() {
    let row = vec![10, 20, 30, 40, 20, 40, 60, 80];
    assert_eq!(average_color(&row), [15, 30, 45]);
}

#[test]
fn test_average_color_single_pixel() {
    let row = vec![1, 2, 3, 255];
    assert_eq!(average_color(&row), [1, 2, 3]);
}

#[test]
fn test_average_color_rounds_down() {
    let row = vec![0, 0, 0, 0, 255, 255, 255, 255];
    assert_eq!(average_color(&row), [127, 127, 127]);
}

#[test]
fn test_color_to_hex() {
    assert_eq!(color_to_hex([255, 255, 255]), "#FFFFFF");
    assert_eq!(color_to_hex([0, 0, 0]), "#000000");
    assert_eq!(color_to_hex([10, 16, 255]), "#0A10FF");
}

#[test]
fn test_compare_algorithm_name() {
    assert_eq!(
        CompareAlgorithm::NormalizedEuclideanDistance.name(),
        "normalized-euclidean-distance"
    );
}
