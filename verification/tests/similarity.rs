use seamless::similarity::{composite, distance, isqrt, similarity, SCALE};

#[test]
fn test_similarity() {
    assert_eq!(similarity(&[255, 255], &[0, 0]), 0);
    assert_eq!(similarity(&[255, 255], &[255, 255]), SCALE);

    let test = similarity(&[255, 255], &[128, 127]) as f64 / SCALE as f64 * 10.0;
    assert_eq!(test.round(), 5.0);
}

#[test]
fn test_similarity_identical_long() {
    let buf: Vec<u8> = (0..=255).collect();
    assert_eq!(similarity(&buf, &buf), SCALE);
}

#[test]
fn test_similarity_single_byte() {
    assert_eq!(similarity(&[0], &[255]), 0);
    assert_eq!(similarity(&[7], &[7]), SCALE);
}

#[test]
fn test_isqrt_exact() {
    assert_eq!(isqrt(0), 0);
    assert_eq!(isqrt(1), 1);
    assert_eq!(isqrt(3), 1);
    assert_eq!(isqrt(4), 2);
    assert_eq!(isqrt(999_999), 999);
    assert_eq!(isqrt(1_000_000), 1000);
    assert_eq!(isqrt(1_000_000_000_000), 1_000_000);
    assert_eq!(isqrt(u64::MAX as u128), 4_294_967_295);
}

#[test]
fn test_distance_exact() {
    assert_eq!(distance(1, 4), 500_000);
    assert_eq!(distance(3, 4), 866_025);
    assert_eq!(distance(4, 4), 1_000_000);
    assert_eq!(distance(0, 4), 0);
}

#[test]
fn test_composite_exact() {
    assert_eq!(composite(500_000, 1_000_000, 100_000), 950_000);
    assert_eq!(composite(500_000, 250_000, 0), 250_000);
    assert_eq!(composite(500_000, 250_000, SCALE), 500_000);
}

#[test]
fn test_composite_monotone_in_gap() {
    // With the similarity held constant and a positive duration weight, a
    // longer loop never scores lower.
    let sim = 300_000;
    let w = 250_000;
    let mut previous = 0;
    for gap in 0..=16 {
        let score = composite(distance(gap, 16), sim, w);
        assert!(score >= previous);
        previous = score;
    }
}
