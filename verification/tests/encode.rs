use seamless::encode::{encode_plan, FRAMES_PER_SECOND};
use seamless::search::SimilarityScore;

#[test]
fn test_encode_plan_streams_selected_range() {
    let paths = vec![
        b"a.png".to_vec(),
        b"b.png".to_vec(),
        b"c.png".to_vec(),
        b"d.png".to_vec(),
    ];
    let selection = SimilarityScore { start: 1, end: 3, similarity: 900_000, score: 800_000 };
    let plan = encode_plan(&selection, &paths);
    assert_eq!(plan.len(), 2);
    assert_eq!(plan[0].index, 1);
    assert_eq!(plan[0].path, b"b.png".to_vec());
    assert_eq!(plan[0].offset, 0);
    assert_eq!(plan[1].index, 2);
    assert_eq!(plan[1].path, b"c.png".to_vec());
    assert_eq!(plan[1].offset, 1);
}

#[test]
fn test_encode_plan_empty_for_degenerate_selection() {
    let paths = vec![b"a.png".to_vec(), b"b.png".to_vec()];
    let selection = SimilarityScore { start: 1, end: 1, similarity: 0, score: 0 };
    let plan = encode_plan(&selection, &paths);
    assert_eq!(plan.len(), 0);
}

#[test]
fn test_frame_rate_constant() {
    assert_eq!(FRAMES_PER_SECOND, 24);
}
