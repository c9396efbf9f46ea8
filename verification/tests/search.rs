use seamless::error::LoopError;
use seamless::search::{best_candidate, seamless_search, select_best, SimilarityScore};

#[test]
fn test_search_selects_distant_similar_pair() {
    // Four equal-size frames where the first and the last are identical and
    // every other pair is clearly different: with a small duration weight
    // the selection must still be the distant identical pair (0, 3).
    let frames: Vec<Vec<u8>> = vec![
        vec![0, 0, 0, 0],
        vec![255, 0, 255, 0],
        vec![0, 255, 0, 255],
        vec![0, 0, 0, 0],
    ];
    let sel = seamless_search(&frames, 100_000).unwrap();
    assert_eq!(sel.start, 0);
    assert_eq!(sel.end, 3);
    assert_eq!(sel.similarity, 1_000_000);
    assert_eq!(sel.score, 986_602);
}

#[test]
fn test_single_frame_no_candidates() {
    let frames: Vec<Vec<u8>> = vec![vec![1, 2, 3]];
    assert_eq!(seamless_search(&frames, 500_000), Err(LoopError::NoCandidates));
}

#[test]
fn test_empty_catalog_no_candidates() {
    let frames: Vec<Vec<u8>> = Vec::new();
    assert_eq!(seamless_search(&frames, 500_000), Err(LoopError::NoCandidates));
}

#[test]
fn test_two_identical_frames() {
    let frames: Vec<Vec<u8>> = vec![vec![9, 9, 9], vec![9, 9, 9]];
    let sel = seamless_search(&frames, 500_000).unwrap();
    assert_eq!(sel.start, 0);
    assert_eq!(sel.end, 1);
    assert_eq!(sel.similarity, 1_000_000);
}

#[test]
fn test_mismatched_resolutions_interleaved() {
    // Two resolutions interleaved: only same-size pairs may be considered,
    // and the degenerate candidate of the last small frame is never the
    // global best.
    let frames: Vec<Vec<u8>> = vec![
        vec![0, 0, 0, 0],
        vec![0, 0, 0, 0, 0, 0, 0, 0],
        vec![0, 0, 0, 0],
        vec![0, 0, 0, 0, 0, 0, 0, 0],
    ];
    let sel = seamless_search(&frames, 500_000).unwrap();
    assert_eq!(sel.start, 0);
    assert_eq!(sel.end, 2);
    assert_eq!(frames[sel.start].len(), frames[sel.end].len());
}

#[test]
fn test_all_pairs_mismatched_degenerate() {
    // No feasible pair at all: the selection degenerates to a self-pair
    // with score zero, and the search still succeeds.
    let frames: Vec<Vec<u8>> = vec![vec![1], vec![2, 2], vec![3, 3, 3]];
    let sel = seamless_search(&frames, 500_000).unwrap();
    assert_eq!(sel.start, 0);
    assert_eq!(sel.end, 0);
    assert_eq!(sel.score, 0);
}

#[test]
fn test_inner_tie_keeps_smallest_end() {
    // Three identical frames with zero duration weight: every pair scores
    // the same, so the first maximum in increasing end order is kept.
    let frames: Vec<Vec<u8>> = vec![vec![5, 5], vec![5, 5], vec![5, 5]];
    let sel = seamless_search(&frames, 0).unwrap();
    assert_eq!(sel.start, 0);
    assert_eq!(sel.end, 1);
}

#[test]
fn test_best_candidate_skips_mismatched() {
    let frames: Vec<Vec<u8>> = vec![vec![1, 1], vec![1, 1, 1], vec![1, 1]];
    let c = best_candidate(&frames, 0, 500_000);
    assert_eq!(c.start, 0);
    assert_eq!(c.end, 2);
    let c1 = best_candidate(&frames, 1, 500_000);
    assert_eq!(c1.start, 1);
    assert_eq!(c1.end, 1);
    assert_eq!(c1.score, 0);
}

#[test]
fn test_select_best_ties_keep_first() {
    let candidates = vec![
        SimilarityScore { start: 0, end: 1, similarity: 10, score: 70 },
        SimilarityScore { start: 1, end: 2, similarity: 20, score: 90 },
        SimilarityScore { start: 2, end: 3, similarity: 30, score: 90 },
    ];
    let best = select_best(&candidates);
    assert_eq!(best.start, 1);
    assert_eq!(best.end, 2);
    assert_eq!(best.score, 90);
}
