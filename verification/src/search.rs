use vstd::prelude::*;
use crate::error::LoopError;
use crate::similarity::{
    composite, composite_spec, distance, distance_spec, lemma_composite_bounds,
    lemma_distance_bounds, lemma_similarity_bounds, similarity, similarity_spec, SCALE,
};

verus! {

/// The candidate match emitted for one start index: the best matching end
/// index, its similarity, and the composite score that ranked it.
#[derive(Clone, Copy, Debug, PartialEq, Eq, Structural)]
pub struct SimilarityScore {
    pub start: usize,
    pub end: usize,
    pub similarity: u64,
    pub score: u64,
}

/// The pixel buffers of a catalog's frames, in catalog order.
pub open spec fn frames_view(frames: &Vec<Vec<u8>>) -> Seq<Seq<u8>> {
    Seq::new(frames@.len(), |i: int| frames@[i]@)
}

/// A pair of frames can be compared only when their buffers have the same
/// non-zero length; mismatched pairs are skipped, not errors.
pub open spec fn feasible(frames: Seq<Seq<u8>>, i: int, j: int) -> bool {
    frames[i].len() == frames[j].len() && 0 < frames[i].len()
}

pub open spec fn pair_similarity(frames: Seq<Seq<u8>>, i: int, j: int) -> int {
    similarity_spec(frames[i], frames[j])
}

/// The composite score of the pair `(i, j)`: duration preference weighted
/// against similarity.
pub open spec fn pair_score(frames: Seq<Seq<u8>>, i: int, j: int, w: int) -> int {
    composite_spec(distance_spec(j - i, frames.len() as int), pair_similarity(frames, i, j), w)
}

/// The candidate emitted for a start index with no feasible partner: a
/// degenerate self-pair with score zero.
pub open spec fn degenerate(i: int) -> SimilarityScore {
    SimilarityScore { start: i as usize, end: i as usize, similarity: 0, score: 0 }
}

/// The best candidate for start `i` among end indices below `upto`,
/// scanning in increasing order and keeping the first maximum on ties.
pub open spec fn candidate_upto(frames: Seq<Seq<u8>>, i: int, upto: int, w: int)
    -> SimilarityScore
    decreases upto - i,
{
    if upto <= i + 1 {
        degenerate(i)
    } else {
        let prev = candidate_upto(frames, i, upto - 1, w);
        let j = upto - 1;
        if feasible(frames, i, j) && pair_score(frames, i, j, w) > prev.score {
            SimilarityScore {
                start: i as usize,
                end: j as usize,
                similarity: pair_similarity(frames, i, j) as u64,
                score: pair_score(frames, i, j, w) as u64,
            }
        } else {
            prev
        }
    }
}

/// The candidate emitted for start index `i`: its best end over the whole
/// catalog.
pub open spec fn candidate_spec(frames: Seq<Seq<u8>>, i: int, w: int) -> SimilarityScore {
    candidate_upto(frames, i, frames.len() as int, w)
}

/// The element of greatest score among the first `upto` candidates, the
/// earliest on ties.
pub open spec fn best_of_upto(s: Seq<SimilarityScore>, upto: int) -> SimilarityScore
    decreases upto,
{
    if upto <= 1 {
        s[0]
    } else {
        let prev = best_of_upto(s, upto - 1);
        if s[upto - 1].score > prev.score {
            s[upto - 1]
        } else {
            prev
        }
    }
}

pub open spec fn best_of(s: Seq<SimilarityScore>) -> SimilarityScore {
    best_of_upto(s, s.len() as int)
}

/// One candidate per start index `i` in `[0, N-2]`.
pub open spec fn candidates_spec(frames: Seq<Seq<u8>>, w: int) -> Seq<SimilarityScore> {
    Seq::new((frames.len() - 1) as nat, |i: int| candidate_spec(frames, i, w))
}

/// The loop selection: the candidate of maximum composite score, ties
/// resolved toward the smallest start index.
pub open spec fn selection_spec(frames: Seq<Seq<u8>>, w: int) -> SimilarityScore {
    best_of(candidates_spec(frames, w))
}

/// Similarity and composite score of a feasible pair are fixed-point
/// fractions in `[0, SCALE]`.
pub proof fn lemma_pair_bounds(frames: Seq<Seq<u8>>, i: int, j: int, w: int)
    requires
        0 <= i < j < frames.len(),
        feasible(frames, i, j),
        0 <= w <= SCALE,
    ensures
        0 <= pair_similarity(frames, i, j) <= SCALE,
        0 <= pair_score(frames, i, j, w) <= SCALE,
{
    lemma_similarity_bounds(frames[i], frames[j]);
    lemma_distance_bounds(j - i, frames.len() as int);
    lemma_composite_bounds(
        distance_spec(j - i, frames.len() as int),
        pair_similarity(frames, i, j),
        w,
    );
}

/// What the candidate fold guarantees: the start is `i`; a degenerate
/// candidate has score zero; otherwise the end is a feasible partner whose
/// score is positive, maximal, and the first maximum in increasing end
/// order.
pub proof fn lemma_candidate_upto_props(frames: Seq<Seq<u8>>, i: int, upto: int, w: int)
    requires
        0 <= i < frames.len() <= usize::MAX,
        i + 1 <= upto <= frames.len(),
        0 <= w <= SCALE,
    ensures
        ({
            let c = candidate_upto(frames, i, upto, w);
            &&& c.start == i
            &&& i <= c.end < upto
            &&& (c.end == i ==> c.score == 0 && c.similarity == 0)
            &&& (c.end != i ==> i < c.end && feasible(frames, i, c.end as int)
                && c.similarity == pair_similarity(frames, i, c.end as int)
                && c.score == pair_score(frames, i, c.end as int, w) && c.score > 0)
            &&& (forall|j: int|
                i < j < upto && feasible(frames, i, j) ==> pair_score(frames, i, j, w)
                    <= c.score)
            &&& (forall|j: int|
                i < j < c.end && feasible(frames, i, j) ==> pair_score(frames, i, j, w)
                    < c.score)
        }),
    decreases upto - i,
{
    if upto <= i + 1 {
    } else {
        lemma_candidate_upto_props(frames, i, upto - 1, w);
        let prev = candidate_upto(frames, i, upto - 1, w);
        let j = upto - 1;
        if feasible(frames, i, j) && pair_score(frames, i, j, w) > prev.score {
            lemma_pair_bounds(frames, i, j, w);
        }
    }
}

/// The candidate for start `i` over the whole catalog, characterized.
pub proof fn lemma_candidate_props(frames: Seq<Seq<u8>>, i: int, w: int)
    requires
        0 <= i < frames.len() <= usize::MAX,
        0 <= w <= SCALE,
    ensures
        ({
            let c = candidate_spec(frames, i, w);
            &&& c.start == i
            &&& i <= c.end < frames.len()
            &&& (c.end == i ==> c.score == 0 && c.similarity == 0)
            &&& (c.end != i ==> i < c.end && feasible(frames, i, c.end as int)
                && c.similarity == pair_similarity(frames, i, c.end as int)
                && c.score == pair_score(frames, i, c.end as int, w) && c.score > 0)
            &&& (forall|j: int|
                i < j < frames.len() && feasible(frames, i, j) ==> pair_score(
                    frames,
                    i,
                    j,
                    w,
                ) <= c.score)
        }),
{
    lemma_candidate_upto_props(frames, i, frames.len() as int, w);
}

/// What the reduction fold guarantees: the result is one of the candidates,
/// has the greatest score, and is the earliest one of that score.
pub proof fn lemma_best_of_upto_props(s: Seq<SimilarityScore>, upto: int)
    requires
        1 <= upto <= s.len(),
    ensures
        ({
            let b = best_of_upto(s, upto);
            &&& (forall|k: int| 0 <= k < upto ==> s[k].score <= b.score)
            &&& (exists|k: int|
                0 <= k < upto && s[k] == b && (forall|k2: int|
                    0 <= k2 < k ==> s[k2].score < b.score))
        }),
    decreases upto,
{
    if upto <= 1 {
        let b = best_of_upto(s, upto);
        assert(s[0] == b && (forall|k2: int| 0 <= k2 < 0 ==> s[k2].score < b.score));
    } else {
        lemma_best_of_upto_props(s, upto - 1);
        let prev = best_of_upto(s, upto - 1);
        let b = best_of_upto(s, upto);
        if s[upto - 1].score > prev.score {
            assert(s[upto - 1] == b && (forall|k2: int|
                0 <= k2 < upto - 1 ==> s[k2].score < b.score));
        } else {
            let k = choose|k: int|
                0 <= k < upto - 1 && s[k] == prev && (forall|k2: int|
                    0 <= k2 < k ==> s[k2].score < prev.score);
            assert(s[k] == b && (forall|k2: int| 0 <= k2 < k ==> s[k2].score < b.score));
        }
    }
}

/// The best candidate for one start index, scanning end indices in
/// increasing order; dimension-mismatched pairs are skipped.
pub fn best_candidate(frames: &Vec<Vec<u8>>, i: usize, w: u64) -> (r: SimilarityScore)
    requires
        i < frames@.len(),
        w <= SCALE,
    ensures
        r == candidate_spec(frames_view(frames), i as int, w as int),
{
    let n = frames.len();
    let a = &frames[i];
    let mut best = SimilarityScore { start: i, end: i, similarity: 0, score: 0 };
    let mut j = i + 1;
    while j < n
        invariant
            i < j <= n,
            n == frames@.len(),
            w <= SCALE,
            a@ == frames@[i as int]@,
            best == candidate_upto(frames_view(frames), i as int, j as int, w as int),
        decreases n - j,
    {
        let b = &frames[j];
        if b.len() == a.len() && a.len() > 0 {
            let s = similarity(a.as_slice(), b.as_slice());
            let d = distance(j - i, n);
            let sc = composite(d, s, w);
            proof {
                assert(frames_view(frames)[j as int] == frames@[j as int]@);
                assert(sc == pair_score(frames_view(frames), i as int, j as int, w as int));
            }
            if sc > best.score {
                best = SimilarityScore { start: i, end: j, similarity: s, score: sc };
            }
        }
        j += 1;
    }
    best
}

/// The global reduction: the candidate of greatest composite score, the
/// first in start-index order on ties.
pub fn select_best(candidates: &Vec<SimilarityScore>) -> (r: SimilarityScore)
    requires
        candidates@.len() > 0,
    ensures
        r == best_of(candidates@),
{
    let mut best = candidates[0];
    let mut i: usize = 1;
    while i < candidates.len()
        invariant
            1 <= i <= candidates@.len(),
            best == best_of_upto(candidates@, i as int),
        decreases candidates@.len() - i,
    {
        let c = candidates[i];
        if c.score > best.score {
            best = c;
        }
        i += 1;
    }
    best
}

/// The pairwise loop search: one candidate per start index in `[0, N-2]`,
/// reduced to the selection of greatest composite score. Fails with
/// `NoCandidates` exactly when fewer than two frames exist.
pub fn seamless_search(frames: &Vec<Vec<u8>>, w: u64) -> (r: Result<SimilarityScore, LoopError>)
    requires
        w <= SCALE,
    ensures
        r is Ok <==> frames@.len() >= 2,
        frames@.len() < 2 ==> r == Err::<SimilarityScore, LoopError>(LoopError::NoCandidates),
        frames@.len() >= 2 ==> r == Ok::<SimilarityScore, LoopError>(
            selection_spec(frames_view(frames), w as int),
        ),
        r is Ok ==> ({
            let sel = r.unwrap();
            &&& sel.start <= sel.end
            &&& sel.start as int <= frames@.len() - 2
            &&& (sel.end as int) < frames@.len()
            &&& (sel.start != sel.end ==> feasible(
                frames_view(frames),
                sel.start as int,
                sel.end as int,
            ))
        }),
{
    let n = frames.len();
    if n < 2 {
        return Err(LoopError::NoCandidates);
    }
    let mut candidates: Vec<SimilarityScore> = Vec::new();
    let mut i: usize = 0;
    while i < n - 1
        invariant
            2 <= n == frames@.len(),
            w <= SCALE,
            i <= n - 1,
            candidates@.len() == i,
            forall|k: int|
                0 <= k < i ==> candidates@[k] == candidate_spec(
                    frames_view(frames),
                    k,
                    w as int,
                ),
        decreases n - 1 - i,
    {
        let c = best_candidate(frames, i, w);
        candidates.push(c);
        i += 1;
    }
    let sel = select_best(&candidates);
    proof {
        assert(candidates@ =~= candidates_spec(frames_view(frames), w as int));
        lemma_selection_feasible(frames_view(frames), w as int);
        lemma_selection_props(frames_view(frames), w as int);
    }
    Ok(sel)
}

/// The selection is one of the emitted candidates: its start is a valid
/// start index, it is exactly that start's candidate, and no candidate
/// scores higher.
pub proof fn lemma_selection_props(frames: Seq<Seq<u8>>, w: int)
    requires
        2 <= frames.len() <= usize::MAX,
        0 <= w <= SCALE,
    ensures
        ({
            let sel = selection_spec(frames, w);
            &&& sel.start as int <= frames.len() - 2
            &&& sel == candidate_spec(frames, sel.start as int, w)
            &&& (forall|i: int|
                0 <= i < frames.len() - 1 ==> candidate_spec(frames, i, w).score <= sel.score)
        }),
{
    let cands = candidates_spec(frames, w);
    lemma_best_of_upto_props(cands, cands.len() as int);
    let sel = selection_spec(frames, w);
    let k = choose|k: int|
        0 <= k < cands.len() && cands[k] == sel && (forall|k2: int|
            0 <= k2 < k ==> cands[k2].score < sel.score);
    lemma_candidate_props(frames, k, w);
    assert(cands[k] == candidate_spec(frames, k, w));
    assert(sel.start == k);
    assert(sel == candidate_spec(frames, sel.start as int, w));
    assert forall|i: int|
        0 <= i < frames.len() - 1 implies candidate_spec(frames, i, w).score <= sel.score by {
        assert(cands[i] == candidate_spec(frames, i, w));
        assert(cands[i].score <= sel.score);
    };
}

/// Dimension-mismatched pairs are never selected as the global best: when
/// the selection is not a degenerate self-pair, its two frames have equal
/// non-zero buffer lengths.
pub proof fn lemma_selection_feasible(frames: Seq<Seq<u8>>, w: int)
    requires
        2 <= frames.len() <= usize::MAX,
        0 <= w <= SCALE,
    ensures
        ({
            let sel = selection_spec(frames, w);
            &&& sel.start <= sel.end
            &&& (sel.end as int) < frames.len()
            &&& (sel.start != sel.end ==> feasible(frames, sel.start as int, sel.end as int))
        }),
{
    lemma_selection_props(frames, w);
    let sel = selection_spec(frames, w);
    lemma_candidate_props(frames, sel.start as int, w);
}

/// When some feasible pair has a positive composite score, the selection is
/// a proper loop range: its start lies strictly before its end.
pub proof fn lemma_positive_pair_selected_proper(frames: Seq<Seq<u8>>, w: int, i: int, j: int)
    requires
        2 <= frames.len() <= usize::MAX,
        0 <= w <= SCALE,
        0 <= i < j < frames.len(),
        feasible(frames, i, j),
        0 < pair_score(frames, i, j, w),
    ensures
        ({
            let sel = selection_spec(frames, w);
            &&& sel.start < sel.end
            &&& (sel.end as int) < frames.len()
        }),
{
    lemma_selection_props(frames, w);
    lemma_selection_feasible(frames, w);
    lemma_candidate_props(frames, i, w);
    let sel = selection_spec(frames, w);
    assert(candidate_spec(frames, i, w).score >= pair_score(frames, i, j, w));
    assert(sel.score > 0);
    lemma_candidate_props(frames, sel.start as int, w);
}

} // verus!
