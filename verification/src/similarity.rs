use vstd::prelude::*;
use vstd::arithmetic::div_mod::{
    lemma_div_is_ordered, lemma_div_multiples_vanish, lemma_div_pos_is_pos,
};
use vstd::arithmetic::mul::{
    lemma_mul_inequality, lemma_mul_nonnegative, lemma_mul_strictly_positive,
};

verus! {

/// Scores are fixed-point fractions: `SCALE` stands for the value 1.0, so a
/// similarity of `SCALE` means pixel-identical and 0 means maximally
/// different under the normalized euclidean metric.
pub const SCALE: u64 = 1_000_000;

/// The largest possible squared difference of two bytes, 255 * 255.
pub const MAX_SQ_DIFF: u64 = 65025;

/// `r` is the integer square root of `x`: the greatest integer whose square
/// does not exceed `x`.
pub open spec fn is_sqrt(r: int, x: int) -> bool {
    0 <= r && r * r <= x && x < (r + 1) * (r + 1)
}

/// The integer square root of a non-negative integer.
pub open spec fn sqrt_floor(x: int) -> int {
    choose|r: int| is_sqrt(r, x)
}

/// Every non-negative integer has an integer square root.
pub proof fn lemma_sqrt_exists(x: int) -> (r: int)
    requires
        0 <= x,
    ensures
        is_sqrt(r, x),
    decreases x,
{
    if x == 0 {
        assert(0 * 0 <= 0) by (nonlinear_arith);
        assert(0 < (0 + 1) * (0 + 1)) by (nonlinear_arith);
        0
    } else {
        let p = lemma_sqrt_exists(x - 1);
        if x < (p + 1) * (p + 1) {
            assert(p * p <= x - 1);
            p
        } else {
            assert((p + 1) * (p + 1) <= x);
            assert(x <= (p + 1) * (p + 1));
            assert(x < ((p + 1) + 1) * ((p + 1) + 1)) by (nonlinear_arith)
                requires
                    0 <= p,
                    x == (p + 1) * (p + 1),
            ;
            p + 1
        }
    }
}

/// Ground arithmetic facts about the score scale, stated once so that the
/// nonlinear prover sees them as constants.
proof fn lemma_scale_facts()
    ensures
        (SCALE as int) * (SCALE as int) == 1_000_000_000_000,
        (MAX_SQ_DIFF as int) * (u64::MAX as int) * 1_000_000_000_000 < u128::MAX as int,
{
    assert((1_000_000 as int) * 1_000_000 == 1_000_000_000_000) by (nonlinear_arith);
    assert((65025 as int) * (0xffff_ffff_ffff_ffff as int) * 1_000_000_000_000
        < 0xffff_ffff_ffff_ffff_ffff_ffff_ffff_ffff as int) by (nonlinear_arith);
}

/// The integer square root is unique.
pub proof fn lemma_sqrt_unique(r1: int, r2: int, x: int)
    requires
        is_sqrt(r1, x),
        is_sqrt(r2, x),
    ensures
        r1 == r2,
{
    assert(r1 == r2) by (nonlinear_arith)
        requires
            0 <= r1,
            r1 * r1 <= x,
            x < (r1 + 1) * (r1 + 1),
            0 <= r2,
            r2 * r2 <= x,
            x < (r2 + 1) * (r2 + 1),
    ;
}

/// `sqrt_floor` agrees with any witness of `is_sqrt`.
pub proof fn lemma_sqrt_floor_is(x: int, r: int)
    requires
        is_sqrt(r, x),
    ensures
        sqrt_floor(x) == r,
{
    assert(exists|q: int| is_sqrt(q, x));
    lemma_sqrt_unique(sqrt_floor(x), r, x);
}

/// The integer square root is monotone.
pub proof fn lemma_sqrt_floor_monotone(x: int, y: int)
    requires
        0 <= x <= y,
    ensures
        0 <= sqrt_floor(x) <= sqrt_floor(y),
{
    let rx = lemma_sqrt_exists(x);
    let ry = lemma_sqrt_exists(y);
    lemma_sqrt_floor_is(x, rx);
    lemma_sqrt_floor_is(y, ry);
    if rx > ry {
        assert(false) by (nonlinear_arith)
            requires
                x <= y,
                0 <= ry < rx,
                rx * rx <= x,
                y < (ry + 1) * (ry + 1),
        ;
    }
}

/// The integer square root, by binary search over the root.
pub fn isqrt(x: u128) -> (r: u128)
    ensures
        is_sqrt(r as int, x as int),
        r == sqrt_floor(x as int),
{
    let mut lo: u128 = 0;
    let mut hi: u128 = 0x1_0000_0000_0000_0000;
    proof {
        assert((0x1_0000_0000_0000_0000 as int) * (0x1_0000_0000_0000_0000 as int)
            == 0x1_0000_0000_0000_0000_0000_0000_0000_0000 as int) by (nonlinear_arith);
    }
    while lo + 1 < hi
        invariant
            lo < hi <= 0x1_0000_0000_0000_0000u128,
            (lo as int) * (lo as int) <= x as int,
            (x as int) < (hi as int) * (hi as int),
        decreases hi as int - lo as int,
    {
        let mid = lo + (hi - lo) / 2;
        proof {
            assert(lo < mid < hi);
            assert((mid as int) * (mid as int) <= u128::MAX as int) by (nonlinear_arith)
                requires
                    0 <= (mid as int) <= 0xffff_ffff_ffff_ffff as int,
            ;
        }
        if mid * mid <= x {
            lo = mid;
        } else {
            hi = mid;
        }
    }
    proof {
        lemma_sqrt_floor_is(x as int, lo as int);
    }
    lo
}

/// The sum over all positions of the squared byte difference.
pub open spec fn sum_sq_diff(a: Seq<u8>, b: Seq<u8>) -> int
    decreases a.len(),
{
    if a.len() == 0 || b.len() == 0 {
        0
    } else {
        sum_sq_diff(a.drop_last(), b.drop_last()) + (a.last() - b.last()) * (a.last()
            - b.last())
    }
}

pub proof fn lemma_sum_sq_diff_bounds(a: Seq<u8>, b: Seq<u8>)
    requires
        a.len() == b.len(),
    ensures
        0 <= sum_sq_diff(a, b) <= MAX_SQ_DIFF * a.len(),
    decreases a.len(),
{
    if a.len() != 0 {
        lemma_sum_sq_diff_bounds(a.drop_last(), b.drop_last());
        let d = a.last() - b.last();
        assert(0 <= d * d <= MAX_SQ_DIFF as int) by (nonlinear_arith)
            requires
                -255 <= d <= 255,
        ;
    }
}

pub proof fn lemma_sum_sq_diff_self(s: Seq<u8>)
    ensures
        sum_sq_diff(s, s) == 0,
    decreases s.len(),
{
    if s.len() != 0 {
        lemma_sum_sq_diff_self(s.drop_last());
    }
}

/// The squared normalized euclidean distance of two equal-length buffers,
/// in units of `1 / SCALE^2`.
pub open spec fn similarity_ratio(a: Seq<u8>, b: Seq<u8>) -> int {
    sum_sq_diff(a, b) * ((SCALE as int) * (SCALE as int)) / ((MAX_SQ_DIFF as int) * (a.len()
        as int))
}

/// The normalized euclidean similarity of two equal-length, non-empty
/// buffers: `SCALE` for identical buffers, down to 0 for maximally
/// different ones.
pub open spec fn similarity_spec(a: Seq<u8>, b: Seq<u8>) -> int {
    SCALE - sqrt_floor(similarity_ratio(a, b))
}

pub proof fn lemma_similarity_bounds(a: Seq<u8>, b: Seq<u8>)
    requires
        a.len() == b.len(),
        0 < a.len(),
    ensures
        0 <= similarity_spec(a, b) <= SCALE,
{
    let s2 = (SCALE as int) * (SCALE as int);
    let denom = (MAX_SQ_DIFF as int) * (a.len() as int);
    let num = sum_sq_diff(a, b) * s2;
    lemma_sum_sq_diff_bounds(a, b);
    lemma_scale_facts();
    lemma_mul_strictly_positive(MAX_SQ_DIFF as int, a.len() as int);
    lemma_mul_nonnegative(sum_sq_diff(a, b), s2);
    lemma_div_pos_is_pos(num, denom);
    lemma_mul_inequality(sum_sq_diff(a, b), denom, s2);
    assert(denom * s2 == s2 * denom) by (nonlinear_arith);
    lemma_div_is_ordered(num, s2 * denom, denom);
    lemma_div_multiples_vanish(s2, denom);
    assert(similarity_ratio(a, b) <= s2);
    let r = lemma_sqrt_exists(similarity_ratio(a, b));
    lemma_sqrt_floor_is(similarity_ratio(a, b), r);
    if r > SCALE as int {
        assert(false) by (nonlinear_arith)
            requires
                0 <= SCALE as int,
                r > SCALE as int,
                r * r <= similarity_ratio(a, b),
                similarity_ratio(a, b) <= (SCALE as int) * (SCALE as int),
        ;
    }
}

/// A buffer is perfectly similar to itself.
pub proof fn lemma_similarity_identical(s: Seq<u8>)
    requires
        0 < s.len(),
    ensures
        similarity_spec(s, s) == SCALE,
{
    lemma_sum_sq_diff_self(s);
    let denom = (MAX_SQ_DIFF as int) * (s.len() as int);
    lemma_mul_strictly_positive(MAX_SQ_DIFF as int, s.len() as int);
    assert(similarity_ratio(s, s) == 0) by {
        assert(0 * ((SCALE as int) * (SCALE as int)) == 0) by (nonlinear_arith);
        vstd::arithmetic::div_mod::lemma_div_of0(denom);
    };
    assert(is_sqrt(0, 0)) by (nonlinear_arith);
    lemma_sqrt_floor_is(0, 0);
}

/// The normalized euclidean similarity of two frames' pixel buffers.
pub fn similarity(a: &[u8], b: &[u8]) -> (r: u64)
    requires
        a@.len() == b@.len(),
        0 < a@.len(),
    ensures
        r == similarity_spec(a@, b@),
        r <= SCALE,
        a@ == b@ ==> r == SCALE,
{
    let n = a.len();
    let mut sum: u128 = 0;
    let mut i: usize = 0;
    while i < n
        invariant
            i <= n,
            n == a@.len(),
            n == b@.len(),
            sum as int == sum_sq_diff(a@.take(i as int), b@.take(i as int)),
            sum as int <= (MAX_SQ_DIFF as int) * (i as int),
        decreases n - i,
    {
        let ai = a[i];
        let bi = b[i];
        let d: u64 = if ai >= bi {
            (ai - bi) as u64
        } else {
            (bi - ai) as u64
        };
        proof {
            let ta = a@.take(i + 1 as int);
            let tb = b@.take(i + 1 as int);
            assert(ta.drop_last() =~= a@.take(i as int));
            assert(tb.drop_last() =~= b@.take(i as int));
            assert(ta.last() == a@[i as int]);
            assert(tb.last() == b@[i as int]);
            assert((d as int) * (d as int) == (a@[i as int] - b@[i as int]) * (a@[i as int]
                - b@[i as int])) by (nonlinear_arith)
                requires
                    d == a@[i as int] - b@[i as int] || d == b@[i as int] - a@[i as int],
            ;
            assert((MAX_SQ_DIFF as int) * ((i + 1) as int) == (MAX_SQ_DIFF as int) * (i as int)
                + MAX_SQ_DIFF as int) by (nonlinear_arith);
            assert((d as int) * (d as int) <= MAX_SQ_DIFF as int) by (nonlinear_arith)
                requires
                    0 <= d as int <= 255,
            ;
        }
        sum = sum + (d * d) as u128;
        i += 1;
    }
    proof {
        assert(a@.take(n as int) =~= a@);
        assert(b@.take(n as int) =~= b@);
        lemma_sum_sq_diff_bounds(a@, b@);
        assert((MAX_SQ_DIFF as int) * (n as int) <= (MAX_SQ_DIFF as int) * (u64::MAX as int))
            by (nonlinear_arith)
            requires
                n as int <= u64::MAX as int,
        ;
    }
    let denom: u128 = (MAX_SQ_DIFF as u128) * (n as u128);
    proof {
        lemma_scale_facts();
        let s2 = (SCALE as int) * (SCALE as int);
        lemma_mul_inequality(sum as int, denom as int, s2);
        lemma_mul_inequality(denom as int, (MAX_SQ_DIFF as int) * (u64::MAX as int), s2);
    }
    let num: u128 = sum * 1_000_000_000_000u128;
    let ratio = num / denom;
    proof {
        let s2 = (SCALE as int) * (SCALE as int);
        assert(num as int == sum_sq_diff(a@, b@) * s2);
        assert(ratio as int == similarity_ratio(a@, b@));
        lemma_similarity_bounds(a@, b@);
    }
    let d = isqrt(ratio);
    proof {
        lemma_sqrt_floor_is(ratio as int, d as int);
        assert(d <= SCALE);
        if a@ == b@ {
            lemma_similarity_identical(a@);
        }
    }
    SCALE - (d as u64)
}

/// The duration preference for a loop of `gap` frames out of `n`: the fixed
/// point square root of `gap / n`, monotone in the loop length.
pub open spec fn distance_ratio(gap: int, n: int) -> int {
    gap * ((SCALE as int) * (SCALE as int)) / n
}

pub open spec fn distance_spec(gap: int, n: int) -> int {
    sqrt_floor(distance_ratio(gap, n))
}

pub proof fn lemma_distance_bounds(gap: int, n: int)
    requires
        0 < n,
        0 <= gap <= n,
    ensures
        0 <= distance_spec(gap, n) <= SCALE,
{
    let s2 = (SCALE as int) * (SCALE as int);
    lemma_mul_nonnegative(gap, s2);
    lemma_div_pos_is_pos(gap * s2, n);
    lemma_mul_inequality(gap, n, s2);
    assert(n * s2 == s2 * n) by (nonlinear_arith);
    lemma_div_is_ordered(gap * s2, s2 * n, n);
    lemma_div_multiples_vanish(s2, n);
    assert(distance_ratio(gap, n) <= s2);
    let r = lemma_sqrt_exists(distance_ratio(gap, n));
    lemma_sqrt_floor_is(distance_ratio(gap, n), r);
    if r > SCALE as int {
        assert(false) by (nonlinear_arith)
            requires
                0 <= SCALE as int,
                r > SCALE as int,
                r * r <= distance_ratio(gap, n),
                distance_ratio(gap, n) <= (SCALE as int) * (SCALE as int),
        ;
    }
}

/// The duration preference for a loop of `gap` frames out of `n`.
pub fn distance(gap: usize, n: usize) -> (r: u64)
    requires
        0 < n,
        gap <= n,
    ensures
        r == distance_spec(gap as int, n as int),
        r <= SCALE,
{
    proof {
        lemma_scale_facts();
        lemma_mul_inequality(gap as int, n as int, 1_000_000_000_000);
        lemma_mul_inequality(n as int, u64::MAX as int, 1_000_000_000_000);
        assert((u64::MAX as int) * 1_000_000_000_000 < u128::MAX as int) by (nonlinear_arith);
    }
    let num: u128 = (gap as u128) * 1_000_000_000_000u128;
    let ratio = num / (n as u128);
    proof {
        assert((SCALE as int) * (SCALE as int) == 1_000_000_000_000) by (nonlinear_arith);
        assert(ratio as int == distance_ratio(gap as int, n as int));
        lemma_distance_bounds(gap as int, n as int);
    }
    let d = isqrt(ratio);
    proof {
        lemma_sqrt_floor_is(ratio as int, d as int);
    }
    d as u64
}

/// The composite score: the duration preference weighted by `w` plus the
/// similarity weighted by `SCALE - w`, in units of `1 / SCALE`.
pub open spec fn composite_spec(d: int, s: int, w: int) -> int {
    (d * w + s * ((SCALE as int) - w)) / (SCALE as int)
}

pub proof fn lemma_composite_bounds(d: int, s: int, w: int)
    requires
        0 <= d <= SCALE,
        0 <= s <= SCALE,
        0 <= w <= SCALE,
    ensures
        0 <= composite_spec(d, s, w) <= SCALE,
{
    let sc = SCALE as int;
    lemma_mul_nonnegative(d, w);
    lemma_mul_nonnegative(s, sc - w);
    lemma_div_pos_is_pos(d * w + s * (sc - w), sc);
    lemma_mul_inequality(d, sc, w);
    lemma_mul_inequality(s, sc, sc - w);
    assert(sc * w + sc * (sc - w) == sc * sc) by (nonlinear_arith);
    lemma_div_is_ordered(d * w + s * (sc - w), sc * sc, sc);
    lemma_div_multiples_vanish(sc, sc);
    assert(sc * sc / sc == sc);
}

/// The composite score of a candidate pair.
pub fn composite(d: u64, s: u64, w: u64) -> (r: u64)
    requires
        d <= SCALE,
        s <= SCALE,
        w <= SCALE,
    ensures
        r == composite_spec(d as int, s as int, w as int),
        r <= SCALE,
{
    proof {
        lemma_mul_inequality(d as int, SCALE as int, w as int);
        lemma_mul_inequality(s as int, SCALE as int, (SCALE - w) as int);
        assert((SCALE as int) * (w as int) + (SCALE as int) * ((SCALE - w) as int)
            == (SCALE as int) * (SCALE as int)) by (nonlinear_arith)
            requires
                w <= SCALE,
        ;
        assert((SCALE as int) * (SCALE as int) == 1_000_000_000_000) by (nonlinear_arith);
        lemma_mul_nonnegative(d as int, w as int);
        lemma_mul_nonnegative(s as int, (SCALE - w) as int);
    }
    let num: u64 = d * w + s * (SCALE - w);
    proof {
        lemma_composite_bounds(d as int, s as int, w as int);
    }
    num / SCALE
}

/// When the similarity is held constant and the weight is non-negative, the
/// composite score never decreases as the loop gets longer.
pub proof fn lemma_composite_monotone_in_gap(g1: int, g2: int, n: int, s: int, w: int)
    requires
        0 < n,
        0 <= g1 <= g2,
        0 <= s,
        0 <= w <= SCALE,
    ensures
        composite_spec(distance_spec(g1, n), s, w) <= composite_spec(distance_spec(g2, n), s, w),
{
    let s2 = (SCALE as int) * (SCALE as int);
    lemma_mul_inequality(g1, g2, s2);
    lemma_div_is_ordered(g1 * s2, g2 * s2, n);
    lemma_mul_nonnegative(g1, s2);
    lemma_div_pos_is_pos(g1 * s2, n);
    lemma_sqrt_floor_monotone(distance_ratio(g1, n), distance_ratio(g2, n));
    let d1 = distance_spec(g1, n);
    let d2 = distance_spec(g2, n);
    lemma_mul_inequality(d1, d2, w);
    lemma_div_is_ordered(d1 * w + s * ((SCALE as int) - w), d2 * w + s * ((SCALE as int) - w),
        SCALE as int);
}

} // verus!
