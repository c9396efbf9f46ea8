use vstd::prelude::*;
use vstd::assert_multisets_equal;
use vstd::seq_lib::lemma_multiset_commutative;
use crate::error::LoopError;

verus! {

/// ASCII `/`, the path separator of the byte paths this catalog works on.
pub const PATH_SEP: u8 = 47;

/// ASCII `.`, the separator before a file name's extension.
pub const DOT: u8 = 46;

/// Byte-lexicographic order on paths.
pub open spec fn lex_le(a: Seq<u8>, b: Seq<u8>) -> bool
    decreases a.len(),
{
    if a.len() == 0 {
        true
    } else if b.len() == 0 {
        false
    } else if a[0] < b[0] {
        true
    } else if a[0] > b[0] {
        false
    } else {
        lex_le(a.drop_first(), b.drop_first())
    }
}

/// Byte-lexicographic order is total.
pub proof fn lemma_lex_le_total(a: Seq<u8>, b: Seq<u8>)
    ensures
        lex_le(a, b) || lex_le(b, a),
    decreases a.len(),
{
    if a.len() != 0 && b.len() != 0 && a[0] == b[0] {
        lemma_lex_le_total(a.drop_first(), b.drop_first());
    }
}

/// Byte-lexicographic order is transitive.
pub proof fn lemma_lex_le_trans(a: Seq<u8>, b: Seq<u8>, c: Seq<u8>)
    requires
        lex_le(a, b),
        lex_le(b, c),
    ensures
        lex_le(a, c),
    decreases a.len(),
{
    if a.len() != 0 {
        if b.len() != 0 && c.len() != 0 && a[0] == b[0] && b[0] == c[0] {
            lemma_lex_le_trans(a.drop_first(), b.drop_first(), c.drop_first());
        }
    }
}

/// Byte-lexicographic comparison of two paths.
pub fn bytes_le(a: &Vec<u8>, b: &Vec<u8>) -> (r: bool)
    ensures
        r == lex_le(a@, b@),
{
    let mut i: usize = 0;
    proof {
        assert(a@.skip(0) =~= a@);
        assert(b@.skip(0) =~= b@);
    }
    while i < a.len() && i < b.len()
        invariant
            i <= a@.len(),
            i <= b@.len(),
            lex_le(a@, b@) == lex_le(a@.skip(i as int), b@.skip(i as int)),
        decreases a@.len() - i,
    {
        let x = a[i];
        let y = b[i];
        proof {
            assert(a@.skip(i as int)[0] == a@[i as int]);
            assert(b@.skip(i as int)[0] == b@[i as int]);
        }
        if x < y {
            return true;
        }
        if x > y {
            return false;
        }
        proof {
            assert(a@.skip(i as int).drop_first() =~= a@.skip(i + 1));
            assert(b@.skip(i as int).drop_first() =~= b@.skip(i + 1));
        }
        i += 1;
    }
    proof {
        if i == a@.len() {
            assert(a@.skip(i as int).len() == 0);
        } else {
            assert(b@.skip(i as int).len() == 0);
            assert(a@.skip(i as int).len() > 0);
        }
    }
    i == a.len()
}

/// The largest index at which `c` occurs in `s`, or `-1` if it never does.
pub open spec fn last_occurrence(s: Seq<u8>, c: u8) -> int
    decreases s.len(),
{
    if s.len() == 0 {
        -1
    } else if s.last() == c {
        s.len() - 1
    } else {
        last_occurrence(s.drop_last(), c)
    }
}

pub proof fn lemma_last_occurrence_props(s: Seq<u8>, c: u8)
    ensures
        -1 <= last_occurrence(s, c) < s.len(),
    decreases s.len(),
{
    if s.len() != 0 && s.last() != c {
        lemma_last_occurrence_props(s.drop_last(), c);
    }
}

/// The index of the last occurrence of `c` in `v`, if any.
pub fn find_last(v: &Vec<u8>, c: u8) -> (r: Option<usize>)
    ensures
        match r {
            Some(k) => k as int == last_occurrence(v@, c),
            None => last_occurrence(v@, c) == -1,
        },
{
    let mut i = v.len();
    proof {
        assert(v@.take(v@.len() as int) =~= v@);
    }
    while i > 0
        invariant
            i <= v@.len(),
            last_occurrence(v@, c) == last_occurrence(v@.take(i as int), c),
        decreases i,
    {
        i -= 1;
        proof {
            let t = v@.take(i + 1);
            assert(t.last() == v@[i as int]);
            assert(t.drop_last() =~= v@.take(i as int));
        }
        if v[i] == c {
            return Some(i);
        }
    }
    None
}

/// The file-name part of a byte path: everything after the last separator,
/// or the whole path when it has none.
pub open spec fn file_name(p: Seq<u8>) -> Seq<u8> {
    p.skip(last_occurrence(p, PATH_SEP) + 1)
}

/// Whether the path's file name carries exactly the extension `ext`: the
/// part after the last dot of the name, which must not be its first byte
/// (a name that starts with its only dot has no extension).
pub open spec fn matches_ext(p: Seq<u8>, ext: Seq<u8>) -> bool {
    let name = file_name(p);
    let d = last_occurrence(name, DOT);
    d > 0 && name.skip(d + 1) == ext
}

/// A copy of the bytes of `v` from `start` on.
pub(crate) fn tail_from(v: &Vec<u8>, start: usize) -> (r: Vec<u8>)
    requires
        start <= v@.len(),
    ensures
        r@ == v@.skip(start as int),
{
    let mut r: Vec<u8> = Vec::new();
    let mut i = start;
    while i < v.len()
        invariant
            start <= i <= v@.len(),
            r@ =~= v@.subrange(start as int, i as int),
        decreases v@.len() - i,
    {
        r.push(v[i]);
        i += 1;
    }
    proof {
        assert(v@.subrange(start as int, v@.len() as int) =~= v@.skip(start as int));
        assert(r@ =~= v@.skip(start as int));
    }
    r
}

/// Byte-for-byte equality of two paths.
fn bytes_eq(a: &Vec<u8>, b: &Vec<u8>) -> (r: bool)
    ensures
        r == (a@ == b@),
{
    if a.len() != b.len() {
        return false;
    }
    let mut i: usize = 0;
    while i < a.len()
        invariant
            i <= a@.len(),
            a@.len() == b@.len(),
            forall|k: int| 0 <= k < i ==> a@[k] == b@[k],
        decreases a@.len() - i,
    {
        if a[i] != b[i] {
            return false;
        }
        i += 1;
    }
    proof {
        assert(a@ =~= b@);
    }
    true
}

/// Whether a path's file name carries the extension `ext`.
pub fn has_extension(path: &Vec<u8>, ext: &Vec<u8>) -> (r: bool)
    ensures
        r == matches_ext(path@, ext@),
{
    proof {
        lemma_last_occurrence_props(path@, PATH_SEP);
    }
    // Fixes in scope that the path's length fits a usize, so that the
    // occurrence index below may be stepped past the separator.
    let _path_len = path.len();
    let name_start = match find_last(path, PATH_SEP) {
        Some(k) => k + 1,
        None => 0,
    };
    let name = tail_from(path, name_start);
    proof {
        assert(name@ == file_name(path@));
        lemma_last_occurrence_props(name@, DOT);
    }
    // As above, for stepping past the dot of the file name.
    let _name_len = name.len();
    match find_last(&name, DOT) {
        Some(d) => {
            if d == 0 {
                false
            } else {
                let suffix = tail_from(&name, d + 1);
                bytes_eq(&suffix, ext)
            }
        },
        None => false,
    }
}

/// The subsequence of `paths` whose file names carry the extension `ext`,
/// in their original order.
pub open spec fn matching(paths: Seq<Vec<u8>>, ext: Seq<u8>) -> Seq<Vec<u8>>
    decreases paths.len(),
{
    if paths.len() == 0 {
        Seq::empty()
    } else {
        let prefix = matching(paths.drop_last(), ext);
        if matches_ext(paths.last()@, ext) {
            prefix.push(paths.last())
        } else {
            prefix
        }
    }
}

/// What the filter keeps: exactly the matching paths. Every kept path
/// comes from the listing and carries the extension, and every listed path
/// that carries it is kept.
pub proof fn lemma_matching_props(paths: Seq<Vec<u8>>, ext: Seq<u8>)
    ensures
        forall|k: int|
            0 <= k < matching(paths, ext).len() ==> matches_ext(
                (#[trigger] matching(paths, ext)[k])@,
                ext,
            ) && paths.contains(matching(paths, ext)[k]),
        forall|k: int|
            0 <= k < paths.len() && matches_ext((#[trigger] paths[k])@, ext) ==> matching(
                paths,
                ext,
            ).contains(paths[k]),
    decreases paths.len(),
{
    if paths.len() > 0 {
        lemma_matching_props(paths.drop_last(), ext);
        let prefix = matching(paths.drop_last(), ext);
        let whole = matching(paths, ext);
        assert forall|k: int|
            0 <= k < whole.len() implies matches_ext((#[trigger] whole[k])@, ext)
            && paths.contains(whole[k]) by {
            if k < prefix.len() {
                assert(whole[k] == prefix[k]);
                let i = choose|i: int| 0 <= i < paths.drop_last().len() && paths.drop_last()[i]
                    == prefix[k];
                assert(paths[i] == prefix[k]);
            } else {
                assert(whole[k] == paths.last());
            }
        };
        assert forall|k: int|
            0 <= k < paths.len() && matches_ext((#[trigger] paths[k])@, ext) implies whole.contains(
            paths[k],
        ) by {
            if k < paths.len() - 1 {
                assert(paths.drop_last()[k] == paths[k]);
                let i = choose|i: int| 0 <= i < prefix.len() && prefix[i] == paths[k];
                assert(whole[i] == paths[k]);
            } else {
                assert(whole[whole.len() - 1] == paths[k]);
            }
        };
    }
}

/// Paths in byte-lexicographic order.
pub open spec fn sorted_paths(s: Seq<Vec<u8>>) -> bool {
    forall|i: int, j: int| 0 <= i < j < s.len() ==> lex_le(s[i]@, s[j]@)
}

/// Removing an element and putting it back elsewhere leaves the same
/// multiset of paths.
proof fn lemma_remove_insert_multiset(s: Seq<Vec<u8>>, i: int, pos: int)
    requires
        0 <= i < s.len(),
        0 <= pos <= s.len() - 1,
    ensures
        s.remove(i).insert(pos, s[i]).to_multiset() == s.to_multiset(),
{
    broadcast use vstd::multiset::group_multiset_axioms;

    let x = s[i];
    let mid = s.remove(i);
    let l = mid.subrange(0, pos);
    let r = mid.subrange(pos, mid.len() as int);
    s.to_multiset_ensures();
    mid.to_multiset_ensures();
    l.to_multiset_ensures();
    assert(mid =~= l + r);
    lemma_multiset_commutative(l, r);
    lemma_multiset_commutative(l.push(x), r);
    assert(mid.insert(pos, x) == l.push(x) + r);
    assert(s.contains(x));
    assert(s.to_multiset().count(x) > 0);
    assert_multisets_equal!(l.push(x).to_multiset().add(r.to_multiset()), mid.to_multiset().insert(x));
    assert_multisets_equal!(mid.to_multiset().insert(x), s.to_multiset());
}

/// Sort paths into byte-lexicographic order; a stable insertion sort, so
/// equal paths keep their relative order.
pub fn sort_paths(v: &mut Vec<Vec<u8>>)
    ensures
        sorted_paths(final(v)@),
        final(v)@.to_multiset() == old(v)@.to_multiset(),
        final(v)@.len() == old(v)@.len(),
{
    let mut i: usize = 1;
    while i < v.len()
        invariant
            1 <= i,
            v@.len() == old(v)@.len(),
            v@.len() > 0 ==> i <= v@.len(),
            v@.len() == 0 ==> i == 1,
            sorted_paths(v@.take(if i <= v@.len() { i as int } else { v@.len() as int })),
            v@.to_multiset() == old(v)@.to_multiset(),
        decreases v@.len() - i,
    {
        let ghost s = v@;
        let x = v.remove(i);
        let mut pos: usize = 0;
        while pos < i
            invariant
                pos <= i,
                i < s.len(),
                v@ == s.remove(i as int),
                x == s[i as int],
                forall|k: int| 0 <= k < pos ==> lex_le(v@[k]@, x@),
            ensures
                pos <= i,
                i < s.len(),
                v@ == s.remove(i as int),
                x == s[i as int],
                forall|k: int| 0 <= k < pos ==> lex_le(v@[k]@, x@),
                pos < i ==> !lex_le(v@[pos as int]@, x@),
            decreases i - pos,
        {
            if !bytes_le(&v[pos], &x) {
                break ;
            }
            pos += 1;
        }
        v.insert(pos, x);
        proof {
            let mid = s.remove(i as int);
            let newv = mid.insert(pos as int, x);
            s.remove_ensures(i as int);
            mid.insert_ensures(pos as int, x);
            lemma_remove_insert_multiset(s, i as int, pos as int);
            assert(v@ == newv);
            if pos < i {
                lemma_lex_le_total(mid[pos as int]@, x@);
            }
            assert forall|a: int, b: int|
                0 <= a < b < i + 1 implies lex_le(newv[a]@, newv[b]@) by {
                assert(sorted_paths(s.take(i as int)));
                assert(forall|k: int| 0 <= k < i ==> mid[k] == s[k]);
                if b < pos {
                } else if b == pos {
                    assert(newv[b] == x);
                    assert(newv[a] == mid[a]);
                } else {
                    assert(newv[b] == mid[b - 1]);
                    if a < pos {
                        assert(newv[a] == mid[a]);
                        assert(lex_le(s[a]@, s[b - 1]@));
                    } else if a == pos {
                        assert(newv[a] == x);
                        assert(lex_le(x@, mid[pos as int]@));
                        if pos < b - 1 {
                            assert(lex_le(s[pos as int]@, s[b - 1]@));
                            lemma_lex_le_trans(x@, mid[pos as int]@, mid[b - 1]@);
                        }
                    } else {
                        assert(newv[a] == mid[a - 1]);
                        assert(lex_le(s[a - 1]@, s[b - 1]@));
                    }
                }
            };
            assert(sorted_paths(v@.take(i + 1)));
        }
        i += 1;
    }
    proof {
        if v@.len() > 0 {
            assert(v@.take(v@.len() as int) =~= v@);
        }
    }
}

/// Keep the paths that carry the wanted extension and sort them into
/// byte-lexicographic order. Fails with `NoMatchingFiles` exactly when no
/// path matches.
pub fn plan_catalog(paths: Vec<Vec<u8>>, ext: &Vec<u8>) -> (r: Result<Vec<Vec<u8>>, LoopError>)
    ensures
        r is Ok <==> matching(paths@, ext@).len() > 0,
        matching(paths@, ext@).len() == 0 ==> r == Err::<Vec<Vec<u8>>, LoopError>(
            LoopError::NoMatchingFiles,
        ),
        r is Ok ==> ({
            let v = r.unwrap();
            &&& sorted_paths(v@)
            &&& v@.to_multiset() == matching(paths@, ext@).to_multiset()
            &&& v@.len() == matching(paths@, ext@).len()
        }),
{
    let ghost orig = paths@;
    let mut rest = paths;
    let total = rest.len();
    let mut found: Vec<Vec<u8>> = Vec::new();
    let mut j: usize = 0;
    proof {
        assert(rest@ =~= orig.skip(0));
    }
    while rest.len() > 0
        invariant
            orig.len() == total,
            j + rest@.len() == orig.len(),
            rest@ == orig.skip(j as int),
            found@ == matching(orig.take(j as int), ext@),
        decreases rest@.len(),
    {
        let p = rest.remove(0);
        proof {
            assert(p == orig[j as int]);
            assert(rest@ =~= orig.skip(j + 1));
            let t = orig.take(j + 1);
            assert(t.drop_last() =~= orig.take(j as int));
            assert(t.last() == orig[j as int]);
        }
        if has_extension(&p, ext) {
            found.push(p);
        }
        j += 1;
    }
    proof {
        assert(orig.take(orig.len() as int) =~= orig);
    }
    if found.len() == 0 {
        return Err(LoopError::NoMatchingFiles);
    }
    sort_paths(&mut found);
    Ok(found)
}

} // verus!
