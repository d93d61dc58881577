//! Case-insensitive substring replacement over byte strings.
//!
//! The anonymizer rewrites transcript text by replacing every occurrence of
//! each known participant string with its pseudonym.  Matching is exact or
//! ASCII-case-insensitive; only the known strings are replaced, unrelated
//! text is copied unchanged.  The lemmas at the end show that after the
//! rewrite no occurrence of a replaced string remains, provided the
//! replacement strings share no (case-folded) byte with it.

use vstd::prelude::*;
use crate::id::fold_case;
use crate::bytes::push_all;
use crate::bytes::copy_bytes;
use crate::bytes::has_byte;

verus! {

/// `n` occurs in `h` at position `i`, comparing case-folded bytes.
pub open spec fn match_at(h: Seq<u8>, n: Seq<u8>, i: int) -> bool {
    &&& 0 <= i
    &&& i + n.len() <= h.len()
    &&& forall|k: int| 0 <= k < n.len() ==> fold_case(h[i + k]) == fold_case(n[k])
}

/// `h` holds an occurrence of `n`, case-insensitively.
pub open spec fn contains_ci(h: Seq<u8>, n: Seq<u8>) -> bool {
    exists|i: int| match_at(h, n, i)
}

/// No case-folded byte of `r` equals a case-folded byte of `n`.
pub open spec fn fold_disjoint(r: Seq<u8>, n: Seq<u8>) -> bool {
    forall|i: int, j: int|
        0 <= i < r.len() && 0 <= j < n.len() ==> fold_case(r[i]) != fold_case(n[j])
}

/// Replace the leftmost, non-overlapping, case-insensitive occurrences of
/// `n` in `h` by `r`.
pub open spec fn replace_ci(h: Seq<u8>, n: Seq<u8>, r: Seq<u8>) -> Seq<u8>
    decreases h.len(),
{
    if n.len() == 0 || h.len() < n.len() {
        h
    } else if match_at(h, n, 0) {
        r + replace_ci(h.skip(n.len() as int), n, r)
    } else {
        seq![h[0]] + replace_ci(h.skip(1), n, r)
    }
}

/// Check for an occurrence of `n` at position `i` of `h`.
fn match_at_exec(h: &[u8], n: &[u8], i: usize) -> (b: bool)
    requires
        i + n@.len() <= h@.len(),
    ensures
        b == match_at(h@, n@, i as int),
{
    let hl = h.len();
    let nl = n.len();
    let mut k: usize = 0;
    while k < nl
        invariant
            hl == h@.len(),
            nl == n@.len(),
            i + nl <= hl,
            0 <= k <= nl,
            forall|j: int| 0 <= j < k ==> fold_case(h@[i + j]) == fold_case(n@[j]),
        decreases nl - k,
    {
        let mut hb = h[i + k];
        let mut nb = n[k];
        if 65 <= hb && hb <= 90 {
            hb = hb + 32;
        }
        if 65 <= nb && nb <= 90 {
            nb = nb + 32;
        }
        if hb != nb {
            proof {
                assert(fold_case(h@[i + k]) != fold_case(n@[k as int]));
            }
            return false;
        }
        k = k + 1;
    }
    true
}

/// Compute `replace_ci(h, n, r)`.
pub fn replace_ci_exec(h: &[u8], n: &[u8], r: &[u8]) -> (out: Vec<u8>)
    ensures
        out@ == replace_ci(h@, n@, r@),
{
    let mut out: Vec<u8> = Vec::new();
    if n.len() == 0 {
        push_all(&mut out, h);
        return out;
    }
    proof {
        assert(h@.skip(0) =~= h@);
        assert(Seq::<u8>::empty() + replace_ci(h@, n@, r@) =~= replace_ci(h@, n@, r@));
    }
    let mut i: usize = 0;
    while i < h.len()
        invariant
            n@.len() > 0,
            0 <= i <= h@.len(),
            replace_ci(h@, n@, r@) == out@ + replace_ci(h@.skip(i as int), n@, r@),
        decreases h@.len() - i,
    {
        let ghost rem = h@.skip(i as int);
        if h.len() - i >= n.len() && match_at_exec(h, n, i) {
            push_all(&mut out, r);
            proof {
                assert(match_at(rem, n@, 0)) by {
                    assert(forall|k: int|
                        0 <= k < n@.len() ==> rem[k] == h@[i + k]);
                }
                assert(replace_ci(rem, n@, r@) == r@ + replace_ci(
                    rem.skip(n@.len() as int),
                    n@,
                    r@,
                ));
                assert(rem.skip(n@.len() as int) =~= h@.skip(i + n@.len()));
            }
            i = i + n.len();
        } else {
            out.push(h[i]);
            proof {
                assert(rem.len() == h@.len() - i);
                assert(rem[0] == h@[i as int]);
                if rem.len() >= n@.len() {
                    assert(!match_at(h@, n@, i as int));
                    assert(!match_at(rem, n@, 0)) by {
                        assert(forall|k: int|
                            0 <= k < n@.len() ==> rem[k] == h@[i + k]);
                    }
                    assert(replace_ci(rem, n@, r@) == seq![rem[0]] + replace_ci(
                        rem.skip(1),
                        n@,
                        r@,
                    ));
                } else {
                    assert(replace_ci(rem, n@, r@) == rem);
                    assert(replace_ci(rem.skip(1), n@, r@) == rem.skip(1));
                    assert(rem =~= seq![rem[0]] + rem.skip(1));
                }
                assert(rem.skip(1) =~= h@.skip(i + 1));
                assert((out@ + seq![h@[i as int]]) + replace_ci(h@.skip(i + 1), n@, r@)
                    =~= out@ + (seq![rem[0]] + replace_ci(rem.skip(1), n@, r@)));
            }
            i = i + 1;
        }
    }
    proof {
        assert(h@.skip(h@.len() as int) =~= Seq::<u8>::empty());
        assert(replace_ci(Seq::<u8>::empty(), n@, r@) == Seq::<u8>::empty());
        assert(out@ + Seq::<u8>::empty() =~= out@);
    }
    out
}

/// Every byte of the replacement result comes from `h` or from `r`: a byte
/// absent from both is absent from the result.
pub proof fn lemma_replace_bytes(h: Seq<u8>, n: Seq<u8>, r: Seq<u8>, b: u8)
    requires
        !has_byte(h, b),
        !has_byte(r, b),
    ensures
        !has_byte(replace_ci(h, n, r), b),
    decreases h.len(),
{
    if n.len() == 0 || h.len() < n.len() {
    } else if match_at(h, n, 0) {
        assert(!has_byte(h.skip(n.len() as int), b)) by {
            assert(forall|k: int|
                0 <= k < h.skip(n.len() as int).len() ==> h.skip(n.len() as int)[k] == h[k
                    + n.len()]);
        }
        lemma_replace_bytes(h.skip(n.len() as int), n, r, b);
        let res = r + replace_ci(h.skip(n.len() as int), n, r);
        assert forall|i: int| 0 <= i < res.len() implies res[i] != b by {
            if i < r.len() {
                assert(res[i] == r[i]);
            } else {
                assert(res[i] == replace_ci(h.skip(n.len() as int), n, r)[i - r.len()]);
            }
        }
    } else {
        assert(!has_byte(h.skip(1), b)) by {
            assert(forall|k: int| 0 <= k < h.skip(1).len() ==> h.skip(1)[k] == h[k + 1]);
        }
        lemma_replace_bytes(h.skip(1), n, r, b);
        let res = seq![h[0]] + replace_ci(h.skip(1), n, r);
        assert forall|i: int| 0 <= i < res.len() implies res[i] != b by {
            if i == 0 {
                assert(res[0] == h[0]);
            } else {
                assert(res[i] == replace_ci(h.skip(1), n, r)[i - 1]);
            }
        }
    }
}

/// An occurrence of `n` in `a + b` that starts past `a` is an occurrence in `b`.
pub proof fn lemma_match_in_tail(a: Seq<u8>, b: Seq<u8>, n: Seq<u8>, i: int)
    requires
        match_at(a + b, n, i),
        i >= a.len(),
    ensures
        match_at(b, n, i - a.len()),
{
    let s = a + b;
    assert forall|k: int| 0 <= k < n.len() implies fold_case(
        b[(i - a.len()) + k],
    ) == fold_case(#[trigger] n[k]) by {
        assert(s[i + k] == b[(i - a.len()) + k]);
        assert(fold_case(s[i + k]) == fold_case(n[k]));
    }
}

/// An occurrence of `n` in `h.skip(off)` lifts to one in `h`.
proof fn lemma_match_lift(h: Seq<u8>, off: int, n: Seq<u8>, i: int)
    requires
        0 <= off <= h.len(),
        match_at(h.skip(off), n, i),
    ensures
        match_at(h, n, i + off),
{
    let s = h.skip(off);
    assert forall|k: int| 0 <= k < n.len() implies fold_case(
        h[(i + off) + k],
    ) == fold_case(#[trigger] n[k]) by {
        assert(s[i + k] == h[(i + off) + k]);
        assert(fold_case(s[i + k]) == fold_case(n[k]));
    }
}

/// If the first `d` bytes of the replacement result case-fold-match the
/// last `d` bytes of a pattern `p` that is fold-disjoint from `r`, those
/// bytes were copied unchanged from the head of `h`.
proof fn lemma_prefix_copied(h: Seq<u8>, n: Seq<u8>, r: Seq<u8>, p: Seq<u8>, d: int)
    requires
        n.len() > 0,
        r.len() > 0,
        fold_disjoint(r, p),
        0 <= d <= p.len(),
        d <= replace_ci(h, n, r).len(),
        forall|k: int|
            0 <= k < d ==> fold_case(#[trigger] replace_ci(h, n, r)[k]) == fold_case(
                p[p.len() - d + k],
            ),
    ensures
        d <= h.len(),
        forall|k: int| 0 <= k < d ==> replace_ci(h, n, r)[k] == h[k],
    decreases h.len(),
{
    let res = replace_ci(h, n, r);
    if d == 0 {
    } else if h.len() < n.len() {
        assert(res == h);
    } else if match_at(h, n, 0) {
        assert(res == r + replace_ci(h.skip(n.len() as int), n, r));
        assert(res[0] == r[0]);
        assert(fold_case(res[0]) == fold_case(p[p.len() - d]));
        assert(false);
    } else {
        let tail = replace_ci(h.skip(1), n, r);
        assert(res == seq![h[0]] + tail);
        assert(res[0] == h[0]);
        assert forall|k: int|
            0 <= k < d - 1 implies fold_case(#[trigger] tail[k]) == fold_case(
            p[p.len() - (d - 1) + k],
        ) by {
            assert(tail[k] == res[k + 1]);
            assert(fold_case(res[k + 1]) == fold_case(p[p.len() - d + (k + 1)]));
        }
        lemma_prefix_copied(h.skip(1), n, r, p, d - 1);
        assert forall|k: int| 0 <= k < d implies res[k] == h[k] by {
            if k == 0 {
            } else {
                assert(tail[k - 1] == h.skip(1)[k - 1]);
                assert(h.skip(1)[k - 1] == h[k]);
                assert(res[k] == tail[k - 1]);
            }
        }
    }
}

/// After replacing `n` by a fold-disjoint, non-empty `r`, no occurrence of
/// `n` remains.
pub proof fn lemma_replace_removes(h: Seq<u8>, n: Seq<u8>, r: Seq<u8>)
    requires
        n.len() > 0,
        r.len() > 0,
        fold_disjoint(r, n),
    ensures
        !contains_ci(replace_ci(h, n, r), n),
    decreases h.len(),
{
    let res = replace_ci(h, n, r);
    if h.len() < n.len() {
        assert forall|i: int| !match_at(res, n, i) by {
            if 0 <= i && i + n.len() <= res.len() {
                assert(res.len() < n.len());
                assert(false);
            }
        }
    } else if match_at(h, n, 0) {
        let tail = replace_ci(h.skip(n.len() as int), n, r);
        lemma_replace_removes(h.skip(n.len() as int), n, r);
        assert(res == r + tail);
        assert forall|i: int| !match_at(res, n, i) by {
            if match_at(res, n, i) {
                if i < r.len() {
                    assert(fold_case(res[i]) == fold_case(n[0]));
                    assert(res[i] == r[i]);
                    assert(false);
                } else {
                    lemma_match_in_tail(r, tail, n, i);
                    assert(false);
                }
            }
        }
    } else {
        let tail = replace_ci(h.skip(1), n, r);
        lemma_replace_removes(h.skip(1), n, r);
        assert(res == seq![h[0]] + tail);
        assert forall|i: int| !match_at(res, n, i) by {
            if match_at(res, n, i) {
                if i >= 1 {
                    lemma_match_in_tail(seq![h[0]], tail, n, i);
                    assert(false);
                } else {
                    let d = n.len() - 1;
                    assert forall|k: int|
                        0 <= k < d implies fold_case(#[trigger] tail[k]) == fold_case(
                        n[n.len() - d + k],
                    ) by {
                        assert(tail[k] == res[k + 1]);
                        assert(fold_case(res[0 + (k + 1)]) == fold_case(n[k + 1]));
                    }
                    lemma_prefix_copied(h.skip(1), n, r, n, d);
                    assert(match_at(h, n, 0)) by {
                        assert forall|k: int|
                            0 <= k < n.len() implies fold_case(h[0 + k]) == fold_case(n[k]) by {
                            if k == 0 {
                                assert(res[0] == h[0]);
                                assert(fold_case(res[0int + 0]) == fold_case(n[0]));
                            } else {
                                assert(tail[k - 1] == h.skip(1)[k - 1]);
                                assert(h.skip(1)[k - 1] == h[k]);
                                assert(res[k] == tail[k - 1]);
                                assert(fold_case(res[0 + k]) == fold_case(n[k]));
                            }
                        }
                    }
                    assert(false);
                }
            }
        }
    }
}

/// Replacing some other string `n` by a non-empty `r` that is fold-disjoint
/// from a pattern `p` cannot introduce an occurrence of `p`.
pub proof fn lemma_replace_preserves(h: Seq<u8>, n: Seq<u8>, r: Seq<u8>, p: Seq<u8>)
    requires
        n.len() > 0,
        r.len() > 0,
        p.len() > 0,
        fold_disjoint(r, p),
        !contains_ci(h, p),
    ensures
        !contains_ci(replace_ci(h, n, r), p),
    decreases h.len(),
{
    let res = replace_ci(h, n, r);
    if h.len() < n.len() {
        assert(res == h);
    } else if match_at(h, n, 0) {
        let h1 = h.skip(n.len() as int);
        assert(!contains_ci(h1, p)) by {
            assert forall|i: int| !match_at(h1, p, i) by {
                if match_at(h1, p, i) {
                    lemma_match_lift(h, n.len() as int, p, i);
                    assert(false);
                }
            }
        }
        let tail = replace_ci(h1, n, r);
        lemma_replace_preserves(h1, n, r, p);
        assert(res == r + tail);
        assert forall|i: int| !match_at(res, p, i) by {
            if match_at(res, p, i) {
                if i < r.len() {
                    assert(fold_case(res[i]) == fold_case(p[0]));
                    assert(res[i] == r[i]);
                    assert(false);
                } else {
                    lemma_match_in_tail(r, tail, p, i);
                    assert(false);
                }
            }
        }
    } else {
        let h1 = h.skip(1);
        assert(!contains_ci(h1, p)) by {
            assert forall|i: int| !match_at(h1, p, i) by {
                if match_at(h1, p, i) {
                    lemma_match_lift(h, 1, p, i);
                    assert(false);
                }
            }
        }
        let tail = replace_ci(h1, n, r);
        lemma_replace_preserves(h1, n, r, p);
        assert(res == seq![h[0]] + tail);
        assert forall|i: int| !match_at(res, p, i) by {
            if match_at(res, p, i) {
                if i >= 1 {
                    lemma_match_in_tail(seq![h[0]], tail, p, i);
                    assert(false);
                } else {
                    let d = p.len() - 1;
                    assert forall|k: int|
                        0 <= k < d implies fold_case(#[trigger] tail[k]) == fold_case(
                        p[p.len() - d + k],
                    ) by {
                        assert(tail[k] == res[k + 1]);
                        assert(fold_case(res[0 + (k + 1)]) == fold_case(p[k + 1]));
                    }
                    lemma_prefix_copied(h1, n, r, p, d);
                    assert(match_at(h, p, 0)) by {
                        assert forall|k: int|
                            0 <= k < p.len() implies fold_case(h[0 + k]) == fold_case(p[k]) by {
                            if k == 0 {
                                assert(res[0] == h[0]);
                                assert(fold_case(res[0int + 0]) == fold_case(p[0]));
                            } else {
                                assert(tail[k - 1] == h1[k - 1]);
                                assert(h1[k - 1] == h[k]);
                                assert(res[k] == tail[k - 1]);
                                assert(fold_case(res[0 + k]) == fold_case(p[k]));
                            }
                        }
                    }
                    assert(false);
                }
            }
        }
    }
}

/// The views of a list of (needle, replacement) pairs.
pub open spec fn pairs_view(ps: Seq<(Vec<u8>, Vec<u8>)>) -> Seq<(Seq<u8>, Seq<u8>)> {
    ps.map_values(|p: (Vec<u8>, Vec<u8>)| (p.0@, p.1@))
}

/// Apply each (needle, replacement) pair in order, left to right.
pub open spec fn rewrite_all(s: Seq<u8>, pairs: Seq<(Seq<u8>, Seq<u8>)>) -> Seq<u8>
    decreases pairs.len(),
{
    if pairs.len() == 0 {
        s
    } else {
        rewrite_all(replace_ci(s, pairs[0].0, pairs[0].1), pairs.skip(1))
    }
}

/// Compute `rewrite_all(s, pairs)`.
pub fn rewrite_all_exec(s: &[u8], pairs: &Vec<(Vec<u8>, Vec<u8>)>) -> (out: Vec<u8>)
    ensures
        out@ == rewrite_all(s@, pairs_view(pairs@)),
{
    let ghost pv = pairs_view(pairs@);
    let mut cur: Vec<u8> = Vec::new();
    push_all(&mut cur, s);
    proof {
        assert(cur@ =~= s@);
        assert(pv.skip(0) =~= pv);
    }
    let mut i: usize = 0;
    while i < pairs.len()
        invariant
            0 <= i <= pairs@.len(),
            pv == pairs_view(pairs@),
            rewrite_all(s@, pv) == rewrite_all(cur@, pv.skip(i as int)),
        decreases pairs@.len() - i,
    {
        let next = replace_ci_exec(cur.as_slice(), pairs[i].0.as_slice(), pairs[i].1.as_slice());
        proof {
            let rest = pv.skip(i as int);
            assert(rest[0] == pv[i as int]);
            assert(pv[i as int] == (pairs@[i as int].0@, pairs@[i as int].1@));
            assert(rewrite_all(cur@, rest) == rewrite_all(
                replace_ci(cur@, rest[0].0, rest[0].1),
                rest.skip(1),
            ));
            assert(rest.skip(1) =~= pv.skip(i + 1));
            assert(next@ == replace_ci(cur@, rest[0].0, rest[0].1));
        }
        cur = next;
        i = i + 1;
    }
    proof {
        assert(pv.skip(pv.len() as int) =~= Seq::<(Seq<u8>, Seq<u8>)>::empty());
    }
    cur
}

/// Insert a pair before the first pair whose needle is no longer than
/// its own.
pub open spec fn insert_by_len(
    p: (Seq<u8>, Seq<u8>),
    l: Seq<(Seq<u8>, Seq<u8>)>,
) -> Seq<(Seq<u8>, Seq<u8>)>
    decreases l.len(),
{
    if l.len() == 0 {
        seq![p]
    } else if p.0.len() >= l[0].0.len() {
        seq![p] + l
    } else {
        seq![l[0]] + insert_by_len(p, l.skip(1))
    }
}

/// The pairs ordered by needle length, longest first: a longer
/// participant string is always replaced before any shorter one it
/// contains, so an overlapped name is never clobbered by a substring's
/// pseudonym.
pub open spec fn sort_by_len(l: Seq<(Seq<u8>, Seq<u8>)>) -> Seq<(Seq<u8>, Seq<u8>)>
    decreases l.len(),
{
    if l.len() == 0 {
        Seq::empty()
    } else {
        insert_by_len(l.last(), sort_by_len(l.drop_last()))
    }
}

/// Inserting keeps exactly the elements.
proof fn lemma_insert_elements(p: (Seq<u8>, Seq<u8>), l: Seq<(Seq<u8>, Seq<u8>)>)
    ensures
        insert_by_len(p, l).len() == l.len() + 1,
        forall|j: int|
            0 <= j < insert_by_len(p, l).len() ==> #[trigger] insert_by_len(p, l)[j] == p
                || l.contains(insert_by_len(p, l)[j]),
        insert_by_len(p, l).contains(p),
        forall|k: int| 0 <= k < l.len() ==> insert_by_len(p, l).contains(#[trigger] l[k]),
    decreases l.len(),
{
    let res = insert_by_len(p, l);
    if l.len() == 0 {
        assert(res[0] == p);
    } else if p.0.len() >= l[0].0.len() {
        assert(res[0] == p);
        assert forall|j: int| 0 <= j < res.len() implies #[trigger] res[j] == p || l.contains(
            res[j],
        ) by {
            if j > 0 {
                assert(res[j] == l[j - 1]);
            }
        }
        assert forall|k: int| 0 <= k < l.len() implies res.contains(#[trigger] l[k]) by {
            assert(res[k + 1] == l[k]);
        }
    } else {
        lemma_insert_elements(p, l.skip(1));
        let rest = insert_by_len(p, l.skip(1));
        assert(res == seq![l[0]] + rest);
        assert forall|j: int| 0 <= j < res.len() implies #[trigger] res[j] == p || l.contains(
            res[j],
        ) by {
            if j == 0 {
                assert(res[0] == l[0]);
            } else {
                assert(res[j] == rest[j - 1]);
                if rest[j - 1] != p {
                    let w = choose|w: int| 0 <= w < l.skip(1).len() && l.skip(1)[w] == rest[j - 1];
                    assert(l[w + 1] == rest[j - 1]);
                }
            }
        }
        assert(res.contains(p)) by {
            let w = choose|w: int| 0 <= w < rest.len() && rest[w] == p;
            assert(res[w + 1] == p);
        }
        assert forall|k: int| 0 <= k < l.len() implies res.contains(#[trigger] l[k]) by {
            if k == 0 {
                assert(res[0] == l[0]);
            } else {
                assert(l.skip(1)[k - 1] == l[k]);
                assert(rest.contains(l.skip(1)[k - 1]));
                let w = choose|w: int| 0 <= w < rest.len() && rest[w] == l[k];
                assert(res[w + 1] == l[k]);
            }
        }
    }
}

/// Sorting keeps exactly the elements.
pub proof fn lemma_sort_elements(l: Seq<(Seq<u8>, Seq<u8>)>)
    ensures
        sort_by_len(l).len() == l.len(),
        forall|j: int|
            0 <= j < sort_by_len(l).len() ==> l.contains(#[trigger] sort_by_len(l)[j]),
        forall|k: int| 0 <= k < l.len() ==> sort_by_len(l).contains(#[trigger] l[k]),
    decreases l.len(),
{
    if l.len() > 0 {
        lemma_sort_elements(l.drop_last());
        lemma_insert_elements(l.last(), sort_by_len(l.drop_last()));
        let res = sort_by_len(l);
        assert forall|j: int| 0 <= j < res.len() implies l.contains(#[trigger] res[j]) by {
            if res[j] == l.last() {
                assert(l[l.len() - 1] == res[j]);
            } else {
                assert(sort_by_len(l.drop_last()).contains(res[j]));
                let w = choose|w: int|
                    0 <= w < sort_by_len(l.drop_last()).len() && sort_by_len(l.drop_last())[w]
                        == res[j];
                let v = choose|v: int|
                    0 <= v < l.drop_last().len() && l.drop_last()[v] == sort_by_len(
                        l.drop_last(),
                    )[w];
                assert(l[v] == res[j]);
            }
        }
        assert forall|k: int| 0 <= k < l.len() implies res.contains(#[trigger] l[k]) by {
            if k == l.len() - 1 {
                assert(res.contains(l.last()));
            } else {
                assert(l.drop_last()[k] == l[k]);
                assert(sort_by_len(l.drop_last()).contains(l.drop_last()[k]));
                let w = choose|w: int|
                    0 <= w < sort_by_len(l.drop_last()).len() && sort_by_len(l.drop_last())[w]
                        == l[k];
                assert(res.contains(sort_by_len(l.drop_last())[w]));
            }
        }
    }
}

/// Inserting at the found position is the spec insertion.
proof fn lemma_insert_at(p: (Seq<u8>, Seq<u8>), l: Seq<(Seq<u8>, Seq<u8>)>, pos: int)
    requires
        0 <= pos <= l.len(),
        forall|j: int| 0 <= j < pos ==> (#[trigger] l[j]).0.len() > p.0.len(),
        pos < l.len() ==> l[pos].0.len() <= p.0.len(),
    ensures
        insert_by_len(p, l) =~= l.subrange(0, pos) + seq![p] + l.subrange(pos, l.len() as int),
    decreases pos,
{
    if pos == 0 {
        if l.len() == 0 {
            assert(insert_by_len(p, l) =~= l.subrange(0, 0) + seq![p] + l.subrange(0, 0));
        } else {
            assert(l[0].0.len() <= p.0.len());
            assert(insert_by_len(p, l) =~= l.subrange(0, 0) + seq![p] + l.subrange(
                0,
                l.len() as int,
            ));
        }
    } else {
        assert(l[0].0.len() > p.0.len());
        assert(forall|j: int| 0 <= j < pos - 1 ==> (#[trigger] l.skip(1)[j]).0.len() > p.0.len())
            by {
            assert(forall|j: int| 0 <= j < l.skip(1).len() ==> l.skip(1)[j] == l[j + 1]);
        }
        assert(pos - 1 < l.skip(1).len() ==> l.skip(1)[pos - 1].0.len() <= p.0.len());
        lemma_insert_at(p, l.skip(1), pos - 1);
        assert(insert_by_len(p, l) =~= l.subrange(0, pos) + seq![p] + l.subrange(
            pos,
            l.len() as int,
        ));
    }
}

/// Order the pairs longest needle first.
pub fn sort_pairs_by_len(pairs: &Vec<(Vec<u8>, Vec<u8>)>) -> (out: Vec<(Vec<u8>, Vec<u8>)>)
    ensures
        pairs_view(out@) == sort_by_len(pairs_view(pairs@)),
{
    let ghost pv = pairs_view(pairs@);
    let mut out: Vec<(Vec<u8>, Vec<u8>)> = Vec::new();
    proof {
        assert(pv.subrange(0, 0) =~= Seq::<(Seq<u8>, Seq<u8>)>::empty());
        assert(pairs_view(out@) =~= sort_by_len(pv.subrange(0, 0)));
    }
    let mut i: usize = 0;
    while i < pairs.len()
        invariant
            0 <= i <= pairs@.len(),
            pv == pairs_view(pairs@),
            pairs_view(out@) == sort_by_len(pv.subrange(0, i as int)),
        decreases pairs@.len() - i,
    {
        let plen = pairs[i].0.len();
        let mut pos: usize = 0;
        while pos < out.len() && out[pos].0.len() > plen
            invariant
                0 <= pos <= out@.len(),
                plen == pv[i as int].0.len(),
                pv == pairs_view(pairs@),
                0 <= i < pairs@.len(),
                forall|j: int|
                    0 <= j < pos ==> (#[trigger] pairs_view(out@)[j]).0.len() > plen,
            decreases out@.len() - pos,
    {
            proof {
                assert(pairs_view(out@)[pos as int].0 == out@[pos as int].0@);
            }
            pos = pos + 1;
        }
        let item = (copy_bytes(pairs[i].0.as_slice()), copy_bytes(pairs[i].1.as_slice()));
        let ghost before = pairs_view(out@);
        proof {
            assert(pos < out@.len() ==> pairs_view(out@)[pos as int].0.len() <= plen) by {
                if pos < out@.len() {
                    assert(pairs_view(out@)[pos as int].0 == out@[pos as int].0@);
                }
            }
        }
        out.insert(pos, item);
        proof {
            lemma_insert_at(pv[i as int], before, pos as int);
            assert(item.0@ == pv[i as int].0 && item.1@ == pv[i as int].1);
            assert(pairs_view(out@) =~= before.subrange(0, pos as int) + seq![pv[i as int]]
                + before.subrange(pos as int, before.len() as int));
            assert(pairs_view(out@) =~= insert_by_len(pv[i as int], before));
            assert(pv.subrange(0, i + 1).drop_last() =~= pv.subrange(0, i as int));
            assert(pv.subrange(0, i + 1).last() == pv[i as int]);
        }
        i = i + 1;
    }
    proof {
        assert(pv.subrange(0, pv.len() as int) =~= pv);
    }
    out
}

/// Every replacement string in `pairs` is non-empty and shares no
/// case-folded byte with the pattern `p`.
pub open spec fn all_repls_safe_for(pairs: Seq<(Seq<u8>, Seq<u8>)>, p: Seq<u8>) -> bool {
    forall|j: int|
        0 <= j < pairs.len() ==> (#[trigger] pairs[j]).1.len() > 0 && fold_disjoint(pairs[j].1, p)
}

/// A full rewrite pass cannot introduce an occurrence of `p` when every
/// replacement string is non-empty and fold-disjoint from `p`.
pub proof fn lemma_rewrite_all_preserves(s: Seq<u8>, pairs: Seq<(Seq<u8>, Seq<u8>)>, p: Seq<u8>)
    requires
        p.len() > 0,
        !contains_ci(s, p),
        all_repls_safe_for(pairs, p),
    ensures
        !contains_ci(rewrite_all(s, pairs), p),
    decreases pairs.len(),
{
    if pairs.len() == 0 {
    } else {
        let n = pairs[0].0;
        let r = pairs[0].1;
        let s1 = replace_ci(s, n, r);
        if n.len() == 0 || s.len() < n.len() {
            assert(s1 == s);
        } else {
            lemma_replace_preserves(s, n, r, p);
        }
        assert(all_repls_safe_for(pairs.skip(1), p)) by {
            assert(forall|j: int|
                0 <= j < pairs.skip(1).len() ==> pairs.skip(1)[j] == pairs[j + 1]);
        }
        lemma_rewrite_all_preserves(s1, pairs.skip(1), p);
    }
}

/// After a full rewrite pass, a needle that stands in `pairs` no longer
/// occurs, provided every replacement string in the pass is non-empty and
/// fold-disjoint from it.
pub proof fn lemma_rewrite_all_removes(s: Seq<u8>, pairs: Seq<(Seq<u8>, Seq<u8>)>, t: int)
    requires
        0 <= t < pairs.len(),
        pairs[t].0.len() > 0,
        all_repls_safe_for(pairs, pairs[t].0),
    ensures
        !contains_ci(rewrite_all(s, pairs), pairs[t].0),
    decreases pairs.len(),
{
    let p = pairs[t].0;
    let n = pairs[0].0;
    let r = pairs[0].1;
    let s1 = replace_ci(s, n, r);
    assert(all_repls_safe_for(pairs.skip(1), p)) by {
        assert(forall|j: int| 0 <= j < pairs.skip(1).len() ==> pairs.skip(1)[j] == pairs[j + 1]);
    }
    if t == 0 {
        if s.len() < n.len() {
            assert forall|i: int| !match_at(s1, n, i) by {
                if 0 <= i && i + n.len() <= s1.len() {
                    assert(s1 == s);
                    assert(false);
                }
            }
        } else {
            lemma_replace_removes(s, n, r);
        }
        lemma_rewrite_all_preserves(s1, pairs.skip(1), p);
    } else {
        assert(pairs.skip(1)[t - 1] == pairs[t as int]);
        lemma_rewrite_all_removes(s1, pairs.skip(1), t - 1);
    }
}

/// A rewrite pass introduces no byte that was absent from both the input
/// and every replacement string.
pub proof fn lemma_rewrite_all_bytes(s: Seq<u8>, pairs: Seq<(Seq<u8>, Seq<u8>)>, b: u8)
    requires
        !has_byte(s, b),
        forall|j: int| 0 <= j < pairs.len() ==> !has_byte((#[trigger] pairs[j]).1, b),
    ensures
        !has_byte(rewrite_all(s, pairs), b),
    decreases pairs.len(),
{
    if pairs.len() == 0 {
    } else {
        lemma_replace_bytes(s, pairs[0].0, pairs[0].1, b);
        assert(forall|j: int| 0 <= j < pairs.skip(1).len() ==> pairs.skip(1)[j] == pairs[j + 1]);
        lemma_rewrite_all_bytes(replace_ci(s, pairs[0].0, pairs[0].1), pairs.skip(1), b);
    }
}

} // verus!
