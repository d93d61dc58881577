//! Transcript lines.
//!
//! A transcript line is a sequence of fields separated by `|` (byte 124).
//! The anonymizer rewrites each field on its own, so a replacement can
//! never span or swallow a delimiter: the rewritten line has exactly the
//! fields of the original, each rewritten, and so keeps its field count.

use vstd::prelude::*;
use crate::bytes::has_byte;
use crate::bytes::push_all;
use crate::rewrite::pairs_view;
use crate::rewrite::rewrite_all;
use crate::rewrite::rewrite_all_exec;

verus! {

/// Split `s` at every occurrence of `sep`; `n` separators give `n + 1` fields.
pub open spec fn split_sep(s: Seq<u8>, sep: u8) -> Seq<Seq<u8>>
    decreases s.len(),
{
    if s.len() == 0 {
        seq![Seq::<u8>::empty()]
    } else if s[0] == sep {
        seq![Seq::<u8>::empty()] + split_sep(s.skip(1), sep)
    } else {
        let rest = split_sep(s.skip(1), sep);
        seq![seq![s[0]] + rest[0]] + rest.skip(1)
    }
}

/// Join fields with `sep` between each adjacent pair.
pub open spec fn join_sep(fs: Seq<Seq<u8>>, sep: u8) -> Seq<u8>
    decreases fs.len(),
{
    if fs.len() == 0 {
        Seq::empty()
    } else if fs.len() == 1 {
        fs[0]
    } else {
        fs[0] + seq![sep] + join_sep(fs.skip(1), sep)
    }
}

/// Splitting yields at least one field.
pub proof fn lemma_split_len_pos(s: Seq<u8>, sep: u8)
    ensures
        split_sep(s, sep).len() >= 1,
    decreases s.len(),
{
    if s.len() > 0 {
        lemma_split_len_pos(s.skip(1), sep);
    }
}

/// No field of a split holds the separator.
pub proof fn lemma_split_no_sep(s: Seq<u8>, sep: u8)
    ensures
        forall|i: int|
            0 <= i < split_sep(s, sep).len() ==> !has_byte(#[trigger] split_sep(s, sep)[i], sep),
    decreases s.len(),
{
    let out = split_sep(s, sep);
    if s.len() == 0 {
        assert forall|i: int| 0 <= i < out.len() implies !has_byte(out[i], sep) by {
            assert(out[i].len() == 0);
        }
    } else {
        lemma_split_no_sep(s.skip(1), sep);
        lemma_split_len_pos(s.skip(1), sep);
        let rest = split_sep(s.skip(1), sep);
        if s[0] == sep {
            assert forall|i: int| 0 <= i < out.len() implies !has_byte(out[i], sep) by {
                if i == 0 {
                    assert(out[0].len() == 0);
                } else {
                    assert(out[i] == rest[i - 1]);
                }
            }
        } else {
            assert forall|i: int| 0 <= i < out.len() implies !has_byte(out[i], sep) by {
                if i == 0 {
                    assert(out[0] == seq![s[0]] + rest[0]);
                    assert(!has_byte(rest[0], sep));
                    assert forall|k: int| 0 <= k < out[0].len() implies out[0][k] != sep by {
                        if k == 0 {
                            assert(out[0][0] == s[0]);
                        } else {
                            assert(out[0][k] == rest[0][k - 1]);
                        }
                    }
                } else {
                    assert(out[i] == rest.skip(1)[i - 1]);
                    assert(rest.skip(1)[i - 1] == rest[i]);
                }
            }
        }
    }
}

/// A separator-free string splits into itself alone.
proof fn lemma_split_whole(s: Seq<u8>, sep: u8)
    requires
        !has_byte(s, sep),
    ensures
        split_sep(s, sep) =~= seq![s],
    decreases s.len(),
{
    if s.len() == 0 {
        assert(s =~= Seq::<u8>::empty());
        assert(split_sep(s, sep) =~= seq![s]);
    } else {
        assert(s[0] != sep);
        assert(!has_byte(s.skip(1), sep)) by {
            assert(forall|k: int| 0 <= k < s.skip(1).len() ==> s.skip(1)[k] == s[k + 1]);
        }
        lemma_split_whole(s.skip(1), sep);
        let rest = split_sep(s.skip(1), sep);
        assert(rest[0] == s.skip(1));
        assert(seq![s[0]] + s.skip(1) =~= s);
        assert(rest.skip(1) =~= Seq::<Seq<u8>>::empty());
        assert(split_sep(s, sep) =~= seq![s]);
    }
}

/// Splitting `a + [sep] + b` with separator-free `a` yields `a` then the
/// fields of `b`.
proof fn lemma_split_prefix(a: Seq<u8>, b: Seq<u8>, sep: u8)
    requires
        !has_byte(a, sep),
    ensures
        split_sep(a + seq![sep] + b, sep) =~= seq![a] + split_sep(b, sep),
    decreases a.len(),
{
    let s = a + seq![sep] + b;
    if a.len() == 0 {
        assert(s[0] == sep);
        assert(s.skip(1) =~= b);
        assert(split_sep(s, sep) =~= seq![Seq::<u8>::empty()] + split_sep(b, sep));
        assert(a =~= Seq::<u8>::empty());
        assert(seq![a] =~= seq![Seq::<u8>::empty()]);
    } else {
        assert(s[0] == a[0]);
        assert(a[0] != sep);
        assert(!has_byte(a.skip(1), sep)) by {
            assert(forall|k: int| 0 <= k < a.skip(1).len() ==> a.skip(1)[k] == a[k + 1]);
        }
        assert(s.skip(1) =~= a.skip(1) + seq![sep] + b);
        lemma_split_prefix(a.skip(1), b, sep);
        let rest = split_sep(s.skip(1), sep);
        assert(rest =~= seq![a.skip(1)] + split_sep(b, sep));
        assert(rest[0] == a.skip(1));
        assert(seq![a[0]] + a.skip(1) =~= a);
        assert(rest.skip(1) =~= split_sep(b, sep));
        assert(split_sep(s, sep) =~= seq![a] + split_sep(b, sep));
    }
}

/// Joining separator-free fields and splitting again gives the fields back.
pub proof fn lemma_split_join(fs: Seq<Seq<u8>>, sep: u8)
    requires
        fs.len() >= 1,
        forall|i: int| 0 <= i < fs.len() ==> !has_byte(#[trigger] fs[i], sep),
    ensures
        split_sep(join_sep(fs, sep), sep) =~= fs,
    decreases fs.len(),
{
    if fs.len() == 1 {
        lemma_split_whole(fs[0], sep);
        assert(split_sep(join_sep(fs, sep), sep) =~= fs);
    } else {
        assert(forall|i: int| 0 <= i < fs.skip(1).len() ==> fs.skip(1)[i] == fs[i + 1]);
        lemma_split_join(fs.skip(1), sep);
        lemma_split_prefix(fs[0], join_sep(fs.skip(1), sep), sep);
        assert(split_sep(join_sep(fs, sep), sep) =~= fs);
    }
}

/// Joining one more field appends a separator and the field.
pub proof fn lemma_join_push(fs: Seq<Seq<u8>>, f: Seq<u8>, sep: u8)
    ensures
        fs.len() == 0 ==> join_sep(fs.push(f), sep) == f,
        fs.len() > 0 ==> join_sep(fs.push(f), sep) =~= join_sep(fs, sep) + seq![sep] + f,
    decreases fs.len(),
{
    if fs.len() == 0 {
        assert(fs.push(f)[0] == f);
    } else {
        lemma_join_push(fs.skip(1), f, sep);
        assert(fs.push(f).skip(1) =~= fs.skip(1).push(f));
        assert(fs.push(f)[0] == fs[0]);
        if fs.len() == 1 {
            assert(join_sep(fs.push(f), sep) =~= fs[0] + seq![sep] + f);
            assert(join_sep(fs, sep) == fs[0]);
        } else {
            assert(join_sep(fs.push(f), sep) =~= fs[0] + seq![sep] + (join_sep(fs.skip(1), sep)
                + seq![sep] + f));
            assert(fs[0] + seq![sep] + (join_sep(fs.skip(1), sep) + seq![sep] + f) =~= (fs[0]
                + seq![sep] + join_sep(fs.skip(1), sep)) + seq![sep] + f);
        }
    }
}

/// The views of a list of fields.
pub open spec fn fields_view(fs: Seq<Vec<u8>>) -> Seq<Seq<u8>> {
    fs.map_values(|f: Vec<u8>| f@)
}

/// Split a line into its fields.
pub fn split_line(s: &[u8], sep: u8) -> (fields: Vec<Vec<u8>>)
    ensures
        fields_view(fields@) =~= split_sep(s@, sep),
{
    let mut done: Vec<Vec<u8>> = Vec::new();
    let mut cur: Vec<u8> = Vec::new();
    proof {
        assert(s@.skip(0) =~= s@);
        lemma_split_len_pos(s@, sep);
        assert(split_sep(s@, sep) =~= fields_view(done@) + seq![cur@ + split_sep(s@, sep)[0]]
            + split_sep(s@, sep).skip(1)) by {
            assert(cur@ + split_sep(s@, sep)[0] =~= split_sep(s@, sep)[0]);
            assert(split_sep(s@, sep) =~= seq![split_sep(s@, sep)[0]] + split_sep(s@, sep).skip(
                1,
            ));
        }
    }
    let mut i: usize = 0;
    while i < s.len()
        invariant
            0 <= i <= s@.len(),
            split_sep(s@, sep).len() >= 1,
            split_sep(s@, sep) =~= fields_view(done@) + seq![cur@ + split_sep(
                s@.skip(i as int),
                sep,
            )[0]] + split_sep(s@.skip(i as int), sep).skip(1),
        decreases s@.len() - i,
    {
        let ghost rem = s@.skip(i as int);
        let ghost srem = split_sep(rem, sep);
        let ghost old_done = done@;
        let ghost old_cur = cur@;
        proof {
            assert(rem[0] == s@[i as int]);
            assert(rem.skip(1) =~= s@.skip(i + 1));
            lemma_split_len_pos(s@.skip(i + 1), sep);
        }
        if s[i] == sep {
            let finished = cur;
            cur = Vec::new();
            done.push(finished);
            proof {
                let nrem = s@.skip(i + 1);
                let snrem = split_sep(nrem, sep);
                assert(rem.skip(1) =~= nrem);
                assert(srem =~= seq![Seq::<u8>::empty()] + snrem);
                assert(srem[0] =~= Seq::<u8>::empty());
                assert(old_cur + srem[0] =~= old_cur);
                assert(srem.skip(1) =~= snrem);
                assert(snrem =~= seq![snrem[0]] + snrem.skip(1));
                assert(cur@ + snrem[0] =~= snrem[0]);
                assert(fields_view(done@) =~= fields_view(old_done).push(old_cur));
                assert(fields_view(old_done) + seq![old_cur + srem[0]] + srem.skip(1)
                    =~= fields_view(done@) + seq![cur@ + snrem[0]] + snrem.skip(1));
            }
        } else {
            cur.push(s[i]);
            proof {
                let nrem = s@.skip(i + 1);
                let snrem = split_sep(nrem, sep);
                assert(rem.skip(1) =~= nrem);
                assert(srem =~= seq![seq![rem[0]] + snrem[0]] + snrem.skip(1));
                assert(srem[0] =~= seq![rem[0]] + snrem[0]);
                assert(cur@ == old_cur.push(rem[0]));
                assert(cur@ + snrem[0] =~= old_cur + srem[0]);
                assert(srem.skip(1) =~= snrem.skip(1));
                assert(fields_view(done@) + seq![old_cur + srem[0]] + srem.skip(1)
                    =~= fields_view(done@) + seq![cur@ + snrem[0]] + snrem.skip(1));
            }
        }
        i = i + 1;
    }
    proof {
        assert(s@.skip(s@.len() as int) =~= Seq::<u8>::empty());
        assert(split_sep(Seq::<u8>::empty(), sep) =~= seq![Seq::<u8>::empty()]);
        assert(cur@ + Seq::<u8>::empty() =~= cur@);
    }
    done.push(cur);
    proof {
        assert(fields_view(done@) =~= fields_view(done@.drop_last()).push(
            done@.last()@,
        ));
    }
    done
}

/// Join fields back into one line.
pub fn join_line(fs: &Vec<Vec<u8>>, sep: u8) -> (out: Vec<u8>)
    ensures
        out@ == join_sep(fields_view(fs@), sep),
{
    let ghost fv = fields_view(fs@);
    let mut out: Vec<u8> = Vec::new();
    let mut i: usize = 0;
    proof {
        assert(fv.subrange(0, 0) =~= Seq::<Seq<u8>>::empty());
    }
    while i < fs.len()
        invariant
            0 <= i <= fs@.len(),
            fv == fields_view(fs@),
            out@ == join_sep(fv.subrange(0, i as int), sep),
        decreases fs@.len() - i,
    {
        if i > 0 {
            out.push(sep);
        }
        push_all(&mut out, fs[i].as_slice());
        proof {
            let pre = fv.subrange(0, i as int);
            assert(fv.subrange(0, i + 1) =~= pre.push(fv[i as int]));
            assert(fv[i as int] == fs@[i as int]@);
            lemma_join_push(pre, fv[i as int], sep);
        }
        i = i + 1;
    }
    proof {
        assert(fv.subrange(0, fv.len() as int) =~= fv);
    }
    out
}

/// The fields of `line`, each rewritten with `pairs`.
pub open spec fn rewritten_fields(line: Seq<u8>, pairs: Seq<(Seq<u8>, Seq<u8>)>) -> Seq<Seq<u8>> {
    split_sep(line, 124u8).map_values(|f: Seq<u8>| rewrite_all(f, pairs))
}

/// The line rewritten field by field.
pub open spec fn rewritten_line(line: Seq<u8>, pairs: Seq<(Seq<u8>, Seq<u8>)>) -> Seq<u8> {
    join_sep(rewritten_fields(line, pairs), 124u8)
}

/// Rewrite every field of a `|`-separated line.
pub fn rewrite_line(line: &[u8], pairs: &Vec<(Vec<u8>, Vec<u8>)>) -> (out: Vec<u8>)
    ensures
        out@ == rewritten_line(line@, pairs_view(pairs@)),
{
    let ghost pv = pairs_view(pairs@);
    let fields = split_line(line, 124u8);
    let mut rewritten: Vec<Vec<u8>> = Vec::new();
    let mut i: usize = 0;
    while i < fields.len()
        invariant
            0 <= i <= fields@.len(),
            fields_view(fields@) =~= split_sep(line@, 124u8),
            pv == pairs_view(pairs@),
            fields_view(rewritten@) =~= fields_view(fields@).subrange(0, i as int).map_values(
                |f: Seq<u8>| rewrite_all(f, pv),
            ),
        decreases fields@.len() - i,
    {
        let rf = rewrite_all_exec(fields[i].as_slice(), pairs);
        let ghost rfv = rf@;
        rewritten.push(rf);
        proof {
            let whole = fields_view(fields@);
            assert(whole.subrange(0, i + 1) =~= whole.subrange(0, i as int).push(
                whole[i as int],
            ));
            assert(whole[i as int] == fields@[i as int]@);
            assert(rfv == rewrite_all(whole[i as int], pv));
            assert(fields_view(rewritten@) =~= fields_view(rewritten@.drop_last()).push(rfv));
            assert(whole.subrange(0, i + 1).map_values(|f: Seq<u8>| rewrite_all(f, pv))
                =~= whole.subrange(0, i as int).map_values(|f: Seq<u8>| rewrite_all(f, pv)).push(
                rewrite_all(whole[i as int], pv),
            ));
        }
        i = i + 1;
    }
    proof {
        let whole = fields_view(fields@);
        assert(whole.subrange(0, whole.len() as int) =~= whole);
        assert(fields_view(rewritten@) =~= rewritten_fields(line@, pv));
    }
    join_line(&rewritten, 124u8)
}

/// The rewritten line has exactly the rewritten fields of the original:
/// in particular it keeps the original's delimiter-defined field count.
/// Holds whenever no replacement string carries the delimiter.
pub proof fn lemma_line_structure(line: Seq<u8>, pairs: Seq<(Seq<u8>, Seq<u8>)>)
    requires
        forall|j: int| 0 <= j < pairs.len() ==> !has_byte((#[trigger] pairs[j]).1, 124u8),
    ensures
        split_sep(rewritten_line(line, pairs), 124u8) =~= rewritten_fields(line, pairs),
        split_sep(rewritten_line(line, pairs), 124u8).len() == split_sep(line, 124u8).len(),
{
    let fs = split_sep(line, 124u8);
    let g = rewritten_fields(line, pairs);
    lemma_split_len_pos(line, 124u8);
    lemma_split_no_sep(line, 124u8);
    assert forall|i: int| 0 <= i < g.len() implies !has_byte(#[trigger] g[i], 124u8) by {
        assert(g[i] == rewrite_all(fs[i], pairs));
        crate::rewrite::lemma_rewrite_all_bytes(fs[i], pairs, 124u8);
    }
    lemma_split_join(g, 124u8);
}

} // verus!
