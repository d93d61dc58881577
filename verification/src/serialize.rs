//! Writing a battle record back out as JSON.
//!
//! The output document holds exactly the fields of the record view, in a
//! fixed order.  Transcript lines are decoded text and are re-escaped as
//! they are written; the other string values are written verbatim between
//! quotes, as the values an anonymized record carries there (pseudonyms,
//! digit sentinels, and text taken from inside JSON strings of the source
//! document) hold no unescaped quote or backslash.

use vstd::prelude::*;
use crate::bytes::push_all;
use crate::record::BattleRecord;
use crate::record::EndType;
use crate::record::Rating;
use crate::transcript::join_sep;
use crate::transcript::fields_view;
use crate::transcript::lemma_join_push;
use vstd::string::StringSliceAdditionalSpecFns;

verus! {

/// The winner field as an optional byte string.
pub open spec fn winner_view(r: &BattleRecord) -> Option<Seq<u8>> {
    match r.winner {
        Option::None => Option::None,
        Option::Some(w) => Option::Some(w@),
    }
}

/// `s` between double quotes.
pub open spec fn quoted(s: Seq<u8>) -> Seq<u8> {
    seq![34u8] + s + seq![34u8]
}

/// One byte as JSON string text: quotes, backslashes and the common
/// control bytes become their escape pairs, everything else stands as is.
pub open spec fn esc_byte(b: u8) -> Seq<u8> {
    if b == 34 {
        seq![92u8, 34u8]
    } else if b == 92 {
        seq![92u8, 92u8]
    } else if b == 10 {
        seq![92u8, 110u8]
    } else if b == 9 {
        seq![92u8, 116u8]
    } else if b == 13 {
        seq![92u8, 114u8]
    } else if b == 8 {
        seq![92u8, 98u8]
    } else if b == 12 {
        seq![92u8, 102u8]
    } else {
        seq![b]
    }
}

/// A byte string as JSON string text, escaped byte by byte.
pub open spec fn esc_seq(s: Seq<u8>) -> Seq<u8>
    decreases s.len(),
{
    if s.len() == 0 {
        Seq::empty()
    } else {
        esc_seq(s.drop_last()) + esc_byte(s.last())
    }
}

/// `s` escaped, between double quotes.
pub open spec fn quoted_esc(s: Seq<u8>) -> Seq<u8> {
    seq![34u8] + esc_seq(s) + seq![34u8]
}

/// A JSON string, or `null` for an absent value.
pub open spec fn ser_opt_str(v: Option<Seq<u8>>) -> Seq<u8> {
    match v {
        Option::None => ("null").spec_bytes(),
        Option::Some(s) => quoted(s),
    }
}

/// The end-type tag.
pub open spec fn ser_end_type(e: EndType) -> Seq<u8> {
    match e {
        EndType::Normal => ("\"normal\"").spec_bytes(),
        EndType::Forfeit => ("\"forfeit\"").spec_bytes(),
        EndType::Other => ("\"other\"").spec_bytes(),
    }
}

/// A rating snapshot object, or `null`.
pub open spec fn ser_rating(rt: Option<Rating>) -> Seq<u8> {
    match rt {
        Option::None => ("null").spec_bytes(),
        Option::Some(x) => ("{\"userid\":").spec_bytes() + quoted(x.userid@) + (
        ",\"elo\":\"").spec_bytes() + x.elo@ + ("\",\"rptime\":\"").spec_bytes() + x.rptime@ + (
        "\",\"rd\":\"").spec_bytes() + x.rd@ + ("\",\"oldelo\":\"").spec_bytes() + x.oldelo@ + (
        "\"}").spec_bytes(),
    }
}

/// The transcript as a JSON array of strings, each line escaped.
pub open spec fn ser_log(lines: Seq<Seq<u8>>) -> Seq<u8> {
    ("[").spec_bytes() + join_sep(lines.map_values(|l: Seq<u8>| quoted_esc(l)), 44u8) + (
    "]").spec_bytes()
}

/// The serialized fields standing before the transcript array's items.
pub open spec fn ser_head(r: &BattleRecord) -> Seq<u8> {
    ("{\"p1\":").spec_bytes() + quoted(r.p1@) + (",\"p2\":").spec_bytes() + quoted(r.p2@) + (
    ",\"winner\":").spec_bytes() + ser_opt_str(winner_view(r)) + (",\"endType\":").spec_bytes() + ser_end_type(r.end_type) + (
    ",\"p1rating\":").spec_bytes() + ser_rating(r.p1rating) + (",\"p2rating\":").spec_bytes()
        + ser_rating(r.p2rating) + (",\"log\":[").spec_bytes()
}

/// The serialized fields standing after the transcript array's items.
pub open spec fn ser_tail(r: &BattleRecord) -> Seq<u8> {
    ("],\"roomid\":").spec_bytes() + quoted(r.roomid@) + (",\"format\":").spec_bytes() + quoted(
        r.format@,
    ) + (",\"timestamp\":").spec_bytes() + quoted(r.timestamp@) + ("}").spec_bytes()
}

/// The whole record as one JSON document.
#[verifier::opaque]
pub open spec fn ser_record(r: &BattleRecord) -> Seq<u8> {
    ser_head(r) + join_sep(fields_view(r.log@).map_values(|l: Seq<u8>| quoted_esc(l)), 44u8)
        + ser_tail(r)
}

/// Append `s` escaped, between quotes.
fn push_quoted_esc(out: &mut Vec<u8>, s: &[u8])
    ensures
        final(out)@ == old(out)@ + quoted_esc(s@),
{
    out.push(34u8);
    let ghost base = out@;
    let mut i: usize = 0;
    proof {
        assert(s@.subrange(0, 0) =~= Seq::<u8>::empty());
        assert(out@ =~= base + esc_seq(s@.subrange(0, 0)));
    }
    while i < s.len()
        invariant
            0 <= i <= s@.len(),
            out@ == base + esc_seq(s@.subrange(0, i as int)),
        decreases s@.len() - i,
    {
        let b = s[i];
        if b == 34 {
            out.push(92u8);
            out.push(34u8);
        } else if b == 92 {
            out.push(92u8);
            out.push(92u8);
        } else if b == 10 {
            out.push(92u8);
            out.push(110u8);
        } else if b == 9 {
            out.push(92u8);
            out.push(116u8);
        } else if b == 13 {
            out.push(92u8);
            out.push(114u8);
        } else if b == 8 {
            out.push(92u8);
            out.push(98u8);
        } else if b == 12 {
            out.push(92u8);
            out.push(102u8);
        } else {
            out.push(b);
        }
        proof {
            let pre = s@.subrange(0, i as int);
            let post = s@.subrange(0, i + 1);
            assert(post.drop_last() =~= pre);
            assert(post.last() == s@[i as int]);
            assert(out@ =~= base + (esc_seq(pre) + esc_byte(s@[i as int])));
        }
        i = i + 1;
    }
    proof {
        assert(s@.subrange(0, s@.len() as int) =~= s@);
    }
    out.push(34u8);
    proof {
        assert(final(out)@ =~= old(out)@ + quoted_esc(s@));
    }
}

/// Append `s` between quotes.
fn push_quoted(out: &mut Vec<u8>, s: &[u8])
    ensures
        final(out)@ == old(out)@ + quoted(s@),
{
    out.push(34u8);
    push_all(out, s);
    out.push(34u8);
    proof {
        assert(final(out)@ =~= old(out)@ + quoted(s@));
    }
}

/// Append a rating object or `null`.
fn push_rating(out: &mut Vec<u8>, rt: &Option<Rating>)
    ensures
        final(out)@ == old(out)@ + ser_rating(*rt),
{
    match rt {
        Option::None => {
            push_all(out, ("null").as_bytes());
        },
        Option::Some(x) => {
            push_all(out, ("{\"userid\":").as_bytes());
            push_quoted(out, x.userid.as_slice());
            push_all(out, (",\"elo\":\"").as_bytes());
            push_all(out, x.elo.as_slice());
            push_all(out, ("\",\"rptime\":\"").as_bytes());
            push_all(out, x.rptime.as_slice());
            push_all(out, ("\",\"rd\":\"").as_bytes());
            push_all(out, x.rd.as_slice());
            push_all(out, ("\",\"oldelo\":\"").as_bytes());
            push_all(out, x.oldelo.as_slice());
            push_all(out, ("\"}").as_bytes());
            proof {
                assert(final(out)@ =~= old(out)@ + ser_rating(*rt));
            }
        },
    }
}

/// Append everything standing before the transcript items.
#[verifier::rlimit(60)]
fn push_head(out: &mut Vec<u8>, r: &BattleRecord)
    ensures
        final(out)@ == old(out)@ + ser_head(r),
{
    let ghost base = out@;
    push_all(out, ("{\"p1\":").as_bytes());
    push_quoted(out, r.p1.as_slice());
    proof {
        assert(out@ =~= base + (("{\"p1\":").spec_bytes() + quoted(r.p1@)));
    }
    let ghost c1 = ("{\"p1\":").spec_bytes() + quoted(r.p1@);
    push_all(out, (",\"p2\":").as_bytes());
    push_quoted(out, r.p2.as_slice());
    proof {
        assert(out@ =~= base + (c1 + (",\"p2\":").spec_bytes() + quoted(r.p2@)));
    }
    let ghost c2 = c1 + (",\"p2\":").spec_bytes() + quoted(r.p2@);
    push_all(out, (",\"winner\":").as_bytes());
    match &r.winner {
        Option::None => {
            push_all(out, ("null").as_bytes());
        },
        Option::Some(w) => {
            push_quoted(out, w.as_slice());
        },
    }
    proof {
        assert(out@ =~= base + (c2 + (",\"winner\":").spec_bytes() + ser_opt_str(winner_view(r))));
    }
    let ghost c3 = c2 + (",\"winner\":").spec_bytes() + ser_opt_str(winner_view(r));
    push_all(out, (",\"endType\":").as_bytes());
    match r.end_type {
        EndType::Normal => {
            push_all(out, ("\"normal\"").as_bytes());
        },
        EndType::Forfeit => {
            push_all(out, ("\"forfeit\"").as_bytes());
        },
        EndType::Other => {
            push_all(out, ("\"other\"").as_bytes());
        },
    }
    proof {
        assert(out@ =~= base + (c3 + (",\"endType\":").spec_bytes() + ser_end_type(r.end_type)));
    }
    let ghost c4 = c3 + (",\"endType\":").spec_bytes() + ser_end_type(r.end_type);
    push_all(out, (",\"p1rating\":").as_bytes());
    push_rating(out, &r.p1rating);
    proof {
        assert(out@ =~= base + (c4 + (",\"p1rating\":").spec_bytes() + ser_rating(r.p1rating)));
    }
    let ghost c5 = c4 + (",\"p1rating\":").spec_bytes() + ser_rating(r.p1rating);
    push_all(out, (",\"p2rating\":").as_bytes());
    push_rating(out, &r.p2rating);
    proof {
        assert(out@ =~= base + (c5 + (",\"p2rating\":").spec_bytes() + ser_rating(r.p2rating)));
    }
    let ghost c6 = c5 + (",\"p2rating\":").spec_bytes() + ser_rating(r.p2rating);
    push_all(out, (",\"log\":[").as_bytes());
    proof {
        assert(out@ =~= base + (c6 + (",\"log\":[").spec_bytes()));
        assert(c6 + (",\"log\":[").spec_bytes() =~= ser_head(r));
    }
}

/// Append everything standing after the transcript items.
#[verifier::rlimit(60)]
fn push_tail(out: &mut Vec<u8>, r: &BattleRecord)
    ensures
        final(out)@ == old(out)@ + ser_tail(r),
{
    let ghost base = out@;
    push_all(out, ("],\"roomid\":").as_bytes());
    push_quoted(out, r.roomid.as_slice());
    proof {
        assert(out@ =~= base + (("],\"roomid\":").spec_bytes() + quoted(r.roomid@)));
    }
    let ghost c1 = ("],\"roomid\":").spec_bytes() + quoted(r.roomid@);
    push_all(out, (",\"format\":").as_bytes());
    push_quoted(out, r.format.as_slice());
    proof {
        assert(out@ =~= base + (c1 + (",\"format\":").spec_bytes() + quoted(r.format@)));
    }
    let ghost c2 = c1 + (",\"format\":").spec_bytes() + quoted(r.format@);
    push_all(out, (",\"timestamp\":").as_bytes());
    push_quoted(out, r.timestamp.as_slice());
    push_all(out, ("}").as_bytes());
    proof {
        assert(out@ =~= base + (c2 + (",\"timestamp\":").spec_bytes() + quoted(r.timestamp@)
            + ("}").spec_bytes()));
        assert(c2 + (",\"timestamp\":").spec_bytes() + quoted(r.timestamp@) + ("}").spec_bytes()
            =~= ser_tail(r));
    }
}

/// Serialize a record to JSON bytes.
#[verifier::rlimit(100)]
#[verifier::spinoff_prover]
pub fn serialize_record(r: &BattleRecord) -> (out: Vec<u8>)
    ensures
        out@ == ser_record(r),
{
    proof {
        reveal(ser_record);
    }
    let mut out: Vec<u8> = Vec::new();
    push_head(&mut out, r);
    let ghost lv = fields_view(r.log@).map_values(|l: Seq<u8>| quoted_esc(l));
    let mut i: usize = 0;
    proof {
        assert(lv.subrange(0, 0) =~= Seq::<Seq<u8>>::empty());
        assert(out@ =~= ser_head(r) + join_sep(lv.subrange(0, 0), 44u8));
    }
    while i < r.log.len()
        invariant
            0 <= i <= r.log@.len(),
            lv == fields_view(r.log@).map_values(|l: Seq<u8>| quoted_esc(l)),
            out@ == ser_head(r) + join_sep(lv.subrange(0, i as int), 44u8),
        decreases r.log@.len() - i,
    {
        let ghost before = out@;
        if i > 0 {
            out.push(44u8);
        }
        push_quoted_esc(&mut out, r.log[i].as_slice());
        proof {
            let pre = lv.subrange(0, i as int);
            assert(lv.subrange(0, i + 1) =~= pre.push(lv[i as int]));
            assert(lv[i as int] == quoted_esc(r.log@[i as int]@));
            lemma_join_push(pre, lv[i as int], 44u8);
            if i > 0 {
                assert(out@ =~= ser_head(r) + (join_sep(pre, 44u8) + seq![44u8] + quoted_esc(
                    r.log@[i as int]@,
                )));
            } else {
                assert(out@ =~= ser_head(r) + quoted_esc(r.log@[0]@));
                assert(join_sep(lv.subrange(0, 1), 44u8) == lv[0]);
            }
        }
        i = i + 1;
    }
    proof {
        assert(lv.subrange(0, lv.len() as int) =~= lv);
    }
    push_tail(&mut out, r);
    proof {
        assert(out@ =~= ser_record(r));
    }
    out
}

} // verus!
