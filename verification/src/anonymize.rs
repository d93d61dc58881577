//! The anonymization transformation.
//!
//! A validated battle record is rewritten so that every participant string
//! (display name, canonical identifier, rating-table user id) is replaced by
//! an opaque per-file pseudonym, everywhere it appears: the player fields,
//! the winner, the rating user ids, and every transcript line.  Free-text
//! comments are always dropped and the room identifier keeps only its
//! battle number; under the safety flag the rating values, rating
//! timestamps, and the record timestamp are replaced by a fixed sentinel.

use vstd::prelude::*;
use crate::id::id_of;
use crate::id::to_id_bytes;
use crate::bytes::copy_bytes;
use crate::bytes::bytes_eq;
use crate::bytes::push_all;
use crate::pseudonym::PseudonymMap;
use crate::pseudonym::pseudonym_of;
use crate::pseudonym::dec_digits;
use crate::pseudonym::dec_digits_exec;
use crate::record::BattleRecord;
use crate::record::Rating;
use crate::record::record_valid;
use crate::record::validate_record;
use crate::record::trailing_digits;
use crate::record::digits_value;
use crate::record::trailing_number;
use crate::rewrite::pairs_view;
use vstd::multiset::Multiset;
use crate::transcript::rewritten_line;
use crate::BattleToolsError;
use vstd::string::StringSliceAdditionalSpecFns;

verus! {

/// The sentinel put in place of redacted numeric and time fields.
pub open spec fn redaction_sentinel() -> Seq<u8> {
    ("0").spec_bytes()
}

/// The participant number of the slot-1 rating's user id: the slot of the
/// player it denotes, or 3 for a user id denoting neither player.
pub open spec fn unum1(r: &BattleRecord) -> nat {
    let u = id_of(r.p1rating->Some_0.userid@);
    if u == id_of(r.p1@) {
        1
    } else if u == id_of(r.p2@) {
        2
    } else {
        3
    }
}

/// The participant number of the slot-2 rating's user id.
pub open spec fn unum2(r: &BattleRecord) -> nat {
    let u = id_of(r.p2rating->Some_0.userid@);
    if u == id_of(r.p1@) {
        1
    } else if u == id_of(r.p2@) {
        2
    } else if r.p1rating is Some && unum1(r) == 3 {
        if u == id_of(r.p1rating->Some_0.userid@) {
            3
        } else {
            4
        }
    } else {
        3
    }
}

/// The (needle, pseudonym) pairs used to rewrite transcript text: each
/// player's display name and canonical identifier, then each rating user
/// id (raw and canonical), all mapped to their participants' pseudonyms.
/// The rewrite applies them ordered longest needle first (`sort_by_len`),
/// so a name containing another participant's name as a substring is
/// replaced as a whole before the shorter name is looked for.
pub open spec fn anon_pairs(r: &BattleRecord) -> Seq<(Seq<u8>, Seq<u8>)> {
    let base = seq![
        (r.p1@, pseudonym_of(1)),
        (id_of(r.p1@), pseudonym_of(1)),
        (r.p2@, pseudonym_of(2)),
        (id_of(r.p2@), pseudonym_of(2)),
    ];
    let with1 = if r.p1rating is Some {
        base + seq![
            (r.p1rating->Some_0.userid@, pseudonym_of(unum1(r))),
            (id_of(r.p1rating->Some_0.userid@), pseudonym_of(unum1(r))),
        ]
    } else {
        base
    };
    if r.p2rating is Some {
        with1 + seq![
            (r.p2rating->Some_0.userid@, pseudonym_of(unum2(r))),
            (id_of(r.p2rating->Some_0.userid@), pseudonym_of(unum2(r))),
        ]
    } else {
        with1
    }
}

/// The battle number of a record: the value of the digit suffix of its
/// room identifier, or the caller's fallback when there is none usable.
pub open spec fn battle_number(r: &BattleRecord, fallback: u64) -> nat {
    if 1 <= trailing_digits(r.roomid@).len() <= 18 {
        digits_value(trailing_digits(r.roomid@))
    } else {
        fallback as nat
    }
}

/// What anonymization promises of the rewritten record `out` for a valid
/// input `r`.
#[verifier::opaque]
pub open spec fn anonymized(r: &BattleRecord, is_safe: bool, fallback: u64, out: &BattleRecord, num: u64) -> bool {
    &&& out.p1@ == pseudonym_of(1)
    &&& out.p2@ == pseudonym_of(2)
    &&& match r.winner {
        Option::None => out.winner is None,
        Option::Some(w) => out.winner is Some && out.winner->Some_0@ == (if id_of(w@) == id_of(
            r.p1@,
        ) {
            pseudonym_of(1)
        } else {
            pseudonym_of(2)
        }),
    }
    &&& out.end_type == r.end_type
    &&& out.format@ == r.format@
    &&& out.comment is None
    &&& match r.p1rating {
        Option::None => out.p1rating is None,
        Option::Some(rt) => out.p1rating is Some && {
            let ort = out.p1rating->Some_0;
            &&& ort.userid@ == pseudonym_of(unum1(r))
            &&& ort.elo@ == (if is_safe {
                redaction_sentinel()
            } else {
                rt.elo@
            })
            &&& ort.rptime@ == (if is_safe {
                redaction_sentinel()
            } else {
                rt.rptime@
            })
            &&& ort.rd@ == (if is_safe {
                redaction_sentinel()
            } else {
                rt.rd@
            })
            &&& ort.oldelo@ == (if is_safe {
                redaction_sentinel()
            } else {
                rt.oldelo@
            })
        },
    }
    &&& match r.p2rating {
        Option::None => out.p2rating is None,
        Option::Some(rt) => out.p2rating is Some && {
            let ort = out.p2rating->Some_0;
            &&& ort.userid@ == pseudonym_of(unum2(r))
            &&& ort.elo@ == (if is_safe {
                redaction_sentinel()
            } else {
                rt.elo@
            })
            &&& ort.rptime@ == (if is_safe {
                redaction_sentinel()
            } else {
                rt.rptime@
            })
            &&& ort.rd@ == (if is_safe {
                redaction_sentinel()
            } else {
                rt.rd@
            })
            &&& ort.oldelo@ == (if is_safe {
                redaction_sentinel()
            } else {
                rt.oldelo@
            })
        },
    }
    &&& out.timestamp@ == (if is_safe {
        redaction_sentinel()
    } else {
        r.timestamp@
    })
    &&& out.log@.len() == r.log@.len()
    &&& forall|i: int|
        0 <= i < r.log@.len() ==> (#[trigger] out.log@[i])@ == rewritten_line(
            r.log@[i]@,
            crate::rewrite::sort_by_len(anon_pairs(r)),
        )
    &&& num as nat == battle_number(r, fallback)
    &&& out.roomid@ == ("battle-").spec_bytes() + dec_digits(num as nat)
}

/// The anonymization engine: one instance per run, carrying the safety
/// flag.  Each record is anonymized with a fresh per-file pseudonym map.
pub struct Anonymizer {
    pub is_safe: bool,
}

impl Anonymizer {
    /// A new engine; `is_safe` asks for the stricter redaction.
    pub fn new(is_safe: bool) -> (a: Self)
        ensures
            a.is_safe == is_safe,
    {
        Anonymizer { is_safe }
    }

    /// Anonymize one record.  Valid records are rewritten as `anonymized`
    /// states, with the battle number used to name the output; invalid
    /// records are rejected with `InvalidLog`, exactly when
    /// `record_valid` fails.
    pub fn anonymize(&self, r: &BattleRecord, fallback: u64) -> (res: Result<
        (BattleRecord, u64),
        BattleToolsError,
    >)
        ensures
            res is Ok <==> record_valid(r),
            res is Ok ==> anonymized(
                r,
                self.is_safe,
                fallback,
                &res->Ok_0.0,
                res->Ok_0.1,
            ),
            res is Err ==> res->Err_0 is InvalidLog,
    {
        proof {
            reveal(anonymized);
        }
        match validate_record(r) {
            Result::Err(e) => {
                return Result::Err(e);
            },
            Result::Ok(()) => {},
        }
        let id1 = to_id_bytes(r.p1.as_slice());
        let id2 = to_id_bytes(r.p2.as_slice());
        let mut map = PseudonymMap::new();
        let p1p = map.get_or_assign(id1.as_slice());
        proof {
            assert(map.ids@.len() == 1);
            assert(map.ids@[0]@ == id1@);
            assert(p1p@ == pseudonym_of(1));
        }
        let p2p = map.get_or_assign(id2.as_slice());
        proof {
            assert(map.ids@[0]@ == id1@);
            assert(id2@ != id1@);
            assert(map.ids@.len() == 2);
            assert(map.ids@[1]@ == id2@);
            assert(p2p@ == pseudonym_of(2));
        }
        let mut pairs: Vec<(Vec<u8>, Vec<u8>)> = Vec::new();
        pairs.push((copy_bytes(r.p1.as_slice()), copy_bytes(p1p.as_slice())));
        pairs.push((copy_bytes(id1.as_slice()), copy_bytes(p1p.as_slice())));
        pairs.push((copy_bytes(r.p2.as_slice()), copy_bytes(p2p.as_slice())));
        pairs.push((copy_bytes(id2.as_slice()), copy_bytes(p2p.as_slice())));

        let out_p1rating: Option<Rating> = match &r.p1rating {
            Option::None => Option::None,
            Option::Some(rt) => {
                let u1 = to_id_bytes(rt.userid.as_slice());
                let up1 = map.get_or_assign(u1.as_slice());
                proof {
                    assert(map.ids@[0]@ == id1@);
                    assert(map.ids@[1]@ == id2@);
                    if u1@ == id1@ {
                        assert(up1@ == pseudonym_of(1));
                    } else if u1@ == id2@ {
                        assert(up1@ == pseudonym_of(2));
                    } else {
                        assert(map.ids@.len() == 3);
                        assert(map.ids@[2]@ == u1@);
                        assert(up1@ == pseudonym_of(3));
                    }
                    assert(up1@ == pseudonym_of(unum1(r)));
                }
                pairs.push((copy_bytes(rt.userid.as_slice()), copy_bytes(up1.as_slice())));
                pairs.push((copy_bytes(u1.as_slice()), copy_bytes(up1.as_slice())));
                Option::Some(
                    Rating {
                        userid: up1,
                        elo: if self.is_safe {
                            sentinel_vec()
                        } else {
                            copy_bytes(rt.elo.as_slice())
                        },
                        rptime: if self.is_safe {
                            sentinel_vec()
                        } else {
                            copy_bytes(rt.rptime.as_slice())
                        },
                        rd: if self.is_safe {
                            sentinel_vec()
                        } else {
                            copy_bytes(rt.rd.as_slice())
                        },
                        oldelo: if self.is_safe {
                            sentinel_vec()
                        } else {
                            copy_bytes(rt.oldelo.as_slice())
                        },
                    },
                )
            },
        };
        let out_p2rating: Option<Rating> = match &r.p2rating {
            Option::None => Option::None,
            Option::Some(rt) => {
                let u2 = to_id_bytes(rt.userid.as_slice());
                let up2 = map.get_or_assign(u2.as_slice());
                proof {
                    assert(map.ids@[0]@ == id1@);
                    assert(map.ids@[1]@ == id2@);
                    if u2@ == id1@ {
                        assert(up2@ == pseudonym_of(1));
                    } else if u2@ == id2@ {
                        assert(up2@ == pseudonym_of(2));
                    } else if r.p1rating is Some && unum1(r) == 3 {
                        assert(map.ids@[2]@ == id_of(r.p1rating->Some_0.userid@));
                        if u2@ == id_of(r.p1rating->Some_0.userid@) {
                            assert(up2@ == pseudonym_of(3));
                        } else {
                            assert(map.ids@.len() == 4);
                            assert(map.ids@[3]@ == u2@);
                            assert(up2@ == pseudonym_of(4));
                        }
                    } else {
                        assert(map.ids@.len() == 3);
                        assert(map.ids@[2]@ == u2@);
                        assert(up2@ == pseudonym_of(3));
                    }
                    assert(up2@ == pseudonym_of(unum2(r)));
                }
                pairs.push((copy_bytes(rt.userid.as_slice()), copy_bytes(up2.as_slice())));
                pairs.push((copy_bytes(u2.as_slice()), copy_bytes(up2.as_slice())));
                Option::Some(
                    Rating {
                        userid: up2,
                        elo: if self.is_safe {
                            sentinel_vec()
                        } else {
                            copy_bytes(rt.elo.as_slice())
                        },
                        rptime: if self.is_safe {
                            sentinel_vec()
                        } else {
                            copy_bytes(rt.rptime.as_slice())
                        },
                        rd: if self.is_safe {
                            sentinel_vec()
                        } else {
                            copy_bytes(rt.rd.as_slice())
                        },
                        oldelo: if self.is_safe {
                            sentinel_vec()
                        } else {
                            copy_bytes(rt.oldelo.as_slice())
                        },
                    },
                )
            },
        };
        proof {
            assert(pairs_view(pairs@) =~= anon_pairs(r));
        }
        let sorted = crate::rewrite::sort_pairs_by_len(&pairs);
        proof {
            assert(pairs_view(sorted@) == crate::rewrite::sort_by_len(anon_pairs(r)));
        }

        let out_winner: Option<Vec<u8>> = match &r.winner {
            Option::None => Option::None,
            Option::Some(w) => {
                let wid = to_id_bytes(w.as_slice());
                if bytes_eq(wid.as_slice(), id1.as_slice()) {
                    Option::Some(copy_bytes(p1p.as_slice()))
                } else {
                    Option::Some(copy_bytes(p2p.as_slice()))
                }
            },
        };

        let mut out_log: Vec<Vec<u8>> = Vec::new();
        let mut i: usize = 0;
        while i < r.log.len()
            invariant
                0 <= i <= r.log@.len(),
                pairs_view(sorted@) == crate::rewrite::sort_by_len(anon_pairs(r)),
                out_log@.len() == i,
                forall|j: int|
                    0 <= j < i ==> (#[trigger] out_log@[j])@ == rewritten_line(
                        r.log@[j]@,
                        crate::rewrite::sort_by_len(anon_pairs(r)),
                    ),
            decreases r.log@.len() - i,
        {
            let line = crate::transcript::rewrite_line(r.log[i].as_slice(), &sorted);
            out_log.push(line);
            i = i + 1;
        }

        let num: u64 = match trailing_number(r.roomid.as_slice()) {
            Option::Some(v) => v,
            Option::None => fallback,
        };
        let mut out_roomid: Vec<u8> = Vec::new();
        push_all(&mut out_roomid, ("battle-").as_bytes());
        let digits = dec_digits_exec(num);
        push_all(&mut out_roomid, digits.as_slice());

        let out = BattleRecord {
            p1: p1p,
            p2: p2p,
            winner: out_winner,
            end_type: match r.end_type {
                crate::record::EndType::Normal => crate::record::EndType::Normal,
                crate::record::EndType::Forfeit => crate::record::EndType::Forfeit,
                crate::record::EndType::Other => crate::record::EndType::Other,
            },
            p1rating: out_p1rating,
            p2rating: out_p2rating,
            log: out_log,
            roomid: out_roomid,
            format: copy_bytes(r.format.as_slice()),
            timestamp: if self.is_safe {
                sentinel_vec()
            } else {
                copy_bytes(r.timestamp.as_slice())
            },
            comment: Option::None,
        };
        Result::Ok((out, num))
    }
}

/// A string fold-disjoint from a non-empty pattern holds no occurrence of it.
proof fn lemma_disjoint_no_occurrence(s: Seq<u8>, n: Seq<u8>)
    requires
        n.len() > 0,
        crate::rewrite::fold_disjoint(s, n),
    ensures
        !crate::rewrite::contains_ci(s, n),
{
    assert forall|i: int| !crate::rewrite::match_at(s, n, i) by {
        if crate::rewrite::match_at(s, n, i) {
            assert(crate::id::fold_case(s[i + 0]) == crate::id::fold_case(n[0]));
            assert(false);
        }
    }
}

/// A pseudonym shares no case-folded byte with a string that holds no `#`
/// and no digit: its bytes are exactly `#` and digits, which case folding
/// leaves in place.
pub proof fn lemma_pseudonym_disjoint(k: nat, n: Seq<u8>)
    requires
        forall|i: int|
            0 <= i < n.len() ==> !(crate::id::fold_case(#[trigger] n[i]) == 35 || 48
                <= crate::id::fold_case(n[i]) <= 57),
    ensures
        crate::rewrite::fold_disjoint(pseudonym_of(k), n),
{
    crate::pseudonym::lemma_dec_digits_range(k);
    let p = pseudonym_of(k);
    assert forall|i: int, j: int|
        0 <= i < p.len() && 0 <= j < n.len() implies crate::id::fold_case(#[trigger] p[i])
        != crate::id::fold_case(#[trigger] n[j]) by {
        if 1 <= i < 1 + dec_digits(k).len() {
            assert(p[i] == dec_digits(k)[i - 1]);
            assert(48 <= p[i] <= 57);
        } else {
            assert(p[i] == 35);
        }
        assert(crate::id::fold_case(p[i]) == p[i]);
    }
}

/// Joining fields that are free of a pattern with the `|` delimiter keeps
/// the whole line free of it, provided the pattern itself holds no `|`.
proof fn lemma_join_no_occurrence(fs: Seq<Seq<u8>>, n: Seq<u8>)
    requires
        n.len() > 0,
        !crate::bytes::has_byte(n, 124u8),
        forall|i: int|
            0 <= i < fs.len() ==> !crate::rewrite::contains_ci(#[trigger] fs[i], n),
    ensures
        !crate::rewrite::contains_ci(crate::transcript::join_sep(fs, 124u8), n),
    decreases fs.len(),
{
    let joined = crate::transcript::join_sep(fs, 124u8);
    if fs.len() == 0 {
        assert forall|i: int| !crate::rewrite::match_at(joined, n, i) by {
            if crate::rewrite::match_at(joined, n, i) {
                assert(joined.len() == 0);
                assert(false);
            }
        }
    } else if fs.len() == 1 {
        assert(joined == fs[0]);
    } else {
        assert(forall|i: int| 0 <= i < fs.skip(1).len() ==> fs.skip(1)[i] == fs[i + 1]);
        lemma_join_no_occurrence(fs.skip(1), n);
        let head = fs[0] + seq![124u8];
        let rest = crate::transcript::join_sep(fs.skip(1), 124u8);
        assert(joined =~= head + rest);
        assert forall|i: int| !crate::rewrite::match_at(joined, n, i) by {
            if crate::rewrite::match_at(joined, n, i) {
                if i + n.len() <= fs[0].len() {
                    assert(crate::rewrite::match_at(fs[0], n, i)) by {
                        assert forall|k: int|
                            0 <= k < n.len() implies crate::id::fold_case(
                            fs[0][i + k],
                        ) == crate::id::fold_case(#[trigger] n[k]) by {
                            assert(joined[i + k] == fs[0][i + k]);
                        }
                    }
                    assert(false);
                } else if i <= fs[0].len() {
                    let k = fs[0].len() - i;
                    assert(0 <= k < n.len());
                    assert(joined[i + k] == 124u8);
                    assert(crate::id::fold_case(124u8) == 124u8);
                    assert(crate::id::fold_case(n[k]) == 124u8);
                    assert(n[k] == 124u8);
                    assert(false);
                } else {
                    assert(i >= head.len());
                    crate::rewrite::lemma_match_in_tail(head, rest, n, i);
                    assert(false);
                }
            }
        }
    }
}

/// Anonymization removes the participant strings.  For a valid record, the
/// rewritten player, winner, and rating user-id fields are pseudonyms that
/// hold no occurrence of the needle, and no transcript line of the output
/// holds one either — provided the needle is non-empty, carries no `|`,
/// and every replacement pseudonym is fold-disjoint from it (which
/// `lemma_pseudonym_disjoint` gives for needles free of `#` and digits).
pub proof fn lemma_anonymize_removes(
    r: &BattleRecord,
    is_safe: bool,
    fallback: u64,
    out: &BattleRecord,
    num: u64,
    t: int,
)
    requires
        anonymized(r, is_safe, fallback, out, num),
        0 <= t < anon_pairs(r).len(),
        anon_pairs(r)[t].0.len() > 0,
        !crate::bytes::has_byte(anon_pairs(r)[t].0, 124u8),
        crate::rewrite::all_repls_safe_for(anon_pairs(r), anon_pairs(r)[t].0),
    ensures
        !crate::rewrite::contains_ci(out.p1@, anon_pairs(r)[t].0),
        !crate::rewrite::contains_ci(out.p2@, anon_pairs(r)[t].0),
        out.winner is Some ==> !crate::rewrite::contains_ci(
            out.winner->Some_0@,
            anon_pairs(r)[t].0,
        ),
        forall|i: int|
            0 <= i < out.log@.len() ==> !crate::rewrite::contains_ci(
                (#[trigger] out.log@[i])@,
                anon_pairs(r)[t].0,
            ),
{
    reveal(anonymized);
    let pairs = anon_pairs(r);
    let needle = pairs[t].0;
    let sorted = crate::rewrite::sort_by_len(pairs);
    crate::rewrite::lemma_sort_elements(pairs);
    assert(sorted.contains(pairs[t]));
    let t2 = choose|t2: int| 0 <= t2 < sorted.len() && sorted[t2] == pairs[t];
    assert(crate::rewrite::all_repls_safe_for(sorted, needle)) by {
        assert forall|j: int|
            0 <= j < sorted.len() implies (#[trigger] sorted[j]).1.len() > 0
            && crate::rewrite::fold_disjoint(sorted[j].1, needle) by {
            assert(pairs.contains(sorted[j]));
            let k = choose|k: int| 0 <= k < pairs.len() && pairs[k] == sorted[j];
            assert((#[trigger] pairs[k]).1.len() > 0 && crate::rewrite::fold_disjoint(
                pairs[k].1,
                needle,
            ));
        }
    }
    assert(pairs[0].1 == pseudonym_of(1));
    assert(pairs[2].1 == pseudonym_of(2));
    assert(crate::rewrite::fold_disjoint(pseudonym_of(1), needle));
    assert(crate::rewrite::fold_disjoint(pseudonym_of(2), needle));
    lemma_disjoint_no_occurrence(pseudonym_of(1), needle);
    lemma_disjoint_no_occurrence(pseudonym_of(2), needle);
    assert forall|i: int|
        0 <= i < out.log@.len() implies !crate::rewrite::contains_ci(
        (#[trigger] out.log@[i])@,
        needle,
    ) by {
        let line = r.log@[i]@;
        assert(out.log@[i]@ == rewritten_line(line, sorted));
        let fs = crate::transcript::split_sep(line, 124u8);
        let g = crate::transcript::rewritten_fields(line, sorted);
        assert forall|j: int|
            0 <= j < g.len() implies !crate::rewrite::contains_ci(#[trigger] g[j], needle) by {
            assert(g[j] == crate::rewrite::rewrite_all(fs[j], sorted));
            crate::rewrite::lemma_rewrite_all_removes(fs[j], sorted, t2);
        }
        lemma_join_no_occurrence(g, needle);
    }
}

/// The anonymization handler: parses each file, anonymizes the record,
/// and hands back the serialized document with the battle number that
/// names the output artifact.  Writing the file is the caller's part.
pub struct AnonymizingDirectoryParser {
    pub anonymizer: Anonymizer,
    /// Where the caller writes the output artifacts, as path bytes.
    pub output_directory: Vec<u8>,
    /// The (document, battle number) artifacts, filled at finalize time.
    pub outputs: Vec<(Vec<u8>, u64)>,
}

impl AnonymizingDirectoryParser {
    /// A handler writing under `output_directory`, with the given safety
    /// flag.
    pub fn new(is_safe: bool, output_directory: Vec<u8>) -> (p: Self)
        ensures
            p.anonymizer.is_safe == is_safe,
            p.output_directory@ == output_directory@,
    {
        AnonymizingDirectoryParser {
            anonymizer: Anonymizer::new(is_safe),
            output_directory,
            outputs: Vec::new(),
        }
    }

    /// Handle one log file: parse, validate, anonymize with a fresh
    /// pseudonym map, and serialize.  The battle number falls back to the
    /// file name's digit suffix, then to zero.  Every rejection is an
    /// `InvalidLog`; only valid records produce output, and a readable,
    /// valid, transcript-free document is owed one.
    #[verifier::rlimit(100)]
    #[verifier::spinoff_prover]
    pub fn handle_log_file(&self, raw: &[u8], path: &[u8]) -> (res: Result<
        (Vec<u8>, u64),
        BattleToolsError,
    >)
        ensures
            res is Err ==> res->Err_0 is InvalidLog,
            res is Ok ==> anonymized_artifact(
                self.anonymizer.is_safe,
                raw@,
                path@,
                res->Ok_0.0@,
                res->Ok_0.1,
            ),
            crate::extract::json_result(raw@, crate::parse::record_paths()) is None ==> res
                is Err,
            (crate::extract::json_result(raw@, crate::parse::record_paths()) matches Some(vals)
                && vals[0] is Some && vals[1] is Some && vals[17] is None && extracted_valid(
                vals,
            )) ==> res is Ok,
    {
        let ghost ext = crate::extract::json_result(raw@, crate::parse::record_paths());
        let rec = match crate::parse::parse_battle_record(raw) {
            Result::Ok(r) => r,
            Result::Err(e) => {
                proof {
                    if ext is Some {
                        let vals = ext->Some_0;
                        if vals[0] is Some && vals[1] is Some && vals[17] is None
                            && extracted_valid(vals) {
                            assert(false);
                        }
                    }
                }
                return Result::Err(e);
            },
        };
        proof {
            assert(crate::parse::parsed_from(raw@, rec));
            if ext is Some && ext->Some_0[0] is Some && ext->Some_0[1] is Some && extracted_valid(
                ext->Some_0,
            ) {
                let vals = ext->Some_0;
                assert(id_of(rec.p1@) == id_of(crate::extract::unquote(vals[0]->Some_0)));
                assert(id_of(rec.p2@) == id_of(crate::extract::unquote(vals[1]->Some_0)));
                assert(crate::record::players_valid(&rec));
                assert(crate::record::winner_valid(&rec)) by {
                    match crate::parse::winner_field(vals[2]) {
                        Option::None => {
                            assert(rec.winner is None);
                        },
                        Option::Some(w) => {
                            assert(rec.winner->Some_0@ == w);
                        },
                    }
                }
                assert(record_valid(&rec));
            }
        }
        let fallback = match trailing_number(crate::search::room_of_exec(path).as_slice()) {
            Option::Some(v) => v,
            Option::None => 0,
        };
        let (out, num) = match self.anonymizer.anonymize(&rec, fallback) {
            Result::Ok(p) => p,
            Result::Err(e) => {
                proof {
                    if ext is Some {
                        let vals = ext->Some_0;
                        if vals[0] is Some && vals[1] is Some && extracted_valid(vals) {
                            assert(false);
                        }
                    }
                }
                return Result::Err(e);
            },
        };
        let json = crate::serialize::serialize_record(&out);
        proof {
            assert(fallback == fallback_number(path@));
            assert(anonymized(&rec, self.anonymizer.is_safe, fallback_number(path@), &out, num));
            reveal(anonymized_artifact);
            assert(anonymized_artifact(self.anonymizer.is_safe, raw@, path@, json@, num));
        }
        Result::Ok((json, num))
    }

    /// Anonymization aggregates nothing; finalize keeps the artifacts for
    /// the caller to write out, in canonical order: ascending battle
    /// number, with colliding numbers bumped to the next free one
    /// (`renumber`), so every artifact keeps an output name of its own.
    /// The stored artifacts are a function of the sorted result list, so
    /// the finalize state does not depend on the order of the per-file
    /// results when battle numbers are distinct
    /// (`lemma_sorted_outputs_unique`, `lemma_renumber_identity`).
    pub fn finish(&mut self, results: Vec<(Vec<u8>, u64)>) -> (res: Result<(), BattleToolsError>)
        ensures
            res is Ok,
            outputs_view(final(self).outputs@) == renumber(
                sort_outputs(outputs_view(results@)),
            ),
            final(self).anonymizer == old(self).anonymizer,
            final(self).output_directory == old(self).output_directory,
    {
        let sorted = sort_outputs_exec(&results);
        self.outputs = renumber_exec(&sorted);
        Result::Ok(())
    }
}

/// The number an artifact keeps after the one before it took `prev`: its
/// own when that is free, else the next number up (held at the numeric
/// ceiling when there is none).
pub open spec fn bump(n: u64, prev: u64) -> u64 {
    if n > prev {
        n
    } else if prev == u64::MAX {
        u64::MAX
    } else {
        (prev + 1) as u64
    }
}

/// Bump every artifact after the first assigned number `prev`.
pub open spec fn renumber_from(l: Seq<(Seq<u8>, u64)>, prev: u64) -> Seq<(Seq<u8>, u64)>
    decreases l.len(),
{
    if l.len() == 0 {
        Seq::empty()
    } else {
        seq![(l[0].0, bump(l[0].1, prev))] + renumber_from(l.skip(1), bump(l[0].1, prev))
    }
}

/// Bump colliding battle numbers, first artifact's number kept.
pub open spec fn renumber(l: Seq<(Seq<u8>, u64)>) -> Seq<(Seq<u8>, u64)> {
    if l.len() == 0 {
        Seq::empty()
    } else {
        seq![l[0]] + renumber_from(l.skip(1), l[0].1)
    }
}

/// Renumbering keeps every payload in place and makes the numbers
/// strictly ascend, except where they saturate at the numeric ceiling.
pub proof fn lemma_renumber_increasing(l: Seq<(Seq<u8>, u64)>)
    ensures
        renumber(l).len() == l.len(),
        forall|i: int| 0 <= i < l.len() ==> (#[trigger] renumber(l)[i]).0 == l[i].0,
        forall|i: int, j: int|
            0 <= i < j < l.len() ==> (#[trigger] renumber(l)[i]).1 < (#[trigger] renumber(
                l,
            )[j]).1 || renumber(l)[j].1 == u64::MAX,
{
    if l.len() > 0 {
        lemma_renumber_from_increasing(l.skip(1), l[0].1);
        let r = renumber(l);
        let rest = renumber_from(l.skip(1), l[0].1);
        assert(forall|i: int| 0 <= i < l.skip(1).len() ==> l.skip(1)[i] == l[i + 1]);
        assert forall|i: int| 0 <= i < l.len() implies (#[trigger] r[i]).0 == l[i].0 by {
            if i > 0 {
                assert(r[i] == rest[i - 1]);
            }
        }
        assert forall|i: int, j: int|
            0 <= i < j < l.len() implies (#[trigger] r[i]).1 < (#[trigger] r[j]).1 || r[j].1
            == u64::MAX by {
            if i == 0 {
                assert(r[j] == rest[j - 1]);
            } else {
                assert(r[i] == rest[i - 1] && r[j] == rest[j - 1]);
            }
        }
    }
}

/// As `lemma_renumber_increasing`, below a first assigned number.
proof fn lemma_renumber_from_increasing(l: Seq<(Seq<u8>, u64)>, prev: u64)
    ensures
        renumber_from(l, prev).len() == l.len(),
        forall|i: int| 0 <= i < l.len() ==> (#[trigger] renumber_from(l, prev)[i]).0 == l[i].0,
        forall|i: int|
            0 <= i < l.len() ==> (#[trigger] renumber_from(l, prev)[i]).1 > prev
                || renumber_from(l, prev)[i].1 == u64::MAX,
        forall|i: int, j: int|
            0 <= i < j < l.len() ==> (#[trigger] renumber_from(l, prev)[i]).1 < (
            #[trigger] renumber_from(l, prev)[j]).1 || renumber_from(l, prev)[j].1 == u64::MAX,
    decreases l.len(),
{
    if l.len() > 0 {
        let n0 = bump(l[0].1, prev);
        lemma_renumber_from_increasing(l.skip(1), n0);
        let r = renumber_from(l, prev);
        let rest = renumber_from(l.skip(1), n0);
        assert(forall|i: int| 0 <= i < l.skip(1).len() ==> l.skip(1)[i] == l[i + 1]);
        assert forall|i: int| 0 <= i < l.len() implies (#[trigger] r[i]).0 == l[i].0 by {
            if i > 0 {
                assert(r[i] == rest[i - 1]);
            }
        }
        assert forall|i: int|
            0 <= i < l.len() implies (#[trigger] r[i]).1 > prev || r[i].1 == u64::MAX by {
            if i > 0 {
                assert(r[i] == rest[i - 1]);
            }
        }
        assert forall|i: int, j: int|
            0 <= i < j < l.len() implies (#[trigger] r[i]).1 < (#[trigger] r[j]).1 || r[j].1
            == u64::MAX by {
            if i == 0 {
                assert(r[j] == rest[j - 1]);
            } else {
                assert(r[i] == rest[i - 1] && r[j] == rest[j - 1]);
            }
        }
    }
}

/// Artifacts whose numbers already strictly ascend keep them all.
pub proof fn lemma_renumber_identity(l: Seq<(Seq<u8>, u64)>)
    requires
        forall|i: int, j: int| 0 <= i < j < l.len() ==> (#[trigger] l[i]).1 < (#[trigger] l[j]).1,
    ensures
        renumber(l) =~= l,
{
    if l.len() > 0 {
        assert(forall|i: int| 0 <= i < l.skip(1).len() ==> l.skip(1)[i] == l[i + 1]);
        lemma_renumber_from_identity(l.skip(1), l[0].1);
        assert(renumber(l) =~= l);
    }
}

/// As `lemma_renumber_identity`, below a first assigned number.
proof fn lemma_renumber_from_identity(l: Seq<(Seq<u8>, u64)>, prev: u64)
    requires
        forall|i: int| 0 <= i < l.len() ==> (#[trigger] l[i]).1 > prev,
        forall|i: int, j: int| 0 <= i < j < l.len() ==> (#[trigger] l[i]).1 < (#[trigger] l[j]).1,
    ensures
        renumber_from(l, prev) =~= l,
    decreases l.len(),
{
    if l.len() > 0 {
        assert(bump(l[0].1, prev) == l[0].1);
        assert(forall|i: int| 0 <= i < l.skip(1).len() ==> l.skip(1)[i] == l[i + 1]);
        lemma_renumber_from_identity(l.skip(1), l[0].1);
        assert(renumber_from(l, prev) =~= l);
    }
}

/// Bump colliding battle numbers.
fn renumber_exec(sorted: &Vec<(Vec<u8>, u64)>) -> (out: Vec<(Vec<u8>, u64)>)
    ensures
        outputs_view(out@) == renumber(outputs_view(sorted@)),
{
    let ghost sv = outputs_view(sorted@);
    let mut out: Vec<(Vec<u8>, u64)> = Vec::new();
    if sorted.len() == 0 {
        proof {
            assert(outputs_view(out@) =~= renumber(sv));
        }
        return out;
    }
    out.push((copy_bytes(sorted[0].0.as_slice()), sorted[0].1));
    let mut prev: u64 = sorted[0].1;
    let mut i: usize = 1;
    proof {
        assert(outputs_view(out@) =~= seq![sv[0]]);
        assert(sv.skip(1).skip(0) =~= sv.skip(1));
        assert(renumber(sv) == seq![sv[0]] + renumber_from(sv.skip(1), sv[0].1));
    }
    while i < sorted.len()
        invariant
            1 <= i <= sorted@.len(),
            sorted@.len() > 0,
            sv == outputs_view(sorted@),
            out@.len() == i,
            renumber(sv) == outputs_view(out@) + renumber_from(sv.skip(i as int), prev),
        decreases sorted@.len() - i,
    {
        let n = sorted[i].1;
        let next: u64 = if n > prev {
            n
        } else if prev == u64::MAX {
            u64::MAX
        } else {
            prev + 1
        };
        proof {
            let rem = sv.skip(i as int);
            assert(rem[0] == sv[i as int]);
            assert(next == bump(sv[i as int].1, prev));
            assert(renumber_from(rem, prev) == seq![(rem[0].0, next)] + renumber_from(
                rem.skip(1),
                next,
            ));
            assert(rem.skip(1) =~= sv.skip(i + 1));
        }
        out.push((copy_bytes(sorted[i].0.as_slice()), next));
        proof {
            assert(outputs_view(out@) =~= outputs_view(out@.drop_last()) + seq![(
                sv[i as int].0,
                next,
            )]);
            assert(outputs_view(out@) + renumber_from(sv.skip(i + 1), next)
                =~= outputs_view(out@.drop_last()) + (seq![(sv[i as int].0, next)]
                + renumber_from(sv.skip(i + 1), next)));
        }
        prev = next;
        i = i + 1;
    }
    proof {
        assert(sv.skip(sv.len() as int) =~= Seq::<(Seq<u8>, u64)>::empty());
        assert(outputs_view(out@) + Seq::<(Seq<u8>, u64)>::empty() =~= outputs_view(out@));
    }
    out
}

/// The views of a list of artifacts.
pub open spec fn outputs_view(l: Seq<(Vec<u8>, u64)>) -> Seq<(Seq<u8>, u64)> {
    l.map_values(|p: (Vec<u8>, u64)| (p.0@, p.1))
}

/// Insert an artifact before the first one with a battle number no
/// smaller than its own.
pub open spec fn insert_by_num(p: (Seq<u8>, u64), l: Seq<(Seq<u8>, u64)>) -> Seq<(Seq<u8>, u64)>
    decreases l.len(),
{
    if l.len() == 0 {
        seq![p]
    } else if p.1 <= l[0].1 {
        seq![p] + l
    } else {
        seq![l[0]] + insert_by_num(p, l.skip(1))
    }
}

/// The artifacts ordered by battle number, ascending (insertion sort).
pub open spec fn sort_outputs(l: Seq<(Seq<u8>, u64)>) -> Seq<(Seq<u8>, u64)>
    decreases l.len(),
{
    if l.len() == 0 {
        Seq::empty()
    } else {
        insert_by_num(l.last(), sort_outputs(l.drop_last()))
    }
}

/// Battle numbers ascend.
pub open spec fn nums_sorted(l: Seq<(Seq<u8>, u64)>) -> bool {
    forall|i: int, j: int| 0 <= i <= j < l.len() ==> (#[trigger] l[i]).1 <= (#[trigger] l[j]).1
}

/// Inserting keeps exactly the elements, as a multiset.
proof fn lemma_insert_num_multiset(p: (Seq<u8>, u64), l: Seq<(Seq<u8>, u64)>)
    ensures
        insert_by_num(p, l).len() == l.len() + 1,
        insert_by_num(p, l).to_multiset() =~= l.to_multiset().insert(p),
    decreases l.len(),
{
    broadcast use vstd::multiset::group_multiset_axioms;

    let res = insert_by_num(p, l);
    let empty = Seq::<(Seq<u8>, u64)>::empty();
    empty.to_multiset_ensures();
    vstd::multiset::lemma_multiset_empty_len(empty.to_multiset());
    assert(empty.to_multiset() =~= Multiset::<(Seq<u8>, u64)>::empty());
    if l.len() == 0 {
        assert(l =~= empty);
        assert(res =~= empty.push(p));
        assert(empty.push(p).to_multiset() =~= empty.to_multiset().insert(p));
        assert(res.to_multiset() =~= l.to_multiset().insert(p));
    } else if p.1 <= l[0].1 {
        vstd::seq_lib::lemma_multiset_commutative(seq![p], l);
        assert(seq![p] =~= empty.push(p));
        assert(empty.push(p).to_multiset() =~= empty.to_multiset().insert(p));
        assert(seq![p].to_multiset() =~= Multiset::<(Seq<u8>, u64)>::empty().insert(p));
        assert(res.to_multiset() =~= l.to_multiset().insert(p));
    } else {
        lemma_insert_num_multiset(p, l.skip(1));
        vstd::seq_lib::lemma_multiset_commutative(seq![l[0]], insert_by_num(p, l.skip(1)));
        vstd::seq_lib::lemma_multiset_commutative(seq![l[0]], l.skip(1));
        assert(l =~= seq![l[0]] + l.skip(1));
        assert(seq![l[0]] =~= empty.push(l[0]));
        assert(empty.push(l[0]).to_multiset() =~= empty.to_multiset().insert(l[0]));
        assert(seq![l[0]].to_multiset() =~= Multiset::<(Seq<u8>, u64)>::empty().insert(l[0]));
        assert(res.to_multiset() =~= l.to_multiset().insert(p));
    }
}

/// Inserting into a sorted list keeps it sorted.
proof fn lemma_insert_num_sorted(p: (Seq<u8>, u64), l: Seq<(Seq<u8>, u64)>)
    requires
        nums_sorted(l),
    ensures
        nums_sorted(insert_by_num(p, l)),
    decreases l.len(),
{
    broadcast use vstd::multiset::group_multiset_axioms;

    let res = insert_by_num(p, l);
    if l.len() == 0 {
    } else if p.1 <= l[0].1 {
        assert forall|i: int, j: int|
            0 <= i <= j < res.len() implies (#[trigger] res[i]).1 <= (#[trigger] res[j]).1 by {
            if i == 0 && j > 0 {
                assert(res[j] == l[j - 1]);
                assert(l[0].1 <= l[j - 1].1);
            } else if i > 0 {
                assert(res[i] == l[i - 1] && res[j] == l[j - 1]);
            }
        }
    } else {
        assert(forall|i: int, j: int|
            0 <= i <= j < l.skip(1).len() ==> (#[trigger] l.skip(1)[i]).1 <= (
            #[trigger] l.skip(1)[j]).1) by {
            assert(forall|k: int| 0 <= k < l.skip(1).len() ==> l.skip(1)[k] == l[k + 1]);
        }
        lemma_insert_num_sorted(p, l.skip(1));
        lemma_insert_num_multiset(p, l.skip(1));
        let rest = insert_by_num(p, l.skip(1));
        assert forall|i: int, j: int|
            0 <= i <= j < res.len() implies (#[trigger] res[i]).1 <= (#[trigger] res[j]).1 by {
            if i == 0 && j > 0 {
                assert(res[j] == rest[j - 1]);
                assert(rest.to_multiset().count(rest[j - 1]) > 0) by {
                    rest.to_multiset_ensures();
                    assert(rest.contains(rest[j - 1]));
                }
                assert(l.skip(1).to_multiset().insert(p).count(rest[j - 1]) > 0);
                if rest[j - 1] == p {
                    assert(l[0].1 < p.1);
                } else {
                    assert(l.skip(1).to_multiset().count(rest[j - 1]) > 0);
                    l.skip(1).to_multiset_ensures();
                    assert(l.skip(1).contains(rest[j - 1]));
                    let w = choose|w: int|
                        0 <= w < l.skip(1).len() && l.skip(1)[w] == rest[j - 1];
                    assert(l[w + 1] == rest[j - 1]);
                    assert(l[0].1 <= l[w + 1].1);
                }
            } else if i > 0 {
                assert(res[i] == rest[i - 1] && res[j] == rest[j - 1]);
            }
        }
    }
}

/// Sorting keeps exactly the elements, as a multiset, and orders them.
pub proof fn lemma_sort_outputs(l: Seq<(Seq<u8>, u64)>)
    ensures
        sort_outputs(l).len() == l.len(),
        sort_outputs(l).to_multiset() =~= l.to_multiset(),
        nums_sorted(sort_outputs(l)),
    decreases l.len(),
{
    broadcast use vstd::multiset::group_multiset_axioms;

    if l.len() > 0 {
        lemma_sort_outputs(l.drop_last());
        lemma_insert_num_multiset(l.last(), sort_outputs(l.drop_last()));
        lemma_insert_num_sorted(l.last(), sort_outputs(l.drop_last()));
        l.drop_last().to_multiset_ensures();
        assert(sort_outputs(l) == insert_by_num(l.last(), sort_outputs(l.drop_last())));
        assert(sort_outputs(l).to_multiset() =~= sort_outputs(
            l.drop_last(),
        ).to_multiset().insert(l.last()));
        assert(l =~= l.drop_last().push(l.last()));
        assert(l.drop_last().push(l.last()).to_multiset() =~= l.drop_last().to_multiset().insert(
            l.last(),
        ));
        assert(l.to_multiset() =~= l.drop_last().to_multiset().insert(l.last()));
        assert(sort_outputs(l).to_multiset() =~= l.to_multiset());
    } else {
        assert(l =~= Seq::<(Seq<u8>, u64)>::empty());
        assert(sort_outputs(l) == Seq::<(Seq<u8>, u64)>::empty());
    }
}

/// Two finalize runs on permuted per-file results leave the same
/// artifacts: a number-sorted artifact list with pairwise-distinct battle
/// numbers is determined by its multiset.  (Artifacts sharing one battle
/// number are the excluded case: they would collide on one output name.)
pub proof fn lemma_sorted_outputs_unique(s1: Seq<(Seq<u8>, u64)>, s2: Seq<(Seq<u8>, u64)>)
    requires
        nums_sorted(s1),
        nums_sorted(s2),
        forall|i: int, j: int|
            0 <= i < j < s1.len() ==> (#[trigger] s1[i]).1 != (#[trigger] s1[j]).1,
        forall|i: int, j: int|
            0 <= i < j < s2.len() ==> (#[trigger] s2[i]).1 != (#[trigger] s2[j]).1,
        s1.to_multiset() == s2.to_multiset(),
    ensures
        s1 =~= s2,
    decreases s1.len(),
{
    broadcast use vstd::multiset::group_multiset_axioms;

    s1.to_multiset_ensures();
    s2.to_multiset_ensures();
    if s1.len() == 0 {
        assert(s2.len() == 0);
    } else {
        assert(s2.len() == s1.len());
        assert(s1.contains(s2[0])) by {
            assert(s2.contains(s2[0]));
            assert(s2.to_multiset().count(s2[0]) > 0);
        }
        let k = choose|k: int| 0 <= k < s1.len() && s1[k] == s2[0];
        assert(s1[0].1 <= s1[k].1);
        assert(s2.contains(s1[0])) by {
            assert(s1.contains(s1[0]));
            assert(s1.to_multiset().count(s1[0]) > 0);
        }
        let m = choose|m: int| 0 <= m < s2.len() && s2[m] == s1[0];
        assert(s2[0].1 <= s2[m].1);
        assert(s1[0].1 == s2[0].1);
        assert(k == 0) by {
            if k > 0 {
                assert(s1[0].1 != s1[k].1);
            }
        }
        assert(s1[0] == s2[0]);
        assert(s1.remove(0).to_multiset() =~= s1.to_multiset().remove(s1[0]));
        assert(s2.remove(0).to_multiset() =~= s2.to_multiset().remove(s2[0]));
        assert(forall|i: int| 0 <= i < s1.remove(0).len() ==> s1.remove(0)[i] == s1[i + 1]);
        assert(forall|i: int| 0 <= i < s2.remove(0).len() ==> s2.remove(0)[i] == s2[i + 1]);
        lemma_sorted_outputs_unique(s1.remove(0), s2.remove(0));
        assert forall|idx: int| 0 <= idx < s1.len() implies #[trigger] s1[idx] == s2[idx] by {
            if idx > 0 {
                assert(s1.remove(0)[idx - 1] == s1[idx]);
                assert(s2.remove(0)[idx - 1] == s2[idx]);
                assert(s1.remove(0)[idx - 1] == s2.remove(0)[idx - 1]);
            }
        }
        assert(s1 =~= s2);
    }
}

/// Inserting at the found position is the spec insertion.
proof fn lemma_insert_num_at(p: (Seq<u8>, u64), l: Seq<(Seq<u8>, u64)>, pos: int)
    requires
        0 <= pos <= l.len(),
        forall|j: int| 0 <= j < pos ==> (#[trigger] l[j]).1 < p.1,
        pos < l.len() ==> p.1 <= l[pos].1,
    ensures
        insert_by_num(p, l) =~= l.subrange(0, pos) + seq![p] + l.subrange(pos, l.len() as int),
    decreases pos,
{
    if pos == 0 {
        if l.len() == 0 {
            assert(insert_by_num(p, l) =~= l.subrange(0, 0) + seq![p] + l.subrange(0, 0));
        } else {
            assert(insert_by_num(p, l) =~= l.subrange(0, 0) + seq![p] + l.subrange(
                0,
                l.len() as int,
            ));
        }
    } else {
        assert(l[0].1 < p.1);
        assert(forall|j: int| 0 <= j < pos - 1 ==> (#[trigger] l.skip(1)[j]).1 < p.1) by {
            assert(forall|j: int| 0 <= j < l.skip(1).len() ==> l.skip(1)[j] == l[j + 1]);
        }
        assert(pos - 1 < l.skip(1).len() ==> p.1 <= l.skip(1)[pos - 1].1);
        lemma_insert_num_at(p, l.skip(1), pos - 1);
        assert(insert_by_num(p, l) =~= l.subrange(0, pos) + seq![p] + l.subrange(
            pos,
            l.len() as int,
        ));
    }
}

/// Order the artifacts by battle number.
fn sort_outputs_exec(results: &Vec<(Vec<u8>, u64)>) -> (out: Vec<(Vec<u8>, u64)>)
    ensures
        outputs_view(out@) == sort_outputs(outputs_view(results@)),
{
    let ghost rv = outputs_view(results@);
    let mut out: Vec<(Vec<u8>, u64)> = Vec::new();
    proof {
        assert(rv.subrange(0, 0) =~= Seq::<(Seq<u8>, u64)>::empty());
        assert(outputs_view(out@) =~= sort_outputs(rv.subrange(0, 0)));
    }
    let mut i: usize = 0;
    while i < results.len()
        invariant
            0 <= i <= results@.len(),
            rv == outputs_view(results@),
            outputs_view(out@) == sort_outputs(rv.subrange(0, i as int)),
        decreases results@.len() - i,
    {
        let num = results[i].1;
        let mut pos: usize = 0;
        while pos < out.len() && out[pos].1 < num
            invariant
                0 <= pos <= out@.len(),
                0 <= i < results@.len(),
                num == rv[i as int].1,
                rv == outputs_view(results@),
                forall|j: int| 0 <= j < pos ==> (#[trigger] outputs_view(out@)[j]).1 < num,
            decreases out@.len() - pos,
        {
            proof {
                assert(outputs_view(out@)[pos as int].1 == out@[pos as int].1);
            }
            pos = pos + 1;
        }
        let item = (copy_bytes(results[i].0.as_slice()), results[i].1);
        let ghost before = outputs_view(out@);
        proof {
            assert(pos < out@.len() ==> num <= outputs_view(out@)[pos as int].1) by {
                if pos < out@.len() {
                    assert(outputs_view(out@)[pos as int].1 == out@[pos as int].1);
                }
            }
        }
        out.insert(pos, item);
        proof {
            lemma_insert_num_at(rv[i as int], before, pos as int);
            assert(item.0@ == rv[i as int].0 && item.1 == rv[i as int].1);
            assert(outputs_view(out@) =~= before.subrange(0, pos as int) + seq![rv[i as int]]
                + before.subrange(pos as int, before.len() as int));
            assert(outputs_view(out@) =~= insert_by_num(rv[i as int], before));
            assert(rv.subrange(0, i + 1).drop_last() =~= rv.subrange(0, i as int));
            assert(rv.subrange(0, i + 1).last() == rv[i as int]);
        }
        i = i + 1;
    }
    proof {
        assert(rv.subrange(0, rv.len() as int) =~= rv);
    }
    out
}

/// What a successful anonymization hands back for one file: the JSON text
/// of the anonymized form of the record view that `raw` parses to — a
/// valid record — with its battle number.
#[verifier::opaque]
pub open spec fn anonymized_artifact(
    is_safe: bool,
    raw: Seq<u8>,
    path: Seq<u8>,
    json: Seq<u8>,
    num: u64,
) -> bool {
    exists|rec: BattleRecord, out: BattleRecord|
        crate::parse::parsed_from(raw, rec) && record_valid(&rec) && #[trigger] anonymized(
            &rec,
            is_safe,
            fallback_number(path),
            &out,
            num,
        ) && json == #[trigger] crate::serialize::ser_record(&out)
}

/// The extracted fields describe a valid record: both players resolve to
/// non-empty, distinct identifiers and a present winner resolves to one
/// of them.
pub open spec fn extracted_valid(vals: Seq<Option<Seq<u8>>>) -> bool {
    let p1id = id_of(crate::extract::unquote(vals[0]->Some_0));
    let p2id = id_of(crate::extract::unquote(vals[1]->Some_0));
    &&& p1id.len() > 0
    &&& p2id.len() > 0
    &&& p1id != p2id
    &&& match crate::parse::winner_field(vals[2]) {
        Option::None => true,
        Option::Some(w) => id_of(w) == p1id || id_of(w) == p2id,
    }
}

/// The battle number used when the room identifier gives none: the digit
/// suffix of the file's room name, or zero.
pub open spec fn fallback_number(path: Seq<u8>) -> u64 {
    let room = crate::search::room_of(path);
    if 1 <= trailing_digits(room).len() <= 18 {
        digits_value(trailing_digits(room)) as u64
    } else {
        0
    }
}

/// Every replacement string of a record's rewrite pass is a pseudonym:
/// for a pattern free of `#` and digits they are all non-empty and
/// fold-disjoint from it.
pub proof fn lemma_anon_pairs_safe(r: &BattleRecord, n: Seq<u8>)
    requires
        forall|i: int|
            0 <= i < n.len() ==> !(crate::id::fold_case(#[trigger] n[i]) == 35 || 48
                <= crate::id::fold_case(n[i]) <= 57),
    ensures
        crate::rewrite::all_repls_safe_for(anon_pairs(r), n),
{
    let pairs = anon_pairs(r);
    assert forall|j: int|
        0 <= j < pairs.len() implies (#[trigger] pairs[j]).1.len() > 0
        && crate::rewrite::fold_disjoint(pairs[j].1, n) by {
        assert(pairs[j].1 == pseudonym_of(1) || pairs[j].1 == pseudonym_of(2) || pairs[j].1
            == pseudonym_of(unum1(r)) || pairs[j].1 == pseudonym_of(unum2(r)));
        if pairs[j].1 == pseudonym_of(1) {
            crate::pseudonym::lemma_pseudonym_bytes(1);
            lemma_pseudonym_disjoint(1, n);
        } else if pairs[j].1 == pseudonym_of(2) {
            crate::pseudonym::lemma_pseudonym_bytes(2);
            lemma_pseudonym_disjoint(2, n);
        } else if pairs[j].1 == pseudonym_of(unum1(r)) {
            crate::pseudonym::lemma_pseudonym_bytes(unum1(r));
            lemma_pseudonym_disjoint(unum1(r), n);
        } else {
            crate::pseudonym::lemma_pseudonym_bytes(unum2(r));
            lemma_pseudonym_disjoint(unum2(r), n);
        }
    }
}

/// Anonymizing a valid record, with either safety flag, leaves no
/// occurrence of a participant string — display name, canonical
/// identifier, or rating user id — in the player and winner fields or in
/// any transcript line of the output.  Two runs with the same flag each
/// satisfy this against the same original, with pseudonym assignments of
/// their own.  The participant string must be non-empty and hold no `|`,
/// no `#`, and no digit, so that no replacement can overlap it.
pub proof fn lemma_no_original_names(
    r: &BattleRecord,
    is_safe: bool,
    fallback: u64,
    out: &BattleRecord,
    num: u64,
    t: int,
)
    requires
        anonymized(r, is_safe, fallback, out, num),
        0 <= t < anon_pairs(r).len(),
        anon_pairs(r)[t].0.len() > 0,
        !crate::bytes::has_byte(anon_pairs(r)[t].0, 124u8),
        forall|i: int|
            0 <= i < anon_pairs(r)[t].0.len() ==> !(crate::id::fold_case(
                #[trigger] anon_pairs(r)[t].0[i],
            ) == 35 || 48 <= crate::id::fold_case(anon_pairs(r)[t].0[i]) <= 57),
    ensures
        !crate::rewrite::contains_ci(out.p1@, anon_pairs(r)[t].0),
        !crate::rewrite::contains_ci(out.p2@, anon_pairs(r)[t].0),
        out.winner is Some ==> !crate::rewrite::contains_ci(
            out.winner->Some_0@,
            anon_pairs(r)[t].0,
        ),
        forall|i: int|
            0 <= i < out.log@.len() ==> !crate::rewrite::contains_ci(
                (#[trigger] out.log@[i])@,
                anon_pairs(r)[t].0,
            ),
{
    lemma_anon_pairs_safe(r, anon_pairs(r)[t].0);
    lemma_anonymize_removes(r, is_safe, fallback, out, num, t);
}

/// The anonymized transcript has the line count of the source transcript,
/// and every line keeps its delimiter-defined field count: pseudonyms
/// never carry the `|` delimiter, and each field is rewritten on its own.
pub proof fn lemma_transcript_structure(
    r: &BattleRecord,
    is_safe: bool,
    fallback: u64,
    out: &BattleRecord,
    num: u64,
)
    requires
        anonymized(r, is_safe, fallback, out, num),
    ensures
        out.log@.len() == r.log@.len(),
        forall|i: int|
            0 <= i < r.log@.len() ==> crate::transcript::split_sep(
                (#[trigger] out.log@[i])@,
                124u8,
            ).len() == crate::transcript::split_sep(r.log@[i]@, 124u8).len(),
{
    reveal(anonymized);
    let pairs = anon_pairs(r);
    let sorted = crate::rewrite::sort_by_len(pairs);
    crate::rewrite::lemma_sort_elements(pairs);
    assert forall|j: int|
        0 <= j < pairs.len() implies !crate::bytes::has_byte((#[trigger] pairs[j]).1, 124u8) by {
        assert(pairs[j].1 == pseudonym_of(1) || pairs[j].1 == pseudonym_of(2) || pairs[j].1
            == pseudonym_of(unum1(r)) || pairs[j].1 == pseudonym_of(unum2(r)));
        if pairs[j].1 == pseudonym_of(1) {
            crate::pseudonym::lemma_pseudonym_bytes(1);
        } else if pairs[j].1 == pseudonym_of(2) {
            crate::pseudonym::lemma_pseudonym_bytes(2);
        } else if pairs[j].1 == pseudonym_of(unum1(r)) {
            crate::pseudonym::lemma_pseudonym_bytes(unum1(r));
        } else {
            crate::pseudonym::lemma_pseudonym_bytes(unum2(r));
        }
    }
    assert forall|j: int|
        0 <= j < sorted.len() implies !crate::bytes::has_byte((#[trigger] sorted[j]).1, 124u8) by {
        assert(pairs.contains(sorted[j]));
        let k = choose|k: int| 0 <= k < pairs.len() && pairs[k] == sorted[j];
        assert(!crate::bytes::has_byte(pairs[k].1, 124u8));
    }
    assert forall|i: int|
        0 <= i < r.log@.len() implies crate::transcript::split_sep(
        (#[trigger] out.log@[i])@,
        124u8,
    ).len() == crate::transcript::split_sep(r.log@[i]@, 124u8).len() by {
        assert(out.log@[i]@ == rewritten_line(r.log@[i]@, sorted));
        crate::transcript::lemma_line_structure(r.log@[i]@, sorted);
    }
}

/// The redaction sentinel as bytes.
fn sentinel_vec() -> (r: Vec<u8>)
    ensures
        r@ == redaction_sentinel(),
{
    let mut r: Vec<u8> = Vec::new();
    push_all(&mut r, ("0").as_bytes());
    proof {
        assert(r@ =~= redaction_sentinel());
    }
    r
}

} // verus!
