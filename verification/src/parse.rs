//! Reading a battle record out of its raw JSON document.
//!
//! The field extractor hands over raw value bytes; this module turns them
//! into the record view: strings are unquoted, and the transcript array
//! is split into its decoded lines, reading the common JSON string
//! escapes and tolerating whitespace between tokens.  A transcript the
//! array grammar does not cover is rejected as an invalid log.

use vstd::prelude::*;
use crate::bytes::has_byte;
use crate::bytes::copy_bytes;
use crate::bytes::bytes_eq;
use crate::extract::json_result;
use crate::extract::json_extract;
use crate::extract::opt_bytes_view;
use crate::extract::unquote;
use crate::extract::unquote_exec;
use crate::record::BattleRecord;
use crate::record::EndType;
use crate::record::Rating;
use crate::transcript::fields_view;
use crate::BattleToolsError;
use vstd::string::StringSliceAdditionalSpecFns;

verus! {

/// A whitespace byte: space, tab, line feed, carriage return.
pub open spec fn is_ws(b: u8) -> bool {
    b == 32 || b == 9 || b == 10 || b == 13
}

/// The byte a JSON escape pair `\\X` denotes, or `None` for an escape this
/// parser does not read (`\\u` among them).
pub open spec fn esc_decode(b: u8) -> Option<u8> {
    if b == 34 {
        Option::Some(34)
    } else if b == 92 {
        Option::Some(92)
    } else if b == 47 {
        Option::Some(47)
    } else if b == 110 {
        Option::Some(10)
    } else if b == 116 {
        Option::Some(9)
    } else if b == 114 {
        Option::Some(13)
    } else if b == 98 {
        Option::Some(8)
    } else if b == 102 {
        Option::Some(12)
    } else {
        Option::None
    }
}

/// Only whitespace stands from `i` to the end.
pub open spec fn trailing_ws_only(s: Seq<u8>, i: int) -> bool
    decreases s.len() - i,
        when 0 <= i <= s.len()
{
    if i >= s.len() {
        true
    } else if is_ws(s[i]) {
        trailing_ws_only(s, i + 1)
    } else {
        false
    }
}

/// After `[`: whitespace, then `]` (an empty array) or the first string.
pub open spec fn parse_top(s: Seq<u8>, i: int) -> Option<Seq<Seq<u8>>>
    decreases s.len() - i, 3int,
        when 0 <= i <= s.len()
{
    if i >= s.len() {
        Option::None
    } else if is_ws(s[i]) {
        parse_top(s, i + 1)
    } else if s[i] == 93 {
        if trailing_ws_only(s, i + 1) {
            Option::Some(Seq::empty())
        } else {
            Option::None
        }
    } else if s[i] == 34 {
        parse_inside(s, i + 1)
    } else {
        Option::None
    }
}

/// After a comma: whitespace, then the next string (no trailing comma).
pub open spec fn parse_items(s: Seq<u8>, i: int) -> Option<Seq<Seq<u8>>>
    decreases s.len() - i, 3int,
        when 0 <= i <= s.len()
{
    if i >= s.len() {
        Option::None
    } else if is_ws(s[i]) {
        parse_items(s, i + 1)
    } else if s[i] == 34 {
        parse_inside(s, i + 1)
    } else {
        Option::None
    }
}

/// Inside a string: the result's first line is the rest of the current
/// string's decoded content, followed by the remaining lines.
pub open spec fn parse_inside(s: Seq<u8>, i: int) -> Option<Seq<Seq<u8>>>
    decreases s.len() - i, 2int,
        when 0 <= i <= s.len()
{
    if i >= s.len() {
        Option::None
    } else if s[i] == 34 {
        match parse_sep(s, i + 1) {
            Option::None => Option::None,
            Option::Some(rest) => Option::Some(seq![Seq::<u8>::empty()] + rest),
        }
    } else if s[i] == 92 {
        if i + 1 >= s.len() {
            Option::None
        } else {
            match esc_decode(s[i + 1]) {
                Option::None => Option::None,
                Option::Some(c) => match parse_inside(s, i + 2) {
                    Option::None => Option::None,
                    Option::Some(ls) => Option::Some(seq![seq![c] + ls[0]] + ls.skip(1)),
                },
            }
        }
    } else if s[i] < 32 {
        Option::None
    } else {
        match parse_inside(s, i + 1) {
            Option::None => Option::None,
            Option::Some(ls) => Option::Some(seq![seq![s[i]] + ls[0]] + ls.skip(1)),
        }
    }
}

/// After a closed string: whitespace, then a comma or the closing bracket.
pub open spec fn parse_sep(s: Seq<u8>, i: int) -> Option<Seq<Seq<u8>>>
    decreases s.len() - i, 1int,
        when 0 <= i <= s.len()
{
    if i >= s.len() {
        Option::None
    } else if is_ws(s[i]) {
        parse_sep(s, i + 1)
    } else if s[i] == 44 {
        parse_items(s, i + 1)
    } else if s[i] == 93 {
        if trailing_ws_only(s, i + 1) {
            Option::Some(Seq::empty())
        } else {
            Option::None
        }
    } else {
        Option::None
    }
}

/// The lines of a JSON array of strings: whitespace is allowed between
/// tokens, string contents are decoded (the escapes `\\" \\\\ \\/ \\n \\t \\r
/// \\b \\f`; `\\u` and raw control bytes are not read and reject the
/// array), and nothing may follow the closing bracket but whitespace.
pub open spec fn spec_parse_array(s: Seq<u8>) -> Option<Seq<Seq<u8>>> {
    if s.len() == 0 || s[0] != 91 {
        Option::None
    } else {
        parse_top(s, 1)
    }
}

/// An accepted string yields at least its own (possibly empty) line.
proof fn lemma_parse_inside_len(s: Seq<u8>, i: int)
    requires
        0 <= i <= s.len(),
        parse_inside(s, i) is Some,
    ensures
        parse_inside(s, i)->Some_0.len() >= 1,
{
}

/// The view of a parse outcome.
pub open spec fn opt_lines_view(r: Option<Vec<Vec<u8>>>) -> Option<Seq<Seq<u8>>> {
    match r {
        Option::None => Option::None,
        Option::Some(v) => Option::Some(fields_view(v@)),
    }
}

/// Split a JSON array of strings into its decoded lines: exactly the
/// arrays `spec_parse_array` reads, nothing else.
#[verifier::loop_isolation(false)]
#[verifier::rlimit(100)]
pub fn parse_string_array(s: &[u8]) -> (r: Option<Vec<Vec<u8>>>)
    ensures
        opt_lines_view(r) == spec_parse_array(s@),
{
    if s.len() == 0 || s[0] != 91 {
        return None;
    }
    let ghost whole = spec_parse_array(s@);
    let mut done: Vec<Vec<u8>> = Vec::new();
    let mut cur: Vec<u8> = Vec::new();
    // 0: before the first element; 1: before a later element; 2: inside a
    // string; 3: after a string; 4: after the closing bracket.
    let mut state: u8 = 0;
    let mut i: usize = 1;
    proof {
        assert(whole == parse_top(s@, 1));
    }
    while i < s.len()
        invariant
            1 <= i <= s@.len(),
            s@.len() > 0 && s@[0] == 91,
            whole == spec_parse_array(s@),
            state <= 4,
            state == 0 ==> done@.len() == 0 && cur@.len() == 0 && whole == parse_top(s@, i as int),
            state == 1 ==> cur@.len() == 0 && whole == (match parse_items(s@, i as int) {
                Option::None => Option::<Seq<Seq<u8>>>::None,
                Option::Some(ls) => Option::Some(fields_view(done@) + ls),
            }),
            state == 2 ==> whole == (match parse_inside(s@, i as int) {
                Option::None => Option::<Seq<Seq<u8>>>::None,
                Option::Some(ls) => Option::Some(
                    fields_view(done@) + seq![cur@ + ls[0]] + ls.skip(1),
                ),
            }),
            state == 3 ==> cur@.len() == 0 && whole == (match parse_sep(s@, i as int) {
                Option::None => Option::<Seq<Seq<u8>>>::None,
                Option::Some(ls) => Option::Some(fields_view(done@) + ls),
            }),
            state == 4 ==> cur@.len() == 0 && whole == (if trailing_ws_only(s@, i as int) {
                Option::Some(fields_view(done@))
            } else {
                Option::<Seq<Seq<u8>>>::None
            }),
        decreases s@.len() - i,
    {
        let b = s[i];
        if state == 0 || state == 1 {
            if b == 32 || b == 9 || b == 10 || b == 13 {
                i = i + 1;
            } else if b == 93 && state == 0 {
                state = 4;
                i = i + 1;
            } else if b == 34 {
                proof {
                    if parse_inside(s@, i + 1) is Some {
                        lemma_parse_inside_len(s@, i + 1);
                        let ls = parse_inside(s@, i + 1)->Some_0;
                        assert(ls =~= seq![ls[0]] + ls.skip(1));
                        assert(fields_view(done@) + seq![cur@ + ls[0]] + ls.skip(1)
                            =~= fields_view(done@) + ls);
                    }
                }
                state = 2;
                i = i + 1;
            } else {
                return None;
            }
        } else if state == 2 {
            if b == 34 {
                let ghost old_done = fields_view(done@);
                let ghost cv = cur@;
                let finished = cur;
                cur = Vec::new();
                done.push(finished);
                proof {
                    assert(fields_view(done@) =~= old_done.push(cv));
                    if parse_sep(s@, i + 1) is Some {
                        let rest = parse_sep(s@, i + 1)->Some_0;
                        let ls = seq![Seq::<u8>::empty()] + rest;
                        assert(ls[0] =~= Seq::<u8>::empty());
                        assert(cv + ls[0] =~= cv);
                        assert(ls.skip(1) =~= rest);
                        assert(old_done + seq![cv + ls[0]] + ls.skip(1) =~= fields_view(done@)
                            + rest);
                    }
                }
                state = 3;
                i = i + 1;
            } else if b == 92 {
                if i + 1 >= s.len() {
                    return None;
                }
                let e = s[i + 1];
                let c: u8 = if e == 34 {
                    34
                } else if e == 92 {
                    92
                } else if e == 47 {
                    47
                } else if e == 110 {
                    10
                } else if e == 116 {
                    9
                } else if e == 114 {
                    13
                } else if e == 98 {
                    8
                } else if e == 102 {
                    12
                } else {
                    return None;
                };
                proof {
                    assert(esc_decode(s@[i + 1]) == Option::Some(c));
                    if parse_inside(s@, i + 2) is Some {
                        let ls2 = parse_inside(s@, i + 2)->Some_0;
                        let ls = seq![seq![c] + ls2[0]] + ls2.skip(1);
                        assert(ls[0] =~= seq![c] + ls2[0]);
                        assert(ls.skip(1) =~= ls2.skip(1));
                        assert(cur@.push(c) + ls2[0] =~= cur@ + ls[0]);
                        assert(fields_view(done@) + seq![cur@.push(c) + ls2[0]] + ls2.skip(1)
                            =~= fields_view(done@) + seq![cur@ + ls[0]] + ls.skip(1));
                    }
                }
                cur.push(c);
                i = i + 2;
            } else if b < 32 {
                return None;
            } else {
                proof {
                    if parse_inside(s@, i + 1) is Some {
                        let ls2 = parse_inside(s@, i + 1)->Some_0;
                        let ls = seq![seq![s@[i as int]] + ls2[0]] + ls2.skip(1);
                        assert(ls[0] =~= seq![s@[i as int]] + ls2[0]);
                        assert(ls.skip(1) =~= ls2.skip(1));
                        assert(cur@.push(b) + ls2[0] =~= cur@ + ls[0]);
                        assert(fields_view(done@) + seq![cur@.push(b) + ls2[0]] + ls2.skip(1)
                            =~= fields_view(done@) + seq![cur@ + ls[0]] + ls.skip(1));
                    }
                }
                cur.push(b);
                i = i + 1;
            }
        } else if state == 3 {
            if b == 32 || b == 9 || b == 10 || b == 13 {
                i = i + 1;
            } else if b == 44 {
                state = 1;
                i = i + 1;
            } else if b == 93 {
                proof {
                    if trailing_ws_only(s@, i + 1) {
                        assert(fields_view(done@) + Seq::<Seq<u8>>::empty()
                            =~= fields_view(done@));
                    }
                }
                state = 4;
                i = i + 1;
            } else {
                return None;
            }
        } else {
            if b == 32 || b == 9 || b == 10 || b == 13 {
                i = i + 1;
            } else {
                return None;
            }
        }
    }
    if state == 4 {
        proof {
            assert(trailing_ws_only(s@, i as int));
        }
        return Some(done);
    }
    None
}

/// The winner field a record view gets from an extracted value: absent or
/// JSON `null` means no winner.
pub open spec fn winner_field(v: Option<Seq<u8>>) -> Option<Seq<u8>> {
    match v {
        Option::None => Option::None,
        Option::Some(b) => if b == ("null").spec_bytes() {
            Option::None
        } else {
            Option::Some(unquote(b))
        },
    }
}

/// The end type a record view gets from an extracted value.
pub open spec fn end_type_field(v: Option<Seq<u8>>) -> EndType {
    match v {
        Option::None => EndType::Other,
        Option::Some(b) => if b == ("\"normal\"").spec_bytes() {
            EndType::Normal
        } else if b == ("\"forfeit\"").spec_bytes() {
            EndType::Forfeit
        } else {
            EndType::Other
        },
    }
}

/// A text field a record view gets from an extracted value: unquoted, or
/// empty when absent.
pub open spec fn text_field(v: Option<Seq<u8>>) -> Seq<u8> {
    match v {
        Option::None => Seq::empty(),
        Option::Some(b) => unquote(b),
    }
}

/// Read a text field.
fn text_field_exec(v: &Option<Vec<u8>>) -> (r: Vec<u8>)
    ensures
        r@ == text_field(opt_bytes_view(*v)),
{
    match v {
        Option::None => Vec::new(),
        Option::Some(b) => unquote_exec(b.as_slice()),
    }
}

/// A rating view read from its extracted fields: present exactly when a
/// non-null user id is, with the user id unquoted and the value and
/// timestamp kept raw (empty when absent).
pub open spec fn rating_from(
    uid: Option<Seq<u8>>,
    elo: Option<Seq<u8>>,
    rptime: Option<Seq<u8>>,
    rd: Option<Seq<u8>>,
    oldelo: Option<Seq<u8>>,
    rt: Option<Rating>,
) -> bool {
    match uid {
        Option::None => rt is None,
        Option::Some(u) => if u == ("null").spec_bytes() {
            rt is None
        } else {
            rt is Some && rt->Some_0.userid@ == unquote(u) && rt->Some_0.elo@ == (match elo {
                Option::None => Seq::<u8>::empty(),
                Option::Some(b) => unquote(b),
            }) && rt->Some_0.rptime@ == (match rptime {
                Option::None => Seq::<u8>::empty(),
                Option::Some(b) => unquote(b),
            }) && rt->Some_0.rd@ == (match rd {
                Option::None => Seq::<u8>::empty(),
                Option::Some(b) => unquote(b),
            }) && rt->Some_0.oldelo@ == (match oldelo {
                Option::None => Seq::<u8>::empty(),
                Option::Some(b) => unquote(b),
            })
        },
    }
}

/// Parse one rating snapshot from its extracted fields.
fn rating_fields(
    uid: &Option<Vec<u8>>,
    elo: &Option<Vec<u8>>,
    rptime: &Option<Vec<u8>>,
    rd: &Option<Vec<u8>>,
    oldelo: &Option<Vec<u8>>,
) -> (r: Option<Rating>)
    ensures
        rating_from(
            opt_bytes_view(*uid),
            opt_bytes_view(*elo),
            opt_bytes_view(*rptime),
            opt_bytes_view(*rd),
            opt_bytes_view(*oldelo),
            r,
        ),
{
    match uid {
        Option::None => Option::None,
        Option::Some(u) => {
            if bytes_eq(u.as_slice(), ("null").as_bytes()) {
                return Option::None;
            }
            let elo_b = match elo {
                Option::None => Vec::new(),
                Option::Some(b) => unquote_exec(b.as_slice()),
            };
            let rptime_b = match rptime {
                Option::None => Vec::new(),
                Option::Some(b) => unquote_exec(b.as_slice()),
            };
            let rd_b = match rd {
                Option::None => Vec::new(),
                Option::Some(b) => unquote_exec(b.as_slice()),
            };
            let oldelo_b = match oldelo {
                Option::None => Vec::new(),
                Option::Some(b) => unquote_exec(b.as_slice()),
            };
            Option::Some(
                Rating {
                    userid: unquote_exec(u.as_slice()),
                    elo: elo_b,
                    rptime: rptime_b,
                    rd: rd_b,
                    oldelo: oldelo_b,
                },
            )
        },
    }
}

/// The paths the record view is read from, in order.
pub open spec fn record_paths() -> Seq<Seq<u8>> {
    seq![
        ("$.p1").spec_bytes(),
        ("$.p2").spec_bytes(),
        ("$.winner").spec_bytes(),
        ("$.endType").spec_bytes(),
        ("$.p1rating.userid").spec_bytes(),
        ("$.p1rating.elo").spec_bytes(),
        ("$.p1rating.rptime").spec_bytes(),
        ("$.p1rating.rd").spec_bytes(),
        ("$.p1rating.oldelo").spec_bytes(),
        ("$.p2rating.userid").spec_bytes(),
        ("$.p2rating.elo").spec_bytes(),
        ("$.p2rating.rptime").spec_bytes(),
        ("$.p2rating.rd").spec_bytes(),
        ("$.p2rating.oldelo").spec_bytes(),
        ("$.roomid").spec_bytes(),
        ("$.format").spec_bytes(),
        ("$.timestamp").spec_bytes(),
        ("$.log").spec_bytes(),
        ("$.comment").spec_bytes(),
    ]
}

/// `rec` is the record view of the document `raw`: each field is read
/// from the extractor's answer for `record_paths` as the field helpers
/// state.
pub open spec fn parsed_from(raw: Seq<u8>, rec: BattleRecord) -> bool {
    match json_result(raw, record_paths()) {
        Option::None => false,
        Option::Some(vals) => {
            &&& vals[0] is Some
            &&& vals[1] is Some
            &&& rec.p1@ == unquote(vals[0]->Some_0)
            &&& rec.p2@ == unquote(vals[1]->Some_0)
            &&& (match winner_field(vals[2]) {
                Option::None => rec.winner is None,
                Option::Some(w) => rec.winner is Some && rec.winner->Some_0@ == w,
            })
            &&& rec.end_type == end_type_field(vals[3])
            &&& rating_from(vals[4], vals[5], vals[6], vals[7], vals[8], rec.p1rating)
            &&& rating_from(vals[9], vals[10], vals[11], vals[12], vals[13], rec.p2rating)
            &&& rec.roomid@ == text_field(vals[14])
            &&& rec.format@ == text_field(vals[15])
            &&& rec.timestamp@ == text_field(vals[16])
            &&& (match vals[17] {
                Option::None => rec.log@.len() == 0,
                Option::Some(b) => spec_parse_array(b) == Option::Some(fields_view(rec.log@)),
            })
            &&& (match vals[18] {
                Option::None => rec.comment is None,
                Option::Some(b) => rec.comment is Some && rec.comment->Some_0@ == unquote(b),
            })
        },
    }
}

/// Parse a raw battle document into the record view.  A document the
/// extractor rejects, one whose players cannot be read, or one whose
/// transcript `spec_parse_array` does not read, is rejected with
/// `InvalidLog`.  A readable document with both players whose transcript
/// is absent or accepted is owed success.
pub fn parse_battle_record(raw: &[u8]) -> (res: Result<BattleRecord, BattleToolsError>)
    ensures
        res is Err ==> res->Err_0 is InvalidLog,
        res is Ok ==> parsed_from(raw@, res->Ok_0),
        json_result(raw@, record_paths()) is None ==> res is Err,
        (json_result(raw@, record_paths()) matches Some(vals) && (vals[0] is None || vals[1]
            is None)) ==> res is Err,
        (json_result(raw@, record_paths()) matches Some(vals) && vals[0] is Some && vals[1]
            is Some && (vals[17] is None || spec_parse_array(vals[17]->Some_0) is Some)) ==> res
            is Ok,
{
    let mut paths: Vec<Vec<u8>> = Vec::new();
    paths.push(copy_bytes(("$.p1").as_bytes()));
    paths.push(copy_bytes(("$.p2").as_bytes()));
    paths.push(copy_bytes(("$.winner").as_bytes()));
    paths.push(copy_bytes(("$.endType").as_bytes()));
    paths.push(copy_bytes(("$.p1rating.userid").as_bytes()));
    paths.push(copy_bytes(("$.p1rating.elo").as_bytes()));
    paths.push(copy_bytes(("$.p1rating.rptime").as_bytes()));
    paths.push(copy_bytes(("$.p1rating.rd").as_bytes()));
    paths.push(copy_bytes(("$.p1rating.oldelo").as_bytes()));
    paths.push(copy_bytes(("$.p2rating.userid").as_bytes()));
    paths.push(copy_bytes(("$.p2rating.elo").as_bytes()));
    paths.push(copy_bytes(("$.p2rating.rptime").as_bytes()));
    paths.push(copy_bytes(("$.p2rating.rd").as_bytes()));
    paths.push(copy_bytes(("$.p2rating.oldelo").as_bytes()));
    paths.push(copy_bytes(("$.roomid").as_bytes()));
    paths.push(copy_bytes(("$.format").as_bytes()));
    paths.push(copy_bytes(("$.timestamp").as_bytes()));
    paths.push(copy_bytes(("$.log").as_bytes()));
    paths.push(copy_bytes(("$.comment").as_bytes()));
    proof {
        assert(fields_view(paths@) =~= record_paths());
    }
    let vals = match json_extract(raw, &paths) {
        Option::Some(v) => v,
        Option::None => {
            return Result::Err(
                BattleToolsError::InvalidLog(
                    String::from_str("record is not a readable JSON document"),
                ),
            );
        },
    };
    proof {
        let ext = json_result(raw@, record_paths());
        assert(ext is Some);
        assert(ext->Some_0 =~= crate::extract::vals_view(vals@));
        assert forall|i: int| 0 <= i < 19 implies #[trigger] ext->Some_0[i] == opt_bytes_view(
            vals@[i],
        ) by {
            assert(ext->Some_0[i] == crate::extract::vals_view(vals@)[i]);
        }
    }
    let p1 = match &vals[0] {
        Option::None => {
            return Result::Err(
                BattleToolsError::InvalidLog(String::from_str("record names no slot-1 player")),
            );
        },
        Option::Some(b) => unquote_exec(b.as_slice()),
    };
    let p2 = match &vals[1] {
        Option::None => {
            return Result::Err(
                BattleToolsError::InvalidLog(String::from_str("record names no slot-2 player")),
            );
        },
        Option::Some(b) => unquote_exec(b.as_slice()),
    };
    let winner: Option<Vec<u8>> = match &vals[2] {
        Option::None => Option::None,
        Option::Some(b) => {
            if bytes_eq(b.as_slice(), ("null").as_bytes()) {
                Option::None
            } else {
                Option::Some(unquote_exec(b.as_slice()))
            }
        },
    };
    let end_type: EndType = match &vals[3] {
        Option::None => EndType::Other,
        Option::Some(b) => {
            if bytes_eq(b.as_slice(), ("\"normal\"").as_bytes()) {
                EndType::Normal
            } else if bytes_eq(b.as_slice(), ("\"forfeit\"").as_bytes()) {
                EndType::Forfeit
            } else {
                EndType::Other
            }
        },
    };
    let p1rating = rating_fields(&vals[4], &vals[5], &vals[6], &vals[7], &vals[8]);
    let p2rating = rating_fields(&vals[9], &vals[10], &vals[11], &vals[12], &vals[13]);
    let roomid = text_field_exec(&vals[14]);
    let format = text_field_exec(&vals[15]);
    let timestamp = text_field_exec(&vals[16]);
    let log: Vec<Vec<u8>> = match &vals[17] {
        Option::None => Vec::new(),
        Option::Some(b) => match parse_string_array(b.as_slice()) {
            Option::Some(lines) => lines,
            Option::None => {
                return Result::Err(
                    BattleToolsError::InvalidLog(
                        String::from_str("record's transcript is not an array of strings"),
                    ),
                );
            },
        },
    };
    let comment: Option<Vec<u8>> = match &vals[18] {
        Option::None => Option::None,
        Option::Some(b) => Option::Some(unquote_exec(b.as_slice())),
    };
    Result::Ok(
        BattleRecord {
            p1,
            p2,
            winner,
            end_type,
            p1rating,
            p2rating,
            log,
            roomid,
            format,
            timestamp,
            comment,
        },
    )
}

} // verus!
