//! The structural view of one battle record.
//!
//! A record holds the two participants, the optional winner and rating
//! snapshots, the outcome kind, the embedded transcript, and the tags used
//! for bucketing and output naming.  All text is bytes.

use vstd::prelude::*;
use crate::id::id_of;
use crate::BattleToolsError;

verus! {

/// How a battle ended.
pub enum EndType {
    Normal,
    Forfeit,
    Other,
}

/// One participant's rating snapshot.
pub struct Rating {
    /// The rating-table user id; denotes a participant, possibly formatted
    /// differently than the display name.
    pub userid: Vec<u8>,
    /// The ELO-like rating value, as digit text.
    pub elo: Vec<u8>,
    /// The rating timestamp, as digit text.
    pub rptime: Vec<u8>,
    /// The rating deviation, as digit text.
    pub rd: Vec<u8>,
    /// The previous rating value, from which the rating delta can be
    /// read, as digit text.
    pub oldelo: Vec<u8>,
}

/// The parsed view of one battle record.
pub struct BattleRecord {
    /// Display name of the participant in slot 1.
    pub p1: Vec<u8>,
    /// Display name of the participant in slot 2.
    pub p2: Vec<u8>,
    /// Display name of the winner, when the battle had one.
    pub winner: Option<Vec<u8>>,
    pub end_type: EndType,
    pub p1rating: Option<Rating>,
    pub p2rating: Option<Rating>,
    /// The transcript: protocol lines of `|`-separated fields.
    pub log: Vec<Vec<u8>>,
    /// The source room identifier, e.g. `battle-<format>-<number>`.
    pub roomid: Vec<u8>,
    /// The format tag used for statistics bucketing.
    pub format: Vec<u8>,
    /// The recording timestamp, as free text.
    pub timestamp: Vec<u8>,
    /// A free-text comment, if any; always stripped by anonymization.
    pub comment: Option<Vec<u8>>,
}

/// Both players resolve to non-empty, distinct canonical identifiers.
pub open spec fn players_valid(r: &BattleRecord) -> bool {
    &&& id_of(r.p1@).len() > 0
    &&& id_of(r.p2@).len() > 0
    &&& id_of(r.p1@) != id_of(r.p2@)
}

/// The winner, when present, resolves to one of the two players.
pub open spec fn winner_valid(r: &BattleRecord) -> bool {
    match r.winner {
        Option::None => true,
        Option::Some(w) => id_of(w@) == id_of(r.p1@) || id_of(w@) == id_of(r.p2@),
    }
}

/// A record is well formed when its players are valid and its winner, if
/// any, is one of them.
pub open spec fn record_valid(r: &BattleRecord) -> bool {
    players_valid(r) && winner_valid(r)
}

/// Check a record's structural invariants.  Returns `Ok` exactly on well
/// formed records; every rejection is an `InvalidLog`.  In particular a
/// record whose winner matches neither player is rejected, never accepted.
pub fn validate_record(r: &BattleRecord) -> (res: Result<(), BattleToolsError>)
    ensures
        res is Ok <==> record_valid(r),
        res is Err ==> res->Err_0 is InvalidLog,
{
    let id1 = crate::id::to_id_bytes(r.p1.as_slice());
    let id2 = crate::id::to_id_bytes(r.p2.as_slice());
    if id1.len() == 0 || id2.len() == 0 {
        return Result::Err(
            BattleToolsError::InvalidLog(String::from_str("record has fewer than two players")),
        );
    }
    if crate::bytes::bytes_eq(id1.as_slice(), id2.as_slice()) {
        return Result::Err(
            BattleToolsError::InvalidLog(
                String::from_str("record's players are the same participant"),
            ),
        );
    }
    match &r.winner {
        Option::None => Result::Ok(()),
        Option::Some(w) => {
            let wid = crate::id::to_id_bytes(w.as_slice());
            if crate::bytes::bytes_eq(wid.as_slice(), id1.as_slice()) || crate::bytes::bytes_eq(
                wid.as_slice(),
                id2.as_slice(),
            ) {
                Result::Ok(())
            } else {
                Result::Err(
                    BattleToolsError::InvalidLog(
                        String::from_str("record's winner is neither player"),
                    ),
                )
            }
        },
    }
}

/// True for an ASCII decimal digit.
pub open spec fn is_digit(b: u8) -> bool {
    48 <= b <= 57
}

/// The longest all-digit suffix of `s`.
pub open spec fn trailing_digits(s: Seq<u8>) -> Seq<u8>
    decreases s.len(),
{
    if s.len() > 0 && is_digit(s.last()) {
        trailing_digits(s.drop_last()).push(s.last())
    } else {
        Seq::empty()
    }
}

/// The number a digit string denotes.
pub open spec fn digits_value(d: Seq<u8>) -> nat
    decreases d.len(),
{
    if d.len() == 0 {
        0
    } else {
        digits_value(d.drop_last()) * 10 + (d.last() - 48) as nat
    }
}

/// Ten to the `k`-th power.
pub open spec fn pow10(k: nat) -> nat
    decreases k,
{
    if k == 0 {
        1
    } else {
        10 * pow10((k - 1) as nat)
    }
}

/// The digits of a trailing-digit suffix are digits.
proof fn lemma_trailing_digits_are_digits(s: Seq<u8>)
    ensures
        forall|i: int| 0 <= i < trailing_digits(s).len() ==> is_digit(#[trigger] trailing_digits(s)[i]),
        trailing_digits(s).len() <= s.len(),
    decreases s.len(),
{
    if s.len() > 0 && is_digit(s.last()) {
        lemma_trailing_digits_are_digits(s.drop_last());
        let t = trailing_digits(s);
        assert forall|i: int| 0 <= i < t.len() implies is_digit(t[i]) by {
            if i < t.len() - 1 {
                assert(t[i] == trailing_digits(s.drop_last())[i]);
            }
        }
    }
}

/// The trailing digit run of `s` is its suffix of that length.
proof fn lemma_trailing_digits_suffix(s: Seq<u8>)
    ensures
        trailing_digits(s).len() <= s.len(),
        trailing_digits(s) =~= s.subrange(
            s.len() - trailing_digits(s).len(),
            s.len() as int,
        ),
        trailing_digits(s).len() < s.len() ==> !is_digit(
            s[s.len() - trailing_digits(s).len() - 1],
        ),
    decreases s.len(),
{
    if s.len() > 0 && is_digit(s.last()) {
        lemma_trailing_digits_suffix(s.drop_last());
        assert(forall|i: int|
            0 <= i < s.drop_last().len() ==> s.drop_last()[i] == s[i]);
    }
}

/// Extract the battle number: the value of the longest all-digit suffix of
/// the room identifier or file stem.  `None` when there is no digit suffix
/// or it is too long to read as a number (more than 18 digits).
pub fn trailing_number(s: &[u8]) -> (r: Option<u64>)
    ensures
        match r {
            Some(v) => 1 <= trailing_digits(s@).len() <= 18 && v as nat == digits_value(
                trailing_digits(s@),
            ),
            None => trailing_digits(s@).len() == 0 || trailing_digits(s@).len() > 18,
        },
{
    proof {
        lemma_trailing_digits_suffix(s@);
        lemma_trailing_digits_are_digits(s@);
    }
    let mut start: usize = s.len();
    let mut stopped = false;
    while start > 0 && !stopped
        invariant
            0 <= start <= s@.len(),
            !stopped ==> s@.len() - start <= trailing_digits(s@).len(),
            stopped ==> s@.len() - start == trailing_digits(s@).len(),
            forall|i: int| start <= i < s@.len() ==> is_digit(#[trigger] s@[i]),
        decreases start + (if stopped { 0int } else { 1int }),
    {
        let b = s[start - 1];
        if 48 <= b && b <= 57 {
            proof {
                lemma_trailing_digits_suffix(s@);
                if s@.len() - start == trailing_digits(s@).len() {
                    assert(!is_digit(s@[start - 1]));
                    assert(false);
                }
            }
            start = start - 1;
        } else {
            proof {
                lemma_trailing_digits_suffix(s@);
                let l = trailing_digits(s@).len() as int;
                if s@.len() - start < l {
                    let idx = (start - 1) - (s@.len() - l);
                    assert(0 <= idx < l);
                    assert(trailing_digits(s@)[idx] == s@.subrange(
                        s@.len() - l,
                        s@.len() as int,
                    )[idx]);
                    assert(trailing_digits(s@)[idx] == s@[start - 1]);
                    lemma_trailing_digits_are_digits(s@);
                    assert(is_digit(s@[start - 1]));
                    assert(false);
                }
            }
            stopped = true;
        }
    }
    proof {
        lemma_trailing_digits_suffix(s@);
        assert(s@.len() - start == trailing_digits(s@).len());
        assert(trailing_digits(s@) =~= s@.subrange(start as int, s@.len() as int));
    }
    let run = s.len() - start;
    if run == 0 || run > 18 {
        return None;
    }
    let ghost td = trailing_digits(s@);
    let mut v: u64 = 0;
    let mut i: usize = start;
    proof {
        assert(td.subrange(0, 0) =~= Seq::<u8>::empty());
        reveal_with_fuel(pow10, 20);
    }
    while i < s.len()
        invariant
            start <= i <= s@.len(),
            s@.len() - start == td.len(),
            td.len() <= 18,
            td =~= s@.subrange(start as int, s@.len() as int),
            forall|k: int| 0 <= k < td.len() ==> is_digit(#[trigger] td[k]),
            v as nat == digits_value(td.subrange(0, i - start)),
            (v as nat) < pow10((i - start) as nat),
            pow10(18) == 1000000000000000000,
        decreases s@.len() - i,
    {
        let b = s[i];
        proof {
            assert(td[i - start] == s@[i as int]);
            assert(is_digit(td[i - start]));
            let k = (i - start) as nat;
            assert(pow10(k) <= pow10(17)) by {
                lemma_pow10_monotone(k, 17);
            }
            reveal_with_fuel(pow10, 20);
            assert(pow10(17) == 100000000000000000);
            assert(v * 10 + 9 < pow10(18)) by {
                assert((v as nat) < pow10(17));
            }
        }
        v = v * 10 + ((b - 48) as u64);
        proof {
            let pre = td.subrange(0, i - start);
            let post = td.subrange(0, i + 1 - start);
            assert(post.drop_last() =~= pre);
            assert(post.last() == td[i - start]);
        }
        i = i + 1;
    }
    proof {
        assert(td.subrange(0, td.len() as int) =~= td);
    }
    Some(v)
}

/// `pow10` grows with its exponent.
pub proof fn lemma_pow10_monotone(a: nat, b: nat)
    requires
        a <= b,
    ensures
        pow10(a) <= pow10(b),
    decreases b,
{
    if a < b {
        lemma_pow10_monotone(a, (b - 1) as nat);
        assert(pow10(b) == 10 * pow10((b - 1) as nat));
    }
}

} // verus!
