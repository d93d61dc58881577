//! Aggregate win/loss statistics per format.
//!
//! Each file contributes at most one entry: its format tag and which slot
//! won.  A minimum-ELO threshold, when configured, excludes exactly the
//! files where either participant's rating is below it or absent.  The
//! aggregate counts are functions of the multiset of entries alone, so the
//! order in which files are processed cannot change them.

use vstd::prelude::*;
use vstd::multiset::Multiset;
use crate::id::id_of;
use crate::id::to_id_bytes;
use crate::bytes::bytes_eq;
use crate::bytes::copy_bytes;
use crate::extract::json_result;
use crate::transcript::fields_view;
use crate::extract::json_extract;
use crate::extract::opt_bytes_view;
use crate::extract::unquote;
use crate::extract::unquote_exec;
use crate::record::is_digit;
use crate::record::digits_value;
use crate::record::pow10;
use crate::record::lemma_pow10_monotone;
use crate::BattleToolsError;
use vstd::string::StringSliceAdditionalSpecFns;

verus! {

/// Which slot won a battle.
#[derive(PartialEq, Eq, Structural, Clone, Copy, Debug)]
pub enum Outcome {
    P1Win,
    P2Win,
    NoWinner,
}

/// One included file's contribution to the statistics.
pub struct StatEntry {
    /// The format tag, unquoted.
    pub format: Vec<u8>,
    pub outcome: Outcome,
}

/// The longest all-digit prefix of `s`.
pub open spec fn leading_digits(s: Seq<u8>) -> Seq<u8>
    decreases s.len(),
{
    if s.len() > 0 && is_digit(s[0]) {
        seq![s[0]] + leading_digits(s.skip(1))
    } else {
        Seq::empty()
    }
}

/// The leading digit run is a prefix of digits, ended by a non-digit.
proof fn lemma_leading_digits(s: Seq<u8>)
    ensures
        leading_digits(s).len() <= s.len(),
        leading_digits(s) =~= s.subrange(0, leading_digits(s).len() as int),
        forall|i: int| 0 <= i < leading_digits(s).len() ==> is_digit(#[trigger] s[i]),
        leading_digits(s).len() < s.len() ==> !is_digit(s[leading_digits(s).len() as int]),
    decreases s.len(),
{
    if s.len() > 0 && is_digit(s[0]) {
        lemma_leading_digits(s.skip(1));
        assert(forall|i: int| 0 <= i < s.skip(1).len() ==> s.skip(1)[i] == s[i + 1]);
        let l = leading_digits(s).len() as int;
        let tail = leading_digits(s.skip(1));
        assert forall|i: int| 0 <= i < l implies leading_digits(s)[i] == s[i] by {
            if i > 0 {
                assert(leading_digits(s)[i] == tail[i - 1]);
                assert(tail[i - 1] == s.skip(1).subrange(0, l - 1)[i - 1]);
                assert(s.skip(1)[i - 1] == s[i]);
            }
        }
        assert(leading_digits(s) =~= s.subrange(0, l));
        assert forall|i: int| 0 <= i < l implies is_digit(#[trigger] s[i]) by {
            assert(leading_digits(s)[i] == s[i]);
            if i > 0 {
                assert(s.skip(1)[i - 1] == s[i]);
            }
        }
        if l < s.len() {
            assert(s.skip(1)[l - 1] == s[l]);
        }
    }
}

/// Read the numeric value at the head of a rating field: the value of its
/// leading digit run, after unquoting.  `None` when there is no digit run
/// or it is longer than 18 digits.
#[verifier::loop_isolation(false)]
pub fn leading_number(s: &[u8]) -> (r: Option<u64>)
    ensures
        ({
            let d = leading_digits(unquote(s@));
            match r {
                Some(v) => 1 <= d.len() <= 18 && v as nat == digits_value(d),
                None => d.len() == 0 || d.len() > 18,
            }
        }),
{
    let u = unquote_exec(s);
    let ghost d = leading_digits(u@);
    proof {
        lemma_leading_digits(u@);
    }
    let mut run: usize = 0;
    let mut stopped = false;
    while run < u.len() && !stopped
        invariant
            0 <= run <= u@.len(),
            !stopped ==> run <= d.len(),
            stopped ==> run == d.len(),
            forall|i: int| 0 <= i < run ==> is_digit(#[trigger] u@[i]),
        decreases u@.len() - run + (if stopped { 0int } else { 1int }),
    {
        let b = u[run];
        if 48 <= b && b <= 57 {
            proof {
                if run == d.len() {
                    assert(!is_digit(u@[run as int]));
                    assert(false);
                }
            }
            run = run + 1;
        } else {
            proof {
                if run < d.len() {
                    assert(d[run as int] == u@.subrange(0, d.len() as int)[run as int]);
                    assert(is_digit(u@[run as int]));
                    assert(false);
                }
            }
            stopped = true;
        }
    }
    proof {
        lemma_leading_digits(u@);
        assert(run == d.len());
        assert(d =~= u@.subrange(0, run as int));
    }
    if run == 0 || run > 18 {
        return None;
    }
    let mut v: u64 = 0;
    let mut i: usize = 0;
    proof {
        assert(d.subrange(0, 0) =~= Seq::<u8>::empty());
        reveal_with_fuel(pow10, 20);
    }
    while i < run
        invariant
            0 <= i <= run <= u@.len(),
            run == d.len() <= 18,
            d =~= u@.subrange(0, run as int),
            forall|k: int| 0 <= k < d.len() ==> is_digit(#[trigger] d[k]),
            v as nat == digits_value(d.subrange(0, i as int)),
            (v as nat) < pow10(i as nat),
            pow10(18) == 1000000000000000000,
        decreases run - i,
    {
        let b = u[i];
        proof {
            assert(d[i as int] == u@[i as int]);
            assert(is_digit(d[i as int]));
            lemma_pow10_monotone(i as nat, 17);
            reveal_with_fuel(pow10, 20);
            assert(pow10(17) == 100000000000000000);
        }
        v = v * 10 + ((b - 48) as u64);
        proof {
            let pre = d.subrange(0, i as int);
            let post = d.subrange(0, i + 1);
            assert(post.drop_last() =~= pre);
            assert(post.last() == d[i as int]);
        }
        i = i + 1;
    }
    proof {
        assert(d.subrange(0, d.len() as int) =~= d);
    }
    Some(v)
}

/// A rating field passes the threshold: present, readable, and at least
/// `min`.
pub open spec fn elo_qualifies(e: Option<Seq<u8>>, min: u64) -> bool {
    match e {
        Option::None => false,
        Option::Some(b) => {
            let d = leading_digits(unquote(b));
            1 <= d.len() <= 18 && digits_value(d) >= min
        },
    }
}

/// What statistics extraction decides for one record: `None` for an
/// invalid record (missing field, winner matching neither player),
/// `Some(None)` for a record excluded by the threshold, and
/// `Some(Some(entry))` for an included one.  When a threshold stands, a
/// file is excluded exactly when either participant's rating is below it
/// or absent.
pub open spec fn stats_outcome(
    min: Option<u64>,
    format: Option<Seq<u8>>,
    p1: Option<Seq<u8>>,
    p2: Option<Seq<u8>>,
    w: Option<Seq<u8>>,
    e1: Option<Seq<u8>>,
    e2: Option<Seq<u8>>,
) -> Option<Option<(Seq<u8>, Outcome)>> {
    if format is None || p1 is None || p2 is None {
        Option::None
    } else {
        let outcome = match w {
            Option::None => Option::Some(Outcome::NoWinner),
            Option::Some(b) => {
                let wid = id_of(b);
                if wid == id_of(p1->Some_0) {
                    Option::Some(Outcome::P1Win)
                } else if wid == id_of(p2->Some_0) {
                    Option::Some(Outcome::P2Win)
                } else {
                    Option::None
                }
            },
        };
        match outcome {
            Option::None => Option::None,
            Option::Some(oc) => {
                let included = match min {
                    Option::None => true,
                    Option::Some(m) => elo_qualifies(e1, m) && elo_qualifies(e2, m),
                };
                if included {
                    Option::Some(Option::Some((unquote(format->Some_0), oc)))
                } else {
                    Option::Some(Option::None)
                }
            },
        }
    }
}

/// Decide one record's statistics contribution from its extracted fields.
pub fn stats_decision(
    min: &Option<u64>,
    format: &Option<Vec<u8>>,
    p1: &Option<Vec<u8>>,
    p2: &Option<Vec<u8>>,
    w: &Option<Vec<u8>>,
    e1: &Option<Vec<u8>>,
    e2: &Option<Vec<u8>>,
) -> (res: Result<Option<StatEntry>, BattleToolsError>)
    ensures
        match stats_outcome(
            *min,
            opt_bytes_view(*format),
            opt_bytes_view(*p1),
            opt_bytes_view(*p2),
            opt_bytes_view(*w),
            opt_bytes_view(*e1),
            opt_bytes_view(*e2),
        ) {
            Option::None => res is Err && res->Err_0 is InvalidLog,
            Option::Some(o) => res is Ok && (match o {
                Option::None => res->Ok_0 is None,
                Option::Some(entry) => res->Ok_0 is Some && res->Ok_0->Some_0.format@ == entry.0
                    && res->Ok_0->Some_0.outcome == entry.1,
            }),
        },
{
    let fmt = match format {
        Option::None => {
            return Result::Err(
                BattleToolsError::InvalidLog(String::from_str("record names no format")),
            );
        },
        Option::Some(b) => b,
    };
    let p1b = match p1 {
        Option::None => {
            return Result::Err(
                BattleToolsError::InvalidLog(String::from_str("record names no slot-1 player")),
            );
        },
        Option::Some(b) => b,
    };
    let p2b = match p2 {
        Option::None => {
            return Result::Err(
                BattleToolsError::InvalidLog(String::from_str("record names no slot-2 player")),
            );
        },
        Option::Some(b) => b,
    };
    let outcome: Outcome = match w {
        Option::None => Outcome::NoWinner,
        Option::Some(b) => {
            let wid = to_id_bytes(b.as_slice());
            let p1id = to_id_bytes(p1b.as_slice());
            let p2id = to_id_bytes(p2b.as_slice());
            if bytes_eq(wid.as_slice(), p1id.as_slice()) {
                Outcome::P1Win
            } else if bytes_eq(wid.as_slice(), p2id.as_slice()) {
                Outcome::P2Win
            } else {
                return Result::Err(
                    BattleToolsError::InvalidLog(
                        String::from_str("record's winner is neither player"),
                    ),
                );
            }
        },
    };
    let included = match min {
        Option::None => true,
        Option::Some(m) => {
            let q1 = match e1 {
                Option::None => false,
                Option::Some(b) => match leading_number(b.as_slice()) {
                    Option::Some(v) => v >= *m,
                    Option::None => false,
                },
            };
            let q2 = match e2 {
                Option::None => false,
                Option::Some(b) => match leading_number(b.as_slice()) {
                    Option::Some(v) => v >= *m,
                    Option::None => false,
                },
            };
            q1 && q2
        },
    };
    if included {
        Result::Ok(Option::Some(StatEntry { format: unquote_exec(fmt.as_slice()), outcome }))
    } else {
        Result::Ok(Option::None)
    }
}

/// The entries of the per-file results, in order: excluded files
/// contribute nothing.
pub open spec fn entries_view(s: Seq<Option<StatEntry>>) -> Seq<(Seq<u8>, Outcome)>
    decreases s.len(),
{
    if s.len() == 0 {
        Seq::empty()
    } else {
        entries_view(s.drop_last()) + (match s.last() {
            Option::Some(e) => seq![(e.format@, e.outcome)],
            Option::None => Seq::empty(),
        })
    }
}

/// The predicate picking entries of format `f` with outcome `oc`.
pub open spec fn fmt_oc_pred(f: Seq<u8>, oc: Outcome) -> spec_fn((Seq<u8>, Outcome)) -> bool {
    |e: (Seq<u8>, Outcome)| e.0 == f && e.1 == oc
}

/// The predicate picking entries of format `f`.
pub open spec fn fmt_pred(f: Seq<u8>) -> spec_fn((Seq<u8>, Outcome)) -> bool {
    |e: (Seq<u8>, Outcome)| e.0 == f
}

/// How many entries of the multiset carry format `f` and outcome `oc`.
pub open spec fn outcome_count(ms: Multiset<(Seq<u8>, Outcome)>, f: Seq<u8>, oc: Outcome) -> nat {
    ms.filter(fmt_oc_pred(f, oc)).len()
}

/// How many entries of the multiset carry format `f` at all.
pub open spec fn format_count(ms: Multiset<(Seq<u8>, Outcome)>, f: Seq<u8>) -> nat {
    ms.filter(fmt_pred(f)).len()
}

/// Inserting an element changes a filtered multiset by that element alone.
proof fn lemma_filter_insert<V>(m: Multiset<V>, x: V, f: spec_fn(V) -> bool)
    ensures
        f(x) ==> m.insert(x).filter(f) =~= m.filter(f).insert(x),
        !f(x) ==> m.insert(x).filter(f) =~= m.filter(f),
        m.insert(x).filter(f).len() == m.filter(f).len() + (if f(x) {
            1int
        } else {
            0int
        }),
{
    broadcast use vstd::multiset::group_multiset_axioms;

    if f(x) {
        assert forall|v: V| #[trigger] m.insert(x).filter(f).count(v) == m.filter(f).insert(
            x,
        ).count(v) by {}
        assert(m.insert(x).filter(f) =~= m.filter(f).insert(x));
        vstd::multiset::lemma_insert_len(m.filter(f), x);
    } else {
        assert forall|v: V| #[trigger] m.insert(x).filter(f).count(v) == m.filter(f).count(
            v,
        ) by {}
        assert(m.insert(x).filter(f) =~= m.filter(f));
    }
}

/// A multiset of length zero filters to length zero.
proof fn lemma_filter_len_zero<V>(m: Multiset<V>, f: spec_fn(V) -> bool)
    requires
        m.len() == 0,
    ensures
        m.filter(f).len() == 0,
{
    broadcast use vstd::multiset::group_multiset_axioms;

    vstd::multiset::lemma_multiset_empty_len(m);
    assert(m =~= Multiset::<V>::empty());
    assert(m.filter(f) =~= Multiset::<V>::empty());
    vstd::multiset::lemma_multiset_empty_len(m.filter(f));
}

/// Count the entries of `results` carrying format `f`, split by outcome:
/// slot-1 wins, slot-2 wins, and the total of all entries of that format.
pub fn counts_for(results: &Vec<Option<StatEntry>>, f: &[u8]) -> (c: (u64, u64, u64))
    ensures
        ({
            let ms = entries_view(results@).to_multiset();
            &&& c.0 as nat == outcome_count(ms, f@, Outcome::P1Win)
            &&& c.1 as nat == outcome_count(ms, f@, Outcome::P2Win)
            &&& c.2 as nat == format_count(ms, f@)
        }),
{
    broadcast use vstd::multiset::group_multiset_axioms;

    let mut wins: u64 = 0;
    let mut losses: u64 = 0;
    let mut total: u64 = 0;
    let mut i: usize = 0;
    proof {
        assert(results@.subrange(0, 0) =~= Seq::<Option<StatEntry>>::empty());
        let ms0 = entries_view(results@.subrange(0, 0)).to_multiset();
        entries_view(results@.subrange(0, 0)).to_multiset_ensures();
        assert(ms0.len() == 0);
        lemma_filter_len_zero(ms0, fmt_oc_pred(f@, Outcome::P1Win));
        lemma_filter_len_zero(ms0, fmt_oc_pred(f@, Outcome::P2Win));
        lemma_filter_len_zero(ms0, fmt_pred(f@));
    }
    while i < results.len()
        invariant
            0 <= i <= results@.len(),
            wins as nat == outcome_count(
                entries_view(results@.subrange(0, i as int)).to_multiset(),
                f@,
                Outcome::P1Win,
            ),
            losses as nat == outcome_count(
                entries_view(results@.subrange(0, i as int)).to_multiset(),
                f@,
                Outcome::P2Win,
            ),
            total as nat == format_count(
                entries_view(results@.subrange(0, i as int)).to_multiset(),
                f@,
            ),
            wins <= i && losses <= i && total <= i,
        decreases results@.len() - i,
    {
        let ghost pre = results@.subrange(0, i as int);
        let ghost post = results@.subrange(0, i + 1);
        proof {
            assert(post.drop_last() =~= pre);
            assert(post.last() == results@[i as int]);
        }
        match &results[i] {
            Option::None => {
                proof {
                    assert(entries_view(post) =~= entries_view(pre));
                }
            },
            Option::Some(e) => {
                let ghost ev = (e.format@, e.outcome);
                proof {
                    assert(entries_view(post) =~= entries_view(pre).push(ev));
                    entries_view(pre).to_multiset_ensures();
                    assert(entries_view(post).to_multiset() =~= entries_view(
                        pre,
                    ).to_multiset().insert(ev));
                    lemma_filter_insert(
                        entries_view(pre).to_multiset(),
                        ev,
                        fmt_oc_pred(f@, Outcome::P1Win),
                    );
                    lemma_filter_insert(
                        entries_view(pre).to_multiset(),
                        ev,
                        fmt_oc_pred(f@, Outcome::P2Win),
                    );
                    lemma_filter_insert(
                        entries_view(pre).to_multiset(),
                        ev,
                        fmt_pred(f@),
                    );
                }
                let is_f = bytes_eq(e.format.as_slice(), f);
                if is_f {
                    total = total + 1;
                    match e.outcome {
                        Outcome::P1Win => {
                            wins = wins + 1;
                        },
                        Outcome::P2Win => {
                            losses = losses + 1;
                        },
                        Outcome::NoWinner => {},
                    }
                }
            },
        }
        i = i + 1;
    }
    proof {
        assert(results@.subrange(0, results@.len() as int) =~= results@);
    }
    (wins, losses, total)
}

/// `entries_view` distributes over concatenation.
proof fn lemma_entries_view_append(a: Seq<Option<StatEntry>>, b: Seq<Option<StatEntry>>)
    ensures
        entries_view(a + b) =~= entries_view(a) + entries_view(b),
    decreases b.len(),
{
    if b.len() == 0 {
        assert(a + b =~= a);
        assert(entries_view(a) + entries_view(b) =~= entries_view(a));
    } else {
        lemma_entries_view_append(a, b.drop_last());
        assert((a + b).drop_last() =~= a + b.drop_last());
        assert((a + b).last() == b.last());
        assert(entries_view(a + b) =~= entries_view(a) + entries_view(b));
    }
}

/// Taking one element out of the results takes exactly its contribution
/// out of the entry multiset.
proof fn lemma_entries_view_remove(s: Seq<Option<StatEntry>>, i: int)
    requires
        0 <= i < s.len(),
    ensures
        entries_view(s).to_multiset() =~= entries_view(s.remove(i)).to_multiset().add(
            entries_view(seq![s[i]]).to_multiset(),
        ),
{
    broadcast use vstd::multiset::group_multiset_axioms;

    let pre = s.subrange(0, i);
    let mid = seq![s[i]];
    let post = s.subrange(i + 1, s.len() as int);
    assert(s =~= (pre + mid) + post);
    assert(s.remove(i) =~= pre + post);
    lemma_entries_view_append(pre, mid);
    lemma_entries_view_append(pre + mid, post);
    lemma_entries_view_append(pre, post);
    vstd::seq_lib::lemma_multiset_commutative(entries_view(pre + mid), entries_view(post));
    vstd::seq_lib::lemma_multiset_commutative(entries_view(pre), entries_view(mid));
    vstd::seq_lib::lemma_multiset_commutative(entries_view(pre), entries_view(post));
    assert(entries_view(s).to_multiset() =~= entries_view(s.remove(i)).to_multiset().add(
        entries_view(mid).to_multiset(),
    ));
}

/// Permuted per-file results have permuted entries.
proof fn lemma_entries_view_permutation(s1: Seq<Option<StatEntry>>, s2: Seq<Option<StatEntry>>)
    requires
        s1.to_multiset() == s2.to_multiset(),
    ensures
        entries_view(s1).to_multiset() == entries_view(s2).to_multiset(),
    decreases s1.len(),
{
    broadcast use vstd::multiset::group_multiset_axioms;

    s1.to_multiset_ensures();
    s2.to_multiset_ensures();
    if s1.len() == 0 {
        assert(s2.len() == 0);
        assert(entries_view(s1).to_multiset() =~= entries_view(s2).to_multiset());
    } else {
        let x = s1.last();
        assert(s1.contains(x));
        assert(s2.to_multiset().count(x) > 0);
        assert(s2.contains(x));
        let idx = choose|idx: int| 0 <= idx < s2.len() && s2[idx] == x;
        assert(s1.remove(s1.len() - 1) =~= s1.drop_last());
        assert(s1.drop_last().to_multiset() =~= s1.to_multiset().remove(x));
        assert(s2.remove(idx).to_multiset() =~= s2.to_multiset().remove(x));
        lemma_entries_view_permutation(s1.drop_last(), s2.remove(idx));
        lemma_entries_view_remove(s1, s1.len() - 1);
        lemma_entries_view_remove(s2, idx);
        assert(entries_view(seq![s1[s1.len() - 1]]) =~= entries_view(seq![s2[idx]]));
        assert(entries_view(s1).to_multiset() =~= entries_view(s2).to_multiset());
    }
}

/// The statistics aggregate is order-independent: two runs whose per-file
/// results are permutations of one another yield the same counters for
/// every format and outcome.
pub proof fn lemma_stats_order_independent(s1: Seq<Option<StatEntry>>, s2: Seq<Option<StatEntry>>)
    requires
        s1.to_multiset() == s2.to_multiset(),
    ensures
        forall|f: Seq<u8>, oc: Outcome|
            outcome_count(entries_view(s1).to_multiset(), f, oc) == outcome_count(
                entries_view(s2).to_multiset(),
                f,
                oc,
            ),
        forall|f: Seq<u8>|
            format_count(entries_view(s1).to_multiset(), f) == format_count(
                entries_view(s2).to_multiset(),
                f,
            ),
{
    lemma_entries_view_permutation(s1, s2);
}


/// The view of one optional statistics entry.
pub open spec fn entry_view(o: Option<StatEntry>) -> Option<(Seq<u8>, Outcome)> {
    match o {
        Option::None => Option::None,
        Option::Some(e) => Option::Some((e.format@, e.outcome)),
    }
}

/// The paths statistics queries, in order: the format, the two players,
/// the winner, and both rating values.
pub open spec fn stats_paths() -> Seq<Seq<u8>> {
    seq![
        ("$.format").spec_bytes(),
        ("$.p1").spec_bytes(),
        ("$.p2").spec_bytes(),
        ("$.winner").spec_bytes(),
        ("$.p1rating.elo").spec_bytes(),
        ("$.p2rating.elo").spec_bytes(),
    ]
}

/// Every included result's format has a row.
#[verifier::opaque]
pub open spec fn formats_covered(
    rows: Seq<(Vec<u8>, u64, u64, u64)>,
    results: Seq<Option<StatEntry>>,
) -> bool {
    forall|k: int|
        0 <= k < results.len() && (#[trigger] results[k]) is Some ==> exists|i: int|
            0 <= i < rows.len() && (#[trigger] rows[i]).0@ == results[k]->Some_0.format@
}

/// Every row's format appears among the included results: the table
/// holds no spurious rows.
#[verifier::opaque]
pub open spec fn rows_from_results(
    rows: Seq<(Vec<u8>, u64, u64, u64)>,
    results: Seq<Option<StatEntry>>,
) -> bool {
    forall|i: int|
        0 <= i < rows.len() ==> exists|j: int|
            0 <= j < results.len() && (#[trigger] results[j]) is Some
                && results[j]->Some_0.format@ == (#[trigger] rows[i]).0@
}

/// The statistics aggregator: extracts one entry per file and, at finalize
/// time, owns the per-format counters.
pub struct StatisticsDirectoryParser {
    /// Battles where either participant is rated below this are excluded.
    pub minimum_elo: Option<u64>,
    /// One row per format: (format, slot-1 wins, slot-2 wins, total).
    pub rows: Vec<(Vec<u8>, u64, u64, u64)>,
}

impl StatisticsDirectoryParser {
    /// A fresh aggregator with an optional minimum-ELO threshold.
    pub fn new(minimum_elo: Option<u64>) -> (s: Self)
        ensures
            s.minimum_elo == minimum_elo,
            s.rows@.len() == 0,
    {
        StatisticsDirectoryParser { minimum_elo, rows: Vec::new() }
    }

    /// Handle one log file: extract the format, the players, the winner
    /// and both ratings, and decide this file's contribution.  `Ok`
    /// exactly when the document is readable and `stats_outcome` accepts
    /// the extracted fields; every rejection is an `InvalidLog`.
    pub fn handle_log_file(&self, raw: &[u8], path: &[u8]) -> (res: Result<
        Option<StatEntry>,
        BattleToolsError,
    >)
        ensures
            match json_result(raw@, stats_paths()) {
                Option::None => res is Err && res->Err_0 is InvalidLog,
                Option::Some(vals) => match stats_outcome(
                    self.minimum_elo,
                    vals[0],
                    vals[1],
                    vals[2],
                    vals[3],
                    vals[4],
                    vals[5],
                ) {
                    Option::None => res is Err && res->Err_0 is InvalidLog,
                    Option::Some(o) => res is Ok && entry_view(res->Ok_0) == o,
                },
            },
    {
        let _ = path;
        let mut paths: Vec<Vec<u8>> = Vec::new();
        paths.push(copy_bytes(("$.format").as_bytes()));
        paths.push(copy_bytes(("$.p1").as_bytes()));
        paths.push(copy_bytes(("$.p2").as_bytes()));
        paths.push(copy_bytes(("$.winner").as_bytes()));
        paths.push(copy_bytes(("$.p1rating.elo").as_bytes()));
        paths.push(copy_bytes(("$.p2rating.elo").as_bytes()));
        proof {
            assert(fields_view(paths@) =~= stats_paths());
        }
        let vals = match json_extract(raw, &paths) {
            Option::Some(v) => v,
            Option::None => {
                return Result::Err(
                    BattleToolsError::InvalidLog(
                        String::from_str("record is not a readable JSON document"),
                    ),
                );
            },
        };
        proof {
            let ext = json_result(raw@, stats_paths());
            assert(ext is Some);
            assert(ext->Some_0 =~= crate::extract::vals_view(vals@));
            assert(ext->Some_0[0] == opt_bytes_view(vals@[0]));
            assert(ext->Some_0[1] == opt_bytes_view(vals@[1]));
            assert(ext->Some_0[2] == opt_bytes_view(vals@[2]));
            assert(ext->Some_0[3] == opt_bytes_view(vals@[3]));
            assert(ext->Some_0[4] == opt_bytes_view(vals@[4]));
            assert(ext->Some_0[5] == opt_bytes_view(vals@[5]));
        }
        stats_decision(
            &self.minimum_elo,
            &vals[0],
            &vals[1],
            &vals[2],
            &vals[3],
            &vals[4],
            &vals[5],
        )
    }

    /// Merge all per-file results into the per-format rows.  Rows carry
    /// distinct formats; each row's counters are the multiset counts of
    /// its format, so they cannot depend on the order of `results`; and
    /// every included file's format has a row.
    #[verifier::loop_isolation(false)]
    #[verifier::rlimit(60)]
    pub fn handle_results(&mut self, results: Vec<Option<StatEntry>>) -> (res: Result<
        (),
        BattleToolsError,
    >)
        ensures
            res is Ok,
            final(self).minimum_elo == old(self).minimum_elo,
            forall|i: int, j: int|
                0 <= i < j < final(self).rows@.len() ==> (#[trigger] final(self).rows@[i]).0@
                    != (#[trigger] final(self).rows@[j]).0@,
            forall|i: int|
                0 <= i < final(self).rows@.len() ==> {
                    let ms = entries_view(results@).to_multiset();
                    let row = #[trigger] final(self).rows@[i];
                    row.1 as nat == outcome_count(ms, row.0@, Outcome::P1Win) && row.2 as nat
                        == outcome_count(ms, row.0@, Outcome::P2Win) && row.3 as nat
                        == format_count(ms, row.0@)
                },
            formats_covered(final(self).rows@, results@),
            rows_from_results(final(self).rows@, results@),
    {
        let mut rows: Vec<(Vec<u8>, u64, u64, u64)> = Vec::new();
        proof {
            reveal(rows_from_results);
            assert(rows_from_results(rows@, results@));
            reveal(formats_covered);
            assert(results@.subrange(0, 0) =~= Seq::<Option<StatEntry>>::empty());
            assert(formats_covered(rows@, results@.subrange(0, 0)));
        }
        let mut k: usize = 0;
        while k < results.len()
            invariant
                0 <= k <= results@.len(),
                forall|i: int, j: int|
                    0 <= i < j < rows@.len() ==> (#[trigger] rows@[i]).0@ != (
                    #[trigger] rows@[j]).0@,
                forall|i: int|
                    0 <= i < rows@.len() ==> {
                        let ms = entries_view(results@).to_multiset();
                        let row = #[trigger] rows@[i];
                        row.1 as nat == outcome_count(ms, row.0@, Outcome::P1Win) && row.2 as nat
                            == outcome_count(ms, row.0@, Outcome::P2Win) && row.3 as nat
                            == format_count(ms, row.0@)
                    },
                formats_covered(rows@, results@.subrange(0, k as int)),
                rows_from_results(rows@, results@),
            decreases results@.len() - k,
        {
            let mut fmt: Option<Vec<u8>> = Option::None;
            match &results[k] {
                Option::None => {},
                Option::Some(e) => {
                    fmt = Option::Some(copy_bytes(e.format.as_slice()));
                },
            }
            match fmt {
                Option::None => {
                    proof {
                        assert(formats_covered(rows@, results@.subrange(0, k + 1))) by {
                            reveal(formats_covered);
                            let pre = results@.subrange(0, k as int);
                            let post = results@.subrange(0, k + 1);
                            assert(forall|j: int| 0 <= j < pre.len() ==> post[j] == pre[j]);
                            assert(post[k as int] == results@[k as int]);
                            assert(results@[k as int] is None);
                            assert forall|j: int|
                                0 <= j < post.len() && (#[trigger] post[j]) is Some implies exists|i2: int|
                                    0 <= i2 < rows@.len() && (#[trigger] rows@[i2]).0@
                                        == post[j]->Some_0.format@ by {
                                assert(pre[j] == post[j]);
                                let w = choose|w: int|
                                    0 <= w < rows@.len() && rows@[w].0@
                                        == pre[j]->Some_0.format@;
                                assert(rows@[w].0@ == post[j]->Some_0.format@);
                            }
                        }
                    }
                },
                Option::Some(f) => {
                    let ghost fv = f@;
                    let mut present = false;
                    let mut i: usize = 0;
                    while i < rows.len()
                        invariant
                            0 <= i <= rows@.len(),
                            present ==> exists|j: int|
                                0 <= j < rows@.len() && (#[trigger] rows@[j]).0@ == fv,
                            !present ==> forall|j: int|
                                0 <= j < i ==> (#[trigger] rows@[j]).0@ != fv,
                            fv == f@,
                        decreases rows@.len() - i + (if present {
                            0int
                        } else {
                            1int
                        }),
                    {
                        if bytes_eq(rows[i].0.as_slice(), f.as_slice()) {
                            present = true;
                        }
                        i = i + 1;
                    }
                    let ghost rows_before = rows@;
                    if !present {
                        let c = counts_for(&results, f.as_slice());
                        rows.push((f, c.0, c.1, c.2));
                    }
                    proof {
                        assert(fv == results@[k as int]->Some_0.format@);
                        assert(rows_from_results(rows@, results@)) by {
                            reveal(rows_from_results);
                            assert forall|i: int|
                                0 <= i < rows@.len() implies exists|j: int|
                                    0 <= j < results@.len() && (#[trigger] results@[j]) is Some
                                        && results@[j]->Some_0.format@ == (
                                    #[trigger] rows@[i]).0@ by {
                                if i < rows_before.len() {
                                    assert(rows@[i] == rows_before[i]);
                                    let w = choose|w: int|
                                        0 <= w < results@.len() && results@[w] is Some
                                            && results@[w]->Some_0.format@
                                            == rows_before[i].0@;
                                    assert(results@[w] is Some && results@[w]->Some_0.format@
                                        == rows@[i].0@);
                                } else {
                                    assert(rows@[i].0@ == fv);
                                    assert(results@[k as int] is Some
                                        && results@[k as int]->Some_0.format@ == rows@[i].0@);
                                }
                            }
                        }
                        assert(formats_covered(rows@, results@.subrange(0, k + 1))) by {
                            reveal(formats_covered);
                            let pre = results@.subrange(0, k as int);
                            let post = results@.subrange(0, k + 1);
                            assert(forall|j: int| 0 <= j < pre.len() ==> post[j] == pre[j]);
                            assert(post[k as int] == results@[k as int]);
                            assert forall|j: int|
                                0 <= j < post.len() && (#[trigger] post[j]) is Some implies exists|i2: int|
                                    0 <= i2 < rows@.len() && (#[trigger] rows@[i2]).0@
                                        == post[j]->Some_0.format@ by {
                                if j == k {
                                    if present {
                                        let w = choose|w: int|
                                            0 <= w < rows_before.len() && rows_before[w].0@ == fv;
                                        assert(rows@[w].0@ == fv);
                                    } else {
                                        assert(rows@[rows@.len() - 1].0@ == fv);
                                    }
                                } else {
                                    assert(pre[j] == post[j]);
                                    let w = choose|w: int|
                                        0 <= w < rows_before.len() && rows_before[w].0@
                                            == pre[j]->Some_0.format@;
                                    assert(rows@[w].0@ == post[j]->Some_0.format@);
                                }
                            }
                        }
                    }
                },
            }
            k = k + 1;
        }
        proof {
            assert(results@.subrange(0, results@.len() as int) =~= results@);
        }
        self.rows = rows;
        Result::Ok(())
    }
}

} // verus!
