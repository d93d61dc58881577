//! Searching battle logs for a participant.
//!
//! A battle matches when the searched identifier is one of the two player
//! identifiers, the searched player won if only wins are wanted, and the
//! battle ended by forfeit if only forfeits are wanted.  A present winner
//! resolving to neither player is a data-integrity error and rejected.
//! Each match yields one descriptive line.

use vstd::prelude::*;
use crate::id::id_of;
use crate::id::to_id_bytes;
use crate::bytes::push_all;
use crate::bytes::bytes_eq;
use crate::bytes::copy_bytes;
use crate::extract::json_result;
use crate::extract::json_extract;
use crate::extract::opt_bytes_view;
use crate::extract::unquote;
use crate::extract::unquote_exec;
use crate::transcript::fields_view;
use crate::BattleToolsError;
use vstd::string::StringSliceAdditionalSpecFns;

verus! {

/// A present winner value, with JSON `null` standing for no winner.
pub open spec fn effective_winner(w: Option<Seq<u8>>) -> Option<Seq<u8>> {
    match w {
        Option::None => Option::None,
        Option::Some(b) => if b == ("null").spec_bytes() {
            Option::None
        } else {
            Option::Some(b)
        },
    }
}

/// The date segment of an output line: the record's timestamp, or a
/// placeholder when the record carries none.
pub open spec fn date_text(ts: Option<Seq<u8>>) -> Seq<u8> {
    match ts {
        Option::None => ("unknown").spec_bytes(),
        Option::Some(b) => unquote(b),
    }
}

/// The text naming the outcome: the winner's display name and how they
/// won, or that nobody did.
pub open spec fn win_text(wdisp: Option<Seq<u8>>, forfeit: bool) -> Seq<u8> {
    match wdisp {
        Option::None => ("there was no winner").spec_bytes(),
        Option::Some(w) => w + (" won ").spec_bytes() + (if forfeit {
            ("by forfeit").spec_bytes()
        } else {
            ("normally").spec_bytes()
        }),
    }
}

/// The descriptive line emitted for one matching battle.
pub open spec fn search_line(
    date: Seq<u8>,
    room: Seq<u8>,
    p1id: Seq<u8>,
    p2id: Seq<u8>,
    wdisp: Option<Seq<u8>>,
    forfeit: bool,
) -> Seq<u8> {
    ("(").spec_bytes() + date + (") <<").spec_bytes() + room + (">> ").spec_bytes() + p1id + (
    " vs. ").spec_bytes() + p2id + (" (").spec_bytes() + win_text(wdisp, forfeit) + (
    ")").spec_bytes()
}

/// What the search decides from the extracted fields: `None` for a record
/// missing a player or naming a winner who is neither player (rejected),
/// `Some(None)` for a clean non-match, and `Some(Some(line))` for a match
/// with its output line.
pub open spec fn search_outcome(
    user: Seq<u8>,
    wins_only: bool,
    forfeits_only: bool,
    p1: Option<Seq<u8>>,
    p2: Option<Seq<u8>>,
    w: Option<Seq<u8>>,
    e: Option<Seq<u8>>,
    ts: Option<Seq<u8>>,
    room: Seq<u8>,
) -> Option<Option<Seq<u8>>> {
    if p1 is None || p2 is None {
        Option::None
    } else {
        let p1id = id_of(p1->Some_0);
        let p2id = id_of(p2->Some_0);
        let weff = effective_winner(w);
        let wid = match weff {
            Option::None => Option::<Seq<u8>>::None,
            Option::Some(b) => Option::Some(id_of(b)),
        };
        if weff is Some && wid != Option::Some(p1id) && wid != Option::Some(p2id) {
            Option::None
        } else if p1id != user && p2id != user {
            Option::Some(Option::None)
        } else {
            let won = wid == Option::Some(user);
            if !won && wins_only {
                Option::Some(Option::None)
            } else {
                let forfeit = e == Option::Some(("\"forfeit\"").spec_bytes());
                if !forfeit && forfeits_only {
                    Option::Some(Option::None)
                } else {
                    let wdisp = match weff {
                        Option::None => Option::<Seq<u8>>::None,
                        Option::Some(b) => Option::Some(unquote(b)),
                    };
                    Option::Some(
                        Option::Some(search_line(date_text(ts), room, p1id, p2id, wdisp, forfeit)),
                    )
                }
            }
        }
    }
}

/// Decide the search result for one record from its extracted fields.
pub fn search_decision(
    user_id: &[u8],
    wins_only: bool,
    forfeits_only: bool,
    p1: &Option<Vec<u8>>,
    p2: &Option<Vec<u8>>,
    w: &Option<Vec<u8>>,
    e: &Option<Vec<u8>>,
    ts: &Option<Vec<u8>>,
    room: &[u8],
) -> (res: Result<Option<Vec<u8>>, BattleToolsError>)
    ensures
        match search_outcome(
            user_id@,
            wins_only,
            forfeits_only,
            opt_bytes_view(*p1),
            opt_bytes_view(*p2),
            opt_bytes_view(*w),
            opt_bytes_view(*e),
            opt_bytes_view(*ts),
            room@,
        ) {
            Option::None => res is Err && res->Err_0 is InvalidLog,
            Option::Some(o) => res is Ok && opt_bytes_view(res->Ok_0) == o,
        },
{
    let p1b = match p1 {
        Option::None => {
            return Result::Err(
                BattleToolsError::InvalidLog(String::from_str("No p1 value")),
            );
        },
        Option::Some(b) => b,
    };
    let p2b = match p2 {
        Option::None => {
            return Result::Err(
                BattleToolsError::InvalidLog(String::from_str("No p2 value")),
            );
        },
        Option::Some(b) => b,
    };
    let p1id = to_id_bytes(p1b.as_slice());
    let p2id = to_id_bytes(p2b.as_slice());
    let weff: Option<&Vec<u8>> = match w {
        Option::None => Option::None,
        Option::Some(b) => {
            if bytes_eq(b.as_slice(), ("null").as_bytes()) {
                Option::None
            } else {
                Option::Some(b)
            }
        },
    };
    let wid: Option<Vec<u8>> = match weff {
        Option::None => Option::None,
        Option::Some(b) => Option::Some(to_id_bytes(b.as_slice())),
    };
    match &wid {
        Option::None => {},
        Option::Some(widb) => {
            if !bytes_eq(widb.as_slice(), p1id.as_slice()) && !bytes_eq(
                widb.as_slice(),
                p2id.as_slice(),
            ) {
                return Result::Err(
                    BattleToolsError::InvalidLog(
                        String::from_str("record's winner is neither player"),
                    ),
                );
            }
        },
    }
    let p1_is_user = bytes_eq(p1id.as_slice(), user_id);
    let p2_is_user = bytes_eq(p2id.as_slice(), user_id);
    if !p1_is_user && !p2_is_user {
        return Result::Ok(Option::None);
    }
    let won = match &wid {
        Option::None => false,
        Option::Some(widb) => bytes_eq(widb.as_slice(), user_id),
    };
    if !won && wins_only {
        return Result::Ok(Option::None);
    }
    let forfeit = match e {
        Option::None => false,
        Option::Some(b) => bytes_eq(b.as_slice(), ("\"forfeit\"").as_bytes()),
    };
    if !forfeit && forfeits_only {
        return Result::Ok(Option::None);
    }
    let mut line: Vec<u8> = Vec::new();
    push_all(&mut line, ("(").as_bytes());
    match ts {
        Option::None => {
            push_all(&mut line, ("unknown").as_bytes());
        },
        Option::Some(b) => {
            let d = unquote_exec(b.as_slice());
            push_all(&mut line, d.as_slice());
        },
    }
    push_all(&mut line, (") <<").as_bytes());
    push_all(&mut line, room);
    push_all(&mut line, (">> ").as_bytes());
    push_all(&mut line, p1id.as_slice());
    push_all(&mut line, (" vs. ").as_bytes());
    push_all(&mut line, p2id.as_slice());
    push_all(&mut line, (" (").as_bytes());
    match weff {
        Option::None => {
            push_all(&mut line, ("there was no winner").as_bytes());
        },
        Option::Some(b) => {
            let d = unquote_exec(b.as_slice());
            push_all(&mut line, d.as_slice());
            push_all(&mut line, (" won ").as_bytes());
            if forfeit {
                push_all(&mut line, ("by forfeit").as_bytes());
            } else {
                push_all(&mut line, ("normally").as_bytes());
            }
        },
    }
    push_all(&mut line, (")").as_bytes());
    proof {
        let weff_spec = effective_winner(opt_bytes_view(*w));
        let wdisp_spec = match weff_spec {
            Option::None => Option::<Seq<u8>>::None,
            Option::Some(b) => Option::Some(unquote(b)),
        };
        assert(line@ =~= search_line(
            date_text(opt_bytes_view(*ts)),
            room@,
            p1id@,
            p2id@,
            wdisp_spec,
            forfeit,
        ));
    }
    Result::Ok(Option::Some(line))
}

/// The room name of a log file: its path with the `.log.json` suffix
/// removed, when it carries one.
pub open spec fn room_of(path: Seq<u8>) -> Seq<u8> {
    let sfx = (".log.json").spec_bytes();
    if path.len() >= sfx.len() && path.subrange(path.len() - sfx.len(), path.len() as int)
        == sfx {
        path.subrange(0, path.len() - sfx.len())
    } else {
        path
    }
}

/// Compute `room_of`.
pub fn room_of_exec(path: &[u8]) -> (r: Vec<u8>)
    ensures
        r@ == room_of(path@),
{
    let sfx = (".log.json").as_bytes();
    if path.len() >= sfx.len() {
        let cut = path.len() - sfx.len();
        let mut tail: Vec<u8> = Vec::new();
        let mut i: usize = cut;
        while i < path.len()
            invariant
                cut <= i <= path@.len(),
                cut == path@.len() - sfx@.len(),
                tail@ == path@.subrange(cut as int, i as int),
            decreases path@.len() - i,
        {
            tail.push(path[i]);
            proof {
                assert(path@.subrange(cut as int, i + 1) =~= path@.subrange(
                    cut as int,
                    i as int,
                ).push(path@[i as int]));
            }
            i = i + 1;
        }
        if bytes_eq(tail.as_slice(), sfx) {
            let mut head: Vec<u8> = Vec::new();
            let mut j: usize = 0;
            while j < cut
                invariant
                    0 <= j <= cut <= path@.len(),
                    head@ == path@.subrange(0, j as int),
                decreases cut - j,
            {
                head.push(path[j]);
                proof {
                    assert(path@.subrange(0, j + 1) =~= path@.subrange(0, j as int).push(
                        path@[j as int],
                    ));
                }
                j = j + 1;
            }
            return head;
        }
        return copy_bytes(path);
    }
    copy_bytes(path)
}

/// The paths the search queries, in order: the two players, the winner,
/// the end type, and the timestamp.
pub open spec fn search_paths() -> Seq<Seq<u8>> {
    seq![
        ("$.p1").spec_bytes(),
        ("$.p2").spec_bytes(),
        ("$.winner").spec_bytes(),
        ("$.endType").spec_bytes(),
        ("$.timestamp").spec_bytes(),
    ]
}

/// Search battles for one participant, with optional win and forfeit
/// filters.
pub struct BattleSearcher {
    /// The canonical identifier searched for.
    pub user_id: Vec<u8>,
    /// Report only battles the searched participant won.
    pub wins_only: bool,
    /// Report only battles that ended by forfeit.
    pub forfeits_only: bool,
    /// The output lines of the matching battles, filled at finalize time.
    pub matches: Vec<Vec<u8>>,
}

/// The lines of the matching battles, in result order: non-matches
/// contribute nothing.
pub open spec fn some_lines(results: Seq<Option<Vec<u8>>>) -> Seq<Seq<u8>>
    decreases results.len(),
{
    if results.len() == 0 {
        Seq::empty()
    } else {
        some_lines(results.drop_last()) + (match results.last() {
            Option::Some(l) => seq![l@],
            Option::None => Seq::empty(),
        })
    }
}

/// Normalize an optional extracted field to a canonical identifier.
pub fn bytes_to_id(bytes: &Option<Vec<u8>>) -> (r: Option<Vec<u8>>)
    ensures
        match opt_bytes_view(*bytes) {
            Option::None => r is None,
            Option::Some(b) => r is Some && r->Some_0@ == id_of(b),
        },
{
    match bytes {
        Option::Some(b) => Option::Some(to_id_bytes(b.as_slice())),
        Option::None => Option::None,
    }
}

impl BattleSearcher {
    /// A searcher for `username`, matched by canonical identifier.
    pub fn new(username: &str, wins_only: bool, forfeits_only: bool) -> (s: Self)
        ensures
            s.user_id@ == id_of(username.spec_bytes()),
            s.wins_only == wins_only,
            s.forfeits_only == forfeits_only,
    {
        BattleSearcher {
            user_id: crate::id::to_id(username),
            wins_only,
            forfeits_only,
            matches: Vec::new(),
        }
    }

    /// Handle one log file: extract the players, winner, end type and
    /// timestamp, and decide.  `Ok(Some(line))` exactly on a match,
    /// `Ok(None)` exactly on a clean non-match; everything else — an
    /// unreadable document, a missing player, a winner resolving to
    /// neither player — is an `InvalidLog`.
    pub fn handle_log_file(&self, raw: &[u8], path: &[u8]) -> (res: Result<
        Option<Vec<u8>>,
        BattleToolsError,
    >)
        ensures
            match json_result(raw@, search_paths()) {
                Option::None => res is Err && res->Err_0 is InvalidLog,
                Option::Some(vals) => match search_outcome(
                    self.user_id@,
                    self.wins_only,
                    self.forfeits_only,
                    vals[0],
                    vals[1],
                    vals[2],
                    vals[3],
                    vals[4],
                    room_of(path@),
                ) {
                    Option::None => res is Err && res->Err_0 is InvalidLog,
                    Option::Some(o) => res is Ok && opt_bytes_view(res->Ok_0) == o,
                },
            },
    {
        let mut paths: Vec<Vec<u8>> = Vec::new();
        paths.push(copy_bytes(("$.p1").as_bytes()));
        paths.push(copy_bytes(("$.p2").as_bytes()));
        paths.push(copy_bytes(("$.winner").as_bytes()));
        paths.push(copy_bytes(("$.endType").as_bytes()));
        paths.push(copy_bytes(("$.timestamp").as_bytes()));
        proof {
            assert(fields_view(paths@) =~= search_paths());
        }
        let vals = match json_extract(raw, &paths) {
            Option::Some(v) => v,
            Option::None => {
                return Result::Err(
                    BattleToolsError::InvalidLog(
                        String::from_str("record is not a readable JSON document"),
                    ),
                );
            },
        };
        proof {
            let ext = json_result(raw@, search_paths());
            assert(ext is Some);
            assert(ext->Some_0 =~= crate::extract::vals_view(vals@));
            assert(ext->Some_0[0] == opt_bytes_view(vals@[0]));
            assert(ext->Some_0[1] == opt_bytes_view(vals@[1]));
            assert(ext->Some_0[2] == opt_bytes_view(vals@[2]));
            assert(ext->Some_0[3] == opt_bytes_view(vals@[3]));
            assert(ext->Some_0[4] == opt_bytes_view(vals@[4]));
        }
        let room = room_of_exec(path);
        search_decision(
            self.user_id.as_slice(),
            self.wins_only,
            self.forfeits_only,
            &vals[0],
            &vals[1],
            &vals[2],
            &vals[3],
            &vals[4],
            room.as_slice(),
        )
    }

    /// Searching aggregates nothing; finalize keeps the matching lines
    /// for the caller to print.  Search output order is unordered by
    /// design, so keeping result order is acceptable.
    pub fn finish(&mut self, results: Vec<Option<Vec<u8>>>) -> (res: Result<(), BattleToolsError>)
        ensures
            res is Ok,
            crate::transcript::fields_view(final(self).matches@) == some_lines(results@),
            final(self).user_id == old(self).user_id,
            final(self).wins_only == old(self).wins_only,
            final(self).forfeits_only == old(self).forfeits_only,
    {
        let mut lines: Vec<Vec<u8>> = Vec::new();
        let mut i: usize = 0;
        proof {
            assert(results@.subrange(0, 0) =~= Seq::<Option<Vec<u8>>>::empty());
            assert(crate::transcript::fields_view(lines@) =~= some_lines(results@.subrange(0, 0)));
        }
        while i < results.len()
            invariant
                0 <= i <= results@.len(),
                crate::transcript::fields_view(lines@) == some_lines(
                    results@.subrange(0, i as int),
                ),
            decreases results@.len() - i,
        {
            let ghost pre = results@.subrange(0, i as int);
            let ghost post = results@.subrange(0, i + 1);
            proof {
                assert(post.drop_last() =~= pre);
                assert(post.last() == results@[i as int]);
            }
            match &results[i] {
                Option::None => {
                    proof {
                        assert(some_lines(post) =~= some_lines(pre));
                    }
                },
                Option::Some(l) => {
                    let owned = copy_bytes(l.as_slice());
                    let ghost ov = owned@;
                    lines.push(owned);
                    proof {
                        assert(some_lines(post) =~= some_lines(pre).push(
                            results@[i as int]->Some_0@,
                        ));
                        assert(crate::transcript::fields_view(lines@)
                            =~= crate::transcript::fields_view(lines@.drop_last()).push(ov));
                    }
                },
            }
            i = i + 1;
        }
        proof {
            assert(results@.subrange(0, results@.len() as int) =~= results@);
        }
        self.matches = lines;
        Result::Ok(())
    }
}

} // verus!
