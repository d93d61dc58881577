//! Unit tests for the core pieces: identifier normalization, pseudonym
//! assignment, rewriting, number parsing, and statistics counting.

use battletools::id::to_id_bytes;
use battletools::pseudonym::PseudonymMap;
use battletools::rewrite::replace_ci_exec;
use battletools::rewrite::rewrite_all_exec;
use battletools::transcript::rewrite_line;
use battletools::transcript::split_line;
use battletools::record::BattleRecord;
use battletools::record::EndType;
use battletools::record::Rating;
use battletools::record::validate_record;
use battletools::record::trailing_number;
use battletools::stats::leading_number;
use battletools::stats::stats_decision;
use battletools::stats::counts_for;
use battletools::stats::Outcome;
use battletools::stats::StatEntry;
use battletools::BattleToolsError;

fn v(s: &str) -> Vec<u8> {
    s.as_bytes().to_vec()
}

fn contains_ci_naive(haystack: &[u8], needle: &[u8]) -> bool {
    let fold = |b: u8| if (65..=90).contains(&b) { b + 32 } else { b };
    if needle.is_empty() || haystack.len() < needle.len() {
        return false;
    }
    (0..=haystack.len() - needle.len()).any(|i| {
        (0..needle.len()).all(|k| fold(haystack[i + k]) == fold(needle[k]))
    })
}

fn sample_record() -> BattleRecord {
    BattleRecord {
        p1: v("Annika"),
        p2: v("Rust Hater"),
        winner: Some(v("Annika")),
        end_type: EndType::Normal,
        p1rating: Some(Rating {
            userid: v("annika"),
            elo: v("1400"),
            rptime: v("1632906000"),
            rd: v("121"),
            oldelo: v("1057"),
        }),
        p2rating: Some(Rating {
            userid: v("rusthater"),
            elo: v("1130"),
            rptime: v("1632906000"),
            rd: v("109"),
            oldelo: v("1040"),
        }),
        log: vec![
            v("|j|\u{2606}Annika"),
            v("|j|\u{2606}Rust Hater"),
            v("|player|p1|Annika|cynthia|1400"),
            v("|player|p2|Rust Hater|cynthia|1100"),
            v("|tier|[Gen 8] Random Battle"),
        ],
        roomid: v("battle-gen8randombattle-1"),
        format: v("gen8randombattle"),
        timestamp: v("1632906000"),
        comment: Some(v("a comment")),
    }
}

#[test]
fn id_normalization_strips_and_folds() {
    assert_eq!(to_id_bytes(b"Annika"), v("annika"));
    assert_eq!(to_id_bytes(b"Rust Hater"), v("rusthater"));
    assert_eq!(to_id_bytes("\u{2606}Annika!".as_bytes()), v("annika"));
    assert_eq!(to_id_bytes(b"\"Annika\""), v("annika"));
    assert_eq!(to_id_bytes(b"A1b2-C3"), v("a1b2c3"));
    assert_eq!(to_id_bytes(b"!!!"), v(""));
}

#[test]
fn one_pseudonym_per_identifier() {
    let mut map = PseudonymMap::new();
    let p_first = map.get_or_assign(b"annika");
    let p_again = map.get_or_assign(b"annika");
    assert_eq!(p_first, p_again);
    assert_eq!(map.ids.len(), 1);
}

#[test]
fn distinct_identifiers_get_distinct_pseudonyms() {
    let mut map = PseudonymMap::new();
    let p1 = map.get_or_assign(b"annika");
    let p2 = map.get_or_assign(b"rusthater");
    assert_ne!(p1, p2);
    assert_eq!(p1, v("#1#"));
    assert_eq!(p2, v("#2#"));
}

#[test]
fn replacement_is_case_insensitive_and_targeted() {
    let out = replace_ci_exec(b"hello ANNIKA and annika!", b"Annika", b"#1#");
    assert_eq!(out, v("hello #1# and #1#!"));
    let untouched = replace_ci_exec(b"nothing here", b"Annika", b"#1#");
    assert_eq!(untouched, v("nothing here"));
}

#[test]
fn rewrite_all_applies_every_pair() {
    let pairs = vec![(v("Annika"), v("#1#")), (v("Rust Hater"), v("#2#"))];
    let out = rewrite_all_exec(b"Annika beat Rust Hater", &pairs);
    assert_eq!(out, v("#1# beat #2#"));
}

#[test]
fn line_rewrite_keeps_field_count() {
    let pairs = vec![(v("Annika"), v("#1#"))];
    let line = "|player|p1|\u{2606}Annika|cynthia|1400";
    let out = rewrite_line(line.as_bytes(), &pairs);
    assert_eq!(out, v("|player|p1|\u{2606}#1#|cynthia|1400"));
    let before = split_line(line.as_bytes(), 124).len();
    let after = split_line(&out, 124).len();
    assert_eq!(before, after);
    assert_eq!(after, 6);
}

#[test]
fn winner_matching_neither_player_is_invalid() {
    let mut rec = sample_record();
    rec.winner = Some(v("Somebody Else"));
    let res = validate_record(&rec);
    assert!(matches!(res, Err(BattleToolsError::InvalidLog(_))));
}

#[test]
fn well_formed_record_is_accepted() {
    let rec = sample_record();
    assert!(validate_record(&rec).is_ok());
}

#[test]
fn single_player_record_is_invalid() {
    let mut rec = sample_record();
    rec.p2 = v("ANNIKA");
    assert!(matches!(validate_record(&rec), Err(BattleToolsError::InvalidLog(_))));
}

#[test]
fn battle_number_comes_from_digit_suffix() {
    assert_eq!(trailing_number(b"battle-gen8randombattle-1"), Some(1));
    assert_eq!(trailing_number(b"battle-gen8ou-271858"), Some(271858));
    assert_eq!(trailing_number(b"no-digits-"), None);
    assert_eq!(trailing_number(b""), None);
}

#[test]
fn rating_values_read_their_integer_part() {
    assert_eq!(leading_number(b"1400.4859871929"), Some(1400));
    assert_eq!(leading_number(b"\"1516.9377700433\""), Some(1516));
    assert_eq!(leading_number(b"77"), Some(77));
    assert_eq!(leading_number(b"none"), None);
    assert_eq!(leading_number(b""), None);
}

#[test]
fn minimum_elo_excludes_low_or_absent_ratings() {
    let fmt = Some(v("\"gen8randombattle\""));
    let p1 = Some(v("\"Annika\""));
    let p2 = Some(v("\"Rust Hater\""));
    let w = Some(v("\"Annika\""));
    let hi = Some(v("1400.4"));
    let lo = Some(v("1130.7"));

    let kept = stats_decision(&Some(1200), &fmt, &p1, &p2, &w, &hi, &hi).unwrap();
    assert!(kept.is_some());

    let low_side = stats_decision(&Some(1200), &fmt, &p1, &p2, &w, &hi, &lo).unwrap();
    assert!(low_side.is_none());

    let absent_side = stats_decision(&Some(1200), &fmt, &p1, &p2, &w, &hi, &None).unwrap();
    assert!(absent_side.is_none());

    let no_threshold = stats_decision(&None, &fmt, &p1, &p2, &w, &None, &None).unwrap();
    assert!(no_threshold.is_some());
}

#[test]
fn stats_rejects_winner_matching_neither_player() {
    let fmt = Some(v("\"gen8ou\""));
    let p1 = Some(v("\"Annika\""));
    let p2 = Some(v("\"Rust Hater\""));
    let w = Some(v("\"Somebody Else\""));
    let res = stats_decision(&None, &fmt, &p1, &p2, &w, &None, &None);
    assert!(matches!(res, Err(BattleToolsError::InvalidLog(_))));
}

#[test]
fn aggregation_is_order_independent() {
    let a = StatEntry { format: v("gen8ou"), outcome: Outcome::P1Win };
    let b = StatEntry { format: v("gen8ou"), outcome: Outcome::P2Win };
    let c = StatEntry { format: v("gen8randombattle"), outcome: Outcome::P1Win };
    let abc: Vec<Option<StatEntry>> = vec![
        Some(StatEntry { format: a.format.clone(), outcome: a.outcome }),
        Some(StatEntry { format: b.format.clone(), outcome: b.outcome }),
        Some(StatEntry { format: c.format.clone(), outcome: c.outcome }),
        None,
    ];
    let cab: Vec<Option<StatEntry>> = vec![
        Some(StatEntry { format: c.format.clone(), outcome: c.outcome }),
        None,
        Some(StatEntry { format: a.format.clone(), outcome: a.outcome }),
        Some(StatEntry { format: b.format.clone(), outcome: b.outcome }),
    ];
    assert_eq!(counts_for(&abc, b"gen8ou"), counts_for(&cab, b"gen8ou"));
    assert_eq!(
        counts_for(&abc, b"gen8randombattle"),
        counts_for(&cab, b"gen8randombattle")
    );
    assert_eq!(counts_for(&abc, b"gen8ou"), (1, 1, 2));
    assert_eq!(counts_for(&abc, b"gen8randombattle"), (1, 0, 1));
    assert_eq!(counts_for(&abc, b"absent"), (0, 0, 0));
}

#[test]
fn anonymize_removes_names_from_every_field() {
    let rec = sample_record();
    let engine = battletools::anonymize::Anonymizer::new(false);
    let (out, num) = engine.anonymize(&rec, 7).unwrap();
    assert_eq!(num, 1);
    assert_eq!(out.p1, v("#1#"));
    assert_eq!(out.p2, v("#2#"));
    assert_eq!(out.winner, Some(v("#1#")));
    assert_eq!(out.roomid, v("battle-1"));
    assert!(out.comment.is_none());
    assert_eq!(out.log.len(), rec.log.len());
    for line in &out.log {
        assert!(!contains_ci_naive(line, b"Annika"));
        assert!(!contains_ci_naive(line, b"Rust Hater"));
        assert!(!contains_ci_naive(line, b"rusthater"));
    }
    assert_eq!(out.log[0], v("|j|\u{2606}#1#"));
    assert_eq!(out.log[2], v("|player|p1|#1#|cynthia|1400"));
    // The two runs use per-file maps: a second run assigns fresh pseudonyms
    // of its own and removes the names just the same.
    let (out2, _) = engine.anonymize(&rec, 7).unwrap();
    for line in &out2.log {
        assert!(!contains_ci_naive(line, b"Annika"));
        assert!(!contains_ci_naive(line, b"Rust Hater"));
    }
}

#[test]
fn safe_mode_redacts_ratings_and_timestamps() {
    let rec = sample_record();
    let engine = battletools::anonymize::Anonymizer::new(true);
    let (out, _) = engine.anonymize(&rec, 0).unwrap();
    let p1r = out.p1rating.as_ref().unwrap();
    assert_eq!(p1r.elo, v("0"));
    assert_eq!(p1r.rptime, v("0"));
    assert_eq!(p1r.userid, v("#1#"));
    assert_eq!(out.timestamp, v("0"));

    let loose = battletools::anonymize::Anonymizer::new(false);
    let (kept, _) = loose.anonymize(&rec, 0).unwrap();
    assert_eq!(kept.p1rating.as_ref().unwrap().elo, v("1400"));
    assert_eq!(kept.timestamp, v("1632906000"));
}

#[test]
fn invalid_record_is_rejected_not_anonymized() {
    let mut rec = sample_record();
    rec.winner = Some(v("Somebody Else"));
    let engine = battletools::anonymize::Anonymizer::new(false);
    assert!(matches!(
        engine.anonymize(&rec, 0),
        Err(BattleToolsError::InvalidLog(_))
    ));
}

#[test]
fn overlapping_names_keep_their_own_pseudonyms() {
    // One player's name is a prefix of the other's: the longer name is
    // replaced first, so each participant's occurrences get that
    // participant's pseudonym.
    let mut rec = sample_record();
    rec.p1 = v("Ann");
    rec.p2 = v("Anna");
    rec.winner = Some(v("Ann"));
    rec.p1rating = None;
    rec.p2rating = None;
    rec.log = vec![v("|c|Anna says hi to Ann")];
    let engine = battletools::anonymize::Anonymizer::new(false);
    let (out, _) = engine.anonymize(&rec, 0).unwrap();
    assert_eq!(out.p1, v("#1#"));
    assert_eq!(out.p2, v("#2#"));
    assert_eq!(out.log[0], v("|c|#2# says hi to #1#"));
}
