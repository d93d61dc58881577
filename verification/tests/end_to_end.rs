//! End-to-end tests over raw JSON documents: searching, statistics, the
//! anonymization handler, parsing, serialization, and the engine.

use battletools::search::BattleSearcher;
use battletools::stats::StatisticsDirectoryParser;
use battletools::anonymize::AnonymizingDirectoryParser;
use battletools::parse::parse_string_array;
use battletools::parse::parse_battle_record;
use battletools::serialize::serialize_record;
use battletools::engine::process_contents;
use battletools::record::EndType;
use battletools::BattleToolsError;

fn v(s: &str) -> Vec<u8> {
    s.as_bytes().to_vec()
}

fn contains_sub(haystack: &[u8], needle: &[u8]) -> bool {
    let fold = |b: u8| if (65..=90).contains(&b) { b + 32 } else { b };
    if needle.is_empty() || haystack.len() < needle.len() {
        return false;
    }
    (0..=haystack.len() - needle.len()).any(|i| {
        (0..needle.len()).all(|k| fold(haystack[i + k]) == fold(needle[k]))
    })
}

fn sample_json() -> String {
    let mut s = String::new();
    s.push_str("{\"winner\":\"Annika\",\"turns\":2,\"p1\":\"Annika\",\"p2\":\"RustHater\",");
    s.push_str("\"score\":[0,2],");
    s.push_str("\"log\":[\"|j|Annika\",\"|j|RustHater\",\"|player|p1|Annika|cynthia|1400\",");
    s.push_str("\"|player|p2|RustHater|cynthia|1100\",\"|tier|gen8randombattle\"],");
    s.push_str("\"p1rating\":{\"entryid\":\"75790599\",\"userid\":\"annika\",\"elo\":1400.4859871929,");
    s.push_str("\"rd\":121.36211247153,\"rptime\":1632906000,\"oldelo\":\"1057.7590112468\"},");
    s.push_str("\"p2rating\":{\"entryid\":\"75790599\",\"userid\":\"rusthater\",\"elo\":1130.7522733629,");
    s.push_str("\"rd\":121.36211247153,\"rptime\":1632906000,\"oldelo\":\"1040.4859871929\"},");
    s.push_str("\"endType\":\"normal\",\"timestamp\":\"Wed Nov 1 1970\",");
    s.push_str("\"roomid\":\"battle-gen8randombattle-1\",\"format\":\"gen8randombattle\",");
    s.push_str("\"comment\":\"hello\"}");
    s
}

#[test]
fn search_finds_the_participant() {
    let searcher = BattleSearcher::new("annika", false, false);
    let raw = sample_json();
    let res = searcher
        .handle_log_file(raw.as_bytes(), b"battle-gen8randombattle-1.log.json")
        .unwrap();
    let line = res.expect("the searched participant played this battle");
    assert_eq!(
        line,
        v("(Wed Nov 1 1970) <<battle-gen8randombattle-1>> annika vs. rusthater (Annika won normally)")
    );
}

#[test]
fn search_forfeits_only_excludes_normal_endings() {
    let searcher = BattleSearcher::new("annika", false, true);
    let raw = sample_json();
    let res = searcher
        .handle_log_file(raw.as_bytes(), b"battle-gen8randombattle-1.log.json")
        .unwrap();
    assert!(res.is_none());
}

#[test]
fn search_wins_only_excludes_losses() {
    let searcher = BattleSearcher::new("rusthater", true, false);
    let raw = sample_json();
    let res = searcher
        .handle_log_file(raw.as_bytes(), b"battle-gen8randombattle-1.log.json")
        .unwrap();
    assert!(res.is_none());
}

#[test]
fn search_ignores_other_participants() {
    let searcher = BattleSearcher::new("somebodyelse", false, false);
    let raw = sample_json();
    let res = searcher
        .handle_log_file(raw.as_bytes(), b"x.log.json")
        .unwrap();
    assert!(res.is_none());
}

#[test]
fn search_rejects_documents_without_players() {
    let searcher = BattleSearcher::new("annika", false, false);
    let res = searcher.handle_log_file(b"{\"winner\":\"x\"}", b"x.log.json");
    assert!(matches!(res, Err(BattleToolsError::InvalidLog(_))));
}

#[test]
fn statistics_buckets_by_format() {
    let parser = StatisticsDirectoryParser::new(None);
    let raw = sample_json();
    let entry = parser
        .handle_log_file(raw.as_bytes(), b"a.log.json")
        .unwrap()
        .expect("no threshold stands, so the file is included");
    assert_eq!(entry.format, v("gen8randombattle"));

    let mut parser = StatisticsDirectoryParser::new(None);
    let results = vec![
        parser.handle_log_file(raw.as_bytes(), b"a.log.json").unwrap(),
        parser.handle_log_file(raw.as_bytes(), b"b.log.json").unwrap(),
    ];
    parser.handle_results(results).unwrap();
    assert_eq!(parser.rows.len(), 1);
    let row = &parser.rows[0];
    assert_eq!(row.0, v("gen8randombattle"));
    assert_eq!((row.1, row.2, row.3), (2, 0, 2));
}

#[test]
fn statistics_threshold_excludes_the_low_rated() {
    let parser = StatisticsDirectoryParser::new(Some(1200));
    let raw = sample_json();
    let entry = parser.handle_log_file(raw.as_bytes(), b"a.log.json").unwrap();
    assert!(entry.is_none(), "the slot-2 rating 1130 is below 1200");

    let parser = StatisticsDirectoryParser::new(Some(1100));
    let entry = parser.handle_log_file(raw.as_bytes(), b"a.log.json").unwrap();
    assert!(entry.is_some(), "both ratings are at least 1100");
}

#[test]
fn anonymized_output_file_has_no_names() {
    let handler = AnonymizingDirectoryParser::new(false, v("out"));
    let raw = sample_json();
    let (json, num) = handler
        .handle_log_file(raw.as_bytes(), b"battle-gen8randombattle-1.log.json")
        .unwrap();
    assert_eq!(num, 1);
    assert!(!contains_sub(&json, b"Annika"));
    assert!(!contains_sub(&json, b"RustHater"));
    assert!(contains_sub(&json, b"#1#"));
    assert!(contains_sub(&json, b"\"roomid\":\"battle-1\""));
    assert!(contains_sub(&json, b"\"format\":\"gen8randombattle\""));
    assert!(!contains_sub(&json, b"comment"));
}

#[test]
fn safe_anonymization_also_redacts_numbers() {
    let handler = AnonymizingDirectoryParser::new(true, v("out"));
    let raw = sample_json();
    let (json, _) = handler
        .handle_log_file(raw.as_bytes(), b"battle-gen8randombattle-1.log.json")
        .unwrap();
    assert!(!contains_sub(&json, b"1400.4859871929"));
    assert!(!contains_sub(&json, b"1632906000"));
    assert!(!contains_sub(&json, b"1057.7590112468"));
    assert!(!contains_sub(&json, b"121.36211247153"));
    assert!(contains_sub(&json, b"\"elo\":\"0\""));
    assert!(contains_sub(&json, b"\"rptime\":\"0\""));
    assert!(contains_sub(&json, b"\"rd\":\"0\""));
    assert!(contains_sub(&json, b"\"oldelo\":\"0\""));
    assert!(contains_sub(&json, b"\"timestamp\":\"0\""));
}

#[test]
fn parse_reads_the_record_view() {
    let raw = sample_json();
    let rec = parse_battle_record(raw.as_bytes()).unwrap();
    assert_eq!(rec.p1, v("Annika"));
    assert_eq!(rec.p2, v("RustHater"));
    assert_eq!(rec.winner, Some(v("Annika")));
    assert!(matches!(rec.end_type, EndType::Normal));
    assert_eq!(rec.log.len(), 5);
    assert_eq!(rec.log[0], v("|j|Annika"));
    assert_eq!(rec.roomid, v("battle-gen8randombattle-1"));
    assert_eq!(rec.format, v("gen8randombattle"));
    assert_eq!(rec.p1rating.as_ref().unwrap().userid, v("annika"));
    assert_eq!(rec.p1rating.as_ref().unwrap().elo, v("1400.4859871929"));
    assert_eq!(rec.p1rating.as_ref().unwrap().rd, v("121.36211247153"));
    assert_eq!(rec.p1rating.as_ref().unwrap().oldelo, v("1057.7590112468"));
    assert_eq!(rec.comment, Some(v("hello")));
}

#[test]
fn string_arrays_parse_exactly() {
    assert_eq!(
        parse_string_array(b"[\"a\",\"bc\"]"),
        Some(vec![v("a"), v("bc")])
    );
    assert_eq!(parse_string_array(b"[]"), Some(vec![]));
    assert_eq!(parse_string_array(b"[ ]"), Some(vec![]));
    assert_eq!(parse_string_array(b"[\"\"]"), Some(vec![v("")]));
    assert_eq!(parse_string_array(b"[1,2]"), None);
    assert_eq!(parse_string_array(b"[\"a\""), None);
    assert_eq!(parse_string_array(b"[\"a\"]x"), None);
    assert_eq!(parse_string_array(b"[\"a\",]"), None);
}

#[test]
fn string_arrays_read_escapes_and_whitespace() {
    // An escaped quote inside ordinary chat text is decoded.
    assert_eq!(
        parse_string_array(b"[\"say \\\"hi\\\"\"]"),
        Some(vec![v("say \"hi\"")])
    );
    // Backslash and newline escapes decode; whitespace between tokens is
    // tolerated.
    assert_eq!(
        parse_string_array(b"[ \"a\\\\b\" , \"c\\nd\" ]"),
        Some(vec![v("a\\b"), v("c\nd")])
    );
    // Escapes this parser does not read, and raw control bytes, reject.
    assert_eq!(parse_string_array(b"[\"a\\u0041\"]"), None);
    assert_eq!(parse_string_array(b"[\"a\x01b\"]"), None);
}

#[test]
fn transcript_escapes_round_trip_through_anonymization() {
    let handler = AnonymizingDirectoryParser::new(false, v("out"));
    let mut raw = String::new();
    raw.push_str("{\"p1\":\"Alice\",\"p2\":\"Bob\",\"winner\":\"Alice\",\"endType\":\"normal\",");
    raw.push_str("\"roomid\":\"battle-gen8ou-7\",\"format\":\"gen8ou\",");
    raw.push_str("\"log\":[\"|c|Alice|say \\\"hi\\\" Bob\"]}");
    let (json, num) = handler
        .handle_log_file(raw.as_bytes(), b"battle-gen8ou-7.log.json")
        .unwrap();
    assert_eq!(num, 7);
    assert!(!contains_sub(&json, b"Alice"));
    assert!(!contains_sub(&json, b"Bob"));
    // The rewritten line is re-escaped valid JSON text.
    assert!(contains_sub(&json, b"|c|#1#|say \\\"hi\\\" #2#"));
}

#[test]
fn serialization_is_exact() {
    let rec = battletools::record::BattleRecord {
        p1: v("#1#"),
        p2: v("#2#"),
        winner: Some(v("#1#")),
        end_type: EndType::Normal,
        p1rating: None,
        p2rating: None,
        log: vec![v("|j|#1#"), v("|j|#2#")],
        roomid: v("battle-9"),
        format: v("gen8ou"),
        timestamp: v("0"),
        comment: None,
    };
    let json = serialize_record(&rec);
    let mut expected = String::new();
    expected.push_str("{\"p1\":\"#1#\",\"p2\":\"#2#\",\"winner\":\"#1#\",\"endType\":\"normal\",");
    expected.push_str("\"p1rating\":null,\"p2rating\":null,\"log\":[\"|j|#1#\",\"|j|#2#\"],");
    expected.push_str("\"roomid\":\"battle-9\",\"format\":\"gen8ou\",\"timestamp\":\"0\"}");
    assert_eq!(json, expected.into_bytes());
}

#[test]
fn engine_attempts_every_file_and_reports_failures() {
    let mut searcher = BattleSearcher::new("annika", false, false);
    let good = sample_json();
    let files = vec![
        (v("one.log.json"), good.clone().into_bytes()),
        (v("bad.log.json"), v("not json at all")),
        (v("two.log.json"), good.into_bytes()),
    ];
    let (ok_count, failed) = process_contents(&mut searcher, &files).unwrap();
    assert_eq!(ok_count, 2);
    assert_eq!(failed, vec![v("bad.log.json")]);
    assert_eq!(searcher.matches.len(), 2);
}

#[test]
fn engine_reports_a_run_with_no_successes_as_failed() {
    let mut searcher = BattleSearcher::new("annika", false, false);
    let files = vec![(v("bad.log.json"), v("{"))];
    let res = process_contents(&mut searcher, &files);
    assert!(matches!(res, Err(BattleToolsError::InvalidLog(_))));
}

#[test]
fn engine_accepts_an_empty_run() {
    let mut searcher = BattleSearcher::new("annika", false, false);
    let files: Vec<(Vec<u8>, Vec<u8>)> = vec![];
    let (ok_count, failed) = process_contents(&mut searcher, &files).unwrap();
    assert_eq!(ok_count, 0);
    assert!(failed.is_empty());
}

#[test]
fn search_reports_a_battle_without_winner() {
    let searcher = BattleSearcher::new("alice", false, false);
    let raw = "{\"p1\":\"Alice\",\"p2\":\"Bob\",\"endType\":\"forfeit\",\"log\":[]}";
    let res = searcher.handle_log_file(raw.as_bytes(), b"room-3.log.json").unwrap();
    assert_eq!(
        res.unwrap(),
        v("(unknown) <<room-3>> alice vs. bob (there was no winner)")
    );
}

#[test]
fn search_treats_a_null_winner_as_no_winner() {
    let searcher = BattleSearcher::new("alice", false, false);
    let raw = "{\"p1\":\"Alice\",\"p2\":\"Bob\",\"winner\":null,\"endType\":\"normal\",\"log\":[]}";
    let res = searcher.handle_log_file(raw.as_bytes(), b"room-5.log.json").unwrap();
    assert_eq!(
        res.unwrap(),
        v("(unknown) <<room-5>> alice vs. bob (there was no winner)")
    );
}

#[test]
fn search_rejects_a_winner_matching_neither_player() {
    let searcher = BattleSearcher::new("alice", false, false);
    let raw = "{\"p1\":\"Alice\",\"p2\":\"Bob\",\"winner\":\"Mallory\",\"endType\":\"normal\",\"log\":[]}";
    let res = searcher.handle_log_file(raw.as_bytes(), b"room-6.log.json");
    assert!(matches!(res, Err(BattleToolsError::InvalidLog(_))));
}

#[test]
fn search_reports_a_win_by_forfeit() {
    let searcher = BattleSearcher::new("bob", false, true);
    let raw = "{\"p1\":\"Alice\",\"p2\":\"Bob\",\"winner\":\"Bob\",\"endType\":\"forfeit\",\"log\":[]}";
    let res = searcher.handle_log_file(raw.as_bytes(), b"room-4.log.json").unwrap();
    assert_eq!(
        res.unwrap(),
        v("(unknown) <<room-4>> alice vs. bob (Bob won by forfeit)")
    );
}

#[test]
fn anonymize_finalize_is_order_independent() {
    let a = (v("{\"x\":1}"), 3u64);
    let b = (v("{\"x\":2}"), 1u64);
    let c = (v("{\"x\":3}"), 2u64);
    let mut h1 = AnonymizingDirectoryParser::new(false, v("out"));
    h1.finish(vec![a.clone(), b.clone(), c.clone()]).unwrap();
    let mut h2 = AnonymizingDirectoryParser::new(false, v("out"));
    h2.finish(vec![c, a, b]).unwrap();
    assert_eq!(h1.outputs, h2.outputs);
    assert_eq!(h1.outputs[0].1, 1);
    assert_eq!(h1.outputs[1].1, 2);
    assert_eq!(h1.outputs[2].1, 3);
}

#[test]
fn io_error_carries_its_message() {
    let e = BattleToolsError::IOError(String::from("disk full"));
    assert!(matches!(e, BattleToolsError::IOError(m) if m == "disk full"));
}

#[test]
fn thousand_files_filtered_exactly_by_minimum_elo() {
    // Half the files carry a slot-2 rating below the threshold; one in ten
    // carries none at all.  The filter must exclude exactly those.
    let mut files: Vec<(Vec<u8>, Vec<u8>)> = Vec::new();
    let mut expected_included = 0u64;
    for i in 0..1000 {
        let elo2 = if i % 2 == 0 { 1500 } else { 1000 };
        let has_rating = i % 10 != 9;
        if has_rating && i % 2 == 0 {
            expected_included += 1;
        }
        let mut doc = String::new();
        doc.push_str("{\"p1\":\"Alice\",\"p2\":\"Bob\",\"winner\":\"Alice\",");
        doc.push_str("\"endType\":\"normal\",\"format\":\"gen8ou\",");
        if has_rating {
            doc.push_str("\"p1rating\":{\"elo\":1500},");
            doc.push_str(&format!("\"p2rating\":{{\"elo\":{}}},", elo2));
        }
        doc.push_str("\"log\":[]}");
        files.push((format!("battle-gen8ou-{}.log.json", i).into_bytes(), doc.into_bytes()));
    }
    let mut parser = StatisticsDirectoryParser::new(Some(1200));
    let (ok_count, failed) = process_contents(&mut parser, &files).unwrap();
    assert_eq!(ok_count, 1000);
    assert!(failed.is_empty());
    assert_eq!(parser.rows.len(), 1);
    let row = &parser.rows[0];
    assert_eq!(row.0, v("gen8ou"));
    assert_eq!((row.1, row.2, row.3), (expected_included, 0, expected_included));
}

#[test]
fn colliding_battle_numbers_are_renumbered() {
    let mut h = AnonymizingDirectoryParser::new(false, v("out"));
    h.finish(vec![(v("a"), 0), (v("b"), 0), (v("c"), 5), (v("d"), 5)])
        .unwrap();
    let nums: Vec<u64> = h.outputs.iter().map(|o| o.1).collect();
    assert_eq!(nums, vec![0, 1, 5, 6]);
    let mut payloads: Vec<Vec<u8>> = h.outputs.iter().map(|o| o.0.clone()).collect();
    payloads.sort();
    assert_eq!(payloads, vec![v("a"), v("b"), v("c"), v("d")]);
}
