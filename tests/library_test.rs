use mend::diff::{Hunk, Line, Patch};
use mend::lookup::lookup;
use mend::parser::parse_patch;
use mend::patcher::{
    apply_hunk, build_lookup_tables, find_fuzzy_match, find_hunk_location, find_strict_match,
    normalize_line, HunkMatch, MatchOptions,
};
use mend::scoring::{apply_proximity_bonus, deduplicate_matches, SCORE_SCALE};
use mend::session::{needs_review, resolve_matches, Resolution};

fn to_lines(s: &str) -> Vec<String> {
    s.lines().map(String::from).collect()
}

fn scenario_hunk() -> Hunk {
    let patch = parse_patch("@@ -1,3 +1,3 @@\n line one\n-line two\n+line two new\n line three").unwrap();
    assert_eq!(patch.diffs.len(), 1);
    assert_eq!(patch.diffs[0].hunks.len(), 1);
    let h = &patch.diffs[0].hunks[0];
    Hunk {
        old_start: h.old_start,
        old_lines: h.old_lines,
        new_start: h.new_start,
        new_lines: h.new_lines,
        lines: h.lines.clone(),
    }
}

fn m(start_index: usize, matched_length: usize, score: u128, density: u128) -> HunkMatch {
    HunkMatch { start_index, matched_length, score, density }
}

fn locate(source: &[String], hunk: &Hunk, fuzziness: u8) -> Vec<HunkMatch> {
    let (cm, index) = build_lookup_tables(source);
    find_hunk_location(source, &cm, &index, hunk, fuzziness, 700_000)
}

#[test]
fn normalize_splits_identifiers_and_punctuation() {
    assert_eq!(normalize_line("foo( a, b )"), "foo ( a , b )");
    assert_eq!(normalize_line("foo(a,b)"), "foo ( a , b )");
    assert_eq!(normalize_line("a_b1+c"), "a_b1 + c");
    assert_eq!(normalize_line("\tx\t=\ty;"), "x = y ;");
    assert_eq!(normalize_line("héllo  wörld"), "héllo wörld");
}

#[test]
fn normalize_blank_line_is_empty() {
    assert_eq!(normalize_line(""), "");
    assert_eq!(normalize_line("  \t "), "");
}

#[test]
fn normalize_ignores_inserted_whitespace() {
    let line = "let x=f(a,b);";
    let spaced = "  let   x =  f ( a ,\tb ) ;  ";
    assert_eq!(normalize_line(line), normalize_line(spaced));
}

#[test]
fn strict_scenario_exact_match() {
    let source = to_lines("line one\nline two\nline three");
    let hunk = scenario_hunk();
    for fuzziness in 0..3u8 {
        let matches = locate(&source, &hunk, fuzziness);
        assert_eq!(matches, vec![m(0, 3, SCORE_SCALE, SCORE_SCALE)]);
    }
    let result = apply_hunk(&source, &hunk, 0, 3);
    assert_eq!(result.join("\n"), "line one\nline two new\nline three");
}

#[test]
fn strict_match_takes_first_occurrence_from_min_line() {
    let source = to_lines("a\nb\na\nb");
    let hunk = Hunk {
        lines: vec![Line::Context("a".to_string()), Line::Removal("b".to_string())],
        ..Default::default()
    };
    assert_eq!(find_strict_match(&source, &hunk, 0)[0].start_index, 0);
    assert_eq!(find_strict_match(&source, &hunk, 1)[0].start_index, 2);
    assert!(find_strict_match(&source, &hunk, 3).is_empty());
    assert!(find_strict_match(&source, &hunk, 10).is_empty());
}

#[test]
fn whitespace_scenario_exact_score() {
    let source = to_lines("header\n\nline one\n    line two\nline three");
    let hunk = scenario_hunk();
    assert!(locate(&source, &hunk, 0).is_empty());
    let matches = locate(&source, &hunk, 1);
    // 0.9, plus the bonus at distance 2 from the recorded line: 0.05 * 48 / 50.
    assert_eq!(matches, vec![m(2, 3, 948_000, SCORE_SCALE)]);
    let result = apply_hunk(&source, &hunk, matches[0].start_index, matches[0].matched_length);
    assert_eq!(result.join("\n"), "header\n\nline one\nline two new\nline three");
}

#[test]
fn whitespace_match_spans_interior_blank_lines() {
    let source = to_lines("x\nline one\n\nline two\nline three");
    let hunk = Hunk {
        lines: vec![
            Line::Context("line one".to_string()),
            Line::Removal("line  two".to_string()),
            Line::Context("line three".to_string()),
        ],
        ..Default::default()
    };
    let matches = locate(&source, &hunk, 1);
    // Three anchors over a span of four lines.
    assert_eq!(matches, vec![m(1, 4, 948_000, 750_000)]);
}

#[test]
fn anchor_scenario_exact_score() {
    let source = to_lines("line one\nSOMETHING UNEXPECTED\nline three");
    let hunk = scenario_hunk();
    assert!(locate(&source, &hunk, 1).is_empty());
    let matches = locate(&source, &hunk, 2);
    // 0.7 * 2/3 + 0.3 * 1, plus 0.05 for indentation and 0.05 for proximity.
    assert_eq!(matches, vec![m(0, 3, 866_666, SCORE_SCALE)]);
    let result = apply_hunk(&source, &hunk, 0, 3);
    assert_eq!(result.join("\n"), "line one\nline two new\nline three");
}

#[test]
fn anchor_heuristic_respects_threshold() {
    let source = to_lines("line one\nSOMETHING UNEXPECTED\nline three");
    let hunk = scenario_hunk();
    let (cm, index) = build_lookup_tables(&source);
    let strict_threshold = find_hunk_location(&source, &cm, &index, &hunk, 2, 900_000);
    assert!(strict_threshold.is_empty());
}

#[test]
fn ambiguous_matches_are_all_offered() {
    let source = to_lines("  foo()\n  bar()\nzzz\n  foo()\n  bar()");
    let hunk = Hunk {
        lines: vec![
            Line::Context("foo()".to_string()),
            Line::Removal("bar()".to_string()),
            Line::Addition("baz()".to_string()),
        ],
        ..Default::default()
    };
    let matches = locate(&source, &hunk, 1);
    assert_eq!(
        matches,
        vec![m(0, 2, 949_000, SCORE_SCALE), m(3, 2, 946_000, SCORE_SCALE)]
    );
}

#[test]
fn fuzzy_match_honours_min_line() {
    let source = to_lines("  foo()\n  bar()\nzzz\n  foo()\n  bar()");
    let hunk = Hunk {
        lines: vec![Line::Context("foo()".to_string()), Line::Removal("bar()".to_string())],
        ..Default::default()
    };
    let (cm, index) = build_lookup_tables(&source);
    let options = MatchOptions { fuzziness: 1, min_line: 1, match_threshold: 700_000 };
    let matches = find_fuzzy_match(&source, &cm, &index, &hunk, options);
    assert_eq!(matches, vec![m(3, 2, 946_000, SCORE_SCALE)]);
}

#[test]
fn pure_insertion_matches_at_recorded_line() {
    let source = to_lines("a\nb");
    let hunk = Hunk {
        old_start: 5,
        lines: vec![Line::Addition("x".to_string())],
        ..Default::default()
    };
    for fuzziness in 0..3u8 {
        assert_eq!(locate(&source, &hunk, fuzziness), vec![m(5, 0, SCORE_SCALE, SCORE_SCALE)]);
    }
    let (cm, index) = build_lookup_tables(&source);
    let options = MatchOptions { fuzziness: 2, min_line: 7, match_threshold: 700_000 };
    assert_eq!(
        find_fuzzy_match(&source, &cm, &index, &hunk, options),
        vec![m(7, 0, SCORE_SCALE, SCORE_SCALE)]
    );
}

#[test]
fn blank_anchors_never_match_fuzzily() {
    let source = to_lines("a\nb");
    let hunk = Hunk {
        lines: vec![Line::Context("   ".to_string()), Line::Addition("x".to_string())],
        ..Default::default()
    };
    assert!(locate(&source, &hunk, 2).is_empty());
}

#[test]
fn apply_hunk_discards_matched_span_and_keeps_tail() {
    let source = to_lines("a\nb\nc\nd");
    let hunk = Hunk {
        lines: vec![
            Line::Context("b".to_string()),
            Line::Removal("c".to_string()),
            Line::Addition("C".to_string()),
        ],
        ..Default::default()
    };
    assert_eq!(apply_hunk(&source, &hunk, 1, 2), to_lines("a\nb\nC\nd"));
    assert_eq!(apply_hunk(&source, &hunk, 1, 10), to_lines("a\nb\nC"));
    assert_eq!(apply_hunk(&source, &hunk, 4, 0), to_lines("a\nb\nc\nd\nb\nC"));
}

#[test]
fn lookup_tables_skip_blank_lines() {
    let source = to_lines("a\n\n  a  \nb");
    let (cm, index) = build_lookup_tables(&source);
    assert_eq!(
        cm,
        vec![(0, "a".to_string()), (2, "a".to_string()), (3, "b".to_string())]
    );
    assert_eq!(lookup(&cm, &index, &"a".to_string()), vec![0, 2]);
    assert_eq!(lookup(&cm, &index, &"b".to_string()), vec![3]);
    assert!(lookup(&cm, &index, &"c".to_string()).is_empty());
    assert!(lookup(&cm, &index, &String::new()).is_empty());
}

#[test]
fn proximity_bonus_decays_and_caps() {
    let mut ms = vec![
        m(10, 1, 990_000, 1),
        m(100, 1, 500_000, 1),
        m(35, 1, 500_000, 1),
        m(10, 1, 2_000_000, 1),
    ];
    apply_proximity_bonus(&mut ms, 11);
    assert_eq!(ms[0].score, SCORE_SCALE);
    assert_eq!(ms[1].score, 500_000);
    assert_eq!(ms[2].score, 500_000 + 1_000 * 25);
    assert_eq!(ms[3].score, SCORE_SCALE);
    // Recorded line 0: a match at index 0 (line 1) lies at distance 1.
    let mut unrecorded = vec![m(0, 1, 500_000, 1), m(60, 1, 500_000, 1)];
    apply_proximity_bonus(&mut unrecorded, 0);
    assert_eq!(unrecorded[0].score, 549_000);
    assert_eq!(unrecorded[1].score, 500_000);
}

#[test]
fn dedup_keeps_best_per_start_within_band() {
    let input = vec![
        m(3, 1, 500_000, 1),
        m(3, 2, 800_000, 1),
        m(7, 1, 790_000, 5),
        m(9, 1, 100_000, 1),
        m(7, 4, 790_000, 5),
    ];
    let once = deduplicate_matches(input);
    assert_eq!(once, vec![m(3, 2, 800_000, 1), m(7, 1, 790_000, 5)]);
    let twice = deduplicate_matches(once.clone());
    assert_eq!(twice, once);
    assert!(deduplicate_matches(Vec::new()).is_empty());
}

#[test]
fn dedup_orders_by_score_density_then_start() {
    let input = vec![m(9, 1, 900_000, 1), m(4, 1, 900_000, 1), m(6, 1, 900_000, 2)];
    let out = deduplicate_matches(input);
    assert_eq!(out, vec![m(6, 1, 900_000, 2), m(4, 1, 900_000, 1), m(9, 1, 900_000, 1)]);
}

#[test]
fn fenced_diff_parses_like_unwrapped() {
    let wrapped = "Sure, here it is:\n```diff\n--- a/t.txt\n+++ b/t.txt\n@@ -1,1 +1,1 @@\n-old\n+new\n```\nDone.";
    let plain = "--- a/t.txt\n+++ b/t.txt\n@@ -1,1 +1,1 @@\n-old\n+new";
    let a = parse_patch(wrapped).unwrap();
    let b = parse_patch(plain).unwrap();
    assert_eq!(a, b);
    assert_eq!(a.diffs.len(), 1);
    assert_eq!(a.diffs[0].old_file, "t.txt");
    assert_eq!(a.diffs[0].hunks[0].lines, vec![
        Line::Removal("old".to_string()),
        Line::Addition("new".to_string()),
    ]);
}

#[test]
fn malformed_header_is_an_error() {
    let err = parse_patch("--- a/x\n+++ b/x\n@@ bogus @@\n-a\n+b").unwrap_err();
    assert_eq!(err.line_number, 3);
    assert_eq!(err.line_content, "@@ bogus @@");
    assert_eq!(err.message, "Malformed hunk header");
}

#[test]
fn oversized_header_number_is_an_error() {
    let err = parse_patch("@@ -99999999999999999999999 +1 @@\n-a\n+b").unwrap_err();
    assert_eq!(err.line_number, 1);
    assert_eq!(
        err.message,
        "Invalid number in hunk header: number too large to fit in target type"
    );
}

#[test]
fn header_counts_default_to_one() {
    let patch = parse_patch("@@ -3 +4 @@\n x").unwrap();
    let h = &patch.diffs[0].hunks[0];
    assert_eq!((h.old_start, h.old_lines, h.new_start, h.new_lines), (3, 1, 4, 1));
    let patch = parse_patch("@@@ -3,7 +4,9 @@ fn tail()\n x").unwrap();
    let h = &patch.diffs[0].hunks[0];
    assert_eq!((h.old_start, h.old_lines, h.new_start, h.new_lines), (3, 7, 4, 9));
}

#[test]
fn lone_old_header_marks_deletion() {
    let patch = parse_patch("--- a/gone.txt\n@@ -1 +0,0 @@\n-x").unwrap();
    assert_eq!(patch.diffs[0].old_file, "gone.txt");
    assert_eq!(patch.diffs[0].new_file, "/dev/null");
    let patch = parse_patch("--- a/gone.txt\n+++ dev/null\n@@ -1 +0,0 @@\n-x").unwrap();
    assert_eq!(patch.diffs[0].new_file, "/dev/null");
}

#[test]
fn header_paths_take_last_word() {
    let patch = parse_patch("--- a/src/x.rs\t2024-01-01 10:00\n+++ b/src/x.rs 2024-01-02\n@@ -1 +1 @@\n-a\n+b").unwrap();
    assert_eq!(patch.diffs[0].old_file, "10:00");
    let patch = parse_patch("--- old/x.rs\n+++ new/x.rs\n@@ -1 +1 @@\n-a\n+b").unwrap();
    assert_eq!(patch.diffs[0].old_file, "old/x.rs");
    assert_eq!(patch.diffs[0].new_file, "new/x.rs");
}

#[test]
fn several_files_and_empty_ones_dropped() {
    let text = "diff --git a/x b/x\nindex 123..456\n--- a/x\n+++ b/x\n@@ -1 +1 @@\n-a\n+b\ndiff --git a/y b/y\ndiff --git a/z b/z\n--- a/z\n+++ b/z\n@@ -2 +2 @@\n-c\n+d";
    let patch = parse_patch(text).unwrap();
    assert_eq!(patch.diffs.len(), 2);
    assert_eq!(patch.diffs[0].new_file, "x");
    assert_eq!(patch.diffs[1].new_file, "z");
}

#[test]
fn missing_context_marker_is_restored() {
    let patch = parse_patch("@@ -1,2 +1,2 @@\ncontext here\n-old\n+new").unwrap();
    assert_eq!(patch.diffs[0].hunks[0].lines, vec![
        Line::Context("context here".to_string()),
        Line::Removal("old".to_string()),
        Line::Addition("new".to_string()),
    ]);
}

#[test]
fn invert_twice_is_identity() {
    let patch = parse_patch("--- a/f\n+++ b/g\n@@ -1,2 +3,4 @@\n ctx\n-old\n+new").unwrap();
    let inverted = patch.invert();
    assert_eq!(inverted.diffs[0].old_file, "g");
    assert_eq!(inverted.diffs[0].new_file, "f");
    let h = &inverted.diffs[0].hunks[0];
    assert_eq!((h.old_start, h.old_lines, h.new_start, h.new_lines), (3, 4, 1, 2));
    assert_eq!(h.lines, vec![
        Line::Context("ctx".to_string()),
        Line::Addition("old".to_string()),
        Line::Removal("new".to_string()),
    ]);
    let back: Patch = inverted.invert();
    assert_eq!(back, patch);
}

#[test]
fn resolution_follows_match_count_and_mode() {
    let exact = vec![m(0, 1, SCORE_SCALE, SCORE_SCALE)];
    let fuzzy = vec![m(0, 1, 850_000, SCORE_SCALE)];
    let two = vec![m(0, 1, 900_000, 1), m(4, 1, 900_000, 1)];
    assert_eq!(resolve_matches(&exact, false, false, false), Resolution::Apply);
    assert_eq!(resolve_matches(&exact, false, false, true), Resolution::Confirm);
    assert_eq!(resolve_matches(&fuzzy, false, false, false), Resolution::Confirm);
    assert_eq!(resolve_matches(&fuzzy, true, false, false), Resolution::Apply);
    assert_eq!(resolve_matches(&two, false, false, false), Resolution::Choose);
    assert_eq!(resolve_matches(&two, false, true, false), Resolution::FailAmbiguous);
    assert_eq!(resolve_matches(&Vec::new(), false, false, false), Resolution::SkipOrAbort);
    assert_eq!(resolve_matches(&Vec::new(), true, false, false), Resolution::FailNoMatch);
    assert!(needs_review(&fuzzy[0]));
    assert!(!needs_review(&two[0]));
}

fn anchored_source(fillers: usize) -> Vec<String> {
    let mut lines = vec!["fn top_anchor_line() {".to_string()];
    for i in 0..fillers {
        lines.push(format!("x{i}"));
    }
    lines.push("} // bottom anchor line".to_string());
    lines
}

fn anchored_hunk() -> Hunk {
    Hunk {
        lines: vec![
            Line::Context("fn top_anchor_line() {".to_string()),
            Line::Removal("something".to_string()),
            Line::Context("} // bottom anchor line".to_string()),
        ],
        ..Default::default()
    }
}

#[test]
fn anchor_heuristic_within_window() {
    let source = anchored_source(10);
    let (cm, index) = build_lookup_tables(&source);
    let matches = find_hunk_location(&source, &cm, &index, &anchored_hunk(), 2, 500_000);
    // Density 3/12; LCS 2 of 3; indentation bonus; the bonus at distance 1
    // from recorded line 0.
    assert_eq!(matches, vec![m(0, 12, 640_666, 250_000)]);
    let stricter = find_hunk_location(&source, &cm, &index, &anchored_hunk(), 2, 700_000);
    assert!(stricter.is_empty());
}

#[test]
fn anchor_heuristic_window_limit() {
    // The window is 3 anchor lines plus 10: a bottom anchor 13 lines below the
    // top one lies outside it.
    let source = anchored_source(12);
    let (cm, index) = build_lookup_tables(&source);
    let matches = find_hunk_location(&source, &cm, &index, &anchored_hunk(), 2, 0);
    assert!(matches.is_empty());
}

#[test]
fn empty_input_parses_to_empty_patch() {
    assert_eq!(parse_patch("").unwrap(), Patch::default());
    assert_eq!(parse_patch("just some prose\nwithout a diff").unwrap(), Patch::default());
}

#[test]
fn compact_span_score_is_capped() {
    let source = to_lines("  alpha_top_line_long\n  beta_bottom_line_long");
    let hunk = Hunk {
        lines: vec![
            Line::Context("alpha_top_line_long".to_string()),
            Line::Removal("x1".to_string()),
            Line::Removal("x2".to_string()),
            Line::Removal("x3".to_string()),
            Line::Context("beta_bottom_line_long".to_string()),
        ],
        ..Default::default()
    };
    let (cm, index) = build_lookup_tables(&source);
    // 0.7 * 2/5 + 0.3 * 5/2 is 1.03, capped at 1.0.
    let matches = find_hunk_location(&source, &cm, &index, &hunk, 2, 700_000);
    assert_eq!(matches, vec![m(0, 2, SCORE_SCALE, 2_500_000)]);
    let above_one = find_hunk_location(&source, &cm, &index, &hunk, 2, SCORE_SCALE + 1);
    assert!(above_one.is_empty());
}

#[test]
fn lone_dev_null_old_header_gets_sentinel_new_path() {
    let patch = parse_patch("--- /dev/null\n@@ -0,0 +1 @@\n+x").unwrap();
    assert_eq!(patch.diffs[0].old_file, "/dev/null");
    assert_eq!(patch.diffs[0].new_file, "/dev/null");
}

#[test]
fn normalize_treats_unicode_whitespace_as_separator() {
    assert_eq!(normalize_line("a\u{3000}b\u{a0}(c)"), "a b ( c )");
    assert_eq!(normalize_line("\u{a0}\u{2003}\u{85}"), "");
}

#[test]
fn headerless_hunk_gets_bonus_from_line_zero() {
    let source = to_lines("  foo()\n  bar()");
    let hunk = Hunk {
        lines: vec![Line::Context("foo()".to_string()), Line::Removal("bar()".to_string())],
        ..Default::default()
    };
    // Recorded line 0; the match at index 0 lies at distance 1.
    assert_eq!(locate(&source, &hunk, 1), vec![m(0, 2, 949_000, SCORE_SCALE)]);
}
