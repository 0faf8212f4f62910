use mend::diff::{Hunk, Line};
use mend::parser::parse_patch;
use mend::patcher::{self, HunkMatch};
use mend::scoring::SCORE_SCALE;

fn to_lines(s: &str) -> Vec<String> {
    s.lines().map(String::from).collect()
}

fn score_as_float(m: &HunkMatch) -> f64 {
    m.score as f64 / SCORE_SCALE as f64
}

#[test]
fn patching_test_test_strict_patch_succeeds() {
    let original_lines = to_lines("line one\nline two\nline three");
    let diff_content = "@@ -1,3 +1,3 @@\n line one\n-line two\n+line two new\n line three";
    let expected = "line one\nline two new\nline three";

    let patch = parse_patch(diff_content).unwrap();
    let hunk = &patch.diffs[0].hunks[0];

    let (clean_source_map, clean_index_map) = patcher::build_lookup_tables(&original_lines);
    let matches: Vec<HunkMatch> = patcher::find_hunk_location(
        &original_lines,
        &clean_source_map,
        &clean_index_map,
        hunk,
        0,
        700_000,
    );

    assert_eq!(matches.len(), 1);
    assert_eq!(matches[0].score, SCORE_SCALE);
    assert_eq!(matches[0].start_index, 0);

    let result_lines = patcher::apply_hunk(
        &original_lines,
        hunk,
        matches[0].start_index,
        matches[0].matched_length,
    );
    let result_str = result_lines.join("\n");
    assert_eq!(result_str, expected);
}

#[test]
fn patching_test_test_fuzzy_patch_succeeds_when_strict_fails() {
    let original_lines = to_lines("header\n\nline one\n    line two\nline three");
    let diff_content = "@@ -1,3 +1,3 @@\n line one\n-line two\n+line two new\n line three";
    let expected = "header\n\nline one\nline two new\nline three";

    let patch = parse_patch(diff_content).unwrap();
    let hunk = &patch.diffs[0].hunks[0];

    let (clean_source_map, clean_index_map) = patcher::build_lookup_tables(&original_lines);
    let matches: Vec<HunkMatch> = patcher::find_hunk_location(
        &original_lines,
        &clean_source_map,
        &clean_index_map,
        hunk,
        1,
        700_000,
    );

    assert_eq!(matches.len(), 1);
    assert!((score_as_float(&matches[0]) - 0.9).abs() < 0.1);
    assert_eq!(matches[0].start_index, 2);

    let result_lines = patcher::apply_hunk(
        &original_lines,
        hunk,
        matches[0].start_index,
        matches[0].matched_length,
    );
    let result_str = result_lines.join("\n");
    assert_eq!(result_str, expected);
}

#[test]
fn test_anchor_point_heuristic_succeeds() {
    let original_lines = to_lines("line one\nSOMETHING UNEXPECTED\nline three");
    let hunk = Hunk {
        lines: vec![
            Line::Context("line one".to_string()),
            Line::Removal("line two".to_string()),
            Line::Addition("line two new".to_string()),
            Line::Context("line three".to_string()),
        ],
        ..Default::default()
    };
    let expected = "line one\nline two new\nline three";

    let (clean_source_map, clean_index_map) = patcher::build_lookup_tables(&original_lines);
    let matches: Vec<HunkMatch> = patcher::find_hunk_location(
        &original_lines,
        &clean_source_map,
        &clean_index_map,
        &hunk,
        2,
        700_000,
    );

    assert_eq!(matches.len(), 1);
    assert!(score_as_float(&matches[0]) >= 0.7);
    assert_eq!(matches[0].start_index, 0);

    let result_lines = patcher::apply_hunk(
        &original_lines,
        &hunk,
        matches[0].start_index,
        matches[0].matched_length,
    );
    let result_str = result_lines.join("\n");
    assert_eq!(result_str, expected);
}
