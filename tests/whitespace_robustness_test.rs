use mend::parser::parse_patch;
use mend::patcher::{self, HunkMatch};
use mend::scoring::SCORE_SCALE;

fn to_lines(s: &str) -> Vec<String> {
    s.lines().map(String::from).collect()
}

#[test]
fn test_intra_line_whitespace_mismatch() {
    let original_lines = to_lines(
        r#"
void func( int a, int b ) {
    return a + b;
}
"#,
    );

    let diff_content = r#"
@@ -1,3 +1,3 @@
 void func(int a, int b) {
-    return a + b;
+    return a * b;
 }
"#;

    let patch = parse_patch(diff_content).unwrap();
    let hunk = &patch.diffs[0].hunks[0];

    let (clean_source_map, clean_index_map) = patcher::build_lookup_tables(&original_lines);

    let matches: Vec<HunkMatch> = patcher::find_hunk_location(
        &original_lines,
        &clean_source_map,
        &clean_index_map,
        hunk,
        1,
        700_000,
    );

    if matches.is_empty() {
        panic!("FAILED: Intra-line whitespace mismatch still causes failure at Level 1.");
    } else {
        println!(
            "SUCCESS: Found {} match(es)! Best score: {}",
            matches.len(),
            matches[0].score
        );
        assert!(matches[0].score as f64 / SCORE_SCALE as f64 >= 0.9);
    }
}
