use mend::parser;

#[test]
fn test_parses_file_creation_paths() {
    let diff_content = r#"
--- /dev/null
+++ b/new_file.txt
@@ -0,0 +1,2 @@
+Hello
+World
"#;
    let patch = parser::parse_patch(diff_content).unwrap();

    assert_eq!(patch.diffs.len(), 1);
    let file_diff = &patch.diffs[0];
    assert_eq!(file_diff.old_file, "/dev/null");
    assert_eq!(file_diff.new_file, "new_file.txt");
}

#[test]
fn test_parses_diff_with_no_headers() {
    let diff_content = r#"
@@ -1,3 +1,3 @@
 line one
-line two
+line two new
 line three
"#;
    let patch = parser::parse_patch(diff_content).unwrap();

    assert_eq!(patch.diffs.len(), 1);
    let file_diff = &patch.diffs[0];
    assert!(file_diff.old_file.is_empty());
    assert!(file_diff.new_file.is_empty());
    assert_eq!(file_diff.hunks.len(), 1);
}
