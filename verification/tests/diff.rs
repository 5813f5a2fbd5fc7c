use wicket_guard::diff::{parse, ParsedDiff};

#[test]
fn parses_simple_diff() {
    let diff = "\
diff --git a/LICENSE b/LICENSE
index abc..def 100644
--- a/LICENSE
+++ b/LICENSE
@@ -1,3 +1,3 @@
 context line
-old line
+new line
";
    let parsed = parse(diff);
    let changes = parsed.get("LICENSE").expect("LICENSE present");
    assert_eq!(changes.removed, vec!["old line"]);
    assert_eq!(changes.added, vec!["new line"]);
}

fn paths(p: &ParsedDiff) -> Vec<String> {
    p.files.iter().map(|(k, _)| k.clone()).collect()
}

#[test]
fn entries_come_in_path_order_and_merge() {
    let diff = "\
diff --git a/b.txt b/b.txt
+b1
diff --git a/a.txt b/a.txt
-a1
diff --git a/b.txt b/b.txt
+b2
";
    let parsed = parse(diff);
    assert_eq!(paths(&parsed), vec!["a.txt", "b.txt"]);
    let b = parsed.get("b.txt").unwrap();
    assert_eq!(b.added, vec!["b1", "b2"]);
    assert!(b.removed.is_empty());
    let a = parsed.get("a.txt").unwrap();
    assert_eq!(a.removed, vec!["a1"]);
    assert!(a.added.is_empty());
}

#[test]
fn crlf_and_lf_give_the_same_lines() {
    let lf = "diff --git a/x b/x\n+one\n-two\n";
    let crlf = "diff --git a/x b/x\r\n+one\r\n-two\r\n";
    let a = parse(lf);
    let b = parse(crlf);
    assert_eq!(paths(&a), paths(&b));
    assert_eq!(a.get("x").unwrap().added, b.get("x").unwrap().added);
    assert_eq!(a.get("x").unwrap().removed, vec!["two"]);
    assert_eq!(b.get("x").unwrap().removed, vec!["two"]);
}

#[test]
fn final_line_without_newline_counts() {
    let parsed = parse("diff --git a/x b/x\n+last");
    assert_eq!(parsed.get("x").unwrap().added, vec!["last"]);
    let parsed = parse("diff --git a/x b/x\n+last\r");
    assert_eq!(parsed.get("x").unwrap().added, vec!["last\r"]);
}

#[test]
fn lines_before_any_header_are_ignored() {
    let parsed = parse("+stray\n-stray\nplain\n");
    assert!(parsed.files.is_empty());
    assert!(parse("").files.is_empty());
}

#[test]
fn context_line_creates_an_empty_entry() {
    let parsed = parse("diff --git a/ctx b/ctx\n context only\n");
    assert!(parsed.contains_key("ctx"));
    let e = parsed.get("ctx").unwrap();
    assert!(e.added.is_empty() && e.removed.is_empty());
    let headers_only = parse("diff --git a/h b/h\nindex 1..2\n--- a/h\n+++ b/h\n@@ -1 +1 @@\n");
    assert!(!headers_only.contains_key("h"));
}

#[test]
fn meta_lines_are_skipped() {
    let diff = "\
diff --git a/old b/new
similarity index 90%
rename from old
rename to new
new file mode 100644
deleted file mode 100644
--- removed marker
+++ added marker
++kept
--kept
";
    let parsed = parse(diff);
    let e = parsed.get("old").unwrap();
    assert_eq!(e.added, vec!["+kept"]);
    assert_eq!(e.removed, vec!["-kept"]);
}

#[test]
fn header_path_stops_at_b_marker() {
    let parsed = parse("diff --git a/dir/with space b/dir/with space\n+x\n");
    assert!(parsed.contains_key("dir/with space"));
    let parsed = parse("diff --git a/no-marker\n+x\n");
    assert!(parsed.contains_key("no-marker"));
}

#[test]
fn default_diff_is_empty() {
    let d = ParsedDiff::default();
    assert!(d.files.is_empty());
    assert!(d.get("LICENSE").is_none());
    assert!(!d.contains_key("LICENSE"));
}

#[test]
fn joining_diffs_joins_their_files() {
    let a = "diff --git a/x b/x\n+x1\ndiff --git a/y b/y\n-y1\n";
    let b = "diff --git a/x b/x\n+x2\n-x3\ndiff --git a/z b/z\n+z1\n";
    let joined = parse(&format!("{a}{b}"));
    assert_eq!(paths(&joined), vec!["x", "y", "z"]);
    assert_eq!(joined.get("x").unwrap().added, vec!["x1", "x2"]);
    assert_eq!(joined.get("x").unwrap().removed, vec!["x3"]);
    assert_eq!(joined.get("y").unwrap().removed, vec!["y1"]);
    assert_eq!(joined.get("z").unwrap().added, vec!["z1"]);
}

#[test]
fn hunk_ranges_do_not_matter() {
    let one = parse("diff --git a/f b/f\n@@ -1,3 +1,3 @@\n+a\n@@ -9 +9 @@\n-b\n");
    let two = parse("diff --git a/f b/f\n@@ -100,1 +7,42 @@ nonsense\n+a\n@@\n-b\n");
    assert_eq!(paths(&one), paths(&two));
    assert_eq!(one.get("f").unwrap().added, two.get("f").unwrap().added);
    assert_eq!(one.get("f").unwrap().removed, two.get("f").unwrap().removed);
}
