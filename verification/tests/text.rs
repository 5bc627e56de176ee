use ghola::text::{apply_text, diff_text, split_lines, unified};

#[test]
fn lines_keep_terminators_and_concatenate_back() {
    for s in ["", "a", "a\n", "a\nb", "a\n\nb\n", "\n\n"] {
        let joined: Vec<u8> = split_lines(s.as_bytes()).concat();
        assert_eq!(joined, s.as_bytes());
    }
    assert_eq!(split_lines(b"a\nb").len(), 2);
}

#[test]
fn a_missing_final_newline_is_a_real_difference() {
    let p = diff_text(b"x\ny", b"x\ny\n");
    assert_ne!(p.edit_distance(), 0);
    assert_eq!(apply_text(b"x\ny", &p).unwrap(), b"x\ny\n");
}

#[test]
fn lines_split_after_each_newline() {
    let ls = split_lines(b"a\n\nbc");
    assert_eq!(ls, vec![&b"a\n"[..], &b"\n"[..], &b"bc"[..]]);
    assert!(split_lines(b"").is_empty());
}

#[test]
fn a_text_patch_applied_to_other_text_fails() {
    let p = diff_text(b"a\nb\n", b"a\nc\n");
    assert!(apply_text(b"a\n", &p).is_err());
    assert_eq!(apply_text(b"a\nb\n", &p).unwrap(), b"a\nc\n");
}

#[test]
fn unified_matches_a_hand_checked_example() {
    let out = unified("a", "b", b"one\ntwo\nthree\n", b"one\n2\nthree\n", 3);
    assert_eq!(
        out,
        "--- a\n+++ b\n@@ -1,3 +1,3 @@\n one\n-two\n+2\n three\n"
    );
}

#[test]
fn identical_files_produce_no_diff() {
    assert_eq!(unified("a", "b", b"same\n", b"same\n", 3), "");
}

#[test]
fn distant_changes_make_separate_hunks_and_near_ones_merge() {
    let a: String = (1..=20).map(|i| format!("l{i}\n")).collect();
    let mut b = a.clone();
    b = b.replace("l2\n", "L2\n").replace("l19\n", "L19\n");
    let out = unified("a", "b", a.as_bytes(), b.as_bytes(), 1);
    assert_eq!(out.matches("@@ -").count(), 2, "{out}");
    let merged = unified("a", "b", a.as_bytes(), b.as_bytes(), 20);
    assert_eq!(merged.matches("@@ -").count(), 1);
}

#[test]
fn a_pure_insertion_at_the_top_uses_zero_start() {
    let out = unified("a", "b", b"", b"new\n", 3);
    assert_eq!(out, "--- a\n+++ b\n@@ -0,0 +1,1 @@\n+new\n");
}

#[test]
fn the_no_newline_marker_is_emitted() {
    let out = unified("a", "b", b"x", b"y", 3);
    assert!(out.contains("-x\n\\ No newline at end of file\n"), "{out}");
    assert!(out.contains("+y\n\\ No newline at end of file\n"), "{out}");
}

#[test]
fn hunks_whose_context_windows_merely_touch_are_merged() {
    let a = b"1\n2\n3\n4\n5\n6\n";
    let b = b"1\nX\n3\n4\nY\n6\n";
    assert_eq!(unified("a", "b", a, b, 1).matches("@@ -").count(), 1);
}

#[test]
fn hunk_headers_count_lines_on_each_side() {
    let out = unified("x", "y", b"a\nb\nc\nd\n", b"a\nc\nd\ne\n", 0);
    assert_eq!(out, "--- x\n+++ y\n@@ -2,1 +1,0 @@\n-b\n@@ -4,0 +4,1 @@\n+e\n");
}

#[test]
fn a_context_of_zero_shows_only_the_changes() {
    let out = unified("a", "b", b"1\n2\n3\n", b"1\nX\n3\n", 0);
    assert_eq!(out, "--- a\n+++ b\n@@ -2,1 +2,1 @@\n-2\n+X\n");
}

#[test]
fn unified_keeps_its_header_for_bytes_that_are_not_utf8() {
    let u = unified("old", "new", b"\xff\xfe\nsame\n", b"x\nsame\n", 3);
    assert!(u.starts_with("--- old\n+++ new\n@@ -"));
    assert!(u.contains('\u{FFFD}'));
    assert_eq!(unified("old", "new", b"\xff\n", b"\xff\n", 3), "");
}
