use ghola::snapshot::Files;
use ghola::tree_merge::{merge_files, ConflictKind, PathConflict, TreeMerge};

fn f(items: &[(&str, &str)]) -> Files {
    let mut out = Files::new();
    for (k, v) in items {
        out.insert(k.as_bytes().to_vec(), v.as_bytes().to_vec());
    }
    out
}

fn merge(b: &[(&str, &str)], o: &[(&str, &str)], t: &[(&str, &str)]) -> TreeMerge {
    merge_files(&f(b), &f(o), &f(t), "ours", "theirs")
}

#[test]
fn independent_changes_in_different_files_combine() {
    let m = merge(
        &[("a", "1\n"), ("b", "2\n")],
        &[("a", "ONE\n"), ("b", "2\n")],
        &[("a", "1\n"), ("b", "TWO\n"), ("c", "new\n")],
    );
    assert!(m.conflicts.is_empty());
    assert_eq!(
        m.files,
        f(&[("a", "ONE\n"), ("b", "TWO\n"), ("c", "new\n")])
    );
}

#[test]
fn deletions_apply_when_the_other_side_did_not_touch_the_file() {
    let m = merge(
        &[("a", "1\n"), ("b", "2\n")],
        &[("b", "2\n")],
        &[("a", "1\n"), ("b", "2\n")],
    );
    assert!(m.conflicts.is_empty());
    assert_eq!(m.files, f(&[("b", "2\n")]));
    let both = merge(&[("a", "1\n")], &[], &[]);
    assert!(both.files.is_empty() && both.conflicts.is_empty());
}

#[test]
fn the_same_file_edited_in_different_lines_merges_cleanly() {
    let m = merge(
        &[("f", "a\nb\nc\nd\ne\n")],
        &[("f", "A\nb\nc\nd\ne\n")],
        &[("f", "a\nb\nc\nd\nE\n")],
    );
    assert!(m.conflicts.is_empty());
    assert_eq!(m.files, f(&[("f", "A\nb\nc\nd\nE\n")]));
}

#[test]
fn a_content_conflict_is_reported_and_marked() {
    let m = merge(&[("f", "x\n")], &[("f", "ours\n")], &[("f", "theirs\n")]);
    assert_eq!(
        m.conflicts,
        vec![PathConflict {
            path: b"f".to_vec(),
            kind: ConflictKind::Content
        }]
    );
    assert_eq!(
        m.files.get(b"f").unwrap(),
        &b"<<<<<<< ours\nours\n=======\ntheirs\n>>>>>>> theirs\n".to_vec()
    );
}

#[test]
fn both_adding_the_same_path_differently_is_a_conflict_identically_is_not() {
    let c = merge(&[], &[("n", "x\n")], &[("n", "y\n")]);
    assert_eq!(c.conflicts[0].kind, ConflictKind::BothAdded);
    assert!(merge(&[], &[("n", "x\n")], &[("n", "x\n")])
        .conflicts
        .is_empty());
}

#[test]
fn modify_versus_delete_conflicts_and_keeps_the_modified_file() {
    let m = merge(&[("f", "1\n")], &[], &[("f", "2\n")]);
    assert_eq!(
        m.conflicts[0].kind,
        ConflictKind::ModifyDelete { ours_deleted: true }
    );
    assert_eq!(m.files, f(&[("f", "2\n")]));
    let m = merge(&[("f", "1\n")], &[("f", "2\n")], &[]);
    assert_eq!(
        m.conflicts[0].kind,
        ConflictKind::ModifyDelete {
            ours_deleted: false
        }
    );
}

#[test]
fn binary_files_changed_on_both_sides_conflict_without_markers() {
    let mut b = Files::new();
    b.insert(b"img".to_vec(), vec![0, 1, 2]);
    let (mut o, mut t) = (b.clone(), b.clone());
    o.insert(b"img".to_vec(), vec![0, 9]);
    t.insert(b"img".to_vec(), vec![0, 8]);
    let m = merge_files(&b, &o, &t, "o", "t");
    assert_eq!(m.conflicts[0].kind, ConflictKind::Binary);
    assert_eq!(
        m.files.get(b"img").unwrap(),
        &vec![0, 9],
        "keeps ours, no markers injected"
    );
}

#[test]
fn conflicts_are_listed_in_path_order() {
    let m = merge(
        &[("z", "1\n"), ("a", "1\n")],
        &[("z", "2\n"), ("a", "2\n")],
        &[("z", "3\n"), ("a", "3\n")],
    );
    let paths: Vec<Vec<u8>> = m.conflicts.iter().map(|c| c.path.clone()).collect();
    assert_eq!(paths, vec![b"a".to_vec(), b"z".to_vec()]);
}

#[test]
fn snapshots_keep_paths_sorted_and_insert_replaces() {
    let mut s = f(&[("b", "1"), ("a", "2")]);
    s.insert(b"b".to_vec(), b"3".to_vec());
    let listed: Vec<(Vec<u8>, Vec<u8>)> = s.entries().to_vec();
    assert_eq!(
        listed,
        vec![(b"a".to_vec(), b"2".to_vec()), (b"b".to_vec(), b"3".to_vec())]
    );
    assert_eq!(s.len(), 2);
    assert!(s.get(b"c").is_none());
}
