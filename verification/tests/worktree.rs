use std::path::Path;

use ghola::snapshot::Files;
use ghola::worktree::{apply, is_safe_path, path_components, safe_join, Plan, WorktreeError};

fn files(items: &[(&str, &str)]) -> Files {
    let mut out = Files::new();
    for (k, v) in items {
        out.insert(k.as_bytes().to_vec(), v.as_bytes().to_vec());
    }
    out
}

#[test]
fn unsafe_paths_are_rejected_before_anything_is_written() {
    let ok = files(&[("fine", "1")]);
    for bad in [
        "../evil",
        "a/../../evil",
        "/abs",
        "a//b",
        "./a",
        "a\\b",
        "c:x",
        ".ghola/x",
        "",
    ] {
        let mut to = ok.clone();
        to.insert(bad.as_bytes().to_vec(), b"x".to_vec());
        assert!(
            matches!(apply(&Files::new(), &to), Err(WorktreeError::UnsafePath(_))),
            "{bad:?}"
        );
    }
}

#[test]
fn safe_paths_join_component_by_component() {
    let p = safe_join(Path::new("/root"), b"src/lib/x.rs").unwrap();
    assert_eq!(p, Path::new("/root/src/lib/x.rs"));
    assert!(is_safe_path(b"a.txt"));
    assert!(is_safe_path(b".gholax/y"));
    assert!(is_safe_path(b"x/.ghola"));
    assert!(!is_safe_path(b".ghola"));
    assert!(!is_safe_path(b"a/"));
    assert!(!is_safe_path(b"a\0b"));
    assert!(!is_safe_path(&[0xff]));
}

#[test]
fn the_error_names_the_first_unsafe_path() {
    let from = files(&[("a/../b", "1")]);
    let to = files(&[("..", "1")]);
    assert_eq!(
        apply(&from, &to),
        Err(WorktreeError::UnsafePath("a/../b".to_string()))
    );
}

#[test]
fn apply_touches_only_differing_paths() {
    let a = files(&[("keep", "1"), ("gone", "2"), ("dir/old", "3"), ("edit", "x")]);
    let b = files(&[("keep", "1"), ("new", "4"), ("edit", "y")]);
    let plan = apply(&a, &b).unwrap();
    assert_eq!(
        plan,
        Plan {
            remove: vec![b"dir/old".to_vec(), b"gone".to_vec()],
            write: vec![
                (b"edit".to_vec(), b"y".to_vec()),
                (b"new".to_vec(), b"4".to_vec())
            ],
        }
    );
}

#[test]
fn path_components_splits_a_safe_path() {
    let c = path_components(b"src/lib/x.rs").unwrap();
    assert_eq!(c, vec![b"src".to_vec(), b"lib".to_vec(), b"x.rs".to_vec()]);
}

#[test]
fn path_components_refuses_an_escape() {
    match path_components(b"a/../b") {
        Err(WorktreeError::UnsafePath(p)) => assert_eq!(p, "a/../b"),
        other => panic!("unexpected {:?}", other),
    }
}
