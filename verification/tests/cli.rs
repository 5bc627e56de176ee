use ghola::cli::{
    clobbered, dirty, opt, positionals, short, status_of, tracked_part, BranchError, CommitError, Env, RevError,
};
use ghola::object::ObjectId;
use ghola::repo::{Head, Repo};
use ghola::snapshot::Files;

fn args(items: &[&str]) -> Vec<String> {
    items.iter().map(|s| s.to_string()).collect()
}

fn files(items: &[(&str, &str)]) -> Files {
    let mut out = Files::new();
    for (k, v) in items {
        out.insert(k.as_bytes().to_vec(), v.as_bytes().to_vec());
    }
    out
}

fn keys(f: &Files) -> Vec<String> {
    f.paths().iter().map(|p| String::from_utf8_lossy(p).into_owned()).collect()
}

/// A repository with a three-commit main line, HEAD on `main`.
fn history() -> (Repo, Vec<ObjectId>) {
    let mut r = Repo::new();
    r.set_head(&Head::Branch("main".into())).unwrap();
    let mut ids = Vec::new();
    for (i, text) in ["one", "two", "three"].iter().enumerate() {
        let tree = r.write_tree(&files(&[("f", text)])).unwrap();
        let id = r.commit_tree(tree, text, "t", i as u64 + 1).unwrap();
        ids.push(id);
    }
    (r, ids)
}

#[test]
fn env_timestamp_overrides_the_clock() {
    let fixed = Env { timestamp: Some(42), author: None };
    assert_eq!(fixed.now(1000), 42);
    let clock = Env { timestamp: None, author: Some("a".into()) };
    assert_eq!(clock.now(1000), 1000);
}

#[test]
fn opt_takes_the_value_after_the_first_flag() {
    let a = args(&["commit", "-m", "first", "-m", "second"]);
    assert_eq!(opt(&a, "-m"), Some("first".to_string()));
    assert_eq!(opt(&a, "--author"), None);
    assert_eq!(opt(&args(&["commit", "-m"]), "-m"), None);
}

#[test]
fn positionals_skip_flags_and_their_values() {
    let a = args(&["../origin", "--loss", "0.2", "main", "--force", "--seed", "7", "x"]);
    assert_eq!(positionals(&a), args(&["../origin", "main", "x"]));
    assert_eq!(positionals(&args(&["-m", "msg"])), args(&["-m", "msg"]));
}

#[test]
fn short_is_seven_hex_digits() {
    let id = ObjectId::of(b"x");
    assert_eq!(short(&id), id.to_hex()[..7].to_string());
    assert_eq!(short(&id).len(), 7);
}

#[test]
fn revisions_resolve_head_branches_prefixes_and_steps_back() {
    let (mut r, ids) = history();
    assert_eq!(r.resolve("HEAD").unwrap(), ids[2]);
    assert_eq!(r.resolve("main").unwrap(), ids[2]);
    assert_eq!(r.resolve("HEAD~1").unwrap(), ids[1]);
    assert_eq!(r.resolve("main~+2").unwrap(), ids[0]);
    assert_eq!(r.resolve("HEAD~0").unwrap(), ids[2]);
    let hex = ids[1].to_hex();
    assert_eq!(r.resolve(&hex[..8]).unwrap(), ids[1]);
    assert_eq!(r.resolve(&hex[..8].to_uppercase()).unwrap(), ids[1]);
    assert!(matches!(r.resolve("HEAD~3"), Err(RevError::TooShort)));
    assert!(matches!(r.resolve("HEAD~x"), Err(RevError::BadCount)));
    assert!(matches!(r.resolve("HEAD~-1"), Err(RevError::BadCount)));
    assert!(matches!(r.resolve("nosuchthing"), Err(RevError::Unknown)));
    assert!(matches!(r.resolve("abc"), Err(RevError::Unknown)));
    // A leading `~` is part of the name.
    assert!(matches!(r.resolve("~1"), Err(RevError::Unknown)));
    r.set_head(&Head::Branch("empty".into())).unwrap();
    assert!(matches!(r.resolve("HEAD"), Err(RevError::NoCommits)));
}

#[test]
fn a_blob_id_prefix_is_not_a_commit() {
    let (mut r, _) = history();
    let blob = r.put(&ghola::object::Object::Blob(b"loose".to_vec())).unwrap();
    assert!(matches!(r.resolve(&blob.to_hex()[..10]), Err(RevError::Unknown)));
}

#[test]
fn status_reports_added_deleted_and_modified_in_path_order() {
    let old = files(&[("a", "1"), ("b", "2"), ("c", "3")]);
    let new = files(&[("a", "1"), ("b", "22"), ("d/e", "4")]);
    let st = status_of(&old, &new);
    let lines: Vec<String> = st
        .entries()
        .iter()
        .map(|(p, t)| format!("{} {}", t[0] as char, String::from_utf8_lossy(p)))
        .collect();
    assert_eq!(lines, vec!["M b", "D c", "A d/e"]);
    assert!(status_of(&old, &old).is_empty());
}

#[test]
fn clobbered_lists_local_edits_a_move_would_overwrite() {
    let from = files(&[("f", "v2"), ("keep", "k"), ("same", "s")]);
    let to = files(&[("f", "v1"), ("keep", "k2"), ("same", "s")]);
    let now = files(&[("f", "local edit"), ("keep", "k"), ("same", "changed")]);
    assert_eq!(keys(&clobbered(&from, &to, &now)), vec!["f"]);
    assert!(clobbered(&from, &to, &from).is_empty());
}

#[test]
fn dirty_lists_changed_or_missing_tracked_files() {
    let head = files(&[("a", "1"), ("b", "2"), ("c", "3")]);
    let now = files(&[("a", "1"), ("b", "changed"), ("untracked", "x")]);
    assert_eq!(keys(&dirty(&head, &now)), vec!["b", "c"]);
}

#[test]
fn tracked_part_leaves_untracked_files_out() {
    let now = files(&[("a", "1"), ("b", "2"), ("mine", "x")]);
    let from = files(&[("a", "1")]);
    let to = files(&[("b", "0")]);
    let t = tracked_part(&now, &from, &to);
    assert_eq!(keys(&t), vec!["a", "b"]);
    assert_eq!(t.get(b"b").unwrap(), &b"2".to_vec());
}

#[test]
fn commit_tree_refuses_an_unchanged_tree_and_records_merge_parents() {
    let (mut r, ids) = history();
    let head_tree = r.commit_of(&ids[2]).unwrap().tree;
    assert!(matches!(r.commit_tree(head_tree, "again", "t", 9), Err(CommitError::NothingToCommit)));
    // While a merge is recorded, the same tree commits with two parents.
    r.set_merge_head(&ids[0]).unwrap();
    assert_eq!(r.merge_head(), Some(ids[0]));
    let m = r.commit_tree(head_tree, "resolved", "t", 9).unwrap();
    assert_eq!(r.commit_of(&m).unwrap().parents, vec![ids[2], ids[0]]);
    assert_eq!(r.merge_head(), None);
    assert_eq!(r.get_ref("main"), Some(m));
    assert_eq!(r.log(&m).unwrap(), vec![m, ids[2], ids[1], ids[0]]);
}

#[test]
fn the_first_commit_has_no_parents_and_a_detached_head_moves() {
    let mut r = Repo::new();
    let tree = r.write_tree(&Files::new()).unwrap();
    let c = r.commit_tree(tree, "root", "t", 1).unwrap();
    assert!(r.commit_of(&c).unwrap().parents.is_empty());
    assert_eq!(r.head().unwrap(), Some(Head::Detached(c)));
    let t2 = r.write_tree(&files(&[("x", "1")])).unwrap();
    let d = r.commit_tree(t2, "next", "t", 2).unwrap();
    assert_eq!(r.head_commit().unwrap(), Some(d));
    r.clear_merge_head().unwrap();
    assert_eq!(r.merge_head(), None);
}

#[test]
fn branches_are_created_at_head_once() {
    let (mut r, ids) = history();
    assert_eq!(r.create_branch("topic").unwrap(), ids[2]);
    assert!(matches!(r.create_branch("topic"), Err(BranchError::Exists)));
    assert!(matches!(r.create_branch("bad name"), Err(BranchError::Repo(_))));
    let mut empty = Repo::new();
    empty.set_head(&Head::Branch("main".into())).unwrap();
    assert!(matches!(empty.create_branch("x"), Err(BranchError::NoCommits)));
}

#[test]
fn checkout_targets_a_branch_or_a_detached_revision() {
    let (mut r, ids) = history();
    r.create_branch("topic").unwrap();
    let (head, id) = r.checkout_target("topic").unwrap();
    assert_eq!(head, Head::Branch("topic".into()));
    assert_eq!(id, ids[2]);
    let (head, id) = r.checkout_target("HEAD~2").unwrap();
    assert_eq!(head, Head::Detached(ids[0]));
    assert_eq!(id, ids[0]);
    assert!(r.checkout_target("nowhere").is_err());
}

#[test]
fn moving_head_follows_the_branch() {
    let (mut r, ids) = history();
    r.move_head_to(ids[0]).unwrap();
    assert_eq!(r.get_ref("main"), Some(ids[0]));
    r.set_head(&Head::Detached(ids[1])).unwrap();
    r.move_head_to(ids[2]).unwrap();
    assert_eq!(r.head().unwrap(), Some(Head::Detached(ids[2])));
    assert_eq!(r.get_ref("main"), Some(ids[0]));
}
