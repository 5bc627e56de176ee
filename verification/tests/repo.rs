use ghola::object::{Object, ObjectId};
use ghola::repo::{obj_key, Head, Repo, RepoError};
use ghola::snapshot::Files;
use ghola::tree_merge::MergeOutcome;
use ghola::treediff::Change;

fn files(items: &[(&str, &str)]) -> Files {
    let mut out = Files::new();
    for (k, v) in items {
        out.insert(k.as_bytes().to_vec(), v.as_bytes().to_vec());
    }
    out
}

struct H {
    repo: Repo,
    tree: ObjectId,
    clock: u64,
}

impl H {
    fn new() -> H {
        let mut repo = Repo::new();
        let tree = repo.write_tree(&Files::new()).unwrap();
        H { repo, tree, clock: 0 }
    }
    fn commit(&mut self, name: &str, parents: &[ObjectId]) -> ObjectId {
        self.clock += 1;
        self.repo
            .write_commit(self.tree, parents.to_vec(), "t", name, self.clock)
            .unwrap()
    }
}

fn summary(changes: &[Change]) -> Vec<String> {
    changes
        .iter()
        .map(|c| match c {
            Change::Added { path, .. } => format!("A {}", String::from_utf8_lossy(path)),
            Change::Removed { path, .. } => format!("D {}", String::from_utf8_lossy(path)),
            Change::Modified { path, .. } => format!("M {}", String::from_utf8_lossy(path)),
        })
        .collect()
}

#[test]
fn objects_round_trip_and_writes_are_idempotent() {
    let mut r = Repo::new();
    let o = Object::Blob(b"hello".to_vec());
    let id = r.put(&o).unwrap();
    assert_eq!(r.put(&o).unwrap(), id);
    assert_eq!(r.stats().objects, 1);
    assert_eq!(r.get(&id).unwrap(), Some(o));
    assert!(r.has(&id));
    assert_eq!(r.get(&ObjectId::of(b"nope")).unwrap(), None);
    assert!(matches!(r.require(&ObjectId::of(b"nope")), Err(RepoError::Missing(_))));
}

#[test]
fn put_gives_the_id_of_the_encoding() {
    let mut r = Repo::new();
    let o = Object::Blob(b"hello".to_vec());
    assert_eq!(r.put(&o).unwrap(), o.id().unwrap());
}

#[test]
fn a_tampered_object_is_reported_corrupt_never_returned() {
    let mut r = Repo::new();
    let id = r.put(&Object::Blob(b"precious".to_vec())).unwrap();
    // Overwrite the stored value behind the repo's back.
    let mut raw = r.store().clone();
    let mut bad = Object::Blob(b"precious".to_vec()).encode().unwrap();
    *bad.last_mut().unwrap() ^= 1;
    raw.insert(obj_key(&id), bad);
    let r = Repo::from_store(raw);
    assert!(matches!(r.get(&id), Err(RepoError::Corrupt(c)) if c == id));
}

#[test]
fn commits_are_typed_on_read() {
    let mut r = Repo::new();
    let blob = r.put(&Object::Blob(vec![1])).unwrap();
    assert!(matches!(r.commit_of(&blob), Err(RepoError::WrongType(..))));
}

#[test]
fn refs_set_get_list_delete_and_validate() {
    let mut r = Repo::new();
    let a = ObjectId::of(b"a");
    r.set_ref("main", a).unwrap();
    r.set_ref("feature/x-1", a).unwrap();
    assert_eq!(r.get_ref("main"), Some(a));
    assert_eq!(
        r.refs().iter().map(|(n, _)| n.as_str()).collect::<Vec<_>>(),
        vec!["feature/x-1", "main"]
    );
    r.delete_ref("main").unwrap();
    assert_eq!(r.get_ref("main"), None);
    for bad in ["", "/a", "a/", "a//b", "a..b", "has space", "\u{fc}n\u{ef}"] {
        assert!(
            matches!(r.set_ref(bad, a), Err(RepoError::InvalidRefName(_))),
            "{bad:?}"
        );
    }
}

#[test]
fn head_states_and_resolution() {
    let mut r = Repo::new();
    assert_eq!(r.head().unwrap(), None);
    r.set_head(&Head::Branch("main".into())).unwrap();
    assert_eq!(r.head_commit().unwrap(), None, "unborn branch");
    let c = ObjectId::of(b"c");
    r.set_ref("main", c).unwrap();
    assert_eq!(r.head_commit().unwrap(), Some(c));
    let d = ObjectId::of(b"d");
    r.set_head(&Head::Detached(d)).unwrap();
    assert_eq!(r.head().unwrap(), Some(Head::Detached(d)));
    assert_eq!(r.head_commit().unwrap(), Some(d));
    assert!(r.set_head(&Head::Branch("bad name".into())).is_err());
}

#[test]
fn rewriting_an_existing_object_appends_nothing_to_disk() {
    let mut r = Repo::new();
    let o = Object::Blob(vec![7; 500]);
    r.put(&o).unwrap();
    let before = r.stats();
    r.put(&o).unwrap();
    r.put(&o).unwrap();
    assert_eq!(r.stats(), before, "an identical put must not append a record");
}

#[test]
fn history_deduplicates_without_storing_diffs_and_here_are_the_numbers() {
    let mut r = Repo::new();
    let mut files = Files::new();
    for i in 0..50usize {
        files.insert(format!("dir{}/file{i}.txt", i % 5).into_bytes(), vec![i as u8; 1024]);
    }
    let commits = 100usize;
    let mut roots = Vec::new();
    for c in 0..commits {
        let key = format!("dir{}/file{}.txt", (c % 50) % 5, c % 50).into_bytes();
        files.insert(key, vec![(c % 251) as u8 ^ 0x55; 1024]);
        roots.push(r.write_tree(&files).unwrap());
    }
    let stats = r.stats();
    let naive_bytes = commits * (50 * 1024);
    assert!(
        stats.bytes * 10 < naive_bytes,
        "deduplication should keep this under 10% of naive"
    );
    // Every historical snapshot is still fully readable: no diffs to replay.
    for (c, root) in roots.iter().enumerate() {
        assert_eq!(r.read_tree(root).unwrap().len(), 50, "commit {c}");
    }
}

#[test]
fn nested_files_round_trip() {
    let mut r = Repo::new();
    let f = files(&[
        ("a.txt", "1"),
        ("src/main.rs", "fn main(){}"),
        ("src/lib/x.rs", "x"),
        ("z", ""),
    ]);
    let id = r.write_tree(&f).unwrap();
    assert_eq!(r.read_tree(&id).unwrap(), f);
}

#[test]
fn the_same_contents_always_give_the_same_tree_id() {
    let mut r = Repo::new();
    let a = r.write_tree(&files(&[("x", "1"), ("d/y", "2")])).unwrap();
    let before = r.stats().objects;
    let b = r.write_tree(&files(&[("d/y", "2"), ("x", "1")])).unwrap();
    assert_eq!(a, b);
    assert_eq!(r.stats().objects, before);
}

#[test]
fn identical_files_and_directories_are_stored_once() {
    let mut r = Repo::new();
    r.write_tree(&files(&[("one/same.txt", "shared"), ("two/same.txt", "shared")]))
        .unwrap();
    assert_eq!(r.stats().objects, 3);
}

#[test]
fn an_empty_snapshot_is_the_empty_tree() {
    let mut r = Repo::new();
    let id = r.write_tree(&Files::new()).unwrap();
    assert_eq!(r.read_tree(&id).unwrap(), Files::new());
}

#[test]
fn invalid_paths_are_rejected() {
    let mut r = Repo::new();
    for bad in ["", "/a", "a/", "a//b", "./a", "a/../b"] {
        assert!(r.write_tree(&files(&[(bad, "x")])).is_err(), "{bad:?}");
    }
    assert!(r
        .write_tree(&files(&[("a", "file"), ("a/b", "under a file")]))
        .is_err());
}

#[test]
fn reading_a_tree_with_a_missing_blob_is_an_error() {
    let mut r = Repo::new();
    let id = r.write_tree(&files(&[("f", "content")])).unwrap();
    let mut store = r.store().clone();
    let blob = ObjectId::of(&Object::Blob(b"content".to_vec()).encode().unwrap());
    store.remove(&ghola::repo::obj_key(&blob));
    let r = Repo::from_store(store);
    assert!(matches!(r.read_tree(&id), Err(RepoError::Missing(_))));
}

#[test]
fn linear_history() {
    let mut h = H::new();
    let a = h.commit("a", &[]);
    let b = h.commit("b", &[a]);
    let c = h.commit("c", &[b]);
    assert_eq!(h.repo.log(&c).unwrap(), vec![c, b, a]);
    assert_eq!(h.repo.first_parent_chain(&c).unwrap(), vec![c, b, a]);
    assert!(h.repo.is_ancestor(&a, &c).unwrap());
    assert!(!h.repo.is_ancestor(&c, &a).unwrap());
    assert!(h.repo.is_ancestor(&b, &b).unwrap());
    assert_eq!(h.repo.merge_bases(&a, &c).unwrap(), vec![a]);
    let mut all = vec![a, b, c];
    all.sort();
    assert_eq!(h.repo.ancestors(&c).unwrap(), all);
}

#[test]
fn a_diamond_merge_has_the_fork_point_as_base_and_logs_topologically() {
    let mut h = H::new();
    let root = h.commit("root", &[]);
    let left = h.commit("left", &[root]);
    let right = h.commit("right", &[root]);
    let merge = h.commit("merge", &[left, right]);
    assert_eq!(h.repo.merge_bases(&left, &right).unwrap(), vec![root]);
    assert_eq!(h.repo.merge_base(&left, &right).unwrap(), Some(root));
    let log = h.repo.log(&merge).unwrap();
    assert_eq!(
        log,
        vec![merge, right, left, root],
        "newest independent branch first, root last"
    );
    assert_eq!(
        h.repo.first_parent_chain(&merge).unwrap(),
        vec![merge, left, root]
    );
}

#[test]
fn log_order_never_trusts_timestamps() {
    // The parent has a newer timestamp than its child (clock skew).
    let mut h = H::new();
    let parent = h.repo.write_commit(h.tree, vec![], "t", "parent", 1000).unwrap();
    let child = h.repo.write_commit(h.tree, vec![parent], "t", "child", 5).unwrap();
    assert_eq!(h.repo.log(&child).unwrap(), vec![child, parent]);
}

#[test]
fn log_breaks_equal_timestamps_by_the_greater_id() {
    let mut h = H::new();
    let root = h.repo.write_commit(h.tree, vec![], "t", "root", 1).unwrap();
    let x = h.repo.write_commit(h.tree, vec![root], "t", "x", 7).unwrap();
    let y = h.repo.write_commit(h.tree, vec![root], "t", "y", 7).unwrap();
    let top = h.repo.write_commit(h.tree, vec![x, y], "t", "top", 8).unwrap();
    let (hi, lo) = if x > y { (x, y) } else { (y, x) };
    assert_eq!(h.repo.log(&top).unwrap(), vec![top, hi, lo, root]);
}

#[test]
fn a_forged_entry_in_a_history_is_reported_as_corruption() {
    // A commit filed under an id that is not its hash is never trusted.
    let mut h = H::new();
    let c = h.commit("c", &[]);
    let raw = h.repo.raw(&c).unwrap();
    let fake = ObjectId::of(b"fake");
    let mut store = h.repo.store().clone();
    store.insert(obj_key(&fake), raw);
    let r = Repo::from_store(store);
    assert!(matches!(r.log(&fake), Err(RepoError::Corrupt(_))));
}

#[test]
fn a_criss_cross_merge_has_two_best_common_ancestors() {
    let mut h = H::new();
    let root = h.commit("root", &[]);
    let a = h.commit("a", &[root]);
    let b = h.commit("b", &[root]);
    let a2 = h.commit("a2", &[a, b]);
    let b2 = h.commit("b2", &[b, a]);
    let mut want = vec![a, b];
    want.sort();
    assert_eq!(h.repo.merge_bases(&a2, &b2).unwrap(), want);
    assert_eq!(h.repo.merge_bases(&b2, &a2).unwrap(), want);
    assert_eq!(h.repo.merge_base(&a2, &b2).unwrap(), Some(b));
}

#[test]
fn unrelated_histories_have_no_merge_base() {
    let mut h = H::new();
    let a = h.commit("a", &[]);
    let b = h.commit("b", &[]);
    assert!(h.repo.merge_bases(&a, &b).unwrap().is_empty());
    assert_eq!(h.repo.merge_base(&a, &b).unwrap(), None);
}

#[test]
fn when_one_side_is_an_ancestor_it_is_the_merge_base() {
    let mut h = H::new();
    let a = h.commit("a", &[]);
    let b = h.commit("b", &[a]);
    assert_eq!(h.repo.merge_bases(&a, &b).unwrap(), vec![a]);
    assert_eq!(h.repo.merge_bases(&b, &a).unwrap(), vec![a]);
    assert_eq!(h.repo.merge_bases(&b, &b).unwrap(), vec![b]);
}

#[test]
fn a_missing_parent_is_an_error_not_a_silent_truncation() {
    let mut h = H::new();
    let ghost = ObjectId::of(b"ghost");
    let c = h.commit("orphan", &[ghost]);
    assert!(matches!(h.repo.log(&c), Err(RepoError::Missing(_))));
    assert!(matches!(h.repo.ancestors(&c), Err(RepoError::Missing(_))));
    assert!(h.repo.first_parent_chain(&c).is_err());
    assert!(h.repo.merge_bases(&c, &c).is_err());
}

#[test]
fn reachable_covers_commits_parents_trees_and_blobs() {
    let mut r = Repo::new();
    let t1 = r.write_tree(&files(&[("a", "1"), ("d/b", "2")])).unwrap();
    let c1 = r.write_commit(t1, vec![], "x", "one", 1).unwrap();
    let t2 = r.write_tree(&files(&[("a", "1"), ("d/b", "3")])).unwrap();
    let c2 = r.write_commit(t2, vec![c1], "x", "two", 2).unwrap();
    let all = r.reachable(&[c2]).unwrap();
    assert!(all.contains(&c1) && all.contains(&c2) && all.contains(&t1) && all.contains(&t2));
    assert_eq!(all.len(), r.stats().objects);
    assert!(r.reachable(&[c1]).unwrap().len() < all.len());
    assert!(r.is_complete(&c2));
}

#[test]
fn a_missing_object_makes_the_closure_incomplete() {
    let mut r = Repo::new();
    let ghost = ObjectId::of(b"ghost");
    let c = r.write_commit(ghost, vec![], "x", "orphan", 1).unwrap();
    assert!(!r.is_complete(&c));
    assert!(matches!(r.reachable(&[c]), Err(RepoError::Missing(_))));
}

#[test]
fn put_raw_accepts_only_canonical_valid_objects() {
    let mut r = Repo::new();
    let bytes = Object::Blob(b"hello".to_vec()).encode().unwrap();
    let id = r.put_raw(&bytes).unwrap();
    assert_eq!(id, ObjectId::of(&bytes));
    assert_eq!(r.raw(&id).unwrap(), bytes);
    for bad in [vec![], vec![9, 9], vec![2, 1, 0, 0, 0]] {
        assert!(r.put_raw(&bad).is_err(), "{bad:?}");
    }
    assert_eq!(r.stats().objects, 1);
}

#[test]
fn added_removed_and_modified_files() {
    let mut r = Repo::new();
    let a = r
        .write_tree(&files(&[("keep", "1"), ("gone", "2"), ("d/x", "3"), ("d/y", "4")]))
        .unwrap();
    let b = r
        .write_tree(&files(&[("keep", "1"), ("new", "5"), ("d/x", "3"), ("d/y", "changed")]))
        .unwrap();
    assert_eq!(
        summary(&r.diff_trees(&a, &b).unwrap()),
        vec!["M d/y", "D gone", "A new"]
    );
    assert!(r.diff_trees(&a, &a).unwrap().is_empty());
}

#[test]
fn whole_directories_appear_and_disappear_file_by_file() {
    let mut r = Repo::new();
    let a = r
        .write_tree(&files(&[("f", "1"), ("old/a", "x"), ("old/sub/b", "y")]))
        .unwrap();
    let b = r.write_tree(&files(&[("f", "1"), ("fresh/c", "z")])).unwrap();
    assert_eq!(
        summary(&r.diff_trees(&a, &b).unwrap()),
        vec!["A fresh/c", "D old/a", "D old/sub/b"]
    );
}

#[test]
fn a_file_becoming_a_directory_and_back() {
    let mut r = Repo::new();
    let a = r.write_tree(&files(&[("x", "file")])).unwrap();
    let b = r.write_tree(&files(&[("x/inner", "now a dir")])).unwrap();
    assert_eq!(summary(&r.diff_trees(&a, &b).unwrap()), vec!["D x", "A x/inner"]);
    assert_eq!(summary(&r.diff_trees(&b, &a).unwrap()), vec!["A x", "D x/inner"]);
}

#[test]
fn a_missing_tree_is_an_error() {
    let mut r = Repo::new();
    let a = r.write_tree(&files(&[("f", "1")])).unwrap();
    assert!(matches!(
        r.diff_trees(&a, &ObjectId::of(b"nope")),
        Err(RepoError::Missing(_))
    ));
}

#[test]
fn unchanged_subtrees_are_skipped_without_being_read() {
    let mut files = Files::new();
    for i in 0..20usize {
        files.insert(format!("big/dir{}/f{i}", i % 4).into_bytes(), vec![i as u8; 64]);
    }
    files.insert(b"small.txt".to_vec(), b"v1".to_vec());
    let mut r = Repo::new();
    let ta = r.write_tree(&files).unwrap();
    files.insert(b"small.txt".to_vec(), b"v2".to_vec());
    let tb = r.write_tree(&files).unwrap();
    // Find the unchanged "big" subtree and every object beneath it.
    let Object::Tree(root) = r.require(&ta).unwrap() else {
        panic!()
    };
    let big_tree = root.get(b"big").unwrap().id;
    let Object::Tree(big) = r.require(&big_tree).unwrap() else {
        panic!()
    };
    let mut ids = vec![big_tree];
    for d in big.entries() {
        ids.push(d.id);
        let Object::Tree(sub) = r.require(&d.id).unwrap() else {
            panic!()
        };
        ids.extend(sub.entries().iter().map(|e| e.id));
    }
    // Destroy the whole unchanged subtree behind the repository's back.
    let mut raw = r.store().clone();
    for id in &ids {
        raw.remove(&obj_key(id));
    }
    let r = Repo::from_store(raw);
    assert!(
        r.read_tree(&ta).is_err(),
        "reading the full tree needs the missing objects"
    );
    let changes = r.diff_trees(&ta, &tb).unwrap();
    assert_eq!(
        changes.len(),
        1,
        "only small.txt changed, and the diff never touched big/"
    );
    assert_eq!(changes[0].path(), b"small.txt");
    assert_eq!(summary(&changes), vec!["M small.txt"]);
}

#[test]
fn change_path_names_the_file() {
    let c = Change::Modified {
        path: b"d/y".to_vec(),
        old: ObjectId::of(b"1"),
        new: ObjectId::of(b"2"),
    };
    assert_eq!(c.path(), b"d/y");
}

fn commit_files(r: &mut Repo, items: &[(&str, &str)], parents: Vec<ObjectId>, t: u64) -> ObjectId {
    let tree = r.write_tree(&files(items)).unwrap();
    r.write_commit(tree, parents, "t", "m", t).unwrap()
}

#[test]
fn commit_level_outcomes() {
    let mut r = Repo::new();
    let commit = |r: &mut Repo, items: &[(&str, &str)], parents: &[ObjectId], ts: u64| {
        let t = r.write_tree(&files(items)).unwrap();
        r.write_commit(t, parents.to_vec(), "a", &format!("c{ts}"), ts).unwrap()
    };
    let base = commit(&mut r, &[("a", "1\n"), ("b", "1\n")], &[], 1);
    let ours = commit(&mut r, &[("a", "OURS\n"), ("b", "1\n")], &[base], 2);
    let theirs = commit(&mut r, &[("a", "1\n"), ("b", "THEIRS\n")], &[base], 3);
    let clash = commit(&mut r, &[("a", "CLASH\n"), ("b", "1\n")], &[base], 4);

    assert_eq!(r.merge_commits(&ours, &ours, "m", "x", 9).unwrap(), MergeOutcome::AlreadyUpToDate);
    assert_eq!(r.merge_commits(&ours, &base, "m", "x", 9).unwrap(), MergeOutcome::AlreadyUpToDate);
    assert_eq!(r.merge_commits(&base, &ours, "m", "x", 9).unwrap(), MergeOutcome::FastForward(ours));

    let MergeOutcome::Merged(m) = r.merge_commits(&ours, &theirs, "m", "merge", 9).unwrap() else {
        panic!("expected a clean merge");
    };
    let mc = r.commit_of(&m).unwrap();
    assert_eq!(mc.parents, vec![ours, theirs]);
    assert_eq!(r.read_tree(&mc.tree).unwrap(), files(&[("a", "OURS\n"), ("b", "THEIRS\n")]));

    let MergeOutcome::Conflicts(tm) = r.merge_commits(&ours, &clash, "m", "x", 9).unwrap() else {
        panic!("expected a conflict");
    };
    assert_eq!(tm.conflicts.len(), 1);
    assert_eq!(tm.conflicts[0].path, b"a");
}

#[test]
fn unrelated_histories_merge_against_an_empty_base() {
    let mut r = Repo::new();
    let t1 = r.write_tree(&files(&[("x", "1\n")])).unwrap();
    let t2 = r.write_tree(&files(&[("y", "2\n")])).unwrap();
    let a = r.write_commit(t1, vec![], "a", "a", 1).unwrap();
    let b = r.write_commit(t2, vec![], "a", "b", 2).unwrap();
    let MergeOutcome::Merged(m) = r.merge_commits(&a, &b, "m", "join", 3).unwrap() else {
        panic!()
    };
    assert_eq!(
        r.read_tree(&r.commit_of(&m).unwrap().tree).unwrap(),
        files(&[("x", "1\n"), ("y", "2\n")])
    );
}

#[test]
fn a_snapshot_reads_back_from_its_bytes() {
    let f = files(&[("a", "1"), ("d/e", ""), ("z", "last")]);
    let b = f.to_bytes();
    assert_eq!(Files::from_bytes(&b).unwrap(), f);
    assert_eq!(Files::from_bytes(&[]).unwrap(), Files::new());
    // Truncated, or paths out of order, is refused.
    assert!(Files::from_bytes(&b[..b.len() - 1]).is_none());
    let mut swapped = files(&[("z", "last")]).to_bytes();
    swapped.extend(files(&[("a", "1")]).to_bytes());
    assert!(Files::from_bytes(&swapped).is_none());
}

#[test]
fn a_whole_repository_survives_being_written_out_and_read_back() {
    let mut r = Repo::new();
    let t = r.write_tree(&files(&[("x", "1")])).unwrap();
    let c = r.write_commit(t, vec![], "a", "m", 1).unwrap();
    r.set_ref("main", c).unwrap();
    r.set_head(&Head::Branch("main".into())).unwrap();
    let back = Repo::from_store(Files::from_bytes(&r.store().to_bytes()).unwrap());
    assert_eq!(back.head_commit().unwrap(), Some(c));
    assert_eq!(back.object_ids(), r.object_ids());
    assert_eq!(back.read_tree(&t).unwrap(), files(&[("x", "1")]));
}

#[test]
fn merge_bases_do_not_depend_on_the_order_of_the_sides() {
    let mut h = H::new();
    let root = h.commit("root", &[]);
    let a = h.commit("a", &[root]);
    let b = h.commit("b", &[root]);
    let a2 = h.commit("a2", &[a, b]);
    let b2 = h.commit("b2", &[b, a]);
    assert_eq!(h.repo.merge_bases(&a2, &b2).unwrap(), h.repo.merge_bases(&b2, &a2).unwrap());
    assert_eq!(h.repo.merge_bases(&a, &b2).unwrap(), h.repo.merge_bases(&b2, &a).unwrap());
}

#[test]
fn diffing_the_other_way_swaps_additions_and_removals() {
    let mut r = Repo::new();
    let a = r.write_tree(&files(&[("keep", "k"), ("gone", "g"), ("d/x", "1"), ("f", "file")])).unwrap();
    let b = r.write_tree(&files(&[("keep", "k"), ("new", "n"), ("d/x", "2"), ("f/inner", "dir")])).unwrap();
    let forward = summary(&r.diff_trees(&a, &b).unwrap());
    let backward = summary(&r.diff_trees(&b, &a).unwrap());
    let flip = |s: &String| {
        let (tag, path) = s.split_at(1);
        let t = match tag {
            "A" => "D",
            "D" => "A",
            other => other,
        };
        format!("{t}{path}")
    };
    let mut flipped: Vec<String> = forward.iter().map(flip).collect();
    flipped.sort();
    let mut back = backward.clone();
    back.sort();
    assert_eq!(flipped, back);
    assert!(r.diff_trees(&a, &a).unwrap().is_empty());
}

#[test]
fn a_log_over_a_missing_parent_names_it() {
    let mut r = Repo::new();
    let gone = ObjectId::of(b"never stored");
    let tree = ObjectId::of(b"some tree");
    let c = r.write_commit(tree, vec![gone], "t", "orphan", 1).unwrap();
    match r.log(&c) {
        Err(RepoError::Missing(m)) => assert_eq!(m, gone),
        other => panic!("unexpected {:?}", other),
    }
}

#[test]
fn diff_trees_reports_exactly_the_files_the_snapshots_do_not_share() {
    let mut r = Repo::new();
    let a = files(&[("d0/f0", "a"), ("d0/d1/f1", "b"), ("f2", "c"), ("d2/f3", "d"), ("same/f", "s")]);
    let b = files(&[("d0/f0", "a"), ("d0/d1/f1", "B"), ("f4", "e"), ("d2/f3", "d"), ("same/f", "s"), ("d0/new", "n")]);
    let (ta, tb) = (r.write_tree(&a).unwrap(), r.write_tree(&b).unwrap());
    let got = summary(&r.diff_trees(&ta, &tb).unwrap());
    let mut want: Vec<String> = Vec::new();
    let mut paths: Vec<Vec<u8>> = a.entries().iter().map(|e| e.0.clone()).collect();
    for e in b.entries().iter() {
        if !paths.contains(&e.0) {
            paths.push(e.0.clone());
        }
    }
    paths.sort();
    for p in paths {
        let name = String::from_utf8_lossy(&p).to_string();
        match (a.get(&p), b.get(&p)) {
            (Some(_), None) => want.push(format!("D {name}")),
            (None, Some(_)) => want.push(format!("A {name}")),
            (Some(x), Some(y)) if x != y => want.push(format!("M {name}")),
            _ => {},
        }
    }
    assert_eq!(got, want);
    assert_eq!(got, vec!["M d0/d1/f1", "A d0/new", "D f2", "A f4"]);
}
