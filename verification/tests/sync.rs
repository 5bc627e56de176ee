use ghola::client::{fetch, fetch_payload, list_refs, merge_fetched, pull, push, put_payload, reply_body, update_payload, Direct, Remote, RequestLog, SyncError};
use ghola::object::{Object, ObjectId};
use ghola::repo::Repo;
use ghola::server::{plan, serve};
use ghola::snapshot::Files;
use ghola::tree_merge::MergeOutcome;
use ghola::wire::{R, W, FETCH, LIST_REFS, PUT_OBJECTS, UPDATE_REF};

/// Builds `commits` commits on `main`, each editing one of `nfiles` files,
/// and returns the tip.
fn history(r: &mut Repo, commits: usize, nfiles: usize, salt: u64) -> ObjectId {
    let mut files = Files::new();
    let mut parent: Vec<ObjectId> = r.get_ref("main").into_iter().collect();
    let mut tip = ObjectId::of(b"none");
    for c in 0..commits {
        let f = (c * 7 + salt as usize) % nfiles;
        files.insert(
            format!("dir{}/file{f}.txt", f % 3).into_bytes(),
            format!("content {salt} {c} {}\n", "x".repeat(50 + (c * 13) % 400)).into_bytes(),
        );
        let tree = r.write_tree(&files).unwrap();
        tip = r
            .write_commit(tree, parent.clone(), "t", &format!("c{c}"), c as u64 + 1)
            .unwrap();
        parent = vec![tip];
        r.set_ref("main", tip).unwrap();
    }
    tip
}

fn ids(r: &Repo) -> Vec<ObjectId> {
    r.object_ids()
}

#[test]
fn push_to_an_empty_remote_then_fetch_into_a_fresh_repo_reproduces_everything() {
    let mut alice = Repo::new();
    let mut server = Repo::new();
    let mut bob = Repo::new();
    let tip = history(&mut alice, 12, 6, 1);

    let report = push(&mut alice, &mut Direct::new(&mut server), "main", false).unwrap();
    assert_eq!(report.objects, ids(&alice).len());
    assert_eq!(server.get_ref("main"), Some(tip));
    assert_eq!(ids(&server), ids(&alice));

    let f = fetch(&mut bob, &mut Direct::new(&mut server), "origin").unwrap();
    assert_eq!(f.objects, ids(&alice).len());
    assert_eq!(bob.get_ref("remotes/origin/main"), Some(tip));
    assert_eq!(ids(&bob), ids(&alice));
    assert_eq!(
        bob.read_tree(&bob.commit_of(&tip).unwrap().tree).unwrap().len(),
        6
    );

    let again = fetch(&mut bob, &mut Direct::new(&mut server), "origin").unwrap();
    assert_eq!((again.objects, again.updated.len()), (0, 0));
}

#[test]
fn an_incremental_push_sends_only_what_is_new() {
    let mut alice = Repo::new();
    let mut server = Repo::new();
    history(&mut alice, 20, 8, 2);
    push(&mut alice, &mut Direct::new(&mut server), "main", false).unwrap();
    let main = alice.get_ref("main").unwrap();
    let mut files = alice.read_tree(&alice.commit_of(&main).unwrap().tree).unwrap();
    files.insert(b"dir0/file0.txt".to_vec(), b"a small change\n".to_vec());
    let tree = alice.write_tree(&files).unwrap();
    let tip = alice.write_commit(tree, vec![main], "t", "tiny", 99).unwrap();
    alice.set_ref("main", tip).unwrap();
    let report = push(&mut alice, &mut Direct::new(&mut server), "main", false).unwrap();
    assert!(report.objects <= 5, "sent {} objects", report.objects);
    assert_eq!(ids(&server), ids(&alice));
}

#[test]
fn a_non_fast_forward_push_is_refused_unless_forced() {
    let mut alice = Repo::new();
    let mut server = Repo::new();
    history(&mut alice, 4, 3, 3);
    push(&mut alice, &mut Direct::new(&mut server), "main", false).unwrap();
    let server_tip = history(&mut server, 2, 3, 99);
    let diverged = history(&mut alice, 2, 3, 7);
    assert_ne!(diverged, server_tip);
    let err = push(&mut alice, &mut Direct::new(&mut server), "main", false).unwrap_err();
    assert!(matches!(&err, SyncError::Remote(m) if m.contains("stale") || m.contains("non-fast-forward")));
    assert_eq!(server.get_ref("main"), Some(server_tip));
    push(&mut alice, &mut Direct::new(&mut server), "main", true).unwrap();
    assert_eq!(server.get_ref("main"), alice.get_ref("main"));
}

#[test]
fn pushing_a_missing_branch_is_a_protocol_error() {
    let mut alice = Repo::new();
    let mut server = Repo::new();
    assert!(matches!(
        push(&mut alice, &mut Direct::new(&mut server), "main", false),
        Err(SyncError::Protocol(_))
    ));
}

#[test]
fn pull_creates_fast_forwards_merges_and_reports_conflicts() {
    let mut server = Repo::new();
    let mut alice = Repo::new();
    let mut bob = Repo::new();
    let mut base_files = Files::new();
    base_files.insert(b"a".to_vec(), b"1\n2\n3\n".to_vec());
    base_files.insert(b"b".to_vec(), b"x\n".to_vec());
    let t = server.write_tree(&base_files).unwrap();
    let base = server.write_commit(t, vec![], "s", "base", 1).unwrap();
    server.set_ref("main", base).unwrap();

    let o = pull(&mut alice, &mut Direct::new(&mut server), "origin", "main", "alice", 2).unwrap();
    assert_eq!(o, MergeOutcome::FastForward(base));
    assert_eq!(alice.get_ref("main"), Some(base));

    pull(&mut bob, &mut Direct::new(&mut server), "origin", "main", "bob", 2).unwrap();
    let mut bf = base_files.clone();
    bf.insert(b"b".to_vec(), b"x\nbob\n".to_vec());
    let bt = bob.write_tree(&bf).unwrap();
    let bc = bob.write_commit(bt, vec![base], "bob", "bob edits b", 3).unwrap();
    bob.set_ref("main", bc).unwrap();

    let mut sf = base_files.clone();
    sf.insert(b"a".to_vec(), b"ONE\n2\n3\n".to_vec());
    let st = server.write_tree(&sf).unwrap();
    let sc = server.write_commit(st, vec![base], "s", "server edits a", 4).unwrap();
    server.set_ref("main", sc).unwrap();

    let o = pull(&mut alice, &mut Direct::new(&mut server), "origin", "main", "alice", 5).unwrap();
    assert_eq!(o, MergeOutcome::FastForward(sc));

    let m = match pull(&mut bob, &mut Direct::new(&mut server), "origin", "main", "bob", 6).unwrap() {
        MergeOutcome::Merged(m) => m,
        other => panic!("expected a clean merge, got {other:?}"),
    };
    assert_eq!(bob.commit_of(&m).unwrap().parents, vec![bc, sc]);
    let merged = bob.read_tree(&bob.commit_of(&m).unwrap().tree).unwrap();
    assert_eq!(merged.get(b"a").unwrap(), &b"ONE\n2\n3\n".to_vec());
    assert_eq!(merged.get(b"b").unwrap(), &b"x\nbob\n".to_vec());
    assert_eq!(bob.get_ref("main"), Some(m));

    assert_eq!(
        pull(&mut alice, &mut Direct::new(&mut server), "origin", "main", "alice", 7).unwrap(),
        MergeOutcome::AlreadyUpToDate
    );
}

fn update(name: &str, old: Option<ObjectId>, new: &ObjectId, force: bool) -> Vec<u8> {
    let mut p = Vec::new();
    p.extend((name.len() as u16).to_le_bytes());
    p.extend(name.as_bytes());
    match old {
        Some(o) => {
            p.push(1);
            p.extend(o.0);
        }
        None => p.push(0),
    }
    p.extend(new.0);
    p.push(u8::from(force));
    p
}

#[test]
fn a_server_rejects_updates_to_incomplete_history_and_stale_or_malformed_requests() {
    let mut server = Repo::new();
    let mut alice = Repo::new();
    let tip = history(&mut alice, 3, 3, 5);
    let (ok, msg) = serve(&mut server, UPDATE_REF, &update("main", None, &tip, false));
    assert!(!ok && String::from_utf8_lossy(&msg).contains("incomplete"));
    assert_eq!(server.get_ref("main"), None);

    push(&mut alice, &mut Direct::new(&mut server), "main", false).unwrap();
    let (ok, msg) = serve(&mut server, UPDATE_REF, &update("main", None, &tip, false));
    assert!(!ok && String::from_utf8_lossy(&msg).contains("stale"));
    let (ok, _) = serve(&mut server, UPDATE_REF, &[1, 2, 3]);
    assert!(!ok);
    let (ok, msg) = serve(&mut server, 99, &[]);
    assert!(!ok);
    assert_eq!(msg, b"unknown method 99".to_vec());
    let (ok, _) = serve(&mut server, UPDATE_REF, &update("bad..name", Some(tip), &tip, false));
    assert!(!ok);
}

#[test]
fn a_server_refuses_malformed_and_non_canonical_objects() {
    let mut server = Repo::new();
    let put = |server: &mut Repo, objs: &[&[u8]]| {
        let mut p = Vec::new();
        p.extend((objs.len() as u32).to_le_bytes());
        for o in objs {
            p.extend((o.len() as u32).to_le_bytes());
            p.extend(*o);
        }
        serve(server, PUT_OBJECTS, &p)
    };
    let (ok, _) = put(&mut server, &[b"\x09garbage"]);
    assert!(!ok);
    let mut unsorted = vec![2u8, 2, 0, 0, 0];
    for name in ["b", "a"] {
        unsorted.extend([0u8, 1, 0]);
        unsorted.extend(name.as_bytes());
        unsorted.extend([7u8; 32]);
    }
    let (ok, _) = put(&mut server, &[&unsorted]);
    assert!(!ok);
    assert_eq!(server.stats().objects, 0);
    let good = Object::Blob(b"fine".to_vec()).encode().unwrap();
    let (ok, resp) = put(&mut server, &[&good]);
    assert!(ok);
    assert_eq!(resp, 1u32.to_le_bytes().to_vec());
    assert_eq!(server.stats().objects, 1);
}

#[test]
fn list_refs_answers_every_ref_in_name_order() {
    let mut server = Repo::new();
    let a = server.put(&Object::Blob(b"a".to_vec())).unwrap();
    let b = server.put(&Object::Blob(b"b".to_vec())).unwrap();
    server.set_ref("zeta", a).unwrap();
    server.set_ref("alpha", b).unwrap();
    let (ok, body) = serve(&mut server, LIST_REFS, &[]);
    assert!(ok);
    let mut want = W::default();
    want.u32(2).string("alpha").id(&b).string("zeta").id(&a);
    assert_eq!(body, want.0);
    let refs = list_refs(&mut Direct::new(&mut server)).unwrap();
    assert_eq!(refs, vec![("alpha".to_string(), b), ("zeta".to_string(), a)]);
    let (ok, _) = serve(&mut server, LIST_REFS, &[0]);
    assert!(!ok);
}

#[test]
fn parse_refs_keeps_the_last_id_listed_under_a_name() {
    let x = ObjectId::of(b"x");
    let y = ObjectId::of(b"y");
    let mut w = W::default();
    w.u32(3).string("b").id(&x).string("a").id(&x).string("b").id(&y);
    let refs = ghola::client::parse_refs(&w.0).unwrap();
    assert_eq!(refs, vec![("a".to_string(), x), ("b".to_string(), y)]);
    let mut bad = w.0.clone();
    bad.push(0);
    assert!(ghola::client::parse_refs(&bad).is_err());
}

#[test]
fn a_fetch_is_answered_in_batches_from_the_plan() {
    let mut server = Repo::new();
    let tip = history(&mut server, 40, 8, 4);
    let all = plan(&server, &[tip], &[]).unwrap();
    assert_eq!(all, server.reachable(&[tip]).unwrap());
    let mut req = W::default();
    req.u32(0).u32(1).id(&tip).u32(0);
    let (ok, body) = serve(&mut server, FETCH, &req.0);
    assert!(ok);
    let mut r = R(&body);
    assert_eq!(r.u32(), Some(all.len() as u32));
    let count = r.u32().unwrap() as usize;
    assert!(count >= 1 && count < all.len());
    for id in all.iter().take(count) {
        assert_eq!(r.bytes().unwrap(), server.raw(id).unwrap().as_slice());
    }
    assert!(r.finished());
    let (ok, _) = serve(&mut server, FETCH, &req.0[..5]);
    assert!(!ok);
}

#[test]
fn a_plan_excludes_what_the_haves_cover() {
    let mut server = Repo::new();
    let old = history(&mut server, 3, 3, 6);
    let tip = history(&mut server, 1, 3, 8);
    let p = plan(&server, &[tip], &[old]).unwrap();
    assert!(!p.is_empty());
    assert!(!p.contains(&old));
    assert!(p.contains(&tip));
    assert!(plan(&server, &[ObjectId::of(b"missing")], &[]).is_err());
    assert_eq!(plan(&server, &[tip], &[ObjectId::of(b"unknown")]).unwrap(), server.reachable(&[tip]).unwrap());
}

/// A server that drops the last object of every batch it sends.
struct Dropping<'a>(Direct<'a>);

impl Remote for Dropping<'_> {
    fn sent(&self) -> RequestLog {
        self.0.sent()
    }

    fn call(&mut self, method: u8, payload: &[u8]) -> Result<(bool, Vec<u8>), SyncError> {
        let (ok, body) = self.0.call(method, payload)?;
        if method != FETCH || !ok {
            return Ok((ok, body));
        }
        let mut r = R(&body);
        let total = r.u32().unwrap();
        let count = r.u32().unwrap();
        let mut objs = Vec::new();
        for _ in 0..count {
            objs.push(r.bytes().unwrap().to_vec());
        }
        objs.pop();
        let mut w = W::default();
        w.u32(total).u32(objs.len() as u32);
        for o in &objs {
            w.bytes(o);
        }
        Ok((true, w.0))
    }
}

#[test]
fn a_server_that_drops_objects_cannot_create_a_dangling_ref() {
    let mut server = Repo::new();
    history(&mut server, 3, 3, 9);
    let mut bob = Repo::new();
    let err = fetch(&mut bob, &mut Dropping(Direct::new(&mut server)), "origin").unwrap_err();
    assert!(matches!(err, SyncError::Incomplete(_) | SyncError::Protocol(_)));
    assert_eq!(bob.get_ref("remotes/origin/main"), None);
    for id in bob.object_ids() {
        assert!(bob.get(&id).unwrap().is_some());
    }
}

/// A remote that misbehaves when answering FETCH.
enum Mode {
    DropFirstObject,
    FlipABit,
    NoProgress,
}

struct Tamper<'a> {
    inner: Direct<'a>,
    mode: Mode,
}

impl Remote for Tamper<'_> {
    fn sent(&self) -> RequestLog {
        self.inner.sent()
    }

    fn call(&mut self, method: u8, payload: &[u8]) -> Result<(bool, Vec<u8>), SyncError> {
        let (ok, mut body) = self.inner.call(method, payload)?;
        if method != FETCH || !ok {
            return Ok((ok, body));
        }
        let count = u32::from_le_bytes(body[4..8].try_into().unwrap());
        match self.mode {
            Mode::NoProgress => {
                body.truncate(8);
                body[4..8].copy_from_slice(&0u32.to_le_bytes());
            }
            Mode::FlipABit => {
                // Corrupt the last byte of the first object's payload.
                let len = u32::from_le_bytes(body[8..12].try_into().unwrap()) as usize;
                body[12 + len - 1] ^= 1;
            }
            Mode::DropFirstObject => {
                let len = u32::from_le_bytes(body[8..12].try_into().unwrap()) as usize;
                body.drain(8..12 + len);
                body[4..8].copy_from_slice(&(count - 1).to_le_bytes());
            }
        }
        Ok((ok, body))
    }
}

#[test]
fn a_lying_truncating_or_corrupting_server_can_never_leave_a_dangling_ref() {
    for mode in [Mode::DropFirstObject, Mode::FlipABit, Mode::NoProgress] {
        let mut server = Repo::new();
        let mut bob = Repo::new();
        history(&mut server, 10, 5, 4);
        let result = fetch(&mut bob, &mut Tamper { inner: Direct::new(&mut server), mode }, "origin");
        assert!(result.is_err(), "a tampering remote must not succeed");
        assert_eq!(bob.get_ref("remotes/origin/main"), None, "no ref may be created");
        // Everything that did get stored is valid.
        for id in bob.object_ids() {
            assert!(bob.get(&id).unwrap().is_some());
        }
    }
}

#[test]
fn reply_body_passes_an_answer_through() {
    let r = reply_body(Ok((true, b"abc".to_vec())));
    assert_eq!(r.unwrap(), b"abc".to_vec());
}

#[test]
fn reply_body_turns_a_refusal_into_its_text() {
    match reply_body(Ok((false, b"no such ref".to_vec()))) {
        Err(SyncError::Remote(t)) => assert_eq!(t, "no such ref"),
        other => panic!("unexpected {:?}", other),
    }
}

#[test]
fn reply_body_keeps_a_transport_error() {
    match reply_body(Err(SyncError::Transport("timed out".to_string()))) {
        Err(SyncError::Transport(t)) => assert_eq!(t, "timed out"),
        other => panic!("unexpected {:?}", other),
    }
}

#[test]
fn direct_call_refuses_an_unknown_method() {
    let mut repo = Repo::new();
    let mut d = Direct::new(&mut repo);
    let (ok, body) = d.call(9, &[]).unwrap();
    assert!(!ok);
    assert_eq!(body, b"unknown method 9".to_vec());
}

#[test]
fn put_payload_frames_each_object() {
    let p = put_payload(&vec![b"ab".to_vec(), b"c".to_vec()]);
    assert_eq!(p, vec![2, 0, 0, 0, 2, 0, 0, 0, b'a', b'b', 1, 0, 0, 0, b'c']);
}

#[test]
fn update_payload_lays_out_the_request() {
    let old = ObjectId::of(b"old");
    let new = ObjectId::of(b"new");
    let p = update_payload("main", Some(old), &new, true);
    let mut want = vec![4u8, 0, b'm', b'a', b'i', b'n', 1];
    want.extend_from_slice(&old.0);
    want.extend_from_slice(&new.0);
    want.push(1);
    assert_eq!(p, want);
    let q = update_payload("x", None, &new, false);
    let mut want2 = vec![1u8, 0, b'x', 0];
    want2.extend_from_slice(&new.0);
    want2.push(0);
    assert_eq!(q, want2);
}

#[test]
fn fetch_payload_lays_out_the_request() {
    let a = ObjectId::of(b"a");
    let p = fetch_payload(7, &vec![a], &vec![]);
    let mut want = vec![7u8, 0, 0, 0, 1, 0, 0, 0];
    want.extend_from_slice(&a.0);
    want.extend_from_slice(&[0, 0, 0, 0]);
    assert_eq!(p, want);
}

#[test]
fn a_fetch_of_a_missing_object_names_it() {
    let mut repo = Repo::new();
    let a = ObjectId::of(b"nothing here");
    let p = fetch_payload(0, &vec![a], &vec![]);
    let (ok, body) = serve(&mut repo, FETCH, &p);
    assert!(!ok);
    let hex = a.to_hex();
    assert_eq!(String::from_utf8(body).unwrap(), format!("cannot serve {hex}: object {hex} is missing"));
}

/// A remote that serves a repository and keeps every request it gets.
struct Recording<'a> {
    inner: Direct<'a>,
    calls: Vec<(u8, Vec<u8>)>,
}

impl Remote for Recording<'_> {
    fn sent(&self) -> RequestLog {
        self.inner.sent()
    }

    fn call(&mut self, method: u8, payload: &[u8]) -> Result<(bool, Vec<u8>), SyncError> {
        self.calls.push((method, payload.to_vec()));
        self.inner.call(method, payload)
    }
}

/// The objects in a PUT_OBJECTS payload.
fn put_objects(payload: &[u8]) -> Vec<Vec<u8>> {
    let mut r = R(payload);
    let n = r.u32().unwrap();
    let mut out = Vec::new();
    for _ in 0..n {
        out.push(r.bytes().unwrap().to_vec());
    }
    assert!(r.0.is_empty());
    out
}

#[test]
fn push_lists_then_uploads_in_batches_then_updates_the_ref() {
    let mut alice = Repo::new();
    let mut server = Repo::new();
    let tip = history(&mut alice, 12, 6, 1);
    let mut rec = Recording { inner: Direct::new(&mut server), calls: Vec::new() };
    let report = push(&mut alice, &mut rec, "main", false).unwrap();
    let calls = rec.calls;
    assert_eq!(calls[0], (LIST_REFS, Vec::new()));
    assert_eq!(calls.last().unwrap(), &(UPDATE_REF, update_payload("main", None, &tip, false)));
    let puts = &calls[1..calls.len() - 1];
    assert!(puts.len() > 1);
    let mut sent: Vec<Vec<u8>> = Vec::new();
    for (i, (m, p)) in puts.iter().enumerate() {
        assert_eq!(*m, PUT_OBJECTS);
        let batch = put_objects(p);
        let size: usize = batch.iter().map(|b| b.len()).sum();
        assert!(batch.len() == 1 || size <= 4096);
        if i + 1 < puts.len() {
            let next = put_objects(&puts[i + 1].1);
            assert!(size + next[0].len() > 4096);
        }
        sent.extend(batch);
    }
    let want: Vec<Vec<u8>> = alice.reachable(&[tip]).unwrap().iter().map(|x| alice.raw(x).unwrap()).collect();
    assert_eq!(sent, want);
    assert_eq!(report.objects, want.len());
    assert_eq!(report.bytes, want.iter().map(|b| b.len()).sum::<usize>());
}

#[test]
fn an_up_to_date_push_uploads_nothing_and_names_the_old_id() {
    let mut alice = Repo::new();
    let mut server = Repo::new();
    let tip = history(&mut alice, 3, 2, 5);
    push(&mut alice, &mut Direct::new(&mut server), "main", false).unwrap();
    let mut rec = Recording { inner: Direct::new(&mut server), calls: Vec::new() };
    let report = push(&mut alice, &mut rec, "main", false).unwrap();
    assert_eq!((report.objects, report.bytes), (0, 0));
    assert_eq!(
        rec.calls,
        vec![(LIST_REFS, Vec::new()), (UPDATE_REF, update_payload("main", Some(tip), &tip, false))]
    );
}

#[test]
fn a_push_of_a_missing_branch_sends_nothing() {
    let mut alice = Repo::new();
    let mut server = Repo::new();
    let mut rec = Recording { inner: Direct::new(&mut server), calls: Vec::new() };
    assert!(matches!(push(&mut alice, &mut rec, "main", false), Err(SyncError::Protocol("no such local branch"))));
    assert!(rec.calls.is_empty());
}

#[test]
fn fetch_asks_for_the_listed_ids_it_lacks_and_names_its_refs() {
    let mut alice = Repo::new();
    let mut server = Repo::new();
    let mut bob = Repo::new();
    let tip = history(&mut alice, 4, 3, 2);
    push(&mut alice, &mut Direct::new(&mut server), "main", false).unwrap();
    let mine = history(&mut bob, 2, 2, 9);
    let mut rec = Recording { inner: Direct::new(&mut server), calls: Vec::new() };
    fetch(&mut bob, &mut rec, "origin").unwrap();
    assert_eq!(rec.calls[0], (LIST_REFS, Vec::new()));
    assert_eq!(rec.calls[1], (FETCH, fetch_payload(0, &vec![tip], &vec![mine])));
    assert!(rec.calls[1..].iter().all(|(m, _)| *m == FETCH));

    let mut rec2 = Recording { inner: Direct::new(&mut server), calls: Vec::new() };
    fetch(&mut bob, &mut rec2, "origin").unwrap();
    assert_eq!(rec2.calls, vec![(LIST_REFS, Vec::new())]);
}

#[test]
fn merge_fetched_needs_the_tracking_ref() {
    let mut bob = Repo::new();
    history(&mut bob, 1, 1, 3);
    match merge_fetched(&mut bob, "origin", "main", "bob", 1) {
        Err(SyncError::Protocol(m)) => assert_eq!(m, "the remote has no such branch"),
        other => panic!("unexpected {:?}", other),
    }
}

#[test]
fn merge_fetched_creates_a_missing_branch_at_the_fetched_id() {
    let mut bob = Repo::new();
    let tip = history(&mut bob, 2, 2, 4);
    bob.set_ref("remotes/origin/dev", tip).unwrap();
    match merge_fetched(&mut bob, "origin", "dev", "bob", 1).unwrap() {
        MergeOutcome::FastForward(t) => assert_eq!(t, tip),
        other => panic!("unexpected {:?}", other),
    }
    assert_eq!(bob.get_ref("dev"), Some(tip));
    match merge_fetched(&mut bob, "origin", "dev", "bob", 1).unwrap() {
        MergeOutcome::AlreadyUpToDate => {},
        other => panic!("unexpected {:?}", other),
    }
}

/// A remote that refuses every request of one method and keeps every
/// request it gets.
struct Refusing<'a> {
    inner: Direct<'a>,
    refuse: u8,
    calls: Vec<u8>,
}

impl Remote for Refusing<'_> {
    fn sent(&self) -> RequestLog {
        self.inner.sent()
    }

    fn call(&mut self, method: u8, payload: &[u8]) -> Result<(bool, Vec<u8>), SyncError> {
        self.calls.push(method);
        if method == self.refuse {
            return Ok((false, b"no".to_vec()));
        }
        self.inner.call(method, payload)
    }
}

#[test]
fn a_push_stops_at_the_first_refusal() {
    let mut alice = Repo::new();
    let mut server = Repo::new();
    history(&mut alice, 12, 6, 1);
    let mut rem = Refusing { inner: Direct::new(&mut server), refuse: PUT_OBJECTS, calls: Vec::new() };
    match push(&mut alice, &mut rem, "main", false) {
        Err(SyncError::Remote(m)) => assert_eq!(m, "no"),
        other => panic!("unexpected {:?}", other),
    }
    assert_eq!(rem.calls, vec![LIST_REFS, PUT_OBJECTS]);
    assert_eq!(server.get_ref("main"), None);
}

#[test]
fn a_fetch_stops_at_the_first_refusal() {
    let mut alice = Repo::new();
    let mut server = Repo::new();
    let mut bob = Repo::new();
    history(&mut alice, 3, 2, 1);
    push(&mut alice, &mut Direct::new(&mut server), "main", false).unwrap();
    let mut rem = Refusing { inner: Direct::new(&mut server), refuse: FETCH, calls: Vec::new() };
    assert!(matches!(fetch(&mut bob, &mut rem, "origin"), Err(SyncError::Remote(_))));
    assert_eq!(rem.calls, vec![LIST_REFS, FETCH]);
    assert_eq!(bob.get_ref("remotes/origin/main"), None);
}

#[test]
fn each_refusal_names_its_cause() {
    let mut server = Repo::new();
    let text = |r: (bool, Vec<u8>)| {
        assert!(!r.0);
        String::from_utf8(r.1).unwrap()
    };
    assert_eq!(text(serve(&mut server, LIST_REFS, &[1])), "LIST_REFS takes no payload");
    assert_eq!(text(serve(&mut server, FETCH, &[1, 2])), "malformed FETCH request");
    assert_eq!(text(serve(&mut server, PUT_OBJECTS, &[1, 0])), "malformed PUT_OBJECTS request");
    assert_eq!(text(serve(&mut server, PUT_OBJECTS, &[1, 0, 0, 0, 5, 0, 0, 0, 1])), "malformed PUT_OBJECTS request");
    assert_eq!(
        text(serve(&mut server, PUT_OBJECTS, &[1, 0, 0, 0, 2, 0, 0, 0, 9, 9])),
        "rejected object: not the canonical encoding of a valid object"
    );
    assert_eq!(text(serve(&mut server, PUT_OBJECTS, &[0, 0, 0, 0, 7])), "trailing bytes in PUT_OBJECTS request");
    assert_eq!(text(serve(&mut server, UPDATE_REF, &[1, 2, 3])), "malformed UPDATE_REF request");

    let mut alice = Repo::new();
    let tip = history(&mut alice, 2, 2, 5);
    assert_eq!(
        text(serve(&mut server, UPDATE_REF, &update("main", None, &tip, false))),
        "incomplete: the new commit's history is not fully present"
    );
    push(&mut alice, &mut Direct::new(&mut server), "main", false).unwrap();
    assert_eq!(
        text(serve(&mut server, UPDATE_REF, &update("main", None, &tip, false))),
        "stale: the remote ref is not at the value you based this on"
    );
    let other = history(&mut server, 1, 2, 77);
    assert_eq!(
        text(serve(&mut server, UPDATE_REF, &update("main", Some(other), &tip, false))),
        "non-fast-forward: the remote has commits you lack"
    );
    assert_eq!(
        text(serve(&mut server, UPDATE_REF, &update("bad..name", None, &tip, false))),
        "cannot update ref: invalid ref name"
    );
}
