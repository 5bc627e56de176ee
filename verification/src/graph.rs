//! History as a DAG: commit creation, ancestry and merge bases. Every
//! query walks parent links through the verified object store; nothing is
//! cached, so nothing can go stale.

use vstd::prelude::*;
use vstd::set_lib::lemma_len_subset;

use crate::bytes::{copy_range, lex_lt};
use crate::digest::sha256;
use crate::object::{decode_view, id_from, Commit, CommitView, Object, ObjectId, ObjectView};
use crate::repo::{obj_key_spec, stored, Repo, RepoError};
use crate::snapshot::{has_path, lookup, path_index, sorted_paths, Files, Listing};

verus! {

/// The commit stored (and verified) under `id`, if any.
pub open spec fn commit_at(store: Listing, id: Seq<u8>) -> Option<CommitView> {
    match lookup(store, obj_key_spec(id)) {
        Some(b) => if sha256(b) == id {
            match decode_view(b) {
                Ok(ObjectView::Commit(c)) => Some(c),
                _ => None,
            }
        } else {
            None
        },
        None => None,
    }
}

/// The parents of the commit stored under `id` (none if it is not one).
pub open spec fn parents_of(store: Listing, id: Seq<u8>) -> Seq<Seq<u8>> {
    match commit_at(store, id) {
        Some(c) => c.parents,
        None => seq![],
    }
}

/// `path` follows parent links from its first id to its last.
pub open spec fn parent_path(store: Listing, path: Seq<Seq<u8>>) -> bool {
    &&& path.len() > 0
    &&& forall|i: int, j: int|
        0 <= i && j == i + 1 && j < path.len() ==> parents_of(store, #[trigger] path[i]).contains(#[trigger] path[j])
}

/// `to` is `from` or an ancestor of it.
pub open spec fn reaches(store: Listing, from: Seq<u8>, to: Seq<u8>) -> bool {
    exists|path: Seq<Seq<u8>>| #[trigger] parent_path(store, path) && path[0] == from && path.last() == to
}

/// A commit is its own ancestor.
pub proof fn lemma_reaches_self(store: Listing, x: Seq<u8>)
    ensures
        reaches(store, x, x),
{
    assert(parent_path(store, seq![x]));
}

/// A parent of an ancestor is an ancestor.
pub proof fn lemma_reaches_parent(store: Listing, from: Seq<u8>, x: Seq<u8>, p: Seq<u8>)
    requires
        reaches(store, from, x),
        parents_of(store, x).contains(p),
    ensures
        reaches(store, from, p),
{
    let path = choose|path: Seq<Seq<u8>>| #[trigger] parent_path(store, path) && path[0] == from && path.last() == x;
    let np = path.push(p);
    assert forall|i: int, j: int| 0 <= i && j == i + 1 && j < np.len() implies parents_of(store, #[trigger] np[i]).contains(
        #[trigger] np[j],
    ) by {
        if j < path.len() {
            assert(np[i] == path[i] && np[j] == path[j]);
        } else {
            assert(np[i] == x);
        }
    }
    assert(parent_path(store, np));
}

proof fn lemma_path_members(store: Listing, s: Listing, path: Seq<Seq<u8>>, k: int)
    requires
        parent_path(store, path),
        0 <= k < path.len(),
        has_path(s, path[0]),
        forall|y: Seq<u8>, p: Seq<u8>| has_path(s, y) && #[trigger] parents_of(store, y).contains(p) ==> #[trigger] has_path(s, p),
    ensures
        has_path(s, path[k]),
    decreases k,
{
    if k > 0 {
        lemma_path_members(store, s, path, k - 1);
        assert(parents_of(store, path[k - 1]).contains(path[k]));
    }
}

/// A sorted set of ids, each stored under its key, has no more members
/// than the store has entries.
pub(crate) proof fn lemma_seen_bound(store: Listing, s: Listing)
    requires
        sorted_paths(s),
        forall|i: int| 0 <= i < s.len() ==> has_path(store, obj_key_spec(#[trigger] s[i].0)),
    ensures
        s.len() <= store.len(),
{
    let keys = s.map_values(|e: (Seq<u8>, Seq<u8>)| obj_key_spec(e.0));
    let all = store.map_values(|e: (Seq<u8>, Seq<u8>)| e.0);
    assert forall|i: int, j: int| 0 <= i < keys.len() && 0 <= j < keys.len() && i != j implies keys[i] != keys[j] by {
        crate::bytes::lemma_lex_equal(s[i].0, s[j].0);
        if i < j {
            assert(lex_lt(s[i].0, s[j].0));
        } else {
            assert(lex_lt(s[j].0, s[i].0));
        }
        if keys[i] == keys[j] {
            assert(s[i].0 =~= keys[i].drop_first());
            assert(s[j].0 =~= keys[j].drop_first());
        }
    }
    assert(keys.no_duplicates());
    keys.unique_seq_to_set();
    all.lemma_cardinality_of_set();
    assert forall|k: Seq<u8>| keys.to_set().contains(k) implies all.to_set().contains(k) by {
        let i = choose|i: int| 0 <= i < keys.len() && keys[i] == k;
        assert(has_path(store, obj_key_spec(s[i].0)));
        let j = path_index(store, k);
        assert(all[j] == k);
    }
    lemma_len_subset(keys.to_set(), all.to_set());
}

/// The ids of a stack, as values.
pub open spec fn id_views(v: Seq<ObjectId>) -> Seq<Seq<u8>> {
    v.map_values(|id: ObjectId| id@)
}

/// Ids in strictly ascending byte order.
pub open spec fn ids_sorted(v: Seq<Seq<u8>>) -> bool {
    forall|i: int, j: int| 0 <= i < j < v.len() ==> lex_lt(#[trigger] v[i], #[trigger] v[j])
}

/// The members of a set of ids, in order.
pub(crate) fn set_ids(seen: &Files) -> (r: Vec<ObjectId>)
    requires
        seen.wf(),
        forall|i: int| 0 <= i < seen@.len() ==> (#[trigger] seen@[i]).0.len() == 32,
    ensures
        id_views(r@) == seen@.map_values(|e: (Seq<u8>, Seq<u8>)| e.0),
        ids_sorted(id_views(r@)),
{
    let es = seen.entries();
    let mut out: Vec<ObjectId> = Vec::new();
    let mut i: usize = 0;
    while i < es.len()
        invariant
            crate::snapshot::entry_views(es@) == seen@,
            i <= es@.len(),
            forall|k: int| 0 <= k < seen@.len() ==> (#[trigger] seen@[k]).0.len() == 32,
            id_views(out@) == seen@.map_values(|e: (Seq<u8>, Seq<u8>)| e.0).subrange(0, i as int),
        decreases es@.len() - i,
    {
        assert(seen@[i as int].0 == es@[i as int].0@);
        let id = id_from(es[i].0.as_slice(), 0);
        assert(es@[i as int].0@.subrange(0, 32) =~= es@[i as int].0@);
        let ghost before = id_views(out@);
        out.push(id);
        assert(id_views(out@) =~= before.push(id@));
        assert(id_views(out@) =~= seen@.map_values(|e: (Seq<u8>, Seq<u8>)| e.0).subrange(0, i + 1));
        i = i + 1;
    }
    assert(seen@.map_values(|e: (Seq<u8>, Seq<u8>)| e.0).subrange(0, es@.len() as int) =~= seen@.map_values(
        |e: (Seq<u8>, Seq<u8>)| e.0,
    ));
    proof {
        let v = id_views(out@);
        assert forall|a: int, b: int| 0 <= a < b < v.len() implies lex_lt(#[trigger] v[a], #[trigger] v[b]) by {
            assert(v[a] == seen@[a].0 && v[b] == seen@[b].0);
        }
    }
    out
}

/// `x` is one of `roots` or an ancestor of one.
pub open spec fn reaches_any(store: Listing, roots: Seq<Seq<u8>>, x: Seq<u8>) -> bool {
    exists|i: int| 0 <= i < roots.len() && #[trigger] reaches(store, roots[i], x)
}

/// The error `e` reports that the commit `x` cannot be read, and names it
/// as missing exactly when nothing is stored under its id.
pub open spec fn names_unreadable(store: Listing, x: Seq<u8>, e: RepoError) -> bool {
    &&& commit_at(store, x) is None
    &&& (lookup(store, obj_key_spec(x)) is None <==> e is Missing)
    &&& (e matches RepoError::Missing(m) ==> m@ == x)
}

/// The walk so far: what has been read is an ancestor of a root and a
/// commit, its parents have been read or are waiting, everything waiting
/// is an ancestor of a root, and every root has been read or waits.
pub open spec fn walk_inv(st: Listing, rv: Seq<Seq<u8>>, seen: Listing, stack: Seq<Seq<u8>>) -> bool {
    &&& forall|i: int| 0 <= i < seen.len() ==> (#[trigger] seen[i]).0.len() == 32
    &&& forall|i: int| 0 <= i < seen.len() ==> has_path(st, obj_key_spec(#[trigger] seen[i].0))
    &&& forall|x: Seq<u8>| #[trigger] has_path(seen, x) ==> reaches_any(st, rv, x) && commit_at(st, x) is Some
    &&& forall|x: Seq<u8>, p: Seq<u8>| has_path(seen, x) && #[trigger] parents_of(st, x).contains(p) ==> #[trigger] has_path(seen, p)
        || stack.contains(p)
    &&& forall|i: int| 0 <= i < stack.len() ==> reaches_any(st, rv, #[trigger] stack[i])
    &&& forall|i: int| 0 <= i < rv.len() ==> has_path(seen, #[trigger] rv[i]) || stack.contains(rv[i])
}

/// Pushes a commit's parents.
fn push_parents(stack: &mut Vec<ObjectId>, c: &Commit)
    ensures
        id_views(final(stack)@) == id_views(old(stack)@) + c@.parents,
{
    let ghost cv = c@;
    let mut k: usize = 0;
    while k < c.parents.len()
        invariant
            k <= c.parents@.len(),
            cv.parents == id_views(c.parents@),
            cv == c@,
            id_views(stack@) == id_views(old(stack)@) + cv.parents.subrange(0, k as int),
        decreases c.parents@.len() - k,
    {
        let ghost b = id_views(stack@);
        stack.push(c.parents[k]);
        assert(id_views(stack@) =~= b.push(cv.parents[k as int]));
        assert(id_views(old(stack)@) + cv.parents.subrange(0, k + 1) =~= b.push(cv.parents[k as int]));
        k = k + 1;
    }
    assert(cv.parents.subrange(0, c.parents@.len() as int) =~= cv.parents);
}

/// A path from `a` to `p` followed by one from `p` to `x` is one from `a`
/// to `x`.
pub proof fn lemma_reaches_trans(store: Listing, a: Seq<u8>, p: Seq<u8>, x: Seq<u8>)
    requires
        reaches(store, a, p),
        reaches(store, p, x),
    ensures
        reaches(store, a, x),
{
    let p1 = choose|path: Seq<Seq<u8>>| #[trigger] parent_path(store, path) && path[0] == a && path.last() == p;
    let p2 = choose|path: Seq<Seq<u8>>| #[trigger] parent_path(store, path) && path[0] == p && path.last() == x;
    let np = p1 + p2.drop_first();
    assert forall|i: int, j: int| 0 <= i && j == i + 1 && j < np.len() implies parents_of(store, #[trigger] np[i]).contains(
        #[trigger] np[j],
    ) by {
        if j < p1.len() {
            assert(np[i] == p1[i] && np[j] == p1[j]);
        } else if i == p1.len() - 1 {
            assert(np[i] == p2[0]);
            assert(np[j] == p2[1]);
        } else {
            assert(np[i] == p2[i - p1.len() + 1]);
            assert(np[j] == p2[j - p1.len() + 1]);
        }
    }
    assert(parent_path(store, np));
    if p2.len() == 1 {
        assert(np =~= p1);
    } else {
        assert(np.last() == p2.last());
    }
}

/// The members of `v` that are in `w` (with `inside`) or not in it
/// (without), in order.
pub(crate) fn select_ids(v: &Vec<ObjectId>, w: &Vec<ObjectId>, inside: bool) -> (r: Vec<ObjectId>)
    requires
        ids_sorted(id_views(v@)),
    ensures
        ids_sorted(id_views(r@)),
        forall|x: Seq<u8>| #[trigger] id_views(r@).contains(x) <==> id_views(v@).contains(x) && (id_views(w@).contains(x) == inside),
{
    let ghost vv = id_views(v@);
    let mut out: Vec<ObjectId> = Vec::new();
    let mut i: usize = 0;
    while i < v.len()
        invariant
            i <= v@.len(),
            vv == id_views(v@),
            ids_sorted(vv),
            ids_sorted(id_views(out@)),
            forall|x: Seq<u8>| #[trigger] id_views(out@).contains(x) <==> vv.subrange(0, i as int).contains(x) && (id_views(w@).contains(x)
                == inside),
            out@.len() > 0 ==> exists|j: int| 0 <= j < i && vv[j] == id_views(out@).last(),
        decreases v@.len() - i,
    {
        let x = v[i];
        let keep = contains_id(w, &x) == inside;
        let ghost before = id_views(out@);
        if keep {
            out.push(x);
            proof {
                let now = id_views(out@);
                assert(now =~= before.push(x@));
                assert forall|a: int, b: int| 0 <= a < b < now.len() implies lex_lt(#[trigger] now[a], #[trigger] now[b]) by {
                    if b == now.len() - 1 {
                        let j = choose|j: int| 0 <= j < i && vv[j] == before.last();
                        assert(lex_lt(vv[j], vv[i as int]));
                        if a < before.len() - 1 {
                            assert(lex_lt(before[a], before[before.len() - 1]));
                            crate::bytes::lemma_lex_trans(now[a], before.last(), now[b]);
                        }
                    } else {
                        assert(now[a] == before[a] && now[b] == before[b]);
                    }
                }
                assert(vv[i as int] == now.last());
            }
        }
        proof {
            let now = id_views(out@);
            assert forall|y: Seq<u8>| #[trigger] now.contains(y) <==> vv.subrange(0, i + 1).contains(y) && (id_views(w@).contains(y)
                == inside) by {
                if vv.subrange(0, i + 1).contains(y) && !vv.subrange(0, i as int).contains(y) {
                    let k = choose|k: int| 0 <= k < i + 1 && #[trigger] vv.subrange(0, i + 1)[k] == y;
                    if k < i {
                        assert(vv.subrange(0, i as int)[k] == y);
                    }
                    assert(y == x@);
                    if keep {
                        assert(now[now.len() - 1] == y);
                    }
                }
                if vv.subrange(0, i as int).contains(y) {
                    let k = choose|k: int| 0 <= k < i && #[trigger] vv.subrange(0, i as int)[k] == y;
                    assert(vv.subrange(0, i + 1)[k] == y);
                }
                if keep && now.contains(y) && !before.contains(y) {
                    let k = choose|k: int| 0 <= k < now.len() && now[k] == y;
                    if k < before.len() {
                        assert(before[k] == y);
                    }
                    assert(vv.subrange(0, i + 1)[i as int] == y);
                }
                if keep && before.contains(y) {
                    let k = choose|k: int| 0 <= k < before.len() && before[k] == y;
                    assert(now[k] == y);
                }
            }
        }
        i = i + 1;
    }
    assert(vv.subrange(0, vv.len() as int) =~= vv);
    out
}

/// The mainline from `x`: `x`, its first parent, that commit's first
/// parent, and so on until a root commit. `None` if a commit on the way is
/// absent or does not verify, or if the chain is longer than `fuel` links
/// (only a cycle, that is a hash collision, could make it longer than the
/// store).
pub open spec fn mainline(store: Listing, x: Seq<u8>, fuel: nat) -> Option<Seq<Seq<u8>>>
    decreases fuel,
{
    match commit_at(store, x) {
        None => None,
        Some(c) => if c.parents.len() == 0 {
            Some(seq![x])
        } else if fuel == 0 {
            None
        } else {
            match mainline(store, c.parents[0], (fuel - 1) as nat) {
                Some(rest) => Some(seq![x] + rest),
                None => None,
            }
        },
    }
}

/// `x` is an ancestor of both `a` and `b`.
pub open spec fn common_ancestor(store: Listing, a: Seq<u8>, b: Seq<u8>, x: Seq<u8>) -> bool {
    reaches(store, a, x) && reaches(store, b, x)
}

/// `x` is an ancestor of a parent of some common ancestor of `a` and `b`.
pub open spec fn dominated(store: Listing, a: Seq<u8>, b: Seq<u8>, x: Seq<u8>) -> bool {
    exists|c: Seq<u8>, p: Seq<u8>|
        common_ancestor(store, a, b, c) && #[trigger] parents_of(store, c).contains(p) && #[trigger] reaches(store, p, x)
}

/// `p` is a parent of a common ancestor of `a` and `b`.
pub open spec fn parent_of_common(store: Listing, a: Seq<u8>, b: Seq<u8>, p: Seq<u8>) -> bool {
    exists|c: Seq<u8>| common_ancestor(store, a, b, c) && #[trigger] parents_of(store, c).contains(p)
}

/// Every id of `v` is a parent of a common ancestor of `a` and `b`.
pub open spec fn parents_of_common(store: Listing, a: Seq<u8>, b: Seq<u8>, v: Seq<Seq<u8>>) -> bool {
    forall|j: int| 0 <= j < v.len() ==> #[trigger] parent_of_common(store, a, b, v[j])
}

/// A best common ancestor: common, and not below another common ancestor.
pub open spec fn merge_base_of(store: Listing, a: Seq<u8>, b: Seq<u8>, x: Seq<u8>) -> bool {
    common_ancestor(store, a, b, x) && !dominated(store, a, b, x)
}

/// Every ancestor of `a` or of `b` is a verified commit.
pub open spec fn histories_complete(store: Listing, a: Seq<u8>, b: Seq<u8>) -> bool {
    &&& forall|x: Seq<u8>| #[trigger] reaches(store, a, x) ==> commit_at(store, x) is Some
    &&& forall|x: Seq<u8>| #[trigger] reaches(store, b, x) ==> commit_at(store, x) is Some
}

/// `m` sorts after `y` for choosing one merge base: newer timestamp, or the
/// same timestamp and a greater id.
pub open spec fn newer(store: Listing, m: Seq<u8>, y: Seq<u8>) -> bool {
    let tm = commit_at(store, m)->Some_0.timestamp;
    let ty = commit_at(store, y)->Some_0.timestamp;
    ty < tm || (ty == tm && lex_lt(y, m))
}

impl Repo {
    /// Stores a commit object and returns its id.
    pub fn write_commit(
        &mut self,
        tree: ObjectId,
        parents: Vec<ObjectId>,
        author: &str,
        message: &str,
        timestamp: u64,
    ) -> (r: Result<ObjectId, RepoError>)
        requires
            old(self).wf(),
        ensures
            final(self).wf(),
            ({
                let c = ObjectView::Commit(
                    CommitView {
                        tree: tree@,
                        parents: id_views(parents@),
                        timestamp,
                        author: author@,
                        message: message@,
                    },
                );
                match crate::object::encode_view(c) {
                    Err(e) => (r matches Err(RepoError::Object(x)) && x@ == e && final(self)@ == old(self)@),
                    Ok(b) => r matches Ok(id) && id@ == sha256(b) && forall|k: Seq<u8>| #[trigger] lookup(final(self)@, k)
                        == if k == obj_key_spec(id@) && lookup(old(self)@, k) is None {
                        Some(b)
                    } else {
                        lookup(old(self)@, k)
                    },
                }
            }),
    {
        let c = Commit {
            tree,
            parents,
            timestamp,
            author: author.to_string(),
            message: message.to_string(),
        };
        self.put(&Object::Commit(c))
    }

    /// `id` and everything reachable from it through parent links, in id
    /// order.
    pub fn ancestors(&self, id: &ObjectId) -> (r: Result<Vec<ObjectId>, RepoError>)
        requires
            self.wf(),
        ensures
            r matches Ok(v) ==> ids_sorted(id_views(v@)) && (forall|x: Seq<u8>| #[trigger] id_views(v@).contains(x)
                <==> reaches(self@, id@, x)),
            r is Err ==> exists|x: Seq<u8>| #[trigger] reaches(self@, id@, x) && commit_at(self@, x) is None,
            r matches Err(e) ==> exists|x: Seq<u8>| #[trigger] reaches(self@, id@, x) && names_unreadable(self@, x, e),
            r is Ok ==> forall|x: Seq<u8>| #[trigger] reaches(self@, id@, x) ==> commit_at(self@, x) is Some,
            (forall|x: Seq<u8>| #[trigger] reaches(self@, id@, x) ==> commit_at(self@, x) is Some) ==> r is Ok,
    {
        let mut roots: Vec<ObjectId> = Vec::new();
        roots.push(*id);
        let ghost rv = id_views(roots@);
        proof {
            assert(rv =~= seq![id@]);
            assert forall|x: Seq<u8>| #[trigger] reaches_any(self@, rv, x) <==> reaches(self@, id@, x) by {
                if reaches(self@, id@, x) {
                    assert(rv[0] == id@);
                }
            }
        }
        let r = self.ancestors_all(roots.as_slice());
        proof {
            if r is Err {
                let e = r->Err_0;
                let x = choose|x: Seq<u8>| #[trigger] reaches_any(self@, rv, x) && names_unreadable(self@, x, e);
                let i = choose|i: int| 0 <= i < rv.len() && #[trigger] reaches(self@, rv[i], x);
                assert(rv[i] == id@);
                assert(reaches(self@, id@, x) && names_unreadable(self@, x, e));
            }
            if r is Ok {
                assert forall|x: Seq<u8>| #[trigger] reaches(self@, id@, x) implies commit_at(self@, x) is Some by {
                    assert(reaches_any(self@, rv, x));
                }
            }
        }
        r
    }

    /// The roots and all their ancestors, in id order. Fails if any of them
    /// is absent or not a verified commit.
    #[verifier::loop_isolation(false)]
    #[verifier::spinoff_prover]
    #[verifier::rlimit(100)]
    fn ancestors_all(&self, roots: &[ObjectId]) -> (r: Result<Vec<ObjectId>, RepoError>)
        requires
            self.wf(),
        ensures
            r matches Ok(v) ==> ids_sorted(id_views(v@)) && (forall|x: Seq<u8>| #[trigger] id_views(v@).contains(x)
                <==> reaches_any(self@, id_views(roots@), x)),
            r is Err ==> exists|x: Seq<u8>| #[trigger] reaches_any(self@, id_views(roots@), x) && commit_at(self@, x) is None,
            r matches Err(e) ==> exists|x: Seq<u8>| #[trigger] reaches_any(self@, id_views(roots@), x) && names_unreadable(self@, x, e),
            r is Ok ==> forall|x: Seq<u8>| #[trigger] reaches_any(self@, id_views(roots@), x) ==> commit_at(self@, x) is Some,
            (forall|x: Seq<u8>| #[trigger] reaches_any(self@, id_views(roots@), x) ==> commit_at(self@, x) is Some) ==> r is Ok,
    {
        let ghost st = self@;
        let ghost rv = id_views(roots@);
        let mut seen = Files::new();
        let mut stack: Vec<ObjectId> = Vec::new();
        let mut q: usize = 0;
        while q < roots.len()
            invariant
                q <= roots@.len(),
                id_views(stack@) == rv.subrange(0, q as int),
            decreases roots@.len() - q,
        {
            stack.push(roots[q]);
            assert(id_views(stack@) =~= rv.subrange(0, q + 1));
            q = q + 1;
        }
        proof {
            assert(rv.subrange(0, rv.len() as int) =~= rv);
            assert forall|i: int| 0 <= i < stack@.len() implies reaches_any(st, rv, #[trigger] id_views(stack@)[i]) by {
                lemma_reaches_self(st, rv[i]);
                assert(reaches(st, rv[i], rv[i]));
            }
            assert forall|i: int| 0 <= i < rv.len() implies has_path(seen@, #[trigger] rv[i]) || id_views(stack@).contains(rv[i]) by {
                assert(id_views(stack@)[i] == rv[i]);
            }
        }
        while stack.len() > 0
            invariant
                st == self@,
                rv == id_views(roots@),
                seen.wf(),
                walk_inv(st, rv, seen@, id_views(stack@)),
            decreases st.len() - seen@.len(), stack@.len(),
        {
            match self.walk_step(&mut seen, &mut stack, Ghost(rv)) {
                Ok(()) => {},
                Err(e) => return Err(e),
            }
        }
        proof {
            assert forall|x: Seq<u8>| reaches_any(st, rv, x) implies #[trigger] has_path(seen@, x) by {
                let i = choose|i: int| 0 <= i < rv.len() && #[trigger] reaches(st, rv[i], x);
                assert(has_path(seen@, rv[i]));
                let path = choose|path: Seq<Seq<u8>>| #[trigger] parent_path(st, path) && path[0] == rv[i] && path.last() == x;
                lemma_path_members(st, seen@, path, path.len() - 1);
            }
            assert forall|x: Seq<u8>| #[trigger] reaches_any(st, rv, x) implies commit_at(st, x) is Some by {
                assert(has_path(seen@, x));
            }
        }
        let out = set_ids(&seen);
        proof {
            let v = id_views(out@);
            assert forall|x: Seq<u8>| #[trigger] v.contains(x) <==> reaches_any(st, rv, x) by {
                if v.contains(x) {
                    let i = choose|i: int| 0 <= i < v.len() && v[i] == x;
                    assert(v[i] == seen@[i].0);
                    assert(has_path(seen@, x));
                }
                if reaches_any(st, rv, x) {
                    assert(has_path(seen@, x));
                    let i = path_index(seen@, x);
                    assert(v[i] == x);
                }
            }
        }
        Ok(out)
    }

    /// One step of the walk: takes the top of the stack and, if it is new,
    /// reads it and pushes its parents.
    #[verifier::loop_isolation(false)]
    #[verifier::spinoff_prover]
    #[verifier::rlimit(100)]
    fn walk_step(&self, seen: &mut Files, stack: &mut Vec<ObjectId>, rv: Ghost<Seq<Seq<u8>>>) -> (r: Result<(), RepoError>)
        requires
            self.wf(),
            old(seen).wf(),
            old(stack)@.len() > 0,
            walk_inv(self@, rv@, old(seen)@, id_views(old(stack)@)),
        ensures
            r is Ok ==> final(seen).wf() && walk_inv(self@, rv@, final(seen)@, id_views(final(stack)@)) && final(seen)@.len() <= self@.len() && (
            final(seen)@.len() > old(seen)@.len() || (final(seen)@.len() == old(seen)@.len() && final(stack)@.len() < old(stack)@.len())),
            r is Err ==> exists|x: Seq<u8>| #[trigger] reaches_any(self@, rv@, x) && commit_at(self@, x) is None,
            r matches Err(e) ==> exists|x: Seq<u8>| #[trigger] reaches_any(self@, rv@, x) && names_unreadable(self@, x, e),
    {
        let ghost st = self@;
        let ghost rv = rv@;
        proof {
            lemma_seen_bound(st, seen@);
        }
        let ghost before_pop = stack@;
        let c = stack.pop().unwrap();
        let ghost rest = id_views(stack@);
        assert(id_views(before_pop) =~= rest.push(c@));
        assert(id_views(before_pop)[before_pop.len() - 1] == c@);
        assert(reaches_any(st, rv, c@));
        if seen.get(&c.0).is_none() {
            let obj = match self.commit_of(&c) {
                Ok(x) => x,
                Err(e) => {
                    proof {
                        if commit_at(st, c@) is Some {
                            assert(stored(st, c@, ObjectView::Commit(commit_at(st, c@)->Some_0)));
                        }
                        assert(names_unreadable(st, c@, e));
                    }
                    return Err(e);
                },
            };
            let ghost seen0 = seen@;
            let key = copy_range(&c.0, 0, 32);
            assert(c@.subrange(0, 32) =~= c@);
            seen.insert(key, Vec::new());
            assert(commit_at(st, c@) == Some(obj@));
            let ghost lk = parents_of(st, c@);
            push_parents(stack, &obj);
            proof {
                assert(id_views(stack@) == rest + lk);
                assert forall|i: int| 0 <= i < seen@.len() implies (#[trigger] seen@[i]).0.len() == 32 && has_path(st, obj_key_spec(seen@[i].0)) by {
                    let x = seen@[i].0;
                    crate::snapshot::lemma_lookup_at(seen@, i);
                    if x != c@ {
                        assert(has_path(seen0, x));
                        let j = path_index(seen0, x);
                    }
                }
                assert forall|x: Seq<u8>| #[trigger] has_path(seen@, x) implies reaches_any(st, rv, x) && commit_at(st, x) is Some by {
                    assert(lookup(seen@, x) is Some == has_path(seen@, x));
                }
                assert forall|x: Seq<u8>, p: Seq<u8>| has_path(seen@, x) && #[trigger] parents_of(st, x).contains(p) implies #[trigger] has_path(seen@, p)
                    || id_views(stack@).contains(p) by {
                    assert(lookup(seen@, x) is Some == has_path(seen@, x));
                    assert(lookup(seen@, p) is Some == has_path(seen@, p));
                    if x == c@ {
                        let j = choose|j: int| 0 <= j < lk.len() && lk[j] == p;
                        assert(id_views(stack@)[rest.len() + j] == p);
                    } else if !has_path(seen0, p) && p != c@ {
                        assert(id_views(before_pop).contains(p));
                        assert(rest.push(c@).contains(p));
                        let j0 = choose|j: int| 0 <= j < rest.push(c@).len() && rest.push(c@)[j] == p;
                        assert(rest[j0] == p);
                        assert(id_views(stack@)[j0] == p);
                    }
                }
                assert forall|i: int| 0 <= i < rv.len() implies has_path(seen@, #[trigger] rv[i]) || id_views(stack@).contains(rv[i]) by {
                    assert(lookup(seen@, rv[i]) is Some == has_path(seen@, rv[i]));
                    assert(lookup(seen0, rv[i]) is Some == has_path(seen0, rv[i]));
                    if !has_path(seen0, rv[i]) && rv[i] != c@ {
                        let j = choose|j: int| 0 <= j < id_views(before_pop).len() && id_views(before_pop)[j] == rv[i];
                        assert(j < rest.len());
                        assert(id_views(stack@)[j] == rv[i]);
                    }
                }
                lemma_seen_bound(st, seen@);
                assert forall|i: int| 0 <= i < stack@.len() implies reaches_any(st, rv, #[trigger] id_views(stack@)[i]) by {
                    if i < rest.len() {
                        assert(id_views(stack@)[i] == rest[i]);
                        assert(rest[i] == id_views(before_pop)[i]);
                    } else {
                        let p = lk[i - rest.len()];
                        assert(id_views(stack@)[i] == p);
                        let k = choose|k: int| 0 <= k < rv.len() && #[trigger] reaches(st, rv[k], c@);
                        lemma_reaches_parent(st, rv[k], c@, p);
                    }
                }
            }
        } else {
            proof {
                assert forall|x: Seq<u8>, p: Seq<u8>| has_path(seen@, x) && #[trigger] parents_of(st, x).contains(p) implies #[trigger] has_path(seen@, p)
                    || id_views(stack@).contains(p) by {
                    if !has_path(seen@, p) {
                        assert(id_views(before_pop).contains(p));
                        assert(rest.push(c@).contains(p));
                        if p != c@ {
                            let j = choose|j: int| 0 <= j < rest.push(c@).len() && rest.push(c@)[j] == p;
                            assert(rest[j] == p);
                        }
                    }
                }
                assert forall|i: int| 0 <= i < stack@.len() implies reaches_any(st, rv, #[trigger] id_views(stack@)[i]) by {
                    assert(id_views(stack@)[i] == id_views(before_pop)[i]);
                }
                assert forall|i: int| 0 <= i < rv.len() implies has_path(seen@, #[trigger] rv[i]) || id_views(stack@).contains(rv[i]) by {
                    if !has_path(seen@, rv[i]) {
                        let j = choose|j: int| 0 <= j < id_views(before_pop).len() && id_views(before_pop)[j] == rv[i];
                        if j < rest.len() {
                            assert(id_views(stack@)[j] == rv[i]);
                        } else {
                            assert(rv[i] == c@);
                        }
                    }
                }
            }
        }
        proof {
            lemma_seen_bound(st, seen@);
        }
        Ok(())
    }

    /// The best common ancestors of `a` and `b`: common ancestors that are
    /// not themselves ancestors of another common ancestor. Usually one;
    /// two or more after a criss-cross merge. Sorted by id.
    #[verifier::rlimit(40)]
    pub fn merge_bases(&self, a: &ObjectId, b: &ObjectId) -> (r: Result<Vec<ObjectId>, RepoError>)
        requires
            self.wf(),
        ensures
            r matches Ok(v) ==> ids_sorted(id_views(v@)) && forall|x: Seq<u8>| #[trigger] id_views(v@).contains(x)
                <==> merge_base_of(self@, a@, b@, x),
            r is Ok <==> histories_complete(self@, a@, b@),
    {
        let ghost st = self@;
        let va = match self.ancestors(a) {
            Ok(v) => v,
            Err(e) => return Err(e),
        };
        let vb = match self.ancestors(b) {
            Ok(v) => v,
            Err(e) => return Err(e),
        };
        let common = select_ids(&va, &vb, true);
        let ghost cv = id_views(common@);
        let mut roots: Vec<ObjectId> = Vec::new();
        let mut k: usize = 0;
        while k < common.len()
            invariant
                st == self@,
                self.wf(),
                k <= common@.len(),
                cv == id_views(common@),
                forall|x: Seq<u8>| #[trigger] cv.contains(x) <==> common_ancestor(st, a@, b@, x),
                forall|x: Seq<u8>| #[trigger] reaches(st, a@, x) ==> commit_at(st, x) is Some,
                parents_of_common(st, a@, b@, id_views(roots@)),
                forall|q: int, p: Seq<u8>| 0 <= q < k && #[trigger] parents_of(st, cv[q]).contains(p) ==> #[trigger] id_views(roots@).contains(p),
            decreases common@.len() - k,
        {
            assert(cv.contains(cv[k as int]));
            let ghost c = cv[k as int];
            assert(stored(st, c, ObjectView::Commit(commit_at(st, c)->Some_0)));
            let cm = match self.commit_of(&common[k]) {
                Ok(x) => x,
                Err(e) => return Err(e),
            };
            assert(commit_at(st, c) == Some(cm@));
            let ghost before = id_views(roots@);
            push_parents(&mut roots, &cm);
            proof {
                let now = id_views(roots@);
                assert forall|j: int| 0 <= j < now.len() implies #[trigger] parent_of_common(st, a@, b@, now[j]) by {
                    if j < before.len() {
                        assert(now[j] == before[j]);
                        assert(parent_of_common(st, a@, b@, before[j]));
                    } else {
                        assert(now == before + cm@.parents);
                        assert(now.len() == roots@.len());
                        assert(now[j] == cm@.parents[j - before.len()]);
                        assert(parents_of(st, c).contains(now[j]));
                    }
                }
                assert forall|q: int, p: Seq<u8>| 0 <= q < k + 1 && #[trigger] parents_of(st, cv[q]).contains(p) implies #[trigger] now.contains(p) by {
                    if q < k {
                        assert(before.contains(p));
                        let j = choose|j: int| 0 <= j < before.len() && before[j] == p;
                        assert(now[j] == p);
                    } else {
                        let j = choose|j: int| 0 <= j < cm@.parents.len() && cm@.parents[j] == p;
                        assert(now[before.len() + j] == p);
                    }
                }
            }
            k = k + 1;
        }
        let ghost rv = id_views(roots@);
        proof {
            assert forall|x: Seq<u8>| #[trigger] reaches_any(st, rv, x) implies reaches(st, a@, x) by {
                let i = choose|i: int| 0 <= i < rv.len() && #[trigger] reaches(st, rv[i], x);
                assert(parent_of_common(st, a@, b@, rv[i]));
                let c = choose|c: Seq<u8>| common_ancestor(st, a@, b@, c) && #[trigger] parents_of(st, c).contains(rv[i]);
                lemma_reaches_parent(st, a@, c, rv[i]);
                lemma_reaches_trans(st, a@, rv[i], x);
            }
        }
        let dom = match self.ancestors_all(roots.as_slice()) {
            Ok(v) => v,
            Err(e) => {
                proof {
                    let x = choose|x: Seq<u8>| #[trigger] reaches_any(st, rv, x) && commit_at(st, x) is None;
                    assert(reaches(st, a@, x));
                }
                return Err(e);
            },
        };
        let out = select_ids(&common, &dom, false);
        proof {
            assert forall|x: Seq<u8>| #[trigger] id_views(dom@).contains(x) <==> dominated(st, a@, b@, x) by {
                if reaches_any(st, rv, x) {
                    let i = choose|i: int| 0 <= i < rv.len() && #[trigger] reaches(st, rv[i], x);
                    assert(parent_of_common(st, a@, b@, rv[i]));
                    let c = choose|c: Seq<u8>| common_ancestor(st, a@, b@, c) && #[trigger] parents_of(st, c).contains(rv[i]);
                    assert(dominated(st, a@, b@, x));
                }
                if dominated(st, a@, b@, x) {
                    let (c, p) = choose|c: Seq<u8>, p: Seq<u8>|
                        common_ancestor(st, a@, b@, c) && #[trigger] parents_of(st, c).contains(p) && #[trigger] reaches(st, p, x);
                    assert(cv.contains(c));
                    let q = choose|q: int| 0 <= q < cv.len() && cv[q] == c;
                    assert(parents_of(st, cv[q]).contains(p));
                    assert(rv.contains(p));
                    let i = choose|i: int| 0 <= i < rv.len() && rv[i] == p;
                    assert(reaches(st, rv[i], x));
                }
            }
        }
        Ok(out)
    }

    /// One merge base, chosen deterministically (newest timestamp, then
    /// id); `None` if the histories are unrelated.
    pub fn merge_base(&self, a: &ObjectId, b: &ObjectId) -> (r: Result<Option<ObjectId>, RepoError>)
        requires
            self.wf(),
        ensures
            r is Ok <==> histories_complete(self@, a@, b@),
            r matches Ok(None) ==> forall|x: Seq<u8>| !#[trigger] merge_base_of(self@, a@, b@, x),
            r matches Ok(Some(m)) ==> merge_base_of(self@, a@, b@, m@) && forall|y: Seq<u8>| #[trigger] merge_base_of(self@, a@, b@, y)
                && y != m@ ==> newer(self@, m@, y),
    {
        let ghost st = self@;
        let bases = match self.merge_bases(a, b) {
            Ok(v) => v,
            Err(e) => return Err(e),
        };
        let ghost bv = id_views(bases@);
        let mut best: Option<(u64, ObjectId)> = None;
        let mut i: usize = 0;
        while i < bases.len()
            invariant
                st == self@,
                self.wf(),
                i <= bases@.len(),
                bv == id_views(bases@),
                ids_sorted(bv),
                forall|x: Seq<u8>| #[trigger] bv.contains(x) ==> reaches(st, a@, x),
                forall|x: Seq<u8>| #[trigger] reaches(st, a@, x) ==> commit_at(st, x) is Some,
                best is None <==> i == 0,
                best matches Some((t, m)) ==> commit_at(st, m@) matches Some(c) && c.timestamp == t && exists|j: int| 0 <= j < i && bv[j] == m@,
                best matches Some((t, m)) ==> forall|j: int| 0 <= j < i && bv[j] != m@ ==> newer(st, m@, #[trigger] bv[j]),
            decreases bases@.len() - i,
        {
            assert(bv.contains(bv[i as int]));
            let ghost x = bv[i as int];
            assert(stored(st, x, ObjectView::Commit(commit_at(st, x)->Some_0)));
            let cm = match self.commit_of(&bases[i]) {
                Ok(c) => c,
                Err(e) => return Err(e),
            };
            assert(commit_at(st, x) == Some(cm@));
            let take = match best {
                None => true,
                Some((t, m)) => t < cm.timestamp || (t == cm.timestamp && crate::bytes::compare_bytes(&m.0, &bases[i].0) == crate::bytes::Order::Less),
            };
            proof {
                if let Some((t, m)) = best {
                    let jm = choose|j: int| 0 <= j < i && bv[j] == m@;
                    assert(lex_lt(bv[jm], bv[i as int]));
                }
            }
            if take {
                best = Some((cm.timestamp, bases[i]));
            }
            proof {
                if let Some((t, m)) = best {
                    assert forall|j: int| 0 <= j < i + 1 && bv[j] != m@ implies newer(st, m@, #[trigger] bv[j]) by {
                        if j < i {
                            if take {
                                assert(lex_lt(bv[j], bv[i as int]));
                            }
                        }
                    }
                }
            }
            i = i + 1;
        }
        match best {
            None => {
                proof {
                    assert forall|x: Seq<u8>| !#[trigger] merge_base_of(st, a@, b@, x) by {
                        if merge_base_of(st, a@, b@, x) {
                            assert(bv.contains(x));
                        }
                    }
                }
                Ok(None)
            },
            Some((_, m)) => {
                proof {
                    assert(bv.contains(m@));
                    assert forall|y: Seq<u8>| #[trigger] merge_base_of(st, a@, b@, y) && y != m@ implies newer(st, m@, y) by {
                        assert(bv.contains(y));
                        let j = choose|j: int| 0 <= j < bv.len() && bv[j] == y;
                    }
                }
                Ok(Some(m))
            },
        }
    }

    /// The mainline: `from`, its first parent, that commit's first parent,
    /// and so on. A chain longer than the store has objects can only be a
    /// cycle, which is reported as corruption.
    pub fn first_parent_chain(&self, from: &ObjectId) -> (r: Result<Vec<ObjectId>, RepoError>)
        requires
            self.wf(),
        ensures
            r matches Ok(v) ==> mainline(self@, from@, self@.len()) == Some(id_views(v@)),
            r is Err <==> mainline(self@, from@, self@.len()) is None,
    {
        let ghost st = self@;
        let limit = self.store().len();
        let mut out: Vec<ObjectId> = Vec::new();
        out.push(*from);
        proof {
            if commit_at(st, from@) is Some {
                assert(stored(st, from@, ObjectView::Commit(commit_at(st, from@)->Some_0)));
            }
        }
        let mut cur = match self.commit_of(from) {
            Ok(c) => c,
            Err(e) => return Err(e),
        };
        let mut steps: usize = 0;
        assert(id_views(out@).drop_last() =~= Seq::<Seq<u8>>::empty());
        while cur.parents.len() > 0
            invariant
                st == self@,
                self.wf(),
                limit == st.len(),
                steps <= limit,
                out@.len() == steps + 1,
                commit_at(st, id_views(out@).last()) == Some(cur@),
                mainline(st, from@, st.len()) == match mainline(st, id_views(out@).last(), (st.len() - steps) as nat) {
                    Some(rest) => Some(id_views(out@).drop_last() + rest),
                    None => None::<Seq<Seq<u8>>>,
                },
            decreases limit - steps,
        {
            let ghost x = id_views(out@).last();
            let ghost f = (st.len() - steps) as nat;
            if steps == limit {
                assert(mainline(st, x, f) is None);
                return Err(RepoError::Corrupt(cur.parents[0]));
            }
            let p = cur.parents[0];
            assert(p@ == cur@.parents[0]);
            let ghost pre = id_views(out@).drop_last();
            out.push(p);
            assert(id_views(out@) =~= id_views(out@).drop_last().push(p@));
            assert(id_views(out@).drop_last() =~= pre + seq![x]);
            proof {
                if commit_at(st, p@) is Some {
                    assert(stored(st, p@, ObjectView::Commit(commit_at(st, p@)->Some_0)));
                }
                match mainline(st, p@, (f - 1) as nat) {
                    Some(rest) => {
                        assert(pre + (seq![x] + rest) =~= (pre + seq![x]) + rest);
                    },
                    None => {},
                }
            }
            cur = match self.commit_of(&p) {
                Ok(c) => c,
                Err(e) => return Err(e),
            };
            steps = steps + 1;
        }
        proof {
            let x = id_views(out@).last();
            assert(id_views(out@).drop_last() + seq![x] =~= id_views(out@));
        }
        Ok(out)
    }

    /// True if `ancestor` is reachable from `descendant` (a commit is its own
    /// ancestor).
    pub fn is_ancestor(&self, ancestor: &ObjectId, descendant: &ObjectId) -> (r: Result<bool, RepoError>)
        requires
            self.wf(),
        ensures
            r matches Ok(b) ==> b == reaches(self@, descendant@, ancestor@),
            r is Err ==> exists|x: Seq<u8>| #[trigger] reaches(self@, descendant@, x) && commit_at(self@, x) is None,
            r is Ok ==> forall|x: Seq<u8>| #[trigger] reaches(self@, descendant@, x) ==> commit_at(self@, x) is Some,
            (forall|x: Seq<u8>| #[trigger] reaches(self@, descendant@, x) ==> commit_at(self@, x) is Some) ==> r is Ok,
    {
        let all = match self.ancestors(descendant) {
            Ok(v) => v,
            Err(e) => return Err(e),
        };
        Ok(contains_id(&all, ancestor))
    }
}

/// `id` is among `v`.
pub fn contains_id(v: &Vec<ObjectId>, id: &ObjectId) -> (r: bool)
    ensures
        r == id_views(v@).contains(id@),
{
    let mut i: usize = 0;
    while i < v.len()
        invariant
            i <= v@.len(),
            forall|j: int| 0 <= j < i ==> id_views(v@)[j] != id@,
        decreases v@.len() - i,
    {
        if crate::bytes::bytes_eq(&v[i].0, &id.0) {
            assert(id_views(v@)[i as int] == id@);
            return true;
        }
        i = i + 1;
    }
    false
}

} // verus!
