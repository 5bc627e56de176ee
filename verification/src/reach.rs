//! Reachability and raw ingestion, the two things synchronization needs
//! from a repository: "which objects does this commit depend on?" and "store
//! these bytes only if they really are a valid object".

use vstd::prelude::*;

use crate::bytes::copy_range;
use crate::digest::sha256;
use crate::graph::{id_views, ids_sorted, lemma_seen_bound, set_ids};
use crate::object::{decode_view, EntryView, Object, ObjectId, ObjectView};
use crate::repo::{obj_key_spec, stored, Repo, RepoError};
use crate::snapshot::{has_path, lookup, path_index, Files, Listing};

verus! {

/// The object stored (and verified) under `id`, if any.
pub open spec fn object_at(store: Listing, id: Seq<u8>) -> Option<ObjectView> {
    match lookup(store, obj_key_spec(id)) {
        Some(b) => if sha256(b) == id {
            match decode_view(b) {
                Ok(o) => Some(o),
                Err(_) => None,
            }
        } else {
            None
        },
        None => None,
    }
}

/// The ids an object refers to: a tree's entries, a commit's tree and
/// parents.
pub open spec fn links_of(store: Listing, id: Seq<u8>) -> Seq<Seq<u8>> {
    match object_at(store, id) {
        Some(ObjectView::Tree(es)) => es.map_values(|e: EntryView| e.id),
        Some(ObjectView::Commit(c)) => seq![c.tree] + c.parents,
        _ => seq![],
    }
}

/// `path` follows links from its first id to its last.
pub open spec fn link_path(store: Listing, path: Seq<Seq<u8>>) -> bool {
    &&& path.len() > 0
    &&& forall|i: int, j: int|
        0 <= i && j == i + 1 && j < path.len() ==> links_of(store, #[trigger] path[i]).contains(#[trigger] path[j])
}

/// `to` is `from` or something `from` depends on.
pub open spec fn links_to(store: Listing, from: Seq<u8>, to: Seq<u8>) -> bool {
    exists|path: Seq<Seq<u8>>| #[trigger] link_path(store, path) && path[0] == from && path.last() == to
}

/// `x` is one of `roots` or something one of them depends on.
pub open spec fn reachable_from(store: Listing, roots: Seq<Seq<u8>>, x: Seq<u8>) -> bool {
    exists|i: int| 0 <= i < roots.len() && #[trigger] links_to(store, roots[i], x)
}

proof fn lemma_links_self(store: Listing, x: Seq<u8>)
    ensures
        links_to(store, x, x),
{
    assert(link_path(store, seq![x]));
}

pub proof fn lemma_links_step(store: Listing, from: Seq<u8>, x: Seq<u8>, p: Seq<u8>)
    requires
        links_to(store, from, x),
        links_of(store, x).contains(p),
    ensures
        links_to(store, from, p),
{
    let path = choose|path: Seq<Seq<u8>>| #[trigger] link_path(store, path) && path[0] == from && path.last() == x;
    let np = path.push(p);
    assert forall|i: int, j: int| 0 <= i && j == i + 1 && j < np.len() implies links_of(store, #[trigger] np[i]).contains(
        #[trigger] np[j],
    ) by {
        if j < path.len() {
            assert(np[i] == path[i] && np[j] == path[j]);
        } else {
            assert(np[i] == x);
        }
    }
    assert(link_path(store, np));
}

proof fn lemma_link_members(store: Listing, s: Listing, path: Seq<Seq<u8>>, k: int)
    requires
        link_path(store, path),
        0 <= k < path.len(),
        has_path(s, path[0]),
        forall|y: Seq<u8>, p: Seq<u8>| has_path(s, y) && #[trigger] links_of(store, y).contains(p) ==> #[trigger] has_path(s, p),
    ensures
        has_path(s, path[k]),
    decreases k,
{
    if k > 0 {
        lemma_link_members(store, s, path, k - 1);
        assert(links_of(store, path[k - 1]).contains(path[k]));
    }
}

/// The search so far: what has been read reaches from the roots and
/// verifies, what it refers to has been read or is waiting, everything
/// waiting reaches from the roots, and every root has been read or waits.
pub open spec fn dfs_inv(st: Listing, rv: Seq<Seq<u8>>, seen: Listing, stack: Seq<Seq<u8>>) -> bool {
    &&& forall|i: int| 0 <= i < seen.len() ==> (#[trigger] seen[i]).0.len() == 32
    &&& forall|i: int| 0 <= i < seen.len() ==> has_path(st, obj_key_spec(#[trigger] seen[i].0))
    &&& forall|x: Seq<u8>| #[trigger] has_path(seen, x) ==> reachable_from(st, rv, x) && object_at(st, x) is Some
    &&& forall|x: Seq<u8>, p: Seq<u8>| has_path(seen, x) && #[trigger] links_of(st, x).contains(p) ==> #[trigger] has_path(seen, p)
        || stack.contains(p)
    &&& forall|i: int| 0 <= i < stack.len() ==> reachable_from(st, rv, #[trigger] stack[i])
    &&& forall|i: int| 0 <= i < rv.len() ==> has_path(seen, #[trigger] rv[i]) || stack.contains(rv[i])
}

/// Pushes the ids an object refers to.
fn push_links(stack: &mut Vec<ObjectId>, o: &Object)
    ensures
        id_views(final(stack)@) == id_views(old(stack)@) + match o@ {
            ObjectView::Tree(es) => es.map_values(|e: EntryView| e.id),
            ObjectView::Commit(c) => seq![c.tree] + c.parents,
            _ => seq![],
        },
{
    match o {
        Object::Blob(_) => {
            assert(id_views(stack@) =~= id_views(stack@) + Seq::<Seq<u8>>::empty());
        },
        Object::Tree(t) => {
            let es = t.entries();
            let ghost ev = t@;
            assert(ev == es@.map_values(|e: crate::object::TreeEntry| e@));
            let mut k: usize = 0;
            while k < es.len()
                invariant
                    k <= es@.len(),
                    ev == es@.map_values(|e: crate::object::TreeEntry| e@),
                    id_views(stack@) == id_views(old(stack)@) + ev.map_values(|e: EntryView| e.id).subrange(0, k as int),
                decreases es@.len() - k,
            {
                let ghost b = id_views(stack@);
                stack.push(es[k].id);
                assert(ev[k as int] == es@[k as int]@);
                assert(id_views(stack@) =~= b.push(ev[k as int].id));
                assert(id_views(old(stack)@) + ev.map_values(|e: EntryView| e.id).subrange(0, k + 1) =~= b.push(ev[k as int].id));
                k = k + 1;
            }
            assert(ev.map_values(|e: EntryView| e.id).subrange(0, es@.len() as int) =~= ev.map_values(|e: EntryView| e.id));
        },
        Object::Commit(c) => {
            let ghost cv = c@;
            stack.push(c.tree);
            let mut k: usize = 0;
            while k < c.parents.len()
                invariant
                    k <= c.parents@.len(),
                    cv.parents == id_views(c.parents@),
                    cv == c@,
                    id_views(stack@) == id_views(old(stack)@) + (seq![cv.tree] + cv.parents.subrange(0, k as int)),
                decreases c.parents@.len() - k,
            {
                let ghost b = id_views(stack@);
                stack.push(c.parents[k]);
                assert(id_views(stack@) =~= b.push(cv.parents[k as int]));
                assert(id_views(old(stack)@) + (seq![cv.tree] + cv.parents.subrange(0, k + 1)) =~= b.push(cv.parents[k as int]));
                k = k + 1;
            }
            assert(cv.parents.subrange(0, c.parents@.len() as int) =~= cv.parents);
        },
    }
}

impl Repo {
    /// Every object reachable from `roots` (the roots themselves, commit
    /// parents and trees, subtrees, blobs), in id order. Fails if anything
    /// in the closure is absent or does not verify, so success means the
    /// closure is complete.
    #[verifier::loop_isolation(false)]
    #[verifier::spinoff_prover]
    #[verifier::rlimit(100)]
    pub fn reachable(&self, roots: &[ObjectId]) -> (r: Result<Vec<ObjectId>, RepoError>)
        requires
            self.wf(),
        ensures
            r matches Ok(v) ==> ids_sorted(id_views(v@)) && (forall|x: Seq<u8>| #[trigger] id_views(v@).contains(x)
                <==> reachable_from(self@, id_views(roots@), x)),
            r is Err ==> exists|x: Seq<u8>| #[trigger] reachable_from(self@, id_views(roots@), x) && object_at(self@, x) is None,
            r is Ok ==> forall|x: Seq<u8>| #[trigger] reachable_from(self@, id_views(roots@), x) ==> object_at(self@, x) is Some,
            (forall|x: Seq<u8>| #[trigger] reachable_from(self@, id_views(roots@), x) ==> object_at(self@, x) is Some) ==> r is Ok,
    {
        let ghost st = self@;
        let ghost rv = id_views(roots@);
        let mut seen = Files::new();
        let mut stack: Vec<ObjectId> = Vec::new();
        let mut q: usize = 0;
        while q < roots.len()
            invariant
                q <= roots@.len(),
                id_views(stack@) == rv.subrange(0, q as int),
            decreases roots@.len() - q,
        {
            stack.push(roots[q]);
            assert(id_views(stack@) =~= rv.subrange(0, q + 1));
            q = q + 1;
        }
        proof {
            assert(rv.subrange(0, rv.len() as int) =~= rv);
            assert forall|i: int| 0 <= i < stack@.len() implies reachable_from(st, rv, #[trigger] id_views(stack@)[i]) by {
                lemma_links_self(st, rv[i]);
                assert(links_to(st, rv[i], rv[i]));
            }
            assert forall|i: int| 0 <= i < rv.len() implies has_path(seen@, #[trigger] rv[i]) || id_views(stack@).contains(rv[i]) by {
                assert(id_views(stack@)[i] == rv[i]);
            }
        }
        while stack.len() > 0
            invariant
                st == self@,
                rv == id_views(roots@),
                seen.wf(),
                dfs_inv(st, rv, seen@, id_views(stack@)),
            decreases st.len() - seen@.len(), stack@.len(),
        {
            match self.visit(&mut seen, &mut stack, Ghost(rv)) {
                Ok(()) => {},
                Err(e) => return Err(e),
            }
        }
        proof {
            assert forall|x: Seq<u8>| reachable_from(st, rv, x) implies #[trigger] has_path(seen@, x) by {
                let i = choose|i: int| 0 <= i < rv.len() && #[trigger] links_to(st, rv[i], x);
                assert(has_path(seen@, rv[i]));
                let path = choose|path: Seq<Seq<u8>>| #[trigger] link_path(st, path) && path[0] == rv[i] && path.last() == x;
                lemma_link_members(st, seen@, path, path.len() - 1);
            }
            assert forall|x: Seq<u8>| #[trigger] reachable_from(st, rv, x) implies object_at(st, x) is Some by {
                assert(has_path(seen@, x));
            }
        }
        let out = set_ids(&seen);
        proof {
            let v = id_views(out@);
            assert forall|x: Seq<u8>| #[trigger] v.contains(x) <==> reachable_from(st, rv, x) by {
                if v.contains(x) {
                    let i = choose|i: int| 0 <= i < v.len() && v[i] == x;
                    assert(v[i] == seen@[i].0);
                    assert(has_path(seen@, x));
                }
                if reachable_from(st, rv, x) {
                    assert(has_path(seen@, x));
                    let i = path_index(seen@, x);
                    assert(v[i] == x);
                }
            }
        }
        Ok(out)
    }

    /// One step of the search: takes the top of the stack and, if it is
    /// new, reads it and pushes what it refers to.
    #[verifier::loop_isolation(false)]
    #[verifier::spinoff_prover]
    #[verifier::rlimit(100)]
    fn visit(&self, seen: &mut Files, stack: &mut Vec<ObjectId>, rv: Ghost<Seq<Seq<u8>>>) -> (r: Result<(), RepoError>)
        requires
            self.wf(),
            old(seen).wf(),
            old(stack)@.len() > 0,
            dfs_inv(self@, rv@, old(seen)@, id_views(old(stack)@)),
        ensures
            r is Ok ==> final(seen).wf() && dfs_inv(self@, rv@, final(seen)@, id_views(final(stack)@)) && final(seen)@.len() <= self@.len() && (
            final(seen)@.len() > old(seen)@.len() || (final(seen)@.len() == old(seen)@.len() && final(stack)@.len() < old(stack)@.len())),
            r is Err ==> exists|x: Seq<u8>| #[trigger] reachable_from(self@, rv@, x) && object_at(self@, x) is None,
    {
        let ghost st = self@;
        let ghost rv = rv@;
        proof {
            lemma_seen_bound(st, seen@);
        }
        let ghost before_pop = stack@;
        let c = stack.pop().unwrap();
        let ghost rest = id_views(stack@);
        assert(id_views(before_pop) =~= rest.push(c@));
        assert(id_views(before_pop)[before_pop.len() - 1] == c@);
        assert(reachable_from(st, rv, c@));
        if seen.get(&c.0).is_none() {
            let obj = match self.require(&c) {
                Ok(x) => x,
                Err(e) => {
                    proof {
                        if object_at(st, c@) is Some {
                            assert(stored(st, c@, object_at(st, c@)->Some_0));
                        }
                    }
                    return Err(e);
                },
            };
            let ghost seen0 = seen@;
            let key = copy_range(&c.0, 0, 32);
            assert(c@.subrange(0, 32) =~= c@);
            seen.insert(key, Vec::new());
            assert(object_at(st, c@) == Some(obj@));
            let ghost lk = links_of(st, c@);
            push_links(stack, &obj);
            proof {
                assert(id_views(stack@) == rest + lk);
                assert forall|i: int| 0 <= i < seen@.len() implies (#[trigger] seen@[i]).0.len() == 32 && has_path(st, obj_key_spec(seen@[i].0)) by {
                    let x = seen@[i].0;
                    crate::snapshot::lemma_lookup_at(seen@, i);
                    if x != c@ {
                        assert(has_path(seen0, x));
                        let j = path_index(seen0, x);
                    }
                }
                assert forall|x: Seq<u8>| #[trigger] has_path(seen@, x) implies reachable_from(st, rv, x) && object_at(st, x) is Some by {
                    assert(lookup(seen@, x) is Some == has_path(seen@, x));
                }
                assert forall|x: Seq<u8>, p: Seq<u8>| has_path(seen@, x) && #[trigger] links_of(st, x).contains(p) implies #[trigger] has_path(seen@, p)
                    || id_views(stack@).contains(p) by {
                    assert(lookup(seen@, x) is Some == has_path(seen@, x));
                    assert(lookup(seen@, p) is Some == has_path(seen@, p));
                    if x == c@ {
                        let j = choose|j: int| 0 <= j < lk.len() && lk[j] == p;
                        assert(id_views(stack@)[rest.len() + j] == p);
                    } else if !has_path(seen0, p) && p != c@ {
                        assert(id_views(before_pop).contains(p));
                        assert(rest.push(c@).contains(p));
                        let j0 = choose|j: int| 0 <= j < rest.push(c@).len() && rest.push(c@)[j] == p;
                        assert(rest[j0] == p);
                        assert(id_views(stack@)[j0] == p);
                    }
                }
                assert forall|i: int| 0 <= i < rv.len() implies has_path(seen@, #[trigger] rv[i]) || id_views(stack@).contains(rv[i]) by {
                    assert(lookup(seen@, rv[i]) is Some == has_path(seen@, rv[i]));
                    assert(lookup(seen0, rv[i]) is Some == has_path(seen0, rv[i]));
                    if !has_path(seen0, rv[i]) && rv[i] != c@ {
                        let j = choose|j: int| 0 <= j < id_views(before_pop).len() && id_views(before_pop)[j] == rv[i];
                        assert(j < rest.len());
                        assert(id_views(stack@)[j] == rv[i]);
                    }
                }
                lemma_seen_bound(st, seen@);
                assert forall|i: int| 0 <= i < stack@.len() implies reachable_from(st, rv, #[trigger] id_views(stack@)[i]) by {
                    if i < rest.len() {
                        assert(id_views(stack@)[i] == rest[i]);
                        assert(rest[i] == id_views(before_pop)[i]);
                    } else {
                        let p = lk[i - rest.len()];
                        assert(id_views(stack@)[i] == p);
                        let k = choose|k: int| 0 <= k < rv.len() && #[trigger] links_to(st, rv[k], c@);
                        lemma_links_step(st, rv[k], c@, p);
                    }
                }
            }
        } else {
            proof {
                assert forall|x: Seq<u8>, p: Seq<u8>| has_path(seen@, x) && #[trigger] links_of(st, x).contains(p) implies #[trigger] has_path(seen@, p)
                    || id_views(stack@).contains(p) by {
                    if !has_path(seen@, p) {
                        assert(id_views(before_pop).contains(p));
                        assert(rest.push(c@).contains(p));
                        if p != c@ {
                            let j = choose|j: int| 0 <= j < rest.push(c@).len() && rest.push(c@)[j] == p;
                            assert(rest[j] == p);
                        }
                    }
                }
                assert forall|i: int| 0 <= i < stack@.len() implies reachable_from(st, rv, #[trigger] id_views(stack@)[i]) by {
                    assert(id_views(stack@)[i] == id_views(before_pop)[i]);
                }
                assert forall|i: int| 0 <= i < rv.len() implies has_path(seen@, #[trigger] rv[i]) || id_views(stack@).contains(rv[i]) by {
                    if !has_path(seen@, rv[i]) {
                        let j = choose|j: int| 0 <= j < id_views(before_pop).len() && id_views(before_pop)[j] == rv[i];
                        if j < rest.len() {
                            assert(id_views(stack@)[j] == rv[i]);
                        } else {
                            assert(rv[i] == c@);
                        }
                    }
                }
            }
        }
        proof {
            lemma_seen_bound(st, seen@);
        }
        Ok(())
    }

    /// True if `id` and everything it depends on is present and verifies.
    pub fn is_complete(&self, id: &ObjectId) -> (r: bool)
        requires
            self.wf(),
        ensures
            r == forall|x: Seq<u8>| #[trigger] reachable_from(self@, seq![id@], x) ==> object_at(self@, x) is Some,
    {
        let mut roots: Vec<ObjectId> = Vec::new();
        roots.push(*id);
        assert(id_views(roots@) =~= seq![id@]);
        let r = self.reachable(roots.as_slice());
        proof {
            if r is Err {
                let x = choose|x: Seq<u8>| #[trigger] reachable_from(self@, seq![id@], x) && object_at(self@, x) is None;
            }
        }
        r.is_ok()
    }
}

} // verus!
