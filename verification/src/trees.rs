//! Snapshots written to (and read back from) nested tree objects. A
//! snapshot's tree id depends only on its contents, so identical files and
//! identical subdirectories anywhere, in any commit, are the same stored
//! object: deduplication is a consequence of content addressing.

use vstd::prelude::*;

use crate::bytes::{append_bytes, copy_range};
use crate::object::{lemma_ascending_pairwise, names_distinct, views, tree_canonical, EntryKind, EntryView, Object, ObjectId, ObjectView, Tree, TreeEntry};
use crate::reach::object_at;
use crate::client::keeps_objects;
use crate::digest::sha256;
use crate::repo::obj_key_spec;
use crate::object::valid_name;
use crate::repo::{stored, Repo, RepoError};
use crate::snapshot::{has_path, lookup, Files, Listing};

verus! {

/// Where the first `/` of `p` is, if it has one.
pub open spec fn slash_index(p: Seq<u8>) -> Option<int>
    decreases p.len(),
{
    if p.len() == 0 {
        None
    } else if p[0] == 47 {
        Some(0)
    } else {
        match slash_index(p.drop_first()) {
            Some(i) => Some(i + 1),
            None => None,
        }
    }
}

/// `slash_index` finds the first `/`, and only a path without one has none.
pub proof fn lemma_slash_index(p: Seq<u8>)
    ensures
        slash_index(p) is None <==> !p.contains(47u8),
        slash_index(p) matches Some(i) ==> 0 <= i < p.len() && p[i] == 47 && !p.take(i).contains(47u8),
    decreases p.len(),
{
    if p.len() > 0 {
        lemma_slash_index(p.drop_first());
        if p[0] != 47 {
            if p.drop_first().contains(47u8) {
                let k = choose|k: int| 0 <= k < p.drop_first().len() && p.drop_first()[k] == 47u8;
                assert(p[k + 1] == 47u8);
            }
            if p.contains(47u8) {
                let k = choose|k: int| 0 <= k < p.len() && p[k] == 47u8;
                assert(p.drop_first()[k - 1] == 47u8);
            }
            if let Some(i) = slash_index(p.drop_first()) {
                assert forall|k: int| 0 <= k < i + 1 implies #[trigger] p.take(i + 1)[k] != 47u8 by {
                    if k > 0 {
                        assert(p.take(i + 1)[k] == p.drop_first().take(i)[k - 1]);
                    }
                }
            }
        }
    } else {
        assert(!p.contains(47u8));
    }
}

/// A name without `/`, then `/` and the rest: the first `/` is after the
/// name.
pub proof fn lemma_slash_after_name(n: Seq<u8>, rest: Seq<u8>)
    requires
        !n.contains(47u8),
    ensures
        slash_index(n + seq![47u8] + rest) == Some(n.len() as int),
        (n + seq![47u8] + rest).take(n.len() as int) == n,
        (n + seq![47u8] + rest).skip(n.len() as int + 1) == rest,
    decreases n.len(),
{
    let p = n + seq![47u8] + rest;
    if n.len() == 0 {
        assert(p[0] == 47);
    } else {
        assert(n[0] != 47u8);
        lemma_slash_after_name(n.drop_first(), rest);
        assert(p.drop_first() =~= n.drop_first() + seq![47u8] + rest);
    }
    assert(p.take(n.len() as int) =~= n);
    assert(p.skip(n.len() as int + 1) =~= rest);
}

/// The entries of the tree stored (and verified) under `id`, if any.
pub open spec fn tree_at(store: Listing, id: Seq<u8>) -> Option<Seq<EntryView>> {
    match object_at(store, id) {
        Some(ObjectView::Tree(es)) => Some(es),
        _ => None,
    }
}

/// The contents of the blob stored (and verified) under `id`, if any.
pub open spec fn blob_at(store: Listing, id: Seq<u8>) -> Option<Seq<u8>> {
    match object_at(store, id) {
        Some(ObjectView::Blob(d)) => Some(d),
        _ => None,
    }
}

/// `es` has an entry named `n` of kind `k`.
pub open spec fn has_entry(es: Seq<EntryView>, n: Seq<u8>, k: EntryKind) -> bool {
    exists|i: int| 0 <= i < es.len() && (#[trigger] es[i]).name == n && es[i].kind == k
}

/// The id of the entry named `n` of kind `k`.
pub open spec fn entry_id(es: Seq<EntryView>, n: Seq<u8>, k: EntryKind) -> Seq<u8> {
    es[choose|i: int| 0 <= i < es.len() && (#[trigger] es[i]).name == n && es[i].kind == k].id
}

/// What the tree under `id` holds at relative path `p` (`/`-separated),
/// going at most `depth` directories down.
pub open spec fn file_at(store: Listing, id: Seq<u8>, p: Seq<u8>, depth: nat) -> Option<Seq<u8>>
    decreases depth,
{
    match tree_at(store, id) {
        None => None,
        Some(es) => match slash_index(p) {
            None => if has_entry(es, p, EntryKind::File) {
                blob_at(store, entry_id(es, p, EntryKind::File))
            } else {
                None
            },
            Some(i) => if has_entry(es, p.take(i), EntryKind::Dir) && depth > 0 {
                file_at(store, entry_id(es, p.take(i), EntryKind::Dir), p.skip(i + 1), (depth - 1) as nat)
            } else {
                None
            },
        },
    }
}

/// The tree under `id` can be read in full, at most `depth` directories
/// down: each file entry names a verified blob, each directory entry a
/// tree that can be read in full.
pub open spec fn readable(store: Listing, id: Seq<u8>, depth: nat) -> bool
    decreases depth,
{
    match tree_at(store, id) {
        None => false,
        Some(es) => forall|i: int|
            0 <= i < es.len() ==> match (#[trigger] es[i]).kind {
                EntryKind::File => blob_at(store, es[i].id) is Some,
                EntryKind::Dir => depth > 0 && readable(store, es[i].id, (depth - 1) as nat),
            },
    }
}

/// How deep a tree may be read: nesting deeper than this can only be a
/// cycle, which only a hash collision could make.
pub open spec fn max_depth() -> nat {
    usize::MAX as nat
}

/// `p` is `pre` followed by more.
pub open spec fn starts_with(p: Seq<u8>, pre: Seq<u8>) -> bool {
    p.len() >= pre.len() && p.take(pre.len() as int) == pre
}

/// A listing after reading the tree under `id` into it below `pre`.
pub open spec fn read_into(store: Listing, id: Seq<u8>, depth: nat, pre: Seq<u8>, before: Listing, p: Seq<u8>) -> Option<Seq<u8>> {
    if starts_with(p, pre) && file_at(store, id, p.skip(pre.len() as int), depth) is Some {
        file_at(store, id, p.skip(pre.len() as int), depth)
    } else {
        lookup(before, p)
    }
}

/// The part of a path that names an entry of the top tree.
pub open spec fn head(rel: Seq<u8>) -> Seq<u8> {
    match slash_index(rel) {
        None => rel,
        Some(i) => rel.take(i),
    }
}

/// A listing after reading the first `j` entries of the tree under `id`
/// into it below `pre`.
pub open spec fn read_upto(
    store: Listing,
    id: Seq<u8>,
    es: Seq<EntryView>,
    j: int,
    depth: nat,
    pre: Seq<u8>,
    before: Listing,
    p: Seq<u8>,
) -> Option<Seq<u8>> {
    if starts_with(p, pre) && (exists|q: int| 0 <= q < j && #[trigger] es[q].name == head(p.skip(pre.len() as int))) && file_at(
        store,
        id,
        p.skip(pre.len() as int),
        depth,
    ) is Some {
        file_at(store, id, p.skip(pre.len() as int), depth)
    } else {
        lookup(before, p)
    }
}

/// An entry whose contents can be read in full.
pub open spec fn entry_readable(store: Listing, e: EntryView, depth: nat) -> bool {
    match e.kind {
        EntryKind::File => blob_at(store, e.id) is Some,
        EntryKind::Dir => depth > 0 && readable(store, e.id, (depth - 1) as nat),
    }
}

/// In a canonical tree, the entry named `es[q].name` is `es[q]`.
pub proof fn lemma_entry_unique(es: Seq<EntryView>, q: int)
    requires
        tree_canonical(es),
        0 <= q < es.len(),
    ensures
        has_entry(es, es[q].name, es[q].kind),
        entry_id(es, es[q].name, es[q].kind) == es[q].id,
        forall|k: EntryKind| k != es[q].kind ==> !#[trigger] has_entry(es, es[q].name, k),
{
    assert forall|i: int| 0 <= i < es.len() && i != q implies (#[trigger] es[i]).name != es[q].name by {
        crate::bytes::lemma_lex_equal(es[i].name, es[q].name);
        if i < q {
            lemma_ascending_pairwise(es, i, q);
        } else {
            lemma_ascending_pairwise(es, q, i);
            crate::bytes::lemma_lex_equal(es[q].name, es[i].name);
        }
    }
    assert(es[q].name == es[q].name && es[q].kind == es[q].kind);
}

/// A path under `pre` is `pre` followed by the rest.
pub proof fn lemma_prefix_split(pre: Seq<u8>, rel: Seq<u8>)
    ensures
        starts_with(pre + rel, pre),
        (pre + rel).skip(pre.len() as int) == rel,
{
    assert((pre + rel).take(pre.len() as int) =~= pre);
    assert((pre + rel).skip(pre.len() as int) =~= rel);
}

/// A valid entry name that fits in an encoded tree.
pub open spec fn component_ok(n: Seq<u8>) -> bool {
    valid_name(n) && n.len() <= 0xffff
}

/// The files of a snapshot below directory `n`, by their paths there.
pub open spec fn under(m: spec_fn(Seq<u8>) -> Option<Seq<u8>>, n: Seq<u8>) -> spec_fn(Seq<u8>) -> Option<Seq<u8>> {
    |r: Seq<u8>| m(n + seq![47u8] + r)
}

/// A snapshot (path to contents) can be written as trees at most `fuel`
/// directories deep: at every level each name is a valid entry name that
/// fits in a tree, and no name is both a file and a directory.
pub open spec fn level_ok(m: spec_fn(Seq<u8>) -> Option<Seq<u8>>, fuel: nat) -> bool
    decreases fuel,
{
    forall|p: Seq<u8>|
        #[trigger] m(p) is Some ==> match slash_index(p) {
            None => component_ok(p),
            Some(i) => component_ok(p.take(i)) && m(p.take(i)) is None && fuel > 0 && level_ok(
                under(m, p.take(i)),
                (fuel - 1) as nat,
            ),
        }
}

/// A listing as a function from path to contents.
pub open spec fn listing_fn(l: Listing) -> spec_fn(Seq<u8>) -> Option<Seq<u8>> {
    |p: Seq<u8>| lookup(l, p)
}

/// A snapshot can be written as trees.
pub open spec fn writable(l: Listing) -> bool {
    level_ok(listing_fn(l), max_depth())
}

/// `k` was empty before and now holds bytes stored under their own hash.
pub open spec fn added_hashed(before: Listing, after: Listing, k: Seq<u8>) -> bool {
    &&& lookup(before, k) is None
    &&& lookup(after, k) is Some
    &&& k == obj_key_spec(sha256(lookup(after, k)->Some_0))
}

/// The store only gained entries, each under the hash of its bytes.
pub open spec fn only_adds(before: Listing, after: Listing) -> bool {
    forall|k: Seq<u8>| #[trigger] lookup(after, k) != lookup(before, k) ==> added_hashed(before, after, k)
}

/// Gaining objects twice is gaining objects.
pub proof fn lemma_only_adds_trans(a: Listing, b: Listing, c: Listing)
    requires
        only_adds(a, b),
        only_adds(b, c),
    ensures
        only_adds(a, c),
{
    assert forall|k: Seq<u8>| #[trigger] lookup(c, k) != lookup(a, k) implies added_hashed(a, c, k) by {
        if lookup(c, k) == lookup(b, k) {
        } else if lookup(b, k) != lookup(a, k) {
            assert(added_hashed(a, b, k));
            assert(added_hashed(b, c, k));
        }
    }
}

/// Gaining entries keeps every object.
pub proof fn lemma_only_adds_keeps(a: Listing, b: Listing)
    requires
        only_adds(a, b),
    ensures
        keeps_objects(a, b),
{
}

/// Where the first `/` of `p` is.
fn find_slash(p: &[u8]) -> (r: Option<usize>)
    ensures
        match r {
            Some(i) => slash_index(p@) == Some(i as int),
            None => slash_index(p@) is None,
        },
{
    proof {
        lemma_slash_index(p@);
    }
    let mut i: usize = 0;
    while i < p.len()
        invariant
            i <= p@.len(),
            forall|j: int| 0 <= j < i ==> p@[j] != 47u8,
        decreases p@.len() - i,
    {
        if p[i] == 47u8 {
            proof {
                lemma_slash_index(p@);
                assert(p@.contains(47u8));
                if let Some(j) = slash_index(p@) {
                    if j > i {
                        assert(p@.take(j)[i as int] == 47u8);
                    }
                }
            }
            return Some(i);
        }
        i = i + 1;
    }
    proof {
        if let Some(j) = slash_index(p@) {
            assert(p@[j] == 47u8);
        }
    }
    None
}

/// Where the group named `name` is, if there is one.
fn find_group(groups: &Vec<(Vec<u8>, Files)>, name: &[u8]) -> (r: Option<usize>)
    ensures
        match r {
            Some(g) => g < groups@.len() && groups@[g as int].0@ == name@,
            None => forall|g: int| 0 <= g < groups@.len() ==> (#[trigger] groups@[g]).0@ != name@,
        },
{
    let mut g: usize = 0;
    while g < groups.len()
        invariant
            g <= groups@.len(),
            forall|x: int| 0 <= x < g ==> (#[trigger] groups@[x]).0@ != name@,
        decreases groups@.len() - g,
    {
        if crate::bytes::bytes_eq(groups[g].0.as_slice(), name) {
            return Some(g);
        }
        g = g + 1;
    }
    None
}

impl Repo {
    /// Reads the tree under `id` into `out`, each file under `prefix` and
    /// its path in the tree.
    #[verifier::rlimit(80)]
    #[verifier::spinoff_prover]
    fn read_level(&self, id: &ObjectId, prefix: &mut Vec<u8>, out: &mut Files, depth: usize) -> (r: Result<(), RepoError>)
        requires
            self.wf(),
            old(out).wf(),
        ensures
            final(out).wf(),
            r is Ok ==> final(prefix)@ == old(prefix)@,
            r is Ok <==> readable(self@, id@, depth as nat),
            r is Ok ==> forall|p: Seq<u8>| #[trigger] lookup(final(out)@, p) == read_into(self@, id@, depth as nat, old(prefix)@, old(out)@, p),
        decreases depth,
    {
        let ghost st = self@;
        let ghost pre = prefix@;
        let ghost out0 = out@;
        let obj = match self.require(id) {
            Ok(o) => o,
            Err(e) => {
                proof {
                    if object_at(st, id@) is Some {
                        assert(stored(st, id@, object_at(st, id@)->Some_0));
                    }
                }
                return Err(e);
            },
        };
        let t = match obj {
            Object::Tree(t) => t,
            _ => return Err(RepoError::WrongType(*id, "tree")),
        };
        t.check_canonical();
        let es = t.entries();
        let ghost ev = t@;
        assert(tree_at(st, id@) == Some(ev));
        let mut j: usize = 0;
        while j < es.len()
            invariant
                st == self@,
                self.wf(),
                ev == t@,
                tree_canonical(ev),
                tree_at(st, id@) == Some(ev),
                es@.map_values(|e: TreeEntry| e@) == ev,
                j <= es@.len(),
                prefix@ == pre,
                out.wf(),
                forall|q: int| 0 <= q < j ==> entry_readable(st, #[trigger] ev[q], depth as nat),
                forall|p: Seq<u8>| #[trigger] lookup(out@, p) == read_upto(st, id@, ev, j as int, depth as nat, pre, out0, p),
            decreases es@.len() - j,
        {
            let e = &es[j];
            let ghost en = ev[j as int];
            assert(e@ == en);
            proof {
                lemma_entry_unique(ev, j as int);
            }
            let ghost before = out@;
            append_bytes(prefix, e.name.as_slice());
            let ghost pn = prefix@;
            assert(pn == pre + en.name);
            match e.kind {
                EntryKind::File => {
                    let o = match self.require(&e.id) {
                        Ok(o) => o,
                        Err(err) => {
                            proof {
                                if object_at(st, en.id) is Some {
                                    assert(stored(st, en.id, object_at(st, en.id)->Some_0));
                                }
                                assert(!readable(st, id@, depth as nat));
                            }
                            return Err(err);
                        },
                    };
                    let data = match o {
                        Object::Blob(d) => d,
                        _ => {
                            proof {
                                assert(!readable(st, id@, depth as nat));
                            }
                            return Err(RepoError::WrongType(e.id, "blob"));
                        },
                    };
                    assert(blob_at(st, en.id) == Some(data@));
                    let key = copy_range(prefix.as_slice(), 0, prefix.len());
                    assert(prefix@.subrange(0, prefix@.len() as int) =~= pn);
                    out.insert(key, data);
                    proof {
                        assert(!en.name.contains(47u8));
                        lemma_slash_index(en.name);
                        assert forall|p: Seq<u8>| #[trigger] lookup(out@, p) == read_upto(st, id@, ev, j + 1, depth as nat, pre, out0, p) by {
                            let rel = p.skip(pre.len() as int);
                            if p == pn {
                                lemma_prefix_split(pre, en.name);
                                assert(head(rel) == en.name);
                                assert(ev[j as int].name == head(rel));
                            } else if starts_with(p, pre) && head(rel) == en.name {
                                assert(p =~= pre + rel);
                                if slash_index(rel) is None {
                                    assert(rel == en.name);
                                }
                                assert(file_at(st, id@, rel, depth as nat) is None);
                                assert(read_upto(st, id@, ev, j + 1, depth as nat, pre, out0, p) == lookup(out0, p));
                                assert(read_upto(st, id@, ev, j as int, depth as nat, pre, out0, p) == lookup(out0, p)) by {
                                    if exists|q: int| 0 <= q < j && #[trigger] ev[q].name == head(rel) {
                                        let q = choose|q: int| 0 <= q < j && #[trigger] ev[q].name == head(rel);
                                        lemma_entry_unique(ev, q);
                                    }
                                }
                            } else {
                                if starts_with(p, pre) && exists|q: int| 0 <= q < j + 1 && #[trigger] ev[q].name == head(rel) {
                                    let q = choose|q: int| 0 <= q < j + 1 && #[trigger] ev[q].name == head(rel);
                                    assert(q < j);
                                }
                            }
                        }
                    }
                },
                EntryKind::Dir => {
                    if depth == 0 {
                        return Err(RepoError::Corrupt(e.id));
                    }
                    prefix.push(47u8);
                    let ghost pd = prefix@;
                    assert(pd == pre + (en.name + seq![47u8]));
                    match self.read_level(&e.id, prefix, out, depth - 1) {
                        Ok(()) => {},
                        Err(err) => return Err(err),
                    }
                    proof {
                        assert(!en.name.contains(47u8));
                        assert forall|p: Seq<u8>| #[trigger] lookup(out@, p) == read_upto(st, id@, ev, j + 1, depth as nat, pre, out0, p) by {
                            let rel = p.skip(pre.len() as int);
                            assert(lookup(before, p) == read_upto(st, id@, ev, j as int, depth as nat, pre, out0, p));
                            assert(lookup(out@, p) == read_into(st, en.id, (depth - 1) as nat, pd, before, p));
                            if starts_with(p, pd) {
                                let rest = p.skip(pd.len() as int);
                                assert(p =~= pd + rest);
                                assert(p.take(pre.len() as int) =~= pre);
                                assert(starts_with(p, pre));
                                assert(rel =~= en.name + seq![47u8] + rest);
                                lemma_slash_after_name(en.name, rest);
                                assert(head(rel) == en.name);
                                assert(ev[j as int].name == head(rel));
                                assert(file_at(st, id@, rel, depth as nat) == file_at(st, en.id, rest, (depth - 1) as nat));
                                if file_at(st, en.id, rest, (depth - 1) as nat) is None {
                                    assert(read_upto(st, id@, ev, j as int, depth as nat, pre, out0, p) == lookup(out0, p)) by {
                                        assert(starts_with(p, pre)) by {
                                            assert(p.take(pre.len() as int) =~= pre);
                                        }
                                    }
                                }
                            } else {
                                if starts_with(p, pre) && head(rel) == en.name {
                                    assert(p =~= pre + rel);
                                    if slash_index(rel) is None {
                                        assert(rel == en.name);
                                        lemma_slash_index(en.name);
                                        assert(file_at(st, id@, rel, depth as nat) is None);
                                    } else {
                                        lemma_slash_index(rel);
                                        let i = slash_index(rel)->Some_0;
                                        assert(rel.take(i) == en.name);
                                        assert(rel =~= en.name + seq![47u8] + rel.skip(i + 1));
                                        assert(p =~= pd + rel.skip(i + 1));
                                        lemma_prefix_split(pd, rel.skip(i + 1));
                                    }
                                    assert(read_upto(st, id@, ev, j as int, depth as nat, pre, out0, p) == lookup(out0, p)) by {
                                        if exists|q: int| 0 <= q < j && #[trigger] ev[q].name == head(rel) {
                                            let q = choose|q: int| 0 <= q < j && #[trigger] ev[q].name == head(rel);
                                            lemma_entry_unique(ev, q);
                                        }
                                    }
                                } else if starts_with(p, pre) && exists|q: int| 0 <= q < j + 1 && #[trigger] ev[q].name == head(rel) {
                                    let q = choose|q: int| 0 <= q < j + 1 && #[trigger] ev[q].name == head(rel);
                                    assert(q < j);
                                }
                            }
                        }
                    }
                    prefix.pop();
                    assert(prefix@ =~= pn);
                },
            }
            prefix.truncate(prefix.len() - e.name.len());
            assert(prefix@ =~= pre);
            j = j + 1;
        }
        proof {
            assert forall|p: Seq<u8>| #[trigger] lookup(out@, p) == read_into(st, id@, depth as nat, pre, out0, p) by {
                let rel = p.skip(pre.len() as int);
                if starts_with(p, pre) && file_at(st, id@, rel, depth as nat) is Some {
                    lemma_slash_index(rel);
                    let n = head(rel);
                    let k = if slash_index(rel) is None { EntryKind::File } else { EntryKind::Dir };
                    assert(has_entry(ev, n, k));
                    let q = choose|q: int| 0 <= q < ev.len() && (#[trigger] ev[q]).name == n && ev[q].kind == k;
                    assert(ev[q].name == head(rel));
                }
            }
        }
        Ok(())
    }
}

/// Reading a tree deeper than it goes changes nothing.
pub proof fn lemma_depth_enough(st: Listing, id: Seq<u8>, d: nat, d2: nat)
    requires
        readable(st, id, d),
        d <= d2,
    ensures
        readable(st, id, d2),
        forall|p: Seq<u8>| #[trigger] file_at(st, id, p, d2) == file_at(st, id, p, d),
    decreases d,
{
    let es = tree_at(st, id)->Some_0;
    assert forall|i: int| 0 <= i < es.len() implies match (#[trigger] es[i]).kind {
        EntryKind::File => blob_at(st, es[i].id) is Some,
        EntryKind::Dir => d2 > 0 && readable(st, es[i].id, (d2 - 1) as nat),
    } by {
        if es[i].kind == EntryKind::Dir {
            lemma_depth_enough(st, es[i].id, (d - 1) as nat, (d2 - 1) as nat);
        }
    }
    assert forall|p: Seq<u8>| #[trigger] file_at(st, id, p, d2) == file_at(st, id, p, d) by {
        if let Some(i) = slash_index(p) {
            let n = p.take(i);
            if has_entry(es, n, EntryKind::Dir) {
                let q = choose|q: int| 0 <= q < es.len() && (#[trigger] es[q]).name == n && es[q].kind == EntryKind::Dir;
                assert(entry_id(es, n, EntryKind::Dir) == es[q].id);
                assert(d > 0);
                lemma_depth_enough(st, es[q].id, (d - 1) as nat, (d2 - 1) as nat);
                assert(file_at(st, id, p, d) == file_at(st, es[q].id, p.skip(i + 1), (d - 1) as nat));
                assert(file_at(st, id, p, d2) == file_at(st, es[q].id, p.skip(i + 1), (d2 - 1) as nat));
            }
        }
    }
}

/// A tree that can be read stays as it is while its objects stay.
pub proof fn lemma_tree_kept(st1: Listing, st2: Listing, id: Seq<u8>, d: nat)
    requires
        readable(st1, id, d),
        keeps_objects(st1, st2),
    ensures
        readable(st2, id, d),
        forall|p: Seq<u8>| #[trigger] file_at(st2, id, p, d) == file_at(st1, id, p, d),
    decreases d,
{
    assert(object_at(st1, id) is Some);
    assert(lookup(st2, obj_key_spec(id)) == lookup(st1, obj_key_spec(id)));
    let es = tree_at(st1, id)->Some_0;
    assert(tree_at(st2, id) == Some(es));
    assert forall|i: int| 0 <= i < es.len() implies match (#[trigger] es[i]).kind {
        EntryKind::File => blob_at(st2, es[i].id) is Some,
        EntryKind::Dir => d > 0 && readable(st2, es[i].id, (d - 1) as nat),
    } by {
        if es[i].kind == EntryKind::Dir {
            lemma_tree_kept(st1, st2, es[i].id, (d - 1) as nat);
        } else {
            assert(object_at(st1, es[i].id) is Some);
            assert(lookup(st2, obj_key_spec(es[i].id)) == lookup(st1, obj_key_spec(es[i].id)));
        }
    }
    assert forall|p: Seq<u8>| #[trigger] file_at(st2, id, p, d) == file_at(st1, id, p, d) by {
        match slash_index(p) {
            None => {
                if has_entry(es, p, EntryKind::File) {
                    let q = choose|q: int| 0 <= q < es.len() && (#[trigger] es[q]).name == p && es[q].kind == EntryKind::File;
                    let e = entry_id(es, p, EntryKind::File);
                    assert(e == es[q].id);
                    assert(object_at(st1, e) is Some);
                    assert(lookup(st2, obj_key_spec(e)) == lookup(st1, obj_key_spec(e)));
                    assert(blob_at(st2, e) == blob_at(st1, e));
                }
                assert(file_at(st2, id, p, d) == file_at(st1, id, p, d));
            },
            Some(i) => {
                let n = p.take(i);
                if has_entry(es, n, EntryKind::Dir) && d > 0 {
                    let q = choose|q: int| 0 <= q < es.len() && (#[trigger] es[q]).name == n && es[q].kind == EntryKind::Dir;
                    let e = entry_id(es, n, EntryKind::Dir);
                    assert(e == es[q].id);
                    lemma_tree_kept(st1, st2, e, (d - 1) as nat);
                    assert(file_at(st1, id, p, d) == file_at(st1, e, p.skip(i + 1), (d - 1) as nat));
                    assert(file_at(st2, id, p, d) == file_at(st2, e, p.skip(i + 1), (d - 1) as nat));
                }
            },
        }
    }
}

impl Repo {
    /// The full file listing under a tree.
    pub fn read_tree(&self, id: &ObjectId) -> (r: Result<Files, RepoError>)
        requires
            self.wf(),
        ensures
            r is Ok <==> readable(self@, id@, max_depth()),
            r matches Ok(f) ==> f.wf() && forall|p: Seq<u8>| #[trigger] lookup(f@, p) == file_at(self@, id@, p, max_depth()),
    {
        let mut out = Files::new();
        let mut prefix: Vec<u8> = Vec::new();
        match self.read_level(id, &mut prefix, &mut out, usize::MAX) {
            Ok(()) => {
                proof {
                    assert forall|p: Seq<u8>| #[trigger] lookup(out@, p) == file_at(self@, id@, p, max_depth()) by {
                        assert(p.take(0) =~= Seq::<u8>::empty());
                        assert(p.skip(0) =~= p);
                        assert(!has_path(Seq::<(Seq<u8>, Seq<u8>)>::empty(), p));
                    }
                }
                Ok(out)
            },
            Err(e) => Err(e),
        }
    }
}

/// `p` is among the first `k` paths of `l`.
pub open spec fn seen(l: Listing, k: int, p: Seq<u8>) -> bool {
    exists|i: int| 0 <= i < k && (#[trigger] l[i]).0 == p
}

/// What the files gathered for directory `n` look like after the first
/// `k` paths of `l`.
pub open spec fn gathered(l: Listing, k: int, n: Seq<u8>, sub: Listing) -> bool {
    forall|r: Seq<u8>| #[trigger] lookup(sub, r) == if seen(l, k, n + seq![47u8] + r) {
        lookup(l, n + seq![47u8] + r)
    } else {
        None
    }
}

/// Some path among the first `k` of `l` lies in directory `n`.
pub open spec fn has_dir(l: Listing, k: int, n: Seq<u8>) -> bool {
    exists|i: int| 0 <= i < k && #[trigger] slash_index(l[i].0) is Some && l[i].0.take(slash_index(l[i].0)->Some_0) == n
}

/// The entries of one level are valid and distinct exactly when the
/// snapshot can be written at that level.
proof fn lemma_entry_names(
    l: Listing,
    m: spec_fn(Seq<u8>) -> Option<Seq<u8>>,
    fuel: nat,
    nf: int,
    ef: Seq<TreeEntry>,
    gsv: Seq<(Vec<u8>, Files)>,
    ev: Seq<EntryView>,
)
    requires
        crate::snapshot::sorted_paths(l),
        m == listing_fn(l),
        nf == ef.len(),
        ev.len() == nf + gsv.len(),
        forall|q: int| 0 <= q < nf ==> (#[trigger] ev[q]).name == ef[q].name@ && ev[q].kind == EntryKind::File,
        forall|x: int| 0 <= x < gsv.len() ==> (#[trigger] ev[nf + x]).name == gsv[x].0@ && ev[nf + x].kind == EntryKind::Dir,
        forall|q: int| 0 <= q < ef.len() ==> (#[trigger] ef[q]).kind == EntryKind::File && slash_index(ef[q].name@) is None && seen(
            l,
            l.len() as int,
            ef[q].name@,
        ),
        forall|i: int| 0 <= i < l.len() && slash_index((#[trigger] l[i]).0) is None ==> exists|q: int|
            0 <= q < ef.len() && #[trigger] ef[q].name@ == l[i].0,
        forall|a: int, b: int| 0 <= a < b < ef.len() ==> crate::bytes::lex_lt(#[trigger] ef[a].name@, #[trigger] ef[b].name@),
        forall|a: int, b: int| 0 <= a < gsv.len() && 0 <= b < gsv.len() && a != b ==> #[trigger] gsv[a].0@ != #[trigger] gsv[b].0@,
        forall|x: int| 0 <= x < gsv.len() ==> has_dir(l, l.len() as int, (#[trigger] gsv[x]).0@),
        forall|i: int| 0 <= i < l.len() && #[trigger] slash_index(l[i].0) is Some ==> exists|g: int|
            0 <= g < gsv.len() && (#[trigger] gsv[g]).0@ == l[i].0.take(slash_index(l[i].0)->Some_0),
        fuel == 0 ==> forall|i: int| 0 <= i < l.len() ==> #[trigger] slash_index(l[i].0) is None,
        forall|x: int| 0 <= x < gsv.len() ==> level_ok(under(m, (#[trigger] gsv[x]).0@), (fuel - 1) as nat),
    ensures
        level_ok(m, fuel) <==> (forall|q: int| 0 <= q < ev.len() ==> component_ok(#[trigger] ev[q].name)) && names_distinct(ev),
{
    let all_ok = forall|q: int| 0 <= q < ev.len() ==> component_ok(#[trigger] ev[q].name);
    if all_ok && names_distinct(ev) {
        assert forall|p: Seq<u8>| #[trigger] m(p) is Some implies match slash_index(p) {
            None => component_ok(p),
            Some(i) => component_ok(p.take(i)) && m(p.take(i)) is None && fuel > 0 && level_ok(under(m, p.take(i)), (fuel - 1) as nat),
        } by {
            assert(m(p) == lookup(l, p));
            let i0 = crate::snapshot::path_index(l, p);
            assert(l[i0].0 == p);
            lemma_slash_index(p);
            match slash_index(p) {
                None => {
                    let q = choose|q: int| 0 <= q < ef.len() && #[trigger] ef[q].name@ == l[i0].0;
                    assert(component_ok(ev[q].name));
                },
                Some(i) => {
                    let n = p.take(i);
                    let x = choose|x: int| 0 <= x < gsv.len() && (#[trigger] gsv[x]).0@ == l[i0].0.take(slash_index(l[i0].0)->Some_0);
                    assert(component_ok(ev[nf + x].name));
                    if m(n) is Some {
                        assert(m(n) == lookup(l, n));
                        let i1 = crate::snapshot::path_index(l, n);
                        assert(l[i1].0 == n);
                        lemma_slash_index(n);
                        assert(!n.contains(47u8)) by {
                            if n.contains(47u8) {
                                let z = choose|z: int| 0 <= z < n.len() && n[z] == 47u8;
                                assert(p.take(i)[z] == 47u8);
                            }
                        }
                        let q = choose|q: int| 0 <= q < ef.len() && #[trigger] ef[q].name@ == l[i1].0;
                        assert(ev[q].name == ev[nf + x].name);
                    }
                    if fuel == 0 {
                        assert(slash_index(l[i0].0) is None);
                    }
                },
            }
        }
    }
    if level_ok(m, fuel) {
        assert forall|q: int| 0 <= q < ev.len() implies component_ok(#[trigger] ev[q].name) by {
            if q < nf {
                let i = choose|i: int| 0 <= i < l.len() && (#[trigger] l[i]).0 == ef[q].name@;
                crate::snapshot::lemma_lookup_at(l, i);
                assert(m(l[i].0) is Some);
            } else {
                let x = q - nf;
                assert(ev[nf + x].name == gsv[x].0@);
                let i = choose|i: int| 0 <= i < l.len() && #[trigger] slash_index(l[i].0) is Some && l[i].0.take(slash_index(l[i].0)->Some_0) == gsv[x].0@;
                crate::snapshot::lemma_lookup_at(l, i);
                assert(m(l[i].0) is Some);
            }
        }
        assert forall|a: int, b: int| 0 <= a < ev.len() && 0 <= b < ev.len() && a != b implies #[trigger] ev[a].name != #[trigger] ev[b].name by {
            if a < nf && b < nf {
                if a < b {
                    assert(crate::bytes::lex_lt(ef[a].name@, ef[b].name@));
                    crate::bytes::lemma_lex_equal(ef[a].name@, ef[b].name@);
                } else {
                    assert(crate::bytes::lex_lt(ef[b].name@, ef[a].name@));
                    crate::bytes::lemma_lex_equal(ef[b].name@, ef[a].name@);
                }
            } else if a >= nf && b >= nf {
                assert(ev[nf + (a - nf)].name == gsv[a - nf].0@);
                assert(ev[nf + (b - nf)].name == gsv[b - nf].0@);
            } else {
                let (f, d) = if a < nf { (a, b) } else { (b, a) };
                let x = d - nf;
                assert(ev[nf + x].name == gsv[x].0@);
                if ev[f].name == ev[d].name {
                    let i = choose|i: int| 0 <= i < l.len() && #[trigger] slash_index(l[i].0) is Some && l[i].0.take(slash_index(l[i].0)->Some_0) == gsv[x].0@;
                    crate::snapshot::lemma_lookup_at(l, i);
                    assert(m(l[i].0) is Some);
                    let i2 = choose|i2: int| 0 <= i2 < l.len() && (#[trigger] l[i2]).0 == ef[f].name@;
                    crate::snapshot::lemma_lookup_at(l, i2);
                    assert(m(gsv[x].0@) is Some);
                }
            }
        }
    }
}

impl Repo {
    /// Writes one level of a snapshot (paths relative to it) and returns
    /// the id of its tree.
    #[verifier::rlimit(100)]
    #[verifier::spinoff_prover]
    fn write_level(&mut self, items: &Files, fuel: usize) -> (r: Result<ObjectId, RepoError>)
        requires
            old(self).wf(),
            items.wf(),
        ensures
            final(self).wf(),
            only_adds(old(self)@, final(self)@),
            r is Ok <==> level_ok(listing_fn(items@), fuel as nat),
            r matches Ok(id) ==> lookup(final(self)@, obj_key_spec(id@)) is Some,
            r matches Ok(id) ==> (items@.len() < 0x1_0000_0000 && ids_unambiguous(final(self)@) ==> readable(final(self)@, id@, fuel as nat)
                && forall|p: Seq<u8>| #[trigger] file_at(final(self)@, id@, p, fuel as nat) == lookup(items@, p)),
        decreases fuel,
    {
        let ghost st0 = self@;
        let ghost l = items@;
        let ghost m = listing_fn(l);
        let es = items.entries();
        let mut entries: Vec<TreeEntry> = Vec::new();
        let mut groups: Vec<(Vec<u8>, Files)> = Vec::new();
        let mut k: usize = 0;
        while k < es.len()
            invariant
                self.wf(),
                only_adds(st0, self@),
                crate::snapshot::entry_views(es@) == l,
                crate::snapshot::sorted_paths(l),
                m == listing_fn(l),
                l == items@,
                st0 == old(self)@,
                k <= l.len(),
                forall|q: int| 0 <= q < entries@.len() ==> (#[trigger] entries@[q]).kind == EntryKind::File && slash_index(entries@[q].name@) is None
                    && seen(l, k as int, entries@[q].name@),
                forall|i: int| 0 <= i < k && slash_index((#[trigger] l[i]).0) is None ==> exists|q: int|
                    0 <= q < entries@.len() && #[trigger] entries@[q].name@ == l[i].0,
                forall|a: int, b: int| 0 <= a < b < entries@.len() ==> crate::bytes::lex_lt(#[trigger] entries@[a].name@, #[trigger] entries@[b].name@),
                entries@.len() > 0 ==> exists|i: int| 0 <= i < k && l[i].0 == entries@.last().name@,
                forall|a: int, b: int| 0 <= a < groups@.len() && 0 <= b < groups@.len() && a != b ==> #[trigger] groups@[a].0@ != #[trigger] groups@[b].0@,
                forall|g: int| 0 <= g < groups@.len() ==> (#[trigger] groups@[g]).1.wf() && has_dir(l, k as int, groups@[g].0@) && gathered(l, k as int, groups@[g].0@, groups@[g].1@),
                forall|i: int| 0 <= i < k && #[trigger] slash_index(l[i].0) is Some ==> exists|g: int|
                    0 <= g < groups@.len() && (#[trigger] groups@[g]).0@ == l[i].0.take(slash_index(l[i].0)->Some_0),
                fuel == 0 ==> forall|i: int| 0 <= i < k ==> #[trigger] slash_index(l[i].0) is None,
                entries@.len() + groups@.len() <= k,
                forall|g: int| 0 <= g < groups@.len() ==> (#[trigger] groups@[g]).1@.len() <= k,
                forall|q: int| 0 <= q < entries@.len() ==> lookup(l, (#[trigger] entries@[q]).name@) is Some && entries@[q].id@ == sha256(
                    crate::object::encode_view(ObjectView::Blob(lookup(l, entries@[q].name@)->Some_0))->Ok_0,
                ) && lookup(self@, obj_key_spec(entries@[q].id@)) is Some,
            decreases l.len() - k,
        {
            let path = es[k].0.as_slice();
            let content = es[k].1.as_slice();
            assert(path@ == l[k as int].0 && content@ == l[k as int].1);
            match find_slash(path) {
                None => {
                    let ghost before = self@;
                    let data = copy_range(content, 0, content.len());
                    assert(content@.subrange(0, content@.len() as int) =~= content@);
                    let id = match self.put(&Object::Blob(data)) {
                        Ok(id) => id,
                        Err(e) => {
                            assert(false);
                            return Err(e);
                        },
                    };
                    proof {
                        assert forall|key: Seq<u8>| #[trigger] lookup(self@, key) != lookup(before, key) implies added_hashed(before, self@, key) by {
                        }
                        lemma_only_adds_trans(st0, before, self@);
                    }
                    let name = copy_range(path, 0, path.len());
                    assert(path@.subrange(0, path@.len() as int) =~= path@);
                    let ghost eb = entries@;
                    entries.push(TreeEntry { name, kind: EntryKind::File, id });
                    proof {
                        let ea = entries@;
                        assert(ea =~= eb.push(ea.last()));
                        crate::snapshot::lemma_lookup_at(l, k as int);
                        assert forall|q: int| 0 <= q < ea.len() implies lookup(l, (#[trigger] ea[q]).name@) is Some && ea[q].id@ == sha256(
                            crate::object::encode_view(ObjectView::Blob(lookup(l, ea[q].name@)->Some_0))->Ok_0,
                        ) && lookup(self@, obj_key_spec(ea[q].id@)) is Some by {
                            if q < eb.len() {
                                assert(ea[q] == eb[q]);
                                assert(lookup(before, obj_key_spec(eb[q].id@)) is Some);
                            } else {
                                assert(ea[q].name@ == l[k as int].0);
                            }
                        }
                        assert(seen(l, k + 1, path@)) by {
                            assert(l[k as int].0 == path@);
                        }
                        assert forall|q: int| 0 <= q < ea.len() implies (#[trigger] ea[q]).kind == EntryKind::File && slash_index(ea[q].name@) is None
                            && seen(l, k + 1, ea[q].name@) by {
                            if q < eb.len() {
                                assert(ea[q] == eb[q]);
                                let i = choose|i: int| 0 <= i < k && (#[trigger] l[i]).0 == eb[q].name@;
                                assert(l[i].0 == ea[q].name@);
                            }
                        }
                        assert forall|i: int| 0 <= i < k + 1 && slash_index((#[trigger] l[i]).0) is None implies exists|q: int|
                            0 <= q < ea.len() && #[trigger] ea[q].name@ == l[i].0 by {
                            if i < k {
                                let q = choose|q: int| 0 <= q < eb.len() && #[trigger] eb[q].name@ == l[i].0;
                                assert(ea[q] == eb[q]);
                            } else {
                                assert(ea[ea.len() - 1].name@ == l[i].0);
                            }
                        }
                        assert forall|a: int, b: int| 0 <= a < b < ea.len() implies crate::bytes::lex_lt(#[trigger] ea[a].name@, #[trigger] ea[b].name@) by {
                            if b == ea.len() - 1 {
                                let i = choose|i: int| 0 <= i < k && l[i].0 == eb.last().name@;
                                assert(crate::bytes::lex_lt(l[i].0, l[k as int].0));
                                if a < eb.len() - 1 {
                                    assert(crate::bytes::lex_lt(eb[a].name@, eb[eb.len() - 1].name@));
                                    crate::bytes::lemma_lex_trans(ea[a].name@, eb.last().name@, ea[b].name@);
                                }
                            } else {
                                assert(ea[a] == eb[a] && ea[b] == eb[b]);
                            }
                        }
                        assert(l[k as int].0 == ea.last().name@);
                        assert forall|g: int| 0 <= g < groups@.len() implies (#[trigger] groups@[g]).1.wf() && has_dir(l, k + 1, groups@[g].0@) && gathered(
                            l,
                            k + 1,
                            groups@[g].0@,
                            groups@[g].1@,
                        ) by {
                            let n = groups@[g].0@;
                            let i = choose|i: int| 0 <= i < k && #[trigger] slash_index(l[i].0) is Some && l[i].0.take(slash_index(l[i].0)->Some_0) == n;
                            assert forall|r: Seq<u8>| #[trigger] lookup(groups@[g].1@, r) == if seen(l, k + 1, n + seq![47u8] + r) {
                                lookup(l, n + seq![47u8] + r)
                            } else {
                                None
                            } by {
                                assert(lookup(groups@[g].1@, r) == if seen(l, k as int, n + seq![47u8] + r) { lookup(l, n + seq![47u8] + r) } else { None });
                                if seen(l, k + 1, n + seq![47u8] + r) && !seen(l, k as int, n + seq![47u8] + r) {
                                    let j = choose|j: int| 0 <= j < k + 1 && (#[trigger] l[j]).0 == n + seq![47u8] + r;
                                    assert(j == k);
                                    lemma_slash_index(path@);
                                    assert(path@[n.len() as int] == 47u8);
                                }
                                if seen(l, k as int, n + seq![47u8] + r) {
                                    let j = choose|j: int| 0 <= j < k && (#[trigger] l[j]).0 == n + seq![47u8] + r;
                                    assert(l[j].0 == n + seq![47u8] + r);
                                }
                            }
                        }
                    }
                },
                Some(i) => {
                    proof {
                        lemma_slash_index(path@);
                        crate::snapshot::lemma_lookup_at(l, k as int);
                        assert(m(path@) == lookup(l, path@));
                    }
                    if fuel == 0 {
                        proof {
                            assert(m(path@) is Some);
                            assert(!level_ok(m, fuel as nat));
                        }
                        return Err(RepoError::Corrupt(ObjectId::of(path)));
                    }
                    let plen = path.len();
                    assert(i < plen);
                    let name = copy_range(path, 0, i);
                    let rest = copy_range(path, i + 1, plen);
                    let data = copy_range(content, 0, content.len());
                    proof {
                        lemma_slash_index(path@);
                        assert(content@.subrange(0, content@.len() as int) =~= content@);
                        assert(name@ == path@.take(i as int));
                        assert(path@ =~= name@ + seq![47u8] + rest@);
                    }
                    let ghost gb = groups@;
                    let ghost n = name@;
                    let ghost rv = rest@;
                    let ghost pv = path@;
                    proof {
                        assert(!n.contains(47u8));
                        lemma_slash_after_name(n, rv);
                    }
                    match find_group(&groups, name.as_slice()) {
                        Some(g) => {
                            let (gname, mut sub) = groups.remove(g);
                            let ghost sb = sub@;
                            assert(gb[g as int].1@ == sb);
                            sub.insert(rest, data);
                            groups.insert(g, (gname, sub));
                            proof {
                                assert(groups@ =~= gb.update(g as int, groups@[g as int]));
                                assert(groups@[g as int].0@ == n);
                            }
                        },
                        None => {
                            let mut sub = Files::new();
                            sub.insert(rest, data);
                            groups.push((name, sub));
                            proof {
                                assert(groups@ =~= gb.push(groups@.last()));
                            }
                        },
                    }
                    proof {
                        let gs = groups@;
                        let gidx = choose|g: int| 0 <= g < gs.len() && gs[g].0@ == n;
                        assert(has_dir(l, k + 1, n)) by {
                            assert(l[k as int].0.take(slash_index(l[k as int].0)->Some_0) == n);
                        }
                        assert forall|a: int, b: int| 0 <= a < gs.len() && 0 <= b < gs.len() && a != b implies #[trigger] gs[a].0@ != #[trigger] gs[b].0@ by {
                            if a < gb.len() && b < gb.len() {
                                if gs.len() == gb.len() {
                                    if a != gidx && b != gidx {
                                        assert(gs[a] == gb[a] && gs[b] == gb[b]);
                                    } else if a == gidx {
                                        assert(gs[b] == gb[b]);
                                        assert(gb[a].0@ == n);
                                    } else {
                                        assert(gs[a] == gb[a]);
                                        assert(gb[b].0@ == n);
                                    }
                                } else {
                                    assert(gs[a] == gb[a] && gs[b] == gb[b]);
                                }
                            }
                        }
                        assert forall|g: int| 0 <= g < gs.len() implies (#[trigger] gs[g]).1.wf() && has_dir(l, k + 1, gs[g].0@) && gathered(
                            l,
                            k + 1,
                            gs[g].0@,
                            gs[g].1@,
                        ) by {
                            let ng = gs[g].0@;
                            if ng == n {
                                assert forall|r: Seq<u8>| #[trigger] lookup(gs[g].1@, r) == if seen(l, k + 1, ng + seq![47u8] + r) {
                                    lookup(l, ng + seq![47u8] + r)
                                } else {
                                    None
                                } by {
                                    if gs.len() == gb.len() {
                                        assert(gb[g].0@ == n);
                                        assert(lookup(gb[g].1@, r) == if seen(l, k as int, n + seq![47u8] + r) { lookup(l, n + seq![47u8] + r) } else { None });
                                    } else {
                                        if seen(l, k as int, n + seq![47u8] + r) {
                                            let j = choose|j: int| 0 <= j < k && (#[trigger] l[j]).0 == n + seq![47u8] + r;
                                            lemma_slash_after_name(n, r);
                                            assert(slash_index(l[j].0) is Some);
                                            let g2 = choose|g2: int| 0 <= g2 < gb.len() && (#[trigger] gb[g2]).0@ == l[j].0.take(slash_index(l[j].0)->Some_0);
                                            assert(gb[g2].0@ == n);
                                        }
                                    }
                                    if r == rv {
                                        assert(l[k as int].0 == n + seq![47u8] + r);
                                        assert(pv == n + seq![47u8] + rv);
                                    } else {
                                        if seen(l, k + 1, n + seq![47u8] + r) {
                                            let j = choose|j: int| 0 <= j < k + 1 && (#[trigger] l[j]).0 == n + seq![47u8] + r;
                                            if j == k {
                                                assert((n + seq![47u8] + r).skip(n.len() as int + 1) == r) by {
                                                    lemma_slash_after_name(n, r);
                                                }
                                            }
                                            assert(seen(l, k as int, n + seq![47u8] + r));
                                        }
                                        if seen(l, k as int, n + seq![47u8] + r) {
                                            let j = choose|j: int| 0 <= j < k && (#[trigger] l[j]).0 == n + seq![47u8] + r;
                                            assert(l[j].0 == n + seq![47u8] + r);
                                        }
                                    }
                                }
                            } else {
                                assert(gs[g] == gb[g]);
                                let i0 = choose|i0: int| 0 <= i0 < k && #[trigger] slash_index(l[i0].0) is Some && l[i0].0.take(slash_index(l[i0].0)->Some_0) == ng;
                                lemma_slash_index(l[i0].0);
                                assert(!ng.contains(47u8)) by {
                                    if ng.contains(47u8) {
                                        let z = choose|z: int| 0 <= z < ng.len() && ng[z] == 47u8;
                                        assert(l[i0].0.take(slash_index(l[i0].0)->Some_0)[z] == 47u8);
                                    }
                                }
                                assert forall|r: Seq<u8>| #[trigger] lookup(gs[g].1@, r) == if seen(l, k + 1, ng + seq![47u8] + r) {
                                    lookup(l, ng + seq![47u8] + r)
                                } else {
                                    None
                                } by {
                                    assert(lookup(gb[g].1@, r) == if seen(l, k as int, ng + seq![47u8] + r) { lookup(l, ng + seq![47u8] + r) } else { None });
                                    if seen(l, k + 1, ng + seq![47u8] + r) && !seen(l, k as int, ng + seq![47u8] + r) {
                                        let j = choose|j: int| 0 <= j < k + 1 && (#[trigger] l[j]).0 == ng + seq![47u8] + r;
                                        assert(j == k);
                                        lemma_slash_after_name(ng, r);
                                        assert(pv == ng + seq![47u8] + r);
                                        assert(pv.take(ng.len() as int) == ng);
                                    }
                                    if seen(l, k as int, ng + seq![47u8] + r) {
                                        let j = choose|j: int| 0 <= j < k && (#[trigger] l[j]).0 == ng + seq![47u8] + r;
                                        assert(l[j].0 == ng + seq![47u8] + r);
                                    }
                                }
                                let i1 = choose|i1: int| 0 <= i1 < k && #[trigger] slash_index(l[i1].0) is Some && l[i1].0.take(slash_index(l[i1].0)->Some_0) == ng;
                            }
                        }
                        assert forall|i2: int| 0 <= i2 < k + 1 && #[trigger] slash_index(l[i2].0) is Some implies exists|g: int|
                            0 <= g < gs.len() && (#[trigger] gs[g]).0@ == l[i2].0.take(slash_index(l[i2].0)->Some_0) by {
                            if i2 < k {
                                let g = choose|g: int| 0 <= g < gb.len() && (#[trigger] gb[g]).0@ == l[i2].0.take(slash_index(l[i2].0)->Some_0);
                                if gs.len() == gb.len() {
                                    if g == gidx {
                                        assert(gs[g].0@ == gb[g].0@);
                                    } else {
                                        assert(gs[g] == gb[g]);
                                    }
                                } else {
                                    assert(gs[g] == gb[g]);
                                }
                            } else {
                                assert(gs[gidx].0@ == n);
                            }
                        }
                        let eb = entries@;
                        assert forall|q: int| 0 <= q < eb.len() implies (#[trigger] eb[q]).kind == EntryKind::File && slash_index(eb[q].name@) is None
                            && seen(l, k + 1, eb[q].name@) by {
                            let i3 = choose|i3: int| 0 <= i3 < k && (#[trigger] l[i3]).0 == eb[q].name@;
                        }
                        assert forall|i4: int| 0 <= i4 < k + 1 && slash_index((#[trigger] l[i4]).0) is None implies exists|q: int|
                            0 <= q < eb.len() && #[trigger] eb[q].name@ == l[i4].0 by {
                            assert(i4 < k);
                        }
                    }
                },
            }
            k = k + 1;
        }
        let ghost nf = entries@.len();
        let ghost ef = entries@;
        let ghost gsv = groups@;
        proof {
            assert forall|p: Seq<u8>| #[trigger] seen(l, l.len() as int, p) <==> has_path(l, p) by {
                if has_path(l, p) {
                    let i = crate::snapshot::path_index(l, p);
                }
            }
            assert forall|x: int| 0 <= x < gsv.len() implies listing_fn((#[trigger] gsv[x]).1@) =~= under(m, gsv[x].0@) by {
                let n = gsv[x].0@;
                assert forall|r: Seq<u8>| #[trigger] listing_fn(gsv[x].1@)(r) == under(m, n)(r) by {
                    assert(lookup(gsv[x].1@, r) == if seen(l, l.len() as int, n + seq![47u8] + r) { lookup(l, n + seq![47u8] + r) } else { None });
                    assert(seen(l, l.len() as int, n + seq![47u8] + r) <==> has_path(l, n + seq![47u8] + r));
                }
            }
            if gsv.len() > 0 {
                let i = choose|i: int| 0 <= i < l.len() && #[trigger] slash_index(l[i].0) is Some && l[i].0.take(slash_index(l[i].0)->Some_0) == gsv[0].0@;
            }
        }
        let mut g: usize = 0;
        while g < groups.len()
            invariant
                self.wf(),
                st0 == old(self)@,
                only_adds(st0, self@),
                m == listing_fn(l),
                l == items@,
                crate::snapshot::sorted_paths(l),
                groups@ == gsv,
                g <= gsv.len(),
                entries@.len() == nf + g,
                entries@.subrange(0, nf as int) == ef,
                forall|x: int| 0 <= x < gsv.len() ==> (#[trigger] gsv[x]).1.wf(),
                forall|x: int| 0 <= x < gsv.len() ==> listing_fn((#[trigger] gsv[x]).1@) == under(m, gsv[x].0@),
                forall|x: int| 0 <= x < gsv.len() ==> has_dir(l, l.len() as int, (#[trigger] gsv[x]).0@),
                gsv.len() > 0 ==> fuel > 0,
                forall|x: int| 0 <= x < g ==> (#[trigger] entries@[nf + x]).name@ == gsv[x].0@ && entries@[nf + x].kind == EntryKind::Dir
                    && level_ok(under(m, gsv[x].0@), (fuel - 1) as nat),
                nf + gsv.len() <= l.len(),
                forall|x: int| 0 <= x < gsv.len() ==> (#[trigger] gsv[x]).1@.len() <= l.len(),
                forall|q: int| 0 <= q < nf ==> lookup(self@, obj_key_spec((#[trigger] ef[q]).id@)) is Some,
                forall|x: int| 0 <= x < g ==> (l.len() < 0x1_0000_0000 && ids_unambiguous(self@) ==> reads_back(
                    self@,
                    (#[trigger] entries@[nf + x]).id@,
                    (fuel - 1) as nat,
                    gsv[x].1@,
                )),
            decreases gsv.len() - g,
        {
            let ghost sb = self@;
            let id = match self.write_level(&groups[g].1, fuel - 1) {
                Ok(id) => id,
                Err(e) => {
                    proof {
                        let n = gsv[g as int].0@;
                        let i = choose|i: int| 0 <= i < l.len() && #[trigger] slash_index(l[i].0) is Some && l[i].0.take(slash_index(l[i].0)->Some_0) == n;
                        crate::snapshot::lemma_lookup_at(l, i);
                        assert(m(l[i].0) is Some);
                    }
                    return Err(e);
                },
            };
            let name = copy_range(groups[g].0.as_slice(), 0, groups[g].0.len());
            assert(groups@[g as int].0@.subrange(0, groups@[g as int].0@.len() as int) =~= gsv[g as int].0@);
            let ghost eb = entries@;
            entries.push(TreeEntry { name, kind: EntryKind::Dir, id });
            proof {
                assert(entries@.subrange(0, nf as int) =~= eb.subrange(0, nf as int));
                assert forall|x: int| 0 <= x < g + 1 implies (#[trigger] entries@[nf + x]).name@ == gsv[x].0@ && entries@[nf + x].kind == EntryKind::Dir
                    && level_ok(under(m, gsv[x].0@), (fuel - 1) as nat) by {
                    if x < g {
                        assert(entries@[nf + x] == eb[nf + x]);
                    }
                }
                assert forall|q: int| 0 <= q < nf implies lookup(self@, obj_key_spec((#[trigger] ef[q]).id@)) is Some by {
                    assert(lookup(sb, obj_key_spec(ef[q].id@)) is Some);
                }
                assert forall|x: int| 0 <= x < g + 1 implies (l.len() < 0x1_0000_0000 && ids_unambiguous(self@) ==> reads_back(
                    self@,
                    (#[trigger] entries@[nf + x]).id@,
                    (fuel - 1) as nat,
                    gsv[x].1@,
                )) by {
                    if x < g {
                        assert(entries@[nf + x] == eb[nf + x]);
                        if l.len() < 0x1_0000_0000 {
                            lemma_reads_back_kept(sb, self@, eb[nf + x].id@, (fuel - 1) as nat, gsv[x].1@);
                        }
                    } else {
                        assert(entries@[nf + x].id == id);
                    }
                }
            }
            g = g + 1;
        }
        let ghost ev = views(entries@);
        proof {
            assert forall|x: int| 0 <= x < gsv.len() implies level_ok(under(m, (#[trigger] gsv[x]).0@), (fuel - 1) as nat) by {
                assert(entries@[nf + x].name@ == gsv[x].0@);
            }
            assert forall|q: int| 0 <= q < nf implies (#[trigger] ev[q]).name == ef[q].name@ && ev[q].kind == EntryKind::File by {
                assert(ev[q] == entries@[q]@);
                assert(entries@.subrange(0, nf as int)[q] == entries@[q]);
            }
            assert forall|x: int| 0 <= x < gsv.len() implies (#[trigger] ev[nf + x]).name == gsv[x].0@ && ev[nf + x].kind == EntryKind::Dir by {
                assert(ev[nf + x] == entries@[nf + x]@);
            }
        }
        let tree = match Tree::new(entries) {
            Ok(t) => t,
            Err(e) => {
                proof {
                    lemma_entry_names(l, m, fuel as nat, nf as int, ef, gsv, ev);
                    match e@ {
                        crate::object::ObjectErrorView::InvalidName(x) => {
                            let i = choose|i: int| crate::object::first_invalid_at(ev, i) && #[trigger] ev[i].name == x;
                        },
                        crate::object::ObjectErrorView::DuplicateName(x) => {
                            let (i, j) = choose|i: int, j: int|
                                0 <= i < ev.len() && 0 <= j < ev.len() && i != j && #[trigger] ev[i].name == x && #[trigger] ev[j].name == x;
                        },
                        _ => {},
                    }
                }
                return Err(RepoError::Object(e));
            },
        };
        let ghost tv = tree@;
        let ghost before = self@;
        let id = match self.put(&Object::Tree(tree)) {
            Ok(id) => id,
            Err(e) => {
                proof {
                    lemma_entry_names(l, m, fuel as nat, nf as int, ef, gsv, ev);
                    let q = choose|q: int| #![trigger tv[q]] 0 <= q < tv.len() && tv[q].name.len() > 0xffff;
                    assert(ev.contains(tv[q]));
                }
                return Err(e);
            },
        };
        proof {
            assert forall|key: Seq<u8>| #[trigger] lookup(self@, key) != lookup(before, key) implies added_hashed(before, self@, key) by {}
            lemma_only_adds_trans(st0, before, self@);
            lemma_entry_names(l, m, fuel as nat, nf as int, ef, gsv, ev);
            assert forall|q: int| 0 <= q < ev.len() implies (#[trigger] ev[q]).name.len() <= 0xffff by {
                assert(tv.contains(ev[q]));
                let z = choose|z: int| 0 <= z < tv.len() && tv[z] == ev[q];
            }
            if l.len() < 0x1_0000_0000 && ids_unambiguous(self@) {
                let fin = self@;
                let names = gsv.map_values(|e: (Vec<u8>, Files)| e.0@);
                assert(tv.len() == ev.len());
                assert(crate::object::tree_well_formed(tv));
                lemma_object_back(fin, ObjectView::Tree(tv));
                lemma_ascending_distinct(tv);
                assert forall|q: int| 0 <= q < nf implies (#[trigger] ev[q]).kind == EntryKind::File && slash_index(ev[q].name) is None
                    && lookup(l, ev[q].name) is Some && blob_at(fin, ev[q].id) == lookup(l, ev[q].name) by {
                    assert(ev[q] == entries@[q]@);
                    assert(entries@.subrange(0, nf as int)[q] == entries@[q]);
                    assert(ef[q] == entries@[q]);
                    assert(lookup(before, obj_key_spec(ef[q].id@)) is Some);
                    lemma_object_back(fin, ObjectView::Blob(lookup(l, ef[q].name@)->Some_0));
                }
                assert forall|x: int| 0 <= x < names.len() implies (#[trigger] ev[nf + x]).kind == EntryKind::Dir && ev[nf + x].name
                    == names[x] && fuel > 0 && readable(fin, ev[nf + x].id, (fuel - 1) as nat) && forall|p: Seq<u8>|
                    #[trigger] file_at(fin, ev[nf + x].id, p, (fuel - 1) as nat) == lookup(l, names[x] + seq![47u8] + p) by {
                    assert(ev[nf + x] == entries@[nf + x]@);
                    lemma_reads_back_kept(before, fin, entries@[nf + x].id@, (fuel - 1) as nat, gsv[x].1@);
                    assert forall|p: Seq<u8>| #[trigger] file_at(fin, ev[nf + x].id, p, (fuel - 1) as nat) == lookup(l, names[x] + seq![47u8] + p) by {
                        assert(listing_fn(gsv[x].1@)(p) == under(m, gsv[x].0@)(p));
                    }
                }
                assert forall|p: Seq<u8>| #[trigger] lookup(l, p) is Some && slash_index(p) is None implies exists|q: int| 0 <= q < nf && (#[trigger] ev[q]).name
                    == p by {
                    let i = crate::snapshot::path_index(l, p);
                    let q = choose|q: int| 0 <= q < ef.len() && #[trigger] ef[q].name@ == l[i].0;
                    assert(ev[q] == entries@[q]@);
                    assert(entries@.subrange(0, nf as int)[q] == entries@[q]);
                }
                assert forall|p: Seq<u8>| #[trigger] lookup(l, p) is Some && slash_index(p) is Some implies exists|x: int| 0 <= x < names.len()
                    && #[trigger] names[x] == p.take(slash_index(p)->Some_0) by {
                    let i = crate::snapshot::path_index(l, p);
                    let x = choose|x: int| 0 <= x < gsv.len() && (#[trigger] gsv[x]).0@ == l[i].0.take(slash_index(l[i].0)->Some_0);
                    assert(names[x] == gsv[x].0@);
                }
                lemma_level_content(fin, id@, tv, ev, nf as int, names, l, fuel as nat);
            }
        }
        Ok(id)
    }
}

impl Repo {
    /// Writes every blob and tree needed for `files` and returns the root
    /// tree id. A snapshot that cannot be written as trees (an empty path
    /// component, `.` or `..`, a name used as both a file and a directory,
    /// a name too long for a tree) is refused.
    pub fn write_tree(&mut self, files: &Files) -> (r: Result<ObjectId, RepoError>)
        requires
            old(self).wf(),
        ensures
            final(self).wf(),
            only_adds(old(self)@, final(self)@),
            r is Ok <==> writable(files@),
            r matches Ok(id) ==> lookup(final(self)@, obj_key_spec(id@)) is Some,
            r matches Ok(id) ==> (files@.len() < 0x1_0000_0000 && ids_unambiguous(final(self)@) ==> reads_back(
                final(self)@,
                id@,
                max_depth(),
                files@,
            )),
    {
        files.check_sorted();
        self.write_level(files, usize::MAX)
    }
}

} // verus!

verus! {

/// Whatever is filed under the id of some bytes is those very bytes: no
/// stored object shares its id with other bytes.
pub open spec fn ids_unambiguous(store: Listing) -> bool {
    forall|b: Seq<u8>| #[trigger] lookup(store, obj_key_spec(sha256(b))) is Some ==> lookup(store, obj_key_spec(sha256(b))) == Some(b)
}

/// A store that only grew from `a` to `b` is unambiguous wherever `b` is.
pub proof fn lemma_unambiguous_before(a: Listing, b: Listing)
    requires
        only_adds(a, b),
        ids_unambiguous(b),
    ensures
        ids_unambiguous(a),
{
    assert forall|x: Seq<u8>| #[trigger] lookup(a, obj_key_spec(sha256(x))) is Some implies lookup(a, obj_key_spec(sha256(x))) == Some(x) by {
        let k = obj_key_spec(sha256(x));
        if lookup(b, k) != lookup(a, k) {
            assert(added_hashed(a, b, k));
        }
        assert(lookup(b, k) is Some);
    }
}

/// A stored object's encoding, in an unambiguous store, reads back as the object.
pub proof fn lemma_object_back(st: Listing, o: ObjectView)
    requires
        ids_unambiguous(st),
        crate::object::well_formed(o),
        crate::object::encode_view(o) is Ok,
        lookup(st, obj_key_spec(sha256(crate::object::encode_view(o)->Ok_0))) is Some,
    ensures
        object_at(st, sha256(crate::object::encode_view(o)->Ok_0)) == Some(o),
{
    let b = crate::object::encode_view(o)->Ok_0;
    crate::object::law_decode_of_encode(o);
    assert(lookup(st, obj_key_spec(sha256(b))) == Some(b));
}

proof fn lemma_entry_pick(tv: Seq<EntryView>, j: int, n: Seq<u8>, k: EntryKind)
    requires
        names_distinct(tv),
        0 <= j < tv.len(),
        tv[j].name == n,
        tv[j].kind == k,
    ensures
        has_entry(tv, n, k),
        entry_id(tv, n, k) == tv[j].id,
{
    let c = choose|i: int| 0 <= i < tv.len() && (#[trigger] tv[i]).name == n && tv[i].kind == k;
    assert(c == j);
}

/// One level written as a tree reads back as the snapshot it was written
/// from: its file entries hold the files at this level, its directory
/// entries trees that read back as the files below them.
proof fn lemma_level_content(
    st: Listing,
    id: Seq<u8>,
    tv: Seq<EntryView>,
    ev: Seq<EntryView>,
    nf: int,
    names: Seq<Seq<u8>>,
    l: Listing,
    fuel: nat,
)
    requires
        tree_at(st, id) == Some(tv),
        names_distinct(tv),
        forall|q: int| 0 <= q < tv.len() ==> ev.contains(#[trigger] tv[q]),
        forall|q: int| 0 <= q < ev.len() ==> tv.contains(#[trigger] ev[q]),
        ev.len() == nf + names.len(),
        0 <= nf,
        forall|q: int| 0 <= q < nf ==> (#[trigger] ev[q]).kind == EntryKind::File && slash_index(ev[q].name) is None && lookup(l, ev[q].name)
            is Some && blob_at(st, ev[q].id) == lookup(l, ev[q].name),
        forall|x: int| 0 <= x < names.len() ==> (#[trigger] ev[nf + x]).kind == EntryKind::Dir && ev[nf + x].name == names[x] && fuel > 0
            && readable(st, ev[nf + x].id, (fuel - 1) as nat) && forall|p: Seq<u8>| #[trigger] file_at(st, ev[nf + x].id, p, (fuel - 1) as nat)
            == lookup(l, names[x] + seq![47u8] + p),
        forall|p: Seq<u8>| #[trigger] lookup(l, p) is Some && slash_index(p) is None ==> exists|q: int| 0 <= q < nf && (#[trigger] ev[q]).name == p,
        forall|p: Seq<u8>| #[trigger] lookup(l, p) is Some && slash_index(p) is Some ==> exists|x: int| 0 <= x < names.len() && #[trigger] names[x]
            == p.take(slash_index(p)->Some_0),
    ensures
        readable(st, id, fuel),
        forall|p: Seq<u8>| #[trigger] file_at(st, id, p, fuel) == lookup(l, p),
{
    assert forall|i: int| 0 <= i < tv.len() implies match (#[trigger] tv[i]).kind {
        EntryKind::File => blob_at(st, tv[i].id) is Some,
        EntryKind::Dir => fuel > 0 && readable(st, tv[i].id, (fuel - 1) as nat),
    } by {
        assert(ev.contains(tv[i]));
        let q = choose|q: int| 0 <= q < ev.len() && ev[q] == tv[i];
        if q < nf {
            assert(ev[q].kind == EntryKind::File);
        } else {
            let x = q - nf;
            assert(ev[nf + x] == ev[q]);
        }
    }
    assert forall|p: Seq<u8>| #[trigger] file_at(st, id, p, fuel) == lookup(l, p) by {
        match slash_index(p) {
            None => {
                if lookup(l, p) is Some {
                    let q = choose|q: int| 0 <= q < nf && (#[trigger] ev[q]).name == p;
                    assert(tv.contains(ev[q]));
                    let j = choose|j: int| 0 <= j < tv.len() && tv[j] == ev[q];
                    lemma_entry_pick(tv, j, p, EntryKind::File);
                } else if has_entry(tv, p, EntryKind::File) {
                    let j = choose|j: int| 0 <= j < tv.len() && (#[trigger] tv[j]).name == p && tv[j].kind == EntryKind::File;
                    assert(ev.contains(tv[j]));
                    let q = choose|q: int| 0 <= q < ev.len() && ev[q] == tv[j];
                    if q >= nf {
                        assert(ev[nf + (q - nf)] == ev[q]);
                    }
                }
            },
            Some(i) => {
                let n = p.take(i);
                lemma_slash_index(p);
                assert(p =~= n + seq![47u8] + p.skip(i + 1));
                if lookup(l, p) is Some {
                    let x = choose|x: int| 0 <= x < names.len() && #[trigger] names[x] == p.take(slash_index(p)->Some_0);
                    assert(ev[nf + x].name == n);
                    assert(tv.contains(ev[nf + x]));
                    let j = choose|j: int| 0 <= j < tv.len() && tv[j] == ev[nf + x];
                    lemma_entry_pick(tv, j, n, EntryKind::Dir);
                    assert(file_at(st, ev[nf + x].id, p.skip(i + 1), (fuel - 1) as nat) == lookup(l, names[x] + seq![47u8] + p.skip(i + 1)));
                } else if has_entry(tv, n, EntryKind::Dir) && fuel > 0 {
                    let j = choose|j: int| 0 <= j < tv.len() && (#[trigger] tv[j]).name == n && tv[j].kind == EntryKind::Dir;
                    assert(ev.contains(tv[j]));
                    let q = choose|q: int| 0 <= q < ev.len() && ev[q] == tv[j];
                    assert(q >= nf);
                    let x = q - nf;
                    assert(ev[nf + x] == ev[q]);
                    lemma_entry_pick(tv, j, n, EntryKind::Dir);
                    assert(file_at(st, ev[nf + x].id, p.skip(i + 1), (fuel - 1) as nat) == lookup(l, names[x] + seq![47u8] + p.skip(i + 1)));
                }
            },
        }
    }
}


/// The tree `id` reads back in full as `files`, at most `depth` down.
pub open spec fn reads_back(st: Listing, id: Seq<u8>, depth: nat, files: Listing) -> bool {
    &&& readable(st, id, depth)
    &&& forall|p: Seq<u8>| #[trigger] file_at(st, id, p, depth) == lookup(files, p)
}

/// What reads back keeps reading back while the store only grows.
pub proof fn lemma_reads_back_kept(s1: Listing, s2: Listing, id: Seq<u8>, depth: nat, files: Listing)
    requires
        only_adds(s1, s2),
        ids_unambiguous(s1) ==> reads_back(s1, id, depth, files),
    ensures
        ids_unambiguous(s2) ==> reads_back(s2, id, depth, files),
{
    if ids_unambiguous(s2) {
        lemma_unambiguous_before(s1, s2);
        lemma_only_adds_keeps(s1, s2);
        lemma_tree_kept(s1, s2, id, depth);
    }
}

/// Names in strictly ascending order are distinct.
proof fn lemma_ascending_distinct(tv: Seq<EntryView>)
    requires
        crate::object::names_ascending(tv),
    ensures
        names_distinct(tv),
{
    assert forall|i: int, j: int| 0 <= i < tv.len() && 0 <= j < tv.len() && i != j implies #[trigger] tv[i].name != #[trigger] tv[j].name by {
        if i < j {
            lemma_ascending_pairwise(tv, i, j);
            crate::bytes::lemma_lex_equal(tv[i].name, tv[j].name);
        } else {
            lemma_ascending_pairwise(tv, j, i);
            crate::bytes::lemma_lex_equal(tv[j].name, tv[i].name);
        }
    }
}


/// What a read gives back of a written snapshot: once `write_tree` has
/// filed a snapshot as tree `id` (in a store where no object shares its id
/// with other bytes), the tree can be read in full, and `read_tree` finds
/// at every path exactly the contents that were written there.
pub proof fn law_snapshot_round_trip(st: Listing, id: Seq<u8>, written: Listing, read: Listing)
    requires
        reads_back(st, id, max_depth(), written),
        forall|p: Seq<u8>| #[trigger] lookup(read, p) == file_at(st, id, p, max_depth()),
    ensures
        readable(st, id, max_depth()),
        forall|p: Seq<u8>| #[trigger] lookup(read, p) == lookup(written, p),
{
    assert forall|p: Seq<u8>| #[trigger] lookup(read, p) == lookup(written, p) by {
        assert(file_at(st, id, p, max_depth()) == lookup(written, p));
    }
}

} // verus!
