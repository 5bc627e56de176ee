//! Which files changed between two snapshots. Because a tree id is the
//! hash of its contents, two entries with the same id are identical all
//! the way down, so unchanged subtrees are skipped by comparing ids alone
//! and are never read from the store.

use vstd::prelude::*;

use crate::bytes::{append_bytes, copy_range};
use crate::object::{id_from, tree_canonical, EntryKind, EntryView, Object, ObjectId, TreeEntry};
use crate::reach::object_at;
use crate::repo::{stored, Repo, RepoError};
use crate::snapshot::{has_path, lookup, Files, Listing};
use crate::trees::{
    entry_id, has_entry, head, lemma_entry_unique, lemma_prefix_split, lemma_slash_after_name, lemma_slash_index, slash_index,
    starts_with, tree_at,
};

verus! {

/// The id of the file the tree under `id` has at relative path `p`, going
/// at most `depth` directories down (the file itself is not read).
pub open spec fn id_at(store: Listing, id: Seq<u8>, p: Seq<u8>, depth: nat) -> Option<Seq<u8>>
    decreases depth,
{
    match tree_at(store, id) {
        None => None,
        Some(es) => match slash_index(p) {
            None => if has_entry(es, p, EntryKind::File) {
                Some(entry_id(es, p, EntryKind::File))
            } else {
                None
            },
            Some(i) => if has_entry(es, p.take(i), EntryKind::Dir) && depth > 0 {
                id_at(store, entry_id(es, p.take(i), EntryKind::Dir), p.skip(i + 1), (depth - 1) as nat)
            } else {
                None
            },
        },
    }
}

/// Every directory under the tree `id` (itself included) is a verified
/// tree, at most `depth` directories down.
pub open spec fn listable(store: Listing, id: Seq<u8>, depth: nat) -> bool
    decreases depth,
{
    match tree_at(store, id) {
        None => false,
        Some(es) => forall|i: int|
            0 <= i < es.len() ==> match (#[trigger] es[i]).kind {
                EntryKind::File => true,
                EntryKind::Dir => depth > 0 && listable(store, es[i].id, (depth - 1) as nat),
            },
    }
}

/// An entry whose files can be listed.
pub open spec fn entry_listable(store: Listing, e: EntryView, depth: nat) -> bool {
    match e.kind {
        EntryKind::File => true,
        EntryKind::Dir => depth > 0 && listable(store, e.id, (depth - 1) as nat),
    }
}

/// A record of the file at `p` of tree `id`: `tag`, then its id.
pub open spec fn tagged_id(store: Listing, id: Seq<u8>, p: Seq<u8>, depth: nat, tag: u8) -> Option<Seq<u8>> {
    match id_at(store, id, p, depth) {
        Some(x) => Some(seq![tag] + x),
        None => None,
    }
}

/// A listing after recording the files of the tree under `id` below `pre`.
pub open spec fn emit_into(store: Listing, id: Seq<u8>, depth: nat, pre: Seq<u8>, tag: u8, before: Listing, p: Seq<u8>) -> Option<Seq<u8>> {
    if starts_with(p, pre) && id_at(store, id, p.skip(pre.len() as int), depth) is Some {
        tagged_id(store, id, p.skip(pre.len() as int), depth, tag)
    } else {
        lookup(before, p)
    }
}

/// The same, after the first `j` entries of the tree.
pub open spec fn emit_upto(
    store: Listing,
    id: Seq<u8>,
    es: Seq<EntryView>,
    j: int,
    depth: nat,
    pre: Seq<u8>,
    tag: u8,
    before: Listing,
    p: Seq<u8>,
) -> Option<Seq<u8>> {
    if starts_with(p, pre) && (exists|q: int| 0 <= q < j && #[trigger] es[q].name == head(p.skip(pre.len() as int))) && id_at(
        store,
        id,
        p.skip(pre.len() as int),
        depth,
    ) is Some {
        tagged_id(store, id, p.skip(pre.len() as int), depth, tag)
    } else {
        lookup(before, p)
    }
}

/// The entry of `es` named `n`, if any.
pub open spec fn entry_named(es: Seq<EntryView>, n: Seq<u8>) -> Option<EntryView> {
    if exists|i: int| 0 <= i < es.len() && (#[trigger] es[i]).name == n {
        Some(es[choose|i: int| 0 <= i < es.len() && (#[trigger] es[i]).name == n])
    } else {
        None
    }
}

/// The id of an entry that is a file.
pub open spec fn file_id(e: Option<EntryView>) -> Option<Seq<u8>> {
    match e {
        Some(x) => if x.kind == EntryKind::File {
            Some(x.id)
        } else {
            None
        },
        None => None,
    }
}

/// An entry that is a directory.
pub open spec fn is_dir(e: Option<EntryView>) -> bool {
    e matches Some(x) && x.kind == EntryKind::Dir
}

/// The record of a file whose id went from `x` to `y` (absent: `None`):
/// `0` and the id for an added file, `1` and the id for a removed one, `2`
/// and both ids for a modified one; nothing if it did not change.
pub open spec fn change_of(x: Option<Seq<u8>>, y: Option<Seq<u8>>) -> Option<Seq<u8>> {
    match (x, y) {
        (None, None) => None,
        (Some(i), None) => Some(seq![1u8] + i),
        (None, Some(j)) => Some(seq![0u8] + j),
        (Some(i), Some(j)) => if i == j {
            None
        } else {
            Some(seq![2u8] + i + j)
        },
    }
}

/// What changed at relative path `rel` from tree `a` to tree `b`.
/// Entries with equal ids are identical all the way down.
pub open spec fn change_at(store: Listing, a: Seq<u8>, b: Seq<u8>, rel: Seq<u8>, depth: nat) -> Option<Seq<u8>>
    decreases depth,
{
    if a == b {
        None
    } else {
        let x = entry_named(tree_at(store, a)->Some_0, head(rel));
        let y = entry_named(tree_at(store, b)->Some_0, head(rel));
        if x is Some && y is Some && x->Some_0.id == y->Some_0.id {
            None
        } else {
            match slash_index(rel) {
                None => change_of(file_id(x), file_id(y)),
                Some(i) => if depth == 0 {
                    None
                } else if is_dir(x) && is_dir(y) {
                    change_at(store, x->Some_0.id, y->Some_0.id, rel.skip(i + 1), (depth - 1) as nat)
                } else if is_dir(x) {
                    tagged_id(store, x->Some_0.id, rel.skip(i + 1), (depth - 1) as nat, 1u8)
                } else if is_dir(y) {
                    tagged_id(store, y->Some_0.id, rel.skip(i + 1), (depth - 1) as nat, 0u8)
                } else {
                    None
                },
            }
        }
    }
}

/// Trees `a` and `b` can be compared at most `depth` directories down:
/// they are equal, or both are verified trees, differing directories can
/// be compared, and every directory only one side has can be listed.
pub open spec fn diffable(store: Listing, a: Seq<u8>, b: Seq<u8>, depth: nat) -> bool
    decreases depth,
{
    a == b || (tree_at(store, a) is Some && tree_at(store, b) is Some && (forall|i: int|
        0 <= i < tree_at(store, a)->Some_0.len() ==> match entry_named(tree_at(store, b)->Some_0, (#[trigger] tree_at(store, a)->Some_0[i]).name) {
            None => entry_listable(store, tree_at(store, a)->Some_0[i], depth),
            Some(y) => {
                let x = tree_at(store, a)->Some_0[i];
                ||| x.id == y.id
                ||| (x.kind == EntryKind::File && y.kind == EntryKind::File)
                ||| (x.kind == EntryKind::Dir && y.kind == EntryKind::Dir && depth > 0 && diffable(store, x.id, y.id, (depth - 1) as nat))
                ||| (x.kind != y.kind && entry_listable(store, x, depth) && entry_listable(store, y, depth))
            },
        }) && (forall|j: int|
        0 <= j < tree_at(store, b)->Some_0.len() && entry_named(tree_at(store, a)->Some_0, (#[trigger] tree_at(store, b)->Some_0[j]).name)
            is None ==> entry_listable(store, tree_at(store, b)->Some_0[j], depth)))
}

/// A listing after recording the changes from `a` to `b` below `pre`.
pub open spec fn diff_into(store: Listing, a: Seq<u8>, b: Seq<u8>, depth: nat, pre: Seq<u8>, before: Listing, p: Seq<u8>) -> Option<Seq<u8>> {
    if starts_with(p, pre) && change_at(store, a, b, p.skip(pre.len() as int), depth) is Some {
        change_at(store, a, b, p.skip(pre.len() as int), depth)
    } else {
        lookup(before, p)
    }
}

/// The same, for the paths whose first name is one of `names`.
pub open spec fn diff_upto(
    store: Listing,
    a: Seq<u8>,
    b: Seq<u8>,
    names: Set<Seq<u8>>,
    depth: nat,
    pre: Seq<u8>,
    before: Listing,
    p: Seq<u8>,
) -> Option<Seq<u8>> {
    if starts_with(p, pre) && names.contains(head(p.skip(pre.len() as int))) && change_at(store, a, b, p.skip(pre.len() as int), depth)
        is Some {
        change_at(store, a, b, p.skip(pre.len() as int), depth)
    } else {
        lookup(before, p)
    }
}

/// In a canonical tree, an entry it holds is the one found by its name.
pub proof fn lemma_entry_named(es: Seq<EntryView>, e: EntryView)
    requires
        tree_canonical(es),
        es.contains(e),
    ensures
        entry_named(es, e.name) == Some(e),
{
    let q = choose|q: int| 0 <= q < es.len() && es[q] == e;
    lemma_entry_unique(es, q);
    let i = choose|i: int| 0 <= i < es.len() && (#[trigger] es[i]).name == e.name;
    if i != q {
        assert(has_entry(es, es[i].name, es[i].kind));
        lemma_entry_unique(es, i);
        assert(entry_id(es, es[i].name, es[i].kind) == es[i].id);
    }
    assert(i == q) by {
        if i != q {
            crate::bytes::lemma_lex_equal(es[i].name, es[q].name);
            if i < q {
                crate::object::lemma_ascending_pairwise(es, i, q);
            } else {
                crate::object::lemma_ascending_pairwise(es, q, i);
            }
        }
    }
}


/// The names of the first `q` entries.
pub open spec fn names_of(es: Seq<EntryView>, q: int) -> Set<Seq<u8>> {
    Set::new(|n: Seq<u8>| exists|k: int| 0 <= k < q && (#[trigger] es[k]).name == n)
}

/// Entry `x` of one tree compares with `y`, its namesake in the other.
pub open spec fn pair_ok(store: Listing, x: EntryView, y: Option<EntryView>, depth: nat) -> bool {
    match y {
        None => entry_listable(store, x, depth),
        Some(y) => {
            ||| x.id == y.id
            ||| (x.kind == EntryKind::File && y.kind == EntryKind::File)
            ||| (x.kind == EntryKind::Dir && y.kind == EntryKind::Dir && depth > 0 && diffable(store, x.id, y.id, (depth - 1) as nat))
            ||| (x.kind != y.kind && entry_listable(store, x, depth) && entry_listable(store, y, depth))
        },
    }
}


/// A listing after recording the changes for the paths whose first name
/// is `n`.
pub open spec fn entry_step(store: Listing, a: Seq<u8>, b: Seq<u8>, n: Seq<u8>, depth: nat, pre: Seq<u8>, before: Listing, p: Seq<u8>) -> Option<
    Seq<u8>,
> {
    if starts_with(p, pre) && head(p.skip(pre.len() as int)) == n && change_at(store, a, b, p.skip(pre.len() as int), depth) is Some {
        change_at(store, a, b, p.skip(pre.len() as int), depth)
    } else {
        lookup(before, p)
    }
}

/// A path below `pre` whose first name is `n` (which has no `/`) is
/// `pre + n` or lies below `pre + n + "/"`.
pub proof fn lemma_head_split(pre: Seq<u8>, n: Seq<u8>, p: Seq<u8>)
    requires
        !n.contains(47u8),
    ensures
        p == pre + n ==> starts_with(p, pre) && p.skip(pre.len() as int) == n && slash_index(n) is None && head(n) == n,
        starts_with(p, pre + n + seq![47u8]) ==> starts_with(p, pre) && p.skip(pre.len() as int) == n + seq![47u8] + p.skip(
            (pre.len() + n.len() + 1) as int,
        ) && slash_index(p.skip(pre.len() as int)) == Some(n.len() as int) && head(p.skip(pre.len() as int)) == n && p.skip(
            pre.len() as int,
        ).skip(n.len() as int + 1) == p.skip((pre.len() + n.len() + 1) as int),
        starts_with(p, pre) && head(p.skip(pre.len() as int)) == n ==> p == pre + n || starts_with(p, pre + n + seq![47u8]),
{
    lemma_slash_index(n);
    if p == pre + n {
        lemma_prefix_split(pre, n);
    }
    if starts_with(p, pre + n + seq![47u8]) {
        let rest = p.skip((pre.len() + n.len() + 1) as int);
        let w = pre + n + seq![47u8];
        assert(p.take(w.len() as int) == w);
        assert(p =~= p.take(w.len() as int) + p.skip(w.len() as int));
        assert(p =~= pre + (n + seq![47u8] + rest));
        lemma_prefix_split(pre, n + seq![47u8] + rest);
        lemma_slash_after_name(n, rest);
    }
    if starts_with(p, pre) && head(p.skip(pre.len() as int)) == n {
        let rel = p.skip(pre.len() as int);
        assert(p =~= pre + rel);
        lemma_slash_index(rel);
        match slash_index(rel) {
            None => {
                assert(rel == n);
            },
            Some(i) => {
                assert(rel.take(i) == n);
                assert(rel =~= n + seq![47u8] + rel.skip(i + 1));
                assert(p =~= pre + n + seq![47u8] + rel.skip(i + 1));
                assert(p.take((pre.len() + n.len() + 1) as int) =~= pre + n + seq![47u8]);
            },
        }
    }
}

/// One file-level change between two snapshots.
#[derive(Debug, Clone, PartialEq, Eq)]
pub enum Change {
    Added { path: Vec<u8>, id: ObjectId },
    Removed { path: Vec<u8>, id: ObjectId },
    Modified { path: Vec<u8>, old: ObjectId, new: ObjectId },
}

impl Change {
    /// The path the change is at.
    pub open spec fn path_view(&self) -> Seq<u8> {
        match self {
            Change::Added { path, .. } => path@,
            Change::Removed { path, .. } => path@,
            Change::Modified { path, .. } => path@,
        }
    }

    /// The change as a record (see `change_of`).
    pub open spec fn record(&self) -> Seq<u8> {
        match self {
            Change::Added { id, .. } => seq![0u8] + id@,
            Change::Removed { id, .. } => seq![1u8] + id@,
            Change::Modified { old, new, .. } => seq![2u8] + old@ + new@,
        }
    }

    /// The path the change is at.
    pub fn path(&self) -> (r: &[u8])
        ensures
            r@ == self.path_view(),
    {
        match self {
            Change::Added { path, .. } => path.as_slice(),
            Change::Removed { path, .. } => path.as_slice(),
            Change::Modified { path, .. } => path.as_slice(),
        }
    }
}

/// The entries of a verified tree have 32-byte ids.
pub proof fn lemma_tree_ids(store: Listing, id: Seq<u8>)
    requires
        tree_at(store, id) is Some,
    ensures
        tree_canonical(tree_at(store, id)->Some_0),
{
    crate::object::law_encode_of_decode(lookup(store, crate::repo::obj_key_spec(id))->Some_0);
}

/// A file's id found in a tree is 32 bytes.
pub proof fn lemma_id_at_len(store: Listing, id: Seq<u8>, p: Seq<u8>, depth: nat)
    requires
        id_at(store, id, p, depth) is Some,
    ensures
        id_at(store, id, p, depth)->Some_0.len() == 32,
    decreases depth,
{
    lemma_tree_ids(store, id);
    let es = tree_at(store, id)->Some_0;
    match slash_index(p) {
        None => {
            let i = choose|i: int| 0 <= i < es.len() && (#[trigger] es[i]).name == p && es[i].kind == EntryKind::File;
        },
        Some(i) => {
            let n = p.take(i);
            let k = choose|k: int| 0 <= k < es.len() && (#[trigger] es[k]).name == n && es[k].kind == EntryKind::Dir;
            lemma_id_at_len(store, entry_id(es, n, EntryKind::Dir), p.skip(i + 1), (depth - 1) as nat);
        },
    }
}

/// A change record is a tag and one id (added, removed) or two
/// (modified).
pub open spec fn record_ok(r: Seq<u8>) -> bool {
    ||| (r.len() == 33 && (r[0] == 0 || r[0] == 1))
    ||| (r.len() == 65 && r[0] == 2)
}

/// Every change found has a well-formed record.
pub proof fn lemma_change_record(store: Listing, a: Seq<u8>, b: Seq<u8>, rel: Seq<u8>, depth: nat)
    requires
        diffable(store, a, b, depth),
        change_at(store, a, b, rel, depth) is Some,
    ensures
        record_ok(change_at(store, a, b, rel, depth)->Some_0),
    decreases depth,
{
    lemma_tree_ids(store, a);
    lemma_tree_ids(store, b);
    let ea = tree_at(store, a)->Some_0;
    let eb = tree_at(store, b)->Some_0;
    let n = head(rel);
    let x = entry_named(ea, n);
    let y = entry_named(eb, n);
    let mut ix: int = 0;
    if x is Some {
        ix = choose|i: int| 0 <= i < ea.len() && (#[trigger] ea[i]).name == n;
        assert(ea[ix] == tree_at(store, a)->Some_0[ix]);
    }
    if y is Some {
        let i = choose|i: int| 0 <= i < eb.len() && (#[trigger] eb[i]).name == n;
    }
    match slash_index(rel) {
        None => {},
        Some(i) => {
            let rest = rel.skip(i + 1);
            if is_dir(x) && is_dir(y) {
                lemma_change_record(store, x->Some_0.id, y->Some_0.id, rest, (depth - 1) as nat);
            } else if is_dir(x) {
                lemma_id_at_len(store, x->Some_0.id, rest, (depth - 1) as nat);
            } else if is_dir(y) {
                lemma_id_at_len(store, y->Some_0.id, rest, (depth - 1) as nat);
            }
        },
    }
}

impl Repo {
    /// Records every file under the tree `id` in `out`: its path under
    /// `prefix`, and `tag` followed by its id.
    #[verifier::rlimit(80)]
    #[verifier::spinoff_prover]
    fn emit_tree(&self, id: &ObjectId, prefix: &mut Vec<u8>, out: &mut Files, tag: u8, depth: usize) -> (r: Result<(), RepoError>)
        requires
            self.wf(),
            old(out).wf(),
        ensures
            final(out).wf(),
            r is Ok ==> final(prefix)@ == old(prefix)@,
            r is Ok <==> listable(self@, id@, depth as nat),
            r is Ok ==> forall|p: Seq<u8>| #[trigger] lookup(final(out)@, p) == emit_into(self@, id@, depth as nat, old(prefix)@, tag, old(out)@, p),
        decreases depth,
    {
        let ghost st = self@;
        let ghost pre = prefix@;
        let ghost out0 = out@;
        let obj = match self.require(id) {
            Ok(o) => o,
            Err(e) => {
                proof {
                    if object_at(st, id@) is Some {
                        assert(stored(st, id@, object_at(st, id@)->Some_0));
                    }
                }
                return Err(e);
            },
        };
        let t = match obj {
            Object::Tree(t) => t,
            _ => return Err(RepoError::WrongType(*id, "tree")),
        };
        t.check_canonical();
        let es = t.entries();
        let ghost ev = t@;
        assert(tree_at(st, id@) == Some(ev));
        let mut j: usize = 0;
        while j < es.len()
            invariant
                st == self@,
                self.wf(),
                ev == t@,
                tree_canonical(ev),
                tree_at(st, id@) == Some(ev),
                es@.map_values(|e: TreeEntry| e@) == ev,
                j <= es@.len(),
                prefix@ == pre,
                out.wf(),
                forall|q: int| 0 <= q < j ==> entry_listable(st, #[trigger] ev[q], depth as nat),
                forall|p: Seq<u8>| #[trigger] lookup(out@, p) == emit_upto(st, id@, ev, j as int, depth as nat, pre, tag, out0, p),
            decreases es@.len() - j,
        {
            let e = &es[j];
            let ghost en = ev[j as int];
            assert(e@ == en);
            proof {
                lemma_entry_unique(ev, j as int);
            }
            let ghost before = out@;
            append_bytes(prefix, e.name.as_slice());
            let ghost pn = prefix@;
            assert(pn == pre + en.name);
            match e.kind {
                EntryKind::File => {
                    let key = copy_range(prefix.as_slice(), 0, prefix.len());
                    assert(prefix@.subrange(0, prefix@.len() as int) =~= pn);
                    let mut val: Vec<u8> = Vec::new();
                    val.push(tag);
                    append_bytes(&mut val, &e.id.0);
                    out.insert(key, val);
                    proof {
                        assert(!en.name.contains(47u8));
                        lemma_slash_index(en.name);
                        assert forall|p: Seq<u8>| #[trigger] lookup(out@, p) == emit_upto(st, id@, ev, j + 1, depth as nat, pre, tag, out0, p) by {
                            let rel = p.skip(pre.len() as int);
                            if p == pn {
                                lemma_prefix_split(pre, en.name);
                                assert(head(rel) == en.name);
                                assert(ev[j as int].name == head(rel));
                            } else if starts_with(p, pre) && head(rel) == en.name {
                                assert(p =~= pre + rel);
                                if slash_index(rel) is None {
                                    assert(rel == en.name);
                                }
                                assert(id_at(st, id@, rel, depth as nat) is None);
                                assert(emit_upto(st, id@, ev, j + 1, depth as nat, pre, tag, out0, p) == lookup(out0, p));
                                assert(emit_upto(st, id@, ev, j as int, depth as nat, pre, tag, out0, p) == lookup(out0, p)) by {
                                    if exists|q: int| 0 <= q < j && #[trigger] ev[q].name == head(rel) {
                                        let q = choose|q: int| 0 <= q < j && #[trigger] ev[q].name == head(rel);
                                        lemma_entry_unique(ev, q);
                                    }
                                }
                            } else {
                                if starts_with(p, pre) && exists|q: int| 0 <= q < j + 1 && #[trigger] ev[q].name == head(rel) {
                                    let q = choose|q: int| 0 <= q < j + 1 && #[trigger] ev[q].name == head(rel);
                                    assert(q < j);
                                }
                            }
                        }
                    }
                },
                EntryKind::Dir => {
                    if depth == 0 {
                        return Err(RepoError::Corrupt(e.id));
                    }
                    prefix.push(47u8);
                    let ghost pd = prefix@;
                    assert(pd == pre + (en.name + seq![47u8]));
                    match self.emit_tree(&e.id, prefix, out, tag, depth - 1) {
                        Ok(()) => {},
                        Err(err) => return Err(err),
                    }
                    proof {
                        assert(!en.name.contains(47u8));
                        assert forall|p: Seq<u8>| #[trigger] lookup(out@, p) == emit_upto(st, id@, ev, j + 1, depth as nat, pre, tag, out0, p) by {
                            let rel = p.skip(pre.len() as int);
                            assert(lookup(before, p) == emit_upto(st, id@, ev, j as int, depth as nat, pre, tag, out0, p));
                            assert(lookup(out@, p) == emit_into(st, en.id, (depth - 1) as nat, pd, tag, before, p));
                            if starts_with(p, pd) {
                                let rest = p.skip(pd.len() as int);
                                assert(p =~= pd + rest);
                                assert(p.take(pre.len() as int) =~= pre);
                                assert(starts_with(p, pre));
                                assert(rel =~= en.name + seq![47u8] + rest);
                                lemma_slash_after_name(en.name, rest);
                                assert(head(rel) == en.name);
                                assert(ev[j as int].name == head(rel));
                                assert(id_at(st, id@, rel, depth as nat) == id_at(st, en.id, rest, (depth - 1) as nat));
                                if id_at(st, en.id, rest, (depth - 1) as nat) is None {
                                    assert(emit_upto(st, id@, ev, j as int, depth as nat, pre, tag, out0, p) == lookup(out0, p)) by {
                                        assert(starts_with(p, pre)) by {
                                            assert(p.take(pre.len() as int) =~= pre);
                                        }
                                    }
                                }
                            } else {
                                if starts_with(p, pre) && head(rel) == en.name {
                                    assert(p =~= pre + rel);
                                    if slash_index(rel) is None {
                                        assert(rel == en.name);
                                        lemma_slash_index(en.name);
                                        assert(id_at(st, id@, rel, depth as nat) is None);
                                    } else {
                                        lemma_slash_index(rel);
                                        let i = slash_index(rel)->Some_0;
                                        assert(rel.take(i) == en.name);
                                        assert(rel =~= en.name + seq![47u8] + rel.skip(i + 1));
                                        assert(p =~= pd + rel.skip(i + 1));
                                        lemma_prefix_split(pd, rel.skip(i + 1));
                                    }
                                    assert(emit_upto(st, id@, ev, j as int, depth as nat, pre, tag, out0, p) == lookup(out0, p)) by {
                                        if exists|q: int| 0 <= q < j && #[trigger] ev[q].name == head(rel) {
                                            let q = choose|q: int| 0 <= q < j && #[trigger] ev[q].name == head(rel);
                                            lemma_entry_unique(ev, q);
                                        }
                                    }
                                } else if starts_with(p, pre) && exists|q: int| 0 <= q < j + 1 && #[trigger] ev[q].name == head(rel) {
                                    let q = choose|q: int| 0 <= q < j + 1 && #[trigger] ev[q].name == head(rel);
                                    assert(q < j);
                                }
                            }
                        }
                    }
                    prefix.pop();
                    assert(prefix@ =~= pn);
                },
            }
            prefix.truncate(prefix.len() - e.name.len());
            assert(prefix@ =~= pre);
            j = j + 1;
        }
        proof {
            assert forall|p: Seq<u8>| #[trigger] lookup(out@, p) == emit_into(st, id@, depth as nat, pre, tag, out0, p) by {
                let rel = p.skip(pre.len() as int);
                if starts_with(p, pre) && id_at(st, id@, rel, depth as nat) is Some {
                    lemma_slash_index(rel);
                    let n = head(rel);
                    let k = if slash_index(rel) is None { EntryKind::File } else { EntryKind::Dir };
                    assert(has_entry(ev, n, k));
                    let q = choose|q: int| 0 <= q < ev.len() && (#[trigger] ev[q]).name == n && ev[q].kind == k;
                    assert(ev[q].name == head(rel));
                }
            }
        }
        Ok(())
    }
    /// A tree, read and verified.
    fn tree_of(&self, id: &ObjectId) -> (r: Result<crate::object::Tree, RepoError>)
        requires
            self.wf(),
        ensures
            r is Ok <==> tree_at(self@, id@) is Some,
            r matches Ok(t) ==> tree_at(self@, id@) == Some(t@) && tree_canonical(t@),
    {
        let obj = match self.require(id) {
            Ok(o) => o,
            Err(e) => {
                proof {
                    if object_at(self@, id@) is Some {
                        assert(stored(self@, id@, object_at(self@, id@)->Some_0));
                    }
                }
                return Err(e);
            },
        };
        match obj {
            Object::Tree(t) => {
                t.check_canonical();
                Ok(t)
            },
            _ => Err(RepoError::WrongType(*id, "tree")),
        }
    }

    /// Records one entry's files (the entry itself, or everything under
    /// it) under `prefix`, each as `tag` and its id.
    fn emit_entry(&self, kind: EntryKind, id: &ObjectId, prefix: &mut Vec<u8>, out: &mut Files, tag: u8, depth: usize) -> (r: Result<(), RepoError>)
        requires
            self.wf(),
            old(out).wf(),
        ensures
            final(out).wf(),
            r is Ok ==> final(prefix)@ == old(prefix)@,
            r is Ok <==> entry_listable(self@, EntryView { name: seq![], kind, id: id@ }, depth as nat),
            r is Ok ==> forall|p: Seq<u8>| #[trigger] lookup(final(out)@, p) == if kind == EntryKind::File {
                if p == old(prefix)@ {
                    Some(seq![tag] + id@)
                } else {
                    lookup(old(out)@, p)
                }
            } else {
                emit_into(self@, id@, (depth - 1) as nat, old(prefix)@ + seq![47u8], tag, old(out)@, p)
            },
    {
        match kind {
            EntryKind::File => {
                let key = copy_range(prefix.as_slice(), 0, prefix.len());
                assert(prefix@.subrange(0, prefix@.len() as int) =~= prefix@);
                let mut val: Vec<u8> = Vec::new();
                val.push(tag);
                append_bytes(&mut val, &id.0);
                assert(val@ =~= seq![tag] + id@);
                out.insert(key, val);
                Ok(())
            },
            EntryKind::Dir => {
                if depth == 0 {
                    return Err(RepoError::Corrupt(*id));
                }
                let ghost pre = prefix@;
                let ghost out0 = out@;
                prefix.push(47u8);
                assert(prefix@ == pre + seq![47u8]);
                match self.emit_tree(id, prefix, out, tag, depth - 1) {
                    Ok(()) => {},
                    Err(e) => return Err(e),
                }
                assert(forall|p: Seq<u8>| #[trigger] lookup(out@, p) == emit_into(self@, id@, (depth - 1) as nat, pre + seq![47u8], tag, out0, p));
                prefix.pop();
                assert(prefix@ =~= pre);
                Ok(())
            },
        }
    }
    /// Records the changes from tree `a` to tree `b` under `prefix`.
    #[verifier::rlimit(100)]
    #[verifier::spinoff_prover]
    fn diff_level(&self, a: &ObjectId, b: &ObjectId, prefix: &mut Vec<u8>, out: &mut Files, depth: usize) -> (r: Result<(), RepoError>)
        requires
            self.wf(),
            old(out).wf(),
        ensures
            final(out).wf(),
            r is Ok ==> final(prefix)@ == old(prefix)@,
            r is Ok <==> diffable(self@, a@, b@, depth as nat),
            r is Ok ==> forall|p: Seq<u8>| #[trigger] lookup(final(out)@, p) == diff_into(self@, a@, b@, depth as nat, old(prefix)@, old(out)@, p),
        decreases depth,
    {
        let ghost st = self@;
        let ghost pre = prefix@;
        let ghost out0 = out@;
        let ghost d = depth as nat;
        if crate::bytes::bytes_eq(&a.0, &b.0) {
            return Ok(());
        }
        let ta = match self.tree_of(a) {
            Ok(t) => t,
            Err(e) => return Err(e),
        };
        let tb = match self.tree_of(b) {
            Ok(t) => t,
            Err(e) => return Err(e),
        };
        let ghost ea = ta@;
        let ghost eb = tb@;
        let esa = ta.entries();
        let mut q: usize = 0;
        proof {
            assert forall|p: Seq<u8>| #[trigger] lookup(out@, p) == diff_upto(st, a@, b@, names_of(ea, 0), d, pre, out0, p) by {
                if names_of(ea, 0).contains(head(p.skip(pre.len() as int))) {
                }
            }
        }
        while q < esa.len()
            invariant
                st == self@,
                self.wf(),
                out.wf(),
                prefix@ == pre,
                a@ != b@,
                d == depth as nat,
                tree_at(st, a@) == Some(ea),
                tree_at(st, b@) == Some(eb),
                tree_canonical(ea),
                tree_canonical(eb),
                ta@ == ea,
                tb@ == eb,
                esa@.map_values(|e: TreeEntry| e@) == ea,
                q <= esa@.len(),
                forall|i: int| 0 <= i < q ==> pair_ok(st, #[trigger] ea[i], entry_named(eb, ea[i].name), d),
                forall|p: Seq<u8>| #[trigger] lookup(out@, p) == diff_upto(st, a@, b@, names_of(ea, q as int), d, pre, out0, p),
            decreases esa@.len() - q,
        {
            let x = &esa[q];
            let ghost xv = ea[q as int];
            assert(x@ == xv);
            proof {
                assert(ea.contains(xv));
                lemma_entry_named(ea, xv);
                assert(!xv.name.contains(47u8));
            }
            let ghost before = out@;
            append_bytes(prefix, x.name.as_slice());
            let ghost pn = prefix@;
            assert(pn == pre + xv.name);
            let found = tb.get(x.name.as_slice());
            let ghost yo: Option<EntryView> = match found {
                Some(y) => Some(y@),
                None => None,
            };
            proof {
                match found {
                    Some(y) => lemma_entry_named(eb, y@),
                    None => {
                        if exists|i: int| 0 <= i < eb.len() && (#[trigger] eb[i]).name == xv.name {
                            let i = choose|i: int| 0 <= i < eb.len() && (#[trigger] eb[i]).name == xv.name;
                        }
                    },
                }
                assert(entry_named(eb, xv.name) == yo);
            }
            let mut ok: bool = true;
            match found {
                None => {
                    match self.emit_entry(x.kind, &x.id, prefix, out, 1u8, depth) {
                        Ok(()) => {},
                        Err(e) => {
                            proof {
                                assert(ea[q as int] == tree_at(st, a@)->Some_0[q as int]);
                            }
                            return Err(e);
                        },
                    }
                    proof {
                        assert forall|p: Seq<u8>| #[trigger] lookup(out@, p) == entry_step(st, a@, b@, xv.name, d, pre, before, p) by {
                            let rel = p.skip(pre.len() as int);
                            lemma_head_split(pre, xv.name, p);
                            if starts_with(p, pn + seq![47u8]) {
                                assert(p != pn);
                                assert(p.skip(pn.len() as int + 1) == rel.skip(xv.name.len() as int + 1));
                            }
                            if !(p == pn || starts_with(p, pn + seq![47u8])) && xv.kind == EntryKind::Dir {
                                assert(!starts_with(p, pn + seq![47u8]));
                            }
                        }
                    }
                },
                Some(y) => {
                    if !crate::bytes::bytes_eq(&x.id.0, &y.id.0) {
                        match (x.kind, y.kind) {
                            (EntryKind::File, EntryKind::File) => {
                                let key = copy_range(prefix.as_slice(), 0, prefix.len());
                                assert(prefix@.subrange(0, prefix@.len() as int) =~= pn);
                                let mut val: Vec<u8> = Vec::new();
                                val.push(2u8);
                                append_bytes(&mut val, &x.id.0);
                                append_bytes(&mut val, &y.id.0);
                                assert(val@ =~= seq![2u8] + xv.id + y@.id);
                                out.insert(key, val);
                                proof {
                                    assert forall|p: Seq<u8>| #[trigger] lookup(out@, p) == entry_step(st, a@, b@, xv.name, d, pre, before, p) by {
                                        lemma_head_split(pre, xv.name, p);
                                        if starts_with(p, pn + seq![47u8]) {
                                            assert(p.len() > pn.len());
                                        }
                                    }
                                }
                            },
                            (EntryKind::Dir, EntryKind::Dir) => {
                                if depth == 0 {
                                    proof {
                                        assert(ea[q as int] == tree_at(st, a@)->Some_0[q as int]);
                                    }
                                    return Err(RepoError::Corrupt(x.id));
                                }
                                prefix.push(47u8);
                                assert(prefix@ == pn + seq![47u8]);
                                match self.diff_level(&x.id, &y.id, prefix, out, depth - 1) {
                                    Ok(()) => {},
                                    Err(e) => {
                                        proof {
                                            assert(ea[q as int] == tree_at(st, a@)->Some_0[q as int]);
                                        }
                                        return Err(e);
                                    },
                                }
                                proof {
                                    assert forall|p: Seq<u8>| #[trigger] lookup(out@, p) == entry_step(st, a@, b@, xv.name, d, pre, before, p) by {
                                        let rel = p.skip(pre.len() as int);
                                        lemma_head_split(pre, xv.name, p);
                                        assert(lookup(out@, p) == diff_into(st, xv.id, y@.id, (d - 1) as nat, pn + seq![47u8], before, p));
                                        if starts_with(p, pn + seq![47u8]) {
                                            assert(p.skip(pn.len() as int + 1) == rel.skip(xv.name.len() as int + 1));
                                        }
                                    }
                                }
                                prefix.pop();
                                assert(prefix@ =~= pn);
                            },
                            _ => {
                                let ghost mid0 = out@;
                                match self.emit_entry(x.kind, &x.id, prefix, out, 1u8, depth) {
                                    Ok(()) => {},
                                    Err(e) => {
                                        proof {
                                            assert(ea[q as int] == tree_at(st, a@)->Some_0[q as int]);
                                        }
                                        return Err(e);
                                    },
                                }
                                let ghost mid1 = out@;
                                match self.emit_entry(y.kind, &y.id, prefix, out, 0u8, depth) {
                                    Ok(()) => {},
                                    Err(e) => {
                                        proof {
                                            assert(ea[q as int] == tree_at(st, a@)->Some_0[q as int]);
                                        }
                                        return Err(e);
                                    },
                                }
                                proof {
                                    assert forall|p: Seq<u8>| #[trigger] lookup(out@, p) == entry_step(st, a@, b@, xv.name, d, pre, before, p) by {
                                        let rel = p.skip(pre.len() as int);
                                        lemma_head_split(pre, xv.name, p);
                                        assert(lookup(mid1, p) == if xv.kind == EntryKind::File {
                                            if p == pn { Some(seq![1u8] + xv.id) } else { lookup(before, p) }
                                        } else {
                                            emit_into(st, xv.id, (d - 1) as nat, pn + seq![47u8], 1u8, before, p)
                                        });
                                        if starts_with(p, pn + seq![47u8]) {
                                            assert(p.skip(pn.len() as int + 1) == rel.skip(xv.name.len() as int + 1));
                                            assert(p != pn);
                                        }
                                        if p == pn {
                                            assert(!starts_with(p, pn + seq![47u8]));
                                        }
                                    }
                                }
                            },
                        }
                    }
                },
            }
            proof {
                if found is Some && xv.id == yo->Some_0.id {
                    assert forall|p: Seq<u8>| #[trigger] lookup(out@, p) == entry_step(st, a@, b@, xv.name, d, pre, before, p) by {}
                }
                assert(pair_ok(st, xv, entry_named(eb, xv.name), d));
                assert forall|i: int| 0 <= i < q + 1 implies pair_ok(st, #[trigger] ea[i], entry_named(eb, ea[i].name), d) by {}
                assert forall|p: Seq<u8>| #[trigger] lookup(out@, p) == diff_upto(st, a@, b@, names_of(ea, q + 1), d, pre, out0, p) by {
                    let rel = p.skip(pre.len() as int);
                    assert(lookup(out@, p) == entry_step(st, a@, b@, xv.name, d, pre, before, p));
                    assert(lookup(before, p) == diff_upto(st, a@, b@, names_of(ea, q as int), d, pre, out0, p));
                    assert(names_of(ea, q + 1).contains(head(rel)) <==> names_of(ea, q as int).contains(head(rel)) || head(rel) == xv.name) by {
                        if names_of(ea, q + 1).contains(head(rel)) {
                            let k = choose|k: int| 0 <= k < q + 1 && (#[trigger] ea[k]).name == head(rel);
                        }
                        if head(rel) == xv.name {
                            assert(ea[q as int].name == head(rel));
                        }
                        if names_of(ea, q as int).contains(head(rel)) {
                            let k = choose|k: int| 0 <= k < q && (#[trigger] ea[k]).name == head(rel);
                        }
                    }
                    if names_of(ea, q as int).contains(xv.name) {
                        let k = choose|k: int| 0 <= k < q && (#[trigger] ea[k]).name == xv.name;
                        lemma_entry_unique(ea, k);
                        lemma_entry_unique(ea, q as int);
                        crate::bytes::lemma_lex_equal(ea[k].name, ea[q as int].name);
                        crate::object::lemma_ascending_pairwise(ea, k, q as int);
                    }
                }
            }
            prefix.truncate(prefix.len() - x.name.len());
            assert(prefix@ =~= pre);
            q = q + 1;
        }
        let ghost na = names_of(ea, ea.len() as int);
        let esb = tb.entries();
        let mut q2: usize = 0;
        proof {
            assert forall|p: Seq<u8>| #[trigger] lookup(out@, p) == diff_upto(st, a@, b@, na.union(names_of(eb, 0)), d, pre, out0, p) by {
                assert(na.union(names_of(eb, 0)).contains(head(p.skip(pre.len() as int))) == na.contains(head(p.skip(pre.len() as int))));
            }
        }
        while q2 < esb.len()
            invariant
                st == self@,
                self.wf(),
                out.wf(),
                prefix@ == pre,
                a@ != b@,
                d == depth as nat,
                tree_at(st, a@) == Some(ea),
                tree_at(st, b@) == Some(eb),
                tree_canonical(ea),
                tree_canonical(eb),
                ta@ == ea,
                tb@ == eb,
                na == names_of(ea, ea.len() as int),
                esb@.map_values(|e: TreeEntry| e@) == eb,
                q2 <= esb@.len(),
                forall|i: int| 0 <= i < ea.len() ==> pair_ok(st, #[trigger] ea[i], entry_named(eb, ea[i].name), d),
                forall|j: int| 0 <= j < q2 && entry_named(ea, (#[trigger] eb[j]).name) is None ==> entry_listable(st, eb[j], d),
                forall|p: Seq<u8>| #[trigger] lookup(out@, p) == diff_upto(st, a@, b@, na.union(names_of(eb, q2 as int)), d, pre, out0, p),
            decreases esb@.len() - q2,
        {
            let y = &esb[q2];
            let ghost yv = eb[q2 as int];
            assert(y@ == yv);
            proof {
                assert(eb.contains(yv));
                lemma_entry_named(eb, yv);
                assert(!yv.name.contains(47u8));
            }
            let ghost before = out@;
            let found = ta.get(y.name.as_slice());
            proof {
                match found {
                    Some(x) => lemma_entry_named(ea, x@),
                    None => {
                        if exists|i: int| 0 <= i < ea.len() && (#[trigger] ea[i]).name == yv.name {
                            let i = choose|i: int| 0 <= i < ea.len() && (#[trigger] ea[i]).name == yv.name;
                        }
                    },
                }
            }
            if found.is_none() {
                append_bytes(prefix, y.name.as_slice());
                let ghost pn = prefix@;
                assert(pn == pre + yv.name);
                match self.emit_entry(y.kind, &y.id, prefix, out, 0u8, depth) {
                    Ok(()) => {},
                    Err(e) => {
                        proof {
                            assert(eb[q2 as int] == tree_at(st, b@)->Some_0[q2 as int]);
                        }
                        return Err(e);
                    },
                }
                proof {
                    assert forall|p: Seq<u8>| #[trigger] lookup(out@, p) == entry_step(st, a@, b@, yv.name, d, pre, before, p) by {
                        let rel = p.skip(pre.len() as int);
                        lemma_head_split(pre, yv.name, p);
                        if starts_with(p, pn + seq![47u8]) {
                            assert(p != pn);
                            assert(p.skip(pn.len() as int + 1) == rel.skip(yv.name.len() as int + 1));
                        }
                    }
                }
                prefix.truncate(prefix.len() - y.name.len());
                assert(prefix@ =~= pre);
            } else {
                proof {
                    assert forall|p: Seq<u8>| #[trigger] lookup(out@, p) == entry_step(st, a@, b@, yv.name, d, pre, before, p) by {
                        let rel = p.skip(pre.len() as int);
                        if starts_with(p, pre) && head(rel) == yv.name {
                            let i = choose|i: int| 0 <= i < ea.len() && (#[trigger] ea[i]).name == yv.name;
                            assert(na.contains(yv.name));
                        }
                    }
                }
            }
            proof {
                assert forall|j: int| 0 <= j < q2 + 1 && entry_named(ea, (#[trigger] eb[j]).name) is None implies entry_listable(st, eb[j], d) by {}
                assert forall|p: Seq<u8>| #[trigger] lookup(out@, p) == diff_upto(st, a@, b@, na.union(names_of(eb, q2 + 1)), d, pre, out0, p) by {
                    let rel = p.skip(pre.len() as int);
                    assert(lookup(out@, p) == entry_step(st, a@, b@, yv.name, d, pre, before, p));
                    assert(lookup(before, p) == diff_upto(st, a@, b@, na.union(names_of(eb, q2 as int)), d, pre, out0, p));
                    assert(names_of(eb, q2 + 1).contains(head(rel)) <==> names_of(eb, q2 as int).contains(head(rel)) || head(rel) == yv.name) by {
                        if names_of(eb, q2 + 1).contains(head(rel)) {
                            let k = choose|k: int| 0 <= k < q2 + 1 && (#[trigger] eb[k]).name == head(rel);
                        }
                        if head(rel) == yv.name {
                            assert(eb[q2 as int].name == head(rel));
                        }
                        if names_of(eb, q2 as int).contains(head(rel)) {
                            let k = choose|k: int| 0 <= k < q2 && (#[trigger] eb[k]).name == head(rel);
                        }
                    }
                    if na.union(names_of(eb, q2 as int)).contains(yv.name) && found.is_none() {
                        if na.contains(yv.name) {
                            let k = choose|k: int| 0 <= k < ea.len() && (#[trigger] ea[k]).name == yv.name;
                        } else {
                            let k = choose|k: int| 0 <= k < q2 && (#[trigger] eb[k]).name == yv.name;
                            lemma_entry_unique(eb, k);
                            crate::bytes::lemma_lex_equal(eb[k].name, eb[q2 as int].name);
                            crate::object::lemma_ascending_pairwise(eb, k, q2 as int);
                        }
                    }
                }
            }
            q2 = q2 + 1;
        }
        proof {
            let nb = names_of(eb, eb.len() as int);
            assert forall|p: Seq<u8>| #[trigger] lookup(out@, p) == diff_into(st, a@, b@, d, pre, out0, p) by {
                let rel = p.skip(pre.len() as int);
                assert(lookup(out@, p) == diff_upto(st, a@, b@, na.union(nb), d, pre, out0, p));
                if starts_with(p, pre) && change_at(st, a@, b@, rel, d) is Some {
                    let n = head(rel);
                    if entry_named(ea, n) is Some {
                        let k = choose|k: int| 0 <= k < ea.len() && (#[trigger] ea[k]).name == n;
                        assert(na.contains(n));
                    } else if entry_named(eb, n) is Some {
                        let k = choose|k: int| 0 <= k < eb.len() && (#[trigger] eb[k]).name == n;
                        assert(nb.contains(n));
                    }
                }
            }
            assert forall|i: int| 0 <= i < tree_at(st, a@)->Some_0.len() implies match entry_named(tree_at(st, b@)->Some_0, (#[trigger] tree_at(st, a@)->Some_0[i]).name) {
                None => entry_listable(st, tree_at(st, a@)->Some_0[i], d),
                Some(y) => {
                    let x = tree_at(st, a@)->Some_0[i];
                    ||| x.id == y.id
                    ||| (x.kind == EntryKind::File && y.kind == EntryKind::File)
                    ||| (x.kind == EntryKind::Dir && y.kind == EntryKind::Dir && d > 0 && diffable(st, x.id, y.id, (d - 1) as nat))
                    ||| (x.kind != y.kind && entry_listable(st, x, d) && entry_listable(st, y, d))
                },
            } by {
                assert(pair_ok(st, ea[i], entry_named(eb, ea[i].name), d));
            }
            assert forall|j: int| 0 <= j < tree_at(st, b@)->Some_0.len() && entry_named(tree_at(st, a@)->Some_0, (#[trigger] tree_at(st, b@)->Some_0[j]).name)
                is None implies entry_listable(st, tree_at(st, b@)->Some_0[j], d) by {
                assert(eb[j] == tree_at(st, b@)->Some_0[j]);
            }
        }
        Ok(())
    }
    /// The file-level changes turning tree `a` into tree `b`, sorted by
    /// path. Subtrees with equal ids are skipped without being read.
    pub fn diff_trees(&self, a: &ObjectId, b: &ObjectId) -> (r: Result<Vec<Change>, RepoError>)
        requires
            self.wf(),
        ensures
            r is Ok <==> diffable(self@, a@, b@, crate::trees::max_depth()),
            r matches Ok(v) ==> (forall|i: int, j: int| 0 <= i < j < v@.len() ==> crate::bytes::lex_lt(#[trigger] v@[i].path_view(), #[trigger] v@[j].path_view()))
                && (forall|i: int| 0 <= i < v@.len() ==> change_at(self@, a@, b@, (#[trigger] v@[i]).path_view(), crate::trees::max_depth()) == Some(v@[i].record()))
                && (forall|p: Seq<u8>| #[trigger] change_at(self@, a@, b@, p, crate::trees::max_depth()) is Some ==> exists|i: int| 0 <= i < v@.len() && (#[trigger] v@[i]).path_view() == p),
    {
        let ghost st = self@;
        let ghost dd = crate::trees::max_depth();
        let mut out = Files::new();
        let mut prefix: Vec<u8> = Vec::new();
        match self.diff_level(a, b, &mut prefix, &mut out, usize::MAX) {
            Ok(()) => {},
            Err(e) => return Err(e),
        }
        proof {
            assert forall|p: Seq<u8>| #[trigger] lookup(out@, p) == change_at(st, a@, b@, p, dd) by {
                assert(p.take(0) =~= Seq::<u8>::empty());
                assert(p.skip(0) =~= p);
                assert(!has_path(Seq::<(Seq<u8>, Seq<u8>)>::empty(), p));
            }
        }
        let es = out.entries();
        let mut v: Vec<Change> = Vec::new();
        let mut i: usize = 0;
        while i < es.len()
            invariant
                i <= es@.len(),
                out.wf(),
                crate::snapshot::entry_views(es@) == out@,
                forall|p: Seq<u8>| #[trigger] lookup(out@, p) == change_at(st, a@, b@, p, dd),
                diffable(st, a@, b@, dd),
                v@.len() == i,
                forall|k: int| 0 <= k < i ==> (#[trigger] v@[k]).path_view() == out@[k].0 && v@[k].record() == out@[k].1,
            decreases es@.len() - i,
        {
            let path = copy_range(es[i].0.as_slice(), 0, es[i].0.len());
            let rec = es[i].1.as_slice();
            proof {
                assert(es@[i as int].0@.subrange(0, es@[i as int].0@.len() as int) =~= out@[i as int].0);
                assert(rec@ == out@[i as int].1);
                crate::snapshot::lemma_lookup_at(out@, i as int);
                lemma_change_record(st, a@, b@, out@[i as int].0, dd);
            }
            let c = if rec[0] == 0 {
                let id = id_from(rec, 1);
                assert(seq![0u8] + rec@.subrange(1, 33) =~= rec@);
                Change::Added { path, id }
            } else if rec[0] == 1 {
                let id = id_from(rec, 1);
                assert(seq![1u8] + rec@.subrange(1, 33) =~= rec@);
                Change::Removed { path, id }
            } else {
                let old = id_from(rec, 1);
                let new = id_from(rec, 33);
                assert(seq![2u8] + rec@.subrange(1, 33) + rec@.subrange(33, 65) =~= rec@);
                Change::Modified { path, old, new }
            };
            v.push(c);
            i = i + 1;
        }
        proof {
            let l = out@;
            assert forall|x: int, y: int| 0 <= x < y < v@.len() implies crate::bytes::lex_lt(#[trigger] v@[x].path_view(), #[trigger] v@[y].path_view()) by {}
            assert forall|k: int| 0 <= k < v@.len() implies change_at(st, a@, b@, (#[trigger] v@[k]).path_view(), dd) == Some(v@[k].record()) by {
                crate::snapshot::lemma_lookup_at(l, k);
            }
            assert forall|p: Seq<u8>| #[trigger] change_at(st, a@, b@, p, dd) is Some implies exists|k: int| 0 <= k < v@.len() && (#[trigger] v@[k]).path_view() == p by {
                assert(lookup(l, p) is Some);
                let k = crate::snapshot::path_index(l, p);
                assert(v@[k].path_view() == p);
            }
        }
        Ok(v)
    }
}

/// The record tag for the opposite direction: added and removed swap,
/// modified stays modified.
pub open spec fn flipped_tag(t: u8) -> u8 {
    if t == 0 {
        1
    } else if t == 1 {
        0
    } else {
        t
    }
}

/// `o` records the change `r` seen the other way round.
pub open spec fn flipped(r: Seq<u8>, o: Option<Seq<u8>>) -> bool {
    match o {
        Some(s) => s.len() > 0 && s[0] == flipped_tag(r[0]) && (r[0] != 2 ==> s.skip(1) == r.skip(1)),
        None => false,
    }
}

/// Diffing is antisymmetric: a path changed from `a` to `b` exactly when it
/// changed from `b` to `a`, an addition one way is a removal the other way
/// (of the same file), and a modification stays a modification.
pub proof fn law_diff_antisymmetric(store: Listing, a: Seq<u8>, b: Seq<u8>, rel: Seq<u8>, depth: nat)
    ensures
        change_at(store, a, b, rel, depth) is Some <==> change_at(store, b, a, rel, depth) is Some,
        change_at(store, a, b, rel, depth) matches Some(r) ==> (r.len() > 0 && flipped(r, change_at(store, b, a, rel, depth))),
    decreases depth,
{
    if a != b {
        let x = entry_named(tree_at(store, a)->Some_0, head(rel));
        let y = entry_named(tree_at(store, b)->Some_0, head(rel));
        if !(x is Some && y is Some && x->Some_0.id == y->Some_0.id) {
            match slash_index(rel) {
                None => {
                    let (fx, fy) = (file_id(x), file_id(y));
                    if let (Some(i), None) = (fx, fy) {
                        assert((seq![1u8] + i).skip(1) =~= i);
                        assert((seq![0u8] + i).skip(1) =~= i);
                    }
                    if let (None, Some(j)) = (fx, fy) {
                        assert((seq![1u8] + j).skip(1) =~= j);
                        assert((seq![0u8] + j).skip(1) =~= j);
                    }
                },
                Some(i) => {
                    if depth > 0 {
                        if is_dir(x) && is_dir(y) {
                            law_diff_antisymmetric(store, x->Some_0.id, y->Some_0.id, rel.skip(i + 1), (depth - 1) as nat);
                        } else if is_dir(x) || is_dir(y) {
                            let d = if is_dir(x) { x->Some_0.id } else { y->Some_0.id };
                            match id_at(store, d, rel.skip(i + 1), (depth - 1) as nat) {
                                Some(z) => {
                                    assert((seq![1u8] + z).skip(1) =~= z);
                                    assert((seq![0u8] + z).skip(1) =~= z);
                                },
                                None => {},
                            }
                        }
                    }
                },
            }
        }
    }
}

/// How an entry named `n` in a canonical tree shows in `has_entry` and
/// `entry_id`: through `entry_named`.
proof fn lemma_named_entry(es: Seq<EntryView>, n: Seq<u8>)
    requires
        tree_canonical(es),
    ensures
        entry_named(es, n) matches Some(x) ==> x.name == n && es.contains(x) && has_entry(es, n, x.kind) && entry_id(es, n, x.kind) == x.id
            && forall|k: EntryKind| k != x.kind ==> !#[trigger] has_entry(es, n, k),
        entry_named(es, n) is None ==> forall|k: EntryKind| !#[trigger] has_entry(es, n, k),
{
    if entry_named(es, n) is Some {
        let q = choose|i: int| 0 <= i < es.len() && (#[trigger] es[i]).name == n;
        lemma_entry_unique(es, q);
        assert(es.contains(es[q]));
    } else {
        assert forall|k: EntryKind| !#[trigger] has_entry(es, n, k) by {
            if has_entry(es, n, k) {
                let i = choose|i: int| 0 <= i < es.len() && (#[trigger] es[i]).name == n && es[i].kind == k;
                assert(es[i].name == n);
            }
        }
    }
}

/// The tree diff at a path is the change between the ids of the files the
/// two trees hold there: a path is reported exactly when those ids differ,
/// as an addition, a removal or a modification of them.
pub proof fn law_diff_is_the_file_change(store: Listing, a: Seq<u8>, b: Seq<u8>, rel: Seq<u8>, depth: nat)
    requires
        crate::trees::readable(store, a, depth),
        crate::trees::readable(store, b, depth),
    ensures
        change_at(store, a, b, rel, depth) == change_of(id_at(store, a, rel, depth), id_at(store, b, rel, depth)),
    decreases depth,
{
    if a == b {
        return;
    }
    lemma_tree_ids(store, a);
    lemma_tree_ids(store, b);
    let ea = tree_at(store, a)->Some_0;
    let eb = tree_at(store, b)->Some_0;
    let n = head(rel);
    let x = entry_named(ea, n);
    let y = entry_named(eb, n);
    lemma_named_entry(ea, n);
    lemma_named_entry(eb, n);
    if x is Some {
        let q = choose|q: int| 0 <= q < ea.len() && ea[q] == x->Some_0;
        assert(ea[q] == tree_at(store, a)->Some_0[q]);
    }
    if y is Some {
        let q = choose|q: int| 0 <= q < eb.len() && eb[q] == y->Some_0;
        assert(eb[q] == tree_at(store, b)->Some_0[q]);
    }
    if x is Some && y is Some && x->Some_0.id == y->Some_0.id {
        assert(x->Some_0.kind == y->Some_0.kind || depth == 0) by {
            reveal_with_fuel(crate::trees::readable, 2);
            if x->Some_0.kind != y->Some_0.kind && depth > 0 {
                assert(crate::trees::blob_at(store, x->Some_0.id) is Some || crate::trees::blob_at(store, y->Some_0.id) is Some);
                assert(tree_at(store, x->Some_0.id) is Some || tree_at(store, y->Some_0.id) is Some);
            }
        }
        if x->Some_0.kind != y->Some_0.kind {
            assert(crate::trees::blob_at(store, x->Some_0.id) is Some || crate::trees::blob_at(store, y->Some_0.id) is Some);
        }
    }
    match slash_index(rel) {
        None => {},
        Some(i) => {
            let rest = rel.skip(i + 1);
            if depth > 0 && is_dir(x) && is_dir(y) && x->Some_0.id != y->Some_0.id {
                law_diff_is_the_file_change(store, x->Some_0.id, y->Some_0.id, rest, (depth - 1) as nat);
            }
        },
    }
}

/// In a readable tree, the file at a path is the blob its id names.
proof fn lemma_file_by_id(store: Listing, t: Seq<u8>, p: Seq<u8>, depth: nat)
    requires
        crate::trees::readable(store, t, depth),
    ensures
        crate::trees::file_at(store, t, p, depth) == match id_at(store, t, p, depth) {
            Some(i) => crate::trees::blob_at(store, i),
            None => None::<Seq<u8>>,
        },
        id_at(store, t, p, depth) matches Some(i) ==> crate::trees::blob_at(store, i) is Some,
    decreases depth,
{
    lemma_tree_ids(store, t);
    let es = tree_at(store, t)->Some_0;
    match slash_index(p) {
        None => {
            if has_entry(es, p, EntryKind::File) {
                let q = choose|q: int| 0 <= q < es.len() && (#[trigger] es[q]).name == p && es[q].kind == EntryKind::File;
                lemma_entry_unique(es, q);
                assert(es[q] == tree_at(store, t)->Some_0[q]);
            }
        },
        Some(i) => {
            let n = p.take(i);
            if has_entry(es, n, EntryKind::Dir) && depth > 0 {
                let q = choose|q: int| 0 <= q < es.len() && (#[trigger] es[q]).name == n && es[q].kind == EntryKind::Dir;
                lemma_entry_unique(es, q);
                assert(es[q] == tree_at(store, t)->Some_0[q]);
                lemma_file_by_id(store, es[q].id, p.skip(i + 1), (depth - 1) as nat);
            }
        },
    }
}

/// Two verified blobs with the same contents have the same id.
proof fn lemma_blob_id(store: Listing, i: Seq<u8>, j: Seq<u8>)
    requires
        crate::trees::blob_at(store, i) is Some,
        crate::trees::blob_at(store, i) == crate::trees::blob_at(store, j),
    ensures
        i == j,
{
    let bi = lookup(store, crate::repo::obj_key_spec(i))->Some_0;
    let bj = lookup(store, crate::repo::obj_key_spec(j))->Some_0;
    crate::object::law_encode_of_decode(bi);
    crate::object::law_encode_of_decode(bj);
}

/// Diffing two readable trees reports exactly the paths whose file differs
/// (is added, removed or has other contents): the comparison of the two
/// snapshots file by file.
pub proof fn law_diff_reports_changed_files(store: Listing, a: Seq<u8>, b: Seq<u8>, rel: Seq<u8>, depth: nat)
    requires
        crate::trees::readable(store, a, depth),
        crate::trees::readable(store, b, depth),
    ensures
        change_at(store, a, b, rel, depth) is Some <==> crate::trees::file_at(store, a, rel, depth) != crate::trees::file_at(store, b, rel, depth),
{
    law_diff_is_the_file_change(store, a, b, rel, depth);
    lemma_file_by_id(store, a, rel, depth);
    lemma_file_by_id(store, b, rel, depth);
    if let (Some(i), Some(j)) = (id_at(store, a, rel, depth), id_at(store, b, rel, depth)) {
        if crate::trees::blob_at(store, i) == crate::trees::blob_at(store, j) {
            lemma_blob_id(store, i, j);
        }
    }
}

/// Diffing the trees of two snapshots (as `write_tree` leaves them, each
/// reading back as its snapshot) reports exactly the paths whose file the
/// snapshots do not share: added, removed, or with other contents.
pub proof fn law_diff_of_snapshots(store: Listing, a: Seq<u8>, b: Seq<u8>, fa: Listing, fb: Listing, rel: Seq<u8>)
    requires
        crate::trees::reads_back(store, a, crate::trees::max_depth(), fa),
        crate::trees::reads_back(store, b, crate::trees::max_depth(), fb),
    ensures
        change_at(store, a, b, rel, crate::trees::max_depth()) is Some <==> lookup(fa, rel) != lookup(fb, rel),
{
    law_diff_reports_changed_files(store, a, b, rel, crate::trees::max_depth());
    assert(crate::trees::file_at(store, a, rel, crate::trees::max_depth()) == lookup(fa, rel));
    assert(crate::trees::file_at(store, b, rel, crate::trees::max_depth()) == lookup(fb, rel));
}

} // verus!
