//! Snapshots: a flat map of file paths to contents, kept in path order.

use vstd::prelude::*;

use crate::bytes::{
    append_bytes, compare_bytes, copy_range, le_bytes, le_value, lemma_byte_range_values, lemma_le_round_trip,
    lemma_le_value_bytes, lemma_lex_equal, lemma_lex_flip, lemma_lex_trans, lex_lt, push_le, read_le, Order,
};

verus! {

/// A listing of paths and contents.
pub type Listing = Seq<(Seq<u8>, Seq<u8>)>;

/// Paths strictly ascending in byte order.
pub open spec fn sorted_paths(l: Listing) -> bool {
    forall|i: int, j: int| 0 <= i < j < l.len() ==> lex_lt(#[trigger] l[i].0, #[trigger] l[j].0)
}

/// `p` is listed.
pub open spec fn has_path(l: Listing, p: Seq<u8>) -> bool {
    exists|i: int| 0 <= i < l.len() && (#[trigger] l[i]).0 == p
}

/// Where `p` is listed, if it is.
pub open spec fn path_index(l: Listing, p: Seq<u8>) -> int {
    choose|i: int| 0 <= i < l.len() && (#[trigger] l[i]).0 == p
}

/// The contents listed for `p`.
pub open spec fn lookup(l: Listing, p: Seq<u8>) -> Option<Seq<u8>> {
    if has_path(l, p) {
        Some(l[path_index(l, p)].1)
    } else {
        None
    }
}

/// In a sorted listing, each path is listed once, so looking it up finds
/// its own entry.
pub proof fn lemma_lookup_at(l: Listing, i: int)
    requires
        sorted_paths(l),
        0 <= i < l.len(),
    ensures
        lookup(l, l[i].0) == Some(l[i].1),
{
    let p = l[i].0;
    assert(has_path(l, p));
    let j = path_index(l, p);
    if j != i {
        lemma_lex_equal(p, p);
        if j < i {
            assert(lex_lt(l[j].0, l[i].0));
        } else {
            assert(lex_lt(l[i].0, l[j].0));
        }
    }
}

/// Path -> file contents, kept sorted by path.
#[derive(Debug, PartialEq, Eq)]
pub struct Files {
    entries: Vec<(Vec<u8>, Vec<u8>)>,
}

/// The values of a list of entries.
pub open spec fn entry_views(es: Seq<(Vec<u8>, Vec<u8>)>) -> Listing {
    es.map_values(|e: (Vec<u8>, Vec<u8>)| (e.0@, e.1@))
}

impl View for Files {
    type V = Listing;

    closed spec fn view(&self) -> Listing {
        entry_views(self.entries@)
    }
}

impl Files {
    /// Every snapshot is sorted by path.
    pub open spec fn wf(&self) -> bool {
        sorted_paths(self@)
    }

    #[verifier::type_invariant]
    closed spec fn sorted(self) -> bool {
        sorted_paths(entry_views(self.entries@))
    }

    /// Confirms what always holds: the paths are in order.
    pub fn check_sorted(&self)
        ensures
            self.wf(),
    {
        proof {
            use_type_invariant(self);
        }
    }

    /// An empty snapshot.
    pub fn new() -> (r: Files)
        ensures
            r.wf(),
            r@ == Seq::<(Seq<u8>, Seq<u8>)>::empty(),
    {
        let r = Files { entries: Vec::new() };
        assert(r@ =~= Seq::<(Seq<u8>, Seq<u8>)>::empty());
        r
    }

    /// The entries, in path order.
    pub fn entries(&self) -> (r: &[(Vec<u8>, Vec<u8>)])
        ensures
            entry_views(r@) == self@,
    {
        self.entries.as_slice()
    }

    /// The number of paths.
    pub fn len(&self) -> (r: usize)
        ensures
            r == self@.len(),
    {
        self.entries.len()
    }

    /// There are no paths.
    pub fn is_empty(&self) -> (r: bool)
        ensures
            r == (self@.len() == 0),
    {
        self.entries.len() == 0
    }

    /// Where `path` is, or would go.
    fn position(&self, path: &[u8]) -> (r: (usize, bool))
        requires
            self.wf(),
        ensures
            r.0 <= self@.len(),
            forall|j: int| 0 <= j < r.0 ==> lex_lt(#[trigger] self@[j].0, path@),
            r.1 ==> r.0 < self@.len() && self@[r.0 as int].0 == path@,
            !r.1 ==> forall|j: int| r.0 <= j < self@.len() ==> lex_lt(path@, #[trigger] self@[j].0),
    {
        let ghost l = self@;
        let mut i: usize = 0;
        while i < self.entries.len()
            invariant
                l == self@,
                sorted_paths(l),
                i <= l.len(),
                l.len() == self.entries@.len(),
                forall|j: int| 0 <= j < i ==> lex_lt(#[trigger] l[j].0, path@),
            decreases self.entries@.len() - i,
        {
            assert(l[i as int].0 == self.entries@[i as int].0@);
            match compare_bytes(self.entries[i].0.as_slice(), path) {
                Order::Less => {
                    i = i + 1;
                },
                Order::Equal => {
                    proof {
                        lemma_lex_equal(l[i as int].0, path@);
                    }
                    return (i, true);
                },
                Order::Greater => {
                    proof {
                        lemma_lex_flip(l[i as int].0, path@);
                        assert forall|j: int| i <= j < l.len() implies lex_lt(path@, #[trigger] l[j].0) by {
                            if j > i {
                                lemma_lex_trans(path@, l[i as int].0, l[j].0);
                            }
                        }
                    }
                    return (i, false);
                },
            }
        }
        (i, false)
    }

    /// The contents of `path`, if present.
    pub fn get(&self, path: &[u8]) -> (r: Option<&Vec<u8>>)
        requires
            self.wf(),
        ensures
            match lookup(self@, path@) {
                None => r is None,
                Some(c) => r is Some && r->Some_0@ == c,
            },
    {
        let (i, found) = self.position(path);
        if found {
            proof {
                lemma_lookup_at(self@, i as int);
            }
            assert(self@[i as int].1 == self.entries@[i as int].1@);
            Some(&self.entries[i].1)
        } else {
            proof {
                if has_path(self@, path@) {
                    let j = choose|j: int| 0 <= j < self@.len() && (#[trigger] self@[j]).0 == path@;
                    lemma_lex_equal(path@, path@);
                    if j >= i {
                        assert(lex_lt(path@, self@[j].0));
                    } else {
                        assert(lex_lt(self@[j].0, path@));
                    }
                }
            }
            None
        }
    }

    /// Sets the contents of `path`.
    pub fn insert(&mut self, path: Vec<u8>, content: Vec<u8>)
        requires
            old(self).wf(),
        ensures
            final(self).wf(),
            final(self)@.len() == old(self)@.len() + if has_path(old(self)@, path@) { 0int } else { 1int },
            forall|p: Seq<u8>| #[trigger] lookup(final(self)@, p) == if p == path@ {
                Some(content@)
            } else {
                lookup(old(self)@, p)
            },
    {
        let ghost l = self@;
        let ghost pv = path@;
        let ghost cv = content@;
        let (i, found) = self.position(path.as_slice());
        proof {
            if has_path(l, pv) && !found {
                let j = path_index(l, pv);
                lemma_lex_equal(pv, pv);
                if j >= i {
                    assert(lex_lt(pv, l[j].0));
                } else {
                    assert(lex_lt(l[j].0, pv));
                }
            }
        }
        if found {
            proof {
                lemma_listing_update(l, i as int, pv, cv);
                assert(entry_views(self.entries@.update(i as int, (path, content))) =~= l.update(i as int, (pv, cv)));
            }
            let mut es: Vec<(Vec<u8>, Vec<u8>)> = Vec::new();
            std::mem::swap(&mut es, &mut self.entries);
            es.set(i, (path, content));
            self.entries = es;
        } else {
            proof {
                lemma_listing_insert(l, i as int, pv, cv);
                assert(entry_views(self.entries@.insert(i as int, (path, content))) =~= l.insert(i as int, (pv, cv)));
            }
            let mut es: Vec<(Vec<u8>, Vec<u8>)> = Vec::new();
            std::mem::swap(&mut es, &mut self.entries);
            es.insert(i, (path, content));
            self.entries = es;
        }
    }

    /// Removes `path`, if present.
    pub fn remove(&mut self, path: &[u8])
        requires
            old(self).wf(),
        ensures
            final(self).wf(),
            forall|p: Seq<u8>| #[trigger] lookup(final(self)@, p) == if p == path@ {
                None
            } else {
                lookup(old(self)@, p)
            },
    {
        let ghost l = self@;
        let (i, found) = self.position(path);
        if found {
            proof {
                lemma_listing_remove(l, i as int);
                assert(entry_views(self.entries@.remove(i as int)) =~= l.remove(i as int));
            }
            let mut es: Vec<(Vec<u8>, Vec<u8>)> = Vec::new();
            std::mem::swap(&mut es, &mut self.entries);
            es.remove(i);
            self.entries = es;
        } else {
            proof {
                assert forall|p: Seq<u8>| #[trigger] lookup(self@, p) == if p == path@ { None } else { lookup(l, p) } by {
                    if p == path@ && has_path(l, p) {
                        let j = path_index(l, p);
                        lemma_lex_equal(p, p);
                        if j >= i {
                            assert(lex_lt(path@, l[j].0));
                        } else {
                            assert(lex_lt(l[j].0, path@));
                        }
                    }
                }
            }
        }
    }

    /// The paths, in order.
    pub fn paths(&self) -> (r: Vec<Vec<u8>>)
        ensures
            r@.len() == self@.len(),
            forall|i: int| 0 <= i < r@.len() ==> (#[trigger] r@[i])@ == self@[i].0,
    {
        let mut r: Vec<Vec<u8>> = Vec::new();
        let mut i: usize = 0;
        while i < self.entries.len()
            invariant
                i <= self.entries@.len(),
                r@.len() == i,
                forall|j: int| 0 <= j < i ==> (#[trigger] r@[j])@ == self@[j].0,
            decreases self.entries@.len() - i,
        {
            let p = copy_range(self.entries[i].0.as_slice(), 0, self.entries[i].0.len());
            assert(self.entries@[i as int].0@.subrange(0, self.entries@[i as int].0@.len() as int) =~= self.entries@[i as int].0@);
            assert(self@[i as int].0 == self.entries@[i as int].0@);
            r.push(p);
            i = i + 1;
        }
        r
    }
}

impl Clone for Files {
    fn clone(&self) -> (r: Files)
        ensures
            r@ == self@,
    {
        let mut es: Vec<(Vec<u8>, Vec<u8>)> = Vec::new();
        let mut i: usize = 0;
        while i < self.entries.len()
            invariant
                i <= self.entries@.len(),
                entry_views(es@) == entry_views(self.entries@).subrange(0, i as int),
            decreases self.entries@.len() - i,
        {
            let e = &self.entries[i];
            let p = copy_range(e.0.as_slice(), 0, e.0.len());
            let c = copy_range(e.1.as_slice(), 0, e.1.len());
            assert(e.0@.subrange(0, e.0@.len() as int) =~= e.0@);
            assert(e.1@.subrange(0, e.1@.len() as int) =~= e.1@);
            let ghost before = entry_views(es@);
            es.push((p, c));
            assert(entry_views(es@) =~= before.push((e.0@, e.1@)));
            assert(entry_views(es@) =~= entry_views(self.entries@).subrange(0, i + 1));
            i = i + 1;
        }
        assert(entry_views(self.entries@).subrange(0, self.entries@.len() as int) =~= entry_views(self.entries@));
        proof {
            use_type_invariant(self);
        }
        Files { entries: es }
    }
}

proof fn lemma_listing_remove(l: Listing, i: int)
    requires
        sorted_paths(l),
        0 <= i < l.len(),
    ensures
        sorted_paths(l.remove(i)),
        forall|q: Seq<u8>| #[trigger] lookup(l.remove(i), q) == if q == l[i].0 {
            None
        } else {
            lookup(l, q)
        },
{
    let n = l.remove(i);
    let p = l[i].0;
    assert forall|a: int, b: int| 0 <= a < b < n.len() implies lex_lt(#[trigger] n[a].0, #[trigger] n[b].0) by {
        if b < i {
            assert(n[a] == l[a] && n[b] == l[b]);
        } else if a < i {
            assert(n[a] == l[a] && n[b] == l[b + 1]);
        } else {
            assert(n[a] == l[a + 1] && n[b] == l[b + 1]);
        }
    }
    assert forall|q: Seq<u8>| #[trigger] lookup(n, q) == if q == p { None } else { lookup(l, q) } by {
        lemma_lex_equal(p, p);
        if has_path(n, q) {
            let j = path_index(n, q);
            lemma_lookup_at(n, j);
            if j < i {
                assert(n[j] == l[j]);
                lemma_lookup_at(l, j);
                assert(lex_lt(l[j].0, l[i].0));
            } else {
                assert(n[j] == l[j + 1]);
                lemma_lookup_at(l, j + 1);
                assert(lex_lt(l[i].0, l[j + 1].0));
            }
        }
        if q != p && has_path(l, q) {
            let j = path_index(l, q);
            lemma_lookup_at(l, j);
            assert(j != i);
            if j < i {
                assert(n[j] == l[j]);
                lemma_lookup_at(n, j);
            } else {
                assert(n[j - 1] == l[j]);
                lemma_lookup_at(n, j - 1);
            }
        }
    }
}

proof fn lemma_listing_update(l: Listing, i: int, p: Seq<u8>, c: Seq<u8>)
    requires
        sorted_paths(l),
        0 <= i < l.len(),
        l[i].0 == p,
    ensures
        sorted_paths(l.update(i, (p, c))),
        forall|q: Seq<u8>| #[trigger] lookup(l.update(i, (p, c)), q) == if q == p {
            Some(c)
        } else {
            lookup(l, q)
        },
{
    let n = l.update(i, (p, c));
    assert forall|a: int, b: int| 0 <= a < b < n.len() implies lex_lt(#[trigger] n[a].0, #[trigger] n[b].0) by {
        assert(n[a].0 == l[a].0 && n[b].0 == l[b].0);
    }
    assert forall|q: Seq<u8>| #[trigger] lookup(n, q) == if q == p { Some(c) } else { lookup(l, q) } by {
        if q == p {
            lemma_lookup_at(n, i);
        } else {
            if has_path(n, q) {
                let j = choose|j: int| 0 <= j < n.len() && (#[trigger] n[j]).0 == q;
                lemma_lookup_at(n, j);
                lemma_lookup_at(l, j);
            }
            if has_path(l, q) {
                let j = choose|j: int| 0 <= j < l.len() && (#[trigger] l[j]).0 == q;
                lemma_lookup_at(n, j);
                lemma_lookup_at(l, j);
            }
        }
    }
}

proof fn lemma_listing_insert(l: Listing, i: int, p: Seq<u8>, c: Seq<u8>)
    requires
        sorted_paths(l),
        0 <= i <= l.len(),
        forall|j: int| 0 <= j < i ==> lex_lt(#[trigger] l[j].0, p),
        forall|j: int| i <= j < l.len() ==> lex_lt(p, #[trigger] l[j].0),
    ensures
        sorted_paths(l.insert(i, (p, c))),
        forall|q: Seq<u8>| #[trigger] lookup(l.insert(i, (p, c)), q) == if q == p {
            Some(c)
        } else {
            lookup(l, q)
        },
{
    let n = l.insert(i, (p, c));
    assert forall|a: int, b: int| 0 <= a < b < n.len() implies lex_lt(#[trigger] n[a].0, #[trigger] n[b].0) by {
        if b < i {
            assert(n[a] == l[a] && n[b] == l[b]);
        } else if b == i {
            assert(n[a] == l[a]);
        } else if a < i {
            assert(n[a] == l[a] && n[b] == l[b - 1]);
            assert(lex_lt(l[a].0, p));
            assert(lex_lt(p, l[b - 1].0));
            lemma_lex_trans(l[a].0, p, l[b - 1].0);
        } else if a == i {
            assert(n[b] == l[b - 1]);
        } else {
            assert(n[a] == l[a - 1] && n[b] == l[b - 1]);
        }
    }
    assert forall|q: Seq<u8>| #[trigger] lookup(n, q) == if q == p { Some(c) } else { lookup(l, q) } by {
        if q == p {
            lemma_lookup_at(n, i);
        } else {
            if has_path(n, q) {
                let j = choose|j: int| 0 <= j < n.len() && (#[trigger] n[j]).0 == q;
                lemma_lookup_at(n, j);
                if j < i {
                    assert(n[j] == l[j]);
                    lemma_lookup_at(l, j);
                } else {
                    assert(j > i);
                    assert(n[j] == l[j - 1]);
                    lemma_lookup_at(l, j - 1);
                }
            }
            if has_path(l, q) {
                let j = choose|j: int| 0 <= j < l.len() && (#[trigger] l[j]).0 == q;
                lemma_lookup_at(l, j);
                if j < i {
                    assert(n[j] == l[j]);
                    lemma_lookup_at(n, j);
                } else {
                    assert(n[j + 1] == l[j]);
                    lemma_lookup_at(n, j + 1);
                }
            }
        }
    }
}

// ---- the record form of a snapshot ----

/// One entry as stored: the path's length in eight little-endian bytes, the
/// path, the contents' length likewise, the contents.
pub open spec fn entry_record(e: (Seq<u8>, Seq<u8>)) -> Seq<u8> {
    le_bytes(e.0.len(), 8) + e.0 + le_bytes(e.1.len(), 8) + e.1
}

/// A listing as stored: its entries' records, in order.
pub open spec fn listing_record(l: Listing) -> Seq<u8>
    decreases l.len(),
{
    if l.len() == 0 {
        seq![]
    } else {
        listing_record(l.drop_last()) + entry_record(l.last())
    }
}

/// Records of consecutive listings follow each other.
pub proof fn lemma_record_concat(a: Listing, c: Listing)
    ensures
        listing_record(a + c) == listing_record(a) + listing_record(c),
    decreases c.len(),
{
    if c.len() == 0 {
        assert(a + c =~= a);
        assert(listing_record(a) + listing_record(c) =~= listing_record(a));
    } else {
        lemma_record_concat(a, c.drop_last());
        assert((a + c).drop_last() =~= a + c.drop_last());
        assert((a + c).last() == c.last());
        assert(listing_record(a + c) =~= listing_record(a) + listing_record(c));
    }
}

/// The record of a listing: the records of its first `i` entries, then
/// entry `i`'s, then the rest.
proof fn lemma_record_at(l: Listing, i: int)
    requires
        0 <= i < l.len(),
    ensures
        listing_record(l) == listing_record(l.take(i)) + entry_record(l[i]) + listing_record(l.skip(i + 1)),
{
    lemma_record_concat(l.take(i + 1), l.skip(i + 1));
    assert(l.take(i + 1) + l.skip(i + 1) =~= l);
    assert(l.take(i + 1).drop_last() =~= l.take(i));
}

impl Files {
    /// The snapshot as bytes: each entry's record, in path order.
    pub fn to_bytes(&self) -> (r: Vec<u8>)
        ensures
            r@ == listing_record(self@),
    {
        let mut out: Vec<u8> = Vec::new();
        let mut i: usize = 0;
        while i < self.entries.len()
            invariant
                i <= self.entries@.len(),
                out@ == listing_record(self@.take(i as int)),
            decreases self.entries@.len() - i,
        {
            let e = &self.entries[i];
            assert(self@[i as int] == (e.0@, e.1@));
            let ghost before = out@;
            push_le(&mut out, e.0.len() as u64, 8);
            append_bytes(&mut out, e.0.as_slice());
            push_le(&mut out, e.1.len() as u64, 8);
            append_bytes(&mut out, e.1.as_slice());
            assert(self@.take(i + 1).drop_last() =~= self@.take(i as int));
            assert(out@ =~= before + entry_record(self@[i as int]));
            i = i + 1;
        }
        assert(self@.take(self@.len() as int) =~= self@);
        out
    }

    /// Reads a snapshot back from its bytes: `Some` exactly when the bytes
    /// are the records of entries in strictly ascending path order.
    pub fn from_bytes(b: &[u8]) -> (r: Option<Files>)
        ensures
            r matches Some(f) ==> listing_record(f@) == b@,
            (exists|l: Listing| sorted_paths(l) && #[trigger] listing_record(l) == b@) ==> r is Some,
    {
        let ghost target: Option<Listing> = if exists|l: Listing| sorted_paths(l) && #[trigger] listing_record(l)
            == b@ {
            Some(choose|l: Listing| sorted_paths(l) && #[trigger] listing_record(l) == b@)
        } else {
            None
        };
        let mut es: Vec<(Vec<u8>, Vec<u8>)> = Vec::new();
        let mut pos: usize = 0;
        while pos < b.len()
            invariant
                pos <= b@.len(),
                sorted_paths(entry_views(es@)),
                listing_record(entry_views(es@)) == b@.take(pos as int),
                target matches Some(l) ==> sorted_paths(l) && listing_record(l) == b@ && entry_views(es@) =~= l.take(
                    es@.len() as int,
                ) && es@.len() <= l.len(),
                (exists|l: Listing| sorted_paths(l) && #[trigger] listing_record(l) == b@) ==> target is Some,
            decreases b@.len() - pos,
        {
            let ghost parsed = entry_views(es@);
            proof {
                if let Some(l) = target {
                    if es@.len() == l.len() {
                        assert(l.take(l.len() as int) =~= l);
                        assert(false);
                    }
                    lemma_record_at(l, es@.len() as int);
                    let er = entry_record(l[es@.len() as int]);
                    assert(b@.skip(pos as int) =~= er + listing_record(l.skip(es@.len() as int + 1)));
                    assert(b@.skip(pos as int).subrange(0, er.len() as int) =~= er);
                    assert(er.is_prefix_of(b@.skip(pos as int)));
                }
            }
            let (key, value, end) = match read_entry(b, pos) {
                Some(x) => x,
                None => return None,
            };
            if es.len() > 0 {
                let last = es.len() - 1;
                if compare_bytes(es[last].0.as_slice(), key.as_slice()) != Order::Less {
                    proof {
                        if let Some(l) = target {
                            assert(parsed[last as int] == l[last as int]);
                            assert(lex_lt(l[last as int].0, l[es@.len() as int].0));
                        }
                    }
                    return None;
                }
                proof {
                    assert forall|a: int| 0 <= a < last implies lex_lt(#[trigger] parsed[a].0, key@) by {
                        lemma_lex_trans(parsed[a].0, parsed[last as int].0, key@);
                    }
                }
            }
            proof {
                assert(b@.take(end as int) =~= b@.take(pos as int) + b@.subrange(pos as int, end as int));
            }
            es.push((key, value));
            proof {
                assert(entry_views(es@) =~= parsed.push((key@, value@)));
                assert(entry_views(es@).drop_last() =~= parsed);
                if let Some(l) = target {
                    assert(l.take(es@.len() as int) =~= l.take(es@.len() - 1).push(l[es@.len() - 1]));
                }
            }
            pos = end;
        }
        proof {
            assert(b@.take(pos as int) =~= b@);
        }
        Some(Files { entries: es })
    }
}

/// Reads one entry's record at `pos`.
fn read_entry(b: &[u8], pos: usize) -> (r: Option<(Vec<u8>, Vec<u8>, usize)>)
    requires
        pos <= b@.len(),
    ensures
        r matches Some((k, v, end)) ==> pos < end <= b@.len() && b@.subrange(pos as int, end as int) == entry_record(
            (k@, v@),
        ),
        forall|e: (Seq<u8>, Seq<u8>)|
            #[trigger] entry_record(e).is_prefix_of(b@.skip(pos as int)) ==> (r matches Some((k, v, end)) && k@
                == e.0 && v@ == e.1),
{
    proof {
        lemma_byte_range_values();
    }
    if b.len() - pos < 8 {
        proof {
            lemma_record_len(b@, pos as int);
        }
        return None;
    }
    let klen = read_le(b, pos, 8);
    if klen > (b.len() - pos - 8) as u64 {
        proof {
            lemma_record_len(b@, pos as int);
        }
        return None;
    }
    let kstart = pos + 8;
    let kend = kstart + klen as usize;
    if b.len() - kend < 8 {
        proof {
            lemma_record_len(b@, pos as int);
        }
        return None;
    }
    let vlen = read_le(b, kend, 8);
    if vlen > (b.len() - kend - 8) as u64 {
        proof {
            lemma_record_len(b@, pos as int);
        }
        return None;
    }
    let vstart = kend + 8;
    let vend = vstart + vlen as usize;
    let key = copy_range(b, kstart, kend);
    let value = copy_range(b, vstart, vend);
    proof {
        lemma_le_value_bytes(b@.subrange(pos as int, pos + 8));
        lemma_le_value_bytes(b@.subrange(kend as int, kend + 8));
        assert(b@.subrange(pos as int, vend as int) =~= entry_record((key@, value@)));
        lemma_record_len(b@, pos as int);
    }
    Some((key, value, vend))
}

/// When the bytes at `pos` begin with an entry's record, reading its two
/// lengths finds that entry's.
proof fn lemma_record_len(b: Seq<u8>, pos: int)
    requires
        0 <= pos <= b.len(),
        b.len() <= usize::MAX,
    ensures
        forall|e: (Seq<u8>, Seq<u8>)|
            #[trigger] entry_record(e).is_prefix_of(b.skip(pos)) ==> {
                &&& b.len() - pos >= 16 + e.0.len() + e.1.len()
                &&& le_value(b.subrange(pos, pos + 8)) == e.0.len()
                &&& le_value(b.subrange(pos + 8 + e.0.len(), pos + 16 + e.0.len())) == e.1.len()
                &&& b.subrange(pos + 8, pos + 8 + e.0.len()) == e.0
                &&& b.subrange(pos + 16 + e.0.len(), pos + 16 + e.0.len() + e.1.len()) == e.1
            },
{
    lemma_byte_range_values();
    assert forall|e: (Seq<u8>, Seq<u8>)| #[trigger] entry_record(e).is_prefix_of(b.skip(pos)) implies {
        &&& b.len() - pos >= 16 + e.0.len() + e.1.len()
        &&& le_value(b.subrange(pos, pos + 8)) == e.0.len()
        &&& le_value(b.subrange(pos + 8 + e.0.len(), pos + 16 + e.0.len())) == e.1.len()
        &&& b.subrange(pos + 8, pos + 8 + e.0.len()) == e.0
        &&& b.subrange(pos + 16 + e.0.len(), pos + 16 + e.0.len() + e.1.len()) == e.1
    } by {
        let t = b.skip(pos);
        assert(t.subrange(0, entry_record(e).len() as int) =~= entry_record(e));
        lemma_le_round_trip(e.0.len(), 8);
        lemma_le_round_trip(e.1.len(), 8);
        let k = e.0.len() as int;
        let v = e.1.len() as int;
        assert(entry_record(e).len() == 16 + k + v);
        assert(b.subrange(pos, pos + 8) =~= entry_record(e).subrange(0, 8));
        assert(entry_record(e).subrange(0, 8) =~= le_bytes(e.0.len(), 8));
        let r = entry_record(e);
        let a1 = le_bytes(e.0.len(), 8);
        let a2 = a1 + e.0;
        let a3 = a2 + le_bytes(e.1.len(), 8);
        assert(r == a3 + e.1);
        assert(r.subrange(8, 8 + k) =~= e.0) by {
            assert(a3.subrange(8, 8 + k) =~= e.0);
        }
        assert(r.subrange(8 + k, 16 + k) =~= le_bytes(e.1.len(), 8));
        assert(r.subrange(16 + k, 16 + k + v) =~= e.1);
        assert(b.subrange(pos + 8, pos + 8 + k) =~= r.subrange(8, 8 + k));
        assert(b.subrange(pos + 8 + k, pos + 16 + k) =~= r.subrange(8 + k, 16 + k));
        assert(b.subrange(pos + 16 + k, pos + 16 + k + v) =~= r.subrange(16 + k, 16 + k + v));
    }
}

/// Every path and content is shorter than `2^64` bytes.
pub open spec fn lengths_fit(l: Listing) -> bool {
    forall|i: int| 0 <= i < l.len() ==> (#[trigger] l[i]).0.len() < 0x1_0000_0000_0000_0000 && l[i].1.len()
        < 0x1_0000_0000_0000_0000
}

proof fn lemma_le_len(v: nat, n: nat)
    ensures
        le_bytes(v, n).len() == n,
    decreases n,
{
    if n > 0 {
        lemma_le_len(v / 256, (n - 1) as nat);
    }
}

/// The record of a non-empty listing starts with its first entry's.
proof fn lemma_record_front(l: Listing)
    requires
        l.len() > 0,
    ensures
        listing_record(l) == entry_record(l[0]) + listing_record(l.drop_first()),
{
    lemma_record_concat(seq![l[0]], l.drop_first());
    assert(seq![l[0]] + l.drop_first() =~= l);
    assert(seq![l[0]].drop_last() =~= Seq::<(Seq<u8>, Seq<u8>)>::empty());
    assert(listing_record(Seq::<(Seq<u8>, Seq<u8>)>::empty()) =~= Seq::<u8>::empty());
    assert(listing_record(seq![l[0]]) =~= entry_record(l[0]));
}

/// What the record of a non-empty listing says of its first entry.
proof fn lemma_first_entry(f: Listing)
    requires
        f.len() > 0,
        lengths_fit(f),
    ensures
        ({
            let b = listing_record(f);
            let k = f[0].0.len() as int;
            let v = f[0].1.len() as int;
            &&& b.len() >= 16 + k + v
            &&& le_value(b.subrange(0, 8)) == k
            &&& b.subrange(8, 8 + k) == f[0].0
            &&& le_value(b.subrange(8 + k, 16 + k)) == v
            &&& b.subrange(16 + k, 16 + k + v) == f[0].1
            &&& b.skip(16 + k + v) == listing_record(f.drop_first())
        }),
{
    crate::bytes::lemma_byte_range_values();
    lemma_record_front(f);
    let e = f[0];
    lemma_le_round_trip(e.0.len(), 8);
    lemma_le_round_trip(e.1.len(), 8);
    let b = listing_record(f);
    let k = e.0.len() as int;
    let v = e.1.len() as int;
    let a1 = le_bytes(e.0.len(), 8);
    let a2 = a1 + e.0;
    let a3 = a2 + le_bytes(e.1.len(), 8);
    let r = a3 + e.1;
    assert(entry_record(e) == r);
    assert(b == r + listing_record(f.drop_first()));
    assert(b.subrange(0, 8) =~= a1);
    assert(b.subrange(8, 8 + k) =~= e.0);
    assert(b.subrange(8 + k, 16 + k) =~= le_bytes(e.1.len(), 8));
    assert(b.subrange(16 + k, 16 + k + v) =~= e.1);
    assert(b.skip(16 + k + v) =~= listing_record(f.drop_first()));
}

/// Snapshots are written injectively: two listings (of lengths below
/// `2^64`) with the same record are the same listing. So reading back
/// what `to_bytes` wrote gives the snapshot that was written.
#[verifier::spinoff_prover]
pub proof fn lemma_record_injective(f: Listing, g: Listing)
    requires
        lengths_fit(f),
        lengths_fit(g),
        listing_record(f) == listing_record(g),
    ensures
        f == g,
    decreases f.len(),
{
    if f.len() == 0 || g.len() == 0 {
        if f.len() > 0 {
            lemma_first_entry(f);
        }
        if g.len() > 0 {
            lemma_first_entry(g);
        }
        assert(f =~= g);
    } else {
        lemma_first_entry(f);
        lemma_first_entry(g);
        assert(f[0] == g[0]);
        assert(lengths_fit(f.drop_first()));
        assert(lengths_fit(g.drop_first()));
        lemma_record_injective(f.drop_first(), g.drop_first());
        assert(f =~= seq![f[0]] + f.drop_first());
        assert(g =~= seq![g[0]] + g.drop_first());
    }
}

} // verus!
