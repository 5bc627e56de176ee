//! Three-way merge of sequences.
//!
//! Given a common ancestor `base` and two descendants `ours` and `theirs`,
//! the merge aligns all three into regions: `Same` (identical in all three)
//! and `Changed { base, ours, theirs }` (some side differs). Concatenating
//! each column of the regions gives back exactly `base`, `ours` and `theirs`,
//! so the alignment is lossless by construction.
//!
//! A region is then classified:
//! - only ours changed it, or only theirs did: take the changed side;
//! - both made the identical change: take it once;
//! - both changed it differently: a conflict.
//!
//! Two changes conflict when their base ranges intersect *including
//! touching* (closed intervals), so two edits to adjacent lines, or two
//! insertions at the same point, are reported rather than silently
//! combined in an arbitrary order. That is deliberately conservative: a
//! false conflict costs a human a glance, a false clean merge can silently
//! ship the wrong code.

use vstd::prelude::*;

use crate::edit_graph::{lcs_distance, lemma_lcs_trim_prefix};
use crate::text::{flatten, line_vecs, lines, lemma_lines_len};
use vstd::string::StringSliceAdditionalSpecFns;
use crate::myers::{
    apply_from, coalesced, diff, distance, extend_from, lemma_distance_front, op_edits, op_size, vals,
    OpView, PatchOp, Token,
};

verus! {

/// One region of a three-way alignment.
#[derive(Debug, Clone, PartialEq, Eq)]
pub enum Chunk<T> {
    Same(Vec<T>),
    Changed { base: Vec<T>, ours: Vec<T>, theirs: Vec<T> },
}

/// One region of a three-way alignment, as values.
pub enum ChunkView<V> {
    Same(Seq<V>),
    Changed { base: Seq<V>, ours: Seq<V>, theirs: Seq<V> },
}

impl<T: View> View for Chunk<T> {
    type V = ChunkView<T::V>;

    open spec fn view(&self) -> ChunkView<T::V> {
        match self {
            Chunk::Same(v) => ChunkView::Same(vals(v@)),
            Chunk::Changed { base, ours, theirs } => ChunkView::Changed {
                base: vals(base@),
                ours: vals(ours@),
                theirs: vals(theirs@),
            },
        }
    }
}

/// How a region was changed.
#[derive(Debug, Clone, Copy, PartialEq, Eq, Structural)]
pub enum Kind {
    Same,
    OnlyOurs,
    OnlyTheirs,
    /// Both sides made the identical change.
    Both,
    Conflict,
}

/// How a region was changed.
pub open spec fn kind_of<V>(c: ChunkView<V>) -> Kind {
    match c {
        ChunkView::Same(_) => Kind::Same,
        ChunkView::Changed { base, ours, theirs } => if ours == theirs {
            Kind::Both
        } else if theirs == base {
            Kind::OnlyOurs
        } else if ours == base {
            Kind::OnlyTheirs
        } else {
            Kind::Conflict
        },
    }
}

/// Equality of two runs of tokens, by value.
pub fn seq_same<T: Token>(a: &[T], b: &[T]) -> (r: bool)
    ensures
        r == (vals(a@) == vals(b@)),
{
    if a.len() != b.len() {
        assert(vals(a@).len() != vals(b@).len());
        return false;
    }
    let mut i: usize = 0;
    while i < a.len()
        invariant
            a.len() == b.len(),
            i <= a.len(),
            forall|j: int| 0 <= j < i ==> vals(a@)[j] == vals(b@)[j],
        decreases a.len() - i,
    {
        if !a[i].same(&b[i]) {
            assert(vals(a@)[i as int] != vals(b@)[i as int]);
            return false;
        }
        i += 1;
    }
    assert(vals(a@) =~= vals(b@));
    true
}

impl<T: Token> Chunk<T> {
    /// How this region was changed.
    pub fn kind(&self) -> (r: Kind)
        ensures
            r == kind_of(self@),
    {
        match self {
            Chunk::Same(_) => Kind::Same,
            Chunk::Changed { base, ours, theirs } => {
                if seq_same(ours.as_slice(), theirs.as_slice()) {
                    Kind::Both
                } else if seq_same(theirs.as_slice(), base.as_slice()) {
                    Kind::OnlyOurs
                } else if seq_same(ours.as_slice(), base.as_slice()) {
                    Kind::OnlyTheirs
                } else {
                    Kind::Conflict
                }
            },
        }
    }
}

/// A three-way alignment: its regions in order.
#[derive(Debug, Clone, PartialEq, Eq)]
pub struct Merge3<T> {
    pub chunks: Vec<Chunk<T>>,
}

impl<T: View> View for Merge3<T> {
    type V = Seq<ChunkView<T::V>>;

    open spec fn view(&self) -> Seq<ChunkView<T::V>> {
        self.chunks@.map_values(|c: Chunk<T>| c@)
    }
}

/// A replacement of base range `start..end` by `new` (a pure insertion has
/// `start == end`, a pure deletion an empty `new`).
pub struct Hunk<T> {
    pub start: usize,
    pub end: usize,
    pub new: Vec<T>,
}

/// A replacement, as values.
pub struct HunkView<V> {
    pub start: int,
    pub end: int,
    pub new: Seq<V>,
}

impl<T: View> View for Hunk<T> {
    type V = HunkView<T::V>;

    open spec fn view(&self) -> HunkView<T::V> {
        HunkView { start: self.start as int, end: self.end as int, new: vals(self.new@) }
    }
}

/// The values of a list of hunks.
pub open spec fn hunk_views<T: View>(hs: Seq<Hunk<T>>) -> Seq<HunkView<T::V>> {
    hs.map_values(|h: Hunk<T>| h@)
}

/// Hunks in order, each within `base`, none overlapping the next.
pub open spec fn hunks_sorted<V>(hs: Seq<HunkView<V>>, len: int) -> bool {
    &&& forall|i: int| 0 <= i < hs.len() ==> 0 <= (#[trigger] hs[i]).start <= hs[i].end <= len
    &&& forall|i: int, j: int| 0 <= i < j < hs.len() ==> (#[trigger] hs[i]).end <= (#[trigger] hs[j]).start
}

/// Elements a hunk removes plus elements it adds.
pub open spec fn hunk_size<V>(h: HunkView<V>) -> int {
    h.end - h.start + h.new.len()
}

/// Elements the hunks remove plus elements they add.
pub open spec fn hunks_cost<V>(hs: Seq<HunkView<V>>) -> int
    decreases hs.len(),
{
    if hs.len() == 0 {
        0
    } else {
        hunks_cost(hs.drop_last()) + hunk_size(hs.last())
    }
}

/// The hunks of a minimal edit script from `base` to `other`: in order,
/// none empty, an unchanged element between any two, rebuilding `other`
/// with as few removed plus added elements as possible.
pub open spec fn minimal_hunks<V>(base: Seq<V>, other: Seq<V>, hs: Seq<HunkView<V>>) -> bool {
    &&& hunks_sorted(hs, base.len() as int)
    &&& forall|i: int, j: int| 0 <= i < j < hs.len() ==> (#[trigger] hs[i]).end < (#[trigger] hs[j]).start
    &&& forall|i: int| 0 <= i < hs.len() ==> hunk_size(#[trigger] hs[i]) > 0
    &&& rebuild(base, hs, 0, base.len() as int) == other
    &&& hunks_cost(hs) == lcs_distance(base, other)
}

proof fn lemma_hunks_push<V>(before: Seq<HunkView<V>>, hv: HunkView<V>, len: int)
    requires
        hunks_sorted(before, len),
        forall|i: int, j: int| 0 <= i < j < before.len() ==> (#[trigger] before[i]).end < (#[trigger] before[j]).start,
        forall|i: int| 0 <= i < before.len() ==> hunk_size(#[trigger] before[i]) > 0,
        0 <= hv.start <= hv.end <= len,
        hunk_size(hv) > 0,
        before.len() > 0 ==> before.last().end < hv.start,
    ensures
        hunks_sorted(before.push(hv), len),
        forall|i: int, j: int| 0 <= i < j < before.push(hv).len() ==> (#[trigger] before.push(hv)[i]).end < (#[trigger] before.push(hv)[j]).start,
        forall|i: int| 0 <= i < before.push(hv).len() ==> hunk_size(#[trigger] before.push(hv)[i]) > 0,
        hunks_cost(before.push(hv)) == hunks_cost(before) + hunk_size(hv),
{
    let a = before.push(hv);
    assert(a.drop_last() =~= before);
    assert forall|i: int, j: int| 0 <= i < j < a.len() implies (#[trigger] a[i]).end < (#[trigger] a[j]).start by {
        if j == a.len() - 1 {
            assert(a[i] == before[i]);
            if i < before.len() - 1 {
                assert(before[i].end < before[before.len() - 1].start);
            }
        } else {
            assert(a[i] == before[i] && a[j] == before[j]);
        }
    }
    assert forall|i: int, j: int| 0 <= i < j < a.len() implies (#[trigger] a[i]).end <= (#[trigger] a[j]).start by {
        assert(a[i].end < a[j].start);
    }
    assert forall|i: int| 0 <= i < a.len() implies 0 <= (#[trigger] a[i]).start <= a[i].end <= len && hunk_size(a[i]) > 0 by {
        if i < before.len() {
            assert(a[i] == before[i]);
        }
    }
}

/// `base[from..to]` with the hunks applied (the hunks lie within it).
pub open spec fn rebuild<V>(base: Seq<V>, hs: Seq<HunkView<V>>, from: int, to: int) -> Seq<V>
    decreases hs.len(),
{
    if hs.len() == 0 {
        base.subrange(from, to)
    } else {
        base.subrange(from, hs[0].start) + hs[0].new + rebuild(base, hs.drop_first(), hs[0].end, to)
    }
}

/// Where hunks may sit inside `from..to`.
pub open spec fn hunks_within<V>(hs: Seq<HunkView<V>>, from: int, to: int) -> bool {
    forall|i: int| 0 <= i < hs.len() ==> from <= (#[trigger] hs[i]).start && hs[i].end <= to
}

/// Base elements before the first hunk.
proof fn lemma_rebuild_prepend<V>(base: Seq<V>, hs: Seq<HunkView<V>>, from: int, x: int, to: int)
    requires
        0 <= from <= x,
        hs.len() == 0 ==> x <= to <= base.len(),
        hs.len() > 0 ==> x <= hs[0].start <= base.len(),
    ensures
        base.subrange(from, x) + rebuild(base, hs, x, to) == rebuild(base, hs, from, to),
{
    if hs.len() == 0 {
        assert(base.subrange(from, x) + base.subrange(x, to) =~= base.subrange(from, to));
    } else {
        let h = hs[0];
        let r = rebuild(base, hs.drop_first(), h.end, to);
        assert(base.subrange(from, x) + base.subrange(x, h.start) =~= base.subrange(from, h.start));
        assert(base.subrange(from, x) + (base.subrange(x, h.start) + h.new + r) =~= base.subrange(from, h.start)
            + h.new + r);
    }
}

/// Splitting a list of hunks at a point between two of them.
proof fn lemma_rebuild_split<V>(
    base: Seq<V>,
    h1: Seq<HunkView<V>>,
    h2: Seq<HunkView<V>>,
    from: int,
    x: int,
    to: int,
)
    requires
        0 <= (if h1.len() == 0 { from } else { h1.last().end }) <= x,
        h2.len() == 0 ==> x <= to <= base.len(),
        h2.len() > 0 ==> x <= h2[0].start <= base.len(),
    ensures
        rebuild(base, h1 + h2, from, to) == rebuild(base, h1, from, x) + rebuild(base, h2, x, to),
    decreases h1.len(),
{
    if h1.len() == 0 {
        assert(h1 + h2 =~= h2);
        lemma_rebuild_prepend(base, h2, from, x, to);
    } else {
        let h = h1[0];
        let t = h1.drop_first();
        assert((h1 + h2).drop_first() =~= t + h2);
        assert((h1 + h2)[0] == h);
        if t.len() > 0 {
            assert(t.last() == h1.last());
        }
        lemma_rebuild_split(base, t, h2, h.end, x, to);
        let p = base.subrange(from, h.start) + h.new;
        assert(p + (rebuild(base, t, h.end, x) + rebuild(base, h2, x, to)) =~= (p + rebuild(base, t, h.end, x))
            + rebuild(base, h2, x, to));
    }
}

/// Appending a hunk.
proof fn lemma_rebuild_push<V>(base: Seq<V>, hs: Seq<HunkView<V>>, h: HunkView<V>, from: int, to: int)
    ensures
        rebuild(base, hs.push(h), from, to) == rebuild(base, hs, from, h.start) + h.new + base.subrange(
            h.end,
            to,
        ),
    decreases hs.len(),
{
    let hh = hs.push(h);
    if hs.len() == 0 {
        assert(hh.drop_first() =~= Seq::<HunkView<V>>::empty());
        assert(hh[0] == h);
        assert(rebuild(base, hh.drop_first(), h.end, to) == base.subrange(h.end, to));
        assert(rebuild(base, hs, from, h.start) == base.subrange(from, h.start));
    } else {
        let g = hs[0];
        assert(hh.drop_first() =~= hs.drop_first().push(h));
        assert(hh[0] == g);
        lemma_rebuild_push(base, hs.drop_first(), h, g.end, to);
        let p = base.subrange(from, g.start) + g.new;
        let q = rebuild(base, hs.drop_first(), g.end, h.start);
        assert(p + (q + h.new + base.subrange(h.end, to)) =~= (p + q) + h.new + base.subrange(h.end, to));
    }
}

/// Base elements after the last hunk.
proof fn lemma_rebuild_extend<V>(base: Seq<V>, hs: Seq<HunkView<V>>, from: int, x: int, to: int)
    requires
        0 <= (if hs.len() == 0 { from } else { hs.last().end }) <= x <= to <= base.len(),
    ensures
        rebuild(base, hs, from, x) + base.subrange(x, to) == rebuild(base, hs, from, to),
    decreases hs.len(),
{
    if hs.len() == 0 {
        assert(base.subrange(from, x) + base.subrange(x, to) =~= base.subrange(from, to));
    } else {
        let h = hs[0];
        let t = hs.drop_first();
        if t.len() > 0 {
            assert(t.last() == hs.last());
        }
        lemma_rebuild_extend(base, t, h.end, x, to);
        let p = base.subrange(from, h.start) + h.new;
        assert(p + rebuild(base, t, h.end, x) + base.subrange(x, to) =~= p + (rebuild(base, t, h.end, x)
            + base.subrange(x, to)));
    }
}

proof fn lemma_op_edits_bound<V>(ops: Seq<OpView<V>>, k: int)
    requires
        0 <= k < ops.len(),
    ensures
        op_edits(ops[k]) <= distance(ops),
    decreases ops.len(),
{
    if k < ops.len() - 1 {
        lemma_op_edits_bound(ops.drop_last(), k);
        assert(ops.drop_last()[k] == ops[k]);
    }
}

pub proof fn lemma_lcs_self<V>(a: Seq<V>)
    ensures
        lcs_distance(a, a) == 0,
{
    lemma_lcs_trim_prefix(a, a, a.len() as int);
    assert(a.subrange(a.len() as int, a.len() as int).len() == 0);
}

/// The changes that turn `base` into `other`, as hunks in order.
#[verifier::loop_isolation(false)]
#[verifier::spinoff_prover]
#[verifier::rlimit(100)]
fn hunks<T: Token>(base: &[T], other: &[T]) -> (r: Vec<Hunk<T>>)
    requires
        2 * (base.len() + other.len()) + 2 <= isize::MAX,
    ensures
        minimal_hunks(vals(base@), vals(other@), hunk_views(r@)),
        vals(other@) == vals(base@) ==> r@.len() == 0,
{
    let ghost av = vals(base@);
    let ghost bv = vals(other@);
    let p = diff(base, other);
    let ghost o = p@;
    proof {
        if bv == av {
            lemma_lcs_self(av);
        }
    }
    let mut out: Vec<Hunk<T>> = Vec::new();
    let mut pos: usize = 0;
    let mut open = false;
    let mut hs: usize = 0;
    let mut he: usize = 0;
    let mut hnew: Vec<T> = Vec::new();
    let mut k: usize = 0;
    assert(o.subrange(0, o.len() as int) =~= o);
    assert(rebuild(av, hunk_views(out@), 0, 0) =~= Seq::<T::V>::empty());
    while k < p.ops.len()
        invariant
            k <= p.ops@.len(),
            pos <= base.len(),
            apply_from(o.subrange(k as int, o.len() as int), av, pos as nat) is Ok,
            hunks_sorted(hunk_views(out@), base.len() as int),
            !open ==> bv == rebuild(av, hunk_views(out@), 0, pos as int) + apply_from(
                o.subrange(k as int, o.len() as int),
                av,
                pos as nat,
            )->Ok_0,
            !open && out@.len() > 0 ==> hunk_views(out@).last().end < pos,
            forall|i: int, j: int| 0 <= i < j < out@.len() ==> (#[trigger] hunk_views(out@)[i]).end < (#[trigger] hunk_views(out@)[j]).start,
            forall|i: int| 0 <= i < out@.len() ==> hunk_size(#[trigger] hunk_views(out@)[i]) > 0,
            open ==> he > hs || hnew@.len() > 0,
            coalesced(o),
            distance(o) == lcs_distance(av, bv),
            hunks_cost(hunk_views(out@)) + (if open { he - hs + hnew@.len() } else { 0int }) + distance(o.subrange(k as int, o.len() as int)) == distance(o),
            open ==> bv == rebuild(av, hunk_views(out@), 0, hs as int) + vals(hnew@) + apply_from(
                o.subrange(k as int, o.len() as int),
                av,
                pos as nat,
            )->Ok_0,
            open ==> hs <= he && he == pos,
            !open ==> hnew@.len() == 0,
            open && out@.len() > 0 ==> hunk_views(out@).last().end < hs,
            bv == av ==> !open && out@.len() == 0,
        decreases p.ops@.len() - k,
    {
        let ghost rest = o.subrange(k as int, o.len() as int);
        let ghost t0 = apply_from(rest, av, pos as nat)->Ok_0;
        proof {
            assert(rest[0] == o[k as int]);
            assert(o[k as int] == p.ops@[k as int]@);
            assert(rest.drop_first() =~= o.subrange(k + 1, o.len() as int));
            lemma_distance_front(rest);
            assert(op_size(o[k as int]) > 0);
            if bv == av {
                lemma_op_edits_bound(o, k as int);
                assert(op_size(o[k as int]) > 0);
            }
        }
        match &p.ops[k] {
            PatchOp::Equal(n) => {
                let n = *n;
                if open {
                    let ghost hv = HunkView { start: hs as int, end: he as int, new: vals(hnew@) };
                    let ghost before = hunk_views(out@);
                    let h = Hunk { start: hs, end: he, new: hnew };
                    out.push(h);
                    hnew = Vec::new();
                    open = false;
                    proof {
                        assert(hunk_views(out@) =~= before.push(hv));
                        lemma_hunks_push(before, hv, base.len() as int);
                        lemma_rebuild_push(av, before, hv, 0, pos as int);
                        assert(av.subrange(pos as int, pos as int) =~= Seq::<T::V>::empty());
                        assert(rebuild(av, before, 0, hs as int) + vals(h.new@) + Seq::<T::V>::empty() =~= rebuild(av, before, 0, hs as int) + vals(h.new@));
                    }
                }
                proof {
                    let hv = hunk_views(out@);
                    lemma_rebuild_extend(av, hv, 0, pos as int, (pos + n) as int);
                    let r0 = rebuild(av, hv, 0, pos as int);
                    let seg = av.subrange(pos as int, (pos + n) as int);
                    let t1 = apply_from(o.subrange(k + 1, o.len() as int), av, (pos + n) as nat)->Ok_0;
                    assert(t0 == seg + t1);
                    assert(r0 + (seg + t1) =~= (r0 + seg) + t1);
                }
                pos = pos + n;
            },
            PatchOp::Delete(n) => {
                let n = *n;
                if !open {
                    open = true;
                    hs = pos;
                    he = pos;
                    proof {
                        assert(vals(hnew@) =~= Seq::<T::V>::empty());
                        assert(bv =~= rebuild(av, hunk_views(out@), 0, hs as int) + vals(hnew@) + t0);
                    }
                }
                he = he + n;
                pos = pos + n;
            },
            PatchOp::Insert(items) => {
                if !open {
                    open = true;
                    hs = pos;
                    he = pos;
                    proof {
                        assert(vals(hnew@) =~= Seq::<T::V>::empty());
                        assert(bv =~= rebuild(av, hunk_views(out@), 0, hs as int) + vals(hnew@) + t0);
                    }
                }
                let ghost before = vals(hnew@);
                extend_from(&mut hnew, items.as_slice(), 0, items.len());
                proof {
                    assert(vals(items@).subrange(0, items@.len() as int) =~= vals(items@));
                    let t1 = apply_from(o.subrange(k + 1, o.len() as int), av, pos as nat)->Ok_0;
                    assert(t0 == vals(items@) + t1);
                    let r0 = rebuild(av, hunk_views(out@), 0, hs as int);
                    assert(r0 + before + (vals(items@) + t1) =~= r0 + vals(hnew@) + t1);
                }
            },
        }
        k = k + 1;
    }
    proof {
        assert(o.subrange(k as int, o.len() as int) =~= Seq::<OpView<T::V>>::empty());
    }
    if open {
        let ghost hv = HunkView { start: hs as int, end: he as int, new: vals(hnew@) };
        let ghost before = hunk_views(out@);
        let h = Hunk { start: hs, end: he, new: hnew };
        out.push(h);
        proof {
            assert(hunk_views(out@) =~= before.push(hv));
            lemma_hunks_push(before, hv, base.len() as int);
            lemma_rebuild_push(av, before, hv, 0, pos as int);
            assert(av.subrange(pos as int, pos as int) =~= Seq::<T::V>::empty());
            assert(rebuild(av, before, 0, hs as int) + vals(hnew@) + Seq::<T::V>::empty() =~= rebuild(av, before, 0, hs as int) + vals(hnew@));
        }
    } else {
        proof {
            assert(rebuild(av, hunk_views(out@), 0, pos as int) + Seq::<T::V>::empty() =~= rebuild(av, hunk_views(out@), 0, pos as int));
        }
    }
    out
}

/// One side's version of base range `rs..re`, from the hunks that lie
/// inside it (applied from `cur` on).
pub open spec fn side<V>(base: Seq<V>, hs: Seq<HunkView<V>>, cur: int, rs: int, re: int) -> Seq<V>
    decreases hs.len(),
{
    if hs.len() == 0 {
        base.subrange(cur, re)
    } else if hs[0].start >= rs && hs[0].end <= re {
        base.subrange(cur, hs[0].start) + hs[0].new + side(base, hs.drop_first(), hs[0].end, rs, re)
    } else {
        side(base, hs.drop_first(), cur, rs, re)
    }
}

proof fn lemma_side_within<V>(base: Seq<V>, hs: Seq<HunkView<V>>, cur: int, rs: int, re: int)
    requires
        hunks_within(hs, rs, re),
    ensures
        side(base, hs, cur, rs, re) == rebuild(base, hs, cur, re),
    decreases hs.len(),
{
    if hs.len() > 0 {
        assert(hs[0].start >= rs && hs[0].end <= re);
        assert forall|i: int| 0 <= i < hs.drop_first().len() implies rs <= (#[trigger] hs.drop_first()[i]).start
            && hs.drop_first()[i].end <= re by {
            assert(hs.drop_first()[i] == hs[i + 1]);
        }
        lemma_side_within(base, hs.drop_first(), hs[0].end, rs, re);
    }
}

/// One side's version of base range `rs..re`, applying that side's hunks
/// which fall inside it.
#[verifier::loop_isolation(false)]
fn side_view<T: Token>(base: &[T], hs: &[Hunk<T>], rs: usize, re: usize) -> (r: Vec<T>)
    requires
        rs <= re <= base.len(),
        hunks_sorted(hunk_views(hs@), base.len() as int),
    ensures
        vals(r@) == side(vals(base@), hunk_views(hs@), rs as int, rs as int, re as int),
{
    let ghost av = vals(base@);
    let ghost hv = hunk_views(hs@);
    let mut out: Vec<T> = Vec::new();
    let mut cur: usize = rs;
    let mut k: usize = 0;
    assert(hv.subrange(0, hv.len() as int) =~= hv);
    assert(vals(out@) + side(av, hv, rs as int, rs as int, re as int) =~= side(av, hv, rs as int, rs as int, re as int));
    while k < hs.len()
        invariant
            k <= hs@.len(),
            rs <= cur <= re,
            forall|j: int| k <= j < hv.len() && hv[j].start >= rs ==> cur <= #[trigger] hv[j].start,
            vals(out@) + side(av, hv.subrange(k as int, hv.len() as int), cur as int, rs as int, re as int) == side(
                av,
                hv,
                rs as int,
                rs as int,
                re as int,
            ),
        decreases hs@.len() - k,
    {
        let ghost rest = hv.subrange(k as int, hv.len() as int);
        assert(rest[0] == hv[k as int]);
        assert(hv[k as int] == hs@[k as int]@);
        assert(rest.drop_first() =~= hv.subrange(k + 1, hv.len() as int));
        let h = &hs[k];
        if h.start >= rs && h.end <= re {
            let ghost before = vals(out@);
            extend_from(&mut out, base, cur, h.start);
            let ghost mid = vals(out@);
            extend_from(&mut out, h.new.as_slice(), 0, h.new.len());
            proof {
                assert(vals(h.new@).subrange(0, h.new@.len() as int) =~= vals(h.new@));
                let tail = side(av, rest.drop_first(), h.end as int, rs as int, re as int);
                assert(before + (av.subrange(cur as int, h.start as int) + vals(h.new@) + tail) =~= vals(out@) + tail);
                assert forall|j: int| k + 1 <= j < hv.len() && hv[j].start >= rs implies h.end <= #[trigger] hv[j].start by {
                    assert(hv[k as int].end <= hv[j].start);
                }
            }
            cur = h.end;
        }
        k = k + 1;
    }
    let ghost before = vals(out@);
    extend_from(&mut out, base, cur, re);
    proof {
        assert(hv.subrange(k as int, hv.len() as int) =~= Seq::<HunkView<T::V>>::empty());
    }
    out
}

/// The base column of an alignment.
pub open spec fn base_col<V>(cs: Seq<ChunkView<V>>) -> Seq<V>
    decreases cs.len(),
{
    if cs.len() == 0 {
        seq![]
    } else {
        base_col(cs.drop_last()) + match cs.last() {
            ChunkView::Same(v) => v,
            ChunkView::Changed { base, ours: _, theirs: _ } => base,
        }
    }
}

/// Our column of an alignment.
pub open spec fn ours_col<V>(cs: Seq<ChunkView<V>>) -> Seq<V>
    decreases cs.len(),
{
    if cs.len() == 0 {
        seq![]
    } else {
        ours_col(cs.drop_last()) + match cs.last() {
            ChunkView::Same(v) => v,
            ChunkView::Changed { base: _, ours, theirs: _ } => ours,
        }
    }
}

/// Their column of an alignment.
pub open spec fn theirs_col<V>(cs: Seq<ChunkView<V>>) -> Seq<V>
    decreases cs.len(),
{
    if cs.len() == 0 {
        seq![]
    } else {
        theirs_col(cs.drop_last()) + match cs.last() {
            ChunkView::Same(v) => v,
            ChunkView::Changed { base: _, ours: _, theirs } => theirs,
        }
    }
}

/// Every changed region leaves our side as in the base.
pub open spec fn ours_untouched<V>(cs: Seq<ChunkView<V>>) -> bool {
    forall|i: int| 0 <= i < cs.len() ==> ((#[trigger] cs[i]) matches ChunkView::Changed { base, ours, theirs: _ }
        ==> ours == base)
}

/// Every changed region leaves their side as in the base.
pub open spec fn theirs_untouched<V>(cs: Seq<ChunkView<V>>) -> bool {
    forall|i: int| 0 <= i < cs.len() ==> ((#[trigger] cs[i]) matches ChunkView::Changed { base, ours: _, theirs }
        ==> theirs == base)
}

proof fn lemma_cols_push<V>(cs: Seq<ChunkView<V>>, c: ChunkView<V>)
    ensures
        base_col(cs.push(c)) == base_col(cs) + match c {
            ChunkView::Same(v) => v,
            ChunkView::Changed { base, ours: _, theirs: _ } => base,
        },
        ours_col(cs.push(c)) == ours_col(cs) + match c {
            ChunkView::Same(v) => v,
            ChunkView::Changed { base: _, ours, theirs: _ } => ours,
        },
        theirs_col(cs.push(c)) == theirs_col(cs) + match c {
            ChunkView::Same(v) => v,
            ChunkView::Changed { base: _, ours: _, theirs } => theirs,
        },
        ours_untouched(cs) && (c matches ChunkView::Changed { base, ours, theirs: _ } ==> ours == base)
            ==> ours_untouched(cs.push(c)),
        theirs_untouched(cs) && (c matches ChunkView::Changed { base, ours: _, theirs } ==> theirs == base)
            ==> theirs_untouched(cs.push(c)),
{
    let cs1 = cs.push(c);
    assert(cs1.drop_last() =~= cs);
    assert(cs1.last() == c);
    if ours_untouched(cs) && (c matches ChunkView::Changed { base, ours, theirs: _ } ==> ours == base) {
        assert forall|q: int| 0 <= q < cs1.len() implies ((#[trigger] cs1[q]) matches ChunkView::Changed { base, ours, theirs: _ } ==> ours == base) by {
            if q < cs.len() {
                assert(cs1[q] == cs[q]);
            }
        }
    }
    if theirs_untouched(cs) && (c matches ChunkView::Changed { base, ours: _, theirs } ==> theirs == base) {
        assert forall|q: int| 0 <= q < cs1.len() implies ((#[trigger] cs1[q]) matches ChunkView::Changed { base, ours: _, theirs } ==> theirs == base) by {
            if q < cs.len() {
                assert(cs1[q] == cs[q]);
            }
        }
    }
}

/// Point `x` lies in the closed range of one of the hunks `ho[i0..i]` or
/// `ht[j0..j]`.
pub open spec fn point_covered<V>(ho: Seq<HunkView<V>>, ht: Seq<HunkView<V>>, i0: int, i: int, j0: int, j: int, x: int) -> bool {
    ||| exists|q: int| i0 <= q < i && (#[trigger] ho[q]).start <= x <= ho[q].end
    ||| exists|q: int| j0 <= q < j && (#[trigger] ht[q]).start <= x <= ht[q].end
}

/// The span from `x` to `x + 1` lies inside the closed range of one of the
/// hunks `ho[i0..i]` or `ht[j0..j]`.
pub open spec fn span_covered<V>(ho: Seq<HunkView<V>>, ht: Seq<HunkView<V>>, i0: int, i: int, j0: int, j: int, x: int) -> bool {
    ||| exists|q: int| i0 <= q < i && (#[trigger] ho[q]).start <= x && x + 1 <= ho[q].end
    ||| exists|q: int| j0 <= q < j && (#[trigger] ht[q]).start <= x && x + 1 <= ht[q].end
}

proof fn lemma_span_grow<V>(ho: Seq<HunkView<V>>, ht: Seq<HunkView<V>>, i0: int, i: int, i2: int, j0: int, j: int, j2: int, x: int)
    requires
        i <= i2,
        j <= j2,
        span_covered(ho, ht, i0, i, j0, j, x),
    ensures
        span_covered(ho, ht, i0, i2, j0, j2, x),
{
    if exists|q: int| i0 <= q < i && (#[trigger] ho[q]).start <= x && x + 1 <= ho[q].end {
        let q = choose|q: int| i0 <= q < i && (#[trigger] ho[q]).start <= x && x + 1 <= ho[q].end;
        assert(i0 <= q < i2);
    } else {
        let q = choose|q: int| j0 <= q < j && (#[trigger] ht[q]).start <= x && x + 1 <= ht[q].end;
        assert(j0 <= q < j2);
    }
}

/// Every point of `start..=end`, and every span between neighbouring
/// points, lies inside one of the hunks `ho[i0..i]` or `ht[j0..j]`: their
/// closed ranges chain together across the whole range.
#[verifier::opaque]
pub open spec fn cluster_covered<V>(ho: Seq<HunkView<V>>, ht: Seq<HunkView<V>>, i0: int, i: int, j0: int, j: int, start: int, end: int) -> bool {
    &&& forall|x: int| start <= x <= end ==> #[trigger] point_covered(ho, ht, i0, i, j0, j, x)
    &&& forall|x: int| start <= x < end ==> #[trigger] span_covered(ho, ht, i0, i, j0, j, x)
}

proof fn lemma_cover_grow<V>(ho: Seq<HunkView<V>>, ht: Seq<HunkView<V>>, i0: int, i: int, i2: int, j0: int, j: int, j2: int, x: int)
    requires
        i <= i2,
        j <= j2,
        point_covered(ho, ht, i0, i, j0, j, x),
    ensures
        point_covered(ho, ht, i0, i2, j0, j2, x),
{
    if exists|q: int| i0 <= q < i && (#[trigger] ho[q]).start <= x <= ho[q].end {
        let q = choose|q: int| i0 <= q < i && (#[trigger] ho[q]).start <= x <= ho[q].end;
        assert(i0 <= q < i2 && ho[q].start <= x <= ho[q].end);
    } else {
        let q = choose|q: int| j0 <= q < j && (#[trigger] ht[q]).start <= x <= ht[q].end;
        assert(j0 <= q < j2 && ht[q].start <= x <= ht[q].end);
    }
}

/// Where chunk `c` begins in the base.
pub open spec fn chunk_start<V>(cs: Seq<ChunkView<V>>, c: int) -> int {
    base_col(cs.take(c)).len() as int
}

/// No hunk reaches into `s..e` (one may end at `s` or begin at `e`).
pub open spec fn clear_of<V>(hs: Seq<HunkView<V>>, s: int, e: int) -> bool {
    forall|q: int| 0 <= q < hs.len() ==> (#[trigger] hs[q]).end <= s || hs[q].start >= e
}

/// `hs[a..b]` are exactly the hunks whose closed range meets `s..=e`, and
/// they lie inside it.
pub open spec fn cluster_of<V>(hs: Seq<HunkView<V>>, a: int, b: int, s: int, e: int) -> bool {
    &&& 0 <= a <= b <= hs.len()
    &&& forall|q: int| 0 <= q < a ==> (#[trigger] hs[q]).end < s
    &&& forall|q: int| b <= q < hs.len() ==> (#[trigger] hs[q]).start > e
    &&& forall|q: int| a <= q < b ==> s <= (#[trigger] hs[q]).start && hs[q].end <= e
}

/// A chunk beginning at `s` in the base, against the hunks `ho` of our side
/// and `ht` of theirs. A `Same` chunk is non-empty and no hunk reaches into
/// it. A `Changed` chunk spans a maximal cluster of hunks whose closed
/// ranges overlap or touch: each of its points lies in one of them, no hunk
/// outside it touches it, and each side is the base with that side's hunks
/// of the cluster applied.
pub open spec fn chunk_ok<V>(base: Seq<V>, ho: Seq<HunkView<V>>, ht: Seq<HunkView<V>>, ch: ChunkView<V>, s: int) -> bool {
    match ch {
        ChunkView::Same(v) => v.len() > 0 && clear_of(ho, s, s + v.len()) && clear_of(ht, s, s + v.len()),
        ChunkView::Changed { base: b, ours: o, theirs: t } => b == base.subrange(s, s + b.len()) && changed_cluster(
            base,
            ho,
            ht,
            b,
            o,
            t,
            s,
        ),
    }
}

/// A `Changed` chunk at `s` is some cluster of the hunks.
pub open spec fn changed_cluster<V>(base: Seq<V>, ho: Seq<HunkView<V>>, ht: Seq<HunkView<V>>, b: Seq<V>, o: Seq<V>, t: Seq<V>, s: int) -> bool {
    exists|a0: int, a1: int, b0: int, b1: int| #[trigger] changed_ok(base, ho, ht, b, o, t, s, a0, a1, b0, b1)
}

/// A `Changed` chunk at `s` is the cluster `ho[a0..a1]`, `ht[b0..b1]`.
pub open spec fn changed_ok<V>(
    base: Seq<V>,
    ho: Seq<HunkView<V>>,
    ht: Seq<HunkView<V>>,
    b: Seq<V>,
    o: Seq<V>,
    t: Seq<V>,
    s: int,
    a0: int,
    a1: int,
    b0: int,
    b1: int,
) -> bool {
    &&& cluster_of(ho, a0, a1, s, s + b.len())
    &&& cluster_of(ht, b0, b1, s, s + b.len())
    &&& a1 + b1 > a0 + b0
    &&& o == side(base, ho.subrange(a0, a1), s, s, s + b.len())
    &&& t == side(base, ht.subrange(b0, b1), s, s, s + b.len())
    &&& forall|x: int| s <= x <= s + b.len() ==> #[trigger] point_covered(ho, ht, a0, a1, b0, b1, x)
    &&& forall|x: int| s <= x < s + b.len() ==> #[trigger] span_covered(ho, ht, a0, a1, b0, b1, x)
}

/// `cs` is the alignment of `base` against the hunks `ho` and `ht`: every
/// chunk as `chunk_ok` says, and `Same` and `Changed` chunks alternate.
#[verifier::opaque]
pub open spec fn aligned<V>(base: Seq<V>, ho: Seq<HunkView<V>>, ht: Seq<HunkView<V>>, cs: Seq<ChunkView<V>>) -> bool {
    &&& forall|c: int| 0 <= c < cs.len() ==> chunk_ok(base, ho, ht, #[trigger] cs[c], chunk_start(cs, c))
    &&& forall|c: int, d: int| 0 <= c && d == c + 1 && d < cs.len() ==> (#[trigger] cs[c] is Same) != (#[trigger] cs[d] is Same)
}

proof fn lemma_aligned_empty<V>(base: Seq<V>, ho: Seq<HunkView<V>>, ht: Seq<HunkView<V>>)
    ensures
        aligned(base, ho, ht, Seq::<ChunkView<V>>::empty()),
{
    reveal(aligned);
}

proof fn lemma_aligned_push<V>(base: Seq<V>, ho: Seq<HunkView<V>>, ht: Seq<HunkView<V>>, cs: Seq<ChunkView<V>>, x: ChunkView<V>)
    requires
        aligned(base, ho, ht, cs),
        chunk_ok(base, ho, ht, x, base_col(cs).len() as int),
        cs.len() > 0 ==> (cs.last() is Same) != (x is Same),
    ensures
        aligned(base, ho, ht, cs.push(x)),
{
    reveal(aligned);
    let a = cs.push(x);
    assert forall|c: int| 0 <= c < a.len() implies chunk_ok(base, ho, ht, #[trigger] a[c], chunk_start(a, c)) by {
        if c < cs.len() {
            assert(a.take(c) =~= cs.take(c));
            assert(a[c] == cs[c]);
        } else {
            assert(a.take(c) =~= cs);
        }
    }
    assert forall|c: int, d: int| 0 <= c && d == c + 1 && d < a.len() implies (#[trigger] a[c] is Same) != (#[trigger] a[d] is Same) by {
        if d < cs.len() {
            assert(a[c] == cs[c] && a[d] == cs[d]);
        } else {
            assert(a[c] == cs.last());
        }
    }
}

/// Grows a cluster from `start`: every hunk of either side whose closed
/// range touches the region so far joins it.
#[verifier::loop_isolation(false)]
#[verifier::rlimit(40)]
fn cluster<T: Token>(ho: &Vec<Hunk<T>>, ht: &Vec<Hunk<T>>, i0: usize, j0: usize, start: usize, len: usize) -> (r: (
    usize,
    usize,
    usize,
))
    requires
        hunks_sorted(hunk_views(ho@), len as int),
        hunks_sorted(hunk_views(ht@), len as int),
        start <= len,
        i0 <= ho@.len(),
        j0 <= ht@.len(),
        i0 < ho@.len() ==> hunk_views(ho@)[i0 as int].start >= start,
        j0 < ht@.len() ==> hunk_views(ht@)[j0 as int].start >= start,
        (i0 < ho@.len() && hunk_views(ho@)[i0 as int].start == start) || (j0 < ht@.len() && hunk_views(
            ht@,
        )[j0 as int].start == start),
    ensures
        start <= r.0 <= len,
        i0 <= r.1 <= ho@.len(),
        j0 <= r.2 <= ht@.len(),
        r.1 + r.2 > i0 + j0,
        hunks_within(hunk_views(ho@).subrange(i0 as int, r.1 as int), start as int, r.0 as int),
        hunks_within(hunk_views(ht@).subrange(j0 as int, r.2 as int), start as int, r.0 as int),
        r.1 < ho@.len() ==> hunk_views(ho@)[r.1 as int].start > r.0,
        r.2 < ht@.len() ==> hunk_views(ht@)[r.2 as int].start > r.0,
        cluster_covered(hunk_views(ho@), hunk_views(ht@), i0 as int, r.1 as int, j0 as int, r.2 as int, start as int, r.0 as int),
{
    let ghost vo = hunk_views(ho@);
    let ghost vt = hunk_views(ht@);
    let mut end: usize = start;
    let mut i: usize = i0;
    let mut j: usize = j0;
    let mut grew = true;
    while grew
        invariant
            start <= end <= len,
            i0 <= i <= ho@.len(),
            j0 <= j <= ht@.len(),
            hunks_within(vo.subrange(i0 as int, i as int), start as int, end as int),
            hunks_within(vt.subrange(j0 as int, j as int), start as int, end as int),
            i < ho@.len() ==> vo[i as int].start >= start,
            j < ht@.len() ==> vt[j as int].start >= start,
            i + j == i0 + j0 ==> grew && end == start,
            !grew ==> (i == ho@.len() || vo[i as int].start > end) && (j == ht@.len() || vt[j as int].start > end),
            i + j > i0 + j0 ==> forall|x: int| start <= x <= end ==> #[trigger] point_covered(vo, vt, i0 as int, i as int, j0 as int, j as int, x),
            forall|x: int| start <= x < end ==> #[trigger] span_covered(vo, vt, i0 as int, i as int, j0 as int, j as int, x),
            (i0 < ho@.len() && vo[i0 as int].start == start) || (j0 < ht@.len() && vt[j0 as int].start == start),
        decreases ho@.len() - i + ht@.len() - j + (if grew { 1int } else { 0int }),
    {
        let ghost e_old = end as int;
        let ghost i_old = i as int;
        let ghost j_old = j as int;
        grew = false;
        proof {
            if i < ho@.len() {
                assert(vo[i as int] == ho@[i as int]@);
            }
            if j < ht@.len() {
                assert(vt[j as int] == ht@[j as int]@);
            }
        }
        if i < ho.len() && ho[i].start <= end {
            if ho[i].end > end {
                end = ho[i].end;
            }
            proof {
                if i + 1 < ho@.len() {
                    assert(vo[i as int].end <= vo[i + 1].start);
                }
            }
            i = i + 1;
            grew = true;
        }
        proof {
            if j < ht@.len() {
                assert(vt[j as int] == ht@[j as int]@);
            }
        }
        if j < ht.len() && ht[j].start <= end {
            if ht[j].end > end {
                end = ht[j].end;
            }
            proof {
                if j + 1 < ht@.len() {
                    assert(vt[j as int].end <= vt[j + 1].start);
                }
            }
            j = j + 1;
            grew = true;
        }
        proof {
            assert forall|x: int| start <= x < end implies #[trigger] span_covered(vo, vt, i0 as int, i as int, j0 as int, j as int, x) by {
                if x < e_old {
                    lemma_span_grow(vo, vt, i0 as int, i_old, i as int, j0 as int, j_old, j as int, x);
                } else if i > i_old && vo[i_old].start <= x && x + 1 <= vo[i_old].end {
                    assert(i0 <= i_old < i);
                } else if j > j_old {
                    assert(j0 <= j_old < j);
                }
            }
            if i + j > i0 + j0 {
                assert forall|x: int| start <= x <= end implies #[trigger] point_covered(vo, vt, i0 as int, i as int, j0 as int, j as int, x) by {
                    if x <= e_old && i_old + j_old > i0 + j0 {
                        lemma_cover_grow(vo, vt, i0 as int, i_old, i as int, j0 as int, j_old, j as int, x);
                    } else if i > i_old && vo[i_old].start <= x <= vo[i_old].end {
                        assert(i0 <= i_old < i);
                    } else if j > j_old && vt[j_old].start <= x <= vt[j_old].end {
                        assert(j0 <= j_old < j);
                    } else if i_old + j_old == i0 + j0 && x == start {
                        if i > i_old && vo[i_old].start == start {
                            assert(vo[i_old].start <= vo[i_old].end);
                        } else {
                            assert(j > j_old);
                            assert(vt[j_old].start <= vt[j_old].end);
                        }
                    }
                }
            }
            let w = vo.subrange(i0 as int, i as int);
            assert forall|q: int| 0 <= q < w.len() implies start <= (#[trigger] w[q]).start && w[q].end <= end by {
                assert(w[q] == vo[i0 + q]);
                if i0 + q < i - 1 {
                    assert(vo[i0 + q].end <= vo[i - 1].start);
                }
            }
            let w2 = vt.subrange(j0 as int, j as int);
            assert forall|q: int| 0 <= q < w2.len() implies start <= (#[trigger] w2[q]).start && w2[q].end <= end by {
                assert(w2[q] == vt[j0 + q]);
                if j0 + q < j - 1 {
                    assert(vt[j0 + q].end <= vt[j - 1].start);
                }
            }
        }
    }
    proof {
        reveal(cluster_covered);
    }
    (end, i, j)
}

/// The hunks before `i` end at or before `pos`.
#[verifier::opaque]
pub open spec fn ends_by<V>(hs: Seq<HunkView<V>>, i: int, pos: int) -> bool {
    forall|q: int| 0 <= q < i ==> (#[trigger] hs[q]).end <= pos
}

proof fn lemma_same_chunk_ok<V>(base: Seq<V>, vo: Seq<HunkView<V>>, vt: Seq<HunkView<V>>, i: int, j: int, pos: int, start: int)
    requires
        hunks_sorted(vo, base.len() as int),
        hunks_sorted(vt, base.len() as int),
        0 <= i <= vo.len(),
        0 <= j <= vt.len(),
        ends_by(vo, i, pos),
        ends_by(vt, j, pos),
        i < vo.len() ==> vo[i].start >= start,
        j < vt.len() ==> vt[j].start >= start,
        0 <= pos < start <= base.len(),
    ensures
        chunk_ok(base, vo, vt, ChunkView::Same(base.subrange(pos, start)), pos),
{
    reveal(ends_by);
    assert forall|q: int| 0 <= q < vo.len() implies (#[trigger] vo[q]).end <= pos || vo[q].start >= start by {
        if q > i {
            assert(vo[i].end <= vo[q].start);
        }
    }
    assert forall|q: int| 0 <= q < vt.len() implies (#[trigger] vt[q]).end <= pos || vt[q].start >= start by {
        if q > j {
            assert(vt[j].end <= vt[q].start);
        }
    }
}

proof fn lemma_cluster_of<V>(hs: Seq<HunkView<V>>, len: int, a: int, b: int, s: int, e: int)
    requires
        hunks_sorted(hs, len),
        0 <= a <= b <= hs.len(),
        forall|q: int| 0 <= q < a ==> (#[trigger] hs[q]).end < s,
        hunks_within(hs.subrange(a, b), s, e),
        b < hs.len() ==> hs[b].start > e,
    ensures
        cluster_of(hs, a, b, s, e),
{
    assert forall|q: int| b <= q < hs.len() implies (#[trigger] hs[q]).start > e by {
        if q > b {
            assert(hs[b].end <= hs[q].start);
        }
    }
    assert forall|q: int| a <= q < b implies s <= (#[trigger] hs[q]).start && hs[q].end <= e by {
        assert(hs.subrange(a, b)[q - a] == hs[q]);
    }
}

proof fn lemma_changed_step<V>(
    av: Seq<V>,
    vo: Seq<HunkView<V>>,
    vt: Seq<HunkView<V>>,
    cs1: Seq<ChunkView<V>>,
    i0: int,
    i: int,
    j0: int,
    j: int,
    pos0: int,
    start: int,
    end: int,
)
    requires
        hunks_sorted(vo, av.len() as int),
        hunks_sorted(vt, av.len() as int),
        aligned(av, vo, vt, cs1),
        base_col(cs1) == av.subrange(0, start),
        cs1.len() > 0 ==> cs1.last() is Same,
        0 <= pos0 <= start <= end <= av.len(),
        i0 > 0 ==> pos0 < start,
        j0 > 0 ==> pos0 < start,
        0 <= i0 <= i <= vo.len(),
        0 <= j0 <= j <= vt.len(),
        ends_by(vo, i0, pos0),
        ends_by(vt, j0, pos0),
        hunks_within(vo.subrange(i0, i), start, end),
        hunks_within(vt.subrange(j0, j), start, end),
        i < vo.len() ==> vo[i].start > end,
        j < vt.len() ==> vt[j].start > end,
        i + j > i0 + j0,
        cluster_covered(vo, vt, i0, i, j0, j, start, end),
    ensures
        aligned(
            av,
            vo,
            vt,
            cs1.push(
                ChunkView::Changed {
                    base: av.subrange(start, end),
                    ours: side(av, vo.subrange(i0, i), start, start, end),
                    theirs: side(av, vt.subrange(j0, j), start, start, end),
                },
            ),
        ),
        ends_by(vo, i, end),
        ends_by(vt, j, end),
{
    reveal(ends_by);
    let cv = ChunkView::Changed {
        base: av.subrange(start, end),
        ours: side(av, vo.subrange(i0, i), start, start, end),
        theirs: side(av, vt.subrange(j0, j), start, start, end),
    };
    lemma_cluster_of(vo, av.len() as int, i0, i, start, end);
    lemma_cluster_of(vt, av.len() as int, j0, j, start, end);
    let b = av.subrange(start, end);
    assert(b.len() == end - start);
    assert(cluster_of(vo, i0, i, start, start + b.len()));
    assert(cluster_of(vt, j0, j, start, start + b.len()));
    reveal(cluster_covered);
    assert forall|x: int| start <= x <= start + b.len() implies #[trigger] point_covered(vo, vt, i0, i, j0, j, x) by {
        assert(point_covered(vo, vt, i0, i, j0, j, x));
    }
    assert forall|x: int| start <= x < start + b.len() implies #[trigger] span_covered(vo, vt, i0, i, j0, j, x) by {
        assert(span_covered(vo, vt, i0, i, j0, j, x));
    }
    assert(changed_ok(av, vo, vt, b, side(av, vo.subrange(i0, i), start, start, end), side(av, vt.subrange(j0, j), start, start, end), start, i0, i, j0, j));
    let o = side(av, vo.subrange(i0, i), start, start, end);
    let t = side(av, vt.subrange(j0, j), start, start, end);
    assert(changed_cluster(av, vo, vt, b, o, t, start));
    assert(cv == ChunkView::Changed { base: b, ours: o, theirs: t });
    assert(chunk_ok(av, vo, vt, cv, start));
    lemma_aligned_push(av, vo, vt, cs1, cv);
    assert forall|q: int| 0 <= q < i implies (#[trigger] vo[q]).end <= end by {
        if q >= i0 {
            assert(vo.subrange(i0, i)[q - i0] == vo[q]);
        }
    }
    assert forall|q: int| 0 <= q < j implies (#[trigger] vt[q]).end <= end by {
        if q >= j0 {
            assert(vt.subrange(j0, j)[q - j0] == vt[q]);
        }
    }
}

/// How far the alignment has come: the chunks so far align the base up to
/// `pos`, and the hunks before `i` and `j` are used up.
#[verifier::opaque]
pub open spec fn merge_progress<V>(
    av: Seq<V>,
    vo: Seq<HunkView<V>>,
    vt: Seq<HunkView<V>>,
    cs: Seq<ChunkView<V>>,
    i: int,
    j: int,
    pos: int,
) -> bool {
    &&& aligned(av, vo, vt, cs)
    &&& cs.len() > 0 ==> cs.last() is Changed
    &&& cs.len() == 0 ==> i == 0 && j == 0 && pos == 0
    &&& ends_by(vo, i, pos)
    &&& ends_by(vt, j, pos)
    &&& cs.len() > 0 && i < vo.len() ==> vo[i].start > pos
    &&& cs.len() > 0 && j < vt.len() ==> vt[j].start > pos
}

proof fn lemma_progress_start<V>(av: Seq<V>, vo: Seq<HunkView<V>>, vt: Seq<HunkView<V>>)
    ensures
        merge_progress(av, vo, vt, Seq::<ChunkView<V>>::empty(), 0, 0, 0),
{
    reveal(merge_progress);
    reveal(ends_by);
    lemma_aligned_empty(av, vo, vt);
}

proof fn lemma_progress_step<V>(
    av: Seq<V>,
    vo: Seq<HunkView<V>>,
    vt: Seq<HunkView<V>>,
    cs0: Seq<ChunkView<V>>,
    i0: int,
    i: int,
    j0: int,
    j: int,
    pos0: int,
    start: int,
    end: int,
) -> (cs2: Seq<ChunkView<V>>)
    requires
        hunks_sorted(vo, av.len() as int),
        hunks_sorted(vt, av.len() as int),
        merge_progress(av, vo, vt, cs0, i0, j0, pos0),
        base_col(cs0) == av.subrange(0, pos0),
        0 <= pos0 <= start <= end <= av.len(),
        i0 < vo.len() ==> vo[i0].start >= start,
        j0 < vt.len() ==> vt[j0].start >= start,
        (i0 < vo.len() && vo[i0].start == start) || (j0 < vt.len() && vt[j0].start == start),
        0 <= i0 <= i <= vo.len(),
        0 <= j0 <= j <= vt.len(),
        hunks_within(vo.subrange(i0, i), start, end),
        hunks_within(vt.subrange(j0, j), start, end),
        i < vo.len() ==> vo[i].start > end,
        j < vt.len() ==> vt[j].start > end,
        i + j > i0 + j0,
        cluster_covered(vo, vt, i0, i, j0, j, start, end),
    ensures
        cs2 == (if start > pos0 {
            cs0.push(ChunkView::Same(av.subrange(pos0, start)))
        } else {
            cs0
        }).push(
            ChunkView::Changed {
                base: av.subrange(start, end),
                ours: side(av, vo.subrange(i0, i), start, start, end),
                theirs: side(av, vt.subrange(j0, j), start, start, end),
            },
        ),
        merge_progress(av, vo, vt, cs2, i, j, end),
{
    reveal(merge_progress);
    let cs1 = if start > pos0 {
        cs0.push(ChunkView::Same(av.subrange(pos0, start)))
    } else {
        cs0
    };
    if start > pos0 {
        lemma_same_chunk_ok(av, vo, vt, i0, j0, pos0, start);
        lemma_aligned_push(av, vo, vt, cs0, ChunkView::Same(av.subrange(pos0, start)));
        lemma_cols_push(cs0, ChunkView::Same(av.subrange(pos0, start)));
        assert(av.subrange(0, pos0) + av.subrange(pos0, start) =~= av.subrange(0, start));
    } else {
        assert(cs0.len() == 0);
    }
    assert(base_col(cs1) =~= av.subrange(0, start));
    if i0 > 0 || j0 > 0 {
        assert(cs0.len() > 0);
    }
    lemma_changed_step(av, vo, vt, cs1, i0, i, j0, j, pos0, start, end);
    let cv = ChunkView::Changed {
        base: av.subrange(start, end),
        ours: side(av, vo.subrange(i0, i), start, start, end),
        theirs: side(av, vt.subrange(j0, j), start, start, end),
    };
    let cs2 = cs1.push(cv);
    assert(cs2.last() == cv);
    cs2
}

proof fn lemma_progress_finish<V>(av: Seq<V>, vo: Seq<HunkView<V>>, vt: Seq<HunkView<V>>, cs: Seq<ChunkView<V>>, pos: int)
    requires
        hunks_sorted(vo, av.len() as int),
        hunks_sorted(vt, av.len() as int),
        merge_progress(av, vo, vt, cs, vo.len() as int, vt.len() as int, pos),
        base_col(cs) == av.subrange(0, pos),
        0 <= pos <= av.len(),
    ensures
        aligned(av, vo, vt, if pos < av.len() { cs.push(ChunkView::Same(av.subrange(pos, av.len() as int))) } else { cs }),
{
    reveal(merge_progress);
    if pos < av.len() {
        lemma_same_chunk_ok(av, vo, vt, vo.len() as int, vt.len() as int, pos, av.len() as int);
        lemma_aligned_push(av, vo, vt, cs, ChunkView::Same(av.subrange(pos, av.len() as int)));
    }
}

/// A copy of some hunks.
fn copy_hunks<T: Token>(hs: &Vec<Hunk<T>>) -> (r: Vec<Hunk<T>>)
    ensures
        hunk_views(r@) == hunk_views(hs@),
{
    let mut out: Vec<Hunk<T>> = Vec::new();
    let mut i: usize = 0;
    while i < hs.len()
        invariant
            i <= hs@.len(),
            hunk_views(out@) == hunk_views(hs@).take(i as int),
        decreases hs@.len() - i,
    {
        let mut nv: Vec<T> = Vec::new();
        extend_from(&mut nv, hs[i].new.as_slice(), 0, hs[i].new.len());
        let ghost before = hunk_views(out@);
        out.push(Hunk { start: hs[i].start, end: hs[i].end, new: nv });
        proof {
            assert(vals(hs@[i as int].new@).subrange(0, hs@[i as int].new@.len() as int) =~= vals(hs@[i as int].new@));
            assert(hunk_views(out@) =~= before.push(hs@[i as int]@));
            assert(hunk_views(hs@).take(i + 1) =~= hunk_views(hs@).take(i as int).push(hs@[i as int]@));
        }
        i = i + 1;
    }
    assert(hunk_views(hs@).take(hs@.len() as int) =~= hunk_views(hs@));
    out
}

/// Aligns `base`, `ours` and `theirs` into regions that are the same in
/// all three or changed on some side.
#[verifier::spinoff_prover]
#[verifier::rlimit(100)]
pub fn merge3<T: Token>(base: &[T], ours: &[T], theirs: &[T]) -> (m: Merge3<T>)
    requires
        2 * (base.len() + ours.len()) + 2 <= isize::MAX,
        2 * (base.len() + theirs.len()) + 2 <= isize::MAX,
    ensures
        base_col(m@) == vals(base@),
        ours_col(m@) == vals(ours@),
        theirs_col(m@) == vals(theirs@),
        vals(ours@) == vals(base@) ==> ours_untouched(m@),
        vals(theirs@) == vals(base@) ==> theirs_untouched(m@),
        exists|ho: Seq<HunkView<T::V>>, ht: Seq<HunkView<T::V>>| #![trigger aligned(vals(base@), ho, ht, m@)] {
            &&& minimal_hunks(vals(base@), vals(ours@), ho)
            &&& minimal_hunks(vals(base@), vals(theirs@), ht)
            &&& (vals(ours@) == vals(theirs@) ==> ho == ht)
            &&& aligned(vals(base@), ho, ht, m@)
        },
{
    let ghost av = vals(base@);
    let ho = hunks(base, ours);
    let ht = if seq_same(ours, theirs) {
        copy_hunks(&ho)
    } else {
        hunks(base, theirs)
    };
    let ghost vo = hunk_views(ho@);
    let ghost vt = hunk_views(ht@);
    let mut i: usize = 0;
    let mut j: usize = 0;
    let mut pos: usize = 0;
    let mut chunks: Vec<Chunk<T>> = Vec::new();
    assert(vo.subrange(0, vo.len() as int) =~= vo);
    assert(vt.subrange(0, vt.len() as int) =~= vt);
    assert(av.subrange(0, 0) =~= Seq::<T::V>::empty());
    assert(chunks@.map_values(|c: Chunk<T>| c@) =~= Seq::<ChunkView<T::V>>::empty());
    proof {
        lemma_progress_start(av, vo, vt);
    }
    assert(Seq::<T::V>::empty() + vals(ours@) =~= vals(ours@));
    assert(Seq::<T::V>::empty() + vals(theirs@) =~= vals(theirs@));
    while i < ho.len() || j < ht.len()
        invariant
            av == vals(base@),
            vo == hunk_views(ho@),
            vt == hunk_views(ht@),
            hunks_sorted(vo, base.len() as int),
            hunks_sorted(vt, base.len() as int),
            pos <= base.len(),
            i <= ho@.len(),
            j <= ht@.len(),
            i < ho@.len() ==> vo[i as int].start >= pos,
            j < ht@.len() ==> vt[j as int].start >= pos,
            base_col(chunks@.map_values(|c: Chunk<T>| c@)) == av.subrange(0, pos as int),
            ours_col(chunks@.map_values(|c: Chunk<T>| c@)) + rebuild(av, vo.subrange(i as int, vo.len() as int), pos as int, base.len() as int) == vals(ours@),
            theirs_col(chunks@.map_values(|c: Chunk<T>| c@)) + rebuild(av, vt.subrange(j as int, vt.len() as int), pos as int, base.len() as int) == vals(theirs@),
            ho@.len() == 0 ==> ours_untouched(chunks@.map_values(|c: Chunk<T>| c@)),
            ht@.len() == 0 ==> theirs_untouched(chunks@.map_values(|c: Chunk<T>| c@)),
            merge_progress(av, vo, vt, chunks@.map_values(|c: Chunk<T>| c@), i as int, j as int, pos as int),
        decreases ho@.len() - i + ht@.len() - j,
    {
        proof {
            if i < ho@.len() {
                assert(vo[i as int] == ho@[i as int]@);
            }
            if j < ht@.len() {
                assert(vt[j as int] == ht@[j as int]@);
            }
        }
        let start: usize = if i < ho.len() && j < ht.len() {
            if ho[i].start <= ht[j].start {
                ho[i].start
            } else {
                ht[j].start
            }
        } else if i < ho.len() {
            ho[i].start
        } else {
            ht[j].start
        };
        let ghost cs0 = chunks@.map_values(|c: Chunk<T>| c@);
        let ghost pos0 = pos as int;
        if start > pos {
            let mut same: Vec<T> = Vec::new();
            extend_from(&mut same, base, pos, start);
            chunks.push(Chunk::Same(same));
            proof {
                lemma_cols_push(cs0, ChunkView::Same(av.subrange(pos as int, start as int)));
                assert(chunks@.map_values(|c: Chunk<T>| c@) =~= cs0.push(ChunkView::Same(av.subrange(pos as int, start as int))));
                assert(av.subrange(0, pos as int) + av.subrange(pos as int, start as int) =~= av.subrange(0, start as int));
            }
        } else {
            proof {
                assert(av.subrange(pos as int, start as int) =~= Seq::<T::V>::empty());
                assert(ours_col(cs0) + Seq::<T::V>::empty() =~= ours_col(cs0));
                assert(theirs_col(cs0) + Seq::<T::V>::empty() =~= theirs_col(cs0));
            }
        }
        let ghost cs1 = chunks@.map_values(|c: Chunk<T>| c@);
        let i0: usize = i;
        let j0: usize = j;
        let (end, ni, nj) = cluster(&ho, &ht, i0, j0, start, base.len());
        i = ni;
        j = nj;
        let mut bpart: Vec<T> = Vec::new();
        extend_from(&mut bpart, base, start, end);
        let oslice = vstd::slice::slice_subrange(ho.as_slice(), i0, i);
        let tslice = vstd::slice::slice_subrange(ht.as_slice(), j0, j);
        proof {
            assert(hunk_views(oslice@) =~= vo.subrange(i0 as int, i as int));
            assert(hunk_views(tslice@) =~= vt.subrange(j0 as int, j as int));
        }
        let opart = side_view(base, oslice, start, end);
        let tpart = side_view(base, tslice, start, end);
        let ghost so = side(av, vo.subrange(i0 as int, i as int), start as int, start as int, end as int);
        let ghost st = side(av, vt.subrange(j0 as int, j as int), start as int, start as int, end as int);
        let ghost cv = ChunkView::Changed { base: av.subrange(start as int, end as int), ours: so, theirs: st };
        chunks.push(Chunk::Changed { base: bpart, ours: opart, theirs: tpart });
        let ghost cs2 = chunks@.map_values(|c: Chunk<T>| c@);
        assert({
            let ro = rebuild(av, vo.subrange(i as int, vo.len() as int), end as int, base.len() as int);
            let rt = rebuild(av, vt.subrange(j as int, vt.len() as int), end as int, base.len() as int);
            &&& base_col(cs2) == av.subrange(0, end as int)
            &&& ours_col(cs2) + ro == vals(ours@)
            &&& theirs_col(cs2) + rt == vals(theirs@)
            &&& (ho@.len() == 0 ==> ours_untouched(cs2))
            &&& (ht@.len() == 0 ==> theirs_untouched(cs2))
            &&& merge_progress(av, vo, vt, cs2, i as int, j as int, end as int)
        }) by {
            let cs2x = lemma_progress_step(av, vo, vt, cs0, i0 as int, i as int, j0 as int, j as int, pos0, start as int, end as int);
            lemma_merge_step(av, vo, i0 as int, i as int, pos as int, start as int, end as int);
            lemma_merge_step(av, vt, j0 as int, j as int, pos as int, start as int, end as int);
            lemma_cols_push(cs1, cv);
            assert(cs2 =~= cs1.push(cv));
            assert(cs1 == (if start > pos0 { cs0.push(ChunkView::Same(av.subrange(pos0, start as int))) } else { cs0 }));
            assert(cs2 == cs2x);
            assert(av.subrange(0, start as int) + av.subrange(start as int, end as int) =~= av.subrange(0, end as int));
            let ro = rebuild(av, vo.subrange(i as int, vo.len() as int), end as int, base.len() as int);
            let rt = rebuild(av, vt.subrange(j as int, vt.len() as int), end as int, base.len() as int);
            assert(ours_col(cs0) + (av.subrange(pos as int, start as int) + so + ro) =~= ours_col(cs2) + ro);
            assert(theirs_col(cs0) + (av.subrange(pos as int, start as int) + st + rt) =~= theirs_col(cs2) + rt);
            if ho@.len() == 0 {
                assert(vo.subrange(i0 as int, i as int).len() == 0);
            }
            if ht@.len() == 0 {
                assert(vt.subrange(j0 as int, j as int).len() == 0);
            }
        }
        pos = end;
    }
    let ghost cs0 = chunks@.map_values(|c: Chunk<T>| c@);
    proof {
        assert(vo.subrange(i as int, vo.len() as int).len() == 0);
        assert(vt.subrange(j as int, vt.len() as int).len() == 0);
        lemma_progress_finish(av, vo, vt, cs0, pos as int);
    }
    if pos < base.len() {
        let mut same: Vec<T> = Vec::new();
        extend_from(&mut same, base, pos, base.len());
        chunks.push(Chunk::Same(same));
        proof {
            lemma_cols_push(cs0, ChunkView::Same(av.subrange(pos as int, base.len() as int)));
            assert(chunks@.map_values(|c: Chunk<T>| c@) =~= cs0.push(ChunkView::Same(av.subrange(pos as int, base.len() as int))));
            assert(av.subrange(0, pos as int) + av.subrange(pos as int, base.len() as int) =~= av);
        }
    } else {
        proof {
            assert(av.subrange(0, pos as int) =~= av);
            assert(av.subrange(pos as int, pos as int) =~= Seq::<T::V>::empty());
            assert(ours_col(cs0) + Seq::<T::V>::empty() =~= ours_col(cs0));
            assert(theirs_col(cs0) + Seq::<T::V>::empty() =~= theirs_col(cs0));
        }
    }
    let m = Merge3 { chunks };
    proof {
        assert(m@ == (if pos < av.len() { cs0.push(ChunkView::Same(av.subrange(pos as int, av.len() as int))) } else { cs0 }));
        assert(aligned(av, vo, vt, m@));
        if vals(ours@) == vals(theirs@) {
            assert(vo == vt);
        }
    }
    m
}

/// A cluster of hunks between `start` and `end`, after base elements from
/// `pos`, splits the rebuild of one side there.
proof fn lemma_merge_step<V>(base: Seq<V>, hv: Seq<HunkView<V>>, i0: int, i: int, pos: int, start: int, end: int)
    requires
        0 <= i0 <= i <= hv.len(),
        0 <= pos <= start <= end <= base.len(),
        hunks_sorted(hv, base.len() as int),
        hunks_within(hv.subrange(i0, i), start, end),
        i0 < hv.len() ==> hv[i0].start >= start,
        i < hv.len() ==> hv[i].start > end,
    ensures
        rebuild(base, hv.subrange(i0, hv.len() as int), pos, base.len() as int) == base.subrange(pos, start) + side(
            base,
            hv.subrange(i0, i),
            start,
            start,
            end,
        ) + rebuild(base, hv.subrange(i, hv.len() as int), end, base.len() as int),
{
    let c = hv.subrange(i0, i);
    let r = hv.subrange(i, hv.len() as int);
    assert(hv.subrange(i0, hv.len() as int) =~= c + r);
    if c.len() > 0 {
        assert(c.last() == hv[i - 1]);
        assert(c[0] == hv[i0]);
        assert(c.last().end <= end);
    }
    if r.len() > 0 {
        assert(r[0] == hv[i]);
    }
    lemma_rebuild_split(base, c, r, pos, end, base.len() as int);
    lemma_rebuild_prepend(base, c, pos, start, end);
    lemma_side_within(base, c, start, start, end);
}

/// The merged sequence, if no region conflicts.
pub open spec fn clean_spec<V>(cs: Seq<ChunkView<V>>) -> Option<Seq<V>>
    decreases cs.len(),
{
    if cs.len() == 0 {
        Some(seq![])
    } else {
        match clean_spec(cs.drop_last()) {
            None => None,
            Some(p) => match cs.last() {
                ChunkView::Same(v) => Some(p + v),
                ChunkView::Changed { base: _, ours, theirs } => match kind_of(cs.last()) {
                    Kind::Conflict => None,
                    Kind::OnlyTheirs => Some(p + theirs),
                    _ => Some(p + ours),
                },
            },
        }
    }
}

/// Some region conflicts.
pub open spec fn has_conflict<V>(cs: Seq<ChunkView<V>>) -> bool {
    exists|i: int| 0 <= i < cs.len() && kind_of(#[trigger] cs[i]) == Kind::Conflict
}

proof fn lemma_clean_none_extends<V>(cs: Seq<ChunkView<V>>, k: int)
    requires
        0 <= k <= cs.len(),
        clean_spec(cs.subrange(0, k)) is None,
    ensures
        clean_spec(cs) is None,
    decreases cs.len() - k,
{
    if k < cs.len() {
        assert(cs.subrange(0, k + 1).drop_last() =~= cs.subrange(0, k));
        lemma_clean_none_extends(cs, k + 1);
    } else {
        assert(cs.subrange(0, k) =~= cs);
    }
}

/// A cluster holding hunks of both sides has a hunk of ours that overlaps
/// or touches one of theirs.
proof fn lemma_cluster_one_sided<V>(ho: Seq<HunkView<V>>, ht: Seq<HunkView<V>>, len: int, a0: int, a1: int, b0: int, b1: int, s: int, e: int)
    requires
        hunks_sorted(ho, len),
        hunks_sorted(ht, len),
        cluster_of(ho, a0, a1, s, e),
        cluster_of(ht, b0, b1, s, e),
        forall|x: int| s <= x < e ==> #[trigger] span_covered(ho, ht, a0, a1, b0, b1, x),
        forall|p: int, q: int| 0 <= p < ho.len() && 0 <= q < ht.len() ==> #[trigger] ho[p].end < #[trigger] ht[q].start || ht[q].end < ho[p].start,
    ensures
        a1 == a0 || b1 == b0,
{
    if a1 > a0 && b1 > b0 {
        let t = ht[b0].start;
        let u = ho[a0].start;
        assert(ho[a0].end < ht[b0].start || ht[b0].end < ho[a0].start);
        if t > s {
            assert(span_covered(ho, ht, a0, a1, b0, b1, t - 1));
            if exists|q: int| a0 <= q < a1 && (#[trigger] ho[q]).start <= t - 1 && t <= ho[q].end {
                let q = choose|q: int| a0 <= q < a1 && (#[trigger] ho[q]).start <= t - 1 && t <= ho[q].end;
                assert(ho[q].end < ht[b0].start || ht[b0].end < ho[q].start);
            } else {
                let q = choose|q: int| b0 <= q < b1 && (#[trigger] ht[q]).start <= t - 1 && t <= ht[q].end;
                if q > b0 {
                    assert(ht[b0].end <= ht[q].start);
                }
            }
        } else {
            assert(u > s);
            assert(span_covered(ho, ht, a0, a1, b0, b1, u - 1));
            if exists|q: int| b0 <= q < b1 && (#[trigger] ht[q]).start <= u - 1 && u <= ht[q].end {
                let q = choose|q: int| b0 <= q < b1 && (#[trigger] ht[q]).start <= u - 1 && u <= ht[q].end;
                assert(ho[a0].end < ht[q].start || ht[q].end < ho[a0].start);
            } else {
                let q = choose|q: int| a0 <= q < a1 && (#[trigger] ho[q]).start <= u - 1 && u <= ho[q].end;
                if q > a0 {
                    assert(ho[a0].end <= ho[q].start);
                }
            }
        }
    }
}

/// Changes in different places merge cleanly: when no hunk of our side
/// overlaps or touches a hunk of theirs, every changed region is changed
/// on one side only, nothing conflicts and the merge is clean.
pub proof fn law_separate_changes_merge_cleanly<V>(base: Seq<V>, ho: Seq<HunkView<V>>, ht: Seq<HunkView<V>>, cs: Seq<ChunkView<V>>)
    requires
        hunks_sorted(ho, base.len() as int),
        hunks_sorted(ht, base.len() as int),
        aligned(base, ho, ht, cs),
        forall|p: int, q: int| 0 <= p < ho.len() && 0 <= q < ht.len() ==> #[trigger] ho[p].end < #[trigger] ht[q].start || ht[q].end < ho[p].start,
    ensures
        !has_conflict(cs),
        clean_spec(cs) is Some,
{
    reveal(aligned);
    assert forall|c: int| 0 <= c < cs.len() implies kind_of(#[trigger] cs[c]) != Kind::Conflict by {
        assert(chunk_ok(base, ho, ht, cs[c], chunk_start(cs, c)));
        match cs[c] {
            ChunkView::Same(_) => {},
            ChunkView::Changed { base: b, ours: o, theirs: t } => {
                let s = chunk_start(cs, c);
                let (a0, a1, b0, b1) = choose|a0: int, a1: int, b0: int, b1: int| #[trigger] changed_ok(base, ho, ht, b, o, t, s, a0, a1, b0, b1);
                lemma_cluster_one_sided(ho, ht, base.len() as int, a0, a1, b0, b1, s, s + b.len());
                if a1 == a0 {
                    assert(ho.subrange(a0, a1).len() == 0);
                    assert(o == b);
                } else {
                    assert(ht.subrange(b0, b1).len() == 0);
                    assert(t == b);
                }
            },
        }
    }
    law_clean_unless_conflict(cs);
}

/// Regions where both sides agree merge to our column.
proof fn lemma_clean_when_sides_agree<V>(cs: Seq<ChunkView<V>>)
    requires
        forall|c: int| 0 <= c < cs.len() ==> (#[trigger] cs[c] matches ChunkView::Changed { base: _, ours, theirs } ==> ours == theirs),
    ensures
        clean_spec(cs) == Some(ours_col(cs)),
    decreases cs.len(),
{
    if cs.len() > 0 {
        let d = cs.drop_last();
        assert forall|c: int| 0 <= c < d.len() implies (#[trigger] d[c] matches ChunkView::Changed { base: _, ours, theirs } ==> ours == theirs) by {
            assert(d[c] == cs[c]);
        }
        lemma_clean_when_sides_agree(d);
        assert(cs.last() == cs[cs.len() - 1]);
    }
}

/// Identical changes on both sides merge cleanly, to that change: aligned
/// against the same hunks on both sides, every changed region is changed
/// identically, and the clean merge is our column.
pub proof fn law_identical_changes_merge_cleanly<V>(base: Seq<V>, hs: Seq<HunkView<V>>, cs: Seq<ChunkView<V>>)
    requires
        hunks_sorted(hs, base.len() as int),
        aligned(base, hs, hs, cs),
    ensures
        !has_conflict(cs),
        clean_spec(cs) == Some(ours_col(cs)),
{
    reveal(aligned);
    assert forall|c: int| 0 <= c < cs.len() implies (#[trigger] cs[c] matches ChunkView::Changed { base: _, ours, theirs } ==> ours
        == theirs) by {
        assert(chunk_ok(base, hs, hs, cs[c], chunk_start(cs, c)));
        match cs[c] {
            ChunkView::Same(_) => {},
            ChunkView::Changed { base: b, ours: o, theirs: t } => {
                let s = chunk_start(cs, c);
                let e = s + b.len();
                let (a0, a1, b0, b1) = choose|a0: int, a1: int, b0: int, b1: int| #[trigger] changed_ok(base, hs, hs, b, o, t, s, a0, a1, b0, b1);
                if a0 < b0 {
                    assert(hs[a0].end < s);
                    if a0 < a1 {
                        assert(s <= hs[a0].start);
                    } else {
                        assert(b0 < b1);
                        assert(a1 <= b0);
                        assert(hs[b0].start > e);
                    }
                }
                if b0 < a0 {
                    assert(hs[b0].end < s);
                    if b0 < b1 {
                        assert(s <= hs[b0].start);
                    } else {
                        assert(b1 <= a0);
                        assert(hs[a0].start > e);
                    }
                }
                assert(a0 == b0);
                if a1 < b1 {
                    assert(hs[a1].start > e);
                    assert(hs[a1].end <= e);
                }
                if b1 < a1 {
                    assert(hs[b1].start > e);
                    assert(hs[b1].end <= e);
                }
                assert(a1 == b1);
            },
        }
    }
    lemma_clean_when_sides_agree(cs);
    law_clean_unless_conflict(cs);
}

/// The alignment with our and their sides swapped.
pub open spec fn mirror<V>(cs: Seq<ChunkView<V>>) -> Seq<ChunkView<V>> {
    cs.map_values(|c: ChunkView<V>| match c {
        ChunkView::Same(v) => ChunkView::Same(v),
        ChunkView::Changed { base, ours, theirs } => ChunkView::Changed { base, ours: theirs, theirs: ours },
    })
}

proof fn lemma_mirror_base_col<V>(cs: Seq<ChunkView<V>>)
    ensures
        base_col(mirror(cs)) == base_col(cs),
    decreases cs.len(),
{
    if cs.len() > 0 {
        lemma_mirror_base_col(cs.drop_last());
        assert(mirror(cs).drop_last() =~= mirror(cs.drop_last()));
    }
}

/// Merging is symmetric: an alignment of `base` against our hunks `ho` and
/// their hunks `ht`, with each changed region's sides swapped, is an
/// alignment against `ht` and `ho`; same regions stay as they are.
pub proof fn law_alignment_mirrors<V>(base: Seq<V>, ho: Seq<HunkView<V>>, ht: Seq<HunkView<V>>, cs: Seq<ChunkView<V>>)
    requires
        aligned(base, ho, ht, cs),
    ensures
        aligned(base, ht, ho, mirror(cs)),
{
    reveal(aligned);
    let mc = mirror(cs);
    assert forall|c: int| 0 <= c < mc.len() implies chunk_ok(base, ht, ho, #[trigger] mc[c], chunk_start(mc, c)) by {
        assert(chunk_ok(base, ho, ht, cs[c], chunk_start(cs, c)));
        assert(mc.take(c) =~= mirror(cs.take(c)));
        lemma_mirror_base_col(cs.take(c));
        assert(chunk_start(mc, c) == chunk_start(cs, c));
        let s = chunk_start(cs, c);
        match cs[c] {
            ChunkView::Same(_) => {},
            ChunkView::Changed { base: b, ours: o, theirs: t } => {
                let (a0, a1, b0, b1) = choose|a0: int, a1: int, b0: int, b1: int| #[trigger] changed_ok(base, ho, ht, b, o, t, s, a0, a1, b0, b1);
                assert forall|x: int| s <= x <= s + b.len() implies #[trigger] point_covered(ht, ho, b0, b1, a0, a1, x) by {
                    assert(point_covered(ho, ht, a0, a1, b0, b1, x));
                }
                assert forall|x: int| s <= x < s + b.len() implies #[trigger] span_covered(ht, ho, b0, b1, a0, a1, x) by {
                    assert(span_covered(ho, ht, a0, a1, b0, b1, x));
                }
                assert(changed_ok(base, ht, ho, b, t, o, s, b0, b1, a0, a1));
                assert(changed_cluster(base, ht, ho, b, t, o, s));
            },
        }
    }
    assert forall|c: int, d: int| 0 <= c && d == c + 1 && d < mc.len() implies (#[trigger] mc[c] is Same) != (#[trigger] mc[d] is Same) by {
        assert((cs[c] is Same) != (cs[d] is Same));
    }
}

/// A merge is clean exactly when none of its regions conflicts.
pub proof fn law_clean_unless_conflict<V>(cs: Seq<ChunkView<V>>)
    ensures
        (clean_spec(cs) is None) == has_conflict(cs),
    decreases cs.len(),
{
    if cs.len() > 0 {
        let d = cs.drop_last();
        law_clean_unless_conflict(d);
        if has_conflict(d) {
            let i = choose|i: int| 0 <= i < d.len() && kind_of(#[trigger] d[i]) == Kind::Conflict;
            assert(cs[i] == d[i]);
        }
        if has_conflict(cs) {
            let i = choose|i: int| 0 <= i < cs.len() && kind_of(#[trigger] cs[i]) == Kind::Conflict;
            if i < d.len() {
                assert(d[i] == cs[i]);
            }
        }
        assert(kind_of(cs[cs.len() - 1]) == kind_of(cs.last()));
    }
}

/// Where our side is untouched (as `merge3` promises when ours equals the
/// base), the merge is clean and gives their side.
pub proof fn law_one_sided_change_is_clean<V>(cs: Seq<ChunkView<V>>)
    requires
        ours_untouched(cs),
    ensures
        clean_spec(cs) == Some(theirs_col(cs)),
    decreases cs.len(),
{
    if cs.len() > 0 {
        let d = cs.drop_last();
        assert forall|q: int| 0 <= q < d.len() implies ((#[trigger] d[q]) matches ChunkView::Changed { base, ours, theirs: _ }
            ==> ours == base) by {
            assert(d[q] == cs[q]);
        }
        law_one_sided_change_is_clean(d);
        assert(cs[cs.len() - 1] == cs.last());
    }
}

/// Where their side is untouched (as `merge3` promises when theirs equals
/// the base), the merge is clean and gives our side.
pub proof fn law_other_sided_change_is_clean<V>(cs: Seq<ChunkView<V>>)
    requires
        theirs_untouched(cs),
    ensures
        clean_spec(cs) == Some(ours_col(cs)),
    decreases cs.len(),
{
    if cs.len() > 0 {
        let d = cs.drop_last();
        assert forall|q: int| 0 <= q < d.len() implies ((#[trigger] d[q]) matches ChunkView::Changed { base, ours: _, theirs }
            ==> theirs == base) by {
            assert(d[q] == cs[q]);
        }
        law_other_sided_change_is_clean(d);
        assert(cs[cs.len() - 1] == cs.last());
    }
}

/// What `merge3` promises makes the merge clean when no side really
/// differs: a side equal to the base gives the other side, and two equal
/// sides give that side.
pub proof fn law_merge3_clean_cases<V>(base: Seq<V>, ours: Seq<V>, theirs: Seq<V>, cs: Seq<ChunkView<V>>)
    requires
        ours_col(cs) == ours,
        theirs_col(cs) == theirs,
        ours == base ==> ours_untouched(cs),
        theirs == base ==> theirs_untouched(cs),
        exists|ho: Seq<HunkView<V>>, ht: Seq<HunkView<V>>| #![trigger aligned(base, ho, ht, cs)] {
            &&& minimal_hunks(base, ours, ho)
            &&& minimal_hunks(base, theirs, ht)
            &&& (ours == theirs ==> ho == ht)
            &&& aligned(base, ho, ht, cs)
        },
    ensures
        ours == base ==> clean_spec(cs) == Some(theirs),
        theirs == base ==> clean_spec(cs) == Some(ours),
        ours == theirs ==> clean_spec(cs) == Some(ours),
{
    if ours == base {
        law_one_sided_change_is_clean(cs);
    }
    if theirs == base {
        law_other_sided_change_is_clean(cs);
    }
    if ours == theirs {
        let (ho, ht) = choose|ho: Seq<HunkView<V>>, ht: Seq<HunkView<V>>| #![trigger aligned(base, ho, ht, cs)] {
            &&& minimal_hunks(base, ours, ho)
            &&& minimal_hunks(base, theirs, ht)
            &&& (ours == theirs ==> ho == ht)
            &&& aligned(base, ho, ht, cs)
        };
        law_identical_changes_merge_cleanly(base, ho, cs);
    }
}

impl<T: Token> Merge3<T> {
    /// Some region conflicts.
    pub fn has_conflicts(&self) -> (r: bool)
        ensures
            r == has_conflict(self@),
    {
        let mut k: usize = 0;
        while k < self.chunks.len()
            invariant
                k <= self.chunks@.len(),
                forall|q: int| 0 <= q < k ==> kind_of(#[trigger] self@[q]) != Kind::Conflict,
            decreases self.chunks@.len() - k,
        {
            if self.chunks[k].kind() == Kind::Conflict {
                assert(kind_of(self@[k as int]) == Kind::Conflict);
                return true;
            }
            k = k + 1;
        }
        false
    }

    /// The merged sequence if there is no conflict.
    pub fn clean(&self) -> (r: Option<Vec<T>>)
        ensures
            match clean_spec(self@) {
                None => r is None,
                Some(v) => r is Some && vals(r->Some_0@) == v,
            },
    {
        let ghost cs = self@;
        let mut out: Vec<T> = Vec::new();
        let mut k: usize = 0;
        assert(cs.subrange(0, 0) =~= Seq::<ChunkView<T::V>>::empty());
        while k < self.chunks.len()
            invariant
                cs == self@,
                k <= self.chunks@.len(),
                clean_spec(cs.subrange(0, k as int)) == Some(vals(out@)),
            decreases self.chunks@.len() - k,
        {
            let ghost before = vals(out@);
            let c = &self.chunks[k];
            let kind = c.kind();
            proof {
                assert(cs.subrange(0, k + 1).drop_last() =~= cs.subrange(0, k as int));
                assert(cs.subrange(0, k + 1).last() == cs[k as int]);
                assert(cs[k as int] == c@);
            }
            match c {
                Chunk::Same(v) => {
                    extend_from(&mut out, v.as_slice(), 0, v.len());
                    assert(vals(v@).subrange(0, v@.len() as int) =~= vals(v@));
                },
                Chunk::Changed { base: _, ours, theirs } => {
                    if kind == Kind::Conflict {
                        proof {
                            lemma_clean_none_extends(cs, k + 1);
                        }
                        return None;
                    } else if kind == Kind::OnlyTheirs {
                        extend_from(&mut out, theirs.as_slice(), 0, theirs.len());
                        assert(vals(theirs@).subrange(0, theirs@.len() as int) =~= vals(theirs@));
                    } else {
                        extend_from(&mut out, ours.as_slice(), 0, ours.len());
                        assert(vals(ours@).subrange(0, ours@.len() as int) =~= vals(ours@));
                    }
                },
            }
            k = k + 1;
        }
        assert(cs.subrange(0, cs.len() as int) =~= cs);
        Some(out)
    }
}

/// Merges text line by line. Conflicts can be rendered with markers by
/// `render_with_markers`.
pub fn merge_text(base: &[u8], ours: &[u8], theirs: &[u8]) -> (m: Merge3<Vec<u8>>)
    requires
        2 * (base.len() + ours.len()) + 2 <= isize::MAX,
        2 * (base.len() + theirs.len()) + 2 <= isize::MAX,
    ensures
        base_col(m@) == lines(base@),
        ours_col(m@) == lines(ours@),
        theirs_col(m@) == lines(theirs@),
        ours@ == base@ ==> ours_untouched(m@),
        theirs@ == base@ ==> theirs_untouched(m@),
        exists|ho: Seq<HunkView<Seq<u8>>>, ht: Seq<HunkView<Seq<u8>>>| #![trigger aligned(lines(base@), ho, ht, m@)] {
            &&& minimal_hunks(lines(base@), lines(ours@), ho)
            &&& minimal_hunks(lines(base@), lines(theirs@), ht)
            &&& (lines(ours@) == lines(theirs@) ==> ho == ht)
            &&& aligned(lines(base@), ho, ht, m@)
        },
{
    let lb = line_vecs(base);
    let lo = line_vecs(ours);
    let lt = line_vecs(theirs);
    proof {
        lemma_lines_len(base@, 0);
        lemma_lines_len(ours@, 0);
        lemma_lines_len(theirs@, 0);
    }
    merge3(lb.as_slice(), lo.as_slice(), lt.as_slice())
}

/// A conflict marker line: seven `c`, a space, the label, a newline.
pub open spec fn marker_line(c: u8, label: Seq<u8>) -> Seq<u8> {
    Seq::new(7, |i: int| c) + seq![32u8] + label + seq![10u8]
}

/// The separator between the two sides of a conflict.
pub open spec fn separator_line() -> Seq<u8> {
    Seq::new(7, |i: int| 61u8) + seq![10u8]
}

/// A side of a conflict: its lines, with a newline added if the last one
/// lacks it.
pub open spec fn side_text(side: Seq<Seq<u8>>) -> Seq<u8> {
    flatten(side) + if side.len() > 0 && !(side.last().len() > 0 && side.last().last() == 10) {
        seq![10u8]
    } else {
        seq![]
    }
}

/// What one region renders as.
pub open spec fn render_chunk(c: ChunkView<Seq<u8>>, ours_label: Seq<u8>, theirs_label: Seq<u8>) -> Seq<u8> {
    match c {
        ChunkView::Same(v) => flatten(v),
        ChunkView::Changed { base: _, ours, theirs } => match kind_of(c) {
            Kind::Conflict => marker_line(60, ours_label) + side_text(ours) + separator_line() + side_text(theirs)
                + marker_line(62, theirs_label),
            Kind::OnlyTheirs => flatten(theirs),
            _ => flatten(ours),
        },
    }
}

/// The merged text with markers around each conflict.
pub open spec fn render_spec(cs: Seq<ChunkView<Seq<u8>>>, ours_label: Seq<u8>, theirs_label: Seq<u8>) -> Seq<u8>
    decreases cs.len(),
{
    if cs.len() == 0 {
        seq![]
    } else {
        render_spec(cs.drop_last(), ours_label, theirs_label) + render_chunk(cs.last(), ours_label, theirs_label)
    }
}

/// Appends each line.
fn append_lines(out: &mut Vec<u8>, ls: &Vec<Vec<u8>>)
    ensures
        final(out)@ == old(out)@ + flatten(vals(ls@)),
{
    let mut k: usize = 0;
    assert(vals(ls@).subrange(0, ls@.len() as int) =~= vals(ls@));
    while k < ls.len()
        invariant
            k <= ls.len(),
            old(out)@ + flatten(vals(ls@)) == out@ + flatten(vals(ls@).subrange(k as int, ls@.len() as int)),
        decreases ls.len() - k,
    {
        let ghost rest = vals(ls@).subrange(k as int, ls@.len() as int);
        assert(rest[0] == ls@[k as int]@);
        assert(rest.drop_first() =~= vals(ls@).subrange(k + 1, ls@.len() as int));
        let ghost before = out@;
        crate::bytes::append_bytes(out, ls[k].as_slice());
        assert(before + (ls@[k as int]@ + flatten(rest.drop_first())) =~= out@ + flatten(rest.drop_first()));
        k = k + 1;
    }
    assert(vals(ls@).subrange(ls@.len() as int, ls@.len() as int) =~= Seq::<Seq<u8>>::empty());
    assert(out@ + Seq::<u8>::empty() =~= out@);
}

/// Appends a marker line.
fn push_marker(out: &mut Vec<u8>, c: u8, label: &[u8])
    ensures
        final(out)@ == old(out)@ + marker_line(c, label@),
{
    let mut k: usize = 0;
    while k < 7
        invariant
            k <= 7,
            out@ == old(out)@ + Seq::new(k as nat, |i: int| c),
        decreases 7 - k,
    {
        out.push(c);
        k = k + 1;
        assert(out@ =~= old(out)@ + Seq::new(k as nat, |i: int| c));
    }
    out.push(32);
    crate::bytes::append_bytes(out, label);
    out.push(10);
    assert(out@ =~= old(out)@ + marker_line(c, label@));
}

/// Appends one side of a conflict.
fn push_side(out: &mut Vec<u8>, side: &Vec<Vec<u8>>)
    ensures
        final(out)@ == old(out)@ + side_text(vals(side@)),
{
    append_lines(out, side);
    let n = side.len();
    if n > 0 && !(side[n - 1].len() > 0 && side[n - 1][side[n - 1].len() - 1] == 10) {
        out.push(10);
        assert(vals(side@).last() == side@[n - 1]@);
        assert(out@ =~= old(out)@ + side_text(vals(side@)));
    } else {
        proof {
            if n > 0 {
                assert(vals(side@).last() == side@[n - 1]@);
            }
        }
        assert(out@ =~= old(out)@ + side_text(vals(side@)));
    }
}

/// The merged text with `<<<<<<<` / `=======` / `>>>>>>>` markers around
/// each conflict. A conflicting side whose last line lacks a newline gets
/// one so the markers stay on their own lines.
pub fn render_with_markers(m: &Merge3<Vec<u8>>, ours_label: &str, theirs_label: &str) -> (r: Vec<u8>)
    ensures
        r@ == render_spec(m@, ours_label.spec_bytes(), theirs_label.spec_bytes()),
{
    let ghost cs = m@;
    let ol = ours_label.as_bytes();
    let tl = theirs_label.as_bytes();
    let mut out: Vec<u8> = Vec::new();
    let mut k: usize = 0;
    assert(cs.subrange(0, 0) =~= Seq::<ChunkView<Seq<u8>>>::empty());
    while k < m.chunks.len()
        invariant
            cs == m@,
            ol@ == ours_label.spec_bytes(),
            tl@ == theirs_label.spec_bytes(),
            k <= m.chunks@.len(),
            out@ == render_spec(cs.subrange(0, k as int), ol@, tl@),
        decreases m.chunks@.len() - k,
    {
        let c = &m.chunks[k];
        let kind = c.kind();
        proof {
            assert(cs.subrange(0, k + 1).drop_last() =~= cs.subrange(0, k as int));
            assert(cs.subrange(0, k + 1).last() == cs[k as int]);
            assert(cs[k as int] == c@);
        }
        let ghost before = out@;
        match c {
            Chunk::Same(v) => append_lines(&mut out, v),
            Chunk::Changed { base: _, ours, theirs } => {
                if kind == Kind::Conflict {
                    push_marker(&mut out, 60, ol);
                    push_side(&mut out, ours);
                    let mut q: usize = 0;
                    while q < 7
                        invariant
                            q <= 7,
                            out@ == before + marker_line(60, ol@) + side_text(vals(ours@)) + Seq::new(q as nat, |i: int| 61u8),
                        decreases 7 - q,
                    {
                        out.push(61);
                        q = q + 1;
                        assert(out@ =~= before + marker_line(60, ol@) + side_text(vals(ours@)) + Seq::new(q as nat, |i: int| 61u8));
                    }
                    out.push(10);
                    push_side(&mut out, theirs);
                    push_marker(&mut out, 62, tl);
                    assert(out@ =~= before + (marker_line(60, ol@) + side_text(vals(ours@)) + separator_line() + side_text(vals(theirs@))
                        + marker_line(62, tl@)));
                } else if kind == Kind::OnlyTheirs {
                    append_lines(&mut out, theirs);
                } else {
                    append_lines(&mut out, ours);
                }
            },
        }
        k = k + 1;
    }
    assert(cs.subrange(0, cs.len() as int) =~= cs);
    out
}

proof fn lemma_flatten_concat(a: Seq<Seq<u8>>, b: Seq<Seq<u8>>)
    ensures
        flatten(a + b) == flatten(a) + flatten(b),
    decreases a.len(),
{
    if a.len() == 0 {
        assert(a + b =~= b);
        assert(Seq::<u8>::empty() + flatten(b) =~= flatten(b));
    } else {
        assert((a + b).drop_first() =~= a.drop_first() + b);
        assert((a + b)[0] == a[0]);
        lemma_flatten_concat(a.drop_first(), b);
        assert(a[0] + (flatten(a.drop_first()) + flatten(b)) =~= (a[0] + flatten(a.drop_first())) + flatten(b));
    }
}

/// Without conflicts, the rendered text is exactly the clean merge.
pub proof fn law_render_without_conflicts_is_clean(cs: Seq<ChunkView<Seq<u8>>>, ours_label: Seq<u8>, theirs_label: Seq<u8>)
    requires
        clean_spec(cs) is Some,
    ensures
        render_spec(cs, ours_label, theirs_label) == flatten(clean_spec(cs)->Some_0),
    decreases cs.len(),
{
    if cs.len() > 0 {
        let d = cs.drop_last();
        law_render_without_conflicts_is_clean(d, ours_label, theirs_label);
        let p = clean_spec(d)->Some_0;
        match cs.last() {
            ChunkView::Same(v) => lemma_flatten_concat(p, v),
            ChunkView::Changed { base: _, ours, theirs } => {
                lemma_flatten_concat(p, ours);
                lemma_flatten_concat(p, theirs);
            },
        }
    }
}


/// A changed region whose two sides differ from each other and from the
/// base is a conflict, and only such a region is: a merge holding one has
/// a conflict and no clean result.
pub proof fn law_both_sides_changed_differently_conflict<V>(cs: Seq<ChunkView<V>>, i: int)
    requires
        0 <= i < cs.len(),
    ensures
        (kind_of(cs[i]) == Kind::Conflict) <==> (cs[i] matches ChunkView::Changed { base, ours, theirs } && ours != theirs
            && ours != base && theirs != base),
        (kind_of(cs[i]) == Kind::Both) <==> (cs[i] matches ChunkView::Changed { base, ours, theirs } && ours == theirs),
        (kind_of(cs[i]) == Kind::OnlyOurs) <==> (cs[i] matches ChunkView::Changed { base, ours, theirs } && ours != theirs
            && theirs == base),
        (kind_of(cs[i]) == Kind::OnlyTheirs) <==> (cs[i] matches ChunkView::Changed { base, ours, theirs } && ours != theirs
            && theirs != base && ours == base),
        (kind_of(cs[i]) == Kind::Same) <==> (cs[i] is Same),
        (cs[i] matches ChunkView::Changed { base, ours, theirs } && ours != theirs && ours != base && theirs != base)
            ==> has_conflict(cs) && clean_spec(cs) is None,
{
    if cs[i] matches ChunkView::Changed { base, ours, theirs } && ours != theirs && ours != base && theirs != base {
        assert(kind_of(cs[i]) == Kind::Conflict);
        law_clean_unless_conflict(cs);
    }
}

} // verus!
