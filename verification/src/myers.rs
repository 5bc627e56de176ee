//! Myers' O(ND) shortest-edit-script diff ("An O(ND) Difference Algorithm and
//! Its Variations", 1986). The result is a `Patch`: a self-contained edit
//! script (inserted elements are carried inside it) that turns `a` into `b`
//! when applied. A patch is computed on demand from two snapshots and is
//! never the stored form of history.

use vstd::prelude::*;
use crate::edit_graph::{
    at_end, diag_ok, edits, furthest, lcs_distance, lemma_dist_edges, lemma_first_end_is_corner,
    lemma_furthest_bounds, lemma_no_end_bound, lemma_snake_diag, lemma_walk_cost, lemma_walk_edge,
    lemma_lcs_trim_prefix, lemma_lcs_trim_suffix, lemma_walk_concat, lemma_walk_keeps,
    lemma_walk_shift, lemma_dist_diag, lemma_dist_step, dist, no_end_before, on_round, snake, start, walk, Step,
};

verus! {

/// An element that can be compared and copied, by value.
pub trait Token: View + Sized {
    /// Equality of values.
    fn same(&self, other: &Self) -> (r: bool)
        ensures
            r == (self@ == other@),
    ;

    /// A copy with the same value.
    fn duplicate(&self) -> (r: Self)
        ensures
            r@ == self@,
    ;
}

impl Token for char {
    fn same(&self, other: &Self) -> (r: bool) {
        *self == *other
    }

    fn duplicate(&self) -> (r: Self) {
        *self
    }
}

impl Token for u8 {
    fn same(&self, other: &Self) -> (r: bool) {
        *self == *other
    }

    fn duplicate(&self) -> (r: Self) {
        *self
    }
}

impl Token for Vec<u8> {
    fn same(&self, other: &Self) -> (r: bool) {
        crate::bytes::bytes_eq(self.as_slice(), other.as_slice())
    }

    fn duplicate(&self) -> (r: Self) {
        let r = crate::bytes::copy_range(self.as_slice(), 0, self.len());
        assert(self@.subrange(0, self@.len() as int) =~= self@);
        r
    }
}

/// The values of a sequence of tokens.
pub open spec fn vals<T: View>(s: Seq<T>) -> Seq<T::V> {
    s.map_values(|t: T| t@)
}

/// One run of an edit script.
#[derive(Debug, Clone, PartialEq, Eq)]
pub enum PatchOp<T> {
    /// Keep the next `n` elements of the source unchanged.
    Equal(usize),
    /// Drop the next `n` elements of the source.
    Delete(usize),
    /// Emit these elements.
    Insert(Vec<T>),
}

/// One run of an edit script, as a value.
pub enum OpView<V> {
    Equal(nat),
    Delete(nat),
    Insert(Seq<V>),
}

impl<T: View> View for PatchOp<T> {
    type V = OpView<T::V>;

    open spec fn view(&self) -> OpView<T::V> {
        match self {
            PatchOp::Equal(n) => OpView::Equal(*n as nat),
            PatchOp::Delete(n) => OpView::Delete(*n as nat),
            PatchOp::Insert(items) => OpView::Insert(vals(items@)),
        }
    }
}

/// An edit script.
#[derive(Debug, Clone, PartialEq, Eq)]
pub struct Patch<T> {
    pub ops: Vec<PatchOp<T>>,
}

impl<T: View> View for Patch<T> {
    type V = Seq<OpView<T::V>>;

    open spec fn view(&self) -> Seq<OpView<T::V>> {
        self.ops@.map_values(|op: PatchOp<T>| op@)
    }
}

/// Why a patch does not fit a source.
#[derive(Debug, Clone, PartialEq, Eq, Structural)]
pub enum PatchError {
    SourceTooShort { needed: usize, available: usize },
    SourceTooLong { consumed: usize, available: usize },
}

/// Source elements consumed (kept or deleted) by a script.
pub open spec fn consumed<V>(ops: Seq<OpView<V>>) -> nat
    decreases ops.len(),
{
    if ops.len() == 0 {
        0
    } else {
        consumed(ops.drop_last()) + match ops.last() {
            OpView::Equal(n) => n,
            OpView::Delete(n) => n,
            OpView::Insert(_) => 0,
        }
    }
}

/// Elements deleted plus elements inserted.
pub open spec fn distance<V>(ops: Seq<OpView<V>>) -> nat
    decreases ops.len(),
{
    if ops.len() == 0 {
        0
    } else {
        distance(ops.drop_last()) + match ops.last() {
            OpView::Equal(_) => 0,
            OpView::Delete(n) => n,
            OpView::Insert(items) => items.len(),
        }
    }
}

/// The outcome of prefixing `out` to a result.
pub open spec fn prefixed<V>(out: Seq<V>, r: Result<Seq<V>, PatchError>) -> Result<
    Seq<V>,
    PatchError,
> {
    match r {
        Ok(rest) => Ok(out + rest),
        Err(e) => Err(e),
    }
}

/// Applying `ops` to `a` from source position `pos`.
pub open spec fn apply_from<V>(ops: Seq<OpView<V>>, a: Seq<V>, pos: nat) -> Result<
    Seq<V>,
    PatchError,
>
    decreases ops.len(),
{
    if ops.len() == 0 {
        if pos != a.len() {
            Err(PatchError::SourceTooLong { consumed: pos as usize, available: a.len() as usize })
        } else {
            Ok(seq![])
        }
    } else {
        match ops[0] {
            OpView::Equal(n) => if pos + n > a.len() {
                Err(PatchError::SourceTooShort { needed: (pos + n) as usize, available: a.len() as usize })
            } else {
                prefixed(a.subrange(pos as int, (pos + n) as int), apply_from(ops.drop_first(), a, pos + n))
            },
            OpView::Delete(n) => if pos + n > a.len() {
                Err(PatchError::SourceTooShort { needed: (pos + n) as usize, available: a.len() as usize })
            } else {
                apply_from(ops.drop_first(), a, pos + n)
            },
            OpView::Insert(items) => prefixed(items, apply_from(ops.drop_first(), a, pos)),
        }
    }
}

/// The source length a script consumes, its first operation first.
proof fn lemma_consumed_first<V>(ops: Seq<OpView<V>>)
    requires
        ops.len() > 0,
    ensures
        consumed(ops) == consumed(ops.drop_first()) + match ops[0] {
            OpView::Equal(n) => n,
            OpView::Delete(n) => n,
            OpView::Insert(_) => 0,
        },
    decreases ops.len(),
{
    let c0 = match ops[0] {
        OpView::Equal(n) => n,
        OpView::Delete(n) => n,
        OpView::Insert(_) => 0,
    };
    let cl = match ops.last() {
        OpView::Equal(n) => n,
        OpView::Delete(n) => n,
        OpView::Insert(_) => 0,
    };
    assert(consumed(ops) == consumed(ops.drop_last()) + cl);
    if ops.len() == 1 {
        assert(consumed(ops.drop_last()) == 0);
        assert(consumed(ops.drop_first()) == 0);
        assert(ops.last() == ops[0]);
    } else {
        lemma_consumed_first(ops.drop_last());
        assert(ops.drop_first().drop_last() =~= ops.drop_last().drop_first());
        assert(ops.drop_last()[0] == ops[0]);
        assert(ops.drop_first().last() == ops.last());
        assert(consumed(ops.drop_first()) == consumed(ops.drop_first().drop_last()) + cl);
        assert(consumed(ops.drop_last()) == consumed(ops.drop_last().drop_first()) + c0);
    }
}

/// A script that applies to `a` from `pos` consumes exactly the rest of `a`.
proof fn lemma_apply_consumes<V>(ops: Seq<OpView<V>>, a: Seq<V>, pos: nat)
    requires
        apply_from(ops, a, pos) is Ok,
    ensures
        pos + consumed(ops) == a.len(),
    decreases ops.len(),
{
    if ops.len() > 0 {
        lemma_consumed_first(ops);
        match ops[0] {
            OpView::Equal(n) => lemma_apply_consumes(ops.drop_first(), a, pos + n),
            OpView::Delete(n) => lemma_apply_consumes(ops.drop_first(), a, pos + n),
            OpView::Insert(_) => lemma_apply_consumes(ops.drop_first(), a, pos),
        }
    }
}

/// A script that applies to `a` consumes exactly `a`.
pub proof fn law_applied_script_consumes_its_source<V>(ops: Seq<OpView<V>>, a: Seq<V>)
    requires
        apply_spec(ops, a) is Ok,
    ensures
        consumed(ops) == a.len(),
{
    lemma_apply_consumes(ops, a, 0);
}

/// What applying a script to `a` gives: the target, or the first way the
/// script does not fit `a`.
pub open spec fn apply_spec<V>(ops: Seq<OpView<V>>, a: Seq<V>) -> Result<Seq<V>, PatchError> {
    apply_from(ops, a, 0)
}

/// The script that undoes `ops` on `a` (from source position `pos`).
pub open spec fn invert_from<V>(ops: Seq<OpView<V>>, a: Seq<V>, pos: nat) -> Result<
    Seq<OpView<V>>,
    PatchError,
>
    decreases ops.len(),
{
    if ops.len() == 0 {
        Ok(seq![])
    } else {
        match ops[0] {
            OpView::Equal(n) => match invert_from(ops.drop_first(), a, pos + n) {
                Ok(rest) => Ok(seq![OpView::Equal(n)] + rest),
                Err(e) => Err(e),
            },
            OpView::Delete(n) => if pos + n > a.len() {
                Err(PatchError::SourceTooShort { needed: (pos + n) as usize, available: a.len() as usize })
            } else {
                match invert_from(ops.drop_first(), a, pos + n) {
                    Ok(rest) => Ok(seq![OpView::Insert(a.subrange(pos as int, (pos + n) as int))] + rest),
                    Err(e) => Err(e),
                }
            },
            OpView::Insert(items) => match invert_from(ops.drop_first(), a, pos) {
                Ok(rest) => Ok(seq![OpView::Delete(items.len())] + rest),
                Err(e) => Err(e),
            },
        }
    }
}

/// Elements a run deletes or inserts.
pub open spec fn op_edits<V>(op: OpView<V>) -> nat {
    match op {
        OpView::Equal(_) => 0,
        OpView::Delete(n) => n,
        OpView::Insert(items) => items.len(),
    }
}

proof fn lemma_consumed_prefix<V>(ops: Seq<OpView<V>>, i: int)
    requires
        0 <= i <= ops.len(),
    ensures
        consumed(ops.subrange(0, i)) <= consumed(ops),
    decreases ops.len() - i,
{
    if i < ops.len() {
        lemma_consumed_prefix(ops, i + 1);
        assert(ops.subrange(0, i + 1).drop_last() =~= ops.subrange(0, i));
    } else {
        assert(ops.subrange(0, i) =~= ops);
    }
}

proof fn lemma_distance_prefix<V>(ops: Seq<OpView<V>>, i: int)
    requires
        0 <= i <= ops.len(),
    ensures
        distance(ops.subrange(0, i)) <= distance(ops),
    decreases ops.len() - i,
{
    if i < ops.len() {
        lemma_distance_prefix(ops, i + 1);
        assert(ops.subrange(0, i + 1).drop_last() =~= ops.subrange(0, i));
    } else {
        assert(ops.subrange(0, i) =~= ops);
    }
}

/// Copies `a[from..to]` onto the end of `out`.
pub(crate) fn extend_from<T: Token>(out: &mut Vec<T>, a: &[T], from: usize, to: usize)
    requires
        from <= to <= a.len(),
    ensures
        vals(final(out)@) == vals(old(out)@) + vals(a@).subrange(from as int, to as int),
{
    let mut i = from;
    while i < to
        invariant
            from <= i <= to <= a.len(),
            vals(out@) == vals(old(out)@) + vals(a@).subrange(from as int, i as int),
        decreases to - i,
    {
        let x = a[i].duplicate();
        let ghost before = out@;
        out.push(x);
        proof {
            assert(vals(out@) =~= vals(before) + seq![x@]);
        }
        i += 1;
        assert(vals(out@) =~= vals(old(out)@) + vals(a@).subrange(from as int, i as int));
    }
}

impl<T: Token> Patch<T> {
    /// Applies the patch to `a`. Fails (rather than guessing) if the patch
    /// does not consume exactly `a.len()` source elements.
    pub fn apply(&self, a: &[T]) -> (r: Result<Vec<T>, PatchError>)
        requires
            consumed(self@) <= usize::MAX,
        ensures
            match r {
                Ok(v) => apply_spec(self@, vals(a@)) == Ok::<Seq<T::V>, PatchError>(vals(v@)),
                Err(e) => apply_spec(self@, vals(a@)) == Err::<Seq<T::V>, PatchError>(e),
            },
    {
        let ops = &self.ops;
        let ghost o = self@;
        let ghost av = vals(a@);
        let ghost whole = apply_spec(o, av);
        let mut out: Vec<T> = Vec::new();
        let mut pos: usize = 0;
        let mut i: usize = 0;
        assert(o.subrange(0, 0) =~= Seq::<OpView<T::V>>::empty());
        assert(o.subrange(0, o.len() as int) =~= o);
        assert(vals(out@) =~= Seq::<T::V>::empty());
        while i < ops.len()
            invariant
                o == ops@.map_values(|op: PatchOp<T>| op@),
                o == self@,
                av == vals(a@),
                whole == apply_spec(o, av),
                i <= ops.len(),
                pos <= a.len(),
                pos == consumed(o.subrange(0, i as int)),
                consumed(o) <= usize::MAX,
                whole == prefixed(vals(out@), apply_from(o.subrange(i as int, o.len() as int), av, pos as nat)),
            decreases ops.len() - i,
        {
            let ghost rest = o.subrange(i as int, o.len() as int);
            proof {
                lemma_consumed_prefix(o, i + 1);
                assert(o.subrange(0, i + 1).drop_last() =~= o.subrange(0, i as int));
                assert(rest[0] == o[i as int]);
                assert(o[i as int] == ops@[i as int]@);
                assert(rest.drop_first() =~= o.subrange(i + 1, o.len() as int));
            }
            match &ops[i] {
                PatchOp::Equal(n) => {
                    let n = *n;
                    if n > a.len() - pos {
                        return Err(PatchError::SourceTooShort { needed: pos + n, available: a.len() });
                    }
                    let ghost before = vals(out@);
                    extend_from(&mut out, a, pos, pos + n);
                    proof {
                        match apply_from(o.subrange(i + 1, o.len() as int), av, (pos + n) as nat) {
                            Ok(t) => {
                                assert(before + (av.subrange(pos as int, pos + n) + t) =~= vals(out@) + t);
                            },
                            Err(_) => {},
                        }
                    }
                    pos = pos + n;
                },
                PatchOp::Delete(n) => {
                    let n = *n;
                    if n > a.len() - pos {
                        return Err(PatchError::SourceTooShort { needed: pos + n, available: a.len() });
                    }
                    pos = pos + n;
                },
                PatchOp::Insert(items) => {
                    let ghost before = vals(out@);
                    extend_from(&mut out, items.as_slice(), 0, items.len());
                    proof {
                        assert(vals(items@).subrange(0, items@.len() as int) =~= vals(items@));
                        match apply_from(o.subrange(i + 1, o.len() as int), av, pos as nat) {
                            Ok(t) => {
                                assert(before + (vals(items@) + t) =~= vals(out@) + t);
                            },
                            Err(_) => {},
                        }
                    }
                },
            }
            i += 1;
        }
        if pos != a.len() {
            return Err(PatchError::SourceTooLong { consumed: pos, available: a.len() });
        }
        assert(vals(out@) + Seq::<T::V>::empty() =~= vals(out@));
        Ok(out)
    }

    /// Number of elements deleted plus inserted: the edit distance the
    /// algorithm minimizes.
    pub fn edit_distance(&self) -> (r: usize)
        requires
            distance(self@) <= usize::MAX,
        ensures
            r == distance(self@),
    {
        let ghost o = self@;
        let mut total: usize = 0;
        let mut i: usize = 0;
        assert(o.subrange(0, 0) =~= Seq::<OpView<T::V>>::empty());
        while i < self.ops.len()
            invariant
                o == self.ops@.map_values(|op: PatchOp<T>| op@),
                i <= self.ops.len(),
                total == distance(o.subrange(0, i as int)),
                distance(o) <= usize::MAX,
            decreases self.ops.len() - i,
        {
            proof {
                lemma_distance_prefix(o, i + 1);
                assert(o.subrange(0, i + 1).drop_last() =~= o.subrange(0, i as int));
            }
            let k = match &self.ops[i] {
                PatchOp::Equal(_) => 0,
                PatchOp::Delete(n) => *n,
                PatchOp::Insert(v) => v.len(),
            };
            total = total + k;
            i += 1;
        }
        assert(o.subrange(0, o.len() as int) =~= o);
        total
    }

    /// The patch that undoes this one (turns `b` back into `a`). Needs the
    /// original `a` to recover the deleted elements.
    pub fn invert(&self, a: &[T]) -> (r: Result<Patch<T>, PatchError>)
        requires
            consumed(self@) <= usize::MAX,
        ensures
            match r {
                Ok(p) => invert_from(self@, vals(a@), 0) == Ok::<Seq<OpView<T::V>>, PatchError>(p@),
                Err(e) => invert_from(self@, vals(a@), 0) == Err::<Seq<OpView<T::V>>, PatchError>(e),
            },
    {
        let ghost o = self@;
        let ghost av = vals(a@);
        let ghost whole = invert_from(o, av, 0);
        let mut ops: Vec<PatchOp<T>> = Vec::new();
        let mut pos: usize = 0;
        let mut i: usize = 0;
        assert(o.subrange(0, 0) =~= Seq::<OpView<T::V>>::empty());
        assert(o.subrange(0, o.len() as int) =~= o);
        assert(ops@.map_values(|op: PatchOp<T>| op@) =~= Seq::<OpView<T::V>>::empty());
        while i < self.ops.len()
            invariant
                o == self.ops@.map_values(|op: PatchOp<T>| op@),
                o == self@,
                av == vals(a@),
                whole == invert_from(o, av, 0),
                i <= self.ops.len(),
                pos == consumed(o.subrange(0, i as int)),
                consumed(o) <= usize::MAX,
                whole == (match invert_from(o.subrange(i as int, o.len() as int), av, pos as nat) {
                    Ok(rest) => Ok(ops@.map_values(|op: PatchOp<T>| op@) + rest),
                    Err(e) => Err(e),
                }),
            decreases self.ops.len() - i,
        {
            let ghost rest = o.subrange(i as int, o.len() as int);
            let ghost before = ops@.map_values(|op: PatchOp<T>| op@);
            proof {
                lemma_consumed_prefix(o, i + 1);
                assert(o.subrange(0, i + 1).drop_last() =~= o.subrange(0, i as int));
                assert(rest[0] == o[i as int]);
                assert(o[i as int] == self.ops@[i as int]@);
                assert(rest.drop_first() =~= o.subrange(i + 1, o.len() as int));
            }
            let (op, next): (PatchOp<T>, usize) = match &self.ops[i] {
                PatchOp::Equal(n) => (PatchOp::Equal(*n), pos + *n),
                PatchOp::Delete(n) => {
                    let n = *n;
                    if pos + n > a.len() {
                        return Err(PatchError::SourceTooShort { needed: pos + n, available: a.len() });
                    }
                    let mut items: Vec<T> = Vec::new();
                    extend_from(&mut items, a, pos, pos + n);
                    (PatchOp::Insert(items), pos + n)
                },
                PatchOp::Insert(items) => (PatchOp::Delete(items.len()), pos),
            };
            let ghost opv = op@;
            ops.push(op);
            proof {
                assert(ops@.map_values(|op: PatchOp<T>| op@) =~= before.push(opv));
                match invert_from(o.subrange(i + 1, o.len() as int), av, next as nat) {
                    Ok(t) => {
                        assert(before + (seq![opv] + t) =~= before.push(opv) + t);
                    },
                    Err(_) => {},
                }
            }
            pos = next;
            i += 1;
        }
        let p = Patch { ops };
        assert(p@ + Seq::<OpView<T::V>>::empty() =~= p@);
        Ok(p)
    }
}


/// A row of search results: `row[off + j]` is the furthest point of round
/// `r` on each diagonal `j` of that round.
pub open spec fn row_holds<V>(a: Seq<V>, b: Seq<V>, row: Seq<isize>, off: int, r: int) -> bool {
    forall|j: int| #![trigger furthest(a, b, r, j)]
        on_round(r, j) ==> row[off + j] == furthest(a, b, r, j)
}

/// Round `d` done on the diagonals below `k`, none of them at the end.
pub open spec fn round_upto<V>(a: Seq<V>, b: Seq<V>, row: Seq<isize>, off: int, d: int, k: int) -> bool {
    forall|j: int| #![trigger furthest(a, b, d, j)]
        on_round(d, j) && j < k ==> row[off + j] == furthest(a, b, d, j) && !at_end(
            a,
            b,
            furthest(a, b, d, j),
            j,
        )
}

/// `count` copies of one step.
fn repeat_step(st: Step, count: usize) -> (r: Vec<Step>)
    ensures
        r@ == Seq::new(count as nat, |i: int| st),
{
    let mut r: Vec<Step> = Vec::new();
    let mut i: usize = 0;
    while i < count
        invariant
            i <= count,
            r@ == Seq::new(i as nat, |j: int| st),
        decreases count - i,
    {
        r.push(st);
        i += 1;
        assert(r@ =~= Seq::new(i as nat, |j: int| st));
    }
    r
}

/// A row of `width` zeros.
fn zero_row(width: usize) -> (r: Vec<isize>)
    ensures
        r@.len() == width,
        forall|i: int| 0 <= i < width ==> r@[i] == 0,
{
    let mut r: Vec<isize> = Vec::new();
    let mut i: usize = 0;
    while i < width
        invariant
            i <= width,
            r@.len() == i,
            forall|j: int| 0 <= j < i ==> r@[j] == 0,
        decreases width - i,
    {
        r.push(0);
        i += 1;
    }
    r
}

/// A copy of a row.
fn copy_row(v: &Vec<isize>) -> (r: Vec<isize>)
    ensures
        r@ == v@,
{
    let mut r: Vec<isize> = Vec::new();
    let mut i: usize = 0;
    while i < v.len()
        invariant
            i <= v.len(),
            r@ == v@.subrange(0, i as int),
        decreases v.len() - i,
    {
        r.push(v[i]);
        i += 1;
        assert(r@ =~= v@.subrange(0, i as int));
    }
    assert(v@.subrange(0, v@.len() as int) =~= v@);
    r
}

/// The search rows saved so far: row `e` holds round `e - 1`.
pub open spec fn trace_ok<V>(a: Seq<V>, b: Seq<V>, trace: Seq<Vec<isize>>, off: int) -> bool {
    &&& forall|e: int| 0 <= e < trace.len() ==> (#[trigger] trace[e])@.len() == 2 * off + 2
    &&& forall|e: int| 0 < e < trace.len() ==> row_holds(a, b, (#[trigger] trace[e])@, off, e - 1)
    &&& trace.len() > 0 ==> trace[0]@[off + 1] == 0
}

/// From `x` on diagonal `k`, as far as equal elements go.
fn follow_snake<T: Token>(a: &[T], b: &[T], x: isize, k: isize) -> (r: isize)
    requires
        0 <= x,
        0 <= x - k,
        x <= a.len() + 1,
        -(a.len() + b.len()) <= k <= a.len() + b.len(),
        2 * (a.len() + b.len()) + 2 <= isize::MAX,
    ensures
        r == snake(vals(a@), vals(b@), x as int, k as int),
{
    let ghost av = vals(a@);
    let ghost bv = vals(b@);
    let n: isize = a.len() as isize;
    let m: isize = b.len() as isize;
    let mut x: isize = x;
    let mut y: isize = x - k;
    let ghost s0 = x as int;
    while x < n && y < m && a[x as usize].same(&b[y as usize])
        invariant
            0 <= x,
            av == vals(a@),
            bv == vals(b@),
            n == a.len(),
            m == b.len(),
            y == x - k,
            0 <= y,
            s0 <= x <= a.len() + 1,
            -(a.len() + b.len()) <= k <= a.len() + b.len(),
            2 * (a.len() + b.len()) + 2 <= isize::MAX,
            snake(av, bv, x as int, k as int) == snake(av, bv, s0, k as int),
        decreases n - x,
    {
        assert(av[x as int] == a@[x as int]@);
        assert(bv[y as int] == b@[y as int]@);
        assert(diag_ok(av, bv, x as int, y as int));
        x = x + 1;
        y = y + 1;
    }
    assert(!diag_ok(av, bv, x as int, y as int));
    x
}

/// One round `d` of the forward search, over the diagonals `-d, -d + 2,
/// .., d`; it stops at the first point past both ends.
#[verifier::loop_isolation(false)]
#[verifier::rlimit(90)]
#[verifier::spinoff_prover]
fn search_round<T: Token>(a: &[T], b: &[T], v: &mut Vec<isize>, d: isize, off: isize) -> (found: bool)
    requires
        a.len() > 0,
        b.len() > 0,
        off == a.len() + b.len(),
        2 * off + 2 <= isize::MAX,
        old(v)@.len() == 2 * off + 2,
        0 <= d <= lcs_distance(vals(a@), vals(b@)),
        lcs_distance(vals(a@), vals(b@)) <= off,
        no_end_before(vals(a@), vals(b@), d as int),
        d > 0 ==> row_holds(vals(a@), vals(b@), old(v)@, off as int, d - 1),
        d == 0 ==> old(v)@[off + 1] == 0,
    ensures
        final(v)@.len() == 2 * off + 2,
        found ==> d == lcs_distance(vals(a@), vals(b@)) && on_round(d as int, a.len() - b.len())
            && furthest(vals(a@), vals(b@), d as int, a.len() - b.len()) == a.len(),
        !found ==> row_holds(vals(a@), vals(b@), final(v)@, off as int, d as int) && no_end_before(
            vals(a@),
            vals(b@),
            d + 1,
        ),
{
    let ghost av = vals(a@);
    let ghost bv = vals(b@);
    let n: isize = a.len() as isize;
    let m: isize = b.len() as isize;
    let mut found = false;
    let mut k: isize = -d;
    while k <= d && !found
        invariant
            v@.len() == 2 * off + 2,
            -d <= k <= d + 2,
            (d - k) % 2 == 0,
            d > 0 ==> row_holds(av, bv, v@, off as int, d - 1),
            d == 0 ==> v@[off + 1] == 0,
            round_upto(av, bv, v@, off as int, d as int, k as int),
            found ==> on_round(d as int, k as int) && at_end(av, bv, furthest(av, bv, d as int, k as int), k as int),
        decreases (d + 2 - k) * 2 + (if found { 0int } else { 1int }),
    {
        proof {
            if d > 0 {
                if k > -d {
                    assert(on_round(d - 1, k - 1));
                    assert(v@[off + (k - 1)] == furthest(av, bv, d - 1, k - 1));
                }
                if k < d {
                    assert(on_round(d - 1, k + 1));
                    assert(v@[off + (k + 1)] == furthest(av, bv, d - 1, k + 1));
                }
            }
            lemma_furthest_bounds(av, bv, d as int, k as int);
        }
        let down: bool = k == -d || (k != d && v[(k - 1 + off) as usize] < v[(k + 1 + off) as usize]);
        let x0: isize = if down {
            v[(k + 1 + off) as usize]
        } else {
            v[(k - 1 + off) as usize] + 1
        };
        assert(x0 == start(av, bv, d as int, k as int));
        proof {
            if x0 > n + 1 {
                lemma_furthest_bounds(av, bv, d as int, k as int);
            }
        }
        let x: isize = if x0 > n { x0 } else { follow_snake(a, b, x0, k) };
        proof {
            if x0 > n {
                assert(!diag_ok(av, bv, x0 as int, x0 - k));
            }
        }
        assert(x == furthest(av, bv, d as int, k as int));
        let y: isize = x - k;
        let ghost before = v@;
        v.set((k + off) as usize, x);
        proof {
            assert forall|j: int| #![trigger furthest(av, bv, d - 1, j)]
                d > 0 && on_round(d - 1, j) implies v@[off + j] == furthest(av, bv, d - 1, j) by {
                assert(before[off + j] == furthest(av, bv, d - 1, j));
            }
        }
        if x >= n && y >= m {
            found = true;
        } else {
            proof {
                assert forall|j: int| #![trigger furthest(av, bv, d as int, j)]
                    on_round(d as int, j) && j < k + 2 implies v@[off + j] == furthest(av, bv, d as int, j)
                    && !at_end(av, bv, furthest(av, bv, d as int, j), j) by {
                    if j < k {
                        assert(before[off + j] == furthest(av, bv, d as int, j));
                    }
                }
            }
            k = k + 2;
        }
    }
    if found {
        proof {
            lemma_first_end_is_corner(av, bv, d as int, k as int);
        }
    } else {
        proof {
            assert forall|j: int| #![trigger furthest(av, bv, d as int, j)]
                on_round(d as int, j) implies v@[off + j] == furthest(av, bv, d as int, j) by {
                assert(j < k);
            }
            assert forall|e: int, j: int| #![trigger furthest(av, bv, e, j)]
                on_round(e, j) && e < d + 1 implies !at_end(av, bv, furthest(av, bv, e, j), j) by {
                if e == d {
                    assert(j < k);
                }
            }
        }
    }
    found
}

/// Myers' forward search: the rows of every round until the first point
/// past both ends, which is the corner, reached in exactly the edit
/// distance's number of rounds.
#[verifier::loop_isolation(false)]
fn search<T: Token>(a: &[T], b: &[T], off: isize) -> (trace: Vec<Vec<isize>>)
    requires
        a.len() > 0,
        b.len() > 0,
        off == a.len() + b.len(),
        2 * off + 2 <= isize::MAX,
    ensures
        trace_ok(vals(a@), vals(b@), trace@, off as int),
        trace@.len() == lcs_distance(vals(a@), vals(b@)) + 1,
        lcs_distance(vals(a@), vals(b@)) <= off,
        on_round(lcs_distance(vals(a@), vals(b@)) as int, a.len() - b.len()),
        furthest(vals(a@), vals(b@), lcs_distance(vals(a@), vals(b@)) as int, a.len() - b.len()) == a.len(),
{
    let ghost av = vals(a@);
    let ghost bv = vals(b@);
    let width: usize = (2 * off + 2) as usize;
    let mut v: Vec<isize> = zero_row(width);
    let mut trace: Vec<Vec<isize>> = Vec::new();
    let mut d: isize = 0;
    let mut found = false;
    proof {
        lemma_no_end_bound(av, bv, 0);
    }
    while !found
        invariant
            v@.len() == width,
            0 <= d <= lcs_distance(av, bv),
            no_end_before(av, bv, d as int),
            trace_ok(av, bv, trace@, off as int),
            !found ==> trace@.len() == d,
            found ==> trace@.len() == d + 1,
            found ==> d == lcs_distance(av, bv) && on_round(d as int, a.len() - b.len())
                && furthest(av, bv, d as int, a.len() - b.len()) == a.len(),
            !found && d > 0 ==> row_holds(av, bv, v@, off as int, d - 1),
            !found && d == 0 ==> v@[off + 1] == 0,
        decreases (lcs_distance(av, bv) + 1 - d) * 2 + (if found { 0int } else { 1int }),
    {
        let row = copy_row(&v);
        let ghost before = trace@;
        trace.push(row);
        proof {
            assert forall|e: int| 0 <= e < trace@.len() implies (#[trigger] trace@[e])@.len() == 2 * off + 2 by {
                if e < before.len() {
                    assert(trace@[e] == before[e]);
                }
            }
            assert forall|e: int| 0 < e < trace@.len() implies row_holds(av, bv, (#[trigger] trace@[e])@, off as int, e - 1) by {
                if e < before.len() {
                    assert(trace@[e] == before[e]);
                }
            }
        }
        found = search_round(a, b, &mut v, d, off);
        if !found {
            proof {
                lemma_no_end_bound(av, bv, d + 1);
            }
            d = d + 1;
        }
    }
    trace
}

/// `steps` holds the moves of `fwd` last to first.
pub open spec fn reversed(steps: Seq<Step>, fwd: Seq<Step>) -> bool {
    &&& steps.len() == fwd.len()
    &&& forall|i: int| 0 <= i < fwd.len() ==> steps[i] == fwd[fwd.len() - 1 - i]
}

proof fn lemma_reversed_push(steps: Seq<Step>, fwd: Seq<Step>, st: Step)
    requires
        reversed(steps, fwd),
    ensures
        reversed(steps.push(st), seq![st] + fwd),
        (seq![st] + fwd).drop_first() == fwd,
        (seq![st] + fwd)[0] == st,
{
    let nf = seq![st] + fwd;
    assert(nf.drop_first() =~= fwd);
    assert forall|i: int| 0 <= i < nf.len() implies steps.push(st)[i] == nf[nf.len() - 1 - i] by {
        if i < fwd.len() {
            assert(steps.push(st)[i] == steps[i]);
        }
    }
}

/// No insertion is directly followed by a deletion: within a change, the
/// deletions come first.
pub open spec fn dels_first(s: Seq<Step>) -> bool {
    forall|i: int, j: int| 0 <= i && j == i + 1 && j < s.len() ==> !(#[trigger] s[i] == Step::Ins && #[trigger] s[j] == Step::Del)
}

/// Round `d` of the search reaches diagonal `k` by a move down (from
/// diagonal `k + 1`), not by a move right.
pub open spec fn moves_down<V>(a: Seq<V>, b: Seq<V>, d: int, k: int) -> bool {
    k == -d || (k != d && furthest(a, b, d - 1, k - 1) < furthest(a, b, d - 1, k + 1))
}

/// A move down in round `d` with no free moves after it is never followed
/// by a move right in round `d + 1`: the diagonal to its right is always
/// further along.
proof fn lemma_down_not_then_right<V>(a: Seq<V>, b: Seq<V>, d: int, k: int)
    requires
        d >= 1,
        on_round(d, k),
        on_round(d + 1, k + 1),
        moves_down(a, b, d, k),
        furthest(a, b, d, k) == start(a, b, d, k),
    ensures
        moves_down(a, b, d + 1, k + 1),
{
    if k != d {
        assert(k + 2 <= d);
        assert(on_round(d, k + 2));
        lemma_furthest_bounds(a, b, d, k + 2);
        assert(start(a, b, d, k) == furthest(a, b, d - 1, k + 1));
        assert(start(a, b, d, k + 2) > furthest(a, b, d - 1, k + 1));
    }
}

proof fn lemma_dels_first_prepend(s: Seq<Step>, st: Step)
    requires
        dels_first(s),
        !(st == Step::Ins && s.len() > 0 && s[0] == Step::Del),
    ensures
        dels_first(seq![st] + s),
{
    let t = seq![st] + s;
    assert forall|i: int, j: int| 0 <= i && j == i + 1 && j < t.len() implies !(#[trigger] t[i] == Step::Ins && #[trigger] t[j]
        == Step::Del) by {
        if i > 0 {
            assert(t[i] == s[i - 1] && t[j] == s[j - 1]);
        } else {
            assert(t[0] == st && t[1] == s[0]);
        }
    }
}

/// One round of the walk back: from the furthest point of round `d` on
/// its diagonal, back along the snake and over the one move that round
/// `d` added.
#[verifier::loop_isolation(false)]
#[verifier::rlimit(40)]
fn back_round<T: Token>(
    a: &[T],
    b: &[T],
    row: &Vec<isize>,
    off: isize,
    d: isize,
    x: isize,
    y: isize,
    steps: &mut Vec<Step>,
    fwd: Ghost<Seq<Step>>,
) -> (r: (isize, isize, Ghost<Seq<Step>>))
    requires
        off == a.len() + b.len(),
        2 * off + 2 <= isize::MAX,
        row@.len() == 2 * off + 2,
        0 <= d <= off,
        d > 0 ==> row_holds(vals(a@), vals(b@), row@, off as int, d - 1),
        d == 0 ==> row@[off + 1] == 0,
        0 <= x,
        0 <= y,
        on_round(d as int, x - y),
        x == furthest(vals(a@), vals(b@), d as int, x - y),
        walk(vals(a@), vals(b@), fwd@, x as int, y as int) == Some((a.len() as int, b.len() as int)),
        reversed(old(steps)@, fwd@),
        dels_first(fwd@),
        fwd@.len() > 0 && fwd@[0] == Step::Del ==> on_round(d + 1, x - y + 1) && !moves_down(vals(a@), vals(b@), d + 1, x - y + 1),
    ensures
        reversed(final(steps)@, r.2@),
        dels_first(r.2@),
        d > 0 && r.2@.len() > 0 && r.2@[0] == Step::Del ==> on_round(d as int, r.0 - r.1 + 1) && !moves_down(
            vals(a@),
            vals(b@),
            d as int,
            r.0 - r.1 + 1,
        ),
        d > 0 ==> 0 <= r.0 && 0 <= r.1 && on_round(d - 1, r.0 - r.1) && r.0 == furthest(
            vals(a@),
            vals(b@),
            d - 1,
            r.0 - r.1,
        ) && walk(vals(a@), vals(b@), r.2@, r.0 as int, r.1 as int) == Some(
            (a.len() as int, b.len() as int),
        ) && edits(r.2@) == edits(fwd@) + 1,
        d == 0 ==> walk(vals(a@), vals(b@), r.2@, 0, 0) == Some((a.len() as int, b.len() as int))
            && edits(r.2@) == edits(fwd@),
{
    let ghost av = vals(a@);
    let ghost bv = vals(b@);
    let ghost mut cur = fwd@;
    let mut x: isize = x;
    let mut y: isize = y;
    let k: isize = x - y;
    proof {
        lemma_furthest_bounds(av, bv, d as int, k as int);
        lemma_walk_cost(av, bv, cur, x as int, y as int);
        if d > 0 {
            if k > -d {
                assert(on_round(d - 1, k - 1));
                assert(row@[off + (k - 1)] == furthest(av, bv, d - 1, k - 1));
            }
            if k < d {
                assert(on_round(d - 1, k + 1));
                assert(row@[off + (k + 1)] == furthest(av, bv, d - 1, k + 1));
            }
        }
    }
    let down: bool = k == -d || (k != d && row[(k - 1 + off) as usize] < row[(k + 1 + off) as usize]);
    let prev_k: isize = if down {
        k + 1
    } else {
        k - 1
    };
    let prev_x: isize = row[(prev_k + off) as usize];
    let prev_y: isize = prev_x - prev_k;
    proof {
        if d > 0 {
            lemma_furthest_bounds(av, bv, d - 1, prev_k as int);
        }
    }
    assert(start(av, bv, d as int, k as int) == if down {
        prev_x as int
    } else {
        prev_x + 1
    });
    let ghost x_top = x as int;
    while x > prev_x && y > prev_y
        invariant
            y == x - k,
            start(av, bv, d as int, k as int) <= x <= furthest(av, bv, d as int, k as int),
            x_top == furthest(av, bv, d as int, k as int),
            reversed(steps@, cur),
            walk(av, bv, cur, x as int, y as int) == Some((a.len() as int, b.len() as int)),
            edits(cur) == edits(fwd@),
            dels_first(cur),
            x == x_top ==> cur == fwd@,
            x < x_top ==> cur.len() > 0 && cur[0] == Step::Keep,
        decreases x,
    {
        proof {
            lemma_snake_diag(av, bv, start(av, bv, d as int, k as int), k as int, x - 1);
            lemma_reversed_push(steps@, cur, Step::Keep);
            lemma_dels_first_prepend(cur, Step::Keep);
            cur = seq![Step::Keep] + cur;
        }
        steps.push(Step::Keep);
        x = x - 1;
        y = y - 1;
    }
    proof {
        lemma_walk_cost(av, bv, cur, x as int, y as int);
    }
    if d > 0 {
        let st = if x == prev_x {
            Step::Ins
        } else {
            Step::Del
        };
        proof {
            if st == Step::Ins && cur.len() > 0 && cur[0] == Step::Del {
                assert(x == x_top);
                assert(moves_down(av, bv, d as int, k as int));
                lemma_down_not_then_right(av, bv, d as int, k as int);
            }
            lemma_reversed_push(steps@, cur, st);
            lemma_dels_first_prepend(cur, st);
            cur = seq![st] + cur;
        }
        steps.push(st);
        (prev_x, prev_y, Ghost(cur))
    } else {
        (x, y, Ghost(cur))
    }
}

/// Walks the saved rounds back from the corner, collecting the moves of
/// the path last to first.
fn walk_back<T: Token>(a: &[T], b: &[T], trace: &Vec<Vec<isize>>, off: isize) -> (r: (Vec<Step>, Ghost<Seq<Step>>))
    requires
        a.len() > 0,
        b.len() > 0,
        off == a.len() + b.len(),
        2 * off + 2 <= isize::MAX,
        trace_ok(vals(a@), vals(b@), trace@, off as int),
        trace@.len() == lcs_distance(vals(a@), vals(b@)) + 1,
        lcs_distance(vals(a@), vals(b@)) <= off,
        on_round(lcs_distance(vals(a@), vals(b@)) as int, a.len() - b.len()),
        furthest(vals(a@), vals(b@), lcs_distance(vals(a@), vals(b@)) as int, a.len() - b.len()) == a.len(),
    ensures
        reversed(r.0@, r.1@),
        walk(vals(a@), vals(b@), r.1@, 0, 0) == Some((a.len() as int, b.len() as int)),
        edits(r.1@) == lcs_distance(vals(a@), vals(b@)),
        dels_first(r.1@),
{
    let ghost av = vals(a@);
    let ghost bv = vals(b@);
    let ghost dfin = lcs_distance(av, bv) as int;
    let mut steps: Vec<Step> = Vec::new();
    let ghost mut fwd: Seq<Step> = seq![];
    let mut x: isize = a.len() as isize;
    let mut y: isize = b.len() as isize;
    let mut dd: usize = trace.len();
    assert(reversed(steps@, fwd));
    while dd > 0
        invariant
            av == vals(a@),
            bv == vals(b@),
            off == a.len() + b.len(),
            2 * off + 2 <= isize::MAX,
            trace_ok(av, bv, trace@, off as int),
            trace@.len() == dfin + 1,
            dfin <= off,
            dd <= trace@.len(),
            reversed(steps@, fwd),
            dd > 0 ==> 0 <= x && 0 <= y && on_round(dd - 1, x - y) && x == furthest(av, bv, dd - 1, x - y)
                && edits(fwd) + dd - 1 == dfin && walk(av, bv, fwd, x as int, y as int) == Some(
                (a.len() as int, b.len() as int),
            ),
            dd == 0 ==> edits(fwd) == dfin && walk(av, bv, fwd, 0, 0) == Some((a.len() as int, b.len() as int)),
            dels_first(fwd),
            dd > 0 && fwd.len() > 0 && fwd[0] == Step::Del ==> on_round(dd as int, x - y + 1) && !moves_down(av, bv, dd as int, x - y + 1),
        decreases dd,
    {
        dd = dd - 1;
        let (nx, ny, Ghost(nf)) = back_round(a, b, &trace[dd], off, dd as isize, x, y, &mut steps, Ghost(fwd));
        proof {
            fwd = nf;
        }
        x = nx;
        y = ny;
    }
    (steps, Ghost(fwd))
}

/// A shortest path through the edit graph of `a` and `b`, as unit moves
/// (Myers' forward search, then a walk back through the saved rounds).
fn myers_steps<T: Token>(a: &[T], b: &[T]) -> (r: Vec<Step>)
    requires
        2 * (a.len() + b.len()) + 2 <= isize::MAX,
    ensures
        walk(vals(a@), vals(b@), r@, 0, 0) == Some((a.len() as int, b.len() as int)),
        edits(r@) == lcs_distance(vals(a@), vals(b@)),
        dels_first(r@),
{
    let ghost av = vals(a@);
    let ghost bv = vals(b@);
    if a.len() == 0 {
        let r = repeat_step(Step::Ins, b.len());
        proof {
            lemma_walk_edge(av, bv, Step::Ins, b.len() as nat, 0, 0);
            lemma_dist_edges(av, bv, 0, b.len() as int);
        }
        return r;
    }
    if b.len() == 0 {
        let r = repeat_step(Step::Del, a.len());
        proof {
            lemma_walk_edge(av, bv, Step::Del, a.len() as nat, 0, 0);
            lemma_dist_edges(av, bv, a.len() as int, 0);
        }
        return r;
    }
    let off: isize = (a.len() + b.len()) as isize;
    let trace = search(a, b, off);
    let (steps, Ghost(fwd)) = walk_back(a, b, &trace, off);
    let mut out: Vec<Step> = Vec::new();
    let mut i: usize = steps.len();
    while i > 0
        invariant
            i <= steps@.len(),
            reversed(steps@, fwd),
            out@ == fwd.subrange(0, fwd.len() - i),
        decreases i,
    {
        i = i - 1;
        out.push(steps[i]);
        assert(out@ =~= fwd.subrange(0, fwd.len() - i));
    }
    assert(fwd.subrange(0, fwd.len() as int) =~= fwd);
    out
}


/// The kind of a run: keep, delete or insert.
pub open spec fn op_kind<V>(op: OpView<V>) -> int {
    match op {
        OpView::Equal(_) => 0,
        OpView::Delete(_) => 1,
        OpView::Insert(_) => 2,
    }
}

/// The number of elements a run covers.
pub open spec fn op_size<V>(op: OpView<V>) -> nat {
    match op {
        OpView::Equal(n) => n,
        OpView::Delete(n) => n,
        OpView::Insert(items) => items.len(),
    }
}

/// No empty runs, and no two runs of one kind next to each other.
pub open spec fn coalesced<V>(ops: Seq<OpView<V>>) -> bool {
    &&& forall|i: int| 0 <= i < ops.len() ==> op_size(#[trigger] ops[i]) > 0
    &&& forall|i: int, j: int|
        0 <= i && j == i + 1 && j < ops.len() ==> op_kind(#[trigger] ops[i]) != op_kind(#[trigger] ops[j])
}

/// The script `ops` turns `a[x..xe]` into `b[y..ye]`.
pub open spec fn realizes<V>(ops: Seq<OpView<V>>, a: Seq<V>, b: Seq<V>, x: int, y: int, xe: int, ye: int) -> bool
    decreases ops.len(),
{
    if ops.len() == 0 {
        x == xe && y == ye
    } else {
        match ops.last() {
            OpView::Equal(c) => {
                &&& 0 <= xe - c
                &&& xe <= a.len()
                &&& 0 <= ye - c
                &&& ye <= b.len()
                &&& a.subrange(xe - c, xe) == b.subrange(ye - c, ye)
                &&& realizes(ops.drop_last(), a, b, x, y, xe - c, ye - c)
            },
            OpView::Delete(c) => {
                &&& 0 <= xe - c
                &&& xe <= a.len()
                &&& realizes(ops.drop_last(), a, b, x, y, xe - c, ye)
            },
            OpView::Insert(items) => {
                &&& 0 <= ye - items.len()
                &&& ye <= b.len()
                &&& items == b.subrange(ye - items.len(), ye)
                &&& realizes(ops.drop_last(), a, b, x, y, xe, ye - items.len())
            },
        }
    }
}

proof fn lemma_prefixed_prefixed<V>(s1: Seq<V>, s2: Seq<V>, r: Result<Seq<V>, PatchError>)
    ensures
        prefixed(s1, prefixed(s2, r)) == prefixed(s1 + s2, r),
{
    match r {
        Ok(t) => {
            assert(s1 + (s2 + t) =~= (s1 + s2) + t);
        },
        Err(_) => {},
    }
}

/// A script that turns `a[x..xe]` into `b[y..ye]`, followed by more, does
/// that and then what the rest does from `xe`.
proof fn lemma_realizes_apply<V>(
    ops: Seq<OpView<V>>,
    rest: Seq<OpView<V>>,
    a: Seq<V>,
    b: Seq<V>,
    x: int,
    y: int,
    xe: int,
    ye: int,
)
    requires
        realizes(ops, a, b, x, y, xe, ye),
        0 <= x,
        0 <= y <= b.len(),
    ensures
        x <= xe,
        y <= ye,
        apply_from(ops + rest, a, x as nat) == prefixed(b.subrange(y, ye), apply_from(rest, a, xe as nat)),
    decreases ops.len(),
{
    if ops.len() == 0 {
        assert(ops + rest =~= rest);
        assert(b.subrange(y, ye) =~= Seq::<V>::empty());
        match apply_from(rest, a, xe as nat) {
            Ok(t) => {
                assert(Seq::<V>::empty() + t =~= t);
            },
            Err(_) => {},
        }
    } else {
        let p = ops.drop_last();
        let op = ops.last();
        let tail = seq![op] + rest;
        assert(ops + rest =~= p + tail);
        assert(tail[0] == op);
        assert(tail.drop_first() =~= rest);
        match op {
            OpView::Equal(c) => {
                lemma_realizes_apply(p, tail, a, b, x, y, xe - c, ye - c);
                lemma_prefixed_prefixed(b.subrange(y, ye - c), b.subrange(ye - c, ye), apply_from(rest, a, xe as nat));
                assert(b.subrange(y, ye - c) + b.subrange(ye - c, ye) =~= b.subrange(y, ye));
            },
            OpView::Delete(c) => {
                lemma_realizes_apply(p, tail, a, b, x, y, xe - c, ye);
            },
            OpView::Insert(items) => {
                lemma_realizes_apply(p, tail, a, b, x, y, xe, ye - items.len());
                lemma_prefixed_prefixed(
                    b.subrange(y, ye - items.len()),
                    items,
                    apply_from(rest, a, xe as nat),
                );
                assert(b.subrange(y, ye - items.len()) + items =~= b.subrange(y, ye));
            },
        }
    }
}

/// No insertion run is directly followed by a deletion run: within a
/// change, the deletions come first.
pub open spec fn deletes_first<V>(ops: Seq<OpView<V>>) -> bool {
    forall|j: int, k: int| 0 <= j && k == j + 1 && k < ops.len() ==> !(#[trigger] ops[j] is Insert && #[trigger] ops[k] is Delete)
}

proof fn lemma_deletes_first_extend<V>(prev: Seq<OpView<V>>, cur: Seq<OpView<V>>)
    requires
        deletes_first(prev),
        cur.len() >= 1,
        (cur.drop_last() == prev && (prev.len() > 0 ==> !(prev.last() is Insert && cur.last() is Delete))) || (cur.len()
            == prev.len() && cur.drop_last() == prev.drop_last() && op_kind(cur.last()) == op_kind(prev.last())),
    ensures
        deletes_first(cur),
{
    assert forall|j: int, k: int| 0 <= j && k == j + 1 && k < cur.len() implies !(#[trigger] cur[j] is Insert
        && #[trigger] cur[k] is Delete) by {
        if k < cur.len() - 1 {
            assert(cur[j] == cur.drop_last()[j]);
            assert(cur[k] == cur.drop_last()[k]);
            if cur.drop_last() == prev {
                assert(prev[j] == cur[j] && prev[k] == cur[k]);
            } else {
                assert(prev[j] == prev.drop_last()[j] && prev[k] == prev.drop_last()[k]);
            }
        } else {
            assert(cur[j] == cur.drop_last()[j]);
            if cur.drop_last() == prev {
                assert(prev.last() == prev[j]);
            } else {
                assert(prev[j] == prev.drop_last()[j]);
                assert(prev.last() == prev[k]);
            }
        }
    }
}

/// The patch op for a run.
fn run_op<T>(run: Step, count: usize, items: Vec<T>) -> (op: PatchOp<T>)
    ensures
        run == Step::Keep ==> op == PatchOp::<T>::Equal(count),
        run == Step::Del ==> op == PatchOp::<T>::Delete(count),
        run == Step::Ins ==> op == PatchOp::<T>::Insert(items),
{
    match run {
        Step::Keep => PatchOp::Equal(count),
        Step::Del => PatchOp::Delete(count),
        Step::Ins => PatchOp::Insert(items),
    }
}

/// The value of a run in progress.
pub open spec fn run_view<V>(run: Step, count: nat, items: Seq<V>) -> OpView<V> {
    match run {
        Step::Keep => OpView::Equal(count),
        Step::Del => OpView::Delete(count),
        Step::Ins => OpView::Insert(items),
    }
}

/// The kind of run a step belongs to.
pub open spec fn step_kind(s: Step) -> int {
    match s {
        Step::Keep => 0,
        Step::Del => 1,
        Step::Ins => 2,
    }
}

/// The runs so far: the closed ones, then the open one if it has begun.
pub open spec fn current<T: View>(ops: Seq<PatchOp<T>>, run: Step, count: usize, items: Seq<T>) -> Seq<OpView<T::V>> {
    let closed = ops.map_values(|op: PatchOp<T>| op@);
    if count == 0 {
        closed
    } else {
        closed.push(run_view(run, count as nat, vals(items)))
    }
}

/// Coalesces a path into runs, pulling inserted elements from `b`.
#[verifier::loop_isolation(false)]
#[verifier::rlimit(100)]
#[verifier::spinoff_prover]
fn coalesce<T: Token>(a: &[T], b: &[T], steps: &Vec<Step>) -> (p: Patch<T>)
    requires
        walk(vals(a@), vals(b@), steps@, 0, 0) == Some((a.len() as int, b.len() as int)),
        dels_first(steps@),
    ensures
        realizes(p@, vals(a@), vals(b@), 0, 0, a.len() as int, b.len() as int),
        distance(p@) == edits(steps@),
        coalesced(p@),
        deletes_first(p@),
{
    let ghost av = vals(a@);
    let ghost bv = vals(b@);
    let mut ops: Vec<PatchOp<T>> = Vec::new();
    let mut run: Step = Step::Keep;
    let mut count: usize = 0;
    let mut items: Vec<T> = Vec::new();
    let mut ai: usize = 0;
    let mut bi: usize = 0;
    let mut i: usize = 0;
    assert(steps@.subrange(0, steps@.len() as int) =~= steps@);
    while i < steps.len()
        invariant
            i <= steps@.len(),
            ai <= a.len(),
            bi <= b.len(),
            i == 0 ==> count == 0 && ops@.len() == 0,
            i > 0 ==> count > 0,
            count > 0 && run == Step::Ins ==> vals(items@).len() == count,
            (count > 0 && run != Step::Ins) || count == 0 ==> items@.len() == 0,
            count > 0 && run == Step::Keep ==> count <= ai && count <= bi,
            count > 0 && ops@.len() > 0 ==> op_kind(ops@.last()@) != step_kind(run),
            walk(av, bv, steps@.subrange(i as int, steps@.len() as int), ai as int, bi as int) == Some(
                (a.len() as int, b.len() as int),
            ),
            realizes(current(ops@, run, count, items@), av, bv, 0, 0, ai as int, bi as int),
            distance(current(ops@, run, count, items@)) + edits(steps@.subrange(i as int, steps@.len() as int))
                == edits(steps@),
            coalesced(current(ops@, run, count, items@)),
            i > 0 ==> run == steps@[i - 1],
            deletes_first(current(ops@, run, count, items@)),
        decreases steps@.len() - i,
    {
        let st = steps[i];
        let ghost rest = steps@.subrange(i as int, steps@.len() as int);
        let ghost closed0 = ops@.map_values(|op: PatchOp<T>| op@);
        let ghost cur0 = if count == 0 {
            closed0
        } else {
            closed0.push(run_view(run, count as nat, vals(items@)))
        };
        assert(rest[0] == st);
        assert(rest.drop_first() =~= steps@.subrange(i + 1, steps@.len() as int));
        let ghost count0 = count as nat;
        let ghost run0 = run;
        let ghost iv0 = vals(items@);
        let ghost ai0 = ai as int;
        let ghost bi0 = bi as int;
        let ghost xs: int = if count0 > 0 && run0 != Step::Ins { ai0 - count0 } else { ai0 };
        let ghost ys: int = if count0 > 0 && run0 != Step::Del { bi0 - count0 } else { bi0 };
        assert(realizes(cur0, av, bv, 0, 0, ai0, bi0));
        proof {
            if count > 0 {
                assert(cur0.drop_last() =~= closed0);
                assert(cur0.last() == run_view(run0, count0, iv0));
                assert(realizes(closed0, av, bv, 0, 0, xs, ys));
                if run0 == Step::Keep {
                    assert(av.subrange(xs, ai0) == bv.subrange(ys, bi0));
                }
                if run0 == Step::Ins {
                    assert(iv0 == bv.subrange(ys, bi0));
                }
            }
        }
        if count > 0 && run != st {
            let op = run_op(run, count, items);
            ops.push(op);
            items = Vec::new();
            count = 0;
            proof {
                assert(ops@.map_values(|op: PatchOp<T>| op@) =~= closed0.push(run_view(run0, count0, iv0)));
            }
        }
        let ghost closed1 = ops@.map_values(|op: PatchOp<T>| op@);
        assert(count == 0 ==> closed1 == cur0);
        match st {
            Step::Keep => {
                proof {
                    assert(av[ai as int] == bv[bi as int]);
                    if count > 0 {
                        assert(av.subrange(ai - count, ai + 1) =~= av.subrange(ai - count, ai as int).push(av[ai as int]));
                        assert(bv.subrange(bi - count, bi + 1) =~= bv.subrange(bi - count, bi as int).push(bv[bi as int]));
                        assert(av.subrange(ai - count, ai + 1) == bv.subrange(bi - count, bi + 1));
                    } else {
                        assert(av.subrange(ai as int, ai + 1) =~= seq![av[ai as int]]);
                        assert(bv.subrange(bi as int, bi + 1) =~= seq![bv[bi as int]]);
                    }
                }
                run = Step::Keep;
                count = count + 1;
                ai = ai + 1;
                bi = bi + 1;
            },
            Step::Del => {
                run = Step::Del;
                count = count + 1;
                ai = ai + 1;
            },
            Step::Ins => {
                let ghost iv = vals(items@);
                let item = b[bi].duplicate();
                items.push(item);
                proof {
                    assert(vals(items@) =~= iv.push(bv[bi as int]));
                    assert(bv.subrange(bi - count, bi + 1) =~= bv.subrange(bi - count, bi as int).push(bv[bi as int]));
                    if count == 0 {
                        assert(iv =~= bv.subrange(bi as int, bi as int));
                    }
                    assert(vals(items@) == bv.subrange(bi - count, bi + 1));
                }
                run = Step::Ins;
                count = count + 1;
                bi = bi + 1;
            },
        }
        proof {
            let cur = closed1.push(run_view(run, count as nat, vals(items@)));
            assert(cur.drop_last() =~= closed1);
            assert(cur.last() == run_view(run, count as nat, vals(items@)));
            if count > 1 {
                assert(closed1 == closed0);
                assert(run == run0);
                assert(realizes(closed1, av, bv, 0, 0, xs, ys));
            } else {
                assert(closed1 == cur0);
                assert(realizes(closed1, av, bv, 0, 0, ai0, bi0));
            }
            assert(realizes(cur, av, bv, 0, 0, ai as int, bi as int));
            assert forall|j: int| 0 <= j < cur.len() implies op_size(#[trigger] cur[j]) > 0 by {
                if j < closed1.len() {
                    assert(cur[j] == closed1[j]);
                    if count == 1 {
                        assert(closed1[j] == cur0[j]);
                    } else {
                        assert(closed1[j] == cur0[j]);
                    }
                }
            }
            assert forall|j: int, k: int| 0 <= j && k == j + 1 && k < cur.len() implies op_kind(#[trigger] cur[j])
                != op_kind(#[trigger] cur[k]) by {
                if k < closed1.len() {
                    assert(cur[j] == closed1[j]);
                    assert(cur[k] == closed1[k]);
                    assert(closed1[j] == cur0[j]);
                    assert(closed1[k] == cur0[k]);
                } else if k == closed1.len() {
                    assert(cur[j] == closed1[j]);
                    if count == 1 {
                        assert(closed1 == cur0);
                        assert(cur0.last() == run_view(run0, count0, iv0));
                    } else {
                        assert(closed1 == closed0);
                    }
                }
            }
            if count == 1 {
                if cur0.len() > 0 {
                    assert(i > 0);
                    assert(steps@[i - 1] == run0);
                    assert(steps@[i as int] == st);
                    assert(cur0.last() == run_view(run0, count0, iv0));
                }
                lemma_deletes_first_extend(cur0, cur);
            } else {
                assert(cur0.drop_last() =~= closed0);
                lemma_deletes_first_extend(cur0, cur);
            }
        }
        i = i + 1;
    }
    let ghost closed = ops@.map_values(|op: PatchOp<T>| op@);
    let ghost last = run_view(run, count as nat, vals(items@));
    if count > 0 {
        let op = run_op(run, count, items);
        ops.push(op);
        assert(ops@.map_values(|op: PatchOp<T>| op@) =~= closed.push(last));
    }
    let p = Patch { ops };
    proof {
        assert(steps@.subrange(steps@.len() as int, steps@.len() as int) =~= Seq::<Step>::empty());
    }
    p
}

/// Appends `tail` to `steps`.
fn append_steps(steps: &mut Vec<Step>, tail: &Vec<Step>)
    ensures
        final(steps)@ == old(steps)@ + tail@,
{
    let mut i: usize = 0;
    while i < tail.len()
        invariant
            i <= tail.len(),
            steps@ == old(steps)@ + tail@.subrange(0, i as int),
        decreases tail.len() - i,
    {
        steps.push(tail[i]);
        i += 1;
        assert(steps@ =~= old(steps)@ + tail@.subrange(0, i as int));
    }
    assert(tail@.subrange(0, tail@.len() as int) =~= tail@);
}

/// A path through the trimmed middle, between runs of free moves over the
/// common prefix and suffix, is a shortest path through the whole.
proof fn lemma_trimmed_path<V>(
    av: Seq<V>,
    bv: Seq<V>,
    p: int,
    q: int,
    ca: Seq<V>,
    cb: Seq<V>,
    s1: Seq<Step>,
    middle: Seq<Step>,
    s2: Seq<Step>,
    tail: Seq<Step>,
)
    requires
        0 <= p,
        0 <= q,
        p + q <= av.len(),
        p + q <= bv.len(),
        av.subrange(0, p) == bv.subrange(0, p),
        av.subrange(av.len() - q, av.len() as int) == bv.subrange(bv.len() - q, bv.len() as int),
        ca == av.subrange(p, av.len() - q),
        cb == bv.subrange(p, bv.len() - q),
        s1 == Seq::new(p as nat, |i: int| Step::Keep),
        tail == Seq::new(q as nat, |i: int| Step::Keep),
        s2 == s1 + middle,
        walk(ca, cb, middle, 0, 0) == Some((ca.len() as int, cb.len() as int)),
        edits(middle) == lcs_distance(ca, cb),
    ensures
        walk(av, bv, s2 + tail, 0, 0) == Some((av.len() as int, bv.len() as int)),
        edits(s2 + tail) == lcs_distance(av, bv),
{
    let n = av.len() as int;
    let m = bv.len() as int;
    lemma_walk_keeps(av, bv, p as nat, 0, 0);
    lemma_walk_shift(av, bv, p, ca, cb, middle, 0, 0);
    lemma_walk_keeps(av, bv, q as nat, n - q, m - q);
    lemma_walk_concat(av, bv, s1, middle, 0, 0);
    lemma_walk_concat(av, bv, s2, tail, 0, 0);
    lemma_lcs_trim_prefix(av, bv, p);
    let a2 = av.subrange(p, n);
    let b2 = bv.subrange(p, m);
    assert(a2.subrange(a2.len() - q, a2.len() as int) =~= av.subrange(n - q, n));
    assert(b2.subrange(b2.len() - q, b2.len() as int) =~= bv.subrange(m - q, m));
    lemma_lcs_trim_suffix(a2, b2, q);
    assert(a2.subrange(0, a2.len() - q) =~= ca);
    assert(b2.subrange(0, b2.len() - q) =~= cb);
}

/// Computes a minimal edit script from `a` to `b`.
pub fn diff<T: Token>(a: &[T], b: &[T]) -> (p: Patch<T>)
    requires
        2 * (a.len() + b.len()) + 2 <= isize::MAX,
    ensures
        apply_spec(p@, vals(a@)) == Ok::<Seq<T::V>, PatchError>(vals(b@)),
        distance(p@) == lcs_distance(vals(a@), vals(b@)),
        coalesced(p@),
        deletes_first(p@),
{
    let ghost av = vals(a@);
    let ghost bv = vals(b@);
    // Trimming a common prefix and suffix cannot change the edit distance and
    // shrinks the quadratic part of the work.
    let mut prefix: usize = 0;
    while prefix < a.len() && prefix < b.len() && a[prefix].same(&b[prefix])
        invariant
            av == vals(a@),
            bv == vals(b@),
            prefix <= a.len(),
            prefix <= b.len(),
            av.subrange(0, prefix as int) == bv.subrange(0, prefix as int),
        decreases a.len() - prefix,
    {
        assert(av[prefix as int] == bv[prefix as int]);
        assert(av.subrange(0, prefix + 1) =~= av.subrange(0, prefix as int).push(av[prefix as int]));
        assert(bv.subrange(0, prefix + 1) =~= bv.subrange(0, prefix as int).push(bv[prefix as int]));
        prefix += 1;
    }
    let mut suffix: usize = 0;
    while suffix < a.len() - prefix && suffix < b.len() - prefix && a[a.len() - 1 - suffix].same(
        &b[b.len() - 1 - suffix],
    )
        invariant
            av == vals(a@),
            bv == vals(b@),
            prefix <= a.len(),
            prefix <= b.len(),
            suffix <= a.len() - prefix,
            suffix <= b.len() - prefix,
            av.subrange(a.len() - suffix, a.len() as int) == bv.subrange(b.len() - suffix, b.len() as int),
        decreases a.len() - suffix,
    {
        let ghost xa = a.len() - 1 - suffix;
        let ghost xb = b.len() - 1 - suffix;
        assert(av[xa] == bv[xb]);
        assert(av.subrange(xa, a.len() as int) =~= seq![av[xa]] + av.subrange(a.len() - suffix, a.len() as int));
        assert(bv.subrange(xb, b.len() as int) =~= seq![bv[xb]] + bv.subrange(b.len() - suffix, b.len() as int));
        suffix += 1;
    }
    let core_a = vstd::slice::slice_subrange(a, prefix, a.len() - suffix);
    let core_b = vstd::slice::slice_subrange(b, prefix, b.len() - suffix);
    let ghost ca = vals(core_a@);
    let ghost cb = vals(core_b@);
    assert(ca =~= av.subrange(prefix as int, a.len() - suffix));
    assert(cb =~= bv.subrange(prefix as int, b.len() - suffix));
    let mut steps = repeat_step(Step::Keep, prefix);
    let middle = myers_steps(core_a, core_b);
    let ghost s1 = steps@;
    append_steps(&mut steps, &middle);
    let ghost s2 = steps@;
    let tail = repeat_step(Step::Keep, suffix);
    append_steps(&mut steps, &tail);
    proof {
        lemma_trimmed_path(av, bv, prefix as int, suffix as int, ca, cb, s1, middle@, s2, tail@);
    }
    let p = coalesce(a, b, &steps);
    proof {
        lemma_realizes_apply(p@, seq![], av, bv, 0, 0, a.len() as int, b.len() as int);
        assert(p@ + Seq::<OpView<T::V>>::empty() =~= p@);
        assert(bv.subrange(0, b.len() as int) =~= bv);
        assert(bv + Seq::<T::V>::empty() =~= bv);
    }
    p
}


pub proof fn lemma_distance_front<V>(ops: Seq<OpView<V>>)
    requires
        ops.len() > 0,
    ensures
        distance(ops) == op_edits(ops[0]) + distance(ops.drop_first()),
    decreases ops.len(),
{
    if ops.len() > 1 {
        lemma_distance_front(ops.drop_last());
        assert(ops.drop_last().drop_first() =~= ops.drop_first().drop_last());
        assert(ops.drop_last()[0] == ops[0]);
        assert(ops.drop_first().last() == ops.last());
        assert(distance(ops.drop_first()) == distance(ops.drop_first().drop_last()) + op_edits(ops.last()));
        assert(distance(ops) == distance(ops.drop_last()) + op_edits(ops.last()));
    } else {
        assert(ops.drop_first().len() == 0);
        assert(ops.drop_last().len() == 0);
        assert(ops.last() == ops[0]);
        assert(distance(ops.drop_first()) == 0);
        assert(distance(ops.drop_last()) == 0);
        assert(distance(ops) == distance(ops.drop_last()) + op_edits(ops.last()));
    }
}

proof fn lemma_dist_runs<V>(a: Seq<V>, b: Seq<V>, x: int, y: int, c: nat)
    requires
        x >= 0,
        y >= 0,
    ensures
        dist(a, b, x + c, y) <= dist(a, b, x, y) + c,
        dist(a, b, x, y + c) <= dist(a, b, x, y) + c,
        x + c <= a.len() && y + c <= b.len() && a.subrange(x, x + c) == b.subrange(y, y + c) ==> dist(
            a,
            b,
            x + c,
            y + c,
        ) <= dist(a, b, x, y),
    decreases c,
{
    if c > 0 {
        lemma_dist_runs(a, b, x, y, (c - 1) as nat);
        lemma_dist_step(a, b, x + c - 1, y);
        lemma_dist_step(a, b, x, y + c - 1);
        if x + c <= a.len() && y + c <= b.len() && a.subrange(x, x + c) == b.subrange(y, y + c) {
            assert(a.subrange(x, x + c - 1) =~= a.subrange(x, x + c).drop_last());
            assert(b.subrange(y, y + c - 1) =~= b.subrange(y, y + c).drop_last());
            assert(a[x + c - 1] == a.subrange(x, x + c)[c - 1]);
            assert(b[y + c - 1] == b.subrange(y, y + c)[c - 1]);
            lemma_dist_diag(a, b, x + c - 1, y + c - 1);
        }
    }
}

proof fn lemma_apply_cost<V>(ops: Seq<OpView<V>>, a: Seq<V>, b: Seq<V>, pos: nat, y: int)
    requires
        0 <= y <= b.len(),
        apply_from(ops, a, pos) == Ok::<Seq<V>, PatchError>(b.subrange(y, b.len() as int)),
    ensures
        dist(a, b, a.len() as int, b.len() as int) <= dist(a, b, pos as int, y) + distance(ops),
    decreases ops.len(),
{
    if ops.len() > 0 {
        lemma_distance_front(ops);
        let rest = ops.drop_first();
        match ops[0] {
            OpView::Equal(c) => {
                let t = apply_from(rest, a, pos + c)->Ok_0;
                let seg = a.subrange(pos as int, (pos + c) as int);
                let bs = b.subrange(y, b.len() as int);
                assert(bs == seg + t);
                assert(seg.len() == c);
                assert(bs.subrange(0, c as int) =~= seg);
                assert(bs.subrange(c as int, bs.len() as int) =~= t);
                assert(b.subrange(y, y + c) =~= bs.subrange(0, c as int));
                assert(b.subrange(y + c, b.len() as int) =~= bs.subrange(c as int, bs.len() as int));
                lemma_apply_cost(rest, a, b, pos + c, y + c);
                lemma_dist_runs(a, b, pos as int, y, c);
            },
            OpView::Delete(c) => {
                lemma_apply_cost(rest, a, b, pos + c, y);
                lemma_dist_runs(a, b, pos as int, y, c);
            },
            OpView::Insert(items) => {
                let t = apply_from(rest, a, pos)->Ok_0;
                let bs = b.subrange(y, b.len() as int);
                assert(bs == items + t);
                assert(bs.subrange(items.len() as int, bs.len() as int) =~= t);
                assert(b.subrange(y + items.len(), b.len() as int) =~= bs.subrange(items.len() as int, bs.len() as int));
                lemma_apply_cost(rest, a, b, pos, y + items.len());
                lemma_dist_runs(a, b, pos as int, y, items.len());
            },
        }
    } else {
        assert(b.subrange(y, b.len() as int).len() == 0);
    }
}

/// No script that turns `a` into `b` deletes and inserts fewer elements
/// than their edit distance, so the scripts `diff` returns are minimal.
pub proof fn law_no_script_beats_the_edit_distance<V>(ops: Seq<OpView<V>>, a: Seq<V>, b: Seq<V>)
    requires
        apply_spec(ops, a) == Ok::<Seq<V>, PatchError>(b),
    ensures
        distance(ops) >= lcs_distance(a, b),
{
    assert(b.subrange(0, b.len() as int) =~= b);
    lemma_apply_cost(ops, a, b, 0, 0);
}

proof fn lemma_apply_shift<V>(ops: Seq<OpView<V>>, pre: Seq<V>, t: Seq<V>, pos: nat)
    requires
        apply_from(ops, t, pos) is Ok,
    ensures
        apply_from(ops, pre + t, pre.len() + pos) == apply_from(ops, t, pos),
    decreases ops.len(),
{
    let s = pre + t;
    if ops.len() > 0 {
        let rest = ops.drop_first();
        match ops[0] {
            OpView::Equal(c) => {
                lemma_apply_shift(rest, pre, t, pos + c);
                assert(s.subrange((pre.len() + pos) as int, (pre.len() + pos + c) as int) =~= t.subrange(pos as int, (pos + c) as int));
            },
            OpView::Delete(c) => {
                lemma_apply_shift(rest, pre, t, pos + c);
            },
            OpView::Insert(items) => {
                lemma_apply_shift(rest, pre, t, pos);
            },
        }
    }
}

proof fn lemma_invert_apply<V>(ops: Seq<OpView<V>>, a: Seq<V>, pos: nat)
    requires
        apply_from(ops, a, pos) is Ok,
    ensures
        invert_from(ops, a, pos) is Ok,
        pos <= a.len(),
        apply_from(invert_from(ops, a, pos)->Ok_0, apply_from(ops, a, pos)->Ok_0, 0) == Ok::<
            Seq<V>,
            PatchError,
        >(a.subrange(pos as int, a.len() as int)),
    decreases ops.len(),
{
    if ops.len() == 0 {
        assert(a.subrange(pos as int, a.len() as int) =~= Seq::<V>::empty());
    } else {
        let rest = ops.drop_first();
        match ops[0] {
            OpView::Equal(c) => {
                lemma_invert_apply(rest, a, pos + c);
                let q = invert_from(rest, a, pos + c)->Ok_0;
                let t = apply_from(rest, a, pos + c)->Ok_0;
                let seg = a.subrange(pos as int, (pos + c) as int);
                let inv = seq![OpView::Equal(c)] + q;
                assert(inv[0] == OpView::<V>::Equal(c));
                assert(inv.drop_first() =~= q);
                lemma_apply_shift(q, seg, t, 0);
                assert((seg + t).subrange(0, c as int) =~= seg);
                assert(seg + a.subrange((pos + c) as int, a.len() as int) =~= a.subrange(pos as int, a.len() as int));
            },
            OpView::Delete(c) => {
                lemma_invert_apply(rest, a, pos + c);
                let q = invert_from(rest, a, pos + c)->Ok_0;
                let seg = a.subrange(pos as int, (pos + c) as int);
                let inv = seq![OpView::Insert(seg)] + q;
                assert(inv[0] == OpView::Insert(seg));
                assert(inv.drop_first() =~= q);
                assert(seg + a.subrange((pos + c) as int, a.len() as int) =~= a.subrange(pos as int, a.len() as int));
            },
            OpView::Insert(items) => {
                lemma_invert_apply(rest, a, pos);
                let q = invert_from(rest, a, pos)->Ok_0;
                let t = apply_from(rest, a, pos)->Ok_0;
                let inv = seq![OpView::Delete(items.len())] + q;
                assert(inv[0] == OpView::<V>::Delete(items.len()));
                assert(inv.drop_first() =~= q);
                lemma_apply_shift(q, items, t, 0);
            },
        }
    }
}

/// A script that applies to `a` can be inverted against `a`, and the
/// inverse turns the result back into `a`.
pub proof fn law_invert_undoes_apply<V>(ops: Seq<OpView<V>>, a: Seq<V>)
    requires
        apply_spec(ops, a) is Ok,
    ensures
        invert_from(ops, a, 0) is Ok,
        apply_spec(invert_from(ops, a, 0)->Ok_0, apply_spec(ops, a)->Ok_0) == Ok::<Seq<V>, PatchError>(a),
{
    lemma_invert_apply(ops, a, 0);
    assert(a.subrange(0, a.len() as int) =~= a);
}

} // verus!

verus! {

/// Inverting a script keeps its edit distance: every deletion becomes an
/// insertion of as many elements, and every insertion a deletion.
pub proof fn law_invert_keeps_distance<V>(ops: Seq<OpView<V>>, a: Seq<V>, pos: nat)
    ensures
        invert_from(ops, a, pos) matches Ok(inv) ==> distance(inv) == distance(ops),
    decreases ops.len(),
{
    if ops.len() > 0 {
        let first = ops[0];
        let next = match first {
            OpView::Equal(n) => pos + n,
            OpView::Delete(n) => pos + n,
            OpView::Insert(_) => pos,
        };
        law_invert_keeps_distance(ops.drop_first(), a, next);
        lemma_distance_front(ops);
        if invert_from(ops, a, pos) is Ok {
            let inv = invert_from(ops, a, pos)->Ok_0;
            let rest = invert_from(ops.drop_first(), a, next)->Ok_0;
            let head = match first {
                OpView::Equal(n) => OpView::Equal(n),
                OpView::Delete(n) => OpView::Insert(a.subrange(pos as int, (pos + n) as int)),
                OpView::Insert(items) => OpView::Delete(items.len()),
            };
            assert(inv == seq![head] + rest);
            assert((seq![head] + rest).drop_first() =~= rest);
            lemma_distance_front(seq![head] + rest);
        }
    }
}

} // verus!
