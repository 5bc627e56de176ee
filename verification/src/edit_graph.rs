//! The edit graph of two sequences, and the facts about it that Myers'
//! algorithm relies on.
//!
//! Point `(x, y)` stands for "the first `x` elements of `a` turned into the
//! first `y` elements of `b`". A move right deletes `a[x]`, a move down
//! inserts `b[y]`, and a diagonal move (only where `a[x] == b[y]`) keeps an
//! element for free. `dist(x, y)` is the fewest deletions plus insertions
//! that reach `(x, y)`; `dist(|a|, |b|)` is the edit distance of `a` and
//! `b`. Points past the ends of `a` or `b` are allowed (only the free
//! diagonal is not), which is the plane the search explores.

use vstd::prelude::*;

verus! {

/// A diagonal move from `(x, y)` is possible: both elements exist and agree.
pub open spec fn diag_ok<V>(a: Seq<V>, b: Seq<V>, x: int, y: int) -> bool {
    0 <= x < a.len() && 0 <= y < b.len() && a[x] == b[y]
}

/// The smaller of two numbers.
pub open spec fn min_nat(p: nat, q: nat) -> nat {
    if p <= q {
        p
    } else {
        q
    }
}

/// The fewest deletions plus insertions that lead from `(0, 0)` to `(x, y)`.
pub open spec fn dist<V>(a: Seq<V>, b: Seq<V>, x: int, y: int) -> nat
    decreases (if x > 0 { x } else { 0 }) + (if y > 0 { y } else { 0 }),
{
    if x <= 0 && y <= 0 {
        0
    } else if x <= 0 {
        dist(a, b, 0, y - 1) + 1
    } else if y <= 0 {
        dist(a, b, x - 1, 0) + 1
    } else {
        let r = min_nat(dist(a, b, x - 1, y), dist(a, b, x, y - 1)) + 1;
        if diag_ok(a, b, x - 1, y - 1) {
            min_nat(r, dist(a, b, x - 1, y - 1))
        } else {
            r
        }
    }
}

/// The edit distance of `a` and `b`: the fewest elements deleted plus
/// inserted by any edit script from `a` to `b`.
pub open spec fn lcs_distance<V>(a: Seq<V>, b: Seq<V>) -> nat {
    dist(a, b, a.len() as int, b.len() as int)
}

/// From `x` on diagonal `k` (where `y = x - k`), as far as equal elements go.
pub open spec fn snake<V>(a: Seq<V>, b: Seq<V>, x: int, k: int) -> int
    decreases (if x < a.len() { a.len() - x } else { 0 }),
{
    if diag_ok(a, b, x, x - k) {
        snake(a, b, x + 1, k)
    } else {
        x
    }
}

/// Where Myers' search starts on diagonal `k` in round `d`: one move from
/// the furthest point of round `d - 1` on a neighbouring diagonal.
pub open spec fn start<V>(a: Seq<V>, b: Seq<V>, d: int, k: int) -> int
    decreases d, 0int,
{
    if d <= 0 {
        0
    } else if k == -d {
        furthest(a, b, d - 1, k + 1)
    } else if k == d {
        furthest(a, b, d - 1, k - 1) + 1
    } else if furthest(a, b, d - 1, k - 1) < furthest(a, b, d - 1, k + 1) {
        furthest(a, b, d - 1, k + 1)
    } else {
        furthest(a, b, d - 1, k - 1) + 1
    }
}

/// The furthest `x` that round `d` of Myers' search reaches on diagonal `k`.
pub open spec fn furthest<V>(a: Seq<V>, b: Seq<V>, d: int, k: int) -> int
    decreases d, 1int,
{
    snake(a, b, start(a, b, d, k), k)
}

/// Diagonal `k` is searched in round `d`.
pub open spec fn on_round(d: int, k: int) -> bool {
    &&& d >= 0
    &&& -d <= k <= d
    &&& (d - k) % 2 == 0
}

/// Where the search stops: `x` and `y` both at or past the ends.
pub open spec fn at_end<V>(a: Seq<V>, b: Seq<V>, x: int, k: int) -> bool {
    x >= a.len() && x - k >= b.len()
}

/// A snake ends no earlier than it starts, and at a point where no free
/// move is possible; it never passes the end of `a` from before it.
pub proof fn lemma_snake<V>(a: Seq<V>, b: Seq<V>, x: int, k: int)
    ensures
        snake(a, b, x, k) >= x,
        !diag_ok(a, b, snake(a, b, x, k), snake(a, b, x, k) - k),
        x <= a.len() ==> snake(a, b, x, k) <= a.len(),
        x - k <= b.len() ==> snake(a, b, x, k) - k <= b.len(),
        snake(a, b, x, k) > x ==> x < a.len() && x - k < b.len(),
        dist(a, b, snake(a, b, x, k), snake(a, b, x, k) - k) <= dist(a, b, x, x - k),
    decreases (if x < a.len() { a.len() - x } else { 0 }),
{
    if diag_ok(a, b, x, x - k) {
        lemma_snake(a, b, x + 1, k);
        lemma_dist_diag(a, b, x, x - k);
    }
}

/// A free move never costs more.
pub proof fn lemma_dist_diag<V>(a: Seq<V>, b: Seq<V>, x: int, y: int)
    requires
        diag_ok(a, b, x, y),
    ensures
        dist(a, b, x + 1, y + 1) <= dist(a, b, x, y),
{
}

/// One move right or down costs at most one.
pub proof fn lemma_dist_step<V>(a: Seq<V>, b: Seq<V>, x: int, y: int)
    requires
        x >= 0,
        y >= 0,
    ensures
        dist(a, b, x + 1, y) <= dist(a, b, x, y) + 1,
        dist(a, b, x, y + 1) <= dist(a, b, x, y) + 1,
{
}

/// Going right `x` times and down `y` times reaches `(x, y)`.
pub proof fn lemma_dist_upper<V>(a: Seq<V>, b: Seq<V>, x: int, y: int)
    requires
        x >= 0,
        y >= 0,
    ensures
        dist(a, b, x, y) <= x + y,
    decreases x + y,
{
    if x > 0 {
        lemma_dist_upper(a, b, x - 1, y);
        lemma_dist_step(a, b, x - 1, y);
    } else if y > 0 {
        lemma_dist_upper(a, b, x, y - 1);
        lemma_dist_step(a, b, x, y - 1);
    }
}

/// Reaching diagonal `x - y` takes at least that many moves, and the
/// number of moves has its parity.
pub proof fn lemma_dist_lower<V>(a: Seq<V>, b: Seq<V>, x: int, y: int)
    requires
        x >= 0,
        y >= 0,
    ensures
        dist(a, b, x, y) >= x - y,
        dist(a, b, x, y) >= y - x,
        (dist(a, b, x, y) - (x - y)) % 2 == 0,
    decreases x + y,
{
    if x == 0 && y == 0 {
    } else if x == 0 {
        lemma_dist_lower(a, b, 0, y - 1);
    } else if y == 0 {
        lemma_dist_lower(a, b, x - 1, 0);
    } else {
        lemma_dist_lower(a, b, x - 1, y);
        lemma_dist_lower(a, b, x, y - 1);
        if diag_ok(a, b, x - 1, y - 1) {
            lemma_dist_lower(a, b, x - 1, y - 1);
        }
    }
}

/// Points past the ends cost at least as much as the corner they are past,
/// plus one move for each step beyond it.
pub proof fn lemma_dist_excess<V>(a: Seq<V>, b: Seq<V>, x: int, y: int)
    requires
        x >= 0,
        y >= 0,
    ensures
        ({
            let cx = if x < a.len() { x } else { a.len() as int };
            let cy = if y < b.len() { y } else { b.len() as int };
            dist(a, b, x, y) >= dist(a, b, cx, cy) + (x - cx) + (y - cy)
        }),
    decreases x + y,
{
    let n = a.len() as int;
    let m = b.len() as int;
    if x <= n && y <= m {
    } else if x == 0 {
        lemma_dist_excess(a, b, 0, y - 1);
    } else if y == 0 {
        lemma_dist_excess(a, b, x - 1, 0);
    } else {
        lemma_dist_excess(a, b, x - 1, y);
        lemma_dist_excess(a, b, x, y - 1);
        let cx = if x < n { x } else { n };
        let cy = if y < m { y } else { m };
        if x <= n {
            lemma_dist_step(a, b, x - 1, cy);
        }
        if y <= m {
            lemma_dist_step(a, b, cx, y - 1);
        }
    }
}

/// Bounds on the search's points.
pub proof fn lemma_furthest_bounds<V>(a: Seq<V>, b: Seq<V>, d: int, k: int)
    requires
        on_round(d, k),
    ensures
        furthest(a, b, d, k) >= 0,
        furthest(a, b, d, k) - k >= 0,
        furthest(a, b, d, k) <= a.len() + d,
        furthest(a, b, d, k) >= start(a, b, d, k),
        start(a, b, d, k) >= 0,
        start(a, b, d, k) - k >= 0,
    decreases d,
{
    lemma_snake(a, b, start(a, b, d, k), k);
    if d > 0 {
        if k > -d {
            lemma_furthest_bounds(a, b, d - 1, k - 1);
        }
        if k < d {
            lemma_furthest_bounds(a, b, d - 1, k + 1);
        }
    }
    let s = start(a, b, d, k);
    if s > a.len() {
        assert(snake(a, b, s, k) == s);
    }
}

/// Every point the search reaches in round `d` costs at most `d`.
pub proof fn lemma_furthest_sound<V>(a: Seq<V>, b: Seq<V>, d: int, k: int)
    requires
        on_round(d, k),
    ensures
        dist(a, b, furthest(a, b, d, k), furthest(a, b, d, k) - k) <= d,
    decreases d,
{
    let s = start(a, b, d, k);
    lemma_snake(a, b, s, k);
    lemma_furthest_bounds(a, b, d, k);
    if d > 0 {
        if k == -d || (k != d && furthest(a, b, d - 1, k - 1) < furthest(a, b, d - 1, k + 1)) {
            lemma_furthest_sound(a, b, d - 1, k + 1);
            lemma_furthest_bounds(a, b, d - 1, k + 1);
            let p = furthest(a, b, d - 1, k + 1);
            lemma_dist_step(a, b, p, p - (k + 1));
        } else {
            lemma_furthest_sound(a, b, d - 1, k - 1);
            lemma_furthest_bounds(a, b, d - 1, k - 1);
            let p = furthest(a, b, d - 1, k - 1);
            lemma_dist_step(a, b, p, p - (k - 1));
        }
    }
}

/// Myers' lemma: no point on diagonal `k` that costs at most `d` lies
/// beyond the furthest point of round `d` on that diagonal.
pub proof fn lemma_furthest_dominates<V>(a: Seq<V>, b: Seq<V>, d: int, x: int, y: int)
    requires
        x >= 0,
        y >= 0,
        on_round(d, x - y),
        dist(a, b, x, y) <= d,
    ensures
        x <= furthest(a, b, d, x - y),
    decreases x + y,
{
    let k = x - y;
    lemma_furthest_bounds(a, b, d, k);
    if x == 0 && y == 0 {
    } else if x > 0 && y > 0 && diag_ok(a, b, x - 1, y - 1) && dist(a, b, x, y) == dist(
        a,
        b,
        x - 1,
        y - 1,
    ) {
        lemma_furthest_dominates(a, b, d, x - 1, y - 1);
        lemma_snake(a, b, start(a, b, d, k), k);
    } else if x > 0 && dist(a, b, x, y) == dist(a, b, x - 1, y) + 1 {
        lemma_dist_lower(a, b, x - 1, y);
        lemma_furthest_dominates(a, b, d - 1, x - 1, y);
        lemma_furthest_bounds(a, b, d - 1, k - 1);
        if k < d {
            lemma_furthest_bounds(a, b, d - 1, k + 1);
        }
    } else {
        assert(y > 0 && dist(a, b, x, y) == dist(a, b, x, y - 1) + 1);
        lemma_dist_lower(a, b, x, y - 1);
        lemma_furthest_dominates(a, b, d - 1, x, y - 1);
        lemma_furthest_bounds(a, b, d - 1, k + 1);
        if k > -d {
            lemma_furthest_bounds(a, b, d - 1, k - 1);
        }
    }
}

/// The first round whose search reaches past both ends reaches exactly
/// `(|a|, |b|)`, on diagonal `|a| - |b|`, in `dist(|a|, |b|)` rounds.
pub proof fn lemma_first_end_is_corner<V>(a: Seq<V>, b: Seq<V>, d: int, k: int)
    requires
        on_round(d, k),
        at_end(a, b, furthest(a, b, d, k), k),
        forall|e: int, j: int| #![trigger furthest(a, b, e, j)]
            on_round(e, j) && e < d ==> !at_end(a, b, furthest(a, b, e, j), j),
    ensures
        furthest(a, b, d, k) == a.len(),
        k == a.len() - b.len(),
        d == lcs_distance(a, b),
{
    let n = a.len() as int;
    let m = b.len() as int;
    let x = furthest(a, b, d, k);
    lemma_furthest_bounds(a, b, d, k);
    lemma_furthest_sound(a, b, d, k);
    lemma_dist_excess(a, b, x, x - k);
    let best = dist(a, b, n, m) as int;
    lemma_dist_lower(a, b, n, m);
    assert(best <= d);
    lemma_furthest_dominates(a, b, best, n, m);
    lemma_furthest_bounds(a, b, best, n - m);
    if best < d {
        assert(at_end(a, b, furthest(a, b, best, n - m), n - m));
    }
}


/// Round `d` of the search ends nowhere past both ends before round `d`.
pub open spec fn no_end_before<V>(a: Seq<V>, b: Seq<V>, d: int) -> bool {
    forall|e: int, j: int| #![trigger furthest(a, b, e, j)]
        on_round(e, j) && e < d ==> !at_end(a, b, furthest(a, b, e, j), j)
}

/// While no earlier round reached the end, the rounds so far number at most
/// the edit distance.
pub proof fn lemma_no_end_bound<V>(a: Seq<V>, b: Seq<V>, d: int)
    requires
        no_end_before(a, b, d),
    ensures
        d <= lcs_distance(a, b),
        lcs_distance(a, b) <= a.len() + b.len(),
{
    let n = a.len() as int;
    let m = b.len() as int;
    let best = lcs_distance(a, b) as int;
    lemma_dist_lower(a, b, n, m);
    lemma_dist_upper(a, b, n, m);
    if best < d {
        lemma_furthest_dominates(a, b, best, n, m);
        assert(at_end(a, b, furthest(a, b, best, n - m), n - m));
    }
}

/// Every point a snake passes over is a free move.
pub proof fn lemma_snake_diag<V>(a: Seq<V>, b: Seq<V>, x: int, k: int, i: int)
    requires
        x <= i < snake(a, b, x, k),
    ensures
        diag_ok(a, b, i, i - k),
    decreases (if x < a.len() { a.len() - x } else { 0 }),
{
    if diag_ok(a, b, x, x - k) && i > x {
        lemma_snake_diag(a, b, x + 1, k, i);
    }
}

/// The first row and column of the edit graph cost one per move.
pub proof fn lemma_dist_edges<V>(a: Seq<V>, b: Seq<V>, x: int, y: int)
    requires
        x >= 0,
        y >= 0,
    ensures
        dist(a, b, 0, y) == y,
        dist(a, b, x, 0) == x,
    decreases x + y,
{
    if y > 0 {
        lemma_dist_edges(a, b, x, y - 1);
    }
    if x > 0 {
        lemma_dist_edges(a, b, x - 1, y);
    }
}

/// Stepping one move back along an edge saves at most one.
pub proof fn lemma_dist_back<V>(a: Seq<V>, b: Seq<V>, x: int, y: int)
    requires
        x >= 0,
        y >= 0,
    ensures
        y >= 1 ==> dist(a, b, x, y - 1) <= dist(a, b, x, y) + 1,
        x >= 1 ==> dist(a, b, x - 1, y) <= dist(a, b, x, y) + 1,
    decreases x + y,
{
    lemma_dist_edges(a, b, x, y);
    if x >= 1 && y >= 1 {
        lemma_dist_back(a, b, x - 1, y);
        lemma_dist_back(a, b, x, y - 1);
        lemma_dist_step(a, b, x - 1, y - 1);
    }
}

/// The cost of a point only depends on the elements before it.
pub proof fn lemma_dist_prefix<V>(a: Seq<V>, b: Seq<V>, p: int, q: int, x: int, y: int)
    requires
        0 <= x <= p <= a.len(),
        0 <= y <= q <= b.len(),
    ensures
        dist(a, b, x, y) == dist(a.subrange(0, p), b.subrange(0, q), x, y),
    decreases x + y,
{
    if x > 0 {
        lemma_dist_prefix(a, b, p, q, x - 1, y);
    }
    if y > 0 {
        lemma_dist_prefix(a, b, p, q, x, y - 1);
    }
    if x > 0 && y > 0 {
        lemma_dist_prefix(a, b, p, q, x - 1, y - 1);
        assert(diag_ok(a, b, x - 1, y - 1) == diag_ok(a.subrange(0, p), b.subrange(0, q), x - 1, y - 1));
    }
}

/// A common first element is kept for free.
pub proof fn lemma_dist_drop_first<V>(a: Seq<V>, b: Seq<V>, x: int, y: int)
    requires
        a.len() > 0,
        b.len() > 0,
        a[0] == b[0],
        x >= 1,
        y >= 1,
    ensures
        dist(a, b, x, y) == dist(a.drop_first(), b.drop_first(), x - 1, y - 1),
    decreases x + y,
{
    let a2 = a.drop_first();
    let b2 = b.drop_first();
    lemma_dist_edges(a, b, x, y);
    lemma_dist_edges(a2, b2, x, y);
    lemma_dist_edges(a, b, x - 1, y - 1);
    lemma_dist_edges(a2, b2, x - 1, y - 1);
    if x > 1 {
        lemma_dist_drop_first(a, b, x - 1, y);
    }
    if y > 1 {
        lemma_dist_drop_first(a, b, x, y - 1);
    }
    if x > 1 && y > 1 {
        lemma_dist_drop_first(a, b, x - 1, y - 1);
        assert(diag_ok(a, b, x - 1, y - 1) == diag_ok(a2, b2, x - 2, y - 2));
    }
}

/// A common prefix does not change the edit distance.
pub proof fn lemma_lcs_trim_prefix<V>(a: Seq<V>, b: Seq<V>, p: int)
    requires
        0 <= p <= a.len(),
        p <= b.len(),
        a.subrange(0, p) == b.subrange(0, p),
    ensures
        lcs_distance(a, b) == lcs_distance(
            a.subrange(p, a.len() as int),
            b.subrange(p, b.len() as int),
        ),
    decreases p,
{
    if p == 0 {
        assert(a.subrange(0, a.len() as int) =~= a);
        assert(b.subrange(0, b.len() as int) =~= b);
    } else {
        let a2 = a.drop_first();
        let b2 = b.drop_first();
        assert(a[0] == a.subrange(0, p)[0]);
        assert(b[0] == b.subrange(0, p)[0]);
        lemma_dist_drop_first(a, b, a.len() as int, b.len() as int);
        assert(a2.subrange(0, p - 1) =~= a.subrange(0, p).drop_first());
        assert(b2.subrange(0, p - 1) =~= b.subrange(0, p).drop_first());
        lemma_lcs_trim_prefix(a2, b2, p - 1);
        assert(a2.subrange(p - 1, a2.len() as int) =~= a.subrange(p, a.len() as int));
        assert(b2.subrange(p - 1, b2.len() as int) =~= b.subrange(p, b.len() as int));
    }
}

/// A common last element is kept for free.
pub proof fn lemma_lcs_drop_last<V>(a: Seq<V>, b: Seq<V>)
    requires
        a.len() > 0,
        b.len() > 0,
        a.last() == b.last(),
    ensures
        lcs_distance(a, b) == lcs_distance(a.drop_last(), b.drop_last()),
{
    let n = a.len() as int;
    let m = b.len() as int;
    lemma_dist_back(a, b, n - 1, m);
    lemma_dist_back(a, b, n, m - 1);
    lemma_dist_edges(a, b, n, m);
    assert(diag_ok(a, b, n - 1, m - 1));
    lemma_dist_prefix(a, b, n - 1, m - 1, n - 1, m - 1);
    assert(a.subrange(0, n - 1) =~= a.drop_last());
    assert(b.subrange(0, m - 1) =~= b.drop_last());
}

/// A common suffix does not change the edit distance.
pub proof fn lemma_lcs_trim_suffix<V>(a: Seq<V>, b: Seq<V>, s: int)
    requires
        0 <= s <= a.len(),
        s <= b.len(),
        a.subrange(a.len() - s, a.len() as int) == b.subrange(b.len() - s, b.len() as int),
    ensures
        lcs_distance(a, b) == lcs_distance(
            a.subrange(0, a.len() - s),
            b.subrange(0, b.len() - s),
        ),
    decreases s,
{
    if s == 0 {
        assert(a.subrange(0, a.len() as int) =~= a);
        assert(b.subrange(0, b.len() as int) =~= b);
    } else {
        let n = a.len() as int;
        let m = b.len() as int;
        assert(a.last() == a.subrange(n - s, n)[s - 1]);
        assert(b.last() == b.subrange(m - s, m)[s - 1]);
        lemma_lcs_drop_last(a, b);
        let a2 = a.drop_last();
        let b2 = b.drop_last();
        assert(a2.subrange(a2.len() - (s - 1), a2.len() as int) =~= a.subrange(n - s, n).drop_last());
        assert(b2.subrange(b2.len() - (s - 1), b2.len() as int) =~= b.subrange(m - s, m).drop_last());
        lemma_lcs_trim_suffix(a2, b2, s - 1);
        assert(a2.subrange(0, a2.len() - (s - 1)) =~= a.subrange(0, n - s));
        assert(b2.subrange(0, b2.len() - (s - 1)) =~= b.subrange(0, m - s));
    }
}

/// One unit move through the edit graph.
#[derive(Clone, Copy, Debug, PartialEq, Eq, Structural)]
pub enum Step {
    /// A free diagonal move: the element is kept.
    Keep,
    /// A move right: the element of `a` is deleted.
    Del,
    /// A move down: the element of `b` is inserted.
    Ins,
}

/// Following `s` from `(x, y)`: where it ends, or `None` if some move is
/// not possible there.
pub open spec fn walk<V>(a: Seq<V>, b: Seq<V>, s: Seq<Step>, x: int, y: int) -> Option<(int, int)>
    decreases s.len(),
{
    if s.len() == 0 {
        Some((x, y))
    } else {
        match s[0] {
            Step::Keep => if diag_ok(a, b, x, y) {
                walk(a, b, s.drop_first(), x + 1, y + 1)
            } else {
                None
            },
            Step::Del => if 0 <= x < a.len() {
                walk(a, b, s.drop_first(), x + 1, y)
            } else {
                None
            },
            Step::Ins => if 0 <= y < b.len() {
                walk(a, b, s.drop_first(), x, y + 1)
            } else {
                None
            },
        }
    }
}

/// Moves that delete or insert.
pub open spec fn edits(s: Seq<Step>) -> nat
    decreases s.len(),
{
    if s.len() == 0 {
        0
    } else {
        edits(s.drop_first()) + if s[0] == Step::Keep {
            0nat
        } else {
            1nat
        }
    }
}

/// Following two paths one after the other.
pub proof fn lemma_walk_concat<V>(a: Seq<V>, b: Seq<V>, s1: Seq<Step>, s2: Seq<Step>, x: int, y: int)
    ensures
        walk(a, b, s1 + s2, x, y) == (match walk(a, b, s1, x, y) {
            Some(p) => walk(a, b, s2, p.0, p.1),
            None => None,
        }),
        edits(s1 + s2) == edits(s1) + edits(s2),
    decreases s1.len(),
{
    if s1.len() == 0 {
        assert(s1 + s2 =~= s2);
    } else {
        assert((s1 + s2).drop_first() =~= s1.drop_first() + s2);
        assert((s1 + s2)[0] == s1[0]);
        match s1[0] {
            Step::Keep => lemma_walk_concat(a, b, s1.drop_first(), s2, x + 1, y + 1),
            Step::Del => lemma_walk_concat(a, b, s1.drop_first(), s2, x + 1, y),
            Step::Ins => lemma_walk_concat(a, b, s1.drop_first(), s2, x, y + 1),
        }
    }
}

/// A walk only moves right and down, and costs at least what its end
/// costs beyond its start.
pub proof fn lemma_walk_cost<V>(a: Seq<V>, b: Seq<V>, s: Seq<Step>, x: int, y: int)
    requires
        x >= 0,
        y >= 0,
        walk(a, b, s, x, y) is Some,
    ensures
        x <= walk(a, b, s, x, y).unwrap().0,
        y <= walk(a, b, s, x, y).unwrap().1,
        walk(a, b, s, x, y).unwrap().0 <= a.len() || walk(a, b, s, x, y).unwrap().0 == x,
        walk(a, b, s, x, y).unwrap().1 <= b.len() || walk(a, b, s, x, y).unwrap().1 == y,
        dist(a, b, walk(a, b, s, x, y).unwrap().0, walk(a, b, s, x, y).unwrap().1) <= dist(a, b, x, y) + edits(s),
    decreases s.len(),
{
    if s.len() > 0 {
        match s[0] {
            Step::Keep => {
                lemma_walk_cost(a, b, s.drop_first(), x + 1, y + 1);
                lemma_dist_diag(a, b, x, y);
            },
            Step::Del => {
                lemma_walk_cost(a, b, s.drop_first(), x + 1, y);
                lemma_dist_step(a, b, x, y);
            },
            Step::Ins => {
                lemma_walk_cost(a, b, s.drop_first(), x, y + 1);
                lemma_dist_step(a, b, x, y);
            },
        }
    }
}

/// A walk through parts of `a` and `b` is a walk through the whole, moved
/// by the parts' offsets.
pub proof fn lemma_walk_shift<V>(
    a: Seq<V>,
    b: Seq<V>,
    p: int,
    a2: Seq<V>,
    b2: Seq<V>,
    s: Seq<Step>,
    x: int,
    y: int,
)
    requires
        0 <= p,
        p + a2.len() <= a.len(),
        p + b2.len() <= b.len(),
        a2 == a.subrange(p, p + a2.len()),
        b2 == b.subrange(p, p + b2.len()),
        x >= 0,
        y >= 0,
        walk(a2, b2, s, x, y) is Some,
    ensures
        walk(a, b, s, x + p, y + p) == Some(
            (walk(a2, b2, s, x, y).unwrap().0 + p, walk(a2, b2, s, x, y).unwrap().1 + p),
        ),
    decreases s.len(),
{
    if s.len() > 0 {
        match s[0] {
            Step::Keep => {
                assert(a2[x] == a[x + p]);
                assert(b2[y] == b[y + p]);
                lemma_walk_shift(a, b, p, a2, b2, s.drop_first(), x + 1, y + 1);
            },
            Step::Del => lemma_walk_shift(a, b, p, a2, b2, s.drop_first(), x + 1, y),
            Step::Ins => lemma_walk_shift(a, b, p, a2, b2, s.drop_first(), x, y + 1),
        }
    }
}

/// `k` free moves in a row, over equal runs of `a` and `b`.
pub proof fn lemma_walk_keeps<V>(a: Seq<V>, b: Seq<V>, k: nat, x: int, y: int)
    requires
        0 <= x,
        x + k <= a.len(),
        0 <= y,
        y + k <= b.len(),
        a.subrange(x, x + k) == b.subrange(y, y + k),
    ensures
        walk(a, b, Seq::new(k, |i: int| Step::Keep), x, y) == Some((x + k, y + k)),
        edits(Seq::new(k, |i: int| Step::Keep)) == 0,
    decreases k,
{
    if k > 0 {
        let s = Seq::new(k, |i: int| Step::Keep);
        assert(s.drop_first() =~= Seq::new((k - 1) as nat, |i: int| Step::Keep));
        assert(a[x] == a.subrange(x, x + k)[0]);
        assert(b[y] == b.subrange(y, y + k)[0]);
        assert(a.subrange(x + 1, x + k) =~= a.subrange(x, x + k).drop_first());
        assert(b.subrange(y + 1, y + k) =~= b.subrange(y, y + k).drop_first());
        lemma_walk_keeps(a, b, (k - 1) as nat, x + 1, y + 1);
    }
}

/// `k` moves right (or down) in a row, along the ends of the sequences.
pub proof fn lemma_walk_edge<V>(a: Seq<V>, b: Seq<V>, st: Step, k: nat, x: int, y: int)
    requires
        st != Step::Keep,
        st == Step::Del ==> 0 <= x && x + k <= a.len(),
        st == Step::Ins ==> 0 <= y && y + k <= b.len(),
    ensures
        walk(a, b, Seq::new(k, |i: int| st), x, y) == (if st == Step::Del {
            Some((x + k, y))
        } else {
            Some((x, y + k))
        }),
        edits(Seq::new(k, |i: int| st)) == k,
    decreases k,
{
    if k > 0 {
        let s = Seq::new(k, |i: int| st);
        assert(s.drop_first() =~= Seq::new((k - 1) as nat, |i: int| st));
        if st == Step::Del {
            lemma_walk_edge(a, b, st, (k - 1) as nat, x + 1, y);
        } else {
            lemma_walk_edge(a, b, st, (k - 1) as nat, x, y + 1);
        }
    }
}

} // verus!
