//! The log: every ancestor of a commit, each listed before its parents.
//! Independent branches are interleaved newest first; timestamps only break
//! ties and never decide whether the order is topological.

use vstd::prelude::*;
use vstd::set_lib::{lemma_int_range, lemma_len_subset, set_int_range};

use crate::bytes::{compare_bytes, lemma_lex_equal, lemma_lex_flip, lemma_lex_trans, lex_lt, Order};
use crate::graph::{
    commit_at, common_ancestor, dominated, id_views, ids_sorted, lemma_reaches_parent, lemma_reaches_self,
    lemma_reaches_trans, merge_base_of, names_unreadable, newer, parent_path, parents_of, reaches,
};
use crate::object::{ObjectId, ObjectView};
use crate::repo::{stored, Repo, RepoError};
use crate::snapshot::Listing;

verus! {

/// Every ancestor of `from` is a stored commit.
pub open spec fn history_readable(store: Listing, from: Seq<u8>) -> bool {
    forall|x: Seq<u8>| #[trigger] reaches(store, from, x) ==> commit_at(store, x) is Some
}

/// No ancestor of `from` has a parent from which it is reached again.
pub open spec fn acyclic_from(store: Listing, from: Seq<u8>) -> bool {
    forall|x: Seq<u8>, p: Seq<u8>|
        reaches(store, from, x) && #[trigger] parents_of(store, x).contains(p) ==> !#[trigger] reaches(store, p, x)
}

/// `y` may be listed next once `done` is listed: an ancestor of `from` not
/// listed yet, whose children among the ancestors all are.
pub open spec fn available(store: Listing, from: Seq<u8>, done: Seq<Seq<u8>>, y: Seq<u8>) -> bool {
    &&& reaches(store, from, y)
    &&& !done.contains(y)
    &&& forall|c: Seq<u8>| reaches(store, from, c) && #[trigger] parents_of(store, c).contains(y) ==> done.contains(c)
}

/// `l` is the log of `from`: each ancestor exactly once, `from` first, every
/// commit before each of its parents, and at each step the newest commit
/// (by timestamp, then by id) among those that may come next.
pub open spec fn log_order(store: Listing, from: Seq<u8>, l: Seq<Seq<u8>>) -> bool {
    &&& l.no_duplicates()
    &&& l.len() > 0 && l[0] == from
    &&& forall|x: Seq<u8>| #[trigger] l.contains(x) <==> reaches(store, from, x)
    &&& forall|a: int, b: int|
        0 <= a < l.len() && 0 <= b < l.len() && parents_of(store, #[trigger] l[a]).contains(#[trigger] l[b]) ==> a < b
    &&& forall|q: int, y: Seq<u8>|
        0 <= q < l.len() && #[trigger] available(store, from, l.take(q), y) && y != l[q] ==> newer(store, l[q], y)
}

// ---- the same graph, over the positions of the ancestors ----

/// Children of `j` among the first `m` positions that are not listed yet.
spec fn pending_children(pv: Seq<Seq<usize>>, em: Seq<bool>, j: usize, m: int) -> nat
    decreases m,
{
    if m <= 0 {
        0
    } else {
        pending_children(pv, em, j, m - 1) + if !em[m - 1] && pv[m - 1].contains(j) {
            1nat
        } else {
            0nat
        }
    }
}

/// Positions among the first `m` that are not listed yet.
spec fn unlisted(em: Seq<bool>, m: int) -> nat
    decreases m,
{
    if m <= 0 {
        0
    } else {
        unlisted(em, m - 1) + if !em[m - 1] {
            1nat
        } else {
            0nat
        }
    }
}

proof fn lemma_pending_zero(pv: Seq<Seq<usize>>, em: Seq<bool>, j: usize, m: int)
    requires
        0 <= m,
    ensures
        (pending_children(pv, em, j, m) == 0) <==> (forall|i: int| 0 <= i < m && #[trigger] pv[i].contains(j) ==> em[i]),
    decreases m,
{
    if m > 0 {
        lemma_pending_zero(pv, em, j, m - 1);
    }
}

proof fn lemma_pending_bound(pv: Seq<Seq<usize>>, em: Seq<bool>, j: usize, m: int)
    requires
        0 <= m,
    ensures
        pending_children(pv, em, j, m) <= m,
    decreases m,
{
    if m > 0 {
        lemma_pending_bound(pv, em, j, m - 1);
    }
}

proof fn lemma_pending_emit(pv: Seq<Seq<usize>>, em: Seq<bool>, x: int, j: usize, m: int)
    requires
        0 <= x < em.len(),
        !em[x],
        0 <= m <= em.len(),
    ensures
        pending_children(pv, em.update(x, true), j, m) + (if x < m && pv[x].contains(j) {
            1nat
        } else {
            0nat
        }) == pending_children(pv, em, j, m),
    decreases m,
{
    if m > 0 {
        lemma_pending_emit(pv, em, x, j, m - 1);
    }
}

proof fn lemma_unlisted_emit(em: Seq<bool>, x: int, m: int)
    requires
        0 <= x < em.len(),
        !em[x],
        0 <= m <= em.len(),
    ensures
        unlisted(em.update(x, true), m) + (if x < m {
            1nat
        } else {
            0nat
        }) == unlisted(em, m),
    decreases m,
{
    if m > 0 {
        lemma_unlisted_emit(em, x, m - 1);
    }
}

proof fn lemma_unlisted_bound(em: Seq<bool>, m: int)
    requires
        0 <= m,
    ensures
        unlisted(em, m) <= m,
        unlisted(em, m) == 0 <==> forall|i: int| 0 <= i < m ==> #[trigger] em[i],
    decreases m,
{
    if m > 0 {
        lemma_unlisted_bound(em, m - 1);
    }
}

/// The parents of each ancestor by position, and each one's timestamp.
#[verifier::opaque]
spec fn graph_of(st: Listing, nv: Seq<Seq<u8>>, pv: Seq<Seq<usize>>, tv: Seq<u64>) -> bool {
    &&& pv.len() == nv.len()
    &&& tv.len() == nv.len()
    &&& forall|i: int| 0 <= i < nv.len() ==> (#[trigger] pv[i]).no_duplicates()
    &&& forall|i: int, k: int| 0 <= i < nv.len() && 0 <= k < pv[i].len() ==> #[trigger] pv[i][k] < nv.len()
    &&& forall|i: int, j: usize|
        #![trigger pv[i].contains(j)]
        #![trigger parents_of(st, nv[i]).contains(nv[j as int])]
        0 <= i < nv.len() && j < nv.len() ==> (pv[i].contains(j) <==> parents_of(st, nv[i]).contains(nv[j as int]))
    &&& forall|i: int| 0 <= i < nv.len() ==> (commit_at(st, #[trigger] nv[i]) matches Some(c) && c.timestamp == tv[i])
}

spec fn views(v: Seq<Vec<usize>>) -> Seq<Seq<usize>> {
    v.map_values(|x: Vec<usize>| x@)
}

proof fn lemma_graph_shape(st: Listing, nv: Seq<Seq<u8>>, pv: Seq<Seq<usize>>, tv: Seq<u64>)
    requires
        graph_of(st, nv, pv, tv),
    ensures
        positions_graph(pv, nv.len() as int),
        tv.len() == nv.len(),
{
    reveal(graph_of);
}

/// The position of `id` among ids in ascending order.
fn index_in(nodes: &Vec<ObjectId>, id: &ObjectId) -> (r: Option<usize>)
    requires
        ids_sorted(id_views(nodes@)),
    ensures
        match r {
            Some(j) => j < nodes@.len() && id_views(nodes@)[j as int] == id@,
            None => !id_views(nodes@).contains(id@),
        },
{
    let ghost nv = id_views(nodes@);
    let mut lo: usize = 0;
    let mut hi: usize = nodes.len();
    while lo < hi
        invariant
            nv == id_views(nodes@),
            ids_sorted(nv),
            lo <= hi <= nodes@.len(),
            forall|j: int| 0 <= j < lo ==> lex_lt(#[trigger] nv[j], id@),
            forall|j: int| hi <= j < nv.len() ==> lex_lt(id@, #[trigger] nv[j]),
        decreases hi - lo,
    {
        let mid = lo + (hi - lo) / 2;
        let ghost m = nv[mid as int];
        assert(m == nodes@[mid as int]@);
        match compare_bytes(&nodes[mid].0, &id.0) {
            Order::Less => {
                proof {
                    assert forall|j: int| 0 <= j < mid + 1 implies lex_lt(#[trigger] nv[j], id@) by {
                        if j < mid {
                            lemma_lex_trans(nv[j], m, id@);
                        }
                    }
                }
                lo = mid + 1;
            },
            Order::Greater => {
                proof {
                    lemma_lex_flip(m, id@);
                    assert forall|j: int| mid <= j < nv.len() implies lex_lt(id@, #[trigger] nv[j]) by {
                        if j > mid {
                            lemma_lex_trans(id@, m, nv[j]);
                        }
                    }
                }
                hi = mid;
            },
            Order::Equal => {
                proof {
                    lemma_lex_equal(m, id@);
                }
                return Some(mid);
            },
        }
    }
    proof {
        assert forall|j: int| 0 <= j < nv.len() implies nv[j] != id@ by {
            lemma_lex_equal(id@, id@);
        }
    }
    None
}

/// `j` is among `v`.
fn has_index(v: &Vec<usize>, j: usize) -> (r: bool)
    ensures
        r == v@.contains(j),
{
    let mut k: usize = 0;
    while k < v.len()
        invariant
            k <= v@.len(),
            forall|t: int| 0 <= t < k ==> v@[t] != j,
        decreases v@.len() - k,
    {
        if v[k] == j {
            return true;
        }
        k = k + 1;
    }
    false
}

impl Repo {
    /// The parents of each of `nodes`, as positions in `nodes` without
    /// repeats, and each one's timestamp.
    #[verifier::loop_isolation(false)]
    fn parent_graph(&self, nodes: &Vec<ObjectId>) -> (r: Result<(Vec<Vec<usize>>, Vec<u64>), RepoError>)
        requires
            self.wf(),
            ids_sorted(id_views(nodes@)),
            forall|x: Seq<u8>| #[trigger] id_views(nodes@).contains(x) ==> commit_at(self@, x) is Some,
            forall|x: Seq<u8>, p: Seq<u8>|
                id_views(nodes@).contains(x) && #[trigger] parents_of(self@, x).contains(p) ==> #[trigger] id_views(
                    nodes@,
                ).contains(p),
        ensures
            r matches Ok(g) && graph_of(self@, id_views(nodes@), views(g.0@), g.1@),
    {
        let ghost st = self@;
        let ghost nv = id_views(nodes@);
        let n = nodes.len();
        let mut pidx: Vec<Vec<usize>> = Vec::new();
        let mut ts: Vec<u64> = Vec::new();
        let mut i: usize = 0;
        while i < n
            invariant
                st == self@,
                nv == id_views(nodes@),
                n == nv.len(),
                i <= n,
                pidx@.len() == i,
                ts@.len() == i,
                forall|a: int| 0 <= a < i ==> (#[trigger] views(pidx@)[a]).no_duplicates(),
                forall|a: int, k: int|
                    0 <= a < i && 0 <= k < views(pidx@)[a].len() ==> #[trigger] views(pidx@)[a][k] < n,
                forall|a: int, j: usize|
                    #![trigger views(pidx@)[a].contains(j)]
                    #![trigger parents_of(st, nv[a]).contains(nv[j as int])]
                    0 <= a < i && j < n ==> (views(pidx@)[a].contains(j) <==> parents_of(st, nv[a]).contains(
                        nv[j as int],
                    )),
                forall|a: int| 0 <= a < i ==> (commit_at(st, #[trigger] nv[a]) matches Some(c) && c.timestamp == ts@[a]),
            decreases n - i,
        {
            let ghost x = nv[i as int];
            assert(nv.contains(x));
            assert(x == nodes@[i as int]@);
            assert(stored(st, x, ObjectView::Commit(commit_at(st, x)->Some_0)));
            let c = match self.commit_of(&nodes[i]) {
                Ok(c) => c,
                Err(e) => return Err(e),
            };
            assert(commit_at(st, x) == Some(c@));
            let mut ps: Vec<usize> = Vec::new();
            let mut k: usize = 0;
            while k < c.parents.len()
                invariant
                    commit_at(st, x) == Some(c@),
                    k <= c.parents@.len(),
                    ps@.no_duplicates(),
                    forall|t: int| 0 <= t < ps@.len() ==> #[trigger] ps@[t] < n,
                    forall|j: usize|
                        j < n ==> (#[trigger] ps@.contains(j) <==> c@.parents.take(k as int).contains(nv[j as int])),
                decreases c.parents@.len() - k,
            {
                let ghost p = c@.parents[k as int];
                assert(p == c.parents@[k as int]@);
                assert(parents_of(st, x).contains(p));
                let j = match index_in(nodes, &c.parents[k]) {
                    Some(j) => j,
                    None => return Err(RepoError::Missing(c.parents[k])),
                };
                let ghost before = ps@;
                if !has_index(&ps, j) {
                    ps.push(j);
                    proof {
                        lemma_push_contains(before, j);
                    }
                }
                proof {
                    let tk = c@.parents.take(k as int);
                    let tk1 = c@.parents.take(k + 1);
                    assert(tk1 =~= tk.push(p));
                    assert(ps@.contains(j));
                    assert forall|j2: usize| j2 < n implies (#[trigger] ps@.contains(j2) <==> tk1.contains(
                        nv[j2 as int],
                    )) by {
                        if j2 == j {
                            assert(tk1[k as int] == p);
                        } else {
                            lemma_distinct_positions(nv, j as int, j2 as int);
                            assert(ps@.contains(j2) <==> before.contains(j2));
                            if tk1.contains(nv[j2 as int]) {
                                let t = choose|t: int| 0 <= t < tk1.len() && #[trigger] tk1[t] == nv[j2 as int];
                                assert(tk[t] == nv[j2 as int]);
                            }
                            if tk.contains(nv[j2 as int]) {
                                let t = choose|t: int| 0 <= t < tk.len() && #[trigger] tk[t] == nv[j2 as int];
                                assert(tk1[t] == nv[j2 as int]);
                            }
                        }
                    }
                }
                k = k + 1;
            }
            proof {
                assert(c@.parents.take(k as int) =~= c@.parents);
            }
            let ghost before = views(pidx@);
            pidx.push(ps);
            ts.push(c.timestamp);
            assert(views(pidx@) =~= before.push(ps@));
            i = i + 1;
        }
        proof {
            reveal(graph_of);
        }
        Ok((pidx, ts))
    }
}

proof fn lemma_push_contains<A>(s: Seq<A>, x: A)
    ensures
        forall|y: A| #[trigger] s.push(x).contains(y) <==> (s.contains(y) || y == x),
{
    assert forall|y: A| #[trigger] s.push(x).contains(y) <==> (s.contains(y) || y == x) by {
        if s.contains(y) {
            let t = choose|t: int| 0 <= t < s.len() && s[t] == y;
            assert(s.push(x)[t] == y);
        }
        if y == x {
            assert(s.push(x)[s.len() as int] == y);
        }
        if s.push(x).contains(y) && y != x {
            let t = choose|t: int| 0 <= t < s.len() + 1 && s.push(x)[t] == y;
            assert(s[t] == y);
        }
    }
}

/// Distinct positions among ids in ascending order hold distinct ids.
proof fn lemma_distinct_positions(nv: Seq<Seq<u8>>, a: int, b: int)
    requires
        ids_sorted(nv),
        0 <= a < nv.len(),
        0 <= b < nv.len(),
        a != b,
    ensures
        nv[a] != nv[b],
{
    lemma_lex_equal(nv[a], nv[a]);
    if a < b {
        assert(lex_lt(nv[a], nv[b]));
    } else {
        assert(lex_lt(nv[b], nv[a]));
    }
}

/// No position is listed yet.
spec fn none_listed(n: int) -> Seq<bool> {
    Seq::new(n as nat, |t: int| false)
}

/// `j` occurs in `s` at `k` or after.
spec fn later(s: Seq<usize>, k: int, j: usize) -> bool {
    exists|t: int| k <= t < s.len() && s[t] == j
}

proof fn lemma_later_step(s: Seq<usize>, k: int)
    requires
        0 <= k < s.len(),
        s.no_duplicates(),
    ensures
        forall|j: usize| #[trigger] later(s, k, j) <==> (later(s, k + 1, j) || s[k] == j),
        !later(s, k + 1, s[k]),
{
    assert forall|j: usize| #[trigger] later(s, k, j) <==> (later(s, k + 1, j) || s[k] == j) by {
        if s[k] == j {
            assert(k <= k < s.len() && s[k] == j);
        }
        if later(s, k + 1, j) {
            let t = choose|t: int| k + 1 <= t < s.len() && s[t] == j;
            assert(k <= t < s.len() && s[t] == j);
        }
    }
}

/// How many positions list each position as a parent.
fn child_counts(pidx: &Vec<Vec<usize>>, n: usize) -> (r: Vec<usize>)
    requires
        positions_graph(views(pidx@), n as int),
    ensures
        r@.len() == n,
        forall|j: int|
            0 <= j < n ==> #[trigger] r@[j] == pending_children(views(pidx@), none_listed(n as int), j as usize, n as int),
{
    let ghost pv = views(pidx@);
    let ghost em = none_listed(n as int);
    let mut counts: Vec<usize> = Vec::new();
    let mut j: usize = 0;
    while j < n
        invariant
            j <= n,
            counts@.len() == j,
            forall|t: int| 0 <= t < j ==> #[trigger] counts@[t] == 0,
        decreases n - j,
    {
        counts.push(0);
        j = j + 1;
    }
    let mut i: usize = 0;
    while i < n
        invariant
            pv == views(pidx@),
            em == none_listed(n as int),
            pidx@.len() == n,
            forall|a: int| 0 <= a < n ==> (#[trigger] pv[a]).no_duplicates(),
            forall|a: int, k: int| 0 <= a < n && 0 <= k < pv[a].len() ==> #[trigger] pv[a][k] < n,
            i <= n,
            counts@.len() == n,
            forall|t: int| 0 <= t < n ==> #[trigger] counts@[t] == pending_children(pv, em, t as usize, i as int),
        decreases n - i,
    {
        let ps = &pidx[i];
        assert(ps@ == pv[i as int]);
        let mut k: usize = 0;
        while k < ps.len()
            invariant
                pv == views(pidx@),
                em == none_listed(n as int),
                ps@ == pv[i as int],
                ps@.no_duplicates(),
                forall|k2: int| 0 <= k2 < ps@.len() ==> #[trigger] ps@[k2] < n,
                i < n,
                k <= ps@.len(),
                counts@.len() == n,
                forall|t: int|
                    0 <= t < n ==> #[trigger] counts@[t] == pending_children(pv, em, t as usize, i as int) + (if ps@.take(
                        k as int,
                    ).contains(t as usize) {
                        1nat
                    } else {
                        0nat
                    }),
            decreases ps@.len() - k,
        {
            let t = ps[k];
            assert(ps@[k as int] == t);
            proof {
                lemma_pending_bound(pv, em, t, i as int);
                if ps@.take(k as int).contains(t) {
                    let u = choose|u: int| 0 <= u < k && ps@.take(k as int)[u] == t;
                    assert(ps@[u] == ps@[k as int]);
                }
                lemma_push_contains(ps@.take(k as int), t);
                assert(ps@.take(k + 1) =~= ps@.take(k as int).push(t));
            }
            counts.set(t, counts[t] + 1);
            k = k + 1;
        }
        proof {
            assert(ps@.take(k as int) =~= ps@);
            assert forall|t: int| 0 <= t < n implies #[trigger] counts@[t] == pending_children(
                pv,
                em,
                t as usize,
                i + 1,
            ) by {
                assert(!em[i as int]);
            }
        }
        i = i + 1;
    }
    counts
}

/// Position `a` is listed before position `b` when both may come next: a
/// newer timestamp, or the same timestamp and a greater id.
spec fn key_newer(tv: Seq<u64>, nv: Seq<Seq<u8>>, a: usize, b: usize) -> bool {
    tv[b as int] < tv[a as int] || (tv[b as int] == tv[a as int] && lex_lt(nv[b as int], nv[a as int]))
}

/// Position `j` may come next once `done` is listed.
spec fn ready_after(pv: Seq<Seq<usize>>, n: int, done: Seq<usize>, j: usize) -> bool {
    &&& !done.contains(j)
    &&& forall|i: int| 0 <= i < n && #[trigger] pv[i].contains(j) ==> done.contains(i as usize)
}

/// Parent lists over `n` positions, each without repeats.
spec fn positions_graph(pv: Seq<Seq<usize>>, n: int) -> bool {
    &&& pv.len() == n
    &&& forall|i: int| 0 <= i < n ==> (#[trigger] pv[i]).no_duplicates()
    &&& forall|i: int, k: int| 0 <= i < n && 0 <= k < pv[i].len() ==> #[trigger] pv[i][k] < n
}

proof fn lemma_key_trans(tv: Seq<u64>, nv: Seq<Seq<u8>>, a: usize, b: usize, c: usize)
    requires
        key_newer(tv, nv, a, b),
        key_newer(tv, nv, b, c),
    ensures
        key_newer(tv, nv, a, c),
{
    if tv[c as int] == tv[b as int] && tv[b as int] == tv[a as int] {
        lemma_lex_trans(nv[c as int], nv[b as int], nv[a as int]);
    }
}

proof fn lemma_unlisted_none(n: int, m: int)
    requires
        0 <= m <= n,
    ensures
        unlisted(none_listed(n), m) == m,
    decreases m,
{
    if m > 0 {
        lemma_unlisted_none(n, m - 1);
    }
}

proof fn lemma_remove_distinct(s: Seq<usize>, i: int)
    requires
        s.no_duplicates(),
        0 <= i < s.len(),
    ensures
        s.remove(i).no_duplicates(),
        forall|j: usize| #[trigger] s.remove(i).contains(j) <==> (s.contains(j) && j != s[i]),
{
    let r = s.remove(i);
    assert forall|k: int| 0 <= k < r.len() implies #[trigger] r[k] == if k < i {
        s[k]
    } else {
        s[k + 1]
    } by {}
    assert forall|a: int, b: int| 0 <= a < r.len() && 0 <= b < r.len() && a != b implies r[a] != r[b] by {
        let sa = if a < i { a } else { a + 1 };
        let sb = if b < i { b } else { b + 1 };
        assert(r[a] == s[sa] && r[b] == s[sb]);
    }
    assert forall|j: usize| #[trigger] r.contains(j) <==> (s.contains(j) && j != s[i]) by {
        if r.contains(j) {
            let k = choose|k: int| 0 <= k < r.len() && r[k] == j;
            let sk = if k < i { k } else { k + 1 };
            assert(s[sk] == j);
        }
        if s.contains(j) && j != s[i] {
            let k = choose|k: int| 0 <= k < s.len() && s[k] == j;
            if k < i {
                assert(r[k] == j);
            } else {
                assert(r[k - 1] == j);
            }
        }
    }
}

/// What listing the positions from `fi` achieves: each at most once, `fi`
/// first, children before parents, the newest available one at each step,
/// and, when it stops short, an unlisted child for every unlisted position.
#[verifier::opaque]
spec fn kahn_result(pv: Seq<Seq<usize>>, nv: Seq<Seq<u8>>, tv: Seq<u64>, fi: usize, out: Seq<usize>) -> bool {
    let n = nv.len() as int;
    &&& out.len() > 0 && out[0] == fi
    &&& out.len() <= n
    &&& out.no_duplicates()
    &&& forall|q: int| 0 <= q < out.len() ==> #[trigger] out[q] < n
    &&& forall|a: int, b: int|
        #![trigger out[a], out[b]]
        0 <= a <= b < out.len() ==> !pv[out[b] as int].contains(out[a])
    &&& forall|q: int, j: usize|
        0 <= q < out.len() && j < n && #[trigger] ready_after(pv, n, out.take(q), j) && j != out[q] ==> key_newer(
            tv,
            nv,
            out[q],
            j,
        )
    &&& out.len() == n <==> forall|j: usize| j < n ==> #[trigger] out.contains(j)
    &&& stuck(pv, n, out)
}

proof fn lemma_kahn_bounds(pv: Seq<Seq<usize>>, nv: Seq<Seq<u8>>, tv: Seq<u64>, fi: usize, out: Seq<usize>)
    requires
        kahn_result(pv, nv, tv, fi, out),
    ensures
        out.len() <= nv.len(),
        forall|q: int| 0 <= q < out.len() ==> #[trigger] out[q] < nv.len(),
{
    reveal(kahn_result);
}

/// Lists positions children first from `fi`, always taking the newest of
/// those whose children are all listed.
#[verifier::loop_isolation(false)]
#[verifier::spinoff_prover]
#[verifier::rlimit(100)]
fn topo_order(pidx: &Vec<Vec<usize>>, ts: &Vec<u64>, nodes: &Vec<ObjectId>, fi: usize, pending: Vec<usize>) -> (out: Vec<usize>)
    requires
        positions_graph(views(pidx@), nodes@.len() as int),
        ts@.len() == nodes@.len(),
        ids_sorted(id_views(nodes@)),
        fi < nodes@.len(),
        pending@.len() == nodes@.len(),
        forall|j: int|
            0 <= j < nodes@.len() ==> #[trigger] pending@[j] == pending_children(
                views(pidx@),
                none_listed(nodes@.len() as int),
                j as usize,
                nodes@.len() as int,
            ),
        forall|j: int| 0 <= j < nodes@.len() ==> (#[trigger] pending@[j] == 0 <==> j == fi),
    ensures
        kahn_result(views(pidx@), id_views(nodes@), ts@, fi, out@),
{
    let ghost pv = views(pidx@);
    let ghost nv = id_views(nodes@);
    let ghost tv = ts@;
    let n = nodes.len();
    let ghost p0 = pending@;
    let mut pending = pending;
    let mut ready: Vec<usize> = Vec::new();
    ready.push(fi);
    let mut out: Vec<usize> = Vec::new();
    let ghost mut em = none_listed(n as int);
    proof {
        lemma_unlisted_none(n as int, n as int);
        lemma_push_contains(Seq::<usize>::empty(), fi);
        assert(ready@ =~= Seq::<usize>::empty().push(fi));
        assert forall|j: usize|
            #[trigger] ready@.contains(j) <==> (j < n && !em[j as int] && pending_children(pv, em, j, n as int) == 0) by {
            if j < n {
                assert(p0[j as int] == pending_children(pv, em, j, n as int));
            }
        }
    }
    while ready.len() > 0
        invariant
            n == nodes@.len(),
            pv == views(pidx@),
            nv == id_views(nodes@),
            tv == ts@,
            em.len() == n,
            out@.no_duplicates(),
            forall|q: int| 0 <= q < out@.len() ==> #[trigger] out@[q] < n,
            forall|i: int| 0 <= i < n ==> (#[trigger] em[i] <==> out@.contains(i as usize)),
            out@.len() + unlisted(em, n as int) == n,
            out@.len() > 0 ==> out@[0] == fi,
            out@.len() == 0 ==> em == none_listed(n as int),
            pending@.len() == n,
            forall|j: int| 0 <= j < n ==> #[trigger] pending@[j] == pending_children(pv, em, j as usize, n as int),
            ready@.no_duplicates(),
            forall|j: usize|
                #[trigger] ready@.contains(j) <==> (j < n && !em[j as int] && pending_children(pv, em, j, n as int) == 0),
            forall|j: int| 0 <= j < n && #[trigger] em[j] ==> pending_children(pv, em, j as usize, n as int) == 0,
            forall|a: int, b: int|
                #![trigger out@[a], out@[b]]
                0 <= a <= b < out@.len() ==> !pv[out@[b] as int].contains(out@[a]),
            forall|q: int, j: usize|
                0 <= q < out@.len() && j < n && #[trigger] ready_after(pv, n as int, out@.take(q), j) && j
                    != out@[q] ==> key_newer(tv, nv, out@[q], j),
        decreases unlisted(em, n as int),
    {
        let mut bi: usize = 0;
        let mut t: usize = 1;
        while t < ready.len()
            invariant
                1 <= t <= ready@.len(),
                bi < t,
                forall|u: int| 0 <= u < t && u != bi ==> key_newer(tv, nv, ready@[bi as int], #[trigger] ready@[u]),
            decreases ready@.len() - t,
        {
            let c = ready[t];
            let b = ready[bi];
            assert(ready@.contains(c) && ready@.contains(b));
            if ts[c] > ts[b] || (ts[c] == ts[b] && compare_bytes(&nodes[b].0, &nodes[c].0) == Order::Less) {
                proof {
                    assert(nv[b as int] == nodes@[b as int]@ && nv[c as int] == nodes@[c as int]@);
                    assert(key_newer(tv, nv, c, b));
                    assert forall|u: int| 0 <= u < t + 1 && u != t implies key_newer(
                        tv,
                        nv,
                        c,
                        #[trigger] ready@[u],
                    ) by {
                        if u != bi {
                            lemma_key_trans(tv, nv, c, b, ready@[u]);
                        }
                    }
                }
                bi = t;
            } else {
                proof {
                    assert(nv[b as int] == nodes@[b as int]@ && nv[c as int] == nodes@[c as int]@);
                    assert(b != c);
                    lemma_distinct_positions(nv, b as int, c as int);
                    lemma_lex_equal(nv[b as int], nv[c as int]);
                    lemma_lex_flip(nv[b as int], nv[c as int]);
                    assert(key_newer(tv, nv, b, c));
                }
            }
            t = t + 1;
        }
        let ghost before = ready@;
        let ghost em0 = em;
        let ghost out0 = out@;
        let x = ready.remove(bi);
        proof {
            lemma_remove_distinct(before, bi as int);
            assert(before.contains(x));
            lemma_pending_zero(pv, em0, x, n as int);
        }
        out.push(x);
        proof {
            em = em0.update(x as int, true);
            lemma_unlisted_emit(em0, x as int, n as int);
            lemma_push_contains(out0, x);
            assert forall|j: int| 0 <= j < n implies #[trigger] pending_children(pv, em, j as usize, n as int) + (if pv[x as int].contains(
                j as usize,
            ) {
                1nat
            } else {
                0nat
            }) == pending_children(pv, em0, j as usize, n as int) by {
                lemma_pending_emit(pv, em0, x as int, j as usize, n as int);
            }
            // x is not its own parent, and no listed position is a parent of x
            assert forall|k2: int| 0 <= k2 < pv[x as int].len() implies !em[#[trigger] pv[x as int][k2] as int] by {
                let j = pv[x as int][k2];
                assert(pv[x as int].contains(j));
                if em0[j as int] {
                    lemma_pending_zero(pv, em0, j, n as int);
                }
            }
            if out0.len() == 0 {
                assert(x == fi) by {
                    assert(p0[x as int] == pending_children(pv, none_listed(n as int), x, n as int));
                }
            }
        }
        let ps = &pidx[x];
        assert(ps@ == pv[x as int]);
        proof {
            lemma_later_contains(ps@);
            assert forall|j: usize|
                #[trigger] ready@.contains(j) <==> (j < n && !em[j as int] && pending_children(pv, em, j, n as int) == 0
                    && !later(ps@, 0, j)) by {
                if j < n {
                    lemma_pending_emit(pv, em0, x as int, j, n as int);
                }
            }
        }
        let mut k: usize = 0;
        while k < ps.len()
            invariant
                ps@ == pv[x as int],
                ps@.no_duplicates(),
                k <= ps@.len(),
                pending@.len() == n,
                forall|j: int|
                    0 <= j < n ==> #[trigger] pending@[j] == pending_children(pv, em, j as usize, n as int) + (if later(
                        ps@,
                        k as int,
                        j as usize,
                    ) {
                        1nat
                    } else {
                        0nat
                    }),
                ready@.no_duplicates(),
                forall|j: usize|
                    #[trigger] ready@.contains(j) <==> (j < n && !em[j as int] && pending_children(pv, em, j, n as int)
                        == 0 && !later(ps@, k as int, j)),
            decreases ps@.len() - k,
        {
            let j = ps[k];
            proof {
                lemma_later_step(ps@, k as int);
                lemma_pending_bound(pv, em, j, n as int);
            }
            pending.set(j, pending[j] - 1);
            if pending[j] == 0 {
                proof {
                    assert(!ready@.contains(j));
                    lemma_push_contains(ready@, j);
                }
                ready.push(j);
            }
            k = k + 1;
        }
        proof {
            assert forall|a: int, b: int|
                #![trigger out@[a], out@[b]]
                0 <= a <= b < out@.len() implies !pv[out@[b] as int].contains(out@[a]) by {
                if b == out@.len() - 1 {
                    if a < b {
                        assert(out0.contains(out@[a]));
                        assert(em0[out@[a] as int]);
                        lemma_pending_zero(pv, em0, out@[a], n as int);
                    }
                } else {
                    assert(out@[a] == out0[a] && out@[b] == out0[b]);
                }
            }
            assert forall|q: int, j: usize|
                0 <= q < out@.len() && j < n && #[trigger] ready_after(pv, n as int, out@.take(q), j) && j
                    != out@[q] implies key_newer(tv, nv, out@[q], j) by {
                if q == out@.len() - 1 {
                    assert(out@.take(q) =~= out0);
                    lemma_pending_zero(pv, em0, j, n as int);
                    assert forall|i: int| 0 <= i < n && #[trigger] pv[i].contains(j) implies em0[i] by {
                        assert(out0.contains(i as usize));
                    }
                    assert(before.contains(j));
                    let u = choose|u: int| 0 <= u < before.len() && before[u] == j;
                    assert(u != bi);
                } else {
                    assert(out@.take(q) =~= out0.take(q));
                    assert(out@[q] == out0[q]);
                }
            }
            assert forall|j: int| 0 <= j < n && #[trigger] em[j] implies pending_children(pv, em, j as usize, n as int) == 0 by {}
        }
    }
    proof {
        if out@.len() == 0 {
            assert(p0[fi as int] == pending_children(pv, none_listed(n as int), fi, n as int));
            assert(ready@.contains(fi));
        }
        assert forall|j: usize| j < n && !out@.contains(j) implies exists|i: int|
            0 <= i < n && !out@.contains(i as usize) && #[trigger] pv[i].contains(j) by {
            assert(!em[j as int]);
            assert(!ready@.contains(j));
            lemma_pending_zero(pv, em, j, n as int);
            let i = choose|i: int| 0 <= i < n && #[trigger] pv[i].contains(j) && !em[i];
            assert(!out@.contains(i as usize));
        }
        lemma_unlisted_bound(em, n as int);
        if out@.len() == n {
            assert forall|j: usize| j < n implies #[trigger] out@.contains(j) by {
                assert(em[j as int]);
            }
        }
        if forall|j: usize| j < n ==> #[trigger] out@.contains(j) {
            assert forall|i: int| 0 <= i < n implies #[trigger] em[i] by {
                assert(out@.contains(i as usize));
            }
        }
        reveal(stuck);
        reveal(kahn_result);
    }
    out
}

proof fn lemma_later_contains(s: Seq<usize>)
    ensures
        forall|j: usize| later(s, 0, j) <==> #[trigger] s.contains(j),
        forall|j: usize| !#[trigger] later(s, s.len() as int, j),
{
    assert forall|j: usize| later(s, 0, j) <==> #[trigger] s.contains(j) by {
        if s.contains(j) {
            let t = choose|t: int| 0 <= t < s.len() && s[t] == j;
            assert(0 <= t < s.len() && s[t] == j);
        }
    }
}

/// A prefix of a parent path is one.
proof fn lemma_path_prefix(store: Listing, path: Seq<Seq<u8>>, m: int)
    requires
        parent_path(store, path),
        1 <= m <= path.len(),
    ensures
        parent_path(store, path.take(m)),
{
    let pre = path.take(m);
    assert forall|i: int, j: int| 0 <= i && j == i + 1 && j < pre.len() implies parents_of(store, #[trigger] pre[i]).contains(
        #[trigger] pre[j],
    ) by {
        assert(pre[i] == path[i] && pre[j] == path[j]);
    }
}

/// An ancestor of `from` other than `from` is a parent of another ancestor.
proof fn lemma_has_child(store: Listing, from: Seq<u8>, y: Seq<u8>) -> (c: Seq<u8>)
    requires
        reaches(store, from, y),
        y != from,
    ensures
        reaches(store, from, c),
        parents_of(store, c).contains(y),
{
    let path = choose|path: Seq<Seq<u8>>| #[trigger] parent_path(store, path) && path[0] == from && path.last() == y;
    let m = path.len() - 1;
    lemma_path_prefix(store, path, m);
    let pre = path.take(m);
    assert(pre[0] == from && pre.last() == path[m - 1]);
    assert(parents_of(store, path[m - 1]).contains(path[m]));
    path[m - 1]
}

/// Following a parent path never goes back in a list in log order.
proof fn lemma_path_positions(store: Listing, from: Seq<u8>, l: Seq<Seq<u8>>, path: Seq<Seq<u8>>, v: int)
    requires
        log_order(store, from, l),
        parent_path(store, path),
        reaches(store, from, path[0]),
        0 <= v < path.len(),
    ensures
        reaches(store, from, path[v]),
        forall|a0: int, av: int|
            0 <= a0 < l.len() && 0 <= av < l.len() && l[a0] == path[0] && l[av] == path[v] ==> a0 <= av,
    decreases v,
{
    if v > 0 {
        lemma_path_positions(store, from, l, path, v - 1);
        assert(parents_of(store, path[v - 1]).contains(path[v]));
        lemma_reaches_parent(store, from, path[v - 1], path[v]);
        assert(l.contains(path[v - 1]));
        let ap = choose|ap: int| 0 <= ap < l.len() && l[ap] == path[v - 1];
        assert forall|a0: int, av: int|
            0 <= a0 < l.len() && 0 <= av < l.len() && l[a0] == path[0] && l[av] == path[v] implies a0 <= av by {
            assert(parents_of(store, l[ap]).contains(l[av]));
        }
    }
}

/// A list in log order shows that the history of `from` has no cycle.
pub proof fn lemma_log_order_acyclic(store: Listing, from: Seq<u8>, l: Seq<Seq<u8>>)
    requires
        log_order(store, from, l),
    ensures
        acyclic_from(store, from),
{
    assert forall|x: Seq<u8>, p: Seq<u8>|
        reaches(store, from, x) && #[trigger] parents_of(store, x).contains(p) implies !#[trigger] reaches(
        store,
        p,
        x,
    ) by {
        if reaches(store, p, x) {
            lemma_reaches_parent(store, from, x, p);
            let path = choose|path: Seq<Seq<u8>>| #[trigger] parent_path(store, path) && path[0] == p && path.last() == x;
            assert(l.contains(x));
            assert(l.contains(p));
            let a = choose|a: int| 0 <= a < l.len() && l[a] == x;
            let b = choose|b: int| 0 <= b < l.len() && l[b] == p;
            assert(parents_of(store, l[a]).contains(l[b]));
            lemma_path_positions(store, from, l, path, path.len() - 1);
        }
    }
}

/// Each unlisted position has an unlisted child.
#[verifier::opaque]
spec fn stuck(pv: Seq<Seq<usize>>, n: int, out: Seq<usize>) -> bool {
    forall|j: usize|
        j < n && !out.contains(j) ==> exists|i: int| 0 <= i < n && !out.contains(i as usize) && #[trigger] pv[i].contains(j)
}

/// An unlisted child of an unlisted position.
proof fn lemma_stuck_step(pv: Seq<Seq<usize>>, n: int, out: Seq<usize>, j: usize) -> (i: usize)
    requires
        stuck(pv, n, out),
        j < n,
        !out.contains(j),
        n <= usize::MAX,
    ensures
        i < n,
        !out.contains(i),
        pv[i as int].contains(j),
{
    reveal(stuck);
    let i = choose|i: int| 0 <= i < n && !out.contains(i as usize) && #[trigger] pv[i].contains(j);
    i as usize
}

/// A walk through unlisted positions, each one a parent of the next.
proof fn lemma_unlisted_chain(pv: Seq<Seq<usize>>, n: int, out: Seq<usize>, start: usize, len: nat) -> (c: Seq<usize>)
    requires
        start < n,
        n <= usize::MAX,
        !out.contains(start),
        stuck(pv, n, out),
    ensures
        c.len() == len + 1,
        forall|t: int| 0 <= t < c.len() ==> #[trigger] c[t] < n && !out.contains(c[t]),
        forall|t: int| 0 <= t && t + 1 < c.len() ==> pv[c[t + 1] as int].contains(#[trigger] c[t]),
    decreases len,
{
    if len == 0 {
        seq![start]
    } else {
        let prev = lemma_unlisted_chain(pv, n, out, start, (len - 1) as nat);
        let last = prev[len - 1];
        let i = lemma_stuck_step(pv, n, out, last);
        let c = prev.push(i);
        assert forall|t: int| 0 <= t && t + 1 < c.len() implies pv[c[t + 1] as int].contains(#[trigger] c[t]) by {
            if t + 1 < prev.len() {
                assert(c[t] == prev[t] && c[t + 1] == prev[t + 1]);
            } else {
                assert(c[t] == last && c[t + 1] == i);
            }
        }
        assert forall|t: int| 0 <= t < c.len() implies #[trigger] c[t] < n && !out.contains(c[t]) by {
            if t < prev.len() {
                assert(c[t] == prev[t]);
            }
        }
        c
    }
}

/// More than `n` values below `n` repeat one.
proof fn lemma_repeat(c: Seq<usize>, n: int) -> (st: (int, int))
    requires
        0 <= n,
        c.len() == n + 1,
        forall|t: int| 0 <= t < c.len() ==> #[trigger] c[t] < n,
    ensures
        0 <= st.0 < st.1 < c.len(),
        c[st.0] == c[st.1],
{
    let ci = c.map_values(|v: usize| v as int);
    if ci.no_duplicates() {
        ci.unique_seq_to_set();
        lemma_int_range(0, n);
        assert forall|v: int| ci.to_set().contains(v) implies set_int_range(0, n).contains(v) by {
            let t = choose|t: int| 0 <= t < ci.len() && ci[t] == v;
            assert(c[t] < n);
        }
        lemma_len_subset(ci.to_set(), set_int_range(0, n));
        assert(false);
    }
    let (a, b) = choose|a: int, b: int| 0 <= a < ci.len() && 0 <= b < ci.len() && a != b && ci[a] == ci[b];
    if a < b {
        (a, b)
    } else {
        (b, a)
    }
}

/// A walk that comes back to where it was closes a cycle in the history.
proof fn lemma_walk_cycle(
    st: Listing,
    from: Seq<u8>,
    nv: Seq<Seq<u8>>,
    pv: Seq<Seq<usize>>,
    tv: Seq<u64>,
    c: Seq<usize>,
    s: int,
    t: int,
)
    requires
        graph_of(st, nv, pv, tv),
        forall|x: Seq<u8>| #[trigger] nv.contains(x) <==> reaches(st, from, x),
        0 <= s < t < c.len(),
        c[s] == c[t],
        forall|u: int| 0 <= u < c.len() ==> #[trigger] c[u] < nv.len(),
        forall|u: int| 0 <= u && u + 1 < c.len() ==> pv[c[u + 1] as int].contains(#[trigger] c[u]),
    ensures
        !acyclic_from(st, from),
{
    reveal(graph_of);
    let tail = Seq::new((t - s) as nat, |v: int| nv[c[t - 1 - v] as int]);
    assert forall|i: int, j: int| 0 <= i && j == i + 1 && j < tail.len() implies parents_of(
        st,
        #[trigger] tail[i],
    ).contains(#[trigger] tail[j]) by {
        let u = t - 2 - i;
        assert(pv[c[u + 1] as int].contains(c[u]));
        assert(tail[i] == nv[c[u + 1] as int] && tail[j] == nv[c[u] as int]);
    }
    let x = nv[c[t] as int];
    let p = nv[c[t - 1] as int];
    assert(tail[0] == p);
    assert(tail.last() == nv[c[s] as int]);
    assert(parent_path(st, tail));
    assert(reaches(st, p, x));
    assert(pv[c[t] as int].contains(c[t - 1]));
    assert(parents_of(st, x).contains(p));
    assert(nv.contains(x));
}

/// The positions listed in order, read back as ids, are in log order.
proof fn lemma_log_from_positions(
    st: Listing,
    from: Seq<u8>,
    nv: Seq<Seq<u8>>,
    pv: Seq<Seq<usize>>,
    tv: Seq<u64>,
    order: Seq<usize>,
    fi: usize,
)
    requires
        graph_of(st, nv, pv, tv),
        ids_sorted(nv),
        nv.len() <= usize::MAX,
        forall|x: Seq<u8>| #[trigger] nv.contains(x) <==> reaches(st, from, x),
        fi < nv.len(),
        nv[fi as int] == from,
        kahn_result(pv, nv, tv, fi, order),
        order.len() == nv.len(),
    ensures
        log_order(st, from, order.map_values(|i: usize| nv[i as int])),
{
    reveal(graph_of);
    reveal(kahn_result);
    let l = order.map_values(|i: usize| nv[i as int]);
    let n = nv.len() as int;
    assert forall|a: int, b: int| 0 <= a < l.len() && 0 <= b < l.len() && a != b implies l[a] != l[b] by {
        lemma_distinct_positions(nv, order[a] as int, order[b] as int);
    }
    assert forall|x: Seq<u8>| #[trigger] l.contains(x) <==> reaches(st, from, x) by {
        if l.contains(x) {
            let a = choose|a: int| 0 <= a < l.len() && l[a] == x;
            assert(nv[order[a] as int] == x);
            assert(nv.contains(x));
        }
        if reaches(st, from, x) {
            assert(nv.contains(x));
            let j = choose|j: int| 0 <= j < n && nv[j] == x;
            assert(order.contains(j as usize));
            let a = choose|a: int| 0 <= a < order.len() && order[a] == j as usize;
            assert(l[a] == x);
        }
    }
    assert forall|a: int, b: int|
        0 <= a < l.len() && 0 <= b < l.len() && parents_of(st, #[trigger] l[a]).contains(#[trigger] l[b]) implies a < b by {
        assert(pv[order[a] as int].contains(order[b]));
    }
    assert forall|q: int, y: Seq<u8>|
        0 <= q < l.len() && #[trigger] available(st, from, l.take(q), y) && y != l[q] implies newer(st, l[q], y) by {
        assert(nv.contains(y));
        let j = choose|j: int| 0 <= j < n && nv[j] == y;
        let ju = j as usize;
        assert(l.take(q) =~= order.take(q).map_values(|i: usize| nv[i as int]));
        if order.take(q).contains(ju) {
            let a = choose|a: int| 0 <= a < q && order.take(q)[a] == ju;
            assert(l.take(q)[a] == y);
        }
        assert forall|i: int| 0 <= i < n && #[trigger] pv[i].contains(ju) implies order.take(q).contains(i as usize) by {
            assert(parents_of(st, nv[i]).contains(nv[j]));
            assert(nv.contains(nv[i]));
            assert(l.take(q).contains(nv[i]));
            let a = choose|a: int| 0 <= a < q && l.take(q)[a] == nv[i];
            lemma_distinct_positions_or_same(nv, order[a] as int, i);
            assert(order.take(q)[a] == i as usize);
        }
        assert(ready_after(pv, n, order.take(q), ju));
        assert(ju != order[q]);
        assert(key_newer(tv, nv, order[q], ju));
        assert(commit_at(st, nv[order[q] as int]) matches Some(c) && c.timestamp == tv[order[q] as int]);
        assert(commit_at(st, nv[j]) matches Some(c) && c.timestamp == tv[j]);
    }
}

/// Positions holding the same id are the same position.
proof fn lemma_distinct_positions_or_same(nv: Seq<Seq<u8>>, a: int, b: int)
    requires
        ids_sorted(nv),
        0 <= a < nv.len(),
        0 <= b < nv.len(),
        nv[a] == nv[b],
    ensures
        a == b,
{
    if a != b {
        lemma_distinct_positions(nv, a, b);
    }
}


/// If `from` is a parent of one of its own ancestors, its history has a
/// cycle.
proof fn lemma_root_has_child(
    st: Listing,
    from: Seq<u8>,
    nv: Seq<Seq<u8>>,
    pv: Seq<Seq<usize>>,
    tv: Seq<u64>,
    fi: usize,
)
    requires
        graph_of(st, nv, pv, tv),
        forall|x: Seq<u8>| #[trigger] nv.contains(x) <==> reaches(st, from, x),
        fi < nv.len(),
        nv[fi as int] == from,
        pending_children(pv, none_listed(nv.len() as int), fi, nv.len() as int) != 0,
    ensures
        !acyclic_from(st, from),
{
    reveal(graph_of);
    let n = nv.len() as int;
    let none = none_listed(n);
    lemma_pending_zero(pv, none, fi, n);
    let i = choose|i: int| 0 <= i < n && #[trigger] pv[i].contains(fi) && !none[i];
    assert(parents_of(st, nv[i]).contains(nv[fi as int]));
    assert(nv.contains(nv[i]));
    lemma_reaches_self(st, from);
}

/// Every ancestor but `from` has a child among the ancestors.
proof fn lemma_only_root_free(
    st: Listing,
    from: Seq<u8>,
    nv: Seq<Seq<u8>>,
    pv: Seq<Seq<usize>>,
    tv: Seq<u64>,
    fi: usize,
)
    requires
        graph_of(st, nv, pv, tv),
        ids_sorted(nv),
        nv.len() <= usize::MAX,
        forall|x: Seq<u8>| #[trigger] nv.contains(x) <==> reaches(st, from, x),
        fi < nv.len(),
        nv[fi as int] == from,
    ensures
        forall|j: int|
            0 <= j < nv.len() && j != fi ==> #[trigger] pending_children(
                pv,
                none_listed(nv.len() as int),
                j as usize,
                nv.len() as int,
            ) != 0,
{
    reveal(graph_of);
    let n = nv.len() as int;
    assert forall|j: int| 0 <= j < n && j != fi implies #[trigger] pending_children(
        pv,
        none_listed(n),
        j as usize,
        n,
    ) != 0 by {
        lemma_distinct_positions(nv, j, fi as int);
        assert(nv.contains(nv[j]));
        let c = lemma_has_child(st, from, nv[j]);
        assert(nv.contains(c));
        let i = choose|i: int| 0 <= i < n && nv[i] == c;
        assert(pv[i].contains(j as usize));
        lemma_pending_zero(pv, none_listed(n), j as usize, n);
    }
}

/// When the listing stops short, the unlisted ancestors form a cycle.
proof fn lemma_stuck_cycle(
    st: Listing,
    from: Seq<u8>,
    nv: Seq<Seq<u8>>,
    pv: Seq<Seq<usize>>,
    tv: Seq<u64>,
    fi: usize,
    order: Seq<usize>,
)
    requires
        graph_of(st, nv, pv, tv),
        nv.len() <= usize::MAX,
        forall|x: Seq<u8>| #[trigger] nv.contains(x) <==> reaches(st, from, x),
        kahn_result(pv, nv, tv, fi, order),
        order.len() < nv.len(),
    ensures
        !acyclic_from(st, from),
{
    reveal(kahn_result);
    let n = nv.len() as int;
    let j = choose|j: usize| j < n && !#[trigger] order.contains(j);
    let walk = lemma_unlisted_chain(pv, n, order, j, n as nat);
    let (a, b) = lemma_repeat(walk, n);
    lemma_walk_cycle(st, from, nv, pv, tv, walk, a, b);
}

/// The ids at the given positions.
fn ids_at(nodes: &Vec<ObjectId>, order: &Vec<usize>) -> (r: Vec<ObjectId>)
    requires
        forall|t: int| 0 <= t < order@.len() ==> #[trigger] order@[t] < nodes@.len(),
    ensures
        id_views(r@) == order@.map_values(|i: usize| id_views(nodes@)[i as int]),
{
    let ghost nv = id_views(nodes@);
    let mut out: Vec<ObjectId> = Vec::new();
    let mut q: usize = 0;
    while q < order.len()
        invariant
            nv == id_views(nodes@),
            q <= order@.len(),
            forall|t: int| 0 <= t < order@.len() ==> #[trigger] order@[t] < nodes@.len(),
            id_views(out@) =~= order@.take(q as int).map_values(|i: usize| nv[i as int]),
        decreases order@.len() - q,
    {
        let i = order[q];
        assert(order@[q as int] < nodes@.len());
        let ghost prev = id_views(out@);
        out.push(nodes[i]);
        assert(id_views(out@) =~= prev.push(nv[i as int]));
        assert(order@.take(q + 1) =~= order@.take(q as int).push(i));
        q = q + 1;
    }
    assert(order@.take(q as int) =~= order@);
    out
}

impl Repo {
    /// Every commit reachable from `from`, each listed before all of its
    /// parents. Independent branches are interleaved newest timestamp
    /// first, then greatest id, so the order is deterministic; timestamps
    /// only break ties. A history that loops back on itself is reported as
    /// corruption.
    pub fn log(&self, from: &ObjectId) -> (r: Result<Vec<ObjectId>, RepoError>)
        requires
            self.wf(),
        ensures
            r is Ok <==> history_readable(self@, from@) && acyclic_from(self@, from@),
            r matches Ok(v) ==> log_order(self@, from@, id_views(v@)),
            history_readable(self@, from@) && !acyclic_from(self@, from@) ==> (r matches Err(RepoError::Corrupt(c))
                && c == *from),
            !history_readable(self@, from@) ==> (r matches Err(e) && exists|x: Seq<u8>| #[trigger] reaches(self@, from@, x)
                && names_unreadable(self@, x, e)),
    {
        let nodes = match self.ancestors(from) {
            Ok(v) => v,
            Err(e) => return Err(e),
        };
        self.log_of(from, &nodes)
    }

    /// The log of `from`, given its ancestors in id order.
    #[verifier::spinoff_prover]
    fn log_of(&self, from: &ObjectId, nodes: &Vec<ObjectId>) -> (r: Result<Vec<ObjectId>, RepoError>)
        requires
            self.wf(),
            ids_sorted(id_views(nodes@)),
            forall|x: Seq<u8>| #[trigger] id_views(nodes@).contains(x) <==> reaches(self@, from@, x),
            history_readable(self@, from@),
        ensures
            r is Ok <==> acyclic_from(self@, from@),
            r matches Ok(v) ==> log_order(self@, from@, id_views(v@)),
            !acyclic_from(self@, from@) ==> (r matches Err(RepoError::Corrupt(c)) && c == *from),
    {
        let ghost st = self@;
        let ghost nv = id_views(nodes@);
        let n = nodes.len();
        proof {
            lemma_reaches_self(st, from@);
            assert(nv.contains(from@));
            assert forall|x: Seq<u8>| #[trigger] nv.contains(x) implies commit_at(st, x) is Some by {}
            assert forall|x: Seq<u8>, p: Seq<u8>|
                nv.contains(x) && #[trigger] parents_of(st, x).contains(p) implies #[trigger] nv.contains(p) by {
                lemma_reaches_parent(st, from@, x, p);
            }
        }
        let fi = match index_in(nodes, from) {
            Some(j) => j,
            None => return Err(RepoError::Missing(*from)),
        };
        let (pidx, ts) = match self.parent_graph(nodes) {
            Ok(g) => g,
            Err(e) => return Err(e),
        };
        let ghost pv = views(pidx@);
        let ghost tv = ts@;
        proof {
            lemma_graph_shape(st, nv, pv, tv);
        }
        let pending = child_counts(&pidx, n);
        if pending[fi] != 0 {
            proof {
                lemma_root_has_child(st, from@, nv, pv, tv, fi);
            }
            return Err(RepoError::Corrupt(*from));
        }
        proof {
            lemma_only_root_free(st, from@, nv, pv, tv, fi);
        }
        let order = topo_order(&pidx, &ts, nodes, fi, pending);
        proof {
            lemma_kahn_bounds(pv, nv, tv, fi, order@);
        }
        if order.len() < n {
            proof {
                lemma_stuck_cycle(st, from@, nv, pv, tv, fi, order@);
            }
            return Err(RepoError::Corrupt(*from));
        }
        let out = ids_at(nodes, &order);
        proof {
            lemma_log_from_positions(st, from@, nv, pv, tv, order@, fi);
            lemma_log_order_acyclic(st, from@, id_views(out@));
        }
        Ok(out)
    }
}

// ---- merge bases ----

/// The best common ancestors of `a` and `b` are those of `b` and `a`.
pub proof fn law_merge_bases_symmetric(store: Listing, a: Seq<u8>, b: Seq<u8>, x: Seq<u8>)
    ensures
        merge_base_of(store, a, b, x) == merge_base_of(store, b, a, x),
{
    assert(common_ancestor(store, a, b, x) == common_ancestor(store, b, a, x));
    if dominated(store, a, b, x) {
        let (c, p) = choose|c: Seq<u8>, p: Seq<u8>|
            common_ancestor(store, a, b, c) && #[trigger] parents_of(store, c).contains(p) && #[trigger] reaches(
                store,
                p,
                x,
            );
        assert(common_ancestor(store, b, a, c));
    }
    if dominated(store, b, a, x) {
        let (c, p) = choose|c: Seq<u8>, p: Seq<u8>|
            common_ancestor(store, b, a, c) && #[trigger] parents_of(store, c).contains(p) && #[trigger] reaches(
                store,
                p,
                x,
            );
        assert(common_ancestor(store, a, b, c));
    }
}

/// A path from `a` to some other commit starts with a parent of `a`.
proof fn lemma_first_step(store: Listing, a: Seq<u8>, x: Seq<u8>) -> (p: Seq<u8>)
    requires
        reaches(store, a, x),
        x != a,
    ensures
        parents_of(store, a).contains(p),
        reaches(store, p, x),
{
    let path = choose|path: Seq<Seq<u8>>| #[trigger] parent_path(store, path) && path[0] == a && path.last() == x;
    let rest = path.drop_first();
    assert(parents_of(store, path[0]).contains(path[1]));
    assert forall|i: int, j: int| 0 <= i && j == i + 1 && j < rest.len() implies parents_of(
        store,
        #[trigger] rest[i],
    ).contains(#[trigger] rest[j]) by {
        assert(rest[i] == path[i + 1] && rest[j] == path[j + 1]);
    }
    assert(parent_path(store, rest));
    assert(rest[0] == path[1] && rest.last() == x);
    path[1]
}

/// When `a` is an ancestor of `b` (in a history without cycles), `a` is
/// their one best common ancestor.
pub proof fn law_ancestor_is_the_merge_base(store: Listing, a: Seq<u8>, b: Seq<u8>, x: Seq<u8>)
    requires
        reaches(store, b, a),
        acyclic_from(store, b),
    ensures
        merge_base_of(store, a, b, x) <==> x == a,
{
    lemma_reaches_self(store, a);
    if x == a {
        if dominated(store, a, b, a) {
            let (c, p) = choose|c: Seq<u8>, p: Seq<u8>|
                common_ancestor(store, a, b, c) && #[trigger] parents_of(store, c).contains(p) && #[trigger] reaches(
                    store,
                    p,
                    a,
                );
            // p reaches a, which reaches c: a cycle through the parent p of c
            lemma_reaches_trans(store, p, a, c);
            lemma_reaches_trans(store, b, a, c);
            assert(!reaches(store, p, c));
        }
    } else if merge_base_of(store, a, b, x) {
        let p = lemma_first_step(store, a, x);
        assert(common_ancestor(store, a, b, a));
        assert(dominated(store, a, b, x));
    }
}

} // verus!
