//! Line-oriented text diffs and the unified diff format. Lines keep their
//! trailing `\n`, so a file that does and one that does not end in a newline
//! are genuinely different, and concatenating the lines gives the original
//! bytes back exactly.

use vstd::prelude::*;

use crate::edit_graph::lcs_distance;
use crate::myers::{
    apply_from, apply_spec, coalesced, consumed, deletes_first, diff, distance, vals, OpView, Patch, PatchError, PatchOp,
    Token,
};
use vstd::string::StringSliceAdditionalSpecFns;
use vstd::utf8::{decode_utf8, encode_utf8, valid_utf8};

verus! {

impl<'a> Token for &'a [u8] {
    fn same(&self, other: &Self) -> (r: bool) {
        crate::bytes::bytes_eq(*self, *other)
    }

    fn duplicate(&self) -> (r: Self) {
        *self
    }
}

/// The index of the first `\n` at or after `i`, or the length if none.
pub open spec fn first_newline(d: Seq<u8>, i: int) -> int
    decreases d.len() - i,
{
    if i >= d.len() {
        d.len() as int
    } else if d[i] == 10 {
        i
    } else {
        first_newline(d, i + 1)
    }
}

/// The lines of `d` from `i` on, each with its `\n` (the last may have none).
pub open spec fn lines_from(d: Seq<u8>, i: int) -> Seq<Seq<u8>>
    decreases d.len() - i,
{
    if i < 0 || i >= d.len() {
        seq![]
    } else {
        let e = first_newline(d, i);
        let end = if e < d.len() {
            e + 1
        } else {
            d.len() as int
        };
        if end <= i {
            seq![]
        } else {
            seq![d.subrange(i, end)] + lines_from(d, end)
        }
    }
}

/// The lines of `d`, each with its terminating `\n` (the last may have none).
pub open spec fn lines(d: Seq<u8>) -> Seq<Seq<u8>> {
    lines_from(d, 0)
}

/// The concatenation of byte strings.
pub open spec fn flatten(ls: Seq<Seq<u8>>) -> Seq<u8>
    decreases ls.len(),
{
    if ls.len() == 0 {
        seq![]
    } else {
        ls[0] + flatten(ls.drop_first())
    }
}

proof fn lemma_first_newline(d: Seq<u8>, i: int)
    requires
        0 <= i <= d.len(),
    ensures
        i <= first_newline(d, i) <= d.len(),
        first_newline(d, i) < d.len() ==> d[first_newline(d, i)] == 10,
        forall|j: int| i <= j < first_newline(d, i) ==> d[j] != 10,
    decreases d.len() - i,
{
    if i < d.len() && d[i] != 10 {
        lemma_first_newline(d, i + 1);
    }
}

proof fn lemma_flatten_lines_from(d: Seq<u8>, i: int)
    requires
        0 <= i <= d.len(),
    ensures
        flatten(lines_from(d, i)) == d.subrange(i, d.len() as int),
    decreases d.len() - i,
{
    if i < d.len() {
        lemma_first_newline(d, i);
        let e = first_newline(d, i);
        let end = if e < d.len() { e + 1 } else { d.len() as int };
        lemma_flatten_lines_from(d, end);
        let ls = lines_from(d, i);
        assert(ls[0] == d.subrange(i, end));
        assert(ls.drop_first() =~= lines_from(d, end));
        assert(d.subrange(i, end) + d.subrange(end, d.len() as int) =~= d.subrange(i, d.len() as int));
    } else {
        assert(d.subrange(i, d.len() as int) =~= Seq::<u8>::empty());
    }
}

/// Concatenating the lines of `d` gives `d` back exactly.
pub proof fn law_lines_concatenate_back(d: Seq<u8>)
    ensures
        flatten(lines(d)) == d,
{
    lemma_flatten_lines_from(d, 0);
    assert(d.subrange(0, d.len() as int) =~= d);
}

/// Splits into lines, each including its terminating `\n` (the last line
/// may have none).
pub fn split_lines(data: &[u8]) -> (r: Vec<&[u8]>)
    ensures
        vals(r@) == lines(data@),
{
    let ghost d = data@;
    let mut r: Vec<&[u8]> = Vec::new();
    let mut start: usize = 0;
    let mut i: usize = 0;
    while i < data.len()
        invariant
            d == data@,
            start <= i <= data.len(),
            vals(r@) + lines_from(d, start as int) == lines(d),
            first_newline(d, start as int) == first_newline(d, i as int),
        decreases data.len() - i,
    {
        if data[i] == 10 {
            let line = vstd::slice::slice_subrange(data, start, i + 1);
            let ghost before = vals(r@);
            r.push(line);
            proof {
                assert(vals(r@) =~= before.push(d.subrange(start as int, i + 1)));
                let ls = lines_from(d, start as int);
                assert(ls =~= seq![d.subrange(start as int, i + 1)] + lines_from(d, i + 1));
                assert(before + ls =~= vals(r@) + lines_from(d, i + 1));
            }
            start = i + 1;
        }
        i = i + 1;
    }
    if start < data.len() {
        let line = vstd::slice::slice_subrange(data, start, data.len());
        let ghost before = vals(r@);
        r.push(line);
        proof {
            assert(vals(r@) =~= before.push(d.subrange(start as int, d.len() as int)));
            let ls = lines_from(d, start as int);
            assert(ls =~= seq![d.subrange(start as int, d.len() as int)] + lines_from(d, d.len() as int));
            assert(before + ls =~= vals(r@));
        }
    } else {
        assert(vals(r@) + Seq::<Seq<u8>>::empty() =~= vals(r@));
    }
    r
}

/// The lines of `data`, each copied into a vector of its own.
pub fn line_vecs(data: &[u8]) -> (r: Vec<Vec<u8>>)
    ensures
        vals(r@) == lines(data@),
{
    let parts = split_lines(data);
    let mut r: Vec<Vec<u8>> = Vec::new();
    let mut i: usize = 0;
    while i < parts.len()
        invariant
            i <= parts.len(),
            vals(r@) == vals(parts@).subrange(0, i as int),
        decreases parts.len() - i,
    {
        let line = crate::bytes::copy_range(parts[i], 0, parts[i].len());
        let ghost before = vals(r@);
        r.push(line);
        proof {
            assert(parts[i as int]@.subrange(0, parts[i as int]@.len() as int) =~= parts[i as int]@);
            assert(vals(r@) =~= before.push(line@));
            assert(vals(parts@)[i as int] == parts@[i as int]@);
            assert(vals(r@) =~= vals(parts@).subrange(0, i + 1));
        }
        i = i + 1;
    }
    assert(vals(parts@).subrange(0, parts@.len() as int) =~= vals(parts@));
    r
}

/// All lines of a text, at most as many as its bytes.
pub proof fn lemma_lines_len(d: Seq<u8>, i: int)
    requires
        0 <= i <= d.len(),
    ensures
        lines_from(d, i).len() <= d.len() - i,
    decreases d.len() - i,
{
    if i < d.len() {
        lemma_first_newline(d, i);
        let e = first_newline(d, i);
        let end = if e < d.len() { e + 1 } else { d.len() as int };
        lemma_lines_len(d, end);
    }
}

/// A minimal line-level patch from `a` to `b`.
pub fn diff_text(a: &[u8], b: &[u8]) -> (p: Patch<Vec<u8>>)
    requires
        2 * (a.len() + b.len()) + 2 <= isize::MAX,
    ensures
        apply_spec(p@, lines(a@)) == Ok::<Seq<Seq<u8>>, PatchError>(lines(b@)),
        consumed(p@) == lines(a@).len(),
        consumed(p@) <= a@.len(),
        distance(p@) == lcs_distance(lines(a@), lines(b@)),
        coalesced(p@),
        deletes_first(p@),
{
    let la = line_vecs(a);
    let lb = line_vecs(b);
    proof {
        lemma_lines_len(a@, 0);
        lemma_lines_len(b@, 0);
    }
    let p = diff(la.as_slice(), lb.as_slice());
    proof {
        crate::myers::law_applied_script_consumes_its_source(p@, vals(la@));
    }
    p
}

/// The concatenation of lines.
pub fn concat_lines(ls: &Vec<Vec<u8>>) -> (r: Vec<u8>)
    ensures
        r@ == flatten(vals(ls@)),
{
    let mut parts: Vec<u8> = Vec::new();
    let mut k: usize = 0;
    assert(vals(ls@).subrange(0, ls@.len() as int) =~= vals(ls@));
    assert(parts@ + flatten(vals(ls@)) =~= flatten(vals(ls@)));
    while k < ls.len()
        invariant
            k <= ls.len(),
            flatten(vals(ls@)) == parts@ + flatten(vals(ls@).subrange(k as int, ls@.len() as int)),
        decreases ls.len() - k,
    {
        let ghost rest = vals(ls@).subrange(k as int, ls@.len() as int);
        assert(rest[0] == ls@[k as int]@);
        assert(rest.drop_first() =~= vals(ls@).subrange(k + 1, ls@.len() as int));
        let ghost before = parts@;
        crate::bytes::append_bytes(&mut parts, ls[k].as_slice());
        assert(before + (ls@[k as int]@ + flatten(rest.drop_first())) =~= parts@ + flatten(rest.drop_first()));
        k = k + 1;
    }
    assert(vals(ls@).subrange(ls@.len() as int, ls@.len() as int) =~= Seq::<Seq<u8>>::empty());
    assert(parts@ + Seq::<u8>::empty() =~= parts@);
    parts
}

/// Applies a line patch to text.
pub fn apply_text(a: &[u8], patch: &Patch<Vec<u8>>) -> (r: Result<Vec<u8>, PatchError>)
    requires
        consumed(patch@) <= usize::MAX,
    ensures
        match apply_spec(patch@, lines(a@)) {
            Ok(ls) => r == Ok::<Vec<u8>, PatchError>(r->Ok_0) && r->Ok_0@ == flatten(ls),
            Err(e) => r == Err::<Vec<u8>, PatchError>(e),
        },
{
    let lines = line_vecs(a);
    match patch.apply(lines.as_slice()) {
        Ok(out) => Ok(concat_lines(&out)),
        Err(e) => Err(e),
    }
}

/// One line of a rendered diff: its tag (` `, `-` or `+`), its text, and
/// how many lines of `a` and of `b` come before it.
pub struct Line<'a> {
    pub tag: u8,
    pub text: &'a [u8],
    pub a_before: usize,
    pub b_before: usize,
}

/// One line of a rendered diff, as values.
pub struct LineView {
    pub tag: u8,
    pub text: Seq<u8>,
    pub a_before: int,
    pub b_before: int,
}

impl<'a> View for Line<'a> {
    type V = LineView;

    open spec fn view(&self) -> LineView {
        LineView { tag: self.tag, text: self.text@, a_before: self.a_before as int, b_before: self.b_before as int }
    }
}

/// The tagged lines of a line script `ops` from `a`'s line `ai` and `b`'s
/// line `bi` on.
pub open spec fn tagged(ops: Seq<OpView<Seq<u8>>>, la: Seq<Seq<u8>>, lb: Seq<Seq<u8>>, ai: int, bi: int) -> Seq<
    LineView,
>
    decreases ops.len(),
{
    if ops.len() == 0 {
        seq![]
    } else {
        match ops[0] {
            OpView::Equal(n) => Seq::new(
                n,
                |i: int| LineView { tag: 32, text: la[ai + i], a_before: ai + i, b_before: bi + i },
            ) + tagged(ops.drop_first(), la, lb, ai + n, bi + n),
            OpView::Delete(n) => Seq::new(
                n,
                |i: int| LineView { tag: 45, text: la[ai + i], a_before: ai + i, b_before: bi },
            ) + tagged(ops.drop_first(), la, lb, ai + n, bi),
            OpView::Insert(items) => Seq::new(
                items.len(),
                |i: int| LineView { tag: 43, text: lb[bi + i], a_before: ai, b_before: bi + i },
            ) + tagged(ops.drop_first(), la, lb, ai, bi + items.len()),
        }
    }
}

/// The tagged lines of a line script.
#[verifier::loop_isolation(false)]
fn tag_lines<'a>(la: &Vec<&'a [u8]>, lb: &Vec<&'a [u8]>, patch: &Patch<&'a [u8]>) -> (r: Vec<Line<'a>>)
    requires
        apply_spec(patch@, vals(la@)) == Ok::<Seq<Seq<u8>>, PatchError>(vals(lb@)),
    ensures
        r@.map_values(|l: Line<'a>| l@) == tagged(patch@, vals(la@), vals(lb@), 0, 0),
{
    let ghost o = patch@;
    let ghost av = vals(la@);
    let ghost bv = vals(lb@);
    let ghost whole = tagged(o, av, bv, 0, 0);
    let mut out: Vec<Line<'a>> = Vec::new();
    let na: usize = la.len();
    let nb: usize = lb.len();
    let mut ai: usize = 0;
    let mut bi: usize = 0;
    let mut k: usize = 0;
    assert(o.subrange(0, o.len() as int) =~= o);
    assert(bv.subrange(0, bv.len() as int) =~= bv);
    assert(out@.map_values(|l: Line<'a>| l@) + whole =~= whole);
    while k < patch.ops.len()
        invariant
            o == patch@,
            av == vals(la@),
            bv == vals(lb@),
            whole == tagged(o, av, bv, 0, 0),
            k <= patch.ops@.len(),
            na == la@.len(),
            nb == lb@.len(),
            ai <= na,
            bi <= nb,
            apply_from(o.subrange(k as int, o.len() as int), av, ai as nat) == Ok::<Seq<Seq<u8>>, PatchError>(
                bv.subrange(bi as int, bv.len() as int),
            ),
            out@.map_values(|l: Line<'a>| l@) + tagged(o.subrange(k as int, o.len() as int), av, bv, ai as int, bi as int)
                == whole,
        decreases patch.ops@.len() - k,
    {
        let ghost rest = o.subrange(k as int, o.len() as int);
        let ghost built = out@.map_values(|l: Line<'a>| l@);
        proof {
            assert(rest[0] == o[k as int]);
            assert(o[k as int] == patch.ops@[k as int]@);
            assert(rest.drop_first() =~= o.subrange(k + 1, o.len() as int));
        }
        match &patch.ops[k] {
            PatchOp::Equal(n) => {
                let n = *n;
                let ghost f = |i: int| LineView { tag: 32, text: av[ai + i], a_before: ai + i, b_before: bi + i };
                proof {
                    let t = apply_from(rest.drop_first(), av, (ai + n) as nat)->Ok_0;
                    assert(bv.subrange(bi as int, bv.len() as int) =~= av.subrange(ai as int, ai + n) + t);
                    assert(bv.subrange(bi as int, bv.len() as int).len() == n + t.len());
                    let bs = bv.subrange(bi as int, bv.len() as int);
                    assert(bs.subrange(n as int, bs.len() as int) =~= t);
                    assert(bv.subrange(bi + n, bv.len() as int) =~= bs.subrange(n as int, bs.len() as int));
                }
                let mut i: usize = 0;
                while i < n
                    invariant
                        i <= n,
                        ai + n <= la@.len(),
                        out@.map_values(|l: Line<'a>| l@) == built + Seq::new(i as nat, f),
                    decreases n - i,
                {
                    let ghost before = out@.map_values(|l: Line<'a>| l@);
                    out.push(Line { tag: 32, text: la[ai + i], a_before: ai + i, b_before: bi + i });
                    proof {
                        assert(av[ai + i] == la@[ai + i]@);
                        assert(out@.map_values(|l: Line<'a>| l@) =~= before.push(f(i as int)));
                        assert(built + Seq::new((i + 1) as nat, f) =~= (built + Seq::new(i as nat, f)).push(f(i as int)));
                    }
                    i = i + 1;
                }
                proof {
                    let nt = tagged(rest.drop_first(), av, bv, ai + n, bi + n);
                    assert(built + (Seq::new(n as nat, f) + nt) =~= (built + Seq::new(n as nat, f)) + nt);
                }
                ai = ai + n;
                bi = bi + n;
            },
            PatchOp::Delete(n) => {
                let n = *n;
                let ghost f = |i: int| LineView { tag: 45, text: av[ai + i], a_before: ai + i, b_before: bi as int };
                let mut i: usize = 0;
                while i < n
                    invariant
                        i <= n,
                        ai + n <= la@.len(),
                        out@.map_values(|l: Line<'a>| l@) == built + Seq::new(i as nat, f),
                    decreases n - i,
                {
                    let ghost before = out@.map_values(|l: Line<'a>| l@);
                    out.push(Line { tag: 45, text: la[ai + i], a_before: ai + i, b_before: bi });
                    proof {
                        assert(av[ai + i] == la@[ai + i]@);
                        assert(out@.map_values(|l: Line<'a>| l@) =~= before.push(f(i as int)));
                        assert(built + Seq::new((i + 1) as nat, f) =~= (built + Seq::new(i as nat, f)).push(f(i as int)));
                    }
                    i = i + 1;
                }
                proof {
                    let nt = tagged(rest.drop_first(), av, bv, ai + n, bi as int);
                    assert(built + (Seq::new(n as nat, f) + nt) =~= (built + Seq::new(n as nat, f)) + nt);
                }
                ai = ai + n;
            },
            PatchOp::Insert(items) => {
                let n = items.len();
                let ghost f = |i: int| LineView { tag: 43, text: bv[bi + i], a_before: ai as int, b_before: bi + i };
                proof {
                    let t = apply_from(rest.drop_first(), av, ai as nat)->Ok_0;
                    let bs = bv.subrange(bi as int, bv.len() as int);
                    assert(bs =~= vals(items@) + t);
                    assert(bs.len() == n + t.len());
                    assert(bs.subrange(n as int, bs.len() as int) =~= t);
                    assert(bv.subrange(bi + n, bv.len() as int) =~= bs.subrange(n as int, bs.len() as int));
                }
                let mut i: usize = 0;
                while i < n
                    invariant
                        i <= n,
                        bi + n <= lb@.len(),
                        out@.map_values(|l: Line<'a>| l@) == built + Seq::new(i as nat, f),
                    decreases n - i,
                {
                    let ghost before = out@.map_values(|l: Line<'a>| l@);
                    out.push(Line { tag: 43, text: lb[bi + i], a_before: ai, b_before: bi + i });
                    proof {
                        assert(bv[bi + i] == lb@[bi + i]@);
                        assert(out@.map_values(|l: Line<'a>| l@) =~= before.push(f(i as int)));
                        assert(built + Seq::new((i + 1) as nat, f) =~= (built + Seq::new(i as nat, f)).push(f(i as int)));
                    }
                    i = i + 1;
                }
                proof {
                    let nt = tagged(rest.drop_first(), av, bv, ai as int, bi + n);
                    assert(built + (Seq::new(n as nat, f) + nt) =~= (built + Seq::new(n as nat, f)) + nt);
                }
                bi = bi + n;
            },
        }
        k = k + 1;
    }
    proof {
        assert(o.subrange(k as int, o.len() as int) =~= Seq::<OpView<Seq<u8>>>::empty());
        assert(out@.map_values(|l: Line<'a>| l@) + Seq::<LineView>::empty() =~= out@.map_values(|l: Line<'a>| l@));
    }
    out
}

/// The length of a script's tagged lines: every line of `a` and of `b`
/// from where it starts.
proof fn lemma_tagged_len(ops: Seq<OpView<Seq<u8>>>, la: Seq<Seq<u8>>, lb: Seq<Seq<u8>>, ai: int, bi: int)
    requires
        0 <= ai <= la.len(),
        0 <= bi <= lb.len(),
        apply_from(ops, la, ai as nat) == Ok::<Seq<Seq<u8>>, PatchError>(lb.subrange(bi, lb.len() as int)),
    ensures
        tagged(ops, la, lb, ai, bi).len() <= (la.len() - ai) + (lb.len() - bi),
        forall|q: int| 0 <= q < tagged(ops, la, lb, ai, bi).len() ==> (#[trigger] tagged(ops, la, lb, ai, bi)[q]).a_before
            <= la.len() && tagged(ops, la, lb, ai, bi)[q].b_before <= lb.len(),
    decreases ops.len(),
{
    if ops.len() > 0 {
        let rest = ops.drop_first();
        let bs = lb.subrange(bi, lb.len() as int);
        match ops[0] {
            OpView::Equal(n) => {
                let t = apply_from(rest, la, (ai + n) as nat)->Ok_0;
                assert(bs =~= la.subrange(ai, ai + n) + t);
                assert(bs.subrange(n as int, bs.len() as int) =~= t);
                assert(lb.subrange(bi + n, lb.len() as int) =~= bs.subrange(n as int, bs.len() as int));
                lemma_tagged_len(rest, la, lb, ai + n, bi + n);
                assert(ai + n <= la.len());
                assert(tagged(ops, la, lb, ai, bi) == Seq::new(
                    n,
                    |i: int| LineView { tag: 32, text: la[ai + i], a_before: ai + i, b_before: bi + i },
                ) + tagged(rest, la, lb, ai + n, bi + n));
            },
            OpView::Delete(n) => {
                lemma_tagged_len(rest, la, lb, ai + n, bi);
                assert(ai + n <= la.len());
                assert(tagged(ops, la, lb, ai, bi) == Seq::new(
                    n,
                    |i: int| LineView { tag: 45, text: la[ai + i], a_before: ai + i, b_before: bi },
                ) + tagged(rest, la, lb, ai + n, bi));
            },
            OpView::Insert(items) => {
                let t = apply_from(rest, la, ai as nat)->Ok_0;
                assert(bs =~= items + t);
                assert(bs.subrange(items.len() as int, bs.len() as int) =~= t);
                assert(lb.subrange(bi + items.len(), lb.len() as int) =~= bs.subrange(items.len() as int, bs.len() as int));
                lemma_tagged_len(rest, la, lb, ai, bi + items.len());
                assert(tagged(ops, la, lb, ai, bi) == Seq::new(
                    items.len(),
                    |i: int| LineView { tag: 43, text: lb[bi + i], a_before: ai, b_before: bi + i },
                ) + tagged(rest, la, lb, ai, bi + items.len()));
            },
        }
    } else {
        assert(ai == la.len());
        assert(lb.subrange(bi, lb.len() as int).len() == 0);
        assert(tagged(ops, la, lb, ai, bi).len() == 0);
    }
}

/// The windows of `ctx` lines of context around the changed lines among the
/// first `i` lines, a window merged into the one before when they touch.
pub open spec fn windows_upto(tl: Seq<LineView>, ctx: nat, i: int) -> Seq<(int, int)>
    decreases i,
{
    if i <= 0 {
        seq![]
    } else {
        let w = windows_upto(tl, ctx, i - 1);
        let j = i - 1;
        if tl[j].tag == 32 {
            w
        } else {
            let s = if j >= ctx { j - ctx } else { 0 };
            let e = if j + ctx + 1 < tl.len() { j + ctx + 1 } else { tl.len() as int };
            if w.len() > 0 && s <= w.last().1 {
                w.update(w.len() - 1, (w.last().0, if w.last().1 >= e { w.last().1 } else { e }))
            } else {
                w.push((s, e))
            }
        }
    }
}

/// The windows of `ctx` lines of context around the changed lines.
pub open spec fn windows(tl: Seq<LineView>, ctx: nat) -> Seq<(int, int)> {
    windows_upto(tl, ctx, tl.len() as int)
}

/// Every window is a non-empty range of lines.
pub open spec fn windows_ok(ws: Seq<(int, int)>, len: int) -> bool {
    forall|q: int| 0 <= q < ws.len() ==> 0 <= (#[trigger] ws[q]).0 < ws[q].1 <= len
}

/// The windows around the changes.
fn windows_of(lines: &Vec<Line>, ctx: usize) -> (r: Vec<(usize, usize)>)
    requires
        lines@.len() + ctx < usize::MAX,
    ensures
        r@.map_values(|p: (usize, usize)| (p.0 as int, p.1 as int)) == windows(
            lines@.map_values(|l: Line| l@),
            ctx as nat,
        ),
        windows_ok(windows(lines@.map_values(|l: Line| l@), ctx as nat), lines@.len() as int),
{
    let ghost tl = lines@.map_values(|l: Line| l@);
    let mut ws: Vec<(usize, usize)> = Vec::new();
    let mut i: usize = 0;
    let n: usize = lines.len();
    while i < n
        invariant
            tl == lines@.map_values(|l: Line| l@),
            n == lines@.len(),
            n + ctx < usize::MAX,
            i <= n,
            ws@.map_values(|p: (usize, usize)| (p.0 as int, p.1 as int)) == windows_upto(tl, ctx as nat, i as int),
            windows_ok(windows_upto(tl, ctx as nat, i as int), n as int),
            forall|q: int| 0 <= q < ws@.len() ==> (#[trigger] ws@[q]).1 <= i + ctx + 1,
        decreases n - i,
    {
        let ghost w = windows_upto(tl, ctx as nat, i as int);
        let ghost wv = ws@;
        assert(tl[i as int] == lines@[i as int]@);
        if lines[i].tag != 32 {
            let start: usize = if i >= ctx {
                i - ctx
            } else {
                0
            };
            let end: usize = if i + ctx + 1 < n {
                i + ctx + 1
            } else {
                n
            };
            let m = ws.len();
            if m > 0 && start <= ws[m - 1].1 {
                let (ws0, we0) = ws[m - 1];
                let ne: usize = if we0 >= end {
                    we0
                } else {
                    end
                };
                ws.set(m - 1, (ws0, ne));
                proof {
                    assert(w.last() == (ws0 as int, we0 as int));
                    assert(ws@.map_values(|p: (usize, usize)| (p.0 as int, p.1 as int)) =~= w.update(
                        w.len() - 1,
                        (ws0 as int, ne as int),
                    ));
                }
            } else {
                ws.push((start, end));
                proof {
                    assert(ws@.map_values(|p: (usize, usize)| (p.0 as int, p.1 as int)) =~= w.push(
                        (start as int, end as int),
                    ));
                }
            }
            proof {
                let w2 = windows_upto(tl, ctx as nat, i + 1);
                assert forall|q: int| 0 <= q < w2.len() implies 0 <= (#[trigger] w2[q]).0 < w2[q].1 <= n by {
                    if q < w.len() - 1 || (q == w.len() - 1 && w2.len() > w.len()) {
                        assert(w2[q] == w[q]);
                    }
                }
                assert forall|q: int| 0 <= q < ws@.len() implies (#[trigger] ws@[q]).1 <= i + 1 + ctx + 1 by {
                    if q < wv.len() && !(q == wv.len() - 1 && ws@.len() == wv.len()) {
                        assert(ws@[q] == wv[q]);
                    }
                }
            }
        }
        i = i + 1;
    }
    ws
}

/// The decimal digits of `n`.
pub open spec fn decimal(n: nat) -> Seq<u8>
    decreases n,
{
    if n < 10 {
        seq![(48 + n) as u8]
    } else {
        decimal(n / 10) + seq![(48 + n % 10) as u8]
    }
}

/// Appends the decimal digits of `n`.
pub fn push_decimal(out: &mut Vec<u8>, n: usize)
    ensures
        final(out)@ == old(out)@ + decimal(n as nat),
    decreases n,
{
    if n >= 10 {
        push_decimal(out, n / 10);
    }
    out.push((48 + n % 10) as u8);
    assert(out@ =~= old(out)@ + decimal(n as nat));
}

/// The lines among `tl` whose tag is not `skip`.
pub open spec fn count_not(tl: Seq<LineView>, skip: u8) -> nat
    decreases tl.len(),
{
    if tl.len() == 0 {
        0
    } else {
        count_not(tl.drop_last(), skip) + if tl.last().tag != skip { 1nat } else { 0nat }
    }
}

/// The note that a line has no final newline.
pub open spec fn no_newline_note() -> Seq<u8> {
    seq![
        10u8, 92, 32, 78, 111, 32, 110, 101, 119, 108, 105, 110, 101, 32, 97, 116, 32, 101, 110, 100, 32, 111, 102,
        32, 102, 105, 108, 101, 10,
    ]
}

/// How one line is printed in a hunk.
pub open spec fn line_out(l: LineView) -> Seq<u8> {
    seq![l.tag] + l.text + if !(l.text.len() > 0 && l.text.last() == 10) {
        no_newline_note()
    } else {
        seq![]
    }
}

/// How lines are printed in a hunk.
pub open spec fn lines_out(tl: Seq<LineView>) -> Seq<u8>
    decreases tl.len(),
{
    if tl.len() == 0 {
        seq![]
    } else {
        lines_out(tl.drop_last()) + line_out(tl.last())
    }
}

/// The header and lines of the hunk over lines `s..e`.
pub open spec fn hunk_out(tl: Seq<LineView>, s: int, e: int) -> Seq<u8> {
    let h = tl.subrange(s, e);
    let ac = count_not(h, 43);
    let bc = count_not(h, 45);
    let a_start = if ac == 0 { h[0].a_before } else { h[0].a_before + 1 };
    let b_start = if bc == 0 { h[0].b_before } else { h[0].b_before + 1 };
    seq![64u8, 64, 32, 45] + decimal(a_start as nat) + seq![44u8] + decimal(ac) + seq![32u8, 43] + decimal(
        b_start as nat,
    ) + seq![44u8] + decimal(bc) + seq![32u8, 64, 64, 10] + lines_out(h)
}

/// The hunks over the windows `ws`.
pub open spec fn hunks_out(tl: Seq<LineView>, ws: Seq<(int, int)>) -> Seq<u8>
    decreases ws.len(),
{
    if ws.len() == 0 {
        seq![]
    } else {
        hunks_out(tl, ws.drop_last()) + hunk_out(tl, ws.last().0, ws.last().1)
    }
}

/// A unified diff of the tagged lines `tl`: empty if nothing changed.
pub open spec fn unified_out(a_label: Seq<u8>, b_label: Seq<u8>, tl: Seq<LineView>, ctx: nat) -> Seq<u8> {
    let ws = windows(tl, ctx);
    if ws.len() == 0 {
        seq![]
    } else {
        seq![45u8, 45, 45, 32] + a_label + seq![10u8, 43, 43, 43, 32] + b_label + seq![10u8] + hunks_out(tl, ws)
    }
}

/// What `String::from_utf8_lossy` makes of some bytes: a function of the
/// bytes alone.
pub uninterp spec fn lossy_text(b: Seq<u8>) -> Seq<char>;

/// Wraps `String::from_utf8_lossy`: its result is `lossy_text` of the
/// bytes, and for valid UTF-8 the characters those bytes encode. The bytes
/// are converted from the front, valid sequences as the characters they
/// encode, so a valid front part comes out as its characters, followed by
/// what the rest alone gives. What invalid sequences become (replacement
/// characters) is named, not spelled out.
#[verifier::external_body]
pub(crate) fn utf8_lossy(v: &[u8]) -> (r: String)
    ensures
        r@ == lossy_text(v@),
        valid_utf8(v@) ==> r@ == decode_utf8(v@),
        forall|k: int| 0 <= k <= v@.len() && valid_utf8(#[trigger] v@.take(k)) ==> r@ == decode_utf8(v@.take(k)) + lossy_text(v@.skip(k)),
{
    String::from_utf8_lossy(v).into_owned()
}

/// The header of a unified diff: `--- a_label`, then `+++ b_label`.
pub open spec fn unified_header(a_label: Seq<char>, b_label: Seq<char>) -> Seq<char> {
    seq!['-', '-', '-', ' '] + a_label + seq!['\n', '+', '+', '+', ' '] + b_label + seq!['\n']
}

/// The header's bytes are its UTF-8 encoding.
proof fn lemma_header_bytes(a_label: Seq<char>, b_label: Seq<char>)
    ensures
        seq![45u8, 45, 45, 32] + encode_utf8(a_label) + seq![10u8, 43, 43, 43, 32] + encode_utf8(b_label) + seq![10u8]
            == encode_utf8(unified_header(a_label, b_label)),
{
    let c1 = seq!['-', '-', '-', ' '];
    let c2 = seq!['\n', '+', '+', '+', ' '];
    let c3 = seq!['\n'];
    crate::bytes::lemma_ascii_utf8(seq![45u8, 45, 45, 32]);
    crate::bytes::lemma_ascii_utf8(seq![10u8, 43, 43, 43, 32]);
    crate::bytes::lemma_ascii_utf8(seq![10u8]);
    assert(crate::bytes::ascii_chars(seq![45u8, 45, 45, 32]) =~= c1);
    assert(crate::bytes::ascii_chars(seq![10u8, 43, 43, 43, 32]) =~= c2);
    assert(crate::bytes::ascii_chars(seq![10u8]) =~= c3);
    crate::bytes::lemma_encode_utf8_concat(c1, a_label);
    crate::bytes::lemma_encode_utf8_concat(c1 + a_label, c2);
    crate::bytes::lemma_encode_utf8_concat(c1 + a_label + c2, b_label);
    crate::bytes::lemma_encode_utf8_concat(c1 + a_label + c2 + b_label, c3);
}

/// There are no windows exactly when no line is changed.
proof fn lemma_windows_empty(tl: Seq<LineView>, ctx: nat, i: int)
    requires
        0 <= i <= tl.len(),
    ensures
        windows_upto(tl, ctx, i).len() == 0 <==> forall|j: int| 0 <= j < i ==> (#[trigger] tl[j]).tag == 32,
    decreases i,
{
    if i > 0 {
        lemma_windows_empty(tl, ctx, i - 1);
    }
}

/// The tagged lines of a script are all unchanged exactly when the script
/// edits nothing.
proof fn lemma_tagged_plain(ops: Seq<OpView<Seq<u8>>>, la: Seq<Seq<u8>>, lb: Seq<Seq<u8>>, ai: int, bi: int)
    ensures
        (forall|j: int| 0 <= j < tagged(ops, la, lb, ai, bi).len() ==> (#[trigger] tagged(ops, la, lb, ai, bi)[j]).tag == 32)
            <==> distance(ops) == 0,
    decreases ops.len(),
{
    if ops.len() > 0 {
        crate::myers::lemma_distance_front(ops);
        let t = tagged(ops, la, lb, ai, bi);
        match ops[0] {
            OpView::Equal(n) => {
                let rest = tagged(ops.drop_first(), la, lb, ai + n, bi + n);
                lemma_tagged_plain(ops.drop_first(), la, lb, ai + n, bi + n);
                if distance(ops) == 0 {
                    assert forall|j: int| 0 <= j < t.len() implies (#[trigger] t[j]).tag == 32 by {
                        if j >= n {
                            assert(t[j] == rest[j - n]);
                        }
                    }
                } else {
                    let k = choose|k: int| 0 <= k < rest.len() && (#[trigger] rest[k]).tag != 32;
                    assert(t[k + n] == rest[k]);
                }
            },
            OpView::Delete(n) => {
                let rest = tagged(ops.drop_first(), la, lb, ai + n, bi);
                lemma_tagged_plain(ops.drop_first(), la, lb, ai + n, bi);
                if n > 0 {
                    assert(t[0].tag == 45);
                } else {
                    assert(t =~= rest);
                }
            },
            OpView::Insert(items) => {
                let rest = tagged(ops.drop_first(), la, lb, ai, bi + items.len());
                lemma_tagged_plain(ops.drop_first(), la, lb, ai, bi + items.len());
                if items.len() > 0 {
                    assert(t[0].tag == 43);
                } else {
                    assert(t =~= rest);
                }
            },
        }
    }
}

/// A script that edits nothing gives back what it is applied to.
proof fn lemma_plain_applies<V>(ops: Seq<OpView<V>>, a: Seq<V>, pos: nat)
    requires
        distance(ops) == 0,
        apply_from(ops, a, pos) is Ok,
    ensures
        apply_from(ops, a, pos)->Ok_0 == a.subrange(pos as int, a.len() as int),
    decreases ops.len(),
{
    if ops.len() == 0 {
        assert(a.subrange(pos as int, a.len() as int) =~= Seq::<V>::empty());
    } else {
        crate::myers::lemma_distance_front(ops);
        match ops[0] {
            OpView::Equal(n) => {
                lemma_plain_applies(ops.drop_first(), a, pos + n);
                assert(a.subrange(pos as int, (pos + n) as int) + a.subrange((pos + n) as int, a.len() as int) =~= a.subrange(
                    pos as int,
                    a.len() as int,
                ));
            },
            OpView::Delete(n) => {
                lemma_plain_applies(ops.drop_first(), a, pos + n);
            },
            OpView::Insert(items) => {
                lemma_plain_applies(ops.drop_first(), a, pos);
                assert(items + apply_from(ops.drop_first(), a, pos)->Ok_0 =~= apply_from(ops.drop_first(), a, pos)->Ok_0);
            },
        }
    }
}

/// Renders a unified diff (`--- / +++ / @@ -a,b +c,d @@`) with `context`
/// unchanged lines around each change. Empty if the inputs are identical.
pub fn unified(a_label: &str, b_label: &str, a: &[u8], b: &[u8], context: usize) -> (r: String)
    requires
        2 * (a.len() + b.len()) + 2 <= isize::MAX,
        a.len() + b.len() + context < usize::MAX,
    ensures
        exists|p: Seq<OpView<Seq<u8>>>| #![trigger apply_spec(p, lines(a@))] {
            &&& apply_spec(p, lines(a@)) == Ok::<Seq<Seq<u8>>, PatchError>(lines(b@))
            &&& distance(p) == lcs_distance(lines(a@), lines(b@))
            &&& coalesced(p)
            &&& deletes_first(p)
            &&& r@ == lossy_text(unified_out(a_label.spec_bytes(), b_label.spec_bytes(), tagged(p, lines(a@), lines(b@), 0, 0), context as nat))
            &&& valid_utf8(unified_out(a_label.spec_bytes(), b_label.spec_bytes(), tagged(p, lines(a@), lines(b@), 0, 0), context as nat))
                ==> r@ == decode_utf8(unified_out(a_label.spec_bytes(), b_label.spec_bytes(), tagged(p, lines(a@), lines(b@), 0, 0), context as nat))
        },
        (r@.len() == 0) <==> (a@ == b@),
        a@ != b@ ==> r@.take(unified_header(a_label@, b_label@).len() as int) == unified_header(a_label@, b_label@),
{
    let la = split_lines(a);
    let lb = split_lines(b);
    proof {
        lemma_lines_len(a@, 0);
        lemma_lines_len(b@, 0);
    }
    let patch = diff(la.as_slice(), lb.as_slice());
    let tagged_lines = tag_lines(&la, &lb, &patch);
    proof {
        let av = vals(la@);
        let bv = vals(lb@);
        assert(bv.subrange(0, bv.len() as int) =~= bv);
        lemma_tagged_len(patch@, av, bv, 0, 0);
        let tl = tagged_lines@.map_values(|l: Line| l@);
        assert forall|q: int| 0 <= q < tagged_lines@.len() implies (#[trigger] tagged_lines@[q]).a_before < usize::MAX
            && tagged_lines@[q].b_before < usize::MAX by {
            assert(tl[q] == tagged_lines@[q]@);
        }
    }
    let out = render_unified(a_label, b_label, &tagged_lines, context);
    let r = utf8_lossy(out.as_slice());
    assert(apply_spec(patch@, lines(a@)) == Ok::<Seq<Seq<u8>>, PatchError>(lines(b@)));
    proof {
        let tl = tagged(patch@, lines(a@), lines(b@), 0, 0);
        assert(vals(la@) == lines(a@) && vals(lb@) == lines(b@));
        lemma_windows_empty(tl, context as nat, tl.len() as int);
        lemma_tagged_plain(patch@, lines(a@), lines(b@), 0, 0);
        law_lines_concatenate_back(a@);
        law_lines_concatenate_back(b@);
        if a@ == b@ {
            crate::merge::lemma_lcs_self(lines(a@));
            assert(windows(tl, context as nat).len() == 0);
            assert(out@.len() == 0);
            assert(out@.take(0) =~= out@);
            assert(out@.skip(0) =~= out@);
            assert(r@ == decode_utf8(out@));
        } else {
            if distance(patch@) == 0 {
                lemma_plain_applies(patch@, lines(a@), 0);
                assert(lines(a@).subrange(0, lines(a@).len() as int) =~= lines(a@));
                assert(false);
            }
            let k = choose|j: int| 0 <= j < tl.len() && (#[trigger] tl[j]).tag != 32;
            assert(windows(tl, context as nat).len() > 0);
            let hb = seq![45u8, 45, 45, 32] + a_label.spec_bytes() + seq![10u8, 43, 43, 43, 32] + b_label.spec_bytes() + seq![10u8];
            let hdr = unified_header(a_label@, b_label@);
            lemma_header_bytes(a_label@, b_label@);
            vstd::utf8::encode_utf8_valid_utf8(hdr);
            vstd::utf8::encode_utf8_decode_utf8(hdr);
            assert(out@.take(hb.len() as int) =~= hb);
            assert(decode_utf8(out@.take(hb.len() as int)) == hdr);
            assert(r@ == hdr + lossy_text(out@.skip(hb.len() as int)));
            assert(r@.take(hdr.len() as int) =~= hdr);
        }
    }
    r
}

/// Appends the lines `s..e`.
#[verifier::loop_isolation(false)]
fn push_lines(out: &mut Vec<u8>, lines: &Vec<Line>, s: usize, e: usize)
    requires
        s <= e <= lines@.len(),
    ensures
        final(out)@ == old(out)@ + lines_out(lines@.map_values(|l: Line| l@).subrange(s as int, e as int)),
{
    let ghost tl = lines@.map_values(|l: Line| l@);
    let mut i: usize = s;
    assert(tl.subrange(s as int, s as int) =~= Seq::<LineView>::empty());
    assert(out@ =~= old(out)@ + lines_out(tl.subrange(s as int, s as int)));
    while i < e
        invariant
            s <= i <= e,
            out@ == old(out)@ + lines_out(tl.subrange(s as int, i as int)),
        decreases e - i,
    {
        let l = &lines[i];
        assert(tl[i as int] == l@);
        let ghost before = out@;
        out.push(l.tag);
        crate::bytes::append_bytes(out, l.text);
        let k = l.text.len();
        if !(k > 0 && l.text[k - 1] == 10) {
            crate::bytes::append_bytes(
                out,
                &[10u8, 92, 32, 78, 111, 32, 110, 101, 119, 108, 105, 110, 101, 32, 97, 116, 32, 101, 110, 100, 32,
                    111, 102, 32, 102, 105, 108, 101, 10],
            );
        }
        proof {
            let sub = tl.subrange(s as int, i + 1);
            assert(sub.drop_last() =~= tl.subrange(s as int, i as int));
            assert(sub.last() == l@);
            assert(out@ =~= before + line_out(l@));
        }
        i = i + 1;
    }
}

/// The lines among `s..e` whose tag is not `skip`.
#[verifier::loop_isolation(false)]
fn count_lines(lines: &Vec<Line>, s: usize, e: usize, skip: u8) -> (r: usize)
    requires
        s <= e <= lines@.len(),
    ensures
        r == count_not(lines@.map_values(|l: Line| l@).subrange(s as int, e as int), skip),
{
    let ghost tl = lines@.map_values(|l: Line| l@);
    let mut c: usize = 0;
    let mut i: usize = s;
    assert(tl.subrange(s as int, s as int) =~= Seq::<LineView>::empty());
    while i < e
        invariant
            s <= i <= e,
            c == count_not(tl.subrange(s as int, i as int), skip),
            c <= i - s,
        decreases e - i,
    {
        proof {
            let sub = tl.subrange(s as int, i + 1);
            assert(sub.drop_last() =~= tl.subrange(s as int, i as int));
            assert(sub.last() == lines@[i as int]@);
        }
        if lines[i].tag != skip {
            c = c + 1;
        }
        i = i + 1;
    }
    c
}

/// Appends the hunk over lines `s..e`.
fn push_hunk(out: &mut Vec<u8>, lines: &Vec<Line>, s: usize, e: usize)
    requires
        s < e <= lines@.len(),
        forall|q: int| 0 <= q < lines@.len() ==> (#[trigger] lines@[q]).a_before < usize::MAX && lines@[q].b_before
            < usize::MAX,
    ensures
        final(out)@ == old(out)@ + hunk_out(lines@.map_values(|l: Line| l@), s as int, e as int),
{
    let ghost tl = lines@.map_values(|l: Line| l@);
    let ac = count_lines(lines, s, e, 43);
    let bc = count_lines(lines, s, e, 45);
    let first = &lines[s];
    assert(tl.subrange(s as int, e as int)[0] == first@);
    assert(first.a_before < usize::MAX && first.b_before < usize::MAX);
    let a_start: usize = if ac == 0 {
        first.a_before
    } else {
        first.a_before + 1
    };
    let b_start: usize = if bc == 0 {
        first.b_before
    } else {
        first.b_before + 1
    };
    crate::bytes::append_bytes(out, &[64u8, 64, 32, 45]);
    push_decimal(out, a_start);
    out.push(44);
    push_decimal(out, ac);
    crate::bytes::append_bytes(out, &[32u8, 43]);
    push_decimal(out, b_start);
    out.push(44);
    push_decimal(out, bc);
    crate::bytes::append_bytes(out, &[32u8, 64, 64, 10]);
    push_lines(out, lines, s, e);
    assert(out@ =~= old(out)@ + hunk_out(tl, s as int, e as int));
}

/// Renders the hunks of a unified diff over tagged lines.
#[verifier::loop_isolation(false)]
pub fn render_unified(a_label: &str, b_label: &str, lines: &Vec<Line>, context: usize) -> (r: Vec<u8>)
    requires
        lines@.len() + context < usize::MAX,
        forall|q: int| 0 <= q < lines@.len() ==> (#[trigger] lines@[q]).a_before < usize::MAX && lines@[q].b_before
            < usize::MAX,
    ensures
        r@ == unified_out(
            a_label.spec_bytes(),
            b_label.spec_bytes(),
            lines@.map_values(|l: Line| l@),
            context as nat,
        ),
{
    let ghost tl = lines@.map_values(|l: Line| l@);
    let ws = windows_of(lines, context);
    let ghost wv = windows(tl, context as nat);
    let mut out: Vec<u8> = Vec::new();
    if ws.len() == 0 {
        assert(wv.len() == 0);
        return out;
    }
    crate::bytes::append_bytes(&mut out, &[45u8, 45, 45, 32]);
    crate::bytes::append_bytes(&mut out, a_label.as_bytes());
    crate::bytes::append_bytes(&mut out, &[10u8, 43, 43, 43, 32]);
    crate::bytes::append_bytes(&mut out, b_label.as_bytes());
    out.push(10);
    let ghost header = out@;
    let mut k: usize = 0;
    assert(wv.subrange(0, 0) =~= Seq::<(int, int)>::empty());
    assert(out@ =~= header + hunks_out(tl, wv.subrange(0, 0)));
    while k < ws.len()
        invariant
            k <= ws@.len(),
            ws@.len() == wv.len(),
            out@ == header + hunks_out(tl, wv.subrange(0, k as int)),
        decreases ws@.len() - k,
    {
        let (s, e) = ws[k];
        proof {
            assert(wv[k as int] == (s as int, e as int));
            assert(0 <= wv[k as int].0 < wv[k as int].1 <= lines@.len());
        }
        let ghost before = out@;
        push_hunk(&mut out, lines, s, e);
        proof {
            let sub = wv.subrange(0, k + 1);
            assert(sub.drop_last() =~= wv.subrange(0, k as int));
            assert(sub.last() == (s as int, e as int));
        }
        k = k + 1;
    }
    assert(wv.subrange(0, wv.len() as int) =~= wv);
    out
}

} // verus!

verus! {

/// A line patch from `a` to `b` rebuilds `b` exactly: it consumes the
/// lines of `a` (no more of them than `a` has bytes, so `apply_text` takes
/// it), and applying it to them and joining the lines gives back every byte
/// of `b`, a missing final newline included.
pub proof fn law_text_patch_rebuilds(a: Seq<u8>, b: Seq<u8>, p: Seq<OpView<Seq<u8>>>)
    requires
        apply_spec(p, lines(a)) == Ok::<Seq<Seq<u8>>, PatchError>(lines(b)),
    ensures
        consumed(p) == lines(a).len(),
        consumed(p) <= a.len(),
        flatten(apply_spec(p, lines(a))->Ok_0) == b,
{
    law_lines_concatenate_back(b);
    crate::myers::law_applied_script_consumes_its_source(p, lines(a));
    lemma_lines_len(a, 0);
}

} // verus!
