//! The working directory as a snapshot: which paths are safe to write, and
//! what moving a directory from one snapshot to another has to do.
//!
//! Paths coming out of a repository are untrusted: a component that is
//! empty, `.`, `..`, or contains a path separator, a drive colon or a NUL is
//! rejected before anything touches the disk, so a crafted tree cannot write
//! outside the working directory; the repository's own metadata directory
//! (`.ghola`) is never written to. Moving from one snapshot to another only
//! touches paths that differ between them, so untracked files are left
//! alone.

use std::path::{Path, PathBuf};

use vstd::prelude::*;
use vstd::utf8::{decode_utf8, valid_utf8};

use crate::bytes::{bytes_eq, copy_range, string_from_utf8};
use crate::snapshot::{entry_views, has_path, lemma_lookup_at, lookup, sorted_paths, Files, Listing};
use crate::text::{lossy_text, utf8_lossy};

verus! {

#[verifier::external_type_specification]
#[verifier::external_body]
pub struct ExPathBuf(PathBuf);

#[verifier::external_type_specification]
#[verifier::external_body]
pub struct ExPath(Path);

/// What `Path::to_path_buf` gives for `p`: its owned copy.
pub uninterp spec fn path_copy(p: &Path) -> PathBuf;

/// What `PathBuf::push` makes of `p` when it appends the component `c`.
pub uninterp spec fn pushed(p: PathBuf, c: Seq<char>) -> PathBuf;

/// Wraps `Path::to_path_buf`: the owned copy of `p`, named `path_copy`
/// (a function of `p` alone); what that path is, is not spelled out.
#[verifier::external_body]
fn owned_path(p: &Path) -> (r: PathBuf)
    ensures
        r == path_copy(p),
{
    p.to_path_buf()
}

/// Wraps `PathBuf::push`: `p` with the component `comp` appended, named
/// `pushed` (a function of the old path and the component alone); how the
/// path is spelled after it, is not spelled out.
#[verifier::external_body]
fn push_component(p: &mut PathBuf, comp: &str)
    ensures
        *final(p) == pushed(*old(p), comp@),
{
    p.push(comp)
}

/// `base` with the components `cs` pushed onto it, in order.
pub open spec fn joined(base: PathBuf, cs: Seq<Seq<char>>) -> PathBuf
    decreases cs.len(),
{
    if cs.len() == 0 {
        base
    } else {
        pushed(joined(base, cs.drop_last()), cs.last())
    }
}

/// The components of a path, as text.
pub open spec fn component_texts(p: Seq<u8>) -> Seq<Seq<char>> {
    components(p).map_values(|c: Seq<u8>| decode_utf8(c))
}

/// Why a snapshot cannot be placed in a directory.
#[derive(Debug, Clone, PartialEq, Eq)]
pub enum WorktreeError {
    UnsafePath(String),
}

/// The metadata directory inside a working directory.
pub open spec fn meta_dir() -> Seq<u8> {
    seq![46u8, 103, 104, 111, 108, 97]
}

/// The index of the first `/` at or after `i`, or the length if none.
pub open spec fn first_slash(p: Seq<u8>, i: int) -> int
    decreases p.len() - i,
{
    if i >= p.len() {
        p.len() as int
    } else if p[i] == 47 {
        i
    } else {
        first_slash(p, i + 1)
    }
}

/// The `/`-separated components of `p` from `i` on.
pub open spec fn components_from(p: Seq<u8>, i: int) -> Seq<Seq<u8>>
    decreases p.len() - i + 1,
{
    if i < 0 || i > p.len() {
        seq![]
    } else {
        let e = first_slash(p, i);
        if e < i || e > p.len() {
            seq![]
        } else if e < p.len() {
            seq![p.subrange(i, e)] + components_from(p, e + 1)
        } else {
            seq![p.subrange(i, e)]
        }
    }
}

/// The `/`-separated components of `p` (an empty path has one, empty).
pub open spec fn components(p: Seq<u8>) -> Seq<Seq<u8>> {
    components_from(p, 0)
}

/// A component that names something inside its directory.
pub open spec fn component_ok(c: Seq<u8>) -> bool {
    &&& c.len() > 0
    &&& c != seq![46u8]
    &&& c != seq![46u8, 46]
    &&& forall|i: int| 0 <= i < c.len() ==> c[i] != 92 && c[i] != 58 && c[i] != 0
}

/// A repository path that is safe to place under a working directory.
pub open spec fn path_ok(p: Seq<u8>) -> bool {
    &&& valid_utf8(p)
    &&& forall|i: int| 0 <= i < components(p).len() ==> component_ok(#[trigger] components(p)[i])
    &&& components(p)[0] != meta_dir()
}

proof fn lemma_first_slash(p: Seq<u8>, i: int)
    requires
        0 <= i <= p.len(),
    ensures
        i <= first_slash(p, i) <= p.len(),
        first_slash(p, i) < p.len() ==> p[first_slash(p, i)] == 47,
        forall|j: int| i <= j < first_slash(p, i) ==> p[j] != 47,
    decreases p.len() - i,
{
    if i < p.len() && p[i] != 47 {
        lemma_first_slash(p, i + 1);
    }
}

/// After a `/` of valid UTF-8, the rest is valid UTF-8.
proof fn lemma_valid_after_slash(p: Seq<u8>, i: int)
    requires
        valid_utf8(p),
        0 <= i < p.len(),
        p[i] == 47,
    ensures
        valid_utf8(p.subrange(i + 1, p.len() as int)),
{
    vstd::utf8::is_char_boundary_iff_not_is_continuation_byte(p, i);
    vstd::utf8::valid_utf8_split(p, i);
    let q = p.subrange(i, p.len() as int);
    assert(q[0] == 47);
    assert(vstd::utf8::pop_first_scalar(q) =~= p.subrange(i + 1, p.len() as int));
}

/// Valid UTF-8 up to a `/` (or to its end) is valid UTF-8.
proof fn lemma_valid_before_slash(q: Seq<u8>, e: int)
    requires
        valid_utf8(q),
        0 <= e <= q.len(),
        e < q.len() ==> q[e] == 47,
    ensures
        valid_utf8(q.subrange(0, e)),
{
    if e == q.len() {
        assert(q.subrange(0, e) =~= q);
    } else {
        vstd::utf8::is_char_boundary_iff_not_is_continuation_byte(q, e);
        vstd::utf8::valid_utf8_split(q, e);
    }
}

/// The components of valid UTF-8 are valid UTF-8.
proof fn lemma_components_valid(p: Seq<u8>, i: int)
    requires
        0 <= i <= p.len(),
        valid_utf8(p.subrange(i, p.len() as int)),
    ensures
        forall|k: int| 0 <= k < components_from(p, i).len() ==> valid_utf8(#[trigger] components_from(p, i)[k]),
    decreases p.len() - i,
{
    lemma_first_slash(p, i);
    let e = first_slash(p, i);
    let q = p.subrange(i, p.len() as int);
    lemma_valid_before_slash(q, e - i);
    assert(q.subrange(0, e - i) =~= p.subrange(i, e));
    if e < p.len() {
        lemma_valid_after_slash(q, e - i);
        assert(q.subrange(e - i + 1, q.len() as int) =~= p.subrange(e + 1, p.len() as int));
        lemma_components_valid(p, e + 1);
        let cs = components_from(p, i);
        assert forall|k: int| 0 <= k < cs.len() implies valid_utf8(#[trigger] cs[k]) by {
            if k > 0 {
                assert(cs[k] == components_from(p, e + 1)[k - 1]);
            }
        }
    }
}

proof fn lemma_components_nonempty(p: Seq<u8>, i: int)
    requires
        0 <= i <= p.len(),
    ensures
        components_from(p, i).len() > 0,
        components_from(p, i)[0] == p.subrange(i, first_slash(p, i)),
{
    lemma_first_slash(p, i);
}

/// Checks one component.
fn check_component(p: &[u8], from: usize, to: usize) -> (r: bool)
    requires
        from <= to <= p.len(),
    ensures
        r == component_ok(p@.subrange(from as int, to as int)),
{
    let ghost c = p@.subrange(from as int, to as int);
    if from == to {
        return false;
    }
    if to - from == 1 && p[from] == 46 {
        assert(c =~= seq![46u8]);
        return false;
    }
    if to - from == 2 && p[from] == 46 && p[from + 1] == 46 {
        assert(c =~= seq![46u8, 46]);
        return false;
    }
    proof {
        if c.len() == 1 {
            assert(c[0] != 46 ==> c != seq![46u8]);
        }
        if c.len() == 2 {
            assert(!(c[0] == 46 && c[1] == 46) ==> c != seq![46u8, 46]);
        }
    }
    let mut i = from;
    while i < to
        invariant
            from <= i <= to <= p.len(),
            c == p@.subrange(from as int, to as int),
            forall|j: int| 0 <= j < i - from ==> c[j] != 92 && c[j] != 58 && c[j] != 0,
        decreases to - i,
    {
        let b = p[i];
        if b == 92 || b == 58 || b == 0 {
            assert(c[i - from] == b);
            return false;
        }
        i = i + 1;
    }
    true
}

/// The path is safe to place under a working directory.
pub fn is_safe_path(p: &[u8]) -> (r: bool)
    ensures
        r == path_ok(p@),
{
    let v = copy_range(p, 0, p.len());
    assert(p@.subrange(0, p@.len() as int) =~= p@);
    if string_from_utf8(v).is_none() {
        return false;
    }
    let ghost cs = components(p@);
    let mut start: usize = 0;
    let mut k: usize = 0;
    let ghost mut ck: int = 0;
    proof {
        lemma_components_nonempty(p@, 0);
    }
    loop
        invariant
            cs == components(p@),
            start <= p.len(),
            0 <= ck < cs.len(),
            components_from(p@, start as int) == cs.subrange(ck, cs.len() as int),
            forall|i: int| 0 <= i < ck ==> component_ok(#[trigger] cs[i]),
            valid_utf8(p@),
        ensures
            forall|i: int| 0 <= i < cs.len() ==> component_ok(#[trigger] cs[i]),
        decreases p.len() - start,
    {
        let mut e = start;
        while e < p.len() && p[e] != 47
            invariant
                start <= e <= p.len(),
                first_slash(p@, start as int) == first_slash(p@, e as int),
            decreases p.len() - e,
        {
            e = e + 1;
        }
        proof {
            lemma_first_slash(p@, start as int);
            lemma_components_nonempty(p@, start as int);
            assert(cs[ck] == components_from(p@, start as int)[0]);
        }
        if !check_component(p, start, e) {
            assert(!component_ok(cs[ck]));
            return false;
        }
        if e == p.len() {
            proof {
                assert(components_from(p@, start as int).len() == 1);
                assert(ck == cs.len() - 1);
            }
            break;
        }
        proof {
            let rest = components_from(p@, start as int);
            assert(rest.drop_first() =~= components_from(p@, e + 1));
            assert(cs.subrange(ck + 1, cs.len() as int) =~= rest.drop_first());
            lemma_components_nonempty(p@, e + 1);
            ck = ck + 1;
        }
        start = e + 1;
    }
    proof {
        lemma_components_nonempty(p@, 0);
    }
    let mut e0: usize = 0;
    while e0 < p.len() && p[e0] != 47
        invariant
            e0 <= p.len(),
            first_slash(p@, 0) == first_slash(p@, e0 as int),
        decreases p.len() - e0,
    {
        e0 = e0 + 1;
    }
    proof {
        lemma_first_slash(p@, 0);
    }
    if e0 == 6 && p[0] == 46 && p[1] == 103 && p[2] == 104 && p[3] == 111 && p[4] == 108 && p[5] == 97 {
        assert(p@.subrange(0, 6) =~= meta_dir());
        return false;
    }
    proof {
        let c0 = p@.subrange(0, e0 as int);
        if c0 == meta_dir() {
            assert(c0.len() == 6);
            assert(c0[0] == p@[0] && c0[1] == p@[1] && c0[2] == p@[2] && c0[3] == p@[3] && c0[4] == p@[4] && c0[5] == p@[5]);
        }
    }
    true
}

/// The text of a path, for an error message.
fn path_text(path: &[u8]) -> (r: String)
    ensures
        r@ == lossy_text(path@),
        valid_utf8(path@) ==> r@ == decode_utf8(path@),
{
    utf8_lossy(path)
}

/// The `/`-separated components of a repository path that is safe to place
/// under a working directory; the path itself (as text) if it is not.
pub fn path_components(path: &[u8]) -> (r: Result<Vec<Vec<u8>>, WorktreeError>)
    ensures
        r is Ok <==> path_ok(path@),
        r matches Ok(v) ==> v@.map_values(|c: Vec<u8>| c@) == components(path@),
        r matches Err(WorktreeError::UnsafePath(s)) ==> s@ == lossy_text(path@) && (valid_utf8(path@) ==> s@ == decode_utf8(path@)),
{
    if !is_safe_path(path) {
        return Err(WorktreeError::UnsafePath(path_text(path)));
    }
    let ghost cs = components(path@);
    let mut out: Vec<Vec<u8>> = Vec::new();
    let mut start: usize = 0;
    proof {
        lemma_components_nonempty(path@, 0);
        assert(cs.subrange(0, cs.len() as int) =~= cs);
    }
    loop
        invariant_except_break
            out@.len() < cs.len(),
            components_from(path@, start as int) == cs.subrange(out@.len() as int, cs.len() as int),
            out@.map_values(|c: Vec<u8>| c@) == cs.subrange(0, out@.len() as int),
        invariant
            cs == components(path@),
            start <= path.len(),
        ensures
            out@.map_values(|c: Vec<u8>| c@) == cs,
        decreases path.len() - start,
    {
        let mut e = start;
        while e < path.len() && path[e] != 47
            invariant
                start <= e <= path.len(),
                first_slash(path@, start as int) == first_slash(path@, e as int),
            decreases path.len() - e,
        {
            e = e + 1;
        }
        proof {
            lemma_first_slash(path@, start as int);
            lemma_components_nonempty(path@, start as int);
        }
        let ghost ob = out@;
        let comp = copy_range(path, start, e);
        out.push(comp);
        proof {
            let k = ob.len() as int;
            assert(cs[k] == components_from(path@, start as int)[0]);
            assert(out@.map_values(|c: Vec<u8>| c@) =~= ob.map_values(|c: Vec<u8>| c@).push(cs[k]));
            assert(cs.subrange(0, k + 1) =~= cs.subrange(0, k).push(cs[k]));
        }
        if e == path.len() {
            proof {
                assert(components_from(path@, start as int).len() == 1);
                assert(out@.len() == cs.len());
                assert(cs.subrange(0, cs.len() as int) =~= cs);
            }
            break;
        }
        proof {
            let rest = components_from(path@, start as int);
            assert(rest.drop_first() =~= components_from(path@, e + 1));
            assert(cs.subrange(out@.len() as int, cs.len() as int) =~= rest.drop_first());
            lemma_components_nonempty(path@, e + 1);
        }
        start = e + 1;
    }
    Ok(out)
}

/// Turns a repository path into a location under `root`, rejecting anything
/// that could escape it.
pub fn safe_join(root: &Path, path: &[u8]) -> (r: Result<PathBuf, WorktreeError>)
    ensures
        r is Ok <==> path_ok(path@),
        r matches Ok(pb) ==> pb == joined(path_copy(root), component_texts(path@)),
        r matches Err(WorktreeError::UnsafePath(s)) ==> s@ == lossy_text(path@) && (valid_utf8(path@) ==> s@ == decode_utf8(path@)),
{
    let comps = match path_components(path) {
        Ok(c) => c,
        Err(e) => return Err(e),
    };
    let ghost texts = component_texts(path@);
    proof {
        assert(path@.subrange(0, path@.len() as int) =~= path@);
        lemma_components_valid(path@, 0);
    }
    let mut out = owned_path(root);
    let mut i: usize = 0;
    assert(texts.take(0) =~= Seq::<Seq<char>>::empty());
    while i < comps.len()
        invariant
            i <= comps@.len(),
            comps@.map_values(|c: Vec<u8>| c@) == components(path@),
            texts == component_texts(path@),
            forall|k: int| 0 <= k < components(path@).len() ==> valid_utf8(#[trigger] components(path@)[k]),
            out == joined(path_copy(root), texts.take(i as int)),
        decreases comps.len() - i,
    {
        proof {
            assert(comps@.map_values(|c: Vec<u8>| c@)[i as int] == comps@[i as int]@);
            assert(valid_utf8(components(path@)[i as int]));
        }
        match string_from_utf8(copy_range(comps[i].as_slice(), 0, comps[i].len())) {
            Some(s) => {
                assert(comps@[i as int]@.subrange(0, comps@[i as int]@.len() as int) =~= comps@[i as int]@);
                push_component(&mut out, s.as_str());
                proof {
                    assert(texts[i as int] == decode_utf8(components(path@)[i as int]));
                    assert(texts.take(i + 1).drop_last() =~= texts.take(i as int));
                }
            },
            None => {
                assert(comps@[i as int]@.subrange(0, comps@[i as int]@.len() as int) =~= comps@[i as int]@);
            },
        }
        i = i + 1;
    }
    assert(texts.take(i as int) =~= texts);
    Ok(out)
}

/// What moving a directory from one snapshot to another has to do: delete
/// these paths, then write these files.
#[derive(Debug, Clone, PartialEq, Eq)]
pub struct Plan {
    pub remove: Vec<Vec<u8>>,
    pub write: Vec<(Vec<u8>, Vec<u8>)>,
}

/// Removals: the paths of `from` that `to` lacks, in order.
pub open spec fn removals(from: Listing, to: Listing) -> Seq<Seq<u8>>
    decreases from.len(),
{
    if from.len() == 0 {
        seq![]
    } else {
        removals(from.drop_last(), to) + if has_path(to, from.last().0) {
            Seq::<Seq<u8>>::empty()
        } else {
            seq![from.last().0]
        }
    }
}

/// Writes: the entries of `to` that `from` lacks or holds differently, in
/// order.
pub open spec fn writes(from: Listing, to: Listing) -> Listing
    decreases to.len(),
{
    if to.len() == 0 {
        seq![]
    } else {
        writes(from, to.drop_last()) + if lookup(from, to.last().0) == Some(to.last().1) {
            Seq::<(Seq<u8>, Seq<u8>)>::empty()
        } else {
            seq![to.last()]
        }
    }
}

/// The paths of a listing.
pub open spec fn paths_of(l: Listing) -> Seq<Seq<u8>> {
    l.map_values(|e: (Seq<u8>, Seq<u8>)| e.0)
}

/// `s` is the text reported for the unsafe path `p`.
pub open spec fn reports(s: String, p: Seq<u8>) -> bool {
    valid_utf8(p) ==> s@ == decode_utf8(p)
}

/// Checks every path, `from`'s and then `to`'s, stopping at the first
/// unsafe one.
fn check_paths(es: &[(Vec<u8>, Vec<u8>)]) -> (r: Result<(), WorktreeError>)
    ensures
        r is Ok <==> forall|i: int| 0 <= i < es@.len() ==> path_ok(#[trigger] es@[i].0@),
        r matches Err(WorktreeError::UnsafePath(s)) ==> exists|i: int|
            0 <= i < es@.len() && !path_ok(#[trigger] es@[i].0@) && reports(s, es@[i].0@) && forall|j: int|
                0 <= j < i ==> path_ok(#[trigger] es@[j].0@),
{
    let mut i: usize = 0;
    while i < es.len()
        invariant
            i <= es@.len(),
            forall|j: int| 0 <= j < i ==> path_ok(#[trigger] es@[j].0@),
        decreases es@.len() - i,
    {
        if !is_safe_path(es[i].0.as_slice()) {
            return Err(WorktreeError::UnsafePath(path_text(es[i].0.as_slice())));
        }
        i = i + 1;
    }
    Ok(())
}

/// Moves the directory from snapshot `from` to snapshot `to`: the paths to
/// delete (those `to` lacks) and the files to write (those new or
/// changed). Files in neither snapshot (untracked) are not touched. Every
/// path is checked first, so a bad path means nothing is done.
pub fn apply(from: &Files, to: &Files) -> (r: Result<Plan, WorktreeError>)
    requires
        from.wf(),
        to.wf(),
    ensures
        r is Ok <==> (forall|i: int| 0 <= i < from@.len() ==> path_ok(#[trigger] from@[i].0)) && (forall|i: int|
            0 <= i < to@.len() ==> path_ok(#[trigger] to@[i].0)),
        r matches Err(WorktreeError::UnsafePath(s)) ==> exists|i: int|
            0 <= i < paths_of(from@).len() + paths_of(to@).len() && !path_ok(
                #[trigger] (paths_of(from@) + paths_of(to@))[i],
            ) && reports(s, (paths_of(from@) + paths_of(to@))[i]) && forall|j: int|
                0 <= j < i ==> path_ok(#[trigger] (paths_of(from@) + paths_of(to@))[j]),
        r matches Ok(plan) ==> plan.remove@.map_values(|v: Vec<u8>| v@) == removals(from@, to@)
            && entry_views(plan.write@) == writes(from@, to@),
{
    let fe = from.entries();
    let te = to.entries();
    let ghost all = paths_of(from@) + paths_of(to@);
    match check_paths(fe) {
        Ok(()) => {},
        Err(e) => {
            proof {
                let WorktreeError::UnsafePath(s) = e;
                let i = choose|i: int|
                    0 <= i < fe@.len() && !path_ok(#[trigger] fe@[i].0@) && reports(s, fe@[i].0@) && forall|j: int|
                        0 <= j < i ==> path_ok(#[trigger] fe@[j].0@);
                assert(all[i] == fe@[i].0@);
                assert forall|j: int| 0 <= j < i implies path_ok(#[trigger] all[j]) by {
                    assert(all[j] == fe@[j].0@);
                }
                assert(!path_ok(from@[i].0));
            }
            return Err(e);
        },
    }
    match check_paths(te) {
        Ok(()) => {},
        Err(e) => {
            proof {
                let WorktreeError::UnsafePath(s) = e;
                let i = choose|i: int|
                    0 <= i < te@.len() && !path_ok(#[trigger] te@[i].0@) && reports(s, te@[i].0@) && forall|j: int|
                        0 <= j < i ==> path_ok(#[trigger] te@[j].0@);
                let k = fe@.len() + i;
                assert(all[k] == te@[i].0@);
                assert forall|j: int| 0 <= j < k implies path_ok(#[trigger] all[j]) by {
                    if j < fe@.len() {
                        assert(all[j] == fe@[j].0@);
                        assert(path_ok(fe@[j].0@));
                    } else {
                        assert(all[j] == te@[j - fe@.len()].0@);
                    }
                }
                assert(!path_ok(to@[i].0));
            }
            return Err(e);
        },
    }
    let mut remove: Vec<Vec<u8>> = Vec::new();
    let mut i: usize = 0;
    assert(from@.subrange(0, 0) =~= Seq::<(Seq<u8>, Seq<u8>)>::empty());
    while i < fe.len()
        invariant
            entry_views(fe@) == from@,
            to.wf(),
            i <= fe@.len(),
            remove@.map_values(|v: Vec<u8>| v@) == removals(from@.subrange(0, i as int), to@),
        decreases fe@.len() - i,
    {
        let p = fe[i].0.as_slice();
        let ghost before = remove@.map_values(|v: Vec<u8>| v@);
        proof {
            let sub = from@.subrange(0, i + 1);
            assert(sub.drop_last() =~= from@.subrange(0, i as int));
            assert(sub.last() == from@[i as int]);
            assert(from@[i as int].0 == p@);
        }
        if to.get(p).is_none() {
            remove.push(copy_range(p, 0, p.len()));
            assert(p@.subrange(0, p@.len() as int) =~= p@);
            assert(remove@.map_values(|v: Vec<u8>| v@) =~= before.push(p@));
        } else {
            assert(remove@.map_values(|v: Vec<u8>| v@) =~= before + Seq::<Seq<u8>>::empty());
        }
        i = i + 1;
    }
    assert(from@.subrange(0, from@.len() as int) =~= from@);
    let mut write: Vec<(Vec<u8>, Vec<u8>)> = Vec::new();
    let mut k: usize = 0;
    assert(to@.subrange(0, 0) =~= Seq::<(Seq<u8>, Seq<u8>)>::empty());
    while k < te.len()
        invariant
            entry_views(te@) == to@,
            from.wf(),
            k <= te@.len(),
            entry_views(write@) == writes(from@, to@.subrange(0, k as int)),
        decreases te@.len() - k,
    {
        let p = te[k].0.as_slice();
        let c = te[k].1.as_slice();
        let ghost before = entry_views(write@);
        proof {
            let sub = to@.subrange(0, k + 1);
            assert(sub.drop_last() =~= to@.subrange(0, k as int));
            assert(sub.last() == to@[k as int]);
            assert(to@[k as int] == (p@, c@));
        }
        let same = match from.get(p) {
            Some(old) => bytes_eq(old.as_slice(), c),
            None => false,
        };
        if !same {
            let pv = copy_range(p, 0, p.len());
            let cv = copy_range(c, 0, c.len());
            assert(p@.subrange(0, p@.len() as int) =~= p@);
            assert(c@.subrange(0, c@.len() as int) =~= c@);
            write.push((pv, cv));
            assert(entry_views(write@) =~= before.push((p@, c@)));
        } else {
            assert(entry_views(write@) =~= before + Seq::<(Seq<u8>, Seq<u8>)>::empty());
        }
        k = k + 1;
    }
    assert(to@.subrange(0, to@.len() as int) =~= to@);
    Ok(Plan { remove, write })
}

proof fn lemma_removals(from: Listing, to: Listing)
    ensures
        forall|i: int| 0 <= i < removals(from, to).len() ==> has_path(from, #[trigger] removals(from, to)[i])
            && !has_path(to, removals(from, to)[i]),
        forall|p: Seq<u8>| has_path(from, p) && !has_path(to, p) ==> exists|i: int|
            0 <= i < removals(from, to).len() && #[trigger] removals(from, to)[i] == p,
    decreases from.len(),
{
    if from.len() > 0 {
        let d = from.drop_last();
        lemma_removals(d, to);
        let r = removals(from, to);
        let rd = removals(d, to);
        assert forall|i: int| 0 <= i < r.len() implies has_path(from, #[trigger] r[i]) && !has_path(to, r[i]) by {
            if i < rd.len() {
                assert(r[i] == rd[i]);
                let j = choose|j: int| 0 <= j < d.len() && (#[trigger] d[j]).0 == rd[i];
                assert(from[j] == d[j]);
            } else {
                assert(r[i] == from.last().0);
                assert(from[from.len() - 1] == from.last());
            }
        }
        assert forall|p: Seq<u8>| has_path(from, p) && !has_path(to, p) implies exists|i: int|
            0 <= i < r.len() && #[trigger] r[i] == p by {
            let j = choose|j: int| 0 <= j < from.len() && (#[trigger] from[j]).0 == p;
            if j < from.len() - 1 {
                assert(d[j] == from[j]);
                assert(has_path(d, p));
                let i = choose|i: int| 0 <= i < rd.len() && #[trigger] rd[i] == p;
                assert(r[i] == rd[i]);
            } else {
                assert(r[rd.len() as int] == p);
            }
        }
    }
}

proof fn lemma_writes(from: Listing, to: Listing)
    requires
        sorted_paths(to),
    ensures
        forall|i: int| 0 <= i < writes(from, to).len() ==> lookup(to, (#[trigger] writes(from, to)[i]).0) == Some(
            writes(from, to)[i].1,
        ) && lookup(from, writes(from, to)[i].0) != Some(writes(from, to)[i].1),
        forall|p: Seq<u8>| has_path(to, p) && lookup(from, p) != lookup(to, p) ==> exists|i: int|
            0 <= i < writes(from, to).len() && (#[trigger] writes(from, to)[i]).0 == p,
    decreases to.len(),
{
    if to.len() > 0 {
        let d = to.drop_last();
        assert forall|i: int, j: int| 0 <= i < j < d.len() implies crate::bytes::lex_lt(#[trigger] d[i].0, #[trigger] d[j].0) by {
            assert(d[i] == to[i] && d[j] == to[j]);
        }
        lemma_writes(from, d);
        let w = writes(from, to);
        let wd = writes(from, d);
        let n = to.len() - 1;
        assert(to[n] == to.last());
        lemma_lookup_at(to, n);
        assert forall|i: int| 0 <= i < w.len() implies lookup(to, (#[trigger] w[i]).0) == Some(w[i].1) && lookup(
            from,
            w[i].0,
        ) != Some(w[i].1) by {
            if i < wd.len() {
                assert(w[i] == wd[i]);
                let x = wd[i].0;
                assert(has_path(d, x));
                let j = crate::snapshot::path_index(d, x);
                lemma_lookup_at(d, j);
                assert(d[j] == to[j]);
                lemma_lookup_at(to, j);
            } else {
                assert(w[i] == to.last());
            }
        }
        assert forall|p: Seq<u8>| has_path(to, p) && lookup(from, p) != lookup(to, p) implies exists|i: int|
            0 <= i < w.len() && (#[trigger] w[i]).0 == p by {
            let j = crate::snapshot::path_index(to, p);
            lemma_lookup_at(to, j);
            if j < n {
                assert(d[j] == to[j]);
                lemma_lookup_at(d, j);
                assert(has_path(d, p));
                let i = choose|i: int| 0 <= i < wd.len() && (#[trigger] wd[i]).0 == p;
                assert(w[i] == wd[i]);
            } else {
                assert(w[wd.len() as int] == to.last());
            }
        }
    }
}

/// Carrying out a plan lands exactly on the target and touches nothing
/// else: it removes exactly the paths `from` has and `to` lacks, and
/// writes exactly the paths whose contents differ, each with its contents
/// in `to`. A path in neither snapshot is in neither list.
pub proof fn law_plan_lands_on_target(from: Listing, to: Listing)
    requires
        sorted_paths(to),
    ensures
        forall|p: Seq<u8>| #[trigger] removals(from, to).contains(p) <==> has_path(from, p) && !has_path(to, p),
        forall|i: int| 0 <= i < writes(from, to).len() ==> lookup(to, (#[trigger] writes(from, to)[i]).0) == Some(
            writes(from, to)[i].1,
        ),
        forall|p: Seq<u8>| #[trigger] has_path(writes(from, to), p) <==> has_path(to, p) && lookup(from, p)
            != lookup(to, p),
{
    lemma_removals(from, to);
    lemma_writes(from, to);
    let w = writes(from, to);
    assert forall|p: Seq<u8>| #[trigger] removals(from, to).contains(p) <==> has_path(from, p) && !has_path(to, p) by {
        if has_path(from, p) && !has_path(to, p) {
            let i = choose|i: int| 0 <= i < removals(from, to).len() && #[trigger] removals(from, to)[i] == p;
        }
    }
    assert forall|p: Seq<u8>| #[trigger] has_path(w, p) <==> has_path(to, p) && lookup(from, p) != lookup(to, p) by {
        if has_path(w, p) {
            let i = choose|i: int| 0 <= i < w.len() && (#[trigger] w[i]).0 == p;
            assert(lookup(to, p) == Some(w[i].1));
        }
    }
}

} // verus!
