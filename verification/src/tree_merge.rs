//! Merging snapshots path by path, built on the line-level three-way
//! merge.
//!
//! Per path, with `base`, `ours`, `theirs` each present or absent:
//! - identical on both sides: take it (including both deleting it);
//! - only one side changed it: take that side (including a deletion);
//! - both changed it differently: text is merged line by line (a clean
//!   merge is used, a conflicting one is written out with conflict markers
//!   and reported); binary files, and one side deleting what the other
//!   modified, are reported as conflicts and keep the surviving version.

use vstd::prelude::*;
use vstd::string::StringSliceAdditionalSpecFns;
use vstd::utf8::encode_utf8;

use crate::bytes::{bytes_eq, copy_range, lex_lt};
use crate::merge::{
    aligned, base_col, clean_spec, minimal_hunks, HunkView, merge_text, ours_col, ours_untouched, render_spec, render_with_markers, theirs_col,
    theirs_untouched, ChunkView,
};
use crate::object::ObjectId;
use crate::repo::{Repo, RepoError};
use crate::trees::{writable, file_at, ids_unambiguous, max_depth, only_adds, added_hashed, readable, reads_back, lemma_only_adds_trans};
use crate::graph::{commit_at, histories_complete, merge_base_of, newer, reaches};
use crate::object::{encode_view, CommitView, ObjectView};
use crate::digest::sha256;
use crate::repo::obj_key_spec;
use crate::snapshot::{has_path, lookup, lemma_lookup_at, sorted_paths, Files, Listing};
use crate::text::{concat_lines, flatten, lines};

verus! {

/// Why a path could not be merged cleanly.
#[derive(Debug, Clone, Copy, PartialEq, Eq, Structural)]
pub enum ConflictKind {
    /// Both sides edited the same lines differently.
    Content,
    /// Both sides added the file with different contents.
    BothAdded,
    /// One side deleted the file, the other modified it.
    ModifyDelete { ours_deleted: bool },
    /// A binary file changed differently on both sides.
    Binary,
}

/// A path that could not be merged cleanly, and why.
#[derive(Debug, Clone, PartialEq, Eq)]
pub struct PathConflict {
    pub path: Vec<u8>,
    pub kind: ConflictKind,
}

/// The result of merging three snapshots.
#[derive(Debug, PartialEq, Eq)]
pub struct TreeMerge {
    /// The merged snapshot. Conflicting text files contain markers.
    pub files: Files,
    /// Sorted by path; empty means the merge was clean.
    pub conflicts: Vec<PathConflict>,
}

/// What merging two commits came to.
#[derive(Debug, PartialEq, Eq)]
pub enum MergeOutcome {
    /// `theirs` is already contained in `ours`.
    AlreadyUpToDate,
    /// `ours` is an ancestor of `theirs`: just move to `theirs`.
    FastForward(ObjectId),
    /// A clean merge; the new two-parent commit (parents `[ours, theirs]`).
    Merged(ObjectId),
    Conflicts(TreeMerge),
}

/// The data holds a zero byte.
pub open spec fn binary(d: Seq<u8>) -> bool {
    exists|i: int| 0 <= i < d.len() && d[i] == 0
}

/// `m` is what `merge_text` promises for these three texts.
pub open spec fn text_alignment(b: Seq<u8>, o: Seq<u8>, t: Seq<u8>, m: Seq<ChunkView<Seq<u8>>>) -> bool {
    &&& base_col(m) == lines(b)
    &&& ours_col(m) == lines(o)
    &&& theirs_col(m) == lines(t)
    &&& o == b ==> ours_untouched(m)
    &&& t == b ==> theirs_untouched(m)
    &&& exists|ho: Seq<HunkView<Seq<u8>>>, ht: Seq<HunkView<Seq<u8>>>| #![trigger aligned(lines(b), ho, ht, m)] {
        &&& minimal_hunks(lines(b), lines(o), ho)
        &&& minimal_hunks(lines(b), lines(t), ht)
        &&& (lines(o) == lines(t) ==> ho == ht)
        &&& aligned(lines(b), ho, ht, m)
    }
}

/// The text `content` is the line merge of `b`, `o` and `t`: the clean
/// merge if there is one, else the merge rendered with markers.
pub open spec fn text_merged(
    b: Seq<u8>,
    o: Seq<u8>,
    t: Seq<u8>,
    ours_label: Seq<u8>,
    theirs_label: Seq<u8>,
    content: Seq<u8>,
    clean: bool,
) -> bool {
    exists|m: Seq<ChunkView<Seq<u8>>>| #[trigger] text_alignment(b, o, t, m) && match clean_spec(m) {
        Some(ls) => clean && content == flatten(ls),
        None => !clean && content == render_spec(m, ours_label, theirs_label),
    }
}

/// How one path merges: the contents it ends with (if any) and the
/// conflict reported for it (if any).
pub open spec fn path_outcome(
    b: Option<Seq<u8>>,
    o: Option<Seq<u8>>,
    t: Option<Seq<u8>>,
    ours_label: Seq<u8>,
    theirs_label: Seq<u8>,
    content: Option<Seq<u8>>,
    conflict: Option<ConflictKind>,
) -> bool {
    if o == t || b == t {
        content == o && conflict is None
    } else if b == o {
        content == t && conflict is None
    } else if o is None {
        content == t && conflict == Some(ConflictKind::ModifyDelete { ours_deleted: true })
    } else if t is None {
        content == o && conflict == Some(ConflictKind::ModifyDelete { ours_deleted: false })
    } else if (b matches Some(x) && binary(x)) || binary(o->Some_0) || binary(t->Some_0) {
        content == o && conflict == Some(ConflictKind::Binary)
    } else {
        &&& content is Some
        &&& text_merged(
            match b {
                Some(x) => x,
                None => seq![],
            },
            o->Some_0,
            t->Some_0,
            ours_label,
            theirs_label,
            content->Some_0,
            conflict is None,
        )
        &&& conflict is Some ==> conflict == Some(
            if b is None {
                ConflictKind::BothAdded
            } else {
                ConflictKind::Content
            },
        )
    }
}

/// The conflict listed for `p`, if any.
pub open spec fn conflict_for(cs: Seq<PathConflict>, p: Seq<u8>) -> Option<ConflictKind> {
    if exists|i: int| 0 <= i < cs.len() && (#[trigger] cs[i]).path@ == p {
        Some(cs[choose|i: int| 0 <= i < cs.len() && (#[trigger] cs[i]).path@ == p].kind)
    } else {
        None
    }
}

/// Conflicts listed in strictly ascending path order.
pub open spec fn conflicts_sorted(cs: Seq<PathConflict>) -> bool {
    forall|i: int, j: int| 0 <= i < j < cs.len() ==> lex_lt((#[trigger] cs[i]).path@, (#[trigger] cs[j]).path@)
}

/// Every file's contents are small enough to be merged line by line.
pub open spec fn contents_fit(l: Listing) -> bool {
    forall|i: int| 0 <= i < l.len() ==> 4 * (#[trigger] l[i]).1.len() + 2 <= isize::MAX
}

/// The contents, as a value.
pub open spec fn opt_view(o: Option<&Vec<u8>>) -> Option<Seq<u8>> {
    match o {
        Some(v) => Some(v@),
        None => None,
    }
}

fn opt_same(a: Option<&Vec<u8>>, b: Option<&Vec<u8>>) -> (r: bool)
    ensures
        r == (opt_view(a) == opt_view(b)),
{
    match (a, b) {
        (Some(x), Some(y)) => bytes_eq(x.as_slice(), y.as_slice()),
        (None, None) => true,
        _ => false,
    }
}

/// The data holds a zero byte.
fn is_binary(data: &[u8]) -> (r: bool)
    ensures
        r == binary(data@),
{
    let mut i: usize = 0;
    while i < data.len()
        invariant
            i <= data.len(),
            forall|j: int| 0 <= j < i ==> data@[j] != 0,
        decreases data.len() - i,
    {
        if data[i] == 0 {
            return true;
        }
        i = i + 1;
    }
    false
}

fn copy_vec(v: &Vec<u8>) -> (r: Vec<u8>)
    ensures
        r@ == v@,
{
    let r = copy_range(v.as_slice(), 0, v.len());
    assert(v@.subrange(0, v@.len() as int) =~= v@);
    r
}

/// The contents of a merge result, as a value.
pub open spec fn opt_vec_view(o: Option<Vec<u8>>) -> Option<Seq<u8>> {
    match o {
        Some(v) => Some(v@),
        None => None,
    }
}

/// Every listed contents is small enough to be merged line by line.
pub open spec fn fits(o: Option<Seq<u8>>) -> bool {
    match o {
        Some(v) => 4 * v.len() + 2 <= isize::MAX,
        None => true,
    }
}

/// How one path merges.
fn merge_path(
    b: Option<&Vec<u8>>,
    o: Option<&Vec<u8>>,
    t: Option<&Vec<u8>>,
    ours_label: &str,
    theirs_label: &str,
) -> (r: (Option<Vec<u8>>, Option<ConflictKind>))
    requires
        fits(opt_view(b)),
        fits(opt_view(o)),
        fits(opt_view(t)),
    ensures
        path_outcome(
            opt_view(b),
            opt_view(o),
            opt_view(t),
            ours_label.spec_bytes(),
            theirs_label.spec_bytes(),
            opt_vec_view(r.0),
            r.1,
        ),
{
    if opt_same(o, t) || opt_same(b, t) {
        return match o {
            Some(v) => (Some(copy_vec(v)), None),
            None => (None, None),
        };
    }
    if opt_same(b, o) {
        return match t {
            Some(v) => (Some(copy_vec(v)), None),
            None => (None, None),
        };
    }
    match (o, t) {
        (None, Some(kept)) => (Some(copy_vec(kept)), Some(ConflictKind::ModifyDelete { ours_deleted: true })),
        (Some(kept), None) => (Some(copy_vec(kept)), Some(ConflictKind::ModifyDelete { ours_deleted: false })),
        (Some(ov), Some(tv)) => {
            let bin_b = match b {
                Some(x) => is_binary(x.as_slice()),
                None => false,
            };
            if bin_b || is_binary(ov.as_slice()) || is_binary(tv.as_slice()) {
                (Some(copy_vec(ov)), Some(ConflictKind::Binary))
            } else {
                let empty: Vec<u8> = Vec::new();
                let bs: &[u8] = match b {
                    Some(x) => x.as_slice(),
                    None => empty.as_slice(),
                };
                assert(bs@ == match opt_view(b) {
                    Some(x) => x,
                    None => Seq::<u8>::empty(),
                });
                let m = merge_text(bs, ov.as_slice(), tv.as_slice());
                assert(text_alignment(bs@, ov@, tv@, m@));
                match m.clean() {
                    Some(ls) => {
                        let c = concat_lines(&ls);
                        (Some(c), None)
                    },
                    None => {
                        let c = render_with_markers(&m, ours_label, theirs_label);
                        let kind = if b.is_none() {
                            ConflictKind::BothAdded
                        } else {
                            ConflictKind::Content
                        };
                        (Some(c), Some(kind))
                    },
                }
            }
        },
        (None, None) => (None, None),
    }
}

/// Adds every path of `src` to `dst`, with empty contents.
fn add_paths(dst: &mut Files, src: &Files)
    requires
        old(dst).wf(),
        src.wf(),
    ensures
        final(dst).wf(),
        forall|p: Seq<u8>| #[trigger] has_path(final(dst)@, p) == (has_path(old(dst)@, p) || has_path(src@, p)),
{
    let es = src.entries();
    let mut i: usize = 0;
    while i < es.len()
        invariant
            dst.wf(),
            i <= es@.len(),
            crate::snapshot::entry_views(es@) == src@,
            forall|p: Seq<u8>| #[trigger] has_path(dst@, p) == (has_path(old(dst)@, p) || exists|j: int|
                0 <= j < i && (#[trigger] src@[j]).0 == p),
        decreases es@.len() - i,
    {
        let path = copy_vec(&es[i].0);
        assert(src@[i as int].0 == es@[i as int].0@);
        let ghost before = dst@;
        dst.insert(path, Vec::new());
        proof {
            assert forall|p: Seq<u8>| #[trigger] has_path(dst@, p) == (has_path(old(dst)@, p) || exists|j: int|
                0 <= j < i + 1 && (#[trigger] src@[j]).0 == p) by {
                assert(lookup(dst@, p) is Some == has_path(dst@, p));
                assert(lookup(before, p) is Some == has_path(before, p));
                if p == src@[i as int].0 {
                    assert(exists|j: int| 0 <= j < i + 1 && (#[trigger] src@[j]).0 == p);
                } else {
                    if exists|j: int| 0 <= j < i + 1 && (#[trigger] src@[j]).0 == p {
                        let j = choose|j: int| 0 <= j < i + 1 && (#[trigger] src@[j]).0 == p;
                        assert(j < i);
                    }
                }
            }
        }
        i = i + 1;
    }
    proof {
        assert forall|p: Seq<u8>| #[trigger] has_path(dst@, p) == (has_path(old(dst)@, p) || has_path(src@, p)) by {
            if has_path(src@, p) {
                let j = choose|j: int| 0 <= j < src@.len() && (#[trigger] src@[j]).0 == p;
                assert(exists|k: int| 0 <= k < i && (#[trigger] src@[k]).0 == p);
            }
        }
    }
}

proof fn lemma_conflict_for_push(cs: Seq<PathConflict>, c: PathConflict)
    requires
        conflicts_sorted(cs),
        forall|i: int| 0 <= i < cs.len() ==> lex_lt((#[trigger] cs[i]).path@, c.path@),
    ensures
        conflicts_sorted(cs.push(c)),
        forall|q: Seq<u8>| #[trigger] conflict_for(cs.push(c), q) == if q == c.path@ {
            Some(c.kind)
        } else {
            conflict_for(cs, q)
        },
{
    let n = cs.push(c);
    assert forall|i: int, j: int| 0 <= i < j < n.len() implies lex_lt((#[trigger] n[i]).path@, (#[trigger] n[j]).path@) by {
        assert(n[i] == cs[i]);
        if j < cs.len() {
            assert(n[j] == cs[j]);
        }
    }
    assert forall|q: Seq<u8>| #[trigger] conflict_for(n, q) == if q == c.path@ { Some(c.kind) } else { conflict_for(cs, q) } by {
        crate::bytes::lemma_lex_equal(c.path@, c.path@);
        if exists|i: int| 0 <= i < n.len() && (#[trigger] n[i]).path@ == q {
            let i = choose|i: int| 0 <= i < n.len() && (#[trigger] n[i]).path@ == q;
            if i < cs.len() {
                assert(n[i] == cs[i]);
                assert(q != c.path@);
                assert(exists|k: int| 0 <= k < cs.len() && (#[trigger] cs[k]).path@ == q);
                let k = choose|k: int| 0 <= k < cs.len() && (#[trigger] cs[k]).path@ == q;
                if k != i {
                    crate::bytes::lemma_lex_equal(q, q);
                    if k < i {
                        assert(lex_lt(cs[k].path@, cs[i].path@));
                    } else {
                        assert(lex_lt(cs[i].path@, cs[k].path@));
                    }
                }
            } else {
                assert(n[i] == c);
                assert(q == c.path@);
            }
        } else {
            if q == c.path@ {
                assert(n[cs.len() as int] == c);
            }
            if exists|k: int| 0 <= k < cs.len() && (#[trigger] cs[k]).path@ == q {
                let k = choose|k: int| 0 <= k < cs.len() && (#[trigger] cs[k]).path@ == q;
                assert(n[k] == cs[k]);
            }
        }
    }
}

/// Merges three flat snapshots.
#[verifier::loop_isolation(false)]
#[verifier::rlimit(60)]
pub fn merge_files(
    base: &Files,
    ours: &Files,
    theirs: &Files,
    ours_label: &str,
    theirs_label: &str,
) -> (r: TreeMerge)
    requires
        base.wf(),
        ours.wf(),
        theirs.wf(),
        contents_fit(base@),
        contents_fit(ours@),
        contents_fit(theirs@),
    ensures
        r.files.wf(),
        conflicts_sorted(r.conflicts@),
        forall|p: Seq<u8>| #![trigger lookup(r.files@, p)]
            (has_path(base@, p) || has_path(ours@, p) || has_path(theirs@, p)) ==> path_outcome(
                lookup(base@, p),
                lookup(ours@, p),
                lookup(theirs@, p),
                ours_label.spec_bytes(),
                theirs_label.spec_bytes(),
                lookup(r.files@, p),
                conflict_for(r.conflicts@, p),
            ),
        forall|p: Seq<u8>| #![trigger lookup(r.files@, p)]
            !(has_path(base@, p) || has_path(ours@, p) || has_path(theirs@, p)) ==> lookup(r.files@, p) is None
                && conflict_for(r.conflicts@, p) is None,
{
    let mut all = Files::new();
    add_paths(&mut all, base);
    add_paths(&mut all, ours);
    add_paths(&mut all, theirs);
    let paths = all.paths();
    let ghost av = all@;
    let mut files = Files::new();
    let mut conflicts: Vec<PathConflict> = Vec::new();
    let mut k: usize = 0;
    while k < paths.len()
        invariant
            av == all@,
            sorted_paths(av),
            paths@.len() == av.len(),
            forall|i: int| 0 <= i < paths@.len() ==> (#[trigger] paths@[i])@ == av[i].0,
            k <= paths@.len(),
            files.wf(),
            conflicts_sorted(conflicts@),
            forall|i: int| 0 <= i < conflicts@.len() ==> exists|j: int| 0 <= j < k && (#[trigger] conflicts@[i]).path@ == (#[trigger] av[j]).0,
            forall|q: Seq<u8>| #![trigger lookup(files@, q)]
                (exists|j: int| 0 <= j < k && (#[trigger] av[j]).0 == q) ==> path_outcome(
                    lookup(base@, q),
                    lookup(ours@, q),
                    lookup(theirs@, q),
                    ours_label.spec_bytes(),
                    theirs_label.spec_bytes(),
                    lookup(files@, q),
                    conflict_for(conflicts@, q),
                ),
            forall|q: Seq<u8>| #![trigger lookup(files@, q)]
                !(exists|j: int| 0 <= j < k && (#[trigger] av[j]).0 == q) ==> lookup(files@, q) is None
                    && conflict_for(conflicts@, q) is None,
        decreases paths@.len() - k,
    {
        let p = &paths[k];
        let ghost pv = p@;
        let b = base.get(p.as_slice());
        let o = ours.get(p.as_slice());
        let t = theirs.get(p.as_slice());
        proof {
            assert(fits(opt_view(b))) by {
                if has_path(base@, pv) {
                    let j = crate::snapshot::path_index(base@, pv);
                    assert(4 * base@[j].1.len() + 2 <= isize::MAX);
                }
            }
            assert(fits(opt_view(o))) by {
                if has_path(ours@, pv) {
                    let j = crate::snapshot::path_index(ours@, pv);
                    assert(4 * ours@[j].1.len() + 2 <= isize::MAX);
                }
            }
            assert(fits(opt_view(t))) by {
                if has_path(theirs@, pv) {
                    let j = crate::snapshot::path_index(theirs@, pv);
                    assert(4 * theirs@[j].1.len() + 2 <= isize::MAX);
                }
            }
        }
        let (content, kind) = merge_path(b, o, t, ours_label, theirs_label);
        let ghost files0 = files@;
        let ghost cs0 = conflicts@;
        proof {
            assert forall|i: int| 0 <= i < cs0.len() implies lex_lt((#[trigger] cs0[i]).path@, pv) by {
                let j = choose|j: int| 0 <= j < k && (#[trigger] cs0[i]).path@ == (#[trigger] av[j]).0;
                assert(lex_lt(av[j].0, av[k as int].0));
            }
            assert(lookup(files0, pv) is None) by {
                if exists|j: int| 0 <= j < k && (#[trigger] av[j]).0 == pv {
                    let j = choose|j: int| 0 <= j < k && (#[trigger] av[j]).0 == pv;
                    crate::bytes::lemma_lex_equal(pv, pv);
                    assert(lex_lt(av[j].0, av[k as int].0));
                }
            }
        }
        match content {
            Some(c) => {
                files.insert(copy_vec(p), c);
            },
            None => {},
        }
        match kind {
            Some(kd) => {
                let pc = PathConflict { path: copy_vec(p), kind: kd };
                proof {
                    lemma_conflict_for_push(cs0, pc);
                }
                conflicts.push(pc);
            },
            None => {},
        }
        proof {
            let done1 = |q: Seq<u8>| exists|j: int| 0 <= j < k + 1 && (#[trigger] av[j]).0 == q;
            assert forall|i: int| 0 <= i < conflicts@.len() implies exists|j: int| 0 <= j < k + 1 && (#[trigger] conflicts@[i]).path@ == (#[trigger] av[j]).0 by {
                if i < cs0.len() {
                    assert(conflicts@[i] == cs0[i]);
                    let j = choose|j: int| 0 <= j < k && (#[trigger] cs0[i]).path@ == (#[trigger] av[j]).0;
                    assert(conflicts@[i].path@ == av[j].0);
                } else {
                    assert(conflicts@[i].path@ == av[k as int].0);
                }
            }
            assert forall|q: Seq<u8>| #![trigger lookup(files@, q)]
                (exists|j: int| 0 <= j < k + 1 && (#[trigger] av[j]).0 == q) implies path_outcome(
                    lookup(base@, q),
                    lookup(ours@, q),
                    lookup(theirs@, q),
                    ours_label.spec_bytes(),
                    theirs_label.spec_bytes(),
                    lookup(files@, q),
                    conflict_for(conflicts@, q),
                ) by {
                let j = choose|j: int| 0 <= j < k + 1 && (#[trigger] av[j]).0 == q;
                if j < k {
                    assert(q != pv) by {
                        crate::bytes::lemma_lex_equal(q, q);
                        assert(lex_lt(av[j].0, av[k as int].0));
                    }
                    assert(lookup(files0, q) == lookup(files@, q));
                    assert(conflict_for(cs0, q) == conflict_for(conflicts@, q));
                } else {
                    assert(q == pv);
                    assert(lookup(files@, q) == opt_vec_view(content));
                    assert(conflict_for(conflicts@, q) == kind);
                }
            }
            assert forall|q: Seq<u8>| #![trigger lookup(files@, q)]
                !(exists|j: int| 0 <= j < k + 1 && (#[trigger] av[j]).0 == q) implies lookup(files@, q) is None
                    && conflict_for(conflicts@, q) is None by {
                assert(q != av[k as int].0);
                assert(!(exists|j: int| 0 <= j < k && (#[trigger] av[j]).0 == q)) by {
                    if exists|j: int| 0 <= j < k && (#[trigger] av[j]).0 == q {
                        let j = choose|j: int| 0 <= j < k && (#[trigger] av[j]).0 == q;
                        assert(exists|j2: int| 0 <= j2 < k + 1 && (#[trigger] av[j2]).0 == q);
                    }
                }
                assert(lookup(files0, q) == lookup(files@, q));
                assert(conflict_for(cs0, q) == conflict_for(conflicts@, q));
            }
        }
        k = k + 1;
    }
    proof {
        assert forall|p: Seq<u8>| #![trigger lookup(files@, p)]
            (has_path(base@, p) || has_path(ours@, p) || has_path(theirs@, p)) implies (exists|j: int|
                0 <= j < k && (#[trigger] av[j]).0 == p) by {
            assert(has_path(av, p));
            let j = crate::snapshot::path_index(av, p);
            assert(av[j].0 == p);
        }
        assert forall|p: Seq<u8>| #![trigger lookup(files@, p)]
            !(has_path(base@, p) || has_path(ours@, p) || has_path(theirs@, p)) implies !(exists|j: int|
                0 <= j < k && (#[trigger] av[j]).0 == p) by {
            if exists|j: int| 0 <= j < k && (#[trigger] av[j]).0 == p {
                let j = choose|j: int| 0 <= j < k && (#[trigger] av[j]).0 == p;
                assert(has_path(av, p));
            }
        }
    }
    TreeMerge { files, conflicts }
}

/// What a stored tree holds at `p`; an absent tree holds nothing.
pub open spec fn side_file(store: Listing, id: Option<Seq<u8>>, p: Seq<u8>) -> Option<Seq<u8>> {
    match id {
        Some(t) => file_at(store, t, p, max_depth()),
        None => None,
    }
}

/// An absent tree, or one that can be read in full.
pub open spec fn side_readable(store: Listing, id: Option<Seq<u8>>) -> bool {
    match id {
        Some(t) => readable(store, t, max_depth()),
        None => true,
    }
}

/// Contents, if any, small enough to diff.
pub open spec fn fits_len(o: Option<Seq<u8>>) -> bool {
    match o {
        Some(c) => 4 * c.len() + 2 <= isize::MAX,
        None => true,
    }
}

/// Every file of a tree is small enough to diff.
pub open spec fn side_fits(store: Listing, id: Option<Seq<u8>>) -> bool {
    forall|p: Seq<u8>| fits_len(#[trigger] side_file(store, id, p))
}

/// Every file is small enough to diff.
fn files_fit(f: &Files) -> (r: bool)
    requires
        f.wf(),
    ensures
        r == contents_fit(f@),
        r == forall|p: Seq<u8>| fits_len(#[trigger] lookup(f@, p)),
{
    let es = f.entries();
    let mut i: usize = 0;
    while i < es.len()
        invariant
            i <= es@.len(),
            f.wf(),
            crate::snapshot::entry_views(es@) == f@,
            forall|j: int| 0 <= j < i ==> 4 * (#[trigger] f@[j]).1.len() + 2 <= isize::MAX,
        decreases es@.len() - i,
    {
        assert(f@[i as int].1 == es@[i as int].1@);
        if es[i].1.len() > (isize::MAX as usize - 2) / 4 {
            proof {
                lemma_lookup_at(f@, i as int);
            }
            return false;
        }
        i = i + 1;
    }
    proof {
        assert forall|p: Seq<u8>| fits_len(#[trigger] lookup(f@, p)) by {
            if has_path(f@, p) {
                let j = crate::snapshot::path_index(f@, p);
            }
        }
    }
    true
}

impl Repo {
    /// Reads a tree (nothing for an absent one) and checks its files can
    /// be diffed.
    fn read_side(&self, id: Option<&ObjectId>) -> (r: Result<Files, RepoError>)
        requires
            self.wf(),
        ensures
            r is Ok <==> side_readable(self@, opt_id(id)) && side_fits(self@, opt_id(id)),
            r matches Ok(f) ==> f.wf() && contents_fit(f@) && forall|p: Seq<u8>| #[trigger] lookup(f@, p) == side_file(self@, opt_id(id), p),
    {
        let f = match id {
            Some(t) => match self.read_tree(t) {
                Ok(f) => f,
                Err(e) => return Err(e),
            },
            None => {
                let f = Files::new();
                assert forall|p: Seq<u8>| #[trigger] lookup(f@, p) == side_file(self@, opt_id(id), p) by {
                    assert(!has_path(f@, p));
                }
                f
            },
        };
        proof {
            assert forall|p: Seq<u8>| #[trigger] lookup(f@, p) == side_file(self@, opt_id(id), p) by {}
        }
        if !files_fit(&f) {
            proof {
                let p = choose|p: Seq<u8>| !fits_len(#[trigger] lookup(f@, p));
                assert(side_file(self@, opt_id(id), p) == lookup(f@, p));
            }
            return Err(RepoError::Object(crate::object::ObjectError::TooLong));
        }
        proof {
            assert forall|p: Seq<u8>| fits_len(#[trigger] side_file(self@, opt_id(id), p)) by {
                assert(side_file(self@, opt_id(id), p) == lookup(f@, p));
            }
        }
        Ok(f)
    }

    /// Merges three stored trees (`base` may be absent for unrelated
    /// histories, meaning an empty ancestor), path by path as
    /// `merge_files` does. Fails if a tree cannot be read in full, or holds
    /// a file too large to diff.
    pub fn merge_trees(
        &self,
        base: Option<&ObjectId>,
        ours: &ObjectId,
        theirs: &ObjectId,
        ours_label: &str,
        theirs_label: &str,
    ) -> (r: Result<TreeMerge, RepoError>)
        requires
            self.wf(),
        ensures
            r is Ok <==> side_readable(self@, opt_id(base)) && side_fits(self@, opt_id(base)) && side_readable(self@, Some(ours@))
                && side_fits(self@, Some(ours@)) && side_readable(self@, Some(theirs@)) && side_fits(self@, Some(theirs@)),
            r matches Ok(tm) ==> tm.files.wf() && trees_merged(
                self@,
                opt_id(base),
                ours@,
                theirs@,
                ours_label.spec_bytes(),
                theirs_label.spec_bytes(),
                tm.files@,
                tm.conflicts@,
            ),
    {
        let b = match self.read_side(base) {
            Ok(f) => f,
            Err(e) => return Err(e),
        };
        let o = match self.read_side(Some(ours)) {
            Ok(f) => f,
            Err(e) => return Err(e),
        };
        let t = match self.read_side(Some(theirs)) {
            Ok(f) => f,
            Err(e) => return Err(e),
        };
        let tm = merge_files(&b, &o, &t, ours_label, theirs_label);
        proof {
            assert forall|p: Seq<u8>| #![trigger lookup(tm.files@, p)] true by {
                assert(has_path(b@, p) == (lookup(b@, p) is Some));
                assert(has_path(o@, p) == (lookup(o@, p) is Some));
                assert(has_path(t@, p) == (lookup(t@, p) is Some));
            }
        }
        Ok(tm)
    }
}

/// `files` and `conflicts` are the path-by-path merge of the trees `base`
/// (none for unrelated histories), `ours` and `theirs`.
pub open spec fn trees_merged(
    store: Listing,
    base: Option<Seq<u8>>,
    ours: Seq<u8>,
    theirs: Seq<u8>,
    ours_label: Seq<u8>,
    theirs_label: Seq<u8>,
    files: Listing,
    conflicts: Seq<PathConflict>,
) -> bool {
    &&& conflicts_sorted(conflicts)
    &&& forall|p: Seq<u8>| #![trigger lookup(files, p)]
        if side_file(store, base, p) is Some || side_file(store, Some(ours), p) is Some || side_file(store, Some(theirs), p) is Some {
            path_outcome(
                side_file(store, base, p),
                side_file(store, Some(ours), p),
                side_file(store, Some(theirs), p),
                ours_label,
                theirs_label,
                lookup(files, p),
                conflict_for(conflicts, p),
            )
        } else {
            lookup(files, p) is None && conflict_for(conflicts, p) is None
        }
}

/// What `merge_commits` of `ours` and `theirs` gives, from the store
/// `before` to the store `after`.
pub open spec fn merge_outcome(
    before: Listing,
    after: Listing,
    ours: Seq<u8>,
    theirs: Seq<u8>,
    author: Seq<char>,
    message: Seq<char>,
    timestamp: u64,
    r: Result<MergeOutcome, RepoError>,
) -> bool {
    &&& (ours == theirs ==> r matches Ok(MergeOutcome::AlreadyUpToDate))
    &&& (histories_complete(before, ours, theirs) && reaches(before, ours, theirs) ==> r matches Ok(MergeOutcome::AlreadyUpToDate))
    &&& (histories_complete(before, ours, theirs) && !reaches(before, ours, theirs) && reaches(before, theirs, ours) ==> (r matches Ok(MergeOutcome::FastForward(t)) && t@ == theirs))
    &&& (histories_complete(before, ours, theirs) && ours != theirs && !reaches(before, ours, theirs) && !reaches( before, theirs, ours, ) && merge_possible(before, ours, theirs, author, message) ==> (r matches Ok(MergeOutcome::Conflicts(_)) || r matches Ok( MergeOutcome::Merged(_), )))
    &&& (histories_complete(before, ours, theirs) && ours != theirs && !reaches(before, ours, theirs) && !reaches(before, theirs, ours)
        && merge_possible(before, ours, theirs, author, message) && merges_cleanly(before, ours, theirs) ==> r matches Ok(MergeOutcome::Merged(_)))
    &&& (histories_complete(before, ours, theirs) && ours != theirs && !reaches(before, ours, theirs) && !reaches(before, theirs, ours)
        && merge_possible(before, ours, theirs, author, message) && merges_with_conflicts(before, ours, theirs) ==> r matches Ok(MergeOutcome::Conflicts(_)))
    &&& (r matches Ok(MergeOutcome::AlreadyUpToDate) ==> (ours == theirs || reaches(before, ours, theirs)) && after == before)
    &&& (r matches Ok(MergeOutcome::FastForward(t)) ==> t@ == theirs && reaches(before, theirs, ours) && !reaches(before, ours, theirs) && after == before)
    &&& (r matches Ok(MergeOutcome::Conflicts(tm)) ==> tm.conflicts@.len() > 0 && !reaches(before, ours, theirs) && !reaches( before, theirs, ours, ) && after == before)
    &&& (r matches Ok(MergeOutcome::Merged(id)) ==> !reaches(before, ours, theirs) && !reaches(before, theirs, ours) && lookup( after, obj_key_spec(id@), ) is Some && exists|c: CommitView| #![trigger encode_view(ObjectView::Commit(c))] c.parents == seq![ours, theirs] && c.author == author && c.message == message && c.timestamp == timestamp && lookup( after, obj_key_spec(c.tree), ) is Some && encode_view(ObjectView::Commit(c)) is Ok && id@ == sha256(encode_view(ObjectView::Commit(c))->Ok_0))
    &&& (r matches Ok(MergeOutcome::Merged(id)) ==> exists|bt: Option<Seq<u8>>, f: Listing, t: Seq<u8>| #![trigger picked_base_tree(before, ours, theirs, bt), lookup(f, t)] picked_base_tree(before, ours, theirs, bt) && trees_merged( before, bt, commit_at(before, ours)->Some_0.tree, commit_at(before, theirs)->Some_0.tree, "ours".spec_bytes(), "theirs".spec_bytes(), f, Seq::<PathConflict>::empty(), ) && encode_view(ObjectView::Commit(CommitView { tree: t, parents: seq![ours, theirs], timestamp, author: author, message: message })) is Ok && id@ == sha256(encode_view(ObjectView::Commit(CommitView { tree: t, parents: seq![ours, theirs], timestamp, author: author, message: message }))->Ok_0) && (f.len() < 0x1_0000_0000 && ids_unambiguous(after) ==> reads_back(after, t, max_depth(), f)))
    &&& (r matches Ok(MergeOutcome::Conflicts(tm)) ==> exists|bt: Option<Seq<u8>>| #[trigger] picked_base_tree(before, ours, theirs, bt) && trees_merged( before, bt, commit_at(before, ours)->Some_0.tree, commit_at(before, theirs)->Some_0.tree, "ours".spec_bytes(), "theirs".spec_bytes(), tm.files@, tm.conflicts@, ))
}

/// Every merge of the trees of `ours` and `theirs` from the picked base
/// is clean.
pub open spec fn merges_cleanly(st: Listing, ours: Seq<u8>, theirs: Seq<u8>) -> bool {
    forall|bt: Option<Seq<u8>>, f: Listing, c: Seq<PathConflict>|
        #![trigger trees_merged(st, bt, commit_at(st, ours)->Some_0.tree, commit_at(st, theirs)->Some_0.tree, "ours".spec_bytes(), "theirs".spec_bytes(), f, c)]
        picked_base_tree(st, ours, theirs, bt) && trees_merged(
            st,
            bt,
            commit_at(st, ours)->Some_0.tree,
            commit_at(st, theirs)->Some_0.tree,
            "ours".spec_bytes(),
            "theirs".spec_bytes(),
            f,
            c,
        ) ==> c.len() == 0
}

/// Every merge of the trees of `ours` and `theirs` from the picked base
/// has a conflict.
pub open spec fn merges_with_conflicts(st: Listing, ours: Seq<u8>, theirs: Seq<u8>) -> bool {
    forall|bt: Option<Seq<u8>>, f: Listing, c: Seq<PathConflict>|
        #![trigger trees_merged(st, bt, commit_at(st, ours)->Some_0.tree, commit_at(st, theirs)->Some_0.tree, "ours".spec_bytes(), "theirs".spec_bytes(), f, c)]
        picked_base_tree(st, ours, theirs, bt) && trees_merged(
            st,
            bt,
            commit_at(st, ours)->Some_0.tree,
            commit_at(st, theirs)->Some_0.tree,
            "ours".spec_bytes(),
            "theirs".spec_bytes(),
            f,
            c,
        ) ==> c.len() > 0
}

/// A merge of diverged histories can be carried out: both sides' trees,
/// and the tree of any merge base that may be picked, can be read in full
/// and hold files small enough to diff; every clean merge of them can be
/// written as trees; and the merge commit's author and message fit.
pub open spec fn merge_possible(st: Listing, ours: Seq<u8>, theirs: Seq<u8>, author: Seq<char>, message: Seq<char>) -> bool {
    &&& side_readable(st, Some(commit_at(st, ours)->Some_0.tree))
    &&& side_fits(st, Some(commit_at(st, ours)->Some_0.tree))
    &&& side_readable(st, Some(commit_at(st, theirs)->Some_0.tree))
    &&& side_fits(st, Some(commit_at(st, theirs)->Some_0.tree))
    &&& forall|bt: Option<Seq<u8>>| #[trigger] picked_base_tree(st, ours, theirs, bt) ==> side_readable(st, bt) && side_fits(st, bt)
    &&& forall|bt: Option<Seq<u8>>, f: Listing|
        #[trigger] trees_merged(
            st,
            bt,
            commit_at(st, ours)->Some_0.tree,
            commit_at(st, theirs)->Some_0.tree,
            "ours".spec_bytes(),
            "theirs".spec_bytes(),
            f,
            Seq::<PathConflict>::empty(),
        ) && picked_base_tree(st, ours, theirs, bt) ==> writable(f)
    &&& encode_utf8(author).len() <= 0xffff
    &&& encode_utf8(message).len() <= 0xffff_ffff
}

/// The tree of the merge base that `merge_base` picks for `a` and `b`, or
/// none for unrelated histories.
pub open spec fn picked_base_tree(store: Listing, a: Seq<u8>, b: Seq<u8>, t: Option<Seq<u8>>) -> bool {
    match t {
        None => forall|x: Seq<u8>| !#[trigger] merge_base_of(store, a, b, x),
        Some(tr) => exists|m: Seq<u8>| #[trigger] merge_base_of(store, a, b, m) && (forall|y: Seq<u8>| #[trigger] merge_base_of(store, a, b, y) && y
            != m ==> newer(store, m, y)) && (commit_at(store, m) matches Some(c) && c.tree == tr),
    }
}


/// An optional id, as a value.
pub open spec fn opt_id(id: Option<&ObjectId>) -> Option<Seq<u8>> {
    match id {
        Some(i) => Some(i@),
        None => None,
    }
}

impl Repo {
    /// Merges commit `theirs` into commit `ours`: nothing to do if
    /// `theirs` is already in `ours`'s history, a fast-forward if `ours` is
    /// in `theirs`'s, and otherwise a three-way merge of their trees from a
    /// merge base (an empty tree for unrelated histories), which becomes a
    /// two-parent commit when clean. It never moves a ref.
    #[verifier::rlimit(40)]
    pub fn merge_commits(&mut self, ours: &ObjectId, theirs: &ObjectId, author: &str, message: &str, timestamp: u64) -> (r: Result<
        MergeOutcome,
        RepoError,
    >)
        requires
            old(self).wf(),
        ensures
            final(self).wf(),
            only_adds(old(self)@, final(self)@),
            merge_outcome(old(self)@, final(self)@, ours@, theirs@, author@, message@, timestamp, r),
    {
        let ghost st = self@;
        if crate::bytes::bytes_eq(&ours.0, &theirs.0) {
            return Ok(MergeOutcome::AlreadyUpToDate);
        }
        match self.is_ancestor(theirs, ours) {
            Ok(true) => return Ok(MergeOutcome::AlreadyUpToDate),
            Ok(false) => {},
            Err(e) => return Err(e),
        }
        match self.is_ancestor(ours, theirs) {
            Ok(true) => return Ok(MergeOutcome::FastForward(*theirs)),
            Ok(false) => {},
            Err(e) => return Err(e),
        }
        proof {
            crate::graph::lemma_reaches_self(st, ours@);
            crate::graph::lemma_reaches_self(st, theirs@);
            if histories_complete(st, ours@, theirs@) {
                assert(commit_at(st, ours@) is Some);
                assert(commit_at(st, theirs@) is Some);
                assert(crate::repo::stored(st, ours@, ObjectView::Commit(commit_at(st, ours@)->Some_0)));
                assert(crate::repo::stored(st, theirs@, ObjectView::Commit(commit_at(st, theirs@)->Some_0)));
            }
        }
        let base_tree = match self.merge_base(ours, theirs) {
            Ok(Some(b)) => match self.commit_of(&b) {
                Ok(c) => {
                    proof {
                        assert(commit_at(st, b@) == Some(c@));
                        assert(picked_base_tree(st, ours@, theirs@, Some(c.tree@)));
                    }
                    Some(c.tree)
                },
                Err(e) => {
                    proof {
                        if histories_complete(st, ours@, theirs@) {
                            assert(reaches(st, ours@, b@));
                            assert(commit_at(st, b@) is Some);
                            assert(crate::repo::stored(st, b@, ObjectView::Commit(commit_at(st, b@)->Some_0)));
                        }
                    }
                    return Err(e);
                },
            },
            Ok(None) => None,
            Err(e) => return Err(e),
        };
        let ghost bt = match base_tree {
            Some(t) => Some(t@),
            None => None::<Seq<u8>>,
        };
        assert(picked_base_tree(st, ours@, theirs@, bt));
        let ours_tree = match self.commit_of(ours) {
            Ok(c) => {
                assert(commit_at(st, ours@) == Some(c@));
                c.tree
            },
            Err(e) => return Err(e),
        };
        let theirs_tree = match self.commit_of(theirs) {
            Ok(c) => {
                assert(commit_at(st, theirs@) == Some(c@));
                c.tree
            },
            Err(e) => return Err(e),
        };
        let tm = match self.merge_trees(base_tree.as_ref(), &ours_tree, &theirs_tree, "ours", "theirs") {
            Ok(tm) => tm,
            Err(e) => return Err(e),
        };
        if tm.conflicts.len() > 0 {
            return Ok(MergeOutcome::Conflicts(tm));
        }
        let tree = match self.write_tree(&tm.files) {
            Ok(t) => t,
            Err(e) => {
                proof {
                    assert(tm.conflicts@ =~= Seq::<PathConflict>::empty());
                }
                return Err(e);
            },
        };
        let ghost mid = self@;
        let mut parents: Vec<ObjectId> = Vec::new();
        parents.push(*ours);
        parents.push(*theirs);
        assert(crate::graph::id_views(parents@) =~= seq![ours@, theirs@]);
        let id = match self.write_commit(tree, parents, author, message, timestamp) {
            Ok(id) => id,
            Err(e) => return Err(e),
        };
        proof {
            let c = CommitView { tree: tree@, parents: seq![ours@, theirs@], timestamp, author: author@, message: message@ };
            assert forall|k: Seq<u8>| #[trigger] lookup(self@, k) != lookup(mid, k) implies added_hashed(mid, self@, k) by {}
            lemma_only_adds_trans(st, mid, self@);
            crate::trees::lemma_only_adds_keeps(mid, self@);
            assert(lookup(mid, obj_key_spec(tree@)) is Some);
            assert(lookup(self@, obj_key_spec(tree@)) is Some);
            assert(encode_view(ObjectView::Commit(c)) is Ok);
            if tm.files@.len() < 0x1_0000_0000 {
                crate::trees::lemma_reads_back_kept(mid, self@, tree@, max_depth(), tm.files@);
            }
            assert(tm.conflicts@ =~= Seq::<PathConflict>::empty());
            assert(lookup(tm.files@, tree@) == lookup(tm.files@, tree@));
            assert(picked_base_tree(st, ours@, theirs@, bt));
        }
        Ok(MergeOutcome::Merged(id))
    }
}


/// A file that one side deleted and the other modified survives, with the
/// modifying side's contents, and is reported as a modify/delete conflict
/// that says which side deleted it.
pub proof fn law_modify_delete_keeps_the_modification(
    b: Option<Seq<u8>>,
    o: Option<Seq<u8>>,
    t: Option<Seq<u8>>,
    ours_label: Seq<u8>,
    theirs_label: Seq<u8>,
    content: Option<Seq<u8>>,
    conflict: Option<ConflictKind>,
)
    requires
        path_outcome(b, o, t, ours_label, theirs_label, content, conflict),
        b is Some,
    ensures
        o is None && t is Some && t != b ==> content == t && conflict == Some(ConflictKind::ModifyDelete { ours_deleted: true }),
        t is None && o is Some && o != b ==> content == o && conflict == Some(ConflictKind::ModifyDelete { ours_deleted: false }),
{
}

/// A file that both sides changed differently, where some version (base,
/// ours or theirs) holds a zero byte anywhere, is a binary conflict: it
/// keeps our contents byte for byte.
pub proof fn law_binary_conflict_keeps_ours(
    b: Option<Seq<u8>>,
    x: Seq<u8>,
    y: Seq<u8>,
    ours_label: Seq<u8>,
    theirs_label: Seq<u8>,
    content: Option<Seq<u8>>,
    conflict: Option<ConflictKind>,
    i: int,
)
    requires
        path_outcome(b, Some(x), Some(y), ours_label, theirs_label, content, conflict),
        x != y,
        b != Some(x),
        b != Some(y),
        0 <= i,
        (i < x.len() && x[i] == 0) || (i < y.len() && y[i] == 0) || (b matches Some(z) && i < z.len() && z[i] == 0),
    ensures
        content == Some(x),
        conflict == Some(ConflictKind::Binary),
{
    if i < x.len() && x[i] == 0 {
        assert(binary(x));
    } else if i < y.len() && y[i] == 0 {
        assert(binary(y));
    } else {
        assert(binary(b->Some_0));
    }
}

/// A file merged as text never holds a zero byte in any version.
pub proof fn law_text_merge_only_without_zero_bytes(
    b: Option<Seq<u8>>,
    x: Seq<u8>,
    y: Seq<u8>,
    ours_label: Seq<u8>,
    theirs_label: Seq<u8>,
    content: Option<Seq<u8>>,
    conflict: Option<ConflictKind>,
)
    requires
        path_outcome(b, Some(x), Some(y), ours_label, theirs_label, content, conflict),
        conflict == Some(ConflictKind::Content) || conflict == Some(ConflictKind::BothAdded),
    ensures
        forall|i: int| 0 <= i < x.len() ==> x[i] != 0,
        forall|i: int| 0 <= i < y.len() ==> y[i] != 0,
        b matches Some(z) ==> forall|i: int| 0 <= i < z.len() ==> z[i] != 0,
{
}


/// How one path merges when at most one side really changed it: a path both
/// sides left alike, or one side left as in the base, takes the other
/// side's version (present or deleted) with no conflict; and a conflict is
/// only ever reported where base, ours and theirs all differ.
pub proof fn law_path_merge_takes_the_changed_side(
    b: Option<Seq<u8>>,
    o: Option<Seq<u8>>,
    t: Option<Seq<u8>>,
    ours_label: Seq<u8>,
    theirs_label: Seq<u8>,
    content: Option<Seq<u8>>,
    conflict: Option<ConflictKind>,
)
    requires
        path_outcome(b, o, t, ours_label, theirs_label, content, conflict),
    ensures
        o == t ==> content == o && conflict is None,
        b == t ==> content == o && conflict is None,
        b == o ==> content == t && conflict is None,
        conflict is Some ==> o != t && b != o && b != t,
        o is Some && t is Some && content is None ==> false,
{
}

} // verus!
