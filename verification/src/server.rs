//! The serving side of synchronization: a pure function from
//! `(repository, method, payload)` to `(ok, response)`. It never trusts the
//! peer: malformed payloads are errors, not panics; pushed objects must be
//! canonical valid objects; a ref only moves if the new commit's whole
//! history is present, the caller's idea of the old value is current
//! (compare-and-set), and the move is a fast-forward unless forced.

use vstd::prelude::*;
use vstd::string::StringSliceAdditionalSpecFns;

use crate::bytes::{append_bytes, copy_range, le_bytes};
use crate::graph::{commit_at, id_views, ids_sorted, reaches, set_ids};
use crate::object::{hex_bytes, ObjectError, ObjectId};
use crate::reach::{links_to, object_at, reachable_from};
use crate::repo::{RepoError, obj_key_spec, ref_key, refs_spec, valid_ref_name_spec, Repo};
use crate::wire::{read_bytes, read_fixed, read_string, BATCH_BYTES, FETCH, LIST_REFS, PUT_OBJECTS, R, UPDATE_REF, W};
use crate::digest::sha256;
use crate::object::decode_view;
use vstd::utf8::{decode_utf8, encode_utf8, valid_utf8};
use crate::snapshot::{has_path, lookup, path_index, Files, Listing};

verus! {

/// Every object that `h` depends on (itself included) is present and
/// verifies.
pub open spec fn closure_complete(store: Listing, h: Seq<u8>) -> bool {
    forall|y: Seq<u8>| #[trigger] links_to(store, h, y) ==> object_at(store, y) is Some
}

/// `x` is already covered by one of `haves`: one that is stored, whose
/// closure is complete, and that depends on `x`.
pub open spec fn covered(store: Listing, haves: Seq<Seq<u8>>, x: Seq<u8>) -> bool {
    exists|i: int|
        0 <= i < haves.len() && has_path(store, obj_key_spec(haves[i])) && closure_complete(store, haves[i])
            && #[trigger] links_to(store, haves[i], x)
}

/// Depending on one root is depending on the root alone.
pub proof fn lemma_single_root(store: Listing, h: Seq<u8>, roots: Seq<Seq<u8>>)
    requires
        roots == seq![h],
    ensures
        forall|x: Seq<u8>| #[trigger] reachable_from(store, roots, x) <==> links_to(store, h, x),
{
    assert forall|x: Seq<u8>| #[trigger] reachable_from(store, roots, x) <==> links_to(store, h, x) by {
        if links_to(store, h, x) {
            assert(roots[0] == h);
        }
    }
}

/// Appends `[b0, b1, ..]`, the bytes in decimal.
fn append_byte_list(msg: &mut Vec<u8>, v: &Vec<u8>) {
    msg.push(91);
    let mut i: usize = 0;
    while i < v.len()
        decreases v.len() - i,
    {
        if i > 0 {
            msg.push(44);
            msg.push(32);
        }
        crate::text::push_decimal(msg, v[i] as usize);
        i = i + 1;
    }
    msg.push(93);
}

/// Appends the text of an object error.
fn append_object_error(msg: &mut Vec<u8>, e: &ObjectError) {
    match e {
        ObjectError::Empty => append_bytes(msg, "empty object".as_bytes()),
        ObjectError::UnknownKind(k) => {
            append_bytes(msg, "unknown object kind byte ".as_bytes());
            crate::text::push_decimal(msg, *k as usize);
        },
        ObjectError::Truncated => append_bytes(msg, "object data truncated".as_bytes()),
        ObjectError::TrailingBytes => append_bytes(msg, "object has trailing bytes".as_bytes()),
        ObjectError::InvalidName(n) => {
            append_bytes(msg, "invalid tree entry name ".as_bytes());
            append_byte_list(msg, n);
        },
        ObjectError::DuplicateName(n) => {
            append_bytes(msg, "duplicate tree entry name ".as_bytes());
            append_byte_list(msg, n);
        },
        ObjectError::UnsortedTree => append_bytes(msg, "tree entries are not in canonical (ascending) order".as_bytes()),
        ObjectError::UnknownEntryKind(k) => {
            append_bytes(msg, "unknown tree entry kind ".as_bytes());
            crate::text::push_decimal(msg, *k as usize);
        },
        ObjectError::InvalidUtf8 => append_bytes(msg, "commit text is not valid UTF-8".as_bytes()),
        ObjectError::TooManyParents => append_bytes(msg, "a commit can have at most 255 parents".as_bytes()),
        ObjectError::TooLong => append_bytes(msg, "field too long to encode".as_bytes()),
    }
}

/// Appends the text of a repository error; for a missing object,
/// `object <id in hex> is missing`.
fn append_repo_error(msg: &mut Vec<u8>, e: &RepoError)
    ensures
        e matches RepoError::Missing(id) ==> final(msg)@ == old(msg)@ + seq![111u8, 98, 106, 101, 99, 116, 32] + hex_bytes(id@)
            + seq![32u8, 105, 115, 32, 109, 105, 115, 115, 105, 110, 103],
{
    match e {
        RepoError::Object(o) => append_object_error(msg, o),
        RepoError::Corrupt(id) => {
            append_bytes(msg, "object ".as_bytes());
            append_bytes(msg, id.hex_digits().as_slice());
            append_bytes(msg, " is corrupt: its bytes do not hash to its id".as_bytes());
        },
        RepoError::Missing(id) => {
            let pre: Vec<u8> = vec![111u8, 98, 106, 101, 99, 116, 32];
            let post: Vec<u8> = vec![32u8, 105, 115, 32, 109, 105, 115, 115, 105, 110, 103];
            append_bytes(msg, pre.as_slice());
            append_bytes(msg, id.hex_digits().as_slice());
            append_bytes(msg, post.as_slice());
        },
        RepoError::WrongType(id, kind) => {
            append_bytes(msg, "object ".as_bytes());
            append_bytes(msg, id.hex_digits().as_slice());
            append_bytes(msg, " has the wrong type: expected ".as_bytes());
            append_bytes(msg, kind.as_bytes());
        },
        RepoError::InvalidRefName(n) => {
            append_bytes(msg, "invalid ref name \"".as_bytes());
            append_bytes(msg, n.as_str().as_bytes());
            append_bytes(msg, "\"".as_bytes());
        },
        RepoError::BadHead => append_bytes(msg, "HEAD data is malformed".as_bytes()),
    }
}


/// A message's text; bytes that are not UTF-8 give an empty message.
fn text_of(msg: Vec<u8>) -> (r: String)
    ensures
        valid_utf8(msg@) ==> r@ == decode_utf8(msg@),
        !valid_utf8(msg@) ==> r@ == Seq::<char>::empty(),
{
    match crate::bytes::string_from_utf8(msg) {
        Some(s) => s,
        None => String::new(),
    }
}

/// A set of ids, held as the keys of a listing.
pub open spec fn id_keys(l: Listing) -> bool {
    forall|i: int| 0 <= i < l.len() ==> (#[trigger] l[i]).0.len() == 32
}

/// Adds ids to a set.
fn add_ids(set: &mut Files, v: &Vec<ObjectId>)
    requires
        old(set).wf(),
        id_keys(old(set)@),
    ensures
        final(set).wf(),
        id_keys(final(set)@),
        forall|x: Seq<u8>| #[trigger] has_path(final(set)@, x) <==> has_path(old(set)@, x) || id_views(v@).contains(x),
{
    let ghost start = set@;
    let mut i: usize = 0;
    while i < v.len()
        invariant
            i <= v@.len(),
            set.wf(),
            id_keys(set@),
            forall|x: Seq<u8>| #[trigger] has_path(set@, x) <==> has_path(start, x) || id_views(v@).subrange(0, i as int).contains(x),
        decreases v@.len() - i,
    {
        let ghost before = set@;
        let key = copy_range(&v[i].0, 0, 32);
        assert(v@[i as int]@.subrange(0, 32) =~= v@[i as int]@);
        set.insert(key, Vec::new());
        proof {
            let now = set@;
            let vi = id_views(v@).subrange(0, i + 1);
            assert forall|k: int| 0 <= k < now.len() implies (#[trigger] now[k]).0.len() == 32 by {
                crate::snapshot::lemma_lookup_at(now, k);
                let p = now[k].0;
                assert(lookup(now, p) is Some);
                if p != v@[i as int]@ {
                    assert(has_path(before, p));
                    let j = path_index(before, p);
                    assert(before[j].0.len() == 32);
                }
            }
            assert forall|x: Seq<u8>| #[trigger] has_path(now, x) <==> has_path(start, x) || vi.contains(x) by {
                assert(lookup(now, x) is Some <==> has_path(now, x));
                assert(lookup(before, x) is Some <==> has_path(before, x));
                if vi.contains(x) && x != v@[i as int]@ {
                    let k = choose|k: int| 0 <= k < vi.len() && vi[k] == x;
                    assert(id_views(v@).subrange(0, i as int)[k] == x);
                }
                if id_views(v@).subrange(0, i as int).contains(x) {
                    let k = choose|k: int| 0 <= k < i && id_views(v@).subrange(0, i as int)[k] == x;
                    assert(vi[k] == x);
                }
                if x == v@[i as int]@ {
                    assert(vi[i as int] == x);
                }
            }
        }
        i = i + 1;
    }
    assert(id_views(v@).subrange(0, v@.len() as int) =~= id_views(v@));
}

/// Objects `wants` need that `haves` do not already cover, in id order.
/// Fails if anything a want depends on is absent or does not verify; a
/// have that is absent or incomplete here excludes nothing.
pub fn plan(repo: &Repo, wants: &[ObjectId], haves: &[ObjectId]) -> (r: Result<Vec<ObjectId>, String>)
    requires
        repo.wf(),
    ensures
        r is Ok <==> forall|x: Seq<u8>| #[trigger] reachable_from(repo@, id_views(wants@), x) ==> object_at(repo@, x) is Some,
        r matches Ok(v) ==> ids_sorted(id_views(v@)) && forall|x: Seq<u8>| #[trigger] id_views(v@).contains(x) <==> reachable_from(
            repo@,
            id_views(wants@),
            x,
        ) && !covered(repo@, id_views(haves@), x),
{
    let ghost st = repo@;
    let ghost hv = id_views(haves@);
    let ghost wv = id_views(wants@);
    let mut have_set = Files::new();
    let mut i: usize = 0;
    while i < haves.len()
        invariant
            st == repo@,
            repo.wf(),
            hv == id_views(haves@),
            i <= haves@.len(),
            have_set.wf(),
            id_keys(have_set@),
            forall|x: Seq<u8>| #[trigger] has_path(have_set@, x) <==> covered(st, hv.subrange(0, i as int), x),
        decreases haves@.len() - i,
    {
        let h = haves[i];
        let ghost before = have_set@;
        let ghost hs = hv.subrange(0, i + 1);
        let mut roots: Vec<ObjectId> = Vec::new();
        roots.push(h);
        proof {
            assert(id_views(roots@) =~= seq![h@]);
            lemma_single_root(st, h@, id_views(roots@));
            assert(hs[i as int] == h@);
        }
        let mut added = false;
        if repo.has(&h) {
            match repo.reachable(roots.as_slice()) {
                Ok(r) => {
                    add_ids(&mut have_set, &r);
                    added = true;
                    proof {
                        assert forall|y: Seq<u8>| #[trigger] links_to(st, h@, y) implies object_at(st, y) is Some by {
                            assert(reachable_from(st, id_views(roots@), y));
                        }
                    }
                },
                Err(_) => {
                    proof {
                        let x = choose|x: Seq<u8>| #[trigger] reachable_from(st, id_views(roots@), x) && object_at(st, x) is None;
                        assert(links_to(st, h@, x));
                        assert(!closure_complete(st, h@));
                    }
                },
            }
        }
        proof {
            assert forall|x: Seq<u8>| #[trigger] has_path(have_set@, x) <==> covered(st, hs, x) by {
                if covered(st, hs, x) {
                    let k = choose|k: int|
                        0 <= k < hs.len() && has_path(st, obj_key_spec(hs[k])) && closure_complete(st, hs[k])
                            && #[trigger] links_to(st, hs[k], x);
                    if k < i {
                        assert(hv.subrange(0, i as int)[k] == hs[k]);
                        assert(covered(st, hv.subrange(0, i as int), x));
                    } else {
                        assert(added);
                    }
                }
                if covered(st, hv.subrange(0, i as int), x) {
                    let k = choose|k: int|
                        0 <= k < i && has_path(st, obj_key_spec(hv.subrange(0, i as int)[k])) && closure_complete(
                            st,
                            hv.subrange(0, i as int)[k],
                        ) && #[trigger] links_to(st, hv.subrange(0, i as int)[k], x);
                    assert(hs[k] == hv.subrange(0, i as int)[k]);
                }
                if added && links_to(st, h@, x) {
                    assert(hs[i as int] == h@);
                }
            }
        }
        i = i + 1;
    }
    assert(hv.subrange(0, hv.len() as int) =~= hv);
    let mut want_set = Files::new();
    let mut j: usize = 0;
    while j < wants.len()
        invariant
            st == repo@,
            repo.wf(),
            wv == id_views(wants@),
            j <= wants@.len(),
            want_set.wf(),
            id_keys(want_set@),
            forall|x: Seq<u8>| #[trigger] has_path(want_set@, x) <==> reachable_from(st, wv.subrange(0, j as int), x),
            forall|x: Seq<u8>| #[trigger] reachable_from(st, wv.subrange(0, j as int), x) ==> object_at(st, x) is Some,
        decreases wants@.len() - j,
    {
        let w = wants[j];
        let ghost ws = wv.subrange(0, j + 1);
        let mut roots: Vec<ObjectId> = Vec::new();
        roots.push(w);
        proof {
            assert(id_views(roots@) =~= seq![w@]);
            lemma_single_root(st, w@, id_views(roots@));
            assert(ws[j as int] == w@);
        }
        let r = match repo.reachable(roots.as_slice()) {
            Ok(r) => r,
            Err(e) => {
                proof {
                    let x = choose|x: Seq<u8>| #[trigger] reachable_from(st, id_views(roots@), x) && object_at(st, x) is None;
                    assert(links_to(st, w@, x));
                    assert(wv[j as int] == w@);
                    assert(reachable_from(st, wv, x));
                }
                let mut msg: Vec<u8> = Vec::new();
                append_bytes(&mut msg, "cannot serve ".as_bytes());
                append_bytes(&mut msg, w.to_hex().as_str().as_bytes());
                append_bytes(&mut msg, ": ".as_bytes());
                append_repo_error(&mut msg, &e);
                return Err(text_of(msg));
            },
        };
        add_ids(&mut want_set, &r);
        proof {
            assert forall|x: Seq<u8>| #[trigger] reachable_from(st, ws, x) <==> reachable_from(st, wv.subrange(0, j as int), x)
                || links_to(st, w@, x) by {
                if reachable_from(st, ws, x) {
                    let k = choose|k: int| 0 <= k < ws.len() && #[trigger] links_to(st, ws[k], x);
                    if k < j {
                        assert(wv.subrange(0, j as int)[k] == ws[k]);
                    }
                }
                if reachable_from(st, wv.subrange(0, j as int), x) {
                    let k = choose|k: int| 0 <= k < j && #[trigger] links_to(st, wv.subrange(0, j as int)[k], x);
                    assert(ws[k] == wv.subrange(0, j as int)[k]);
                }
            }
            assert forall|x: Seq<u8>| #[trigger] reachable_from(st, ws, x) implies object_at(st, x) is Some by {
                if links_to(st, w@, x) {
                    assert(reachable_from(st, id_views(roots@), x));
                }
            }
        }
        j = j + 1;
    }
    assert(wv.subrange(0, wv.len() as int) =~= wv);
    let all = set_ids(&want_set);
    let mut out: Vec<ObjectId> = Vec::new();
    let ghost av = id_views(all@);
    let mut k: usize = 0;
    while k < all.len()
        invariant
            k <= all@.len(),
            av == id_views(all@),
            ids_sorted(av),
            have_set.wf(),
            ids_sorted(id_views(out@)),
            forall|x: Seq<u8>| #[trigger] id_views(out@).contains(x) <==> av.subrange(0, k as int).contains(x) && !has_path(
                have_set@,
                x,
            ),
            out@.len() > 0 ==> exists|q: int| 0 <= q < k && av[q] == id_views(out@).last(),
        decreases all@.len() - k,
    {
        let x = all[k];
        let keep = have_set.get(&x.0).is_none();
        let ghost before = id_views(out@);
        if keep {
            out.push(x);
            proof {
                let now = id_views(out@);
                assert(now =~= before.push(x@));
                assert forall|a: int, b: int| 0 <= a < b < now.len() implies crate::bytes::lex_lt(#[trigger] now[a], #[trigger] now[b]) by {
                    if b == now.len() - 1 {
                        let q = choose|q: int| 0 <= q < k && av[q] == before.last();
                        assert(crate::bytes::lex_lt(av[q], av[k as int]));
                        if a < before.len() - 1 {
                            assert(crate::bytes::lex_lt(before[a], before[before.len() - 1]));
                            crate::bytes::lemma_lex_trans(now[a], before.last(), now[b]);
                        }
                    } else {
                        assert(now[a] == before[a] && now[b] == before[b]);
                    }
                }
                assert(av[k as int] == now.last());
            }
        }
        proof {
            let now = id_views(out@);
            assert(lookup(have_set@, x@) is Some <==> has_path(have_set@, x@));
            assert forall|y: Seq<u8>| #[trigger] now.contains(y) <==> av.subrange(0, k + 1).contains(y) && !has_path(have_set@, y) by {
                if av.subrange(0, k + 1).contains(y) && !av.subrange(0, k as int).contains(y) {
                    let q = choose|q: int| 0 <= q < k + 1 && #[trigger] av.subrange(0, k + 1)[q] == y;
                    if q < k {
                        assert(av.subrange(0, k as int)[q] == y);
                    }
                    assert(y == x@);
                    if keep {
                        assert(now[now.len() - 1] == y);
                    }
                }
                if av.subrange(0, k as int).contains(y) {
                    let q = choose|q: int| 0 <= q < k && #[trigger] av.subrange(0, k as int)[q] == y;
                    assert(av.subrange(0, k + 1)[q] == y);
                }
                if keep && now.contains(y) && !before.contains(y) {
                    let q = choose|q: int| 0 <= q < now.len() && now[q] == y;
                    if q < before.len() {
                        assert(before[q] == y);
                    }
                    assert(av.subrange(0, k + 1)[k as int] == y);
                }
                if keep && before.contains(y) {
                    let q = choose|q: int| 0 <= q < before.len() && before[q] == y;
                    assert(now[q] == y);
                }
            }
        }
        k = k + 1;
    }
    proof {
        assert(av.subrange(0, av.len() as int) =~= av);
        assert forall|x: Seq<u8>| #[trigger] id_views(out@).contains(x) <==> reachable_from(st, wv, x) && !covered(st, hv, x) by {
            if reachable_from(st, wv, x) {
                assert(has_path(want_set@, x));
                let q = path_index(want_set@, x);
                assert(av[q] == x);
            }
            if av.contains(x) {
                let q = choose|q: int| 0 <= q < av.len() && av[q] == x;
                assert(av[q] == want_set@[q].0);
                assert(has_path(want_set@, x));
            }
        }
    }
    Ok(out)
}

/// A refusal, with its reason.
fn fail(msg: &str) -> (r: (bool, Vec<u8>))
    ensures
        !r.0,
        r.1@ == msg.spec_bytes(),
{
    let mut v: Vec<u8> = Vec::new();
    append_bytes(&mut v, msg.as_bytes());
    (false, v)
}

/// The id a ref holds, if it is set and holds one.
pub open spec fn ref_value(store: Listing, name: Seq<char>) -> Option<Seq<u8>> {
    match lookup(store, ref_key(encode_utf8(name))) {
        Some(v) => if v.len() == 32 {
            Some(v)
        } else {
            None
        },
        None => None,
    }
}

/// The encoding of a list of refs: each name (16-bit length, UTF-8) and id.
pub open spec fn ref_entries(refs: Seq<(Seq<char>, Seq<u8>)>) -> Seq<u8>
    decreases refs.len(),
{
    if refs.len() == 0 {
        seq![]
    } else {
        let (n, id) = refs.last();
        ref_entries(refs.drop_last()) + le_bytes(encode_utf8(n).len() % 0x1_0000, 2) + encode_utf8(n) + id
    }
}

/// The answer to LIST_REFS: the number of refs (32 bits), then the refs.
pub open spec fn refs_response(store: Listing) -> Seq<u8> {
    le_bytes(refs_spec(store).len() % 0x1_0000_0000, 4) + ref_entries(refs_spec(store))
}

/// An UPDATE_REF request: the ref's name, the value the caller based the
/// change on (if any), the new id and whether to force.
pub open spec fn update_request(p: Seq<u8>) -> Option<(Seq<char>, Option<Seq<u8>>, Seq<u8>, bool)> {
    match read_string(p) {
        None => None,
        Some((name, r1)) => if r1.len() < 1 {
            None
        } else if r1[0] == 0 {
            update_tail(name, None, r1.drop_first())
        } else if r1[0] == 1 && r1.len() >= 33 {
            update_tail(name, Some(r1.subrange(1, 33)), r1.subrange(33, r1.len() as int))
        } else {
            None
        },
    }
}

/// The end of an UPDATE_REF request: the new id and the force flag.
pub open spec fn update_tail(name: Seq<char>, old: Option<Seq<u8>>, r: Seq<u8>) -> Option<
    (Seq<char>, Option<Seq<u8>>, Seq<u8>, bool),
> {
    if r.len() == 33 {
        Some((name, old, r.subrange(0, 32), r[32] == 1))
    } else {
        None
    }
}

/// When a ref may move from what the caller believes to `new`: the belief
/// is current, everything `new` depends on is here, the move is a
/// fast-forward (through commits that all verify) unless forced, and the
/// name is a valid ref name.
pub open spec fn update_allowed(store: Listing, name: Seq<char>, old: Option<Seq<u8>>, new: Seq<u8>, force: bool) -> bool {
    &&& ref_value(store, name) == old
    &&& closure_complete(store, new)
    &&& (force || ref_value(store, name) is None || ((forall|x: Seq<u8>| #[trigger] reaches(store, new, x) ==> commit_at(store, x) is Some)
        && reaches(store, new, ref_value(store, name)->Some_0)))
    &&& valid_ref_name_spec(encode_utf8(name))
}

/// The text a PUT_OBJECTS request is refused with, after its count: the
/// first of its `n` objects that is cut short or is not a valid object's
/// encoding, else bytes left over after them.
pub open spec fn put_problem(s: Seq<u8>, n: nat) -> Seq<char>
    decreases n,
{
    if n == 0 {
        "trailing bytes in PUT_OBJECTS request"@
    } else {
        match read_bytes(s) {
            None => "malformed PUT_OBJECTS request"@,
            Some((b, rest)) => if decode_view(b) is Ok {
                put_problem(rest, (n - 1) as nat)
            } else {
                "rejected object: not the canonical encoding of a valid object"@
            },
        }
    }
}

/// The text a PUT_OBJECTS request is refused with.
pub open spec fn put_refusal(payload: Seq<u8>) -> Seq<char> {
    match put_request(payload) {
        None => "malformed PUT_OBJECTS request"@,
        Some((n, rest)) => put_problem(rest, n),
    }
}

/// The text an UPDATE_REF request is refused with. The causes are checked
/// in this order: the request does not parse; the ref is not at the id the
/// request expects; the new commit's history is not all here; (without
/// force, over a ref that exists) the new commit's history holds a commit
/// that does not verify, or does not hold the ref's commit; the name is no
/// valid ref name.
pub open spec fn update_refusal(store: Listing, payload: Seq<u8>) -> Seq<char> {
    match update_request(payload) {
        None => "malformed UPDATE_REF request"@,
        Some((name, o, n, f)) => if ref_value(store, name) != o {
            "stale: the remote ref is not at the value you based this on"@
        } else if !closure_complete(store, n) {
            "incomplete: the new commit's history is not fully present"@
        } else if !f && ref_value(store, name) is Some && !(forall|x: Seq<u8>| #[trigger] reaches(store, n, x) ==> commit_at(store, x) is Some) {
            "cannot compare histories: an ancestor is not a verified commit"@
        } else if !f && ref_value(store, name) is Some && !reaches(store, n, ref_value(store, name)->Some_0) {
            "non-fast-forward: the remote has commits you lack"@
        } else {
            "cannot update ref: invalid ref name"@
        },
    }
}

/// The byte strings of a PUT_OBJECTS request that get stored, in order:
/// items are read one at a time, and reading stops at the first that is
/// cut short or is not the encoding of a valid object.
pub open spec fn put_accepted(s: Seq<u8>, n: nat) -> Seq<Seq<u8>>
    decreases n,
{
    if n == 0 {
        seq![]
    } else {
        match read_bytes(s) {
            None => seq![],
            Some((b, rest)) => if decode_view(b) is Ok {
                seq![b] + put_accepted(rest, (n - 1) as nat)
            } else {
                seq![]
            },
        }
    }
}

/// All `n` items read and are valid objects, and nothing follows them.
pub open spec fn put_all_ok(s: Seq<u8>, n: nat) -> bool
    decreases n,
{
    if n == 0 {
        s.len() == 0
    } else {
        match read_bytes(s) {
            None => false,
            Some((b, rest)) => decode_view(b) is Ok && put_all_ok(rest, (n - 1) as nat),
        }
    }
}

/// A PUT_OBJECTS request's item count (at most one item per 4 bytes left)
/// and the bytes after it.
pub open spec fn put_request(p: Seq<u8>) -> Option<(nat, Seq<u8>)> {
    match read_fixed(p, 4) {
        None => None,
        Some((n, rest)) => if n <= rest.len() / 4 {
            Some((n, rest))
        } else {
            None
        },
    }
}

/// What the store holds under `k` after storing `bs` in order, each under
/// the key of its hash unless something is already there.
pub open spec fn after_puts(store: Listing, bs: Seq<Seq<u8>>, k: Seq<u8>) -> Option<Seq<u8>>
    decreases bs.len(),
{
    if bs.len() == 0 {
        lookup(store, k)
    } else {
        let prev = after_puts(store, bs.drop_last(), k);
        if prev is None && k == obj_key_spec(sha256(bs.last())) {
            Some(bs.last())
        } else {
            prev
        }
    }
}

/// The byte strings a PUT_OBJECTS request gets stored.
pub open spec fn put_stored(p: Seq<u8>) -> Seq<Seq<u8>> {
    match put_request(p) {
        Some((n, rest)) => put_accepted(rest, n),
        None => seq![],
    }
}

/// `n` object ids laid end to end at the front of `s`.
pub open spec fn ids_at(s: Seq<u8>, n: nat) -> Seq<Seq<u8>> {
    Seq::new(n, |i: int| s.subrange(32 * i, 32 * i + 32))
}

/// A FETCH request: where to start in the plan, the wants and the haves.
pub open spec fn fetch_request(p: Seq<u8>) -> Option<(nat, Seq<Seq<u8>>, Seq<Seq<u8>>)> {
    match read_fixed(p, 4) {
        None => None,
        Some((off, r1)) => match read_fixed(r1, 4) {
            None => None,
            Some((n, r2)) => if n > r2.len() / 32 {
                None
            } else {
                match read_fixed(r2.subrange((32 * n) as int, r2.len() as int), 4) {
                    None => None,
                    Some((m, r4)) => if r4.len() != 32 * m {
                        None
                    } else {
                        Some((off, ids_at(r2, n), ids_at(r4, m)))
                    },
                }
            },
        },
    }
}

/// A FETCH request that can be answered: well formed, and everything its
/// wants depend on is present and verifies.
pub open spec fn fetch_servable(store: Listing, p: Seq<u8>) -> bool {
    match fetch_request(p) {
        Some((_, w, _)) => forall|x: Seq<u8>| #[trigger] reachable_from(store, w, x) ==> object_at(store, x) is Some,
        None => false,
    }
}

/// The plan from `off` on (nothing if `off` is past its end).
pub open spec fn from_offset(pl: Seq<Seq<u8>>, off: nat) -> Seq<Seq<u8>> {
    if off >= pl.len() {
        seq![]
    } else {
        pl.subrange(off as int, pl.len() as int)
    }
}

/// How many of `objs` one response carries: the first always, then each
/// one while the total stays within `BATCH_BYTES`.
pub open spec fn batch_count(objs: Seq<Seq<u8>>, used: nat, count: nat) -> nat
    decreases objs.len(),
{
    if objs.len() == 0 {
        0
    } else if count > 0 && used + objs[0].len() > BATCH_BYTES {
        0
    } else {
        1 + batch_count(objs.drop_first(), used + objs[0].len(), count + 1)
    }
}

/// Byte strings, each preceded by its 32-bit length.
pub open spec fn frames(objs: Seq<Seq<u8>>) -> Seq<u8>
    decreases objs.len(),
{
    if objs.len() == 0 {
        seq![]
    } else {
        frames(objs.drop_last()) + le_bytes(objs.last().len() % 0x1_0000_0000, 4) + objs.last()
    }
}

/// The stored bytes of some objects.
pub open spec fn stored_bytes(store: Listing, ids: Seq<Seq<u8>>) -> Seq<Seq<u8>> {
    ids.map_values(|id: Seq<u8>| lookup(store, obj_key_spec(id))->Some_0)
}

/// The answer to FETCH for plan `pl` from `off`: the plan's length, how
/// many objects follow, and their bytes.
pub open spec fn fetch_response(store: Listing, pl: Seq<Seq<u8>>, off: nat) -> Seq<u8> {
    let objs = stored_bytes(store, from_offset(pl, off));
    let c = batch_count(objs, 0, 0);
    le_bytes(pl.len() % 0x1_0000_0000, 4) + le_bytes(c, 4) + frames(objs.subrange(0, c as int))
}

/// `x` is in the plan for `wants` and `haves`.
pub open spec fn planned(store: Listing, wants: Seq<Seq<u8>>, haves: Seq<Seq<u8>>, x: Seq<u8>) -> bool {
    reachable_from(store, wants, x) && !covered(store, haves, x)
}

/// Reads `n` ids.
fn read_ids(r: &mut R, n: usize) -> (v: Vec<ObjectId>)
    requires
        32 * n <= old(r)@.len(),
    ensures
        id_views(v@) == ids_at(old(r)@, n as nat),
        final(r)@ == old(r)@.subrange(32 * n, old(r)@.len() as int),
{
    let ghost s = r@;
    let mut v: Vec<ObjectId> = Vec::new();
    let mut i: usize = 0;
    while i < n
        invariant
            i <= n,
            32 * n <= s.len(),
            r@ == s.subrange(32 * i, s.len() as int),
            id_views(v@) == ids_at(s, n as nat).subrange(0, i as int),
        decreases n - i,
    {
        let ghost before = id_views(v@);
        let id = match r.id() {
            Some(id) => id,
            None => {
                assert(false);
                return v;
            },
        };
        v.push(id);
        proof {
            assert(id@ =~= s.subrange(32 * i, 32 * i + 32));
            assert(id_views(v@) =~= before.push(id@));
            assert(id_views(v@) =~= ids_at(s, n as nat).subrange(0, i + 1));
            assert(r@ =~= s.subrange(32 * (i + 1), s.len() as int));
        }
        i = i + 1;
    }
    assert(ids_at(s, n as nat).subrange(0, n as int) =~= ids_at(s, n as nat));
    v
}

impl Repo {
    /// LIST_REFS.
    fn serve_list_refs(&self, payload: &[u8]) -> (r: (bool, Vec<u8>))
        requires
            self.wf(),
        ensures
            r.0 <==> payload@.len() == 0,
            r.0 ==> r.1@ == refs_response(self@),
            !r.0 ==> r.1@ == encode_utf8("LIST_REFS takes no payload"@),
    {
        if payload.len() != 0 {
            return fail("LIST_REFS takes no payload");
        }
        let refs = self.refs();
        let ghost rv = refs@.map_values(|e: (String, ObjectId)| (e.0@, e.1@));
        let mut w = W::default();
        w.u32((refs.len() as u64 % 0x1_0000_0000) as u32);
        let ghost head = w.0@;
        let mut i: usize = 0;
        while i < refs.len()
            invariant
                i <= refs@.len(),
                rv == refs@.map_values(|e: (String, ObjectId)| (e.0@, e.1@)),
                w.0@ == head + ref_entries(rv.subrange(0, i as int)),
            decreases refs@.len() - i,
        {
            w.string(refs[i].0.as_str()).id(&refs[i].1);
            proof {
                let sub = rv.subrange(0, i + 1);
                assert(sub.drop_last() =~= rv.subrange(0, i as int));
                assert(sub.last() == rv[i as int]);
            }
            i = i + 1;
        }
        assert(rv.subrange(0, rv.len() as int) =~= rv);
        (true, w.0)
    }

    /// FETCH: the objects of the plan for the request's wants and haves,
    /// from its offset on, as many as fit in one batch.
    #[verifier::rlimit(40)]
    fn serve_fetch(&self, payload: &[u8]) -> (r: (bool, Vec<u8>))
        requires
            self.wf(),
        ensures
            r.0 <==> fetch_servable(self@, payload@),
            r.0 ==> (fetch_request(payload@) matches Some((off, w, h)) && exists|pl: Seq<Seq<u8>>|
                ids_sorted(pl) && (forall|x: Seq<u8>| #[trigger] pl.contains(x) <==> planned(self@, w, h, x)) && r.1@
                    == fetch_response(self@, pl, off)),
            fetch_request(payload@) is None ==> !r.0 && r.1@ == encode_utf8("malformed FETCH request"@),
    {
        let ghost st = self@;
        let ghost p = payload@;
        let mut r = R(payload);
        let offset = match r.u32() {
            Some(o) => o,
            None => return fail("malformed FETCH request"),
        };
        let ghost r1 = r@;
        let n = match r.count(32) {
            Some(n) => n,
            None => return fail("malformed FETCH request"),
        };
        let ghost r2 = r@;
        proof {
            crate::bytes::lemma_le_value_bytes(r1.subrange(0, 4));
            crate::bytes::lemma_byte_range_values();
        }
        let wants = read_ids(&mut r, n);
        let ghost r3 = r@;
        let m = match r.count(32) {
            Some(m) => m,
            None => return fail("malformed FETCH request"),
        };
        let ghost r4 = r@;
        proof {
            crate::bytes::lemma_le_value_bytes(r3.subrange(0, 4));
        }
        if r.0.len() < 32 * m {
            return fail("malformed FETCH request");
        }
        let haves = read_ids(&mut r, m);
        if !r.finished() {
            return fail("malformed FETCH request");
        }
        assert(fetch_request(p) == Some((offset as nat, id_views(wants@), id_views(haves@))));
        let all = match plan(self, wants.as_slice(), haves.as_slice()) {
            Ok(v) => v,
            Err(e) => {
                assert(!(forall|x: Seq<u8>| #[trigger] reachable_from(st, id_views(wants@), x) ==> object_at(st, x) is Some));
                let ghost x = choose|x: Seq<u8>| #[trigger] reachable_from(st, id_views(wants@), x) && object_at(st, x) is None;
                assert(reachable_from(st, id_views(wants@), x) && object_at(st, x) is None);
                assert(fetch_request(p) == Some((offset as nat, id_views(wants@), id_views(haves@))));
                proof {
                    let w = fetch_request(p)->Some_0.1;
                    assert(w == id_views(wants@));
                    assert(reachable_from(st, w, x));
                }
                assert(!fetch_servable(st, p));

                return fail(e.as_str());
            },
        };
        let ghost pl = id_views(all@);
        let ghost objs = stored_bytes(st, from_offset(pl, offset as nat));
        let mut body = W::default();
        let mut count: usize = 0;
        let mut used: usize = 0;
        let mut i: usize = offset as usize;
        assert(frames(objs.subrange(0, 0)) =~= Seq::<u8>::empty());
        assert(objs.subrange(0, objs.len() as int) =~= objs);
        while i < all.len()
            invariant
                st == self@,
                self.wf(),
                pl == id_views(all@),
                objs == stored_bytes(st, from_offset(pl, offset as nat)),
                forall|x: Seq<u8>| #[trigger] pl.contains(x) ==> reachable_from(st, id_views(wants@), x),
                forall|x: Seq<u8>| #[trigger] reachable_from(st, id_views(wants@), x) ==> object_at(st, x) is Some,
                i == offset + count,
                i < all@.len() ==> count <= objs.len(),
                i >= all@.len() ==> count == objs.len(),
                batch_count(objs, 0, 0) == count + batch_count(objs.subrange(count as int, objs.len() as int), used as nat, count as nat),
                body.0@ == frames(objs.subrange(0, count as int)),
                count == 0 ==> used == 0,
                count >= 1 ==> count <= used + 1,
                count >= 2 ==> used <= BATCH_BYTES,
            ensures
                batch_count(objs.subrange(count as int, objs.len() as int), used as nat, count as nat) == 0,
            decreases all@.len() - i,
        {
            if i >= all.len() {
                assert(objs.subrange(count as int, objs.len() as int) =~= Seq::<Seq<u8>>::empty());
            }
            assert(pl.contains(pl[i as int]));
            let ghost x = pl[i as int];
            let ghost o = object_at(st, x)->Some_0;
            assert(crate::repo::stored(st, x, o));
            let bytes = match self.raw(&all[i]) {
                Ok(b) => b,
                Err(_) => return fail("object became unreadable"),
            };
            let ghost rest = objs.subrange(count as int, objs.len() as int);
            assert(objs[count as int] == bytes@);
            assert(rest[0] == bytes@);
            assert(bytes@.len() >= 1);
            if count > 0 && (used > BATCH_BYTES || bytes.len() > BATCH_BYTES - used) {
                assert(batch_count(rest, used as nat, count as nat) == 0);
                break;
            }
            proof {
                assert(rest.drop_first() =~= objs.subrange(count + 1, objs.len() as int));
                let taken = objs.subrange(0, count + 1);
                assert(taken.drop_last() =~= objs.subrange(0, count as int));
                assert(taken.last() == bytes@);
            }
            used = used + bytes.len();
            count = count + 1;
            body.bytes(bytes.as_slice());
            i = i + 1;
        }
        let mut w = W::default();
        w.u32((all.len() as u64 % 0x1_0000_0000) as u32).u32(count as u32);
        append_bytes(&mut w.0, body.0.as_slice());
        proof {
            assert(batch_count(objs, 0, 0) == count);
            assert(w.0@ == fetch_response(st, pl, offset as nat));
            assert(forall|x: Seq<u8>| #[trigger] pl.contains(x) <==> planned(st, id_views(wants@), id_views(haves@), x));
        }
        (true, w.0)
    }

    /// PUT_OBJECTS: stores each object in turn, stopping at the first that
    /// is malformed or not a valid object.
    fn serve_put_objects(&mut self, payload: &[u8]) -> (r: (bool, Vec<u8>))
        requires
            old(self).wf(),
        ensures
            final(self).wf(),
            r.0 <==> (put_request(payload@) matches Some((n, rest)) && put_all_ok(rest, n)),
            r.0 ==> (put_request(payload@) matches Some((n, _)) && r.1@ == le_bytes(n, 4)),
            !r.0 ==> r.1@ == encode_utf8(put_refusal(payload@)),
            forall|k: Seq<u8>| #[trigger] lookup(final(self)@, k) == after_puts(old(self)@, put_stored(payload@), k),
    {
        let ghost st = self@;
        let mut r = R(payload);
        let n = match r.count(4) {
            Some(n) => n,
            None => {
                proof {
                    assert forall|k: Seq<u8>| #[trigger] lookup(self@, k) == after_puts(st, put_stored(payload@), k) by {
                        assert(put_stored(payload@) =~= Seq::<Seq<u8>>::empty());
                    }
                }
                return fail("malformed PUT_OBJECTS request");
            },
        };
        let ghost rest0 = r@;
        let ghost nn = n as nat;
        proof {
            crate::bytes::lemma_le_value_bytes(payload@.subrange(0, 4));
            crate::bytes::lemma_byte_range_values();
        }
        assert(put_request(payload@) == Some((nn, rest0)));
        let ghost mut acc: Seq<Seq<u8>> = seq![];
        let mut i: usize = 0;
        while i < n
            invariant
                self.wf(),
                st == old(self)@,
                i <= n,
                n < 0x1_0000_0000,
                put_stored(payload@) == acc + put_accepted(r@, (n - i) as nat),
                put_all_ok(rest0, nn) == put_all_ok(r@, (n - i) as nat),
                put_problem(rest0, nn) == put_problem(r@, (n - i) as nat),
                put_request(payload@) == Some((nn, rest0)),
                nn == n,
                forall|k: Seq<u8>| #[trigger] lookup(self@, k) == after_puts(st, acc, k),
            decreases n - i,
        {
            let ghost s0 = r@;
            let ghost m = (n - i) as nat;
            let bytes = match r.bytes() {
                Some(b) => b,
                None => {
                    assert(put_accepted(s0, m) =~= Seq::<Seq<u8>>::empty());
                    assert(acc + put_accepted(s0, m) =~= acc);
                    assert(put_stored(payload@) == acc);
                    return fail("malformed PUT_OBJECTS request");
                },
            };
            let ghost before = self@;
            match self.put_raw(bytes) {
                Ok(_) => {},
                Err(_) => {
                    assert(put_accepted(s0, m) =~= Seq::<Seq<u8>>::empty());
                    assert(acc + put_accepted(s0, m) =~= acc);
                    assert(put_stored(payload@) == acc);
                    assert(self@ == before);
                    return fail("rejected object: not the canonical encoding of a valid object");
                },
            }
            proof {
                let b = bytes@;
                let acc2 = acc.push(b);
                assert(acc2.drop_last() =~= acc);
                assert(put_accepted(s0, m) == seq![b] + put_accepted(r@, (m - 1) as nat));
                assert(acc + (seq![b] + put_accepted(r@, (m - 1) as nat)) =~= acc2 + put_accepted(r@, (m - 1) as nat));
                assert forall|k: Seq<u8>| #[trigger] lookup(self@, k) == after_puts(st, acc2, k) by {
                    assert(lookup(before, k) == after_puts(st, acc, k));
                }
                acc = acc2;
            }
            i = i + 1;
        }
        assert(put_accepted(r@, 0) =~= Seq::<Seq<u8>>::empty());
        assert(acc + put_accepted(r@, 0) =~= acc);
        if !r.finished() {
            return fail("trailing bytes in PUT_OBJECTS request");
        }
        let mut w = W::default();
        w.u32(n as u32);
        (true, w.0)
    }

    /// UPDATE_REF: moves a ref only as `update_allowed` says.
    fn serve_update_ref(&mut self, payload: &[u8]) -> (r: (bool, Vec<u8>))
        requires
            old(self).wf(),
        ensures
            final(self).wf(),
            r.0 <==> (update_request(payload@) matches Some((name, o, n, f)) && update_allowed(old(self)@, name, o, n, f)),
            r.0 ==> (update_request(payload@) matches Some((name, o, n, f)) && forall|k: Seq<u8>| #[trigger] lookup(final(self)@, k)
                == if k == ref_key(encode_utf8(name)) {
                Some(n)
            } else {
                lookup(old(self)@, k)
            }),
            !r.0 ==> final(self)@ == old(self)@,
            !r.0 ==> r.1@ == encode_utf8(update_refusal(old(self)@, payload@)),
    {
        let ghost st = self@;
        let ghost p = payload@;
        let mut r = R(payload);
        let name = match r.string() {
            Some(s) => s,
            None => return fail("malformed UPDATE_REF request"),
        };
        let ghost r1 = r@;
        let old = match r.u8() {
            Some(0) => None,
            Some(1) => match r.id() {
                Some(id) => Some(id),
                None => return fail("malformed UPDATE_REF request"),
            },
            _ => return fail("malformed UPDATE_REF request"),
        };
        proof {
            if old is Some {
                assert(r1.drop_first().subrange(32, r1.drop_first().len() as int) =~= r1.subrange(33, r1.len() as int));
                assert(r1.drop_first().subrange(0, 32) =~= r1.subrange(1, 33));
            }
        }
        let ghost r2 = r@;
        let new = match r.id() {
            Some(id) => id,
            None => return fail("malformed UPDATE_REF request"),
        };
        let f = match r.u8() {
            Some(b) => b,
            None => return fail("malformed UPDATE_REF request"),
        };
        if !r.finished() {
            return fail("malformed UPDATE_REF request");
        }
        let force = f == 1;
        proof {
            assert(r2.len() == 33);
            assert(r2.subrange(32, 33)[0] == r2[32]);
        }
        let ghost req = update_request(p);
        assert(req == Some((name@, match old { Some(o) => Some(o@), None => None::<Seq<u8>> }, new@, force)));
        let current = self.get_ref(name.as_str());
        let same = match (current, old) {
            (None, None) => true,
            (Some(c), Some(o)) => crate::bytes::bytes_eq(&c.0, &o.0),
            _ => false,
        };
        let ghost oldv = match old {
            Some(o) => Some(o@),
            None => None::<Seq<u8>>,
        };
        let ghost curv = match current {
            Some(c) => Some(c@),
            None => None::<Seq<u8>>,
        };
        assert(curv == ref_value(st, name@));
        assert(same == (curv == oldv));
        if !same {
            return fail("stale: the remote ref is not at the value you based this on");
        }
        let complete = self.is_complete(&new);
        proof {
            let mut roots = seq![new@];
            lemma_single_root(st, new@, roots);
            assert(complete == closure_complete(st, new@)) by {
                if complete {
                    assert forall|y: Seq<u8>| #[trigger] links_to(st, new@, y) implies object_at(st, y) is Some by {
                        assert(reachable_from(st, roots, y));
                    }
                }
                if closure_complete(st, new@) {
                    assert forall|y: Seq<u8>| #[trigger] reachable_from(st, roots, y) implies object_at(st, y) is Some by {
                        assert(links_to(st, new@, y));
                    }
                }
            }
        }
        if !complete {
            return fail("incomplete: the new commit's history is not fully present");
        }
        match current {
            Some(cur) => if !force {
                match self.is_ancestor(&cur, &new) {
                    Ok(true) => {},
                    Ok(false) => return fail("non-fast-forward: the remote has commits you lack"),
                    Err(_) => return fail("cannot compare histories: an ancestor is not a verified commit"),
                }
            },
            None => {},
        }
        match self.set_ref(name.as_str(), new) {
            Ok(()) => (true, Vec::new()),
            Err(_) => fail("cannot update ref: invalid ref name"),
        }
    }
}

/// What answering one request does: the answer (`ok` and `body`) and the
/// store after it (`after`), given the store before it (`before`).
pub open spec fn served(before: Listing, after: Listing, method: u8, payload: Seq<u8>, ok: bool, body: Seq<u8>) -> bool {
    &&& (method == LIST_REFS ==> after == before && (ok <==> payload.len() == 0) && (ok ==> body == refs_response(
            before,
        )) && (!ok ==> body == encode_utf8("LIST_REFS takes no payload"@)))
    &&& (method== FETCH ==> after == before && (ok <==> fetch_servable(before, payload)) && (ok ==> (fetch_request(
            payload,
        ) matches Some((off, w, h)) && exists|pl: Seq<Seq<u8>>|
            ids_sorted(pl) && (forall|x: Seq<u8>| #[trigger] pl.contains(x) <==> planned(before, w, h, x)) && body
                == fetch_response(before, pl, off))) && (fetch_request(payload) is None ==> body == encode_utf8(
            "malformed FETCH request"@,
        )))
    &&& (method== PUT_OBJECTS ==> (ok <==> (put_request(payload) matches Some((n, rest)) && put_all_ok(rest, n))) && (ok ==> (put_request(
            payload,
        ) matches Some((n, _)) && body == le_bytes(n, 4))) && (!ok ==> body == encode_utf8(put_refusal(payload))) && forall|k: Seq<u8>| #[trigger] lookup(after, k) == after_puts(
            before,
            put_stored(payload),
            k,
        ))
    &&& (method== UPDATE_REF ==> (ok <==> (update_request(payload) matches Some((name, o, n, f)) && update_allowed(
            before,
            name,
            o,
            n,
            f,
        ))) && (ok ==> (update_request(payload) matches Some((name, o, n, f)) && forall|k: Seq<u8>| #[trigger] lookup(
            after,
            k,
        ) == if k == ref_key(encode_utf8(name)) {
            Some(n)
        } else {
            lookup(before, k)
        })) && (!ok ==> after == before && body == encode_utf8(update_refusal(before, payload))))
    &&& (method> UPDATE_REF ==> !ok && after == before && body == encode_utf8("unknown method "@) + crate::text::decimal(method as nat))
}

/// Answers one request. LIST_REFS lists the refs; FETCH sends a batch of
/// the objects the wants need and the haves do not cover; PUT_OBJECTS
/// stores valid objects; UPDATE_REF moves a ref only when
/// `update_allowed`. Anything else is refused. Only PUT_OBJECTS and an
/// accepted UPDATE_REF change the repository.
pub fn serve(repo: &mut Repo, method: u8, payload: &[u8]) -> (r: (bool, Vec<u8>))
    requires
        old(repo).wf(),
    ensures
        final(repo).wf(),
        served(old(repo)@, final(repo)@, method, payload@, r.0, r.1@),
{
    if method == LIST_REFS {
        repo.serve_list_refs(payload)
    } else if method == FETCH {
        repo.serve_fetch(payload)
    } else if method == PUT_OBJECTS {
        repo.serve_put_objects(payload)
    } else if method == UPDATE_REF {
        repo.serve_update_ref(payload)
    } else {
        let mut msg: Vec<u8> = Vec::new();
        append_bytes(&mut msg, "unknown method ".as_bytes());
        crate::text::push_decimal(&mut msg, method as usize);
        (false, msg)
    }
}

} // verus!
