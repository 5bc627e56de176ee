//! The client side of synchronization: `fetch`, `push` and `pull` over any
//! `Remote`. A remote is untrusted. Everything received is validated as a
//! canonical object and stored under the id *we compute*, and refs only
//! move once the complete history behind them is verifiably present, so a
//! lying, truncating or corrupting peer can waste time but cannot leave a
//! ref pointing at something missing.

use vstd::prelude::*;
use vstd::string::StringSliceAdditionalSpecFns;
use vstd::utf8::{decode_utf8, encode_utf8, encode_utf8_decode_utf8, encode_utf8_valid_utf8, valid_utf8};

use crate::bytes::{copy_range, le_bytes, lex_lt, string_from_utf8};
use crate::text::lossy_text;
use crate::object::{id_from, ids_bytes, ObjectId};
use crate::repo::{Repo, RepoError};
use crate::reach::{link_path, links_of, links_to, object_at, reachable_from};
use crate::server::{after_puts, closure_complete, put_accepted, ref_value, serve, served};
use crate::repo::{obj_key_spec, ref_key};
use crate::trees::added_hashed;
use crate::digest::sha256;
use crate::object::decode_view;
use crate::snapshot::{has_path, lookup, path_index, Files, Listing};
use crate::wire::{after_failed_bytes, read_bytes, read_fixed, read_string, R, W};
use crate::graph::{id_views, select_ids, set_ids};
use crate::server::{id_keys, lemma_single_root};

verus! {

/// Why a synchronization failed.
#[derive(Debug)]
pub enum SyncError {
    /// The remote answered, but refused.
    Remote(String),
    /// The network gave up (timeout or retries exhausted).
    Transport(String),
    /// The remote's answer does not follow the protocol.
    Protocol(&'static str),
    /// The remote did not deliver the complete history of this commit.
    Incomplete(ObjectId),
    /// The local repository refused.
    Repo(RepoError),
}

/// The requests sent to a remote, oldest first: method, payload, and
/// whether the remote answered with a yes.
pub type RequestLog = Seq<(u8, Seq<u8>, bool)>;

/// A peer we can send requests to and get responses from. What it answers
/// is not trusted.
pub trait Remote {
    /// The requests sent to this remote so far, oldest first: each one's
    /// method and payload, and whether the remote answered it with a yes.
    /// An implementation keeps this log (in a ghost field).
    spec fn sent(&self) -> RequestLog;

    /// Sends one request. Whatever comes back, it is recorded as sent,
    /// with whether it was answered with a yes.
    fn call(&mut self, method: u8, payload: &[u8]) -> (r: Result<(bool, Vec<u8>), SyncError>)
        ensures
            final(self).sent() == old(self).sent().push((method, payload@, accepted(r))),
    ;
}

/// The remote answered, and with a yes.
pub open spec fn accepted(r: Result<(bool, Vec<u8>), SyncError>) -> bool {
    r matches Ok((ok, _)) && ok
}

/// The requests of a log, without their answers.
pub open spec fn requests(log: Seq<(u8, Seq<u8>, bool)>) -> Seq<(u8, Seq<u8>)> {
    log.map_values(|e: (u8, Seq<u8>, bool)| (e.0, e.1))
}

/// Every request of `log` was answered with a yes.
pub open spec fn all_accepted(log: Seq<(u8, Seq<u8>, bool)>) -> bool {
    forall|i: int| 0 <= i < log.len() ==> (#[trigger] log[i]).2
}

/// Every request of `log` but the last was answered with a yes: no request
/// follows a refusal or a failed call.
pub open spec fn stops_at_refusal(log: Seq<(u8, Seq<u8>, bool)>) -> bool {
    forall|i: int| 0 <= i < log.len() - 1 ==> (#[trigger] log[i]).2
}

/// A remote that is just another repository in this process (no network).
pub struct Direct<'a>(pub &'a mut Repo, pub Ghost<Seq<(u8, Seq<u8>, bool)>>);

impl<'a> Direct<'a> {
    /// A remote serving `repo`, with nothing sent yet.
    pub fn new(repo: &'a mut Repo) -> (d: Direct<'a>)
        ensures
            d.sent() == Seq::<(u8, Seq<u8>, bool)>::empty(),
            *d.0 == *old(repo),
    {
        Direct(repo, Ghost(Seq::empty()))
    }
}

impl<'a> Remote for Direct<'a> {
    open spec fn sent(&self) -> RequestLog {
        self.1@
    }

    fn call(&mut self, method: u8, payload: &[u8]) -> (r: Result<(bool, Vec<u8>), SyncError>)
        ensures
            final(self).0.wf(),
            r matches Ok((ok, body)) && served((*old(self).0)@, (*final(self).0)@, method, payload@, ok, body@),
    {
        self.0.check_sorted();
        let r = serve(self.0, method, payload);
        self.1 = Ghost(self.1@.push((method, payload@, r.0)));
        Ok(r)
    }
}

/// What a remote's reply means: its body if it answered, its refusal's
/// text as `SyncError::Remote` if it refused, and the error if the call
/// failed.
pub fn reply_body(reply: Result<(bool, Vec<u8>), SyncError>) -> (r: Result<Vec<u8>, SyncError>)
    ensures
        match reply {
            Err(e) => r == Err::<Vec<u8>, SyncError>(e),
            Ok((ok, body)) => if ok {
                r == Ok::<Vec<u8>, SyncError>(body)
            } else {
                r matches Err(SyncError::Remote(t)) && t@ == lossy_text(body@) && (valid_utf8(body@) ==> t@ == decode_utf8(body@))
            },
        },
{
    let (ok, body) = match reply {
        Ok(x) => x,
        Err(e) => return Err(e),
    };
    if ok {
        Ok(body)
    } else {
        Err(SyncError::Remote(crate::text::utf8_lossy(body.as_slice())))
    }
}

/// Calls the remote; a refusal becomes `SyncError::Remote` with its text.
fn ok_call<T: Remote>(remote: &mut T, method: u8, payload: &[u8]) -> (r: Result<Vec<u8>, SyncError>)
    ensures
        final(remote).sent() == old(remote).sent().push((method, payload@, r is Ok)),
{
    reply_body(remote.call(method, payload))
}

/// The refs in a LIST_REFS answer, in the order sent: a 32-bit count (at
/// most one ref per 34 bytes left), then each name and id, then nothing.
pub open spec fn ref_list(body: Seq<u8>) -> Option<Seq<(Seq<char>, Seq<u8>)>> {
    match read_fixed(body, 4) {
        None => None,
        Some((n, rest)) => if n > rest.len() / 34 {
            None
        } else {
            ref_items(rest, n)
        },
    }
}

/// `n` names and ids at the front of `s`, and nothing after them.
pub open spec fn ref_items(s: Seq<u8>, n: nat) -> Option<Seq<(Seq<char>, Seq<u8>)>>
    decreases n,
{
    if n == 0 {
        if s.len() == 0 {
            Some(seq![])
        } else {
            None
        }
    } else {
        match read_string(s) {
            None => None,
            Some((name, r1)) => if r1.len() < 32 {
                None
            } else {
                match ref_items(r1.subrange(32, r1.len() as int), (n - 1) as nat) {
                    Some(rest) => Some(seq![(name, r1.subrange(0, 32))] + rest),
                    None => None,
                }
            },
        }
    }
}

/// The id listed last under `name`.
pub open spec fn last_listed(l: Seq<(Seq<char>, Seq<u8>)>, name: Seq<char>) -> Option<Seq<u8>>
    decreases l.len(),
{
    if l.len() == 0 {
        None
    } else if l.last().0 == name {
        Some(l.last().1)
    } else {
        last_listed(l.drop_last(), name)
    }
}

/// Names and ids, as values.
pub open spec fn named_ids(v: Seq<(String, ObjectId)>) -> Seq<(Seq<char>, Seq<u8>)> {
    v.map_values(|e: (String, ObjectId)| (e.0@, e.1@))
}

/// Names in strictly ascending order of their UTF-8 bytes.
pub open spec fn names_sorted(v: Seq<(Seq<char>, Seq<u8>)>) -> bool {
    forall|i: int, j: int| 0 <= i < j < v.len() ==> lex_lt(encode_utf8(#[trigger] v[i].0), encode_utf8(#[trigger] v[j].0))
}

/// The id listed last under a name whose UTF-8 bytes are `k`.
pub open spec fn last_by_key(l: Seq<(Seq<char>, Seq<u8>)>, k: Seq<u8>) -> Option<Seq<u8>>
    decreases l.len(),
{
    if l.len() == 0 {
        None
    } else if encode_utf8(l.last().0) == k {
        Some(l.last().1)
    } else {
        last_by_key(l.drop_last(), k)
    }
}

/// Looking a name up by its bytes is looking it up by itself.
proof fn lemma_last_by_key(l: Seq<(Seq<char>, Seq<u8>)>, n: Seq<char>)
    ensures
        last_by_key(l, encode_utf8(n)) == last_listed(l, n),
    decreases l.len(),
{
    if l.len() > 0 {
        lemma_last_by_key(l.drop_last(), n);
        encode_utf8_decode_utf8(l.last().0);
        encode_utf8_decode_utf8(n);
    }
}

/// A key listed last somewhere is the encoding of a listed name, with a
/// 32-byte id.
proof fn lemma_last_by_key_found(l: Seq<(Seq<char>, Seq<u8>)>, k: Seq<u8>)
    requires
        forall|i: int| 0 <= i < l.len() ==> (#[trigger] l[i]).1.len() == 32,
        last_by_key(l, k) is Some,
    ensures
        exists|i: int| 0 <= i < l.len() && encode_utf8(#[trigger] l[i].0) == k,
        last_by_key(l, k)->Some_0.len() == 32,
    decreases l.len(),
{
    if encode_utf8(l.last().0) == k {
        assert(encode_utf8(l[l.len() - 1].0) == k);
    } else {
        let d = l.drop_last();
        assert forall|i: int| 0 <= i < d.len() implies (#[trigger] d[i]).1.len() == 32 by {
            assert(d[i] == l[i]);
        }
        lemma_last_by_key_found(d, k);
        let i = choose|i: int| 0 <= i < d.len() && encode_utf8(#[trigger] d[i].0) == k;
        assert(l[i] == d[i]);
    }
}

/// Parses a LIST_REFS answer. A name listed twice keeps its last id; the
/// result is sorted by name.
pub fn parse_refs(body: &[u8]) -> (r: Result<Vec<(String, ObjectId)>, SyncError>)
    ensures
        r is Ok <==> ref_list(body@) is Some,
        r matches Ok(v) ==> names_sorted(named_ids(v@)) && forall|n: Seq<char>, id: Seq<u8>| #[trigger] named_ids(v@).contains((n, id))
            <==> last_listed(ref_list(body@)->Some_0, n) == Some(id),
{
    let mut r = R(body);
    let n = match r.count(34) {
        Some(n) => n,
        None => return Err(SyncError::Protocol("malformed LIST_REFS response")),
    };
    let ghost rest0 = r@;
    proof {
        crate::bytes::lemma_le_value_bytes(body@.subrange(0, 4));
        crate::bytes::lemma_byte_range_values();
    }
    assert(ref_list(body@) == ref_items(rest0, n as nat));
    let mut map = Files::new();
    let ghost mut acc: Seq<(Seq<char>, Seq<u8>)> = seq![];
    let mut i: usize = 0;
    while i < n
        invariant
            i <= n,
            map.wf(),
            ref_list(body@) == ref_items(rest0, n as nat),
            ref_items(rest0, n as nat) == match ref_items(r@, (n - i) as nat) {
                Some(t) => Some(acc + t),
                None => None::<Seq<(Seq<char>, Seq<u8>)>>,
            },
            forall|j: int| 0 <= j < acc.len() ==> (#[trigger] acc[j]).1.len() == 32,
            forall|k: Seq<u8>| #[trigger] lookup(map@, k) == last_by_key(acc, k),
        decreases n - i,
    {
        let ghost s0 = r@;
        let name = match r.string() {
            Some(s) => s,
            None => return Err(SyncError::Protocol("malformed LIST_REFS response")),
        };
        let ghost r1 = r@;
        let id = match r.id() {
            Some(id) => id,
            None => return Err(SyncError::Protocol("malformed LIST_REFS response")),
        };
        let nb = name.as_str().as_bytes();
        let key = copy_range(nb, 0, nb.len());
        let val = copy_range(&id.0, 0, 32);
        proof {
            assert(nb@.subrange(0, nb@.len() as int) =~= encode_utf8(name@));
            assert(id@.subrange(0, 32) =~= id@);
            let e = (name@, id@);
            assert(r1.subrange(0, 32) =~= id@);
            let acc2 = acc.push(e);
            assert(acc2.drop_last() =~= acc);
            match ref_items(r@, (n - i - 1) as nat) {
                Some(t) => {
                    assert(acc + (seq![e] + t) =~= acc2 + t);
                },
                None => {},
            }
        }
        map.insert(key, val);
        proof {
            let e = (name@, id@);
            acc = acc.push(e);
        }
        i = i + 1;
    }
    if !r.finished() {
        return Err(SyncError::Protocol("malformed LIST_REFS response"));
    }
    assert(ref_items(r@, 0) == Some(Seq::<(Seq<char>, Seq<u8>)>::empty()));
    assert(acc + Seq::<(Seq<char>, Seq<u8>)>::empty() =~= acc);
    let ghost list = acc;
    let es = map.entries();
    let mut out: Vec<(String, ObjectId)> = Vec::new();
    let mut j: usize = 0;
    while j < es.len()
        invariant
            j <= es@.len(),
            crate::snapshot::entry_views(es@) == map@,
            map.wf(),
            forall|k: Seq<u8>| #[trigger] lookup(map@, k) == last_by_key(list, k),
            forall|q: int| 0 <= q < list.len() ==> (#[trigger] list[q]).1.len() == 32,
            named_ids(out@) == map@.subrange(0, j as int).map_values(|e: (Seq<u8>, Seq<u8>)| (decode_utf8(e.0), e.1)),
        decreases es@.len() - j,
    {
        let ghost k = map@[j as int].0;
        let ghost v = map@[j as int].1;
        proof {
            crate::snapshot::lemma_lookup_at(map@, j as int);
            lemma_last_by_key_found(list, k);
            let q = choose|q: int| 0 <= q < list.len() && encode_utf8(#[trigger] list[q].0) == k;
            encode_utf8_valid_utf8(list[q].0);
        }
        let kb = copy_range(es[j].0.as_slice(), 0, es[j].0.len());
        assert(es@[j as int].0@.subrange(0, es@[j as int].0@.len() as int) =~= k);
        let name = match string_from_utf8(kb) {
            Some(s) => s,
            None => {
                assert(false);
                return Err(SyncError::Protocol("malformed LIST_REFS response"));
            },
        };
        assert(es@[j as int].1@ == v);
        let id = id_from(es[j].1.as_slice(), 0);
        assert(v.subrange(0, 32) =~= v);
        let ghost before = named_ids(out@);
        out.push((name, id));
        proof {
            assert(named_ids(out@) =~= before.push((decode_utf8(k), v)));
            assert(map@.subrange(0, j + 1).map_values(|e: (Seq<u8>, Seq<u8>)| (decode_utf8(e.0), e.1)) =~= map@.subrange(
                0,
                j as int,
            ).map_values(|e: (Seq<u8>, Seq<u8>)| (decode_utf8(e.0), e.1)).push((decode_utf8(k), v)));
        }
        j = j + 1;
    }
    proof {
        let nv = named_ids(out@);
        let l = map@;
        assert(l.subrange(0, l.len() as int) =~= l);
        assert forall|q: int| 0 <= q < l.len() implies encode_utf8(decode_utf8(#[trigger] l[q].0)) == l[q].0 by {
            crate::snapshot::lemma_lookup_at(l, q);
            lemma_last_by_key_found(list, l[q].0);
            let p = choose|p: int| 0 <= p < list.len() && encode_utf8(#[trigger] list[p].0) == l[q].0;
            encode_utf8_decode_utf8(list[p].0);
        }
        assert forall|a: int, b: int| 0 <= a < b < nv.len() implies lex_lt(encode_utf8(#[trigger] nv[a].0), encode_utf8(#[trigger] nv[b].0)) by {
            assert(nv[a].0 == decode_utf8(l[a].0));
            assert(nv[b].0 == decode_utf8(l[b].0));
        }
        assert forall|nm: Seq<char>, id: Seq<u8>| #[trigger] nv.contains((nm, id)) <==> last_listed(list, nm) == Some(id) by {
            lemma_last_by_key(list, nm);
            encode_utf8_decode_utf8(nm);
            if nv.contains((nm, id)) {
                let q = choose|q: int| 0 <= q < nv.len() && nv[q] == (nm, id);
                assert(nv[q] == (decode_utf8(l[q].0), l[q].1));
                crate::snapshot::lemma_lookup_at(l, q);
                assert(encode_utf8(nm) == l[q].0);
            }
            if last_listed(list, nm) == Some(id) {
                assert(lookup(l, encode_utf8(nm)) == Some(id));
                let q = path_index(l, encode_utf8(nm));
                crate::snapshot::lemma_lookup_at(l, q);
                assert(nv[q] == (decode_utf8(l[q].0), l[q].1));
            }
        }
    }
    Ok(out)
}

/// The refs a remote lists, sorted by name: what some well-formed
/// LIST_REFS answer lists, each name with the id listed last under it.
/// Which answer that is, is up to the remote.
pub fn list_refs<T: Remote>(remote: &mut T) -> (r: Result<Vec<(String, ObjectId)>, SyncError>)
    ensures
        final(remote).sent() == old(remote).sent().push((crate::wire::LIST_REFS, Seq::<u8>::empty(), final(remote).sent().last().2)),
        r is Ok ==> final(remote).sent().last().2,
        r matches Ok(v) ==> names_sorted(named_ids(v@)),
        r matches Ok(v) ==> exists|body: Seq<u8>| #[trigger] ref_list(body) is Some && forall|n: Seq<char>, id: Seq<u8>|
            #[trigger] named_ids(v@).contains((n, id)) <==> last_listed(ref_list(body)->Some_0, n) == Some(id),
{
    let nothing: Vec<u8> = Vec::new();
    let body = match ok_call(remote, crate::wire::LIST_REFS, nothing.as_slice()) {
        Ok(b) => b,
        Err(e) => return Err(e),
    };
    parse_refs(body.as_slice())
}

/// `k` was empty before and now holds a valid object stored under its own
/// id.
pub open spec fn added_object(before: Listing, after: Listing, k: Seq<u8>) -> bool {
    &&& lookup(before, k) is None
    &&& lookup(after, k) is Some
    &&& k == obj_key_spec(sha256(lookup(after, k)->Some_0))
    &&& decode_view(lookup(after, k)->Some_0) is Ok
}

/// `k` is a ref key holding an id whose whole history is present.
pub open spec fn complete_ref(after: Listing, k: Seq<u8>) -> bool {
    &&& k.len() > 0
    &&& k[0] == 114
    &&& lookup(after, k) is Some
    &&& lookup(after, k)->Some_0.len() == 32
    &&& closure_complete(after, lookup(after, k)->Some_0)
}

/// What synchronizing may do to a store: add valid objects under their
/// own ids (never replace one), and point refs only at ids whose whole
/// history is present.
pub open spec fn grows_safely(before: Listing, after: Listing) -> bool {
    forall|k: Seq<u8>| #[trigger] lookup(after, k) != lookup(before, k) ==> added_object(before, after, k) || complete_ref(after, k)
}

/// What a pull may do to a store: add entries under the hash of their
/// bytes (never replace one), and move refs.
pub open spec fn adds_or_moves_refs(before: Listing, after: Listing) -> bool {
    forall|k: Seq<u8>| #[trigger] lookup(after, k) != lookup(before, k) ==> added_hashed(before, after, k) || (k.len() > 0
        && k[0] == 114)
}

/// Setting a ref, or refusing to, only touches that ref's key.
proof fn lemma_set_ref_moves(before: Listing, after: Listing, name: Seq<u8>)
    requires
        forall|k: Seq<u8>| #[trigger] lookup(after, k) != lookup(before, k) ==> k == ref_key(name),
    ensures
        adds_or_moves_refs(before, after),
{
    assert forall|k: Seq<u8>| #[trigger] lookup(after, k) != lookup(before, k) implies added_hashed(before, after, k) || (k.len()
        > 0 && k[0] == 114) by {
        assert(k == ref_key(name));
        assert(k[0] == 114);
    }
}

proof fn lemma_adds_or_moves_trans(a: Listing, b: Listing, c: Listing)
    requires
        adds_or_moves_refs(a, b),
        adds_or_moves_refs(b, c),
    ensures
        adds_or_moves_refs(a, c),
{
    assert forall|k: Seq<u8>| #[trigger] lookup(c, k) != lookup(a, k) implies added_hashed(a, c, k) || (k.len() > 0 && k[0] == 114) by {
        if lookup(b, k) != lookup(a, k) {
            assert(added_hashed(a, b, k) || (k.len() > 0 && k[0] == 114));
        } else {
            assert(lookup(c, k) != lookup(b, k));
            assert(added_hashed(b, c, k) || (k.len() > 0 && k[0] == 114));
        }
    }
}

/// Every object `before` holds, `after` holds unchanged.
pub open spec fn keeps_objects(before: Listing, after: Listing) -> bool {
    forall|x: Seq<u8>| #[trigger] object_at(before, x) is Some ==> lookup(after, obj_key_spec(x)) == lookup(before, obj_key_spec(x))
}

/// A complete history stays complete while the objects in it stay.
proof fn lemma_closure_kept(st1: Listing, st2: Listing, h: Seq<u8>)
    requires
        closure_complete(st1, h),
        keeps_objects(st1, st2),
    ensures
        closure_complete(st2, h),
{
    assert forall|y: Seq<u8>| #[trigger] links_to(st2, h, y) implies object_at(st2, y) is Some by {
        let path = choose|path: Seq<Seq<u8>>| #[trigger] link_path(st2, path) && path[0] == h && path.last() == y;
        lemma_path_kept(st1, st2, h, path, path.len() - 1);
        assert(object_at(st1, y) is Some);
        assert(lookup(st2, obj_key_spec(y)) == lookup(st1, obj_key_spec(y)));
    }
}

proof fn lemma_path_kept(st1: Listing, st2: Listing, h: Seq<u8>, path: Seq<Seq<u8>>, k: int)
    requires
        closure_complete(st1, h),
        keeps_objects(st1, st2),
        link_path(st2, path),
        path[0] == h,
        0 <= k < path.len(),
    ensures
        links_to(st1, h, path[k]),
    decreases k,
{
    if k == 0 {
        assert(link_path(st1, seq![h]));
    } else {
        lemma_path_kept(st1, st2, h, path, k - 1);
        let x = path[k - 1];
        assert(object_at(st1, x) is Some);
        assert(lookup(st2, obj_key_spec(x)) == lookup(st1, obj_key_spec(x)));
        assert(object_at(st2, x) == object_at(st1, x));
        assert(links_of(st2, x) == links_of(st1, x));
        assert(links_of(st2, path[k - 1]).contains(path[k]));
        crate::reach::lemma_links_step(st1, h, x, path[k]);
    }
}

/// A safe change keeps every object.
proof fn lemma_safe_keeps(before: Listing, after: Listing)
    requires
        grows_safely(before, after),
    ensures
        keeps_objects(before, after),
{
    assert forall|x: Seq<u8>| #[trigger] object_at(before, x) is Some implies lookup(after, obj_key_spec(x)) == lookup(before, obj_key_spec(x)) by {
        let k = obj_key_spec(x);
        assert(k[0] == 111);
    }
}

/// Two safe changes make a safe change.
proof fn lemma_safe_trans(a: Listing, b: Listing, c: Listing)
    requires
        grows_safely(a, b),
        grows_safely(b, c),
    ensures
        grows_safely(a, c),
{
    lemma_safe_keeps(b, c);
    assert forall|k: Seq<u8>| #[trigger] lookup(c, k) != lookup(a, k) implies added_object(a, c, k) || complete_ref(c, k) by {
        if lookup(c, k) == lookup(b, k) {
            if complete_ref(b, k) {
                lemma_closure_kept(b, c, lookup(b, k)->Some_0);
            }
        }
    }
}

/// Whether everything `id` depends on is here.
fn complete_here(local: &Repo, id: &ObjectId) -> (r: bool)
    requires
        local.wf(),
    ensures
        r == closure_complete(local@, id@),
{
    let r = local.is_complete(id);
    proof {
        let st = local@;
        let roots = seq![id@];
        lemma_single_root(st, id@, roots);
        if r {
            assert forall|y: Seq<u8>| #[trigger] links_to(st, id@, y) implies object_at(st, y) is Some by {
                assert(reachable_from(st, roots, y));
            }
        }
        if closure_complete(st, id@) {
            assert forall|y: Seq<u8>| #[trigger] reachable_from(st, roots, y) implies object_at(st, y) is Some by {
                assert(links_to(st, id@, y));
            }
        }
    }
    r
}

/// What a fetch did.
#[derive(Debug, Clone, PartialEq, Eq)]
pub struct FetchReport {
    pub objects: usize,
    pub bytes: usize,
    /// Remote-tracking refs created or moved.
    pub updated: Vec<(String, ObjectId)>,
}

/// Appends a 32-bit count (the low 32 bits of it) and the ids.
fn write_ids(w: &mut W, ids: &Vec<ObjectId>)
    ensures
        final(w).0@ == old(w).0@ + le_bytes(ids@.len() % 0x1_0000_0000, 4) + ids_bytes(id_views(ids@)),
{
    w.u32((ids.len() as u64 % 0x1_0000_0000) as u32);
    let ghost head = w.0@;
    let mut i: usize = 0;
    assert(id_views(ids@).take(0) =~= Seq::<Seq<u8>>::empty());
    while i < ids.len()
        invariant
            i <= ids@.len(),
            w.0@ == head + ids_bytes(id_views(ids@).take(i as int)),
        decreases ids@.len() - i,
    {
        w.id(&ids[i]);
        proof {
            lemma_ids_bytes_push(id_views(ids@).take(i as int), ids@[i as int]@);
            assert(id_views(ids@).take(i + 1) =~= id_views(ids@).take(i as int).push(ids@[i as int]@));
        }
        i = i + 1;
    }
    assert(id_views(ids@).take(ids@.len() as int) =~= id_views(ids@));
}

/// Ids laid end to end, one more at the end.
proof fn lemma_ids_bytes_push(s: Seq<Seq<u8>>, x: Seq<u8>)
    ensures
        ids_bytes(s.push(x)) == ids_bytes(s) + x,
    decreases s.len(),
{
    if s.len() == 0 {
        assert(s.push(x).drop_first() =~= Seq::<Seq<u8>>::empty());
        assert(ids_bytes(Seq::<Seq<u8>>::empty()) =~= Seq::<u8>::empty());
        assert(s.push(x)[0] == x);
        assert(ids_bytes(s.push(x)) =~= x);
    } else {
        lemma_ids_bytes_push(s.drop_first(), x);
        assert(s.push(x).drop_first() =~= s.drop_first().push(x));
        assert(s.push(x)[0] == s[0]);
    }
}

/// All `n` byte strings at the front of `s` read and are valid objects
/// (whatever follows them).
pub open spec fn batch_ok(s: Seq<u8>, n: nat) -> bool
    decreases n,
{
    if n == 0 {
        true
    } else {
        match read_bytes(s) {
            None => false,
            Some((b, rest)) => decode_view(b) is Ok && batch_ok(rest, (n - 1) as nat),
        }
    }
}

/// Reading `n` objects from `s` stops at a byte string that is cut short.
pub open spec fn batch_cut(s: Seq<u8>, n: nat) -> bool
    decreases n,
{
    if n == 0 {
        false
    } else {
        match read_bytes(s) {
            None => true,
            Some((b, rest)) => decode_view(b) is Ok && batch_cut(rest, (n - 1) as nat),
        }
    }
}

/// Where a reader of `n` objects from `s` stands when it is done or stops.
pub open spec fn batch_end(s: Seq<u8>, n: nat) -> Seq<u8>
    decreases n,
{
    if n == 0 {
        s
    } else {
        match read_bytes(s) {
            None => after_failed_bytes(s, 4),
            Some((b, rest)) => if decode_view(b) is Ok {
                batch_end(rest, (n - 1) as nat)
            } else {
                rest
            },
        }
    }
}

/// The total length of some byte strings.
pub open spec fn total_len(bs: Seq<Seq<u8>>) -> nat
    decreases bs.len(),
{
    if bs.len() == 0 {
        0
    } else {
        total_len(bs.drop_last()) + bs.last().len()
    }
}

/// `a + b`, held at `usize::MAX`.
pub open spec fn sat_add(a: int, b: int) -> int {
    if a + b > usize::MAX {
        usize::MAX as int
    } else {
        a + b
    }
}

/// Stores the objects of one FETCH answer (after its two counts), each
/// validated and stored under the id computed here, and counts them.
fn store_batch(local: &mut Repo, r: &mut R, count: u32, report: &mut FetchReport) -> (res: Result<(), SyncError>)
    requires
        old(local).wf(),
    ensures
        final(local).wf(),
        grows_safely(old(local)@, final(local)@),
        forall|k: Seq<u8>| #[trigger] lookup(final(local)@, k) == after_puts(old(local)@, put_accepted(old(r)@, count as nat), k),
        final(r)@ == batch_end(old(r)@, count as nat),
        res is Ok <==> batch_ok(old(r)@, count as nat),
        res matches Err(e) ==> (e is Protocol <==> batch_cut(old(r)@, count as nat)),
        res matches Err(e) ==> (e is Protocol || e matches SyncError::Repo(RepoError::Object(_))),
        final(report).objects == sat_add(old(report).objects as int, put_accepted(old(r)@, count as nat).len() as int),
        final(report).bytes == sat_add(old(report).bytes as int, total_len(put_accepted(old(r)@, count as nat)) as int),
        final(report).updated == old(report).updated,
{
    let ghost st = local@;
    let ghost s_start = r@;
    let ghost o0 = report.objects as int;
    let ghost b0 = report.bytes as int;
    let ghost mut acc: Seq<Seq<u8>> = seq![];
    let mut k: u32 = 0;
    while k < count
        invariant
            local.wf(),
            st == old(local)@,
            s_start == old(r)@,
            o0 == old(report).objects,
            b0 == old(report).bytes,
            k <= count,
            grows_safely(st, local@),
            report.updated == old(report).updated,
            put_accepted(s_start, count as nat) == acc + put_accepted(r@, (count - k) as nat),
            batch_ok(s_start, count as nat) == batch_ok(r@, (count - k) as nat),
            batch_cut(s_start, count as nat) == batch_cut(r@, (count - k) as nat),
            batch_end(s_start, count as nat) == batch_end(r@, (count - k) as nat),
            forall|key: Seq<u8>| #[trigger] lookup(local@, key) == after_puts(st, acc, key),
            report.objects == sat_add(o0, acc.len() as int),
            report.bytes == sat_add(b0, total_len(acc) as int),
        decreases count - k,
    {
        let ghost s0 = r@;
        let ghost m = (count - k) as nat;
        let bytes = match r.bytes() {
            Some(b) => b,
            None => {
                assert(put_accepted(s0, m) =~= Seq::<Seq<u8>>::empty());
                assert(acc + put_accepted(s0, m) =~= acc);
                return Err(SyncError::Protocol("malformed FETCH response"));
            },
        };
        let ghost before = local@;
        match local.put_raw(bytes) {
            Ok(_) => {},
            Err(e) => {
                assert(put_accepted(s0, m) =~= Seq::<Seq<u8>>::empty());
                assert(acc + put_accepted(s0, m) =~= acc);
                assert(local@ == before);
                return Err(SyncError::Repo(e));
            },
        }
        proof {
            assert forall|key: Seq<u8>| #[trigger] lookup(local@, key) != lookup(before, key) implies added_object(before, local@, key)
                || complete_ref(local@, key) by {}
            lemma_safe_trans(st, before, local@);
            let b = bytes@;
            let acc2 = acc.push(b);
            assert(acc2.drop_last() =~= acc);
            assert(put_accepted(s0, m) == seq![b] + put_accepted(r@, (m - 1) as nat));
            assert(acc + (seq![b] + put_accepted(r@, (m - 1) as nat)) =~= acc2 + put_accepted(r@, (m - 1) as nat));
            assert forall|key: Seq<u8>| #[trigger] lookup(local@, key) == after_puts(st, acc2, key) by {
                assert(lookup(before, key) == after_puts(st, acc, key));
            }
            acc = acc2;
        }
        report.objects = report.objects.saturating_add(1);
        report.bytes = report.bytes.saturating_add(bytes.len());
        k = k + 1;
    }
    assert(acc + put_accepted(r@, 0) =~= acc);
    Ok(())
}

/// The remote-tracking ref for the remote's ref `n`.
pub open spec fn tracking_name(remote_name: Seq<char>, n: Seq<char>) -> Seq<char> {
    "remotes/"@ + remote_name + "/"@ + n
}

/// Two refs of one remote track different names.
proof fn lemma_tracking_distinct(rn: Seq<char>, n1: Seq<char>, n2: Seq<char>)
    requires
        n1 != n2,
    ensures
        ref_key(encode_utf8(tracking_name(rn, n1))) != ref_key(encode_utf8(tracking_name(rn, n2))),
{
    let t1 = tracking_name(rn, n1);
    let t2 = tracking_name(rn, n2);
    let pre = "remotes/"@ + rn + "/"@;
    if ref_key(encode_utf8(t1)) == ref_key(encode_utf8(t2)) {
        assert(encode_utf8(t1) =~= ref_key(encode_utf8(t1)).skip(2));
        assert(encode_utf8(t2) =~= ref_key(encode_utf8(t2)).skip(2));
        encode_utf8_decode_utf8(t1);
        encode_utf8_decode_utf8(t2);
        assert(t1 == t2);
        assert(n1 =~= t1.skip(pre.len() as int));
        assert(n2 =~= t2.skip(pre.len() as int));
    }
}

/// Storing objects touches no ref.
proof fn lemma_after_puts_refs(store: Listing, bs: Seq<Seq<u8>>, k: Seq<u8>)
    requires
        k.len() > 0,
        k[0] == 114,
    ensures
        after_puts(store, bs, k) == lookup(store, k),
    decreases bs.len(),
{
    if bs.len() > 0 {
        lemma_after_puts_refs(store, bs.drop_last(), k);
        assert(k != obj_key_spec(sha256(bs.last())));
    }
}

/// Every ref key is as it was.
pub open spec fn refs_kept(before: Listing, after: Listing) -> bool {
    forall|k: Seq<u8>| k.len() > 0 && k[0] == 114 ==> #[trigger] lookup(after, k) == lookup(before, k)
}

/// Every ref that moved is `remotes/<remote_name>/<n>` for a name `n` the
/// LIST_REFS answer `body` lists, and now holds the id listed last under it.
pub open spec fn tracking_moves(before: Listing, after: Listing, remote_name: Seq<char>, body: Seq<u8>) -> bool {
    forall|k: Seq<u8>| k.len() > 0 && k[0] == 114 && #[trigger] lookup(after, k) != lookup(before, k) ==> exists|n: Seq<char>|
        k == ref_key(encode_utf8(#[trigger] tracking_name(remote_name, n))) && last_listed(ref_list(body)->Some_0, n) is Some && lookup(
            after,
            k,
        ) == last_listed(ref_list(body)->Some_0, n)
}

/// Each entry of `upd` is the tracking name and id of a listed ref.
pub open spec fn from_listed(upd: Seq<(Seq<char>, Seq<u8>)>, refs: Seq<(Seq<char>, Seq<u8>)>, rn: Seq<char>) -> bool {
    forall|j: int| 0 <= j < upd.len() ==> listed_at(#[trigger] upd[j], refs, rn)
}

/// `e` is the tracking name and id of a listed ref.
pub open spec fn listed_at(e: (Seq<char>, Seq<u8>), refs: Seq<(Seq<char>, Seq<u8>)>, rn: Seq<char>) -> bool {
    exists|q: int| 0 <= q < refs.len() && e.0 == tracking_name(rn, #[trigger] refs[q].0) && e.1 == refs[q].1
}

proof fn lemma_tracking_moves(
    before: Listing,
    mid: Listing,
    after: Listing,
    rn: Seq<char>,
    body: Seq<u8>,
    refs: Seq<(Seq<char>, Seq<u8>)>,
    upd: Seq<(Seq<char>, Seq<u8>)>,
)
    requires
        refs_kept(before, mid),
        forall|k: Seq<u8>| k.len() > 0 && k[0] == 114 && #[trigger] lookup(after, k) != lookup(mid, k) ==> exists|j: int|
            0 <= j < upd.len() && k == ref_key(encode_utf8(#[trigger] upd[j].0)),
        forall|j: int| 0 <= j < upd.len() ==> ref_value(after, (#[trigger] upd[j]).0) == Some(upd[j].1),
        from_listed(upd, refs, rn),
        forall|n: Seq<char>, id: Seq<u8>| #[trigger] refs.contains((n, id)) <==> last_listed(ref_list(body)->Some_0, n) == Some(id),
    ensures
        tracking_moves(before, after, rn, body),
{
    assert forall|k: Seq<u8>| k.len() > 0 && k[0] == 114 && #[trigger] lookup(after, k) != lookup(before, k) implies exists|n: Seq<char>|
        k == ref_key(encode_utf8(#[trigger] tracking_name(rn, n))) && last_listed(ref_list(body)->Some_0, n) is Some && lookup(after, k)
            == last_listed(ref_list(body)->Some_0, n) by {
        assert(lookup(mid, k) == lookup(before, k));
        let j = choose|j: int| 0 <= j < upd.len() && k == ref_key(encode_utf8(#[trigger] upd[j].0));
        assert(listed_at(upd[j], refs, rn));
        let q = choose|q: int| 0 <= q < refs.len() && upd[j].0 == tracking_name(rn, #[trigger] refs[q].0) && upd[j].1 == refs[q].1;
        assert(refs.contains((refs[q].0, refs[q].1)));
        assert(refs[q] == (refs[q].0, refs[q].1));
        assert(ref_value(after, upd[j].0) == Some(upd[j].1));
        assert(k == ref_key(encode_utf8(tracking_name(rn, refs[q].0))));
    }
}

/// Each updated tracking ref is that of one of the first `t` listed refs,
/// with its id.
pub open spec fn updated_from(upd: Seq<(String, ObjectId)>, refs: Seq<(String, ObjectId)>, rn: Seq<char>, t: int) -> bool {
    forall|j: int| #![trigger upd[j]] 0 <= j < upd.len() ==> exists|q: int| #![trigger refs[q]] 0 <= q < t && upd[j].0@ == tracking_name(rn, refs[q].0@)
        && upd[j].1@ == refs[q].1@
}

proof fn lemma_fetch_moves_so_far(
    st0: Listing,
    st1: Listing,
    after: Listing,
    rn: Seq<char>,
    body: Seq<u8>,
    refs: Seq<(String, ObjectId)>,
    upd: Seq<(String, ObjectId)>,
    t: int,
)
    requires
        0 <= t <= refs.len(),
        forall|k: Seq<u8>| k.len() > 0 && k[0] == 114 ==> #[trigger] lookup(st1, k) == lookup(st0, k),
        forall|k: Seq<u8>| k.len() > 0 && k[0] == 114 && #[trigger] lookup(after, k) != lookup(st1, k) ==> exists|j: int|
            0 <= j < upd.len() && k == ref_key(encode_utf8(#[trigger] upd[j].0@)),
        forall|q: int| 0 <= q < t ==> ref_value(after, tracking_name(rn, (#[trigger] refs[q]).0@)) == Some(refs[q].1@),
        updated_from(upd, refs, rn, t),
        ref_list(body) is Some,
        forall|n: Seq<char>, id: Seq<u8>| #[trigger] named_ids(refs).contains((n, id)) <==> last_listed(ref_list(body)->Some_0, n) == Some(id),
    ensures
        exists|b: Seq<u8>| #[trigger] ref_list(b) is Some && tracking_moves(st0, after, rn, b),
{
    let nr = named_ids(refs);
    let nu = named_ids(upd);
    assert forall|k: Seq<u8>| k.len() > 0 && k[0] == 114 && #[trigger] lookup(after, k) != lookup(st1, k) implies exists|j: int|
        0 <= j < nu.len() && k == ref_key(encode_utf8(#[trigger] nu[j].0)) by {
        let j = choose|j: int| 0 <= j < upd.len() && k == ref_key(encode_utf8(#[trigger] upd[j].0@));
        assert(nu[j].0 == upd[j].0@);
    }
    assert forall|j: int| 0 <= j < nu.len() implies ref_value(after, (#[trigger] nu[j]).0) == Some(nu[j].1) by {
        assert(upd[j] == upd[j]);
        let q = choose|q: int| #![trigger refs[q]] 0 <= q < t && upd[j].0@ == tracking_name(rn, refs[q].0@) && upd[j].1@ == refs[q].1@;
        assert(ref_value(after, tracking_name(rn, refs[q].0@)) == Some(refs[q].1@));
    }
    assert forall|j: int| 0 <= j < nu.len() implies listed_at(#[trigger] nu[j], nr, rn) by {
        assert(upd[j] == upd[j]);
        assert(nu[j] == (upd[j].0@, upd[j].1@));
        let q = choose|q: int| #![trigger refs[q]] 0 <= q < t && upd[j].0@ == tracking_name(rn, refs[q].0@) && upd[j].1@ == refs[q].1@;
        assert(nr[q] == (refs[q].0@, refs[q].1@));
        assert(0 <= q < nr.len() && nu[j].0 == tracking_name(rn, nr[q].0) && nu[j].1 == nr[q].1);
    }
    assert(from_listed(nu, nr, rn));
    lemma_tracking_moves(st0, st1, after, rn, body, nr, nu);
}

/// `x` is an id that the LIST_REFS answer `body` lists last under some name.
pub open spec fn listed_id(body: Seq<u8>, x: Seq<u8>) -> bool {
    exists|n: Seq<char>| #[trigger] last_listed(ref_list(body)->Some_0, n) == Some(x)
}

/// `ws` lists, in ascending order, the ids listed in `body` whose history
/// is not complete in `st`: what a fetch asks for.
pub open spec fn fetch_wants(st: Listing, body: Seq<u8>, ws: Seq<Seq<u8>>) -> bool {
    &&& crate::graph::ids_sorted(ws)
    &&& forall|x: Seq<u8>| #[trigger] ws.contains(x) <==> listed_id(body, x) && !closure_complete(st, x)
}

/// The ids of the refs of `st`, in name order: what a fetch says it has.
pub open spec fn ref_ids(st: Listing) -> Seq<Seq<u8>> {
    crate::repo::refs_spec(st).map_values(|e: (Seq<char>, Seq<u8>)| e.1)
}

/// The FETCH request for `ws`, saying it has `hs`, from `offset` on.
pub open spec fn fetch_request(offset: nat, ws: Seq<Seq<u8>>, hs: Seq<Seq<u8>>) -> (u8, Seq<u8>) {
    (
        crate::wire::FETCH,
        le_bytes(offset, 4) + le_bytes(ws.len() % 0x1_0000_0000, 4) + ids_bytes(ws) + le_bytes(hs.len() % 0x1_0000_0000, 4) + ids_bytes(
            hs,
        ),
    )
}

/// `after` is `before` followed by the requests of a fetch into `st` that
/// got the listing `body`: LIST_REFS, then (only if something is wanted)
/// FETCH requests for the wanted `ws` with the ids of the local refs, the
/// first from offset 0.
pub open spec fn fetch_sent(
    st: Listing,
    body: Seq<u8>,
    ws: Seq<Seq<u8>>,
    before: Seq<(u8, Seq<u8>, bool)>,
    after: Seq<(u8, Seq<u8>, bool)>,
) -> bool {
    &&& ref_list(body) is Some
    &&& fetch_wants(st, body, ws)
    &&& before.len() < after.len()
    &&& after.take(before.len() as int) == before
    &&& requests(after)[before.len() as int] == (crate::wire::LIST_REFS, Seq::<u8>::empty())
    &&& ws.len() == 0 ==> after.len() == before.len() + 1
    &&& forall|i: int| before.len() + 1 <= i < after.len() ==> exists|off: nat| off < 0x1_0000_0000 && #[trigger] requests(after)[i] == fetch_request(
        off,
        ws,
        ref_ids(st),
    )
    &&& after.len() > before.len() + 1 ==> requests(after)[(before.len() + 1) as int] == fetch_request(0, ws, ref_ids(st))
    &&& stops_at_refusal(after.skip(before.len() as int))
}

/// One more FETCH request, answered (`a`) or not.
proof fn lemma_fetch_sent_push(
    st: Listing,
    body: Seq<u8>,
    ws: Seq<Seq<u8>>,
    before: Seq<(u8, Seq<u8>, bool)>,
    after: Seq<(u8, Seq<u8>, bool)>,
    off: nat,
    a: bool,
)
    requires
        fetch_sent(st, body, ws, before, after),
        all_accepted(after.skip(before.len() as int)),
        ws.len() > 0,
        off < 0x1_0000_0000,
        after.len() == before.len() + 1 ==> off == 0,
    ensures
        ({
            let a2 = after.push((crate::wire::FETCH, fetch_request(off, ws, ref_ids(st)).1, a));
            &&& fetch_sent(st, body, ws, before, a2)
            &&& a ==> all_accepted(a2.skip(before.len() as int))
        }),
{
    let e = (crate::wire::FETCH, fetch_request(off, ws, ref_ids(st)).1, a);
    let a2 = after.push(e);
    assert(a2.take(before.len() as int) =~= after.take(before.len() as int));
    assert(requests(a2) =~= requests(after).push(fetch_request(off, ws, ref_ids(st))));
    assert(a2.skip(before.len() as int) =~= after.skip(before.len() as int).push(e));
    assert(requests(a2)[before.len() as int] == requests(after)[before.len() as int]);
    if after.len() > before.len() + 1 {
        assert(requests(a2)[(before.len() + 1) as int] == requests(after)[(before.len() + 1) as int]);
    }
    assert forall|i: int| before.len() + 1 <= i < a2.len() implies exists|o: nat| o < 0x1_0000_0000 && #[trigger] requests(a2)[i]
        == fetch_request(o, ws, ref_ids(st)) by {
        if i < after.len() {
            assert(requests(a2)[i] == requests(after)[i]);
        } else {
            assert(requests(a2)[i] == fetch_request(off, ws, ref_ids(st)));
        }
    }
    let n2 = a2.skip(before.len() as int);
    let n1 = after.skip(before.len() as int);
    assert forall|i: int| 0 <= i < n2.len() - 1 implies (#[trigger] n2[i]).2 by {
        assert(n2[i] == n1[i]);
    }
    if a {
        assert forall|i: int| 0 <= i < n2.len() implies (#[trigger] n2[i]).2 by {
            if i < n1.len() {
                assert(n2[i] == n1[i]);
            }
        }
    }
}

/// Downloads every object reachable from the remote's refs that is not
/// here yet, then points `remotes/<remote_name>/<branch>` at each remote
/// ref. Whatever the remote answers, the store only gains valid objects
/// under their own ids, every ref that moves is a remote-tracking ref of a
/// listed name and points at a commit whose whole history is here. The
/// requests are LIST_REFS, then (if some listed id's history is not here)
/// FETCH requests for those ids, naming the ids of the local refs; it
/// stops at the first refusal.
pub fn fetch<T: Remote>(local: &mut Repo, remote: &mut T, remote_name: &str) -> (r: Result<FetchReport, SyncError>)
    requires
        old(local).wf(),
    ensures
        final(local).wf(),
        grows_safely(old(local)@, final(local)@),
        r matches Ok(rep) ==> forall|i: int| 0 <= i < rep.updated@.len() ==> closure_complete(final(local)@, #[trigger] rep.updated@[i].1@),
        r matches Ok(rep) ==> exists|body: Seq<u8>| #[trigger] ref_list(body) is Some && forall|n: Seq<char>|
            #[trigger] last_listed(ref_list(body)->Some_0, n) is Some ==> ref_value(final(local)@, tracking_name(remote_name@, n))
                == last_listed(ref_list(body)->Some_0, n),
        r matches Ok(rep) ==> forall|i: int| 0 <= i < rep.updated@.len() ==> (exists|n: Seq<char>| #[trigger] rep.updated@[i].0@
            == tracking_name(remote_name@, n)) && ref_value(final(local)@, rep.updated@[i].0@) == Some(rep.updated@[i].1@)
            && ref_value(old(local)@, rep.updated@[i].0@) != Some(rep.updated@[i].1@),
        r matches Ok(rep) ==> forall|k: Seq<u8>| k.len() > 0 && k[0] == 114 && #[trigger] lookup(final(local)@, k) != lookup(old(local)@, k)
            ==> exists|i: int| 0 <= i < rep.updated@.len() && k == ref_key(encode_utf8(#[trigger] rep.updated@[i].0@)),
        refs_kept(old(local)@, final(local)@) || exists|body: Seq<u8>| #[trigger] ref_list(body) is Some && tracking_moves(
            old(local)@,
            final(local)@,
            remote_name@,
            body,
        ),
        final(remote).sent() == old(remote).sent().push((crate::wire::LIST_REFS, Seq::<u8>::empty(), final(remote).sent().last().2))
            || exists|body: Seq<u8>, ws: Seq<Seq<u8>>| #[trigger] fetch_sent(old(local)@, body, ws, old(remote).sent(), final(remote).sent()),
        r is Ok ==> all_accepted(final(remote).sent().skip(old(remote).sent().len() as int)),
{
    let ghost st0 = local@;
    let ghost sent0 = remote.sent();
    let refs = match list_refs(remote) {
        Ok(v) => v,
        Err(e) => return Err(e),
    };
    let ghost body = choose|body: Seq<u8>| #[trigger] ref_list(body) is Some && forall|n: Seq<char>, id: Seq<u8>|
        #[trigger] named_ids(refs@).contains((n, id)) <==> last_listed(ref_list(body)->Some_0, n) == Some(id);
    let mut want_set = Files::new();
    let mut i: usize = 0;
    while i < refs.len()
        invariant
            local.wf(),
            local@ == st0,
            i <= refs@.len(),
            want_set.wf(),
            id_keys(want_set@),
            forall|x: Seq<u8>| #[trigger] has_path(want_set@, x) ==> !closure_complete(st0, x),
            forall|q: int| 0 <= q < i ==> closure_complete(st0, (#[trigger] refs@[q]).1@) || has_path(want_set@, refs@[q].1@),
            forall|x: Seq<u8>| #[trigger] has_path(want_set@, x) ==> exists|q: int| 0 <= q < i && (#[trigger] refs@[q]).1@ == x,
        decreases refs@.len() - i,
    {
        let id = refs[i].1;
        if !complete_here(local, &id) {
            let ghost before = want_set@;
            let key = copy_range(&id.0, 0, 32);
            assert(id@.subrange(0, 32) =~= id@);
            want_set.insert(key, Vec::new());
            proof {
                let now = want_set@;
                assert forall|q: int| 0 <= q < now.len() implies (#[trigger] now[q]).0.len() == 32 by {
                    crate::snapshot::lemma_lookup_at(now, q);
                    if now[q].0 != id@ {
                        assert(lookup(before, now[q].0) is Some);
                        let j = path_index(before, now[q].0);
                    }
                }
                assert forall|x: Seq<u8>| #[trigger] has_path(now, x) implies !closure_complete(st0, x) by {
                    assert(lookup(now, x) is Some);
                    if x != id@ {
                        assert(lookup(before, x) is Some);
                    }
                }
                assert forall|q: int| 0 <= q < i + 1 implies closure_complete(st0, (#[trigger] refs@[q]).1@) || has_path(now, refs@[q].1@) by {
                    assert(lookup(now, refs@[q].1@) is Some <==> has_path(now, refs@[q].1@));
                    assert(lookup(before, refs@[q].1@) is Some <==> has_path(before, refs@[q].1@));
                }
                assert forall|x: Seq<u8>| #[trigger] has_path(now, x) implies exists|q: int| 0 <= q < i + 1 && (#[trigger] refs@[q]).1@ == x by {
                    assert(lookup(now, x) is Some);
                    if x != id@ {
                        assert(lookup(before, x) is Some);
                        assert(has_path(before, x));
                    } else {
                        assert(refs@[i as int].1@ == x);
                    }
                }
            }
        }
        i = i + 1;
    }
    let wants = set_ids(&want_set);
    let ghost ws = id_views(wants@);
    proof {
        assert forall|x: Seq<u8>| #[trigger] ws.contains(x) <==> listed_id(body, x) && !closure_complete(st0, x) by {
            if ws.contains(x) {
                let j = choose|j: int| 0 <= j < ws.len() && ws[j] == x;
                assert(want_set@.map_values(|e: (Seq<u8>, Seq<u8>)| e.0)[j] == x);
                assert(has_path(want_set@, x));
                let q = choose|q: int| 0 <= q < refs@.len() && (#[trigger] refs@[q]).1@ == x;
                assert(named_ids(refs@)[q] == (refs@[q].0@, refs@[q].1@));
                assert(named_ids(refs@).contains((refs@[q].0@, x)));
                assert(last_listed(ref_list(body)->Some_0, refs@[q].0@) == Some(x));
            }
            if listed_id(body, x) && !closure_complete(st0, x) {
                let n = choose|n: Seq<char>| #[trigger] last_listed(ref_list(body)->Some_0, n) == Some(x);
                assert(named_ids(refs@).contains((n, x)));
                let q = choose|q: int| 0 <= q < named_ids(refs@).len() && named_ids(refs@)[q] == (n, x);
                assert(named_ids(refs@)[q] == (refs@[q].0@, refs@[q].1@));
                assert(has_path(want_set@, refs@[q].1@));
                let j = choose|j: int| 0 <= j < want_set@.len() && (#[trigger] want_set@[j]).0 == x;
                assert(ws[j] == x);
            }
        }
        assert(fetch_wants(st0, body, ws));
        let s1 = remote.sent();
        assert(s1.take(sent0.len() as int) =~= sent0);
        assert(requests(s1)[sent0.len() as int] == (s1[sent0.len() as int].0, s1[sent0.len() as int].1));
        assert(s1.skip(sent0.len() as int) =~= seq![s1.last()]);
        assert(fetch_sent(st0, body, ws, sent0, s1));
        assert(all_accepted(s1.skip(sent0.len() as int)));
    }
    let mut report = FetchReport { objects: 0, bytes: 0, updated: Vec::new() };
    if wants.len() > 0 {
        let local_refs = local.refs();
        let mut haves: Vec<ObjectId> = Vec::new();
        let mut h: usize = 0;
        while h < local_refs.len()
            invariant
                h <= local_refs@.len(),
                local_refs@.map_values(|e: (String, ObjectId)| (e.0@, e.1@)) == crate::repo::refs_spec(st0),
                id_views(haves@) == ref_ids(st0).take(h as int),
            decreases local_refs@.len() - h,
        {
            let ghost old_h = id_views(haves@);
            proof {
                assert(local_refs@.map_values(|e: (String, ObjectId)| (e.0@, e.1@))[h as int] == (local_refs@[h as int].0@, local_refs@[h as int].1@));
                assert(crate::repo::refs_spec(st0).len() == local_refs@.len());
                assert(ref_ids(st0)[h as int] == local_refs@[h as int].1@);
            }
            haves.push(local_refs[h].1);
            proof {
                assert(id_views(haves@) =~= old_h.push(local_refs@[h as int].1@));
                assert(ref_ids(st0).take(h + 1) =~= ref_ids(st0).take(h as int).push(ref_ids(st0)[h as int]));
            }
            h = h + 1;
        }
        proof {
            assert(ref_ids(st0).take(h as int) =~= ref_ids(st0));
        }
        let mut offset: u32 = 0;
        loop
            invariant
                local.wf(),
                st0 == old(local)@,
                grows_safely(st0, local@),
                report.updated@.len() == 0,
                forall|k: Seq<u8>| k.len() > 0 && k[0] == 114 ==> #[trigger] lookup(local@, k) == lookup(st0, k),
                sent0 == old(remote).sent(),
                ws == id_views(wants@),
                ws.len() > 0,
                id_views(haves@) == ref_ids(st0),
                fetch_sent(st0, body, ws, sent0, remote.sent()),
                all_accepted(remote.sent().skip(sent0.len() as int)),
                remote.sent().len() == sent0.len() + 1 ==> offset == 0,
            decreases 0xffff_ffffu32 - offset,
        {
            let payload = fetch_payload(offset, &wants, &haves);
            let ghost prev = remote.sent();
            let res = ok_call(remote, crate::wire::FETCH, payload.as_slice());
            proof {
                assert(payload@ == fetch_request(offset as nat, ws, ref_ids(st0)).1);
                lemma_fetch_sent_push(st0, body, ws, sent0, prev, offset as nat, res is Ok);
            }
            let answer = match res {
                Ok(b) => b,
                Err(e) => return Err(e),
            };
            let mut r = R(answer.as_slice());
            let total = match r.u32() {
                Some(t) => t,
                None => return Err(SyncError::Protocol("malformed FETCH response")),
            };
            let count = match r.u32() {
                Some(c) => c,
                None => return Err(SyncError::Protocol("malformed FETCH response")),
            };
            if count == 0 && offset < total {
                return Err(SyncError::Protocol("FETCH made no progress"));
            }
            let ghost before = local@;
            let ghost old_r = r@;
            match store_batch(local, &mut r, count, &mut report) {
                Ok(()) => {},
                Err(e) => {
                    proof {
                        lemma_safe_trans(st0, before, local@);
                        assert forall|k: Seq<u8>| k.len() > 0 && k[0] == 114 implies #[trigger] lookup(local@, k) == lookup(st0, k) by {
                            lemma_after_puts_refs(before, put_accepted(old_r, count as nat), k);
                        }
                    }
                    return Err(e);
                },
            }
            proof {
                lemma_safe_trans(st0, before, local@);
                assert forall|k: Seq<u8>| k.len() > 0 && k[0] == 114 implies #[trigger] lookup(local@, k) == lookup(st0, k) by {
                    lemma_after_puts_refs(before, put_accepted(old_r, count as nat), k);
                }
            }
            offset = offset.saturating_add(count);
            if offset >= total {
                break;
            }
        }
        let mut q: usize = 0;
        while q < wants.len()
            invariant
                local.wf(),
                st0 == old(local)@,
                grows_safely(st0, local@),
                q <= wants@.len(),
                forall|j: int| 0 <= j < q ==> closure_complete(local@, #[trigger] id_views(wants@)[j]),
                sent0 == old(remote).sent(),
                fetch_sent(st0, body, ws, sent0, remote.sent()),
                all_accepted(remote.sent().skip(sent0.len() as int)),
                forall|k: Seq<u8>| k.len() > 0 && k[0] == 114 ==> #[trigger] lookup(local@, k) == lookup(st0, k),
            decreases wants@.len() - q,
        {
            if !complete_here(local, &wants[q]) {
                return Err(SyncError::Incomplete(wants[q]));
            }
            q = q + 1;
        }
    }
    let ghost st1 = local@;
    proof {
        lemma_safe_keeps(st0, st1);
        assert forall|q: int| 0 <= q < refs@.len() implies closure_complete(st1, (#[trigger] refs@[q]).1@) by {
            if closure_complete(st0, refs@[q].1@) {
                lemma_closure_kept(st0, st1, refs@[q].1@);
            } else {
                assert(has_path(want_set@, refs@[q].1@));
                let j = path_index(want_set@, refs@[q].1@);
                assert(want_set@.map_values(|e: (Seq<u8>, Seq<u8>)| e.0)[j] == refs@[q].1@);
                assert(id_views(wants@)[j] == refs@[q].1@);
                assert(id_views(wants@).len() == want_set@.len());
                assert(j < wants@.len());
                assert(closure_complete(st1, id_views(wants@)[j]));
            }
        }
    }
    let mut t: usize = 0;
    while t < refs.len()
        invariant
            local.wf(),
            st0 == old(local)@,
            t <= refs@.len(),
            grows_safely(st0, local@),
            keeps_objects(st1, local@),
            forall|q: int| 0 <= q < refs@.len() ==> closure_complete(st1, (#[trigger] refs@[q]).1@),
            forall|j: int| 0 <= j < report.updated@.len() ==> closure_complete(local@, #[trigger] report.updated@[j].1@),
            forall|k: Seq<u8>| k.len() > 0 && k[0] == 114 ==> #[trigger] lookup(st1, k) == lookup(st0, k),
            names_sorted(named_ids(refs@)),
            forall|q: int| 0 <= q < t ==> ref_value(local@, tracking_name(remote_name@, (#[trigger] refs@[q]).0@)) == Some(refs@[q].1@),
            updated_from(report.updated@, refs@, remote_name@, t as int),
            ref_list(body) is Some,
            sent0 == old(remote).sent(),
            fetch_sent(st0, body, ws, sent0, remote.sent()),
            all_accepted(remote.sent().skip(sent0.len() as int)),
            forall|n: Seq<char>, id: Seq<u8>| #[trigger] named_ids(refs@).contains((n, id)) <==> last_listed(ref_list(body)->Some_0, n) == Some(id),
            forall|j: int| 0 <= j < report.updated@.len() ==> ref_value(st0, (#[trigger] report.updated@[j]).0@) != Some(
                report.updated@[j].1@,
            ),
            forall|k: Seq<u8>| k.len() > 0 && k[0] == 114 && #[trigger] lookup(local@, k) != lookup(st1, k) ==> exists|j: int|
                0 <= j < report.updated@.len() && k == ref_key(encode_utf8(#[trigger] report.updated@[j].0@)),
        decreases refs@.len() - t,
    {
        let prefix = crate::bytes::concat_str("remotes/", remote_name);
        let prefix2 = crate::bytes::concat_str(prefix.as_str(), "/");
        let tracking = crate::bytes::concat_str(prefix2.as_str(), refs[t].0.as_str());
        let id = refs[t].1;
        let current = local.get_ref(tracking.as_str());
        let same = match current {
            Some(c) => crate::bytes::bytes_eq(&c.0, &id.0),
            None => false,
        };
        let ghost tn = tracking_name(remote_name@, refs@[t as int].0@);
        assert(tracking@ == tn);
        proof {
            assert forall|q: int| 0 <= q < t implies refs@[q].0@ != refs@[t as int].0@ by {
                assert(named_ids(refs@)[q].0 == refs@[q].0@);
                assert(named_ids(refs@)[t as int].0 == refs@[t as int].0@);
                assert(lex_lt(encode_utf8(named_ids(refs@)[q].0), encode_utf8(named_ids(refs@)[t as int].0)));
                crate::bytes::lemma_lex_equal(encode_utf8(refs@[q].0@), encode_utf8(refs@[q].0@));
            }
        }
        if same {
            assert(ref_value(local@, tn) == Some(id@));
        }
        if !same {
            let ghost before = local@;
            let ghost rv_before = ref_value(before, tn);
            assert(lookup(before, ref_key(encode_utf8(tn))) == lookup(st1, ref_key(encode_utf8(tn))) || exists|j: int|
                0 <= j < report.updated@.len() && ref_key(encode_utf8(tn)) == ref_key(encode_utf8(#[trigger] report.updated@[j].0@)));
            proof {
                lemma_closure_kept(st1, before, id@);
            }
            match local.set_ref(tracking.as_str(), id) {
                Ok(()) => {},
                Err(e) => {
                    proof {
                        lemma_fetch_moves_so_far(st0, st1, local@, remote_name@, body, refs@, report.updated@, t as int);
                    }
                    return Err(SyncError::Repo(e));
                },
            }
            proof {
                let key = crate::repo::ref_key(encode_utf8(tracking@));
                assert(key[0] == 114);
                assert forall|x: Seq<u8>| #[trigger] object_at(before, x) is Some implies lookup(local@, obj_key_spec(x)) == lookup(
                    before,
                    obj_key_spec(x),
                ) by {
                    assert(obj_key_spec(x)[0] == 111);
                }
                lemma_closure_kept(before, local@, id@);
                assert forall|k: Seq<u8>| #[trigger] lookup(local@, k) != lookup(before, k) implies added_object(before, local@, k)
                    || complete_ref(local@, k) by {
                    assert(k == key);
                }
                lemma_safe_trans(st0, before, local@);
                lemma_safe_keeps(before, local@);
                assert forall|x: Seq<u8>| #[trigger] object_at(st1, x) is Some implies lookup(local@, obj_key_spec(x)) == lookup(
                    st1,
                    obj_key_spec(x),
                ) by {
                    assert(object_at(before, x) == object_at(st1, x));
                }
                assert forall|j: int| 0 <= j < report.updated@.len() implies closure_complete(local@, #[trigger] report.updated@[j].1@) by {
                    lemma_closure_kept(before, local@, report.updated@[j].1@);
                }
            }
            let ghost ub = report.updated@;
            report.updated.push((tracking, id));
            proof {
                let ua = report.updated@;
                assert(ua =~= ub.push(ua.last()));
                assert(ua.last().0@ == tn && ua.last().1@ == id@);
                assert forall|j: int| 0 <= j < ub.len() implies ref_key(encode_utf8(ub[j].0@)) != ref_key(encode_utf8(tn)) by {
                    let q = choose|q: int| #![trigger refs@[q]] 0 <= q < t && ub[j].0@ == tracking_name(remote_name@, refs@[q].0@) && ub[j].1@
                        == refs@[q].1@;
                    assert(refs@[q].0@ != refs@[t as int].0@);
                    lemma_tracking_distinct(remote_name@, refs@[q].0@, refs@[t as int].0@);
                }
                assert(lookup(before, ref_key(encode_utf8(tn))) == lookup(st1, ref_key(encode_utf8(tn))));
                assert(lookup(st1, ref_key(encode_utf8(tn))) == lookup(st0, ref_key(encode_utf8(tn))));
                assert(ref_value(st0, tn) == rv_before);
                assert forall|q: int| 0 <= q < t + 1 implies ref_value(local@, tracking_name(remote_name@, (#[trigger] refs@[q]).0@))
                    == Some(refs@[q].1@) by {
                    if q < t {
                        lemma_tracking_distinct(remote_name@, refs@[q].0@, refs@[t as int].0@);
                        assert(ref_value(before, tracking_name(remote_name@, refs@[q].0@)) == Some(refs@[q].1@));
                    }
                }
                assert forall|j: int| #![trigger ua[j]] 0 <= j < ua.len() implies exists|q: int| #![trigger refs@[q]] 0 <= q < t + 1 && ua[j].0@
                    == tracking_name(remote_name@, refs@[q].0@) && ua[j].1@ == refs@[q].1@ by {
                    assert(updated_from(ub, refs@, remote_name@, t as int));
                    if j < ub.len() {
                        assert(ua[j] == ub[j]);
                        let q = choose|q: int| #![trigger refs@[q]] 0 <= q < t && ub[j].0@ == tracking_name(remote_name@, refs@[q].0@) && ub[j].1@
                            == refs@[q].1@;
                    } else {
                        assert(ua[j].0@ == tracking_name(remote_name@, refs@[t as int].0@));
                    }
                }
                assert forall|j: int| 0 <= j < ua.len() implies ref_value(st0, (#[trigger] ua[j]).0@) != Some(ua[j].1@) by {
                    if j < ub.len() {
                        assert(ua[j] == ub[j]);
                    }
                }
                assert forall|k: Seq<u8>| k.len() > 0 && k[0] == 114 && #[trigger] lookup(local@, k) != lookup(st1, k) implies exists|j: int|
                    0 <= j < ua.len() && k == ref_key(encode_utf8(#[trigger] ua[j].0@)) by {
                    if k == ref_key(encode_utf8(tn)) {
                        assert(k == ref_key(encode_utf8(ua[ub.len() as int].0@)));
                    } else {
                        assert(lookup(local@, k) == lookup(before, k));
                        let j = choose|j: int| 0 <= j < ub.len() && k == ref_key(encode_utf8(#[trigger] ub[j].0@));
                        assert(ua[j] == ub[j]);
                    }
                }
            }
        }
        t = t + 1;
    }
    proof {
        let body = choose|body: Seq<u8>| #[trigger] ref_list(body) is Some && forall|n: Seq<char>, id: Seq<u8>|
            #[trigger] named_ids(refs@).contains((n, id)) <==> last_listed(ref_list(body)->Some_0, n) == Some(id);
        assert forall|n: Seq<char>| #[trigger] last_listed(ref_list(body)->Some_0, n) is Some implies ref_value(local@, tracking_name(
            remote_name@,
            n,
        )) == last_listed(ref_list(body)->Some_0, n) by {
            let id = last_listed(ref_list(body)->Some_0, n)->Some_0;
            assert(named_ids(refs@).contains((n, id)));
            let q = choose|q: int| 0 <= q < named_ids(refs@).len() && named_ids(refs@)[q] == (n, id);
            assert(named_ids(refs@)[q] == (refs@[q].0@, refs@[q].1@));
            assert(ref_value(local@, tracking_name(remote_name@, refs@[q].0@)) == Some(refs@[q].1@));
        }
    }
    proof {
        lemma_fetch_moves_so_far(st0, st1, local@, remote_name@, body, refs@, report.updated@, refs@.len() as int);
    }
    Ok(report)
}

/// What a push sent.
#[derive(Debug, Clone, Copy, PartialEq, Eq)]
pub struct PushReport {
    pub objects: usize,
    pub bytes: usize,
}

/// The payload of a FETCH request: where to start in the plan, then the
/// wanted ids and the ids already here, each list after its count.
pub fn fetch_payload(offset: u32, wants: &Vec<ObjectId>, haves: &Vec<ObjectId>) -> (r: Vec<u8>)
    ensures
        r@ == le_bytes(offset as nat, 4) + le_bytes(wants@.len() % 0x1_0000_0000, 4) + ids_bytes(id_views(wants@)) + le_bytes(
            haves@.len() % 0x1_0000_0000,
            4,
        ) + ids_bytes(id_views(haves@)),
{
    let mut w = W::default();
    w.u32(offset);
    write_ids(&mut w, wants);
    write_ids(&mut w, haves);
    w.0
}

/// Byte strings laid end to end, each after its length as a 32-bit value
/// (the low 32 bits of it).
pub open spec fn framed(bs: Seq<Seq<u8>>) -> Seq<u8>
    decreases bs.len(),
{
    if bs.len() == 0 {
        seq![]
    } else {
        framed(bs.drop_last()) + le_bytes(bs.last().len() % 0x1_0000_0000, 4) + bs.last()
    }
}

/// The payload of a PUT_OBJECTS request carrying the objects `bs`.
pub open spec fn put_bytes(bs: Seq<Seq<u8>>) -> Seq<u8> {
    le_bytes(bs.len() % 0x1_0000_0000, 4) + framed(bs)
}

/// The payload of a PUT_OBJECTS request carrying `batch`: the count, then
/// each object's bytes after its length.
pub fn put_payload(batch: &Vec<Vec<u8>>) -> (r: Vec<u8>)
    ensures
        r@ == le_bytes(batch@.len() % 0x1_0000_0000, 4) + framed(batch@.map_values(|v: Vec<u8>| v@)),
{
    let ghost bv = batch@.map_values(|v: Vec<u8>| v@);
    let mut w = W::default();
    w.u32((batch.len() as u64 % 0x1_0000_0000) as u32);
    let ghost head = w.0@;
    let mut i: usize = 0;
    assert(bv.take(0) =~= Seq::<Seq<u8>>::empty());
    assert(head + framed(bv.take(0)) =~= head);
    while i < batch.len()
        invariant
            i <= batch@.len(),
            bv == batch@.map_values(|v: Vec<u8>| v@),
            head == le_bytes(batch@.len() % 0x1_0000_0000, 4),
            w.0@ == head + framed(bv.take(i as int)),
        decreases batch@.len() - i,
    {
        w.bytes(batch[i].as_slice());
        proof {
            assert(bv.take(i + 1).drop_last() =~= bv.take(i as int));
            assert(bv.take(i + 1).last() == batch@[i as int]@);
        }
        i = i + 1;
    }
    assert(bv.take(batch@.len() as int) =~= bv);
    w.0
}

/// The payload of an UPDATE_REF request: the branch name, the id the ref is
/// expected to hold (if any), the new id, and whether to force.
pub fn update_payload(branch: &str, based: Option<ObjectId>, tip: &ObjectId, force: bool) -> (r: Vec<u8>)
    ensures
        r@ == le_bytes(branch.spec_bytes().len() % 0x1_0000, 2) + branch.spec_bytes() + (match based {
            Some(o) => seq![1u8] + o@,
            None => seq![0u8],
        }) + tip@ + seq![if force { 1u8 } else { 0u8 }],
{
    let mut w = W::default();
    w.string(branch);
    match based {
        Some(o) => {
            w.u8(1);
            w.id(&o);
        },
        None => {
            w.u8(0);
        },
    }
    w.id(tip);
    w.u8(if force { 1 } else { 0 });
    w.0
}

/// Sends the objects gathered so far in one PUT_OBJECTS request, if any.
fn flush<T: Remote>(remote: &mut T, batch: &mut Vec<Vec<u8>>, batch_bytes: &mut usize) -> (r: Result<(), SyncError>)
    requires
        old(batch)@.len() == 0 ==> *old(batch_bytes) == 0,
    ensures
        r is Ok ==> final(batch)@.len() == 0 && *final(batch_bytes) == 0,
        old(batch)@.len() == 0 ==> r is Ok,
        r is Err ==> final(batch)@ == old(batch)@ && *final(batch_bytes) == *old(batch_bytes),
        old(batch)@.len() == 0 ==> final(remote).sent() == old(remote).sent(),
        old(batch)@.len() > 0 ==> final(remote).sent() == old(remote).sent().push(
            (crate::wire::PUT_OBJECTS, put_bytes(old(batch)@.map_values(|v: Vec<u8>| v@)), r is Ok),
        ),
{
    if batch.len() == 0 {
        return Ok(());
    }
    let payload = put_payload(batch);
    match ok_call(remote, crate::wire::PUT_OBJECTS, payload.as_slice()) {
        Ok(_) => {},
        Err(e) => return Err(e),
    }
    *batch = Vec::new();
    *batch_bytes = 0;
    Ok(())
}

/// The payload of an UPDATE_REF request for `branch`, expecting `based`,
/// moving to `tip` (see `update_payload`).
pub open spec fn update_bytes(branch: Seq<char>, based: Option<Seq<u8>>, tip: Seq<u8>, force: bool) -> Seq<u8> {
    le_bytes(encode_utf8(branch).len() % 0x1_0000, 2) + encode_utf8(branch) + (match based {
        Some(o) => seq![1u8] + o,
        None => seq![0u8],
    }) + tip + seq![if force { 1u8 } else { 0u8 }]
}

/// `o` is stored here together with everything it depends on.
pub open spec fn held_complete(st: Listing, o: Seq<u8>) -> bool {
    &&& has_path(st, obj_key_spec(o))
    &&& forall|y: Seq<u8>| #[trigger] reachable_from(st, seq![o], y) ==> object_at(st, y) is Some
}

/// A push of `tip`, to a remote whose branch holds `based`, uploads `x`:
/// `x` is reachable from `tip`, and not already behind `based` (where
/// `based` and its whole history are held here).
pub open spec fn uploads(st: Listing, tip: Seq<u8>, based: Option<Seq<u8>>, x: Seq<u8>) -> bool {
    &&& reachable_from(st, seq![tip], x)
    &&& !(based matches Some(o) && held_complete(st, o) && reachable_from(st, seq![o], x))
}

/// `ids` lists, in ascending order, exactly what a push uploads.
pub open spec fn upload_ids(st: Listing, tip: Seq<u8>, based: Option<Seq<u8>>, ids: Seq<Seq<u8>>) -> bool {
    &&& crate::graph::ids_sorted(ids)
    &&& forall|x: Seq<u8>| #[trigger] ids.contains(x) <==> uploads(st, tip, based, x)
}

/// The stored bytes of each of `ids`.
pub open spec fn raws(st: Listing, ids: Seq<Seq<u8>>) -> Seq<Seq<u8>> {
    ids.map_values(|x: Seq<u8>| lookup(st, obj_key_spec(x))->Some_0)
}

/// Objects cut into PUT_OBJECTS batches, in order: an object joins the
/// current batch while the batch's total stays within `BATCH_BYTES`, and
/// starts a new one otherwise.
pub open spec fn batched(items: Seq<Seq<u8>>) -> Seq<Seq<Seq<u8>>>
    decreases items.len(),
{
    if items.len() == 0 {
        seq![]
    } else {
        let bs = batched(items.drop_last());
        let x = items.last();
        if bs.len() > 0 && total_len(bs.last()) + x.len() <= crate::wire::BATCH_BYTES {
            bs.update(bs.len() - 1, bs.last().push(x))
        } else {
            bs.push(seq![x])
        }
    }
}

/// One PUT_OBJECTS request per batch.
pub open spec fn put_requests(bs: Seq<Seq<Seq<u8>>>) -> Seq<(u8, Seq<u8>)> {
    bs.map_values(|b: Seq<Seq<u8>>| (crate::wire::PUT_OBJECTS, put_bytes(b)))
}

/// The requests of a whole push of `tip` for `branch`, the remote having
/// listed `body` and `ids` being what is uploaded: LIST_REFS, the batches
/// of PUT_OBJECTS, then UPDATE_REF from the listed id to `tip`.
pub open spec fn push_log(st: Listing, branch: Seq<char>, force: bool, tip: Seq<u8>, body: Seq<u8>, ids: Seq<Seq<u8>>) -> Seq<(u8, Seq<u8>)> {
    seq![(crate::wire::LIST_REFS, Seq::<u8>::empty())] + put_requests(batched(raws(st, ids))) + seq![
        (crate::wire::UPDATE_REF, update_bytes(branch, last_listed(ref_list(body)->Some_0, branch), tip, force)),
    ]
}

/// `after` is `before` followed by the first requests of a push (at least
/// one, at most all of them), every one but the last answered with a yes.
pub open spec fn push_sent(
    st: Listing,
    branch: Seq<char>,
    force: bool,
    tip: Seq<u8>,
    body: Seq<u8>,
    ids: Seq<Seq<u8>>,
    before: Seq<(u8, Seq<u8>, bool)>,
    after: Seq<(u8, Seq<u8>, bool)>,
) -> bool {
    let log = push_log(st, branch, force, tip, body, ids);
    let new = after.skip(before.len() as int);
    &&& before.len() < after.len() <= before.len() + log.len()
    &&& after.take(before.len() as int) == before
    &&& requests(new) == log.take(new.len() as int)
    &&& stops_at_refusal(new)
}

/// The requests `rlog` sent after `before` begin a push.
proof fn lemma_push_sent(
    st: Listing,
    branch: Seq<char>,
    force: bool,
    tip: Seq<u8>,
    body: Seq<u8>,
    ids: Seq<Seq<u8>>,
    before: Seq<(u8, Seq<u8>, bool)>,
    rlog: Seq<(u8, Seq<u8>, bool)>,
)
    requires
        0 < rlog.len() <= push_log(st, branch, force, tip, body, ids).len(),
        requests(rlog) == push_log(st, branch, force, tip, body, ids).take(rlog.len() as int),
        stops_at_refusal(rlog),
    ensures
        push_sent(st, branch, force, tip, body, ids, before, before + rlog),
        (before + rlog).skip(before.len() as int) == rlog,
{
    assert((before + rlog).skip(before.len() as int) =~= rlog);
    assert((before + rlog).take(before.len() as int) =~= before);
}

/// One more request in a log.
proof fn lemma_requests_push(rlog: Seq<(u8, Seq<u8>, bool)>, e: (u8, Seq<u8>, bool))
    ensures
        requests(rlog.push(e)) == requests(rlog).push((e.0, e.1)),
        all_accepted(rlog) ==> stops_at_refusal(rlog.push(e)),
        all_accepted(rlog) && e.2 ==> all_accepted(rlog.push(e)),
{
    assert(requests(rlog.push(e)) =~= requests(rlog).push((e.0, e.1)));
    let r2 = rlog.push(e);
    if all_accepted(rlog) {
        assert forall|i: int| 0 <= i < r2.len() - 1 implies (#[trigger] r2[i]).2 by {
            assert(r2[i] == rlog[i]);
        }
        if e.2 {
            assert forall|i: int| 0 <= i < r2.len() implies (#[trigger] r2[i]).2 by {
                if i < rlog.len() {
                    assert(r2[i] == rlog[i]);
                }
            }
        }
    }
}

/// Every batch but the last stays as it is when more objects follow.
proof fn lemma_batched_prefix(items: Seq<Seq<u8>>, i: int, j: int)
    requires
        0 <= i <= j <= items.len(),
    ensures
        batched(items.take(i)).len() <= batched(items.take(j)).len(),
        forall|m: int| 0 <= m < batched(items.take(i)).len() - 1 ==> #[trigger] batched(items.take(j))[m] == batched(items.take(i))[m],
    decreases j - i,
{
    if j > i {
        lemma_batched_prefix(items, i, j - 1);
        assert(items.take(j).drop_last() =~= items.take(j - 1));
    }
}

/// Adding one more length to a total.
proof fn lemma_total_len_push(bs: Seq<Seq<u8>>, x: Seq<u8>)
    ensures
        total_len(bs.push(x)) == total_len(bs) + x.len(),
{
    assert(bs.push(x).drop_last() =~= bs);
}

/// Uploads the objects the remote lacks for local branch `branch`, then
/// asks the remote to move its ref. The remote enforces fast-forward and
/// compare-and-set; `force` overrides the fast-forward rule only. The local
/// repository is only read, and only a branch whose whole history is here
/// is offered. The requests are LIST_REFS; then, in batches, every object
/// reachable from the branch tip except those behind the id the remote
/// lists for the branch (when that id's history is held here); then
/// UPDATE_REF from that listed id to the tip. It stops at the first
/// refusal.
#[verifier::rlimit(100)]
#[verifier::spinoff_prover]
pub fn push<T: Remote>(local: &mut Repo, remote: &mut T, branch: &str, force: bool) -> (r: Result<PushReport, SyncError>)
    requires
        old(local).wf(),
    ensures
        final(local)@ == old(local)@,
        final(local).wf(),
        ref_value(old(local)@, branch@) is None ==> (r matches Err(SyncError::Protocol(m)) && m@ == "no such local branch"@)
            && final(remote).sent() == old(remote).sent(),
        r is Ok ==> (ref_value(old(local)@, branch@) matches Some(tip) && closure_complete(old(local)@, tip)),
        r matches Ok(rep) ==> exists|body: Seq<u8>, ids: Seq<Seq<u8>>|
            #![trigger push_sent(old(local)@, branch@, force, ref_value(old(local)@, branch@)->Some_0, body, ids, old(remote).sent(), final(remote).sent())]
            {
                let st = old(local)@;
                let tip = ref_value(st, branch@)->Some_0;
                &&& ref_list(body) is Some
                &&& upload_ids(st, tip, last_listed(ref_list(body)->Some_0, branch@), ids)
                &&& push_sent(st, branch@, force, tip, body, ids, old(remote).sent(), final(remote).sent())
                &&& final(remote).sent().len() == old(remote).sent().len() + push_log(st, branch@, force, tip, body, ids).len()
                &&& all_accepted(final(remote).sent().skip(old(remote).sent().len() as int))
                &&& rep.objects == ids.len()
                &&& rep.bytes == if total_len(raws(st, ids)) > usize::MAX { usize::MAX as int } else { total_len(raws(st, ids)) as int }
            },
        r is Err && ref_value(old(local)@, branch@) is Some ==> exists|body: Seq<u8>, ids: Seq<Seq<u8>>|
            #![trigger push_sent(old(local)@, branch@, force, ref_value(old(local)@, branch@)->Some_0, body, ids, old(remote).sent(), final(remote).sent())]
            {
                let st = old(local)@;
                let tip = ref_value(st, branch@)->Some_0;
                &&& push_sent(st, branch@, force, tip, body, ids, old(remote).sent(), final(remote).sent())
                &&& final(remote).sent().len() > old(remote).sent().len() + 1 ==> ref_list(body) is Some && upload_ids(
                    st,
                    tip,
                    last_listed(ref_list(body)->Some_0, branch@),
                    ids,
                )
            },
{
    let ghost st = local@;
    let ghost sent0 = remote.sent();
    let tip = match local.get_ref(branch) {
        Some(t) => t,
        None => return Err(SyncError::Protocol("no such local branch")),
    };
    let ghost lreq = (crate::wire::LIST_REFS, Seq::<u8>::empty());
    let listed = list_refs(remote);
    let ghost mut rlog = seq![remote.sent().last()];
    proof {
        assert(remote.sent() =~= sent0 + rlog);
        assert(requests(rlog) =~= seq![lreq]);
        let anylog = push_log(st, branch@, force, tip@, Seq::<u8>::empty(), Seq::<Seq<u8>>::empty());
        assert(anylog.take(1) =~= seq![lreq]);
        lemma_push_sent(st, branch@, force, tip@, Seq::<u8>::empty(), Seq::<Seq<u8>>::empty(), sent0, rlog);
    }
    let remote_refs = match listed {
        Ok(v) => v,
        Err(e) => return Err(e),
    };
    proof {
        assert(all_accepted(rlog));
    }
    let ghost body = choose|body: Seq<u8>| #[trigger] ref_list(body) is Some && forall|n: Seq<char>, id: Seq<u8>|
        #[trigger] named_ids(remote_refs@).contains((n, id)) <==> last_listed(ref_list(body)->Some_0, n) == Some(id);
    let ghost nv = named_ids(remote_refs@);
    let mut based: Option<ObjectId> = None;
    let mut i: usize = 0;
    while i < remote_refs.len()
        invariant
            i <= remote_refs@.len(),
            nv == named_ids(remote_refs@),
            based matches Some(o) ==> nv.contains((branch@, o@)),
            based is None ==> forall|j: int| 0 <= j < i ==> (#[trigger] nv[j]).0 != branch@,
        decreases remote_refs@.len() - i,
    {
        let same = crate::bytes::bytes_eq(remote_refs[i].0.as_str().as_bytes(), branch.as_bytes());
        proof {
            assert(nv[i as int] == (remote_refs@[i as int].0@, remote_refs@[i as int].1@));
            if same {
                encode_utf8_decode_utf8(remote_refs@[i as int].0@);
                encode_utf8_decode_utf8(branch@);
            }
        }
        if same {
            based = Some(remote_refs[i].1);
        }
        i = i + 1;
    }
    let ghost bv: Option<Seq<u8>> = match based {
        Some(o) => Some(o@),
        None => None,
    };
    proof {
        match based {
            Some(o) => {},
            None => {
                if last_listed(ref_list(body)->Some_0, branch@) is Some {
                    let id = last_listed(ref_list(body)->Some_0, branch@)->Some_0;
                    assert(nv.contains((branch@, id)));
                    let j = choose|j: int| 0 <= j < nv.len() && nv[j] == (branch@, id);
                    assert(nv[j].0 == branch@);
                }
            },
        }
        assert(bv == last_listed(ref_list(body)->Some_0, branch@));
    }
    let exclude: Vec<ObjectId> = match based {
        Some(o) => if local.has(&o) {
            let mut roots: Vec<ObjectId> = Vec::new();
            roots.push(o);
            proof {
                assert(id_views(roots@) =~= seq![o@]);
            }
            match local.reachable(roots.as_slice()) {
                Ok(v) => v,
                Err(_) => Vec::new(),
            }
        } else {
            Vec::new()
        },
        None => Vec::new(),
    };
    proof {
        assert forall|x: Seq<u8>| #[trigger] id_views(exclude@).contains(x) <==> (bv matches Some(o) && held_complete(st, o)
            && reachable_from(st, seq![o], x)) by {
            if id_views(exclude@).contains(x) {
                assert(exclude@.len() > 0);
            }
            if bv matches Some(o) && held_complete(st, o) && reachable_from(st, seq![o], x) {
            }
        }
    }
    let mut roots: Vec<ObjectId> = Vec::new();
    roots.push(tip);
    let all = match local.reachable(roots.as_slice()) {
        Ok(v) => v,
        Err(e) => {
            assert(id_views(roots@) =~= seq![tip@]);
            proof {
                let anylog = push_log(st, branch@, force, tip@, Seq::<u8>::empty(), Seq::<Seq<u8>>::empty());
                assert(anylog.take(1) =~= seq![lreq]);
                lemma_push_sent(st, branch@, force, tip@, Seq::<u8>::empty(), Seq::<Seq<u8>>::empty(), sent0, rlog);
            }
            return Err(SyncError::Repo(e));
        },
    };
    proof {
        assert(id_views(roots@) =~= seq![tip@]);
        lemma_single_root(st, tip@, id_views(roots@));
        assert forall|y: Seq<u8>| #[trigger] links_to(st, tip@, y) implies object_at(st, y) is Some by {
            assert(reachable_from(st, id_views(roots@), y));
        }
    }
    let to_send = select_ids(&all, &exclude, false);
    let ghost tv = id_views(to_send@);
    let ghost items = raws(st, tv);
    proof {
        assert forall|x: Seq<u8>| #[trigger] tv.contains(x) <==> uploads(st, tip@, bv, x) by {}
        assert(upload_ids(st, tip@, bv, tv));
    }
    let mut report = PushReport { objects: 0, bytes: 0 };
    let mut batch: Vec<Vec<u8>> = Vec::new();
    let mut batch_bytes: usize = 0;
    let ghost mut done: Seq<Seq<Seq<u8>>> = seq![];
    let mut k: usize = 0;
    proof {
        assert(items.take(0) =~= Seq::<Seq<u8>>::empty());
        assert(batch@.map_values(|v: Vec<u8>| v@) =~= Seq::<Seq<u8>>::empty());
    }
    while k < to_send.len()
        invariant
            local@ == st,
            st == old(local)@,
            local.wf(),
            ref_value(st, branch@) is Some,
            tv == id_views(to_send@),
            items == raws(st, tv),
            items.len() == to_send@.len(),
            forall|x: Seq<u8>| #[trigger] tv.contains(x) ==> reachable_from(st, seq![tip@], x),
            forall|x: Seq<u8>| #[trigger] reachable_from(st, seq![tip@], x) ==> object_at(st, x) is Some,
            k <= to_send@.len(),
            report.objects == k,
            report.bytes == if total_len(items.take(k as int)) > usize::MAX { usize::MAX as int } else { total_len(items.take(k as int)) as int },
            batch_bytes == total_len(batch@.map_values(|v: Vec<u8>| v@)),
            k == 0 ==> batch@.len() == 0 && done.len() == 0,
            k > 0 ==> batch@.len() > 0 && done.push(batch@.map_values(|v: Vec<u8>| v@)) == batched(items.take(k as int)),
            batch@.len() >= 2 ==> batch_bytes <= crate::wire::BATCH_BYTES,
            remote.sent() == sent0 + rlog,
            requests(rlog) == seq![lreq] + put_requests(done),
            all_accepted(rlog),
            lreq == (crate::wire::LIST_REFS, Seq::<u8>::empty()),
            sent0 == old(remote).sent(),
            ref_list(body) is Some,
            bv == last_listed(ref_list(body)->Some_0, branch@),
            tip@ == ref_value(st, branch@)->Some_0,
            upload_ids(st, tip@, bv, tv),
        decreases to_send@.len() - k,
    {
        proof {
            assert(tv.contains(tv[k as int]));
            assert(to_send@[k as int]@ == tv[k as int]);
            let o = object_at(st, tv[k as int])->Some_0;
            assert(crate::repo::stored(st, to_send@[k as int]@, o));
        }
        let bytes = match local.raw(&to_send[k]) {
            Ok(b) => b,
            Err(e) => return Err(SyncError::Repo(e)),
        };
        let ghost cur = batch@.map_values(|v: Vec<u8>| v@);
        proof {
            assert(items.take(k + 1).drop_last() =~= items.take(k as int));
            assert(items.take(k + 1).last() == bytes@);
            lemma_total_len_push(items.take(k as int), bytes@);
            assert(items.take(k + 1) =~= items.take(k as int).push(bytes@));
        }
        if batch.len() > 0 && (batch_bytes > crate::wire::BATCH_BYTES || bytes.len() > crate::wire::BATCH_BYTES - batch_bytes) {
            let fl = flush(remote, &mut batch, &mut batch_bytes);
            let ghost e = (crate::wire::PUT_OBJECTS, put_bytes(cur), fl is Ok);
            proof {
                lemma_requests_push(rlog, e);
                assert(remote.sent() =~= sent0 + rlog.push(e));
                rlog = rlog.push(e);
                assert(put_requests(done.push(cur)) =~= put_requests(done).push((crate::wire::PUT_OBJECTS, put_bytes(cur))));
                assert(requests(rlog) =~= seq![lreq] + put_requests(done.push(cur)));
            }
            match fl {
                Ok(()) => {},
                Err(e) => {
                    proof {
                        let full = batched(items);
                        lemma_batched_prefix(items, k + 1, items.len() as int);
                        assert(items.take(items.len() as int) =~= items);
                        let dn = done.push(cur);
                        assert(batched(items.take(k + 1)) == dn.push(seq![bytes@]));
                        assert forall|m: int| 0 <= m < dn.len() implies #[trigger] full[m] == dn[m] by {
                            assert(batched(items.take(k + 1))[m] == dn[m]);
                        }
                        assert(put_requests(dn) =~= put_requests(full).take(dn.len() as int));
                        let log = push_log(st, branch@, force, tip@, body, tv);
                        assert(log.take((dn.len() + 1) as int) =~= seq![lreq] + put_requests(dn));
                        lemma_push_sent(st, branch@, force, tip@, body, tv, sent0, rlog);
                    }
                    return Err(e);
                },
            }
            proof {
                assert(batched(items.take(k + 1)) == done.push(cur).push(seq![bytes@]));
                done = done.push(cur);
            }
        }
        let ghost cur2 = batch@.map_values(|v: Vec<u8>| v@);
        report.objects = report.objects.saturating_add(1);
        report.bytes = report.bytes.saturating_add(bytes.len());
        batch_bytes = batch_bytes + bytes.len();
        batch.push(bytes);
        proof {
            assert(batch@.map_values(|v: Vec<u8>| v@) =~= cur2.push(bytes@));
            lemma_total_len_push(cur2, bytes@);
            if cur2.len() > 0 {
                let bs = batched(items.take(k as int));
                assert(bs == done.push(cur2));
                assert(bs.last() == cur2);
                assert(total_len(cur2) + bytes@.len() <= crate::wire::BATCH_BYTES);
                assert(batched(items.take(k + 1)) == bs.update(bs.len() - 1, cur2.push(bytes@)));
                assert(bs.update(bs.len() - 1, cur2.push(bytes@)) =~= done.push(cur2.push(bytes@)));
            } else {
                assert(seq![bytes@] =~= cur2.push(bytes@));
                if k == 0 {
                    assert(items.take(0).len() == 0);
                    assert(batched(items.take(0)) =~= Seq::<Seq<Seq<u8>>>::empty());
                    assert(batched(items.take(k + 1)) =~= done.push(seq![bytes@]));
                }
                assert(batched(items.take(k + 1)) == done.push(seq![bytes@]));
            }
        }
        k = k + 1;
    }
    let ghost cur = batch@.map_values(|v: Vec<u8>| v@);
    proof {
        assert(items.take(k as int) =~= items);
    }
    let fl = flush(remote, &mut batch, &mut batch_bytes);
    let ghost log = push_log(st, branch@, force, tip@, body, tv);
    proof {
        if k > 0 {
            let e = (crate::wire::PUT_OBJECTS, put_bytes(cur), fl is Ok);
            lemma_requests_push(rlog, e);
            assert(remote.sent() =~= sent0 + rlog.push(e));
            rlog = rlog.push(e);
            assert(put_requests(done.push(cur)) =~= put_requests(done).push((crate::wire::PUT_OBJECTS, put_bytes(cur))));
            assert(batched(items) == done.push(cur));
            assert(requests(rlog) =~= seq![lreq] + put_requests(batched(items)));
        } else {
            assert(batched(items) =~= done);
            assert(requests(rlog) =~= seq![lreq] + put_requests(batched(items)));
        }
        assert(log.take(rlog.len() as int) =~= requests(rlog));
    }
    match fl {
        Ok(()) => {},
        Err(e) => {
            proof {
                lemma_push_sent(st, branch@, force, tip@, body, tv, sent0, rlog);
            }
            return Err(e);
        },
    }
    let payload = update_payload(branch, based, &tip, force);
    let res = ok_call(remote, crate::wire::UPDATE_REF, payload.as_slice());
    proof {
        assert(payload@ == update_bytes(branch@, bv, tip@, force));
        let e = (crate::wire::UPDATE_REF, payload@, res is Ok);
        lemma_requests_push(rlog, e);
        assert(remote.sent() =~= sent0 + rlog.push(e));
        rlog = rlog.push(e);
        assert(log.take(rlog.len() as int) =~= requests(rlog));
        lemma_push_sent(st, branch@, force, tip@, body, tv, sent0, rlog);
    }
    match res {
        Ok(_) => {},
        Err(e) => return Err(e),
    }
    proof {
        assert(to_send@.len() == tv.len());
    }
    Ok(report)
}

/// `after` is `before` with the ref `branch` set to `id`.
pub open spec fn moved_to(before: Listing, after: Listing, branch: Seq<char>, id: Seq<u8>) -> bool {
    forall|k: Seq<u8>| #[trigger] lookup(after, k) == if k == ref_key(encode_utf8(branch)) {
        Some(id)
    } else {
        lookup(before, k)
    }
}

/// `after` is `mid` with `branch` moved to `id`, the result being `o`; or,
/// where `branch` is no valid ref name, the move was refused and nothing
/// changed.
pub open spec fn branch_moved(
    mid: Listing,
    after: Listing,
    branch: Seq<char>,
    id: Seq<u8>,
    o: crate::tree_merge::MergeOutcome,
    r: Result<crate::tree_merge::MergeOutcome, SyncError>,
) -> bool {
    if crate::repo::valid_ref_name_spec(encode_utf8(branch)) {
        r == Ok::<crate::tree_merge::MergeOutcome, SyncError>(o) && moved_to(mid, after, branch, id)
    } else {
        r matches Err(SyncError::Repo(RepoError::InvalidRefName(s))) && s@ == branch && after == mid
    }
}

/// What folding the fetched `remotes/<remote_name>/<branch>` into the local
/// `branch` gives, from the store `before` to the store `after`: an error
/// if there is no such remote-tracking ref; a branch not there yet is
/// created at the fetched id (a fast-forward); otherwise the outcome is
/// that of `merge_commits` on the branch tip and the fetched id, with
/// message `Merge remotes/<remote_name>/<branch>`, and a fast-forward or a
/// clean merge moves the branch to its result.
pub open spec fn folded(
    before: Listing,
    after: Listing,
    remote_name: Seq<char>,
    branch: Seq<char>,
    author: Seq<char>,
    timestamp: u64,
    r: Result<crate::tree_merge::MergeOutcome, SyncError>,
) -> bool {
    match ref_value(before, tracking_name(remote_name, branch)) {
        None => r matches Err(SyncError::Protocol(m)) && m@ == "the remote has no such branch"@ && after == before,
        Some(theirs) => match ref_value(before, branch) {
            None => if crate::repo::valid_ref_name_spec(encode_utf8(branch)) {
                r matches Ok(crate::tree_merge::MergeOutcome::FastForward(t)) && t@ == theirs && moved_to(before, after, branch, theirs)
            } else {
                r matches Err(SyncError::Repo(RepoError::InvalidRefName(s))) && s@ == branch && after == before
            },
            Some(ours) => exists|mid: Listing, res: Result<crate::tree_merge::MergeOutcome, RepoError>|
                #[trigger] crate::tree_merge::merge_outcome(
                    before,
                    mid,
                    ours,
                    theirs,
                    author,
                    "Merge "@ + tracking_name(remote_name, branch),
                    timestamp,
                    res,
                ) && crate::trees::only_adds(before, mid) && match res {
                    Err(e) => r == Err::<crate::tree_merge::MergeOutcome, SyncError>(SyncError::Repo(e)) && after == mid,
                    Ok(o) => match o {
                        crate::tree_merge::MergeOutcome::FastForward(t) => branch_moved(mid, after, branch, t@, o, r),
                        crate::tree_merge::MergeOutcome::Merged(id) => branch_moved(mid, after, branch, id@, o, r),
                        _ => r == Ok::<crate::tree_merge::MergeOutcome, SyncError>(o) && after == mid,
                    },
                },
        },
    }
}

/// Folds the fetched `remotes/<remote_name>/<branch>` into the local
/// `branch` (creating it if absent): a fast-forward or a clean merge moves
/// the local branch; a conflict is returned, not applied. This is what
/// `pull` does once its fetch succeeded.
pub fn merge_fetched(local: &mut Repo, remote_name: &str, branch: &str, author: &str, timestamp: u64) -> (r: Result<
    crate::tree_merge::MergeOutcome,
    SyncError,
>)
    requires
        old(local).wf(),
    ensures
        final(local).wf(),
        adds_or_moves_refs(old(local)@, final(local)@),
        folded(old(local)@, final(local)@, remote_name@, branch@, author@, timestamp, r),
{
    let ghost st1 = local@;
    let prefix = crate::bytes::concat_str("remotes/", remote_name);
    let prefix2 = crate::bytes::concat_str(prefix.as_str(), "/");
    let tracking = crate::bytes::concat_str(prefix2.as_str(), branch);
    let theirs = match local.get_ref(tracking.as_str()) {
        Some(t) => t,
        None => {
            proof {
                assert forall|k: Seq<u8>| #[trigger] lookup(local@, k) != lookup(st1, k) implies added_hashed(st1, local@, k) || (k.len()
                    > 0 && k[0] == 114) by {}
            }
            return Err(SyncError::Protocol("the remote has no such branch"));
        },
    };
    let ours = match local.get_ref(branch) {
        Some(o) => o,
        None => {
            match local.set_ref(branch, theirs) {
                Ok(()) => {},
                Err(e) => {
                    proof {
                        assert forall|k: Seq<u8>| #[trigger] lookup(local@, k) != lookup(st1, k) implies added_hashed(st1, local@, k) || (k.len()
                            > 0 && k[0] == 114) by {}
                    }
                    return Err(SyncError::Repo(e));
                },
            }
            proof {
                lemma_set_ref_moves(st1, local@, branch.spec_bytes());
                assert(moved_to(st1, local@, branch@, theirs@));
            }
            return Ok(crate::tree_merge::MergeOutcome::FastForward(theirs));
        },
    };
    let message = crate::bytes::concat_str("Merge ", tracking.as_str());
    let mo = local.merge_commits(&ours, &theirs, author, message.as_str(), timestamp);
    let ghost st2 = local@;
    proof {
        assert forall|k: Seq<u8>| #[trigger] lookup(st2, k) != lookup(st1, k) implies added_hashed(st1, st2, k) || (k.len()
            > 0 && k[0] == 114) by {}
        assert(crate::tree_merge::merge_outcome(st1, st2, ours@, theirs@, author@, message@, timestamp, mo));
    }
    let outcome = match mo {
        Ok(o) => o,
        Err(e) => return Err(SyncError::Repo(e)),
    };
    match &outcome {
        crate::tree_merge::MergeOutcome::FastForward(id) => {
            match local.set_ref(branch, *id) {
                Ok(()) => {},
                Err(e) => return Err(SyncError::Repo(e)),
            }
            proof {
                lemma_set_ref_moves(st2, local@, branch.spec_bytes());
                lemma_adds_or_moves_trans(st1, st2, local@);
                assert(moved_to(st2, local@, branch@, id@));
            }
        },
        crate::tree_merge::MergeOutcome::Merged(id) => {
            match local.set_ref(branch, *id) {
                Ok(()) => {},
                Err(e) => return Err(SyncError::Repo(e)),
            }
            proof {
                lemma_set_ref_moves(st2, local@, branch.spec_bytes());
                lemma_adds_or_moves_trans(st1, st2, local@);
                assert(moved_to(st2, local@, branch@, id@));
            }
        },
        _ => {},
    }
    Ok(outcome)
}

/// Fetches, then folds the remote's `branch` into the local `branch`
/// (creating it if absent): a fast-forward or a clean merge moves the local
/// branch; a conflict is returned, not applied. Only refs move; the caller
/// updates any working directory. Whether the fetch succeeds is up to the
/// remote; once it has, the outcome is that of `merge_fetched`.
pub fn pull<T: Remote>(
    local: &mut Repo,
    remote: &mut T,
    remote_name: &str,
    branch: &str,
    author: &str,
    timestamp: u64,
) -> (r: Result<crate::tree_merge::MergeOutcome, SyncError>)
    requires
        old(local).wf(),
    ensures
        final(local).wf(),
        r matches Ok(crate::tree_merge::MergeOutcome::FastForward(t)) ==> crate::server::ref_value(final(local)@, branch@) == Some(t@),
        r matches Ok(crate::tree_merge::MergeOutcome::Merged(id)) ==> crate::server::ref_value(final(local)@, branch@) == Some(id@),
        r matches Ok(crate::tree_merge::MergeOutcome::Conflicts(tm)) ==> tm.conflicts@.len() > 0,
        adds_or_moves_refs(old(local)@, final(local)@),
        exists|fetched: Listing| #![trigger grows_safely(old(local)@, fetched)]
            {
                &&& grows_safely(old(local)@, fetched)
                &&& refs_kept(old(local)@, fetched) || exists|body: Seq<u8>| #[trigger] ref_list(body) is Some && tracking_moves(
                    old(local)@,
                    fetched,
                    remote_name@,
                    body,
                )
                &&& (r is Err && final(local)@ == fetched) || folded(fetched, final(local)@, remote_name@, branch@, author@, timestamp, r)
            },
        final(remote).sent() == old(remote).sent().push((crate::wire::LIST_REFS, Seq::<u8>::empty(), final(remote).sent().last().2))
            || exists|body: Seq<u8>, ws: Seq<Seq<u8>>| #[trigger] fetch_sent(old(local)@, body, ws, old(remote).sent(), final(remote).sent()),
        r is Ok ==> all_accepted(final(remote).sent().skip(old(remote).sent().len() as int)),
{
    let ghost st0 = local@;
    let f = fetch(local, remote, remote_name);
    proof {
        assert forall|k: Seq<u8>| #[trigger] lookup(local@, k) != lookup(st0, k) implies added_hashed(st0, local@, k) || (k.len()
            > 0 && k[0] == 114) by {
            assert(added_object(st0, local@, k) || complete_ref(local@, k));
        }
    }
    let ghost st1 = local@;
    match f {
        Ok(_) => {},
        Err(e) => {
            assert(grows_safely(st0, st1));
            return Err(e);
        },
    }
    let r = merge_fetched(local, remote_name, branch, author, timestamp);
    proof {
        lemma_adds_or_moves_trans(st0, st1, local@);
        assert(grows_safely(st0, st1));
        match r {
            Ok(crate::tree_merge::MergeOutcome::FastForward(t)) => {
                if ref_value(st1, branch@) is Some {
                    let mid = choose|mid: Listing, res: Result<crate::tree_merge::MergeOutcome, RepoError>|
                        #[trigger] crate::tree_merge::merge_outcome(st1, mid, ref_value(st1, branch@)->Some_0, ref_value(st1, tracking_name(remote_name@, branch@))->Some_0, author@, "Merge "@ + tracking_name(remote_name@, branch@), timestamp, res) && crate::trees::only_adds(st1, mid) && match res {
                            Err(e) => r == Err::<crate::tree_merge::MergeOutcome, SyncError>(SyncError::Repo(e)) && local@ == mid,
                            Ok(o) => match o {
                                crate::tree_merge::MergeOutcome::FastForward(t) => branch_moved(mid, local@, branch@, t@, o, r),
                                crate::tree_merge::MergeOutcome::Merged(id) => branch_moved(mid, local@, branch@, id@, o, r),
                                _ => r == Ok::<crate::tree_merge::MergeOutcome, SyncError>(o) && local@ == mid,
                            },
                        };
                }
                assert(lookup(local@, ref_key(encode_utf8(branch@))) == Some(t@));
            },
            _ => {},
        }
    }
    r
}

} // verus!
