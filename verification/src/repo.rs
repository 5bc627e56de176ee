//! The repository: an immutable object store, refs and HEAD, all in one
//! ordered key-value store.
//!
//! Objects are stored under `o` + id and never modified. `get` hashes what
//! it read and compares it to the id it was asked for, so corruption (a
//! flipped bit, a tampered value) is reported, never returned as data. Refs
//! (`r/<name>` -> id) and HEAD are the only mutable state.

use vstd::prelude::*;
use vstd::string::StringSliceAdditionalSpecFns;
use vstd::utf8::{decode_utf8, decode_utf8_encode_utf8, encode_utf8, valid_utf8};

use crate::bytes::{append_bytes, bytes_eq, copy_range, string_from_utf8};
use crate::digest::sha256;
use crate::object::{
    decode_view, encode_view, id_from, law_encode_of_decode, Commit, CommitView, Object, ObjectError,
    ObjectErrorView, ObjectId, ObjectView,
};
use crate::snapshot::{entry_views, has_path, lookup, Files, Listing};

verus! {

/// Why a repository operation failed.
#[derive(Debug, Clone, PartialEq, Eq)]
pub enum RepoError {
    Object(ObjectError),
    Corrupt(ObjectId),
    Missing(ObjectId),
    WrongType(ObjectId, &'static str),
    InvalidRefName(String),
    BadHead,
}

/// What HEAD points at.
#[derive(Debug, Clone, PartialEq, Eq)]
pub enum Head {
    /// A branch name (which may not have any commits yet).
    Branch(String),
    Detached(ObjectId),
}

/// How many objects are stored, and their total size.
#[derive(Debug, Clone, Copy, PartialEq, Eq, Default)]
pub struct RepoStats {
    pub objects: usize,
    pub bytes: usize,
}

/// A repository over an ordered key-value store.
pub struct Repo {
    store: Files,
}

/// The key an object is stored under.
pub open spec fn obj_key_spec(id: Seq<u8>) -> Seq<u8> {
    seq![111u8] + id
}

/// The key a ref is stored under.
pub open spec fn ref_key(name: Seq<u8>) -> Seq<u8> {
    seq![114u8, 47] + name
}

/// The key HEAD is stored under.
pub open spec fn head_key() -> Seq<u8> {
    seq![72u8, 69, 65, 68]
}

/// The key the commit being merged in is stored under while a conflicted
/// merge is resolved.
pub open spec fn merge_head_key() -> Seq<u8> {
    seq![77u8, 69, 82, 71, 69]
}

/// A byte allowed in a ref name.
pub open spec fn ref_byte(c: u8) -> bool {
    (48 <= c <= 57) || (65 <= c <= 90) || (97 <= c <= 122) || c == 46 || c == 95 || c == 45 || c == 47
}

/// `s` holds `c` twice in a row at `i`.
pub open spec fn doubled_at(s: Seq<u8>, c: u8, i: int) -> bool {
    0 <= i && i + 1 < s.len() && s[i] == c && s[i + 1] == c
}

/// A valid ref name: non-empty, no leading or trailing `/`, no `//` or
/// `..`, and only ASCII letters, digits, `.`, `_`, `-` and `/`.
pub open spec fn valid_ref_name_spec(n: Seq<u8>) -> bool {
    &&& n.len() > 0
    &&& n[0] != 47
    &&& n[n.len() - 1] != 47
    &&& !exists|i: int| #[trigger] doubled_at(n, 47, i)
    &&& !exists|i: int| #[trigger] doubled_at(n, 46, i)
    &&& forall|i: int| 0 <= i < n.len() ==> ref_byte(#[trigger] n[i])
}

/// The key an object is stored under.
pub fn obj_key(id: &ObjectId) -> (r: Vec<u8>)
    ensures
        r@ == obj_key_spec(id@),
{
    let mut k: Vec<u8> = Vec::new();
    k.push(111);
    append_bytes(&mut k, &id.0);
    k
}

/// The key a ref is stored under.
fn ref_key_of(name: &str) -> (r: Vec<u8>)
    ensures
        r@ == ref_key(name.spec_bytes()),
{
    let mut k: Vec<u8> = Vec::new();
    k.push(114);
    k.push(47);
    append_bytes(&mut k, name.as_bytes());
    k
}

fn head_key_vec() -> (r: Vec<u8>)
    ensures
        r@ == head_key(),
{
    let mut k: Vec<u8> = Vec::new();
    k.push(72);
    k.push(69);
    k.push(65);
    k.push(68);
    k
}

fn merge_head_key_vec() -> (r: Vec<u8>)
    ensures
        r@ == merge_head_key(),
{
    let mut k: Vec<u8> = Vec::new();
    k.push(77);
    k.push(69);
    k.push(82);
    k.push(71);
    k.push(69);
    k
}

/// A valid ref name: non-empty, no leading or trailing `/`, no `//` or
/// `..`, and only ASCII letters, digits, `.`, `_`, `-` and `/`.
pub fn valid_ref_name(name: &str) -> (r: bool)
    ensures
        r == valid_ref_name_spec(name.spec_bytes()),
{
    let b = name.as_bytes();
    let ghost n = b@;
    if b.len() == 0 || b[0] == 47 || b[b.len() - 1] == 47 {
        return false;
    }
    let mut i: usize = 0;
    while i < b.len()
        invariant
            n == b@,
            n == name.spec_bytes(),
            i <= b.len(),
            forall|j: int| 0 <= j < i ==> ref_byte(#[trigger] n[j]),
            forall|j: int| #![trigger doubled_at(n, 47, j)] #![trigger doubled_at(n, 46, j)]
                j < i ==> !doubled_at(n, 47, j) && !doubled_at(n, 46, j),
        decreases b.len() - i,
    {
        let c = b[i];
        if !((48 <= c && c <= 57) || (65 <= c && c <= 90) || (97 <= c && c <= 122) || c == 46 || c == 95 || c == 45
            || c == 47) {
            assert(!ref_byte(n[i as int]));
            return false;
        }
        if i + 1 < b.len() {
            let d = b[i + 1];
            if (c == 47 && d == 47) || (c == 46 && d == 46) {
                assert(doubled_at(n, c, i as int));
                return false;
            }
        }
        i = i + 1;
    }
    proof {
        assert forall|k: int| !#[trigger] doubled_at(n, 47, k) by {
            if doubled_at(n, 47, k) {
                assert(k < i);
            }
        }
        assert forall|k: int| !#[trigger] doubled_at(n, 46, k) by {
            if doubled_at(n, 46, k) {
                assert(k < i);
            }
        }
    }
    true
}

/// What reading object `id` from `store` gives: `None` if it is absent,
/// the object if its bytes hash to `id` and decode, else the error.
pub open spec fn get_outcome(store: Listing, id: Seq<u8>, r: Result<Option<Object>, RepoError>) -> bool {
    match lookup(store, obj_key_spec(id)) {
        None => r == Ok::<Option<Object>, RepoError>(None),
        Some(b) => if sha256(b) != id {
            r matches Err(RepoError::Corrupt(c)) && c@ == id
        } else {
            match decode_view(b) {
                Ok(o) => r matches Ok(Some(x)) && x@ == o,
                Err(e) => r matches Err(RepoError::Object(x)) && x@ == e,
            }
        },
    }
}

/// The store holds, under `id`, bytes that hash to `id` and decode to `o`.
pub open spec fn stored(store: Listing, id: Seq<u8>, o: ObjectView) -> bool {
    &&& lookup(store, obj_key_spec(id)) matches Some(b)
    &&& sha256(b) == id
    &&& decode_view(b) == Ok::<ObjectView, ObjectErrorView>(o)
}

/// What HEAD resolves to: `None` if HEAD is malformed, else the commit it
/// names, if any (an unborn branch names none).
pub open spec fn head_commit_of(l: Listing) -> Option<Option<Seq<u8>>> {
    match lookup(l, head_key()) {
        None => Some(None),
        Some(v) => if v.len() >= 1 && v[0] == 0 {
            if valid_utf8(v.drop_first()) {
                match lookup(l, ref_key(v.drop_first())) {
                    Some(x) => if x.len() == 32 {
                        Some(Some(x))
                    } else {
                        Some(None)
                    },
                    None => Some(None),
                }
            } else {
                None
            }
        } else if v.len() == 33 && v[0] == 1 {
            Some(Some(v.drop_first()))
        } else {
            None
        },
    }
}

/// The refs of a store: names and ids, in key order.
pub open spec fn refs_spec(l: Listing) -> Seq<(Seq<char>, Seq<u8>)>
    decreases l.len(),
{
    if l.len() == 0 {
        seq![]
    } else {
        let (k, v) = l.last();
        refs_spec(l.drop_last()) + if k.len() >= 2 && k[0] == 114 && k[1] == 47 && v.len() == 32 && valid_utf8(
            k.subrange(2, k.len() as int),
        ) {
            seq![(decode_utf8(k.subrange(2, k.len() as int)), v)]
        } else {
            Seq::<(Seq<char>, Seq<u8>)>::empty()
        }
    }
}

/// The object ids of a store, in key order.
pub open spec fn ids_spec(l: Listing) -> Seq<Seq<u8>>
    decreases l.len(),
{
    if l.len() == 0 {
        seq![]
    } else {
        let k = l.last().0;
        ids_spec(l.drop_last()) + if k.len() == 33 && k[0] == 111 {
            seq![k.drop_first()]
        } else {
            Seq::<Seq<u8>>::empty()
        }
    }
}

/// The number of stored objects.
pub open spec fn object_count(l: Listing) -> nat
    decreases l.len(),
{
    if l.len() == 0 {
        0
    } else {
        object_count(l.drop_last()) + if l.last().0.len() >= 1 && l.last().0[0] == 111 { 1nat } else { 0nat }
    }
}

/// The total size of the stored objects.
pub open spec fn object_bytes(l: Listing) -> nat
    decreases l.len(),
{
    if l.len() == 0 {
        0
    } else {
        object_bytes(l.drop_last()) + if l.last().0.len() >= 1 && l.last().0[0] == 111 {
            l.last().1.len()
        } else {
            0nat
        }
    }
}

proof fn lemma_object_bytes_prefix(l: Listing, i: int)
    requires
        0 <= i <= l.len(),
    ensures
        object_bytes(l.subrange(0, i)) <= object_bytes(l),
    decreases l.len() - i,
{
    if i < l.len() {
        lemma_object_bytes_prefix(l, i + 1);
        assert(l.subrange(0, i + 1).drop_last() =~= l.subrange(0, i));
    } else {
        assert(l.subrange(0, i) =~= l);
    }
}

impl View for Repo {
    type V = Listing;

    closed spec fn view(&self) -> Listing {
        self.store@
    }
}

impl Repo {
    /// The store is kept sorted by key.
    pub closed spec fn wf(&self) -> bool {
        self.store.wf()
    }

    /// Confirms what always holds: the store is in key order.
    pub fn check_sorted(&self)
        ensures
            self.wf(),
    {
        self.store.check_sorted();
    }

    /// An empty repository.
    pub fn new() -> (r: Repo)
        ensures
            r.wf(),
            r@ == Seq::<(Seq<u8>, Seq<u8>)>::empty(),
    {
        Repo { store: Files::new() }
    }

    /// A repository over the given entries (keys and values, as stored).
    pub fn from_store(store: Files) -> (r: Repo)
        requires
            store.wf(),
        ensures
            r.wf(),
            r@ == store@,
    {
        Repo { store }
    }

    /// The stored entries, in key order.
    pub fn store(&self) -> (r: &Files)
        ensures
            r@ == self@,
            self.wf() ==> r.wf(),
    {
        &self.store
    }

    /// Stores an object and returns its id. Storing the same content again
    /// writes nothing.
    pub fn put(&mut self, o: &Object) -> (r: Result<ObjectId, RepoError>)
        requires
            old(self).wf(),
        ensures
            final(self).wf(),
            match encode_view(o@) {
                Err(e) => r matches Err(RepoError::Object(x)) && x@ == e && final(self)@ == old(self)@,
                Ok(b) => r matches Ok(id) && id@ == sha256(b) && forall|k: Seq<u8>| #[trigger] lookup(final(self)@, k)
                    == if k == obj_key_spec(id@) && lookup(old(self)@, k) is None {
                    Some(b)
                } else {
                    lookup(old(self)@, k)
                },
            },
    {
        let bytes = match o.encode() {
            Ok(b) => b,
            Err(e) => return Err(RepoError::Object(e)),
        };
        let id = ObjectId::of(bytes.as_slice());
        let key = obj_key(&id);
        if self.store.get(key.as_slice()).is_none() {
            self.store.insert(key, bytes);
        }
        Ok(id)
    }

    /// The object `id` is stored.
    pub fn has(&self, id: &ObjectId) -> (r: bool)
        requires
            self.wf(),
        ensures
            r == has_path(self@, obj_key_spec(id@)),
    {
        let key = obj_key(id);
        self.store.get(key.as_slice()).is_some()
    }

    /// Reads and verifies an object. `Ok(None)` if it isn't stored.
    pub fn get(&self, id: &ObjectId) -> (r: Result<Option<Object>, RepoError>)
        requires
            self.wf(),
        ensures
            get_outcome(self@, id@, r),
    {
        let key = obj_key(id);
        let bytes = match self.store.get(key.as_slice()) {
            Some(b) => b,
            None => return Ok(None),
        };
        let actual = ObjectId::of(bytes.as_slice());
        if !bytes_eq(&actual.0, &id.0) {
            return Err(RepoError::Corrupt(*id));
        }
        match Object::decode(bytes.as_slice()) {
            Ok(o) => Ok(Some(o)),
            Err(e) => Err(RepoError::Object(e)),
        }
    }

    /// Reads and verifies an object that must be there.
    pub fn require(&self, id: &ObjectId) -> (r: Result<Object, RepoError>)
        requires
            self.wf(),
        ensures
            match lookup(self@, obj_key_spec(id@)) {
                None => r matches Err(RepoError::Missing(m)) && m@ == id@,
                Some(_) => (r is Ok ==> stored(self@, id@, r->Ok_0@)) && (r is Err ==> (r matches Err(RepoError::Corrupt(c)) && c@ == id@
                    && sha256(lookup(self@, obj_key_spec(id@))->Some_0) != id@) || (r matches Err(RepoError::Object(x))
                    && sha256(lookup(self@, obj_key_spec(id@))->Some_0) == id@ && decode_view(lookup(self@, obj_key_spec(id@))->Some_0) == Err::<ObjectView, ObjectErrorView>(x@))),
            },
            (exists|o: ObjectView| stored(self@, id@, o)) ==> r is Ok,
    {
        match self.get(id) {
            Ok(Some(o)) => Ok(o),
            Ok(None) => Err(RepoError::Missing(*id)),
            Err(e) => Err(e),
        }
    }

    /// Reads a commit.
    pub fn commit_of(&self, id: &ObjectId) -> (r: Result<Commit, RepoError>)
        requires
            self.wf(),
        ensures
            r matches Ok(c) ==> stored(self@, id@, ObjectView::Commit(c@)),
            (exists|c: CommitView| stored(self@, id@, ObjectView::Commit(c))) ==> r is Ok,
            r matches Err(RepoError::WrongType(w, k)) ==> w@ == id@ && k@ == "commit"@,
            (lookup(self@, obj_key_spec(id@)) is None) <==> r matches Err(RepoError::Missing(_)),
            r matches Err(RepoError::Missing(m)) ==> m@ == id@,
    {
        match self.require(id) {
            Ok(Object::Commit(c)) => Ok(c),
            Ok(_) => Err(RepoError::WrongType(*id, "commit")),
            Err(e) => Err(e),
        }
    }

    /// Stores the object whose canonical encoding is exactly `bytes`,
    /// returning its id. Anything that is not the canonical encoding of a
    /// valid object is rejected, so a peer cannot plant malformed or
    /// non-canonical data.
    pub fn put_raw(&mut self, bytes: &[u8]) -> (r: Result<ObjectId, RepoError>)
        requires
            old(self).wf(),
        ensures
            final(self).wf(),
            match decode_view(bytes@) {
                Err(e) => r matches Err(RepoError::Object(x)) && x@ == e && final(self)@ == old(self)@,
                Ok(_) => r matches Ok(id) && id@ == sha256(bytes@) && forall|k: Seq<u8>| #[trigger] lookup(final(self)@, k)
                    == if k == obj_key_spec(id@) && lookup(old(self)@, k) is None {
                    Some(bytes@)
                } else {
                    lookup(old(self)@, k)
                },
            },
    {
        let obj = match Object::decode(bytes) {
            Ok(o) => o,
            Err(e) => return Err(RepoError::Object(e)),
        };
        proof {
            law_encode_of_decode(bytes@);
        }
        self.put(&obj)
    }

    /// The canonical bytes of a stored object (verified on the way out).
    pub fn raw(&self, id: &ObjectId) -> (r: Result<Vec<u8>, RepoError>)
        requires
            self.wf(),
        ensures
            r matches Ok(b) ==> lookup(self@, obj_key_spec(id@)) == Some(b@) && sha256(b@) == id@ && decode_view(b@) is Ok,
            (exists|o: ObjectView| stored(self@, id@, o)) ==> r is Ok,
    {
        let o = match self.require(id) {
            Ok(o) => o,
            Err(e) => return Err(e),
        };
        proof {
            law_encode_of_decode(lookup(self@, obj_key_spec(id@))->Some_0);
        }
        match o.encode() {
            Ok(b) => Ok(b),
            Err(e) => Err(RepoError::Object(e)),
        }
    }

    /// Sets a ref.
    pub fn set_ref(&mut self, name: &str, id: ObjectId) -> (r: Result<(), RepoError>)
        requires
            old(self).wf(),
        ensures
            final(self).wf(),
            !valid_ref_name_spec(name.spec_bytes()) ==> (r matches Err(RepoError::InvalidRefName(s)) && s@ == name@
                && final(self)@ == old(self)@),
            valid_ref_name_spec(name.spec_bytes()) ==> r is Ok && forall|k: Seq<u8>| #[trigger] lookup(final(self)@, k)
                == if k == ref_key(name.spec_bytes()) {
                Some(id@)
            } else {
                lookup(old(self)@, k)
            },
    {
        if !valid_ref_name(name) {
            return Err(RepoError::InvalidRefName(name.to_string()));
        }
        let key = ref_key_of(name);
        let mut v: Vec<u8> = Vec::new();
        append_bytes(&mut v, &id.0);
        self.store.insert(key, v);
        Ok(())
    }

    /// The id a ref names, if it is set (and holds an id).
    pub fn get_ref(&self, name: &str) -> (r: Option<ObjectId>)
        requires
            self.wf(),
        ensures
            match lookup(self@, ref_key(name.spec_bytes())) {
                Some(v) => if v.len() == 32 {
                    r matches Some(id) && id@ == v
                } else {
                    r is None
                },
                None => r is None,
            },
    {
        let key = ref_key_of(name);
        match self.store.get(key.as_slice()) {
            Some(v) => if v.len() == 32 {
                let id = id_from(v.as_slice(), 0);
                assert(v@.subrange(0, 32) =~= v@);
                Some(id)
            } else {
                None
            },
            None => None,
        }
    }

    /// Removes a ref.
    pub fn delete_ref(&mut self, name: &str) -> (r: Result<(), RepoError>)
        requires
            old(self).wf(),
        ensures
            final(self).wf(),
            r is Ok,
            forall|k: Seq<u8>| #[trigger] lookup(final(self)@, k) == if k == ref_key(name.spec_bytes()) {
                None
            } else {
                lookup(old(self)@, k)
            },
    {
        let key = ref_key_of(name);
        self.store.remove(key.as_slice());
        Ok(())
    }

    /// Records the commit being merged in while conflicts are resolved.
    pub fn set_merge_head(&mut self, id: &ObjectId) -> (r: Result<(), RepoError>)
        requires
            old(self).wf(),
        ensures
            final(self).wf(),
            r is Ok,
            forall|k: Seq<u8>| #[trigger] lookup(final(self)@, k) == if k == merge_head_key() {
                Some(id@)
            } else {
                lookup(old(self)@, k)
            },
    {
        let mut v: Vec<u8> = Vec::new();
        append_bytes(&mut v, &id.0);
        self.store.insert(merge_head_key_vec(), v);
        Ok(())
    }

    /// The commit being merged in, while a conflicted merge is unresolved.
    pub fn merge_head(&self) -> (r: Option<ObjectId>)
        requires
            self.wf(),
        ensures
            match lookup(self@, merge_head_key()) {
                Some(v) => if v.len() == 32 {
                    r matches Some(id) && id@ == v
                } else {
                    r is None
                },
                None => r is None,
            },
    {
        let key = merge_head_key_vec();
        match self.store.get(key.as_slice()) {
            Some(v) => if v.len() == 32 {
                let id = id_from(v.as_slice(), 0);
                assert(v@.subrange(0, 32) =~= v@);
                Some(id)
            } else {
                None
            },
            None => None,
        }
    }

    /// Forgets the commit being merged in.
    pub fn clear_merge_head(&mut self) -> (r: Result<(), RepoError>)
        requires
            old(self).wf(),
        ensures
            final(self).wf(),
            r is Ok,
            forall|k: Seq<u8>| #[trigger] lookup(final(self)@, k) == if k == merge_head_key() {
                None
            } else {
                lookup(old(self)@, k)
            },
    {
        let key = merge_head_key_vec();
        self.store.remove(key.as_slice());
        Ok(())
    }

    /// Points HEAD at a branch (a valid ref name) or a commit.
    pub fn set_head(&mut self, head: &Head) -> (r: Result<(), RepoError>)
        requires
            old(self).wf(),
        ensures
            final(self).wf(),
            match head {
                Head::Branch(name) => if valid_ref_name_spec(encode_utf8(name@)) {
                    r is Ok && forall|k: Seq<u8>| #[trigger] lookup(final(self)@, k) == if k == head_key() {
                        Some(seq![0u8] + encode_utf8(name@))
                    } else {
                        lookup(old(self)@, k)
                    }
                } else {
                    (r matches Err(RepoError::InvalidRefName(s)) && s@ == name@ && final(self)@ == old(self)@)
                },
                Head::Detached(id) => r is Ok && forall|k: Seq<u8>| #[trigger] lookup(final(self)@, k) == if k == head_key() {
                    Some(seq![1u8] + id@)
                } else {
                    lookup(old(self)@, k)
                },
            },
    {
        let mut v: Vec<u8> = Vec::new();
        match head {
            Head::Branch(name) => {
                if !valid_ref_name(name.as_str()) {
                    return Err(RepoError::InvalidRefName(name.clone()));
                }
                v.push(0);
                append_bytes(&mut v, name.as_str().as_bytes());
            },
            Head::Detached(id) => {
                v.push(1);
                append_bytes(&mut v, &id.0);
            },
        }
        self.store.insert(head_key_vec(), v);
        Ok(())
    }

    /// What HEAD points at, if it is set.
    pub fn head(&self) -> (r: Result<Option<Head>, RepoError>)
        requires
            self.wf(),
        ensures
            match lookup(self@, head_key()) {
                None => r == Ok::<Option<Head>, RepoError>(None),
                Some(v) => if v.len() >= 1 && v[0] == 0 {
                    if valid_utf8(v.drop_first()) {
                        r matches Ok(Some(Head::Branch(s))) && s@ == decode_utf8(v.drop_first())
                    } else {
                        r matches Err(RepoError::BadHead)
                    }
                } else if v.len() == 33 && v[0] == 1 {
                    r matches Ok(Some(Head::Detached(id))) && id@ == v.drop_first()
                } else {
                    r matches Err(RepoError::BadHead)
                },
            },
    {
        let key = head_key_vec();
        let v = match self.store.get(key.as_slice()) {
            Some(v) => v,
            None => return Ok(None),
        };
        if v.len() >= 1 && v[0] == 0 {
            let name = copy_range(v.as_slice(), 1, v.len());
            assert(v@.subrange(1, v@.len() as int) =~= v@.drop_first());
            match string_from_utf8(name) {
                Some(s) => Ok(Some(Head::Branch(s))),
                None => Err(RepoError::BadHead),
            }
        } else if v.len() == 33 && v[0] == 1 {
            let id = id_from(v.as_slice(), 1);
            assert(v@.subrange(1, 33) =~= v@.drop_first());
            Ok(Some(Head::Detached(id)))
        } else {
            Err(RepoError::BadHead)
        }
    }

    /// The commit HEAD currently resolves to, if any.
    pub fn head_commit(&self) -> (r: Result<Option<ObjectId>, RepoError>)
        requires
            self.wf(),
        ensures
            match head_commit_of(self@) {
                None => r matches Err(RepoError::BadHead),
                Some(None) => r == Ok::<Option<ObjectId>, RepoError>(None),
                Some(Some(v)) => r matches Ok(Some(id)) && id@ == v,
            },
    {
        match self.head() {
            Err(e) => Err(e),
            Ok(None) => Ok(None),
            Ok(Some(Head::Detached(id))) => Ok(Some(id)),
            Ok(Some(Head::Branch(name))) => {
                proof {
                    let v = lookup(self@, head_key())->Some_0;
                    decode_utf8_encode_utf8(v.drop_first());
                }
                let n = name.as_str();
                assert(n.spec_bytes() == encode_utf8(name@));
                Ok(self.get_ref(n))
            },
        }
    }

    /// All refs with valid names and ids, sorted by name.
    pub fn refs(&self) -> (r: Vec<(String, ObjectId)>)
        requires
            self.wf(),
        ensures
            r@.map_values(|e: (String, ObjectId)| (e.0@, e.1@)) == refs_spec(self@),
    {
        let es = self.store.entries();
        let mut out: Vec<(String, ObjectId)> = Vec::new();
        let mut i: usize = 0;
        assert(self@.subrange(0, 0) =~= Seq::<(Seq<u8>, Seq<u8>)>::empty());
        while i < es.len()
            invariant
                entry_views(es@) == self@,
                i <= es@.len(),
                out@.map_values(|e: (String, ObjectId)| (e.0@, e.1@)) == refs_spec(self@.subrange(0, i as int)),
            decreases es@.len() - i,
        {
            let k = es[i].0.as_slice();
            let v = es[i].1.as_slice();
            let ghost before = out@.map_values(|e: (String, ObjectId)| (e.0@, e.1@));
            proof {
                let sub = self@.subrange(0, i + 1);
                assert(sub.drop_last() =~= self@.subrange(0, i as int));
                assert(sub.last() == (k@, v@));
            }
            if k.len() >= 2 && k[0] == 114 && k[1] == 47 && v.len() == 32 {
                let name = copy_range(k, 2, k.len());
                match string_from_utf8(name) {
                    Some(s) => {
                        let id = id_from(v, 0);
                        assert(v@.subrange(0, 32) =~= v@);
                        let ghost sv = s@;
                        out.push((s, id));
                        assert(out@.map_values(|e: (String, ObjectId)| (e.0@, e.1@)) =~= before.push((sv, v@)));
                    },
                    None => {
                        assert(out@.map_values(|e: (String, ObjectId)| (e.0@, e.1@)) =~= before);
                    },
                }
            }
            i = i + 1;
        }
        assert(self@.subrange(0, self@.len() as int) =~= self@);
        out
    }

    /// Every stored object id, in id order.
    pub fn object_ids(&self) -> (r: Vec<ObjectId>)
        requires
            self.wf(),
        ensures
            r@.map_values(|id: ObjectId| id@) == ids_spec(self@),
    {
        let es = self.store.entries();
        let mut out: Vec<ObjectId> = Vec::new();
        let mut i: usize = 0;
        assert(self@.subrange(0, 0) =~= Seq::<(Seq<u8>, Seq<u8>)>::empty());
        while i < es.len()
            invariant
                entry_views(es@) == self@,
                i <= es@.len(),
                out@.map_values(|id: ObjectId| id@) == ids_spec(self@.subrange(0, i as int)),
            decreases es@.len() - i,
        {
            let k = es[i].0.as_slice();
            let ghost before = out@.map_values(|id: ObjectId| id@);
            proof {
                let sub = self@.subrange(0, i + 1);
                assert(sub.drop_last() =~= self@.subrange(0, i as int));
                assert(sub.last().0 == k@);
            }
            if k.len() == 33 && k[0] == 111 {
                let id = id_from(k, 1);
                out.push(id);
                assert(k@.subrange(1, 33) =~= k@.drop_first());
                assert(out@.map_values(|id: ObjectId| id@) =~= before.push(k@.drop_first()));
            }
            i = i + 1;
        }
        assert(self@.subrange(0, self@.len() as int) =~= self@);
        out
    }

    /// How many objects are stored, and their total size.
    pub fn stats(&self) -> (r: RepoStats)
        requires
            self.wf(),
            object_bytes(self@) <= usize::MAX,
        ensures
            r.objects == object_count(self@),
            r.bytes == object_bytes(self@),
    {
        let es = self.store.entries();
        let mut objects: usize = 0;
        let mut bytes: usize = 0;
        let mut i: usize = 0;
        assert(self@.subrange(0, 0) =~= Seq::<(Seq<u8>, Seq<u8>)>::empty());
        while i < es.len()
            invariant
                entry_views(es@) == self@,
                i <= es@.len(),
                object_bytes(self@) <= usize::MAX,
                objects == object_count(self@.subrange(0, i as int)),
                bytes == object_bytes(self@.subrange(0, i as int)),
                objects <= i,
            decreases es@.len() - i,
        {
            let k = es[i].0.as_slice();
            proof {
                let sub = self@.subrange(0, i + 1);
                assert(sub.drop_last() =~= self@.subrange(0, i as int));
                assert(sub.last() == (k@, es@[i as int].1@));
                lemma_object_bytes_prefix(self@, i + 1);
            }
            if k.len() >= 1 && k[0] == 111 {
                objects = objects + 1;
                bytes = bytes + es[i].1.len();
            }
            i = i + 1;
        }
        assert(self@.subrange(0, self@.len() as int) =~= self@);
        RepoStats { objects, bytes }
    }
}

/// What a read gives back of a write: once `put` has filed an object's
/// encoding under its id (the slot was free, or already held those very
/// bytes), `get` of that id returns the object.
pub proof fn law_read_after_write(before: Listing, after: Listing, o: ObjectView)
    requires
        crate::object::well_formed(o),
        encode_view(o) is Ok,
        lookup(before, obj_key_spec(sha256(encode_view(o)->Ok_0))) is None || lookup(
            before,
            obj_key_spec(sha256(encode_view(o)->Ok_0)),
        ) == Some(encode_view(o)->Ok_0),
        lookup(after, obj_key_spec(sha256(encode_view(o)->Ok_0))) == if lookup(
            before,
            obj_key_spec(sha256(encode_view(o)->Ok_0)),
        ) is None {
            Some(encode_view(o)->Ok_0)
        } else {
            lookup(before, obj_key_spec(sha256(encode_view(o)->Ok_0)))
        },
    ensures
        stored(after, sha256(encode_view(o)->Ok_0), o),
        forall|r: Result<Option<Object>, RepoError>|
            #[trigger] get_outcome(after, sha256(encode_view(o)->Ok_0), r) ==> (r matches Ok(Some(x)) && x@ == o),
{
    crate::object::law_decode_of_encode(o);
}

} // verus!
