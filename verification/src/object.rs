//! Immutable, content-addressed objects: blob, tree, commit.
//!
//! An object's bytes are `kind byte || payload`, and its id is the SHA-256
//! of exactly those bytes, so anything that stores an object under its id
//! can verify it by hashing what it read. Encoding is canonical: one
//! logical object has exactly one byte string and therefore one id. Tree
//! entries are kept sorted by name; a decoder rejects an unsorted or
//! duplicated tree rather than normalizing it.
//!
//! ```text
//! blob:   0x01, content
//! tree:   0x02, count u32 LE, count x (kind u8, name_len u16 LE, name, id[32])
//!         kind: 0 = file, 1 = directory; names strictly ascending by bytes
//! commit: 0x03, tree id[32], parent_count u8, parents x id[32],
//!         timestamp u64 LE, author_len u16 LE, author, message_len u32 LE, message
//! ```
//! The timestamp is supplied by the caller: nothing here reads a clock.

use vstd::prelude::*;
use vstd::utf8::{
    decode_utf8, decode_utf8_encode_utf8, encode_utf8, encode_utf8_decode_utf8, encode_utf8_valid_utf8,
    is_ascii_chars, is_ascii_chars_encode_utf8, valid_utf8,
};

use crate::bytes::{
    append_bytes, bytes_eq, compare_bytes, copy_range, le_bytes, le_value, lemma_byte_range_values,
    lemma_le_round_trip, lemma_le_value_bytes, lemma_lex_equal, lemma_lex_flip, lemma_lex_trans, lex,
    lex_lt, push_le, read_le, string_from_utf8, string_of_ascii, ascii_chars, all_ascii, Order,
};
use crate::digest::{sha256, sha256_digest};

verus! {

/// The name of an object: the SHA-256 of its canonical bytes.
#[derive(Clone, Copy, Debug, PartialEq, Eq, PartialOrd, Ord, Hash)]
pub struct ObjectId(pub [u8; 32]);

impl View for ObjectId {
    type V = Seq<u8>;

    open spec fn view(&self) -> Seq<u8> {
        self.0@
    }
}

impl ObjectId {
    /// The id of the object whose stored bytes are `bytes`.
    pub fn of(bytes: &[u8]) -> (r: ObjectId)
        ensures
            r@ == sha256(bytes@),
    {
        id_from(sha256_digest(bytes).as_slice(), 0)
    }

    /// The id as 64 lowercase hexadecimal digits.
    pub fn to_hex(&self) -> (r: String)
        ensures
            r@ == ascii_chars(hex_bytes(self@)),
    {
        string_of_ascii(self.hex_digits())
    }

    /// The id's 64 lowercase hexadecimal digits, as ASCII bytes.
    pub fn hex_digits(&self) -> (r: Vec<u8>)
        ensures
            r@ == hex_bytes(self@),
            r@.len() == 64,
            all_ascii(r@),
    {
        let mut out: Vec<u8> = Vec::new();
        let mut i: usize = 0;
        while i < 32
            invariant
                i <= 32,
                out@ == hex_bytes(self@.subrange(0, i as int)),
                out@.len() == 2 * i,
                all_ascii(out@),
            decreases 32 - i,
        {
            let b = self.0[i];
            proof {
                lemma_hex_bytes_push(self@.subrange(0, i as int), b);
                assert(self@.subrange(0, i + 1) =~= self@.subrange(0, i as int).push(b));
            }
            out.push(hex_digit(b / 16));
            out.push(hex_digit(b % 16));
            i += 1;
        }
        assert(self@.subrange(0, 32) =~= self@);
        out
    }

    /// Parses 64 hexadecimal digits (either case). Like `u8::from_str_radix`
    /// on each pair of characters, a pair may also be `+` and one digit.
    pub fn from_hex(s: &str) -> (r: Option<ObjectId>)
        ensures
            match r {
                Some(id) => is_ascii_chars(s@) && s@.len() == 64 && hex_parse(
                    ascii_bytes(s@),
                ) == Some(id@),
                None => !(is_ascii_chars(s@) && s@.len() == 64 && hex_parse(ascii_bytes(s@))
                    is Some),
            },
    {
        let b = s.as_bytes();
        if b.len() != 64 || !s.is_ascii() {
            proof {
                if is_ascii_chars(s@) {
                    is_ascii_chars_encode_utf8(s@);
                }
            }
            return None;
        }
        proof {
            is_ascii_chars_encode_utf8(s@);
            assert(b@ =~= ascii_bytes(s@));
        }
        let mut a = [0u8; 32];
        let mut i: usize = 0;
        while i < 32
            invariant
                i <= 32,
                b@.len() == 64,
                b@ == ascii_bytes(s@),
                is_ascii_chars(s@),
                s@.len() == 64,
                hex_parse(b@) == hex_parse_from(b@, 0),
                forall|j: int| 0 <= j < i ==> hex_pair(b@[2 * j], b@[2 * j + 1]) == Some(#[trigger] a@[j]),
            decreases 32 - i,
        {
            match pair_value(b[2 * i], b[2 * i + 1]) {
                Some(v) => {
                    a[i] = v;
                },
                None => {
                    proof {
                        lemma_hex_parse_fails(b@, i as int);
                    }
                    return None;
                },
            }
            i += 1;
        }
        let id = ObjectId(a);
        proof {
            lemma_hex_parse_succeeds(b@, id@);
        }
        Some(id)
    }

    /// Equality of ids.
    pub fn same(&self, other: &ObjectId) -> (r: bool)
        ensures
            r == (self@ == other@),
            r == (*self == *other),
    {
        let r = bytes_eq(&self.0, &other.0);
        proof {
            if self@ == other@ {
                vstd::array::axiom_array_ext_equal(self.0, other.0);
            }
        }
        r
    }
}

/// The ASCII digit for a value below 16 (`0`-`9`, `a`-`f`).
pub open spec fn hex_digit_spec(n: u8) -> u8 {
    if n < 10 {
        (48 + n) as u8
    } else {
        (87 + n) as u8
    }
}

/// The ASCII digit for a value below 16.
#[verifier::when_used_as_spec(hex_digit_spec)]
pub fn hex_digit(n: u8) -> (r: u8)
    requires
        n < 16,
    ensures
        r == hex_digit_spec(n),
        r < 128,
{
    if n < 10 {
        48 + n
    } else {
        87 + n
    }
}

/// Two lowercase hex digits per byte.
pub open spec fn hex_bytes(s: Seq<u8>) -> Seq<u8>
    decreases s.len(),
{
    if s.len() == 0 {
        seq![]
    } else {
        hex_bytes(s.drop_last()) + seq![hex_digit_spec(s.last() / 16), hex_digit_spec(s.last() % 16)]
    }
}

proof fn lemma_hex_bytes_push(s: Seq<u8>, b: u8)
    ensures
        hex_bytes(s.push(b)) == hex_bytes(s) + seq![hex_digit_spec(b / 16), hex_digit_spec(b % 16)],
{
    assert(s.push(b).drop_last() =~= s);
}

/// The bytes of ASCII characters.
pub open spec fn ascii_bytes(c: Seq<char>) -> Seq<u8> {
    c.map_values(|x: char| x as u8)
}

/// The value of one hexadecimal digit byte (either case).
pub open spec fn digit_value(c: u8) -> Option<u8> {
    if 48 <= c <= 57 {
        Some((c - 48) as u8)
    } else if 97 <= c <= 102 {
        Some((c - 87) as u8)
    } else if 65 <= c <= 70 {
        Some((c - 55) as u8)
    } else {
        None
    }
}

/// What `u8::from_str_radix(.., 16)` makes of two characters: two digits,
/// or `+` and one digit.
pub open spec fn hex_pair(c0: u8, c1: u8) -> Option<u8> {
    if c0 == 43 {
        digit_value(c1)
    } else {
        match (digit_value(c0), digit_value(c1)) {
            (Some(h), Some(l)) => Some((h * 16 + l) as u8),
            _ => None,
        }
    }
}

/// The 32 bytes spelled by 64 hex characters starting at pair `i`.
pub open spec fn hex_parse_from(b: Seq<u8>, i: int) -> Option<Seq<u8>>
    decreases 32 - i,
{
    if i >= 32 {
        Some(seq![])
    } else {
        match (hex_pair(b[2 * i], b[2 * i + 1]), hex_parse_from(b, i + 1)) {
            (Some(v), Some(rest)) => Some(seq![v] + rest),
            _ => None,
        }
    }
}

/// The 32 bytes spelled by 64 hex characters, if they all parse.
pub open spec fn hex_parse(b: Seq<u8>) -> Option<Seq<u8>> {
    if b.len() == 64 {
        hex_parse_from(b, 0)
    } else {
        None
    }
}

proof fn lemma_hex_parse_fails(b: Seq<u8>, i: int)
    requires
        b.len() == 64,
        0 <= i < 32,
        hex_pair(b[2 * i], b[2 * i + 1]) is None,
    ensures
        hex_parse(b) is None,
{
    lemma_hex_parse_from_fails(b, 0, i);
}

proof fn lemma_hex_parse_from_fails(b: Seq<u8>, k: int, i: int)
    requires
        0 <= k <= i < 32,
        hex_pair(b[2 * i], b[2 * i + 1]) is None,
    ensures
        hex_parse_from(b, k) is None,
    decreases i - k,
{
    if k < i {
        lemma_hex_parse_from_fails(b, k + 1, i);
    }
}

proof fn lemma_hex_parse_succeeds(b: Seq<u8>, a: Seq<u8>)
    requires
        b.len() == 64,
        a.len() == 32,
        forall|j: int| 0 <= j < 32 ==> hex_pair(b[2 * j], b[2 * j + 1]) == Some(#[trigger] a[j]),
    ensures
        hex_parse(b) == Some(a),
{
    lemma_hex_parse_from_succeeds(b, a, 0);
    assert(a.subrange(0, 32) =~= a);
}

proof fn lemma_hex_parse_from_succeeds(b: Seq<u8>, a: Seq<u8>, k: int)
    requires
        b.len() == 64,
        a.len() == 32,
        0 <= k <= 32,
        forall|j: int| 0 <= j < 32 ==> hex_pair(b[2 * j], b[2 * j + 1]) == Some(#[trigger] a[j]),
    ensures
        hex_parse_from(b, k) == Some(a.subrange(k, 32)),
    decreases 32 - k,
{
    if k < 32 {
        lemma_hex_parse_from_succeeds(b, a, k + 1);
        assert(a.subrange(k, 32) =~= seq![a[k]] + a.subrange(k + 1, 32));
    } else {
        assert(a.subrange(32, 32) =~= Seq::<u8>::empty());
    }
}

/// The value of one hexadecimal digit byte.
fn digit(c: u8) -> (r: Option<u8>)
    ensures
        r == digit_value(c),
{
    if 48 <= c && c <= 57 {
        Some(c - 48)
    } else if 97 <= c && c <= 102 {
        Some(c - 87)
    } else if 65 <= c && c <= 70 {
        Some(c - 55)
    } else {
        None
    }
}

/// `hex_pair` computed.
fn pair_value(c0: u8, c1: u8) -> (r: Option<u8>)
    ensures
        r == hex_pair(c0, c1),
{
    if c0 == 43 {
        return digit(c1);
    }
    match (digit(c0), digit(c1)) {
        (Some(h), Some(l)) => Some(h * 16 + l),
        _ => None,
    }
}

/// The id whose 32 bytes are `s[from..from + 32]`.
pub fn id_from(s: &[u8], from: usize) -> (r: ObjectId)
    requires
        from + 32 <= s.len(),
    ensures
        r@ == s@.subrange(from as int, from + 32),
{
    let mut a = [0u8; 32];
    let mut i: usize = 0;
    while i < 32
        invariant
            i <= 32,
            from + 32 <= s.len(),
            forall|j: int| 0 <= j < i ==> a@[j] == s@[from + j],
        decreases 32 - i,
    {
        a[i] = s[from + i];
        i += 1;
    }
    let r = ObjectId(a);
    assert(r@ =~= s@.subrange(from as int, from + 32));
    r
}

/// Whether a tree entry is a file or a directory.
#[derive(Clone, Copy, Debug, PartialEq, Eq, PartialOrd, Ord, Hash, Structural)]
pub enum EntryKind {
    File,
    Dir,
}

/// One named entry of a tree.
#[derive(Clone, Debug, PartialEq, Eq)]
pub struct TreeEntry {
    pub name: Vec<u8>,
    pub kind: EntryKind,
    pub id: ObjectId,
}

/// A tree entry as a value.
#[verifier::ext_equal]
pub struct EntryView {
    pub name: Seq<u8>,
    pub kind: EntryKind,
    pub id: Seq<u8>,
}

impl View for TreeEntry {
    type V = EntryView;

    open spec fn view(&self) -> EntryView {
        EntryView { name: self.name@, kind: self.kind, id: self.id@ }
    }
}

/// A directory listing, always in canonical order: names strictly
/// ascending by bytes, each name valid.
#[derive(Debug, PartialEq, Eq)]
pub struct Tree {
    entries: Vec<TreeEntry>,
}

impl View for Tree {
    type V = Seq<EntryView>;

    closed spec fn view(&self) -> Seq<EntryView> {
        self.entries@.map_values(|e: TreeEntry| e@)
    }
}

/// A commit: a snapshot (tree), its parents in order, and metadata.
#[derive(Clone, Debug, PartialEq, Eq)]
pub struct Commit {
    pub tree: ObjectId,
    pub parents: Vec<ObjectId>,
    pub timestamp: u64,
    pub author: String,
    pub message: String,
}

/// A commit as a value.
#[verifier::ext_equal]
pub struct CommitView {
    pub tree: Seq<u8>,
    pub parents: Seq<Seq<u8>>,
    pub timestamp: u64,
    pub author: Seq<char>,
    pub message: Seq<char>,
}

impl View for Commit {
    type V = CommitView;

    open spec fn view(&self) -> CommitView {
        CommitView {
            tree: self.tree@,
            parents: self.parents@.map_values(|p: ObjectId| p@),
            timestamp: self.timestamp,
            author: self.author@,
            message: self.message@,
        }
    }
}

/// A stored object.
#[derive(Clone, Debug, PartialEq, Eq)]
pub enum Object {
    Blob(Vec<u8>),
    Tree(Tree),
    Commit(Commit),
}

/// An object as a value.
#[verifier::ext_equal]
pub enum ObjectView {
    Blob(Seq<u8>),
    Tree(Seq<EntryView>),
    Commit(CommitView),
}

impl View for Object {
    type V = ObjectView;

    open spec fn view(&self) -> ObjectView {
        match self {
            Object::Blob(d) => ObjectView::Blob(d@),
            Object::Tree(t) => ObjectView::Tree(t@),
            Object::Commit(c) => ObjectView::Commit(c@),
        }
    }
}

/// Why bytes are not an object, or an object cannot be encoded.
#[derive(Clone, Debug, PartialEq, Eq)]
pub enum ObjectError {
    Empty,
    UnknownKind(u8),
    Truncated,
    TrailingBytes,
    InvalidName(Vec<u8>),
    DuplicateName(Vec<u8>),
    UnsortedTree,
    UnknownEntryKind(u8),
    InvalidUtf8,
    TooManyParents,
    TooLong,
}

/// An object error as a value.
#[verifier::ext_equal]
pub enum ObjectErrorView {
    Empty,
    UnknownKind(u8),
    Truncated,
    TrailingBytes,
    InvalidName(Seq<u8>),
    DuplicateName(Seq<u8>),
    UnsortedTree,
    UnknownEntryKind(u8),
    InvalidUtf8,
    TooManyParents,
    TooLong,
}

impl View for ObjectError {
    type V = ObjectErrorView;

    open spec fn view(&self) -> ObjectErrorView {
        match self {
            ObjectError::Empty => ObjectErrorView::Empty,
            ObjectError::UnknownKind(k) => ObjectErrorView::UnknownKind(*k),
            ObjectError::Truncated => ObjectErrorView::Truncated,
            ObjectError::TrailingBytes => ObjectErrorView::TrailingBytes,
            ObjectError::InvalidName(n) => ObjectErrorView::InvalidName(n@),
            ObjectError::DuplicateName(n) => ObjectErrorView::DuplicateName(n@),
            ObjectError::UnsortedTree => ObjectErrorView::UnsortedTree,
            ObjectError::UnknownEntryKind(k) => ObjectErrorView::UnknownEntryKind(*k),
            ObjectError::InvalidUtf8 => ObjectErrorView::InvalidUtf8,
            ObjectError::TooManyParents => ObjectErrorView::TooManyParents,
            ObjectError::TooLong => ObjectErrorView::TooLong,
        }
    }
}

/// A usable entry name: non-empty, not `.` or `..`, no `/`, no NUL.
pub open spec fn valid_name(name: Seq<u8>) -> bool {
    &&& name.len() > 0
    &&& name != seq![46u8]
    &&& name != seq![46u8, 46u8]
    &&& !name.contains(47u8)
    &&& !name.contains(0u8)
}

/// Checks `valid_name`.
pub fn is_valid_name(name: &[u8]) -> (r: bool)
    ensures
        r == valid_name(name@),
{
    if name.len() == 0 {
        return false;
    }
    if name.len() == 1 && name[0] == 46 {
        assert(name@ =~= seq![46u8]);
        return false;
    }
    if name.len() == 2 && name[0] == 46 && name[1] == 46 {
        assert(name@ =~= seq![46u8, 46u8]);
        return false;
    }
    let mut i: usize = 0;
    while i < name.len()
        invariant
            i <= name.len(),
            forall|j: int| 0 <= j < i ==> name@[j] != 47u8 && name@[j] != 0u8,
        decreases name.len() - i,
    {
        if name[i] == 47 || name[i] == 0 {
            assert(name@.contains(name@[i as int]));
            return false;
        }
        i += 1;
    }
    true
}

/// The byte that encodes an entry kind.
pub open spec fn kind_byte(k: EntryKind) -> u8 {
    match k {
        EntryKind::File => 0,
        EntryKind::Dir => 1,
    }
}

/// The encoding of one tree entry.
pub open spec fn entry_bytes(e: EntryView) -> Seq<u8> {
    seq![kind_byte(e.kind)] + le_bytes(e.name.len(), 2) + e.name + e.id
}

/// The encodings of tree entries, concatenated in order.
pub open spec fn entries_bytes(es: Seq<EntryView>) -> Seq<u8>
    decreases es.len(),
{
    if es.len() == 0 {
        seq![]
    } else {
        entry_bytes(es[0]) + entries_bytes(es.drop_first())
    }
}

/// Ids concatenated in order.
pub open spec fn ids_bytes(ids: Seq<Seq<u8>>) -> Seq<u8>
    decreases ids.len(),
{
    if ids.len() == 0 {
        seq![]
    } else {
        ids[0] + ids_bytes(ids.drop_first())
    }
}

/// The canonical bytes of an object, or why it cannot be encoded (a field
/// too long for its length prefix, more than 255 parents). A tree's entry
/// count is written as its low 32 bits.
pub open spec fn encode_view(o: ObjectView) -> Result<Seq<u8>, ObjectErrorView> {
    match o {
        ObjectView::Blob(d) => Ok(seq![1u8] + d),
        ObjectView::Tree(es) => {
            if exists|i: int| #![trigger es[i]] 0 <= i < es.len() && es[i].name.len() > 0xffff {
                Err(ObjectErrorView::TooLong)
            } else {
                Ok(seq![2u8] + le_bytes(es.len(), 4) + entries_bytes(es))
            }
        },
        ObjectView::Commit(c) => {
            let a = encode_utf8(c.author);
            let m = encode_utf8(c.message);
            if c.parents.len() > 255 {
                Err(ObjectErrorView::TooManyParents)
            } else if a.len() > 0xffff {
                Err(ObjectErrorView::TooLong)
            } else if m.len() > 0xffff_ffff {
                Err(ObjectErrorView::TooLong)
            } else {
                Ok(seq![3u8] + c.tree + seq![c.parents.len() as u8] + ids_bytes(c.parents)
                    + le_bytes(c.timestamp as nat, 8) + le_bytes(a.len(), 2) + a + le_bytes(
                    m.len(),
                    4,
                ) + m)
            }
        },
    }
}

proof fn lemma_entries_bytes_push(es: Seq<EntryView>, e: EntryView)
    ensures
        entries_bytes(es.push(e)) == entries_bytes(es) + entry_bytes(e),
    decreases es.len(),
{
    if es.len() == 0 {
        assert(es.push(e).drop_first() =~= Seq::<EntryView>::empty());
        assert(entries_bytes(Seq::<EntryView>::empty()) =~= Seq::<u8>::empty());
        assert(entries_bytes(es.push(e)) =~= entry_bytes(e));
    } else {
        lemma_entries_bytes_push(es.drop_first(), e);
        assert(es.push(e).drop_first() =~= es.drop_first().push(e));
        assert(entries_bytes(es.push(e)) =~= entries_bytes(es) + entry_bytes(e));
    }
}

proof fn lemma_ids_bytes_push(ids: Seq<Seq<u8>>, id: Seq<u8>)
    ensures
        ids_bytes(ids.push(id)) == ids_bytes(ids) + id,
    decreases ids.len(),
{
    if ids.len() == 0 {
        assert(ids.push(id).drop_first() =~= Seq::<Seq<u8>>::empty());
        assert(ids_bytes(Seq::<Seq<u8>>::empty()) =~= Seq::<u8>::empty());
        assert(ids_bytes(ids.push(id)) =~= id);
    } else {
        lemma_ids_bytes_push(ids.drop_first(), id);
        assert(ids.push(id).drop_first() =~= ids.drop_first().push(id));
        assert(ids_bytes(ids.push(id)) =~= ids_bytes(ids) + id);
    }
}


/// The outcome of prefixing `acc` to a parse result.
pub open spec fn prepend_entries(
    acc: Seq<EntryView>,
    r: Result<(Seq<EntryView>, Seq<u8>), ObjectErrorView>,
) -> Result<(Seq<EntryView>, Seq<u8>), ObjectErrorView> {
    match r {
        Ok((es, rest)) => Ok((acc + es, rest)),
        Err(e) => Err(e),
    }
}

/// Reads one tree entry from the front of `s`: the entry and what follows.
#[verifier::opaque]
pub open spec fn parse_entry(s: Seq<u8>) -> Result<(EntryView, Seq<u8>), ObjectErrorView> {
    if s.len() < 1 {
        Err(ObjectErrorView::Truncated)
    } else if s[0] > 1 {
        Err(ObjectErrorView::UnknownEntryKind(s[0]))
    } else if s.len() < 3 {
        Err(ObjectErrorView::Truncated)
    } else {
        let len = le_value(s.subrange(1, 3)) as int;
        if s.len() < 3 + len {
            Err(ObjectErrorView::Truncated)
        } else {
            let name = s.subrange(3, 3 + len);
            if !valid_name(name) {
                Err(ObjectErrorView::InvalidName(name))
            } else if s.len() < 3 + len + 32 {
                Err(ObjectErrorView::Truncated)
            } else {
                Ok(
                    (
                        EntryView {
                            name,
                            kind: if s[0] == 0 {
                                EntryKind::File
                            } else {
                                EntryKind::Dir
                            },
                            id: s.subrange(3 + len, 3 + len + 32),
                        },
                        s.subrange(3 + len + 32, s.len() as int),
                    ),
                )
            }
        }
    }
}

/// Whether `name` may follow `prev` in a tree, and if not, why.
pub open spec fn order_error(prev: Option<Seq<u8>>, name: Seq<u8>) -> Option<ObjectErrorView> {
    match prev {
        None => None,
        Some(p) => match lex(p, name) {
            Order::Less => None,
            Order::Equal => Some(ObjectErrorView::DuplicateName(name)),
            Order::Greater => Some(ObjectErrorView::UnsortedTree),
        },
    }
}

/// Reads `count` entries, each named strictly after the one before
/// (`prev` is the name read just before them).
pub open spec fn parse_entries(s: Seq<u8>, count: nat, prev: Option<Seq<u8>>) -> Result<
    (Seq<EntryView>, Seq<u8>),
    ObjectErrorView,
>
    decreases count,
{
    if count == 0 {
        Ok((seq![], s))
    } else {
        match parse_entry(s) {
            Err(e) => Err(e),
            Ok((e, rest)) => match order_error(prev, e.name) {
                Some(err) => Err(err),
                None => prepend_entries(
                    seq![e],
                    parse_entries(rest, (count - 1) as nat, Some(e.name)),
                ),
            },
        }
    }
}

/// Reads `n` ids of 32 bytes each.
pub open spec fn parse_ids(s: Seq<u8>, n: nat) -> Result<(Seq<Seq<u8>>, Seq<u8>), ObjectErrorView>
    decreases n,
{
    if n == 0 {
        Ok((seq![], s))
    } else if s.len() < 32 {
        Err(ObjectErrorView::Truncated)
    } else {
        match parse_ids(s.subrange(32, s.len() as int), (n - 1) as nat) {
            Ok((ids, rest)) => Ok((seq![s.subrange(0, 32)] + ids, rest)),
            Err(e) => Err(e),
        }
    }
}

/// Reads a tree payload.
#[verifier::opaque]
pub open spec fn parse_tree(p: Seq<u8>) -> Result<ObjectView, ObjectErrorView> {
    if p.len() < 4 {
        Err(ObjectErrorView::Truncated)
    } else {
        let count = le_value(p.subrange(0, 4));
        let r = p.subrange(4, p.len() as int);
        if count > r.len() / 35 {
            Err(ObjectErrorView::Truncated)
        } else {
            match parse_entries(r, count, None) {
                Err(e) => Err(e),
                Ok((es, rest)) => if rest.len() > 0 {
                    Err(ObjectErrorView::TrailingBytes)
                } else {
                    Ok(ObjectView::Tree(es))
                },
            }
        }
    }
}

/// Reads the text fields of a commit from `s` (just after the timestamp).
pub open spec fn parse_commit_text(
    tree: Seq<u8>,
    parents: Seq<Seq<u8>>,
    timestamp: u64,
    s: Seq<u8>,
) -> Result<ObjectView, ObjectErrorView> {
    if s.len() < 2 {
        Err(ObjectErrorView::Truncated)
    } else {
        let alen = le_value(s.subrange(0, 2)) as int;
        if s.len() < 2 + alen {
            Err(ObjectErrorView::Truncated)
        } else {
            let a = s.subrange(2, 2 + alen);
            if !valid_utf8(a) {
                Err(ObjectErrorView::InvalidUtf8)
            } else if s.len() < 2 + alen + 4 {
                Err(ObjectErrorView::Truncated)
            } else {
                let mlen = le_value(s.subrange(2 + alen, 2 + alen + 4)) as int;
                if s.len() < 2 + alen + 4 + mlen {
                    Err(ObjectErrorView::Truncated)
                } else {
                    let m = s.subrange(2 + alen + 4, 2 + alen + 4 + mlen);
                    if !valid_utf8(m) {
                        Err(ObjectErrorView::InvalidUtf8)
                    } else if s.len() > 2 + alen + 4 + mlen {
                        Err(ObjectErrorView::TrailingBytes)
                    } else {
                        Ok(
                            ObjectView::Commit(
                                CommitView {
                                    tree,
                                    parents,
                                    timestamp,
                                    author: decode_utf8(a),
                                    message: decode_utf8(m),
                                },
                            ),
                        )
                    }
                }
            }
        }
    }
}

/// Reads a commit payload.
#[verifier::opaque]
pub open spec fn parse_commit(p: Seq<u8>) -> Result<ObjectView, ObjectErrorView> {
    if p.len() < 33 {
        Err(ObjectErrorView::Truncated)
    } else {
        match parse_ids(p.subrange(33, p.len() as int), p[32] as nat) {
            Err(e) => Err(e),
            Ok((parents, r)) => if r.len() < 8 {
                Err(ObjectErrorView::Truncated)
            } else {
                parse_commit_text(
                    p.subrange(0, 32),
                    parents,
                    le_value(r.subrange(0, 8)) as u64,
                    r.subrange(8, r.len() as int),
                )
            },
        }
    }
}

/// What `Object::decode` makes of `b`.
pub open spec fn decode_view(b: Seq<u8>) -> Result<ObjectView, ObjectErrorView> {
    if b.len() == 0 {
        Err(ObjectErrorView::Empty)
    } else if b[0] == 1 {
        Ok(ObjectView::Blob(b.subrange(1, b.len() as int)))
    } else if b[0] == 2 {
        parse_tree(b.subrange(1, b.len() as int))
    } else if b[0] == 3 {
        parse_commit(b.subrange(1, b.len() as int))
    } else {
        Err(ObjectErrorView::UnknownKind(b[0]))
    }
}


/// The outcome of prefixing `acc` to a parse of ids.
pub open spec fn prepend_ids(
    acc: Seq<Seq<u8>>,
    r: Result<(Seq<Seq<u8>>, Seq<u8>), ObjectErrorView>,
) -> Result<(Seq<Seq<u8>>, Seq<u8>), ObjectErrorView> {
    match r {
        Ok((ids, rest)) => Ok((acc + ids, rest)),
        Err(e) => Err(e),
    }
}

/// Reads one tree entry starting at `b[p]`.
fn read_entry(b: &[u8], p: usize) -> (r: Result<(TreeEntry, usize), ObjectError>)
    requires
        p <= b.len(),
    ensures
        match r {
            Ok((e, q)) => p < q <= b.len() && parse_entry(b@.subrange(p as int, b.len() as int))
                == Ok::<(EntryView, Seq<u8>), ObjectErrorView>(
                (e@, b@.subrange(q as int, b.len() as int)),
            ),
            Err(err) => parse_entry(b@.subrange(p as int, b.len() as int)) == Err::<
                (EntryView, Seq<u8>),
                ObjectErrorView,
            >(err@),
        },
{
    let ghost s = b@.subrange(p as int, b.len() as int);
    reveal(parse_entry);
    if b.len() - p < 1 {
        return Err(ObjectError::Truncated);
    }
    let k = b[p];
    if k > 1 {
        return Err(ObjectError::UnknownEntryKind(k));
    }
    if b.len() - p < 3 {
        return Err(ObjectError::Truncated);
    }
    let len = read_le(b, p + 1, 2) as usize;
    assert(s.subrange(1, 3) =~= b@.subrange(p + 1, p + 3));
    if b.len() - p - 3 < len {
        return Err(ObjectError::Truncated);
    }
    let name = copy_range(b, p + 3, p + 3 + len);
    assert(s.subrange(3, 3 + len) =~= name@);
    if !is_valid_name(name.as_slice()) {
        return Err(ObjectError::InvalidName(name));
    }
    if b.len() - p - 3 - len < 32 {
        return Err(ObjectError::Truncated);
    }
    let id = id_from(b, p + 3 + len);
    let kind = if k == 0 {
        EntryKind::File
    } else {
        EntryKind::Dir
    };
    let q = p + 3 + len + 32;
    assert(s.subrange(3 + len, 3 + len + 32) =~= id@);
    assert(s.subrange(3 + len + 32, s.len() as int) =~= b@.subrange(q as int, b.len() as int));
    Ok((TreeEntry { name, kind, id }, q))
}

/// The view of entries read so far.
spec fn entries_view(es: Seq<TreeEntry>) -> Seq<EntryView> {
    es.map_values(|e: TreeEntry| e@)
}

/// The name of the last entry read, if any.
spec fn last_name(es: Seq<TreeEntry>) -> Option<Seq<u8>> {
    if es.len() == 0 {
        None
    } else {
        Some(es.last().name@)
    }
}

/// Reads `count` tree entries starting at `b[pos]`.
fn read_entries(b: &[u8], pos: usize, count: usize) -> (r: Result<
    (Vec<TreeEntry>, usize),
    ObjectError,
>)
    requires
        pos <= b.len(),
    ensures
        match r {
            Ok((es, q)) => q <= b.len() && parse_entries(
                b@.subrange(pos as int, b.len() as int),
                count as nat,
                None,
            ) == Ok::<(Seq<EntryView>, Seq<u8>), ObjectErrorView>(
                (entries_view(es@), b@.subrange(q as int, b.len() as int)),
            ),
            Err(err) => parse_entries(b@.subrange(pos as int, b.len() as int), count as nat, None)
                == Err::<(Seq<EntryView>, Seq<u8>), ObjectErrorView>(err@),
        },
{
    let mut entries: Vec<TreeEntry> = Vec::new();
    let mut p = pos;
    let mut i: usize = 0;
    let ghost whole = parse_entries(b@.subrange(pos as int, b.len() as int), count as nat, None);
    assert(entries_view(entries@) =~= Seq::<EntryView>::empty());
    assert(whole == prepend_entries(
        entries_view(entries@),
        parse_entries(b@.subrange(p as int, b.len() as int), (count - i) as nat, last_name(entries@)),
    ));
    while i < count
        invariant
            i <= count,
            pos <= p <= b.len(),
            whole == parse_entries(b@.subrange(pos as int, b.len() as int), count as nat, None),
            whole == prepend_entries(
                entries_view(entries@),
                parse_entries(
                    b@.subrange(p as int, b.len() as int),
                    (count - i) as nat,
                    last_name(entries@),
                ),
            ),
        decreases count - i,
    {
        let ghost rest = b@.subrange(p as int, b.len() as int);
        let (e, q) = match read_entry(b, p) {
            Ok(x) => x,
            Err(err) => {
                return Err(err);
            },
        };
        if entries.len() > 0 {
            let last = entries.len() - 1;
            match compare_bytes(entries[last].name.as_slice(), e.name.as_slice()) {
                Order::Less => {},
                Order::Equal => {
                    return Err(ObjectError::DuplicateName(e.name));
                },
                Order::Greater => {
                    return Err(ObjectError::UnsortedTree);
                },
            }
        }
        let ghost before = entries@;
        let ghost ev = e@;
        entries.push(e);
        proof {
            assert(order_error(last_name(before), ev.name) is None);
            assert(entries_view(entries@) =~= entries_view(before) + seq![ev]);
            assert(last_name(entries@) == Some(ev.name));
            let tail = parse_entries(
                b@.subrange(q as int, b.len() as int),
                (count - i - 1) as nat,
                Some(ev.name),
            );
            match tail {
                Ok((es, r2)) => {
                    assert(entries_view(before) + (seq![ev] + es) =~= entries_view(entries@) + es);
                },
                Err(_) => {},
            }
        }
        p = q;
        i += 1;
    }
    proof {
        assert(entries_view(entries@) + Seq::<EntryView>::empty() =~= entries_view(entries@));
    }
    Ok((entries, p))
}

/// Reads `n` ids starting at `b[pos]`.
fn read_ids(b: &[u8], pos: usize, n: usize) -> (r: Result<(Vec<ObjectId>, usize), ObjectError>)
    requires
        pos <= b.len(),
    ensures
        match r {
            Ok((ids, q)) => q <= b.len() && parse_ids(
                b@.subrange(pos as int, b.len() as int),
                n as nat,
            ) == Ok::<(Seq<Seq<u8>>, Seq<u8>), ObjectErrorView>(
                (ids@.map_values(|i: ObjectId| i@), b@.subrange(q as int, b.len() as int)),
            ),
            Err(err) => err@ == ObjectErrorView::Truncated && parse_ids(
                b@.subrange(pos as int, b.len() as int),
                n as nat,
            ) == Err::<(Seq<Seq<u8>>, Seq<u8>), ObjectErrorView>(err@),
        },
{
    let mut ids: Vec<ObjectId> = Vec::new();
    let mut p = pos;
    let mut i: usize = 0;
    let ghost whole = parse_ids(b@.subrange(pos as int, b.len() as int), n as nat);
    assert(ids@.map_values(|i: ObjectId| i@) =~= Seq::<Seq<u8>>::empty());
    while i < n
        invariant
            i <= n,
            pos <= p <= b.len(),
            whole == parse_ids(b@.subrange(pos as int, b.len() as int), n as nat),
            whole == prepend_ids(
                ids@.map_values(|i: ObjectId| i@),
                parse_ids(b@.subrange(p as int, b.len() as int), (n - i) as nat),
            ),
        decreases n - i,
    {
        let ghost rest = b@.subrange(p as int, b.len() as int);
        if b.len() - p < 32 {
            return Err(ObjectError::Truncated);
        }
        let id = id_from(b, p);
        let ghost before = ids@.map_values(|i: ObjectId| i@);
        ids.push(id);
        proof {
            assert(rest.subrange(0, 32) =~= id@);
            assert(rest.subrange(32, rest.len() as int) =~= b@.subrange(p + 32, b.len() as int));
            assert(ids@.map_values(|i: ObjectId| i@) =~= before + seq![id@]);
            match parse_ids(b@.subrange(p + 32, b.len() as int), (n - i - 1) as nat) {
                Ok((xs, r2)) => {
                    assert(before + (seq![id@] + xs) =~= ids@.map_values(|i: ObjectId| i@) + xs);
                },
                Err(_) => {},
            }
        }
        p = p + 32;
        i += 1;
    }
    assert(ids@.map_values(|i: ObjectId| i@) + Seq::<Seq<u8>>::empty() =~= ids@.map_values(
        |i: ObjectId| i@,
    ));
    Ok((ids, p))
}

/// Decodes a commit payload that starts at `b[1]`.
fn decode_commit(b: &[u8]) -> (r: Result<Object, ObjectError>)
    requires
        b.len() >= 1,
    ensures
        match r {
            Ok(o) => parse_commit(b@.subrange(1, b.len() as int)) == Ok::<
                ObjectView,
                ObjectErrorView,
            >(o@),
            Err(e) => parse_commit(b@.subrange(1, b.len() as int)) == Err::<
                ObjectView,
                ObjectErrorView,
            >(e@),
        },
{
    let ghost pl = b@.subrange(1, b.len() as int);
    reveal(parse_commit);
    if b.len() - 1 < 33 {
        return Err(ObjectError::Truncated);
    }
    let tree = id_from(b, 1);
    let n = b[33] as usize;
    assert(pl.subrange(33, pl.len() as int) =~= b@.subrange(34, b.len() as int));
    let (parents, p) = match read_ids(b, 34, n) {
        Ok(x) => x,
        Err(e) => {
            return Err(e);
        },
    };
    let ghost r = b@.subrange(p as int, b.len() as int);
    if b.len() - p < 8 {
        return Err(ObjectError::Truncated);
    }
    let timestamp = read_le(b, p, 8);
    assert(r.subrange(0, 8) =~= b@.subrange(p as int, p + 8));
    let p = p + 8;
    let ghost t = b@.subrange(p as int, b.len() as int);
    assert(r.subrange(8, r.len() as int) =~= t);
    if b.len() - p < 2 {
        return Err(ObjectError::Truncated);
    }
    let alen = read_le(b, p, 2) as usize;
    assert(t.subrange(0, 2) =~= b@.subrange(p as int, p + 2));
    if b.len() - p - 2 < alen {
        return Err(ObjectError::Truncated);
    }
    let abytes = copy_range(b, p + 2, p + 2 + alen);
    assert(t.subrange(2, 2 + alen) =~= abytes@);
    let author = match string_from_utf8(abytes) {
        Some(s) => s,
        None => {
            return Err(ObjectError::InvalidUtf8);
        },
    };
    let q = p + 2 + alen;
    if b.len() - q < 4 {
        return Err(ObjectError::Truncated);
    }
    let mlen = read_le(b, q, 4) as usize;
    assert(t.subrange(2 + alen, 2 + alen + 4) =~= b@.subrange(q as int, q + 4));
    if b.len() - q - 4 < mlen {
        return Err(ObjectError::Truncated);
    }
    let mbytes = copy_range(b, q + 4, q + 4 + mlen);
    assert(t.subrange(2 + alen + 4, 2 + alen + 4 + mlen) =~= mbytes@);
    let message = match string_from_utf8(mbytes) {
        Some(s) => s,
        None => {
            return Err(ObjectError::InvalidUtf8);
        },
    };
    if b.len() - q - 4 > mlen {
        return Err(ObjectError::TrailingBytes);
    }
    assert(pl.subrange(0, 32) =~= tree@);
    Ok(Object::Commit(Commit { tree, parents, timestamp, author, message }))
}

/// Valid names, 32-byte ids, names strictly ascending: the order every
/// `Tree` keeps.
pub open spec fn tree_canonical(es: Seq<EntryView>) -> bool {
    &&& forall|i: int| 0 <= i < es.len() ==> valid_name(#[trigger] es[i].name)
    &&& forall|i: int| 0 <= i < es.len() ==> (#[trigger] es[i]).id.len() == 32
    &&& names_ascending(es)
}

/// Each name sorts strictly before the next.
pub open spec fn names_ascending(es: Seq<EntryView>) -> bool {
    forall|i: int, j: int|
        0 <= i && j == i + 1 && j < es.len() ==> lex_lt(#[trigger] es[i].name, #[trigger] es[j].name)
}

/// `es[i]` has the first invalid name.
pub open spec fn first_invalid_at(es: Seq<EntryView>, i: int) -> bool {
    &&& 0 <= i < es.len()
    &&& !valid_name(es[i].name)
    &&& forall|j: int| 0 <= j < i ==> valid_name(#[trigger] es[j].name)
}

/// `name` is used by two different entries.
pub open spec fn duplicated(es: Seq<EntryView>, name: Seq<u8>) -> bool {
    exists|i: int, j: int|
        0 <= i < es.len() && 0 <= j < es.len() && i != j && #[trigger] es[i].name == name
            && #[trigger] es[j].name == name
}

/// No two entries share a name.
pub open spec fn names_distinct(es: Seq<EntryView>) -> bool {
    forall|i: int, j: int|
        0 <= i < es.len() && 0 <= j < es.len() && i != j ==> #[trigger] es[i].name != #[trigger] es[
            j
        ].name
}

/// The views of a vector of entries.
pub open spec fn views(es: Seq<TreeEntry>) -> Seq<EntryView> {
    es.map_values(|e: TreeEntry| e@)
}

/// In an ascending listing, every earlier name sorts before every later one.
pub proof fn lemma_ascending_pairwise(es: Seq<EntryView>, i: int, j: int)
    requires
        names_ascending(es),
        0 <= i < j < es.len(),
    ensures
        lex_lt(es[i].name, es[j].name),
    decreases j - i,
{
    if j > i + 1 {
        lemma_ascending_pairwise(es, i, j - 1);
        assert(lex_lt(es[j - 1].name, es[j].name));
        lemma_lex_trans(es[i].name, es[j - 1].name, es[j].name);
    }
}

/// No name sorts strictly before itself, and of two names at most one sorts
/// first.
proof fn lemma_lex_lt_strict(a: Seq<u8>, b: Seq<u8>)
    ensures
        !lex_lt(a, a),
        lex_lt(a, b) ==> !lex_lt(b, a),
{
    crate::bytes::lemma_lex_equal(a, a);
    crate::bytes::lemma_lex_flip(a, b);
}

/// A canonical tree is fixed by the entries it holds: two canonical trees
/// with the same entries are the same tree. So `Tree::new` builds the same
/// tree (and so the same bytes and id) from its entries in any order.
pub proof fn law_canonical_tree_is_unique(t1: Seq<EntryView>, t2: Seq<EntryView>)
    requires
        tree_canonical(t1),
        tree_canonical(t2),
        forall|e: EntryView| t1.contains(e) <==> t2.contains(e),
    ensures
        t1 == t2,
    decreases t1.len(),
{
    if t1.len() == 0 {
        if t2.len() > 0 {
            assert(t2.contains(t2[0]));
        }
        assert(t1 =~= t2);
    } else {
        assert(t1.contains(t1[0]));
        let j = choose|j: int| 0 <= j < t2.len() && t2[j] == t1[0];
        assert(t2.contains(t2[0]));
        let i = choose|i: int| 0 <= i < t1.len() && t1[i] == t2[0];
        if j > 0 {
            lemma_ascending_pairwise(t2, 0, j);
            lemma_lex_lt_strict(t1[i].name, t1[0].name);
            if i > 0 {
                lemma_ascending_pairwise(t1, 0, i);
            }
            assert(false);
        }
        let d1 = t1.drop_first();
        let d2 = t2.drop_first();
        assert forall|e: EntryView| d1.contains(e) implies d2.contains(e) by {
            let k = choose|k: int| 0 <= k < d1.len() && d1[k] == e;
            assert(t1[k + 1] == e);
            assert(t1.contains(e));
            let m = choose|m: int| 0 <= m < t2.len() && t2[m] == e;
            if m == 0 {
                lemma_ascending_pairwise(t1, 0, k + 1);
                lemma_lex_lt_strict(e.name, e.name);
            }
            assert(d2[m - 1] == e);
        }
        assert forall|e: EntryView| d2.contains(e) implies d1.contains(e) by {
            let k = choose|k: int| 0 <= k < d2.len() && d2[k] == e;
            assert(t2[k + 1] == e);
            assert(t2.contains(e));
            let m = choose|m: int| 0 <= m < t1.len() && t1[m] == e;
            if m == 0 {
                lemma_ascending_pairwise(t2, 0, k + 1);
                lemma_lex_lt_strict(e.name, e.name);
            }
            assert(d1[m - 1] == e);
        }
        assert forall|a: int, b: int| 0 <= a && b == a + 1 && b < d1.len() implies lex_lt(#[trigger] d1[a].name, #[trigger] d1[b].name) by {
            assert(d1[a] == t1[a + 1] && d1[b] == t1[b + 1]);
        }
        assert forall|a: int, b: int| 0 <= a && b == a + 1 && b < d2.len() implies lex_lt(#[trigger] d2[a].name, #[trigger] d2[b].name) by {
            assert(d2[a] == t2[a + 1] && d2[b] == t2[b + 1]);
        }
        assert forall|a: int| 0 <= a < d1.len() implies valid_name(#[trigger] d1[a].name) && d1[a].id.len() == 32 by {
            assert(d1[a] == t1[a + 1]);
        }
        assert forall|a: int| 0 <= a < d2.len() implies valid_name(#[trigger] d2[a].name) && d2[a].id.len() == 32 by {
            assert(d2[a] == t2[a + 1]);
        }
        law_canonical_tree_is_unique(d1, d2);
        assert(t2[0] == t1[0]);
        assert(t1 =~= seq![t1[0]] + d1);
        assert(t2 =~= seq![t2[0]] + d2);
    }
}

/// `Tree::new` builds the same tree from its entries in any order: when
/// two lists of entries are permutations of each other and both build a
/// tree (each entry is in the tree, each tree entry is in the list, and the
/// tree is canonical, as `Tree::new` promises), the trees are equal, so they
/// have the same bytes and the same id.
pub proof fn law_tree_new_is_order_independent(es1: Seq<EntryView>, es2: Seq<EntryView>, t1: Seq<EntryView>, t2: Seq<EntryView>)
    requires
        es1.to_multiset() == es2.to_multiset(),
        forall|i: int| 0 <= i < es1.len() ==> t1.contains(#[trigger] es1[i]),
        forall|q: int| 0 <= q < t1.len() ==> es1.contains(#[trigger] t1[q]),
        tree_canonical(t1),
        forall|i: int| 0 <= i < es2.len() ==> t2.contains(#[trigger] es2[i]),
        forall|q: int| 0 <= q < t2.len() ==> es2.contains(#[trigger] t2[q]),
        tree_canonical(t2),
    ensures
        t1 == t2,
{
    assert forall|e: EntryView| t1.contains(e) <==> t2.contains(e) by {
        vstd::seq_lib::to_multiset_contains(es1, e);
        vstd::seq_lib::to_multiset_contains(es2, e);
        if t1.contains(e) {
            let q = choose|q: int| 0 <= q < t1.len() && t1[q] == e;
            assert(es1.contains(t1[q]));
            assert(es2.contains(e));
            let i = choose|i: int| 0 <= i < es2.len() && es2[i] == e;
            assert(t2.contains(es2[i]));
        }
        if t2.contains(e) {
            let q = choose|q: int| 0 <= q < t2.len() && t2[q] == e;
            assert(es2.contains(t2[q]));
            assert(es1.contains(e));
            let i = choose|i: int| 0 <= i < es1.len() && es1[i] == e;
            assert(t1.contains(es1[i]));
        }
    }
    law_canonical_tree_is_unique(t1, t2);
}

/// Views of a vector with one more entry.
pub proof fn lemma_views_push(s: Seq<TreeEntry>, e: TreeEntry)
    ensures
        views(s.push(e)) == views(s).push(e@),
{
    assert(views(s.push(e)) =~= views(s).push(e@));
}

/// Copies a byte vector.
fn copy_vec(v: &Vec<u8>) -> (r: Vec<u8>)
    ensures
        r@ == v@,
{
    let r = copy_range(v.as_slice(), 0, v.len());
    assert(v@.subrange(0, v@.len() as int) =~= v@);
    r
}

impl TreeEntry {
    /// A copy of this entry.
    pub fn copy(&self) -> (r: TreeEntry)
        ensures
            r@ == self@,
    {
        TreeEntry { name: copy_vec(&self.name), kind: self.kind, id: self.id }
    }
}

impl Clone for Tree {
    /// A copy of this tree.
    fn clone(&self) -> (r: Tree)
        ensures
            r@ == self@,
    {
        proof {
            use_type_invariant(self);
        }
        let mut out: Vec<TreeEntry> = Vec::new();
        let mut i: usize = 0;
        while i < self.entries.len()
            invariant
                i <= self.entries.len(),
                views(out@) == views(self.entries@).subrange(0, i as int),
            decreases self.entries.len() - i,
        {
            let c = self.entries[i].copy();
            proof {
                lemma_views_push(out@, c);
                assert(views(self.entries@).subrange(0, i + 1) =~= views(self.entries@).subrange(
                    0,
                    i as int,
                ).push(c@));
            }
            out.push(c);
            i += 1;
        }
        assert(views(self.entries@).subrange(0, i as int) =~= views(self.entries@));
        let t = Tree { entries: out };
        assert(t@ =~= self@);
        t
    }
}

impl Default for Tree {
    /// The empty tree.
    fn default() -> (r: Tree)
        ensures
            r@ == Seq::<EntryView>::empty(),
    {
        let t = Tree { entries: Vec::new() };
        assert(t@ =~= Seq::<EntryView>::empty());
        t
    }
}

impl Tree {
    #[verifier::type_invariant]
    spec fn canonical(self) -> bool {
        tree_canonical(self@)
    }

    /// Builds a tree from entries in any order; the result is canonical
    /// (sorted). Rejects the first invalid name (in the order given), and
    /// otherwise the smallest name used twice.
    pub fn new(entries: Vec<TreeEntry>) -> (r: Result<Tree, ObjectError>)
        ensures
            match r {
                Ok(t) => {
                    &&& forall|i: int|
                        0 <= i < entries@.len() ==> valid_name(#[trigger] entries@[i].name@)
                    &&& names_distinct(views(entries@))
                    &&& t@.len() == entries@.len()
                    &&& forall|i: int|
                        0 <= i < entries@.len() ==> t@.contains(#[trigger] views(entries@)[i])
                    &&& forall|q: int| 0 <= q < t@.len() ==> views(entries@).contains(#[trigger] t@[q])
                    &&& tree_canonical(t@)
                },
                Err(e) => match e@ {
                    ObjectErrorView::InvalidName(n) => exists|i: int|
                        first_invalid_at(views(entries@), i) && #[trigger] views(entries@)[i].name
                            == n,
                    ObjectErrorView::DuplicateName(n) => {
                        &&& forall|i: int|
                            0 <= i < entries@.len() ==> valid_name(#[trigger] entries@[i].name@)
                        &&& duplicated(views(entries@), n)
                        &&& forall|m: Seq<u8>|
                            duplicated(views(entries@), m) ==> !lex_lt(m, n)
                    },
                    _ => false,
                },
            },
    {
        let ghost v = views(entries@);
        let n = entries.len();
        let mut i: usize = 0;
        while i < n
            invariant
                n == entries.len(),
                v == views(entries@),
                i <= n,
                forall|j: int| 0 <= j < i ==> valid_name(#[trigger] entries@[j].name@),
            decreases n - i,
        {
            if !is_valid_name(entries[i].name.as_slice()) {
                let bad = copy_vec(&entries[i].name);
                assert(first_invalid_at(v, i as int)) by {
                    assert forall|j: int| 0 <= j < i implies valid_name(#[trigger] v[j].name) by {
                        assert(v[j].name == entries@[j].name@);
                    }
                }
                assert(v[i as int].name == bad@);
                return Err(ObjectError::InvalidName(bad));
            }
            i += 1;
        }
        // The smallest duplicated name, if any.
        let mut best: Option<usize> = None;
        let mut a: usize = 0;
        while a < n
            invariant
                n == entries.len(),
                v == views(entries@),
                a <= n,
                best matches Some(k) ==> k < n && duplicated(v, v[k as int].name),
                forall|x: int, y: int|
                    0 <= x < a && x < y < n && #[trigger] v[x].name == #[trigger] v[y].name
                        ==> (best matches Some(k) && !lex_lt(v[x].name, v[k as int].name)),
            decreases n - a,
        {
            let mut b: usize = a + 1;
            while b < n
                invariant
                    n == entries.len(),
                    v == views(entries@),
                    a < n,
                    a < b <= n,
                    best matches Some(k) ==> k < n && duplicated(v, v[k as int].name),
                    forall|x: int, y: int|
                        0 <= x < a && x < y < n && #[trigger] v[x].name == #[trigger] v[y].name
                            ==> (best matches Some(k) && !lex_lt(v[x].name, v[k as int].name)),
                    forall|y: int|
                        a < y < b && #[trigger] v[y].name == v[a as int].name ==> (best matches Some(k) && !lex_lt(v[a as int].name, v[k as int].name)),
                decreases n - b,
            {
                if bytes_eq(entries[a].name.as_slice(), entries[b].name.as_slice()) {
                    assert(v[a as int].name == v[b as int].name);
                    let take = match best {
                        None => true,
                        Some(k) => compare_bytes(
                            entries[a].name.as_slice(),
                            entries[k].name.as_slice(),
                        ) == Order::Less,
                    };
                    if take {
                        proof {
                            assert(duplicated(v, v[a as int].name));
                            if let Some(k) = best {
                                assert forall|x: int, y: int|
                                    0 <= x < a && x < y < n && #[trigger] v[x].name
                                        == #[trigger] v[y].name implies !lex_lt(
                                    v[x].name,
                                    v[a as int].name,
                                ) by {
                                    if lex_lt(v[x].name, v[a as int].name) {
                                        lemma_lex_trans(v[x].name, v[a as int].name, v[k as int].name);
                                    }
                                }
                                assert forall|y: int|
                                    a < y < b && #[trigger] v[y].name == v[a as int].name implies !lex_lt(
                                    v[a as int].name,
                                    v[a as int].name,
                                ) by {
                                    lemma_lex_equal(v[a as int].name, v[a as int].name);
                                }
                            }
                            lemma_lex_equal(v[a as int].name, v[a as int].name);
                        }
                        best = Some(a);
                    } else {
                        proof {
                            let k = best->Some_0;
                            lemma_lex_flip(v[a as int].name, v[k as int].name);
                            lemma_lex_equal(v[a as int].name, v[k as int].name);
                        }
                    }
                }
                b += 1;
            }
            a += 1;
        }
        if let Some(k) = best {
            let dup = copy_vec(&entries[k].name);
            proof {
                assert forall|m: Seq<u8>| duplicated(v, m) implies !lex_lt(m, v[k as int].name) by {
                    let (x, y) = choose|x: int, y: int|
                        0 <= x < v.len() && 0 <= y < v.len() && x != y && #[trigger] v[x].name == m
                            && #[trigger] v[y].name == m;
                    if x < y {
                        assert(v[x].name == v[y].name);
                    } else {
                        assert(v[y].name == v[x].name);
                    }
                }
            }
            return Err(ObjectError::DuplicateName(dup));
        }
        proof {
            assert forall|x: int, y: int|
                0 <= x < v.len() && 0 <= y < v.len() && x != y implies #[trigger] v[x].name
                != #[trigger] v[y].name by {
                if x < y {
                    if v[x].name == v[y].name {
                    }
                } else {
                    if v[y].name == v[x].name {
                    }
                }
            }
        }
        // Insertion sort by name.
        let mut src = entries;
        let mut out: Vec<TreeEntry> = Vec::new();
        while src.len() > 0
            invariant
                names_distinct(v),
                forall|j: int| 0 <= j < v.len() ==> valid_name(#[trigger] v[j].name),
                forall|j: int| 0 <= j < v.len() ==> (#[trigger] v[j]).id.len() == 32,
                src.len() <= v.len(),
                views(src@) == v.subrange(0, src.len() as int),
                out.len() + src.len() == v.len(),
                names_ascending(views(out@)),
                forall|q: int| 0 <= q < out.len() ==> valid_name(#[trigger] views(out@)[q].name),
                forall|q: int| 0 <= q < out.len() ==> (#[trigger] views(out@)[q]).id.len() == 32,
                forall|q: int, j: int|
                    0 <= q < out.len() && 0 <= j < src.len() ==> #[trigger] views(out@)[q].name
                        != #[trigger] v[j].name,
                forall|k: int|
                    src.len() <= k < v.len() ==> views(out@).contains(#[trigger] v[k]),
                forall|q: int| 0 <= q < out.len() ==> v.contains(#[trigger] views(out@)[q]),
            decreases src.len(),
        {
            let ghost before_src = src@;
            let e = src.pop().unwrap();
            let ghost r = src.len() as int;
            let ghost ov = views(out@);
            proof {
                assert(before_src.len() == r + 1);
                assert(e == before_src[r]);
                assert(views(before_src)[r] == v.subrange(0, r + 1)[r]);
                assert(src@ =~= before_src.subrange(0, r));
            }
            assert(e@ == v[r]);
            let mut p: usize = 0;
            while p < out.len() && compare_bytes(e.name.as_slice(), out[p].name.as_slice())
                != Order::Less
                invariant
                    p <= out.len(),
                    ov == views(out@),
                    forall|q: int| 0 <= q < p ==> lex_lt(#[trigger] ov[q].name, e@.name),
                    forall|q: int| 0 <= q < out.len() ==> #[trigger] ov[q].name != e@.name,
                    names_distinct(v),
                    e@ == v[r],
                    0 <= r < v.len(),
                decreases out.len() - p,
            {
                proof {
                    assert(ov[p as int].name != e@.name);
                    lemma_lex_equal(e@.name, ov[p as int].name);
                    lemma_lex_flip(e@.name, ov[p as int].name);
                }
                p += 1;
            }
            out.insert(p, e);
            proof {
                let nv = views(out@);
                assert(nv =~= ov.insert(p as int, v[r]));
                assert forall|x: int, y: int|
                    0 <= x && y == x + 1 && y < nv.len() implies lex_lt(
                    #[trigger] nv[x].name,
                    #[trigger] nv[y].name,
                ) by {
                    if y < p {
                        assert(nv[x] == ov[x] && nv[y] == ov[y]);
                    } else if y == p {
                        assert(nv[x] == ov[x]);
                    } else if x == p {
                        assert(nv[y] == ov[x]);
                    } else {
                        assert(nv[x] == ov[x - 1] && nv[y] == ov[y - 1]);
                    }
                }
                assert forall|q: int| 0 <= q < nv.len() implies valid_name(#[trigger] nv[q].name)
                    && nv[q].id.len() == 32 by {
                    if q < p {
                        assert(nv[q] == ov[q]);
                    } else if q > p {
                        assert(nv[q] == ov[q - 1]);
                    }
                }
                assert forall|q: int, j: int|
                    0 <= q < nv.len() && 0 <= j < r implies #[trigger] nv[q].name
                    != #[trigger] v[j].name by {
                    if q < p {
                        assert(nv[q] == ov[q]);
                    } else if q == p {
                        assert(nv[q] == v[r]);
                    } else {
                        assert(nv[q] == ov[q - 1]);
                    }
                }
                assert forall|k: int| r <= k < v.len() implies nv.contains(#[trigger] v[k]) by {
                    if k == r {
                        assert(nv[p as int] == v[r]);
                    } else {
                        let q = choose|q: int| 0 <= q < ov.len() && ov[q] == v[k];
                        if q < p {
                            assert(nv[q] == v[k]);
                        } else {
                            assert(nv[q + 1] == v[k]);
                        }
                    }
                }
                assert(views(src@) =~= v.subrange(0, src.len() as int));
                assert forall|q: int| 0 <= q < nv.len() implies v.contains(#[trigger] nv[q]) by {
                    if q < p {
                        assert(nv[q] == ov[q]);
                    } else if q == p {
                        assert(nv[q] == v[r]);
                    } else {
                        assert(nv[q] == ov[q - 1]);
                    }
                }
            }
        }
        let t = Tree { entries: out };
        proof {
            assert(t@ == views(t.entries@));
        }
        Ok(t)
    }

    /// The entry named `name`, if any.
    pub fn get(&self, name: &[u8]) -> (r: Option<&TreeEntry>)
        ensures
            match r {
                Some(e) => self@.contains(e@) && e@.name == name@,
                None => forall|i: int| 0 <= i < self@.len() ==> #[trigger] self@[i].name != name@,
            },
    {
        proof {
            use_type_invariant(self);
        }
        let es = &self.entries;
        let ghost v = self@;
        let mut lo: usize = 0;
        let mut hi: usize = es.len();
        while lo < hi
            invariant
                v == views(es@),
                v == self@,
                lo <= hi <= es.len(),
                tree_canonical(v),
                forall|i: int| 0 <= i < lo ==> lex_lt(#[trigger] v[i].name, name@),
                forall|i: int| hi <= i < v.len() ==> lex_lt(name@, #[trigger] v[i].name),
            decreases hi - lo,
        {
            let mid = lo + (hi - lo) / 2;
            match compare_bytes(es[mid].name.as_slice(), name) {
                Order::Equal => {
                    proof {
                        lemma_lex_equal(v[mid as int].name, name@);
                        assert(v[mid as int] == es@[mid as int]@);
                        assert(self@[mid as int] == es@[mid as int]@);
                        assert(self@.contains(es@[mid as int]@));
                    }
                    return Some(&es[mid]);
                },
                Order::Less => {
                    proof {
                        assert forall|i: int| 0 <= i < mid + 1 implies lex_lt(
                            #[trigger] v[i].name,
                            name@,
                        ) by {
                            if i < mid {
                                lemma_ascending_pairwise(v, i, mid as int);
                                lemma_lex_trans(v[i].name, v[mid as int].name, name@);
                            }
                        }
                    }
                    lo = mid + 1;
                },
                Order::Greater => {
                    proof {
                        lemma_lex_flip(v[mid as int].name, name@);
                        assert forall|i: int| mid <= i < v.len() implies lex_lt(
                            name@,
                            #[trigger] v[i].name,
                        ) by {
                            if i > mid {
                                lemma_ascending_pairwise(v, mid as int, i);
                                lemma_lex_trans(name@, v[mid as int].name, v[i].name);
                            }
                        }
                    }
                    hi = mid;
                },
            }
        }
        proof {
            assert forall|i: int| 0 <= i < v.len() implies #[trigger] v[i].name != name@ by {
                lemma_lex_equal(v[i].name, name@);
                lemma_lex_flip(v[i].name, name@);
            }
        }
        None
    }

    /// The entries, in canonical order.
    pub fn entries(&self) -> (r: &[TreeEntry])
        ensures
            r@.map_values(|e: TreeEntry| e@) == self@,
    {
        self.entries.as_slice()
    }

    /// Confirms what always holds: the entries are canonical.
    pub fn check_canonical(&self)
        ensures
            tree_canonical(self@),
    {
        proof {
            use_type_invariant(self);
        }
    }
}

impl Object {
    /// The canonical stored bytes: `kind || payload`.
    pub fn encode(&self) -> (r: Result<Vec<u8>, ObjectError>)
        ensures
            match r {
                Ok(b) => encode_view(self@) == Ok::<Seq<u8>, ObjectErrorView>(b@),
                Err(e) => encode_view(self@) == Err::<Seq<u8>, ObjectErrorView>(e@),
            },
    {
        let mut out: Vec<u8> = Vec::new();
        match self {
            Object::Blob(data) => {
                out.push(1);
                append_bytes(&mut out, data.as_slice());
                assert(out@ =~= seq![1u8] + data@);
            },
            Object::Tree(t) => {
                let es = &t.entries;
                let ghost v = t@;
                out.push(2);
                push_le(&mut out, es.len() as u64, 4);
                proof {
                    assert(le_bytes((es.len() as u64) as nat, 4) == le_bytes(es.len() as nat, 4));
                }
                let ghost head = out@;
                let mut i: usize = 0;
                while i < es.len()
                    invariant
                        i <= es.len(),
                        v == es@.map_values(|e: TreeEntry| e@),
                        self@ == ObjectView::Tree(v),
                        out@ == head + entries_bytes(v.subrange(0, i as int)),
                        forall|j: int| 0 <= j < i ==> v[j].name.len() <= 0xffff,
                    decreases es.len() - i,
                {
                    let e = &es[i];
                    if e.name.len() > 0xffff {
                        assert(v[i as int].name.len() > 0xffff);
                        assert(exists|j: int| #![trigger v[j]] 0 <= j < v.len() && v[j].name.len() > 0xffff);
                        return Err(ObjectError::TooLong);
                    }
                    let ghost before = out@;
                    out.push(match e.kind {
                        EntryKind::File => 0u8,
                        EntryKind::Dir => 1u8,
                    });
                    push_le(&mut out, e.name.len() as u64, 2);
                    append_bytes(&mut out, e.name.as_slice());
                    append_bytes(&mut out, &e.id.0);
                    proof {
                        assert(v[i as int] == e@);
                        assert(out@ =~= before + entry_bytes(e@));
                        lemma_entries_bytes_push(v.subrange(0, i as int), e@);
                        assert(v.subrange(0, i + 1) =~= v.subrange(0, i as int).push(e@));
                    }
                    i += 1;
                }
                proof {
                    assert(v.subrange(0, es.len() as int) =~= v);
                    assert(!(exists|j: int| #![trigger v[j]] 0 <= j < v.len() && v[j].name.len() > 0xffff));
                    assert(out@ =~= seq![2u8] + le_bytes(v.len(), 4) + entries_bytes(v));
                }
            },
            Object::Commit(c) => {
                let ghost cv = c@;
                if c.parents.len() > 255 {
                    return Err(ObjectError::TooManyParents);
                }
                let author = c.author.as_str().as_bytes();
                let message = c.message.as_str().as_bytes();
                if author.len() > 0xffff {
                    return Err(ObjectError::TooLong);
                }
                if message.len() > 0xffff_ffff {
                    return Err(ObjectError::TooLong);
                }
                out.push(3);
                append_bytes(&mut out, &c.tree.0);
                out.push(c.parents.len() as u8);
                let ghost head = out@;
                let mut i: usize = 0;
                while i < c.parents.len()
                    invariant
                        i <= c.parents.len(),
                        cv == c@,
                        out@ == head + ids_bytes(cv.parents.subrange(0, i as int)),
                    decreases c.parents.len() - i,
                {
                    append_bytes(&mut out, &c.parents[i].0);
                    proof {
                        lemma_ids_bytes_push(cv.parents.subrange(0, i as int), c.parents@[i as int]@);
                        assert(cv.parents.subrange(0, i + 1) =~= cv.parents.subrange(
                            0,
                            i as int,
                        ).push(c.parents@[i as int]@));
                    }
                    i += 1;
                }
                assert(cv.parents.subrange(0, c.parents.len() as int) =~= cv.parents);
                push_le(&mut out, c.timestamp, 8);
                push_le(&mut out, author.len() as u64, 2);
                append_bytes(&mut out, author);
                push_le(&mut out, message.len() as u64, 4);
                append_bytes(&mut out, message);
                proof {
                    assert(out@ =~= seq![3u8] + cv.tree + seq![cv.parents.len() as u8] + ids_bytes(
                        cv.parents,
                    ) + le_bytes(cv.timestamp as nat, 8) + le_bytes(
                        encode_utf8(cv.author).len(),
                        2,
                    ) + encode_utf8(cv.author) + le_bytes(encode_utf8(cv.message).len(), 4)
                        + encode_utf8(cv.message));
                }
            },
        }
        Ok(out)
    }

    /// Decodes canonical bytes. Never panics; rejects anything that
    /// `encode` could not have produced.
    pub fn decode(bytes: &[u8]) -> (r: Result<Object, ObjectError>)
        ensures
            match r {
                Ok(o) => decode_view(bytes@) == Ok::<ObjectView, ObjectErrorView>(o@),
                Err(e) => decode_view(bytes@) == Err::<ObjectView, ObjectErrorView>(e@),
            },
    {
        if bytes.len() == 0 {
            return Err(ObjectError::Empty);
        }
        let kind = bytes[0];
        if kind == 1 {
            let data = copy_range(bytes, 1, bytes.len());
            Ok(Object::Blob(data))
        } else if kind == 2 {
            let ghost pl = bytes@.subrange(1, bytes.len() as int);
            reveal(parse_tree);
            if bytes.len() - 1 < 4 {
                return Err(ObjectError::Truncated);
            }
            let count = read_le(bytes, 1, 4) as usize;
            assert(pl.subrange(0, 4) =~= bytes@.subrange(1, 5));
            assert(pl.subrange(4, pl.len() as int) =~= bytes@.subrange(5, bytes.len() as int));
            if count > (bytes.len() - 5) / 35 {
                return Err(ObjectError::Truncated);
            }
            let (entries, p) = match read_entries(bytes, 5, count) {
                Ok(x) => x,
                Err(e) => {
                    return Err(e);
                },
            };
            if p < bytes.len() {
                return Err(ObjectError::TrailingBytes);
            }
            proof {
                lemma_bytes_of_parse_entries(
                    bytes@.subrange(5, bytes.len() as int),
                    count as nat,
                    None,
                );
                assert(views(entries@) == entries_view(entries@));
            }
            let t = Tree { entries };
            assert(t@ =~= entries_view(t.entries@));
            Ok(Object::Tree(t))
        } else if kind == 3 {
            decode_commit(bytes)
        } else {
            Err(ObjectError::UnknownKind(kind))
        }
    }

    /// The object's id: the SHA-256 of its canonical bytes.
    pub fn id(&self) -> (r: Result<ObjectId, ObjectError>)
        ensures
            match r {
                Ok(id) => encode_view(self@) is Ok && id@ == sha256(encode_view(self@)->Ok_0),
                Err(e) => encode_view(self@) == Err::<Seq<u8>, ObjectErrorView>(e@),
            },
    {
        match self.encode() {
            Ok(b) => Ok(ObjectId::of(b.as_slice())),
            Err(e) => Err(e),
        }
    }
}

} // verus!

verus! {

/// A well-formed object: 32-byte ids, and for a tree, valid names in
/// strictly ascending order and fewer than 2^32 entries.
pub open spec fn well_formed(o: ObjectView) -> bool {
    match o {
        ObjectView::Blob(_) => true,
        ObjectView::Tree(es) => tree_well_formed(es),
        ObjectView::Commit(c) => {
            &&& c.tree.len() == 32
            &&& forall|i: int| 0 <= i < c.parents.len() ==> #[trigger] c.parents[i].len() == 32
        },
    }
}

/// Valid names, 32-byte ids, names strictly ascending, fewer than 2^32 entries.
pub open spec fn tree_well_formed(es: Seq<EntryView>) -> bool {
    &&& es.len() < 0x1_0000_0000
    &&& tree_canonical(es)
}

/// The entries after `prev`, strictly ascending, each valid, short names.
spec fn entries_ok(es: Seq<EntryView>, prev: Option<Seq<u8>>) -> bool {
    &&& forall|i: int| 0 <= i < es.len() ==> valid_name(#[trigger] es[i].name)
    &&& forall|i: int| 0 <= i < es.len() ==> (#[trigger] es[i]).id.len() == 32
    &&& forall|i: int| 0 <= i < es.len() ==> (#[trigger] es[i]).name.len() <= 0xffff
    &&& names_ascending(es)
    &&& (es.len() > 0 && prev is Some) ==> lex_lt(prev->Some_0, es[0].name)
}

proof fn lemma_parse_entry_of_bytes(e: EntryView, rest: Seq<u8>)
    requires
        valid_name(e.name),
        e.id.len() == 32,
        e.name.len() <= 0xffff,
    ensures
        parse_entry(entry_bytes(e) + rest) == Ok::<(EntryView, Seq<u8>), ObjectErrorView>(
            (e, rest),
        ),
{
    reveal(parse_entry);
    let s = entry_bytes(e) + rest;
    let n = e.name.len() as int;
    lemma_byte_range_values();
    lemma_le_round_trip(e.name.len(), 2);
    assert(s.subrange(1, 3) =~= le_bytes(e.name.len(), 2));
    assert(s.subrange(3, 3 + n) =~= e.name);
    assert(s.subrange(3 + n, 3 + n + 32) =~= e.id);
    assert(s.subrange(3 + n + 32, s.len() as int) =~= rest);
    let k = if s[0] == 0 {
        EntryKind::File
    } else {
        EntryKind::Dir
    };
    assert(k == e.kind);
}

proof fn lemma_parse_entries_of_bytes(es: Seq<EntryView>, prev: Option<Seq<u8>>, rest: Seq<u8>)
    requires
        entries_ok(es, prev),
    ensures
        parse_entries(entries_bytes(es) + rest, es.len(), prev) == Ok::<
            (Seq<EntryView>, Seq<u8>),
            ObjectErrorView,
        >((es, rest)),
    decreases es.len(),
{
 if es.len() == 0 {
        assert(entries_bytes(es) + rest =~= rest);
        assert(es =~= Seq::<EntryView>::empty());
    } else {
        let e = es[0];
        let tail = es.drop_first();
        let x = entries_bytes(tail) + rest;
        let s = entries_bytes(es) + rest;
        assert(s =~= entry_bytes(e) + x);
        lemma_parse_entry_of_bytes(e, x);
        assert(parse_entry(s) == Ok::<(EntryView, Seq<u8>), ObjectErrorView>((e, x)));
        if prev is Some {
            assert(lex_lt(prev->Some_0, e.name));
        }
        assert(order_error(prev, e.name) is None);
        assert(entries_ok(tail, Some(e.name))) by {
            assert forall|i: int, j: int| 0 <= i && j == i + 1 && j < tail.len() implies lex_lt(
                #[trigger] tail[i].name,
                #[trigger] tail[j].name,
            ) by {
                assert(tail[i] == es[i + 1]);
                assert(tail[j] == es[j + 1]);
            }
            if tail.len() > 0 {
                assert(tail[0] == es[1]);
            }
        }
        lemma_parse_entries_of_bytes(tail, Some(e.name), rest);
        assert(parse_entries(x, tail.len(), Some(e.name)) == Ok::<
            (Seq<EntryView>, Seq<u8>),
            ObjectErrorView,
        >((tail, rest)));
        assert((es.len() - 1) as nat == tail.len());
        assert(seq![e] + tail =~= es);
        assert(parse_entries(s, es.len(), prev) == prepend_entries(
            seq![e],
            parse_entries(x, tail.len(), Some(e.name)),
        ));
    }
}

proof fn lemma_bytes_of_parse_entry(s: Seq<u8>)
    requires
        parse_entry(s) is Ok,
    ensures
        ({
            let (e, r) = parse_entry(s)->Ok_0;
            &&& valid_name(e.name)
            &&& e.id.len() == 32
            &&& e.name.len() <= 0xffff
            &&& s == entry_bytes(e) + r
            &&& s.len() >= 36 + r.len()
        }),
{
    reveal(parse_entry);
    let (e, r) = parse_entry(s)->Ok_0;
    let len = le_value(s.subrange(1, 3)) as int;
    lemma_le_value_bytes(s.subrange(1, 3));
    lemma_byte_range_values();
    assert(s.subrange(0, 3 + len + 32) =~= entry_bytes(e));
    assert(s =~= entry_bytes(e) + r);
}

proof fn lemma_bytes_of_parse_entries(s: Seq<u8>, n: nat, prev: Option<Seq<u8>>)
    requires
        parse_entries(s, n, prev) is Ok,
    ensures
        ({
            let (es, rest) = parse_entries(s, n, prev)->Ok_0;
            &&& es.len() == n
            &&& entries_ok(es, prev)
            &&& s == entries_bytes(es) + rest
            &&& s.len() >= 36 * n + rest.len()
        }),
    decreases n,
{
    if n == 0 {
        assert(s =~= entries_bytes(Seq::<EntryView>::empty()) + s);
    } else {
        let (e, r) = parse_entry(s)->Ok_0;
        lemma_bytes_of_parse_entries(r, (n - 1) as nat, Some(e.name));
        let (tail, rest) = parse_entries(r, (n - 1) as nat, Some(e.name))->Ok_0;
        let es = seq![e] + tail;
        lemma_bytes_of_parse_entry(s);
        assert(es.drop_first() =~= tail);
        assert(s =~= entries_bytes(es) + rest);
        assert(order_error(prev, e.name) is None);
        if prev is Some {
            lemma_lex_equal(prev->Some_0, e.name);
        }
        assert forall|i: int, j: int| 0 <= i && j == i + 1 && j < es.len() implies lex_lt(
            #[trigger] es[i].name,
            #[trigger] es[j].name,
        ) by {
            if i > 0 {
                assert(es[i] == tail[i - 1]);
                assert(es[j] == tail[j - 1]);
            } else {
                assert(es[1] == tail[0]);
            }
        }
        assert forall|i: int| 0 <= i < es.len() implies valid_name(#[trigger] es[i].name) && es[i].id.len()
            == 32 && es[i].name.len() <= 0xffff by {
            if i > 0 {
                assert(es[i] == tail[i - 1]);
            }
        }
    }
}

proof fn lemma_parse_ids_of_bytes(ids: Seq<Seq<u8>>, rest: Seq<u8>)
    requires
        forall|i: int| 0 <= i < ids.len() ==> #[trigger] ids[i].len() == 32,
    ensures
        parse_ids(ids_bytes(ids) + rest, ids.len()) == Ok::<(Seq<Seq<u8>>, Seq<u8>), ObjectErrorView>(
            (ids, rest),
        ),
    decreases ids.len(),
{
    if ids.len() == 0 {
        assert(ids_bytes(ids) + rest =~= rest);
        assert(ids =~= Seq::<Seq<u8>>::empty());
    } else {
        let s = ids_bytes(ids) + rest;
        let tail = ids.drop_first();
        assert(ids[0].len() == 32);
        assert(s =~= ids[0] + (ids_bytes(tail) + rest));
        assert(s.subrange(32, s.len() as int) =~= ids_bytes(tail) + rest);
        assert(s.subrange(0, 32) =~= ids[0]);
        lemma_parse_ids_of_bytes(tail, rest);
        assert(forall|i: int| 0 <= i < tail.len() ==> tail[i] == ids[i + 1]);
        assert(seq![ids[0]] + tail =~= ids);
        assert((ids.len() - 1) as nat == tail.len());
        assert(parse_ids(s, ids.len()) == Ok::<(Seq<Seq<u8>>, Seq<u8>), ObjectErrorView>(
            (seq![s.subrange(0, 32)] + tail, rest),
        ));
    }
}

proof fn lemma_bytes_of_parse_ids(s: Seq<u8>, n: nat)
    requires
        parse_ids(s, n) is Ok,
    ensures
        ({
            let (ids, rest) = parse_ids(s, n)->Ok_0;
            &&& ids.len() == n
            &&& forall|i: int| 0 <= i < ids.len() ==> #[trigger] ids[i].len() == 32
            &&& s == ids_bytes(ids) + rest
        }),
    decreases n,
{
    if n == 0 {
        assert(s =~= ids_bytes(Seq::<Seq<u8>>::empty()) + s);
    } else {
        let t = s.subrange(32, s.len() as int);
        lemma_bytes_of_parse_ids(t, (n - 1) as nat);
        let (tail, rest) = parse_ids(t, (n - 1) as nat)->Ok_0;
        let ids = seq![s.subrange(0, 32)] + tail;
        assert(ids.drop_first() =~= tail);
        assert(ids_bytes(ids) == s.subrange(0, 32) + ids_bytes(tail));
        assert(s =~= s.subrange(0, 32) + t);
        assert(s =~= ids_bytes(ids) + rest);
        assert forall|i: int| 0 <= i < ids.len() implies #[trigger] ids[i].len() == 32 by {
            if i > 0 {
                assert(ids[i] == tail[i - 1]);
            }
        }
    }
}

proof fn lemma_parse_tree_of_encoding(es: Seq<EntryView>)
    requires
        tree_well_formed(es),
        forall|i: int| 0 <= i < es.len() ==> (#[trigger] es[i]).name.len() <= 0xffff,
    ensures
        parse_tree(le_bytes(es.len(), 4) + entries_bytes(es)) == Ok::<ObjectView, ObjectErrorView>(
            ObjectView::Tree(es),
        ),
{
    reveal(parse_tree);
    reveal(parse_commit);
    lemma_byte_range_values();
    let body = entries_bytes(es);
    let p = le_bytes(es.len(), 4) + body;
    lemma_le_round_trip(es.len(), 4);
    assert(p.subrange(0, 4) =~= le_bytes(es.len(), 4));
    assert(p.subrange(4, p.len() as int) =~= body);
    assert(entries_ok(es, None));
    lemma_parse_entries_of_bytes(es, None, Seq::<u8>::empty());
    assert(body + Seq::<u8>::empty() =~= body);
    lemma_bytes_of_parse_entries(body, es.len(), None);
}

proof fn lemma_parse_commit_of_encoding(c: CommitView)
    requires
        well_formed(ObjectView::Commit(c)),
        encode_view(ObjectView::Commit(c)) is Ok,
    ensures
        parse_commit(encode_view(ObjectView::Commit(c))->Ok_0.subrange(1, encode_view(ObjectView::Commit(c))->Ok_0.len() as int))
            == Ok::<ObjectView, ObjectErrorView>(ObjectView::Commit(c)),
{
    reveal(parse_tree);
    reveal(parse_commit);
    lemma_byte_range_values();
    let b = encode_view(ObjectView::Commit(c))->Ok_0;
    let a = encode_utf8(c.author);
    let m = encode_utf8(c.message);
    let p = b.subrange(1, b.len() as int);
    let after = le_bytes(c.timestamp as nat, 8) + le_bytes(a.len(), 2) + a + le_bytes(m.len(), 4)
        + m;
    assert(p =~= c.tree + seq![c.parents.len() as u8] + ids_bytes(c.parents) + after);
    assert(p.subrange(33, p.len() as int) =~= ids_bytes(c.parents) + after);
    assert(p[32] as nat == c.parents.len());
    lemma_parse_ids_of_bytes(c.parents, after);
    lemma_le_round_trip(c.timestamp as nat, 8);
    lemma_le_round_trip(a.len(), 2);
    lemma_le_round_trip(m.len(), 4);
    assert(after.subrange(0, 8) =~= le_bytes(c.timestamp as nat, 8));
    let t = after.subrange(8, after.len() as int);
    assert(t =~= le_bytes(a.len(), 2) + a + le_bytes(m.len(), 4) + m);
    let al = a.len() as int;
    let ml = m.len() as int;
    assert(t.subrange(0, 2) =~= le_bytes(a.len(), 2));
    assert(t.subrange(2, 2 + al) =~= a);
    assert(t.subrange(2 + al, 2 + al + 4) =~= le_bytes(m.len(), 4));
    assert(t.subrange(2 + al + 4, 2 + al + 4 + ml) =~= m);
    encode_utf8_valid_utf8(c.author);
    encode_utf8_valid_utf8(c.message);
    encode_utf8_decode_utf8(c.author);
    encode_utf8_decode_utf8(c.message);
    assert(p.subrange(0, 32) =~= c.tree);
}

/// Decoding the encoding of a well-formed object gives the object back.
proof fn lemma_tree_names_short(es: Seq<EntryView>)
    requires
        encode_view(ObjectView::Tree(es)) is Ok,
    ensures
        forall|i: int| 0 <= i < es.len() ==> (#[trigger] es[i]).name.len() <= 0xffff,
        encode_view(ObjectView::Tree(es)) == Ok::<Seq<u8>, ObjectErrorView>(
            seq![2u8] + le_bytes(es.len(), 4) + entries_bytes(es),
        ),
{
    assert forall|i: int| 0 <= i < es.len() implies (#[trigger] es[i]).name.len() <= 0xffff by {
        if es[i].name.len() > 0xffff {
            assert(exists|j: int| #![trigger es[j]] 0 <= j < es.len() && es[j].name.len() > 0xffff);
        }
    }
}

proof fn lemma_decode_tree_encoding(es: Seq<EntryView>)
    requires
        well_formed(ObjectView::Tree(es)),
        encode_view(ObjectView::Tree(es)) is Ok,
    ensures
        decode_view(encode_view(ObjectView::Tree(es))->Ok_0) == Ok::<ObjectView, ObjectErrorView>(
            ObjectView::Tree(es),
        ),
{
    let b = encode_view(ObjectView::Tree(es))->Ok_0;
    lemma_tree_names_short(es);
    lemma_parse_tree_of_encoding(es);
    let x = le_bytes(es.len(), 4) + entries_bytes(es);
    assert(b == seq![2u8] + x);
    assert(b.subrange(1, b.len() as int) =~= x);
}

proof fn lemma_decode_commit_encoding(c: CommitView)
    requires
        well_formed(ObjectView::Commit(c)),
        encode_view(ObjectView::Commit(c)) is Ok,
    ensures
        decode_view(encode_view(ObjectView::Commit(c))->Ok_0) == Ok::<ObjectView, ObjectErrorView>(
            ObjectView::Commit(c),
        ),
{
    let b = encode_view(ObjectView::Commit(c))->Ok_0;
    lemma_parse_commit_of_encoding(c);
    assert(b[0] == 3);
}

/// Decoding the encoding of a well-formed object gives the object back.
pub proof fn law_decode_of_encode(o: ObjectView)
    requires
        well_formed(o),
        encode_view(o) is Ok,
    ensures
        decode_view(encode_view(o)->Ok_0) == Ok::<ObjectView, ObjectErrorView>(o),
{
    match o {
        ObjectView::Blob(d) => {
            let b = encode_view(o)->Ok_0;
            assert(b.subrange(1, b.len() as int) =~= d);
        },
        ObjectView::Tree(es) => {
            lemma_decode_tree_encoding(es);
        },
        ObjectView::Commit(c) => {
            lemma_decode_commit_encoding(c);
        },
    }
}

#[verifier::rlimit(60)]
proof fn lemma_encode_of_parse_tree(p: Seq<u8>)
    requires
        parse_tree(p) is Ok,
    ensures
        well_formed(parse_tree(p)->Ok_0),
        encode_view(parse_tree(p)->Ok_0) == Ok::<Seq<u8>, ObjectErrorView>(seq![2u8] + p),
{
    reveal(parse_tree);
    reveal(parse_commit);
    lemma_byte_range_values();
    let count = le_value(p.subrange(0, 4));
    let r = p.subrange(4, p.len() as int);
    lemma_bytes_of_parse_entries(r, count, None);
    let (es, rest) = parse_entries(r, count, None)->Ok_0;
    lemma_le_value_bytes(p.subrange(0, 4));
    assert(rest.len() == 0);
    assert(r =~= entries_bytes(es));
    assert(!(exists|i: int| #![trigger es[i]] 0 <= i < es.len() && es[i].name.len() > 0xffff));
    assert(p =~= p.subrange(0, 4) + r);
    assert(seq![2u8] + p =~= seq![2u8] + le_bytes(es.len(), 4) + entries_bytes(es));
}

#[verifier::rlimit(100)]
#[verifier::spinoff_prover]
proof fn lemma_encode_of_parse_commit(p: Seq<u8>)
    requires
        parse_commit(p) is Ok,
    ensures
        well_formed(parse_commit(p)->Ok_0),
        encode_view(parse_commit(p)->Ok_0) == Ok::<Seq<u8>, ObjectErrorView>(seq![3u8] + p),
{
    reveal(parse_tree);
    reveal(parse_commit);
    lemma_byte_range_values();
    let q = p.subrange(33, p.len() as int);
    let (parents, r) = parse_ids(q, p[32] as nat)->Ok_0;
    lemma_bytes_of_parse_ids(q, p[32] as nat);
    let t = r.subrange(8, r.len() as int);
    let alen = le_value(t.subrange(0, 2)) as int;
    let a = t.subrange(2, 2 + alen);
    let mlen = le_value(t.subrange(2 + alen, 2 + alen + 4)) as int;
    let m = t.subrange(2 + alen + 4, 2 + alen + 4 + mlen);
    lemma_le_value_bytes(r.subrange(0, 8));
    lemma_le_value_bytes(t.subrange(0, 2));
    lemma_le_value_bytes(t.subrange(2 + alen, 2 + alen + 4));
    decode_utf8_encode_utf8(a);
    decode_utf8_encode_utf8(m);
    let c = CommitView {
        tree: p.subrange(0, 32),
        parents,
        timestamp: le_value(r.subrange(0, 8)) as u64,
        author: decode_utf8(a),
        message: decode_utf8(m),
    };
    assert(parse_commit(p)->Ok_0 == ObjectView::Commit(c));
    assert(t =~= le_bytes(a.len(), 2) + a + le_bytes(m.len(), 4) + m);
    assert(r =~= r.subrange(0, 8) + t);
    assert(r =~= le_bytes(c.timestamp as nat, 8) + t);
    assert(seq![parents.len() as u8] =~= seq![p[32]]);
    assert(p =~= p.subrange(0, 32) + seq![p[32]] + q);
    assert(q == ids_bytes(parents) + r);
    assert(p =~= c.tree + seq![parents.len() as u8] + ids_bytes(parents) + r);
    assert(seq![3u8] + p =~= seq![3u8] + c.tree + seq![c.parents.len() as u8] + ids_bytes(
        c.parents,
    ) + le_bytes(c.timestamp as nat, 8) + le_bytes(a.len(), 2) + a + le_bytes(m.len(), 4) + m);
}

/// Whatever decodes is well formed, and encoding it gives back exactly
/// the bytes it was decoded from: there is one encoding per object.
pub proof fn law_encode_of_decode(b: Seq<u8>)
    requires
        decode_view(b) is Ok,
    ensures
        well_formed(decode_view(b)->Ok_0),
        encode_view(decode_view(b)->Ok_0) == Ok::<Seq<u8>, ObjectErrorView>(b),
{
    let p = b.subrange(1, b.len() as int);
    assert(b =~= seq![b[0]] + p);
    if b[0] == 2 {
        lemma_encode_of_parse_tree(p);
    } else if b[0] == 3 {
        lemma_encode_of_parse_commit(p);
    }
}

} // verus!
