//! The sync protocol's byte layouts. Readers return `None` on any malformed
//! input; nothing here can panic on bytes from a peer.

use vstd::prelude::*;
use vstd::string::StringSliceAdditionalSpecFns;
use vstd::utf8::{decode_utf8, encode_utf8, encode_utf8_decode_utf8, encode_utf8_valid_utf8, valid_utf8};

use crate::bytes::{
    append_bytes, byte_range, le_bytes, le_value, lemma_byte_range_values, lemma_le_round_trip, push_le,
    read_le, string_from_utf8,
};
use crate::object::{id_from, ObjectId};

verus! {

/// The request that lists the refs.
pub const LIST_REFS: u8 = 0;

/// The request that fetches objects.
pub const FETCH: u8 = 1;

/// The request that uploads objects.
pub const PUT_OBJECTS: u8 = 2;

/// The request that moves a ref.
pub const UPDATE_REF: u8 = 3;

/// Most encoded object bytes in one FETCH response or PUT_OBJECTS request
/// (a single larger object is sent alone).
pub const BATCH_BYTES: usize = 4096;

/// A message being written.
pub struct W(pub Vec<u8>);

impl Default for W {
    fn default() -> (w: W)
        ensures
            w.0@ == Seq::<u8>::empty(),
    {
        W(Vec::new())
    }
}

impl W {
    /// Appends one byte.
    pub fn u8(&mut self, v: u8) -> (r: &mut Self)
        ensures
            r.0@ == old(self).0@.push(v),
            *final(self) == *final(r),
    {
        self.0.push(v);
        self
    }

    /// Appends a 16-bit value, little-endian.
    pub fn u16(&mut self, v: u16) -> (r: &mut Self)
        ensures
            r.0@ == old(self).0@ + le_bytes(v as nat, 2),
            *final(self) == *final(r),
    {
        push_le(&mut self.0, v as u64, 2);
        self
    }

    /// Appends a 32-bit value, little-endian.
    pub fn u32(&mut self, v: u32) -> (r: &mut Self)
        ensures
            r.0@ == old(self).0@ + le_bytes(v as nat, 4),
            *final(self) == *final(r),
    {
        push_le(&mut self.0, v as u64, 4);
        self
    }

    /// Appends an object id's 32 bytes.
    pub fn id(&mut self, v: &ObjectId) -> (r: &mut Self)
        ensures
            r.0@ == old(self).0@ + v@,
            *final(self) == *final(r),
    {
        append_bytes(&mut self.0, &v.0);
        self
    }

    /// Appends a byte string, preceded by its length as a 32-bit value (the
    /// low 32 bits of it).
    pub fn bytes(&mut self, v: &[u8]) -> (r: &mut Self)
        ensures
            r.0@ == old(self).0@ + le_bytes(v@.len() % 0x1_0000_0000, 4) + v@,
            *final(self) == *final(r),
    {
        self.u32((v.len() as u64 % 0x1_0000_0000) as u32);
        append_bytes(&mut self.0, v);
        self
    }

    /// Appends a string's UTF-8 bytes, preceded by their length as a 16-bit
    /// value (the low 16 bits of it).
    pub fn string(&mut self, v: &str) -> (r: &mut Self)
        ensures
            r.0@ == old(self).0@ + le_bytes(v.spec_bytes().len() % 0x1_0000, 2) + v.spec_bytes(),
            *final(self) == *final(r),
    {
        let b = v.as_bytes();
        self.u16((b.len() % 0x1_0000) as u16);
        append_bytes(&mut self.0, b);
        self
    }
}

/// A message being read: the bytes not read yet.
pub struct R<'a>(pub &'a [u8]);

/// A fixed-width little-endian value at the front of `s`, and what follows.
pub open spec fn read_fixed(s: Seq<u8>, n: nat) -> Option<(nat, Seq<u8>)> {
    if s.len() < n {
        None
    } else {
        Some((le_value(s.subrange(0, n as int)), s.subrange(n as int, s.len() as int)))
    }
}

/// A byte string preceded by its 32-bit length at the front of `s`, and
/// what follows; `None` if either is cut short.
pub open spec fn read_bytes(s: Seq<u8>) -> Option<(Seq<u8>, Seq<u8>)> {
    match read_fixed(s, 4) {
        None => None,
        Some((n, rest)) => if rest.len() < n {
            None
        } else {
            Some((rest.subrange(0, n as int), rest.subrange(n as int, rest.len() as int)))
        },
    }
}

/// Where a reader stands after a failed byte-string read: past the length
/// if that could be read.
pub open spec fn after_failed_bytes(s: Seq<u8>, width: nat) -> Seq<u8> {
    match read_fixed(s, width) {
        None => s,
        Some((_, rest)) => rest,
    }
}

/// A UTF-8 string preceded by its 16-bit length at the front of `s`, and
/// what follows.
pub open spec fn read_string(s: Seq<u8>) -> Option<(Seq<char>, Seq<u8>)> {
    match read_fixed(s, 2) {
        None => None,
        Some((n, rest)) => if rest.len() < n || !valid_utf8(rest.subrange(0, n as int)) {
            None
        } else {
            Some((decode_utf8(rest.subrange(0, n as int)), rest.subrange(n as int, rest.len() as int)))
        },
    }
}

/// Where a reader stands after `read_string`, whatever it gave.
pub open spec fn after_string(s: Seq<u8>) -> Seq<u8> {
    match read_fixed(s, 2) {
        None => s,
        Some((n, rest)) => if rest.len() < n {
            rest
        } else {
            rest.subrange(n as int, rest.len() as int)
        },
    }
}

impl<'a> View for R<'a> {
    type V = Seq<u8>;

    open spec fn view(&self) -> Seq<u8> {
        self.0@
    }
}

impl<'a> R<'a> {
    fn take(&mut self, n: usize) -> (r: Option<&'a [u8]>)
        ensures
            old(self)@.len() < n ==> r is None && final(self)@ == old(self)@,
            old(self)@.len() >= n ==> r is Some && r->Some_0@ == old(self)@.subrange(0, n as int) && final(self)@
                == old(self)@.subrange(n as int, old(self)@.len() as int),
    {
        if self.0.len() < n {
            return None;
        }
        let s: &'a [u8] = self.0;
        let a = vstd::slice::slice_subrange(s, 0, n);
        let b = vstd::slice::slice_subrange(s, n, s.len());
        self.0 = b;
        Some(a)
    }

    /// One byte.
    pub fn u8(&mut self) -> (r: Option<u8>)
        ensures
            old(self)@.len() < 1 ==> r is None && final(self)@ == old(self)@,
            old(self)@.len() >= 1 ==> r == Some(old(self)@[0]) && final(self)@ == old(self)@.drop_first(),
    {
        match self.take(1) {
            Some(a) => {
                assert(old(self)@.subrange(1, old(self)@.len() as int) =~= old(self)@.drop_first());
                Some(a[0])
            },
            None => None,
        }
    }

    /// A 16-bit value, little-endian.
    pub fn u16(&mut self) -> (r: Option<u16>)
        ensures
            match read_fixed(old(self)@, 2) {
                None => r is None && final(self)@ == old(self)@,
                Some((v, rest)) => r is Some && r->Some_0 as nat == v && final(self)@ == rest,
            },
    {
        match self.take(2) {
            Some(a) => {
                assert(a@.subrange(0, 2) =~= a@);
                Some(read_le(a, 0, 2) as u16)
            },
            None => None,
        }
    }

    /// A 32-bit value, little-endian.
    pub fn u32(&mut self) -> (r: Option<u32>)
        ensures
            match read_fixed(old(self)@, 4) {
                None => r is None && final(self)@ == old(self)@,
                Some((v, rest)) => r is Some && r->Some_0 as nat == v && final(self)@ == rest,
            },
    {
        match self.take(4) {
            Some(a) => {
                assert(a@.subrange(0, 4) =~= a@);
                Some(read_le(a, 0, 4) as u32)
            },
            None => None,
        }
    }

    /// An object id's 32 bytes.
    pub fn id(&mut self) -> (r: Option<ObjectId>)
        ensures
            old(self)@.len() < 32 ==> r is None && final(self)@ == old(self)@,
            old(self)@.len() >= 32 ==> r is Some && r->Some_0@ == old(self)@.subrange(0, 32) && final(self)@
                == old(self)@.subrange(32, old(self)@.len() as int),
    {
        match self.take(32) {
            Some(a) => {
                let id = id_from(a, 0);
                assert(a@.subrange(0, 32) =~= a@);
                Some(id)
            },
            None => None,
        }
    }

    /// A byte string preceded by its 32-bit length.
    pub fn bytes(&mut self) -> (r: Option<&'a [u8]>)
        ensures
            match read_bytes(old(self)@) {
                None => r is None && final(self)@ == after_failed_bytes(old(self)@, 4),
                Some((v, rest)) => r is Some && r->Some_0@ == v && final(self)@ == rest,
            },
    {
        let n = match self.u32() {
            Some(n) => n as usize,
            None => return None,
        };
        self.take(n)
    }

    /// A UTF-8 string preceded by its 16-bit length; `None` if cut short or
    /// not UTF-8.
    pub fn string(&mut self) -> (r: Option<String>)
        ensures
            match read_string(old(self)@) {
                None => r is None,
                Some((v, _)) => r is Some && r->Some_0@ == v,
            },
            final(self)@ == after_string(old(self)@),
    {
        let n = match self.u16() {
            Some(n) => n as usize,
            None => return None,
        };
        let a = match self.take(n) {
            Some(a) => a,
            None => return None,
        };
        let v = crate::bytes::copy_range(a, 0, a.len());
        assert(a@.subrange(0, a@.len() as int) =~= a@);
        string_from_utf8(v)
    }

    /// A count that is bounded by the bytes remaining, given each item
    /// needs at least `min_item` bytes: a huge declared count cannot force
    /// a huge allocation.
    pub fn count(&mut self, min_item: usize) -> (r: Option<usize>)
        ensures
            match read_fixed(old(self)@, 4) {
                None => r is None && final(self)@ == old(self)@,
                Some((n, rest)) => final(self)@ == rest && r == (if n <= rest.len() / (if min_item > 1 {
                    min_item as nat
                } else {
                    1nat
                }) {
                    Some(n as usize)
                } else {
                    None
                }),
            },
    {
        let n = match self.u32() {
            Some(n) => n as usize,
            None => return None,
        };
        let per: usize = if min_item > 1 {
            min_item
        } else {
            1
        };
        if n <= self.0.len() / per {
            Some(n)
        } else {
            None
        }
    }

    /// Nothing is left to read.
    pub fn finished(&self) -> (r: bool)
        ensures
            r == (self@.len() == 0),
    {
        self.0.len() == 0
    }
}

/// Reading a fixed-width value gives back what writing it wrote.
pub proof fn law_fixed_round_trip(v: nat, n: nat, rest: Seq<u8>)
    requires
        v < byte_range(n),
    ensures
        read_fixed(le_bytes(v, n) + rest, n) == Some((v, rest)),
{
    lemma_le_round_trip(v, n);
    let s = le_bytes(v, n) + rest;
    assert(s.subrange(0, n as int) =~= le_bytes(v, n));
    assert(s.subrange(n as int, s.len() as int) =~= rest);
}

/// Reading a byte string gives back what writing it wrote, when its length
/// fits in 32 bits.
pub proof fn law_bytes_round_trip(v: Seq<u8>, rest: Seq<u8>)
    requires
        v.len() < 0x1_0000_0000,
    ensures
        read_bytes(le_bytes(v.len(), 4) + v + rest) == Some((v, rest)),
{
    lemma_byte_range_values();
    let s = le_bytes(v.len(), 4) + v + rest;
    assert(s =~= le_bytes(v.len(), 4) + (v + rest));
    law_fixed_round_trip(v.len(), 4, v + rest);
    assert((v + rest).subrange(0, v.len() as int) =~= v);
    assert((v + rest).subrange(v.len() as int, (v + rest).len() as int) =~= rest);
}

/// Reading a string gives back what writing it wrote, when its UTF-8
/// length fits in 16 bits.
pub proof fn law_string_round_trip(s: Seq<char>, rest: Seq<u8>)
    requires
        encode_utf8(s).len() < 0x1_0000,
    ensures
        read_string(le_bytes(encode_utf8(s).len(), 2) + encode_utf8(s) + rest) == Some((s, rest)),
{
    lemma_byte_range_values();
    let b = encode_utf8(s);
    let all = le_bytes(b.len(), 2) + b + rest;
    assert(all =~= le_bytes(b.len(), 2) + (b + rest));
    law_fixed_round_trip(b.len(), 2, b + rest);
    assert((b + rest).subrange(0, b.len() as int) =~= b);
    assert((b + rest).subrange(b.len() as int, (b + rest).len() as int) =~= rest);
    encode_utf8_valid_utf8(s);
    encode_utf8_decode_utf8(s);
}

} // verus!
