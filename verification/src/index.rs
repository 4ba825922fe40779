//! Record layout of the daemon's chunk index.
//!
//! The sizing tool projects index metadata as unique chunks times
//! [`IndexEntry::WIRE_SIZE`], so the layout here is fixed-width,
//! little-endian and unframed.
use vstd::prelude::*;

use crate::bytes::{
    array16, le_bytes, le_value, lemma_le_bytes_len, lemma_le_roundtrip, lemma_pow256, push_u64,
    read_u64,
};

verus! {

/// One record of the chunk index: the value stored against a chunk's
/// identity.
#[derive(Debug, Clone, Copy, PartialEq, Eq, Structural)]
pub struct IndexEntry {
    /// Stored blob length in bytes.
    pub chunk_len: u64,
    /// Number of live manifest references to the chunk.
    pub refcount: u64,
}

/// The wire layout of a record's value: both fields, 8 bytes each.
pub open spec fn wire_value(e: IndexEntry) -> Seq<u8> {
    le_bytes(e.chunk_len as nat, 8) + le_bytes(e.refcount as nat, 8)
}

impl IndexEntry {
    /// Size of the value part of a record.
    pub const VALUE_SIZE: u64 = 16;

    /// Size of a whole record: the chunk identity plus the value.
    pub const WIRE_SIZE: u64 = 48;

    /// Serializes the value fields.
    #[must_use]
    pub fn to_wire_value(&self) -> (r: [u8; 16])
        ensures
            r@ == wire_value(*self),
    {
        let mut out: Vec<u8> = Vec::with_capacity(16);
        push_u64(&mut out, self.chunk_len);
        push_u64(&mut out, self.refcount);
        proof {
            lemma_le_bytes_len(self.chunk_len as nat, 8);
            lemma_le_bytes_len(self.refcount as nat, 8);
            assert(out@ =~= wire_value(*self));
            assert(out@.subrange(0, 16) =~= out@);
        }
        array16(out.as_slice(), 0)
    }

    /// Parses the value fields.
    #[must_use]
    pub fn from_wire_value(bytes: [u8; 16]) -> (r: Self)
        ensures
            r.chunk_len == le_value(bytes@.subrange(0, 8)),
            r.refcount == le_value(bytes@.subrange(8, 16)),
            wire_value(r) == bytes@,
    {
        let chunk_len: u64 = read_u64(&bytes, 0);
        let refcount: u64 = read_u64(&bytes, 8);
        let r: IndexEntry = IndexEntry { chunk_len, refcount };
        proof {
            crate::bytes::lemma_le_value_bytes(bytes@.subrange(0, 8));
            crate::bytes::lemma_le_value_bytes(bytes@.subrange(8, 16));
            assert(wire_value(r) =~= bytes@);
        }
        r
    }
}

/// Parsing what was serialized gives the record again: two records with the
/// same wire value are the same record.
pub proof fn law_wire_value_determines_entry(a: IndexEntry, b: IndexEntry)
    requires
        wire_value(a) == wire_value(b),
    ensures
        a == b,
{
    lemma_pow256();
    lemma_le_roundtrip(a.chunk_len as nat, 8);
    lemma_le_roundtrip(a.refcount as nat, 8);
    lemma_le_roundtrip(b.chunk_len as nat, 8);
    lemma_le_roundtrip(b.refcount as nat, 8);
    assert(wire_value(a).subrange(0, 8) =~= le_bytes(a.chunk_len as nat, 8));
    assert(wire_value(a).subrange(8, 16) =~= le_bytes(a.refcount as nat, 8));
    assert(wire_value(b).subrange(0, 8) =~= le_bytes(b.chunk_len as nat, 8));
    assert(wire_value(b).subrange(8, 16) =~= le_bytes(b.refcount as nat, 8));
}

/// A record's value holds the length in its first eight bytes and the number of
/// references in the other eight.
pub proof fn law_wire_value_holds_both(e: IndexEntry)
    ensures
        wire_value(e).len() == 16,
        le_value(wire_value(e).subrange(0, 8)) == e.chunk_len,
        le_value(wire_value(e).subrange(8, 16)) == e.refcount,
{
    lemma_pow256();
    lemma_le_roundtrip(e.chunk_len as nat, 8);
    lemma_le_roundtrip(e.refcount as nat, 8);
    lemma_le_bytes_len(e.chunk_len as nat, 8);
    lemma_le_bytes_len(e.refcount as nat, 8);
    assert(wire_value(e).subrange(0, 8) =~= le_bytes(e.chunk_len as nat, 8));
    assert(wire_value(e).subrange(8, 16) =~= le_bytes(e.refcount as nat, 8));
}

} // verus!
