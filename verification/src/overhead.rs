//! The fixed-width, self-validating metadata record that describes one stored
//! entry.
//!
//! Serialized layout (28 bytes, all integers big-endian):
//!
//! | offset | size | field                                  |
//! |--------|------|----------------------------------------|
//! | 0      | 8    | marker: `RECORD_MARKER` when valid     |
//! | 8      | 8    | entry offset within the segment file   |
//! | 16     | 8    | entry length in bytes                  |
//! | 24     | 4    | 32-bit checksum of the entry payload   |
//!
//! A slot whose marker differs from `RECORD_MARKER` — in particular an
//! untouched, zero-filled slot — is invalid and marks the end of the committed
//! log tail.

use vstd::prelude::*;
use crate::codec::{
    be32_bytes, be32_value, be64_bytes, be64_value, lemma_be32_round_trip, lemma_be64_round_trip,
    lemma_be64_zero, u32_from_be, u32_to_be, u64_from_be, u64_to_be,
};
use vstd::slice::slice_subrange;

verus! {

/// Width in bytes of one serialized overhead record.
pub const OVERHEAD_SIZE: usize = 28;

/// Sentinel marking a fully written record; chosen non-zero so that an
/// untouched slot never reads back as valid.
pub const RECORD_MARKER: u64 = 0x77616c5f72656364;

/// One overhead record, with its validity held as explicit state.
#[derive(Debug, Copy, Clone, PartialEq, Eq, Structural)]
pub struct Overhead {
    /// Absolute byte offset of the entry's data within the segment file.
    pub offset: u64,
    /// Byte length of the entry.
    pub size: u64,
    /// 32-bit checksum of the entry payload.
    pub checksum: u32,
    /// Whether the marker matched the sentinel.
    pub valid: bool,
}

/// The serialized bytes of a valid record with the given fields.
pub open spec fn record_enc(offset: u64, size: u64, checksum: u32) -> Seq<u8> {
    be64_bytes(RECORD_MARKER) + be64_bytes(offset) + be64_bytes(size) + be32_bytes(checksum)
}

/// The record described by 28 serialized bytes.
pub open spec fn record_dec(b: Seq<u8>) -> Overhead
    recommends
        b.len() == OVERHEAD_SIZE,
{
    Overhead {
        offset: be64_value(b.subrange(8, 16)),
        size: be64_value(b.subrange(16, 24)),
        checksum: be32_value(b.subrange(24, 28)),
        valid: be64_value(b.subrange(0, 8)) == RECORD_MARKER,
    }
}

impl Overhead {
    /// A fresh, invalid record.
    pub fn new() -> (r: Overhead)
        ensures
            r == (Overhead { offset: 0, size: 0, checksum: 0, valid: false }),
    {
        Overhead { offset: 0, size: 0, checksum: 0, valid: false }
    }

    /// Clear the record back to the invalid state.
    pub fn reset(&mut self)
        ensures
            *final(self) == (Overhead { offset: 0, size: 0, checksum: 0, valid: false }),
    {
        self.offset = 0;
        self.size = 0;
        self.checksum = 0;
        self.valid = false;
    }

    /// Populate the fields and the marker, yielding a valid record.
    pub fn write(&mut self, offset: u64, size: u64, checksum: u32)
        ensures
            *final(self) == (Overhead { offset, size, checksum, valid: true }),
    {
        self.offset = offset;
        self.size = size;
        self.checksum = checksum;
        self.valid = true;
    }

    /// Whether the marker matched the sentinel.
    pub fn valid(&self) -> (r: bool)
        ensures
            r == self.valid,
    {
        self.valid
    }

    /// Absolute byte offset of the entry's data within the segment file.
    pub fn offset(&self) -> (r: u64)
        ensures
            r == self.offset,
    {
        self.offset
    }

    /// Byte length of the entry.
    pub fn size(&self) -> (r: u64)
        ensures
            r == self.size,
    {
        self.size
    }

    /// 32-bit checksum of the entry payload.
    pub fn crc32(&self) -> (r: u32)
        ensures
            r == self.checksum,
    {
        self.checksum
    }

    /// The serialized byte view of a valid record.
    pub fn encode(&self) -> (r: Vec<u8>)
        requires
            self.valid,
        ensures
            r@ == record_enc(self.offset, self.size, self.checksum),
            r@.len() == OVERHEAD_SIZE,
    {
        let mut out = u64_to_be(RECORD_MARKER);
        let mut part = u64_to_be(self.offset);
        out.append(&mut part);
        let mut part = u64_to_be(self.size);
        out.append(&mut part);
        let mut part = u32_to_be(self.checksum);
        out.append(&mut part);
        out
    }

    /// Deserialize the record stored in 28 bytes.
    pub fn decode(b: &[u8]) -> (r: Overhead)
        requires
            b@.len() == OVERHEAD_SIZE,
        ensures
            r == record_dec(b@),
    {
        let marker = u64_from_be(slice_subrange(b, 0, 8));
        let offset = u64_from_be(slice_subrange(b, 8, 16));
        let size = u64_from_be(slice_subrange(b, 16, 24));
        let checksum = u32_from_be(slice_subrange(b, 24, 28));
        Overhead { offset, size, checksum, valid: marker == RECORD_MARKER }
    }
}

/// Law: decoding a serialized record recovers the record.
pub proof fn lemma_record_round_trip(offset: u64, size: u64, checksum: u32)
    ensures
        record_dec(record_enc(offset, size, checksum)) == (Overhead {
            offset,
            size,
            checksum,
            valid: true,
        }),
{
    let b = record_enc(offset, size, checksum);
    assert(b.subrange(0, 8) =~= be64_bytes(RECORD_MARKER));
    assert(b.subrange(8, 16) =~= be64_bytes(offset));
    assert(b.subrange(16, 24) =~= be64_bytes(size));
    assert(b.subrange(24, 28) =~= be32_bytes(checksum));
    lemma_be64_round_trip(RECORD_MARKER);
    lemma_be64_round_trip(offset);
    lemma_be64_round_trip(size);
    lemma_be32_round_trip(checksum);
}

/// Law: a zero-filled slot is invalid, so recovery stops at untouched slots.
pub proof fn lemma_zero_slot_invalid(b: Seq<u8>)
    requires
        b.len() == OVERHEAD_SIZE,
        forall|i: int| 0 <= i < b.len() ==> b[i] == 0,
    ensures
        !record_dec(b).valid,
{
    lemma_be64_zero(b.subrange(0, 8));
}

} // verus!
