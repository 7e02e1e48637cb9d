//! The durable consumer checkpoint: which entries have been consumed.
//!
//! Serialized layout (16 bytes, big-endian): the segment sequence number,
//! then the number of entries consumed within that segment.

use vstd::prelude::*;
use crate::codec::{
    be64_bytes, be64_value, lemma_be64_round_trip, u64_from_be, u64_to_be,
};
use crate::errors::WalError;
use vstd::slice::slice_subrange;

verus! {

/// Width in bytes of the serialized cursor.
pub const CURSOR_SIZE: usize = 16;

/// A consumer position: all entries in segments with a smaller sequence, and
/// the first `read` entries of segment `sequence`, have been consumed.
#[derive(Debug, Copy, Clone, PartialEq, Eq, Structural)]
pub struct Cursor {
    /// Sequence number of the segment being consumed.
    pub sequence: u64,
    /// Number of entries of that segment already consumed.
    pub read: usize,
}

/// The serialized bytes of a cursor.
pub open spec fn cursor_enc(c: Cursor) -> Seq<u8> {
    be64_bytes(c.sequence) + be64_bytes(c.read as u64)
}

/// The cursor stored in serialized bytes, if they are well-formed: long
/// enough, with a consumed count that fits the machine.
pub open spec fn cursor_dec(b: Seq<u8>) -> Result<Cursor, WalError> {
    if b.len() < CURSOR_SIZE {
        Err(WalError::UnexpectedEof)
    } else if be64_value(b.subrange(8, 16)) > usize::MAX as u64 {
        Err(WalError::InvalidData)
    } else {
        Ok(Cursor {
            sequence: be64_value(b.subrange(0, 8)),
            read: be64_value(b.subrange(8, 16)) as usize,
        })
    }
}

impl Cursor {
    /// The position at the very start of the log.
    pub fn start() -> (r: Cursor)
        ensures
            r == (Cursor { sequence: 0, read: 0 }),
    {
        Cursor { sequence: 0, read: 0 }
    }

    /// The serialized byte view of the cursor.
    pub fn encode(&self) -> (r: Vec<u8>)
        ensures
            r@ == cursor_enc(*self),
            r@.len() == CURSOR_SIZE,
    {
        let mut out = u64_to_be(self.sequence);
        let mut part = u64_to_be(self.read as u64);
        out.append(&mut part);
        out
    }

    /// Deserialize a cursor from its stored bytes.
    pub fn decode(b: &[u8]) -> (r: Result<Cursor, WalError>)
        ensures
            r == cursor_dec(b@),
    {
        if b.len() < CURSOR_SIZE {
            return Err(WalError::UnexpectedEof);
        }
        let sequence = u64_from_be(slice_subrange(b, 0, 8));
        let read64 = u64_from_be(slice_subrange(b, 8, 16));
        if read64 > usize::MAX as u64 {
            return Err(WalError::InvalidData);
        }
        Ok(Cursor { sequence, read: read64 as usize })
    }
}

/// Law: decoding an encoded cursor recovers the cursor.
pub proof fn lemma_cursor_round_trip(c: Cursor)
    ensures
        cursor_dec(cursor_enc(c)) == Ok::<Cursor, WalError>(c),
{
    let b = cursor_enc(c);
    assert(b.subrange(0, 8) =~= be64_bytes(c.sequence));
    assert(b.subrange(8, 16) =~= be64_bytes(c.read as u64));
    lemma_be64_round_trip(c.sequence);
    lemma_be64_round_trip(c.read as u64);
}

} // verus!
