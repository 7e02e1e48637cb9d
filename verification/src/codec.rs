//! Byte-order, hex and checksum primitives used by the on-disk format.

use vstd::prelude::*;

verus! {

/// The big-endian bytes of a 64-bit integer, most significant byte first.
pub open spec fn be64_bytes(n: u64) -> Seq<u8> {
    seq![
        ((n >> 56) & 0xff) as u8,
        ((n >> 48) & 0xff) as u8,
        ((n >> 40) & 0xff) as u8,
        ((n >> 32) & 0xff) as u8,
        ((n >> 24) & 0xff) as u8,
        ((n >> 16) & 0xff) as u8,
        ((n >> 8) & 0xff) as u8,
        (n & 0xff) as u8,
    ]
}

/// The 64-bit integer whose big-endian encoding is the first eight bytes of `s`.
pub open spec fn be64_value(s: Seq<u8>) -> u64
    recommends
        s.len() >= 8,
{
    ((s[0] as u64) << 56) | ((s[1] as u64) << 48) | ((s[2] as u64) << 40) | ((s[3] as u64) << 32)
        | ((s[4] as u64) << 24) | ((s[5] as u64) << 16) | ((s[6] as u64) << 8) | (s[7] as u64)
}

/// The big-endian bytes of a 32-bit integer, most significant byte first.
pub open spec fn be32_bytes(n: u32) -> Seq<u8> {
    seq![
        ((n >> 24) & 0xff) as u8,
        ((n >> 16) & 0xff) as u8,
        ((n >> 8) & 0xff) as u8,
        (n & 0xff) as u8,
    ]
}

/// The 32-bit integer whose big-endian encoding is the first four bytes of `s`.
pub open spec fn be32_value(s: Seq<u8>) -> u32
    recommends
        s.len() >= 4,
{
    ((s[0] as u32) << 24) | ((s[1] as u32) << 16) | ((s[2] as u32) << 8) | (s[3] as u32)
}

/// Decoding the big-endian bytes of a 64-bit integer gives the integer back.
pub proof fn lemma_be64_round_trip(n: u64)
    ensures
        be64_value(be64_bytes(n)) == n,
{
    let s = be64_bytes(n);
    assert(s[0] == ((n >> 56) & 0xff) as u8);
    assert(s[1] == ((n >> 48) & 0xff) as u8);
    assert(s[2] == ((n >> 40) & 0xff) as u8);
    assert(s[3] == ((n >> 32) & 0xff) as u8);
    assert(s[4] == ((n >> 24) & 0xff) as u8);
    assert(s[5] == ((n >> 16) & 0xff) as u8);
    assert(s[6] == ((n >> 8) & 0xff) as u8);
    assert(s[7] == (n & 0xff) as u8);
    assert(((((n >> 56) & 0xff) as u8 as u64) << 56) | ((((n >> 48) & 0xff) as u8 as u64) << 48)
        | ((((n >> 40) & 0xff) as u8 as u64) << 40) | ((((n >> 32) & 0xff) as u8 as u64) << 32)
        | ((((n >> 24) & 0xff) as u8 as u64) << 24) | ((((n >> 16) & 0xff) as u8 as u64) << 16)
        | ((((n >> 8) & 0xff) as u8 as u64) << 8) | ((n & 0xff) as u8 as u64) == n)
        by (bit_vector);
}

/// Decoding the big-endian bytes of a 32-bit integer gives the integer back.
pub proof fn lemma_be32_round_trip(n: u32)
    ensures
        be32_value(be32_bytes(n)) == n,
{
    let s = be32_bytes(n);
    assert(s[0] == ((n >> 24) & 0xff) as u8);
    assert(s[1] == ((n >> 16) & 0xff) as u8);
    assert(s[2] == ((n >> 8) & 0xff) as u8);
    assert(s[3] == (n & 0xff) as u8);
    assert(((((n >> 24) & 0xff) as u8 as u32) << 24) | ((((n >> 16) & 0xff) as u8 as u32) << 16)
        | ((((n >> 8) & 0xff) as u8 as u32) << 8) | ((n & 0xff) as u8 as u32) == n)
        by (bit_vector);
}

/// Eight zero bytes decode to zero.
pub proof fn lemma_be64_zero(s: Seq<u8>)
    requires
        s.len() >= 8,
        forall|i: int| 0 <= i < 8 ==> s[i] == 0,
    ensures
        be64_value(s) == 0,
{
    assert(((0u64 << 56) | (0u64 << 48) | (0u64 << 40) | (0u64 << 32) | (0u64 << 24) | (0u64 << 16)
        | (0u64 << 8) | 0u64) == 0u64) by (bit_vector);
}

/// Relies on byteorder's `BigEndian::write_u64`: stores the big-endian bytes of `n`.
#[verifier::external_body]
pub(crate) fn u64_to_be(n: u64) -> (r: Vec<u8>)
    ensures
        r@ == be64_bytes(n),
{
    let mut buf = vec![0u8; 8];
    <byteorder::BigEndian as byteorder::ByteOrder>::write_u64(&mut buf, n);
    buf
}

/// Relies on byteorder's `BigEndian::read_u64`: reads the first eight bytes as a
/// big-endian integer.
#[verifier::external_body]
pub(crate) fn u64_from_be(b: &[u8]) -> (r: u64)
    requires
        b@.len() == 8,
    ensures
        r == be64_value(b@),
{
    <byteorder::BigEndian as byteorder::ByteOrder>::read_u64(b)
}

/// Relies on byteorder's `BigEndian::write_u32`: stores the big-endian bytes of `n`.
#[verifier::external_body]
pub(crate) fn u32_to_be(n: u32) -> (r: Vec<u8>)
    ensures
        r@ == be32_bytes(n),
{
    let mut buf = vec![0u8; 4];
    <byteorder::BigEndian as byteorder::ByteOrder>::write_u32(&mut buf, n);
    buf
}

/// Relies on byteorder's `BigEndian::read_u32`: reads the first four bytes as a
/// big-endian integer.
#[verifier::external_body]
pub(crate) fn u32_from_be(b: &[u8]) -> (r: u32)
    requires
        b@.len() == 4,
    ensures
        r == be32_value(b@),
{
    <byteorder::BigEndian as byteorder::ByteOrder>::read_u32(b)
}

/// One lowercase hexadecimal digit.
pub open spec fn hex_digit(v: u8) -> char
    recommends
        v < 16,
{
    if v == 0 { '0' }
    else if v == 1 { '1' }
    else if v == 2 { '2' }
    else if v == 3 { '3' }
    else if v == 4 { '4' }
    else if v == 5 { '5' }
    else if v == 6 { '6' }
    else if v == 7 { '7' }
    else if v == 8 { '8' }
    else if v == 9 { '9' }
    else if v == 10 { 'a' }
    else if v == 11 { 'b' }
    else if v == 12 { 'c' }
    else if v == 13 { 'd' }
    else if v == 14 { 'e' }
    else { 'f' }
}

/// The two lowercase hex digits of one byte, high nibble first.
pub open spec fn hex_pair(b: u8) -> Seq<char> {
    seq![hex_digit(b / 16), hex_digit(b % 16)]
}

/// The lowercase hex encoding of a byte sequence, in order.
pub open spec fn hex_seq(s: Seq<u8>) -> Seq<char>
    decreases s.len(),
{
    if s.len() == 0 {
        Seq::empty()
    } else {
        hex_pair(s[0]) + hex_seq(s.subrange(1, s.len() as int))
    }
}

/// Relies on hex's `encode`: two lowercase hex digits per byte, in byte order.
#[verifier::external_body]
pub(crate) fn hex_encode(b: &[u8]) -> (r: String)
    ensures
        r@ == hex_seq(b@),
{
    hex::encode(b)
}

/// The 32-bit checksum of a byte span; a deterministic function of the bytes alone.
pub uninterp spec fn crc32_sum(data: Seq<u8>) -> u32;

/// Relies on crc's `crc32::checksum_ieee`: a deterministic 32-bit checksum of the bytes.
#[verifier::external_body]
pub(crate) fn crc32(data: &[u8]) -> (r: u32)
    ensures
        r == crc32_sum(data@),
{
    crc::crc32::checksum_ieee(data)
}

} // verus!
