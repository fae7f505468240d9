//! Byte codec: fixed-width little-endian integers.
//!
//! Keys are 32-bit two's-complement integers stored in four bytes, the record
//! count of a page is an unsigned machine word stored in eight bytes. Both are
//! laid out least significant byte first.

use vstd::prelude::*;

verus! {

/// The unsigned 32-bit pattern of `n` in two's complement.
pub open spec fn i32_pattern(n: i32) -> int {
    if n >= 0 {
        n as int
    } else {
        n + 0x1_0000_0000
    }
}

/// The signed integer whose two's-complement pattern is `u`.
pub open spec fn pattern_i32(u: int) -> int {
    if u < 0x8000_0000 {
        u
    } else {
        u - 0x1_0000_0000
    }
}

/// The four bytes of `n`, least significant first.
pub open spec fn i32_bytes(n: i32) -> Seq<u8> {
    let u = i32_pattern(n);
    seq![
        (u % 256) as u8,
        (u / 0x100 % 256) as u8,
        (u / 0x1_0000 % 256) as u8,
        (u / 0x100_0000 % 256) as u8,
    ]
}

/// The unsigned value of the first four bytes of `b`, least significant first.
pub open spec fn le_u32(b: Seq<u8>) -> int
    recommends
        b.len() >= 4,
{
    b[0] + 0x100 * b[1] + 0x1_0000 * b[2] + 0x100_0000 * b[3]
}

/// The signed 32-bit integer held in the first four bytes of `b`.
pub open spec fn bytes_i32(b: Seq<u8>) -> i32
    recommends
        b.len() >= 4,
{
    pattern_i32(le_u32(b)) as i32
}

/// The unsigned value of the first eight bytes of `b`, least significant first.
pub open spec fn bytes_u64(b: Seq<u8>) -> int
    recommends
        b.len() >= 8,
{
    le_u32(b) + 0x1_0000_0000 * le_u32(b.subrange(4, 8))
}

/// Decodes a signed 32-bit integer from exactly four bytes.
pub fn bytearray_to_i32(b: &[u8]) -> (n: i32)
    requires
        b@.len() == 4,
    ensures
        n == bytes_i32(b@),
{
    let u: u64 = b[0] as u64 + 0x100 * (b[1] as u64) + 0x1_0000 * (b[2] as u64) + 0x100_0000 * (
    b[3] as u64);
    if u < 0x8000_0000 {
        u as i32
    } else {
        (u as i64 - 0x1_0000_0000) as i32
    }
}

/// Encodes a signed 32-bit integer into four bytes.
pub fn i32_to_bytearray(n: i32) -> (b: [u8; 4])
    ensures
        b@ == i32_bytes(n),
{
    let u: u64 = if n >= 0 {
        n as u64
    } else {
        (n as i64 + 0x1_0000_0000) as u64
    };
    let b = [
        (u % 256) as u8,
        (u / 0x100 % 256) as u8,
        (u / 0x1_0000 % 256) as u8,
        (u / 0x100_0000 % 256) as u8,
    ];
    assert(b@ =~= i32_bytes(n));
    b
}

/// Decodes an unsigned 64-bit integer from exactly eight bytes.
pub fn bytearray_to_u64(b: &[u8]) -> (n: u64)
    requires
        b@.len() == 8,
    ensures
        n == bytes_u64(b@),
{
    let lo: u64 = b[0] as u64 + 0x100 * (b[1] as u64) + 0x1_0000 * (b[2] as u64) + 0x100_0000 * (
    b[3] as u64);
    let hi: u64 = b[4] as u64 + 0x100 * (b[5] as u64) + 0x1_0000 * (b[6] as u64) + 0x100_0000 * (
    b[7] as u64);
    lo + 0x1_0000_0000 * hi
}

/// Decodes an unsigned machine word from exactly eight bytes. The value has to
/// fit the machine word, which every value does where a word has 64 bits.
pub fn bytearray_to_usize(b: &[u8]) -> (n: usize)
    requires
        b@.len() == 8,
        bytes_u64(b@) <= usize::MAX,
    ensures
        n == bytes_u64(b@),
{
    bytearray_to_u64(b) as usize
}

/// Decoding the encoding of any 32-bit integer gives the integer back.
pub proof fn lemma_i32_round_trip(n: i32)
    ensures
        i32_bytes(n).len() == 4,
        bytes_i32(i32_bytes(n)) == n,
{
}

} // verus!
