//! Little-endian integers and nul-terminated strings read out of a byte slice.
//!
//! Every reader works at a position in the slice and is specified by a spec
//! function over the slice's bytes.
use vstd::prelude::*;
use vstd::utf8::{decode_utf8, valid_utf8};

verus! {

/// The unsigned 16-bit little-endian integer stored at `b[i..i + 2]`.
pub open spec fn le_u16_at(b: Seq<u8>, i: int) -> u16 {
    (b[i] as int + 0x100 * (b[i + 1] as int)) as u16
}

/// The signed (two's complement) 16-bit little-endian integer stored at `b[i..i + 2]`.
pub open spec fn le_i16_at(b: Seq<u8>, i: int) -> i16 {
    le_u16_at(b, i) as i16
}

/// The unsigned 32-bit little-endian integer stored at `b[i..i + 4]`.
pub open spec fn le_u32_at(b: Seq<u8>, i: int) -> u32 {
    (b[i] as int + 0x100 * (b[i + 1] as int) + 0x1_0000 * (b[i + 2] as int) + 0x100_0000 * (
    b[i + 3] as int)) as u32
}

/// The signed (two's complement) 32-bit little-endian integer stored at `b[i..i + 4]`.
pub open spec fn le_i32_at(b: Seq<u8>, i: int) -> i32 {
    le_u32_at(b, i) as i32
}

/// Bits of a double stored as two little-endian 32-bit halves, the high half first:
/// a little-endian 64-bit integer whose two halves are then swapped.
pub open spec fn le32_f64_bits_at(b: Seq<u8>, i: int) -> u64 {
    (le_u32_at(b, i + 4) as int + 0x1_0000_0000 * (le_u32_at(b, i) as int)) as u64
}

/// Index of the first nul byte of `b` at or after `i`, or `b.len()` if there is none.
pub open spec fn nul_from(b: Seq<u8>, i: int) -> int
    decreases b.len() - i,
{
    if i >= b.len() {
        b.len() as int
    } else if b[i] == 0 {
        i
    } else {
        nul_from(b, i + 1)
    }
}

/// A nul-terminated UTF-8 string starting at `i`: the position after its terminator and
/// its characters. `None` when no terminator follows or the bytes are not UTF-8.
pub open spec fn c_string_at(b: Seq<u8>, i: int) -> Option<(int, Seq<char>)> {
    let e = nul_from(b, i);
    if e < b.len() && valid_utf8(b.subrange(i, e)) {
        Some((e + 1, decode_utf8(b.subrange(i, e))))
    } else {
        None
    }
}

/// The four little-endian bytes of `x`.
pub open spec fn le_u32_bytes(x: u32) -> Seq<u8> {
    seq![(x % 0x100) as u8, ((x / 0x100) % 0x100) as u8, ((x / 0x1_0000) % 0x100) as u8, (x / 0x100_0000) as u8]
}

/// The eight bytes that store the bits of a double in the swapped-halves layout of
/// [`le32_f64_bits_at`]: the high 32 bits first, each half little-endian.
pub open spec fn le32_f64_bytes(bits: u64) -> Seq<u8> {
    le_u32_bytes((bits / 0x1_0000_0000) as u32) + le_u32_bytes((bits % 0x1_0000_0000) as u32)
}

proof fn lemma_le_u32_round_trip(x: u32)
    ensures
        le_u32_at(le_u32_bytes(x), 0) == x,
{
    let b = le_u32_bytes(x);
    assert(b[0] as int == x % 0x100);
    assert(b[1] as int == (x / 0x100) % 0x100);
    assert(b[2] as int == (x / 0x1_0000) % 0x100);
    assert(b[3] as int == x / 0x100_0000);
}

/// Storing the bits of a double in the swapped-halves layout and reading them back
/// gives the same bits.
pub proof fn lemma_le32_f64_round_trip(bits: u64)
    ensures
        le32_f64_bytes(bits).len() == 8,
        le32_f64_bits_at(le32_f64_bytes(bits), 0) == bits,
{
    let high = (bits / 0x1_0000_0000) as u32;
    let low = (bits % 0x1_0000_0000) as u32;
    let b = le32_f64_bytes(bits);
    lemma_le_u32_round_trip(high);
    lemma_le_u32_round_trip(low);
    assert(b.subrange(0, 4) =~= le_u32_bytes(high));
    assert(b.subrange(4, 8) =~= le_u32_bytes(low));
    assert(le_u32_at(b, 0) == le_u32_at(le_u32_bytes(high), 0));
    assert(le_u32_at(b, 4) == le_u32_at(le_u32_bytes(low), 0));
}

pub fn read_le_u16(b: &[u8], pos: usize) -> (r: u16)
    requires
        pos + 2 <= b@.len(),
    ensures
        r == le_u16_at(b@, pos as int),
{
    let lo = b[pos] as u16;
    let hi = b[pos + 1] as u16;
    lo + 0x100 * hi
}

pub fn read_le_i16(b: &[u8], pos: usize) -> (r: i16)
    requires
        pos + 2 <= b@.len(),
    ensures
        r == le_i16_at(b@, pos as int),
{
    read_le_u16(b, pos) as i16
}

pub fn read_le_u32(b: &[u8], pos: usize) -> (r: u32)
    requires
        pos + 4 <= b@.len(),
    ensures
        r == le_u32_at(b@, pos as int),
{
    let b0 = b[pos] as u32;
    let b1 = b[pos + 1] as u32;
    let b2 = b[pos + 2] as u32;
    let b3 = b[pos + 3] as u32;
    b0 + 0x100 * b1 + 0x1_0000 * b2 + 0x100_0000 * b3
}

pub fn read_le_i32(b: &[u8], pos: usize) -> (r: i32)
    requires
        pos + 4 <= b@.len(),
    ensures
        r == le_i32_at(b@, pos as int),
{
    read_le_u32(b, pos) as i32
}

/// Reads the bits of a double in the swapped-halves layout of [`le32_f64_bits_at`].
pub fn read_le32_f64_bits(b: &[u8], pos: usize) -> (r: u64)
    requires
        pos + 8 <= b@.len(),
    ensures
        r == le32_f64_bits_at(b@, pos as int),
{
    let len = b.len();
    assert(pos + 4 <= len);
    let high = read_le_u32(b, pos) as u64;
    let low = read_le_u32(b, pos + 4) as u64;
    low + 0x1_0000_0000 * high
}

/// Relies on `std::str::from_utf8`: it accepts exactly the well-formed UTF-8 byte
/// strings, and the string it returns holds the characters they encode.
#[verifier::external_body]
fn utf8_to_string(bytes: &[u8]) -> (r: Option<String>)
    ensures
        r is Some <==> valid_utf8(bytes@),
        r matches Some(s) ==> s@ == decode_utf8(bytes@),
{
    match std::str::from_utf8(bytes) {
        Ok(s) => Some(s.to_string()),
        Err(_) => None,
    }
}

/// Reads a nul-terminated UTF-8 string at `pos`; returns the position after the
/// terminator and the string.
pub fn read_c_string(b: &[u8], pos: usize) -> (r: Option<(usize, String)>)
    requires
        pos <= b@.len(),
    ensures
        r is Some <==> c_string_at(b@, pos as int) is Some,
        r matches Some((n, s)) ==> c_string_at(b@, pos as int) == Some((n as int, s@)),
        r matches Some((n, _)) ==> pos < n <= b@.len(),
{
    let mut end: usize = pos;
    while end < b.len() && b[end] != 0
        invariant
            pos <= end <= b@.len(),
            nul_from(b@, pos as int) == nul_from(b@, end as int),
        decreases b@.len() - end,
    {
        end = end + 1;
    }
    if end >= b.len() {
        return None;
    }
    let raw = vstd::slice::slice_subrange(b, pos, end);
    match utf8_to_string(raw) {
        Some(s) => Some((end + 1, s)),
        None => None,
    }
}

} // verus!
