//! Big-endian views of the fixed-width integers used by the binary formats.
//!
//! Every multi-byte field of the tag format and of the container header is
//! big-endian. The spec functions here are the single definition of that
//! byte order; the executable readers and writers are proved against them.

use vstd::prelude::*;

verus! {

/// The two big-endian bytes of a 16-bit value.
pub open spec fn be2(x: u16) -> Seq<u8> {
    seq![(x >> 8) as u8, x as u8]
}

/// The four big-endian bytes of a 32-bit value.
pub open spec fn be4(x: u32) -> Seq<u8> {
    seq![(x >> 24) as u8, (x >> 16) as u8, (x >> 8) as u8, x as u8]
}

/// The eight big-endian bytes of a 64-bit value.
pub open spec fn be8(x: u64) -> Seq<u8> {
    seq![
        (x >> 56) as u8,
        (x >> 48) as u8,
        (x >> 40) as u8,
        (x >> 32) as u8,
        (x >> 24) as u8,
        (x >> 16) as u8,
        (x >> 8) as u8,
        x as u8,
    ]
}

/// The 16-bit value read from two big-endian bytes.
pub open spec fn from_be2(a: u8, b: u8) -> u16 {
    ((a as u16) << 8) | (b as u16)
}

/// The 32-bit value read from four big-endian bytes.
pub open spec fn from_be4(a: u8, b: u8, c: u8, d: u8) -> u32 {
    ((a as u32) << 24) | ((b as u32) << 16) | ((c as u32) << 8) | (d as u32)
}

/// The 64-bit value read from eight big-endian bytes.
pub open spec fn from_be8(a: u8, b: u8, c: u8, d: u8, e: u8, f: u8, g: u8, h: u8) -> u64 {
    ((a as u64) << 56) | ((b as u64) << 48) | ((c as u64) << 40) | ((d as u64) << 32)
        | ((e as u64) << 24) | ((f as u64) << 16) | ((g as u64) << 8) | (h as u64)
}

/// Reading back the bytes of a 16-bit value yields the value.
pub proof fn lemma_be2_roundtrip(x: u16)
    ensures
        from_be2(be2(x)[0], be2(x)[1]) == x,
{
    assert(((x >> 8) as u8 as u16) << 8 | (x as u8 as u16) == x) by (bit_vector);
}

/// Reading back the bytes of a 32-bit value yields the value.
pub proof fn lemma_be4_roundtrip(x: u32)
    ensures
        from_be4(be4(x)[0], be4(x)[1], be4(x)[2], be4(x)[3]) == x,
{
    assert(((x >> 24) as u8 as u32) << 24 | ((x >> 16) as u8 as u32) << 16
        | ((x >> 8) as u8 as u32) << 8 | (x as u8 as u32) == x) by (bit_vector);
}

/// Reading back the bytes of a 64-bit value yields the value.
pub proof fn lemma_be8_roundtrip(x: u64)
    ensures
        from_be8(
            be8(x)[0], be8(x)[1], be8(x)[2], be8(x)[3],
            be8(x)[4], be8(x)[5], be8(x)[6], be8(x)[7],
        ) == x,
{
    assert(((x >> 56) as u8 as u64) << 56 | ((x >> 48) as u8 as u64) << 48
        | ((x >> 40) as u8 as u64) << 40 | ((x >> 32) as u8 as u64) << 32
        | ((x >> 24) as u8 as u64) << 24 | ((x >> 16) as u8 as u64) << 16
        | ((x >> 8) as u8 as u64) << 8 | (x as u8 as u64) == x) by (bit_vector);
}

/// Writing the bytes of a 16-bit value read from two bytes yields the bytes.
pub proof fn lemma_be2_of_from(a: u8, b: u8)
    ensures
        be2(from_be2(a, b)) == seq![a, b],
{
    let x = from_be2(a, b);
    assert((((a as u16) << 8 | (b as u16)) >> 8) as u8 == a) by (bit_vector);
    assert(((a as u16) << 8 | (b as u16)) as u8 == b) by (bit_vector);
    assert(be2(x) =~= seq![a, b]);
}

/// Appends the two big-endian bytes of a 16-bit value.
pub fn write_be2(out: &mut Vec<u8>, x: u16)
    ensures
        final(out)@ == old(out)@ + be2(x),
{
    out.push((x >> 8) as u8);
    out.push(x as u8);
    assert(out@ =~= old(out)@ + be2(x));
}

/// Appends the four big-endian bytes of a 32-bit value.
pub fn write_be4(out: &mut Vec<u8>, x: u32)
    ensures
        final(out)@ == old(out)@ + be4(x),
{
    out.push((x >> 24) as u8);
    out.push((x >> 16) as u8);
    out.push((x >> 8) as u8);
    out.push(x as u8);
    assert(out@ =~= old(out)@ + be4(x));
}

/// Appends the eight big-endian bytes of a 64-bit value.
pub fn write_be8(out: &mut Vec<u8>, x: u64)
    ensures
        final(out)@ == old(out)@ + be8(x),
{
    out.push((x >> 56) as u8);
    out.push((x >> 48) as u8);
    out.push((x >> 40) as u8);
    out.push((x >> 32) as u8);
    out.push((x >> 24) as u8);
    out.push((x >> 16) as u8);
    out.push((x >> 8) as u8);
    out.push(x as u8);
    assert(out@ =~= old(out)@ + be8(x));
}

/// Reads a big-endian 16-bit value at `i`.
pub fn read_be2(bytes: &[u8], i: usize) -> (r: u16)
    requires
        i + 2 <= bytes@.len(),
    ensures
        r == from_be2(bytes@[i as int], bytes@[i + 1]),
{
    let a = bytes[i];
    let b = bytes[i + 1];
    ((a as u16) << 8) | (b as u16)
}

/// Reads a big-endian 32-bit value at `i`.
pub fn read_be4(bytes: &[u8], i: usize) -> (r: u32)
    requires
        i + 4 <= bytes@.len(),
    ensures
        r == from_be4(bytes@[i as int], bytes@[i + 1], bytes@[i + 2], bytes@[i + 3]),
{
    let a = bytes[i];
    let b = bytes[i + 1];
    let c = bytes[i + 2];
    let d = bytes[i + 3];
    ((a as u32) << 24) | ((b as u32) << 16) | ((c as u32) << 8) | (d as u32)
}

/// Reads a big-endian 64-bit value at `i`.
pub fn read_be8(bytes: &[u8], i: usize) -> (r: u64)
    requires
        i + 8 <= bytes@.len(),
    ensures
        r == from_be8(
            bytes@[i as int], bytes@[i + 1], bytes@[i + 2], bytes@[i + 3],
            bytes@[i + 4], bytes@[i + 5], bytes@[i + 6], bytes@[i + 7],
        ),
{
    let a = bytes[i];
    let b = bytes[i + 1];
    let c = bytes[i + 2];
    let d = bytes[i + 3];
    let e = bytes[i + 4];
    let f = bytes[i + 5];
    let g = bytes[i + 6];
    let h = bytes[i + 7];
    ((a as u64) << 56) | ((b as u64) << 48) | ((c as u64) << 40) | ((d as u64) << 32)
        | ((e as u64) << 24) | ((f as u64) << 16) | ((g as u64) << 8) | (h as u64)
}

} // verus!
