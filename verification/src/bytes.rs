//! Integer fields read from and written to byte buffers.

use vstd::prelude::*;

verus! {

/// The unsigned 16-bit little-endian value stored at `off`.
pub open spec fn le_u16(s: Seq<u8>, off: int) -> int {
    s[off] as int + s[off + 1] as int * 256
}

/// The unsigned 32-bit little-endian value stored at `off`.
pub open spec fn le_u32(s: Seq<u8>, off: int) -> int {
    le_u16(s, off) + le_u16(s, off + 2) * 65536
}

/// The unsigned 64-bit little-endian value stored at `off`.
pub open spec fn le_u64(s: Seq<u8>, off: int) -> int {
    le_u32(s, off) + le_u32(s, off + 4) * 4294967296
}

/// The signed 32-bit little-endian (two's complement) value stored at `off`.
pub open spec fn le_i32(s: Seq<u8>, off: int) -> int {
    if le_u32(s, off) >= 2147483648 {
        le_u32(s, off) - 4294967296
    } else {
        le_u32(s, off)
    }
}

pub proof fn lemma_le_bounds(s: Seq<u8>, off: int)
    requires
        0 <= off,
        off + 8 <= s.len(),
    ensures
        0 <= le_u16(s, off) < 65536,
        0 <= le_u32(s, off) < 4294967296,
        0 <= le_u64(s, off) < 18446744073709551616,
{
    assert(0 <= le_u16(s, off + 2) < 65536);
    assert(0 <= le_u16(s, off + 4) < 65536);
    assert(0 <= le_u16(s, off + 6) < 65536);
    assert(0 <= le_u32(s, off + 4) < 4294967296);
}

pub fn read_u16_le(input: &[u8], off: usize) -> (r: u16)
    requires
        off + 2 <= input.len(),
    ensures
        r as int == le_u16(input@, off as int),
{
    input[off] as u16 + input[off + 1] as u16 * 256
}

pub fn read_u32_le(input: &[u8], off: usize) -> (r: u32)
    requires
        off + 4 <= input.len(),
    ensures
        r as int == le_u32(input@, off as int),
{
    let lo = read_u16_le(input, off);
    let hi = read_u16_le(input, off + 2);
    lo as u32 + hi as u32 * 65536
}

pub fn read_u64_le(input: &[u8], off: usize) -> (r: u64)
    requires
        off + 8 <= input.len(),
    ensures
        r as int == le_u64(input@, off as int),
{
    let lo = read_u32_le(input, off);
    let hi = read_u32_le(input, off + 4);
    lo as u64 + hi as u64 * 4294967296
}

pub fn read_i32_le(input: &[u8], off: usize) -> (r: i32)
    requires
        off + 4 <= input.len(),
    ensures
        r as int == le_i32(input@, off as int),
{
    let u = read_u32_le(input, off);
    if u >= 2147483648 {
        (u as i64 - 4294967296) as i32
    } else {
        u as i32
    }
}

/// Copies `N` bytes starting at `off` into an array.
pub fn read_array4(input: &[u8], off: usize) -> (r: [u8; 4])
    requires
        off + 4 <= input.len(),
    ensures
        r@ == input@.subrange(off as int, off + 4),
{
    let r = [input[off], input[off + 1], input[off + 2], input[off + 3]];
    assert(r@ =~= input@.subrange(off as int, off + 4));
    r
}

/// The two bytes of `v` (taken modulo 2^16), most significant first.
pub open spec fn be16(v: int) -> Seq<u8> {
    seq![((v / 256) % 256) as u8, (v % 256) as u8]
}

/// The four bytes of `v` (taken modulo 2^32), most significant first.
pub open spec fn be32(v: int) -> Seq<u8> {
    be16(v / 65536) + be16(v % 65536)
}

/// The eight bytes of `v` (taken modulo 2^64), most significant first.
pub open spec fn be64(v: int) -> Seq<u8> {
    be32(v / 4294967296) + be32(v % 4294967296)
}

/// The two bytes of `v` (taken modulo 2^16), least significant first.
pub open spec fn le16(v: int) -> Seq<u8> {
    seq![(v % 256) as u8, ((v / 256) % 256) as u8]
}

pub fn push_u16_be(out: &mut Vec<u8>, v: u16)
    ensures
        final(out)@ == old(out)@ + be16(v as int),
{
    out.push((v / 256) as u8);
    out.push((v % 256) as u8);
    assert(final(out)@ =~= old(out)@ + be16(v as int));
}

pub fn push_u16_le(out: &mut Vec<u8>, v: u16)
    ensures
        final(out)@ == old(out)@ + le16(v as int),
{
    out.push((v % 256) as u8);
    out.push((v / 256) as u8);
    assert(final(out)@ =~= old(out)@ + le16(v as int));
}

pub fn push_u32_be(out: &mut Vec<u8>, v: u32)
    ensures
        final(out)@ == old(out)@ + be32(v as int),
{
    push_u16_be(out, (v / 65536) as u16);
    push_u16_be(out, (v % 65536) as u16);
    assert(final(out)@ =~= old(out)@ + be32(v as int));
}

pub fn push_u64_be(out: &mut Vec<u8>, v: u64)
    ensures
        final(out)@ == old(out)@ + be64(v as int),
{
    push_u32_be(out, (v / 4294967296) as u32);
    push_u32_be(out, (v % 4294967296) as u32);
    assert(final(out)@ =~= old(out)@ + be64(v as int));
}

pub fn push_i16_be(out: &mut Vec<u8>, v: i16)
    ensures
        final(out)@ == old(out)@ + be16(if v < 0 { v + 65536 } else { v as int }),
{
    let u: u16 = if v < 0 {
        (v as i32 + 65536) as u16
    } else {
        v as u16
    };
    push_u16_be(out, u);
}

pub fn push_i32_be(out: &mut Vec<u8>, v: i32)
    ensures
        final(out)@ == old(out)@ + be32(if v < 0 { v + 4294967296 } else { v as int }),
{
    let u: u32 = if v < 0 {
        (v as i64 + 4294967296) as u32
    } else {
        v as u32
    };
    push_u32_be(out, u);
}

/// Appends every byte of `data`.
pub fn push_slice(out: &mut Vec<u8>, data: &[u8])
    ensures
        final(out)@ == old(out)@ + data@,
{
    let mut i: usize = 0;
    while i < data.len()
        invariant
            i <= data.len(),
            out@ == old(out)@ + data@.subrange(0, i as int),
        decreases data.len() - i,
    {
        out.push(data[i]);
        i = i + 1;
        assert(out@ =~= old(out)@ + data@.subrange(0, i as int));
    }
    assert(data@.subrange(0, data@.len() as int) =~= data@);
}

} // verus!
