//! Integers as bytes: big-endian in packet headers, little-endian in PCM samples.

use vstd::prelude::*;

verus! {

/// The two bytes of `x`, most significant first.
pub open spec fn be16(x: u16) -> Seq<u8> {
    seq![(x / 0x100) as u8, (x % 0x100) as u8]
}

/// The four bytes of `x`, most significant first.
pub open spec fn be32(x: u32) -> Seq<u8> {
    seq![
        (x / 0x100_0000) as u8,
        (x / 0x1_0000 % 0x100) as u8,
        (x / 0x100 % 0x100) as u8,
        (x % 0x100) as u8,
    ]
}

/// The 16-bit number whose bytes stand at `off`, most significant first.
pub open spec fn be16_at(s: Seq<u8>, off: int) -> u16 {
    (s[off] * 0x100 + s[off + 1]) as u16
}

/// The 32-bit number whose bytes stand at `off`, most significant first.
pub open spec fn be32_at(s: Seq<u8>, off: int) -> u32 {
    (s[off] * 0x100_0000 + s[off + 1] * 0x1_0000 + s[off + 2] * 0x100 + s[off + 3]) as u32
}

/// The signed 16-bit number with the low byte `lo` and the high byte `hi`.
pub open spec fn le_i16(lo: u8, hi: u8) -> i16 {
    if hi < 0x80 {
        (hi * 0x100 + lo) as i16
    } else {
        (hi * 0x100 + lo - 0x1_0000) as i16
    }
}

/// The low byte and the high byte of a signed 16-bit number.
pub open spec fn i16_le(x: i16) -> Seq<u8> {
    let u = if x < 0 {
        x + 0x1_0000
    } else {
        x as int
    };
    seq![(u % 0x100) as u8, (u / 0x100) as u8]
}

/// Reading a 32-bit number back from where it was written.
pub proof fn lemma_be32_roundtrip(a: Seq<u8>, x: u32, b: Seq<u8>)
    ensures
        be32_at(a + be32(x) + b, a.len() as int) == x,
        (a + be32(x) + b).len() == a.len() + 4 + b.len(),
{
    let s = a + be32(x) + b;
    let n = a.len() as int;
    assert(s[n] == be32(x)[0]);
    assert(s[n + 1] == be32(x)[1]);
    assert(s[n + 2] == be32(x)[2]);
    assert(s[n + 3] == be32(x)[3]);
}

/// Reading a 16-bit number back from where it was written.
pub proof fn lemma_be16_roundtrip(a: Seq<u8>, x: u16, b: Seq<u8>)
    ensures
        be16_at(a + be16(x) + b, a.len() as int) == x,
        (a + be16(x) + b).len() == a.len() + 2 + b.len(),
{
    let s = a + be16(x) + b;
    let n = a.len() as int;
    assert(s[n] == be16(x)[0]);
    assert(s[n + 1] == be16(x)[1]);
}

/// A PCM sample survives the way through its bytes.
pub proof fn lemma_i16_roundtrip(x: i16)
    ensures
        le_i16(i16_le(x)[0], i16_le(x)[1]) == x,
{
}

/// The 32-bit big-endian number at `off`.
pub fn u32_at(b: &[u8], off: usize) -> (r: u32)
    requires
        off + 4 <= b@.len(),
    ensures
        r == be32_at(b@, off as int),
{
    b[off] as u32 * 0x100_0000 + b[off + 1] as u32 * 0x1_0000 + b[off + 2] as u32 * 0x100 + b[off
        + 3] as u32
}

/// The 16-bit big-endian number at `off`.
pub fn u16_at(b: &[u8], off: usize) -> (r: u16)
    requires
        off + 2 <= b@.len(),
    ensures
        r == be16_at(b@, off as int),
{
    b[off] as u16 * 0x100 + b[off + 1] as u16
}

/// Appends a 32-bit number, most significant byte first.
pub fn push_be32(v: &mut Vec<u8>, x: u32)
    ensures
        final(v)@ == old(v)@ + be32(x),
{
    v.push((x / 0x100_0000) as u8);
    v.push((x / 0x1_0000 % 0x100) as u8);
    v.push((x / 0x100 % 0x100) as u8);
    v.push((x % 0x100) as u8);
    assert(v@ =~= old(v)@ + be32(x));
}

/// Appends a 16-bit number, most significant byte first.
pub fn push_be16(v: &mut Vec<u8>, x: u16)
    ensures
        final(v)@ == old(v)@ + be16(x),
{
    v.push((x / 0x100) as u8);
    v.push((x % 0x100) as u8);
    assert(v@ =~= old(v)@ + be16(x));
}

/// Appends bytes.
pub fn push_all(v: &mut Vec<u8>, b: &[u8])
    ensures
        final(v)@ == old(v)@ + b@,
{
    v.extend_from_slice(b);
    assert(v@ =~= old(v)@ + b@);
}

/// The signed 16-bit number with the low byte `lo` and the high byte `hi`.
pub fn i16_from_le(lo: u8, hi: u8) -> (r: i16)
    ensures
        r == le_i16(lo, hi),
{
    let u: i32 = hi as i32 * 0x100 + lo as i32;
    if hi < 0x80 {
        u as i16
    } else {
        (u - 0x1_0000) as i16
    }
}

/// Appends a PCM sample, low byte first.
pub fn push_i16_le(v: &mut Vec<u8>, x: i16)
    ensures
        final(v)@ == old(v)@ + i16_le(x),
{
    let u: i32 = if x < 0 {
        x as i32 + 0x1_0000
    } else {
        x as i32
    };
    v.push((u % 0x100) as u8);
    v.push((u / 0x100) as u8);
    assert(v@ =~= old(v)@ + i16_le(x));
}

} // verus!
