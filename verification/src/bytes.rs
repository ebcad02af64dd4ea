//! Little-endian integers in byte sequences.

use vstd::prelude::*;

use crate::error::{BlfError, ErrorView};

verus! {

/// The 16-bit integer whose bytes start at `at`.
pub open spec fn u16_at(s: Seq<u8>, at: int) -> u16 {
    (s[at] + 0x100 * s[at + 1]) as u16
}

/// The 32-bit integer whose bytes start at `at`.
pub open spec fn u32_at(s: Seq<u8>, at: int) -> u32 {
    (s[at] + 0x100 * s[at + 1] + 0x1_0000 * s[at + 2] + 0x100_0000 * s[at + 3]) as u32
}

/// The 64-bit integer whose bytes start at `at`.
pub open spec fn u64_at(s: Seq<u8>, at: int) -> u64 {
    (u32_at(s, at) + 0x1_0000_0000 * u32_at(s, at + 4)) as u64
}

/// The two bytes of a 16-bit integer, the low one first.
pub open spec fn u16_bytes(v: u16) -> Seq<u8> {
    seq![(v % 0x100) as u8, (v / 0x100) as u8]
}

/// The four bytes of a 32-bit integer, the low one first.
pub open spec fn u32_bytes(v: u32) -> Seq<u8> {
    seq![
        (v % 0x100) as u8,
        (v / 0x100 % 0x100) as u8,
        (v / 0x1_0000 % 0x100) as u8,
        (v / 0x100_0000) as u8,
    ]
}

/// The eight bytes of a 64-bit integer, the low one first.
pub open spec fn u64_bytes(v: u64) -> Seq<u8> {
    u32_bytes((v % 0x1_0000_0000) as u32) + u32_bytes((v / 0x1_0000_0000) as u32)
}

/// `n` bytes of zero.
pub open spec fn zeros(n: int) -> Seq<u8> {
    Seq::new(n as nat, |i: int| 0u8)
}

/// The 16-bit integer at a place that is known to hold one.
pub fn get_u16(data: &[u8], offset: usize) -> (v: u16)
    requires
        offset + 2 <= data@.len(),
    ensures
        v == u16_at(data@, offset as int),
{
    data[offset] as u16 + 0x100 * data[offset + 1] as u16
}

/// The 32-bit integer at a place that is known to hold one.
pub fn get_u32(data: &[u8], offset: usize) -> (v: u32)
    requires
        offset + 4 <= data@.len(),
    ensures
        v == u32_at(data@, offset as int),
{
    data[offset] as u32 + 0x100 * data[offset + 1] as u32 + 0x1_0000 * data[offset + 2] as u32
        + 0x100_0000 * data[offset + 3] as u32
}

/// The 64-bit integer at a place that is known to hold one.
pub fn get_u64(data: &[u8], offset: usize) -> (v: u64)
    requires
        offset + 8 <= data@.len(),
    ensures
        v == u64_at(data@, offset as int),
{
    assert(data@.len() == data.len());
    get_u32(data, offset) as u64 + 0x1_0000_0000 * get_u32(data, offset + 4) as u64
}

/// Reads a 16-bit integer.
pub fn read_u16_le(data: &[u8], offset: usize) -> (res: Result<u16, BlfError>)
    ensures
        match res {
            Ok(v) => offset + 2 <= data@.len() && v == u16_at(data@, offset as int),
            Err(e) => offset + 2 > data@.len() && e@ == ErrorView::Parse(
                "buffer too small for u16"@,
            ),
        },
{
    if data.len() < 2 || offset > data.len() - 2 {
        return Err(BlfError::parse("buffer too small for u16"));
    }
    Ok(get_u16(data, offset))
}

/// Reads a 32-bit integer.
pub fn read_u32_le(data: &[u8], offset: usize) -> (res: Result<u32, BlfError>)
    ensures
        match res {
            Ok(v) => offset + 4 <= data@.len() && v == u32_at(data@, offset as int),
            Err(e) => offset + 4 > data@.len() && e@ == ErrorView::Parse(
                "buffer too small for u32"@,
            ),
        },
{
    if data.len() < 4 || offset > data.len() - 4 {
        return Err(BlfError::parse("buffer too small for u32"));
    }
    Ok(get_u32(data, offset))
}

/// Reads a 64-bit integer.
pub fn read_u64_le(data: &[u8], offset: usize) -> (res: Result<u64, BlfError>)
    ensures
        match res {
            Ok(v) => offset + 8 <= data@.len() && v == u64_at(data@, offset as int),
            Err(e) => offset + 8 > data@.len() && e@ == ErrorView::Parse(
                "buffer too small for u64"@,
            ),
        },
{
    if data.len() < 8 || offset > data.len() - 8 {
        return Err(BlfError::parse("buffer too small for u64"));
    }
    Ok(get_u64(data, offset))
}

/// Appends a 16-bit integer.
pub fn push_u16(buf: &mut Vec<u8>, v: u16)
    ensures
        final(buf)@ == old(buf)@ + u16_bytes(v),
{
    buf.push((v % 0x100) as u8);
    buf.push((v / 0x100) as u8);
    assert(buf@ =~= old(buf)@ + u16_bytes(v));
}

/// Appends a 32-bit integer.
pub fn push_u32(buf: &mut Vec<u8>, v: u32)
    ensures
        final(buf)@ == old(buf)@ + u32_bytes(v),
{
    buf.push((v % 0x100) as u8);
    buf.push((v / 0x100 % 0x100) as u8);
    buf.push((v / 0x1_0000 % 0x100) as u8);
    buf.push((v / 0x100_0000) as u8);
    assert(buf@ =~= old(buf)@ + u32_bytes(v));
}

/// Appends a 64-bit integer.
pub fn push_u64(buf: &mut Vec<u8>, v: u64)
    ensures
        final(buf)@ == old(buf)@ + u64_bytes(v),
{
    push_u32(buf, (v % 0x1_0000_0000) as u32);
    push_u32(buf, (v / 0x1_0000_0000) as u32);
    assert(buf@ =~= old(buf)@ + u64_bytes(v));
}

/// Appends `n` bytes of zero.
pub fn push_zeros(buf: &mut Vec<u8>, n: usize)
    ensures
        final(buf)@ == old(buf)@ + zeros(n as int),
{
    let mut i: usize = 0;
    while i < n
        invariant
            i <= n,
            buf@ == old(buf)@ + zeros(i as int),
        decreases n - i,
    {
        buf.push(0);
        i = i + 1;
        assert(buf@ =~= old(buf)@ + zeros(i as int));
    }
}

/// Appends the bytes of a slice.
pub fn push_slice(buf: &mut Vec<u8>, data: &[u8])
    ensures
        final(buf)@ == old(buf)@ + data@,
{
    buf.extend_from_slice(data);
    assert(buf@ =~= old(buf)@ + data@);
}

/// Where the bytes of an integer stand, that integer is read.
pub proof fn lemma_u16_here(s: Seq<u8>, at: int, v: u16)
    requires
        0 <= at,
        at + 2 <= s.len(),
        s.subrange(at, at + 2) == u16_bytes(v),
    ensures
        u16_at(s, at) == v,
{
    let b = s.subrange(at, at + 2);
    assert(b[0] == s[at] && b[1] == s[at + 1]);
}

/// Where the bytes of an integer stand, that integer is read.
pub proof fn lemma_u32_here(s: Seq<u8>, at: int, v: u32)
    requires
        0 <= at,
        at + 4 <= s.len(),
        s.subrange(at, at + 4) == u32_bytes(v),
    ensures
        u32_at(s, at) == v,
{
    let b = s.subrange(at, at + 4);
    assert(b[0] == s[at] && b[1] == s[at + 1] && b[2] == s[at + 2] && b[3] == s[at + 3]);
}

/// An integer that was written is what is read back at the same place.
pub proof fn law_u16_read_back(before: Seq<u8>, v: u16, after: Seq<u8>)
    ensures
        u16_at(before + u16_bytes(v) + after, before.len() as int) == v,
{
}

/// An integer that was written is what is read back at the same place.
pub proof fn law_u32_read_back(before: Seq<u8>, v: u32, after: Seq<u8>)
    ensures
        u32_at(before + u32_bytes(v) + after, before.len() as int) == v,
{
}

/// An integer that was written is what is read back at the same place.
pub proof fn law_u64_read_back(before: Seq<u8>, v: u64, after: Seq<u8>)
    ensures
        u64_at(before + u64_bytes(v) + after, before.len() as int) == v,
{
    let s = before + u64_bytes(v) + after;
    let low = (v % 0x1_0000_0000) as u32;
    let high = (v / 0x1_0000_0000) as u32;
    assert(s =~= before + u32_bytes(low) + (u32_bytes(high) + after));
    assert(s =~= (before + u32_bytes(low)) + u32_bytes(high) + after);
    law_u32_read_back(before, low, u32_bytes(high) + after);
    law_u32_read_back(before + u32_bytes(low), high, after);
}

} // verus!
