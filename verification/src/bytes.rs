//! Reading integers and runs of bytes out of a file's contents.
use vstd::prelude::*;
use byteorder::{BigEndian, ByteOrder, LittleEndian};

verus! {

/// The little-endian 16-bit number whose two bytes start at `pos`.
pub open spec fn le16_at(data: Seq<u8>, pos: int) -> int {
    data[pos] as int + 256 * (data[pos + 1] as int)
}

/// The big-endian number made of the `width` bytes that start at `pos`.
pub open spec fn be_at(data: Seq<u8>, pos: int, width: int) -> int
    decreases width,
{
    if width <= 0 {
        0
    } else {
        256 * be_at(data, pos, width - 1) + data[pos + width - 1] as int
    }
}

/// The number of bytes from `pos` on that come before a NUL byte or the
/// end of `data`.
pub open spec fn run_length(data: Seq<u8>, pos: int) -> nat
    decreases data.len() - pos,
{
    if pos < 0 || pos >= data.len() || data[pos] == 0 {
        0
    } else {
        1 + run_length(data, pos + 1)
    }
}

/// The position of the first NUL byte at or after `pos`, or the length of
/// `data` where there is none.
pub open spec fn nul_end(data: Seq<u8>, pos: int) -> int {
    pos + run_length(data, pos)
}

/// The position just behind the string that starts at `pos`: behind its
/// NUL, or the end of `data` where the string runs up to it.
pub open spec fn after_nul(data: Seq<u8>, pos: int) -> int {
    if nul_end(data, pos) < data.len() {
        nul_end(data, pos) + 1
    } else {
        data.len() as int
    }
}

/// Calls byteorder's `LittleEndian::read_u16`. Trusted: the result is the
/// first byte plus 256 times the second; fewer than two bytes are kept out.
#[verifier::external_body]
fn read_le_u16(buf: &[u8]) -> (v: u16)
    requires
        buf@.len() >= 2,
    ensures
        v as int == le16_at(buf@, 0),
{
    LittleEndian::read_u16(buf)
}

/// Calls byteorder's `BigEndian::read_u32`. Trusted: the result is the
/// first four bytes read as a big-endian number; fewer bytes are kept out.
#[verifier::external_body]
fn read_be_u32(buf: &[u8]) -> (v: u32)
    requires
        buf@.len() >= 4,
    ensures
        v as int == be_at(buf@, 0, 4),
{
    BigEndian::read_u32(buf)
}

/// Calls byteorder's `BigEndian::read_u64`. Trusted: the result is the
/// first eight bytes read as a big-endian number; fewer bytes are kept out.
#[verifier::external_body]
fn read_be_u64(buf: &[u8]) -> (v: u64)
    requires
        buf@.len() >= 8,
    ensures
        v as int == be_at(buf@, 0, 8),
{
    BigEndian::read_u64(buf)
}

/// A big-endian number depends only on the bytes it is made of.
pub proof fn be_at_subrange(data: Seq<u8>, pos: int, width: int, k: int)
    requires
        0 <= pos,
        0 <= k <= width,
        pos + width <= data.len(),
    ensures
        be_at(data.subrange(pos, pos + width), 0, k) == be_at(data, pos, k),
    decreases k,
{
    if k > 0 {
        be_at_subrange(data, pos, width, k - 1);
    }
}

/// The little-endian 16-bit number at `pos`, if two bytes are left there.
pub fn le_u16_at(data: &[u8], pos: usize) -> (r: Option<u16>)
    ensures
        r is Some <==> pos + 2 <= data@.len(),
        r is Some ==> r->0 as int == le16_at(data@, pos as int),
{
    if pos > data.len() || data.len() - pos < 2 {
        None
    } else {
        Some(read_le_u16(&data[pos..pos + 2]))
    }
}

/// The big-endian 32-bit number at `pos`, if four bytes are left there.
pub fn be_u32_at(data: &[u8], pos: usize) -> (r: Option<u32>)
    ensures
        r is Some <==> pos + 4 <= data@.len(),
        r is Some ==> r->0 as int == be_at(data@, pos as int, 4),
{
    if pos > data.len() || data.len() - pos < 4 {
        None
    } else {
        proof {
            be_at_subrange(data@, pos as int, 4, 4);
        }
        Some(read_be_u32(&data[pos..pos + 4]))
    }
}

/// The big-endian 64-bit number at `pos`, if eight bytes are left there.
pub fn be_u64_at(data: &[u8], pos: usize) -> (r: Option<u64>)
    ensures
        r is Some <==> pos + 8 <= data@.len(),
        r is Some ==> r->0 as int == be_at(data@, pos as int, 8),
{
    if pos > data.len() || data.len() - pos < 8 {
        None
    } else {
        proof {
            be_at_subrange(data@, pos as int, 8, 8);
        }
        Some(read_be_u64(&data[pos..pos + 8]))
    }
}

/// The position of the first NUL byte at or after `pos`, or the length of
/// `data`.
pub fn find_nul(data: &[u8], pos: usize) -> (end: usize)
    requires
        pos <= data@.len(),
    ensures
        end == nul_end(data@, pos as int),
        pos <= end <= data@.len(),
{
    let mut i: usize = pos;
    while i < data.len() && data[i] != 0
        invariant
            pos <= i <= data@.len(),
            nul_end(data@, i as int) == nul_end(data@, pos as int),
        decreases data@.len() - i,
    {
        i = i + 1;
    }
    i
}

/// A copy of the bytes of `data` from `from` up to `to`.
pub fn copy_range(data: &[u8], from: usize, to: usize) -> (out: Vec<u8>)
    requires
        from <= to <= data@.len(),
    ensures
        out@ == data@.subrange(from as int, to as int),
{
    let mut out: Vec<u8> = Vec::new();
    let mut i: usize = from;
    while i < to
        invariant
            from <= i <= to <= data@.len(),
            out@ == data@.subrange(from as int, i as int),
        decreases to - i,
    {
        out.push(data[i]);
        i = i + 1;
    }
    out
}

/// Appends the bytes of `src` to `buf`.
pub fn append_bytes(buf: &mut Vec<u8>, src: &[u8])
    ensures
        final(buf)@ == old(buf)@ + src@,
{
    let mut i: usize = 0;
    while i < src.len()
        invariant
            i <= src@.len(),
            buf@ == old(buf)@ + src@.take(i as int),
        decreases src@.len() - i,
    {
        buf.push(src[i]);
        i = i + 1;
    }
    proof {
        assert(src@.take(i as int) == src@);
    }
}

} // verus!
