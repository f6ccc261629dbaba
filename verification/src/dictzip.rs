//! The dictzip reader: a gzip file whose extra field lists the compressed
//! sizes of its chunks, so that a byte range of the uncompressed data can be
//! had by inflating only the chunks that hold it.
use vstd::prelude::*;
use vstd::utf8::{decode_utf8, valid_utf8};
use std::collections::HashMap;
use crate::bytes::{after_nul, append_bytes, copy_range, find_nul, le16_at, le_u16_at, nul_end};
use crate::error::{Error, Result};
use crate::text::{buf_to_string, clean_text, utf8_string};

verus! {

broadcast use vstd::std_specs::hash::group_hash_axioms;

/// The header flag that announces a checksum of the header.
pub const HEADER_FLAG_CRC: u8 = 0x02;
/// The header flag that announces the extra field.
pub const HEADER_FLAG_EXTRA: u8 = 0x04;
/// The header flag that announces the name of the compressed file.
pub const HEADER_FLAG_NAME: u8 = 0x08;
/// The header flag that announces a comment.
pub const HEADER_FLAG_COMMENT: u8 = 0x10;
/// The two bytes that a gzip file starts with, read as one number.
pub const GZIP_ID: u16 = 0x8B1F;
/// The compression method of deflate, the only one that gzip knows.
pub const COMPRESSION_METHOD_DEFLATE: u8 = 0x08;
/// The id of the random-access field: the letters R and A.
pub const RA_ID: u16 = 0x4152;
/// The length of the fixed part of a gzip header.
pub const HEADER_LENGTH: usize = 10;

/// What raw inflation of a deflate stream yields, or `None` where the
/// stream is rejected.
pub uninterp spec fn inflated(data: Seq<u8>) -> Option<Seq<u8>>;

/// Calls `inflate::inflate_bytes`. Trusted: the outcome depends on the bytes
/// alone; an error of the decoder is handed on as `None`.
#[verifier::external_body]
fn inflate_chunk(data: &[u8]) -> (r: Option<Vec<u8>>)
    ensures
        match r {
            Some(v) => inflated(data@) == Some(v@),
            None => inflated(data@) is None,
        },
{
    inflate::inflate_bytes(data).ok()
}

/// The fixed ten bytes that a gzip file starts with.
#[derive(Clone, Copy, Debug)]
pub struct DictZipHeader {
    pub id: u16,
    pub compression_method: u8,
    pub flags: u8,
    pub modification_time: u32,
    pub extra_flags: u8,
    pub os: u8,
}

/// What a dictzip file is, once its header is read.
pub struct DictZipView {
    /// The whole file.
    pub data: Seq<u8>,
    /// The uncompressed length of every chunk but the last.
    pub chunk_length: int,
    /// The compressed length of each chunk.
    pub chunks: Seq<u16>,
    /// Where the first chunk starts in the file, cut off at the file's end.
    pub data_offset: int,
    pub filename: Option<Seq<char>>,
    pub comment: Option<Seq<char>>,
    pub crc: Option<u16>,
}

/// The sum of the first `i` compressed chunk lengths.
pub open spec fn prefix_sum(chunks: Seq<u16>, i: int) -> int
    decreases i,
{
    if i <= 0 {
        0
    } else {
        prefix_sum(chunks, i - 1) + chunks[i - 1] as int
    }
}

/// The index of the last chunk that a read of `size` bytes at `offset`
/// touches.
pub open spec fn last_chunk(offset: int, size: int, chunk_length: int) -> int {
    if offset + size == 0 {
        0
    } else {
        (offset + size - 1) / chunk_length
    }
}

impl DictZipView {
    /// Where chunk `i` starts in the file.
    pub open spec fn chunk_start(self, i: int) -> int {
        self.data_offset + prefix_sum(self.chunks, i)
    }

    /// The compressed bytes of chunk `i`, or `None` where the file ends
    /// before the chunk does.
    pub open spec fn chunk_bytes(self, i: int) -> Option<Seq<u8>> {
        let size = self.chunks[i] as int;
        if size == 0 {
            Some(Seq::empty())
        } else if self.chunk_start(i) + size <= self.data.len() {
            Some(self.data.subrange(self.chunk_start(i), self.chunk_start(i) + size))
        } else {
            None
        }
    }

    /// The uncompressed bytes of chunk `i`, or `None` where the chunk is
    /// cut short or cannot be inflated.
    pub open spec fn chunk_text(self, i: int) -> Option<Seq<u8>> {
        match self.chunk_bytes(i) {
            Some(bytes) => inflated(bytes),
            None => None,
        }
    }

    /// The uncompressed bytes of the chunks from `lo` up to `hi`, one after
    /// the other, or `None` where one of them cannot be had.
    pub open spec fn chunks_text(self, lo: int, hi: int) -> Option<Seq<u8>>
        decreases hi - lo,
    {
        if hi <= lo {
            Some(Seq::empty())
        } else {
            match (self.chunks_text(lo, hi - 1), self.chunk_text(hi - 1)) {
                (Some(head), Some(tail)) => Some(head + tail),
                _ => None,
            }
        }
    }

    /// The whole uncompressed data: every chunk inflated, one after the
    /// other.
    pub open spec fn full_text(self) -> Option<Seq<u8>> {
        self.chunks_text(0, self.chunks.len() as int)
    }

    /// The file is a regular dictzip: every chunk can be inflated, each to
    /// the chunk length but for the last, which may be shorter.
    pub open spec fn regular(self) -> bool {
        &&& self.chunk_length > 0
        &&& forall|i: int|
            0 <= i < self.chunks.len() ==> {
                &&& (#[trigger] self.chunk_text(i)) is Some
                &&& self.chunk_text(i)->0.len() <= self.chunk_length
                &&& i < self.chunks.len() - 1 ==> self.chunk_text(i)->0.len() == self.chunk_length
            }
    }

    /// The `size` uncompressed bytes at `offset`, taken from the chunks that
    /// hold them, or `None` where they cannot be had: the range passes the
    /// last chunk, a chunk cannot be read or inflated, or the chunks are
    /// shorter than the range asks.
    pub open spec fn range(self, offset: int, size: int) -> Option<Seq<u8>> {
        if self.chunk_length <= 0 || offset + size > usize::MAX {
            None
        } else {
            let first = offset / self.chunk_length;
            let last = last_chunk(offset, size, self.chunk_length);
            let skip = offset % self.chunk_length;
            if last >= self.chunks.len() {
                None
            } else {
                match self.chunks_text(first, last + 1) {
                    Some(buf) => if skip + size <= buf.len() {
                        Some(buf.subrange(skip, skip + size))
                    } else {
                        None
                    },
                    None => None,
                }
            }
        }
    }
}

/// How far the scan for the random-access field gets, counted in bytes of
/// the extra field that starts at `base`: the count behind the field's id
/// where it is found, or a count of at least `extra_len` where it is not.
/// `read` bytes are scanned already. The file ending inside a sub-field's
/// header is an error.
pub open spec fn scan_extra(data: Seq<u8>, base: int, extra_len: int, read: int) -> Result<int>
    decreases
        (if read < extra_len {
            extra_len - read
        } else {
            0
        }),
{
    if read < 0 || read >= extra_len {
        Ok(read)
    } else if base + read + 2 > data.len() {
        Err(Error::InvalidDict)
    } else if le16_at(data, base + read) == RA_ID {
        Ok(read + 2)
    } else if base + read + 4 > data.len() {
        Err(Error::InvalidDict)
    } else {
        scan_extra(data, base, extra_len, read + 4 + le16_at(data, base + read + 2))
    }
}

/// The chunk sizes that stand as little-endian 16-bit numbers from `pos` on.
pub open spec fn chunk_sizes(data: Seq<u8>, pos: int, count: int) -> Seq<u16> {
    Seq::new(count as nat, |i: int| le16_at(data, pos + 2 * i) as u16)
}

/// What the extra field that starts at `base` and is `extra_len` long says
/// of the chunks: their uncompressed length, their compressed sizes, and the
/// position behind the extra field, cut off at the file's end.
pub open spec fn parse_extra(data: Seq<u8>, base: int, extra_len: int) -> Result<
    (int, Seq<u16>, int),
> {
    match scan_extra(data, base, extra_len, 0) {
        Err(e) => Err(e),
        Ok(read) => {
            let ra = base + read;
            let count = le16_at(data, ra + 6);
            let end = ra + 8 + 2 * count;
            if read >= extra_len {
                Err(Error::FailedParseDictHeader("Failed to find RA data!"))
            } else if ra + 4 > data.len() {
                Err(Error::InvalidDict)
            } else if le16_at(data, ra + 2) != 1 {
                Err(Error::FailedParseDictHeader("Incorrect ra version"))
            } else if ra + 8 > data.len() {
                Err(Error::InvalidDict)
            } else if le16_at(data, ra) - 6 != 2 * count {
                Err(
                    Error::FailedParseDictHeader(
                        "Subfield size remaining too small for chunk count",
                    ),
                )
            } else if end > data.len() {
                Err(Error::InvalidDict)
            } else {
                let behind = if base + extra_len > end {
                    base + extra_len
                } else {
                    end
                };
                let stop = if behind > data.len() {
                    data.len() as int
                } else {
                    behind
                };
                Ok((le16_at(data, ra + 4), chunk_sizes(data, ra + 8, count), stop))
            }
        },
    }
}

/// The string that starts at `pos`, if the header flag `flag` announces one,
/// and the position behind it.
pub open spec fn parse_string(data: Seq<u8>, flags: u8, flag: u8, pos: int) -> Result<
    (Option<Seq<char>>, int),
> {
    let bytes = data.subrange(pos, nul_end(data, pos));
    if flags & flag == 0 {
        Ok((None, pos))
    } else if !valid_utf8(bytes) {
        Err(Error::FailedParseDictHeader("Incorrect string"))
    } else {
        Ok((Some(decode_utf8(bytes)), after_nul(data, pos)))
    }
}

/// What the extra field says whose length stands at `pos`; a file that
/// ends before that length is refused.
pub open spec fn parse_extra_at(data: Seq<u8>, pos: int) -> Result<(int, Seq<u16>, int)> {
    if pos + 2 > data.len() {
        Err(Error::InvalidDict)
    } else {
        parse_extra(data, pos + 2, le16_at(data, pos))
    }
}

/// What a file says of itself as a dictzip file: the gzip header with the
/// extra flag set, the random-access field, then name, comment and header
/// checksum as far as the flags announce them. The first chunk starts
/// behind them.
pub open spec fn parse_dictzip(data: Seq<u8>) -> Result<DictZipView> {
    if data.len() < HEADER_LENGTH {
        Err(Error::InvalidDict)
    } else if le16_at(data, 0) != GZIP_ID {
        Err(Error::FailedParseDictHeader("header id"))
    } else if data[2] != COMPRESSION_METHOD_DEFLATE {
        Err(Error::FailedParseDictHeader("header compress method"))
    } else if data[3] & HEADER_FLAG_EXTRA == 0 {
        Err(Error::FailedParseDictHeader("header flag extra not set"))
    } else if data.len() < HEADER_LENGTH + 2 {
        Err(Error::InvalidDict)
    } else {
        match parse_extra(data, HEADER_LENGTH + 2, le16_at(data, HEADER_LENGTH as int)) {
            Err(e) => Err(e),
            Ok((chunk_length, chunks, pos)) => match parse_string(
                data,
                data[3],
                HEADER_FLAG_NAME,
                pos,
            ) {
                Err(e) => Err(e),
                Ok((filename, pos)) => match parse_string(data, data[3], HEADER_FLAG_COMMENT, pos) {
                    Err(e) => Err(e),
                    Ok((comment, pos)) => if data[3] & HEADER_FLAG_CRC == 0 {
                        Ok(
                            DictZipView {
                                data,
                                chunk_length,
                                chunks,
                                data_offset: pos,
                                filename,
                                comment,
                                crc: None,
                            },
                        )
                    } else if pos + 2 > data.len() {
                        Err(Error::InvalidDict)
                    } else {
                        Ok(
                            DictZipView {
                                data,
                                chunk_length,
                                chunks,
                                data_offset: pos + 2,
                                filename,
                                comment,
                                crc: Some(le16_at(data, pos) as u16),
                            },
                        )
                    },
                },
            },
        }
    }
}

/// In a regular file a run of chunks can be had; it is no longer than its
/// chunks allow, and exactly that long where the last chunk is not in it.
pub proof fn chunks_text_length(v: DictZipView, lo: int, hi: int)
    requires
        v.regular(),
        0 <= lo <= hi <= v.chunks.len(),
    ensures
        v.chunks_text(lo, hi) is Some,
        v.chunks_text(lo, hi)->0.len() <= (hi - lo) * v.chunk_length,
        hi < v.chunks.len() ==> v.chunks_text(lo, hi)->0.len() == (hi - lo) * v.chunk_length,
    decreases hi - lo,
{
    if lo < hi {
        chunks_text_length(v, lo, hi - 1);
        assert(v.chunk_text(hi - 1) is Some);
        assert((hi - 1 - lo) * v.chunk_length + v.chunk_length == (hi - lo) * v.chunk_length)
            by (nonlinear_arith);
    } else {
        assert((hi - lo) * v.chunk_length == 0) by (nonlinear_arith)
            requires
                hi == lo,
        ;
    }
}

/// In a regular file a run of chunks is its first part followed by the rest.
pub proof fn chunks_text_split(v: DictZipView, lo: int, mid: int, hi: int)
    requires
        v.regular(),
        0 <= lo <= mid <= hi <= v.chunks.len(),
    ensures
        v.chunks_text(lo, hi) == Some(v.chunks_text(lo, mid)->0 + v.chunks_text(mid, hi)->0),
    decreases hi - mid,
{
    chunks_text_length(v, lo, mid);
    chunks_text_length(v, mid, hi);
    chunks_text_length(v, lo, hi);
    if mid < hi {
        chunks_text_split(v, lo, mid, hi - 1);
        chunks_text_length(v, lo, hi - 1);
        chunks_text_length(v, mid, hi - 1);
        assert(v.chunk_text(hi - 1) is Some);
        let a = v.chunks_text(lo, mid)->0;
        let b = v.chunks_text(mid, hi - 1)->0;
        let c = v.chunk_text(hi - 1)->0;
        assert((a + b) + c =~= a + (b + c));
    } else {
        assert(v.chunks_text(lo, mid)->0 + Seq::<u8>::empty() =~= v.chunks_text(lo, mid)->0);
    }
}

/// Random access agrees with inflating the whole file and cutting the range
/// out of it, for every non-empty range that lies in the uncompressed data.
pub proof fn range_is_slice_of_full_text(v: DictZipView, offset: int, size: int)
    requires
        v.regular(),
        0 <= offset,
        0 < size,
        offset + size <= usize::MAX,
        offset + size <= v.full_text()->0.len(),
    ensures
        v.full_text() is Some,
        v.range(offset, size) == Some(v.full_text()->0.subrange(offset, offset + size)),
{
    let n = v.chunks.len() as int;
    let cl = v.chunk_length;
    let first = offset / cl;
    let last = (offset + size - 1) / cl;
    let skip = offset % cl;
    chunks_text_length(v, 0, n);
    let full = v.full_text()->0;
    vstd::arithmetic::div_mod::lemma_fundamental_div_mod(offset, cl);
    vstd::arithmetic::div_mod::lemma_fundamental_div_mod(offset + size - 1, cl);
    vstd::arithmetic::div_mod::lemma_mod_pos_bound(offset, cl);
    vstd::arithmetic::div_mod::lemma_mod_pos_bound(offset + size - 1, cl);
    assert(last < n) by (nonlinear_arith)
        requires
            cl * last <= offset + size - 1,
            offset + size - 1 < n * cl,
            cl > 0,
    ;
    assert(0 <= first <= last) by (nonlinear_arith)
        requires
            cl * first <= offset,
            offset < cl * first + cl,
            offset <= offset + size - 1,
            offset + size - 1 < cl * last + cl,
            0 <= offset,
            cl > 0,
    ;
    chunks_text_split(v, 0, first, n);
    chunks_text_split(v, first, last + 1, n);
    chunks_text_length(v, 0, first);
    chunks_text_length(v, first, last + 1);
    chunks_text_length(v, last + 1, n);
    chunks_text_length(v, first, n);
    let head = v.chunks_text(0, first)->0;
    let mid = v.chunks_text(first, last + 1)->0;
    let tail = v.chunks_text(last + 1, n)->0;
    assert(head.len() == first * cl);
    assert(first * cl == cl * first) by (nonlinear_arith);
    assert(skip + size <= mid.len()) by {
        if last + 1 < n {
            assert((last + 1 - first) * cl == cl * last + cl - cl * first) by (nonlinear_arith);
        } else {
            assert(tail.len() == 0) by {
                assert((n - (last + 1)) * cl == 0) by (nonlinear_arith)
                    requires
                        n == last + 1,
                ;
            }
        }
    }
    assert(full =~= head + (mid + tail));
    assert(full.subrange(offset, offset + size) =~= mid.subrange(skip, skip + size));
}

/// In a regular dictzip file, a range that passes the end of the
/// uncompressed data cannot be had.
pub proof fn range_past_end_fails(v: DictZipView, offset: int, size: int)
    requires
        v.regular(),
        0 <= offset,
        0 < size,
        offset + size > v.full_text()->0.len(),
    ensures
        v.range(offset, size) is None,
{
    let n = v.chunks.len() as int;
    let cl = v.chunk_length;
    let first = offset / cl;
    let last = (offset + size - 1) / cl;
    let skip = offset % cl;
    if offset + size <= usize::MAX && last < n {
        vstd::arithmetic::div_mod::lemma_fundamental_div_mod(offset, cl);
        vstd::arithmetic::div_mod::lemma_fundamental_div_mod(offset + size - 1, cl);
        vstd::arithmetic::div_mod::lemma_mod_pos_bound(offset, cl);
        vstd::arithmetic::div_mod::lemma_mod_pos_bound(offset + size - 1, cl);
        assert(0 <= first <= last) by (nonlinear_arith)
            requires
                cl * first <= offset,
                offset < cl * first + cl,
                offset <= offset + size - 1,
                offset + size - 1 < cl * last + cl,
                0 <= offset,
                cl > 0,
        ;
        chunks_text_split(v, 0, first, last + 1);
        chunks_text_split(v, 0, last + 1, n);
        chunks_text_length(v, 0, first);
        chunks_text_length(v, first, last + 1);
        chunks_text_length(v, 0, last + 1);
        chunks_text_length(v, last + 1, n);
        chunks_text_length(v, 0, n);
        assert(first * cl == cl * first) by (nonlinear_arith);
    }
}

/// A header whose random-access field gives a length that does not match
/// its chunk count is refused as malformed, and the chunk table of an
/// accepted header fills its field exactly.
pub proof fn chunk_count_matches_field(data: Seq<u8>, base: int, extra_len: int, read: int)
    requires
        scan_extra(data, base, extra_len, 0) == Ok::<int, Error>(read),
        read < extra_len,
        base + read + 8 <= data.len(),
        le16_at(data, base + read + 2) == 1,
    ensures
        le16_at(data, base + read) - 6 != 2 * le16_at(data, base + read + 6) ==> parse_extra(
            data,
            base,
            extra_len,
        ) == Err::<(int, Seq<u16>, int), _>(
            Error::FailedParseDictHeader("Subfield size remaining too small for chunk count"),
        ),
        parse_extra(data, base, extra_len) is Ok ==> le16_at(data, base + read) - 6 == 2
            * parse_extra(data, base, extra_len)->Ok_0.1.len(),
{
}

/// Reads the fixed part of the gzip header.
pub fn read_header(data: &[u8]) -> (r: Result<DictZipHeader>)
    ensures
        match r {
            Ok(h) => {
                &&& data@.len() >= HEADER_LENGTH
                &&& h.id as int == le16_at(data@, 0)
                &&& h.compression_method == data@[2]
                &&& h.flags == data@[3]
                &&& h.modification_time as int == le16_at(data@, 4) + 65536 * le16_at(data@, 6)
                &&& h.extra_flags == data@[8]
                &&& h.os == data@[9]
            },
            Err(e) => data@.len() < HEADER_LENGTH && e == Error::InvalidDict,
        },
{
    if data.len() < HEADER_LENGTH {
        return Err(Error::InvalidDict);
    }
    let id = le_u16_at(data, 0).unwrap();
    let low = le_u16_at(data, 4).unwrap();
    let high = le_u16_at(data, 6).unwrap();
    let modification_time: u32 = low as u32 + 65536 * (high as u32);
    Ok(
        DictZipHeader {
            id,
            compression_method: data[2],
            flags: data[3],
            modification_time,
            extra_flags: data[8],
            os: data[9],
        },
    )
}

/// Reads the extra field that starts at `pos` with its length: finds the
/// random-access field in it and reads the chunk table. Returns the chunks'
/// uncompressed length, their compressed sizes, and the position behind the
/// extra field.
pub fn read_chunks(data: &[u8], pos: usize) -> (r: Result<(usize, Vec<u16>, usize)>)
    ensures
        match r {
            Ok((chunk_length, chunks, end)) => parse_extra_at(data@, pos as int) == Ok::<_, Error>(
                (chunk_length as int, chunks@, end as int),
            ),
            Err(e) => parse_extra_at(data@, pos as int) == Err::<(int, Seq<u16>, int), _>(e),
        },
{
    let len: usize = data.len();
    let extra_len: usize = match le_u16_at(data, pos) {
        Some(extra_len) => extra_len as usize,
        None => {
            return Err(Error::InvalidDict);
        },
    };
    let base: usize = pos + 2;
    let avail: usize = len - base;
    let mut read: usize = 0;
    let mut found = false;
    while read < extra_len && !found
        invariant
            base + avail == data@.len() <= usize::MAX,
            base == pos + 2,
            extra_len == le16_at(data@, pos as int),
            extra_len <= 0xffff,
            read <= 0x2_0004,
            !found ==> scan_extra(data@, base as int, extra_len as int, read as int) == scan_extra(
                data@,
                base as int,
                extra_len as int,
                0,
            ),
            found ==> scan_extra(data@, base as int, extra_len as int, 0) == Ok::<int, Error>(
                read as int,
            ),
        decreases
            (if found || read >= extra_len {
                0
            } else {
                extra_len - read
            }),
    {
        if avail < read + 2 {
            return Err(Error::InvalidDict);
        }
        let field_id = le_u16_at(data, base + read).unwrap();
        if field_id == RA_ID {
            read = read + 2;
            found = true;
        } else {
            if avail < read + 4 {
                return Err(Error::InvalidDict);
            }
            let sub_len = le_u16_at(data, base + read + 2).unwrap();
            read = read + 4 + sub_len as usize;
        }
    }
    if read >= extra_len {
        return Err(Error::FailedParseDictHeader("Failed to find RA data!"));
    }
    if avail < read + 4 {
        return Err(Error::InvalidDict);
    }
    let ra: usize = base + read;
    let ra_size = le_u16_at(data, ra).unwrap();
    let version = le_u16_at(data, ra + 2).unwrap();
    if version != 1 {
        return Err(Error::FailedParseDictHeader("Incorrect ra version"));
    }
    if avail < read + 8 {
        return Err(Error::InvalidDict);
    }
    let chunk_length = le_u16_at(data, ra + 4).unwrap() as usize;
    let chunk_count = le_u16_at(data, ra + 6).unwrap() as usize;
    if ra_size < 6 || (ra_size as usize - 6) != 2 * chunk_count {
        return Err(
            Error::FailedParseDictHeader("Subfield size remaining too small for chunk count"),
        );
    }
    if avail < read + 8 + 2 * chunk_count {
        return Err(Error::InvalidDict);
    }
    let mut chunks: Vec<u16> = Vec::new();
    let mut i: usize = 0;
    while i < chunk_count
        invariant
            i <= chunk_count <= 0xffff,
            ra + 8 + 2 * chunk_count <= data@.len() <= usize::MAX,
            chunks@ == chunk_sizes(data@, ra + 8, i as int),
        decreases chunk_count - i,
    {
        let chunk = le_u16_at(data, ra + 8 + 2 * i).unwrap();
        chunks.push(chunk);
        proof {
            assert(chunks@ =~= chunk_sizes(data@, ra + 8, i + 1));
        }
        i = i + 1;
    }
    let end_rel: usize = read + 8 + 2 * chunk_count;
    let behind: usize = if extra_len > end_rel {
        extra_len
    } else {
        end_rel
    };
    let stop: usize = if behind > avail {
        data.len()
    } else {
        base + behind
    };
    Ok((chunk_length, chunks, stop))
}

/// Reads the NUL-terminated string that starts at `pos`; where no NUL
/// follows, the string runs to the end of the data. Returns it with the
/// position behind it.
pub fn read_string(data: &[u8], pos: usize) -> (r: Result<(String, usize)>)
    requires
        pos <= data@.len(),
    ensures
        match r {
            Ok((s, end)) => {
                &&& valid_utf8(data@.subrange(pos as int, nul_end(data@, pos as int)))
                &&& s@ == decode_utf8(data@.subrange(pos as int, nul_end(data@, pos as int)))
                &&& end == after_nul(data@, pos as int)
            },
            Err(e) => {
                &&& !valid_utf8(data@.subrange(pos as int, nul_end(data@, pos as int)))
                &&& e == Error::FailedParseDictHeader("Incorrect string")
            },
        },
{
    let end = find_nul(data, pos);
    let bytes = copy_range(data, pos, end);
    let next = if end < data.len() {
        end + 1
    } else {
        end
    };
    match utf8_string(bytes) {
        Some(s) => Ok((s, next)),
        None => Err(Error::FailedParseDictHeader("Incorrect string")),
    }
}

/// Reads the string at `pos` where the header flag `flag` announces one.
fn read_optional_string(data: &[u8], flags: u8, flag: u8, pos: usize) -> (r: Result<
    (Option<String>, usize),
>)
    requires
        pos <= data@.len(),
    ensures
        match r {
            Ok((s, end)) => {
                &&& end <= data@.len()
                &&& parse_string(data@, flags, flag, pos as int) == Ok::<_, Error>(
                    (
                        match s {
                            Some(s) => Some(s@),
                            None => None,
                        },
                        end as int,
                    ),
                )
            },
            Err(e) => parse_string(data@, flags, flag, pos as int) == Err::<
                (Option<Seq<char>>, int),
                _,
            >(e),
        },
{
    if flags & flag == 0 {
        Ok((None, pos))
    } else {
        match read_string(data, pos) {
            Ok((s, end)) => Ok((Some(s), end)),
            Err(e) => Err(e),
        }
    }
}

/// A dictzip file held in memory, with the chunks inflated so far.
pub struct DictZip {
    data: Vec<u8>,
    header: DictZipHeader,
    chunk_length: usize,
    chunks: Vec<u16>,
    data_offset: usize,
    cache: HashMap<usize, Vec<u8>>,
    filename: Option<String>,
    comment: Option<String>,
    crc: Option<u16>,
}

impl DictZip {
    /// The file and what its header says, without the chunk cache.
    pub closed spec fn view(&self) -> DictZipView {
        DictZipView {
            data: self.data@,
            chunk_length: self.chunk_length as int,
            chunks: self.chunks@,
            data_offset: self.data_offset as int,
            filename: match self.filename {
                Some(s) => Some(s@),
                None => None,
            },
            comment: match self.comment {
                Some(s) => Some(s@),
                None => None,
            },
            crc: self.crc,
        }
    }

    /// The reader is sound: its numbers are those of a 16-bit chunk table,
    /// the first chunk starts inside the file or at its end, and every
    /// cached chunk holds what inflating that chunk of the file gives.
    pub closed spec fn wf(&self) -> bool {
        &&& self.chunk_length <= 0xffff
        &&& self.chunks@.len() <= 0xffff
        &&& self.data_offset <= self.data@.len()
        &&& forall|i: usize| #[trigger]
            self.cache@.contains_key(i) ==> i < self.chunks@.len() && self@.chunk_text(i as int)
                == Some(self.cache@[i]@)
    }

    /// The chunks that are held inflated.
    pub closed spec fn cached(&self) -> Set<usize> {
        self.cache@.dom()
    }

    /// Reads the header of a dictzip file and keeps the file for later
    /// reads. No chunk is inflated yet.
    pub fn new(data: Vec<u8>) -> (r: Result<DictZip>)
        ensures
            match r {
                Ok(dz) => dz.wf() && parse_dictzip(data@) == Ok::<_, Error>(dz@) && dz.cached()
                    == Set::<usize>::empty(),
                Err(e) => parse_dictzip(data@) == Err::<DictZipView, _>(e),
            },
    {
        let header = match read_header(data.as_slice()) {
            Ok(h) => h,
            Err(e) => {
                return Err(e);
            },
        };
        if header.id != GZIP_ID {
            return Err(Error::FailedParseDictHeader("header id"));
        }
        if header.compression_method != COMPRESSION_METHOD_DEFLATE {
            return Err(Error::FailedParseDictHeader("header compress method"));
        }
        if header.flags & HEADER_FLAG_EXTRA == 0 {
            return Err(Error::FailedParseDictHeader("header flag extra not set"));
        }
        let (chunk_length, chunks, pos) = match read_chunks(data.as_slice(), HEADER_LENGTH) {
            Ok(t) => t,
            Err(e) => {
                return Err(e);
            },
        };
        let (filename, pos) = match read_optional_string(
            data.as_slice(),
            header.flags,
            HEADER_FLAG_NAME,
            pos,
        ) {
            Ok(t) => t,
            Err(e) => {
                return Err(e);
            },
        };
        let (comment, pos) = match read_optional_string(
            data.as_slice(),
            header.flags,
            HEADER_FLAG_COMMENT,
            pos,
        ) {
            Ok(t) => t,
            Err(e) => {
                return Err(e);
            },
        };
        let len: usize = data.len();
        let (crc, data_offset) = if header.flags & HEADER_FLAG_CRC == 0 {
            (None, pos)
        } else {
            match le_u16_at(data.as_slice(), pos) {
                Some(crc) => (Some(crc), pos + 2),
                None => {
                    return Err(Error::InvalidDict);
                },
            }
        };
        let cache: HashMap<usize, Vec<u8>> = HashMap::new();
        let dz = DictZip {
            data,
            header,
            chunk_length,
            chunks,
            data_offset,
            cache,
            filename,
            comment,
            crc,
        };
        Ok(dz)
    }

    /// Makes sure that chunk `index` is in the cache: reads and inflates it
    /// unless it is there already. Returns whether the chunk could be had.
    fn read_chunk(&mut self, index: usize) -> (ok: bool)
        requires
            old(self).wf(),
            index < old(self).chunks@.len(),
        ensures
            final(self).wf(),
            final(self)@ == old(self)@,
            ok == (old(self)@.chunk_text(index as int) is Some),
            ok ==> final(self).cache@.contains_key(index),
            old(self).cached().subset_of(final(self).cached()),
            forall|i: usize|
                final(self).cached().contains(i) ==> old(self).cached().contains(i) || i == index,
    {
        if self.cache.contains_key(&index) {
            return true;
        }
        let mut sum: usize = 0;
        let mut i: usize = 0;
        while i < index
            invariant
                i <= index < self.chunks@.len() <= 0xffff,
                sum == prefix_sum(self.chunks@, i as int),
                sum <= i * 0xffff,
            decreases index - i,
        {
            sum = sum + self.chunks[i] as usize;
            i = i + 1;
        }
        let avail: usize = self.data.len() - self.data_offset;
        let size: usize = self.chunks[index] as usize;
        let inflated = if size == 0 {
            proof {
                assert(self.data@.subrange(0, 0) =~= Seq::<u8>::empty());
            }
            inflate_chunk(&self.data.as_slice()[0..0])
        } else if sum > avail || avail - sum < size {
            return false;
        } else {
            let start: usize = self.data_offset + sum;
            inflate_chunk(&self.data.as_slice()[start..start + size])
        };
        match inflated {
            Some(text) => {
                self.cache.insert(index, text);
                proof {
                    assert forall|i: usize| #[trigger] self.cache@.contains_key(i) implies i
                        < self.chunks@.len() && self@.chunk_text(i as int) == Some(
                        self.cache@[i]@,
                    ) by {
                        if i != index {
                            assert(old(self).cache@.contains_key(i));
                        }
                    }
                }
                true
            },
            None => false,
        }
    }

    /// The `size` uncompressed bytes at `offset`. Only chunks that hold
    /// them are inflated, and only those that are not held yet; a chunk
    /// that was inflated stays held, and after a read that gave its bytes
    /// every chunk of the range is.
    pub fn get_range(&mut self, offset: usize, size: usize) -> (r: Option<Vec<u8>>)
        requires
            old(self).wf(),
        ensures
            final(self).wf(),
            final(self)@ == old(self)@,
            old(self).cached().subset_of(final(self).cached()),
            forall|i: usize|
                final(self).cached().contains(i) ==> old(self).cached().contains(i) || (offset
                    / old(self)@.chunk_length as usize <= i <= last_chunk(
                    offset as int,
                    size as int,
                    old(self)@.chunk_length,
                )),
            r is Some ==> forall|i: usize|
                offset / old(self)@.chunk_length as usize <= i <= last_chunk(
                    offset as int,
                    size as int,
                    old(self)@.chunk_length,
                ) ==> final(self).cached().contains(i),
            match r {
                Some(bytes) => old(self)@.range(offset as int, size as int) == Some(bytes@),
                None => old(self)@.range(offset as int, size as int) is None,
            },
    {
        if self.chunk_length == 0 {
            return None;
        }
        let end: usize = match offset.checked_add(size) {
            Some(end) => end,
            None => {
                return None;
            },
        };
        let first: usize = offset / self.chunk_length;
        let last: usize = if end == 0 {
            0
        } else {
            (end - 1) / self.chunk_length
        };
        let skip: usize = offset % self.chunk_length;
        if last >= self.chunks.len() {
            return None;
        }
        let mut buf: Vec<u8> = Vec::new();
        let mut i: usize = first;
        while i <= last
            invariant
                self.wf(),
                self@ == old(self)@,
                last < self.chunks@.len() <= 0xffff,
                self.chunk_length > 0,
                offset + size <= usize::MAX,
                first == offset / self.chunk_length,
                last == last_chunk(offset as int, size as int, self.chunk_length as int),
                first <= i,
                i <= last + 1 || i == first,
                self@.chunks_text(first as int, i as int) == Some(buf@),
                old(self).cached().subset_of(self.cached()),
                forall|k: usize|
                    self.cached().contains(k) ==> old(self).cached().contains(k) || first <= k < i,
                forall|k: usize| first <= k < i ==> self.cached().contains(k),
            decreases last + 1 - i,
        {
            if !self.read_chunk(i) {
                proof {
                    Self::chunks_text_fails(self@, first as int, i as int, last + 1);
                }
                return None;
            }
            let chunk = self.cache.get(&i).unwrap();
            append_bytes(&mut buf, chunk.as_slice());
            i = i + 1;
        }
        if size > buf.len() || skip > buf.len() - size {
            return None;
        }
        Some(copy_range(buf.as_slice(), skip, skip + size))
    }

    /// The text of the `size` uncompressed bytes at `offset`.
    pub fn get_text(&mut self, offset: usize, size: usize) -> (r: Option<String>)
        requires
            old(self).wf(),
        ensures
            final(self).wf(),
            final(self)@ == old(self)@,
            old(self).cached().subset_of(final(self).cached()),
            match r {
                Some(text) => old(self)@.range(offset as int, size as int) is Some && text@
                    == clean_text(old(self)@.range(offset as int, size as int)->0),
                None => old(self)@.range(offset as int, size as int) is None,
            },
    {
        match self.get_range(offset, size) {
            Some(bytes) => Some(buf_to_string(bytes.as_slice())),
            None => None,
        }
    }

    /// Where one chunk cannot be had, no run of chunks that holds it can.
    proof fn chunks_text_fails(v: DictZipView, lo: int, bad: int, hi: int)
        requires
            lo <= bad < hi,
            v.chunk_text(bad) is None,
        ensures
            v.chunks_text(lo, hi) is None,
        decreases hi - lo,
    {
        if hi - 1 > bad {
            Self::chunks_text_fails(v, lo, bad, hi - 1);
        }
    }
}

} // verus!
