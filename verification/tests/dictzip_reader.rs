use std::io::Write;

use stardict::dict::Dict;
use stardict::dictzip::{read_chunks, read_header, read_string, DictZip};
use stardict::error::Error;
use stardict::idx::{IdxEntry, IdxEntryBlock};
use stardict::ifo::Ifo;

fn deflate(data: &[u8]) -> Vec<u8> {
    let mut encoder =
        flate2::write::DeflateEncoder::new(Vec::new(), flate2::Compression::default());
    encoder.write_all(data).unwrap();
    encoder.finish().unwrap()
}

fn le16(v: usize) -> [u8; 2] {
    [(v & 0xff) as u8, (v >> 8) as u8]
}

/// A dictzip file for `plain`, with the given header flags besides the
/// extra flag, and the given bytes between the extra field and the chunks.
fn dictzip_with(plain: &[u8], chunk_length: usize, flags: u8, trailer: &[u8]) -> Vec<u8> {
    let chunks: Vec<Vec<u8>> = plain.chunks(chunk_length).map(deflate).collect();
    let mut out = vec![0x1f, 0x8b, 0x08, 0x04 | flags, 1, 2, 3, 4, 0, 3];
    out.extend_from_slice(&le16(4 + 6 + 2 * chunks.len()));
    out.extend_from_slice(b"RA");
    out.extend_from_slice(&le16(6 + 2 * chunks.len()));
    out.extend_from_slice(&le16(1));
    out.extend_from_slice(&le16(chunk_length));
    out.extend_from_slice(&le16(chunks.len()));
    for c in &chunks {
        out.extend_from_slice(&le16(c.len()));
    }
    out.extend_from_slice(trailer);
    for c in &chunks {
        out.extend_from_slice(c);
    }
    out
}

fn dictzip(plain: &[u8], chunk_length: usize) -> Vec<u8> {
    dictzip_with(plain, chunk_length, 0, &[])
}

fn header_failure(data: Vec<u8>) -> Error {
    match DictZip::new(data) {
        Ok(_) => panic!("the header was accepted"),
        Err(e) => e,
    }
}

fn ifo_with_types(types: &str) -> Ifo {
    Ifo::new(&format!("version=2.4.2\nsametypesequence={}\n", types)).unwrap()
}

#[test]
fn range_within_one_chunk() {
    let plain = b"0123456789abcdefghij";
    let mut dz = DictZip::new(dictzip(plain, 8)).unwrap();
    assert_eq!(dz.get_range(1, 3), Some(b"123".to_vec()));
    assert_eq!(dz.get_range(8, 8), Some(b"89abcdef".to_vec()));
}

#[test]
fn range_across_chunks() {
    let plain = b"0123456789abcdefghij";
    let mut dz = DictZip::new(dictzip(plain, 8)).unwrap();
    assert_eq!(dz.get_range(6, 4), Some(b"6789".to_vec()));
    assert_eq!(dz.get_range(0, 20), Some(plain.to_vec()));
    assert_eq!(dz.get_range(7, 13), Some(b"789abcdefghij".to_vec()));
}

#[test]
fn range_is_the_same_when_chunks_are_cached() {
    let plain = b"0123456789abcdefghij";
    let mut dz = DictZip::new(dictzip(plain, 8)).unwrap();
    let first = dz.get_range(5, 10);
    let second = dz.get_range(5, 10);
    assert_eq!(first, Some(b"56789abcde".to_vec()));
    assert_eq!(first, second);
}

#[test]
fn range_past_the_last_chunk_is_none() {
    let plain = b"0123456789abcdefghij";
    let mut dz = DictZip::new(dictzip(plain, 8)).unwrap();
    assert_eq!(dz.get_range(24, 1), None);
    assert_eq!(dz.get_range(16, 9), None);
    assert_eq!(dz.get_range(usize::MAX, 2), None);
}

#[test]
fn range_past_the_end_of_the_last_chunk_is_none() {
    let plain = b"0123456789abcdefghij";
    let mut dz = DictZip::new(dictzip(plain, 8)).unwrap();
    assert_eq!(dz.get_range(16, 4), Some(b"ghij".to_vec()));
    assert_eq!(dz.get_range(16, 5), None);
}

#[test]
fn empty_range() {
    let plain = b"0123456789abcdefghij";
    let mut dz = DictZip::new(dictzip(plain, 8)).unwrap();
    assert_eq!(dz.get_range(0, 0), Some(vec![]));
    assert_eq!(dz.get_range(8, 0), Some(vec![]));
}

#[test]
fn random_access_equals_slicing() {
    let plain: Vec<u8> = (0..3 * 1024 * 1024).map(|i| if i % 2 == 0 { b'a' } else { b'b' }).collect();
    let mut dz = DictZip::new(dictzip(&plain, 65535)).unwrap();
    let mut plain_dict = Dict::new(plain.clone(), false).unwrap();
    let mut state: u64 = 0x2545_f491_4f6c_dd1d;
    for _ in 0..200 {
        state = state.wrapping_mul(6364136223846793005).wrapping_add(1442695040888963407);
        let size = 1 + ((state >> 33) as usize) % (32 * 1024);
        state = state.wrapping_mul(6364136223846793005).wrapping_add(1442695040888963407);
        let offset = ((state >> 33) as usize) % (plain.len() - size + 1);
        let expected = plain[offset..offset + size].to_vec();
        assert_eq!(dz.get_range(offset, size), Some(expected.clone()));
        let block = IdxEntryBlock { offset: offset as u64, size: size as u64 };
        assert_eq!(plain_dict.get_block(&block), Some(expected));
    }
}

#[test]
fn plain_and_dictzipped_definitions_agree() {
    let plain = b"alpha beta gamma delta epsilon".to_vec();
    let mut zipped = Dict::new(dictzip(&plain, 7), true).unwrap();
    let mut flat = Dict::new(plain, false).unwrap();
    let ifo = ifo_with_types("m");
    let entry = IdxEntry {
        word: "Greek".to_string(),
        blocks: vec![
            IdxEntryBlock { offset: 0, size: 5 },
            IdxEntryBlock { offset: 6, size: 10 },
            IdxEntryBlock { offset: 25, size: 6 },
            IdxEntryBlock { offset: 23, size: 7 },
        ],
    };
    let a = flat.get_definition(&entry, &ifo).unwrap();
    let b = zipped.get_definition(&entry, &ifo).unwrap();
    assert_eq!(a.word, "Greek");
    assert_eq!(a.word, b.word);
    assert_eq!(a.segments.len(), 3);
    assert_eq!(b.segments.len(), 3);
    for i in 0..3 {
        assert_eq!(a.segments[i].types, b.segments[i].types);
        assert_eq!(a.segments[i].text, b.segments[i].text);
    }
    assert_eq!(a.segments[0].text, "alpha");
    assert_eq!(a.segments[1].text, "beta gamma");
    assert_eq!(a.segments[2].text, "epsilon");
}

#[test]
fn text_of_a_range_drops_what_is_not_utf8() {
    let plain = [b'o', b'k', 0xff, b'A', 0xe6, 0xbc, 0xa2];
    let mut dz = DictZip::new(dictzip(&plain, 4)).unwrap();
    assert_eq!(dz.get_text(0, 7), Some("okA\u{6f22}".to_string()));
    assert_eq!(dz.get_text(2, 2), Some("A".to_string()));
    assert_eq!(dz.get_text(6, 2), None);
}

#[test]
fn chunk_that_cannot_be_inflated_gives_none() {
    let mut data = dictzip(b"0123456789abcdefghij", 8);
    let len = data.len();
    // the last chunk becomes a stored block with a broken length check
    let last = deflate(b"ghij").len();
    for b in data[len - last..].iter_mut() {
        *b = 0xff;
    }
    let mut dz = DictZip::new(data).unwrap();
    assert_eq!(dz.get_range(0, 8), Some(b"01234567".to_vec()));
    assert_eq!(dz.get_range(16, 4), None);
    assert_eq!(dz.get_range(14, 4), None);
}

#[test]
fn chunk_cut_short_gives_none() {
    let mut data = dictzip(b"0123456789abcdefghij", 8);
    data.pop();
    let mut dz = DictZip::new(data).unwrap();
    assert_eq!(dz.get_range(0, 16), Some(b"0123456789abcdef".to_vec()));
    assert_eq!(dz.get_range(16, 4), None);
}

#[test]
fn zero_chunk_length_gives_none() {
    let mut data = vec![0x1f, 0x8b, 0x08, 0x04, 0, 0, 0, 0, 0, 3];
    data.extend_from_slice(&le16(10));
    data.extend_from_slice(b"RA");
    data.extend_from_slice(&le16(6));
    data.extend_from_slice(&le16(1));
    data.extend_from_slice(&le16(0));
    data.extend_from_slice(&le16(0));
    let mut dz = DictZip::new(data).unwrap();
    assert_eq!(dz.get_range(0, 1), None);
}

#[test]
fn header_is_read_field_by_field() {
    let data = dictzip(b"abc", 8);
    let header = read_header(&data).unwrap();
    assert_eq!(header.id, 0x8b1f);
    assert_eq!(header.compression_method, 8);
    assert_eq!(header.flags, 4);
    assert_eq!(header.modification_time, 0x0403_0201);
    assert_eq!(header.extra_flags, 0);
    assert_eq!(header.os, 3);
    assert!(matches!(read_header(&data[..9]), Err(Error::InvalidDict)));
}

#[test]
fn chunk_table_is_read() {
    let plain = b"0123456789abcdefghij";
    let data = dictzip(plain, 8);
    let (chunk_length, chunks, end) = read_chunks(&data, 10).unwrap();
    assert_eq!(chunk_length, 8);
    assert_eq!(chunks.len(), 3);
    assert_eq!(chunks[0] as usize, deflate(b"01234567").len());
    assert_eq!(chunks[2] as usize, deflate(b"ghij").len());
    assert_eq!(end, 10 + 2 + 4 + 6 + 6);
}

#[test]
fn chunk_size_uses_both_bytes() {
    let mut data = vec![0x1f, 0x8b, 0x08, 0x04, 0, 0, 0, 0, 0, 3];
    data.extend_from_slice(&le16(12));
    data.extend_from_slice(b"RA");
    data.extend_from_slice(&le16(8));
    data.extend_from_slice(&le16(1));
    data.extend_from_slice(&[0x34, 0x12]);
    data.extend_from_slice(&le16(1));
    data.extend_from_slice(&[0xcd, 0xab]);
    let (chunk_length, chunks, _) = read_chunks(&data, 10).unwrap();
    assert_eq!(chunk_length, 0x1234);
    assert_eq!(chunks, vec![0xabcd]);
}

#[test]
fn wrong_magic_is_refused() {
    let mut data = dictzip(b"abc", 8);
    data[0] = 0x1e;
    assert!(matches!(header_failure(data), Error::FailedParseDictHeader("header id")));
}

#[test]
fn wrong_method_is_refused() {
    let mut data = dictzip(b"abc", 8);
    data[2] = 7;
    assert!(matches!(
        header_failure(data),
        Error::FailedParseDictHeader("header compress method")
    ));
}

#[test]
fn missing_extra_flag_is_refused() {
    let mut data = dictzip(b"abc", 8);
    data[3] = 0;
    assert!(matches!(
        header_failure(data),
        Error::FailedParseDictHeader("header flag extra not set")
    ));
}

#[test]
fn short_file_is_invalid() {
    assert!(matches!(header_failure(vec![0x1f, 0x8b, 0x08]), Error::InvalidDict));
    let data = dictzip(b"abc", 8);
    assert!(matches!(header_failure(data[..11].to_vec()), Error::InvalidDict));
    assert!(matches!(header_failure(data[..17].to_vec()), Error::InvalidDict));
    assert!(matches!(header_failure(data[..21].to_vec()), Error::InvalidDict));
}

#[test]
fn chunk_count_must_match_field_length() {
    let mut data = dictzip(b"0123456789abcdefghij", 8);
    // the length of the random-access field, one chunk too long
    data[14] = 14;
    assert!(matches!(
        header_failure(data),
        Error::FailedParseDictHeader("Subfield size remaining too small for chunk count")
    ));
    let mut data = dictzip(b"0123456789abcdefghij", 8);
    // the chunk count, one chunk too few
    data[20] = 2;
    assert!(matches!(
        header_failure(data),
        Error::FailedParseDictHeader("Subfield size remaining too small for chunk count")
    ));
}

#[test]
fn wrong_field_version_is_refused() {
    let mut data = dictzip(b"abc", 8);
    data[16] = 2;
    assert!(matches!(header_failure(data), Error::FailedParseDictHeader("Incorrect ra version")));
}

#[test]
fn missing_field_is_refused() {
    let mut data = vec![0x1f, 0x8b, 0x08, 0x04, 0, 0, 0, 0, 0, 3];
    data.extend_from_slice(&le16(6));
    data.extend_from_slice(b"XY");
    data.extend_from_slice(&le16(2));
    data.extend_from_slice(&[9, 9]);
    assert!(matches!(
        header_failure(data),
        Error::FailedParseDictHeader("Failed to find RA data!")
    ));
    let mut data = vec![0x1f, 0x8b, 0x08, 0x04, 0, 0, 0, 0, 0, 3];
    data.extend_from_slice(&le16(0));
    assert!(matches!(
        header_failure(data),
        Error::FailedParseDictHeader("Failed to find RA data!")
    ));
}

#[test]
fn other_fields_before_and_after_are_passed_over() {
    let plain = b"0123456789";
    let chunk = deflate(plain);
    let mut data = vec![0x1f, 0x8b, 0x08, 0x04, 0, 0, 0, 0, 0, 3];
    data.extend_from_slice(&le16(7 + 12 + 3));
    data.extend_from_slice(b"XY");
    data.extend_from_slice(&le16(3));
    data.extend_from_slice(&[7, 7, 7]);
    data.extend_from_slice(b"RA");
    data.extend_from_slice(&le16(8));
    data.extend_from_slice(&le16(1));
    data.extend_from_slice(&le16(16));
    data.extend_from_slice(&le16(1));
    data.extend_from_slice(&le16(chunk.len()));
    data.extend_from_slice(&[5, 5, 5]);
    data.extend_from_slice(&chunk);
    let mut dz = DictZip::new(data).unwrap();
    assert_eq!(dz.get_range(2, 5), Some(b"23456".to_vec()));
}

#[test]
fn name_comment_and_checksum_are_passed_over() {
    let plain = b"0123456789abcdefghij";
    let data = dictzip_with(plain, 8, 0x08 | 0x10 | 0x02, b"name.dict\0a comment\0\x12\x34");
    let mut dz = DictZip::new(data).unwrap();
    assert_eq!(dz.get_range(3, 12), Some(b"3456789abcde".to_vec()));
}

#[test]
fn name_that_is_not_utf8_is_refused() {
    let data = dictzip_with(b"abc", 8, 0x08, b"na\xffme\0");
    assert!(matches!(header_failure(data), Error::FailedParseDictHeader("Incorrect string")));
}

#[test]
fn missing_checksum_is_invalid() {
    let mut data = dictzip_with(b"", 8, 0x02, b"");
    assert!(matches!(header_failure(data.clone()), Error::InvalidDict));
    data.push(1);
    assert!(matches!(header_failure(data.clone()), Error::InvalidDict));
    data.push(2);
    assert!(DictZip::new(data).is_ok());
}

#[test]
fn string_runs_to_its_nul_or_to_the_end() {
    let data = b"ab\0cd";
    let (s, end) = read_string(data, 0).unwrap();
    assert_eq!(s, "ab");
    assert_eq!(end, 3);
    let (s, end) = read_string(data, 3).unwrap();
    assert_eq!(s, "cd");
    assert_eq!(end, 5);
    let (s, end) = read_string(data, 5).unwrap();
    assert_eq!(s, "");
    assert_eq!(end, 5);
    let (s, _) = read_string(b"\xe6\xbc\xa2\0", 0).unwrap();
    assert_eq!(s, "\u{6f22}");
}
