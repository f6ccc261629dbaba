use std::io::Write;

use stardict::error::Error;
use stardict::idx::{coalesce, find_item, find_syn, load_syn, read, read_items, Idx, IdxEntry};
use stardict::ifo::{Ifo, Version};

fn record(word: &str, offset: u32, size: u32) -> Vec<u8> {
    let mut out = word.as_bytes().to_vec();
    out.push(0);
    out.extend_from_slice(&offset.to_be_bytes());
    out.extend_from_slice(&size.to_be_bytes());
    out
}

fn wide_record(word: &str, offset: u64, size: u64) -> Vec<u8> {
    let mut out = word.as_bytes().to_vec();
    out.push(0);
    out.extend_from_slice(&offset.to_be_bytes());
    out.extend_from_slice(&size.to_be_bytes());
    out
}

fn synonym(alias: &str, index: u32) -> Vec<u8> {
    let mut out = alias.as_bytes().to_vec();
    out.push(0);
    out.extend_from_slice(&index.to_be_bytes());
    out
}

fn words(entries: &Vec<&IdxEntry>) -> Vec<String> {
    entries.iter().map(|e| e.word.clone()).collect()
}

fn failure(r: Result<Idx, Error>) -> Error {
    match r {
        Ok(_) => panic!("the index was accepted"),
        Err(e) => e,
    }
}

#[test]
fn records_are_read_in_order() {
    let mut data = record("apple", 0x0102_0304, 5);
    data.extend(record("Berry", 7, 0xfffe_fdfc));
    let raws = read_items(&data, false).unwrap();
    assert_eq!(raws.len(), 2);
    assert_eq!(raws[0].word, "apple");
    assert_eq!(raws[0].offset, 0x0102_0304);
    assert_eq!(raws[0].size, 5);
    assert_eq!(raws[1].word, "Berry");
    assert_eq!(raws[1].offset, 7);
    assert_eq!(raws[1].size, 0xfffe_fdfc);
}

#[test]
fn wide_records_are_read() {
    let mut data = wide_record("apple", 0x0102_0304_0506_0708, 5);
    data.extend(wide_record("berry", 7, 0x1_0000_0000));
    let raws = read_items(&data, true).unwrap();
    assert_eq!(raws.len(), 2);
    assert_eq!(raws[0].offset, 0x0102_0304_0506_0708);
    assert_eq!(raws[0].size, 5);
    assert_eq!(raws[1].offset, 7);
    assert_eq!(raws[1].size, 0x1_0000_0000);
}

#[test]
fn width_follows_version_and_offset_bits() {
    let data = wide_record("apple", 3, 4);
    let idx = read(&Version::V300, 64, &data, None).unwrap();
    let found = idx.lookup_blocks("apple").unwrap();
    assert_eq!(found[0].blocks[0].offset, 3);
    assert_eq!(found[0].blocks[0].size, 4);
    // version 2.4.2 reads numbers of four bytes whatever the offset bits say
    let data = record("apple", 3, 4);
    let idx = read(&Version::V242, 64, &data, None).unwrap();
    let found = idx.lookup_blocks("apple").unwrap();
    assert_eq!(found[0].blocks[0].offset, 3);
    let idx = read(&Version::V300, 32, &data, None).unwrap();
    assert_eq!(idx.lookup_blocks("apple").unwrap()[0].blocks[0].size, 4);
}

#[test]
fn empty_index_has_no_entries() {
    let idx = read(&Version::V242, 32, &[], None).unwrap();
    assert!(idx.lookup_blocks("apple").is_none());
    assert!(idx.lookup_blocks("").is_none());
}

#[test]
fn index_that_ends_at_a_nul_is_read() {
    let mut data = record("apple", 1, 2);
    data.extend_from_slice(b"berry\0");
    let raws = read_items(&data, false).unwrap();
    assert_eq!(raws.len(), 1);
    assert_eq!(raws[0].word, "apple");
}

#[test]
fn index_cut_inside_a_number_is_refused() {
    let data = record("apple", 1, 2);
    for cut in 1..4 {
        let r = read_items(&data[..6 + cut], false);
        assert!(matches!(r, Err(Error::InvalidIdxElement("offset"))));
    }
    for cut in 4..8 {
        let r = read_items(&data[..6 + cut], false);
        assert!(matches!(r, Err(Error::InvalidIdxElement("size"))));
    }
    assert!(matches!(read_items(b"apple", false), Err(Error::InvalidIdxElement("offset"))));
    let e = failure(read(&Version::V242, 32, &data[..9], None));
    assert!(matches!(e, Error::InvalidIdxElement("offset")));
}

#[test]
fn headword_bytes_that_are_not_utf8_are_dropped() {
    let mut data = vec![0xff, b'A', 0];
    data.extend_from_slice(&[0, 0, 0, 1, 0, 0, 0, 2]);
    let raws = read_items(&data, false).unwrap();
    assert_eq!(raws[0].word, "A");
}

#[test]
fn records_of_one_headword_are_joined() {
    let mut data = record("Apple", 0, 5);
    data.extend(record("berry", 5, 6));
    data.extend(record("apple", 11, 7));
    data.extend(record("", 40, 2));
    data.extend(record("APPLE", 18, 8));
    let raws = read_items(&data, false).unwrap();
    assert_eq!(raws.len(), 5);
    let (items, _) = coalesce(&raws);
    assert_eq!(items.len(), 2);
    assert_eq!(items[0].key, "apple");
    assert_eq!(items[0].entry.word, "Apple");
    let blocks: Vec<(u64, u64)> = items[0].entry.blocks.iter().map(|b| (b.offset, b.size)).collect();
    assert_eq!(blocks, vec![(0, 5), (11, 7), (18, 8)]);
    assert_eq!(items[1].key, "berry");
    assert_eq!(items[1].entry.blocks.len(), 1);
}

#[test]
fn every_entry_has_a_block() {
    let mut data = record("a", 0, 1);
    data.extend(record("", 1, 1));
    data.extend(record("b", 2, 1));
    data.extend(record("A", 3, 1));
    let (items, _) = coalesce(&read_items(&data, false).unwrap());
    assert!(items.iter().all(|item| !item.entry.blocks.is_empty()));
    assert!(items.iter().all(|item| item.key == item.entry.word.to_lowercase()));
}

#[test]
fn push_block_adds_at_the_end() {
    let mut entry = IdxEntry { word: "w".to_string(), blocks: vec![] };
    entry.push_block(1, 2);
    entry.push_block(3, 4);
    assert_eq!(entry.word, "w");
    assert_eq!(entry.blocks.len(), 2);
    assert_eq!((entry.blocks[1].offset, entry.blocks[1].size), (3, 4));
}

#[test]
fn lookup_ignores_case() {
    let mut data = record("Hello", 0, 5);
    data.extend(record("\u{c9}t\u{e9}", 5, 3));
    let idx = read(&Version::V242, 32, &data, None).unwrap();
    assert_eq!(words(&idx.lookup_blocks("hello").unwrap()), vec!["Hello"]);
    assert_eq!(words(&idx.lookup_blocks("HELLO").unwrap()), vec!["Hello"]);
    assert_eq!(words(&idx.lookup_blocks("\u{e9}T\u{c9}").unwrap()), vec!["\u{c9}t\u{e9}"]);
    assert!(idx.lookup_blocks("hell").is_none());
}

#[test]
fn synonym_leads_to_its_headword_and_back() {
    let mut data = record("colour", 0, 5);
    data.extend(record("color", 5, 5));
    let syn = synonym("colour", 1);
    let idx = read(&Version::V242, 32, &data, Some(&syn)).unwrap();
    assert_eq!(words(&idx.lookup_blocks("colour").unwrap()), vec!["colour", "color"]);
    assert_eq!(words(&idx.lookup_blocks("color").unwrap()), vec!["color", "colour"]);
    assert_eq!(words(&idx.lookup_blocks("COLOUR").unwrap()), vec!["colour", "color"]);
}

#[test]
fn synonym_that_is_no_headword_leads_one_way() {
    let mut data = record("colour", 0, 5);
    data.extend(record("color", 5, 5));
    let syn = synonym("Hue", 0);
    let idx = read(&Version::V242, 32, &data, Some(&syn)).unwrap();
    assert_eq!(words(&idx.lookup_blocks("hue").unwrap()), vec!["colour"]);
    assert_eq!(words(&idx.lookup_blocks("colour").unwrap()), vec!["colour"]);
}

#[test]
fn synonyms_keep_the_order_of_the_file() {
    let mut data = record("a", 0, 1);
    data.extend(record("b", 1, 1));
    data.extend(record("c", 2, 1));
    let mut syn = synonym("x", 2);
    syn.extend(synonym("x", 0));
    syn.extend(synonym("X", 2));
    syn.extend(synonym("x", 1));
    let raws = read_items(&data, false).unwrap();
    let (items, keys) = coalesce(&raws);
    let (table, _) = load_syn(&raws, &syn, &items, &keys).unwrap();
    assert_eq!(table.len(), 1);
    assert_eq!(table[0].key, "x");
    assert_eq!(table[0].aliases, vec!["c", "a", "b"]);
    let idx = read(&Version::V242, 32, &data, Some(&syn)).unwrap();
    assert_eq!(words(&idx.lookup_blocks("x").unwrap()), vec!["c", "a", "b"]);
}

#[test]
fn lookup_yields_no_headword_twice() {
    let mut data = record("colour", 0, 5);
    data.extend(record("color", 5, 5));
    let mut syn = synonym("colour", 1);
    syn.extend(synonym("colour", 0));
    syn.extend(synonym("color", 0));
    syn.extend(synonym("color", 1));
    let idx = read(&Version::V242, 32, &data, Some(&syn)).unwrap();
    assert_eq!(words(&idx.lookup_blocks("colour").unwrap()), vec!["colour", "color"]);
    assert_eq!(words(&idx.lookup_blocks("color").unwrap()), vec!["color", "colour"]);
}

#[test]
fn synonym_numbers_count_records_without_headword() {
    let mut data = record("a", 0, 1);
    data.extend(record("", 1, 1));
    data.extend(record("b", 2, 1));
    let mut syn = synonym("x", 2);
    syn.extend(synonym("y", 1));
    syn.extend(synonym("z", 3));
    syn.extend(synonym("", 0));
    let idx = read(&Version::V242, 32, &data, Some(&syn)).unwrap();
    assert_eq!(words(&idx.lookup_blocks("x").unwrap()), vec!["b"]);
    assert!(idx.lookup_blocks("y").is_none());
    assert!(idx.lookup_blocks("z").is_none());
    let raws = read_items(&data, false).unwrap();
    let (items, keys) = coalesce(&raws);
    let (table, _) = load_syn(&raws, &syn, &items, &keys).unwrap();
    let keys: Vec<&str> = table.iter().map(|row| row.key.as_str()).collect();
    assert_eq!(keys, vec!["x", "y"]);
    assert_eq!(table[1].aliases, vec![""]);
}

#[test]
fn synonyms_name_keys_of_the_index() {
    let mut data = record("Colour", 0, 5);
    data.extend(record("Color", 5, 5));
    data.extend(record("Hue", 10, 3));
    let mut syn = synonym("colour", 1);
    syn.extend(synonym("TINT", 2));
    syn.extend(synonym("hue", 0));
    let raws = read_items(&data, false).unwrap();
    let (items, keys) = coalesce(&raws);
    let (table, _) = load_syn(&raws, &syn, &items, &keys).unwrap();
    for row in &table {
        for name in &row.aliases {
            assert!(items.iter().any(|item| &item.key == name));
        }
    }
}

#[test]
fn synonym_file_cut_inside_a_number_is_refused() {
    let data = record("color", 5, 5);
    let mut syn = synonym("colour", 0);
    syn.extend_from_slice(b"Hue\0\0\0");
    match failure(read(&Version::V242, 32, &data, Some(&syn))) {
        Error::InvalidSynIndex(word) => assert_eq!(word, "Hue"),
        e => panic!("{:?}", e),
    }
    match failure(read(&Version::V242, 32, &data, Some(b"colour\0"))) {
        Error::InvalidSynIndex(word) => assert_eq!(word, "colour"),
        e => panic!("{:?}", e),
    }
}

#[test]
fn gzipped_index_is_read() {
    let mut data = record("colour", 0, 5);
    data.extend(record("color", 5, 5));
    let mut encoder = flate2::write::GzEncoder::new(Vec::new(), flate2::Compression::default());
    encoder.write_all(&data).unwrap();
    let packed = encoder.finish().unwrap();
    assert_ne!(packed, data);
    let ifo = Ifo::new("version=2.4.2\n").unwrap();
    let idx = Idx::new(&packed, &ifo, true, None).unwrap();
    assert_eq!(words(&idx.lookup_blocks("Color").unwrap()), vec!["color"]);
    let plain = Idx::new(&data, &ifo, false, None).unwrap();
    assert_eq!(words(&plain.lookup_blocks("Colour").unwrap()), vec!["colour"]);
}

#[test]
fn large_index_is_read_and_searched() {
    let mut data = vec![];
    let mut syn = vec![];
    for i in 0..20000u32 {
        data.extend(record(&format!("Word{}", i), i, 1));
        data.extend(record(&format!("word{}", i), i, 2));
        syn.extend(synonym(&format!("alias{}", i % 5000), 2 * i));
    }
    let idx = read(&Version::V242, 32, &data, Some(&syn)).unwrap();
    let found = idx.lookup_blocks("WORD19999").unwrap();
    assert_eq!(words(&found), vec!["Word19999"]);
    let sizes: Vec<u64> = found[0].blocks.iter().map(|b| b.size).collect();
    assert_eq!(sizes, vec![1, 2]);
    assert_eq!(
        words(&idx.lookup_blocks("Alias7").unwrap()),
        vec!["Word7", "Word5007", "Word10007", "Word15007"]
    );
    assert!(idx.lookup_blocks("word20000").is_none());
}

#[test]
fn keys_are_found_through_their_table() {
    let mut data = record("b", 0, 1);
    data.extend(record("a", 1, 1));
    data.extend(record("B", 2, 1));
    let raws = read_items(&data, false).unwrap();
    let (items, table) = coalesce(&raws);
    assert_eq!(find_item(&items, &table, &"a".to_string()), Some(1));
    assert_eq!(find_item(&items, &table, &"b".to_string()), Some(0));
    assert_eq!(find_item(&items, &table, &"c".to_string()), None);
    assert_eq!(find_item(&items, &table, &"B".to_string()), None);
    let (rows, keys) = load_syn(&raws, &synonym("x", 1), &items, &table).unwrap();
    assert_eq!(find_syn(&rows, &keys, &"x".to_string()), Some(0));
    assert_eq!(find_syn(&rows, &keys, &"a".to_string()), None);
}
