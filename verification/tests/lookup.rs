use stardict::cache::{encode_definition, get_definition, merge_definitions, record_key};
use stardict::cache::{alias_row, definition_from_rows, lookup_key, read_alias_row};
use stardict::dict::{parse_data, Dict};
use stardict::error::Error;
use stardict::idx::{IdxEntry, IdxEntryBlock};
use stardict::ifo::Ifo;
use stardict::stardict::StarDictStd;
use stardict::text::buf_to_string;
use stardict::WordDefinition;

const WORD: &str = "汉";
const WORD_DEFINITION: &str = "漢";

fn record(word: &str, offset: u32, size: u32) -> Vec<u8> {
    let mut out = word.as_bytes().to_vec();
    out.push(0);
    out.extend_from_slice(&offset.to_be_bytes());
    out.extend_from_slice(&size.to_be_bytes());
    out
}

fn synonym(alias: &str, index: u32) -> Vec<u8> {
    let mut out = alias.as_bytes().to_vec();
    out.push(0);
    out.extend_from_slice(&index.to_be_bytes());
    out
}

fn ifo_with_types(types: &str) -> Ifo {
    Ifo::new(&format!("version=2.4.2\nsametypesequence={}\n", types)).unwrap()
}

/// A dictionary in which the simplified form of a character leads to the
/// entry of its traditional form.
fn chinese_dictionary() -> StarDictStd {
    let text = "漢: the Han river; Chinese";
    let mut idx = record("中", 0, 0);
    idx.extend(record(WORD_DEFINITION, 0, text.len() as u32));
    let syn = synonym(WORD, 1);
    let ifo = ifo_with_types("g");
    StarDictStd::new(ifo, &idx, false, Some(&syn), text.as_bytes().to_vec(), false).unwrap()
}

fn pairs(definition: &WordDefinition) -> Vec<(String, String)> {
    definition.segments.iter().map(|s| (s.types.clone(), s.text.clone())).collect()
}

/// What a store with one record for each key answers for `word`.
fn lookup_through_records(dict: &mut StarDictStd, keys: &[&str], word: &str) -> Option<Vec<WordDefinition>> {
    let mut store: Vec<(Vec<u8>, Vec<u8>)> = vec![];
    for key in keys {
        if let Some(found) = dict.lookup(key).unwrap() {
            store.push((record_key(key), encode_definition(&found[0])));
        }
    }
    let fetch = |key: &str| {
        let k = record_key(key);
        store.iter().find(|(stored, _)| *stored == k).and_then(|(_, r)| get_definition(r))
    };
    let direct = fetch(word);
    let aliases = if word == WORD { vec![fetch(WORD_DEFINITION)] } else { vec![] };
    merge_definitions(direct, aliases)
}

/// What a relational store answers for `word`.
fn lookup_through_rows(dict: &mut StarDictStd, keys: &[&str], word: &str) -> Option<Vec<WordDefinition>> {
    let mut words: Vec<(String, String, Vec<(String, String)>)> = vec![];
    for key in keys {
        if let Some(found) = dict.lookup(key).unwrap() {
            words.push((lookup_key(key), found[0].word.clone(), pairs(&found[0])));
        }
    }
    let (alias_key, names) = alias_row(WORD, &vec![WORD_DEFINITION.to_string()]);
    let fetch = |key: &str| {
        words
            .iter()
            .find(|(k, _, _)| k == key)
            .map(|(_, w, rows)| definition_from_rows(w.clone(), rows.clone()))
    };
    let direct = fetch(&lookup_key(word));
    let row = if lookup_key(word) == alias_key { Some(names.as_str()) } else { None };
    let aliases = read_alias_row(row, "cache").unwrap().iter().map(|a| fetch(a)).collect();
    merge_definitions(direct, aliases)
}

#[test]
fn lookup() {
    let mut dict = chinese_dictionary();
    let definitions = dict.lookup(WORD).unwrap().unwrap();
    assert_eq!(definitions.len(), 1);
    assert_eq!(definitions[0].word, WORD_DEFINITION);
    assert_eq!(definitions[0].segments.len(), 1);
    assert_eq!(definitions[0].segments[0].types, "g");
}

#[test]
fn lookup_sled() {
    let mut dict = chinese_dictionary();
    let definitions = lookup_through_records(&mut dict, &[WORD_DEFINITION], WORD).unwrap();
    assert_eq!(definitions.len(), 1);
    assert_eq!(definitions[0].word, WORD_DEFINITION);
    assert_eq!(definitions[0].segments.len(), 1);
    assert_eq!(definitions[0].segments[0].types, "g");

    let mut dict = chinese_dictionary();
    let std_definitions = dict.lookup(WORD).unwrap().unwrap();
    for i in 0..definitions.len() {
        let cached = &definitions[i];
        let std = &std_definitions[i];
        assert_eq!(cached.word, std.word);
        for j in 0..cached.segments.len() {
            let c = &cached.segments[j];
            let s = &std.segments[j];
            assert_eq!(c.types, s.types);
            assert_eq!(c.text, s.text);
        }
    }
}

#[test]
fn lookup_sqlite() {
    let mut dict = chinese_dictionary();
    let definitions = lookup_through_rows(&mut dict, &[WORD_DEFINITION], WORD).unwrap();
    assert_eq!(definitions.len(), 1);
    assert_eq!(definitions[0].word, WORD_DEFINITION);
    assert_eq!(definitions[0].segments.len(), 1);
    assert_eq!(definitions[0].segments[0].types, "g");

    let mut dict = chinese_dictionary();
    let std_definitions = dict.lookup(WORD).unwrap().unwrap();
    for i in 0..definitions.len() {
        let cached = &definitions[i];
        let std = &std_definitions[i];
        assert_eq!(cached.word, std.word);
        for j in 0..cached.segments.len() {
            let c = &cached.segments[j];
            let s = &std.segments[j];
            assert_eq!(c.types, s.types);
            assert_eq!(c.text, s.text);
        }
    }
}

#[test]
fn plain_lookup() {
    let idx = record("hello", 0, 5);
    let mut dict =
        StarDictStd::new(ifo_with_types("m"), &idx, false, None, b"world".to_vec(), false).unwrap();
    let found = dict.lookup("hello").unwrap().unwrap();
    assert_eq!(found.len(), 1);
    assert_eq!(found[0].word, "hello");
    assert_eq!(pairs(&found[0]), vec![("m".to_string(), "world".to_string())]);
    let again = dict.lookup("HELLO").unwrap().unwrap();
    assert_eq!(again.len(), 1);
    assert_eq!(again[0].word, "hello");
    assert_eq!(pairs(&again[0]), vec![("m".to_string(), "world".to_string())]);
    assert!(dict.lookup("world").unwrap().is_none());
}

#[test]
fn synonym_lookup() {
    let mut idx = record("colour", 0, 3);
    idx.extend(record("color", 3, 4));
    let syn = synonym("colour", 1);
    let mut dict = StarDictStd::new(
        ifo_with_types("m"),
        &idx,
        false,
        Some(&syn),
        b"BrEAmEr".to_vec(),
        false,
    )
    .unwrap();
    let found = dict.lookup("colour").unwrap().unwrap();
    let words: Vec<&str> = found.iter().map(|d| d.word.as_str()).collect();
    assert_eq!(words, vec!["colour", "color"]);
    assert_eq!(found[0].segments[0].text, "BrE");
    assert_eq!(found[1].segments[0].text, "AmEr");
    let found = dict.lookup("color").unwrap().unwrap();
    let words: Vec<&str> = found.iter().map(|d| d.word.as_str()).collect();
    assert_eq!(words, vec!["color", "colour"]);
}

#[test]
fn block_that_ends_with_the_store_is_read() {
    let mut dict = Dict::new(b"world".to_vec(), false).unwrap();
    assert_eq!(dict.get_block(&IdxEntryBlock { offset: 0, size: 5 }), Some(b"world".to_vec()));
    assert_eq!(dict.get_block(&IdxEntryBlock { offset: 3, size: 2 }), Some(b"ld".to_vec()));
    assert_eq!(dict.get_block(&IdxEntryBlock { offset: 5, size: 0 }), Some(vec![]));
    assert_eq!(dict.get_block(&IdxEntryBlock { offset: 0, size: 6 }), None);
    assert_eq!(dict.get_block(&IdxEntryBlock { offset: 3, size: 3 }), None);
    assert_eq!(dict.get_block(&IdxEntryBlock { offset: 6, size: 0 }), None);
    assert_eq!(dict.get_block(&IdxEntryBlock { offset: u64::MAX, size: 2 }), None);
}

#[test]
fn block_past_the_end_is_passed_over() {
    let ifo = ifo_with_types("m");
    let mut dict = Dict::new(b"world".to_vec(), false).unwrap();
    let entry = IdxEntry {
        word: "w".to_string(),
        blocks: vec![
            IdxEntryBlock { offset: 4, size: 2 },
            IdxEntryBlock { offset: 1, size: 3 },
            IdxEntryBlock { offset: 9, size: 1 },
        ],
    };
    let definition = dict.get_definition(&entry, &ifo).unwrap();
    assert_eq!(pairs(&definition), vec![("m".to_string(), "orl".to_string())]);
    let lost = IdxEntry { word: "w".to_string(), blocks: vec![IdxEntryBlock { offset: 4, size: 2 }] };
    assert!(dict.get_definition(&lost, &ifo).is_none());
    let empty = IdxEntry { word: "w".to_string(), blocks: vec![] };
    assert!(dict.get_definition(&empty, &ifo).is_none());
}

#[test]
fn lookup_without_any_definition_is_none() {
    let mut idx = record("hello", 3, 5);
    idx.extend(record("there", 0, 2));
    let mut dict =
        StarDictStd::new(ifo_with_types("m"), &idx, false, None, b"world".to_vec(), false).unwrap();
    assert!(dict.lookup("hello").unwrap().is_none());
    assert_eq!(dict.lookup("there").unwrap().unwrap()[0].segments[0].text, "wo");
}

#[test]
fn type_is_read_from_the_block_without_a_type_sequence() {
    assert_eq!(parse_data(b"mworld", ""), Some(("m".to_string(), "world".to_string())));
    assert_eq!(parse_data(b"hx", ""), Some(("h".to_string(), "x".to_string())));
    assert_eq!(parse_data(b"m", ""), None);
    assert_eq!(parse_data(b"", ""), None);
    assert_eq!(parse_data(b"mworld", "g"), Some(("g".to_string(), "mworld".to_string())));
    assert_eq!(parse_data(b"", "tm"), Some(("tm".to_string(), "".to_string())));
    assert_eq!(parse_data(&[0xe9, b'a'], ""), Some(("\u{e9}".to_string(), "a".to_string())));
}

#[test]
fn one_byte_block_without_a_type_sequence_has_no_segment() {
    let ifo = ifo_with_types("");
    let mut dict = Dict::new(b"mworld".to_vec(), false).unwrap();
    let entry = IdxEntry {
        word: "w".to_string(),
        blocks: vec![IdxEntryBlock { offset: 0, size: 1 }, IdxEntryBlock { offset: 0, size: 3 }],
    };
    let definition = dict.get_definition(&entry, &ifo).unwrap();
    assert_eq!(pairs(&definition), vec![("m".to_string(), "wo".to_string())]);
    let single = IdxEntry { word: "w".to_string(), blocks: vec![IdxEntryBlock { offset: 0, size: 1 }] };
    assert!(dict.get_definition(&single, &ifo).is_none());
}

#[test]
fn corrupted_text_loses_only_the_corruption() {
    assert_eq!(buf_to_string(&[0xff, 0x41]), "A");
    assert_eq!(buf_to_string(b""), "");
    assert_eq!(buf_to_string("漢 a".as_bytes()), "漢 a");
    assert_eq!(buf_to_string(&[0xe6, 0xbc, b'x', 0xe6, 0xbc, 0xa2, 0xc0]), "x漢");
    // a replacement character that the text itself holds goes as well
    assert_eq!(buf_to_string("a\u{fffd}b".as_bytes()), "ab");
    assert_eq!(parse_data(&[0xff, 0x41], "m"), Some(("m".to_string(), "A".to_string())));
}

#[test]
fn dictzipped_store_with_a_broken_header_is_refused() {
    let idx = record("hello", 0, 5);
    let r = StarDictStd::new(ifo_with_types("m"), &idx, false, None, b"world".to_vec(), true);
    assert!(matches!(r, Err(Error::InvalidDict)));
    let r = StarDictStd::new(ifo_with_types("m"), &idx[..8], false, None, b"world".to_vec(), true);
    assert!(matches!(r, Err(Error::InvalidIdxElement("offset"))));
}
