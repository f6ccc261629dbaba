//! What a lookup cache stores and how a lookup is answered from it: the
//! records of a store with one record for each key, the rows of a
//! relational store, and the joining of the definitions that were found.
use vstd::prelude::*;
use vstd::utf8::{encode_utf8, encode_utf8_decode_utf8, encode_utf8_valid_utf8};
use crate::bytes::{append_bytes, find_nul, nul_end, run_length};
use crate::error::{Error, Result};
use crate::dict::{definition_of, DictView};
use crate::idx::{
    add_aliases, add_aliases_distinct, distinct_words, has_key, has_word, idx_wf, items_wf,
    key_index, lookup_entries, lookup_indices, strings_view, syn_has_key, syn_key_index, EntryView,
    IdxView, ItemView,
};
use crate::stardict::{
    definitions_keep_headwords, definitions_of, definitions_view, lookup_result, DefinitionView,
};
use crate::text::{decoded, lossy_string, lower, lowercase};
use crate::{segments_view, WordDefinition, WordDefinitionSegment};

verus! {

/// The JSON text that serde_json writes for a list of strings.
pub uninterp spec fn json_of_strings(strings: Seq<Seq<char>>) -> Seq<char>;

/// The list of strings that serde_json reads out of a JSON text, or `None`
/// where the text is no such list.
pub uninterp spec fn strings_of_json(json: Seq<char>) -> Option<Seq<Seq<char>>>;

/// Calls `serde_json::to_string` on a list of strings. Trusted: the text
/// depends on the strings alone.
#[verifier::external_body]
fn to_json(strings: &Vec<String>) -> (json: String)
    ensures
        json@ == json_of_strings(strings_view(strings@)),
{
    serde_json::to_string(strings).unwrap_or_default()
}

/// Calls `serde_json::from_str` for a list of strings. Trusted: the outcome
/// depends on the text alone; a refusal is handed on as `None`.
#[verifier::external_body]
fn from_json(json: &str) -> (r: Option<Vec<String>>)
    ensures
        match r {
            Some(strings) => strings_of_json(json@) == Some(strings_view(strings@)),
            None => strings_of_json(json@) is None,
        },
{
    serde_json::from_str(json).ok()
}

/// The bytes of a string in a record: its UTF-8 form and a NUL.
pub open spec fn terminated(s: Seq<char>) -> Seq<u8> {
    encode_utf8(s).push(0)
}

/// The bytes of the segments in a record: types and text of each, in
/// order.
pub open spec fn segments_record(segments: Seq<(Seq<char>, Seq<char>)>) -> Seq<u8>
    decreases segments.len(),
{
    if segments.len() == 0 {
        Seq::empty()
    } else {
        segments_record(segments.drop_last()) + terminated(segments.last().0) + terminated(
            segments.last().1,
        )
    }
}

/// The record of a definition: the headword, then the segments.
pub open spec fn definition_record(definition: DefinitionView) -> Seq<u8> {
    terminated(definition.0) + segments_record(definition.1)
}

/// The bytes of a list of strings in a record: each with its NUL.
pub open spec fn strings_record(strings: Seq<Seq<char>>) -> Seq<u8>
    decreases strings.len(),
{
    if strings.len() == 0 {
        Seq::empty()
    } else {
        strings_record(strings.drop_last()) + terminated(strings.last())
    }
}

/// The record of a synonym row: each name of the row.
pub open spec fn aliases_record(aliases: Seq<Seq<char>>) -> Seq<u8> {
    strings_record(aliases)
}

/// The strings of a record from `pos` on: each runs up to its NUL, the
/// last one up to the end of the record where the NUL is missing.
pub open spec fn split_strings(buf: Seq<u8>, pos: int) -> Seq<Seq<char>>
    decreases
        (if pos < buf.len() {
            buf.len() - pos
        } else {
            0
        }),
{
    if pos < 0 || pos >= buf.len() {
        Seq::empty()
    } else {
        seq![decoded(buf.subrange(pos, nul_end(buf, pos)))] + split_strings(
            buf,
            nul_end(buf, pos) + 1,
        )
    }
}

/// The definition that the strings of a record make: the headword, then
/// types and text of each segment. `None` where the headword is missing or
/// the types of a segment come without its text.
pub open spec fn definition_from(strings: Seq<Seq<char>>) -> Option<DefinitionView> {
    if strings.len() % 2 == 0 {
        None
    } else {
        Some(
            (
                strings[0],
                Seq::new(
                    ((strings.len() - 1) / 2) as nat,
                    |i: int| (strings[1 + 2 * i], strings[2 + 2 * i]),
                ),
            ),
        )
    }
}

/// Whether one of the definitions is that of the headword `word`.
pub open spec fn has_headword(found: Seq<DefinitionView>, word: Seq<char>) -> bool {
    exists|i: int| 0 <= i < found.len() && (#[trigger] found[i]).0 == word
}

/// The definitions that a lookup through a cache yields: the definition
/// under the key itself, then those under its synonyms in order, each left
/// out where its headword is there already.
pub open spec fn merged(direct: Option<DefinitionView>, aliases: Seq<Option<DefinitionView>>) -> Seq<
    DefinitionView,
>
    decreases aliases.len(),
{
    if aliases.len() == 0 {
        match direct {
            Some(d) => seq![d],
            None => Seq::empty(),
        }
    } else {
        let prev = merged(direct, aliases.drop_last());
        match aliases.last() {
            Some(d) => if has_headword(prev, d.0) {
                prev
            } else {
                prev.push(d)
            },
            None => prev,
        }
    }
}

/// The definition as a value, where there is one.
pub open spec fn option_view(definition: Option<WordDefinition>) -> Option<DefinitionView> {
    match definition {
        Some(d) => Some(d@),
        None => None,
    }
}

/// The definitions as values, in order.
pub open spec fn options_view(definitions: Seq<Option<WordDefinition>>) -> Seq<
    Option<DefinitionView>,
> {
    Seq::new(definitions.len(), |i: int| option_view(definitions[i]))
}

/// The rows as values, in order.
pub open spec fn rows_view(rows: Seq<(String, String)>) -> Seq<(Seq<char>, Seq<char>)> {
    Seq::new(rows.len(), |i: int| (rows[i].0@, rows[i].1@))
}

/// Appends a string and its NUL to a record.
fn push_terminated(buf: &mut Vec<u8>, s: &str)
    ensures
        final(buf)@ == old(buf)@ + terminated(s@),
{
    append_bytes(buf, s.as_bytes());
    buf.push(0);
    proof {
        assert(buf@ =~= old(buf)@ + terminated(s@));
    }
}

/// The key under which a word is looked up: its lower-case form.
pub fn lookup_key(word: &str) -> (key: String)
    ensures
        key@ == lowercase(word@),
{
    lower(word)
}

/// The key under which a word is looked up in a store of records: the
/// bytes of its lower-case form.
pub fn record_key(word: &str) -> (key: Vec<u8>)
    ensures
        key@ == encode_utf8(lowercase(word@)),
{
    let low = lookup_key(word);
    let mut key: Vec<u8> = Vec::new();
    append_bytes(&mut key, low.as_str().as_bytes());
    proof {
        assert(Seq::<u8>::empty() + encode_utf8(low@) =~= encode_utf8(low@));
    }
    key
}

/// Writes a definition as a record.
pub fn encode_definition(definition: &WordDefinition) -> (record: Vec<u8>)
    ensures
        record@ == definition_record(definition@),
{
    let mut record: Vec<u8> = Vec::new();
    push_terminated(&mut record, definition.word.as_str());
    let ghost segments = segments_view(definition.segments@);
    let mut i: usize = 0;
    proof {
        assert(Seq::<u8>::empty() + terminated(definition.word@) =~= terminated(definition.word@));
        assert(segments.take(0) =~= Seq::empty());
        assert(terminated(definition.word@) + Seq::<u8>::empty() =~= terminated(definition.word@));
    }
    while i < definition.segments.len()
        invariant
            i <= definition.segments@.len(),
            segments == segments_view(definition.segments@),
            record@ == terminated(definition.word@) + segments_record(segments.take(i as int)),
        decreases definition.segments@.len() - i,
    {
        let segment = &definition.segments[i];
        let ghost before = segments_record(segments.take(i as int));
        proof {
            assert(segments.take(i + 1).drop_last() =~= segments.take(i as int));
            assert(segments.take(i + 1).last() == segment@);
        }
        push_terminated(&mut record, segment.types.as_str());
        push_terminated(&mut record, segment.text.as_str());
        proof {
            assert(record@ =~= terminated(definition.word@) + (before + terminated(segment.types@)
                + terminated(segment.text@)));
        }
        i = i + 1;
    }
    proof {
        assert(segments.take(i as int) =~= segments);
    }
    record
}

/// Writes a synonym row as a record.
pub fn encode_aliases(aliases: &Vec<String>) -> (record: Vec<u8>)
    ensures
        record@ == aliases_record(strings_view(aliases@)),
{
    let mut record: Vec<u8> = Vec::new();
    let ghost names = strings_view(aliases@);
    let mut i: usize = 0;
    proof {
        assert(names.take(0) =~= Seq::empty());
    }
    while i < aliases.len()
        invariant
            i <= aliases@.len(),
            names == strings_view(aliases@),
            record@ == aliases_record(names.take(i as int)),
        decreases aliases@.len() - i,
    {
        proof {
            assert(names.take(i + 1).drop_last() =~= names.take(i as int));
            assert(names.take(i + 1).last() == aliases@[i as int]@);
        }
        push_terminated(&mut record, aliases[i].as_str());
        i = i + 1;
    }
    proof {
        assert(names.take(i as int) =~= names);
    }
    record
}

/// Reads the strings of a record.
pub fn get_strings(record: &[u8]) -> (strings: Vec<String>)
    ensures
        strings_view(strings@) == split_strings(record@, 0),
{
    let len: usize = record.len();
    let mut strings: Vec<String> = Vec::new();
    let mut start: usize = 0;
    proof {
        assert(strings_view(strings@) + split_strings(record@, 0) =~= split_strings(record@, 0));
    }
    while start < len
        invariant
            start <= len == record@.len(),
            strings_view(strings@) + split_strings(record@, start as int) == split_strings(
                record@,
                0,
            ),
        decreases len - start,
    {
        let end = find_nul(record, start);
        let s = lossy_string(&record[start..end]);
        let ghost before = strings_view(strings@);
        strings.push(s);
        proof {
            let rest = split_strings(record@, end + 1);
            assert(strings_view(strings@) =~= before.push(s@));
            assert(before + (seq![s@] + rest) =~= before.push(s@) + rest);
            assert(split_strings(record@, len + 1) == split_strings(record@, len as int));
        }
        start = if end < len {
            end + 1
        } else {
            end
        };
    }
    proof {
        assert(strings_view(strings@) + Seq::<Seq<char>>::empty() =~= strings_view(strings@));
    }
    strings
}

/// Reads a definition out of its record.
pub fn get_definition(record: &[u8]) -> (r: Option<WordDefinition>)
    ensures
        option_view(r) == definition_from(split_strings(record@, 0)),
{
    let strings = get_strings(record);
    let count: usize = strings.len();
    if count % 2 == 0 {
        return None;
    }
    let ghost texts = strings_view(strings@);
    let mut segments: Vec<WordDefinitionSegment> = Vec::new();
    let mut i: usize = 1;
    while i < count
        invariant
            count == strings@.len(),
            count % 2 == 1,
            i % 2 == 1,
            i <= count,
            texts == strings_view(strings@),
            segments@.len() == (i - 1) / 2,
            forall|k: int|
                0 <= k < segments@.len() ==> (#[trigger] segments@[k])@ == (
                    texts[1 + 2 * k],
                    texts[2 + 2 * k],
                ),
        decreases count - i,
    {
        segments.push(
            WordDefinitionSegment { types: strings[i].clone(), text: strings[i + 1].clone() },
        );
        i = i + 2;
    }
    let definition = WordDefinition { word: strings[0].clone(), segments };
    proof {
        assert(definition@.1 =~= definition_from(texts).unwrap().1);
    }
    Some(definition)
}

/// Whether one of the definitions is that of the headword `word`.
fn headword_found(found: &Vec<WordDefinition>, word: &String) -> (b: bool)
    ensures
        b == has_headword(definitions_view(found@), word@),
{
    let mut i: usize = 0;
    while i < found.len()
        invariant
            i <= found@.len(),
            forall|k: int| 0 <= k < i ==> (#[trigger] definitions_view(found@)[k]).0 != word@,
        decreases found@.len() - i,
    {
        if found[i].word == *word {
            assert(definitions_view(found@)[i as int].0 == word@);
            return true;
        }
        i = i + 1;
    }
    false
}

/// Joins what a cache holds for a word: the definition under the word's
/// key and the definitions under its synonyms, in order, no headword twice.
/// `None` where there is no definition at all.
pub fn merge_definitions(direct: Option<WordDefinition>, aliases: Vec<Option<WordDefinition>>) -> (r:
    Option<Vec<WordDefinition>>)
    ensures
        match r {
            Some(found) => found@.len() > 0 && definitions_view(found@) == merged(
                option_view(direct),
                options_view(aliases@),
            ),
            None => merged(option_view(direct), options_view(aliases@)).len() == 0,
        },
{
    let ghost first = option_view(direct);
    let ghost all = options_view(aliases@);
    let mut rest = aliases;
    let mut found: Vec<WordDefinition> = Vec::new();
    if let Some(d) = direct {
        found.push(d);
    }
    let ghost mut n: int = 0;
    proof {
        assert(all.take(0) =~= Seq::empty());
        assert(definitions_view(found@) =~= merged(first, all.take(0)));
        assert(options_view(rest@) =~= all.skip(0));
    }
    while rest.len() > 0
        invariant
            0 <= n <= all.len(),
            options_view(rest@) == all.skip(n),
            definitions_view(found@) == merged(first, all.take(n)),
        decreases rest@.len(),
    {
        let ghost before = definitions_view(found@);
        let ghost waiting = rest@;
        proof {
            assert(all.skip(n).len() == waiting.len());
        }
        let next = rest.remove(0);
        proof {
            assert(options_view(waiting)[0] == all.skip(n)[0]);
            assert(all.take(n + 1).drop_last() =~= all.take(n));
            assert(all.take(n + 1).last() == option_view(next));
            assert(options_view(rest@) =~= all.skip(n + 1)) by {
                assert forall|k: int| 0 <= k < rest@.len() implies options_view(rest@)[k]
                    == all.skip(n + 1)[k] by {
                    assert(rest@[k] == waiting[k + 1]);
                    assert(options_view(waiting)[k + 1] == all.skip(n)[k + 1]);
                }
            }
        }
        if let Some(d) = next {
            if !headword_found(&found, &d.word) {
                found.push(d);
                proof {
                    assert(definitions_view(found@) =~= before.push(d@));
                }
            }
        }
        proof {
            n = n + 1;
        }
    }
    proof {
        assert(all.take(n) =~= all);
    }
    if found.len() == 0 {
        None
    } else {
        Some(found)
    }
}

/// The row of the synonym table of a relational store: the key and the
/// names it leads to as a JSON list.
pub fn alias_row(key: &str, aliases: &Vec<String>) -> (row: (String, String))
    ensures
        row.0@ == key@,
        row.1@ == json_of_strings(strings_view(aliases@)),
{
    (key.to_owned(), to_json(aliases))
}

/// The names that a row of the synonym table holds; none where the key
/// has no row. A row that holds no JSON list of strings makes the cache at
/// `cache_path` invalid.
pub fn read_alias_row(row: Option<&str>, cache_path: &str) -> (r: Result<Vec<String>>)
    ensures
        match r {
            Ok(names) => match row {
                Some(json) => strings_of_json(json@) == Some(strings_view(names@)),
                None => names@.len() == 0,
            },
            Err(e) => {
                &&& row is Some
                &&& strings_of_json(row->0@) is None
                &&& e matches Error::InvalidDictCache(path) && path@ == cache_path@
            },
        },
{
    match row {
        Some(json) => match from_json(json) {
            Some(names) => Ok(names),
            None => Err(Error::InvalidDictCache(cache_path.to_owned())),
        },
        None => Ok(Vec::new()),
    }
}

/// The definition that the rows of a relational store make: the headword
/// of the word's row and the segments of its segment rows, in order.
pub fn definition_from_rows(word: String, rows: Vec<(String, String)>) -> (definition:
    WordDefinition)
    ensures
        definition@ == (word@, rows_view(rows@)),
{
    let ghost all = rows_view(rows@);
    let mut rest = rows;
    let mut segments: Vec<WordDefinitionSegment> = Vec::new();
    let ghost mut n: int = 0;
    proof {
        assert(rows_view(rest@) =~= all.skip(0));
        assert(segments_view(segments@) =~= all.take(0));
    }
    while rest.len() > 0
        invariant
            0 <= n <= all.len(),
            rows_view(rest@) == all.skip(n),
            segments_view(segments@) == all.take(n),
        decreases rest@.len(),
    {
        let ghost before = segments_view(segments@);
        let ghost waiting = rest@;
        proof {
            assert(all.skip(n).len() == waiting.len());
        }
        let (types, text) = rest.remove(0);
        proof {
            assert(rows_view(waiting)[0] == all.skip(n)[0]);
            assert(rows_view(rest@) =~= all.skip(n + 1)) by {
                assert forall|k: int| 0 <= k < rest@.len() implies rows_view(rest@)[k] == all.skip(
                    n + 1,
                )[k] by {
                    assert(rest@[k] == waiting[k + 1]);
                    assert(rows_view(waiting)[k + 1] == all.skip(n)[k + 1]);
                }
            }
        }
        segments.push(WordDefinitionSegment { types, text });
        proof {
            assert(all.skip(n)[0] == all[n]);
            assert(all[n] == (types@, text@));
            assert(segments_view(segments@) =~= before.push((types@, text@)));
            assert(all.take(n + 1) =~= all.take(n).push(all[n]));
            n = n + 1;
        }
    }
    proof {
        assert(all.take(n) =~= all);
    }
    WordDefinition { word, segments }
}

/// What a cache that was filled from a dictionary holds under `key`: the
/// definition of the entry under that key, where the entry has one.
pub open spec fn cached_definition(
    idx: IdxView,
    dict: DictView,
    types: Seq<char>,
    key: Seq<char>,
) -> Option<DefinitionView> {
    if has_key(idx.items, key) {
        definition_of(dict, idx.items[key_index(idx.items, key)].entry, types)
    } else {
        None
    }
}

/// The names that such a cache holds in the synonym row of `key`.
pub open spec fn cached_names(idx: IdxView, key: Seq<char>) -> Seq<Seq<char>> {
    match idx.syn {
        Some(syn) => if syn_has_key(syn, key) {
            syn[syn_key_index(syn, key)].aliases
        } else {
            Seq::empty()
        },
        None => Seq::empty(),
    }
}

/// What such a cache holds under each of the names.
pub open spec fn cached_definitions(
    idx: IdxView,
    dict: DictView,
    types: Seq<char>,
    names: Seq<Seq<char>>,
) -> Seq<Option<DefinitionView>> {
    Seq::new(names.len(), |i: int| cached_definition(idx, dict, types, names[i]))
}

/// What a lookup through such a cache yields for `word`.
pub open spec fn cached_lookup(idx: IdxView, dict: DictView, types: Seq<char>, word: Seq<char>)
    -> Option<Seq<DefinitionView>> {
    let key = lowercase(word);
    let found = merged(
        cached_definition(idx, dict, types, key),
        cached_definitions(idx, dict, types, cached_names(idx, key)),
    );
    if found.len() == 0 {
        None
    } else {
        Some(found)
    }
}

/// The entries at the places `found`.
pub open spec fn entries_at(items: Seq<ItemView>, found: Seq<int>) -> Seq<EntryView> {
    Seq::new(found.len(), |j: int| items[found[j]].entry)
}

/// The definition of every entry that has one is among the definitions of
/// the entries.
pub proof fn definitions_cover(dict: DictView, entries: Seq<EntryView>, types: Seq<char>, j: int)
    requires
        0 <= j < entries.len(),
        definition_of(dict, entries[j], types) is Some,
    ensures
        has_headword(definitions_of(dict, entries, types), entries[j].word),
    decreases entries.len(),
{
    let out = definitions_of(dict, entries, types);
    let front = entries.drop_last();
    let prev = definitions_of(dict, front, types);
    if j == entries.len() - 1 {
        assert(out[prev.len() as int].0 == entries[j].word);
    } else {
        assert(front[j] == entries[j]);
        definitions_cover(dict, front, types, j);
        let k = choose|k: int| 0 <= k < prev.len() && (#[trigger] prev[k]).0 == entries[j].word;
        assert(out[k] == prev[k]);
    }
}

/// Joining what the cache holds under a key's synonyms gives the
/// definitions of the entries that following the synonyms in the index
/// gives.
pub proof fn merged_follows_index(
    idx: IdxView,
    dict: DictView,
    types: Seq<char>,
    key: Seq<char>,
    names: Seq<Seq<char>>,
)
    requires
        items_wf(idx.items),
    ensures
        merged(
            cached_definition(idx, dict, types, key),
            cached_definitions(idx, dict, types, names),
        ) == definitions_of(
            dict,
            entries_at(
                idx.items,
                add_aliases(
                    idx.items,
                    if has_key(idx.items, key) {
                        seq![key_index(idx.items, key)]
                    } else {
                        Seq::empty()
                    },
                    names,
                ),
            ),
            types,
        ),
    decreases names.len(),
{
    let items = idx.items;
    let direct: Seq<int> = if has_key(items, key) {
        seq![key_index(items, key)]
    } else {
        Seq::empty()
    };
    let first = cached_definition(idx, dict, types, key);
    let held = cached_definitions(idx, dict, types, names);
    let found = add_aliases(items, direct, names);
    assert(distinct_words(items, direct));
    if names.len() == 0 {
        assert(held =~= Seq::empty());
        let entries = entries_at(items, direct);
        if has_key(items, key) {
            assert(entries.drop_last() =~= Seq::empty());
            assert(entries.last() == items[key_index(items, key)].entry);
            assert(definitions_of(dict, entries.drop_last(), types) =~= Seq::empty());
            match first {
                Some(d) => {
                    assert(seq![d] =~= Seq::<DefinitionView>::empty().push(d));
                },
                None => {},
            }
        } else {
            assert(entries =~= Seq::empty());
        }
    } else {
        let front = names.drop_last();
        let name = names.last();
        merged_follows_index(idx, dict, types, key, front);
        add_aliases_distinct(items, direct, front);
        let before = add_aliases(items, direct, front);
        let prev = merged(first, cached_definitions(idx, dict, types, front));
        let prev_entries = entries_at(items, before);
        assert(held.drop_last() =~= cached_definitions(idx, dict, types, front));
        assert(held.last() == cached_definition(idx, dict, types, name));
        assert forall|j: int, k: int| 0 <= j < k < prev_entries.len() implies (
        #[trigger] prev_entries[j]).word != (#[trigger] prev_entries[k]).word by {
            assert(items[before[j]].entry.word != items[before[k]].entry.word);
        }
        definitions_keep_headwords(dict, prev_entries, types);
        if has_key(items, name) {
            let i = key_index(items, name);
            let e = items[i].entry;
            if !has_word(items, before, e.word) {
                let entries = entries_at(items, found);
                assert(entries.drop_last() =~= prev_entries);
                assert(entries.last() == e);
                assert(!has_headword(prev, e.word)) by {
                    if has_headword(prev, e.word) {
                        let k = choose|k: int|
                            0 <= k < prev.len() && (#[trigger] prev[k]).0 == e.word;
                        let j = choose|j: int|
                            0 <= j < prev_entries.len() && (#[trigger] prev_entries[j]).word
                                == prev[k].0;
                        assert(items[before[j]].entry.word == e.word);
                        assert(has_word(items, before, e.word));
                    }
                }
            } else {
                let j = choose|j: int|
                    0 <= j < before.len() && items[#[trigger] before[j]].entry.word == e.word;
                assert(items[before[j]].key == items[i].key);
                if before[j] < i {
                    assert(items[before[j]].key != items[i].key);
                } else if i < before[j] {
                    assert(items[i].key != items[before[j]].key);
                }
                assert(prev_entries[j] == e);
                if definition_of(dict, e, types) is Some {
                    definitions_cover(dict, prev_entries, types, j);
                }
            }
        }
    }
}

/// A lookup through a cache that was filled from a dictionary yields what
/// a lookup in the dictionary's files yields.
pub proof fn cache_answers_as_the_files(
    idx: IdxView,
    dict: DictView,
    types: Seq<char>,
    word: Seq<char>,
)
    requires
        idx_wf(idx),
    ensures
        cached_lookup(idx, dict, types, word) == lookup_result(idx, dict, types, word),
{
    let key = lowercase(word);
    merged_follows_index(idx, dict, types, key, cached_names(idx, key));
    let direct: Seq<int> = if has_key(idx.items, key) {
        seq![key_index(idx.items, key)]
    } else {
        Seq::empty()
    };
    assert(add_aliases(idx.items, direct, Seq::empty()) == direct);
    assert(add_aliases(idx.items, direct, cached_names(idx, key)) == lookup_indices(idx, key));
    assert(entries_at(idx.items, lookup_indices(idx, key)) =~= lookup_entries(idx, key));
}

/// Whether the UTF-8 form of the string holds no NUL.
pub open spec fn nul_free(s: Seq<char>) -> bool {
    forall|i: int| 0 <= i < encode_utf8(s).len() ==> encode_utf8(s)[i] != 0
}

/// The strings of the segments as a record holds them: types and text of
/// each, in order.
pub open spec fn segment_strings(segments: Seq<(Seq<char>, Seq<char>)>) -> Seq<Seq<char>>
    decreases segments.len(),
{
    if segments.len() == 0 {
        Seq::empty()
    } else {
        segment_strings(segments.drop_last()).push(segments.last().0).push(segments.last().1)
    }
}

/// A run of bytes that are no NUL, with a NUL behind it, is as long as it
/// is counted.
pub proof fn run_length_stops(buf: Seq<u8>, pos: int, n: int)
    requires
        0 <= pos,
        0 <= n,
        pos + n < buf.len(),
        forall|k: int| pos <= k < pos + n ==> buf[k] != 0,
        buf[pos + n] == 0,
    ensures
        run_length(buf, pos) == n,
    decreases n,
{
    if n > 0 {
        run_length_stops(buf, pos + 1, n - 1);
    }
}

/// A run never passes the end of the bytes.
pub proof fn run_length_bound(buf: Seq<u8>, pos: int)
    requires
        0 <= pos <= buf.len(),
    ensures
        pos + run_length(buf, pos) <= buf.len(),
    decreases buf.len() - pos,
{
    if pos < buf.len() && buf[pos] != 0 {
        run_length_bound(buf, pos + 1);
    }
}

/// In bytes that end in a NUL, a run ends before the end, and what follows
/// the bytes does not change it.
pub proof fn run_length_prefix(a: Seq<u8>, t: Seq<u8>, pos: int)
    requires
        0 <= pos < a.len(),
        a.last() == 0,
    ensures
        run_length(a + t, pos) == run_length(a, pos),
        pos + run_length(a, pos) < a.len(),
    decreases a.len() - pos,
{
    assert((a + t)[pos] == a[pos]);
    if a[pos] != 0 {
        run_length_prefix(a, t, pos + 1);
    }
}

/// A run counts the same in bytes and behind what stands before them.
pub proof fn run_length_shift(pre: Seq<u8>, x: Seq<u8>, k: int)
    requires
        0 <= k,
    ensures
        run_length(pre + x, pre.len() + k) == run_length(x, k),
    decreases x.len() - k,
{
    if k < x.len() {
        assert((pre + x)[pre.len() + k] == x[k]);
        if x[k] != 0 {
            run_length_shift(pre, x, k + 1);
        }
    }
}

/// The strings of a record are the same behind what stands before it.
pub proof fn split_shift(pre: Seq<u8>, x: Seq<u8>, k: int)
    requires
        0 <= k,
    ensures
        split_strings(pre + x, pre.len() + k) == split_strings(x, k),
    decreases
        (if k < x.len() {
            x.len() - k
        } else {
            0
        }),
{
    if k < x.len() {
        run_length_shift(pre, x, k);
        run_length_bound(x, k);
        let e = nul_end(x, k);
        assert((pre + x).subrange(pre.len() + k, pre.len() + e) =~= x.subrange(k, e));
        split_shift(pre, x, e + 1);
    }
}

/// The strings of a record that ends in a NUL, followed by another record,
/// are the strings of the one and then those of the other.
pub proof fn split_append(a: Seq<u8>, t: Seq<u8>, pos: int)
    requires
        a.len() == 0 || a.last() == 0,
        0 <= pos <= a.len(),
    ensures
        split_strings(a + t, pos) == split_strings(a, pos) + split_strings(t, 0),
    decreases a.len() - pos,
{
    if pos == a.len() {
        split_shift(a, t, 0);
        assert(split_strings(a, pos) + split_strings(t, 0) =~= split_strings(t, 0));
    } else {
        run_length_prefix(a, t, pos);
        let e = nul_end(a, pos);
        assert((a + t).subrange(pos, e) =~= a.subrange(pos, e));
        split_append(a, t, e + 1);
        let s = decoded(a.subrange(pos, e));
        assert((seq![s] + split_strings(a, e + 1)) + split_strings(t, 0) =~= seq![s] + (
        split_strings(a, e + 1) + split_strings(t, 0)));
    }
}

/// The record of one string without a NUL holds that string.
pub proof fn split_one(s: Seq<char>)
    requires
        nul_free(s),
    ensures
        split_strings(terminated(s), 0) == seq![s],
{
    let b = encode_utf8(s);
    let t = terminated(s);
    run_length_stops(t, 0, b.len() as int);
    assert(t.subrange(0, b.len() as int) =~= b);
    encode_utf8_valid_utf8(s);
    encode_utf8_decode_utf8(s);
    assert(split_strings(t, (b.len() + 1) as int) =~= Seq::empty());
    assert(seq![s] + Seq::<Seq<char>>::empty() =~= seq![s]);
}

/// The record of strings without a NUL holds those strings.
pub proof fn strings_round_trip(strings: Seq<Seq<char>>)
    requires
        forall|i: int| 0 <= i < strings.len() ==> nul_free(#[trigger] strings[i]),
    ensures
        split_strings(strings_record(strings), 0) == strings,
        strings_record(strings).len() == 0 || strings_record(strings).last() == 0,
    decreases strings.len(),
{
    if strings.len() > 0 {
        let front = strings.drop_last();
        assert forall|i: int| 0 <= i < front.len() implies nul_free(#[trigger] front[i]) by {
            assert(front[i] == strings[i]);
        }
        strings_round_trip(front);
        split_append(strings_record(front), terminated(strings.last()), 0);
        assert(nul_free(strings[strings.len() - 1]));
        split_one(strings.last());
        assert(front + seq![strings.last()] =~= strings);
    } else {
        assert(strings =~= Seq::empty());
    }
}

/// The names of a synonym row come back from its record as they went in,
/// where none of them holds a NUL.
pub proof fn aliases_round_trip(aliases: Seq<Seq<char>>)
    requires
        forall|i: int| 0 <= i < aliases.len() ==> nul_free(#[trigger] aliases[i]),
    ensures
        split_strings(aliases_record(aliases), 0) == aliases,
{
    strings_round_trip(aliases);
}

/// The record of the segments is the record of their strings, and these
/// are types and text by turns.
pub proof fn segment_strings_record(segments: Seq<(Seq<char>, Seq<char>)>)
    ensures
        strings_record(segment_strings(segments)) == segments_record(segments),
        segment_strings(segments).len() == 2 * segments.len(),
        forall|i: int|
            0 <= i < segments.len() ==> segment_strings(segments)[2 * i] == (
            #[trigger] segments[i]).0 && segment_strings(segments)[2 * i + 1] == segments[i].1,
    decreases segments.len(),
{
    if segments.len() > 0 {
        let front = segments.drop_last();
        segment_strings_record(front);
        let all = segment_strings(segments);
        let upto = segment_strings(front).push(segments.last().0);
        assert(all.drop_last() =~= upto);
        assert(upto.drop_last() =~= segment_strings(front));
        assert(strings_record(all) == strings_record(upto) + terminated(segments.last().1));
        assert(strings_record(upto) == strings_record(segment_strings(front)) + terminated(
            segments.last().0,
        ));
        assert forall|i: int| 0 <= i < segments.len() implies all[2 * i] == (
        #[trigger] segments[i]).0 && all[2 * i + 1] == segments[i].1 by {
            if i < front.len() {
                assert(front[i] == segments[i]);
            }
        }
    }
}

/// The strings of a record that starts with a string without a NUL are
/// that string and the strings of the rest.
pub proof fn split_first(s: Seq<char>, rest: Seq<u8>)
    requires
        nul_free(s),
    ensures
        split_strings(terminated(s) + rest, 0) == seq![s] + split_strings(rest, 0),
{
    split_one(s);
    split_append(terminated(s), rest, 0);
}

/// A definition comes back from its record as it went in, where none of
/// its strings holds a NUL.
pub proof fn definition_round_trip(definition: DefinitionView)
    requires
        nul_free(definition.0),
        forall|i: int|
            0 <= i < definition.1.len() ==> nul_free((#[trigger] definition.1[i]).0) && nul_free(
                definition.1[i].1,
            ),
    ensures
        definition_from(split_strings(definition_record(definition), 0)) == Some(definition),
{
    let segments = definition.1;
    let strings = segment_strings(segments);
    segment_strings_record(segments);
    assert forall|k: int| 0 <= k < strings.len() implies nul_free(#[trigger] strings[k]) by {
        let i = k / 2;
        assert(0 <= i < segments.len());
        assert(nul_free(segments[i].0) && nul_free(segments[i].1));
        if k % 2 == 0 {
            assert(strings[2 * i] == segments[i].0);
        } else {
            assert(strings[2 * i + 1] == segments[i].1);
        }
    }
    strings_round_trip(strings);
    split_first(definition.0, segments_record(segments));
    let all = split_strings(definition_record(definition), 0);
    assert(all =~= seq![definition.0] + strings);
    let back = definition_from(all).unwrap();
    assert(back.1 =~= segments) by {
        assert forall|i: int| 0 <= i < segments.len() implies back.1[i] == segments[i] by {
            assert(all[1 + 2 * i] == strings[2 * i]);
            assert(all[2 + 2 * i] == strings[2 * i + 1]);
        }
    }
}

} // verus!
