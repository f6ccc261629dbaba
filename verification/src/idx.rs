//! The index of a dictionary: headwords with the blocks of the definition
//! store that belong to them, and the synonyms that lead to headwords.
use vstd::prelude::*;
use std::io::Read;
use flate2::read::GzDecoder;
use crate::bytes::{after_nul, be_at, be_u32_at, be_u64_at, find_nul, nul_end};
use crate::error::{Error, Result};
use crate::ifo::{Ifo, Version};
use crate::keys::KeyTable;
use crate::text::{buf_to_string, clean_text, lower, lowercase};

verus! {

/// One record of the index file.
pub struct IdxRawEntry {
    pub word: String,
    pub offset: u64,
    pub size: u64,
}

/// A byte range of the uncompressed definition store.
#[derive(Debug, Clone, Copy)]
pub struct IdxEntryBlock {
    pub offset: u64,
    pub size: u64,
}

/// A headword as the index spells it, with its blocks in file order.
#[derive(Debug)]
pub struct IdxEntry {
    pub word: String,
    pub blocks: Vec<IdxEntryBlock>,
}

/// An entry under the key by which it is looked up: the lower-case form of
/// its headword.
#[derive(Debug)]
pub struct IdxItem {
    pub key: String,
    pub entry: IdxEntry,
}

/// The headwords that one lower-case alias leads to, each once, in the
/// order in which the synonym file named them.
#[derive(Debug)]
pub struct SynEntry {
    pub key: String,
    pub aliases: Vec<String>,
}

/// A record of the index file, as a value.
pub struct RawView {
    pub word: Seq<char>,
    pub offset: u64,
    pub size: u64,
}

/// An entry, as a value.
pub struct EntryView {
    pub word: Seq<char>,
    pub blocks: Seq<IdxEntryBlock>,
}

/// An entry under its key, as a value.
pub struct ItemView {
    pub key: Seq<char>,
    pub entry: EntryView,
}

/// A row of the synonym table, as a value.
pub struct SynView {
    pub key: Seq<char>,
    pub aliases: Seq<Seq<char>>,
}

/// An index, as a value: the entries in the order of their first records,
/// and the rows of the synonym table where the dictionary has one.
pub struct IdxView {
    pub items: Seq<ItemView>,
    pub syn: Option<Seq<SynView>>,
}

impl IdxRawEntry {
    pub open spec fn view(&self) -> RawView {
        RawView { word: self.word@, offset: self.offset, size: self.size }
    }
}

impl IdxEntry {
    pub open spec fn view(&self) -> EntryView {
        EntryView { word: self.word@, blocks: self.blocks@ }
    }

    /// Adds a block behind those that the entry has.
    pub fn push_block(&mut self, offset: u64, size: u64)
        ensures
            final(self)@ == (EntryView {
                word: old(self)@.word,
                blocks: old(self)@.blocks.push(IdxEntryBlock { offset, size }),
            }),
    {
        self.blocks.push(IdxEntryBlock { offset, size })
    }
}

impl IdxItem {
    pub open spec fn view(&self) -> ItemView {
        ItemView { key: self.key@, entry: self.entry@ }
    }
}

impl SynEntry {
    pub open spec fn view(&self) -> SynView {
        SynView { key: self.key@, aliases: strings_view(self.aliases@) }
    }
}

/// The records as values, in order.
pub open spec fn raws_view(raws: Seq<IdxRawEntry>) -> Seq<RawView> {
    Seq::new(raws.len(), |i: int| raws[i]@)
}

/// The entries as values, in order.
pub open spec fn items_view(items: Seq<IdxItem>) -> Seq<ItemView> {
    Seq::new(items.len(), |i: int| items[i]@)
}

/// The strings as values, in order.
pub open spec fn strings_view(strings: Seq<String>) -> Seq<Seq<char>> {
    Seq::new(strings.len(), |i: int| strings[i]@)
}

/// The rows of a synonym table as values, in order.
pub open spec fn syn_view(syn: Seq<SynEntry>) -> Seq<SynView> {
    Seq::new(syn.len(), |i: int| syn[i]@)
}

/// The number of bytes that an offset or a size takes in the index file.
pub open spec fn number_width(wide: bool) -> int {
    if wide {
        8
    } else {
        4
    }
}

/// The records of the index file from `pos` on. A record is a headword up
/// to its NUL, then offset and size as big-endian numbers of `width` bytes.
/// A file that ends right behind a headword's NUL is read up to that
/// headword; one that ends inside a record's numbers is refused.
pub open spec fn parse_items(data: Seq<u8>, width: int, pos: int) -> Result<Seq<RawView>>
    decreases data.len() - pos,
{
    let end = nul_end(data, pos);
    let next = after_nul(data, pos);
    if pos < 0 || pos >= data.len() || width <= 0 {
        Ok(Seq::empty())
    } else if end < data.len() && next == data.len() {
        Ok(Seq::empty())
    } else if next + width > data.len() {
        Err(Error::InvalidIdxElement("offset"))
    } else if next + 2 * width > data.len() {
        Err(Error::InvalidIdxElement("size"))
    } else {
        let raw = RawView {
            word: clean_text(data.subrange(pos, end)),
            offset: be_at(data, next, width) as u64,
            size: be_at(data, next + width, width) as u64,
        };
        match parse_items(data, width, next + 2 * width) {
            Ok(rest) => Ok(seq![raw] + rest),
            Err(e) => Err(e),
        }
    }
}

/// `head` in front of the records in `rest`, or the failure of `rest`.
pub open spec fn records_after(head: Seq<RawView>, rest: Result<Seq<RawView>>) -> Result<
    Seq<RawView>,
> {
    match rest {
        Ok(r) => Ok(head + r),
        Err(e) => Err(e),
    }
}

/// Whether an entry stands under `key`.
pub open spec fn has_key(items: Seq<ItemView>, key: Seq<char>) -> bool {
    exists|i: int| 0 <= i < items.len() && (#[trigger] items[i]).key == key
}

/// The place of the entry that stands under `key`.
pub open spec fn key_index(items: Seq<ItemView>, key: Seq<char>) -> int {
    choose|i: int| 0 <= i < items.len() && (#[trigger] items[i]).key == key
}

/// No two entries stand under the same key.
pub open spec fn distinct_keys(items: Seq<ItemView>) -> bool {
    forall|i: int, j: int|
        0 <= i < j < items.len() ==> (#[trigger] items[i]).key != (#[trigger] items[j]).key
}

/// The entries are sound: each under the lower-case form of its headword,
/// each with a block, no key twice.
pub open spec fn items_wf(items: Seq<ItemView>) -> bool {
    &&& distinct_keys(items)
    &&& forall|i: int|
        0 <= i < items.len() ==> {
            &&& (#[trigger] items[i]).entry.blocks.len() > 0
            &&& items[i].key == lowercase(items[i].entry.word)
        }
}

/// The entries with one more block for the headword `word`: added to the
/// entry under the word's lower-case form, or to a new entry at the end.
pub open spec fn add_block(items: Seq<ItemView>, word: Seq<char>, block: IdxEntryBlock) -> Seq<
    ItemView,
> {
    let key = lowercase(word);
    let i = key_index(items, key);
    if has_key(items, key) {
        items.update(
            i,
            ItemView {
                key,
                entry: EntryView {
                    word: items[i].entry.word,
                    blocks: items[i].entry.blocks.push(block),
                },
            },
        )
    } else {
        items.push(ItemView { key, entry: EntryView { word, blocks: seq![block] } })
    }
}

/// The entries that the records make: records with an empty headword left
/// out, the others grouped by the lower-case form of their headword, each
/// group under the spelling of its first record and with its blocks in the
/// order of the records.
pub open spec fn coalesced(raws: Seq<RawView>) -> Seq<ItemView>
    decreases raws.len(),
{
    if raws.len() == 0 {
        Seq::empty()
    } else if raws.last().word.len() == 0 {
        coalesced(raws.drop_last())
    } else {
        add_block(
            coalesced(raws.drop_last()),
            raws.last().word,
            IdxEntryBlock { offset: raws.last().offset, size: raws.last().size },
        )
    }
}

/// What decoding a gzip stream yields, as far as it can be decoded.
pub uninterp spec fn gunzipped(data: Seq<u8>) -> Seq<u8>;

/// Calls flate2's `GzDecoder::new` and reads it to the end, keeping what
/// was decoded if the stream breaks off. Trusted: the bytes that come out
/// depend on the bytes that go in alone.
#[verifier::external_body]
fn gunzip(data: &[u8]) -> (out: Vec<u8>)
    ensures
        out@ == gunzipped(data@),
{
    let mut out = Vec::new();
    let _ = GzDecoder::new(data).read_to_end(&mut out);
    out
}

/// The big-endian number of four or eight bytes at `pos`.
fn read_number(data: &[u8], pos: usize, wide: bool) -> (v: u64)
    requires
        pos + number_width(wide) <= data@.len(),
    ensures
        v == be_at(data@, pos as int, number_width(wide)) as u64,
{
    if wide {
        be_u64_at(data, pos).unwrap()
    } else {
        be_u32_at(data, pos).unwrap() as u64
    }
}

/// Reads the records of an index file, with numbers of eight bytes where
/// `wide` is set and of four where it is not.
pub fn read_items(data: &[u8], wide: bool) -> (r: Result<Vec<IdxRawEntry>>)
    ensures
        match r {
            Ok(raws) => parse_items(data@, number_width(wide), 0) == Ok::<_, Error>(
                raws_view(raws@),
            ),
            Err(e) => parse_items(data@, number_width(wide), 0) == Err::<Seq<RawView>, _>(e),
        },
{
    let width: usize = if wide {
        8
    } else {
        4
    };
    let len: usize = data.len();
    let mut items: Vec<IdxRawEntry> = Vec::new();
    let mut pos: usize = 0;
    proof {
        assert(raws_view(items@) =~= Seq::empty());
        match parse_items(data@, width as int, 0) {
            Ok(r) => assert(Seq::<RawView>::empty() + r =~= r),
            Err(_) => {},
        }
    }
    while pos < len
        invariant
            pos <= len == data@.len(),
            width == number_width(wide),
            parse_items(data@, width as int, 0) == records_after(
                raws_view(items@),
                parse_items(data@, width as int, pos as int),
            ),
        decreases len - pos,
    {
        let end = find_nul(data, pos);
        let next: usize = if end < len {
            end + 1
        } else {
            end
        };
        if end < len && next == len {
            proof {
                assert(raws_view(items@) + Seq::<RawView>::empty() =~= raws_view(items@));
            }
            return Ok(items);
        }
        if len - next < width {
            return Err(Error::InvalidIdxElement("offset"));
        }
        if len - next < 2 * width {
            return Err(Error::InvalidIdxElement("size"));
        }
        let word = buf_to_string(&data[pos..end]);
        let offset = read_number(data, next, wide);
        let size = read_number(data, next + width, wide);
        let ghost before = raws_view(items@);
        let entry = IdxRawEntry { word, offset, size };
        proof {
            match parse_items(data@, width as int, next + 2 * width) {
                Ok(r) => assert(before + (seq![entry@] + r) =~= before.push(entry@) + r),
                Err(_) => {},
            }
        }
        items.push(entry);
        proof {
            assert(raws_view(items@) =~= before.push(entry@));
        }
        pos = next + 2 * width;
    }
    proof {
        assert(raws_view(items@) + Seq::<RawView>::empty() =~= raws_view(items@));
    }
    Ok(items)
}

/// The keys of the entries, by place.
pub open spec fn item_keys(items: Seq<ItemView>) -> Seq<Seq<char>> {
    Seq::new(items.len(), |i: int| items[i].key)
}

/// The keys of the rows of a synonym table, by place.
pub open spec fn syn_keys(syn: Seq<SynView>) -> Seq<Seq<char>> {
    Seq::new(syn.len(), |i: int| syn[i].key)
}

/// The place of the entry under `key`, if there is one. The table of the
/// entries' keys says where to look.
pub fn find_item(items: &Vec<IdxItem>, table: &KeyTable, key: &String) -> (r: Option<usize>)
    requires
        table.wf(),
        table.keys() == item_keys(items_view(items@)),
    ensures
        match r {
            Some(i) => i < items@.len() && items@[i as int].key@ == key@,
            None => !has_key(items_view(items@), key@),
        },
{
    let ghost keys = item_keys(items_view(items@));
    match table.candidates(key.as_str()) {
        Some(places) => {
            let mut j: usize = 0;
            while j < places.len()
                invariant
                    j <= places@.len(),
                    keys == item_keys(items_view(items@)),
                    forall|k: int| 0 <= k < places@.len() ==> (#[trigger] places@[k]) < keys.len(),
                    forall|k: int| 0 <= k < j ==> keys[(#[trigger] places@[k]) as int] != key@,
                decreases places@.len() - j,
            {
                let place = places[j];
                if items[place].key == *key {
                    return Some(place);
                }
                proof {
                    assert(keys[place as int] == items@[place as int].key@);
                }
                j = j + 1;
            }
            proof {
                assert forall|i: int| 0 <= i < items@.len() implies (#[trigger] items_view(
                    items@,
                )[i]).key != key@ by {
                    if keys[i] == key@ {
                        let k = choose|k: int| 0 <= k < places@.len() && (#[trigger] places@[k]) == i;
                        assert(keys[places@[k] as int] != key@);
                    }
                }
            }
            None
        },
        None => {
            proof {
                assert forall|i: int| 0 <= i < items@.len() implies (#[trigger] items_view(
                    items@,
                )[i]).key != key@ by {
                    assert(keys[i] != key@);
                }
            }
            None
        },
    }
}

/// Among entries with distinct keys, the entry under a key is the one
/// found there.
pub proof fn key_index_is(items: Seq<ItemView>, i: int)
    requires
        distinct_keys(items),
        0 <= i < items.len(),
    ensures
        has_key(items, items[i].key),
        key_index(items, items[i].key) == i,
{
    let j = key_index(items, items[i].key);
    if j < i {
        assert(items[j].key != items[i].key);
    } else if i < j {
        assert(items[i].key != items[j].key);
    }
}

/// Adding a block keeps the entries sound, and leaves an entry under the
/// headword's key and under every key that had one.
pub proof fn add_block_wf(items: Seq<ItemView>, word: Seq<char>, block: IdxEntryBlock)
    requires
        items_wf(items),
    ensures
        items_wf(add_block(items, word, block)),
        has_key(add_block(items, word, block), lowercase(word)),
        forall|k: Seq<char>| has_key(items, k) ==> has_key(add_block(items, word, block), k),
{
    let key = lowercase(word);
    let out = add_block(items, word, block);
    if has_key(items, key) {
        let i = key_index(items, key);
        assert(out[i].key == key);
        assert forall|k: Seq<char>| has_key(items, k) implies has_key(out, k) by {
            let j = key_index(items, k);
            assert(out[j].key == k);
        }
        assert(distinct_keys(out)) by {
            assert forall|a: int, b: int| 0 <= a < b < out.len() implies (#[trigger] out[a]).key != (
            #[trigger] out[b]).key by {
                assert(items[a].key != items[b].key);
            }
        }
        assert forall|a: int| 0 <= a < out.len() implies (#[trigger] out[a]).entry.blocks.len() > 0
            && out[a].key == lowercase(out[a].entry.word) by {
            assert(items[a].entry.blocks.len() > 0);
        }
    } else {
        let n = items.len() as int;
        assert(out[n].key == key);
        assert forall|k: Seq<char>| has_key(items, k) implies has_key(out, k) by {
            let j = key_index(items, k);
            assert(out[j].key == k);
        }
        assert(distinct_keys(out)) by {
            assert forall|a: int, b: int| 0 <= a < b < out.len() implies (#[trigger] out[a]).key != (
            #[trigger] out[b]).key by {
                if b < n {
                    assert(items[a].key != items[b].key);
                } else {
                    assert(items[a].key != key);
                }
            }
        }
        assert forall|a: int| 0 <= a < out.len() implies (#[trigger] out[a]).entry.blocks.len() > 0
            && out[a].key == lowercase(out[a].entry.word) by {
            if a < n {
                assert(items[a].entry.blocks.len() > 0);
            }
        }
    }
}

/// The grouped entries are sound, and every record with a headword has its
/// entry.
pub proof fn coalesced_wf(raws: Seq<RawView>)
    ensures
        items_wf(coalesced(raws)),
        forall|i: int|
            0 <= i < raws.len() && (#[trigger] raws[i]).word.len() > 0 ==> has_key(
                coalesced(raws),
                lowercase(raws[i].word),
            ),
    decreases raws.len(),
{
    if raws.len() > 0 {
        let front = raws.drop_last();
        coalesced_wf(front);
        if raws.last().word.len() > 0 {
            add_block_wf(
                coalesced(front),
                raws.last().word,
                IdxEntryBlock { offset: raws.last().offset, size: raws.last().size },
            );
        }
        assert forall|i: int| 0 <= i < raws.len() && (#[trigger] raws[i]).word.len() > 0 implies has_key(
            coalesced(raws),
            lowercase(raws[i].word),
        ) by {
            if i < raws.len() - 1 {
                assert(front[i].word.len() > 0);
            }
        }
    }
}

/// Groups the records of an index file into entries, and makes the table
/// that finds the entries by their keys.
pub fn coalesce(raws: &Vec<IdxRawEntry>) -> (r: (Vec<IdxItem>, KeyTable))
    ensures
        items_view(r.0@) == coalesced(raws_view(raws@)),
        items_wf(items_view(r.0@)),
        r.1.wf(),
        r.1.keys() == item_keys(items_view(r.0@)),
{
    let mut items: Vec<IdxItem> = Vec::new();
    let mut table = KeyTable::new();
    let mut n: usize = 0;
    proof {
        assert(items_view(items@) =~= Seq::empty());
        assert(raws_view(raws@).take(0) =~= Seq::empty());
        assert(table.keys() =~= item_keys(items_view(items@)));
    }
    while n < raws.len()
        invariant
            n <= raws@.len(),
            items_view(items@) == coalesced(raws_view(raws@).take(n as int)),
            items_wf(items_view(items@)),
            table.wf(),
            table.keys() == item_keys(items_view(items@)),
        decreases raws@.len() - n,
    {
        let raw = &raws[n];
        let ghost before = items_view(items@);
        let ghost block = IdxEntryBlock { offset: raw.offset, size: raw.size };
        proof {
            let upto = raws_view(raws@).take(n + 1);
            assert(upto.drop_last() =~= raws_view(raws@).take(n as int));
            assert(upto.last() == raw@);
            add_block_wf(before, raw.word@, block);
        }
        if !raw.word.as_str().is_empty() {
            let key = lower(raw.word.as_str());
            match find_item(&items, &table, &key) {
                Some(i) => {
                    proof {
                        key_index_is(before, i as int);
                    }
                    items[i].entry.push_block(raw.offset, raw.size);
                    proof {
                        assert(items_view(items@) =~= add_block(before, raw.word@, block));
                        assert(item_keys(items_view(items@)) =~= item_keys(before));
                    }
                },
                None => {
                    let mut entry = IdxEntry { word: raw.word.clone(), blocks: Vec::new() };
                    entry.push_block(raw.offset, raw.size);
                    table.push(key.as_str(), items.len());
                    items.push(IdxItem { key, entry });
                    proof {
                        assert(entry@.blocks =~= seq![block]);
                        assert(items_view(items@) =~= add_block(before, raw.word@, block));
                        assert(item_keys(items_view(items@)) =~= item_keys(before).push(key@));
                    }
                },
            }
        }
        n = n + 1;
    }
    proof {
        assert(raws_view(raws@).take(n as int) =~= raws_view(raws@));
    }
    (items, table)
}

/// Whether the synonym table leads from `a` to `b`.
pub open spec fn syn_rel(syn: Seq<SynView>, a: Seq<char>, b: Seq<char>) -> bool {
    exists|i: int| 0 <= i < syn.len() && (#[trigger] syn[i]).key == a && syn[i].aliases.contains(b)
}

/// Whether the synonym table has a row for `key`.
pub open spec fn syn_has_key(syn: Seq<SynView>, key: Seq<char>) -> bool {
    exists|i: int| 0 <= i < syn.len() && (#[trigger] syn[i]).key == key
}

/// The place of the row for `key`.
pub open spec fn syn_key_index(syn: Seq<SynView>, key: Seq<char>) -> int {
    choose|i: int| 0 <= i < syn.len() && (#[trigger] syn[i]).key == key
}

/// No two rows of the synonym table have the same key, and no row names a
/// headword twice.
pub open spec fn syn_distinct(syn: Seq<SynView>) -> bool {
    &&& forall|i: int, j: int|
        0 <= i < j < syn.len() ==> (#[trigger] syn[i]).key != (#[trigger] syn[j]).key
    &&& forall|i: int| 0 <= i < syn.len() ==> (#[trigger] syn[i]).aliases.no_duplicates()
}

/// The synonym table with `alias` added to the row of `key`, unless it is
/// there already.
pub open spec fn syn_insert(syn: Seq<SynView>, key: Seq<char>, alias: Seq<char>) -> Seq<SynView> {
    let i = syn_key_index(syn, key);
    if !syn_has_key(syn, key) {
        syn.push(SynView { key, aliases: seq![alias] })
    } else if syn[i].aliases.contains(alias) {
        syn
    } else {
        syn.update(i, SynView { key, aliases: syn[i].aliases.push(alias) })
    }
}

/// The synonym table after one record of the synonym file, which names an
/// alias and the number of an index record. A record with an empty alias or
/// with a number that no index record has changes nothing. Otherwise the
/// lower-case alias leads to the lower-case headword of that record, and,
/// where the alias is itself a key of the index, the headword leads back.
pub open spec fn add_synonym(
    syn: Seq<SynView>,
    items: Seq<ItemView>,
    raws: Seq<RawView>,
    alias: Seq<char>,
    index: int,
) -> Seq<SynView> {
    if alias.len() == 0 || index < 0 || index >= raws.len() {
        syn
    } else {
        let a = lowercase(alias);
        let h = lowercase(raws[index].word);
        if has_key(items, a) {
            syn_insert(syn_insert(syn, a, h), h, a)
        } else {
            syn_insert(syn, a, h)
        }
    }
}

/// The synonym table that the records of the synonym file from `pos` on
/// make of `syn`. A record is an alias up to its NUL and a big-endian
/// number of four bytes. A file that ends before a record's number is
/// complete is refused, with the alias of that record.
pub open spec fn parse_syn(
    data: Seq<u8>,
    pos: int,
    raws: Seq<RawView>,
    items: Seq<ItemView>,
    syn: Seq<SynView>,
) -> std::result::Result<Seq<SynView>, Seq<char>>
    decreases data.len() - pos,
{
    let end = nul_end(data, pos);
    let next = after_nul(data, pos);
    let alias = clean_text(data.subrange(pos, end));
    if pos < 0 || pos >= data.len() {
        Ok(syn)
    } else if next + 4 > data.len() {
        Err(alias)
    } else {
        parse_syn(data, next + 4, raws, items, add_synonym(syn, items, raws, alias, be_at(data, next, 4)))
    }
}

/// The synonym table is sound for the entries: its rows are distinct, a
/// synonym of a key leads back to it, and what a row names is a key of the
/// index or the lower-case form of the empty headword.
pub open spec fn syn_wf(syn: Seq<SynView>, items: Seq<ItemView>) -> bool {
    &&& syn_distinct(syn)
    &&& forall|a: Seq<char>, b: Seq<char>|
        #[trigger] syn_rel(syn, a, b) && has_key(items, a) ==> syn_rel(syn, b, a)
    &&& forall|a: Seq<char>, b: Seq<char>| #[trigger]
        syn_rel(syn, a, b) ==> has_key(items, b) || b == lowercase(Seq::empty())
}

/// Among rows with distinct keys, the row for a key is the one found there.
pub proof fn syn_key_index_is(syn: Seq<SynView>, i: int)
    requires
        syn_distinct(syn),
        0 <= i < syn.len(),
    ensures
        syn_has_key(syn, syn[i].key),
        syn_key_index(syn, syn[i].key) == i,
{
    let j = syn_key_index(syn, syn[i].key);
    if j < i {
        assert(syn[j].key != syn[i].key);
    } else if i < j {
        assert(syn[i].key != syn[j].key);
    }
}

/// Adding a synonym keeps the rows distinct and adds exactly that synonym.
pub proof fn syn_insert_rel(syn: Seq<SynView>, key: Seq<char>, alias: Seq<char>)
    requires
        syn_distinct(syn),
    ensures
        syn_distinct(syn_insert(syn, key, alias)),
        forall|a: Seq<char>, b: Seq<char>| #[trigger]
            syn_rel(syn_insert(syn, key, alias), a, b) <==> syn_rel(syn, a, b) || (a == key && b
                == alias),
{
    let out = syn_insert(syn, key, alias);
    let n = syn.len() as int;
    let i = syn_key_index(syn, key);
    if !syn_has_key(syn, key) {
        assert(out[n].aliases[0] == alias);
        assert forall|a: Seq<char>, b: Seq<char>| #[trigger]
            syn_rel(out, a, b) <==> syn_rel(syn, a, b) || (a == key && b == alias) by {
            if syn_rel(out, a, b) {
                let w = choose|w: int|
                    0 <= w < out.len() && (#[trigger] out[w]).key == a && out[w].aliases.contains(
                        b,
                    );
                if w < n {
                    assert(syn[w].key == a && syn[w].aliases.contains(b));
                }
            }
            if syn_rel(syn, a, b) {
                let w = choose|w: int|
                    0 <= w < syn.len() && (#[trigger] syn[w]).key == a && syn[w].aliases.contains(
                        b,
                    );
                assert(out[w].key == a && out[w].aliases.contains(b));
            }
            if a == key && b == alias {
                assert(out[n].key == a && out[n].aliases.contains(b));
            }
        }
        assert forall|x: int, y: int| 0 <= x < y < out.len() implies (#[trigger] out[x]).key != (
        #[trigger] out[y]).key by {
            if y < n {
                assert(syn[x].key != syn[y].key);
            } else {
                assert(syn[x].key != key);
            }
        }
        assert forall|x: int| 0 <= x < out.len() implies (#[trigger] out[x]).aliases.no_duplicates() by {
            if x < n {
                assert(syn[x].aliases.no_duplicates());
            }
        }
    } else if syn[i].aliases.contains(alias) {
        assert forall|a: Seq<char>, b: Seq<char>| #[trigger]
            syn_rel(out, a, b) <==> syn_rel(syn, a, b) || (a == key && b == alias) by {
            if a == key && b == alias {
                assert(syn[i].key == a && syn[i].aliases.contains(b));
            }
        }
    } else {
        let old_aliases = syn[i].aliases;
        let new_aliases = old_aliases.push(alias);
        assert(new_aliases[old_aliases.len() as int] == alias);
        assert forall|a: Seq<char>, b: Seq<char>| #[trigger]
            syn_rel(out, a, b) <==> syn_rel(syn, a, b) || (a == key && b == alias) by {
            if syn_rel(out, a, b) {
                let w = choose|w: int|
                    0 <= w < out.len() && (#[trigger] out[w]).key == a && out[w].aliases.contains(
                        b,
                    );
                if w != i {
                    assert(syn[w].key == a && syn[w].aliases.contains(b));
                } else {
                    let c = choose|c: int| 0 <= c < new_aliases.len() && new_aliases[c] == b;
                    if c < old_aliases.len() {
                        assert(old_aliases[c] == b);
                        assert(syn[i].key == a && syn[i].aliases.contains(b));
                    }
                }
            }
            if syn_rel(syn, a, b) {
                let w = choose|w: int|
                    0 <= w < syn.len() && (#[trigger] syn[w]).key == a && syn[w].aliases.contains(
                        b,
                    );
                if w != i {
                    assert(out[w].key == a && out[w].aliases.contains(b));
                } else {
                    let c = choose|c: int| 0 <= c < old_aliases.len() && old_aliases[c] == b;
                    assert(new_aliases[c] == b);
                    assert(out[i].key == a && out[i].aliases.contains(b));
                }
            }
            if a == key && b == alias {
                assert(out[i].key == a && out[i].aliases.contains(b));
            }
        }
        assert forall|x: int, y: int| 0 <= x < y < out.len() implies (#[trigger] out[x]).key != (
        #[trigger] out[y]).key by {
            assert(syn[x].key != syn[y].key);
        }
        assert forall|x: int| 0 <= x < out.len() implies (#[trigger] out[x]).aliases.no_duplicates() by {
            assert(syn[x].aliases.no_duplicates());
            if x == i {
                assert forall|c: int, d: int|
                    0 <= c < new_aliases.len() && 0 <= d < new_aliases.len() && c
                        != d implies new_aliases[c] != new_aliases[d] by {
                    if c < old_aliases.len() && d < old_aliases.len() {
                    } else if c < old_aliases.len() {
                        assert(old_aliases[c] != alias);
                    } else {
                        assert(old_aliases[d] != alias);
                    }
                }
            }
        }
    }
}

/// One record of the synonym file keeps the synonym table sound.
pub proof fn add_synonym_wf(
    syn: Seq<SynView>,
    items: Seq<ItemView>,
    raws: Seq<RawView>,
    alias: Seq<char>,
    index: int,
)
    requires
        syn_wf(syn, items),
        forall|i: int|
            0 <= i < raws.len() && (#[trigger] raws[i]).word.len() > 0 ==> has_key(
                items,
                lowercase(raws[i].word),
            ),
    ensures
        syn_wf(add_synonym(syn, items, raws, alias, index), items),
{
    if !(alias.len() == 0 || index < 0 || index >= raws.len()) {
        let a = lowercase(alias);
        let h = lowercase(raws[index].word);
        let first = syn_insert(syn, a, h);
        syn_insert_rel(syn, a, h);
        assert(raws[index].word.len() == 0 ==> raws[index].word =~= Seq::empty());
        assert(has_key(items, h) || h == lowercase(Seq::empty()));
        if has_key(items, a) {
            syn_insert_rel(first, h, a);
        }
    }
}

/// Reading a synonym file keeps the synonym table sound.
pub proof fn parse_syn_wf(
    data: Seq<u8>,
    pos: int,
    raws: Seq<RawView>,
    items: Seq<ItemView>,
    syn: Seq<SynView>,
)
    requires
        syn_wf(syn, items),
        forall|i: int|
            0 <= i < raws.len() && (#[trigger] raws[i]).word.len() > 0 ==> has_key(
                items,
                lowercase(raws[i].word),
            ),
    ensures
        parse_syn(data, pos, raws, items, syn) is Ok ==> syn_wf(
            parse_syn(data, pos, raws, items, syn)->Ok_0,
            items,
        ),
    decreases data.len() - pos,
{
    let end = nul_end(data, pos);
    let next = after_nul(data, pos);
    let alias = clean_text(data.subrange(pos, end));
    if !(pos < 0 || pos >= data.len()) && next + 4 <= data.len() {
        add_synonym_wf(syn, items, raws, alias, be_at(data, next, 4));
        parse_syn_wf(
            data,
            next + 4,
            raws,
            items,
            add_synonym(syn, items, raws, alias, be_at(data, next, 4)),
        );
    }
}

/// The place of the row for `key`, if there is one. The table of the
/// rows' keys says where to look.
pub fn find_syn(syn: &Vec<SynEntry>, table: &KeyTable, key: &String) -> (r: Option<usize>)
    requires
        table.wf(),
        table.keys() == syn_keys(syn_view(syn@)),
    ensures
        match r {
            Some(i) => i < syn@.len() && syn@[i as int].key@ == key@,
            None => !syn_has_key(syn_view(syn@), key@),
        },
{
    let ghost keys = syn_keys(syn_view(syn@));
    match table.candidates(key.as_str()) {
        Some(places) => {
            let mut j: usize = 0;
            while j < places.len()
                invariant
                    j <= places@.len(),
                    keys == syn_keys(syn_view(syn@)),
                    forall|k: int| 0 <= k < places@.len() ==> (#[trigger] places@[k]) < keys.len(),
                    forall|k: int| 0 <= k < j ==> keys[(#[trigger] places@[k]) as int] != key@,
                decreases places@.len() - j,
            {
                let place = places[j];
                if syn[place].key == *key {
                    return Some(place);
                }
                proof {
                    assert(keys[place as int] == syn@[place as int].key@);
                }
                j = j + 1;
            }
            proof {
                assert forall|i: int| 0 <= i < syn@.len() implies (#[trigger] syn_view(syn@)[i]).key
                    != key@ by {
                    if keys[i] == key@ {
                        let k = choose|k: int| 0 <= k < places@.len() && (#[trigger] places@[k]) == i;
                        assert(keys[places@[k] as int] != key@);
                    }
                }
            }
            None
        },
        None => {
            proof {
                assert forall|i: int| 0 <= i < syn@.len() implies (#[trigger] syn_view(syn@)[i]).key
                    != key@ by {
                    assert(keys[i] != key@);
                }
            }
            None
        },
    }
}

/// Whether `word` is among `strings`.
pub fn contains_string(strings: &Vec<String>, word: &String) -> (b: bool)
    ensures
        b == strings_view(strings@).contains(word@),
{
    let mut i: usize = 0;
    while i < strings.len()
        invariant
            i <= strings@.len(),
            forall|j: int| 0 <= j < i ==> strings_view(strings@)[j] != word@,
        decreases strings@.len() - i,
    {
        if strings[i] == *word {
            assert(strings_view(strings@)[i as int] == word@);
            return true;
        }
        i = i + 1;
    }
    false
}

/// Adds `alias` to the row of `key`, unless it is there already, and
/// keeps the table of the rows' keys.
pub fn insert_synonym(syn: &mut Vec<SynEntry>, table: &mut KeyTable, key: String, alias: String)
    requires
        syn_distinct(syn_view(old(syn)@)),
        old(table).wf(),
        old(table).keys() == syn_keys(syn_view(old(syn)@)),
    ensures
        syn_view(final(syn)@) == syn_insert(syn_view(old(syn)@), key@, alias@),
        syn_distinct(syn_view(final(syn)@)),
        final(table).wf(),
        final(table).keys() == syn_keys(syn_view(final(syn)@)),
{
    let ghost before = syn_view(syn@);
    proof {
        syn_insert_rel(before, key@, alias@);
    }
    match find_syn(syn, table, &key) {
        Some(i) => {
            proof {
                syn_key_index_is(before, i as int);
            }
            if !contains_string(&syn[i].aliases, &alias) {
                syn[i].aliases.push(alias);
                proof {
                    assert(syn@[i as int]@.aliases =~= before[i as int].aliases.push(alias@));
                    assert(syn_view(syn@) =~= syn_insert(before, key@, alias@));
                    assert(syn_keys(syn_view(syn@)) =~= syn_keys(before));
                }
            }
        },
        None => {
            let mut aliases: Vec<String> = Vec::new();
            aliases.push(alias);
            proof {
                assert(strings_view(aliases@) =~= seq![alias@]);
            }
            table.push(key.as_str(), syn.len());
            syn.push(SynEntry { key, aliases });
            proof {
                assert(syn_view(syn@) =~= syn_insert(before, key@, alias@));
                assert(syn_keys(syn_view(syn@)) =~= syn_keys(before).push(key@));
            }
        },
    }
}

/// Reads a synonym file against the records and entries of its index,
/// and makes the table that finds the rows by their keys.
pub fn load_syn(
    raws: &Vec<IdxRawEntry>,
    data: &[u8],
    items: &Vec<IdxItem>,
    item_table: &KeyTable,
) -> (r: Result<(Vec<SynEntry>, KeyTable)>)
    requires
        item_table.wf(),
        item_table.keys() == item_keys(items_view(items@)),
    ensures
        match r {
            Ok((syn, table)) => {
                &&& parse_syn(data@, 0, raws_view(raws@), items_view(items@), Seq::empty()) == Ok::<
                    _,
                    Seq<char>,
                >(syn_view(syn@))
                &&& table.wf()
                &&& table.keys() == syn_keys(syn_view(syn@))
            },
            Err(e) => e matches Error::InvalidSynIndex(w) && parse_syn(
                data@,
                0,
                raws_view(raws@),
                items_view(items@),
                Seq::empty(),
            ) == Err::<Seq<SynView>, _>(w@),
        },
{
    let len: usize = data.len();
    let mut syn: Vec<SynEntry> = Vec::new();
    let mut table = KeyTable::new();
    let mut pos: usize = 0;
    proof {
        assert(syn_view(syn@) =~= Seq::empty());
        assert(table.keys() =~= syn_keys(syn_view(syn@)));
    }
    while pos < len
        invariant
            pos <= len == data@.len(),
            syn_distinct(syn_view(syn@)),
            item_table.wf(),
            item_table.keys() == item_keys(items_view(items@)),
            table.wf(),
            table.keys() == syn_keys(syn_view(syn@)),
            parse_syn(data@, pos as int, raws_view(raws@), items_view(items@), syn_view(syn@))
                == parse_syn(data@, 0, raws_view(raws@), items_view(items@), Seq::empty()),
        decreases len - pos,
    {
        let end = find_nul(data, pos);
        let next: usize = if end < len {
            end + 1
        } else {
            end
        };
        let word = buf_to_string(&data[pos..end]);
        if len - next < 4 {
            return Err(Error::InvalidSynIndex(word));
        }
        let index = be_u32_at(data, next).unwrap();
        let ghost before = syn_view(syn@);
        if !word.as_str().is_empty() && (index as usize) < raws.len() {
            let alias = lower(word.as_str());
            let head = lower(raws[index as usize].word.as_str());
            proof {
                syn_insert_rel(before, alias@, head@);
            }
            let back = find_item(items, item_table, &alias).is_some();
            proof {
                if back {
                    let i = choose|i: int|
                        0 <= i < items@.len() && items@[i].key@ == alias@;
                    assert(items_view(items@)[i].key == alias@);
                }
            }
            if back {
                insert_synonym(&mut syn, &mut table, alias.clone(), head.clone());
                insert_synonym(&mut syn, &mut table, head, alias);
            } else {
                insert_synonym(&mut syn, &mut table, alias, head);
            }
        }
        pos = next + 4;
    }
    Ok((syn, table))
}

/// The index of a dictionary, ready for lookups: the entries and the rows
/// of the synonym table, each with the table that finds them by their keys.
pub struct Idx {
    items: Vec<IdxItem>,
    item_table: KeyTable,
    syn: Option<(Vec<SynEntry>, KeyTable)>,
}

/// Whether the numbers of the index file take eight bytes: only a
/// dictionary of version 3.0.0 that declares offsets of 64 bits has them.
pub open spec fn wide_numbers(version: Version, idxoffsetbits: usize) -> bool {
    version is V300 && idxoffsetbits == 64
}

/// The index is sound: its entries are, and so is its synonym table.
pub open spec fn idx_wf(idx: IdxView) -> bool {
    &&& items_wf(idx.items)
    &&& match idx.syn {
        Some(syn) => syn_wf(syn, idx.items),
        None => true,
    }
}

/// Whether one of the entries at the places `found` has the headword `word`.
pub open spec fn has_word(items: Seq<ItemView>, found: Seq<int>, word: Seq<char>) -> bool {
    exists|j: int| 0 <= j < found.len() && items[#[trigger] found[j]].entry.word == word
}

/// The places `found` followed by the places of the entries under
/// `aliases`, in order, each left out where an entry with its headword is
/// there already.
pub open spec fn add_aliases(items: Seq<ItemView>, found: Seq<int>, aliases: Seq<Seq<char>>) -> Seq<
    int,
>
    decreases aliases.len(),
{
    if aliases.len() == 0 {
        found
    } else {
        let prev = add_aliases(items, found, aliases.drop_last());
        let i = key_index(items, aliases.last());
        if has_key(items, aliases.last()) && !has_word(items, prev, items[i].entry.word) {
            prev.push(i)
        } else {
            prev
        }
    }
}

/// The places of the entries that a lookup of the lower-case word `key`
/// yields: the entry under the key first, then the entries under the key's
/// synonyms in the order of its row, no headword twice.
pub open spec fn lookup_indices(idx: IdxView, key: Seq<char>) -> Seq<int> {
    let direct = if has_key(idx.items, key) {
        seq![key_index(idx.items, key)]
    } else {
        Seq::empty()
    };
    match idx.syn {
        Some(syn) => if syn_has_key(syn, key) {
            add_aliases(idx.items, direct, syn[syn_key_index(syn, key)].aliases)
        } else {
            direct
        },
        None => direct,
    }
}

/// The entries that a lookup of the lower-case word `key` yields.
pub open spec fn lookup_entries(idx: IdxView, key: Seq<char>) -> Seq<EntryView> {
    Seq::new(lookup_indices(idx, key).len(), |j: int| idx.items[lookup_indices(idx, key)[j]].entry)
}

/// The entries as values, in order.
pub open spec fn entries_view(entries: Seq<&IdxEntry>) -> Seq<EntryView> {
    Seq::new(entries.len(), |j: int| entries[j]@)
}

/// The places as numbers, in order.
pub open spec fn as_ints(places: Seq<usize>) -> Seq<int> {
    Seq::new(places.len(), |j: int| places[j] as int)
}

/// Whether one of the entries at the places `found` has the headword `word`.
fn word_found(items: &Vec<IdxItem>, found: &Vec<usize>, word: &String) -> (b: bool)
    requires
        forall|j: int| 0 <= j < found@.len() ==> found@[j] < items@.len(),
    ensures
        b == has_word(items_view(items@), as_ints(found@), word@),
{
    let mut j: usize = 0;
    while j < found.len()
        invariant
            j <= found@.len(),
            forall|j: int| 0 <= j < found@.len() ==> found@[j] < items@.len(),
            forall|k: int|
                0 <= k < j ==> items_view(items@)[#[trigger] as_ints(found@)[k]].entry.word
                    != word@,
        decreases found@.len() - j,
    {
        if items[found[j]].entry.word == *word {
            assert(items_view(items@)[as_ints(found@)[j as int]].entry.word == word@);
            return true;
        }
        j = j + 1;
    }
    false
}

impl Idx {
    /// The entries and the synonym table, as values.
    pub closed spec fn view(&self) -> IdxView {
        IdxView {
            items: items_view(self.items@),
            syn: match self.syn {
                Some((rows, _)) => Some(syn_view(rows@)),
                None => None,
            },
        }
    }

    /// The index is sound: its entries and its synonym table are, and the
    /// tables of keys are those of the entries and of the rows.
    pub closed spec fn wf(&self) -> bool {
        &&& idx_wf(self@)
        &&& self.item_table.wf()
        &&& self.item_table.keys() == item_keys(items_view(self.items@))
        &&& match self.syn {
            Some((rows, table)) => table.wf() && table.keys() == syn_keys(syn_view(rows@)),
            None => true,
        }
    }

    /// The entries and the synonym table of a sound index are sound.
    pub proof fn wf_view(&self)
        requires
            self.wf(),
        ensures
            idx_wf(self@),
    {
    }

    /// The entries, each under its key, in the order of their first
    /// records.
    pub fn items(&self) -> (items: &Vec<IdxItem>)
        ensures
            items_view(items@) == self@.items,
    {
        &self.items
    }

    /// The rows of the synonym table, where the dictionary has one.
    pub fn syn(&self) -> (syn: Option<&Vec<SynEntry>>)
        ensures
            match syn {
                Some(rows) => self@.syn == Some(syn_view(rows@)),
                None => self@.syn is None,
            },
    {
        match &self.syn {
            Some((rows, _)) => Some(rows),
            None => None,
        }
    }

    /// Reads an index from the contents of its file, gzipped where `gz` is
    /// set, and from the contents of the synonym file where there is one.
    pub fn new(data: &[u8], ifo: &Ifo, gz: bool, syn: Option<&[u8]>) -> (r: Result<Idx>)
        ensures
            idx_outcome(
                if gz {
                    gunzipped(data@)
                } else {
                    data@
                },
                wide_numbers(ifo.version, ifo.idxoffsetbits),
                syn,
                r,
            ),
    {
        if gz {
            let plain = gunzip(data);
            read(&ifo.version, ifo.idxoffsetbits, plain.as_slice(), syn)
        } else {
            read(&ifo.version, ifo.idxoffsetbits, data, syn)
        }
    }

    /// The entries for a word: the entry of the word itself, then those of
    /// its synonyms, whatever the word's casing. `None` where there is none.
    pub fn lookup_blocks(&self, word: &str) -> (r: Option<Vec<&IdxEntry>>)
        requires
            self.wf(),
        ensures
            match r {
                Some(entries) => entries@.len() > 0 && entries_view(entries@) == lookup_entries(
                    self@,
                    lowercase(word@),
                ),
                None => lookup_entries(self@, lowercase(word@)).len() == 0,
            },
    {
        let key = lower(word);
        let ghost items = items_view(self.items@);
        let mut found: Vec<usize> = Vec::new();
        match find_item(&self.items, &self.item_table, &key) {
            Some(i) => {
                proof {
                    key_index_is(items, i as int);
                }
                found.push(i);
                proof {
                    assert(as_ints(found@) =~= seq![key_index(items, key@)]);
                }
            },
            None => {
                proof {
                    assert(as_ints(found@) =~= Seq::empty());
                }
            },
        }
        if let Some((syn, table)) = &self.syn {
            if let Some(row) = find_syn(syn, table, &key) {
                proof {
                    syn_key_index_is(syn_view(syn@), row as int);
                }
                let aliases = &syn[row].aliases;
                let ghost direct = as_ints(found@);
                let mut n: usize = 0;
                proof {
                    assert(strings_view(aliases@).take(0) =~= Seq::empty());
                }
                while n < aliases.len()
                    invariant
                        n <= aliases@.len(),
                        items == items_view(self.items@),
                        distinct_keys(items),
                        self.item_table.wf(),
                        self.item_table.keys() == item_keys(items),
                        forall|j: int| 0 <= j < found@.len() ==> found@[j] < self.items@.len(),
                        as_ints(found@) == add_aliases(
                            items,
                            direct,
                            strings_view(aliases@).take(n as int),
                        ),
                    decreases aliases@.len() - n,
                {
                    let ghost before = as_ints(found@);
                    proof {
                        let upto = strings_view(aliases@).take(n + 1);
                        assert(upto.drop_last() =~= strings_view(aliases@).take(n as int));
                        assert(upto.last() == aliases@[n as int]@);
                    }
                    if let Some(i) = find_item(&self.items, &self.item_table, &aliases[n]) {
                        proof {
                            key_index_is(items, i as int);
                        }
                        if !word_found(&self.items, &found, &self.items[i].entry.word) {
                            found.push(i);
                            proof {
                                assert(as_ints(found@) =~= before.push(i as int));
                            }
                        }
                    }
                    n = n + 1;
                }
                proof {
                    assert(strings_view(aliases@).take(n as int) =~= strings_view(aliases@));
                }
            }
        }
        if found.len() == 0 {
            return None;
        }
        let mut entries: Vec<&IdxEntry> = Vec::new();
        let mut j: usize = 0;
        while j < found.len()
            invariant
                j <= found@.len(),
                forall|k: int| 0 <= k < found@.len() ==> found@[k] < self.items@.len(),
                entries@.len() == j,
                forall|k: int|
                    0 <= k < j ==> (#[trigger] entries@[k])@ == self.items@[found@[k] as int].entry@,
            decreases found@.len() - j,
        {
            entries.push(&self.items[found[j]].entry);
            j = j + 1;
        }
        proof {
            assert(as_ints(found@) == lookup_indices(self@, key@));
            assert(entries_view(entries@) =~= lookup_entries(self@, key@));
        }
        Some(entries)
    }
}

/// Whether the index file and, where there is one, the synonym file can be
/// read to their ends.
pub open spec fn idx_parses(data: Seq<u8>, wide: bool, syn: Option<&[u8]>) -> bool {
    let raws = parse_items(data, number_width(wide), 0);
    &&& raws is Ok
    &&& syn is Some ==> parse_syn(
        syn->0@,
        0,
        raws->Ok_0,
        coalesced(raws->Ok_0),
        Seq::empty(),
    ) is Ok
}

/// What reading an index comes to, for the contents `data` of the index
/// file and `syn` of the synonym file: the sound index that the records
/// make, or the failure of the file that is cut short.
pub open spec fn idx_outcome(data: Seq<u8>, wide: bool, syn: Option<&[u8]>, r: Result<Idx>) -> bool {
    let raws = parse_items(data, number_width(wide), 0);
    match r {
        Ok(idx) => {
            &&& idx.wf()
            &&& idx_wf(idx@)
            &&& raws is Ok
            &&& idx@.items == coalesced(raws->Ok_0)
            &&& match syn {
                Some(s) => parse_syn(s@, 0, raws->Ok_0, idx@.items, Seq::empty()) == Ok::<
                    _,
                    Seq<char>,
                >(idx@.syn->0) && idx@.syn is Some,
                None => idx@.syn is None,
            }
        },
        Err(e) => {
            ||| raws == Err::<Seq<RawView>, _>(e)
            ||| {
                &&& raws is Ok
                &&& syn is Some
                &&& e matches Error::InvalidSynIndex(w) && parse_syn(
                    syn->0@,
                    0,
                    raws->Ok_0,
                    coalesced(raws->Ok_0),
                    Seq::empty(),
                ) == Err::<Seq<SynView>, _>(w@)
            }
        },
    }
}

/// Reads an index from the plain contents of its file and, where there is
/// one, of the synonym file.
pub fn read(version: &Version, idxoffsetbits: usize, data: &[u8], syn: Option<&[u8]>) -> (r: Result<
    Idx,
>)
    ensures
        idx_outcome(data@, wide_numbers(*version, idxoffsetbits), syn, r),
{
    let wide = match version {
        Version::V242 => false,
        Version::V300 => idxoffsetbits == 64,
    };
    let raws = match read_items(data, wide) {
        Ok(raws) => raws,
        Err(e) => {
            return Err(e);
        },
    };
    let (items, item_table) = coalesce(&raws);
    let syn = match syn {
        Some(bytes) => {
            let table = match load_syn(&raws, bytes, &items, &item_table) {
                Ok(table) => table,
                Err(e) => {
                    return Err(e);
                },
            };
            proof {
                coalesced_wf(raws_view(raws@));
                assert(syn_wf(Seq::empty(), items_view(items@)));
                parse_syn_wf(bytes@, 0, raws_view(raws@), items_view(items@), Seq::empty());
            }
            Some(table)
        },
        None => None,
    };
    Ok(Idx { items, item_table, syn })
}

/// The places are places of entries, and no two of them are places of
/// entries with the same headword.
pub open spec fn distinct_words(items: Seq<ItemView>, found: Seq<int>) -> bool {
    &&& forall|j: int| 0 <= j < found.len() ==> 0 <= #[trigger] found[j] < items.len()
    &&& forall|j: int, k: int|
        0 <= j < k < found.len() ==> items[#[trigger] found[j]].entry.word
            != items[#[trigger] found[k]].entry.word
}

/// Following the synonyms keeps the places found before, adds only places
/// of entries, and adds no headword a second time.
pub proof fn add_aliases_distinct(items: Seq<ItemView>, found: Seq<int>, aliases: Seq<Seq<char>>)
    requires
        distinct_words(items, found),
    ensures
        distinct_words(items, add_aliases(items, found, aliases)),
        forall|x: int| found.contains(x) ==> add_aliases(items, found, aliases).contains(x),
    decreases aliases.len(),
{
    let out = add_aliases(items, found, aliases);
    if aliases.len() > 0 {
        let prev = add_aliases(items, found, aliases.drop_last());
        add_aliases_distinct(items, found, aliases.drop_last());
        let i = key_index(items, aliases.last());
        if has_key(items, aliases.last()) && !has_word(items, prev, items[i].entry.word) {
            assert forall|j: int, k: int| 0 <= j < k < out.len() implies items[#[trigger] out[j]].entry.word
                != items[#[trigger] out[k]].entry.word by {
                if k < prev.len() {
                    assert(out[j] == prev[j] && out[k] == prev[k]);
                } else {
                    assert(out[j] == prev[j]);
                }
            }
            assert forall|x: int| found.contains(x) implies out.contains(x) by {
                assert(prev.contains(x));
                let c = choose|c: int| 0 <= c < prev.len() && prev[c] == x;
                assert(out[c] == x);
            }
        }
    }
}

/// Following the synonyms reaches the entry of every synonym that is a key.
pub proof fn add_aliases_covers(
    items: Seq<ItemView>,
    found: Seq<int>,
    aliases: Seq<Seq<char>>,
    alias: Seq<char>,
)
    requires
        items_wf(items),
        distinct_words(items, found),
        aliases.contains(alias),
        has_key(items, alias),
    ensures
        add_aliases(items, found, aliases).contains(key_index(items, alias)),
    decreases aliases.len(),
{
    let out = add_aliases(items, found, aliases);
    let prev = add_aliases(items, found, aliases.drop_last());
    let i = key_index(items, aliases.last());
    add_aliases_distinct(items, found, aliases.drop_last());
    if aliases.last() == alias {
        if !has_word(items, prev, items[i].entry.word) {
            assert(out[prev.len() as int] == i);
        } else {
            let j = choose|j: int|
                0 <= j < prev.len() && items[#[trigger] prev[j]].entry.word == items[i].entry.word;
            assert(items[prev[j]].key == items[i].key);
            if prev[j] < i {
                assert(items[prev[j]].key != items[i].key);
            } else if i < prev[j] {
                assert(items[i].key != items[prev[j]].key);
            }
            assert(out[j] == i);
        }
    } else {
        let c = choose|c: int| 0 <= c < aliases.len() && aliases[c] == alias;
        assert(aliases.drop_last()[c] == alias);
        add_aliases_covers(items, found, aliases.drop_last(), alias);
        let d = choose|d: int| 0 <= d < prev.len() && prev[d] == key_index(items, alias);
        assert(out[d] == key_index(items, alias));
    }
}

/// A lookup yields no headword twice.
pub proof fn lookup_has_no_headword_twice(idx: IdxView, key: Seq<char>)
    ensures
        distinct_words(idx.items, lookup_indices(idx, key)),
        forall|j: int, k: int|
            0 <= j < k < lookup_entries(idx, key).len() ==> (#[trigger] lookup_entries(
                idx,
                key,
            )[j]).word != (#[trigger] lookup_entries(idx, key)[k]).word,
{
    let direct = if has_key(idx.items, key) {
        seq![key_index(idx.items, key)]
    } else {
        Seq::empty()
    };
    assert(distinct_words(idx.items, direct));
    if idx.syn is Some && syn_has_key(idx.syn->0, key) {
        add_aliases_distinct(
            idx.items,
            direct,
            idx.syn->0[syn_key_index(idx.syn->0, key)].aliases,
        );
    }
    let found = lookup_indices(idx, key);
    assert forall|j: int, k: int| 0 <= j < k < lookup_entries(idx, key).len() implies (
    #[trigger] lookup_entries(idx, key)[j]).word != (#[trigger] lookup_entries(idx, key)[k]).word by {
        assert(idx.items[found[j]].entry.word != idx.items[found[k]].entry.word);
    }
}

/// Where a synonym leads from the key `a` to the key `h`, a lookup of `a`
/// yields the entries of both.
pub proof fn lookup_follows_synonym(idx: IdxView, a: Seq<char>, h: Seq<char>)
    requires
        idx_wf(idx),
        idx.syn is Some,
        has_key(idx.items, a),
        has_key(idx.items, h),
        syn_rel(idx.syn->0, a, h),
    ensures
        lookup_indices(idx, a).contains(key_index(idx.items, a)),
        lookup_indices(idx, a).contains(key_index(idx.items, h)),
{
    let syn = idx.syn->0;
    let direct = seq![key_index(idx.items, a)];
    assert(direct[0] == key_index(idx.items, a));
    assert(direct.contains(key_index(idx.items, a)));
    assert(distinct_words(idx.items, direct));
    let w = choose|w: int|
        0 <= w < syn.len() && (#[trigger] syn[w]).key == a && syn[w].aliases.contains(h);
    syn_key_index_is(syn, w);
    add_aliases_distinct(idx.items, direct, syn[w].aliases);
    add_aliases_covers(idx.items, direct, syn[w].aliases, h);
}

/// Synonyms among headwords are mutual: where the synonym table leads from
/// the key `a` to the key `h`, a lookup of either yields the entries of
/// both.
pub proof fn synonyms_are_mutual(idx: IdxView, a: Seq<char>, h: Seq<char>)
    requires
        idx_wf(idx),
        idx.syn is Some,
        has_key(idx.items, a),
        has_key(idx.items, h),
        syn_rel(idx.syn->0, a, h),
    ensures
        lookup_indices(idx, a).contains(key_index(idx.items, a)),
        lookup_indices(idx, a).contains(key_index(idx.items, h)),
        lookup_indices(idx, h).contains(key_index(idx.items, a)),
        lookup_indices(idx, h).contains(key_index(idx.items, h)),
{
    lookup_follows_synonym(idx, a, h);
    assert(syn_rel(idx.syn->0, h, a));
    lookup_follows_synonym(idx, h, a);
}

/// Whether every headword that the synonym table names is a key of the
/// index.
pub open spec fn names_keys(syn: Seq<SynView>, items: Seq<ItemView>) -> bool {
    forall|a: Seq<char>, b: Seq<char>| #[trigger] syn_rel(syn, a, b) ==> has_key(items, b)
}

/// Where every index record has its entry, reading a synonym file adds
/// only synonyms that name keys of the index.
pub proof fn parse_syn_names_keys(
    data: Seq<u8>,
    pos: int,
    raws: Seq<RawView>,
    items: Seq<ItemView>,
    syn: Seq<SynView>,
)
    requires
        syn_distinct(syn),
        names_keys(syn, items),
        forall|i: int| 0 <= i < raws.len() ==> has_key(items, lowercase((#[trigger] raws[i]).word)),
    ensures
        parse_syn(data, pos, raws, items, syn) is Ok ==> names_keys(
            parse_syn(data, pos, raws, items, syn)->Ok_0,
            items,
        ),
    decreases data.len() - pos,
{
    let end = nul_end(data, pos);
    let next = after_nul(data, pos);
    let alias = clean_text(data.subrange(pos, end));
    let index = be_at(data, next, 4);
    if !(pos < 0 || pos >= data.len()) && next + 4 <= data.len() {
        let after = add_synonym(syn, items, raws, alias, index);
        if !(alias.len() == 0 || index < 0 || index >= raws.len()) {
            let a = lowercase(alias);
            let h = lowercase(raws[index].word);
            syn_insert_rel(syn, a, h);
            if has_key(items, a) {
                syn_insert_rel(syn_insert(syn, a, h), h, a);
            }
        }
        parse_syn_names_keys(data, next + 4, raws, items, after);
    }
}

/// Every headword that a synonym names is a key of the index, for an index
/// file in which no record has an empty headword.
pub proof fn synonyms_name_keys(raws: Seq<RawView>, syn_data: Seq<u8>)
    requires
        forall|i: int| 0 <= i < raws.len() ==> (#[trigger] raws[i]).word.len() > 0,
    ensures
        parse_syn(syn_data, 0, raws, coalesced(raws), Seq::empty()) is Ok ==> names_keys(
            parse_syn(syn_data, 0, raws, coalesced(raws), Seq::empty())->Ok_0,
            coalesced(raws),
        ),
{
    coalesced_wf(raws);
    parse_syn_names_keys(syn_data, 0, raws, coalesced(raws), Seq::empty());
}

} // verus!
