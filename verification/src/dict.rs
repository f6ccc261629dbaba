//! The definition store: byte ranges out of a plain `.dict` file or a
//! dictzipped one, and their decoding into typed segments.
use vstd::prelude::*;
use crate::bytes::copy_range;
use crate::dictzip::{
    parse_dictzip, range_is_slice_of_full_text, range_past_end_fails, DictZip, DictZipView,
};
use crate::error::{Error, Result};
use crate::idx::{EntryView, IdxEntry, IdxEntryBlock};
use crate::ifo::Ifo;
use crate::text::{buf_to_string, clean_text, string_from_chars};
use crate::{segments_view, WordDefinition, WordDefinitionSegment};

verus! {

enum DictInner {
    Plain(Vec<u8>),
    DictZip(DictZip),
}

/// A definition store held in memory.
pub struct Dict {
    inner: DictInner,
}

/// What a definition store is: the bytes themselves, or a dictzip file that
/// holds them compressed.
pub enum DictView {
    Plain(Seq<u8>),
    Zipped(DictZipView),
}

impl DictView {
    /// The `size` bytes at `offset` of the store, or `None` where they
    /// cannot be had.
    pub open spec fn range(self, offset: int, size: int) -> Option<Seq<u8>> {
        match self {
            DictView::Plain(data) => if offset + size <= data.len() {
                Some(data.subrange(offset, offset + size))
            } else {
                None
            },
            DictView::Zipped(dz) => dz.range(offset, size),
        }
    }

    /// The length of the store's data; for a dictzip file, of what all its
    /// chunks inflate to.
    pub open spec fn len(self) -> int {
        match self {
            DictView::Plain(data) => data.len() as int,
            DictView::Zipped(dz) => dz.full_text()->0.len() as int,
        }
    }
}

/// The segment that a block's bytes hold. With a type sequence given, the
/// whole block is text of those types. Without one, the block's first byte
/// is its type and the rest its text, and a block of fewer than two bytes
/// holds nothing.
pub open spec fn parsed_data(data: Seq<u8>, types: Seq<char>) -> Option<(Seq<char>, Seq<char>)> {
    if types.len() > 0 {
        Some((types, clean_text(data)))
    } else if data.len() < 2 {
        None
    } else {
        Some((seq![data[0] as char], clean_text(data.subrange(1, data.len() as int))))
    }
}

/// The segment that a block of the store holds, if its bytes can be had
/// and hold one.
pub open spec fn segment_at(dict: DictView, block: IdxEntryBlock, types: Seq<char>) -> Option<
    (Seq<char>, Seq<char>),
> {
    match dict.range(block.offset as int, block.size as int) {
        Some(bytes) => parsed_data(bytes, types),
        None => None,
    }
}

/// The segments that the blocks hold, in the order of the blocks; a block
/// that holds none is passed over.
pub open spec fn segments_of(dict: DictView, blocks: Seq<IdxEntryBlock>, types: Seq<char>) -> Seq<
    (Seq<char>, Seq<char>),
>
    decreases blocks.len(),
{
    if blocks.len() == 0 {
        Seq::empty()
    } else {
        match segment_at(dict, blocks.last(), types) {
            Some(segment) => segments_of(dict, blocks.drop_last(), types).push(segment),
            None => segments_of(dict, blocks.drop_last(), types),
        }
    }
}

/// The definition of an entry: its headword with the segments of its
/// blocks, or `None` where no block holds a segment.
pub open spec fn definition_of(dict: DictView, entry: EntryView, types: Seq<char>) -> Option<
    (Seq<char>, Seq<(Seq<char>, Seq<char>)>),
> {
    if segments_of(dict, entry.blocks, types).len() == 0 {
        None
    } else {
        Some((entry.word, segments_of(dict, entry.blocks, types)))
    }
}

/// Decodes the bytes of one block into its types and its text.
pub fn parse_data(data: &[u8], types: &str) -> (r: Option<(String, String)>)
    ensures
        match r {
            Some((t, text)) => parsed_data(data@, types@) == Some((t@, text@)),
            None => parsed_data(data@, types@) is None,
        },
{
    if !types.is_empty() {
        Some((types.to_owned(), buf_to_string(data)))
    } else if data.len() < 2 {
        None
    } else {
        let mut kind: Vec<char> = Vec::new();
        kind.push(data[0] as char);
        proof {
            assert(kind@ =~= seq![data@[0] as char]);
        }
        let text = buf_to_string(&data[1..data.len()]);
        Some((string_from_chars(&kind), text))
    }
}

impl Dict {
    /// The store, as a value.
    pub closed spec fn view(&self) -> DictView {
        match self.inner {
            DictInner::Plain(data) => DictView::Plain(data@),
            DictInner::DictZip(dz) => DictView::Zipped(dz@),
        }
    }

    /// The store is sound: a dictzip reader in it is.
    pub closed spec fn wf(&self) -> bool {
        match self.inner {
            DictInner::Plain(_) => true,
            DictInner::DictZip(dz) => dz.wf(),
        }
    }

    /// Takes the contents of a `.dict` file, or of a `.dict.dz` file where
    /// `bz` is set; the header of the latter is read at once.
    pub fn new(data: Vec<u8>, bz: bool) -> (r: Result<Dict>)
        ensures
            match r {
                Ok(dict) => dict.wf() && if bz {
                    dict@ is Zipped && parse_dictzip(data@) == Ok::<_, Error>(dict@->Zipped_0)
                } else {
                    dict@ == DictView::Plain(data@)
                },
                Err(e) => bz && parse_dictzip(data@) == Err::<DictZipView, _>(e),
            },
    {
        if bz {
            match DictZip::new(data) {
                Ok(dz) => Ok(Dict { inner: DictInner::DictZip(dz) }),
                Err(e) => Err(e),
            }
        } else {
            Ok(Dict { inner: DictInner::Plain(data) })
        }
    }

    /// The bytes of one block, or `None` where the store does not hold
    /// them.
    pub fn get_block(&mut self, block: &IdxEntryBlock) -> (r: Option<Vec<u8>>)
        requires
            old(self).wf(),
        ensures
            final(self).wf(),
            final(self)@ == old(self)@,
            match r {
                Some(bytes) => old(self)@.range(block.offset as int, block.size as int) == Some(
                    bytes@,
                ),
                None => old(self)@.range(block.offset as int, block.size as int) is None,
            },
    {
        let limit: u64 = usize::MAX as u64;
        match &mut self.inner {
            DictInner::Plain(data) => {
                let len: usize = data.len();
                if block.offset > limit || block.size > limit {
                    return None;
                }
                let offset: usize = block.offset as usize;
                let size: usize = block.size as usize;
                if offset > len || size > len - offset {
                    None
                } else {
                    Some(copy_range(data.as_slice(), offset, offset + size))
                }
            },
            DictInner::DictZip(dz) => {
                if block.offset > limit || block.size > limit {
                    return None;
                }
                dz.get_range(block.offset as usize, block.size as usize)
            },
        }
    }

    /// The definition of an entry: the segments of its blocks in order,
    /// blocks that cannot be read or decoded passed over. `None` where no
    /// block gives a segment.
    pub fn get_definition(&mut self, idx: &IdxEntry, ifo: &Ifo) -> (r: Option<WordDefinition>)
        requires
            old(self).wf(),
        ensures
            final(self).wf(),
            final(self)@ == old(self)@,
            match r {
                Some(definition) => definition_of(old(self)@, idx@, ifo.sametypesequence@) == Some(
                    definition@,
                ),
                None => definition_of(old(self)@, idx@, ifo.sametypesequence@) is None,
            },
    {
        let mut segments: Vec<WordDefinitionSegment> = Vec::new();
        let mut n: usize = 0;
        proof {
            assert(idx.blocks@.take(0) =~= Seq::empty());
            assert(segments_view(segments@) =~= Seq::empty());
        }
        while n < idx.blocks.len()
            invariant
                n <= idx.blocks@.len(),
                self.wf(),
                self@ == old(self)@,
                segments_view(segments@) == segments_of(
                    self@,
                    idx.blocks@.take(n as int),
                    ifo.sametypesequence@,
                ),
            decreases idx.blocks@.len() - n,
        {
            let block = &idx.blocks[n];
            proof {
                assert(idx.blocks@.take(n + 1).drop_last() =~= idx.blocks@.take(n as int));
                assert(idx.blocks@.take(n + 1).last() == *block);
            }
            let ghost before = segments_view(segments@);
            let parsed = match self.get_block(block) {
                Some(bytes) => parse_data(bytes.as_slice(), ifo.sametypesequence.as_str()),
                None => None,
            };
            if let Some((types, text)) = parsed {
                segments.push(WordDefinitionSegment { types, text });
                proof {
                    assert(segments_view(segments@) =~= before.push((types@, text@)));
                }
            }
            n = n + 1;
        }
        proof {
            assert(idx.blocks@.take(n as int) =~= idx.blocks@);
        }
        if segments.len() == 0 {
            None
        } else {
            Some(WordDefinition { word: idx.word.clone(), segments })
        }
    }
}

/// A block whose bytes the store gives lies within the store's data: one
/// that passes the end gives nothing.
pub proof fn block_read_lies_in_store(dict: DictView, block: IdxEntryBlock)
    requires
        block.size > 0,
        dict matches DictView::Zipped(dz) ==> dz.regular(),
    ensures
        dict.range(block.offset as int, block.size as int) is Some ==> block.offset + block.size
            <= dict.len(),
{
    match dict {
        DictView::Plain(_) => {},
        DictView::Zipped(dz) => {
            if block.offset + block.size > dict.len() {
                range_past_end_fails(dz, block.offset as int, block.size as int);
            }
        },
    }
}

/// A plain store and a dictzipped one give the same definitions, where the
/// dictzip file is regular and holds the bytes of the plain store: for
/// every entry whose blocks are not empty.
pub proof fn plain_and_dictzip_agree(
    v: DictZipView,
    plain: Seq<u8>,
    blocks: Seq<IdxEntryBlock>,
    word: Seq<char>,
    types: Seq<char>,
)
    requires
        v.regular(),
        v.full_text() == Some(plain),
        plain.len() <= usize::MAX,
        forall|i: int| 0 <= i < blocks.len() ==> (#[trigger] blocks[i]).size > 0,
    ensures
        segments_of(DictView::Plain(plain), blocks, types) == segments_of(
            DictView::Zipped(v),
            blocks,
            types,
        ),
        definition_of(DictView::Plain(plain), EntryView { word, blocks }, types) == definition_of(
            DictView::Zipped(v),
            EntryView { word, blocks },
            types,
        ),
    decreases blocks.len(),
{
    if blocks.len() > 0 {
        let block = blocks.last();
        let front = blocks.drop_last();
        assert forall|i: int| 0 <= i < front.len() implies (#[trigger] front[i]).size > 0 by {
            assert(blocks[i].size > 0);
        }
        plain_and_dictzip_agree(v, plain, front, word, types);
        if block.offset + block.size <= plain.len() {
            range_is_slice_of_full_text(v, block.offset as int, block.size as int);
        } else {
            range_past_end_fails(v, block.offset as int, block.size as int);
        }
    }
}

} // verus!
