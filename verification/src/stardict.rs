//! A dictionary read straight from its files: the index and the definition
//! store, and the lookup that joins them.
use vstd::prelude::*;
use crate::dict::{definition_of, Dict, DictView};
use crate::dictzip::{parse_dictzip, DictZipView};
use crate::error::{Error, Result};
use crate::idx::{
    entries_view, gunzipped, idx_outcome, idx_parses, lookup_entries, lookup_has_no_headword_twice,
    wide_numbers, EntryView, Idx, IdxEntry, IdxView,
};
use crate::ifo::Ifo;
use crate::text::lowercase;
use crate::WordDefinition;

verus! {

/// A dictionary without a cache.
pub struct StarDictStd {
    pub ifo: Ifo,
    pub idx: Idx,
    pub dict: Dict,
}

/// A definition as a value: the headword and its segments.
pub type DefinitionView = (Seq<char>, Seq<(Seq<char>, Seq<char>)>);

/// The definitions as values, in order.
pub open spec fn definitions_view(definitions: Seq<WordDefinition>) -> Seq<DefinitionView> {
    Seq::new(definitions.len(), |i: int| definitions[i]@)
}

/// The definitions of the entries, in their order; an entry without a
/// definition is passed over.
pub open spec fn definitions_of(dict: DictView, entries: Seq<EntryView>, types: Seq<char>) -> Seq<
    DefinitionView,
>
    decreases entries.len(),
{
    if entries.len() == 0 {
        Seq::empty()
    } else {
        match definition_of(dict, entries.last(), types) {
            Some(definition) => definitions_of(dict, entries.drop_last(), types).push(definition),
            None => definitions_of(dict, entries.drop_last(), types),
        }
    }
}

/// What a lookup of `word` yields: the definitions of the word's entry and
/// of its synonyms' entries, in that order, or `None` where there is no
/// definition at all.
pub open spec fn lookup_result(idx: IdxView, dict: DictView, types: Seq<char>, word: Seq<char>)
    -> Option<Seq<DefinitionView>> {
    let definitions = definitions_of(dict, lookup_entries(idx, lowercase(word)), types);
    if definitions.len() == 0 {
        None
    } else {
        Some(definitions)
    }
}

impl StarDictStd {
    /// The dictionary is sound: its index and its store are.
    pub open spec fn wf(&self) -> bool {
        self.idx.wf() && self.dict.wf()
    }

    /// Opens a dictionary from the contents of its files: the index,
    /// gzipped where `idx_gz` is set, the synonym file where there is one,
    /// and the definition store, dictzipped where `dict_bz` is set. The
    /// index is read first.
    pub fn new(
        ifo: Ifo,
        idx: &[u8],
        idx_gz: bool,
        syn: Option<&[u8]>,
        dict: Vec<u8>,
        dict_bz: bool,
    ) -> (r: Result<StarDictStd>)
        ensures
            match r {
                Ok(sd) => {
                    &&& sd.wf()
                    &&& sd.ifo == ifo
                    &&& idx_outcome(
                        if idx_gz {
                            gunzipped(idx@)
                        } else {
                            idx@
                        },
                        wide_numbers(ifo.version, ifo.idxoffsetbits),
                        syn,
                        Ok(sd.idx),
                    )
                    &&& if dict_bz {
                        sd.dict@ is Zipped && parse_dictzip(dict@) == Ok::<_, Error>(
                            sd.dict@->Zipped_0,
                        )
                    } else {
                        sd.dict@ == DictView::Plain(dict@)
                    }
                },
                Err(e) => if idx_parses(
                    if idx_gz {
                        gunzipped(idx@)
                    } else {
                        idx@
                    },
                    wide_numbers(ifo.version, ifo.idxoffsetbits),
                    syn,
                ) {
                    dict_bz && parse_dictzip(dict@) == Err::<DictZipView, _>(e)
                } else {
                    idx_outcome(
                        if idx_gz {
                            gunzipped(idx@)
                        } else {
                            idx@
                        },
                        wide_numbers(ifo.version, ifo.idxoffsetbits),
                        syn,
                        Err(e),
                    )
                },
            },
    {
        let index = match Idx::new(idx, &ifo, idx_gz, syn) {
            Ok(index) => index,
            Err(e) => {
                return Err(e);
            },
        };
        let store = match Dict::new(dict, dict_bz) {
            Ok(store) => store,
            Err(e) => {
                return Err(e);
            },
        };
        Ok(StarDictStd { ifo, idx: index, dict: store })
    }

    /// Looks a word up, whatever its casing: the definition of the word's
    /// entry first, then those of its synonyms, no headword twice.
    pub fn lookup(&mut self, word: &str) -> (r: Result<Option<Vec<WordDefinition>>>)
        requires
            old(self).wf(),
        ensures
            final(self).wf(),
            final(self).idx == old(self).idx,
            final(self).dict@ == old(self).dict@,
            final(self).ifo == old(self).ifo,
            r matches Ok(found) && match found {
                Some(definitions) => lookup_result(
                    old(self).idx@,
                    old(self).dict@,
                    old(self).ifo.sametypesequence@,
                    word@,
                ) == Some(definitions_view(definitions@)),
                None => lookup_result(
                    old(self).idx@,
                    old(self).dict@,
                    old(self).ifo.sametypesequence@,
                    word@,
                ) is None,
            },
    {
        let entries = match self.idx.lookup_blocks(word) {
            Some(entries) => entries,
            None => {
                return Ok(None);
            },
        };
        let definitions = collect_definitions(&mut self.dict, &entries, &self.ifo);
        if definitions.len() == 0 {
            Ok(None)
        } else {
            Ok(Some(definitions))
        }
    }
}

/// The definitions of the entries, in their order, without the entries
/// that have none.
pub fn collect_definitions(dict: &mut Dict, entries: &Vec<&IdxEntry>, ifo: &Ifo) -> (definitions:
    Vec<WordDefinition>)
    requires
        old(dict).wf(),
    ensures
        final(dict).wf(),
        final(dict)@ == old(dict)@,
        definitions_view(definitions@) == definitions_of(
            old(dict)@,
            entries_view(entries@),
            ifo.sametypesequence@,
        ),
{
    let mut definitions: Vec<WordDefinition> = Vec::new();
    let mut n: usize = 0;
    proof {
        assert(entries_view(entries@).take(0) =~= Seq::empty());
        assert(definitions_view(definitions@) =~= Seq::empty());
    }
    while n < entries.len()
        invariant
            n <= entries@.len(),
            dict.wf(),
            dict@ == old(dict)@,
            definitions_view(definitions@) == definitions_of(
                dict@,
                entries_view(entries@).take(n as int),
                ifo.sametypesequence@,
            ),
        decreases entries@.len() - n,
    {
        proof {
            let upto = entries_view(entries@).take(n + 1);
            assert(upto.drop_last() =~= entries_view(entries@).take(n as int));
            assert(upto.last() == entries@[n as int]@);
        }
        let ghost before = definitions_view(definitions@);
        if let Some(definition) = dict.get_definition(entries[n], ifo) {
            definitions.push(definition);
            proof {
                assert(definitions_view(definitions@) =~= before.push(definition@));
            }
        }
        n = n + 1;
    }
    proof {
        assert(entries_view(entries@).take(n as int) =~= entries_view(entries@));
    }
    definitions
}

/// Every definition belongs to one of the entries, and entries with
/// different headwords give definitions with different headwords.
pub proof fn definitions_keep_headwords(dict: DictView, entries: Seq<EntryView>, types: Seq<char>)
    requires
        forall|j: int, k: int|
            0 <= j < k < entries.len() ==> (#[trigger] entries[j]).word != (
            #[trigger] entries[k]).word,
    ensures
        forall|i: int|
            0 <= i < definitions_of(dict, entries, types).len() ==> exists|j: int|
                0 <= j < entries.len() && (#[trigger] entries[j]).word == (
                #[trigger] definitions_of(dict, entries, types)[i]).0,
        forall|i: int, k: int|
            0 <= i < k < definitions_of(dict, entries, types).len() ==> (#[trigger] definitions_of(
                dict,
                entries,
                types,
            )[i]).0 != (#[trigger] definitions_of(dict, entries, types)[k]).0,
    decreases entries.len(),
{
    let out = definitions_of(dict, entries, types);
    if entries.len() > 0 {
        let front = entries.drop_last();
        let prev = definitions_of(dict, front, types);
        assert forall|j: int, k: int| 0 <= j < k < front.len() implies (#[trigger] front[j]).word != (
        #[trigger] front[k]).word by {
            assert(entries[j].word != entries[k].word);
        }
        definitions_keep_headwords(dict, front, types);
        let last = entries.len() - 1;
        assert forall|i: int| 0 <= i < out.len() implies exists|j: int|
            0 <= j < entries.len() && (#[trigger] entries[j]).word == (#[trigger] out[i]).0 by {
            if i < prev.len() {
                assert(out[i] == prev[i]);
                let j = choose|j: int|
                    0 <= j < front.len() && (#[trigger] front[j]).word == prev[i].0;
                assert(entries[j].word == out[i].0);
            } else {
                assert(entries[last].word == out[i].0);
            }
        }
        assert forall|i: int, k: int| 0 <= i < k < out.len() implies (#[trigger] out[i]).0 != (
        #[trigger] out[k]).0 by {
            if k < prev.len() {
                assert(out[i] == prev[i] && out[k] == prev[k]);
            } else {
                assert(out[i] == prev[i]);
                let j = choose|j: int|
                    0 <= j < front.len() && (#[trigger] front[j]).word == prev[i].0;
                assert(entries[j].word != entries[last].word);
            }
        }
    }
}

/// No headword appears twice in what one lookup yields.
pub proof fn lookup_result_has_no_headword_twice(
    idx: IdxView,
    dict: DictView,
    types: Seq<char>,
    word: Seq<char>,
)
    ensures
        lookup_result(idx, dict, types, word) matches Some(definitions) ==> forall|i: int, k: int|
            0 <= i < k < definitions.len() ==> (#[trigger] definitions[i]).0 != (
            #[trigger] definitions[k]).0,
{
    lookup_has_no_headword_twice(idx, lowercase(word));
    definitions_keep_headwords(dict, lookup_entries(idx, lowercase(word)), types);
}

} // verus!
