//! Read-only lookup of word definitions in StarDict dictionaries.
//!
//! The library works on the contents of the dictionary files, handed in as
//! bytes: the `.ifo` metadata, the `.idx` index with its optional `.syn`
//! synonym file, and the `.dict` store, plain or dictzipped.
use vstd::prelude::*;

pub mod bytes;
pub mod cache;
pub mod dict;
pub mod dictzip;
pub mod error;
pub mod idx;
pub mod ifo;
pub mod init;
pub mod keys;
pub mod paths;
pub mod stardict;
pub mod text;

pub use crate::ifo::Ifo;
pub use crate::stardict::StarDictStd;

verus! {

/// One typed piece of a definition: the type codes and the text they tag.
#[derive(Debug)]
pub struct WordDefinitionSegment {
    pub types: String,
    pub text: String,
}

/// The definition of one headword, the headword as the index spells it.
#[derive(Debug)]
pub struct WordDefinition {
    pub word: String,
    pub segments: Vec<WordDefinitionSegment>,
}

impl WordDefinitionSegment {
    /// The segment as a pair of character sequences: types, then text.
    pub open spec fn view(&self) -> (Seq<char>, Seq<char>) {
        (self.types@, self.text@)
    }
}

/// The views of a list of segments, in order.
pub open spec fn segments_view(segments: Seq<WordDefinitionSegment>) -> Seq<(Seq<char>, Seq<char>)> {
    Seq::new(segments.len(), |i: int| segments[i]@)
}

impl WordDefinition {
    /// The definition as its headword and the views of its segments.
    pub open spec fn view(&self) -> (Seq<char>, Seq<(Seq<char>, Seq<char>)>) {
        (self.word@, segments_view(self.segments@))
    }
}

} // verus!
