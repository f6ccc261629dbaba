//! The failures that opening a dictionary or looking a word up can report.
use vstd::prelude::*;
use vstd::string::StringExecFns;

verus! {

/// What can go wrong with a dictionary.
#[derive(Debug)]
pub enum Error {
    /// The `.ifo` file could not be opened; the message is the system's.
    FailedOpenIfo(String),
    /// The path of the dictionary cannot be used.
    InvalidDictPath,
    /// A required dictionary file of this kind is absent.
    NoFileFound(&'static str),
    /// A dictionary file of this kind could not be opened or read.
    FailedOpenFile(&'static str, String),
    /// The `.ifo` file declares a version other than 2.4.2 and 3.0.0.
    InvalidVersion(String),
    /// A numeric field of the `.ifo` file is not a number.
    InvalidIfoValue(&'static str),
    /// An index record ends before this number is complete.
    InvalidIdxElement(&'static str),
    /// No block of this headword could be decoded while filling a cache.
    InvalidIdxBlock(String),
    /// The synonym record of this alias ends before its index is complete.
    InvalidSynIndex(String),
    /// The definition store holds what cannot be read as text.
    InvalidDictContent,
    /// The dictionary data ends too early or cannot be inflated.
    InvalidDict,
    /// The gzip header or its random-access field is malformed.
    FailedParseDictHeader(&'static str),
    /// Reading the header failed; the message is the system's.
    FailedReadHeader(String),
    /// The dictionary has no resource of this name.
    NoResourceFound(String),
    /// The resource of this name could not be read; the cause follows.
    FailedLoadResource(String, String),
    /// The user has no cache directory.
    NoCacheDir,
    /// The cache could not be opened or used; the cause is the store's.
    FailedOpenCache(String),
    /// The cache is still being filled; the lookup may be tried again.
    CacheInitiating,
    /// The cache's metadata is malformed; remove the file and build it again.
    InvalidDictCache(String),
}

pub type Result<T> = std::result::Result<T, Error>;

/// `head` followed by `tail`.
fn joined(head: &str, tail: &str) -> (s: String)
    ensures
        s@ == head@ + tail@,
{
    let mut s = String::from_str(head);
    s.append(tail);
    s
}

impl Error {
    /// The text of the message that `message` returns.
    pub open spec fn spec_message(&self) -> Seq<char> {
        match self {
            Error::FailedOpenIfo(_) => "Failed to open ifo file"@,
            Error::InvalidDictPath => "Dict path is not invalid"@,
            Error::NoFileFound(kind) => "No "@ + kind@ + " file found"@,
            Error::FailedOpenFile(kind, _) => "Failed open "@ + kind@ + " file"@,
            Error::InvalidVersion(_) => "Invalid version"@,
            Error::InvalidIfoValue(field) => "Invalid value "@ + field@ + " in ifo"@,
            Error::InvalidIdxElement(field) => "Invalid idx element: "@ + field@,
            Error::InvalidIdxBlock(word) => "Invalid idx block: "@ + word@,
            Error::InvalidSynIndex(word) => "Invalid syn index for "@ + word@,
            Error::InvalidDictContent => "Invalid dict content"@,
            Error::InvalidDict => "Invalid dict file"@,
            Error::FailedParseDictHeader(reason) => "Invalid dict field: "@ + reason@,
            Error::FailedReadHeader(cause) => "Error when reading: "@ + cause@,
            Error::NoResourceFound(href) => "No "@ + href@ + " resource found"@,
            Error::FailedLoadResource(href, cause) => "Load resource "@ + href@ + " failed: "@
                + cause@,
            Error::NoCacheDir => "Failed get user cache folder"@,
            Error::FailedOpenCache(cause) => "Failed open cache: "@ + cause@,
            Error::CacheInitiating => "Initiating dict cache"@,
            Error::InvalidDictCache(path) => "Invalid dictionary cache: "@ + path@
                + ", remove and build it again"@,
        }
    }

    /// The message that describes this failure to a reader.
    pub fn message(&self) -> (s: String)
        ensures
            s@ == self.spec_message(),
    {
        match self {
            Error::FailedOpenIfo(_) => String::from_str("Failed to open ifo file"),
            Error::InvalidDictPath => String::from_str("Dict path is not invalid"),
            Error::NoFileFound(kind) => joined("No ", kind).concat(" file found"),
            Error::FailedOpenFile(kind, _) => joined("Failed open ", kind).concat(" file"),
            Error::InvalidVersion(_) => String::from_str("Invalid version"),
            Error::InvalidIfoValue(field) => joined("Invalid value ", field).concat(" in ifo"),
            Error::InvalidIdxElement(field) => joined("Invalid idx element: ", field),
            Error::InvalidIdxBlock(word) => joined("Invalid idx block: ", word.as_str()),
            Error::InvalidSynIndex(word) => joined("Invalid syn index for ", word.as_str()),
            Error::InvalidDictContent => String::from_str("Invalid dict content"),
            Error::InvalidDict => String::from_str("Invalid dict file"),
            Error::FailedParseDictHeader(reason) => joined("Invalid dict field: ", reason),
            Error::FailedReadHeader(cause) => joined("Error when reading: ", cause.as_str()),
            Error::NoResourceFound(href) => joined("No ", href.as_str()).concat(" resource found"),
            Error::FailedLoadResource(href, cause) => joined("Load resource ", href.as_str())
                .concat(" failed: ").concat(cause.as_str()),
            Error::NoCacheDir => String::from_str("Failed get user cache folder"),
            Error::FailedOpenCache(cause) => joined("Failed open cache: ", cause.as_str()),
            Error::CacheInitiating => String::from_str("Initiating dict cache"),
            Error::InvalidDictCache(path) => joined("Invalid dictionary cache: ", path.as_str())
                .concat(", remove and build it again"),
        }
    }
}

} // verus!
