//! The error types of the readers and of the builders.

use vstd::prelude::*;

verus! {

/// Why a ranged read failed.
#[derive(Debug)]
pub enum FetchError {
    /// The object does not exist.
    NotFound(String),
    /// The transport failed; the text says how.
    Transport(String),
}

impl FetchError {
    /// Whether the read failed because the object does not exist.
    pub fn is_not_found(&self) -> (absent: bool)
        ensures
            absent == (self is NotFound),
    {
        matches!(self, FetchError::NotFound(_))
    }
}

/// Why an index, a manifest or a query was refused.
#[derive(Debug)]
pub enum IndexError {
    /// A ranged read failed.
    Fetch(FetchError),
    /// The file does not start with the expected magic; holds what was found.
    BadMagic([u8; 4]),
    /// The format version is not one this crate reads.
    BadVersion(u16),
    /// The bytes break the format.
    Malformed(&'static str),
    /// The operation is not offered for this kind of index.
    Unsupported(&'static str),
    /// The query does not fit the index.
    BadQuery(&'static str),
}

/// Why a builder refused its input.
#[derive(Debug)]
pub enum BuildError {
    /// More splits than a 32-bit count can hold.
    SplitCountTooLarge,
    /// The base count exceeds the split count.
    BaseCountTooLarge {
        /// The base count that was asked for.
        base_count: u32,
        /// How many splits there are.
        split_count: u32,
    },
    /// A name's UTF-8 length exceeds the 16-bit limit.
    NameTooLong,
    /// The string blob exceeds the 32-bit limit.
    StringBlobTooLarge,
    /// A split's summary exceeds the 32-bit limit.
    SummaryTooLarge,
    /// A compaction input is not a split of the manifest; holds its name.
    NotInManifest(String),
    /// A compaction input is a base split, which needs a full rebuild.
    BaseSplit,
    /// A split's summary is malformed.
    BadSummary,
    /// A compaction input is not a trigram index.
    NotAnIndex,
    /// A compaction input's dictionary is cut off.
    TruncatedDictionary,
    /// A compaction input's posting lies outside the file.
    PostingOutOfRange,
    /// A posting cannot be read.
    BadPosting,
    /// A term's head posting exceeds the 24-bit size limit; holds its size.
    HeadTooLarge(usize),
    /// The postings region exceeds the 40-bit offset limit.
    RegionTooLarge,
    /// A dictionary block exceeds the 24-bit length limit.
    DictBlockTooLarge,
    /// The dictionary exceeds the 40-bit offset limit.
    DictTooLarge,
    /// Terms did not arrive in ascending byte order.
    TermOrder,
    /// More terms than a 32-bit count can hold.
    TermCountTooLarge,
    /// A single document's postings exceed the byte cap of its split.
    DocTooLarge {
        /// The split's data-file name.
        split: String,
        /// The split's size.
        size: u64,
        /// The byte cap.
        cap: u64,
    },
    /// A split's header cannot be read; holds the split's name.
    BadSplitHeader(String),
    /// A split's boot region is longer than the split.
    BootTooLong {
        /// The split's data-file name.
        split: String,
        /// The boot region's length.
        boot: u64,
        /// The split's length.
        size: u64,
    },
    /// Stemming or stop-word removal was asked for without a language.
    NoLanguage,
    /// The encoder of a split or of a sidecar refused its input; holds its words.
    Encoder(String),
}

} // verus!
