//! The split-set manifest reader: names many immutable index splits and carries the
//! cross-split **pruning metadata** that one big index cannot.
//!
//! A split set is a manifest over splits, each an index of its own over a doc subset, in its
//! own data file. The manifest adds only what is needed to query across them: the rank
//! **tier**, the **doc-id range**, the byte size, and a supersession **epoch** per split, plus
//! the **base/delta** boundary and per-split term-Bloom, facet-presence and tombstone
//! summaries.
//!
//! Layout: `[header 64 B][split entries, 56 B each][string blob][summary blob]`; all integers
//! little-endian.

use crate::bitmap;
use crate::bloom;
use crate::bytes;
use crate::bytes::{read_u16, read_u32, read_u64};
use crate::error::IndexError;
use crate::text;
use crate::tlv;
use roaring::RoaringBitmap;
use vstd::prelude::*;
use vstd::utf8::{decode_utf8, valid_utf8};

verus! {

/// Header size in bytes.
pub const HEADER_SIZE: usize = 64;

/// Split-entry size in bytes.
pub const ENTRY_SIZE: usize = 56;

/// Format version written into / accepted from the header.
pub const VERSION: u16 = 1;

/// Header flag bit: per-split term Bloom-filter summaries are present in the summary blob.
pub const FLAG_BLOOM: u16 = 1;

/// Header flag bit: per-split facet-presence summaries are present.
pub const FLAG_FACET: u16 = 2;

/// Header flag bit: per-split time min/max summaries are present.
pub const FLAG_TIME: u16 = 4;

/// Header flag bit: per-split tombstone postings are present (delta-over-base supersession).
pub const FLAG_TOMBSTONES: u16 = 8;

/// Header flag bit: the split set is **case-sensitive**: n-gram keys and facet keys were not
/// lowercased, so a query derives keys without folding.
pub const FLAG_CASE_SENSITIVE: u16 = 16;

/// Per-split flag bit: this split carries a tombstone posting in its summary region.
pub const SPLIT_FLAG_HAS_TOMBSTONE: u16 = 1;

/// Per-split flag bit: the split stores **absolute global** doc IDs (`global = local`) rather
/// than local 0-based IDs offset by `doc_id_lo`. Set by compaction when surviving IDs are
/// gappy and must stay stable; `doc_id_lo`/`doc_id_hi` then bound the global range present.
pub const SPLIT_FLAG_ABSOLUTE_IDS: u16 = 2;

/// Summary record tag for a term Bloom filter (skip a split whose vocabulary can't contain a
/// query n-gram).
pub const SUMMARY_TAG_BLOOM: u8 = 1;

/// Summary record tag for a facet-presence list (`[count u32 LE][key u64 LE]*`, sorted): the
/// keys of the categories present in the split.
pub const SUMMARY_TAG_FACET: u8 = 2;

/// Summary record tag for a split's **facet digest**: the top categories per field.
pub const SUMMARY_TAG_FACET_DIGEST: u8 = 3;

/// Summary record tag for a tombstone posting (a roaring bitmap of superseded **global** doc
/// IDs).
pub const SUMMARY_TAG_TOMBSTONE: u8 = 4;

/// Sort-column descriptor flag bit: rank is descending (higher value = better rank).
pub const SORTCOL_FLAG_DESCENDING: u8 = 1;

/// Whether the flag bit with the value `bit`, a power of two, is set in `flags`.
pub open spec fn has_flag(flags: int, bit: int) -> bool {
    flags / bit % 2 == 1
}

/// The format's magic.
pub open spec fn magic() -> Seq<u8> {
    seq![0x52u8, 0x52u8, 0x53u8, 0x53u8]
}

/// How a split set's per-split data files are encoded (manifest header byte 9). The manifest
/// layout is identical across kinds; only how the reader opens each split changes.
#[derive(Debug, Clone, Copy, PartialEq, Eq, Structural)]
pub enum BodyKind {
    /// Trigram indexes: the default.
    Trigram,
    /// Term-level indexes.
    Term,
}

impl BodyKind {
    /// The on-disk body-kind byte (`0` = trigram, `1` = term).
    pub open spec fn code(self) -> u8 {
        match self {
            BodyKind::Trigram => 0,
            BodyKind::Term => 1,
        }
    }

    /// The kind with that byte; an unknown one is a malformed manifest.
    pub open spec fn of_code(code: u8) -> Result<BodyKind, IndexError> {
        if code == 0 {
            Ok(BodyKind::Trigram)
        } else if code == 1 {
            Ok(BodyKind::Term)
        } else {
            Err(IndexError::Malformed("RRSS unknown body-kind code"))
        }
    }
}

impl From<BodyKind> for u8 {
    fn from(k: BodyKind) -> (code: u8) {
        match k {
            BodyKind::Trigram => 0,
            BodyKind::Term => 1,
        }
    }
}

impl vstd::std_specs::convert::FromSpecImpl<BodyKind> for u8 {
    open spec fn obeys_from_spec() -> bool {
        true
    }

    open spec fn from_spec(k: BodyKind) -> u8 {
        k.code()
    }
}

impl TryFrom<u8> for BodyKind {
    type Error = IndexError;

    fn try_from(code: u8) -> (kind: Result<BodyKind, IndexError>) {
        match code {
            0 => Ok(BodyKind::Trigram),
            1 => Ok(BodyKind::Term),
            _ => Err(IndexError::Malformed("RRSS unknown body-kind code")),
        }
    }
}

impl vstd::std_specs::convert::TryFromSpecImpl<u8> for BodyKind {
    open spec fn obeys_try_from_spec() -> bool {
        true
    }

    open spec fn try_from_spec(code: u8) -> Result<BodyKind, IndexError> {
        BodyKind::of_code(code)
    }
}

/// How the base splits were assembled, recorded in the header so the reader adapts.
#[derive(Debug, Clone, Copy, PartialEq, Eq, Structural)]
pub enum Policy {
    /// Docs assigned to splits by rank; a split's rank range is its `[doc_id_lo, doc_id_hi]`
    /// (ascending doc id == descending popularity), so a top-K query reads only the top tier.
    Tiered,
    /// Docs assigned by ingest order / stable id; rank is a query-time fast field named by the
    /// [`SortColDescriptor`]. Drift-immune, but loses the top-K prune.
    StableKey,
}

impl Policy {
    /// The on-disk policy code (`0` = tiered, `1` = stable-key).
    pub open spec fn code(self) -> u8 {
        match self {
            Policy::Tiered => 0,
            Policy::StableKey => 1,
        }
    }

    /// The policy with that code; an unknown one is a malformed manifest.
    pub open spec fn of_code(code: u8) -> Result<Policy, IndexError> {
        if code == 0 {
            Ok(Policy::Tiered)
        } else if code == 1 {
            Ok(Policy::StableKey)
        } else {
            Err(IndexError::Malformed("RRSS unknown policy code"))
        }
    }

    /// The on-disk `u8` policy code (`0` = tiered, `1` = stable-key).
    pub fn to_u8(self) -> (code: u8)
        ensures
            code == self.code(),
    {
        u8::from(self)
    }
}

impl From<Policy> for u8 {
    fn from(p: Policy) -> (code: u8) {
        match p {
            Policy::Tiered => 0,
            Policy::StableKey => 1,
        }
    }
}

impl vstd::std_specs::convert::FromSpecImpl<Policy> for u8 {
    open spec fn obeys_from_spec() -> bool {
        true
    }

    open spec fn from_spec(p: Policy) -> u8 {
        p.code()
    }
}

impl TryFrom<u8> for Policy {
    type Error = IndexError;

    fn try_from(code: u8) -> (policy: Result<Policy, IndexError>) {
        match code {
            0 => Ok(Policy::Tiered),
            1 => Ok(Policy::StableKey),
            _ => Err(IndexError::Malformed("RRSS unknown policy code")),
        }
    }
}

impl vstd::std_specs::convert::TryFromSpecImpl<u8> for Policy {
    open spec fn obeys_try_from_spec() -> bool {
        true
    }

    open spec fn try_from_spec(code: u8) -> Result<Policy, IndexError> {
        Policy::of_code(code)
    }
}

/// A policy and a body kind come back from the byte that stands for them, and every other
/// byte is refused.
pub proof fn law_codes_roundtrip(p: Policy, k: BodyKind, b: u8)
    ensures
        Policy::of_code(p.code()) == Ok::<Policy, IndexError>(p),
        BodyKind::of_code(k.code()) == Ok::<BodyKind, IndexError>(k),
        Policy::of_code(b) matches Ok(q) ==> q.code() == b,
        BodyKind::of_code(b) matches Ok(q) ==> q.code() == b,
{
}

/// Whether the flag bit `bit` is set in `flags`.
pub fn flag_set(flags: u16, bit: u16) -> (set: bool)
    requires
        bit > 0,
    ensures
        set == has_flag(flags as int, bit as int),
{
    flags / bit % 2 == 1
}

/// The stable-key rank source: a sort-column store (by name) and the column within it that
/// holds the rank, plus its direction. Present only when the header named one.
#[derive(Debug)]
pub struct SortColDescriptor {
    /// The data-file name holding the rank column.
    pub name: String,
    /// Column index within that store.
    pub column: u16,
    /// Whether a higher value ranks better (descending sort).
    pub descending: bool,
}

/// What a manifest says of its rank source.
#[verifier::ext_equal]
pub struct SortColView {
    /// The data-file name holding the rank column.
    pub name: Seq<char>,
    /// Column index within that store.
    pub column: u16,
    /// Whether a higher value ranks better.
    pub descending: bool,
}

impl View for SortColDescriptor {
    type V = SortColView;

    open spec fn view(&self) -> SortColView {
        SortColView { name: self.name@, column: self.column, descending: self.descending }
    }
}

/// What a manifest says of one split.
#[verifier::ext_equal]
pub struct SplitView {
    /// The split's data-file name.
    pub data_file: Seq<char>,
    /// Rank tier.
    pub tier: u16,
    /// Number of docs in the split.
    pub doc_count: u32,
    /// Minimum doc id present.
    pub doc_id_lo: u32,
    /// Maximum doc id present.
    pub doc_id_hi: u32,
    /// Per-split flags.
    pub flags: u16,
    /// The split file's size in bytes.
    pub byte_size: u64,
    /// Flush/build epoch.
    pub epoch: u64,
    /// Offset of the split's summary region within the summary blob.
    pub summary_off: u64,
    /// Length of that region; zero when there is none.
    pub summary_len: u32,
}

impl SplitView {
    /// Whether the split stores absolute global doc IDs.
    pub open spec fn absolute_ids(self) -> bool {
        has_flag(self.flags as int, SPLIT_FLAG_ABSOLUTE_IDS as int)
    }

    /// Whether the split carries a tombstone posting.
    pub open spec fn has_tombstone(self) -> bool {
        has_flag(self.flags as int, SPLIT_FLAG_HAS_TOMBSTONE as int)
    }

    /// Whether `global` is one of the split's doc IDs by its range; a split without docs has
    /// none.
    pub open spec fn contains(self, global: u32) -> bool {
        self.doc_count > 0 && self.doc_id_lo <= global <= self.doc_id_hi
    }

    /// The global ID of the split's doc `local`.
    pub open spec fn to_global(self, local: u32) -> u32 {
        if self.absolute_ids() {
            local
        } else if self.doc_id_lo + local <= u32::MAX {
            (self.doc_id_lo + local) as u32
        } else {
            u32::MAX
        }
    }

    /// The split's own ID of the doc `global`.
    pub open spec fn to_local(self, global: u32) -> u32 {
        if self.absolute_ids() {
            global
        } else if global >= self.doc_id_lo {
            (global - self.doc_id_lo) as u32
        } else {
            0
        }
    }
}

/// Mapping a doc of the split to its own ID and back changes nothing, and so does the way
/// round for every local ID whose global one lies in the split.
pub proof fn law_global_local(s: SplitView, global: u32, local: u32)
    ensures
        s.contains(global) ==> s.to_global(s.to_local(global)) == global,
        s.absolute_ids() || s.doc_id_lo + local <= u32::MAX ==> s.to_local(s.to_global(local))
            == local,
{
}

/// One split named by the manifest: the data file it lives in, its rank tier, its doc-id
/// range, byte size, supersession epoch, and (when present) the location of its summary
/// region within the manifest's summary blob.
#[derive(Debug)]
pub struct Split {
    /// The split's data-file name (or URL): where its per-query reads go.
    pub data_file: String,
    /// Rank tier (tiered policy); `0` for stable-key and for delta splits.
    pub tier: u16,
    /// Number of docs in the split.
    pub doc_count: u32,
    /// Minimum doc id present (inclusive).
    pub doc_id_lo: u32,
    /// Maximum doc id present (inclusive).
    pub doc_id_hi: u32,
    /// Per-split flags (`SPLIT_FLAG_HAS_TOMBSTONE` | …).
    pub flags: u16,
    /// The split file's size in bytes.
    pub byte_size: u64,
    /// Flush/build epoch: supersession ordering (`0` for an additions-only base).
    pub epoch: u64,
    /// Offset of this split's summary region within the summary blob (when `summary_len > 0`).
    pub summary_off: u64,
    /// Length of this split's summary region in bytes (`0` when none).
    pub summary_len: u32,
}

impl View for Split {
    type V = SplitView;

    open spec fn view(&self) -> SplitView {
        SplitView {
            data_file: self.data_file@,
            tier: self.tier,
            doc_count: self.doc_count,
            doc_id_lo: self.doc_id_lo,
            doc_id_hi: self.doc_id_hi,
            flags: self.flags,
            byte_size: self.byte_size,
            epoch: self.epoch,
            summary_off: self.summary_off,
            summary_len: self.summary_len,
        }
    }
}

impl Split {
    /// Whether this split carries a tombstone posting (a delta masking base doc IDs).
    pub fn has_tombstone(&self) -> (yes: bool)
        ensures
            yes == self@.has_tombstone(),
    {
        flag_set(self.flags, SPLIT_FLAG_HAS_TOMBSTONE)
    }

    /// Whether the split stores absolute global doc IDs (vs local IDs offset by `doc_id_lo`).
    pub fn absolute_ids(&self) -> (yes: bool)
        ensures
            yes == self@.absolute_ids(),
    {
        flag_set(self.flags, SPLIT_FLAG_ABSOLUTE_IDS)
    }

    /// Maps a split-local doc ID to the global ID space: `global = doc_id_lo + local`, or
    /// `global = local` for an [absolute-id](Self::absolute_ids) split. For the tiered policy
    /// the global ID is the rank.
    pub fn to_global(&self, local: u32) -> (global: u32)
        ensures
            global == self@.to_global(local),
    {
        if self.absolute_ids() {
            local
        } else {
            self.doc_id_lo.saturating_add(local)
        }
    }

    /// Whether `global` falls in this split's doc-id range. A zero-doc split (a deletes-only
    /// flush) holds no documents, so it contains nothing and never shadows the real split that
    /// later receives that id.
    pub fn contains(&self, global: u32) -> (yes: bool)
        ensures
            yes == self@.contains(global),
    {
        self.doc_count > 0 && global >= self.doc_id_lo && global <= self.doc_id_hi
    }

    /// Inverse of [`to_global`](Self::to_global): maps a global doc ID back to this split's
    /// local ID.
    pub fn to_local(&self, global: u32) -> (local: u32)
        ensures
            local == self@.to_local(global),
    {
        if self.absolute_ids() {
            global
        } else {
            global.saturating_sub(self.doc_id_lo)
        }
    }
}

/// What a manifest says.
#[verifier::ext_equal]
pub struct ManifestView {
    /// How the base splits were assembled.
    pub policy: Policy,
    /// How each split's data file is encoded.
    pub body_kind: BodyKind,
    /// Header flags.
    pub flags: u16,
    /// Number of rank tiers.
    pub tier_count: u16,
    /// Number of base splits.
    pub base_count: u32,
    /// The per-split byte cap.
    pub byte_cap: u64,
    /// The n-gram window.
    pub gram_size: u16,
    /// The rank source.
    pub sortcol: Option<SortColView>,
    /// The splits, in manifest order.
    pub splits: Seq<SplitView>,
    /// The summary regions of all splits.
    pub summary_blob: Seq<u8>,
}

impl ManifestView {
    /// Whether queries lowercase their keys.
    pub open spec fn case_fold(self) -> bool {
        !has_flag(self.flags as int, FLAG_CASE_SENSITIVE as int)
    }

    /// The summary bytes of a split, `None` when it has none.
    pub open spec fn summary(self, s: SplitView) -> Option<Seq<u8>> {
        if s.summary_len == 0 {
            None
        } else {
            Some(
                self.summary_blob.subrange(
                    s.summary_off as int,
                    s.summary_off as int + s.summary_len,
                ),
            )
        }
    }

    /// The base splits.
    pub open spec fn base_splits(self) -> Seq<SplitView> {
        self.splits.take(self.base_count as int)
    }

    /// The delta splits.
    pub open spec fn delta_splits(self) -> Seq<SplitView> {
        self.splits.skip(self.base_count as int)
    }

    /// Whether the summary region of `s` lies in the summary blob.
    pub open spec fn summary_in_range(self, s: SplitView) -> bool {
        s.summary_len > 0 ==> s.summary_off + s.summary_len <= self.summary_blob.len()
    }

    /// The base count is within the split count, and every split's summary region lies in the
    /// summary blob.
    pub open spec fn wf(self) -> bool {
        &&& self.base_count <= self.splits.len()
        &&& forall|i: int|
            0 <= i < self.splits.len() ==> self.summary_in_range(#[trigger] self.splits[i])
    }
}

/// The length of the body that `header` announces, or why the header is refused.
pub open spec fn body_len_of(header: Seq<u8>) -> Result<usize, IndexError> {
    let n = u32_at_size(header, 12) * ENTRY_SIZE + u32_at_size(header, 20) + u64_at_size(
        header,
        24,
    );
    if header.len() < HEADER_SIZE {
        Err(IndexError::Malformed("short RRSS header"))
    } else if header.take(4) != magic() {
        Err(IndexError::BadMagic([header[0], header[1], header[2], header[3]]))
    } else if bytes::u16_at(header, 4) != VERSION {
        Err(IndexError::BadVersion(bytes::u16_at(header, 4)))
    } else if bytes::u32_at(header, 16) > bytes::u32_at(header, 12) {
        Err(IndexError::Malformed("RRSS base count exceeds split count"))
    } else if n > usize::MAX {
        Err(IndexError::Malformed("RRSS body size overflow"))
    } else {
        Ok(n as usize)
    }
}

/// The `u32` at `o`, as a size on this machine.
pub open spec fn u32_at_size(s: Seq<u8>, o: int) -> int {
    (bytes::u32_at(s, o) as usize) as int
}

/// The `u64` at `o`, as a size on this machine.
pub open spec fn u64_at_size(s: Seq<u8>, o: int) -> int {
    (bytes::u64_at(s, o) as usize) as int
}

/// The name in the span `(off, len)` of the string blob.
pub open spec fn name_at(blob: Seq<u8>, off: int, len: int) -> Result<Seq<char>, IndexError> {
    if off + len > blob.len() {
        Err(IndexError::Malformed("RRSS name out of string blob"))
    } else if !valid_utf8(blob.subrange(off, off + len)) {
        Err(IndexError::Malformed("RRSS non-UTF-8 name"))
    } else {
        Ok(decode_utf8(blob.subrange(off, off + len)))
    }
}

/// The split that the entry at `base` of `body` describes, where the string blob is `strings`
/// and the summary blob has `summary_bytes` bytes.
pub open spec fn split_at(
    body: Seq<u8>,
    base: int,
    strings: Seq<u8>,
    summary_bytes: int,
) -> Result<SplitView, IndexError> {
    let summary_off = bytes::u64_at(body, base + 40);
    let summary_len = bytes::u32_at(body, base + 48);
    match name_at(strings, u32_at_size(body, base), bytes::u16_at(body, base + 4) as int) {
        Err(e) => Err(e),
        Ok(data_file) => if summary_len > 0 && summary_off + summary_len > u64::MAX {
            Err(IndexError::Malformed("RRSS summary range overflow"))
        } else if summary_len > 0 && summary_off + summary_len > summary_bytes {
            Err(IndexError::Malformed("RRSS summary out of summary blob"))
        } else {
            Ok(
                SplitView {
                    data_file,
                    tier: bytes::u16_at(body, base + 6),
                    doc_count: bytes::u32_at(body, base + 8),
                    doc_id_lo: bytes::u32_at(body, base + 12),
                    doc_id_hi: bytes::u32_at(body, base + 16),
                    flags: bytes::u16_at(body, base + 20),
                    byte_size: bytes::u64_at(body, base + 24),
                    epoch: bytes::u64_at(body, base + 32),
                    summary_off,
                    summary_len,
                },
            )
        },
    }
}

/// The first `n` splits of `body`, or the error of the first entry that is refused.
pub open spec fn splits_at(
    body: Seq<u8>,
    n: nat,
    strings: Seq<u8>,
    summary_bytes: int,
) -> Result<Seq<SplitView>, IndexError>
    decreases n,
{
    if n == 0 {
        Ok(Seq::empty())
    } else {
        match splits_at(body, (n - 1) as nat, strings, summary_bytes) {
            Err(e) => Err(e),
            Ok(done) => match split_at(body, (n - 1) * ENTRY_SIZE, strings, summary_bytes) {
                Err(e) => Err(e),
                Ok(s) => Ok(done.push(s)),
            },
        }
    }
}

/// The rank source that `header` names.
pub open spec fn sortcol_at(header: Seq<u8>, strings: Seq<u8>) -> Result<
    Option<SortColView>,
    IndexError,
> {
    let len = bytes::u16_at(header, 44);
    if len == 0 {
        Ok(None)
    } else {
        match name_at(strings, u32_at_size(header, 40), len as int) {
            Err(e) => Err(e),
            Ok(name) => Ok(
                Some(
                    SortColView {
                        name,
                        column: bytes::u16_at(header, 46),
                        descending: has_flag(header[48] as int, SORTCOL_FLAG_DESCENDING as int),
                    },
                ),
            ),
        }
    }
}

/// The manifest that `header` and `body` spell, or why they are refused.
pub open spec fn manifest_of(header: Seq<u8>, body: Seq<u8>) -> Result<ManifestView, IndexError> {
    let split_count = u32_at_size(header, 12);
    let str_start = split_count * ENTRY_SIZE;
    let summary_start = str_start + u32_at_size(header, 20);
    let summary_bytes = u64_at_size(header, 24);
    let strings = body.subrange(str_start, summary_start);
    match Policy::of_code(header[8]) {
        Err(e) => Err(e),
        Ok(policy) => match BodyKind::of_code(header[9]) {
            Err(e) => Err(e),
            Ok(body_kind) => if body.len() < summary_start + summary_bytes {
                Err(IndexError::Malformed("short RRSS body"))
            } else {
                match sortcol_at(header, strings) {
                    Err(e) => Err(e),
                    Ok(sortcol) => match splits_at(
                        body,
                        split_count as nat,
                        strings,
                        summary_bytes,
                    ) {
                        Err(e) => Err(e),
                        Ok(splits) => Ok(
                            ManifestView {
                                policy,
                                body_kind,
                                flags: bytes::u16_at(header, 6),
                                tier_count: bytes::u16_at(header, 10),
                                base_count: bytes::u32_at(header, 16),
                                byte_cap: bytes::u64_at(header, 32),
                                gram_size: bytes::u16_at(header, 49),
                                sortcol,
                                splits,
                                summary_blob: body.subrange(
                                    summary_start,
                                    summary_start + summary_bytes,
                                ),
                            },
                        ),
                    },
                }
            },
        },
    }
}

/// A parsed manifest. Holds the split entries, the optional stable-key sort-column descriptor,
/// and the resident summary blob in memory. The per-split objects are opened lazily by the
/// query path, not here.
#[derive(Debug)]
pub struct SplitSet {
    policy: Policy,
    flags: u16,
    tier_count: u16,
    base_count: u32,
    byte_cap: u64,
    gram_size: u16,
    body_kind: BodyKind,
    sortcol: Option<SortColDescriptor>,
    splits: Vec<Split>,
    summary_blob: Vec<u8>,
}

/// The views of `splits`.
pub open spec fn split_views(splits: Seq<Split>) -> Seq<SplitView> {
    splits.map_values(|s: Split| s@)
}

impl View for SplitSet {
    type V = ManifestView;

    closed spec fn view(&self) -> ManifestView {
        ManifestView {
            policy: self.policy,
            body_kind: self.body_kind,
            flags: self.flags,
            tier_count: self.tier_count,
            base_count: self.base_count,
            byte_cap: self.byte_cap,
            gram_size: self.gram_size,
            sortcol: match self.sortcol {
                Some(d) => Some(d@),
                None => None,
            },
            splits: split_views(self.splits@),
            summary_blob: self.summary_blob@,
        }
    }
}

/// Reads the name in the span `(off, len)` of the string blob, or errors out of bounds.
fn read_name(string_blob: &[u8], off: usize, len: usize) -> (name: Result<String, IndexError>)
    ensures
        match name {
            Ok(s) => name_at(string_blob@, off as int, len as int) == Ok::<_, IndexError>(s@),
            Err(e) => name_at(string_blob@, off as int, len as int) == Err::<Seq<char>, _>(e),
        },
{
    assert(string_blob@.len() == string_blob.len());
    let end: usize = match off.checked_add(len) {
        Some(end) => end,
        None => return Err(IndexError::Malformed("RRSS name out of string blob")),
    };
    if end > string_blob.len() {
        return Err(IndexError::Malformed("RRSS name out of string blob"));
    }
    match text::decode(bytes::copy_range(string_blob, off, end)) {
        Some(s) => Ok(s),
        None => Err(IndexError::Malformed("RRSS non-UTF-8 name")),
    }
}

impl SplitSet {
    #[verifier::type_invariant]
    spec fn inv(self) -> bool {
        self@.wf()
    }

    /// Parses a whole manifest already resident in `buf` (header + body).
    pub fn from_bytes(buf: &[u8]) -> (r: Result<SplitSet, IndexError>)
        ensures
            match r {
                Ok(m) => {
                    &&& body_len_of(buf@) matches Ok(n) && HEADER_SIZE + n <= buf@.len()
                        && manifest_of(
                        buf@.take(HEADER_SIZE as int),
                        buf@.subrange(HEADER_SIZE as int, HEADER_SIZE + n),
                    ) == Ok::<_, IndexError>(m@)
                    &&& m@.wf()
                },
                Err(e) => match body_len_of(buf@) {
                    Err(f) => e == f,
                    Ok(n) => if HEADER_SIZE + n > buf@.len() {
                        e == IndexError::Malformed("short RRSS body")
                    } else {
                        manifest_of(
                            buf@.take(HEADER_SIZE as int),
                            buf@.subrange(HEADER_SIZE as int, HEADER_SIZE + n),
                        ) == Err::<ManifestView, _>(e)
                    },
                },
            },
    {
        let body_len: usize = match Self::body_len(buf) {
            Ok(n) => n,
            Err(e) => return Err(e),
        };
        if body_len > buf.len() - HEADER_SIZE {
            return Err(IndexError::Malformed("short RRSS body"));
        }
        let header = vstd::slice::slice_subrange(buf, 0, HEADER_SIZE);
        let body = vstd::slice::slice_subrange(buf, HEADER_SIZE, HEADER_SIZE + body_len);
        proof {
            assert(header@ =~= buf@.take(HEADER_SIZE as int));
            assert(header@.take(4) =~= buf@.take(4));
            assert(body_len_of(header@) == body_len_of(buf@));
        }
        Self::parse(header, body)
    }

    /// Validates the header magic/version and the base/delta boundary, and returns the body
    /// length (`split_count * 56 + str_bytes + summary_bytes`) so a reader knows how much to
    /// fetch.
    pub fn body_len(header: &[u8]) -> (r: Result<usize, IndexError>)
        ensures
            r == body_len_of(header@),
    {
        if header.len() < HEADER_SIZE {
            return Err(IndexError::Malformed("short RRSS header"));
        }
        let m: [u8; 4] = [header[0], header[1], header[2], header[3]];
        assert(header@.take(4) =~= seq![header@[0], header@[1], header@[2], header@[3]]);
        if m[0] != 0x52 || m[1] != 0x52 || m[2] != 0x53 || m[3] != 0x53 {
            proof {
                assert(m@ =~= header@.take(4));
                let t = header@.take(4);
                assert(!(t[0] == 0x52 && t[1] == 0x52 && t[2] == 0x53 && t[3] == 0x53));
                assert(t != magic());
            }
            return Err(IndexError::BadMagic(m));
        }
        assert(header@.take(4) =~= magic());
        let version: u16 = read_u16(header, 4);
        if version != VERSION {
            return Err(IndexError::BadVersion(version));
        }
        let split_count: u32 = read_u32(header, 12);
        if read_u32(header, 16) > split_count {
            return Err(IndexError::Malformed("RRSS base count exceeds split count"));
        }
        let str_bytes: usize = read_u32(header, 20) as usize;
        let summary_bytes: usize = read_u64(header, 24) as usize;
        let entries: usize = match (split_count as usize).checked_mul(ENTRY_SIZE) {
            Some(m) => m,
            None => return Err(IndexError::Malformed("RRSS body size overflow")),
        };
        let with_names: usize = match entries.checked_add(str_bytes) {
            Some(m) => m,
            None => return Err(IndexError::Malformed("RRSS body size overflow")),
        };
        match with_names.checked_add(summary_bytes) {
            Some(n) => Ok(n),
            None => Err(IndexError::Malformed("RRSS body size overflow")),
        }
    }

    /// Parses the validated `header` (64 B) and `body` (split entries + string blob + summary
    /// blob).
    pub fn parse(header: &[u8], body: &[u8]) -> (r: Result<SplitSet, IndexError>)
        requires
            body_len_of(header@) is Ok,
        ensures
            match r {
                Ok(m) => manifest_of(header@, body@) == Ok::<_, IndexError>(m@) && m@.wf(),
                Err(e) => manifest_of(header@, body@) == Err::<ManifestView, _>(e),
            },
    {
        let flags: u16 = read_u16(header, 6);
        let policy = match Policy::try_from(header[8]) {
            Ok(p) => p,
            Err(e) => return Err(e),
        };
        let body_kind = match BodyKind::try_from(header[9]) {
            Ok(k) => k,
            Err(e) => return Err(e),
        };
        let split_count: usize = read_u32(header, 12) as usize;
        let str_bytes: usize = read_u32(header, 20) as usize;
        let summary_bytes: usize = read_u64(header, 24) as usize;
        let manifest_bytes: usize = split_count * ENTRY_SIZE;
        let summary_start: usize = manifest_bytes + str_bytes;
        if body.len() < summary_start + summary_bytes {
            return Err(IndexError::Malformed("short RRSS body"));
        }
        let string_blob = vstd::slice::slice_subrange(body, manifest_bytes, summary_start);
        let summary_blob: Vec<u8> = bytes::copy_range(
            body,
            summary_start,
            summary_start + summary_bytes,
        );
        let sortcol_name_len: usize = read_u16(header, 44) as usize;
        let sortcol = if sortcol_name_len > 0 {
            match read_name(string_blob, read_u32(header, 40) as usize, sortcol_name_len) {
                Ok(name) => Some(
                    SortColDescriptor {
                        name,
                        column: read_u16(header, 46),
                        descending: flag_set(header[48] as u16, SORTCOL_FLAG_DESCENDING as u16),
                    },
                ),
                Err(e) => return Err(e),
            }
        } else {
            None
        };
        let splits = match Self::parse_splits(body, split_count, string_blob, summary_bytes) {
            Ok(splits) => splits,
            Err(e) => return Err(e),
        };
        let ghost all = split_views(splits@);
        proof {
            assert forall|j: int|
                0 <= j < all.len() && (#[trigger] all[j]).summary_len > 0 implies all[j].summary_off
                + all[j].summary_len <= summary_blob@.len() by {
                assert(all[j] == splits@[j]@);
            }
        }
        Ok(
            SplitSet {
                policy,
                flags,
                tier_count: read_u16(header, 10),
                base_count: read_u32(header, 16),
                byte_cap: read_u64(header, 32),
                gram_size: read_u16(header, 49),
                body_kind,
                sortcol,
                splits,
                summary_blob,
            },
        )
    }

    /// Parses the first `count` entries of `body`.
    fn parse_splits(
        body: &[u8],
        count: usize,
        string_blob: &[u8],
        summary_bytes: usize,
    ) -> (r: Result<Vec<Split>, IndexError>)
        requires
            count * ENTRY_SIZE <= body@.len(),
        ensures
            match r {
                Ok(v) => splits_at(body@, count as nat, string_blob@, summary_bytes as int) == Ok::<
                    _,
                    IndexError,
                >(split_views(v@)) && v@.len() == count && forall|j: int|
                    0 <= j < v@.len() ==> (#[trigger] v@[j])@.summary_len > 0
                        ==> v@[j]@.summary_off + v@[j]@.summary_len <= summary_bytes,
                Err(e) => splits_at(body@, count as nat, string_blob@, summary_bytes as int)
                    == Err::<Seq<SplitView>, _>(e),
            },
    {
        let mut splits: Vec<Split> = Vec::new();
        let mut i: usize = 0;
        assert(body@.len() == body.len());
        assert(split_views(splits@) =~= Seq::<SplitView>::empty());
        while i < count
            invariant
                i <= count,
                count * ENTRY_SIZE <= body@.len() <= usize::MAX,
                splits_at(body@, i as nat, string_blob@, summary_bytes as int) == Ok::<
                    _,
                    IndexError,
                >(split_views(splits@)),
                splits@.len() == i,
                forall|j: int|
                    0 <= j < i ==> (#[trigger] splits@[j])@.summary_len > 0
                        ==> splits@[j]@.summary_off + splits@[j]@.summary_len <= summary_bytes,
            decreases count - i,
        {
            match Self::parse_split(body, i * ENTRY_SIZE, string_blob, summary_bytes) {
                Ok(s) => {
                    let ghost before = splits@;
                    splits.push(s);
                    assert(split_views(splits@) =~= split_views(before).push(s@));
                },
                Err(e) => {
                    proof {
                        lemma_splits_at_err(
                            body@,
                            i as nat,
                            count as nat,
                            string_blob@,
                            summary_bytes as int,
                            e,
                        );
                    }
                    return Err(e);
                },
            }
            i += 1;
        }
        Ok(splits)
    }

    /// Parses the entry at `base` of `body`.
    fn parse_split(
        body: &[u8],
        base: usize,
        string_blob: &[u8],
        summary_bytes: usize,
    ) -> (r: Result<Split, IndexError>)
        requires
            base + ENTRY_SIZE <= body@.len(),
        ensures
            match r {
                Ok(s) => split_at(body@, base as int, string_blob@, summary_bytes as int) == Ok::<
                    _,
                    IndexError,
                >(s@) && (s@.summary_len > 0 ==> s@.summary_off + s@.summary_len <= summary_bytes),
                Err(e) => split_at(body@, base as int, string_blob@, summary_bytes as int) == Err::<
                    SplitView,
                    _,
                >(e),
            },
    {
        assert(body@.len() == body.len());
        let name_off: usize = read_u32(body, base) as usize;
        let name_len: usize = read_u16(body, base + 4) as usize;
        let summary_off: u64 = read_u64(body, base + 40);
        let summary_len: u32 = read_u32(body, base + 48);
        let data_file = match read_name(string_blob, name_off, name_len) {
            Ok(name) => name,
            Err(e) => return Err(e),
        };
        if summary_len > 0 {
            let end: u64 = match summary_off.checked_add(summary_len as u64) {
                Some(end) => end,
                None => return Err(IndexError::Malformed("RRSS summary range overflow")),
            };
            if end > summary_bytes as u64 {
                return Err(IndexError::Malformed("RRSS summary out of summary blob"));
            }
        }
        Ok(
            Split {
                data_file,
                tier: read_u16(body, base + 6),
                doc_count: read_u32(body, base + 8),
                doc_id_lo: read_u32(body, base + 12),
                doc_id_hi: read_u32(body, base + 16),
                flags: read_u16(body, base + 20),
                byte_size: read_u64(body, base + 24),
                epoch: read_u64(body, base + 32),
                summary_off,
                summary_len,
            },
        )
    }
}

proof fn lemma_splits_at_err(
    body: Seq<u8>,
    i: nat,
    n: nat,
    strings: Seq<u8>,
    summary_bytes: int,
    e: IndexError,
)
    requires
        i < n,
        splits_at(body, i, strings, summary_bytes) is Ok,
        split_at(body, i * ENTRY_SIZE, strings, summary_bytes) == Err::<SplitView, _>(e),
    ensures
        splits_at(body, n, strings, summary_bytes) == Err::<Seq<SplitView>, _>(e),
    decreases n,
{
    if i + 1 < n {
        lemma_splits_at_err(body, i, (n - 1) as nat, strings, summary_bytes, e);
    }
}

/// Whether `keys` are in ascending order.
pub open spec fn sorted_keys(keys: Seq<u64>) -> bool {
    forall|i: int, j: int| 0 <= i <= j < keys.len() ==> keys[i] <= keys[j]
}

/// The `n` keys of a facet-presence payload.
pub open spec fn presence_keys(payload: Seq<u8>, n: nat) -> Seq<u64> {
    Seq::new(n, |i: int| bytes::u64_at(payload, 4 + i * 8))
}

/// The keys that a facet-presence payload lists.
pub open spec fn presence_of(payload: Seq<u8>) -> Result<Seq<u64>, IndexError> {
    if payload.len() < 4 {
        Err(IndexError::Malformed("RRSS facet-presence summary too short"))
    } else if u32_at_size(payload, 0) * 8 + 4 > payload.len() {
        Err(IndexError::Malformed("RRSS facet-presence summary out of range"))
    } else {
        Ok(presence_keys(payload, u32_at_size(payload, 0) as nat))
    }
}

impl ManifestView {
    /// The payload of a split's summary record under `tag`; a split without a summary has
    /// none.
    pub open spec fn record(self, s: SplitView, tag: u8) -> Result<Option<Seq<u8>>, IndexError> {
        match self.summary(s) {
            Some(region) => tlv::find(region, tag),
            None => Ok(None),
        }
    }

    /// The split's Bloom filter; a malformed summary has none.
    pub open spec fn bloom(self, s: SplitView) -> Option<Seq<u8>> {
        match self.record(s, SUMMARY_TAG_BLOOM) {
            Ok(found) => found,
            Err(_) => None,
        }
    }

    /// Whether a query for all of `keys` can skip the split: it carries a Bloom filter that
    /// does not hold one of them.
    pub open spec fn pruned_by_bloom(self, s: SplitView, keys: Seq<u64>) -> bool {
        match self.bloom(s) {
            Some(b) => exists|i: int|
                0 <= i < keys.len() && !bloom::may_contain(b, #[trigger] keys[i]),
            None => false,
        }
    }

    /// The split's tombstoned global doc IDs.
    pub open spec fn tombstone(self, s: SplitView) -> Result<Option<Set<u32>>, IndexError> {
        match self.record(s, SUMMARY_TAG_TOMBSTONE) {
            Err(e) => Err(e),
            Ok(None) => Ok(None),
            Ok(Some(payload)) => match bitmap::read_ids(payload) {
                Some(dead) => Ok(Some(dead)),
                None => Err(IndexError::Malformed("unreadable roaring posting")),
            },
        }
    }

    /// The split's facet-presence keys.
    pub open spec fn facet_keys(self, s: SplitView) -> Result<Option<Seq<u64>>, IndexError> {
        match self.record(s, SUMMARY_TAG_FACET) {
            Err(e) => Err(e),
            Ok(None) => Ok(None),
            Ok(Some(payload)) => match presence_of(payload) {
                Ok(keys) => Ok(Some(keys)),
                Err(e) => Err(e),
            },
        }
    }

    /// Whether the manifest carries facet-presence summaries.
    pub open spec fn has_facets(self) -> bool {
        has_flag(self.flags as int, FLAG_FACET as int)
    }

    /// Whether `r` is right to say whether a query for `fields` can skip the split by its
    /// facets. The presence keys are looked up by bisection: where they are not ascending, a
    /// key that is there may be missed.
    pub open spec fn facet_verdict(
        self,
        s: SplitView,
        fields: Seq<Vec<u64>>,
        r: Result<bool, IndexError>,
    ) -> bool {
        if fields.len() == 0 || !self.has_facets() {
            r == Ok::<bool, IndexError>(false)
        } else {
            match self.facet_keys(s) {
                Err(e) => r == Err::<bool, _>(e),
                Ok(None) => r == Ok::<bool, IndexError>(true),
                Ok(Some(present)) => match r {
                    Ok(pruned) => (!pruned ==> fields_present(fields, present)) && (sorted_keys(
                        present,
                    ) ==> pruned == !fields_present(fields, present)),
                    Err(_) => false,
                },
            }
        }
    }

    /// Whether `r` is right to say whether the split must be searched for `keys` and `fields`:
    /// neither its Bloom filter nor its facets rule it out.
    pub open spec fn survival(
        self,
        s: SplitView,
        keys: Seq<u64>,
        fields: Seq<Vec<u64>>,
        r: Result<bool, IndexError>,
    ) -> bool {
        if self.pruned_by_bloom(s, keys) {
            r == Ok::<bool, IndexError>(false)
        } else {
            match r {
                Ok(searched) => self.facet_verdict(s, fields, Ok(!searched)),
                Err(e) => self.facet_verdict(s, fields, Err(e)),
            }
        }
    }

    /// The total size of the splits.
    pub open spec fn total_byte_size(self) -> nat {
        self.splits.fold_left(0nat, |n: nat, s: SplitView| n + s.byte_size as nat)
    }
}

/// Whether each of `fields` has one of its keys in `present`.
pub open spec fn fields_present(fields: Seq<Vec<u64>>, present: Seq<u64>) -> bool {
    forall|f: int| 0 <= f < fields.len() ==> any_present((#[trigger] fields[f])@, present)
}

/// Whether one of `keys` is in `present`.
pub open spec fn any_present(keys: Seq<u64>, present: Seq<u64>) -> bool {
    exists|i: int| 0 <= i < keys.len() && present.contains(#[trigger] keys[i])
}

/// Looks `key` up in `keys`. What is found is there; in ascending `keys` what is there is
/// found.
pub fn key_found(keys: &[u64], key: u64) -> (found: bool)
    ensures
        found ==> keys@.contains(key),
        sorted_keys(keys@) ==> found == keys@.contains(key),
{
    let mut lo: usize = 0;
    let mut hi: usize = keys.len();
    while lo < hi
        invariant
            lo <= hi <= keys@.len(),
            sorted_keys(keys@) ==> forall|i: int|
                0 <= i < keys@.len() && keys@[i] == key ==> lo <= i < hi,
        decreases hi - lo,
    {
        let mid: usize = lo + (hi - lo) / 2;
        let k: u64 = keys[mid];
        if k == key {
            assert(keys@[mid as int] == key);
            return true;
        }
        if k < key {
            lo = mid + 1;
        } else {
            hi = mid;
        }
    }
    false
}

/// Whether one of `keys` is found in `present`.
fn any_found(keys: &[u64], present: &[u64]) -> (found: bool)
    ensures
        found ==> any_present(keys@, present@),
        sorted_keys(present@) ==> found == any_present(keys@, present@),
{
    let mut i: usize = 0;
    while i < keys.len()
        invariant
            i <= keys@.len(),
            sorted_keys(present@) ==> forall|j: int|
                0 <= j < i ==> !present@.contains(#[trigger] keys@[j]),
        decreases keys@.len() - i,
    {
        if key_found(present, keys[i]) {
            return true;
        }
        i += 1;
    }
    false
}

impl SplitSet {
    /// The base-split assembly policy.
    pub fn policy(&self) -> (policy: Policy)
        ensures
            policy == self@.policy,
    {
        self.policy
    }

    /// How each split's data file is encoded.
    pub fn body_kind(&self) -> (kind: BodyKind)
        ensures
            kind == self@.body_kind,
    {
        self.body_kind
    }

    /// The header summary-presence flags (`FLAG_BLOOM` | `FLAG_FACET` | …).
    pub fn flags(&self) -> (flags: u16)
        ensures
            flags == self@.flags,
    {
        self.flags
    }

    /// Number of rank tiers (tiered policy); `0` for stable-key.
    pub fn tier_count(&self) -> (n: u16)
        ensures
            n == self@.tier_count,
    {
        self.tier_count
    }

    /// Number of base splits: splits `[0, base_count)` are base, the rest are delta.
    pub fn base_count(&self) -> (n: u32)
        ensures
            n == self@.base_count,
            n <= self@.splits.len(),
    {
        proof {
            use_type_invariant(self);
        }
        self.base_count
    }

    /// The configured per-split byte cap the builder sealed at (informational).
    pub fn byte_cap(&self) -> (cap: u64)
        ensures
            cap == self@.byte_cap,
    {
        self.byte_cap
    }

    /// The n-gram window the splits were built with (`0` if the manifest did not record it).
    pub fn gram_size(&self) -> (n: u16)
        ensures
            n == self@.gram_size,
    {
        self.gram_size
    }

    /// Whether queries lowercase (case-fold) their n-gram/facet keys before pruning.
    pub fn case_fold(&self) -> (fold: bool)
        ensures
            fold == self@.case_fold(),
    {
        !flag_set(self.flags, FLAG_CASE_SENSITIVE)
    }

    /// The stable-key rank source, if the manifest named one.
    pub fn sortcol(&self) -> (d: Option<&SortColDescriptor>)
        ensures
            match d {
                Some(d) => self@.sortcol == Some(d@),
                None => self@.sortcol is None,
            },
    {
        match &self.sortcol {
            Some(d) => Some(d),
            None => None,
        }
    }

    /// All splits, in manifest order (base splits first, then delta splits).
    pub fn splits(&self) -> (splits: &[Split])
        ensures
            split_views(splits@) == self@.splits,
            self@.wf(),
    {
        proof {
            use_type_invariant(self);
        }
        self.splits.as_slice()
    }

    /// The base splits: the bulk set rebuilt on the full-build cadence.
    pub fn base_splits(&self) -> (splits: &[Split])
        ensures
            split_views(splits@) == self@.base_splits(),
    {
        proof {
            use_type_invariant(self);
        }
        let splits = vstd::slice::slice_subrange(
            self.splits.as_slice(),
            0,
            self.base_count as usize,
        );
        assert(split_views(splits@) =~= self@.base_splits());
        splits
    }

    /// The delta splits: flushed since the base; empty for an additions-only/base-only set.
    pub fn delta_splits(&self) -> (splits: &[Split])
        ensures
            split_views(splits@) == self@.delta_splits(),
    {
        proof {
            use_type_invariant(self);
        }
        let splits = vstd::slice::slice_subrange(
            self.splits.as_slice(),
            self.base_count as usize,
            self.splits.len(),
        );
        assert(split_views(splits@) =~= self@.delta_splits());
        splits
    }

    /// The resident summary bytes for `split`, or `None` when it has no summaries.
    pub fn summary(&self, split: &Split) -> (region: Option<&[u8]>)
        requires
            self@.summary_in_range(split@),
        ensures
            match region {
                Some(r) => self@.summary(split@) == Some(r@),
                None => self@.summary(split@) is None,
            },
    {
        if split.summary_len == 0 {
            return None;
        }
        assert(self.summary_blob@.len() == self.summary_blob.len());
        let start: usize = split.summary_off as usize;
        let end: usize = start + split.summary_len as usize;
        Some(vstd::slice::slice_subrange(self.summary_blob.as_slice(), start, end))
    }

    /// Total on-disk size of every split.
    pub fn total_byte_size(&self) -> (n: u64)
        requires
            self@.total_byte_size() <= u64::MAX,
        ensures
            n == self@.total_byte_size(),
    {
        let mut n: u64 = 0;
        let mut i: usize = 0;
        let ghost all = self@.splits;
        let ghost f = |n: nat, s: SplitView| n + s.byte_size as nat;
        while i < self.splits.len()
            invariant
                i <= self.splits@.len(),
                all == split_views(self.splits@),
                f == (|n: nat, s: SplitView| n + s.byte_size as nat),
                all.fold_left(0nat, f) <= u64::MAX,
                n == all.take(i as int).fold_left(0nat, f),
            decreases self.splits@.len() - i,
        {
            proof {
                assert(all.take(i + 1).drop_last() =~= all.take(i as int));
                assert(all.take(i + 1).last() == self.splits@[i as int]@);
                lemma_sizes_grow(all, i + 1);
            }
            n = n + self.splits[i].byte_size;
            i += 1;
        }
        assert(all.take(i as int) =~= all);
        n
    }

    /// The split's term Bloom filter, or `None` when it has none.
    pub fn bloom(&self, split: &Split) -> (b: Option<&[u8]>)
        requires
            self@.summary_in_range(split@),
        ensures
            match b {
                Some(f) => self@.bloom(split@) == Some(f@),
                None => self@.bloom(split@) is None,
            },
    {
        match self.summary(split) {
            Some(region) => match tlv::find_tlv(region, SUMMARY_TAG_BLOOM) {
                Ok(found) => found,
                Err(_) => None,
            },
            None => None,
        }
    }

    /// Whether `split` can be pruned for `keys`: it carries a Bloom filter and at least one
    /// query key is **definitely absent** from it. A split with no Bloom is never pruned, nor
    /// is any split for no keys.
    pub fn pruned_by_bloom(&self, split: &Split, keys: &[u64]) -> (pruned: bool)
        requires
            self@.summary_in_range(split@),
        ensures
            pruned == self@.pruned_by_bloom(split@, keys@),
    {
        match self.bloom(split) {
            Some(filter) => {
                let mut i: usize = 0;
                while i < keys.len()
                    invariant
                        i <= keys@.len(),
                        self@.bloom(split@) == Some(filter@),
                        forall|j: int|
                            0 <= j < i ==> bloom::may_contain(filter@, #[trigger] keys@[j]),
                    decreases keys@.len() - i,
                {
                    if !bloom::bloom_contains(filter, keys[i]) {
                        assert(!bloom::may_contain(filter@, keys@[i as int]));
                        return true;
                    }
                    i += 1;
                }
                false
            },
            None => false,
        }
    }

    /// The split's tombstone posting (superseded **global** doc IDs), or `None` when it has
    /// none.
    pub fn tombstone(&self, split: &Split) -> (r: Result<Option<RoaringBitmap>, IndexError>)
        requires
            self@.summary_in_range(split@),
        ensures
            match r {
                Ok(Some(b)) => self@.tombstone(split@) == Ok::<_, IndexError>(Some(bitmap::ids(b))),
                Ok(None) => self@.tombstone(split@) == Ok::<_, IndexError>(None::<Set<u32>>),
                Err(e) => self@.tombstone(split@) == Err::<Option<Set<u32>>, _>(e),
            },
    {
        let region = match self.summary(split) {
            Some(region) => region,
            None => return Ok(None),
        };
        match tlv::find_tlv(region, SUMMARY_TAG_TOMBSTONE) {
            Ok(Some(payload)) => match bitmap::deserialize(payload) {
                Ok(b) => Ok(Some(b)),
                Err(e) => Err(e),
            },
            Ok(None) => Ok(None),
            Err(e) => Err(e),
        }
    }

    /// The split's facet-presence keys (the sorted keys of the categories it holds), or `None`
    /// when it has none.
    pub fn facet_keys(&self, split: &Split) -> (r: Result<Option<Vec<u64>>, IndexError>)
        requires
            self@.summary_in_range(split@),
        ensures
            match r {
                Ok(Some(keys)) => self@.facet_keys(split@) == Ok::<_, IndexError>(Some(keys@)),
                Ok(None) => self@.facet_keys(split@) == Ok::<_, IndexError>(None::<Seq<u64>>),
                Err(e) => self@.facet_keys(split@) == Err::<Option<Seq<u64>>, _>(e),
            },
    {
        let region = match self.summary(split) {
            Some(region) => region,
            None => return Ok(None),
        };
        let payload = match tlv::find_tlv(region, SUMMARY_TAG_FACET) {
            Ok(Some(payload)) => payload,
            Ok(None) => return Ok(None),
            Err(e) => return Err(e),
        };
        if payload.len() < 4 {
            return Err(IndexError::Malformed("RRSS facet-presence summary too short"));
        }
        let count: usize = read_u32(payload, 0) as usize;
        if count > (payload.len() - 4) / 8 {
            return Err(IndexError::Malformed("RRSS facet-presence summary out of range"));
        }
        let mut keys: Vec<u64> = Vec::new();
        let mut i: usize = 0;
        while i < count
            invariant
                i <= count,
                count * 8 + 4 <= payload@.len() <= usize::MAX,
                keys@ =~= presence_keys(payload@, i as nat),
            decreases count - i,
        {
            keys.push(read_u64(payload, 4 + i * 8));
            i += 1;
        }
        Ok(Some(keys))
    }

    /// Whether `split` can be pruned for a facet filter: the manifest carries facet-presence
    /// summaries and either this split has none (it indexed no facet values) or for some
    /// selected field none of that field's category keys are present (the across-field AND can
    /// never be satisfied). Without facet information nothing is pruned. `fields` is the
    /// per-field list of selected category keys. The presence keys are looked up by bisection,
    /// so a list that is not ascending may be misread as lacking a key.
    pub fn facet_pruned(&self, split: &Split, fields: &[Vec<u64>]) -> (r: Result<bool, IndexError>)
        requires
            self@.summary_in_range(split@),
        ensures
            self@.facet_verdict(split@, fields@, r),
    {
        if fields.len() == 0 || !flag_set(self.flags, FLAG_FACET) {
            return Ok(false);
        }
        let present = match self.facet_keys(split) {
            Ok(Some(present)) => present,
            Ok(None) => return Ok(true),
            Err(e) => return Err(e),
        };
        let mut i: usize = 0;
        while i < fields.len()
            invariant
                i <= fields@.len(),
                fields@.len() > 0,
                self@.has_facets(),
                self@.facet_keys(split@) == Ok::<_, IndexError>(Some(present@)),
                forall|f: int|
                    0 <= f < i ==> any_present((#[trigger] fields@[f])@, present@),
            decreases fields@.len() - i,
        {
            if !any_found(fields[i].as_slice(), present.as_slice()) {
                assert(sorted_keys(present@) ==> !any_present(fields@[i as int]@, present@));
                return Ok(true);
            }
            i += 1;
        }
        Ok(false)
    }
}

proof fn lemma_sizes_grow(all: Seq<SplitView>, i: int)
    requires
        0 <= i <= all.len(),
    ensures
        all.take(i).fold_left(0nat, |n: nat, s: SplitView| n + s.byte_size as nat)
            <= all.fold_left(0nat, |n: nat, s: SplitView| n + s.byte_size as nat),
    decreases all.len() - i,
{
    if i == all.len() {
        assert(all.take(i) =~= all);
    } else {
        lemma_sizes_grow(all, i + 1);
        assert(all.take(i + 1).drop_last() =~= all.take(i));
    }
}

/// The base splits and then the delta splits are all the splits, in order.
pub proof fn law_base_then_delta(m: ManifestView)
    requires
        m.wf(),
    ensures
        m.base_splits() + m.delta_splits() == m.splits,
        m.base_splits().len() == m.base_count,
{
    assert(m.base_splits() + m.delta_splits() =~= m.splits);
}

/// A split whose Bloom filter was built over keys that hold all of a query's keys is never
/// pruned for that query.
pub proof fn law_bloom_keeps_matches(
    m: ManifestView,
    s: SplitView,
    split_keys: Seq<u64>,
    bits_per_key: u32,
    query: Seq<u64>,
)
    requires
        m.bloom(s) matches Some(b) && bloom::is_filter(b, split_keys, bits_per_key),
        forall|i: int| 0 <= i < query.len() ==> split_keys.contains(#[trigger] query[i]),
    ensures
        !m.pruned_by_bloom(s, query),
{
    let b = m.bloom(s)->0;
    assert forall|i: int| 0 <= i < query.len() implies bloom::may_contain(
        b,
        #[trigger] query[i],
    ) by {
        bloom::law_no_false_negative(b, split_keys, bits_per_key, query[i]);
    }
}

/// The docs of a split that stores its own IDs follow one another from its first global ID on;
/// one that stores global IDs keeps them.
pub proof fn law_global_ids(s: SplitView, local: u32)
    ensures
        s.absolute_ids() ==> s.to_global(local) == local,
        !s.absolute_ids() ==> s.to_global(0) == s.doc_id_lo,
        !s.absolute_ids() && s.doc_id_lo + local < u32::MAX ==> s.to_global((local + 1) as u32)
            == s.to_global(local) + 1,
        s.contains(s.doc_id_lo) <==> s.doc_count > 0 && s.doc_id_lo <= s.doc_id_hi,
        s.contains(s.doc_id_hi) <==> s.doc_count > 0 && s.doc_id_lo <= s.doc_id_hi,
{
}

/// A split is skipped where its Bloom filter lacks one of the keys, and not skipped by a filter
/// that may hold them all; a split without a filter is never skipped by one.
pub proof fn law_bloom_prunes(m: ManifestView, s: SplitView, keys: Seq<u64>)
    ensures
        match m.bloom(s) {
            Some(b) => m.pruned_by_bloom(s, keys) <==> !(forall|i: int|
                0 <= i < keys.len() ==> bloom::may_contain(b, #[trigger] keys[i])),
            None => !m.pruned_by_bloom(s, keys),
        },
{
}

/// Whether none of `keys` is among `listed`.
pub open spec fn none_listed(keys: Seq<u64>, listed: Seq<u64>) -> bool {
    forall|i: int| 0 <= i < keys.len() ==> !listed.contains(#[trigger] keys[i])
}

/// A filtered query skips a split exactly where its listed categories miss a whole field of the
/// filter; a split that lists no categories is skipped by every filter.
pub proof fn law_facets_prune(
    m: ManifestView,
    s: SplitView,
    fields: Seq<Vec<u64>>,
    pruned: bool,
)
    requires
        m.facet_verdict(s, fields, Ok(pruned)),
        m.has_facets(),
        m.facet_keys(s) matches Ok(Some(ks)) ==> sorted_keys(ks),
    ensures
        match m.facet_keys(s) {
            Ok(Some(ks)) => pruned <==> exists|f: int|
                0 <= f < fields.len() && #[trigger] none_listed(fields[f]@, ks),
            _ => pruned == (fields.len() > 0),
        },
{
    if let Ok(Some(ks)) = m.facet_keys(s) {
        assert forall|f: int| 0 <= f < fields.len() implies any_present(
            (#[trigger] fields[f])@,
            ks,
        ) == !none_listed(fields[f]@, ks) by {
            if any_present(fields[f]@, ks) {
                let i = choose|i: int|
                    0 <= i < fields[f]@.len() && ks.contains(#[trigger] fields[f]@[i]);
                assert(ks.contains(fields[f]@[i]));
            }
        }
        if fields.len() > 0 && !pruned {
            assert(fields_present(fields, ks));
        }
        if pruned {
            let f = choose|f: int|
                0 <= f < fields.len() && !any_present((#[trigger] fields[f])@, ks);
            assert(none_listed(fields[f]@, ks));
        }
    }
}

/// The size of a set is the sum over its splits.
pub proof fn law_total_size(a: ManifestView, b: ManifestView, s: SplitView)
    requires
        a.splits == b.splits.push(s),
    ensures
        a.total_byte_size() == b.total_byte_size() + s.byte_size,
{
    reveal_with_fuel(Seq::fold_left, 2);
    assert(a.splits.drop_last() =~= b.splits);
}

/// A header is accepted exactly where it is whole, starts with `RRSS` and version one, has its
/// base splits among all splits, and announces a body that fits in memory: 56 bytes for each
/// split, the strings and the summaries.
pub proof fn law_header_accepted(h: Seq<u8>)
    ensures
        ({
            let n = u32_at_size(h, 12) * 56 + u32_at_size(h, 20) + u64_at_size(h, 24);
            &&& body_len_of(h) is Ok <==> h.len() >= 64 && h[0] == 0x52 && h[1] == 0x52 && h[2]
                == 0x53 && h[3] == 0x53 && bytes::u16_at(h, 4) == 1 && bytes::u32_at(h, 16)
                <= bytes::u32_at(h, 12) && n <= usize::MAX
            &&& body_len_of(h) matches Ok(len) ==> len == n
        }),
{
    let m = seq![0x52u8, 0x52u8, 0x53u8, 0x53u8];
    if h.len() >= 64 {
        if h.take(4) == m {
            assert(h.take(4)[0] == 0x52 && h.take(4)[1] == 0x52 && h.take(4)[2] == 0x53 && h.take(
                4,
            )[3] == 0x53);
        } else if h[0] == 0x52 && h[1] == 0x52 && h[2] == 0x53 && h[3] == 0x53 {
            assert(h.take(4) =~= m);
        }
    }
}

/// Every entry is read at its own place, 56 bytes behind the one before it, and the read fails
/// exactly where one of them does, with the error of the first that does.
pub proof fn law_splits_read(body: Seq<u8>, n: nat, strings: Seq<u8>, summary_bytes: int)
    ensures
        match splits_at(body, n, strings, summary_bytes) {
            Ok(ss) => ss.len() == n && forall|i: int|
                0 <= i < n ==> split_at(body, i * 56, strings, summary_bytes) == Ok::<
                    SplitView,
                    IndexError,
                >(#[trigger] ss[i]),
            Err(e) => exists|i: nat|
                i < n && (#[trigger] splits_at(body, i, strings, summary_bytes)) is Ok && split_at(
                    body,
                    (i * 56) as int,
                    strings,
                    summary_bytes,
                ) == Err::<SplitView, IndexError>(e),
        },
    decreases n,
{
    if n > 0 {
        let k = (n - 1) as nat;
        law_splits_read(body, k, strings, summary_bytes);
        assert(splits_at(body, k, strings, summary_bytes) is Ok ==> k < n);
    }
}

/// A name is read exactly where its span lies in the string blob and holds UTF-8, and it is the
/// text that the span spells.
pub proof fn law_name_at(blob: Seq<u8>, off: int, len: int)
    requires
        0 <= off,
        0 <= len,
    ensures
        name_at(blob, off, len) is Ok <==> off + len <= blob.len() && valid_utf8(
            blob.subrange(off, off + len),
        ),
        name_at(blob, off, len) matches Ok(name) ==> vstd::utf8::encode_utf8(name) == blob.subrange(
            off,
            off + len,
        ),
{
    if name_at(blob, off, len) is Ok {
        vstd::utf8::decode_utf8_encode_utf8(blob.subrange(off, off + len));
    }
}

/// A split is skipped where its Bloom filter lacks a key, and searched where neither filter can
/// rule it out; of a query without facets only the Bloom filter decides.
pub proof fn law_survival(
    m: ManifestView,
    s: SplitView,
    keys: Seq<u64>,
    fields: Seq<Vec<u64>>,
    r: Result<bool, IndexError>,
)
    requires
        m.survival(s, keys, fields, r),
    ensures
        m.pruned_by_bloom(s, keys) ==> r == Ok::<bool, IndexError>(false),
        fields.len() == 0 ==> r == Ok::<bool, IndexError>(!m.pruned_by_bloom(s, keys)),
        !m.pruned_by_bloom(s, keys) && !m.has_facets() ==> r == Ok::<bool, IndexError>(true),
        !m.pruned_by_bloom(s, keys) && m.has_facets() && fields.len() > 0 ==> match m.facet_keys(s) {
            Err(e) => r == Err::<bool, IndexError>(e),
            Ok(None) => r == Ok::<bool, IndexError>(false),
            Ok(Some(present)) => r is Ok && (sorted_keys(present) ==> r == Ok::<bool, IndexError>(
                fields_present(fields, present),
            )),
        },
{
}

/// Two lists of fields are present exactly where each is; a single field is where one of its keys
/// is listed.
pub proof fn law_fields_present(a: Seq<Vec<u64>>, b: Seq<Vec<u64>>, f: Vec<u64>, present: Seq<u64>)
    ensures
        fields_present(a + b, present) <==> fields_present(a, present) && fields_present(b, present),
        fields_present(seq![f], present) <==> exists|k: u64| #[trigger]
            f@.contains(k) && present.contains(k),
        fields_present(Seq::empty(), present),
{
    if fields_present(a + b, present) {
        assert forall|i: int| 0 <= i < a.len() implies any_present((#[trigger] a[i])@, present) by {
            assert(a[i] == (a + b)[i]);
        }
        assert forall|i: int| 0 <= i < b.len() implies any_present((#[trigger] b[i])@, present) by {
            assert(b[i] == (a + b)[a.len() + i]);
        }
    }
    if fields_present(a, present) && fields_present(b, present) {
        assert forall|i: int| 0 <= i < (a + b).len() implies any_present(
            (#[trigger] (a + b)[i])@,
            present,
        ) by {
            if i < a.len() {
                assert((a + b)[i] == a[i]);
            } else {
                assert((a + b)[i] == b[i - a.len()]);
            }
        }
    }
    assert(seq![f][0] == f);
    if fields_present(seq![f], present) {
        assert(any_present(seq![f][0]@, present));
        let i = choose|i: int| 0 <= i < f@.len() && present.contains(#[trigger] f@[i]);
        assert(f@.contains(f@[i]));
    }
    if exists|k: u64| #[trigger] f@.contains(k) && present.contains(k) {
        let k = choose|k: u64| #[trigger] f@.contains(k) && present.contains(k);
        let i = choose|i: int| 0 <= i < f@.len() && f@[i] == k;
        assert(present.contains(f@[i]));
        assert(any_present(f@, present));
    }
}

} // verus!
