//! Ingestion writer for the split set.
//!
//! [`SplitSetWriter`] is **pure**: bytes in, bytes out. The library owns the *mechanism*
//! (memtable accumulation, doc-id allocation, manifest cutover, supersession, compaction); the
//! client owns the *policy* (transport, durability, when to flush/compact, where the bytes
//! land, single-writer discipline) and hands in the encoder of the split's index file.
//!
//! **Doc IDs.** A flush seals the memtable into one immutable delta split with local 0-based
//! ids based at a fresh high global id. **Supersession.** [`SplitSetWriter::delete`] records a
//! tombstone carried in the flushed split's summary; the reader masks those docs at query time.
//! **Compaction.** [`SplitSetWriter::compact`] merges delta splits into one **absolute-id**
//! split (ids stay stable), dropping tombstoned docs.

use crate::bitmap;
use crate::bloom;
use crate::bytes;
use crate::bytes::{put_bytes, read_u32, read_u64};
use crate::error::{BuildError, IndexError};
use crate::postings;
use crate::postings::KeyPostings;
use crate::splitset;
use crate::splitset::{
    flag_set, BodyKind, Policy, SplitSet, FLAG_BLOOM, FLAG_TOMBSTONES, SPLIT_FLAG_ABSOLUTE_IDS,
    SPLIT_FLAG_HAS_TOMBSTONE, SUMMARY_TAG_BLOOM, SUMMARY_TAG_TOMBSTONE,
};
use crate::splitset_build;
use crate::splitset_build::{write_splitset, SortColSpec, SplitSetConfig, SplitSpec};
use crate::text;
use crate::tlv;
use roaring::RoaringBitmap;
use vstd::prelude::*;

verus! {

/// The doc-ID head/tail split of a split where none is given.
pub const DEFAULT_HEAD_BOUNDARY: u32 = 65536;

/// The sparse-index stride of a split where none is given.
pub const DEFAULT_STRIDE: u32 = 128;

/// A key with the bytes of its head and of its tail posting.
pub type IndexEntry = (u64, Vec<u8>, Vec<u8>);

/// The posting in the span `(off, len)` of a trigram index.
pub open spec fn posting_at(raw: Seq<u8>, off: int, len: int) -> Result<Set<u32>, BuildError> {
    if off + len > raw.len() {
        Err(BuildError::PostingOutOfRange)
    } else {
        match bitmap::read_ids(raw.subrange(off, off + len)) {
            Some(s) => Ok(s),
            None => Err(BuildError::BadPosting),
        }
    }
}

/// The dictionary entry at `base` of a trigram index: its key and its whole posting.
pub open spec fn entry_at(raw: Seq<u8>, base: int) -> Result<(u64, Set<u32>), BuildError> {
    let key = bytes::u64_at(raw, base);
    let head_off = bytes::u64_at(raw, base + 8) as int;
    let head_size = bytes::u32_at(raw, base + 16) as int;
    let tail_size = bytes::u32_at(raw, base + 20) as int;
    if base + 24 > raw.len() {
        Err(BuildError::TruncatedDictionary)
    } else {
        match posting_at(raw, head_off, head_size) {
            Err(e) => Err(e),
            Ok(head) => if tail_size == 0 {
                Ok((key, head))
            } else {
                match posting_at(raw, head_off + head_size, tail_size) {
                    Err(e) => Err(e),
                    Ok(tail) => Ok((key, head.union(tail))),
                }
            },
        }
    }
}

/// The first `n` dictionary entries from `start` on, or the error of the first bad one.
pub open spec fn entries_at(raw: Seq<u8>, start: int, n: nat) -> Result<
    Seq<(u64, Set<u32>)>,
    BuildError,
>
    decreases n,
{
    if n == 0 {
        Ok(Seq::empty())
    } else {
        match entries_at(raw, start, (n - 1) as nat) {
            Err(e) => Err(e),
            Ok(done) => match entry_at(raw, start + (n - 1) * 24) {
                Err(e) => Err(e),
                Ok(e) => Ok(done.push(e)),
            },
        }
    }
}

/// Where the dictionary of a trigram index starts: behind the 20-byte header and the sparse
/// index, which holds eight bytes for every `stride` keys.
pub open spec fn dict_start(raw: Seq<u8>) -> int {
    let ngrams = bytes::u32_at(raw, 8) as int;
    let stride = bytes::u32_at(raw, 12) as int;
    if ngrams == 0 || stride == 0 {
        20
    } else {
        20 + (ngrams + stride - 1) / stride * 8
    }
}

/// Every key of a trigram index with its whole posting, in file order.
pub open spec fn index_entries(raw: Seq<u8>) -> Result<Seq<(u64, Set<u32>)>, BuildError> {
    if raw.len() < 20 || raw.take(4) != seq![0x52u8, 0x52u8, 0x53u8, 0x49u8] {
        Err(BuildError::NotAnIndex)
    } else {
        entries_at(raw, dict_start(raw), bytes::u32_at(raw, 8) as nat)
    }
}

/// The entries `es` with the IDs of their bitmaps.
pub open spec fn entry_ids(es: Seq<(u64, RoaringBitmap)>) -> Seq<(u64, Set<u32>)> {
    es.map_values(|e: (u64, RoaringBitmap)| (e.0, bitmap::ids(e.1)))
}

/// Reads the posting in the span `(off, len)`.
fn read_posting(raw: &[u8], off: u64, len: u64) -> (r: Result<RoaringBitmap, BuildError>)
    requires
        len <= u32::MAX,
    ensures
        match r {
            Ok(b) => posting_at(raw@, off as int, len as int) == Ok::<_, BuildError>(
                bitmap::ids(b),
            ),
            Err(e) => posting_at(raw@, off as int, len as int) == Err::<Set<u32>, _>(e),
        },
{
    let size: u64 = raw.len() as u64;
    if off > size || len > size - off {
        return Err(BuildError::PostingOutOfRange);
    }
    match bitmap::deserialize(
        vstd::slice::slice_subrange(raw, off as usize, (off + len) as usize),
    ) {
        Ok(b) => Ok(b),
        Err(_) => Err(BuildError::BadPosting),
    }
}

/// Reads the dictionary entry at `base`.
fn read_entry(raw: &[u8], base: u64) -> (r: Result<(u64, RoaringBitmap), BuildError>)
    requires
        base <= 0x40_0000_0000,
    ensures
        match r {
            Ok(e) => entry_at(raw@, base as int) == Ok::<_, BuildError>((e.0, bitmap::ids(e.1))),
            Err(e) => entry_at(raw@, base as int) == Err::<(u64, Set<u32>), _>(e),
        },
{
    if base + 24 > raw.len() as u64 {
        return Err(BuildError::TruncatedDictionary);
    }
    let at: usize = base as usize;
    let key: u64 = read_u64(raw, at);
    let head_off: u64 = read_u64(raw, at + 8);
    let head_size: u64 = read_u32(raw, at + 16) as u64;
    let tail_size: u64 = read_u32(raw, at + 20) as u64;
    let mut b = match read_posting(raw, head_off, head_size) {
        Ok(b) => b,
        Err(e) => return Err(e),
    };
    assert(head_off + head_size <= raw@.len());
    assert(raw@.len() == raw.len());
    if tail_size > 0 {
        match read_posting(raw, head_off + head_size, tail_size) {
            Ok(tail) => bitmap::union_with(&mut b, &tail),
            Err(e) => return Err(e),
        }
    }
    Ok((key, b))
}

proof fn lemma_entries_err(raw: Seq<u8>, start: int, i: nat, n: nat, e: BuildError)
    requires
        i < n,
        entries_at(raw, start, i) is Ok,
        entry_at(raw, start + i * 24) == Err::<(u64, Set<u32>), _>(e),
    ensures
        entries_at(raw, start, n) == Err::<Seq<(u64, Set<u32>)>, _>(e),
    decreases n,
{
    if i + 1 < n {
        lemma_entries_err(raw, start, i, (n - 1) as nat, e);
    }
}

/// Parses every `(key, full posting)` out of a trigram index file: what merging splits during
/// compaction needs.
pub fn read_rrs_entries(raw: &[u8]) -> (r: Result<Vec<(u64, RoaringBitmap)>, BuildError>)
    ensures
        match r {
            Ok(es) => index_entries(raw@) == Ok::<_, BuildError>(entry_ids(es@)),
            Err(e) => index_entries(raw@) == Err::<Seq<(u64, Set<u32>)>, _>(e),
        },
{
    if raw.len() < 20 {
        return Err(BuildError::NotAnIndex);
    }
    let ghost front = raw@.take(4);
    let ghost want = seq![0x52u8, 0x52u8, 0x53u8, 0x49u8];
    if raw[0] != 0x52 || raw[1] != 0x52 || raw[2] != 0x53 || raw[3] != 0x49 {
        assert(front[0] == raw@[0] && front[1] == raw@[1] && front[2] == raw@[2] && front[3]
            == raw@[3]);
        assert(want[0] == 0x52 && want[1] == 0x52 && want[2] == 0x53 && want[3] == 0x49);
        return Err(BuildError::NotAnIndex);
    }
    assert(front =~= want);
    let ngrams: u32 = read_u32(raw, 8);
    let stride: u32 = read_u32(raw, 12);
    let sparse: u64 = if ngrams == 0 || stride == 0 {
        0
    } else {
        let groups: u64 = (ngrams as u64 + stride as u64 - 1) / stride as u64;
        proof {
            assert(groups <= ngrams + stride - 1) by (nonlinear_arith)
                requires
                    groups == (ngrams + stride - 1) / stride as int,
                    stride > 0,
            ;
        }
        groups
    };
    let start: u64 = 20 + sparse * 8;
    assert(start == dict_start(raw@));
    let mut out: Vec<(u64, RoaringBitmap)> = Vec::new();
    let mut i: u32 = 0;
    assert(entry_ids(out@) =~= Seq::<(u64, Set<u32>)>::empty());
    while i < ngrams
        invariant
            i <= ngrams,
            start <= 0x10_0000_0100,
            entries_at(raw@, start as int, i as nat) == Ok::<_, BuildError>(entry_ids(out@)),
            index_entries(raw@) == entries_at(raw@, start as int, ngrams as nat),
        decreases ngrams - i,
    {
        match read_entry(raw, start + i as u64 * 24) {
            Ok(e) => {
                let ghost before = out@;
                out.push(e);
                assert(entry_ids(out@) =~= entry_ids(before).push((e.0, bitmap::ids(e.1))));
            },
            Err(e) => {
                proof {
                    lemma_entries_err(raw@, start as int, i as nat, ngrams as nat, e);
                }
                return Err(e);
            },
        }
        i += 1;
    }
    Ok(out)
}

/// Frames a tombstone posting (superseded global ids) as a summary record.
fn tombstone_tlv(dead: &RoaringBitmap) -> (rec: Vec<u8>)
    ensures
        exists|p: Seq<u8>|
            #[trigger] tlv::record(SUMMARY_TAG_TOMBSTONE, p) == rec@ && bitmap::read_ids(p) == Some(
                bitmap::ids(*dead),
            ),
{
    let posting = bitmap::serialize(dead);
    tlv::tlv_record(SUMMARY_TAG_TOMBSTONE, posting.as_slice())
}

/// The tombstoned IDs that a summary region carries.
pub open spec fn tombstone_of(summary: Seq<u8>) -> Result<Option<Set<u32>>, BuildError> {
    match tlv::find(summary, SUMMARY_TAG_TOMBSTONE) {
        Err(_) => Err(BuildError::BadSummary),
        Ok(None) => Ok(None),
        Ok(Some(p)) => match bitmap::read_ids(p) {
            Some(dead) => Ok(Some(dead)),
            None => Err(BuildError::BadPosting),
        },
    }
}

/// Parses a tombstone posting out of a summary region, or `None` if it has none.
fn parse_tombstone(summary: &[u8]) -> (r: Result<Option<RoaringBitmap>, BuildError>)
    ensures
        match r {
            Ok(Some(b)) => tombstone_of(summary@) == Ok::<_, BuildError>(Some(bitmap::ids(b))),
            Ok(None) => tombstone_of(summary@) == Ok::<_, BuildError>(None::<Set<u32>>),
            Err(e) => tombstone_of(summary@) == Err::<Option<Set<u32>>, _>(e),
        },
{
    match tlv::find_tlv(summary, SUMMARY_TAG_TOMBSTONE) {
        Ok(Some(p)) => match bitmap::deserialize(p) {
            Ok(b) => Ok(Some(b)),
            Err(_) => Err(BuildError::BadPosting),
        },
        Ok(None) => Ok(None),
        Err(_) => Err(BuildError::BadSummary),
    }
}

/// Returns `v` unless it is `0`, in which case `default`.
pub fn nonzero_or(v: u32, default: u32) -> (r: u32)
    ensures
        r == (if v == 0 {
            default
        } else {
            v
        }),
{
    if v == 0 {
        default
    } else {
        v
    }
}

/// Configuration for a fresh [`SplitSetWriter`] (no prior manifest).
#[derive(Debug)]
pub struct WriterConfig {
    /// N-gram window the delta splits are built with (must match the base).
    pub gram_size: u16,
    /// Doc-ID head/tail split for delta splits (`0` selects [`DEFAULT_HEAD_BOUNDARY`]).
    pub head_boundary: u32,
    /// Sparse-index stride that the encoder builds delta splits with (`0` selects
    /// [`DEFAULT_STRIDE`]).
    pub stride: u32,
    /// The per-split byte cap recorded in the manifest (informational).
    pub byte_cap: u64,
    /// Filename prefix for emitted splits: `‹prefix›-d00000.rrs` (flush) /
    /// `‹prefix›-c00000.rrs` (compaction).
    pub name_prefix: String,
    /// The base policy recorded in the manifest header.
    pub policy: Policy,
    /// The base tier count recorded in the manifest header (`0` for stable-key).
    pub tier_count: u16,
    /// The stable-key rank source recorded in the manifest header, if any.
    pub sortcol: Option<SortColSpec>,
    /// Bits per key for the per-split term Bloom filter on flushed/compacted splits (`0`
    /// disables; `~10` gives about 1% false positives).
    pub bloom_bits_per_key: u32,
}

/// The result of [`SplitSetWriter::flush`]: one immutable delta split and the new manifest. The
/// client stores the split, then the manifest (the atomic cutover), then acks its source.
#[derive(Debug)]
pub struct FlushOutput {
    /// The delta split's filename.
    pub split_name: String,
    /// The delta split's index bytes.
    pub split_bytes: Vec<u8>,
    /// The new manifest bytes (points at the base + every delta incl. this one).
    pub manifest: Vec<u8>,
}

/// The result of [`SplitSetWriter::compact`]: the merged split, the new manifest, and the input
/// split names it supersedes (the client may delete those objects after the cutover).
#[derive(Debug)]
pub struct CompactOutput {
    /// The merged (absolute-id) split's filename.
    pub split_name: String,
    /// The merged split's index bytes.
    pub split_bytes: Vec<u8>,
    /// The new manifest bytes (inputs replaced by the merged split).
    pub manifest: Vec<u8>,
    /// The input split filenames now superseded.
    pub removed: Vec<String>,
}

/// What a writer is set up with.
#[verifier::ext_equal]
pub struct Settings {
    /// N-gram window.
    pub gram_size: u16,
    /// Doc-ID head/tail split.
    pub head_boundary: u32,
    /// Sparse-index stride.
    pub stride: u32,
    /// The per-split byte cap.
    pub byte_cap: u64,
    /// Filename prefix.
    pub name_prefix: Seq<char>,
    /// The base policy.
    pub policy: Policy,
    /// The base tier count.
    pub tier_count: u16,
    /// The rank source.
    pub sortcol: Option<SortColSpec>,
    /// Bits per key of the Bloom filters.
    pub bloom_bits_per_key: u32,
}

/// What a writer holds.
#[verifier::ext_equal]
pub struct WriterView {
    /// What it is set up with.
    pub settings: Settings,
    /// Number of base splits.
    pub base_count: u32,
    /// The splits, base splits first.
    pub specs: Seq<SplitSpec>,
    /// The next global doc id to be handed out.
    pub next_global_id: u32,
    /// The epoch of the next flush.
    pub next_epoch: u64,
    /// The number of the next flushed split.
    pub flush_seq: u32,
    /// The number of the next compacted split.
    pub compact_seq: u32,
    /// The open memtable: memtable-local doc ids by n-gram key.
    pub memtable: Map<u64, Set<u32>>,
    /// Docs in the open memtable.
    pub memtable_count: u32,
    /// Global ids deleted since the last flush.
    pub pending_deletes: Set<u32>,
}

impl WriterView {
    /// The base splits are among the splits, the memtable's docs are the last ones handed out,
    /// and no split is from a later epoch than the next.
    pub open spec fn wf(self) -> bool {
        &&& self.base_count <= self.specs.len()
        &&& forall|i: int| 0 <= i < self.specs.len() ==> (#[trigger] self.specs[i]).epoch
            <= self.next_epoch
        &&& self.memtable_count <= self.next_global_id
        &&& forall|k: u64, x: u32|
            self.memtable.contains_key(k) && #[trigger] self.memtable[k].contains(x) ==> x
                < self.memtable_count
    }

    /// Whether the next epoch is later than that of every split. A compaction of no inputs
    /// records the next epoch without advancing it; every flush advances it.
    pub open spec fn advanced(self) -> bool {
        forall|i: int| 0 <= i < self.specs.len() ==> (#[trigger] self.specs[i]).epoch
            < self.next_epoch
    }

    /// What the index encoder is handed with the entries `es`: the n-gram window, the
    /// sparse-index stride, the head boundary, and the entries.
    pub open spec fn handing(self, es: Vec<IndexEntry>) -> (u16, u32, u32, Vec<IndexEntry>) {
        (self.settings.gram_size, self.settings.stride, self.settings.head_boundary, es)
    }

    /// Whether there is nothing to flush.
    pub open spec fn clean(self) -> bool {
        self.memtable_count == 0 && self.pending_deletes == Set::<u32>::empty()
    }
}

/// Whether `es` are the entries of the postings `m`, in key order, each split at `boundary`.
pub open spec fn encodes(es: Seq<IndexEntry>, m: Map<u64, Set<u32>>, boundary: u32) -> bool {
    &&& postings::lists_keys(es.map_values(|e: IndexEntry| e.0), m)
    &&& forall|i: int|
        0 <= i < es.len() ==> {
            &&& bitmap::read_ids((#[trigger] es[i]).1@) == Some(
                bitmap::below(m[es[i].0], boundary),
            )
            &&& bitmap::read_ids(es[i].2@) == Some(bitmap::from_on(m[es[i].0], boundary))
            &&& es[i].1@ == bitmap::image(bitmap::below(m[es[i].0], boundary))
            &&& es[i].2@ == bitmap::image(bitmap::from_on(m[es[i].0], boundary))
        }
}

/// The record under `tag`, or nothing.
pub open spec fn record_if(present: bool, tag: u8, payload: Seq<u8>) -> Seq<u8> {
    if present {
        tlv::record(tag, payload)
    } else {
        Seq::empty()
    }
}

/// Whether `summary` is made of a record of the Bloom filter `filter` over `keys`, the keys of
/// `m`, where `with_bloom`, and then one of the tombstone `posting` of the IDs `dead` where
/// there are any.
pub open spec fn summary_parts(
    summary: Seq<u8>,
    with_bloom: bool,
    m: Map<u64, Set<u32>>,
    bits_per_key: u32,
    dead: Set<u32>,
    filter: Seq<u8>,
    keys: Seq<u64>,
    posting: Seq<u8>,
) -> bool {
    let tombstoned = dead != Set::<u32>::empty();
    &&& summary == record_if(with_bloom, SUMMARY_TAG_BLOOM, filter) + record_if(
        tombstoned,
        SUMMARY_TAG_TOMBSTONE,
        posting,
    )
    &&& with_bloom ==> postings::lists_keys(keys, m) && bloom::is_filter(filter, keys, bits_per_key)
    &&& tombstoned ==> bitmap::read_ids(posting) == Some(dead)
}

/// Whether `summary` is the summary of a split whose postings are `m`: a Bloom filter over its
/// keys where `with_bloom`, then a tombstone of the IDs `dead` where there are any.
pub open spec fn summarizes(
    summary: Seq<u8>,
    with_bloom: bool,
    m: Map<u64, Set<u32>>,
    bits_per_key: u32,
    dead: Set<u32>,
) -> bool {
    exists|filter: Seq<u8>, keys: Seq<u64>, posting: Seq<u8>| #[trigger]
        summary_parts(summary, with_bloom, m, bits_per_key, dead, filter, keys, posting)
}

/// Whether some split of `specs` carries a tombstone.
pub open spec fn any_tombstone(specs: Seq<SplitSpec>) -> bool {
    exists|i: int|
        0 <= i < specs.len() && splitset::has_flag(
            (#[trigger] specs[i]).flags as int,
            SPLIT_FLAG_HAS_TOMBSTONE as int,
        )
}

/// The manifest header flags of a set with the splits `specs`.
pub open spec fn header_flags(specs: Seq<SplitSpec>, bloom_bits_per_key: u32) -> u16 {
    ((if any_tombstone(specs) {
        FLAG_TOMBSTONES
    } else {
        0u16
    }) + (if bloom_bits_per_key > 0 {
        FLAG_BLOOM
    } else {
        0u16
    })) as u16
}

/// Whether `c` is the manifest configuration of the writer `w`.
pub open spec fn manifest_config(c: SplitSetConfig, w: WriterView) -> bool {
    &&& c.policy == w.settings.policy
    &&& c.tier_count == w.settings.tier_count
    &&& c.base_count == w.base_count
    &&& c.byte_cap == w.settings.byte_cap
    &&& c.gram_size == w.settings.gram_size
    &&& c.body_kind == BodyKind::Trigram
    &&& c.sortcol == w.settings.sortcol
    &&& c.flags == header_flags(w.specs, w.settings.bloom_bits_per_key)
}

/// Whether `r` is the manifest of the writer `w`, or the reason there is none.
pub open spec fn emitted(r: Result<Seq<u8>, BuildError>, w: WriterView) -> bool {
    exists|c: SplitSetConfig| #[trigger] manifest_config(c, w) && match r {
        Ok(m) => splitset_build::write_error(w.specs, c) is None && m
            == splitset_build::manifest_bytes(w.specs, c),
        Err(e) => splitset_build::write_error(w.specs, c) == Some(e),
    }
}

/// Whether `s` is the split that a flush of `w` records, with index bytes of length `size`.
pub open spec fn flushed_split(s: SplitSpec, w: WriterView, size: nat) -> bool {
    &&& s.data_file@ == text::numbered_name(
        w.settings.name_prefix,
        seq!['d'],
        w.flush_seq as nat,
        seq!['.', 'r', 'r', 's'],
    )
    &&& s.tier == 0
    &&& s.doc_count == w.memtable_count
    &&& s.doc_id_lo == w.next_global_id - w.memtable_count
    &&& s.doc_id_hi == (if w.memtable_count > 0 {
        w.next_global_id - 1
    } else {
        w.next_global_id as int
    })
    &&& s.epoch == w.next_epoch
    &&& s.byte_size == size
    &&& s.flags == (if w.pending_deletes == Set::<u32>::empty() {
        0u16
    } else {
        SPLIT_FLAG_HAS_TOMBSTONE
    })
    &&& summarizes(
        s.summary@,
        w.settings.bloom_bits_per_key > 0 && w.memtable_count > 0,
        w.memtable,
        w.settings.bloom_bits_per_key,
        w.pending_deletes,
    )
}

/// `w` after a flush that recorded `s`: the memtable and the deletes are gone.
pub open spec fn after_flush(w: WriterView, s: SplitSpec) -> WriterView {
    WriterView {
        specs: w.specs.push(s),
        next_epoch: (w.next_epoch + 1) as u64,
        flush_seq: (w.flush_seq + 1) as u32,
        memtable: Map::empty(),
        memtable_count: 0,
        pending_deletes: Set::empty(),
        ..w
    }
}

/// A pure, resumable split-set ingestion writer. See the module docs for the lifecycle.
pub struct SplitSetWriter {
    gram_size: u16,
    head_boundary: u32,
    stride: u32,
    byte_cap: u64,
    name_prefix: String,
    policy: Policy,
    tier_count: u16,
    sortcol: Option<SortColSpec>,
    bloom_bits_per_key: u32,
    base_count: u32,
    specs: Vec<SplitSpec>,
    next_global_id: u32,
    next_epoch: u64,
    flush_seq: u32,
    compact_seq: u32,
    memtable: KeyPostings,
    memtable_count: u32,
    pending_deletes: RoaringBitmap,
}

impl View for SplitSetWriter {
    type V = WriterView;

    closed spec fn view(&self) -> WriterView {
        WriterView {
            settings: Settings {
                gram_size: self.gram_size,
                head_boundary: self.head_boundary,
                stride: self.stride,
                byte_cap: self.byte_cap,
                name_prefix: self.name_prefix@,
                policy: self.policy,
                tier_count: self.tier_count,
                sortcol: self.sortcol,
                bloom_bits_per_key: self.bloom_bits_per_key,
            },
            base_count: self.base_count,
            specs: self.specs@,
            next_global_id: self.next_global_id,
            next_epoch: self.next_epoch,
            flush_seq: self.flush_seq,
            compact_seq: self.compact_seq,
            memtable: self.memtable@,
            memtable_count: self.memtable_count,
            pending_deletes: bitmap::ids(self.pending_deletes),
        }
    }
}

/// Copies a rank source.
fn copy_sortcol(sc: &Option<SortColSpec>) -> (c: Option<SortColSpec>)
    ensures
        c == *sc,
{
    match sc {
        Some(s) => Some(
            SortColSpec { name: s.name.clone(), column: s.column, descending: s.descending },
        ),
        None => None,
    }
}

/// The entries of the postings `p`, in key order, each posting split at `boundary`.
fn index_entries_of(p: &KeyPostings, boundary: u32) -> (es: Vec<IndexEntry>)
    ensures
        encodes(es@, p@, boundary),
{
    let keys = p.keys();
    let mut es: Vec<IndexEntry> = Vec::new();
    let mut i: usize = 0;
    while i < keys.len()
        invariant
            i <= keys@.len(),
            postings::lists_keys(keys@, p@),
            es@.len() == i,
            forall|j: int|
                0 <= j < i ==> {
                    &&& (#[trigger] es@[j]).0 == keys@[j]
                    &&& bitmap::read_ids(es@[j].1@) == Some(
                        bitmap::below(p@[keys@[j]], boundary),
                    )
                    &&& bitmap::read_ids(es@[j].2@) == Some(
                        bitmap::from_on(p@[keys@[j]], boundary),
                    )
                    &&& es@[j].1@ == bitmap::image(bitmap::below(p@[keys@[j]], boundary))
                    &&& es@[j].2@ == bitmap::image(bitmap::from_on(p@[keys@[j]], boundary))
                },
        decreases keys@.len() - i,
    {
        assert(keys@.contains(keys@[i as int]));
        if let Some(b) = p.get(keys[i]) {
            let (head, tail) = bitmap::split_posting(b, boundary);
            es.push((keys[i], head, tail));
        }
        i += 1;
    }
    assert(es@.map_values(|e: IndexEntry| e.0) =~= keys@);
    es
}

/// Builds the summary of a split.
fn summary_of(p: &KeyPostings, with_bloom: bool, bits_per_key: u32, dead: &RoaringBitmap) -> (out: Vec<
    u8,
>)
    ensures
        summarizes(out@, with_bloom, p@, bits_per_key, bitmap::ids(*dead)),
{
    let mut out: Vec<u8> = Vec::new();
    let keys = p.keys();
    let ghost mut filter = Seq::<u8>::empty();
    let ghost mut posting = Seq::<u8>::empty();
    if with_bloom {
        let f = bloom::bloom_build(keys.as_slice(), bits_per_key);
        proof {
            filter = f@;
        }
        put_bytes(&mut out, tlv::tlv_record(SUMMARY_TAG_BLOOM, f.as_slice()).as_slice());
    }
    assert(out@ =~= record_if(with_bloom, SUMMARY_TAG_BLOOM, filter));
    let ghost front = out@;
    if !dead.is_empty() {
        let rec = tombstone_tlv(dead);
        proof {
            posting = choose|p: Seq<u8>|
                #[trigger] tlv::record(SUMMARY_TAG_TOMBSTONE, p) == rec@ && bitmap::read_ids(p)
                    == Some(bitmap::ids(*dead));
        }
        put_bytes(&mut out, rec.as_slice());
    }
    proof {
        assert(out@ =~= front + record_if(
            bitmap::ids(*dead) != Set::<u32>::empty(),
            SUMMARY_TAG_TOMBSTONE,
            posting,
        ));
        assert(summary_parts(
            out@,
            with_bloom,
            p@,
            bits_per_key,
            bitmap::ids(*dead),
            filter,
            keys@,
            posting,
        ));
    }
    out
}

impl SplitSetWriter {
    /// Creates a fresh writer with no prior splits (the base is empty; the first flush writes
    /// the first delta). A `head_boundary` or a `stride` of `0` takes the default.
    pub fn new(config: WriterConfig) -> (w: SplitSetWriter)
        ensures
            w@.wf(),
            w@.advanced(),
            w@ == (WriterView {
                settings: Settings {
                    gram_size: config.gram_size,
                    head_boundary: if config.head_boundary == 0 {
                        DEFAULT_HEAD_BOUNDARY
                    } else {
                        config.head_boundary
                    },
                    stride: if config.stride == 0 {
                        DEFAULT_STRIDE
                    } else {
                        config.stride
                    },
                    byte_cap: config.byte_cap,
                    name_prefix: config.name_prefix@,
                    policy: config.policy,
                    tier_count: config.tier_count,
                    sortcol: config.sortcol,
                    bloom_bits_per_key: config.bloom_bits_per_key,
                },
                base_count: 0,
                specs: Seq::empty(),
                next_global_id: 0,
                next_epoch: 1,
                flush_seq: 0,
                compact_seq: 0,
                memtable: Map::empty(),
                memtable_count: 0,
                pending_deletes: Set::empty(),
            }),
    {
        SplitSetWriter {
            gram_size: config.gram_size,
            head_boundary: nonzero_or(config.head_boundary, DEFAULT_HEAD_BOUNDARY),
            stride: nonzero_or(config.stride, DEFAULT_STRIDE),
            byte_cap: config.byte_cap,
            name_prefix: config.name_prefix,
            policy: config.policy,
            tier_count: config.tier_count,
            sortcol: config.sortcol,
            bloom_bits_per_key: config.bloom_bits_per_key,
            base_count: 0,
            specs: Vec::new(),
            next_global_id: 0,
            next_epoch: 1,
            flush_seq: 0,
            compact_seq: 0,
            memtable: KeyPostings::new(),
            memtable_count: 0,
            pending_deletes: RoaringBitmap::new(),
        }
    }

    /// Appends one document by its n-gram `keys` to the open memtable, returning its monotonic
    /// global doc id. A keyword-less document still consumes an id so the id space stays dense.
    pub fn add_keys(&mut self, keys: &[u64]) -> (id: u32)
        requires
            old(self)@.wf(),
            old(self)@.next_global_id < u32::MAX,
        ensures
            final(self)@.wf(),
            id == old(self)@.next_global_id,
            final(self)@ == (WriterView {
                next_global_id: (id + 1) as u32,
                memtable: postings::with_doc(
                    old(self)@.memtable,
                    keys@,
                    old(self)@.memtable_count,
                ),
                memtable_count: (old(self)@.memtable_count + 1) as u32,
                ..old(self)@
            }),
    {
        let local: u32 = self.memtable_count;
        let ghost start = self@;
        let mut i: usize = 0;
        assert(keys@.take(0) =~= Seq::<u64>::empty());
        while i < keys.len()
            invariant
                i <= keys@.len(),
                local == start.memtable_count,
                self@ == (WriterView {
                    memtable: postings::with_doc(start.memtable, keys@.take(i as int), local),
                    ..start
                }),
            decreases keys@.len() - i,
        {
            self.memtable.insert(keys[i], local);
            assert(keys@.take(i + 1).drop_last() =~= keys@.take(i as int));
            i += 1;
        }
        proof {
            assert(keys@.take(i as int) =~= keys@);
            lemma_with_doc_bounded(start.memtable, keys@, local);
        }
        self.memtable_count = local + 1;
        let id: u32 = self.next_global_id;
        self.next_global_id = id + 1;
        id
    }

    /// Records a tombstone for a previously-indexed global doc id. The next
    /// [`flush`](Self::flush) carries it; the reader masks the doc thereafter.
    pub fn delete(&mut self, global_id: u32)
        ensures
            final(self)@ == (WriterView {
                pending_deletes: old(self)@.pending_deletes.insert(global_id),
                ..old(self)@
            }),
    {
        self.pending_deletes.insert(global_id);
    }

    /// Total documents ever added (the next global id to be handed out).
    pub fn doc_count(&self) -> (n: u32)
        ensures
            n == self@.next_global_id,
    {
        self.next_global_id
    }

    /// Documents currently buffered in the open memtable (not yet flushed).
    pub fn memtable_doc_count(&self) -> (n: u32)
        ensures
            n == self@.memtable_count,
    {
        self.memtable_count
    }

    /// Serializes the current split set into a fresh manifest (the atomic cutover bytes).
    fn emit_manifest(&self) -> (r: Result<Vec<u8>, BuildError>)
        ensures
            match r {
                Ok(m) => emitted(Ok(m@), self@),
                Err(e) => emitted(Err(e), self@),
            },
    {
        let mut tombstones = false;
        let mut i: usize = 0;
        while i < self.specs.len()
            invariant
                i <= self.specs@.len(),
                tombstones == exists|j: int|
                    0 <= j < i && splitset::has_flag(
                        (#[trigger] self.specs@[j]).flags as int,
                        SPLIT_FLAG_HAS_TOMBSTONE as int,
                    ),
            decreases self.specs@.len() - i,
        {
            if flag_set(self.specs[i].flags, SPLIT_FLAG_HAS_TOMBSTONE) {
                tombstones = true;
            }
            i += 1;
        }
        assert(tombstones == any_tombstone(self.specs@));
        let mut flags: u16 = 0;
        if tombstones {
            flags = flags + FLAG_TOMBSTONES;
        }
        if self.bloom_bits_per_key > 0 {
            flags = flags + FLAG_BLOOM;
        }
        let config = SplitSetConfig {
            policy: self.policy,
            tier_count: self.tier_count,
            base_count: self.base_count,
            byte_cap: self.byte_cap,
            gram_size: self.gram_size,
            body_kind: BodyKind::Trigram,
            sortcol: copy_sortcol(&self.sortcol),
            flags,
        };
        assert(manifest_config(config, self@));
        write_splitset(self.specs.as_slice(), &config)
    }

    /// Seals the open memtable (and any pending deletes) into one immutable delta split plus a
    /// new manifest, returned as bytes. Returns `Ok(None)` when there is nothing to flush.
    /// Resets the memtable and pending deletes and advances the epoch. A deletes-only flush
    /// emits a zero-document split that carries just the tombstone. `encode` turns the n-gram
    /// window, the sparse-index stride, the head boundary and the entries into the index file.
    pub fn flush<E: Fn(u16, u32, u32, Vec<IndexEntry>) -> Result<Vec<u8>, BuildError>>(
        &mut self,
        encode: E,
    ) -> (r: Result<Option<FlushOutput>, BuildError>)
        requires
            old(self)@.wf(),
            old(self)@.flush_seq < u32::MAX,
            old(self)@.next_epoch < u64::MAX,
            forall|g: u16, s: u32, h: u32, es: Vec<IndexEntry>|
                call_requires(encode, (g, s, h, es)),
        ensures
            final(self)@.wf(),
            old(self)@.clean() ==> r == Ok::<Option<FlushOutput>, BuildError>(None) && final(self)@
                == old(self)@,
            !old(self)@.clean() ==> exists|es: Vec<IndexEntry>, coded: Result<Vec<u8>, BuildError>|
                {
                    &&& encodes(es@, old(self)@.memtable, old(self)@.settings.head_boundary)
                    &&& #[trigger] call_ensures(encode, old(self)@.handing(es), coded)
                    &&& match coded {
                        Err(e) => r == Err::<Option<FlushOutput>, BuildError>(e) && final(self)@
                            == old(self)@,
                        Ok(split) => {
                            &&& final(self)@.specs.len() > 0
                            &&& flushed_split(final(self)@.specs.last(), old(self)@, split@.len())
                            &&& final(self)@ == after_flush(
                                old(self)@,
                                final(self)@.specs.last(),
                            )
                            &&& final(self)@.advanced()
                            &&& match r {
                                Ok(Some(out)) => out.split_name@
                                    == final(self)@.specs.last().data_file@ && out.split_bytes
                                    == split && emitted(Ok(out.manifest@), final(self)@),
                                Ok(None) => false,
                                Err(e) => emitted(Err(e), final(self)@),
                            }
                        },
                    }
                },
    {
        if self.memtable_count == 0 && self.pending_deletes.is_empty() {
            return Ok(None);
        }
        let ghost start = self@;
        let es = index_entries_of(&self.memtable, self.head_boundary);
        let ghost entries = es;
        let coded = encode(self.gram_size, self.stride, self.head_boundary, es);
        let ghost answer = coded;
        let split = match coded {
            Ok(split) => split,
            Err(e) => {
                assert(call_ensures(encode, start.handing(entries), answer));
                return Err(e);
            },
        };
        let name = text::numbered(self.name_prefix.as_str(), "d", self.flush_seq as u64, ".rrs");
        proof {
            reveal_strlit("d");
            assert("d"@ =~= seq!['d']);
            reveal_strlit(".rrs");
            assert(".rrs"@ =~= seq!['.', 'r', 'r', 's']);
        }
        let with_bloom = self.bloom_bits_per_key > 0 && self.memtable_count > 0;
        let summary = summary_of(
            &self.memtable,
            with_bloom,
            self.bloom_bits_per_key,
            &self.pending_deletes,
        );
        let flags: u16 = if self.pending_deletes.is_empty() {
            0
        } else {
            SPLIT_FLAG_HAS_TOMBSTONE
        };
        let lo: u32 = self.next_global_id - self.memtable_count;
        let hi: u32 = if self.memtable_count > 0 {
            self.next_global_id - 1
        } else {
            self.next_global_id
        };
        let spec = SplitSpec {
            data_file: name.clone(),
            tier: 0,
            doc_count: self.memtable_count,
            doc_id_lo: lo,
            doc_id_hi: hi,
            epoch: self.next_epoch,
            byte_size: split.len() as u64,
            flags,
            summary,
        };
        assert(flushed_split(spec, start, split@.len()));
        self.specs.push(spec);
        self.flush_seq = self.flush_seq + 1;
        self.next_epoch = self.next_epoch + 1;
        self.memtable.clear();
        self.memtable_count = 0;
        self.pending_deletes = RoaringBitmap::new();
        assert(self@ =~= after_flush(start, spec));
        assert(call_ensures(encode, start.handing(entries), answer));
        match self.emit_manifest() {
            Ok(manifest) => Ok(
                Some(FlushOutput { split_name: name, split_bytes: split, manifest }),
            ),
            Err(e) => Err(e),
        }
    }
}

/// A document's ID bounds those of the postings that it is added to.
pub proof fn lemma_with_doc_bounded(m: Map<u64, Set<u32>>, keys: Seq<u64>, id: u32)
    requires
        forall|k: u64, x: u32| m.contains_key(k) && #[trigger] m[k].contains(x) ==> x < id,
    ensures
        forall|k: u64, x: u32|
            postings::with_doc(m, keys, id).contains_key(k) && #[trigger] postings::with_doc(
                m,
                keys,
                id,
            )[k].contains(x) ==> x <= id,
    decreases keys.len(),
{
    if keys.len() > 0 {
        lemma_with_doc_bounded(m, keys.drop_last(), id);
        let p = postings::with_doc(m, keys.drop_last(), id);
        let r = postings::with_doc(m, keys, id);
        assert forall|k: u64, x: u32| r.contains_key(k) && #[trigger] r[k].contains(x) implies x
            <= id by {
            if p.contains_key(k) && p[k].contains(x) {
            } else {
                assert(x == id);
            }
        }
    }
}

/// The next free global doc id after `splits`.
pub open spec fn next_id_after(splits: Seq<splitset::SplitView>) -> u32
    decreases splits.len(),
{
    if splits.len() == 0 {
        0
    } else {
        let before = next_id_after(splits.drop_last());
        let hi = splits.last().doc_id_hi;
        let own = if hi == u32::MAX {
            hi
        } else {
            (hi + 1) as u32
        };
        if own > before {
            own
        } else {
            before
        }
    }
}

/// The latest epoch of `splits`; zero where there is none.
pub open spec fn last_epoch(splits: Seq<splitset::SplitView>) -> u64
    decreases splits.len(),
{
    if splits.len() == 0 {
        0
    } else {
        let before = last_epoch(splits.drop_last());
        if splits.last().epoch > before {
            splits.last().epoch
        } else {
            before
        }
    }
}

/// Whether `spec` carries split `s` of the manifest `m` forward.
pub open spec fn carries(
    spec: SplitSpec,
    s: splitset::SplitView,
    m: splitset::ManifestView,
) -> bool {
    &&& spec.data_file@ == s.data_file
    &&& spec.tier == s.tier
    &&& spec.doc_count == s.doc_count
    &&& spec.doc_id_lo == s.doc_id_lo
    &&& spec.doc_id_hi == s.doc_id_hi
    &&& spec.epoch == s.epoch
    &&& spec.byte_size == s.byte_size
    &&& spec.flags == s.flags
    &&& spec.summary@ == match m.summary(s) {
        Some(region) => region,
        None => Seq::empty(),
    }
}

/// Whether `w` resumes over `prev`: it carries every split, policy, tier count, byte cap and
/// rank source forward, goes on behind the last id and the latest epoch, and holds nothing yet.
pub open spec fn resumed(w: WriterView, prev: splitset::ManifestView) -> bool {
    &&& w.settings.byte_cap == prev.byte_cap
    &&& w.settings.policy == prev.policy
    &&& w.settings.tier_count == prev.tier_count
    &&& match (w.settings.sortcol, prev.sortcol) {
        (Some(sc), Some(d)) => sc.name@ == d.name && sc.column == d.column && sc.descending
            == d.descending,
        (None, None) => true,
        _ => false,
    }
    &&& w.base_count == prev.base_count
    &&& w.specs.len() == prev.splits.len()
    &&& forall|i: int|
        0 <= i < prev.splits.len() ==> carries(#[trigger] w.specs[i], prev.splits[i], prev)
    &&& w.next_global_id == next_id_after(prev.splits)
    &&& w.next_epoch == last_epoch(prev.splits) + 1
    &&& w.flush_seq == 0
    &&& w.compact_seq == 0
    &&& w.memtable == Map::<u64, Set<u32>>::empty()
    &&& w.memtable_count == 0
    &&& w.pending_deletes == Set::<u32>::empty()
}

proof fn lemma_last_epoch(splits: Seq<splitset::SplitView>, i: int)
    requires
        0 <= i < splits.len(),
    ensures
        splits[i].epoch <= last_epoch(splits),
    decreases splits.len(),
{
    if i < splits.len() - 1 {
        lemma_last_epoch(splits.drop_last(), i);
    }
}

/// The sum of the stored lengths of the postings of `p` under the first `n` of `keys`, with
/// eight bytes more for each.
pub open spec fn stored_total(p: KeyPostings, keys: Seq<u64>, n: nat) -> nat
    decreases n,
{
    if n == 0 {
        0
    } else {
        stored_total(p, keys, (n - 1) as nat) + bitmap::stored_len(p.stored(keys[n - 1])) + 8
    }
}

proof fn lemma_stored_total_grows(p: KeyPostings, keys: Seq<u64>, i: nat, n: nat)
    requires
        i <= n,
    ensures
        stored_total(p, keys, i) <= stored_total(p, keys, n),
    decreases n - i,
{
    if i < n {
        lemma_stored_total_grows(p, keys, i, (n - 1) as nat);
    }
}

impl SplitSetWriter {
    /// The memtable's postings as they are stored.
    pub closed spec fn memtable_stored(&self) -> KeyPostings {
        self.memtable
    }

    /// The estimate of the open memtable's serialized size: a 20-byte header, 24 bytes of
    /// dictionary for each key, eight bytes of sparse index for every `stride` keys, and each
    /// posting's stored length and eight bytes more.
    pub open spec fn memtable_estimate(&self) -> int {
        let n = postings::keys_of(self@.memtable).len() as int;
        let stride = if self@.settings.stride == 0 {
            1
        } else {
            self@.settings.stride as int
        };
        20 + n * 24 + (n + stride - 1) / stride * 8 + stored_total(
            self.memtable_stored(),
            postings::keys_of(self@.memtable),
            n as nat,
        )
    }

    /// An estimate of the open memtable's serialized size: the size trigger a client polls to
    /// decide when to flush.
    pub fn memtable_bytes(&self) -> (n: u64)
        requires
            self.memtable_estimate() <= u64::MAX,
        ensures
            n == self.memtable_estimate(),
    {
        let keys = self.memtable.keys();
        let nkeys: u128 = keys.len() as u128;
        let stride: u128 = if self.stride == 0 {
            1
        } else {
            self.stride as u128
        };
        let ghost total = stored_total(self.memtable, keys@, keys@.len());
        proof {
            assert((nkeys + stride - 1) / stride as int >= 0) by (nonlinear_arith)
                requires
                    nkeys >= 0,
                    stride >= 1,
            ;
            assert(total <= self.memtable_estimate());
        }
        let mut stored: u128 = 0;
        let mut i: usize = 0;
        while i < keys.len()
            invariant
                i <= keys@.len(),
                postings::lists_keys(keys@, self.memtable@),
                total == stored_total(self.memtable, keys@, keys@.len()),
                total <= u64::MAX,
                stored == stored_total(self.memtable, keys@, i as nat),
            decreases keys@.len() - i,
        {
            proof {
                assert(keys@.contains(keys@[i as int]));
                lemma_stored_total_grows(self.memtable, keys@, (i + 1) as nat, keys@.len());
            }
            if let Some(b) = self.memtable.get(keys[i]) {
                stored = stored + b.serialized_size() as u128 + 8;
            }
            i += 1;
        }
        let groups: u128 = (nkeys + stride - 1) / stride;
        assert(groups * 8 >= 0 && nkeys * 24 >= 0);
        (20 + nkeys * 24 + groups * 8 + stored) as u64
    }

    /// Resumes over an existing split set: carries forward every split's metadata (so the next
    /// cutover re-emits a complete manifest), continues the global id space past the highest
    /// id, and advances the epoch past the latest. The base policy, tier count, byte cap, and
    /// sort-column come from `prev`; `gram_size`/`head_boundary`/`stride`/`bloom_bits_per_key`
    /// (which the manifest does not fully record per split) are supplied to match the base.
    pub fn resume(
        prev: &SplitSet,
        gram_size: u16,
        head_boundary: u32,
        stride: u32,
        name_prefix: String,
        bloom_bits_per_key: u32,
    ) -> (w: SplitSetWriter)
        requires
            last_epoch(prev@.splits) < u64::MAX,
        ensures
            w@.wf(),
            w@.advanced(),
            resumed(w@, prev@),
            w@.settings.gram_size == gram_size,
            w@.settings.head_boundary == (if head_boundary == 0 {
                DEFAULT_HEAD_BOUNDARY
            } else {
                head_boundary
            }),
            w@.settings.stride == (if stride == 0 {
                DEFAULT_STRIDE
            } else {
                stride
            }),
            w@.settings.name_prefix == name_prefix@,
            w@.settings.bloom_bits_per_key == bloom_bits_per_key,
    {
        let splits = prev.splits();
        let ghost views = prev@.splits;
        let mut specs: Vec<SplitSpec> = Vec::new();
        let mut next_global_id: u32 = 0;
        let mut latest: u64 = 0;
        let mut i: usize = 0;
        assert(views.take(0) =~= Seq::<splitset::SplitView>::empty());
        while i < splits.len()
            invariant
                i <= splits@.len(),
                views == prev@.splits,
                views == splitset::split_views(splits@),
                prev@.wf(),
                specs@.len() == i,
                forall|j: int| 0 <= j < i ==> carries(#[trigger] specs@[j], views[j], prev@),
                next_global_id == next_id_after(views.take(i as int)),
                latest == last_epoch(views.take(i as int)),
            decreases splits@.len() - i,
        {
            let s = &splits[i];
            proof {
                assert(views[i as int] == s@);
                assert(prev@.summary_in_range(views[i as int]));
                assert(views.take(i + 1).drop_last() =~= views.take(i as int));
            }
            let summary: Vec<u8> = match prev.summary(s) {
                Some(region) => bytes::copy_range(region, 0, region.len()),
                None => Vec::new(),
            };
            proof {
                if let Some(region) = prev@.summary(s@) {
                    assert(summary@ =~= region);
                }
            }
            specs.push(
                SplitSpec {
                    data_file: s.data_file.clone(),
                    tier: s.tier,
                    doc_count: s.doc_count,
                    doc_id_lo: s.doc_id_lo,
                    doc_id_hi: s.doc_id_hi,
                    epoch: s.epoch,
                    byte_size: s.byte_size,
                    flags: s.flags,
                    summary,
                },
            );
            let own: u32 = s.doc_id_hi.saturating_add(1);
            if own > next_global_id {
                next_global_id = own;
            }
            if s.epoch > latest {
                latest = s.epoch;
            }
            i += 1;
        }
        assert(views.take(i as int) =~= views);
        proof {
            assert forall|j: int| 0 <= j < specs@.len() implies (#[trigger] specs@[j]).epoch
                <= latest by {
                lemma_last_epoch(views, j);
                assert(carries(specs@[j], views[j], prev@));
            }
        }
        let sortcol = match prev.sortcol() {
            Some(d) => Some(
                SortColSpec { name: d.name.clone(), column: d.column, descending: d.descending },
            ),
            None => None,
        };
        SplitSetWriter {
            gram_size,
            head_boundary: nonzero_or(head_boundary, DEFAULT_HEAD_BOUNDARY),
            stride: nonzero_or(stride, DEFAULT_STRIDE),
            byte_cap: prev.byte_cap(),
            name_prefix,
            policy: prev.policy(),
            tier_count: prev.tier_count(),
            sortcol,
            bloom_bits_per_key,
            base_count: prev.base_count(),
            specs,
            next_global_id,
            next_epoch: latest + 1,
            flush_seq: 0,
            compact_seq: 0,
            memtable: KeyPostings::new(),
            memtable_count: 0,
            pending_deletes: RoaringBitmap::new(),
        }
    }
}

/// A resumed writer hands out only doc ids above every id of the set it resumes.
pub proof fn law_resume_ids_fresh(splits: Seq<splitset::SplitView>, i: int)
    requires
        0 <= i < splits.len(),
        splits[i].doc_id_hi < u32::MAX,
    ensures
        next_id_after(splits) > splits[i].doc_id_hi,
    decreases splits.len(),
{
    if i < splits.len() - 1 {
        law_resume_ids_fresh(splits.drop_last(), i);
    }
}

/// A compaction input: a split's file name and its index bytes.
pub type CompactInput = (String, Vec<u8>);

/// The first split named `name`.
pub open spec fn spec_named(specs: Seq<SplitSpec>, name: Seq<char>) -> Option<int>
    decreases specs.len(),
{
    if specs.len() == 0 {
        None
    } else {
        match spec_named(specs.drop_last(), name) {
            Some(i) => Some(i),
            None => if specs.last().data_file@ == name {
                Some(specs.len() - 1)
            } else {
                None
            },
        }
    }
}

proof fn lemma_spec_named(specs: Seq<SplitSpec>, name: Seq<char>)
    ensures
        match spec_named(specs, name) {
            Some(i) => 0 <= i < specs.len() && specs[i].data_file@ == name && forall|j: int|
                0 <= j < i ==> (#[trigger] specs[j]).data_file@ != name,
            None => forall|j: int| 0 <= j < specs.len() ==> (#[trigger] specs[j]).data_file@
                != name,
        },
    decreases specs.len(),
{
    if specs.len() > 0 {
        let front = specs.drop_last();
        lemma_spec_named(front, name);
        assert forall|j: int| 0 <= j < front.len() implies #[trigger] specs[j] == front[j] by {}
    }
}

proof fn lemma_spec_named_is(specs: Seq<SplitSpec>, name: Seq<char>, i: int)
    requires
        0 <= i < specs.len(),
        specs[i].data_file@ == name,
        forall|j: int| 0 <= j < i ==> (#[trigger] specs[j]).data_file@ != name,
    ensures
        spec_named(specs, name) == Some(i),
{
    lemma_spec_named(specs, name);
    let k = spec_named(specs, name);
    match k {
        Some(k) => {
            if k < i {
                assert(specs[k].data_file@ != name);
            }
            if i < k {
                assert(specs[i].data_file@ != name);
            }
        },
        None => {
            assert(specs[i].data_file@ != name);
        },
    }
}

/// Finds the first split named `name`.
fn find_spec(specs: &[SplitSpec], name: &String) -> (at: Option<usize>)
    ensures
        match at {
            Some(i) => spec_named(specs@, name@) == Some(i as int) && i < specs@.len(),
            None => spec_named(specs@, name@) is None,
        },
{
    let mut i: usize = 0;
    while i < specs.len()
        invariant
            i <= specs@.len(),
            forall|j: int| 0 <= j < i ==> (#[trigger] specs@[j]).data_file@ != name@,
        decreases specs@.len() - i,
    {
        if specs[i].data_file == *name {
            proof {
                lemma_spec_named_is(specs@, name@, i as int);
            }
            return Some(i);
        }
        i += 1;
    }
    proof {
        lemma_spec_named(specs@, name@);
    }
    None
}

/// The global ID of the doc `local` of a split whose IDs start at `base`.
pub open spec fn offset_id(base: u32, local: u32) -> u32 {
    if base + local > u32::MAX {
        u32::MAX
    } else {
        (base + local) as u32
    }
}

/// The global IDs of a split's docs `s`.
pub open spec fn global_ids(s: Set<u32>, base: u32, absolute: bool) -> Set<u32> {
    if absolute {
        s
    } else {
        s.map(|l: u32| offset_id(base, l))
    }
}

/// `m` with the entries `es` of a split merged in, under their global IDs.
pub open spec fn with_entries(
    m: Map<u64, Set<u32>>,
    es: Seq<(u64, Set<u32>)>,
    base: u32,
    absolute: bool,
) -> Map<u64, Set<u32>>
    decreases es.len(),
{
    if es.len() == 0 {
        m
    } else {
        postings::with_ids(
            with_entries(m, es.drop_last(), base, absolute),
            es.last().0,
            global_ids(es.last().1, base, absolute),
        )
    }
}

/// What compaction has gathered: the postings of its inputs under global IDs, and the IDs that
/// their tombstones name.
#[verifier::ext_equal]
pub struct Gathered {
    /// The postings.
    pub postings: Map<u64, Set<u32>>,
    /// The tombstoned IDs.
    pub dead: Set<u32>,
}

/// What one input adds, or why it is refused.
pub open spec fn gather_one(
    g: Gathered,
    specs: Seq<SplitSpec>,
    base_count: u32,
    input: CompactInput,
) -> Result<Gathered, BuildError> {
    match spec_named(specs, input.0@) {
        None => Err(BuildError::NotInManifest(input.0)),
        Some(i) => if i < base_count {
            Err(BuildError::BaseSplit)
        } else {
            match tombstone_of(specs[i].summary@) {
                Err(e) => Err(e),
                Ok(tomb) => match index_entries(input.1@) {
                    Err(e) => Err(e),
                    Ok(es) => Ok(
                        Gathered {
                            postings: with_entries(
                                g.postings,
                                es,
                                specs[i].doc_id_lo,
                                splitset::has_flag(
                                    specs[i].flags as int,
                                    SPLIT_FLAG_ABSOLUTE_IDS as int,
                                ),
                            ),
                            dead: match tomb {
                                Some(d) => g.dead.union(d),
                                None => g.dead,
                            },
                        },
                    ),
                },
            }
        },
    }
}

/// What the inputs add up to, or why the first bad one is refused.
pub open spec fn gather(
    specs: Seq<SplitSpec>,
    base_count: u32,
    inputs: Seq<CompactInput>,
) -> Result<Gathered, BuildError>
    decreases inputs.len(),
{
    if inputs.len() == 0 {
        Ok(Gathered { postings: Map::empty(), dead: Set::empty() })
    } else {
        match gather(specs, base_count, inputs.drop_last()) {
            Err(e) => Err(e),
            Ok(g) => gather_one(g, specs, base_count, inputs.last()),
        }
    }
}

proof fn lemma_gather_err(
    specs: Seq<SplitSpec>,
    base_count: u32,
    inputs: Seq<CompactInput>,
    n: int,
    e: BuildError,
)
    requires
        0 <= n <= inputs.len(),
        gather(specs, base_count, inputs.take(n)) == Err::<Gathered, _>(e),
    ensures
        gather(specs, base_count, inputs) == Err::<Gathered, _>(e),
    decreases inputs.len() - n,
{
    if n == inputs.len() {
        assert(inputs.take(n) =~= inputs);
    } else {
        assert(inputs.take(n + 1).drop_last() =~= inputs.take(n));
        lemma_gather_err(specs, base_count, inputs, n + 1, e);
    }
}

/// Whether one of `inputs` is named `name`.
pub open spec fn is_input(inputs: Seq<CompactInput>, name: Seq<char>) -> bool {
    exists|i: int| 0 <= i < inputs.len() && (#[trigger] inputs[i]).0@ == name
}

/// The splits of `specs` that are no inputs, in order.
pub open spec fn kept(specs: Seq<SplitSpec>, inputs: Seq<CompactInput>) -> Seq<SplitSpec>
    decreases specs.len(),
{
    if specs.len() == 0 {
        Seq::empty()
    } else if is_input(inputs, specs.last().data_file@) {
        kept(specs.drop_last(), inputs)
    } else {
        kept(specs.drop_last(), inputs).push(specs.last())
    }
}

/// The latest epoch of the inputs' splits; `none` where there is no input.
pub open spec fn inputs_epoch(
    specs: Seq<SplitSpec>,
    inputs: Seq<CompactInput>,
    none: u64,
) -> u64
    decreases inputs.len(),
{
    if inputs.len() == 0 {
        none
    } else {
        let own = match spec_named(specs, inputs.last().0@) {
            Some(i) => specs[i].epoch,
            None => 0,
        };
        let before = inputs_epoch(specs, inputs.drop_last(), 0);
        if inputs.len() > 1 && before > own {
            before
        } else {
            own
        }
    }
}

/// Whether `lo` and `hi` are the least and the greatest of `s`; both zero where it is empty.
pub open spec fn spans(s: Set<u32>, lo: u32, hi: u32) -> bool {
    if s == Set::<u32>::empty() {
        lo == 0 && hi == 0
    } else {
        s.contains(lo) && s.contains(hi) && forall|x: u32| s.contains(x) ==> lo <= x <= hi
    }
}

/// Whether `s` is the split that a compaction of `inputs`, which gathered `g`, records in `w`,
/// with index bytes of length `size`.
pub open spec fn compacted_split(
    s: SplitSpec,
    w: WriterView,
    inputs: Seq<CompactInput>,
    g: Gathered,
    size: nat,
) -> bool {
    let m = postings::without_ids(g.postings, g.dead);
    &&& s.data_file@ == text::numbered_name(
        w.settings.name_prefix,
        seq!['c'],
        w.compact_seq as nat,
        seq!['.', 'r', 'r', 's'],
    )
    &&& s.tier == 0
    &&& s.doc_count == (postings::all_ids(m).len() as u64) as u32
    &&& spans(postings::all_ids(m), s.doc_id_lo, s.doc_id_hi)
    &&& s.epoch == inputs_epoch(w.specs, inputs, w.next_epoch)
    &&& s.byte_size == size
    &&& s.flags == (if g.dead == Set::<u32>::empty() {
        SPLIT_FLAG_ABSOLUTE_IDS as int
    } else {
        SPLIT_FLAG_ABSOLUTE_IDS + SPLIT_FLAG_HAS_TOMBSTONE
    })
    &&& summarizes(
        s.summary@,
        w.settings.bloom_bits_per_key > 0 && m != Map::<u64, Set<u32>>::empty(),
        m,
        w.settings.bloom_bits_per_key,
        g.dead,
    )
}

/// `w` after a compaction of `inputs` that recorded `s` in their place.
pub open spec fn after_compact(
    w: WriterView,
    inputs: Seq<CompactInput>,
    s: SplitSpec,
) -> WriterView {
    WriterView {
        specs: kept(w.specs, inputs).push(s),
        compact_seq: (w.compact_seq + 1) as u32,
        ..w
    }
}

/// The bitmap of the global IDs of a split's docs.
fn to_global_ids(b: &RoaringBitmap, base: u32) -> (g: RoaringBitmap)
    ensures
        bitmap::ids(g) == global_ids(bitmap::ids(*b), base, false),
{
    let locals = bitmap::to_vec(b);
    let mut g = RoaringBitmap::new();
    let mut i: usize = 0;
    let ghost s = bitmap::ids(*b);
    while i < locals.len()
        invariant
            i <= locals@.len(),
            s == bitmap::ids(*b),
            bitmap::lists(locals@, s),
            forall|x: u32|
                bitmap::ids(g).contains(x) <==> exists|j: int|
                    0 <= j < i && offset_id(base, #[trigger] locals@[j]) == x,
        decreases locals@.len() - i,
    {
        let ghost prior = bitmap::ids(g);
        g.insert(base.saturating_add(locals[i]));
        proof {
            assert forall|x: u32|
                bitmap::ids(g).contains(x) <==> exists|j: int|
                    0 <= j < i + 1 && offset_id(base, #[trigger] locals@[j]) == x by {
                if prior.contains(x) {
                    let j = choose|j: int|
                        0 <= j < i && offset_id(base, #[trigger] locals@[j]) == x;
                    assert(offset_id(base, locals@[j]) == x);
                }
                assert(offset_id(base, locals@[i as int]) == base.saturating_add(
                    locals@[i as int],
                ));
            }
        }
        i += 1;
    }
    proof {
        let want = global_ids(s, base, false);
        assert forall|x: u32| bitmap::ids(g).contains(x) <==> want.contains(x) by {
            if bitmap::ids(g).contains(x) {
                let j = choose|j: int|
                    0 <= j < locals@.len() && offset_id(base, #[trigger] locals@[j]) == x;
                assert(locals@.contains(locals@[j]));
                assert(s.contains(locals@[j]));
            }
            if want.contains(x) {
                let l = choose|l: u32| s.contains(l) && offset_id(base, l) == x;
                assert(locals@.contains(l));
                let j = choose|j: int| 0 <= j < locals@.len() && locals@[j] == l;
                assert(offset_id(base, locals@[j]) == x);
            }
        }
        assert(bitmap::ids(g) =~= want);
    }
    g
}

/// Merges the entries of a split into `m`, under their global IDs.
fn merge_entries(
    m: &mut KeyPostings,
    es: &[(u64, RoaringBitmap)],
    base: u32,
    absolute: bool,
)
    ensures
        final(m)@ == with_entries(old(m)@, entry_ids(es@), base, absolute),
{
    let ghost all = entry_ids(es@);
    let mut i: usize = 0;
    assert(all.take(0) =~= Seq::<(u64, Set<u32>)>::empty());
    while i < es.len()
        invariant
            i <= es@.len(),
            all == entry_ids(es@),
            m@ == with_entries(old(m)@, all.take(i as int), base, absolute),
        decreases es@.len() - i,
    {
        assert(all.take(i + 1).drop_last() =~= all.take(i as int));
        assert(all[i as int] == (es@[i as int].0, bitmap::ids(es@[i as int].1)));
        if absolute {
            m.merge(es[i].0, &es[i].1);
        } else {
            let g = to_global_ids(&es[i].1, base);
            m.merge(es[i].0, &g);
        }
        i += 1;
    }
    assert(all.take(i as int) =~= all);
}

impl SplitSetWriter {
    /// Gathers the postings and the tombstones of `inputs`.
    fn gather_inputs(&self, inputs: &[CompactInput]) -> (r: Result<
        (KeyPostings, RoaringBitmap),
        BuildError,
    >)
        ensures
            match r {
                Ok((m, dead)) => gather(self@.specs, self@.base_count, inputs@) == Ok::<
                    _,
                    BuildError,
                >(Gathered { postings: m@, dead: bitmap::ids(dead) }),
                Err(e) => gather(self@.specs, self@.base_count, inputs@) == Err::<Gathered, _>(e),
            },
    {
        let mut merged = KeyPostings::new();
        let mut dead = RoaringBitmap::new();
        let mut i: usize = 0;
        let ghost specs = self.specs@;
        assert(inputs@.take(0) =~= Seq::<CompactInput>::empty());
        while i < inputs.len()
            invariant
                i <= inputs@.len(),
                specs == self.specs@,
                gather(specs, self.base_count, inputs@.take(i as int)) == Ok::<_, BuildError>(
                    Gathered { postings: merged@, dead: bitmap::ids(dead) },
                ),
            decreases inputs@.len() - i,
        {
            let ghost g = Gathered { postings: merged@, dead: bitmap::ids(dead) };
            let ghost here = gather_one(g, specs, self.base_count, inputs@[i as int]);
            proof {
                assert(inputs@.take(i + 1).drop_last() =~= inputs@.take(i as int));
                assert(gather(specs, self.base_count, inputs@.take(i + 1)) == here);
                if let Err(e) = here {
                    lemma_gather_err(specs, self.base_count, inputs@, i + 1, e);
                }
            }
            let at: usize = match find_spec(self.specs.as_slice(), &inputs[i].0) {
                Some(at) => at,
                None => return Err(BuildError::NotInManifest(inputs[i].0.clone())),
            };
            if at < self.base_count as usize {
                return Err(BuildError::BaseSplit);
            }
            let spec = &self.specs[at];
            let tomb = match parse_tombstone(spec.summary.as_slice()) {
                Ok(tomb) => tomb,
                Err(e) => return Err(e),
            };
            let es = match read_rrs_entries(inputs[i].1.as_slice()) {
                Ok(es) => es,
                Err(e) => return Err(e),
            };
            if let Some(t) = &tomb {
                bitmap::union_with(&mut dead, t);
            }
            merge_entries(
                &mut merged,
                es.as_slice(),
                spec.doc_id_lo,
                flag_set(spec.flags, SPLIT_FLAG_ABSOLUTE_IDS),
            );
            i += 1;
        }
        assert(inputs@.take(i as int) =~= inputs@);
        Ok((merged, dead))
    }

    /// The latest epoch of the inputs' splits, or the next epoch where there is no input.
    fn latest_epoch(&self, inputs: &[CompactInput]) -> (epoch: u64)
        ensures
            epoch == inputs_epoch(self@.specs, inputs@, self@.next_epoch),
    {
        if inputs.len() == 0 {
            return self.next_epoch;
        }
        let mut latest: u64 = 0;
        let mut i: usize = 0;
        assert(inputs@.take(0) =~= Seq::<CompactInput>::empty());
        while i < inputs.len()
            invariant
                i <= inputs@.len(),
                latest == inputs_epoch(self.specs@, inputs@.take(i as int), 0),
            decreases inputs@.len() - i,
        {
            assert(inputs@.take(i + 1).drop_last() =~= inputs@.take(i as int));
            let own: u64 = match find_spec(self.specs.as_slice(), &inputs[i].0) {
                Some(at) => self.specs[at].epoch,
                None => 0,
            };
            if own > latest {
                latest = own;
            }
            i += 1;
        }
        assert(inputs@.take(i as int) =~= inputs@);
        latest
    }

    /// Drops the splits that are inputs.
    fn drop_inputs(&mut self, inputs: &[CompactInput])
        ensures
            final(self)@ == (WriterView { specs: kept(old(self)@.specs, inputs@), ..old(self)@ }),
    {
        let ghost all = self.specs@;
        let ghost start = self@;
        let ghost mut seen: int = 0;
        let mut i: usize = 0;
        assert(all.take(0) =~= Seq::<SplitSpec>::empty());
        while i < self.specs.len()
            invariant
                0 <= seen <= all.len(),
                i <= self.specs@.len(),
                start.specs == all,
                self@ == (WriterView { specs: self.specs@, ..start }),
                self.specs@.take(i as int) == kept(all.take(seen), inputs@),
                self.specs@.skip(i as int) == all.skip(seen),
            decreases all.len() - seen,
        {
            proof {
                assert(self.specs@.skip(i as int).len() == all.skip(seen).len());
                assert(seen < all.len());
                assert(self.specs@.skip(i as int)[0] == self.specs@[i as int]);
                assert(all.skip(seen)[0] == all[seen]);
                assert(all.take(seen + 1).drop_last() =~= all.take(seen));
                assert(all.skip(seen + 1) =~= all.skip(seen).drop_first());
            }
            let ghost before = self.specs@;
            if Self::named_in(&self.specs[i].data_file, inputs) {
                self.specs.remove(i);
                assert(self.specs@.take(i as int) =~= before.take(i as int));
                assert(self.specs@.skip(i as int) =~= before.skip(i as int).drop_first());
            } else {
                assert(before.take(i + 1) =~= before.take(i as int).push(before[i as int]));
                assert(before.skip(i + 1) =~= before.skip(i as int).drop_first());
                i += 1;
            }
            proof {
                seen = seen + 1;
            }
        }
        proof {
            assert(self.specs@.skip(i as int).len() == 0);
            assert(seen == all.len());
            assert(all.take(seen) =~= all);
            assert(self.specs@.take(i as int) =~= self.specs@);
        }
    }

    /// Whether one of `inputs` is named `name`.
    fn named_in(name: &String, inputs: &[CompactInput]) -> (yes: bool)
        ensures
            yes == is_input(inputs@, name@),
    {
        let mut i: usize = 0;
        while i < inputs.len()
            invariant
                i <= inputs@.len(),
                forall|j: int| 0 <= j < i ==> (#[trigger] inputs@[j]).0@ != name@,
            decreases inputs@.len() - i,
        {
            if inputs[i].0 == *name {
                return true;
            }
            i += 1;
        }
        false
    }

    /// Minor compaction: merges the named delta `inputs` (their index bytes supplied by the
    /// client) into **one** absolute-id split, dropping tombstoned docs, and rewrites the
    /// manifest with the inputs replaced by the merged split. Doc ids are preserved (no
    /// renumber). Errors if an input is not a current **delta** split: re-tiering the base is
    /// a full rebuild. `encode` turns the n-gram window, the sparse-index stride, the head
    /// boundary and the merged entries into the index file.
    pub fn compact<E: Fn(u16, u32, u32, Vec<IndexEntry>) -> Result<Vec<u8>, BuildError>>(
        &mut self,
        inputs: &[CompactInput],
        encode: E,
    ) -> (r: Result<CompactOutput, BuildError>)
        requires
            old(self)@.wf(),
            old(self)@.compact_seq < u32::MAX,
            forall|g: u16, s: u32, h: u32, es: Vec<IndexEntry>|
                call_requires(encode, (g, s, h, es)),
        ensures
            final(self)@.wf(),
            inputs@.len() > 0 && old(self)@.advanced() ==> final(self)@.advanced(),
            match gather(old(self)@.specs, old(self)@.base_count, inputs@) {
                Err(e) => r == Err::<CompactOutput, BuildError>(e) && final(self)@ == old(self)@,
                Ok(g) => exists|es: Vec<IndexEntry>, coded: Result<Vec<u8>, BuildError>|
                    {
                        &&& encodes(
                            es@,
                            postings::without_ids(g.postings, g.dead),
                            old(self)@.settings.head_boundary,
                        )
                        &&& #[trigger] call_ensures(encode, old(self)@.handing(es), coded)
                        &&& match coded {
                            Err(e) => r == Err::<CompactOutput, BuildError>(e) && final(self)@
                                == old(self)@,
                            Ok(split) => {
                                &&& final(self)@.specs.len() > 0
                                &&& compacted_split(
                                    final(self)@.specs.last(),
                                    old(self)@,
                                    inputs@,
                                    g,
                                    split@.len(),
                                )
                                &&& final(self)@ == after_compact(
                                    old(self)@,
                                    inputs@,
                                    final(self)@.specs.last(),
                                )
                                &&& match r {
                                    Ok(out) => {
                                        &&& out.split_name@
                                            == final(self)@.specs.last().data_file@
                                        &&& out.split_bytes == split
                                        &&& emitted(Ok(out.manifest@), final(self)@)
                                        &&& out.removed@ == inputs@.map_values(
                                            |i: CompactInput| i.0,
                                        )
                                    },
                                    Err(e) => emitted(Err(e), final(self)@),
                                }
                            },
                        }
                    },
            },
    {
        let ghost start = self@;
        let (mut merged, dead) = match self.gather_inputs(inputs) {
            Ok(found) => found,
            Err(e) => return Err(e),
        };
        let ghost g = Gathered { postings: merged@, dead: bitmap::ids(dead) };
        // Physically drop superseded docs, and the keys that then hold nothing.
        merged.subtract(&dead);
        let present = merged.all_ids();
        let (lo, hi) = match (present.min(), present.max()) {
            (Some(lo), Some(hi)) => (lo, hi),
            _ => (0u32, 0u32),
        };
        proof {
            assert(spans(bitmap::ids(present), lo, hi)) by {
                if bitmap::ids(present) != Set::<u32>::empty() {
                    assert(bitmap::ids(present).contains(lo));
                }
            }
        }
        let es = index_entries_of(&merged, self.head_boundary);
        let ghost entries = es;
        let coded = encode(self.gram_size, self.stride, self.head_boundary, es);
        let ghost answer = coded;
        let split = match coded {
            Ok(split) => split,
            Err(e) => {
                assert(call_ensures(encode, start.handing(entries), answer));
                return Err(e);
            },
        };
        let name = text::numbered(self.name_prefix.as_str(), "c", self.compact_seq as u64, ".rrs");
        proof {
            reveal_strlit("c");
            assert("c"@ =~= seq!['c']);
            reveal_strlit(".rrs");
            assert(".rrs"@ =~= seq!['.', 'r', 'r', 's']);
        }
        let with_bloom = self.bloom_bits_per_key > 0 && !merged.is_empty();
        let summary = summary_of(&merged, with_bloom, self.bloom_bits_per_key, &dead);
        let flags: u16 = if dead.is_empty() {
            SPLIT_FLAG_ABSOLUTE_IDS
        } else {
            SPLIT_FLAG_ABSOLUTE_IDS + SPLIT_FLAG_HAS_TOMBSTONE
        };
        let epoch: u64 = self.latest_epoch(inputs);
        let spec = SplitSpec {
            data_file: name.clone(),
            tier: 0,
            doc_count: present.len() as u32,
            doc_id_lo: lo,
            doc_id_hi: hi,
            epoch,
            byte_size: split.len() as u64,
            flags,
            summary,
        };
        assert(compacted_split(spec, start, inputs@, g, split@.len()));
        let mut removed: Vec<String> = Vec::new();
        let mut i: usize = 0;
        while i < inputs.len()
            invariant
                i <= inputs@.len(),
                removed@.len() == i,
                forall|j: int| 0 <= j < i ==> #[trigger] removed@[j] == inputs@[j].0,
            decreases inputs@.len() - i,
        {
            removed.push(inputs[i].0.clone());
            i += 1;
        }
        assert(removed@ =~= inputs@.map_values(|i: CompactInput| i.0));
        self.drop_inputs(inputs);
        self.specs.push(spec);
        self.compact_seq = self.compact_seq + 1;
        proof {
            assert(self@ =~= after_compact(start, inputs@, spec));
            lemma_base_kept(start.specs, start.base_count, inputs@);
            lemma_compact_epochs(start, inputs@, spec);
            assert(call_ensures(encode, start.handing(entries), answer));
        }
        match self.emit_manifest() {
            Ok(manifest) => Ok(
                CompactOutput { split_name: name, split_bytes: split, manifest, removed },
            ),
            Err(e) => Err(e),
        }
    }
}

proof fn lemma_inputs_not_base(
    specs: Seq<SplitSpec>,
    base_count: u32,
    inputs: Seq<CompactInput>,
    i: int,
)
    requires
        gather(specs, base_count, inputs) is Ok,
        0 <= i < base_count,
        base_count <= specs.len(),
    ensures
        !is_input(inputs, specs[i].data_file@),
    decreases inputs.len(),
{
    if inputs.len() > 0 {
        lemma_inputs_not_base(specs, base_count, inputs.drop_last(), i);
        lemma_spec_named(specs, inputs.last().0@);
        assert forall|j: int| 0 <= j < inputs.len() implies (#[trigger] inputs[j]).0@
            != specs[i].data_file@ by {
            if j < inputs.len() - 1 {
                assert(inputs.drop_last()[j] == inputs[j]);
            }
        }
    }
}

/// Compaction keeps every base split, in place.
pub proof fn lemma_base_kept(specs: Seq<SplitSpec>, base_count: u32, inputs: Seq<CompactInput>)
    requires
        gather(specs, base_count, inputs) is Ok,
        base_count <= specs.len(),
    ensures
        kept(specs, inputs).len() >= base_count,
        kept(specs, inputs).take(base_count as int) == specs.take(base_count as int),
{
    lemma_kept_prefix(specs, base_count, inputs, specs.len() as int);
    assert(specs.take(specs.len() as int) =~= specs);
}

proof fn lemma_kept_prefix(
    specs: Seq<SplitSpec>,
    base_count: u32,
    inputs: Seq<CompactInput>,
    n: int,
)
    requires
        gather(specs, base_count, inputs) is Ok,
        base_count <= specs.len(),
        0 <= n <= specs.len(),
    ensures
        ({
            let m = if n <= base_count {
                n
            } else {
                base_count as int
            };
            kept(specs.take(n), inputs).len() >= m && kept(specs.take(n), inputs).take(m)
                == specs.take(m) && (n <= base_count ==> kept(specs.take(n), inputs) == specs.take(
                n,
            ))
        }),
    decreases n,
{
    if n == 0 {
        assert(kept(specs.take(0), inputs).take(0) =~= specs.take(0));
        assert(kept(specs.take(0), inputs) =~= specs.take(0));
    } else {
        lemma_kept_prefix(specs, base_count, inputs, n - 1);
        assert(specs.take(n).drop_last() =~= specs.take(n - 1));
        let a = kept(specs.take(n - 1), inputs);
        let b = kept(specs.take(n), inputs);
        if n <= base_count {
            lemma_inputs_not_base(specs, base_count, inputs, n - 1);
            assert(b =~= specs.take(n));
            assert(b.take(n) =~= specs.take(n));
        } else {
            assert(b.take(base_count as int) =~= a.take(base_count as int));
        }
    }
}

proof fn lemma_kept_epochs(specs: Seq<SplitSpec>, inputs: Seq<CompactInput>, top: u64)
    requires
        forall|i: int| 0 <= i < specs.len() ==> (#[trigger] specs[i]).epoch <= top,
    ensures
        forall|i: int| 0 <= i < kept(specs, inputs).len() ==> (#[trigger] kept(
            specs,
            inputs,
        )[i]).epoch <= top,
    decreases specs.len(),
{
    if specs.len() > 0 {
        let front = specs.drop_last();
        assert forall|i: int| 0 <= i < front.len() implies (#[trigger] front[i]).epoch <= top by {
            assert(front[i] == specs[i]);
        }
        lemma_kept_epochs(front, inputs, top);
        assert(specs[specs.len() - 1].epoch <= top);
        let (a, b) = (kept(front, inputs), kept(specs, inputs));
        assert forall|i: int| 0 <= i < b.len() implies (#[trigger] b[i]).epoch <= top by {
            if i < a.len() {
                assert(b[i] == a[i]);
            } else {
                assert(b[i] == specs.last());
            }
        }
    }
}

proof fn lemma_inputs_epoch(specs: Seq<SplitSpec>, inputs: Seq<CompactInput>, none: u64, top: u64)
    requires
        forall|i: int| 0 <= i < specs.len() ==> (#[trigger] specs[i]).epoch <= top,
        inputs.len() == 0 ==> none <= top,
    ensures
        inputs_epoch(specs, inputs, none) <= top,
    decreases inputs.len(),
{
    if inputs.len() > 0 {
        lemma_inputs_epoch(specs, inputs.drop_last(), 0, top);
        lemma_spec_named(specs, inputs.last().0@);
    }
}

proof fn lemma_compact_epochs(w: WriterView, inputs: Seq<CompactInput>, s: SplitSpec)
    requires
        w.wf(),
        gather(w.specs, w.base_count, inputs) is Ok,
        s.epoch == inputs_epoch(w.specs, inputs, w.next_epoch),
    ensures
        forall|i: int|
            0 <= i < after_compact(w, inputs, s).specs.len() ==> (#[trigger] after_compact(
                w,
                inputs,
                s,
            ).specs[i]).epoch <= w.next_epoch,
        inputs.len() > 0 && w.advanced() ==> after_compact(w, inputs, s).advanced(),
{
    lemma_kept_epochs(w.specs, inputs, w.next_epoch);
    lemma_inputs_epoch(w.specs, inputs, w.next_epoch, w.next_epoch);
    if inputs.len() > 0 && w.advanced() {
        lemma_spec_named(w.specs, inputs.last().0@);
        let at = spec_named(w.specs, inputs.last().0@)->0;
        assert(w.specs[at].epoch < w.next_epoch);
        let top = (w.next_epoch - 1) as u64;
        assert forall|i: int| 0 <= i < w.specs.len() implies (#[trigger] w.specs[i]).epoch
            <= top by {
            assert(w.specs[i].epoch < w.next_epoch);
        }
        lemma_kept_epochs(w.specs, inputs, top);
        lemma_inputs_epoch(w.specs, inputs, w.next_epoch, top);
    }
}

/// Whether the split of `input` holds the doc with the global ID `x` under `key`.
pub open spec fn input_holds(specs: Seq<SplitSpec>, input: CompactInput, key: u64, x: u32) -> bool {
    match (spec_named(specs, input.0@), index_entries(input.1@)) {
        (Some(i), Ok(es)) => entries_hold(
            es,
            key,
            x,
            specs[i].doc_id_lo,
            splitset::has_flag(specs[i].flags as int, SPLIT_FLAG_ABSOLUTE_IDS as int),
        ),
        _ => false,
    }
}

/// Whether the entries `es` hold the doc with the global ID `x` under `key`.
pub open spec fn entries_hold(
    es: Seq<(u64, Set<u32>)>,
    key: u64,
    x: u32,
    base: u32,
    absolute: bool,
) -> bool {
    exists|j: int|
        0 <= j < es.len() && (#[trigger] es[j]).0 == key && global_ids(
            es[j].1,
            base,
            absolute,
        ).contains(x)
}

proof fn lemma_with_entries(
    m: Map<u64, Set<u32>>,
    es: Seq<(u64, Set<u32>)>,
    base: u32,
    absolute: bool,
    key: u64,
    x: u32,
)
    ensures
        postings::posting(with_entries(m, es, base, absolute), key).contains(x)
            <==> postings::posting(m, key).contains(x) || entries_hold(es, key, x, base, absolute),
    decreases es.len(),
{
    if es.len() > 0 {
        let front = es.drop_last();
        lemma_with_entries(m, front, base, absolute, key, x);
        assert forall|j: int| 0 <= j < front.len() implies #[trigger] es[j] == front[j] by {}
        if entries_hold(front, key, x, base, absolute) {
            let j = choose|j: int|
                0 <= j < front.len() && (#[trigger] front[j]).0 == key && global_ids(
                    front[j].1,
                    base,
                    absolute,
                ).contains(x);
            assert(es[j].0 == key);
        }
        if es.last().0 == key && global_ids(es.last().1, base, absolute).contains(x) {
            assert(es[es.len() - 1].0 == key);
        }
    }
}

/// What compaction gathers under a key is exactly what the inputs hold under it, by global ID.
pub proof fn law_gathered(
    specs: Seq<SplitSpec>,
    base_count: u32,
    inputs: Seq<CompactInput>,
    key: u64,
    x: u32,
)
    requires
        gather(specs, base_count, inputs) is Ok,
    ensures
        postings::posting(gather(specs, base_count, inputs)->Ok_0.postings, key).contains(x)
            <==> exists|i: int|
            0 <= i < inputs.len() && input_holds(specs, #[trigger] inputs[i], key, x),
    decreases inputs.len(),
{
    if inputs.len() > 0 {
        let front = inputs.drop_last();
        law_gathered(specs, base_count, front, key, x);
        let g = gather(specs, base_count, front)->Ok_0;
        let i = spec_named(specs, inputs.last().0@)->0;
        let es = index_entries(inputs.last().1@)->Ok_0;
        lemma_with_entries(
            g.postings,
            es,
            specs[i].doc_id_lo,
            splitset::has_flag(specs[i].flags as int, SPLIT_FLAG_ABSOLUTE_IDS as int),
            key,
            x,
        );
        if exists|i: int| 0 <= i < front.len() && input_holds(specs, #[trigger] front[i], key, x) {
            let j = choose|i: int|
                0 <= i < front.len() && input_holds(specs, #[trigger] front[i], key, x);
            assert(inputs[j] == front[j]);
            assert(input_holds(specs, inputs[j], key, x));
        }
        if exists|i: int|
            0 <= i < inputs.len() && input_holds(specs, #[trigger] inputs[i], key, x) {
            let j = choose|i: int|
                0 <= i < inputs.len() && input_holds(specs, #[trigger] inputs[i], key, x);
            if j < front.len() {
                assert(front[j] == inputs[j]);
                assert(input_holds(specs, front[j], key, x));
            }
        }
        if input_holds(specs, inputs.last(), key, x) {
            assert(input_holds(specs, inputs[inputs.len() - 1], key, x));
        }
    }
}

/// The docs of a compacted split are those gathered, without the tombstoned ones.
pub proof fn law_compact_ids(m: Map<u64, Set<u32>>, dead: Set<u32>)
    ensures
        postings::all_ids(postings::without_ids(m, dead)) == postings::all_ids(m).difference(dead),
{
    let w = postings::without_ids(m, dead);
    let a = postings::all_ids(w);
    let b = postings::all_ids(m).difference(dead);
    assert forall|x: u32| a.contains(x) <==> b.contains(x) by {
        if a.contains(x) {
            let k = choose|k: u64| w.contains_key(k) && #[trigger] w[k].contains(x);
            assert(m.contains_key(k) && m[k].contains(x));
        }
        if b.contains(x) {
            let k = choose|k: u64| m.contains_key(k) && #[trigger] m[k].contains(x);
            assert(!m[k].subset_of(dead));
            assert(w.contains_key(k) && w[k].contains(x));
        }
    }
    assert(a =~= b);
}

/// Compaction keeps every posting but those of tombstoned docs: under a key, the compacted split
/// holds exactly the docs that some input holds and no input's tombstone names.
pub proof fn law_compact_keeps_postings(
    specs: Seq<SplitSpec>,
    base_count: u32,
    inputs: Seq<CompactInput>,
    key: u64,
    x: u32,
)
    requires
        gather(specs, base_count, inputs) is Ok,
    ensures
        ({
            let g = gather(specs, base_count, inputs)->Ok_0;
            postings::posting(postings::without_ids(g.postings, g.dead), key).contains(x)
                <==> !g.dead.contains(x) && exists|i: int|
                0 <= i < inputs.len() && input_holds(specs, #[trigger] inputs[i], key, x)
        }),
{
    let g = gather(specs, base_count, inputs)->Ok_0;
    law_gathered(specs, base_count, inputs, key, x);
    if g.postings.contains_key(key) && g.postings[key].contains(x) && !g.dead.contains(x) {
        assert(!g.postings[key].subset_of(g.dead));
    }
}

/// Whether the tombstone of `s` names `x`.
pub open spec fn tombstoned(s: SplitSpec, x: u32) -> bool {
    tombstone_of(s.summary@) matches Ok(Some(dead)) && dead.contains(x)
}

/// Whether some tombstone of `specs` names `x`.
pub open spec fn some_tombstoned(specs: Seq<SplitSpec>, x: u32) -> bool {
    exists|i: int| 0 <= i < specs.len() && tombstoned(#[trigger] specs[i], x)
}

/// Whether no two of `specs` have one name.
pub open spec fn names_differ(specs: Seq<SplitSpec>) -> bool {
    forall|i: int, j: int|
        #![trigger specs[i], specs[j]]
        0 <= i < j < specs.len() ==> specs[i].data_file@ != specs[j].data_file@
}

proof fn lemma_gathered_dead(
    specs: Seq<SplitSpec>,
    base_count: u32,
    inputs: Seq<CompactInput>,
    x: u32,
)
    requires
        gather(specs, base_count, inputs) is Ok,
        names_differ(specs),
    ensures
        gather(specs, base_count, inputs)->Ok_0.dead.contains(x) <==> exists|i: int|
            0 <= i < specs.len() && tombstoned(#[trigger] specs[i], x) && is_input(
                inputs,
                specs[i].data_file@,
            ),
    decreases inputs.len(),
{
    if inputs.len() > 0 {
        let front = inputs.drop_last();
        lemma_gathered_dead(specs, base_count, front, x);
        let name = inputs.last().0@;
        lemma_spec_named(specs, name);
        let at = spec_named(specs, name)->0;
        assert(inputs[inputs.len() - 1].0@ == name);
        assert forall|n: Seq<char>| is_input(front, n) implies is_input(inputs, n) by {
            let k = choose|k: int| 0 <= k < front.len() && (#[trigger] front[k]).0@ == n;
            assert(inputs[k].0@ == n);
        }
        assert forall|n: Seq<char>| is_input(inputs, n) implies is_input(front, n) || n == name by {
            let k = choose|k: int| 0 <= k < inputs.len() && (#[trigger] inputs[k]).0@ == n;
            if k < front.len() {
                assert(front[k].0@ == n);
            }
        }
        if exists|i: int|
            0 <= i < specs.len() && tombstoned(#[trigger] specs[i], x) && is_input(
                inputs,
                specs[i].data_file@,
            ) {
            let i = choose|i: int|
                0 <= i < specs.len() && tombstoned(#[trigger] specs[i], x) && is_input(
                    inputs,
                    specs[i].data_file@,
                );
            if specs[i].data_file@ == name {
                assert(specs[at].data_file@ == name);
                assert(i == at);
            }
        }
        if tombstoned(specs[at], x) {
            assert(is_input(inputs, specs[at].data_file@));
        }
    } else {
        assert forall|i: int| 0 <= i < specs.len() implies !is_input(
            inputs,
            (#[trigger] specs[i]).data_file@,
        ) by {}
    }
}

proof fn lemma_kept_tombstones(specs: Seq<SplitSpec>, inputs: Seq<CompactInput>, x: u32)
    ensures
        some_tombstoned(kept(specs, inputs), x) <==> exists|i: int|
            0 <= i < specs.len() && tombstoned(#[trigger] specs[i], x) && !is_input(
                inputs,
                specs[i].data_file@,
            ),
    decreases specs.len(),
{
    if specs.len() > 0 {
        let front = specs.drop_last();
        let last = specs.last();
        lemma_kept_tombstones(front, inputs, x);
        let k = kept(front, inputs);
        assert(specs[specs.len() - 1] == last);
        assert forall|i: int| 0 <= i < front.len() implies #[trigger] specs[i] == front[i] by {}
        if !is_input(inputs, last.data_file@) {
            let all = k.push(last);
            assert(all[k.len() as int] == last);
            if some_tombstoned(k, x) {
                let i = choose|i: int| 0 <= i < k.len() && tombstoned(#[trigger] k[i], x);
                assert(all[i] == k[i]);
            }
            if some_tombstoned(all, x) {
                let i = choose|i: int| 0 <= i < all.len() && tombstoned(#[trigger] all[i], x);
                if i < k.len() {
                    assert(k[i] == all[i]);
                }
            }
        }
        if exists|i: int|
            0 <= i < front.len() && tombstoned(#[trigger] front[i], x) && !is_input(
                inputs,
                front[i].data_file@,
            ) {
            let i = choose|i: int|
                0 <= i < front.len() && tombstoned(#[trigger] front[i], x) && !is_input(
                    inputs,
                    front[i].data_file@,
                );
            assert(specs[i] == front[i]);
        }
    }
}

/// Compaction keeps what is superseded: a doc is named by a tombstone after it exactly if it was
/// before.
pub proof fn law_compact_keeps_tombstones(
    w: WriterView,
    inputs: Seq<CompactInput>,
    s: SplitSpec,
    size: nat,
    x: u32,
)
    requires
        gather(w.specs, w.base_count, inputs) is Ok,
        compacted_split(s, w, inputs, gather(w.specs, w.base_count, inputs)->Ok_0, size),
        s.summary@.len() <= u32::MAX,
        names_differ(w.specs),
    ensures
        some_tombstoned(after_compact(w, inputs, s).specs, x) <==> some_tombstoned(w.specs, x),
{
    let g = gather(w.specs, w.base_count, inputs)->Ok_0;
    let m = postings::without_ids(g.postings, g.dead);
    let k = kept(w.specs, inputs);
    let after = k.push(s);
    law_summary_read_back(
        s.summary@,
        w.settings.bloom_bits_per_key > 0 && m != Map::<u64, Set<u32>>::empty(),
        m,
        w.settings.bloom_bits_per_key,
        g.dead,
    );
    assert(tombstoned(s, x) <==> g.dead.contains(x));
    lemma_gathered_dead(w.specs, w.base_count, inputs, x);
    lemma_kept_tombstones(w.specs, inputs, x);
    assert(after[k.len() as int] == s);
    if some_tombstoned(k, x) {
        let i = choose|i: int| 0 <= i < k.len() && tombstoned(#[trigger] k[i], x);
        assert(after[i] == k[i]);
    }
    if some_tombstoned(after, x) {
        let i = choose|i: int| 0 <= i < after.len() && tombstoned(#[trigger] after[i], x);
        if i < k.len() {
            assert(k[i] == after[i]);
        }
    }
}

proof fn lemma_find_tombstone(tombstoned: bool, posting: Seq<u8>)
    requires
        posting.len() <= u32::MAX,
        posting.len() <= usize::MAX,
    ensures
        tlv::find(
            record_if(tombstoned, SUMMARY_TAG_TOMBSTONE, posting),
            SUMMARY_TAG_TOMBSTONE,
        ) == Ok::<_, IndexError>(
            if tombstoned {
                Some(posting)
            } else {
                None
            },
        ),
        tlv::find(record_if(tombstoned, SUMMARY_TAG_TOMBSTONE, posting), SUMMARY_TAG_BLOOM) == Ok::<
            Option<Seq<u8>>,
            IndexError,
        >(None),
{
    let tail = record_if(tombstoned, SUMMARY_TAG_TOMBSTONE, posting);
    let none = Seq::<u8>::empty();
    if tombstoned {
        assert(tail + none =~= tail);
        tlv::law_tlv_found(SUMMARY_TAG_TOMBSTONE, posting, none);
        tlv::law_tlv_skipped(SUMMARY_TAG_TOMBSTONE, posting, none, SUMMARY_TAG_BLOOM);
    }
}

proof fn lemma_find_parts(with_bloom: bool, filter: Seq<u8>, tombstoned: bool, posting: Seq<u8>)
    requires
        with_bloom ==> filter.len() <= u32::MAX && filter.len() <= usize::MAX,
        posting.len() <= u32::MAX,
        posting.len() <= usize::MAX,
    ensures
        ({
            let summary = record_if(with_bloom, SUMMARY_TAG_BLOOM, filter) + record_if(
                tombstoned,
                SUMMARY_TAG_TOMBSTONE,
                posting,
            );
            &&& tlv::find(summary, SUMMARY_TAG_TOMBSTONE) == Ok::<_, IndexError>(
                if tombstoned {
                    Some(posting)
                } else {
                    None
                },
            )
            &&& tlv::find(summary, SUMMARY_TAG_BLOOM) == Ok::<_, IndexError>(
                if with_bloom {
                    Some(filter)
                } else {
                    None
                },
            )
        }),
{
    let tail = record_if(tombstoned, SUMMARY_TAG_TOMBSTONE, posting);
    lemma_find_tombstone(tombstoned, posting);
    if with_bloom {
        tlv::law_tlv_found(SUMMARY_TAG_BLOOM, filter, tail);
        tlv::law_tlv_skipped(SUMMARY_TAG_BLOOM, filter, tail, SUMMARY_TAG_TOMBSTONE);
    } else {
        assert(record_if(with_bloom, SUMMARY_TAG_BLOOM, filter) + tail =~= tail);
    }
}

/// Whether `filter` is a Bloom filter over the keys of `m`.
pub open spec fn filters_keys_of(filter: Seq<u8>, m: Map<u64, Set<u32>>, bits_per_key: u32) -> bool {
    exists|keys: Seq<u64>|
        postings::lists_keys(keys, m) && #[trigger] bloom::is_filter(filter, keys, bits_per_key)
}

/// A split's summary that fits the manifest gives back its tombstone, and its Bloom filter is
/// one over the split's keys.
pub proof fn law_summary_read_back(
    summary: Seq<u8>,
    with_bloom: bool,
    m: Map<u64, Set<u32>>,
    bits_per_key: u32,
    dead: Set<u32>,
)
    requires
        summarizes(summary, with_bloom, m, bits_per_key, dead),
        summary.len() <= u32::MAX,
    ensures
        tombstone_of(summary) == Ok::<_, BuildError>(
            if dead == Set::<u32>::empty() {
                None
            } else {
                Some(dead)
            },
        ),
        match tlv::find(summary, SUMMARY_TAG_BLOOM) {
            Ok(Some(filter)) => with_bloom && filters_keys_of(filter, m, bits_per_key),
            Ok(None) => !with_bloom,
            Err(_) => false,
        },
{
    let (filter, keys, posting) = choose|filter: Seq<u8>, keys: Seq<u64>, posting: Seq<u8>|
        #[trigger] summary_parts(
            summary,
            with_bloom,
            m,
            bits_per_key,
            dead,
            filter,
            keys,
            posting,
        );
    let tombstoned = dead != Set::<u32>::empty();
    let kept_posting = if tombstoned {
        posting
    } else {
        Seq::<u8>::empty()
    };
    assert(record_if(tombstoned, SUMMARY_TAG_TOMBSTONE, posting) == record_if(
        tombstoned,
        SUMMARY_TAG_TOMBSTONE,
        kept_posting,
    ));
    let front = record_if(with_bloom, SUMMARY_TAG_BLOOM, filter);
    let tail = record_if(tombstoned, SUMMARY_TAG_TOMBSTONE, kept_posting);
    assert(summary.len() == front.len() + tail.len());
    assert(with_bloom ==> front.len() == 5 + filter.len());
    assert(tombstoned ==> tail.len() == 5 + kept_posting.len());
    lemma_find_parts(with_bloom, filter, tombstoned, kept_posting);
    assert(summary == front + tail);
    if with_bloom {
        assert(tlv::find(summary, SUMMARY_TAG_BLOOM) == Ok::<_, IndexError>(Some(filter)));
        assert(postings::lists_keys(keys, m) && bloom::is_filter(filter, keys, bits_per_key));
        assert(filters_keys_of(filter, m, bits_per_key));
    } else {
        assert(tlv::find(summary, SUMMARY_TAG_BLOOM) == Ok::<_, IndexError>(None::<Seq<u8>>));
    }
}

/// A deleted doc is masked: the manifest of a flush, read back, names every deleted ID in the
/// new split's tombstone, and none besides.
pub proof fn law_flush_masks_deletes(w: WriterView, s: SplitSpec, size: nat, c: SplitSetConfig)
    requires
        flushed_split(s, w, size),
        manifest_config(c, after_flush(w, s)),
        splitset_build::write_error(w.specs.push(s), c) is None,
        splitset_build::manifest_bytes(w.specs.push(s), c).len() <= usize::MAX,
    ensures
        ({
            let r = splitset_build::recorded(w.specs.push(s), c);
            r.splits.len() == w.specs.len() + 1 && r.tombstone(r.splits.last()) == Ok::<
                _,
                IndexError,
            >(
                if w.pending_deletes == Set::<u32>::empty() {
                    None
                } else {
                    Some(w.pending_deletes)
                },
            )
        }),
{
    let specs = w.specs.push(s);
    let r = splitset_build::recorded(specs, c);
    let n = w.specs.len() as int;
    splitset_build::law_manifest_roundtrip(specs, c);
    assert(specs[n] == s);
    assert(r.splits.last() == r.splits[n]);
    assert(r.summary(r.splits[n]) == (if s.summary@.len() == 0 {
        None
    } else {
        Some(s.summary@)
    }));
    law_summary_read_back(
        s.summary@,
        w.settings.bloom_bits_per_key > 0 && w.memtable_count > 0,
        w.memtable,
        w.settings.bloom_bits_per_key,
        w.pending_deletes,
    );
}

/// A flush lists every earlier split unchanged, and then one delta split from a later epoch than
/// all of them: with the docs added and the docs deleted since the last flush, and the size of
/// its file. Then nothing is pending, and the ids go on where they were.
pub proof fn law_flush(w: WriterView, s: SplitSpec, size: nat, c: SplitSetConfig)
    requires
        w.wf(),
        w.advanced(),
        w.next_epoch < u64::MAX,
        flushed_split(s, w, size),
        manifest_config(c, after_flush(w, s)),
        splitset_build::write_error(w.specs.push(s), c) is None,
        splitset_build::manifest_bytes(w.specs.push(s), c).len() <= usize::MAX,
    ensures
        ({
            let m = splitset_build::manifest_bytes(w.specs.push(s), c);
            let r = splitset_build::recorded(w.specs.push(s), c);
            let last = r.splits.last();
            &&& splitset::manifest_of(
                m.take(splitset::HEADER_SIZE as int),
                m.subrange(splitset::HEADER_SIZE as int, m.len() as int),
            ) == Ok::<_, IndexError>(r)
            &&& r.splits.len() == w.specs.len() + 1
            &&& r.base_count == w.base_count
            &&& forall|i: int|
                0 <= i < w.specs.len() ==> carries(w.specs[i], #[trigger] r.splits[i], r)
                    && r.splits[i].epoch < last.epoch
            &&& last.data_file == s.data_file@
            &&& last.doc_count == w.memtable_count
            &&& last.byte_size == size
            &&& w.memtable_count > 0 ==> last.doc_id_lo == w.next_global_id - w.memtable_count
                && last.doc_id_hi == w.next_global_id - 1
            &&& last.has_tombstone() == (w.pending_deletes != Set::<u32>::empty())
            &&& r.tombstone(last) == Ok::<_, IndexError>(
                if w.pending_deletes == Set::<u32>::empty() {
                    None
                } else {
                    Some(w.pending_deletes)
                },
            )
        }),
        after_flush(w, s).clean(),
        after_flush(w, s).advanced(),
        after_flush(w, s).next_global_id == w.next_global_id,
{
    let specs = w.specs.push(s);
    splitset_build::law_manifest_roundtrip(specs, c);
    law_flush_masks_deletes(w, s, size, c);
    lemma_flush_lists(w, s, c);
    lemma_flush_advances(w, s);
    let n = w.specs.len() as int;
    let last = splitset_build::recorded(specs, c).splits.last();
    assert(specs[n] == s);
    assert(last == splitset_build::recorded_split(specs, n));
    assert(last.flags == s.flags);
    assert(!splitset::has_flag(0, SPLIT_FLAG_HAS_TOMBSTONE as int));
    assert(splitset::has_flag(SPLIT_FLAG_HAS_TOMBSTONE as int, SPLIT_FLAG_HAS_TOMBSTONE as int));
}

proof fn lemma_flush_advances(w: WriterView, s: SplitSpec)
    requires
        w.advanced(),
        w.next_epoch < u64::MAX,
        s.epoch == w.next_epoch,
    ensures
        after_flush(w, s).advanced(),
{
    let after = after_flush(w, s);
    assert forall|i: int| 0 <= i < after.specs.len() implies (#[trigger] after.specs[i]).epoch
        < after.next_epoch by {
        if i < w.specs.len() {
            assert(after.specs[i] == w.specs[i]);
        }
    }
}

proof fn lemma_flush_lists(w: WriterView, s: SplitSpec, c: SplitSetConfig)
    requires
        w.advanced(),
        s.epoch == w.next_epoch,
        splitset_build::write_error(w.specs.push(s), c) is None,
        splitset_build::manifest_bytes(w.specs.push(s), c).len() <= usize::MAX,
    ensures
        ({
            let r = splitset_build::recorded(w.specs.push(s), c);
            forall|i: int|
                0 <= i < w.specs.len() ==> carries(w.specs[i], #[trigger] r.splits[i], r)
                    && r.splits[i].epoch < r.splits.last().epoch
        }),
{
    let specs = w.specs.push(s);
    let r = splitset_build::recorded(specs, c);
    let n = w.specs.len() as int;
    splitset_build::law_manifest_roundtrip(specs, c);
    assert(specs[n] == s);
    assert(r.splits.last() == r.splits[n]);
    assert forall|i: int| 0 <= i < n implies carries(w.specs[i], #[trigger] r.splits[i], r)
        && r.splits[i].epoch < r.splits.last().epoch by {
        assert(specs[i] == w.specs[i]);
        assert(w.specs[i].epoch < w.next_epoch);
        assert(r.summary(r.splits[i]) == (if specs[i].summary@.len() == 0 {
            None
        } else {
            Some(specs[i].summary@)
        }));
        assert(w.specs[i].summary@.len() == 0 ==> w.specs[i].summary@ =~= Seq::<u8>::empty());
    }
}

proof fn lemma_next_id(splits: Seq<splitset::SplitView>)
    requires
        forall|i: int| 0 <= i < splits.len() ==> (#[trigger] splits[i]).doc_id_hi < u32::MAX,
    ensures
        splits.len() == 0 ==> next_id_after(splits) == 0,
        splits.len() > 0 ==> exists|i: int|
            0 <= i < splits.len() && next_id_after(splits) == (#[trigger] splits[i]).doc_id_hi + 1,
    decreases splits.len(),
{
    if splits.len() > 0 {
        let front = splits.drop_last();
        assert forall|i: int| 0 <= i < front.len() implies (#[trigger] front[i]).doc_id_hi
            < u32::MAX by {
            assert(front[i] == splits[i]);
        }
        lemma_next_id(front);
        let k = splits.len() - 1;
        assert(splits[k].doc_id_hi < u32::MAX);
        if next_id_after(splits) != splits[k].doc_id_hi + 1 {
            let i = choose|i: int|
                0 <= i < front.len() && next_id_after(front) == (#[trigger] front[i]).doc_id_hi + 1;
            assert(splits[i] == front[i]);
        }
    }
}

/// A writer that resumes over a set hands out first the id behind the highest one, and its first
/// flush `w`, after any adds and deletes, lists every split of the set in order and unchanged,
/// with its summary, under the set's own policy, tier count, base count, byte cap and rank
/// source; the new split's epoch is the one behind the latest.
pub proof fn law_resume(
    prev: splitset::ManifestView,
    fresh: WriterView,
    w: WriterView,
    s: SplitSpec,
    size: nat,
    c: SplitSetConfig,
)
    requires
        forall|i: int| 0 <= i < prev.splits.len() ==> (#[trigger] prev.splits[i]).doc_id_hi
            < u32::MAX,
        resumed(fresh, prev),
        w.settings == fresh.settings,
        w.base_count == fresh.base_count,
        w.specs == fresh.specs,
        w.next_epoch == fresh.next_epoch,
        flushed_split(s, w, size),
        manifest_config(c, after_flush(w, s)),
        splitset_build::write_error(w.specs.push(s), c) is None,
        splitset_build::manifest_bytes(w.specs.push(s), c).len() <= usize::MAX,
    ensures
        forall|i: int| 0 <= i < prev.splits.len() ==> (#[trigger] prev.splits[i]).doc_id_hi
            < fresh.next_global_id,
        prev.splits.len() == 0 ==> fresh.next_global_id == 0,
        prev.splits.len() > 0 ==> exists|i: int|
            0 <= i < prev.splits.len() && fresh.next_global_id == (
            #[trigger] prev.splits[i]).doc_id_hi + 1,
        ({
            let r = splitset_build::recorded(w.specs.push(s), c);
            let n = prev.splits.len() as int;
            &&& r.splits.len() == n + 1
            &&& r.policy == prev.policy
            &&& r.tier_count == prev.tier_count
            &&& r.base_count == prev.base_count
            &&& r.byte_cap == prev.byte_cap
            &&& prev.sortcol is None ==> r.sortcol is None
            &&& prev.sortcol matches Some(d) ==> d.name.len() > 0 ==> r.sortcol == Some(d)
            &&& forall|i: int|
                0 <= i < n ==> {
                    let (a, b) = (prev.splits[i], #[trigger] r.splits[i]);
                    &&& b == (splitset::SplitView {
                        summary_off: b.summary_off,
                        summary_len: b.summary_len,
                        ..a
                    })
                    &&& match (prev.summary(a), r.summary(b)) {
                        (Some(x), Some(y)) => x == y,
                        (Some(x), None) => x.len() == 0,
                        (None, y) => y is None,
                    }
                }
            &&& r.splits[n].epoch == last_epoch(prev.splits) + 1
        }),
{
    assert forall|i: int| 0 <= i < prev.splits.len() implies (#[trigger] prev.splits[i]).doc_id_hi
        < fresh.next_global_id by {
        law_resume_ids_fresh(prev.splits, i);
    }
    lemma_next_id(prev.splits);
    let specs = w.specs.push(s);
    let r = splitset_build::recorded(specs, c);
    let n = prev.splits.len() as int;
    splitset_build::law_manifest_roundtrip(specs, c);
    assert(specs[n] == s);
    assert forall|i: int| 0 <= i < n implies {
        let (a, b) = (prev.splits[i], #[trigger] r.splits[i]);
        &&& b == (splitset::SplitView {
            summary_off: b.summary_off,
            summary_len: b.summary_len,
            ..a
        })
        &&& match (prev.summary(a), r.summary(b)) {
            (Some(x), Some(y)) => x == y,
            (Some(x), None) => x.len() == 0,
            (None, y) => y is None,
        }
    } by {
        assert(carries(fresh.specs[i], prev.splits[i], prev));
        assert(specs[i] == fresh.specs[i]);
        assert(r.summary(r.splits[i]) == (if specs[i].summary@.len() == 0 {
            None
        } else {
            Some(specs[i].summary@)
        }));
    }
}

/// The latest epoch is one of the splits' and none is later.
pub proof fn law_last_epoch(splits: Seq<splitset::SplitView>)
    ensures
        forall|i: int| 0 <= i < splits.len() ==> (#[trigger] splits[i]).epoch <= last_epoch(splits),
        splits.len() > 0 ==> exists|i: int|
            0 <= i < splits.len() && (#[trigger] splits[i]).epoch == last_epoch(splits),
        splits.len() == 0 ==> last_epoch(splits) == 0,
    decreases splits.len(),
{
    if splits.len() > 0 {
        let front = splits.drop_last();
        law_last_epoch(front);
        assert forall|i: int| 0 <= i < splits.len() implies (#[trigger] splits[i]).epoch
            <= last_epoch(splits) by {
            if i < front.len() {
                assert(front[i] == splits[i]);
            }
        }
        if splits.last().epoch > last_epoch(front) || front.len() == 0 {
            assert(splits[splits.len() - 1].epoch == last_epoch(splits));
        } else {
            let i = choose|i: int|
                0 <= i < front.len() && (#[trigger] front[i]).epoch == last_epoch(front);
            assert(splits[i].epoch == last_epoch(splits));
        }
    }
}

/// A name stands for the first split that carries it, and for none where no split does.
pub proof fn law_spec_named(specs: Seq<SplitSpec>, name: Seq<char>)
    ensures
        match spec_named(specs, name) {
            Some(i) => 0 <= i < specs.len() && specs[i].data_file@ == name && forall|j: int|
                0 <= j < i ==> (#[trigger] specs[j]).data_file@ != name,
            None => forall|j: int|
                0 <= j < specs.len() ==> (#[trigger] specs[j]).data_file@ != name,
        },
    decreases specs.len(),
{
    if specs.len() > 0 {
        let front = specs.drop_last();
        law_spec_named(front, name);
        assert forall|j: int| 0 <= j < front.len() implies #[trigger] specs[j] == front[j] by {}
    }
}

/// Compaction takes exactly the splits out of the manifest that are named as inputs, and leaves
/// the others in their order with the new one behind them.
pub proof fn law_compact_replaces(w: WriterView, inputs: Seq<CompactInput>, s: SplitSpec)
    ensures
        after_compact(w, inputs, s).specs == w.specs.filter(
            |t: SplitSpec|
                !(exists|i: int|
                    0 <= i < inputs.len() && (#[trigger] inputs[i]).0@ == t.data_file@),
        ).push(s),
        after_compact(w, inputs, s).memtable == w.memtable,
        after_compact(w, inputs, s).pending_deletes == w.pending_deletes,
        after_compact(w, inputs, s).next_global_id == w.next_global_id,
        after_compact(w, inputs, s).base_count == w.base_count,
{
    lemma_kept_filter(w.specs, inputs);
}

proof fn lemma_kept_filter(specs: Seq<SplitSpec>, inputs: Seq<CompactInput>)
    ensures
        kept(specs, inputs) == specs.filter(
            |t: SplitSpec|
                !(exists|i: int|
                    0 <= i < inputs.len() && (#[trigger] inputs[i]).0@ == t.data_file@),
        ),
    decreases specs.len(),
{
    reveal(Seq::filter);
    if specs.len() > 0 {
        lemma_kept_filter(specs.drop_last(), inputs);
    } else {
        assert(specs =~= Seq::<SplitSpec>::empty());
    }
}

/// The epoch of a compacted split is the latest of its inputs' splits.
pub proof fn law_inputs_epoch(specs: Seq<SplitSpec>, inputs: Seq<CompactInput>, none: u64)
    requires
        forall|i: int|
            0 <= i < inputs.len() ==> spec_named(specs, (#[trigger] inputs[i]).0@) is Some,
    ensures
        inputs.len() == 0 ==> inputs_epoch(specs, inputs, none) == none,
        forall|i: int|
            0 <= i < inputs.len() ==> specs[spec_named(
                specs,
                (#[trigger] inputs[i]).0@,
            )->Some_0].epoch <= inputs_epoch(specs, inputs, none),
        inputs.len() > 0 ==> exists|i: int|
            0 <= i < inputs.len() && specs[spec_named(
                specs,
                (#[trigger] inputs[i]).0@,
            )->Some_0].epoch == inputs_epoch(specs, inputs, none),
    decreases inputs.len(),
{
    if inputs.len() > 0 {
        let front = inputs.drop_last();
        assert forall|i: int| 0 <= i < front.len() implies spec_named(
            specs,
            (#[trigger] front[i]).0@,
        ) is Some by {
            assert(front[i] == inputs[i]);
        }
        law_inputs_epoch(specs, front, 0);
        let top = inputs_epoch(specs, inputs, none);
        let last = inputs.len() - 1;
        assert(spec_named(specs, inputs[last].0@) is Some);
        assert forall|i: int| 0 <= i < inputs.len() implies specs[spec_named(
            specs,
            (#[trigger] inputs[i]).0@,
        )->Some_0].epoch <= top by {
            if i < front.len() {
                assert(front[i] == inputs[i]);
            }
        }
        let before = inputs_epoch(specs, front, 0);
        if inputs.len() > 1 && before > specs[spec_named(specs, inputs[last].0@)->Some_0].epoch {
            let i = choose|i: int|
                0 <= i < front.len() && specs[spec_named(
                    specs,
                    (#[trigger] front[i]).0@,
                )->Some_0].epoch == before;
            assert(inputs[i] == front[i]);
        }
    }
}

/// Compaction gives a doc the same global ID as a search does.
pub proof fn law_compact_global_ids(s: splitset::SplitView, docs: Set<u32>, x: u32)
    ensures
        global_ids(docs, s.doc_id_lo, s.absolute_ids()).contains(x) <==> exists|l: u32|
            #[trigger] docs.contains(l) && s.to_global(l) == x,
{
    let g = global_ids(docs, s.doc_id_lo, s.absolute_ids());
    if g.contains(x) {
        if s.absolute_ids() {
            assert(docs.contains(x) && s.to_global(x) == x);
        } else {
            let l = choose|l: u32| docs.contains(l) && offset_id(s.doc_id_lo, l) == x;
            assert(docs.contains(l) && s.to_global(l) == x);
        }
    }
    if exists|l: u32| #[trigger] docs.contains(l) && s.to_global(l) == x {
        let l = choose|l: u32| #[trigger] docs.contains(l) && s.to_global(l) == x;
        if !s.absolute_ids() {
            assert(offset_id(s.doc_id_lo, l) == x);
            assert(g.contains(offset_id(s.doc_id_lo, l)));
        }
    }
}

/// Whether `input` names a delta split of `specs` whose tombstone and whose file can be read.
pub open spec fn compactable(specs: Seq<SplitSpec>, base_count: u32, input: CompactInput) -> bool {
    &&& spec_named(specs, input.0@) matches Some(i) && i >= base_count && tombstone_of(
        specs[i].summary@,
    ) is Ok
    &&& index_entries(input.1@) is Ok
}

/// Compaction goes through exactly where every input names a delta split whose tombstone and
/// whose file can be read. What it then drops is exactly what the tombstones of the inputs name,
/// all of them together.
pub proof fn law_gathered_dead(
    specs: Seq<SplitSpec>,
    base_count: u32,
    inputs: Seq<CompactInput>,
    x: u32,
)
    ensures
        gather(specs, base_count, inputs) is Ok <==> forall|i: int|
            0 <= i < inputs.len() ==> compactable(specs, base_count, #[trigger] inputs[i]),
        gather(specs, base_count, inputs) matches Ok(g) ==> (g.dead.contains(x) <==> exists|i: int|
            0 <= i < inputs.len() && tombstoned(
                specs[spec_named(specs, (#[trigger] inputs[i]).0@)->Some_0],
                x,
            )),
    decreases inputs.len(),
{
    if inputs.len() > 0 {
        let front = inputs.drop_last();
        law_gathered_dead(specs, base_count, front, x);
        assert forall|i: int| 0 <= i < front.len() implies #[trigger] front[i] == inputs[i] by {}
        let last = inputs.len() - 1;
        if gather(specs, base_count, front) is Err {
            let i = choose|i: int|
                0 <= i < front.len() && !compactable(specs, base_count, #[trigger] front[i]);
            assert(!compactable(specs, base_count, inputs[i]));
        } else {
            assert(gather(specs, base_count, inputs) is Ok <==> compactable(
                specs,
                base_count,
                inputs[last],
            ));
            if gather(specs, base_count, inputs) is Ok {
                assert forall|i: int| 0 <= i < inputs.len() implies compactable(
                    specs,
                    base_count,
                    #[trigger] inputs[i],
                ) by {
                    if i < front.len() {
                        assert(compactable(specs, base_count, front[i]));
                    }
                }
                let g = gather(specs, base_count, front)->Ok_0;
                if g.dead.contains(x) {
                    let i = choose|i: int|
                        0 <= i < front.len() && tombstoned(
                            specs[spec_named(specs, (#[trigger] front[i]).0@)->Some_0],
                            x,
                        );
                    assert(inputs[i] == front[i]);
                }
                if exists|i: int|
                    0 <= i < inputs.len() && tombstoned(
                        specs[spec_named(specs, (#[trigger] inputs[i]).0@)->Some_0],
                        x,
                    ) {
                    let i = choose|i: int|
                        0 <= i < inputs.len() && tombstoned(
                            specs[spec_named(specs, (#[trigger] inputs[i]).0@)->Some_0],
                            x,
                        );
                    if i < front.len() {
                        assert(front[i] == inputs[i]);
                    }
                }
                if tombstoned(specs[spec_named(specs, inputs[last].0@)->Some_0], x) {
                    assert(inputs[last].0@ == inputs.last().0@);
                }
            }
        }
    }
}

/// The entries of a trigram index are read one behind the other, all of them, up to the first
/// that cannot be read.
pub proof fn law_entries_read(raw: Seq<u8>, start: int, n: nat)
    ensures
        match entries_at(raw, start, n) {
            Ok(es) => es.len() == n && forall|i: int|
                0 <= i < n ==> entry_at(raw, start + i * 24) == Ok::<(u64, Set<u32>), BuildError>(
                    #[trigger] es[i],
                ),
            Err(e) => exists|i: int|
                {
                    &&& 0 <= i < n
                    &&& #[trigger] entry_at(raw, start + i * 24) == Err::<(u64, Set<u32>), _>(e)
                    &&& forall|j: int|
                        0 <= j < i ==> (#[trigger] entry_at(raw, start + j * 24)) is Ok
                },
        },
    decreases n,
{
    if n > 0 {
        let k = (n - 1) as nat;
        law_entries_read(raw, start, k);
        match entries_at(raw, start, k) {
            Ok(es) => {
                assert forall|j: int| 0 <= j < k implies (#[trigger] entry_at(
                    raw,
                    start + j * 24,
                )) is Ok by {
                    assert(entry_at(raw, start + j * 24) == Ok::<(u64, Set<u32>), BuildError>(
                        es[j],
                    ));
                }
                if entry_at(raw, start + k * 24) is Err {
                    assert(entries_at(raw, start, n) is Err);
                    assert(entry_at(raw, start + k * 24) == Err::<(u64, Set<u32>), BuildError>(
                        entries_at(raw, start, n)->Err_0,
                    ));
                }
            },
            Err(e) => {
                let i = choose|i: int|
                    {
                        &&& 0 <= i < k
                        &&& #[trigger] entry_at(raw, start + i * 24) == Err::<(u64, Set<u32>), _>(e)
                        &&& forall|j: int|
                            0 <= j < i ==> (#[trigger] entry_at(raw, start + j * 24)) is Ok
                    };
                assert(entry_at(raw, start + i * 24) == Err::<(u64, Set<u32>), BuildError>(e));
            },
        }
    }
}

/// An entry of a trigram index is read with its key and with all its docs: those of its head, and
/// those of its tail where it has one.
pub proof fn law_entry_read(
    raw: Seq<u8>,
    base: int,
    key: u64,
    off: u64,
    head: Seq<u8>,
    tail: Seq<u8>,
    x: u32,
)
    requires
        0 <= base,
        base + 24 <= raw.len(),
        head.len() <= u32::MAX,
        tail.len() <= u32::MAX,
        raw.subrange(base, base + 8) == bytes::le64(key),
        raw.subrange(base + 8, base + 16) == bytes::le64(off),
        raw.subrange(base + 16, base + 20) == bytes::le32(head.len() as u32),
        raw.subrange(base + 20, base + 24) == bytes::le32(tail.len() as u32),
        off + head.len() + tail.len() <= raw.len(),
        raw.subrange(off as int, off + head.len()) == head,
        raw.subrange(off + head.len(), off + head.len() + tail.len()) == tail,
        bitmap::read_ids(head) is Some,
        tail.len() > 0 ==> bitmap::read_ids(tail) is Some,
    ensures
        entry_at(raw, base) matches Ok(e) && e.0 == key && (e.1.contains(x) <==> (
        bitmap::read_ids(head) matches Some(h) && h.contains(x)) || (tail.len() > 0 && (
        bitmap::read_ids(tail) matches Some(t) && t.contains(x)))),
{
    bytes::lemma_u64_at(raw, base, key);
    bytes::lemma_u64_at(raw, base + 8, off);
    bytes::lemma_u32_at(raw, base + 16, head.len() as u32);
    bytes::lemma_u32_at(raw, base + 20, tail.len() as u32);
}

/// The dictionary of a trigram index lies behind the header and a sparse index with one entry for
/// each stretch of keys that was begun.
pub proof fn law_dict_start(raw: Seq<u8>)
    ensures
        ({
            let n = bytes::u32_at(raw, 8) as int;
            let stride = bytes::u32_at(raw, 12) as int;
            let slots = (dict_start(raw) - 20) / 8;
            &&& dict_start(raw) == 20 + slots * 8
            &&& slots >= 0
            &&& n == 0 || stride == 0 ==> slots == 0
            &&& stride > 0 ==> slots * stride >= n
            &&& stride > 0 && n > 0 ==> (slots - 1) * stride < n
        }),
{
    let n = bytes::u32_at(raw, 8) as int;
    let stride = bytes::u32_at(raw, 12) as int;
    if n > 0 && stride > 0 {
        let slots = (n + stride - 1) / stride;
        assert(slots >= 0 && slots * stride <= n + stride - 1 && n + stride - 1 < (slots + 1)
            * stride) by (nonlinear_arith)
            requires
                slots == (n + stride - 1) / stride,
                stride > 0,
                n > 0,
        ;
        assert((slots + 1) * stride == slots * stride + stride) by (nonlinear_arith);
        assert((slots - 1) * stride == slots * stride - stride) by (nonlinear_arith);
    }
    if stride > 0 && n == 0 {
        assert(0 * stride == 0) by (nonlinear_arith);
    }
}

/// A compacted split's range spans its docs, it stores global IDs, and it counts each doc once.
pub proof fn law_compacted_range(
    s: SplitSpec,
    w: WriterView,
    inputs: Seq<CompactInput>,
    g: Gathered,
    size: nat,
    x: u32,
)
    requires
        compacted_split(s, w, inputs, g, size),
    ensures
        splitset::has_flag(s.flags as int, SPLIT_FLAG_ABSOLUTE_IDS as int),
        splitset::has_flag(s.flags as int, SPLIT_FLAG_HAS_TOMBSTONE as int) <==> g.dead != Set::<
            u32,
        >::empty(),
        ({
            let docs = postings::all_ids(postings::without_ids(g.postings, g.dead));
            &&& docs.contains(x) ==> s.doc_id_lo <= x <= s.doc_id_hi
            &&& docs.contains(x) ==> docs.contains(s.doc_id_lo) && docs.contains(s.doc_id_hi)
            &&& docs.len() <= u32::MAX ==> s.doc_count == docs.len()
        }),
{
    assert(SPLIT_FLAG_ABSOLUTE_IDS as int / SPLIT_FLAG_ABSOLUTE_IDS as int == 1);
}

/// A flush is recorded in the manifest's flags: tombstones exactly where some split carries one,
/// Bloom filters exactly where they are on.
pub proof fn law_header_flags(specs: Seq<SplitSpec>, bloom_bits_per_key: u32)
    ensures
        splitset::has_flag(
            header_flags(specs, bloom_bits_per_key) as int,
            FLAG_TOMBSTONES as int,
        ) <==> exists|i: int|
            0 <= i < specs.len() && splitset::has_flag(
                (#[trigger] specs[i]).flags as int,
                SPLIT_FLAG_HAS_TOMBSTONE as int,
            ),
        splitset::has_flag(header_flags(specs, bloom_bits_per_key) as int, FLAG_BLOOM as int)
            <==> bloom_bits_per_key > 0,
{
}

/// The memtable's estimate charges each posting its stored length and eight bytes.
pub proof fn law_stored_total(p: KeyPostings, keys: Seq<u64>, n: nat)
    requires
        n <= keys.len(),
    ensures
        stored_total(p, keys, n) == keys.take(n as int).map_values(
            |k: u64| bitmap::stored_len(p.stored(k)) as int + 8,
        ).fold_left(0, |a: int, x: int| a + x),
    decreases n,
{
    let f = |k: u64| bitmap::stored_len(p.stored(k)) as int + 8;
    let all = keys.take(n as int).map_values(f);
    if n > 0 {
        law_stored_total(p, keys, (n - 1) as nat);
        assert(all.drop_last() =~= keys.take(n - 1).map_values(f));
        crate::lists::lemma_fold_last(all);
    } else {
        assert(all =~= Seq::<int>::empty());
        reveal_with_fuel(Seq::fold_left, 1);
    }
}

/// A writer has nothing to flush exactly where no doc was added and no ID deleted since the last
/// flush.
pub proof fn law_clean(w: WriterView)
    ensures
        w.clean() <==> w.memtable_count == 0 && forall|x: u32| !#[trigger]
            w.pending_deletes.contains(x),
{
    if forall|x: u32| !#[trigger] w.pending_deletes.contains(x) {
        assert(w.pending_deletes =~= Set::<u32>::empty());
    }
}

/// A manifest that a writer emits, read back, says what the writer was set to: its policy, tiers,
/// byte cap, n-gram window and rank source, that its splits are trigram indexes, and how many of
/// them are base splits.
pub proof fn law_emitted(m: Seq<u8>, w: WriterView)
    requires
        emitted(Ok(m), w),
        m.len() <= usize::MAX,
    ensures
        ({
            let r = splitset_build::read_back(m);
            &&& r is Ok
            &&& r->Ok_0.policy == w.settings.policy
            &&& r->Ok_0.tier_count == w.settings.tier_count
            &&& r->Ok_0.base_count == w.base_count
            &&& r->Ok_0.byte_cap == w.settings.byte_cap
            &&& r->Ok_0.gram_size == w.settings.gram_size
            &&& r->Ok_0.body_kind == BodyKind::Trigram
            &&& r->Ok_0.splits.len() == w.specs.len()
            &&& splitset::has_flag(r->Ok_0.flags as int, FLAG_BLOOM as int)
                == (w.settings.bloom_bits_per_key > 0)
            &&& r->Ok_0.case_fold()
            &&& !r->Ok_0.has_facets()
            &&& w.settings.sortcol is None ==> r->Ok_0.sortcol is None
            &&& w.settings.sortcol matches Some(sc) ==> sc.name@.len() > 0 ==> r->Ok_0.sortcol
                == Some(
                (splitset::SortColView {
                    name: sc.name@,
                    column: sc.column,
                    descending: sc.descending,
                }),
            )
        }),
{
    let c = choose|c: SplitSetConfig| #[trigger] manifest_config(c, w) && splitset_build::write_error(
        w.specs,
        c,
    ) is None && m == splitset_build::manifest_bytes(w.specs, c);
    splitset_build::law_read_back(w.specs, c);
    law_header_flags(w.specs, w.settings.bloom_bits_per_key);
}

/// A flush and a compaction each take the next number for their file, and a flush the next
/// epoch, so no name and no epoch comes twice.
pub proof fn law_counters(w: WriterView, inputs: Seq<CompactInput>, s: SplitSpec)
    requires
        w.flush_seq < u32::MAX,
        w.compact_seq < u32::MAX,
        w.next_epoch < u64::MAX,
    ensures
        after_flush(w, s).flush_seq == w.flush_seq + 1,
        after_flush(w, s).next_epoch == w.next_epoch + 1,
        after_flush(w, s).compact_seq == w.compact_seq,
        after_flush(w, s).settings == w.settings,
        after_flush(w, s).base_count == w.base_count,
        after_compact(w, inputs, s).compact_seq == w.compact_seq + 1,
        after_compact(w, inputs, s).flush_seq == w.flush_seq,
        after_compact(w, inputs, s).next_epoch == w.next_epoch,
        after_compact(w, inputs, s).settings == w.settings,
{
}

} // verus!
