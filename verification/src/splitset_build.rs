//! Writer for the split-set manifest: the build-side mirror of [`crate::splitset`].
//!
//! [`write_splitset`] is **metadata-only**: the split objects are separate, already-built
//! files, so the caller passes each split's name, rank tier, doc-id range, byte size, and
//! supersession epoch, plus its summary bytes. The byte-capped *assignment* of docs to splits
//! (the greedy seal) is the builders' work.

use crate::bytes;
use crate::bytes::{put_bytes, put_u16, put_u32, put_u64, put_zeros};
use crate::error::{BuildError, IndexError};
use crate::splitset;
use crate::splitset::{
    BodyKind, ManifestView, Policy, SortColView, SplitView, ENTRY_SIZE, HEADER_SIZE,
    SORTCOL_FLAG_DESCENDING, VERSION,
};
use vstd::prelude::*;
use vstd::utf8::encode_utf8;

verus! {

/// The stable-key rank source to record in the manifest header: a store name, the rank column
/// within it, and its direction. `None` for the tiered policy (rank is the doc-id range there)
/// or when stable-key rank is supplied out of band.
#[derive(Debug)]
pub struct SortColSpec {
    /// The data-file name holding the rank column.
    pub name: String,
    /// Column index within that store.
    pub column: u16,
    /// Whether a higher value ranks better (descending sort).
    pub descending: bool,
}

/// One split to record in the manifest. Carries the split's identity and pruning metadata; the
/// split's bytes live in its own `data_file` and are not passed here.
#[derive(Debug)]
pub struct SplitSpec {
    /// The split's data-file name (or URL).
    pub data_file: String,
    /// Rank tier (tiered policy; `0` for stable-key / delta).
    pub tier: u16,
    /// Number of docs in the split.
    pub doc_count: u32,
    /// Minimum doc id present (inclusive).
    pub doc_id_lo: u32,
    /// Maximum doc id present (inclusive).
    pub doc_id_hi: u32,
    /// Flush/build epoch: supersession ordering (`0` for an additions-only base).
    pub epoch: u64,
    /// The split file's size in bytes.
    pub byte_size: u64,
    /// Per-split flags (`SPLIT_FLAG_HAS_TOMBSTONE` | …); `0` in the additions-only case.
    pub flags: u16,
    /// Summary bytes for this split: the TLV region (term Bloom / facet / time / tombstone).
    pub summary: Vec<u8>,
}

/// Manifest-level configuration: the base policy, tier count, base/delta boundary, the byte
/// cap the splits were sealed at, and the optional stable-key rank descriptor.
#[derive(Debug)]
pub struct SplitSetConfig {
    /// How the base splits were assembled.
    pub policy: Policy,
    /// Number of rank tiers (tiered policy); `0` for stable-key.
    pub tier_count: u16,
    /// Number of base splits: entries `[0, base_count)` are base, the rest delta.
    pub base_count: u32,
    /// The per-split byte cap the builder sealed at (informational).
    pub byte_cap: u64,
    /// The n-gram window the splits were built with; `0` for a term-bodied set.
    pub gram_size: u16,
    /// How each split's data file is encoded. Written to header byte 9.
    pub body_kind: BodyKind,
    /// The stable-key rank source, if any.
    pub sortcol: Option<SortColSpec>,
    /// Header summary-presence flags (`FLAG_BLOOM` | `FLAG_FACET` | …).
    pub flags: u16,
}

/// The UTF-8 bytes of the splits' names, end to end.
pub open spec fn names(splits: Seq<SplitSpec>) -> Seq<u8>
    decreases splits.len(),
{
    if splits.len() == 0 {
        Seq::empty()
    } else {
        names(splits.drop_last()) + encode_utf8(splits.last().data_file@)
    }
}

/// The string blob: the splits' names, then the sort-column name where there is one.
pub open spec fn string_blob(splits: Seq<SplitSpec>, config: SplitSetConfig) -> Seq<u8> {
    match config.sortcol {
        Some(sc) => names(splits) + encode_utf8(sc.name@),
        None => names(splits),
    }
}

/// The splits' summary regions, end to end.
pub open spec fn summaries(splits: Seq<SplitSpec>) -> Seq<u8>
    decreases splits.len(),
{
    if splits.len() == 0 {
        Seq::empty()
    } else {
        summaries(splits.drop_last()) + splits.last().summary@
    }
}

/// Where the summary of split `i` starts in the summary blob; zero where it is empty.
pub open spec fn summary_off(splits: Seq<SplitSpec>, i: int) -> int {
    if splits[i].summary@.len() == 0 {
        0
    } else {
        summaries(splits.take(i)).len() as int
    }
}

/// `n` zero bytes.
pub open spec fn zeros(n: nat) -> Seq<u8> {
    Seq::new(n, |i: int| 0u8)
}

/// The 64 header bytes, where `sc` is the sort column's name offset, name length, column and
/// flags.
pub open spec fn header_layout(
    config: SplitSetConfig,
    split_count: u32,
    str_bytes: u32,
    summary_bytes: u64,
    sc: (u32, u16, u16, u8),
) -> Seq<u8> {
    splitset::magic() + bytes::le16(VERSION) + bytes::le16(config.flags) + seq![
        config.policy.code(),
        config.body_kind.code(),
    ] + bytes::le16(config.tier_count) + bytes::le32(split_count) + bytes::le32(config.base_count)
        + bytes::le32(str_bytes) + bytes::le64(summary_bytes) + bytes::le64(config.byte_cap)
        + bytes::le32(sc.0) + bytes::le16(sc.1) + bytes::le16(sc.2) + seq![sc.3] + bytes::le16(
        config.gram_size,
    ) + zeros(13)
}

/// The sort column's name offset, name length, column and flags; zeros where there is none.
pub open spec fn sortcol_fields(splits: Seq<SplitSpec>, config: SplitSetConfig) -> (
    u32,
    u16,
    u16,
    u8,
) {
    match config.sortcol {
        Some(sc) => (
            names(splits).len() as u32,
            encode_utf8(sc.name@).len() as u16,
            sc.column,
            if sc.descending {
                SORTCOL_FLAG_DESCENDING
            } else {
                0u8
            },
        ),
        None => (0u32, 0u16, 0u16, 0u8),
    }
}

/// The 64 header bytes of the manifest of `splits` under `config`.
pub open spec fn header_bytes(splits: Seq<SplitSpec>, config: SplitSetConfig) -> Seq<u8> {
    header_layout(
        config,
        splits.len() as u32,
        string_blob(splits, config).len() as u32,
        summaries(splits).len() as u64,
        sortcol_fields(splits, config),
    )
}

/// The 56 bytes of split `i`'s entry.
pub open spec fn entry_bytes(splits: Seq<SplitSpec>, i: int) -> Seq<u8> {
    let s = splits[i];
    bytes::le32(names(splits.take(i)).len() as u32) + bytes::le16(
        encode_utf8(s.data_file@).len() as u16,
    ) + bytes::le16(s.tier) + bytes::le32(s.doc_count) + bytes::le32(s.doc_id_lo) + bytes::le32(
        s.doc_id_hi,
    ) + bytes::le16(s.flags) + bytes::le16(0) + bytes::le64(s.byte_size) + bytes::le64(s.epoch)
        + bytes::le64(summary_off(splits, i) as u64) + bytes::le32(s.summary@.len() as u32)
        + bytes::le32(0)
}

/// The entries of the first `n` splits, end to end.
pub open spec fn entries_bytes(splits: Seq<SplitSpec>, n: nat) -> Seq<u8>
    decreases n,
{
    if n == 0 {
        Seq::empty()
    } else {
        entries_bytes(splits, (n - 1) as nat) + entry_bytes(splits, n - 1)
    }
}

/// The manifest of `splits` under `config`.
pub open spec fn manifest_bytes(splits: Seq<SplitSpec>, config: SplitSetConfig) -> Seq<u8> {
    header_bytes(splits, config) + entries_bytes(splits, splits.len()) + string_blob(splits, config)
        + summaries(splits)
}

/// Why the name with the bytes `name` cannot follow `blob` in the string blob.
pub open spec fn name_error(blob: Seq<u8>, name: Seq<u8>) -> Option<BuildError> {
    if blob.len() > u32::MAX {
        Some(BuildError::StringBlobTooLarge)
    } else if name.len() > u16::MAX {
        Some(BuildError::NameTooLong)
    } else {
        None
    }
}

/// The error of the first split whose name does not fit.
pub open spec fn names_error(splits: Seq<SplitSpec>) -> Option<BuildError>
    decreases splits.len(),
{
    if splits.len() == 0 {
        None
    } else {
        match names_error(splits.drop_last()) {
            Some(e) => Some(e),
            None => name_error(names(splits.drop_last()), encode_utf8(splits.last().data_file@)),
        }
    }
}

/// Why `splits` cannot be recorded under `config`; `None` where they can.
pub open spec fn write_error(splits: Seq<SplitSpec>, config: SplitSetConfig) -> Option<BuildError> {
    let sortcol_error = match config.sortcol {
        Some(sc) => name_error(names(splits), encode_utf8(sc.name@)),
        None => None,
    };
    if splits.len() > u32::MAX {
        Some(BuildError::SplitCountTooLarge)
    } else if config.base_count > splits.len() {
        Some(
            BuildError::BaseCountTooLarge {
                base_count: config.base_count,
                split_count: splits.len() as u32,
            },
        )
    } else if names_error(splits) is Some {
        names_error(splits)
    } else if sortcol_error is Some {
        sortcol_error
    } else if exists|i: int|
        0 <= i < splits.len() && (#[trigger] splits[i]).summary@.len() > u32::MAX {
        Some(BuildError::SummaryTooLarge)
    } else if string_blob(splits, config).len() > u32::MAX {
        Some(BuildError::StringBlobTooLarge)
    } else {
        None
    }
}

/// Appends a UTF-8 name to `blob` and returns its `(offset, length)` span, erroring if the
/// offset or length overflows the manifest's 32-/16-bit fields.
pub fn push_name(blob: &mut Vec<u8>, name: &str) -> (r: Result<(u32, u16), BuildError>)
    ensures
        match r {
            Ok((off, len)) => {
                &&& name_error(old(blob)@, encode_utf8(name@)) is None
                &&& off == old(blob)@.len()
                &&& len == encode_utf8(name@).len()
                &&& final(blob)@ == old(blob)@ + encode_utf8(name@)
            },
            Err(e) => name_error(old(blob)@, encode_utf8(name@)) == Some(e) && final(blob)@ == old(
                blob,
            )@,
        },
{
    let raw = crate::text::bytes_of(name);
    if blob.len() > u32::MAX as usize {
        return Err(BuildError::StringBlobTooLarge);
    }
    if raw.len() > u16::MAX as usize {
        return Err(BuildError::NameTooLong);
    }
    let off: u32 = blob.len() as u32;
    put_bytes(blob, raw);
    Ok((off, raw.len() as u16))
}

proof fn lemma_names_error_prefix(splits: Seq<SplitSpec>, n: int, e: BuildError)
    requires
        0 <= n <= splits.len(),
        names_error(splits.take(n)) == Some(e),
    ensures
        names_error(splits) == Some(e),
    decreases splits.len() - n,
{
    if n == splits.len() {
        assert(splits.take(n) =~= splits);
    } else {
        assert(splits.take(n + 1).drop_last() =~= splits.take(n));
        lemma_names_error_prefix(splits, n + 1, e);
    }
}

/// Whether `spans` are the offsets and lengths of the names of `splits` in the string blob.
spec fn name_spans_ok(spans: Seq<(u32, u16)>, splits: Seq<SplitSpec>) -> bool {
    &&& spans.len() == splits.len()
    &&& forall|i: int|
        0 <= i < splits.len() ==> (#[trigger] spans[i]).0 == names(splits.take(i)).len() && spans[i].1
            == encode_utf8(splits[i].data_file@).len()
}

/// Collects the names of `splits` into a string blob.
fn collect_names(splits: &[SplitSpec]) -> (r: Result<(Vec<u8>, Vec<(u32, u16)>), BuildError>)
    ensures
        match r {
            Ok((blob, spans)) => names_error(splits@) is None && blob@ == names(splits@)
                && name_spans_ok(spans@, splits@),
            Err(e) => names_error(splits@) == Some(e),
        },
{
    let mut blob: Vec<u8> = Vec::new();
    let mut spans: Vec<(u32, u16)> = Vec::new();
    let mut i: usize = 0;
    assert(splits@.take(0) =~= Seq::<SplitSpec>::empty());
    while i < splits.len()
        invariant
            i <= splits@.len(),
            names_error(splits@.take(i as int)) is None,
            blob@ == names(splits@.take(i as int)),
            spans@.len() == i,
            forall|j: int|
                0 <= j < i ==> (#[trigger] spans@[j]).0 == names(splits@.take(j)).len()
                    && spans@[j].1 == encode_utf8(splits@[j].data_file@).len(),
        decreases splits@.len() - i,
    {
        assert(splits@.take(i + 1).drop_last() =~= splits@.take(i as int));
        match push_name(&mut blob, splits[i].data_file.as_str()) {
            Ok(span) => spans.push(span),
            Err(e) => {
                proof {
                    lemma_names_error_prefix(splits@, i + 1, e);
                }
                return Err(e);
            },
        }
        i += 1;
    }
    assert(splits@.take(i as int) =~= splits@);
    Ok((blob, spans))
}

/// Whether `spans` are the offsets and lengths of the summaries of `splits` in the summary
/// blob.
spec fn summary_spans_ok(spans: Seq<(u64, u32)>, splits: Seq<SplitSpec>) -> bool {
    &&& spans.len() == splits.len()
    &&& forall|i: int|
        0 <= i < splits.len() ==> (#[trigger] spans[i]).0 == summary_off(splits, i) && spans[i].1
            == splits[i].summary@.len()
}

/// Collects the summaries of `splits` into a summary blob.
fn collect_summaries(splits: &[SplitSpec]) -> (r: Result<(Vec<u8>, Vec<(u64, u32)>), BuildError>)
    ensures
        match r {
            Ok((blob, spans)) => blob@ == summaries(splits@) && summary_spans_ok(spans@, splits@)
                && forall|i: int|
                0 <= i < splits@.len() ==> (#[trigger] splits@[i]).summary@.len() <= u32::MAX,
            Err(e) => e == BuildError::SummaryTooLarge && exists|i: int|
                0 <= i < splits@.len() && (#[trigger] splits@[i]).summary@.len() > u32::MAX,
        },
{
    let mut blob: Vec<u8> = Vec::new();
    let mut spans: Vec<(u64, u32)> = Vec::new();
    let mut i: usize = 0;
    assert(splits@.take(0) =~= Seq::<SplitSpec>::empty());
    while i < splits.len()
        invariant
            i <= splits@.len(),
            blob@ == summaries(splits@.take(i as int)),
            spans@.len() == i,
            forall|j: int|
                0 <= j < i ==> (#[trigger] spans@[j]).0 == summary_off(splits@, j) && spans@[j].1
                    == splits@[j].summary@.len(),
            forall|j: int| 0 <= j < i ==> (#[trigger] splits@[j]).summary@.len() <= u32::MAX,
        decreases splits@.len() - i,
    {
        assert(splits@.take(i + 1).drop_last() =~= splits@.take(i as int));
        let summary = &splits[i].summary;
        if summary.len() == 0 {
            assert(blob@ + summary@ =~= blob@);
            spans.push((0, 0));
        } else {
            let off: u64 = blob.len() as u64;
            if summary.len() > u32::MAX as usize {
                return Err(BuildError::SummaryTooLarge);
            }
            put_bytes(&mut blob, summary.as_slice());
            spans.push((off, summary.len() as u32));
        }
        i += 1;
    }
    assert(splits@.take(i as int) =~= splits@);
    Ok((blob, spans))
}

/// Appends the entry of split `i`.
fn put_entry(out: &mut Vec<u8>, splits: &[SplitSpec], i: usize, name: (u32, u16), summary: (u64, u32))
    requires
        i < splits@.len(),
        name.0 == names(splits@.take(i as int)).len(),
        name.1 == encode_utf8(splits@[i as int].data_file@).len(),
        summary.0 == summary_off(splits@, i as int),
        summary.1 == splits@[i as int].summary@.len(),
    ensures
        final(out)@ == old(out)@ + entry_bytes(splits@, i as int),
{
    let s = &splits[i];
    put_u32(out, name.0);
    put_u16(out, name.1);
    put_u16(out, s.tier);
    put_u32(out, s.doc_count);
    put_u32(out, s.doc_id_lo);
    put_u32(out, s.doc_id_hi);
    put_u16(out, s.flags);
    put_u16(out, 0);
    put_u64(out, s.byte_size);
    put_u64(out, s.epoch);
    put_u64(out, summary.0);
    put_u32(out, summary.1);
    put_u32(out, 0);
    assert(out@ =~= old(out)@ + entry_bytes(splits@, i as int));
}

/// Lays out the header.
fn header(
    config: &SplitSetConfig,
    split_count: u32,
    str_bytes: u32,
    summary_bytes: u64,
    sc: (u32, u16, u16, u8),
) -> (out: Vec<u8>)
    ensures
        out@ == header_layout(*config, split_count, str_bytes, summary_bytes, sc),
{
    let mut out: Vec<u8> = Vec::new();
    put_u32(&mut out, 0x5353_5252);
    assert(out@ =~= splitset::magic());
    put_u16(&mut out, VERSION);
    put_u16(&mut out, config.flags);
    let ghost before = out@;
    out.push(config.policy.to_u8());
    out.push(u8::from(config.body_kind));
    assert(out@ =~= before + seq![config.policy.code(), config.body_kind.code()]);
    put_u16(&mut out, config.tier_count);
    put_u32(&mut out, split_count);
    put_u32(&mut out, config.base_count);
    put_u32(&mut out, str_bytes);
    put_u64(&mut out, summary_bytes);
    put_u64(&mut out, config.byte_cap);
    put_u32(&mut out, sc.0);
    put_u16(&mut out, sc.1);
    put_u16(&mut out, sc.2);
    let ghost before = out@;
    out.push(sc.3);
    assert(out@ =~= before + seq![sc.3]);
    put_u16(&mut out, config.gram_size);
    put_zeros(&mut out, 13);
    out
}

/// Serializes the manifest for `splits`, in the order given (base splits first, then delta
/// splits; `config.base_count` marks the boundary). The string blob holds the split data-file
/// names in split order followed by the optional sort-column name; the summary blob
/// concatenates the per-split summary regions.
pub fn write_splitset(splits: &[SplitSpec], config: &SplitSetConfig) -> (r: Result<
    Vec<u8>,
    BuildError,
>)
    ensures
        match r {
            Ok(out) => write_error(splits@, *config) is None && out@ == manifest_bytes(
                splits@,
                *config,
            ),
            Err(e) => write_error(splits@, *config) == Some(e),
        },
{
    if splits.len() > u32::MAX as usize {
        return Err(BuildError::SplitCountTooLarge);
    }
    let split_count: u32 = splits.len() as u32;
    if config.base_count > split_count {
        return Err(
            BuildError::BaseCountTooLarge { base_count: config.base_count, split_count },
        );
    }
    let (mut strings, name_spans) = match collect_names(splits) {
        Ok(found) => found,
        Err(e) => return Err(e),
    };
    let mut sc_off: u32 = 0;
    let mut sc_len: u16 = 0;
    let mut sc_column: u16 = 0;
    let mut sc_flags: u8 = 0;
    if let Some(sc) = &config.sortcol {
        match push_name(&mut strings, sc.name.as_str()) {
            Ok((off, len)) => {
                sc_off = off;
                sc_len = len;
                sc_column = sc.column;
                if sc.descending {
                    sc_flags = SORTCOL_FLAG_DESCENDING;
                }
            },
            Err(e) => return Err(e),
        }
    }
    let (summary_blob, summary_spans) = match collect_summaries(splits) {
        Ok(found) => found,
        Err(e) => return Err(e),
    };
    if strings.len() > u32::MAX as usize {
        return Err(BuildError::StringBlobTooLarge);
    }
    let mut out: Vec<u8> = header(
        config,
        split_count,
        strings.len() as u32,
        summary_blob.len() as u64,
        (sc_off, sc_len, sc_column, sc_flags),
    );
    assert(out@ =~= header_bytes(splits@, *config) + entries_bytes(splits@, 0));
    let mut i: usize = 0;
    while i < splits.len()
        invariant
            i <= splits@.len(),
            name_spans_ok(name_spans@, splits@),
            summary_spans_ok(summary_spans@, splits@),
            out@ == header_bytes(splits@, *config) + entries_bytes(splits@, i as nat),
        decreases splits@.len() - i,
    {
        put_entry(&mut out, splits, i, name_spans[i], summary_spans[i]);
        assert(out@ =~= header_bytes(splits@, *config) + entries_bytes(splits@, (i + 1) as nat));
        i += 1;
    }
    put_bytes(&mut out, strings.as_slice());
    put_bytes(&mut out, summary_blob.as_slice());
    Ok(out)
}

proof fn lemma_header_pieces(
    f0: Seq<u8>,
    f1: Seq<u8>,
    f2: Seq<u8>,
    f3: Seq<u8>,
    f4: Seq<u8>,
    f5: Seq<u8>,
    f6: Seq<u8>,
    f7: Seq<u8>,
    f8: Seq<u8>,
    f9: Seq<u8>,
    f10: Seq<u8>,
    f11: Seq<u8>,
    f12: Seq<u8>,
    f13: Seq<u8>,
    f14: Seq<u8>,
    f15: Seq<u8>,
)
    requires
        f0.len() == 4,
        f1.len() == 2,
        f2.len() == 2,
        f3.len() == 2,
        f4.len() == 2,
        f5.len() == 4,
        f6.len() == 4,
        f7.len() == 4,
        f8.len() == 8,
        f9.len() == 8,
        f10.len() == 4,
        f11.len() == 2,
        f12.len() == 2,
        f13.len() == 1,
        f14.len() == 2,
        f15.len() == 13,
    ensures
        ({
            let h = f0 + f1 + f2 + f3 + f4 + f5 + f6 + f7 + f8 + f9 + f10 + f11 + f12 + f13 + f14 + f15;
            &&& h.len() == 64
            &&& h.subrange(0, 4) == f0
            &&& h.subrange(4, 6) == f1
            &&& h.subrange(6, 8) == f2
            &&& h.subrange(8, 10) == f3
            &&& h.subrange(10, 12) == f4
            &&& h.subrange(12, 16) == f5
            &&& h.subrange(16, 20) == f6
            &&& h.subrange(20, 24) == f7
            &&& h.subrange(24, 32) == f8
            &&& h.subrange(32, 40) == f9
            &&& h.subrange(40, 44) == f10
            &&& h.subrange(44, 46) == f11
            &&& h.subrange(46, 48) == f12
            &&& h.subrange(48, 49) == f13
            &&& h.subrange(49, 51) == f14
            &&& h.subrange(51, 64) == f15
        }),
{
    let q0 = f0;
    let q1 = q0 + f1;
    let q2 = q1 + f2;
    let q3 = q2 + f3;
    let q4 = q3 + f4;
    let q5 = q4 + f5;
    let q6 = q5 + f6;
    let q7 = q6 + f7;
    let q8 = q7 + f8;
    let q9 = q8 + f9;
    let q10 = q9 + f10;
    let q11 = q10 + f11;
    let q12 = q11 + f12;
    let q13 = q12 + f13;
    let q14 = q13 + f14;
    let q15 = q14 + f15;
    let h = q15;
    assert(h.subrange(0, h.len() as int) =~= h);
    bytes::lemma_peel(h, q14, f15);
    bytes::lemma_peel(h, q13, f14);
    bytes::lemma_peel(h, q12, f13);
    bytes::lemma_peel(h, q11, f12);
    bytes::lemma_peel(h, q10, f11);
    bytes::lemma_peel(h, q9, f10);
    bytes::lemma_peel(h, q8, f9);
    bytes::lemma_peel(h, q7, f8);
    bytes::lemma_peel(h, q6, f7);
    bytes::lemma_peel(h, q5, f6);
    bytes::lemma_peel(h, q4, f5);
    bytes::lemma_peel(h, q3, f4);
    bytes::lemma_peel(h, q2, f3);
    bytes::lemma_peel(h, q1, f2);
    bytes::lemma_peel(h, q0, f1);
    assert(h.subrange(0, 4) =~= f0);
}

proof fn lemma_header_fields(
    config: SplitSetConfig,
    split_count: u32,
    str_bytes: u32,
    summary_bytes: u64,
    sc: (u32, u16, u16, u8),
)
    ensures
        ({
            let h = header_layout(config, split_count, str_bytes, summary_bytes, sc);
            &&& h.len() == HEADER_SIZE
            &&& h.take(4) == splitset::magic()
            &&& bytes::u16_at(h, 4) == VERSION
            &&& bytes::u16_at(h, 6) == config.flags
            &&& h[8] == config.policy.code()
            &&& h[9] == config.body_kind.code()
            &&& bytes::u16_at(h, 10) == config.tier_count
            &&& bytes::u32_at(h, 12) == split_count
            &&& bytes::u32_at(h, 16) == config.base_count
            &&& bytes::u32_at(h, 20) == str_bytes
            &&& bytes::u64_at(h, 24) == summary_bytes
            &&& bytes::u64_at(h, 32) == config.byte_cap
            &&& bytes::u32_at(h, 40) == sc.0
            &&& bytes::u16_at(h, 44) == sc.1
            &&& bytes::u16_at(h, 46) == sc.2
            &&& h[48] == sc.3
            &&& bytes::u16_at(h, 49) == config.gram_size
        }),
{
    let h = header_layout(config, split_count, str_bytes, summary_bytes, sc);
    lemma_header_pieces(
        splitset::magic(),
        bytes::le16(VERSION),
        bytes::le16(config.flags),
        seq![config.policy.code(), config.body_kind.code()],
        bytes::le16(config.tier_count),
        bytes::le32(split_count),
        bytes::le32(config.base_count),
        bytes::le32(str_bytes),
        bytes::le64(summary_bytes),
        bytes::le64(config.byte_cap),
        bytes::le32(sc.0),
        bytes::le16(sc.1),
        bytes::le16(sc.2),
        seq![sc.3],
        bytes::le16(config.gram_size),
        zeros(13),
    );
    assert(h.take(4) == h.subrange(0, 4));
    assert(h.subrange(8, 10)[0] == h[8] && h.subrange(8, 10)[1] == h[9]);
    assert(h.subrange(48, 49)[0] == h[48]);
    bytes::lemma_u16_at(h, 4, VERSION);
    bytes::lemma_u16_at(h, 6, config.flags);
    bytes::lemma_u16_at(h, 10, config.tier_count);
    bytes::lemma_u32_at(h, 12, split_count);
    bytes::lemma_u32_at(h, 16, config.base_count);
    bytes::lemma_u32_at(h, 20, str_bytes);
    bytes::lemma_u64_at(h, 24, summary_bytes);
    bytes::lemma_u64_at(h, 32, config.byte_cap);
    bytes::lemma_u32_at(h, 40, sc.0);
    bytes::lemma_u16_at(h, 44, sc.1);
    bytes::lemma_u16_at(h, 46, sc.2);
    bytes::lemma_u16_at(h, 49, config.gram_size);
}

proof fn lemma_entry_pieces(
    f0: Seq<u8>,
    f1: Seq<u8>,
    f2: Seq<u8>,
    f3: Seq<u8>,
    f4: Seq<u8>,
    f5: Seq<u8>,
    f6: Seq<u8>,
    f7: Seq<u8>,
    f8: Seq<u8>,
    f9: Seq<u8>,
    f10: Seq<u8>,
    f11: Seq<u8>,
    f12: Seq<u8>,
)
    requires
        f0.len() == 4,
        f1.len() == 2,
        f2.len() == 2,
        f3.len() == 4,
        f4.len() == 4,
        f5.len() == 4,
        f6.len() == 2,
        f7.len() == 2,
        f8.len() == 8,
        f9.len() == 8,
        f10.len() == 8,
        f11.len() == 4,
        f12.len() == 4,
    ensures
        ({
            let h = f0 + f1 + f2 + f3 + f4 + f5 + f6 + f7 + f8 + f9 + f10 + f11 + f12;
            &&& h.len() == 56
            &&& h.subrange(0, 4) == f0
            &&& h.subrange(4, 6) == f1
            &&& h.subrange(6, 8) == f2
            &&& h.subrange(8, 12) == f3
            &&& h.subrange(12, 16) == f4
            &&& h.subrange(16, 20) == f5
            &&& h.subrange(20, 22) == f6
            &&& h.subrange(22, 24) == f7
            &&& h.subrange(24, 32) == f8
            &&& h.subrange(32, 40) == f9
            &&& h.subrange(40, 48) == f10
            &&& h.subrange(48, 52) == f11
            &&& h.subrange(52, 56) == f12
        }),
{
    let q0 = f0;
    let q1 = q0 + f1;
    let q2 = q1 + f2;
    let q3 = q2 + f3;
    let q4 = q3 + f4;
    let q5 = q4 + f5;
    let q6 = q5 + f6;
    let q7 = q6 + f7;
    let q8 = q7 + f8;
    let q9 = q8 + f9;
    let q10 = q9 + f10;
    let q11 = q10 + f11;
    let q12 = q11 + f12;
    let h = q12;
    assert(h.subrange(0, h.len() as int) =~= h);
    bytes::lemma_peel(h, q11, f12);
    bytes::lemma_peel(h, q10, f11);
    bytes::lemma_peel(h, q9, f10);
    bytes::lemma_peel(h, q8, f9);
    bytes::lemma_peel(h, q7, f8);
    bytes::lemma_peel(h, q6, f7);
    bytes::lemma_peel(h, q5, f6);
    bytes::lemma_peel(h, q4, f5);
    bytes::lemma_peel(h, q3, f4);
    bytes::lemma_peel(h, q2, f3);
    bytes::lemma_peel(h, q1, f2);
    bytes::lemma_peel(h, q0, f1);
    assert(h.subrange(0, 4) =~= f0);
}

/// Whether the entry at `base` of `body` describes split `i`.
#[verifier::opaque]
spec fn describes(body: Seq<u8>, base: int, splits: Seq<SplitSpec>, i: int) -> bool {
    let s = splits[i];
    &&& bytes::u32_at(body, base) == names(splits.take(i)).len() as u32
    &&& bytes::u16_at(body, base + 4) == encode_utf8(s.data_file@).len() as u16
    &&& bytes::u16_at(body, base + 6) == s.tier
    &&& bytes::u32_at(body, base + 8) == s.doc_count
    &&& bytes::u32_at(body, base + 12) == s.doc_id_lo
    &&& bytes::u32_at(body, base + 16) == s.doc_id_hi
    &&& bytes::u16_at(body, base + 20) == s.flags
    &&& bytes::u64_at(body, base + 24) == s.byte_size
    &&& bytes::u64_at(body, base + 32) == s.epoch
    &&& bytes::u64_at(body, base + 40) == summary_off(splits, i) as u64
    &&& bytes::u32_at(body, base + 48) == s.summary@.len() as u32
}

proof fn lemma_entry_describes(splits: Seq<SplitSpec>, i: int)
    ensures
        entry_bytes(splits, i).len() == ENTRY_SIZE,
        describes(entry_bytes(splits, i), 0, splits, i),
{
    let s = splits[i];
    let e = entry_bytes(splits, i);
    let name_off = names(splits.take(i)).len() as u32;
    let name_len = encode_utf8(s.data_file@).len() as u16;
    let sum_off = summary_off(splits, i) as u64;
    let sum_len = s.summary@.len() as u32;
    lemma_entry_pieces(
        bytes::le32(name_off),
        bytes::le16(name_len),
        bytes::le16(s.tier),
        bytes::le32(s.doc_count),
        bytes::le32(s.doc_id_lo),
        bytes::le32(s.doc_id_hi),
        bytes::le16(s.flags),
        bytes::le16(0),
        bytes::le64(s.byte_size),
        bytes::le64(s.epoch),
        bytes::le64(sum_off),
        bytes::le32(sum_len),
        bytes::le32(0),
    );
    bytes::lemma_u32_at(e, 0, name_off);
    bytes::lemma_u16_at(e, 4, name_len);
    bytes::lemma_u16_at(e, 6, s.tier);
    bytes::lemma_u32_at(e, 8, s.doc_count);
    bytes::lemma_u32_at(e, 12, s.doc_id_lo);
    bytes::lemma_u32_at(e, 16, s.doc_id_hi);
    bytes::lemma_u16_at(e, 20, s.flags);
    bytes::lemma_u64_at(e, 24, s.byte_size);
    bytes::lemma_u64_at(e, 32, s.epoch);
    bytes::lemma_u64_at(e, 40, sum_off);
    bytes::lemma_u32_at(e, 48, sum_len);
    reveal(describes);
}

proof fn lemma_describes_at(body: Seq<u8>, base: int, e: Seq<u8>, splits: Seq<SplitSpec>, i: int)
    requires
        e.len() == ENTRY_SIZE,
        0 <= base,
        base + ENTRY_SIZE <= body.len(),
        body.subrange(base, base + ENTRY_SIZE) == e,
        describes(e, 0, splits, i),
    ensures
        describes(body, base, splits, i),
{
    reveal(describes);
    bytes::lemma_shift(body, base, e);
    assert(bytes::u32_at(body, base + 0) == bytes::u32_at(e, 0));
    assert(bytes::u16_at(body, base + 4) == bytes::u16_at(e, 4));
    assert(bytes::u16_at(body, base + 6) == bytes::u16_at(e, 6));
    assert(bytes::u32_at(body, base + 8) == bytes::u32_at(e, 8));
    assert(bytes::u32_at(body, base + 12) == bytes::u32_at(e, 12));
    assert(bytes::u32_at(body, base + 16) == bytes::u32_at(e, 16));
    assert(bytes::u16_at(body, base + 20) == bytes::u16_at(e, 20));
    assert(bytes::u64_at(body, base + 24) == bytes::u64_at(e, 24));
    assert(bytes::u64_at(body, base + 32) == bytes::u64_at(e, 32));
    assert(bytes::u64_at(body, base + 40) == bytes::u64_at(e, 40));
    assert(bytes::u32_at(body, base + 48) == bytes::u32_at(e, 48));
}

/// What a reader is to find in the manifest of `splits` under `config`. A sort column without
/// a name is not recorded.
pub open spec fn recorded(splits: Seq<SplitSpec>, config: SplitSetConfig) -> ManifestView {
    ManifestView {
        policy: config.policy,
        body_kind: config.body_kind,
        flags: config.flags,
        tier_count: config.tier_count,
        base_count: config.base_count,
        byte_cap: config.byte_cap,
        gram_size: config.gram_size,
        sortcol: match config.sortcol {
            Some(sc) => if sc.name@.len() == 0 {
                None
            } else {
                Some(
                    SortColView {
                        name: sc.name@,
                        column: sc.column,
                        descending: sc.descending,
                    },
                )
            },
            None => None,
        },
        splits: Seq::new(splits.len(), |i: int| recorded_split(splits, i)),
        summary_blob: summaries(splits),
    }
}

/// What a reader is to find of split `i`.
pub open spec fn recorded_split(splits: Seq<SplitSpec>, i: int) -> SplitView {
    SplitView {
        data_file: splits[i].data_file@,
        tier: splits[i].tier,
        doc_count: splits[i].doc_count,
        doc_id_lo: splits[i].doc_id_lo,
        doc_id_hi: splits[i].doc_id_hi,
        flags: splits[i].flags,
        byte_size: splits[i].byte_size,
        epoch: splits[i].epoch,
        summary_off: summary_off(splits, i) as u64,
        summary_len: splits[i].summary@.len() as u32,
    }
}

proof fn lemma_entries(splits: Seq<SplitSpec>, n: nat)
    ensures
        entries_bytes(splits, n).len() == n * ENTRY_SIZE,
        forall|i: int|
            0 <= i < n ==> #[trigger] entries_bytes(splits, n).subrange(
                i * ENTRY_SIZE,
                i * ENTRY_SIZE + ENTRY_SIZE,
            ) == entry_bytes(splits, i),
    decreases n,
{
    if n > 0 {
        let m = (n - 1) as nat;
        lemma_entries(splits, m);
        lemma_entry_describes(splits, n - 1);
        let all = entries_bytes(splits, n);
        assert forall|i: int| 0 <= i < n implies #[trigger] all.subrange(
            i * ENTRY_SIZE,
            i * ENTRY_SIZE + ENTRY_SIZE,
        ) == entry_bytes(splits, i) by {
            if i < m {
                assert(all.subrange(i * ENTRY_SIZE, i * ENTRY_SIZE + ENTRY_SIZE)
                    =~= entries_bytes(splits, m).subrange(
                    i * ENTRY_SIZE,
                    i * ENTRY_SIZE + ENTRY_SIZE,
                ));
            } else {
                assert(all.subrange(i * ENTRY_SIZE, i * ENTRY_SIZE + ENTRY_SIZE) =~= entry_bytes(
                    splits,
                    i,
                ));
            }
        }
    }
}

proof fn lemma_name_span(splits: Seq<SplitSpec>, i: int)
    requires
        0 <= i < splits.len(),
    ensures
        ({
            let off = names(splits.take(i)).len() as int;
            let name = encode_utf8(splits[i].data_file@);
            off + name.len() <= names(splits).len() && names(splits).subrange(
                off,
                off + name.len(),
            ) == name
        }),
    decreases splits.len(),
{
    let off = names(splits.take(i)).len() as int;
    let name = encode_utf8(splits[i].data_file@);
    if i == splits.len() - 1 {
        assert(splits.take(i) =~= splits.drop_last());
        assert(names(splits).subrange(off, off + name.len()) =~= name);
    } else {
        let front = splits.drop_last();
        lemma_name_span(front, i);
        assert(front.take(i) =~= splits.take(i));
        assert(front[i] == splits[i]);
        assert(names(splits).subrange(off, off + name.len()) =~= names(front).subrange(
            off,
            off + name.len(),
        ));
    }
}

proof fn lemma_summary_span(splits: Seq<SplitSpec>, i: int)
    requires
        0 <= i < splits.len(),
    ensures
        ({
            let off = summaries(splits.take(i)).len() as int;
            let summary = splits[i].summary@;
            off + summary.len() <= summaries(splits).len() && summaries(splits).subrange(
                off,
                off + summary.len(),
            ) == summary
        }),
    decreases splits.len(),
{
    let off = summaries(splits.take(i)).len() as int;
    let summary = splits[i].summary@;
    if i == splits.len() - 1 {
        assert(splits.take(i) =~= splits.drop_last());
        assert(summaries(splits).subrange(off, off + summary.len()) =~= summary);
    } else {
        let front = splits.drop_last();
        lemma_summary_span(front, i);
        assert(front.take(i) =~= splits.take(i));
        assert(front[i] == splits[i]);
        assert(summaries(splits).subrange(off, off + summary.len()) =~= summaries(front).subrange(
            off,
            off + summary.len(),
        ));
    }
}

proof fn lemma_names_fit(splits: Seq<SplitSpec>, i: int)
    requires
        0 <= i < splits.len(),
        names_error(splits) is None,
    ensures
        names(splits.take(i)).len() <= u32::MAX,
        encode_utf8(splits[i].data_file@).len() <= u16::MAX,
    decreases splits.len(),
{
    let front = splits.drop_last();
    if i == splits.len() - 1 {
        assert(splits.take(i) =~= front);
    } else {
        lemma_names_fit(front, i);
        assert(front.take(i) =~= splits.take(i));
        assert(front[i] == splits[i]);
    }
}

proof fn lemma_describes(splits: Seq<SplitSpec>, rest: Seq<u8>, i: int)
    requires
        0 <= i < splits.len(),
    ensures
        describes(entries_bytes(splits, splits.len()) + rest, i * ENTRY_SIZE, splits, i),
{
    let entries = entries_bytes(splits, splits.len());
    let body = entries + rest;
    let base = i * ENTRY_SIZE;
    let e = entry_bytes(splits, i);
    lemma_entries(splits, splits.len());
    lemma_entry_describes(splits, i);
    assert(base + ENTRY_SIZE <= splits.len() * ENTRY_SIZE);
    assert(body.subrange(base, base + ENTRY_SIZE) =~= entries.subrange(base, base + ENTRY_SIZE));
    lemma_describes_at(body, base, e, splits, i);
}

proof fn lemma_split_recorded(
    splits: Seq<SplitSpec>,
    config: SplitSetConfig,
    body: Seq<u8>,
    i: int,
)
    requires
        write_error(splits, config) is None,
        0 <= i < splits.len(),
        body == entries_bytes(splits, splits.len()) + string_blob(splits, config) + summaries(
            splits,
        ),
        body.len() <= usize::MAX,
    ensures
        splitset::split_at(
            body,
            i * ENTRY_SIZE,
            string_blob(splits, config),
            summaries(splits).len() as int,
        ) == Ok::<_, IndexError>(recorded_split(splits, i)),
{
    let strings = string_blob(splits, config);
    assert(body =~= entries_bytes(splits, splits.len()) + (strings + summaries(splits)));
    lemma_describes(splits, strings + summaries(splits), i);
    reveal(describes);
    lemma_names_fit(splits, i);
    lemma_name_span(splits, i);
    lemma_summary_span(splits, i);
    assert(splits[i].summary@.len() <= u32::MAX);
    let off = names(splits.take(i)).len() as int;
    let name = encode_utf8(splits[i].data_file@);
    assert(strings.subrange(off, off + name.len()) =~= names(splits).subrange(
        off,
        off + name.len(),
    ));
    vstd::utf8::encode_utf8_valid_utf8(splits[i].data_file@);
    vstd::utf8::encode_utf8_decode_utf8(splits[i].data_file@);
}

proof fn lemma_splits_recorded(
    splits: Seq<SplitSpec>,
    config: SplitSetConfig,
    body: Seq<u8>,
    n: nat,
)
    requires
        write_error(splits, config) is None,
        n <= splits.len(),
        body == entries_bytes(splits, splits.len()) + string_blob(splits, config) + summaries(
            splits,
        ),
        body.len() <= usize::MAX,
    ensures
        splitset::splits_at(
            body,
            n,
            string_blob(splits, config),
            summaries(splits).len() as int,
        ) == Ok::<_, IndexError>(Seq::new(n, |i: int| recorded_split(splits, i))),
    decreases n,
{
    if n == 0 {
        assert(Seq::new(n, |i: int| recorded_split(splits, i)) =~= Seq::<SplitView>::empty());
    } else {
        let m = (n - 1) as nat;
        lemma_splits_recorded(splits, config, body, m);
        lemma_split_recorded(splits, config, body, n - 1);
        assert(Seq::new(n, |i: int| recorded_split(splits, i)) =~= Seq::new(
            m,
            |i: int| recorded_split(splits, i),
        ).push(recorded_split(splits, n - 1)));
    }
}

proof fn lemma_encode_empty(chars: Seq<char>)
    ensures
        encode_utf8(chars).len() == 0 <==> chars.len() == 0,
{
    vstd::utf8::encode_utf8_decode_utf8(chars);
    if encode_utf8(chars).len() == 0 {
        assert(encode_utf8(chars) =~= encode_utf8(Seq::<char>::empty()));
        vstd::utf8::encode_utf8_decode_utf8(Seq::<char>::empty());
    }
}

/// Whether `h` starts with a header that announces `splits` and `config`.
#[verifier::opaque]
spec fn announces(h: Seq<u8>, splits: Seq<SplitSpec>, config: SplitSetConfig) -> bool {
    let sc = sortcol_fields(splits, config);
    &&& h.len() >= HEADER_SIZE
    &&& h.take(4) == splitset::magic()
    &&& bytes::u16_at(h, 4) == VERSION
    &&& bytes::u16_at(h, 6) == config.flags
    &&& h[8] == config.policy.code()
    &&& h[9] == config.body_kind.code()
    &&& bytes::u16_at(h, 10) == config.tier_count
    &&& bytes::u32_at(h, 12) == splits.len() as u32
    &&& bytes::u32_at(h, 16) == config.base_count
    &&& bytes::u32_at(h, 20) == string_blob(splits, config).len() as u32
    &&& bytes::u64_at(h, 24) == summaries(splits).len() as u64
    &&& bytes::u64_at(h, 32) == config.byte_cap
    &&& bytes::u32_at(h, 40) == sc.0
    &&& bytes::u16_at(h, 44) == sc.1
    &&& bytes::u16_at(h, 46) == sc.2
    &&& h[48] == sc.3
    &&& bytes::u16_at(h, 49) == config.gram_size
}

proof fn lemma_announces(splits: Seq<SplitSpec>, config: SplitSetConfig)
    ensures
        header_bytes(splits, config).len() == HEADER_SIZE,
        announces(header_bytes(splits, config), splits, config),
{
    reveal(announces);
    lemma_header_fields(
        config,
        splits.len() as u32,
        string_blob(splits, config).len() as u32,
        summaries(splits).len() as u64,
        sortcol_fields(splits, config),
    );
}

proof fn lemma_announces_longer(
    m: Seq<u8>,
    h: Seq<u8>,
    splits: Seq<SplitSpec>,
    config: SplitSetConfig,
)
    requires
        announces(h, splits, config),
        h.len() <= m.len(),
        m.take(h.len() as int) == h,
    ensures
        announces(m, splits, config),
{
    reveal(announces);
    bytes::lemma_prefix_reads(m, h);
    assert(m.take(4) =~= h.take(4));
}

proof fn lemma_sortcol_recorded(splits: Seq<SplitSpec>, config: SplitSetConfig, h: Seq<u8>)
    requires
        write_error(splits, config) is None,
        string_blob(splits, config).len() <= usize::MAX,
        announces(h, splits, config),
    ensures
        splitset::sortcol_at(h, string_blob(splits, config)) == Ok::<_, IndexError>(
            recorded(splits, config).sortcol,
        ),
{
    reveal(announces);
    let strings = string_blob(splits, config);
    match config.sortcol {
        Some(sc) => {
            let name = encode_utf8(sc.name@);
            let off = names(splits).len() as int;
            lemma_encode_empty(sc.name@);
            assert(strings.subrange(off, off + name.len()) =~= name);
            vstd::utf8::encode_utf8_valid_utf8(sc.name@);
            vstd::utf8::encode_utf8_decode_utf8(sc.name@);
        },
        None => {},
    }
}

proof fn lemma_body_len(m: Seq<u8>, splits: Seq<SplitSpec>, config: SplitSetConfig)
    requires
        write_error(splits, config) is None,
        announces(m, splits, config),
        splits.len() * ENTRY_SIZE + string_blob(splits, config).len() + summaries(splits).len()
            <= usize::MAX,
    ensures
        splitset::body_len_of(m) == Ok::<_, IndexError>(
            (splits.len() * ENTRY_SIZE + string_blob(splits, config).len() + summaries(
                splits,
            ).len()) as usize,
        ),
{
    reveal(announces);
}

proof fn lemma_manifest_recorded(
    h: Seq<u8>,
    body: Seq<u8>,
    splits: Seq<SplitSpec>,
    config: SplitSetConfig,
)
    requires
        write_error(splits, config) is None,
        announces(h, splits, config),
        body == entries_bytes(splits, splits.len()) + string_blob(splits, config) + summaries(
            splits,
        ),
        body.len() <= usize::MAX,
    ensures
        splitset::manifest_of(h, body) == Ok::<_, IndexError>(recorded(splits, config)),
{
    reveal(announces);
    let strings = string_blob(splits, config);
    let sums = summaries(splits);
    lemma_entries(splits, splits.len());
    let str_start = (splits.len() * ENTRY_SIZE) as int;
    let summary_start = str_start + strings.len();
    assert(body.subrange(str_start, summary_start) =~= strings);
    assert(body.subrange(summary_start, summary_start + sums.len()) =~= sums);
    lemma_sortcol_recorded(splits, config, h);
    lemma_splits_recorded(splits, config, body, splits.len());
    splitset::law_codes_roundtrip(config.policy, config.body_kind, 0);
}

proof fn lemma_recorded_wf(splits: Seq<SplitSpec>, config: SplitSetConfig)
    requires
        write_error(splits, config) is None,
        summaries(splits).len() <= u64::MAX,
    ensures
        recorded(splits, config).wf(),
        forall|i: int|
            0 <= i < splits.len() ==> #[trigger] recorded(splits, config).summary(
                recorded(splits, config).splits[i],
            ) == (if splits[i].summary@.len() == 0 {
                None
            } else {
                Some(splits[i].summary@)
            }),
{
    let r = recorded(splits, config);
    assert forall|i: int| 0 <= i < splits.len() implies r.summary_in_range(#[trigger] r.splits[i])
        && r.summary(r.splits[i]) == (if splits[i].summary@.len() == 0 {
        None
    } else {
        Some(splits[i].summary@)
    }) by {
        lemma_summary_span(splits, i);
        assert(splits[i].summary@.len() <= u32::MAX);
    }
}

proof fn lemma_sections(h: Seq<u8>, entries: Seq<u8>, strings: Seq<u8>, sums: Seq<u8>)
    ensures
        ({
            let m = h + entries + strings + sums;
            &&& m.take(h.len() as int) == h
            &&& m.subrange(h.len() as int, m.len() as int) == entries + strings + sums
        }),
{
    let m = h + entries + strings + sums;
    assert(m.take(h.len() as int) =~= h);
    assert(m.subrange(h.len() as int, m.len() as int) =~= entries + strings + sums);
}

/// Reading a written manifest gives back every field of the configuration and of every split,
/// in order, and every split's summary bytes.
pub proof fn law_manifest_roundtrip(splits: Seq<SplitSpec>, config: SplitSetConfig)
    requires
        write_error(splits, config) is None,
        manifest_bytes(splits, config).len() <= usize::MAX,
    ensures
        ({
            let m = manifest_bytes(splits, config);
            let r = recorded(splits, config);
            &&& splitset::body_len_of(m) == Ok::<_, IndexError>((m.len() - HEADER_SIZE) as usize)
            &&& splitset::manifest_of(
                m.take(HEADER_SIZE as int),
                m.subrange(HEADER_SIZE as int, m.len() as int),
            ) == Ok::<_, IndexError>(r)
            &&& r.wf()
            &&& forall|i: int|
                0 <= i < splits.len() ==> #[trigger] r.summary(r.splits[i]) == (if splits[
                i
                ].summary@.len() == 0 {
                    None
                } else {
                    Some(splits[i].summary@)
                })
        }),
{
    let m = manifest_bytes(splits, config);
    let h = header_bytes(splits, config);
    let entries = entries_bytes(splits, splits.len());
    let strings = string_blob(splits, config);
    let sums = summaries(splits);
    let body = entries + strings + sums;
    lemma_announces(splits, config);
    lemma_entries(splits, splits.len());
    lemma_sections(h, entries, strings, sums);
    lemma_announces_longer(m, h, splits, config);
    lemma_body_len(m, splits, config);
    lemma_manifest_recorded(h, body, splits, config);
    lemma_recorded_wf(splits, config);
}

/// Whether `a` and `b` say the same of a split.
pub open spec fn alike(a: SplitSpec, b: SplitSpec) -> bool {
    &&& a.data_file@ == b.data_file@
    &&& a.tier == b.tier
    &&& a.doc_count == b.doc_count
    &&& a.doc_id_lo == b.doc_id_lo
    &&& a.doc_id_hi == b.doc_id_hi
    &&& a.epoch == b.epoch
    &&& a.byte_size == b.byte_size
    &&& a.flags == b.flags
    &&& a.summary@ == b.summary@
}

/// Whether `a` and `b` say the same of each split.
pub open spec fn all_alike(a: Seq<SplitSpec>, b: Seq<SplitSpec>) -> bool {
    &&& a.len() == b.len()
    &&& forall|i: int| #![trigger a[i]] #![trigger b[i]] 0 <= i < a.len() ==> alike(a[i], b[i])
}

proof fn lemma_alike_blobs(a: Seq<SplitSpec>, b: Seq<SplitSpec>)
    requires
        all_alike(a, b),
    ensures
        names(a) == names(b),
        summaries(a) == summaries(b),
        names_error(a) == names_error(b),
    decreases a.len(),
{
    if a.len() > 0 {
        let x = a.drop_last();
        let y = b.drop_last();
        assert(all_alike(x, y)) by {
            assert forall|i: int|
                #![trigger x[i]]
                #![trigger y[i]]
                0 <= i < x.len() implies alike(x[i], y[i]) by {
                assert(x[i] == a[i] && y[i] == b[i]);
            }
        }
        lemma_alike_blobs(x, y);
        assert(alike(a[a.len() - 1], b[b.len() - 1]));
    }
}

proof fn lemma_alike_entries(a: Seq<SplitSpec>, b: Seq<SplitSpec>, n: nat)
    requires
        all_alike(a, b),
        n <= a.len(),
    ensures
        entries_bytes(a, n) == entries_bytes(b, n),
    decreases n,
{
    if n > 0 {
        let i = n - 1;
        lemma_alike_entries(a, b, i as nat);
        let x = a.take(i);
        let y = b.take(i);
        assert(all_alike(x, y)) by {
            assert forall|j: int|
                #![trigger x[j]]
                #![trigger y[j]]
                0 <= j < x.len() implies alike(x[j], y[j]) by {
                assert(x[j] == a[j] && y[j] == b[j]);
            }
        }
        lemma_alike_blobs(x, y);
        assert(alike(a[i], b[i]));
    }
}

/// The manifest depends on nothing but what is said of each split.
pub proof fn law_manifest_alike(a: Seq<SplitSpec>, b: Seq<SplitSpec>, config: SplitSetConfig)
    requires
        all_alike(a, b),
    ensures
        manifest_bytes(a, config) == manifest_bytes(b, config),
        write_error(a, config) == write_error(b, config),
{
    lemma_alike_blobs(a, b);
    lemma_alike_entries(a, b, a.len());
    if exists|i: int| 0 <= i < a.len() && (#[trigger] a[i]).summary@.len() > u32::MAX {
        let i = choose|i: int| 0 <= i < a.len() && (#[trigger] a[i]).summary@.len() > u32::MAX;
        assert(b[i].summary@.len() > u32::MAX);
    }
    if exists|i: int| 0 <= i < b.len() && (#[trigger] b[i]).summary@.len() > u32::MAX {
        let i = choose|i: int| 0 <= i < b.len() && (#[trigger] b[i]).summary@.len() > u32::MAX;
        assert(a[i].summary@.len() > u32::MAX);
    }
}

/// The names, and the summaries, of two lists of splits lie end to end in one blob, and a single
/// split's is its own.
pub proof fn law_blobs(a: Seq<SplitSpec>, b: Seq<SplitSpec>, s: SplitSpec)
    ensures
        names(a + b) == names(a) + names(b),
        summaries(a + b) == summaries(a) + summaries(b),
        names(seq![s]) == encode_utf8(s.data_file@),
        summaries(seq![s]) == s.summary@,
    decreases b.len(),
{
    reveal_with_fuel(names, 2);
    reveal_with_fuel(summaries, 2);
    assert(seq![s].drop_last() =~= Seq::<SplitSpec>::empty());
    assert(names(seq![s]) =~= encode_utf8(s.data_file@));
    assert(summaries(seq![s]) =~= s.summary@);
    if b.len() == 0 {
        assert(a + b =~= a);
        assert(names(a) + names(b) =~= names(a));
        assert(summaries(a) + summaries(b) =~= summaries(a));
    } else {
        law_blobs(a, b.drop_last(), s);
        assert((a + b).drop_last() =~= a + b.drop_last());
        assert((a + b).last() == b.last());
        assert(names(a + b) =~= names(a) + names(b));
        assert(summaries(a + b) =~= summaries(a) + summaries(b));
    }
}

/// The names of some of the splits are no longer than those of all.
proof fn lemma_names_len(splits: Seq<SplitSpec>)
    ensures
        splits.len() > 0 ==> names(splits.drop_last()).len() <= names(splits).len(),
{
}

proof fn lemma_names_accepted(splits: Seq<SplitSpec>)
    requires
        names(splits).len() <= u32::MAX,
    ensures
        names_error(splits) is None <==> forall|i: int|
            0 <= i < splits.len() ==> encode_utf8((#[trigger] splits[i]).data_file@).len() <= 0xffff,
    decreases splits.len(),
{
    if splits.len() > 0 {
        let front = splits.drop_last();
        lemma_names_len(splits);
        lemma_names_accepted(front);
        assert forall|i: int| 0 <= i < front.len() implies #[trigger] front[i] == splits[i] by {}
        if names_error(splits) is None {
            assert forall|i: int| 0 <= i < splits.len() implies encode_utf8(
                (#[trigger] splits[i]).data_file@,
            ).len() <= 0xffff by {
                if i < front.len() {
                    assert(front[i] == splits[i]);
                }
            }
        } else if names_error(front) is None {
            assert(encode_utf8(splits[splits.len() - 1].data_file@).len() > 0xffff);
        } else {
            let i = choose|i: int|
                0 <= i < front.len() && encode_utf8((#[trigger] front[i]).data_file@).len() > 0xffff;
            assert(encode_utf8(splits[i].data_file@).len() > 0xffff);
        }
    }
}

/// A manifest is written exactly where the splits can be counted and the base splits are among
/// them, every name takes at most 65535 bytes, every summary and all names together under four
/// gibibytes.
pub proof fn law_write_accepted(splits: Seq<SplitSpec>, config: SplitSetConfig)
    ensures
        write_error(splits, config) is None <==> {
            &&& splits.len() <= 0xffff_ffff
            &&& config.base_count <= splits.len()
            &&& forall|i: int|
                0 <= i < splits.len() ==> encode_utf8((#[trigger] splits[i]).data_file@).len()
                    <= 0xffff
            &&& forall|i: int|
                0 <= i < splits.len() ==> (#[trigger] splits[i]).summary@.len() <= 0xffff_ffff
            &&& config.sortcol matches Some(sc) ==> encode_utf8(sc.name@).len() <= 0xffff
            &&& string_blob(splits, config).len() <= 0xffff_ffff
        },
{
    assert(names(splits).len() <= string_blob(splits, config).len());
    if string_blob(splits, config).len() <= 0xffff_ffff {
        lemma_names_accepted(splits);
    }
    if write_error(splits, config) is None {
        assert forall|i: int| 0 <= i < splits.len() implies (#[trigger] splits[i]).summary@.len()
            <= 0xffff_ffff by {}
    }
}

proof fn lemma_manifest_announces(splits: Seq<SplitSpec>, config: SplitSetConfig)
    ensures
        ({
            let m = manifest_bytes(splits, config);
            &&& announces(m, splits, config)
            &&& m.len() == 64 + 56 * splits.len() + string_blob(splits, config).len() + summaries(
                splits,
            ).len()
        }),
{
    let m = manifest_bytes(splits, config);
    let h = header_bytes(splits, config);
    lemma_announces(splits, config);
    lemma_entries(splits, splits.len());
    assert(m.take(h.len() as int) =~= h);
    lemma_announces_longer(m, h, splits, config);
}

/// Whether `m` starts with `RRSS` and version one, and holds each number of the configuration
/// little-endian at its place.
pub open spec fn laid_out(m: Seq<u8>, splits: Seq<SplitSpec>, config: SplitSetConfig) -> bool {
    &&& m[0] == 0x52 && m[1] == 0x52 && m[2] == 0x53 && m[3] == 0x53
    &&& bytes::u16_at(m, 4) == 1
    &&& bytes::u16_at(m, 6) == config.flags
    &&& m[8] == (if config.policy is Tiered {
        0u8
    } else {
        1u8
    })
    &&& m[9] == (if config.body_kind is Trigram {
        0u8
    } else {
        1u8
    })
    &&& bytes::u16_at(m, 10) == config.tier_count
    &&& bytes::u32_at(m, 12) == splits.len()
    &&& bytes::u32_at(m, 16) == config.base_count
    &&& bytes::u32_at(m, 20) == string_blob(splits, config).len()
    &&& bytes::u64_at(m, 24) == summaries(splits).len()
    &&& bytes::u64_at(m, 32) == config.byte_cap
    &&& bytes::u16_at(m, 49) == config.gram_size
    &&& match config.sortcol {
        Some(sc) => bytes::u32_at(m, 40) == names(splits).len() && bytes::u16_at(m, 44)
            == encode_utf8(sc.name@).len() && bytes::u16_at(m, 46) == sc.column && m[48]
            == (if sc.descending {
            1u8
        } else {
            0u8
        }),
        None => bytes::u32_at(m, 40) == 0 && bytes::u16_at(m, 44) == 0 && bytes::u16_at(
            m,
            46,
        ) == 0 && m[48] == 0,
    }
}

proof fn lemma_laid_out(m: Seq<u8>, splits: Seq<SplitSpec>, config: SplitSetConfig)
    requires
        announces(m, splits, config),
        splits.len() <= u32::MAX,
        string_blob(splits, config).len() <= u32::MAX,
        summaries(splits).len() <= u64::MAX,
        names(splits).len() <= u32::MAX,
        config.sortcol matches Some(sc) ==> encode_utf8(sc.name@).len() <= 0xffff,
    ensures
        laid_out(m, splits, config),
{
    reveal(announces);
    assert(m.take(4)[0] == 0x52 && m.take(4)[1] == 0x52 && m.take(4)[2] == 0x53 && m.take(4)[3]
        == 0x53);
}

/// The header of a manifest starts with `RRSS` and version one, and holds each number of the
/// configuration little-endian at its place.
pub proof fn law_header_layout(splits: Seq<SplitSpec>, config: SplitSetConfig)
    requires
        write_error(splits, config) is None,
        summaries(splits).len() <= u64::MAX,
    ensures
        laid_out(manifest_bytes(splits, config), splits, config),
        manifest_bytes(splits, config).len() == 64 + 56 * splits.len() + string_blob(
            splits,
            config,
        ).len() + summaries(splits).len(),
{
    law_write_accepted(splits, config);
    lemma_manifest_announces(splits, config);
    assert(names(splits).len() <= string_blob(splits, config).len());
    lemma_laid_out(manifest_bytes(splits, config), splits, config);
}

/// The entry of each split lies behind the header and the entries before it, 56 bytes each, and
/// holds each number of the split little-endian at its place.
pub proof fn law_entry_layout(splits: Seq<SplitSpec>, config: SplitSetConfig, i: int)
    requires
        write_error(splits, config) is None,
        summaries(splits).len() <= u64::MAX,
        0 <= i < splits.len(),
    ensures
        ({
            let m = manifest_bytes(splits, config);
            let base = 64 + 56 * i;
            let s = splits[i];
            &&& bytes::u32_at(m, base) == names(splits.take(i)).len() as u32
            &&& bytes::u16_at(m, base + 4) == encode_utf8(s.data_file@).len()
            &&& bytes::u16_at(m, base + 6) == s.tier
            &&& bytes::u32_at(m, base + 8) == s.doc_count
            &&& bytes::u32_at(m, base + 12) == s.doc_id_lo
            &&& bytes::u32_at(m, base + 16) == s.doc_id_hi
            &&& bytes::u16_at(m, base + 20) == s.flags
            &&& bytes::u64_at(m, base + 24) == s.byte_size
            &&& bytes::u64_at(m, base + 32) == s.epoch
            &&& bytes::u32_at(m, base + 48) == s.summary@.len()
            &&& s.summary@.len() > 0 ==> bytes::u64_at(m, base + 40) == summaries(
                splits.take(i),
            ).len() as u64
        }),
{
    let m = manifest_bytes(splits, config);
    let base = 64 + 56 * i;
    let e = entry_bytes(splits, i);
    let entries = entries_bytes(splits, splits.len());
    law_write_accepted(splits, config);
    lemma_announces(splits, config);
    lemma_entries(splits, splits.len());
    lemma_entry_describes(splits, i);
    assert(entries.subrange(i * ENTRY_SIZE, i * ENTRY_SIZE + ENTRY_SIZE) == e);
    assert(m.subrange(base, base + ENTRY_SIZE) =~= entries.subrange(
        i * ENTRY_SIZE,
        i * ENTRY_SIZE + ENTRY_SIZE,
    ));
    lemma_describes_at(m, base, e, splits, i);
    reveal(describes);
    assert(encode_utf8(splits[i].data_file@).len() <= 0xffff);
    assert(splits[i].summary@.len() <= 0xffff_ffff);
}

/// What a reader makes of the manifest `m`, its header and its body.
#[verifier::opaque]
pub open spec fn read_back(m: Seq<u8>) -> Result<ManifestView, IndexError> {
    splitset::manifest_of(
        m.take(HEADER_SIZE as int),
        m.subrange(HEADER_SIZE as int, m.len() as int),
    )
}

/// A written manifest, read back, is what was recorded.
pub proof fn law_read_back(splits: Seq<SplitSpec>, config: SplitSetConfig)
    requires
        write_error(splits, config) is None,
        manifest_bytes(splits, config).len() <= usize::MAX,
    ensures
        read_back(manifest_bytes(splits, config)) == Ok::<_, IndexError>(recorded(splits, config)),
{
    reveal(read_back);
    law_manifest_roundtrip(splits, config);
}

} // verus!
