//! The byte-capped split builders: the greedy seal.
//!
//! Documents are fed in policy order and accumulated into the open split; when an upper-bound
//! estimate of the open split's serialized size would cross the byte cap, the open split is
//! sealed and a fresh one starts. Splits store local 0-based doc IDs; the manifest carries each
//! split's global base, so the ranges of the splits tile the doc-ID space.

use crate::bitmap::{self, image, read_ids};
use crate::bloom;
use crate::bytes::put_bytes;
use crate::error::BuildError;
use crate::facet_build::{
    facet_presence, facets_sorted, fields_hold, law_facets_recorded, law_fields_determined,
    lemma_presence_unique, lists_presence, presence_payload, records, same_fields, with_facets, FacetField, FacetPostings,
    FacetView,
};
use crate::facets::Selection;
use crate::postings::{
    keys_of, law_with_doc, lemma_keys_unique, lists_keys, posting, with_doc, KeyPostings,
};
use crate::splitset::{
    self, BodyKind, ManifestView, Policy, FLAG_BLOOM, FLAG_CASE_SENSITIVE, FLAG_FACET, SUMMARY_TAG_BLOOM,
    SUMMARY_TAG_FACET,
};
use crate::splitset_build::{
    self, alike, all_alike, law_manifest_alike, law_manifest_roundtrip, manifest_bytes, recorded,
    recorded_split, write_error, write_splitset, SortColSpec, SplitSetConfig, SplitSpec,
};
use crate::splitset_write::{nonzero_or, record_if, DEFAULT_HEAD_BOUNDARY, DEFAULT_STRIDE};
use crate::terms::{encoded, held, raws, sorted_set, sorted_terms};
use crate::terms_build::{
    index_written, language_recorded, law_index_determined, lemma_posted_all, lemma_postings_unique,
    lemma_terms_unique, posted_all, record_language, write_term_index_from_postings, TermPostings,
};
use crate::text;
use crate::tlv;
use crate::tokenize::{Language, Tokenizer};
use vstd::prelude::*;

verus! {

/// `cap` doubled `tier` times.
pub open spec fn doubled(cap: nat, tier: nat) -> nat
    decreases tier,
{
    if tier == 0 {
        cap
    } else {
        2 * doubled(cap, (tier - 1) as nat)
    }
}

/// The byte cap for the split at seal index `tier`: the flat `byte_cap` when `byte_cap_max` is
/// zero, else doubling per tier and clamped to `byte_cap_max`.
pub open spec fn tier_cap(byte_cap: u64, byte_cap_max: u64, tier: nat) -> u64 {
    let limit = if byte_cap_max > byte_cap {
        byte_cap_max
    } else {
        byte_cap
    };
    if byte_cap_max == 0 {
        byte_cap
    } else if doubled(byte_cap as nat, tier) <= limit {
        doubled(byte_cap as nat, tier) as u64
    } else {
        limit
    }
}

proof fn lemma_doubled_grows(cap: nat, a: nat, b: nat)
    requires
        a <= b,
    ensures
        doubled(cap, a) <= doubled(cap, b),
        doubled(0, a) == 0,
    decreases b + a,
{
    if a < b {
        lemma_doubled_grows(cap, a, (b - 1) as nat);
    } else if a > 0 {
        lemma_doubled_grows(cap, (a - 1) as nat, (a - 1) as nat);
    }
}

/// Tier caps never shrink down the rank order, and stay within the first tier's cap and the
/// largest one.
pub proof fn law_tier_caps(byte_cap: u64, byte_cap_max: u64, a: nat, b: nat)
    requires
        a <= b,
    ensures
        tier_cap(byte_cap, byte_cap_max, 0) == byte_cap,
        tier_cap(byte_cap, byte_cap_max, a) <= tier_cap(byte_cap, byte_cap_max, b),
        byte_cap <= tier_cap(byte_cap, byte_cap_max, a),
        tier_cap(byte_cap, byte_cap_max, a) <= (if byte_cap_max > byte_cap {
            byte_cap_max
        } else {
            byte_cap
        }),
{
    lemma_doubled_grows(byte_cap as nat, a, b);
    lemma_doubled_grows(byte_cap as nat, 0, a);
}

/// The byte cap for the split at seal index `tier` (see [`SplitBuildConfig::byte_cap_max`]).
pub fn cap_for(byte_cap: u64, byte_cap_max: u64, tier: usize) -> (cap: u64)
    ensures
        cap == tier_cap(byte_cap, byte_cap_max, tier as nat),
{
    if byte_cap_max == 0 {
        return byte_cap;
    }
    let limit: u64 = if byte_cap_max > byte_cap {
        byte_cap_max
    } else {
        byte_cap
    };
    let mut cap: u64 = byte_cap;
    let mut i: usize = 0;
    while i < tier
        invariant
            i <= tier,
            cap <= limit,
            cap == doubled(byte_cap as nat, i as nat),
            limit == (if byte_cap_max > byte_cap {
                byte_cap_max
            } else {
                byte_cap
            }),
            byte_cap_max != 0,
        decreases tier - i,
    {
        if cap > limit / 2 {
            proof {
                lemma_doubled_grows(byte_cap as nat, (i + 1) as nat, tier as nat);
            }
            return limit;
        }
        cap = cap * 2;
        i += 1;
    }
    cap
}

/// A list of emitted files as `(filename, bytes)`.
pub type NamedFiles = Vec<(String, Vec<u8>)>;

/// The output of a builder: the manifest bytes, each split, and each split's facet sidecar. The
/// caller writes the files.
#[derive(Debug)]
pub struct BuiltSplitSet {
    /// The serialized manifest.
    pub manifest: Vec<u8>,
    /// Each emitted split as `(filename, bytes)`, in seal order.
    pub splits: Vec<(String, Vec<u8>)>,
    /// Each split's facet sidecar as `(filename, bytes)`, when its documents carried facets.
    pub facets: Vec<(String, Vec<u8>)>,
}

/// What both builders keep beside the open split's postings.
pub struct Ledger {
    /// How the base splits are assembled.
    pub policy: Policy,
    /// The first tier's byte cap.
    pub byte_cap: u64,
    /// The largest byte cap, or zero for a flat one.
    pub byte_cap_max: u64,
    /// Doc-ID head/tail split.
    pub head_boundary: u32,
    /// File-name prefix of the emitted splits.
    pub name_prefix: String,
    /// The stable-key rank source recorded in the manifest.
    pub sortcol: Option<SortColSpec>,
    /// Whether keys are case-folded.
    pub case_normalization: bool,
    /// Number of docs in the open split.
    pub open_count: u32,
    /// Global doc ID of the open split's first doc.
    pub global_base: u32,
    /// The open split's facets.
    pub facets: FacetPostings,
    /// Whether any document has carried a facet.
    pub has_facets: bool,
    /// Sealed split metadata, in seal order.
    pub specs: Vec<SplitSpec>,
    /// Sealed splits not yet handed out.
    pub blobs: NamedFiles,
    /// Sealed facet sidecars not yet handed out.
    pub facet_blobs: NamedFiles,
}

/// Whether the ranges of `specs` tile the doc-ID space from zero up to `next`: each split holds
/// the IDs right behind those of the one before it, and no split is empty.
pub open spec fn tiles(specs: Seq<SplitSpec>, next: int) -> bool
    decreases specs.len(),
{
    if specs.len() == 0 {
        next == 0
    } else {
        let s = specs.last();
        &&& s.doc_count >= 1
        &&& s.doc_id_lo + s.doc_count == next
        &&& s.doc_id_hi == next - 1
        &&& tiles(specs.drop_last(), s.doc_id_lo as int)
    }
}

impl Ledger {
    /// The settings are those of `other`.
    pub open spec fn same_settings(self, other: Ledger) -> bool {
        &&& self.policy == other.policy
        &&& self.byte_cap == other.byte_cap
        &&& self.byte_cap_max == other.byte_cap_max
        &&& self.head_boundary == other.head_boundary
        &&& self.name_prefix@ == other.name_prefix@
        &&& self.sortcol == other.sortcol
        &&& self.case_normalization == other.case_normalization
    }

    /// Nothing but the open split differs from `other`.
    pub open spec fn same_sealed(self, other: Ledger) -> bool {
        &&& self.same_settings(other)
        &&& self.global_base == other.global_base
        &&& self.specs@ == other.specs@
        &&& self.blobs@ == other.blobs@
        &&& self.facet_blobs@ == other.facet_blobs@
    }

    /// The next global doc ID.
    pub open spec fn next_id(self) -> int {
        self.global_base + self.open_count
    }

    /// The sealed splits tile the IDs below the open split's, and IDs fit.
    pub open spec fn wf(self) -> bool {
        &&& self.next_id() <= u32::MAX
        &&& tiles(self.specs@, self.global_base as int)
        &&& facets_sorted(self.facets@)
        &&& self.facets@.len() > 0 ==> self.has_facets
    }

    /// The tier of the split at seal index `i`.
    pub open spec fn tier(self, i: nat) -> u16 {
        match self.policy {
            Policy::Tiered => if i <= u16::MAX {
                i as u16
            } else {
                u16::MAX
            },
            Policy::StableKey => 0,
        }
    }

    /// The name of the file at seal index `i`.
    pub open spec fn file_name(self, i: nat, ext: Seq<char>) -> Seq<char> {
        text::numbered_name(self.name_prefix@, seq!['s'], i, ext)
    }

    /// Every sealed split has its numbered name and its tier, and those not yet handed out have
    /// their bytes here, under that name and of the recorded size.
    #[verifier::opaque]
    pub open spec fn listed(self, ext: Seq<char>) -> bool {
        &&& self.blobs@.len() <= self.specs@.len()
        &&& forall|i: int|
            0 <= i < self.specs@.len() ==> (#[trigger] self.specs@[i]).data_file@ == self.file_name(
                i as nat,
                ext,
            ) && self.specs@[i].tier == self.tier(i as nat)
        &&& forall|j: int|
            0 <= j < self.blobs@.len() ==> ({
                let s = self.specs@[self.specs@.len() - self.blobs@.len() + j];
                (#[trigger] self.blobs@[j]).0@ == s.data_file@ && self.blobs@[j].1@.len()
                    == s.byte_size
            })
    }
}

/// Whether `s` is the manifest entry of the split that `l` seals with the given size and
/// summary.
pub open spec fn sealed_split(
    s: SplitSpec,
    l: Ledger,
    ext: Seq<char>,
    size: nat,
    summary: Seq<u8>,
) -> bool {
    &&& s.data_file@ == l.file_name(l.specs@.len(), ext)
    &&& s.tier == l.tier(l.specs@.len())
    &&& s.doc_count == l.open_count
    &&& s.doc_id_lo == l.global_base
    &&& s.doc_id_hi == l.global_base + l.open_count - 1
    &&& s.epoch == 0
    &&& s.byte_size == size
    &&& s.flags == 0
    &&& s.summary@ == summary
}

/// Whether `b` is `a` with one file appended.
pub open spec fn appended(
    a: Seq<(String, Vec<u8>)>,
    b: Seq<(String, Vec<u8>)>,
    name: Seq<char>,
    data: Seq<u8>,
) -> bool {
    &&& b.len() == a.len() + 1
    &&& b.drop_last() == a
    &&& b.last().0@ == name
    &&& b.last().1@ == data
}

/// Whether sealing `a` with the split `body`, the summary, and the facet sidecar leaves `b`.
pub open spec fn sealed(
    a: Ledger,
    b: Ledger,
    ext: Seq<char>,
    body: Seq<u8>,
    summary: Seq<u8>,
    sidecar: Option<Seq<u8>>,
) -> bool {
    &&& b.same_settings(a)
    &&& b.has_facets == a.has_facets
    &&& b.open_count == 0
    &&& b.global_base == a.next_id()
    &&& b.facets@ == Seq::<FacetView>::empty()
    &&& b.specs@.len() == a.specs@.len() + 1
    &&& b.specs@.drop_last() == a.specs@
    &&& sealed_split(b.specs@.last(), a, ext, body.len(), summary)
    &&& appended(a.blobs@, b.blobs@, a.file_name(a.specs@.len(), ext), body)
    &&& match sidecar {
        Some(data) => appended(
            a.facet_blobs@,
            b.facet_blobs@,
            a.file_name(a.specs@.len(), seq!['.', 'r', 'r', 'f']),
            data,
        ),
        None => b.facet_blobs@ == a.facet_blobs@,
    }
}

/// Sealed splits stay tiled.
pub proof fn law_seal_keeps_tiling(
    a: Ledger,
    b: Ledger,
    ext: Seq<char>,
    body: Seq<u8>,
    summary: Seq<u8>,
    sidecar: Option<Seq<u8>>,
)
    requires
        a.wf(),
        a.open_count > 0,
        sealed(a, b, ext, body, summary, sidecar),
    ensures
        b.wf(),
{
}

/// Sealed splits stay listed.
pub proof fn law_seal_keeps_listing(
    a: Ledger,
    b: Ledger,
    ext: Seq<char>,
    body: Seq<u8>,
    summary: Seq<u8>,
    sidecar: Option<Seq<u8>>,
)
    requires
        a.listed(ext),
        sealed(a, b, ext, body, summary, sidecar),
    ensures
        b.listed(ext),
{
    reveal(Ledger::listed);
    let n = a.specs@.len() as int;
    let k = a.blobs@.len() as int;
    assert forall|i: int| 0 <= i < b.specs@.len() implies (
    #[trigger] b.specs@[i]).data_file@ == b.file_name(i as nat, ext) && b.specs@[i].tier == b.tier(
        i as nat,
    ) by {
        if i < n {
            assert(b.specs@.drop_last()[i] == b.specs@[i]);
            assert(a.specs@[i].data_file@ == a.file_name(i as nat, ext));
        } else {
            assert(b.specs@[i] == b.specs@.last());
        }
    }
    assert forall|j: int| 0 <= j < b.blobs@.len() implies ({
        let s = b.specs@[b.specs@.len() - b.blobs@.len() + j];
        (#[trigger] b.blobs@[j]).0@ == s.data_file@ && b.blobs@[j].1@.len() == s.byte_size
    }) by {
        if j < k {
            assert(b.blobs@.drop_last()[j] == b.blobs@[j]);
            assert(b.specs@.drop_last()[n - k + j] == b.specs@[n - k + j]);
            assert(a.blobs@[j].0@ == a.specs@[n - k + j].data_file@);
        } else {
            assert(b.blobs@[j] == b.blobs@.last());
            assert(b.specs@[n] == b.specs@.last());
        }
    }
}

proof fn lemma_listed_same(a: Ledger, b: Ledger, ext: Seq<char>)
    requires
        a.listed(ext),
        b.same_settings(a),
        b.specs@ == a.specs@,
        b.blobs@ == a.blobs@ || b.blobs@.len() == 0,
    ensures
        b.listed(ext),
{
    reveal(Ledger::listed);
    assert forall|i: int| 0 <= i < b.specs@.len() implies (
    #[trigger] b.specs@[i]).data_file@ == b.file_name(i as nat, ext) && b.specs@[i].tier == b.tier(
        i as nat,
    ) by {
        assert(a.specs@[i].data_file@ == a.file_name(i as nat, ext));
    }
}

/// Every doc ID handed out so far to a sealed split lies in exactly one split's range.
pub proof fn law_ids_in_one_split(specs: Seq<SplitSpec>, next: int, id: int)
    requires
        tiles(specs, next),
        0 <= id < next,
    ensures
        exists|i: int|
            0 <= i < specs.len() && (#[trigger] specs[i]).doc_id_lo <= id <= specs[i].doc_id_hi,
        forall|i: int, j: int|
            0 <= i < specs.len() && 0 <= j < specs.len() && (#[trigger] specs[i]).doc_id_lo <= id
                <= specs[i].doc_id_hi && (#[trigger] specs[j]).doc_id_lo <= id <= specs[j].doc_id_hi
                ==> i == j,
    decreases specs.len(),
{
    let s = specs.last();
    let front = specs.drop_last();
    assert forall|i: int| 0 <= i < front.len() implies front[i] == specs[i] && (
    #[trigger] specs[i]).doc_id_hi < s.doc_id_lo by {
        lemma_tiles_below(front, s.doc_id_lo as int, i);
    }
    if id < s.doc_id_lo {
        law_ids_in_one_split(front, s.doc_id_lo as int, id);
        let i = choose|i: int|
            0 <= i < front.len() && (#[trigger] front[i]).doc_id_lo <= id <= front[i].doc_id_hi;
        assert(specs[i] == front[i]);
        assert forall|i: int, j: int|
            0 <= i < specs.len() && 0 <= j < specs.len() && (#[trigger] specs[i]).doc_id_lo <= id
                <= specs[i].doc_id_hi && (#[trigger] specs[j]).doc_id_lo <= id
                <= specs[j].doc_id_hi implies i == j by {
            assert(front[i] == specs[i] && front[j] == specs[j]);
        }
    } else {
        assert(specs[specs.len() - 1].doc_id_lo <= id <= specs[specs.len() - 1].doc_id_hi);
    }
}

proof fn lemma_tiles_below(specs: Seq<SplitSpec>, next: int, i: int)
    requires
        tiles(specs, next),
        0 <= i < specs.len(),
    ensures
        specs[i].doc_id_hi < next,
    decreases specs.len(),
{
    if i < specs.len() - 1 {
        lemma_tiles_below(specs.drop_last(), specs.last().doc_id_lo as int, i);
    }
}

proof fn lemma_tiles_count(specs: Seq<SplitSpec>, next: int)
    requires
        tiles(specs, next),
    ensures
        specs.len() <= next,
    decreases specs.len(),
{
    if specs.len() > 0 {
        lemma_tiles_count(specs.drop_last(), specs.last().doc_id_lo as int);
    }
}

impl Ledger {
    /// Records the sealed split: its manifest entry, its bytes, and its facet sidecar.
    fn record(&mut self, ext: &str, body: Vec<u8>, summary: Vec<u8>, sidecar: Option<Vec<u8>>)
        requires
            old(self).wf(),
            old(self).open_count > 0,
        ensures
            final(self).wf(),
            sealed(
                *old(self),
                *final(self),
                ext@,
                body@,
                summary@,
                match sidecar {
                    Some(data) => Some(data@),
                    None => None,
                },
            ),
    {
        proof {
            lemma_tiles_count(self.specs@, self.global_base as int);
            reveal_strlit("s");
            assert("s"@ =~= seq!['s']);
            reveal_strlit(".rrf");
            assert(".rrf"@ =~= seq!['.', 'r', 'r', 'f']);
        }
        let idx: usize = self.specs.len();
        let name = text::numbered(self.name_prefix.as_str(), "s", idx as u64, ext);
        let tier: u16 = match self.policy {
            Policy::Tiered => if idx <= u16::MAX as usize {
                idx as u16
            } else {
                u16::MAX
            },
            Policy::StableKey => 0,
        };
        if let Some(data) = sidecar {
            let facet_name = text::numbered(self.name_prefix.as_str(), "s", idx as u64, ".rrf");
            self.facet_blobs.push((facet_name, data));
            assert(self.facet_blobs@.drop_last() =~= old(self).facet_blobs@);
        }
        self.specs.push(
            SplitSpec {
                data_file: name.clone(),
                tier,
                doc_count: self.open_count,
                doc_id_lo: self.global_base,
                doc_id_hi: self.global_base + (self.open_count - 1),
                epoch: 0,
                byte_size: body.len() as u64,
                flags: 0,
                summary,
            },
        );
        self.blobs.push((name, body));
        assert(self.specs@.drop_last() =~= old(self).specs@);
        assert(self.blobs@.drop_last() =~= old(self).blobs@);
        self.global_base = self.global_base + self.open_count;
        self.open_count = 0;
        self.facets.clear();
    }

    /// Counts one more document with its facets in, and returns its global ID.
    fn count_in(&mut self, facets: &[Selection]) -> (global: u32)
        requires
            old(self).wf(),
            old(self).next_id() < u32::MAX,
        ensures
            final(self).wf(),
            final(self).same_sealed(*old(self)),
            global == old(self).next_id(),
            final(self).open_count == old(self).open_count + 1,
            final(self).facets@ == with_facets(old(self).facets@, facets@, old(self).open_count),
            final(self).has_facets == (old(self).has_facets || facets@.len() > 0),
    {
        let local: u32 = self.open_count;
        self.facets.post_all(facets, local);
        if facets.len() > 0 {
            self.has_facets = true;
        } else {
            assert(self.facets@ == old(self).facets@);
        }
        self.open_count = local + 1;
        self.global_base + local
    }

    /// Hands out the splits and sidecars sealed since the last call.
    fn drain(&mut self) -> (files: (NamedFiles, NamedFiles))
        ensures
            files.0@ == old(self).blobs@,
            files.1@ == old(self).facet_blobs@,
            final(self).blobs@.len() == 0,
            final(self).facet_blobs@.len() == 0,
            final(self).same_settings(*old(self)),
            final(self).global_base == old(self).global_base,
            final(self).open_count == old(self).open_count,
            final(self).facets@ == old(self).facets@,
            final(self).has_facets == old(self).has_facets,
            final(self).specs@ == old(self).specs@,
    {
        let mut blobs: NamedFiles = Vec::new();
        let mut sidecars: NamedFiles = Vec::new();
        std::mem::swap(&mut blobs, &mut self.blobs);
        std::mem::swap(&mut sidecars, &mut self.facet_blobs);
        (blobs, sidecars)
    }

    /// Why the set cannot be finished: the first split, from `i` on, that holds a single
    /// document whose postings alone exceed the cap.
    pub open spec fn oversize(self, i: int) -> Option<int>
        decreases self.specs@.len() - i,
    {
        if i < 0 || i >= self.specs@.len() {
            None
        } else if self.specs@[i].doc_count == 1 && self.specs@[i].byte_size > tier_cap(
            self.byte_cap,
            self.byte_cap_max,
            i as nat,
        ) {
            Some(i)
        } else {
            self.oversize(i + 1)
        }
    }

    /// The flags of the manifest.
    pub open spec fn flags(self, with_bloom: bool) -> u16 {
        ((if with_bloom {
            FLAG_BLOOM as int
        } else {
            0
        }) + (if self.has_facets {
            FLAG_FACET as int
        } else {
            0
        }) + (if self.case_normalization {
            0
        } else {
            FLAG_CASE_SENSITIVE as int
        })) as u16
    }

    /// Whether `c` is the manifest configuration of the finished set.
    pub open spec fn configures(
        self,
        c: SplitSetConfig,
        gram_size: u16,
        body_kind: BodyKind,
        with_bloom: bool,
    ) -> bool {
        &&& c.policy == self.policy
        &&& c.tier_count == self.tier(self.specs@.len())
        &&& c.base_count == self.specs@.len()
        &&& c.byte_cap == self.byte_cap
        &&& c.gram_size == gram_size
        &&& c.body_kind == body_kind
        &&& c.sortcol == self.sortcol
        &&& c.flags == self.flags(with_bloom)
    }

    /// Whether finishing the set, whose last split has been sealed, ends in `r`.
    pub open spec fn finished(
        self,
        gram_size: u16,
        body_kind: BodyKind,
        with_bloom: bool,
        r: Result<BuiltSplitSet, BuildError>,
    ) -> bool {
        match self.oversize(0) {
            Some(i) => r matches Err(BuildError::DocTooLarge { split, size, cap }) && split@
                == self.specs@[i].data_file@ && size == self.specs@[i].byte_size && cap == tier_cap(
                self.byte_cap,
                self.byte_cap_max,
                i as nat,
            ),
            None => exists|c: SplitSetConfig|
                #[trigger] self.configures(c, gram_size, body_kind, with_bloom) && match r {
                    Ok(out) => {
                        &&& write_error(self.specs@, c) is None
                        &&& out.manifest@ == manifest_bytes(self.specs@, c)
                        &&& out.splits@ == self.blobs@
                        &&& out.facets@ == self.facet_blobs@
                    },
                    Err(e) => write_error(self.specs@, c) == Some(e),
                },
        }
    }

    /// Serializes the manifest once the last split has been sealed.
    fn finish(self, gram_size: u16, body_kind: BodyKind, with_bloom: bool) -> (r: Result<
        BuiltSplitSet,
        BuildError,
    >)
        requires
            self.wf(),
        ensures
            self.finished(gram_size, body_kind, with_bloom, r),
    {
        let mut i: usize = 0;
        while i < self.specs.len()
            invariant
                i <= self.specs@.len(),
                self.oversize(0) == self.oversize(i as int),
            decreases self.specs@.len() - i,
        {
            let cap: u64 = cap_for(self.byte_cap, self.byte_cap_max, i);
            if self.specs[i].doc_count == 1 && self.specs[i].byte_size > cap {
                return Err(
                    BuildError::DocTooLarge {
                        split: self.specs[i].data_file.clone(),
                        size: self.specs[i].byte_size,
                        cap,
                    },
                );
            }
            i += 1;
        }
        proof {
            lemma_tiles_count(self.specs@, self.global_base as int);
        }
        let n: usize = self.specs.len();
        let tier_count: u16 = match self.policy {
            Policy::Tiered => if n <= u16::MAX as usize {
                n as u16
            } else {
                u16::MAX
            },
            Policy::StableKey => 0,
        };
        let bloom_flag: u16 = if with_bloom {
            FLAG_BLOOM
        } else {
            0
        };
        let facet_flag: u16 = if self.has_facets {
            FLAG_FACET
        } else {
            0
        };
        let case_flag: u16 = if self.case_normalization {
            0
        } else {
            FLAG_CASE_SENSITIVE
        };
        let ghost me = self;
        let config = SplitSetConfig {
            policy: self.policy,
            tier_count,
            base_count: n as u32,
            byte_cap: self.byte_cap,
            gram_size,
            body_kind,
            sortcol: self.sortcol,
            flags: bloom_flag + facet_flag + case_flag,
        };
        assert(me.configures(config, gram_size, body_kind, with_bloom));
        match write_splitset(self.specs.as_slice(), &config) {
            Ok(manifest) => Ok(
                BuiltSplitSet { manifest, splits: self.blobs, facets: self.facet_blobs },
            ),
            Err(e) => Err(e),
        }
    }
}

/// Whether `made` is what the facet encoder made of the open split's facets: nothing where
/// there are none.
pub open spec fn sidecar_made<F: Fn(Vec<FacetField>, bool) -> Result<Vec<u8>, BuildError>>(
    l: Ledger,
    encode_facets: &F,
    made: Option<Result<Vec<u8>, BuildError>>,
) -> bool {
    match made {
        None => l.facets@.len() == 0,
        Some(coded) => l.facets@.len() > 0 && exists|fields: Vec<FacetField>|
            fields_hold(fields@, l.facets@, l.head_boundary) && #[trigger] call_ensures(
                encode_facets,
                (fields, l.case_normalization),
                coded,
            ),
    }
}

/// Whether `summary` is `front` with the facet-presence record of the open split's categories,
/// where there are any.
pub open spec fn presence_added(l: Ledger, front: Seq<u8>, summary: Seq<u8>) -> bool {
    exists|ks: Seq<u64>|
        #[trigger] lists_presence(ks, l.facets@) && summary == front + record_if(
            l.facets@.len() > 0,
            SUMMARY_TAG_FACET,
            presence_payload(ks),
        )
}

/// Whether `b` is `a` without the open split's facets: a facet encoder that refuses its input
/// has taken them.
pub open spec fn unfaceted(a: Ledger, b: Ledger) -> bool {
    &&& b.same_sealed(a)
    &&& b.open_count == a.open_count
    &&& b.has_facets == a.has_facets
    &&& b.facets@ == Seq::<FacetView>::empty()
}

/// Whether sealing `a` with the split `body` and the summary `front` ends in `b` and `r`.
pub open spec fn seal_ends<F: Fn(Vec<FacetField>, bool) -> Result<Vec<u8>, BuildError>>(
    a: Ledger,
    b: Ledger,
    ext: Seq<char>,
    body: Seq<u8>,
    front: Seq<u8>,
    encode_facets: &F,
    r: Result<(), BuildError>,
) -> bool {
    exists|made: Option<Result<Vec<u8>, BuildError>>|
        #[trigger] sidecar_made(a, encode_facets, made) && match made {
            Some(Err(e)) => r == Err::<(), _>(e) && unfaceted(a, b),
            Some(Ok(data)) => {
                &&& r is Ok
                &&& presence_added(a, front, b.specs@.last().summary@)
                &&& sealed(a, b, ext, body, b.specs@.last().summary@, Some(data@))
            },
            None => {
                &&& r is Ok
                &&& presence_added(a, front, b.specs@.last().summary@)
                &&& sealed(a, b, ext, body, b.specs@.last().summary@, None)
            },
        }
}

proof fn lemma_seal_ends_listed<F: Fn(Vec<FacetField>, bool) -> Result<Vec<u8>, BuildError>>(
    a: Ledger,
    b: Ledger,
    ext: Seq<char>,
    body: Seq<u8>,
    front: Seq<u8>,
    encode_facets: &F,
    r: Result<(), BuildError>,
)
    requires
        a.listed(ext),
        seal_ends(a, b, ext, body, front, encode_facets, r),
    ensures
        b.listed(ext),
{
    let made = choose|made: Option<Result<Vec<u8>, BuildError>>|
        #[trigger] sidecar_made(a, encode_facets, made) && match made {
            Some(Err(e)) => r == Err::<(), _>(e) && unfaceted(a, b),
            Some(Ok(data)) => {
                &&& r is Ok
                &&& presence_added(a, front, b.specs@.last().summary@)
                &&& sealed(a, b, ext, body, b.specs@.last().summary@, Some(data@))
            },
            None => {
                &&& r is Ok
                &&& presence_added(a, front, b.specs@.last().summary@)
                &&& sealed(a, b, ext, body, b.specs@.last().summary@, None)
            },
        };
    match made {
        Some(Err(_)) => {
            lemma_listed_same(a, b, ext);
        },
        Some(Ok(data)) => {
            law_seal_keeps_listing(a, b, ext, body, b.specs@.last().summary@, Some(data@));
        },
        None => {
            law_seal_keeps_listing(a, b, ext, body, b.specs@.last().summary@, None);
        },
    }
}

impl Ledger {
    /// Seals the open split with its encoded `body`: adds the facet presence to its summary,
    /// has the facet sidecar encoded, and records all of it.
    fn seal_with<F: Fn(Vec<FacetField>, bool) -> Result<Vec<u8>, BuildError>>(
        &mut self,
        ext: &str,
        body: Vec<u8>,
        front: Vec<u8>,
        encode_facets: &F,
    ) -> (r: Result<(), BuildError>)
        requires
            old(self).wf(),
            old(self).open_count > 0,
            forall|fields: Vec<FacetField>, c: bool| call_requires(encode_facets, (fields, c)),
        ensures
            final(self).wf(),
            seal_ends(*old(self), *final(self), ext@, body@, front@, encode_facets, r),
    {
        let ghost start = *self;
        let mut summary = front;
        let keys = self.facets.presence();
        let ghost mut made: Option<Result<Vec<u8>, BuildError>> = None;
        let mut sidecar: Option<Vec<u8>> = None;
        if !self.facets.is_empty() {
            let payload = facet_presence(keys.as_slice());
            let rec = tlv::tlv_record(SUMMARY_TAG_FACET, payload.as_slice());
            put_bytes(&mut summary, rec.as_slice());
            let fields = self.facets.facet_fields(self.head_boundary);
            let ghost handed = fields;
            let coded = encode_facets(fields, self.case_normalization);
            proof {
                made = Some(coded);
                assert(call_ensures(encode_facets, (handed, start.case_normalization), coded));
                assert(sidecar_made(start, encode_facets, made));
            }
            match coded {
                Err(e) => {
                    self.facets.clear();
                    return Err(e);
                },
                Ok(data) => {
                    sidecar = Some(data);
                },
            }
        } else {
            assert(summary@ =~= front@ + Seq::<u8>::empty());
        }
        proof {
            assert(sidecar_made(start, encode_facets, made));
            assert(lists_presence(keys@, start.facets@));
            assert(summary@ =~= front@ + record_if(
                start.facets@.len() > 0,
                SUMMARY_TAG_FACET,
                presence_payload(keys@),
            ));
            assert(presence_added(start, front@, summary@));
        }
        let ghost whole = summary@;
        self.record(ext, body, summary, sidecar);
        assert(self.specs@.last().summary@ == whole);
        Ok(())
    }
}

/// The names and the bytes of `v`.
pub open spec fn files(v: Seq<(String, Vec<u8>)>) -> Seq<(Seq<char>, Seq<u8>)> {
    v.map_values(|f: (String, Vec<u8>)| (f.0@, f.1@))
}

/// Whether `b` is the ledger `a` whose first splits and sidecars, `splits` and `facets`, have
/// been handed out.
pub open spec fn drained(
    a: Ledger,
    b: Ledger,
    splits: Seq<(Seq<char>, Seq<u8>)>,
    facets: Seq<(Seq<char>, Seq<u8>)>,
) -> bool {
    &&& b.same_settings(a)
    &&& b.open_count == a.open_count
    &&& b.global_base == a.global_base
    &&& b.facets@ == a.facets@
    &&& b.has_facets == a.has_facets
    &&& all_alike(a.specs@, b.specs@)
    &&& files(a.blobs@) == splits + files(b.blobs@)
    &&& files(a.facet_blobs@) == facets + files(b.facet_blobs@)
}

proof fn lemma_files_appended(
    a: Seq<(String, Vec<u8>)>,
    b: Seq<(String, Vec<u8>)>,
    name: Seq<char>,
    data: Seq<u8>,
)
    requires
        appended(a, b, name, data),
    ensures
        files(b) == files(a).push((name, data)),
{
    assert(b =~= a.push(b.last()));
    assert(files(b) =~= files(a).push((name, data)));
}

/// Sealing goes on the same way behind a drain: what was handed out and what the drained builder
/// still holds are together what the other builder holds.
pub proof fn law_drain_then_seal(
    a: Ledger,
    a2: Ledger,
    b: Ledger,
    b2: Ledger,
    splits: Seq<(Seq<char>, Seq<u8>)>,
    facets: Seq<(Seq<char>, Seq<u8>)>,
    ext: Seq<char>,
    body: Seq<u8>,
    summary: Seq<u8>,
    sidecar: Option<Seq<u8>>,
)
    requires
        drained(a, a2, splits, facets),
        sealed(a, b, ext, body, summary, sidecar),
        sealed(a2, b2, ext, body, summary, sidecar),
    ensures
        drained(b, b2, splits, facets),
{
    let n = a.specs@.len() as int;
    assert forall|i: int|
        #![trigger b.specs@[i]]
        #![trigger b2.specs@[i]]
        0 <= i < b.specs@.len() implies alike(b.specs@[i], b2.specs@[i]) by {
        if i < n {
            assert(b.specs@.drop_last()[i] == b.specs@[i]);
            assert(b2.specs@.drop_last()[i] == b2.specs@[i]);
            assert(alike(a.specs@[i], a2.specs@[i]));
        } else {
            assert(b.specs@[i] == b.specs@.last() && b2.specs@[i] == b2.specs@.last());
        }
    }
    lemma_files_appended(a.blobs@, b.blobs@, a.file_name(n as nat, ext), body);
    lemma_files_appended(a2.blobs@, b2.blobs@, a.file_name(n as nat, ext), body);
    assert(files(b.blobs@) =~= splits + files(b2.blobs@));
    if let Some(data) = sidecar {
        let name = a.file_name(n as nat, seq!['.', 'r', 'r', 'f']);
        lemma_files_appended(a.facet_blobs@, b.facet_blobs@, name, data);
        lemma_files_appended(a2.facet_blobs@, b2.facet_blobs@, name, data);
        assert(files(b.facet_blobs@) =~= facets + files(b2.facet_blobs@));
    }
}

proof fn lemma_drained_oversize(
    a: Ledger,
    b: Ledger,
    splits: Seq<(Seq<char>, Seq<u8>)>,
    facets: Seq<(Seq<char>, Seq<u8>)>,
    i: int,
)
    requires
        drained(a, b, splits, facets),
    ensures
        a.oversize(i) == b.oversize(i),
    decreases a.specs@.len() - i,
{
    if 0 <= i < a.specs@.len() {
        assert(alike(a.specs@[i], b.specs@[i]));
        lemma_drained_oversize(a, b, splits, facets, i + 1);
    }
}

/// A build that hands its splits out as they are sealed writes the same files and the same
/// manifest as one that keeps them.
pub proof fn law_drain_then_finish(
    a: Ledger,
    b: Ledger,
    splits: Seq<(Seq<char>, Seq<u8>)>,
    facets: Seq<(Seq<char>, Seq<u8>)>,
    gram_size: u16,
    body_kind: BodyKind,
    with_bloom: bool,
    whole: BuiltSplitSet,
    rest: BuiltSplitSet,
)
    requires
        drained(a, b, splits, facets),
        a.finished(gram_size, body_kind, with_bloom, Ok(whole)),
        b.finished(gram_size, body_kind, with_bloom, Ok(rest)),
    ensures
        whole.manifest@ == rest.manifest@,
        files(whole.splits@) == splits + files(rest.splits@),
        files(whole.facets@) == facets + files(rest.facets@),
{
    lemma_drained_oversize(a, b, splits, facets, 0);
    let c = choose|c: SplitSetConfig|
        #[trigger] a.configures(c, gram_size, body_kind, with_bloom) && write_error(a.specs@, c)
            is None && whole.manifest@ == manifest_bytes(a.specs@, c) && whole.splits@ == a.blobs@
            && whole.facets@ == a.facet_blobs@;
    let d = choose|c: SplitSetConfig|
        #[trigger] b.configures(c, gram_size, body_kind, with_bloom) && write_error(b.specs@, c)
            is None && rest.manifest@ == manifest_bytes(b.specs@, c) && rest.splits@ == b.blobs@
            && rest.facets@ == b.facet_blobs@;
    assert(c == d);
    law_manifest_alike(a.specs@, b.specs@, c);
}

proof fn lemma_tiles_at(specs: Seq<SplitSpec>, next: int, i: int)
    requires
        tiles(specs, next),
        0 <= i < specs.len(),
    ensures
        specs[i].doc_count >= 1,
        specs[i].doc_count == specs[i].doc_id_hi - specs[i].doc_id_lo + 1,
        specs[i].doc_id_lo == (if i == 0 {
            0
        } else {
            specs[i - 1].doc_id_hi + 1
        }),
        specs.last().doc_id_hi == next - 1,
    decreases specs.len(),
{
    if i < specs.len() - 1 {
        lemma_tiles_at(specs.drop_last(), specs.last().doc_id_lo as int, i);
    } else if i > 0 {
        let front = specs.drop_last();
        lemma_tiles_at(front, specs.last().doc_id_lo as int, i - 1);
        assert(front.last() == specs[i - 1]);
    } else {
        assert(tiles(specs.drop_last(), specs.last().doc_id_lo as int));
    }
}

/// Whether the manifest `r` lists the files `built` of `n` docs: they tile the doc-ID space from
/// zero in order, each under its own name, size and tier, and all of them are base splits.
pub open spec fn lists_built(
    r: ManifestView,
    l: Ledger,
    ext: Seq<char>,
    built: Seq<(Seq<char>, Seq<u8>)>,
    n: int,
) -> bool {
    &&& r.splits.len() == built.len()
    &&& r.base_count == r.splits.len()
    &&& r.delta_splits().len() == 0
    &&& n > 0 ==> r.splits.len() > 0 && r.splits.last().doc_id_hi == n - 1
    &&& forall|i: int|
        0 <= i < r.splits.len() ==> {
            let s = #[trigger] r.splits[i];
            &&& s.data_file == built[i].0
            &&& s.data_file == l.file_name(i as nat, ext)
            &&& s.byte_size == built[i].1.len()
            &&& s.tier == l.tier(i as nat)
            &&& s.doc_count == s.doc_id_hi - s.doc_id_lo + 1
            &&& s.doc_id_lo == (if i == 0 {
                0
            } else {
                r.splits[i - 1].doc_id_hi + 1
            })
        }
}

/// The manifest of a finished set that was never drained, read back, lists its files.
pub proof fn law_built(
    l: Ledger,
    ext: Seq<char>,
    gram_size: u16,
    body_kind: BodyKind,
    with_bloom: bool,
    built: BuiltSplitSet,
)
    requires
        l.wf(),
        l.listed(ext),
        l.open_count == 0,
        l.blobs@.len() == l.specs@.len(),
        l.finished(gram_size, body_kind, with_bloom, Ok(built)),
        built.manifest@.len() <= usize::MAX,
    ensures
        ({
            let m = built.manifest@;
            splitset::manifest_of(
                m.take(splitset::HEADER_SIZE as int),
                m.subrange(splitset::HEADER_SIZE as int, m.len() as int),
            ) matches Ok(r) && lists_built(r, l, ext, files(built.splits@), l.next_id())
        }),
{
    let c = choose|c: SplitSetConfig|
        #[trigger] l.configures(c, gram_size, body_kind, with_bloom) && write_error(l.specs@, c)
            is None && built.manifest@ == manifest_bytes(l.specs@, c) && built.splits@ == l.blobs@
            && built.facets@ == l.facet_blobs@;
    law_manifest_roundtrip(l.specs@, c);
    reveal(Ledger::listed);
    let r = recorded(l.specs@, c);
    let fs = files(built.splits@);
    if l.specs@.len() > 0 {
        lemma_tiles_at(l.specs@, l.global_base as int, 0);
        assert(r.splits.last() == recorded_split(l.specs@, l.specs@.len() - 1));
    }
    assert forall|i: int| 0 <= i < r.splits.len() implies {
        let s = #[trigger] r.splits[i];
        &&& s.data_file == fs[i].0
        &&& s.data_file == l.file_name(i as nat, ext)
        &&& s.byte_size == fs[i].1.len()
        &&& s.tier == l.tier(i as nat)
        &&& s.doc_count == s.doc_id_hi - s.doc_id_lo + 1
        &&& s.doc_id_lo == (if i == 0 {
            0
        } else {
            r.splits[i - 1].doc_id_hi + 1
        })
    } by {
        lemma_tiles_at(l.specs@, l.global_base as int, i);
        assert(r.splits[i] == recorded_split(l.specs@, i));
        if i > 0 {
            assert(r.splits[i - 1] == recorded_split(l.specs@, i - 1));
        }
        assert(l.specs@[i].data_file@ == l.file_name(i as nat, ext));
        assert(l.blobs@[i].0@ == l.specs@[i].data_file@);
        assert(fs[i] == (l.blobs@[i].0@, l.blobs@[i].1@));
    }
}

/// Build-time configuration for a [`SplitSetBuilder`].
#[derive(Debug)]
pub struct SplitBuildConfig {
    /// How the base splits are assembled (`Tiered` feeds docs in rank order; `StableKey` feeds
    /// them in ingest order and records the rank `sortcol`).
    pub policy: Policy,
    /// The serialized byte cap each split is sealed at. Must be above zero: a zero cap seals
    /// every document into its own split and `finish` then errors. With a non-zero
    /// `byte_cap_max` this is the first tier's cap.
    pub byte_cap: u64,
    /// Geometric tiering: when non-zero, tier `i`'s cap is `byte_cap` doubled `i` times and
    /// clamped to this. `0` keeps the flat cap.
    pub byte_cap_max: u64,
    /// N-gram window the splits are built with.
    pub gram_size: u16,
    /// Doc-ID head/tail split; `0` for the default.
    pub head_boundary: u32,
    /// Sparse-index stride of each split; `0` for the default.
    pub stride: u32,
    /// File-name prefix for the emitted splits: `‹prefix›-s00000.rrs`, ….
    pub name_prefix: String,
    /// The stable-key rank source recorded in the manifest; `None` for the tiered policy.
    pub sortcol: Option<SortColSpec>,
    /// Bits per key for the per-split Bloom filter; `0` disables it.
    pub bloom_bits_per_key: u32,
    /// Build a case-sensitive split set.
    pub case_sensitive: bool,
}

/// Bytes charged per new key: the dictionary entry plus the serialized base of the key's
/// bitmaps, with margin.
pub const PER_NEW_KEY_BYTES: u64 = 64;

/// Bytes charged per `(key, doc)` element.
pub const PER_ELEMENT_BYTES: u64 = 2;

/// How many of `keys` are not yet keys of `m`.
pub open spec fn new_keys(keys: Seq<u64>, m: Map<u64, Set<u32>>) -> nat
    decreases keys.len(),
{
    if keys.len() == 0 {
        0
    } else {
        new_keys(keys.drop_last(), m) + if m.contains_key(keys.last()) {
            0nat
        } else {
            1nat
        }
    }
}

/// What a document with `keys` adds to the estimate of a split with the postings `m`.
pub open spec fn marginal(keys: Seq<u64>, m: Map<u64, Set<u32>>) -> int {
    new_keys(keys, m) * PER_NEW_KEY_BYTES + keys.len() * PER_ELEMENT_BYTES
}

/// The upper-bound estimate of a split with `nkeys` keys and `upper` bytes of elements.
pub open spec fn size_estimate(nkeys: nat, stride: u32, upper: int) -> int {
    let step = if stride == 0 {
        1
    } else {
        stride as int
    };
    20 + nkeys * PER_NEW_KEY_BYTES + (nkeys + step - 1) / step * 8 + upper
}

proof fn lemma_new_keys_bound(keys: Seq<u64>, m: Map<u64, Set<u32>>)
    ensures
        new_keys(keys, m) <= keys.len(),
    decreases keys.len(),
{
    if keys.len() > 0 {
        lemma_new_keys_bound(keys.drop_last(), m);
    }
}

/// The byte-capped split builder over n-gram keys. Nothing is dropped: the corpus grows the
/// split count.
pub struct SplitSetBuilder {
    ledger: Ledger,
    gram_size: u16,
    stride: u32,
    bloom_bits_per_key: u32,
    open: KeyPostings,
    postings_upper: u128,
}

/// Whether `es` are the postings `m`, one serialized posting for each key, ascending.
pub open spec fn serializes(es: Seq<(u64, Vec<u8>)>, m: Map<u64, Set<u32>>) -> bool {
    &&& lists_keys(es.map_values(|e: (u64, Vec<u8>)| e.0), m)
    &&& forall|i: int|
        0 <= i < es.len() ==> read_ids((#[trigger] es[i]).1@) == Some(m[es[i].0]) && es[i].1@
            == image(m[es[i].0])
}

/// Whether `front` is the record of a Bloom filter over the keys of `m`, where filters are on.
pub open spec fn bloom_front(front: Seq<u8>, m: Map<u64, Set<u32>>, bits_per_key: u32) -> bool {
    if bits_per_key == 0 {
        front == Seq::<u8>::empty()
    } else {
        exists|filter: Seq<u8>|
            #[trigger] bloom::is_filter(filter, keys_of(m), bits_per_key) && front == tlv::record(
                SUMMARY_TAG_BLOOM,
                filter,
            )
    }
}

impl SplitSetBuilder {
    /// What the builder keeps beside the open split's postings.
    pub closed spec fn ledger(&self) -> Ledger {
        self.ledger
    }

    /// The open split's postings, by n-gram, holding local doc IDs.
    pub closed spec fn open(&self) -> Map<u64, Set<u32>> {
        self.open@
    }

    /// Bytes charged for the open split's elements.
    pub closed spec fn upper(&self) -> int {
        self.postings_upper as int
    }

    /// The n-gram window, the sparse-index stride, and the Bloom bits per key.
    pub closed spec fn settings(&self) -> (u16, u32, u32) {
        (self.gram_size, self.stride, self.bloom_bits_per_key)
    }

    /// The upper-bound estimate of the open split's size.
    pub open spec fn estimated(&self) -> int {
        size_estimate(self.open().dom().len(), self.settings().1, self.upper())
    }

    /// Whether the bytes of the open split's postings follow from their IDs.
    pub closed spec fn open_canonical(&self) -> bool {
        self.open.canonical()
    }

    /// The ledger holds together and lists what was sealed, the open split's doc IDs are below
    /// its count, and the bytes of its postings follow from them.
    pub open spec fn wf(&self) -> bool {
        &&& self.ledger().wf()
        &&& self.ledger().listed(seq!['.', 'r', 'r', 's'])
        &&& self.open_canonical()
        &&& 0 <= self.upper() <= self.ledger().open_count * 0x2_0000_0000_0000_0000
        &&& forall|k: u64, x: u32|
            self.open().contains_key(k) && #[trigger] self.open()[k].contains(x) ==> x
                < self.ledger().open_count
    }

    /// Whether the open split is sealed before a document with `keys`: it holds a document, and
    /// the estimate with the new one exceeds its tier's cap.
    pub open spec fn must_seal(&self, keys: Seq<u64>) -> bool {
        let l = self.ledger();
        l.open_count > 0 && self.estimated() + marginal(keys, self.open()) > tier_cap(
            l.byte_cap,
            l.byte_cap_max,
            l.specs@.len(),
        )
    }

    /// What the split encoder is handed with the entries `es`: the n-gram window, the
    /// sparse-index stride, whether keys are case-folded, and the entries.
    pub open spec fn handing(&self, es: Vec<(u64, Vec<u8>)>) -> (
        u16,
        u32,
        bool,
        Vec<(u64, Vec<u8>)>,
    ) {
        (self.settings().0, self.settings().1, self.ledger().case_normalization, es)
    }

    /// Whether sealing `self` ends in `b` and `r`.
    pub open spec fn seals<
        E: Fn(u16, u32, bool, Vec<(u64, Vec<u8>)>) -> Result<Vec<u8>, BuildError>,
        F: Fn(Vec<FacetField>, bool) -> Result<Vec<u8>, BuildError>,
    >(
        &self,
        b: SplitSetBuilder,
        encode: &E,
        encode_facets: &F,
        r: Result<(), BuildError>,
    ) -> bool {
        if self.ledger().open_count == 0 {
            r is Ok && b == *self
        } else {
            exists|es: Vec<(u64, Vec<u8>)>, coded: Result<Vec<u8>, BuildError>|
                serializes(es@, self.open()) && #[trigger] call_ensures(
                    encode,
                    self.handing(es),
                    coded,
                ) && match coded {
                    Err(e) => r == Err::<(), _>(e) && self.emptied(b),
                    Ok(body) => self.split_sealed(b, body@, encode_facets, r),
                }
        }
    }

    /// Whether `b` is `self` without the open split's postings: an encoder that refuses its
    /// input has taken them.
    pub open spec fn emptied(&self, b: SplitSetBuilder) -> bool {
        &&& b.ledger() == self.ledger()
        &&& b.settings() == self.settings()
        &&& b.upper() == self.upper()
        &&& b.open() == Map::<u64, Set<u32>>::empty()
    }

    /// Whether sealing `self` with the encoded split `body` ends in `b` and `r`.
    pub open spec fn split_sealed<F: Fn(Vec<FacetField>, bool) -> Result<Vec<u8>, BuildError>>(
        &self,
        b: SplitSetBuilder,
        body: Seq<u8>,
        encode_facets: &F,
        r: Result<(), BuildError>,
    ) -> bool {
        exists|front: Seq<u8>|
            #[trigger] bloom_front(front, self.open(), self.settings().2) && seal_ends(
                self.ledger(),
                b.ledger(),
                seq!['.', 'r', 'r', 's'],
                body,
                front,
                encode_facets,
                r,
            ) && b.settings() == self.settings() && b.open() == Map::<u64, Set<u32>>::empty() && b.upper()
                == (if r is Ok {
                0
            } else {
                self.upper()
            })
    }

    /// Whether adding a document with `keys` and `facets` to `self` leaves `b`.
    pub open spec fn holds_doc(
        &self,
        b: SplitSetBuilder,
        keys: Seq<u64>,
        facets: Seq<Selection>,
    ) -> bool {
        let id = self.ledger().open_count;
        &&& b.settings() == self.settings()
        &&& b.open() == with_doc(self.open(), keys, id)
        &&& b.upper() == self.upper() + 2 * keys.to_set().len()
        &&& b.ledger().same_sealed(self.ledger())
        &&& b.ledger().open_count == id + 1
        &&& b.ledger().facets@ == with_facets(self.ledger().facets@, facets, id)
        &&& b.ledger().has_facets == (self.ledger().has_facets || facets.len() > 0)
    }

    /// Creates an empty builder. A `head_boundary` or a `stride` of `0` takes the default.
    pub fn new(config: SplitBuildConfig) -> (b: SplitSetBuilder)
        ensures
            b.wf(),
            b.open() == Map::<u64, Set<u32>>::empty(),
            b.upper() == 0,
            b.settings() == (
                config.gram_size,
                if config.stride == 0 {
                    DEFAULT_STRIDE
                } else {
                    config.stride
                },
                config.bloom_bits_per_key,
            ),
            ({
                let l = b.ledger();
                &&& l.policy == config.policy
                &&& l.byte_cap == config.byte_cap
                &&& l.byte_cap_max == config.byte_cap_max
                &&& l.head_boundary == (if config.head_boundary == 0 {
                    DEFAULT_HEAD_BOUNDARY
                } else {
                    config.head_boundary
                })
                &&& l.name_prefix == config.name_prefix
                &&& l.sortcol == config.sortcol
                &&& l.case_normalization == !config.case_sensitive
                &&& l.open_count == 0 && l.global_base == 0
                &&& l.facets@.len() == 0 && !l.has_facets
                &&& l.specs@.len() == 0 && l.blobs@.len() == 0 && l.facet_blobs@.len() == 0
            }),
    {
        reveal(Ledger::listed);
        SplitSetBuilder {
            ledger: Ledger {
                policy: config.policy,
                byte_cap: config.byte_cap,
                byte_cap_max: config.byte_cap_max,
                head_boundary: nonzero_or(config.head_boundary, DEFAULT_HEAD_BOUNDARY),
                name_prefix: config.name_prefix,
                sortcol: config.sortcol,
                case_normalization: !config.case_sensitive,
                open_count: 0,
                global_base: 0,
                facets: FacetPostings::new(),
                has_facets: false,
                specs: Vec::new(),
                blobs: Vec::new(),
                facet_blobs: Vec::new(),
            },
            gram_size: config.gram_size,
            stride: nonzero_or(config.stride, DEFAULT_STRIDE),
            bloom_bits_per_key: config.bloom_bits_per_key,
            open: KeyPostings::new(),
            postings_upper: 0,
        }
    }

    /// Number of documents added so far, across sealed and open splits.
    pub fn doc_count(&self) -> (n: u32)
        requires
            self.wf(),
        ensures
            n == self.ledger().next_id(),
    {
        self.ledger.global_base + self.ledger.open_count
    }

    /// Hands out the splits and facet sidecars sealed since the last call, and drops them here,
    /// so that a large build holds one open split and not the whole set.
    pub fn drain_sealed(&mut self) -> (files: (NamedFiles, NamedFiles))
        requires
            old(self).wf(),
        ensures
            final(self).wf(),
            files.0@ == old(self).ledger().blobs@,
            files.1@ == old(self).ledger().facet_blobs@,
            final(self).ledger().blobs@.len() == 0,
            final(self).ledger().facet_blobs@.len() == 0,
            final(self).ledger().same_settings(old(self).ledger()),
            final(self).ledger().specs@ == old(self).ledger().specs@,
            final(self).ledger().global_base == old(self).ledger().global_base,
            final(self).ledger().open_count == old(self).ledger().open_count,
            final(self).ledger().facets@ == old(self).ledger().facets@,
            final(self).ledger().has_facets == old(self).ledger().has_facets,
            final(self).open() == old(self).open(),
            final(self).upper() == old(self).upper(),
            final(self).settings() == old(self).settings(),
    {
        let files = self.ledger.drain();
        proof {
            lemma_listed_same(old(self).ledger, self.ledger, seq!['.', 'r', 'r', 's']);
        }
        assert(self.open() == old(self).open());
        assert(self.ledger().wf());
        files
    }

    /// The current upper-bound estimate of the open split's serialized size.
    fn estimate(&self) -> (n: u128)
        requires
            self.wf(),
        ensures
            n == self.estimated(),
            n <= 0x4_0000_0000_0000_0000_0000_0000,
    {
        let nkeys: u128 = self.open.len() as u128;
        let step: u128 = if self.stride == 0 {
            1
        } else {
            self.stride as u128
        };
        proof {
            let a = nkeys as int;
            let b = step as int;
            assert((a + b - 1) / b <= a) by (nonlinear_arith)
                requires
                    a >= 0,
                    b >= 1,
            ;
            assert((a + b - 1) / b >= 0) by (nonlinear_arith)
                requires
                    a >= 0,
                    b >= 1,
            ;
            let count = self.ledger.open_count;
            assert(count * 0x2_0000_0000_0000_0000 <= 0xffff_ffff * 0x2_0000_0000_0000_0000)
                by (nonlinear_arith)
                requires
                    count <= 0xffff_ffff,
            ;
        }
        let sparse: u128 = (nkeys + step - 1) / step * 8;
        20 + nkeys * 64 + sparse + self.postings_upper
    }

    /// Counts the keys that are new to the open split.
    fn count_new(&self, keys: &[u64]) -> (n: usize)
        ensures
            n == new_keys(keys@, self.open()),
    {
        let mut n: usize = 0;
        let mut i: usize = 0;
        assert(keys@.take(0) =~= Seq::<u64>::empty());
        while i < keys.len()
            invariant
                i <= keys@.len(),
                n <= i,
                n == new_keys(keys@.take(i as int), self.open()),
            decreases keys@.len() - i,
        {
            assert(keys@.take(i + 1).drop_last() =~= keys@.take(i as int));
            if !self.open.contains_key(keys[i]) {
                n += 1;
            }
            i += 1;
        }
        assert(keys@.take(i as int) =~= keys@);
        n
    }

    /// Seals the open split into an immutable index and a manifest entry, and starts a fresh
    /// one. Does nothing when the open split is empty. An encoder that refuses its input has
    /// taken the open split's postings with it.
    fn seal<
        E: Fn(u16, u32, bool, Vec<(u64, Vec<u8>)>) -> Result<Vec<u8>, BuildError>,
        F: Fn(Vec<FacetField>, bool) -> Result<Vec<u8>, BuildError>,
    >(&mut self, encode: &E, encode_facets: &F) -> (r: Result<(), BuildError>)
        requires
            old(self).wf(),
            forall|g: u16, s: u32, c: bool, es: Vec<(u64, Vec<u8>)>|
                call_requires(encode, (g, s, c, es)),
            forall|fields: Vec<FacetField>, c: bool| call_requires(encode_facets, (fields, c)),
        ensures
            final(self).wf(),
            old(self).seals(*final(self), encode, encode_facets, r),
    {
        if self.ledger.open_count == 0 {
            return Ok(());
        }
        let ghost start = *self;
        let keys = self.open.keys();
        let mut es: Vec<(u64, Vec<u8>)> = Vec::new();
        let mut i: usize = 0;
        while i < keys.len()
            invariant
                i <= keys@.len(),
                *self == start,
                *self == *old(self),
                self.open.canonical(),
                lists_keys(keys@, self.open@),
                keys@ == keys_of(self.open@),
                es@.len() == i,
                forall|j: int|
                    0 <= j < i ==> {
                        &&& (#[trigger] es@[j]).0 == keys@[j]
                        &&& read_ids(es@[j].1@) == Some(self.open@[keys@[j]])
                        &&& es@[j].1@ == image(self.open@[keys@[j]])
                    },
            decreases keys@.len() - i,
        {
            assert(keys@.contains(keys@[i as int]));
            if let Some(b) = self.open.get(keys[i]) {
                es.push((keys[i], bitmap::serialize(b)));
            }
            i += 1;
        }
        assert(es@.map_values(|e: (u64, Vec<u8>)| e.0) =~= keys@);
        assert(serializes(es@, self.open@));
        let ghost handed = es;
        let coded = encode(self.gram_size, self.stride, self.ledger.case_normalization, es);
        let ghost answer = coded;
        assert(call_ensures(encode, start.handing(handed), answer));
        let body = match coded {
            Ok(body) => body,
            Err(e) => {
                self.open.clear();
                assert(start.emptied(*self));
                return Err(e);
            },
        };
        let ghost whole = body@;
        let mut front: Vec<u8> = Vec::new();
        if self.bloom_bits_per_key > 0 {
            let f = bloom::bloom_build(keys.as_slice(), self.bloom_bits_per_key);
            put_bytes(&mut front, tlv::tlv_record(SUMMARY_TAG_BLOOM, f.as_slice()).as_slice());
            assert(front@ =~= tlv::record(SUMMARY_TAG_BLOOM, f@));
        }
        let ghost made = front@;
        proof {
            assert(bloom_front(made, start.open(), start.settings().2));
            reveal_strlit(".rrs");
            assert(".rrs"@ =~= seq!['.', 'r', 'r', 's']);
        }
        let sealed_ok = self.ledger.seal_with(".rrs", body, front, encode_facets);
        proof {
            lemma_seal_ends_listed(
                start.ledger,
                self.ledger,
                seq!['.', 'r', 'r', 's'],
                whole,
                made,
                encode_facets,
                sealed_ok,
            );
        }
        match sealed_ok {
            Err(e) => {
                self.open.clear();
                let r: Result<(), BuildError> = Err(e);
                proof {
                    assert(start.split_sealed(*self, whole, encode_facets, r));
                }
                r
            },
            Ok(_) => {
                self.open.clear();
                self.postings_upper = 0;
                let r: Result<(), BuildError> = Ok(());
                proof {
                    assert(start.split_sealed(*self, whole, encode_facets, r));
                }
                r
            },
        }
    }
}

/// A new document's ID is posted under exactly its keys.
proof fn lemma_doc_posted(m: Map<u64, Set<u32>>, keys: Seq<u64>, id: u32, k: u64)
    requires
        forall|k: u64, x: u32| m.contains_key(k) && #[trigger] m[k].contains(x) ==> x < id,
    ensures
        posting(with_doc(m, keys, id), k).contains(id) == keys.contains(k),
    decreases keys.len(),
{
    if keys.len() == 0 {
        if m.contains_key(k) && m[k].contains(id) {
            assert(id < id);
        }
    } else {
        let front = keys.drop_last();
        lemma_doc_posted(m, front, id, k);
        assert(keys.contains(k) <==> front.contains(k) || k == keys.last()) by {
            if keys.contains(k) {
                let i = choose|i: int| 0 <= i < keys.len() && keys[i] == k;
                if i < front.len() {
                    assert(front[i] == k);
                }
            }
            if front.contains(k) {
                let i = choose|i: int| 0 <= i < front.len() && front[i] == k;
                assert(keys[i] == k);
            }
            assert(keys[keys.len() - 1] == keys.last());
        }
    }
}

proof fn lemma_to_set_push(s: Seq<u64>, k: u64)
    ensures
        s.push(k).to_set().len() == s.to_set().len() + if s.contains(k) {
            0int
        } else {
            1int
        },
        s.to_set().len() <= s.len(),
{
    vstd::seq_lib::seq_to_set_is_finite(s);
    s.lemma_cardinality_of_set();
    assert(s.push(k).to_set() =~= s.to_set().insert(k)) by {
        assert forall|x: u64|
            s.push(k).to_set().contains(x) <==> s.to_set().insert(k).contains(x) by {
            if s.contains(x) {
                let i = choose|i: int| 0 <= i < s.len() && s[i] == x;
                assert(s.push(k)[i] == x);
            }
            assert(s.push(k)[s.len() as int] == k);
        }
    }
}

impl SplitSetBuilder {
    /// Whether adding a document with `keys` and `facets` to `self` ends in `b` and `r`: the
    /// open split is sealed first where it must be, and the document then goes into the open
    /// split.
    pub open spec fn adds<
        E: Fn(u16, u32, bool, Vec<(u64, Vec<u8>)>) -> Result<Vec<u8>, BuildError>,
        F: Fn(Vec<FacetField>, bool) -> Result<Vec<u8>, BuildError>,
    >(
        &self,
        b: SplitSetBuilder,
        keys: Seq<u64>,
        facets: Seq<Selection>,
        encode: &E,
        encode_facets: &F,
        r: Result<u32, BuildError>,
    ) -> bool {
        if self.must_seal(keys) {
            exists|mid: SplitSetBuilder, sr: Result<(), BuildError>|
                #[trigger] self.seals(mid, encode, encode_facets, sr) && match sr {
                    Err(e) => r == Err::<u32, _>(e) && b == mid,
                    Ok(_) => r == Ok::<u32, BuildError>(mid.ledger().next_id() as u32)
                        && mid.holds_doc(b, keys, facets),
                }
        } else {
            r == Ok::<u32, BuildError>(self.ledger().next_id() as u32) && self.holds_doc(
                b,
                keys,
                facets,
            )
        }
    }

    /// Appends one document by its n-gram `keys`, returning its global doc ID. A document
    /// without keys still consumes an ID, so that the doc-ID space stays dense.
    ///
    /// The document's marginal byte cost is added to the running upper-bound estimate first; if
    /// that would exceed the cap and the open split already holds a document, the open split is
    /// sealed first and the document starts the next one.
    pub fn add_keys<
        E: Fn(u16, u32, bool, Vec<(u64, Vec<u8>)>) -> Result<Vec<u8>, BuildError>,
        F: Fn(Vec<FacetField>, bool) -> Result<Vec<u8>, BuildError>,
    >(&mut self, keys: &[u64], encode: &E, encode_facets: &F) -> (r: Result<u32, BuildError>)
        requires
            old(self).wf(),
            old(self).ledger().next_id() < u32::MAX,
            forall|g: u16, s: u32, c: bool, es: Vec<(u64, Vec<u8>)>|
                call_requires(encode, (g, s, c, es)),
            forall|fields: Vec<FacetField>, c: bool| call_requires(encode_facets, (fields, c)),
        ensures
            final(self).wf(),
            old(self).adds(*final(self), keys@, Seq::empty(), encode, encode_facets, r),
    {
        let none: Vec<Selection> = Vec::new();
        assert(none@ =~= Seq::<Selection>::empty());
        self.add_faceted(keys, none.as_slice(), encode, encode_facets)
    }

    /// Like [`add_keys`](Self::add_keys), and records the document's facet memberships. Each
    /// split gets a facet sidecar over its docs, and the manifest a summary of the categories
    /// present.
    pub fn add_faceted<
        E: Fn(u16, u32, bool, Vec<(u64, Vec<u8>)>) -> Result<Vec<u8>, BuildError>,
        F: Fn(Vec<FacetField>, bool) -> Result<Vec<u8>, BuildError>,
    >(&mut self, keys: &[u64], facets: &[Selection], encode: &E, encode_facets: &F) -> (r: Result<
        u32,
        BuildError,
    >)
        requires
            old(self).wf(),
            old(self).ledger().next_id() < u32::MAX,
            forall|g: u16, s: u32, c: bool, es: Vec<(u64, Vec<u8>)>|
                call_requires(encode, (g, s, c, es)),
            forall|fields: Vec<FacetField>, c: bool| call_requires(encode_facets, (fields, c)),
        ensures
            final(self).wf(),
            old(self).adds(*final(self), keys@, facets@, encode, encode_facets, r),
    {
        let fresh_keys: usize = self.count_new(keys);
        proof {
            lemma_new_keys_bound(keys@, self.open());
        }
        let more: u128 = fresh_keys as u128 * 64 + keys.len() as u128 * 2;
        let ghost start = *self;
        if self.ledger.open_count > 0 && self.estimate() + more > cap_for(
            self.ledger.byte_cap,
            self.ledger.byte_cap_max,
            self.ledger.specs.len(),
        ) as u128 {
            assert(start.must_seal(keys@));
            match self.seal(encode, encode_facets) {
                Err(e) => {
                    let ghost sr: Result<(), BuildError> = Err(e);
                    assert(start.seals(*self, encode, encode_facets, sr));
                    return Err(e);
                },
                Ok(_) => {},
            }
        }
        let ghost mid = *self;
        assert(mid.ledger().next_id() == start.ledger().next_id());
        let local: u32 = self.ledger.open_count;
        let mut i: usize = 0;
        assert(keys@.take(0) =~= Seq::<u64>::empty());
        assert(keys@.take(0).to_set() =~= Set::<u64>::empty());
        while i < keys.len()
            invariant
                i <= keys@.len(),
                local == mid.ledger.open_count,
                mid.wf(),
                self.ledger == mid.ledger,
                self.settings() == mid.settings(),
                self.open.canonical(),
                self.open@ == with_doc(mid.open(), keys@.take(i as int), local),
                self.postings_upper == mid.postings_upper + 2 * keys@.take(i as int).to_set().len(),
                keys@.take(i as int).to_set().len() <= i,
            decreases keys@.len() - i,
        {
            let ghost done = keys@.take(i as int);
            let k: u64 = keys[i];
            proof {
                lemma_doc_posted(mid.open(), done, local, k);
                lemma_to_set_push(done, k);
                assert(keys@.take(i + 1) =~= done.push(k));
                assert(done.push(k).drop_last() =~= done);
                let count = mid.ledger.open_count;
                assert(count * 0x2_0000_0000_0000_0000 <= 0xffff_ffff * 0x2_0000_0000_0000_0000)
                    by (nonlinear_arith)
                    requires
                        count <= 0xffff_ffff,
                ;
            }
            if self.open.insert(k, local) {
                self.postings_upper = self.postings_upper + 2;
            }
            i += 1;
        }
        proof {
            assert(keys@.take(i as int) =~= keys@);
            crate::splitset_write::lemma_with_doc_bounded(mid.open(), keys@, local);
        }
        let global = self.ledger.count_in(facets);
        proof {
            lemma_listed_same(mid.ledger, self.ledger, seq!['.', 'r', 'r', 's']);
            assert forall|k: u64, x: u32|
                self.open().contains_key(k) && #[trigger] self.open()[k].contains(x) implies x
                < self.ledger().open_count by {
                assert(with_doc(mid.open(), keys@, local)[k].contains(x));
            }
            assert(mid.holds_doc(*self, keys@, facets@));
            if start.must_seal(keys@) {
                let sr: Result<(), BuildError> = Ok(());
                assert(start.seals(mid, encode, encode_facets, sr));
            }
        }
        Ok(global)
    }

    /// Seals the final open split and serializes the manifest. Errors if any single document's
    /// postings alone exceed the byte cap: such a split cannot be made to fit.
    pub fn finish<
        E: Fn(u16, u32, bool, Vec<(u64, Vec<u8>)>) -> Result<Vec<u8>, BuildError>,
        F: Fn(Vec<FacetField>, bool) -> Result<Vec<u8>, BuildError>,
    >(self, encode: &E, encode_facets: &F) -> (r: Result<BuiltSplitSet, BuildError>)
        requires
            self.wf(),
            forall|g: u16, s: u32, c: bool, es: Vec<(u64, Vec<u8>)>|
                call_requires(encode, (g, s, c, es)),
            forall|fields: Vec<FacetField>, c: bool| call_requires(encode_facets, (fields, c)),
        ensures
            exists|mid: SplitSetBuilder, sr: Result<(), BuildError>|
                #[trigger] self.seals(mid, encode, encode_facets, sr) && match sr {
                    Err(e) => r == Err::<BuiltSplitSet, _>(e),
                    Ok(_) => mid.ledger().finished(
                        self.settings().0,
                        BodyKind::Trigram,
                        self.settings().2 > 0,
                        r,
                    ),
                },
    {
        let mut b = self;
        let sealed_ok = b.seal(encode, encode_facets);
        let ghost sr = sealed_ok;
        let ghost mid = b;
        assert(self.seals(mid, encode, encode_facets, sr));
        match sealed_ok {
            Err(e) => Err(e),
            Ok(_) => b.ledger.finish(b.gram_size, BodyKind::Trigram, b.bloom_bits_per_key > 0),
        }
    }
}

impl SplitSetBuilder {
    /// Whether nothing has been handed out.
    pub open spec fn undrained(&self) -> bool {
        self.ledger().blobs@.len() == self.ledger().specs@.len()
    }
}

proof fn lemma_sealed_builder<
    E: Fn(u16, u32, bool, Vec<(u64, Vec<u8>)>) -> Result<Vec<u8>, BuildError>,
    F: Fn(Vec<FacetField>, bool) -> Result<Vec<u8>, BuildError>,
>(a: SplitSetBuilder, b: SplitSetBuilder, encode: &E, encode_facets: &F)
    requires
        a.wf(),
        a.seals(b, encode, encode_facets, Ok(())),
    ensures
        b.ledger().wf(),
        b.ledger().listed(seq!['.', 'r', 'r', 's']),
        b.ledger().open_count == 0,
        b.ledger().next_id() == a.ledger().next_id(),
        b.ledger().same_settings(a.ledger()),
        a.undrained() ==> b.undrained(),
{
    let r: Result<(), BuildError> = Ok(());
    if a.ledger().open_count > 0 {
        let (es, coded) = choose|es: Vec<(u64, Vec<u8>)>, coded: Result<Vec<u8>, BuildError>|
            serializes(es@, a.open()) && #[trigger] call_ensures(encode, a.handing(es), coded)
                && match coded {
                Err(e) => r == Err::<(), _>(e) && a.emptied(b),
                Ok(body) => a.split_sealed(b, body@, encode_facets, r),
            };
        let body = coded->Ok_0@;
        let front = choose|front: Seq<u8>|
            #[trigger] bloom_front(front, a.open(), a.settings().2) && seal_ends(
                a.ledger(),
                b.ledger(),
                seq!['.', 'r', 'r', 's'],
                body,
                front,
                encode_facets,
                r,
            );
        lemma_seal_ends_listed(
            a.ledger(),
            b.ledger(),
            seq!['.', 'r', 'r', 's'],
            body,
            front,
            encode_facets,
            r,
        );
    }
}

/// A build that is never drained ends in a manifest that lists exactly its splits: they tile the
/// IDs of all the docs added.
pub proof fn law_finish<
    E: Fn(u16, u32, bool, Vec<(u64, Vec<u8>)>) -> Result<Vec<u8>, BuildError>,
    F: Fn(Vec<FacetField>, bool) -> Result<Vec<u8>, BuildError>,
>(
    b: SplitSetBuilder,
    mid: SplitSetBuilder,
    encode: &E,
    encode_facets: &F,
    built: BuiltSplitSet,
)
    requires
        b.wf(),
        b.undrained(),
        b.seals(mid, encode, encode_facets, Ok(())),
        mid.ledger().finished(
            b.settings().0,
            BodyKind::Trigram,
            b.settings().2 > 0,
            Ok(built),
        ),
        built.manifest@.len() <= usize::MAX,
    ensures
        ({
            let m = built.manifest@;
            splitset::manifest_of(
                m.take(splitset::HEADER_SIZE as int),
                m.subrange(splitset::HEADER_SIZE as int, m.len() as int),
            ) matches Ok(r) && lists_built(
                r,
                b.ledger(),
                seq!['.', 'r', 'r', 's'],
                files(built.splits@),
                b.ledger().next_id(),
            )
        }),
{
    lemma_sealed_builder(b, mid, encode, encode_facets);
    law_built(
        mid.ledger(),
        seq!['.', 'r', 'r', 's'],
        b.settings().0,
        BodyKind::Trigram,
        b.settings().2 > 0,
        built,
    );
}

/// Whether two answers of an encoder are the same: the same bytes, or the same refusal.
pub open spec fn answers_alike(
    x: Result<Vec<u8>, BuildError>,
    y: Result<Vec<u8>, BuildError>,
) -> bool {
    match (x, y) {
        (Ok(a), Ok(b)) => a@ == b@,
        (Err(e), Err(f)) => e == f,
        _ => false,
    }
}

/// Whether `a` and `b` are the same entries: the same keys with the same bytes.
pub open spec fn same_entries(a: Seq<(u64, Vec<u8>)>, b: Seq<(u64, Vec<u8>)>) -> bool {
    &&& a.len() == b.len()
    &&& forall|i: int|
        0 <= i < a.len() ==> (#[trigger] a[i]).0 == b[i].0 && a[i].1@ == b[i].1@
}

/// Whether the split encoder answers alike when it is handed the same.
pub open spec fn steady<
    E: Fn(u16, u32, bool, Vec<(u64, Vec<u8>)>) -> Result<Vec<u8>, BuildError>,
>(encode: &E) -> bool {
    forall|
        g: u16,
        s: u32,
        c: bool,
        a: Vec<(u64, Vec<u8>)>,
        b: Vec<(u64, Vec<u8>)>,
        x: Result<Vec<u8>, BuildError>,
        y: Result<Vec<u8>, BuildError>,
    |
        #![trigger call_ensures(encode, (g, s, c, a), x), call_ensures(encode, (g, s, c, b), y)]
        same_entries(a@, b@) && call_ensures(encode, (g, s, c, a), x) && call_ensures(
            encode,
            (g, s, c, b),
            y,
        ) ==> answers_alike(x, y)
}

/// Whether the facet encoder answers alike when it is handed the same.
pub open spec fn steady_facets<F: Fn(Vec<FacetField>, bool) -> Result<Vec<u8>, BuildError>>(
    encode_facets: &F,
) -> bool {
    forall|
        a: Vec<FacetField>,
        b: Vec<FacetField>,
        c: bool,
        x: Result<Vec<u8>, BuildError>,
        y: Result<Vec<u8>, BuildError>,
    |
        #![trigger call_ensures(encode_facets, (a, c), x), call_ensures(encode_facets, (b, c), y)]
        same_fields(a@, b@) && call_ensures(encode_facets, (a, c), x) && call_ensures(
            encode_facets,
            (b, c),
            y,
        ) ==> answers_alike(x, y)
}

/// The postings of a split determine the entries that its encoder is handed.
pub proof fn law_entries_determined(
    a: Seq<(u64, Vec<u8>)>,
    b: Seq<(u64, Vec<u8>)>,
    m: Map<u64, Set<u32>>,
)
    requires
        serializes(a, m),
        serializes(b, m),
    ensures
        same_entries(a, b),
{
    let ka = a.map_values(|e: (u64, Vec<u8>)| e.0);
    let kb = b.map_values(|e: (u64, Vec<u8>)| e.0);
    lemma_keys_unique(ka, kb, m);
    assert forall|i: int| 0 <= i < a.len() implies (#[trigger] a[i]).0 == b[i].0 && a[i].1@
        == b[i].1@ by {
        assert(ka[i] == kb[i]);
    }
}

impl SplitSetBuilder {
    /// Whether `b` is `self` with the files `splits` and `facets` handed out already.
    pub open spec fn keeps_pace(
        &self,
        b: SplitSetBuilder,
        splits: Seq<(Seq<char>, Seq<u8>)>,
        facets: Seq<(Seq<char>, Seq<u8>)>,
    ) -> bool {
        &&& drained(self.ledger(), b.ledger(), splits, facets)
        &&& b.open() == self.open()
        &&& b.upper() == self.upper()
        &&& b.settings() == self.settings()
    }

    /// Whether draining `self` leaves `b`.
    pub open spec fn drains(&self, b: SplitSetBuilder) -> bool {
        let (l, m) = (self.ledger(), b.ledger());
        &&& m.blobs@.len() == 0
        &&& m.facet_blobs@.len() == 0
        &&& m.same_settings(l)
        &&& m.specs@ == l.specs@
        &&& m.global_base == l.global_base
        &&& m.open_count == l.open_count
        &&& m.facets@ == l.facets@
        &&& m.has_facets == l.has_facets
        &&& b.open() == self.open()
        &&& b.upper() == self.upper()
        &&& b.settings() == self.settings()
    }
}

/// Whether sealing `a` left `b` with the given sidecar.
spec fn seal_parts(
    a: Ledger,
    b: Ledger,
    ext: Seq<char>,
    body: Seq<u8>,
    front: Seq<u8>,
    sidecar: Option<Seq<u8>>,
) -> bool {
    &&& presence_added(a, front, b.specs@.last().summary@)
    &&& sealed(a, b, ext, body, b.specs@.last().summary@, sidecar)
}

proof fn lemma_seal_ledgers<F: Fn(Vec<FacetField>, bool) -> Result<Vec<u8>, BuildError>>(
    a: Ledger,
    a2: Ledger,
    b: Ledger,
    b2: Ledger,
    splits: Seq<(Seq<char>, Seq<u8>)>,
    facets: Seq<(Seq<char>, Seq<u8>)>,
    ext: Seq<char>,
    body: Seq<u8>,
    front: Seq<u8>,
    encode_facets: &F,
)
    requires
        steady_facets(encode_facets),
        drained(a, b, splits, facets),
        seal_ends(a, a2, ext, body, front, encode_facets, Ok(())),
        seal_ends(b, b2, ext, body, front, encode_facets, Ok(())),
    ensures
        drained(a2, b2, splits, facets),
{
    let x = lemma_seal_sidecar(a, a2, ext, body, front, encode_facets);
    let y = lemma_seal_sidecar(b, b2, ext, body, front, encode_facets);
    if let (Some(p), Some(q)) = (x, y) {
        let f = choose|f: Vec<FacetField>|
            fields_hold(f@, a.facets@, a.head_boundary) && #[trigger] call_ensures(
                encode_facets,
                (f, a.case_normalization),
                Ok(p),
            );
        let g = choose|g: Vec<FacetField>|
            fields_hold(g@, b.facets@, b.head_boundary) && #[trigger] call_ensures(
                encode_facets,
                (g, b.case_normalization),
                Ok(q),
            );
        law_fields_determined(f@, g@, a.facets@, a.head_boundary);
        assert(answers_alike(Ok(p), Ok(q)));
    }
    let sidecar = match x {
        Some(p) => Some(p@),
        None => None,
    };
    let (s, t) = (a2.specs@.last().summary@, b2.specs@.last().summary@);
    let ka = choose|ks: Seq<u64>|
        #[trigger] lists_presence(ks, a.facets@) && s == front + record_if(
            a.facets@.len() > 0,
            SUMMARY_TAG_FACET,
            presence_payload(ks),
        );
    let kb = choose|ks: Seq<u64>|
        #[trigger] lists_presence(ks, b.facets@) && t == front + record_if(
            b.facets@.len() > 0,
            SUMMARY_TAG_FACET,
            presence_payload(ks),
        );
    lemma_presence_unique(ka, kb, a.facets@);
    assert(s == t);
    law_drain_then_seal(a, b, a2, b2, splits, facets, ext, body, s, sidecar);
}

proof fn lemma_seal_sidecar<F: Fn(Vec<FacetField>, bool) -> Result<Vec<u8>, BuildError>>(
    a: Ledger,
    b: Ledger,
    ext: Seq<char>,
    body: Seq<u8>,
    front: Seq<u8>,
    encode_facets: &F,
) -> (data: Option<Vec<u8>>)
    requires
        seal_ends(a, b, ext, body, front, encode_facets, Ok(())),
    ensures
        data is Some == (a.facets@.len() > 0),
        seal_parts(
            a,
            b,
            ext,
            body,
            front,
            match data {
                Some(d) => Some(d@),
                None => None,
            },
        ),
        data matches Some(d) ==> exists|fields: Vec<FacetField>|
            fields_hold(fields@, a.facets@, a.head_boundary) && #[trigger] call_ensures(
                encode_facets,
                (fields, a.case_normalization),
                Ok(d),
            ),
{
    let r: Result<(), BuildError> = Ok(());
    let made = choose|made: Option<Result<Vec<u8>, BuildError>>|
        #[trigger] sidecar_made(a, encode_facets, made) && match made {
            Some(Err(e)) => r == Err::<(), _>(e) && unfaceted(a, b),
            Some(Ok(data)) => {
                &&& r is Ok
                &&& presence_added(a, front, b.specs@.last().summary@)
                &&& sealed(a, b, ext, body, b.specs@.last().summary@, Some(data@))
            },
            None => {
                &&& r is Ok
                &&& presence_added(a, front, b.specs@.last().summary@)
                &&& sealed(a, b, ext, body, b.specs@.last().summary@, None)
            },
        };
    match made {
        Some(Ok(d)) => {
            let coded: Result<Vec<u8>, BuildError> = Ok(d);
            assert(made == Some(coded));
            let f = choose|f: Vec<FacetField>|
                fields_hold(f@, a.facets@, a.head_boundary) && #[trigger] call_ensures(
                    encode_facets,
                    (f, a.case_normalization),
                    coded,
                );
            assert(call_ensures(encode_facets, (f, a.case_normalization), Ok(d)));
            Some(d)
        },
        _ => None,
    }
}

/// What a seal that succeeded handed to the encoder, and the record it put in front.
proof fn lemma_seal_body<
    E: Fn(u16, u32, bool, Vec<(u64, Vec<u8>)>) -> Result<Vec<u8>, BuildError>,
    F: Fn(Vec<FacetField>, bool) -> Result<Vec<u8>, BuildError>,
>(a: SplitSetBuilder, b: SplitSetBuilder, encode: &E, encode_facets: &F) -> (at: (
    Vec<(u64, Vec<u8>)>,
    Vec<u8>,
    Seq<u8>,
))
    requires
        a.ledger().open_count > 0,
        a.seals(b, encode, encode_facets, Ok(())),
    ensures
        serializes(at.0@, a.open()),
        call_ensures(encode, a.handing(at.0), Ok(at.1)),
        bloom_front(at.2, a.open(), a.settings().2),
        seal_ends(
            a.ledger(),
            b.ledger(),
            seq!['.', 'r', 'r', 's'],
            at.1@,
            at.2,
            encode_facets,
            Ok(()),
        ),
        b.settings() == a.settings(),
        b.open() == Map::<u64, Set<u32>>::empty(),
        b.upper() == 0,
{
    let r: Result<(), BuildError> = Ok(());
    let (es, coded) = choose|es: Vec<(u64, Vec<u8>)>, coded: Result<Vec<u8>, BuildError>|
        serializes(es@, a.open()) && #[trigger] call_ensures(encode, a.handing(es), coded)
            && match coded {
            Err(e) => r == Err::<(), _>(e) && a.emptied(b),
            Ok(body) => a.split_sealed(b, body@, encode_facets, r),
        };
    let body = coded->Ok_0;
    assert(coded == Ok::<Vec<u8>, BuildError>(body));
    let front = choose|front: Seq<u8>|
        #[trigger] bloom_front(front, a.open(), a.settings().2) && seal_ends(
            a.ledger(),
            b.ledger(),
            seq!['.', 'r', 'r', 's'],
            body@,
            front,
            encode_facets,
            r,
        ) && b.settings() == a.settings() && b.open() == Map::<u64, Set<u32>>::empty() && b.upper()
            == (if r is Ok {
            0
        } else {
            a.upper()
        });
    (es, body, front)
}

proof fn lemma_front_unique(x: Seq<u8>, y: Seq<u8>, m: Map<u64, Set<u32>>, bits_per_key: u32)
    requires
        bloom_front(x, m, bits_per_key),
        bloom_front(y, m, bits_per_key),
    ensures
        x == y,
{
    if bits_per_key > 0 {
        let f = choose|f: Seq<u8>|
            #[trigger] bloom::is_filter(f, keys_of(m), bits_per_key) && x == tlv::record(
                SUMMARY_TAG_BLOOM,
                f,
            );
        let g = choose|g: Seq<u8>|
            #[trigger] bloom::is_filter(g, keys_of(m), bits_per_key) && y == tlv::record(
                SUMMARY_TAG_BLOOM,
                g,
            );
        bloom::law_filter_unique(f, g, keys_of(m), bits_per_key);
    }
}

/// Two builders of which one has handed files out seal alike.
proof fn lemma_seal_in_pace<
    E: Fn(u16, u32, bool, Vec<(u64, Vec<u8>)>) -> Result<Vec<u8>, BuildError>,
    F: Fn(Vec<FacetField>, bool) -> Result<Vec<u8>, BuildError>,
>(
    a: SplitSetBuilder,
    a2: SplitSetBuilder,
    b: SplitSetBuilder,
    b2: SplitSetBuilder,
    splits: Seq<(Seq<char>, Seq<u8>)>,
    facets: Seq<(Seq<char>, Seq<u8>)>,
    encode: &E,
    encode_facets: &F,
)
    requires
        steady(encode),
        steady_facets(encode_facets),
        a.keeps_pace(b, splits, facets),
        a.seals(a2, encode, encode_facets, Ok(())),
        b.seals(b2, encode, encode_facets, Ok(())),
    ensures
        a2.keeps_pace(b2, splits, facets),
{
    if a.ledger().open_count > 0 {
        let (es, x, p) = lemma_seal_body(a, a2, encode, encode_facets);
        let (fs, y, q) = lemma_seal_body(b, b2, encode, encode_facets);
        law_entries_determined(es@, fs@, a.open());
        assert(answers_alike(Ok(x), Ok(y)));
        lemma_front_unique(p, q, a.open(), a.settings().2);
        lemma_seal_ledgers(
            a.ledger(),
            a2.ledger(),
            b.ledger(),
            b2.ledger(),
            splits,
            facets,
            seq!['.', 'r', 'r', 's'],
            x@,
            p,
            encode_facets,
        );
    }
}

proof fn lemma_hold_in_pace(
    a: SplitSetBuilder,
    a2: SplitSetBuilder,
    b: SplitSetBuilder,
    b2: SplitSetBuilder,
    splits: Seq<(Seq<char>, Seq<u8>)>,
    facets: Seq<(Seq<char>, Seq<u8>)>,
    keys: Seq<u64>,
    own: Seq<Selection>,
)
    requires
        a.keeps_pace(b, splits, facets),
        a.holds_doc(a2, keys, own),
        b.holds_doc(b2, keys, own),
    ensures
        a2.keeps_pace(b2, splits, facets),
{
}

proof fn lemma_add_in_pace<
    E: Fn(u16, u32, bool, Vec<(u64, Vec<u8>)>) -> Result<Vec<u8>, BuildError>,
    F: Fn(Vec<FacetField>, bool) -> Result<Vec<u8>, BuildError>,
>(
    a: SplitSetBuilder,
    a2: SplitSetBuilder,
    b: SplitSetBuilder,
    b2: SplitSetBuilder,
    splits: Seq<(Seq<char>, Seq<u8>)>,
    facets: Seq<(Seq<char>, Seq<u8>)>,
    keys: Seq<u64>,
    own: Seq<Selection>,
    ids: (u32, u32),
    encode: &E,
    encode_facets: &F,
)
    requires
        steady(encode),
        steady_facets(encode_facets),
        a.keeps_pace(b, splits, facets),
        a.adds(a2, keys, own, encode, encode_facets, Ok(ids.0)),
        b.adds(b2, keys, own, encode, encode_facets, Ok(ids.1)),
    ensures
        a2.keeps_pace(b2, splits, facets),
        ids.0 == ids.1,
{
    assert(a.must_seal(keys) == b.must_seal(keys));
    if a.must_seal(keys) {
        let (p, x) = choose|mid: SplitSetBuilder, sr: Result<(), BuildError>|
            #[trigger] a.seals(mid, encode, encode_facets, sr) && match sr {
                Err(e) => Ok::<u32, BuildError>(ids.0) == Err::<u32, _>(e) && a2 == mid,
                Ok(_) => Ok::<u32, BuildError>(ids.0) == Ok::<u32, BuildError>(
                    mid.ledger().next_id() as u32,
                ) && mid.holds_doc(a2, keys, own),
            };
        let (q, y) = choose|mid: SplitSetBuilder, sr: Result<(), BuildError>|
            #[trigger] b.seals(mid, encode, encode_facets, sr) && match sr {
                Err(e) => Ok::<u32, BuildError>(ids.1) == Err::<u32, _>(e) && b2 == mid,
                Ok(_) => Ok::<u32, BuildError>(ids.1) == Ok::<u32, BuildError>(
                    mid.ledger().next_id() as u32,
                ) && mid.holds_doc(b2, keys, own),
            };
        assert(x is Ok && y is Ok);
        assert(x->Ok_0 == () && y->Ok_0 == ());
        assert(x == Ok::<(), BuildError>(()) && y == Ok::<(), BuildError>(()));
        lemma_seal_in_pace(a, p, b, q, splits, facets, encode, encode_facets);
        lemma_hold_in_pace(p, a2, q, b2, splits, facets, keys, own);
    } else {
        lemma_hold_in_pace(a, a2, b, b2, splits, facets, keys, own);
    }
}

proof fn lemma_drain_in_pace(
    a: SplitSetBuilder,
    b: SplitSetBuilder,
    b2: SplitSetBuilder,
    splits: Seq<(Seq<char>, Seq<u8>)>,
    facets: Seq<(Seq<char>, Seq<u8>)>,
)
    requires
        a.keeps_pace(b, splits, facets),
        b.drains(b2),
    ensures
        a.keeps_pace(
            b2,
            splits + files(b.ledger().blobs@),
            facets + files(b.ledger().facet_blobs@),
        ),
{
    assert(files(b2.ledger().blobs@) =~= Seq::<(Seq<char>, Seq<u8>)>::empty());
    assert(files(b2.ledger().facet_blobs@) =~= Seq::<(Seq<char>, Seq<u8>)>::empty());
    let (l, m) = (a.ledger(), b.ledger());
    assert(files(l.blobs@) =~= splits + files(m.blobs@) + files(b2.ledger().blobs@));
    assert(files(l.facet_blobs@) =~= facets + files(m.facet_blobs@) + files(
        b2.ledger().facet_blobs@,
    ));
}

/// What is done with a builder.
pub enum BuildAct {
    /// A document is added.
    Add {
        /// Its n-gram keys.
        keys: Seq<u64>,
        /// Its facets.
        facets: Seq<Selection>,
    },
    /// What has been sealed is handed out.
    Drain,
}

/// Whether the acts take one builder through the states `xs`, which is not drained, and another
/// through `ys`, which is.
pub open spec fn in_step<
    E: Fn(u16, u32, bool, Vec<(u64, Vec<u8>)>) -> Result<Vec<u8>, BuildError>,
    F: Fn(Vec<FacetField>, bool) -> Result<Vec<u8>, BuildError>,
>(
    acts: Seq<BuildAct>,
    xs: Seq<SplitSetBuilder>,
    ys: Seq<SplitSetBuilder>,
    encode: &E,
    encode_facets: &F,
) -> bool {
    &&& xs.len() == acts.len() + 1
    &&& ys.len() == acts.len() + 1
    &&& forall|i: int|
        0 <= i < acts.len() ==> match #[trigger] acts[i] {
            BuildAct::Add { keys, facets } => {
                &&& exists|id: u32|
                    xs[i].adds(xs[i + 1], keys, facets, encode, encode_facets, Ok::<u32, BuildError>(id))
                &&& exists|id: u32|
                    ys[i].adds(ys[i + 1], keys, facets, encode, encode_facets, Ok::<u32, BuildError>(id))
            },
            BuildAct::Drain => xs[i + 1] == xs[i] && ys[i].drains(ys[i + 1]),
        }
}

/// The splits that the first `n` acts have handed out.
pub open spec fn handed_splits(
    acts: Seq<BuildAct>,
    ys: Seq<SplitSetBuilder>,
    n: int,
) -> Seq<(Seq<char>, Seq<u8>)>
    decreases n,
{
    if n <= 0 {
        Seq::empty()
    } else if acts[n - 1] is Drain {
        handed_splits(acts, ys, n - 1) + files(ys[n - 1].ledger().blobs@)
    } else {
        handed_splits(acts, ys, n - 1)
    }
}

/// The facet sidecars that the first `n` acts have handed out.
pub open spec fn handed_facets(
    acts: Seq<BuildAct>,
    ys: Seq<SplitSetBuilder>,
    n: int,
) -> Seq<(Seq<char>, Seq<u8>)>
    decreases n,
{
    if n <= 0 {
        Seq::empty()
    } else if acts[n - 1] is Drain {
        handed_facets(acts, ys, n - 1) + files(ys[n - 1].ledger().facet_blobs@)
    } else {
        handed_facets(acts, ys, n - 1)
    }
}

proof fn lemma_in_step<
    E: Fn(u16, u32, bool, Vec<(u64, Vec<u8>)>) -> Result<Vec<u8>, BuildError>,
    F: Fn(Vec<FacetField>, bool) -> Result<Vec<u8>, BuildError>,
>(
    acts: Seq<BuildAct>,
    xs: Seq<SplitSetBuilder>,
    ys: Seq<SplitSetBuilder>,
    encode: &E,
    encode_facets: &F,
    n: int,
)
    requires
        steady(encode),
        steady_facets(encode_facets),
        in_step(acts, xs, ys, encode, encode_facets),
        xs[0].keeps_pace(ys[0], Seq::empty(), Seq::empty()),
        0 <= n <= acts.len(),
    ensures
        xs[n].keeps_pace(ys[n], handed_splits(acts, ys, n), handed_facets(acts, ys, n)),
    decreases n,
{
    if n > 0 {
        let k = n - 1;
        lemma_in_step(acts, xs, ys, encode, encode_facets, k);
        let (s, f) = (handed_splits(acts, ys, k), handed_facets(acts, ys, k));
        match acts[k] {
            BuildAct::Add { keys, facets } => {
                let a = choose|id: u32|
                    xs[k].adds(xs[k + 1], keys, facets, encode, encode_facets, Ok::<u32, BuildError>(id));
                let b = choose|id: u32|
                    ys[k].adds(ys[k + 1], keys, facets, encode, encode_facets, Ok::<u32, BuildError>(id));
                lemma_add_in_pace(
                    xs[k],
                    xs[n],
                    ys[k],
                    ys[n],
                    s,
                    f,
                    keys,
                    facets,
                    (a, b),
                    encode,
                    encode_facets,
                );
            },
            BuildAct::Drain => {
                lemma_drain_in_pace(xs[k], ys[k], ys[n], s, f);
            },
        }
    }
}

/// Draining neither loses, repeats nor reorders a file: of two builders of the same
/// configuration that get the same documents, one of them drained at any points in between, the
/// files handed out and those of its end are together those of the other, and the manifests are
/// the same.
pub proof fn law_drained_build<
    E: Fn(u16, u32, bool, Vec<(u64, Vec<u8>)>) -> Result<Vec<u8>, BuildError>,
    F: Fn(Vec<FacetField>, bool) -> Result<Vec<u8>, BuildError>,
>(
    acts: Seq<BuildAct>,
    xs: Seq<SplitSetBuilder>,
    ys: Seq<SplitSetBuilder>,
    encode: &E,
    encode_facets: &F,
    ends: (SplitSetBuilder, SplitSetBuilder),
    whole: BuiltSplitSet,
    rest: BuiltSplitSet,
)
    requires
        steady(encode),
        steady_facets(encode_facets),
        in_step(acts, xs, ys, encode, encode_facets),
        xs[0].keeps_pace(ys[0], Seq::empty(), Seq::empty()),
        xs.last().seals(ends.0, encode, encode_facets, Ok(())),
        ys.last().seals(ends.1, encode, encode_facets, Ok(())),
        ends.0.ledger().finished(
            xs.last().settings().0,
            BodyKind::Trigram,
            xs.last().settings().2 > 0,
            Ok(whole),
        ),
        ends.1.ledger().finished(
            ys.last().settings().0,
            BodyKind::Trigram,
            ys.last().settings().2 > 0,
            Ok(rest),
        ),
    ensures
        whole.manifest@ == rest.manifest@,
        files(whole.splits@) == handed_splits(acts, ys, acts.len() as int) + files(rest.splits@),
        files(whole.facets@) == handed_facets(acts, ys, acts.len() as int) + files(rest.facets@),
{
    let n = acts.len() as int;
    let (s, f) = (handed_splits(acts, ys, n), handed_facets(acts, ys, n));
    lemma_in_step(acts, xs, ys, encode, encode_facets, n);
    lemma_seal_in_pace(xs[n], ends.0, ys[n], ends.1, s, f, encode, encode_facets);
    law_drain_then_finish(
        ends.0.ledger(),
        ends.1.ledger(),
        s,
        f,
        xs[n].settings().0,
        BodyKind::Trigram,
        xs[n].settings().2 > 0,
        whole,
        rest,
    );
}

/// Build-time configuration for a term-bodied split set: each sealed split is a term index. The
/// n-gram window is replaced by the tokenizer settings, and there is no Bloom filter.
#[derive(Debug)]
pub struct TermSplitBuildConfig {
    /// Base policy.
    pub policy: Policy,
    /// The per-split byte cap, as for [`SplitBuildConfig::byte_cap`].
    pub byte_cap: u64,
    /// Geometric tiering, as for [`SplitBuildConfig::byte_cap_max`].
    pub byte_cap_max: u64,
    /// Doc-ID head/tail split; `0` takes the default.
    pub head_boundary: u32,
    /// Split file-name prefix: sealed splits are `‹prefix›-s00000.rrt`, ….
    pub name_prefix: String,
    /// Optional stable-key rank source.
    pub sortcol: Option<SortColSpec>,
    /// The index language, shared by the `stem` and `stopwords` filters and recorded in each
    /// split's header. A filter that is on without a language is refused when a split seals.
    pub language: Option<Language>,
    /// Apply Snowball stemming in `language`.
    pub stem: bool,
    /// Remove stop words from the index (and, symmetrically, from queries).
    pub stopwords: bool,
    /// Build a case-sensitive split set.
    pub case_sensitive: bool,
}

/// Bytes charged per new term, beside the term's own length.
pub const PER_NEW_TERM_BYTES: u64 = 24;

/// Bytes charged per `(term, doc)` occurrence.
pub const PER_TERM_ELEMENT_BYTES: u64 = 2;

/// Header and router allowance, added once to each open split's estimate.
pub const TERM_INDEX_HEADER_EST: u64 = 128;

/// What the terms `ts` of a document add to the estimate of a split with the postings `m`.
pub open spec fn term_marginal(ts: Seq<Seq<u8>>, m: Map<Seq<u8>, Set<u32>>) -> nat
    decreases ts.len(),
{
    if ts.len() == 0 {
        0
    } else {
        term_marginal(ts.drop_last(), m) + PER_TERM_ELEMENT_BYTES as nat + if m.contains_key(
            ts.last(),
        ) {
            0nat
        } else {
            PER_NEW_TERM_BYTES as nat + ts.last().len()
        }
    }
}

/// The term-bodied split builder: [`SplitSetBuilder`] with a term index for each split.
pub struct TermSplitSetBuilder {
    ledger: Ledger,
    language: Option<Language>,
    stem: bool,
    tokenizer: Tokenizer,
    open: TermPostings,
    bytes_upper: u64,
}

/// The tokenizer settings of a term-bodied split set.
pub struct TermSettings {
    /// The index language.
    pub language: Option<Language>,
    /// Whether terms are stemmed.
    pub stem: bool,
    /// The tokenizer.
    pub tokenizer: Tokenizer,
}

impl TermSettings {
    /// A filter is on, but no language is given.
    pub open spec fn lacks_language(self) -> bool {
        self.language is None && (self.stem || self.tokenizer.stopwords)
    }
}

impl TermSplitSetBuilder {
    /// What the builder keeps beside the open split's postings.
    pub closed spec fn ledger(&self) -> Ledger {
        self.ledger
    }

    /// The open split's postings: its terms ascending, and the docs of each.
    pub closed spec fn open(&self) -> TermPostings {
        self.open
    }

    /// Bytes charged for the open split, held at the largest `u64`.
    pub closed spec fn upper(&self) -> u64 {
        self.bytes_upper
    }

    /// The tokenizer settings.
    pub closed spec fn settings(&self) -> TermSettings {
        TermSettings { language: self.language, stem: self.stem, tokenizer: self.tokenizer }
    }

    /// The ledger and the open postings hold together, and the ledger lists what was sealed.
    pub open spec fn wf(&self) -> bool {
        &&& self.ledger().wf()
        &&& self.ledger().listed(seq!['.', 'r', 'r', 't'])
        &&& self.open().wf()
    }

    /// Whether the open split is sealed before a document with the terms `ts`: it holds a
    /// document, and the estimate with the new one exceeds its tier's cap.
    pub open spec fn must_seal(&self, ts: Seq<Seq<u8>>) -> bool {
        let l = self.ledger();
        l.open_count > 0 && held(
            TERM_INDEX_HEADER_EST + self.upper() + held(term_marginal(ts, self.open()@) as int),
        ) > tier_cap(l.byte_cap, l.byte_cap_max, l.specs@.len())
    }

    /// Whether `b` is `self` without the open split's postings: a seal that fails has taken
    /// them.
    pub open spec fn emptied(&self, b: TermSplitSetBuilder) -> bool {
        &&& b.ledger() == self.ledger()
        &&& b.settings() == self.settings()
        &&& b.upper() == self.upper()
        &&& b.open()@ == Map::<Seq<u8>, Set<u32>>::empty()
    }

    /// Whether sealing `self` ends in `b` and `r`.
    pub open spec fn seals<F: Fn(Vec<FacetField>, bool) -> Result<Vec<u8>, BuildError>>(
        &self,
        b: TermSplitSetBuilder,
        encode_facets: &F,
        r: Result<(), BuildError>,
    ) -> bool {
        if self.ledger().open_count == 0 {
            r is Ok && b == *self
        } else if self.settings().lacks_language() {
            r == Err::<(), _>(BuildError::NoLanguage) && self.emptied(b)
        } else {
            exists|coded: Result<Vec<u8>, BuildError>|
                #[trigger] index_written(
                    self.open().terms(),
                    self.open().docs(),
                    self.settings().tokenizer,
                    self.ledger().head_boundary,
                    0,
                    coded,
                ) && match coded {
                    Err(e) => r == Err::<(), _>(e) && self.emptied(b),
                    Ok(body) => {
                        &&& seal_ends(
                            self.ledger(),
                            b.ledger(),
                            seq!['.', 'r', 'r', 't'],
                            language_recorded(body@, self.settings().language),
                            Seq::empty(),
                            encode_facets,
                            r,
                        )
                        &&& b.settings() == self.settings()
                        &&& b.open()@ == Map::<Seq<u8>, Set<u32>>::empty()
                        &&& b.upper() == (if r is Ok {
                            0
                        } else {
                            self.upper()
                        })
                    },
                }
        }
    }

    /// Whether adding a document with the terms `ts` and `facets` to `self` leaves `b`.
    pub open spec fn holds_doc(
        &self,
        b: TermSplitSetBuilder,
        ts: Seq<Seq<u8>>,
        facets: Seq<Selection>,
    ) -> bool {
        let id = self.ledger().open_count;
        &&& b.settings() == self.settings()
        &&& b.open()@ == posted_all(self.open()@, ts, id)
        &&& b.upper() == held(self.upper() + held(term_marginal(ts, self.open()@) as int))
        &&& b.ledger().same_sealed(self.ledger())
        &&& b.ledger().open_count == id + 1
        &&& b.ledger().facets@ == with_facets(self.ledger().facets@, facets, id)
        &&& b.ledger().has_facets == (self.ledger().has_facets || facets.len() > 0)
    }

    /// Whether adding a document with the terms `ts` and `facets` to `self` ends in `b` and
    /// `r`.
    pub open spec fn adds<F: Fn(Vec<FacetField>, bool) -> Result<Vec<u8>, BuildError>>(
        &self,
        b: TermSplitSetBuilder,
        ts: Seq<Seq<u8>>,
        facets: Seq<Selection>,
        encode_facets: &F,
        r: Result<u32, BuildError>,
    ) -> bool {
        if self.must_seal(ts) {
            exists|mid: TermSplitSetBuilder, sr: Result<(), BuildError>|
                #[trigger] self.seals(mid, encode_facets, sr) && match sr {
                    Err(e) => r == Err::<u32, _>(e) && b == mid,
                    Ok(_) => r == Ok::<u32, BuildError>(mid.ledger().next_id() as u32)
                        && mid.holds_doc(b, ts, facets),
                }
        } else {
            r == Ok::<u32, BuildError>(self.ledger().next_id() as u32) && self.holds_doc(
                b,
                ts,
                facets,
            )
        }
    }

    /// Whether adding the document `words` to `self` ends in `b` and `r`: each distinct term
    /// counts once.
    pub open spec fn adds_text<F: Fn(Vec<FacetField>, bool) -> Result<Vec<u8>, BuildError>>(
        &self,
        b: TermSplitSetBuilder,
        words: Seq<char>,
        facets: Seq<Selection>,
        encode_facets: &F,
        r: Result<u32, BuildError>,
    ) -> bool {
        exists|ts: Seq<Seq<u8>>|
            #[trigger] sorted_set(ts, encoded(self.settings().tokenizer.terms(words)))
                && self.adds(b, ts, facets, encode_facets, r)
    }

    /// Creates an empty builder. A `head_boundary` of `0` takes the default.
    pub fn new(config: TermSplitBuildConfig) -> (b: TermSplitSetBuilder)
        ensures
            b.wf(),
            b.open()@ == Map::<Seq<u8>, Set<u32>>::empty(),
            b.upper() == 0,
            b.settings() == (TermSettings {
                language: config.language,
                stem: config.stem,
                tokenizer: Tokenizer {
                    language: if config.stem {
                        config.language
                    } else {
                        None
                    },
                    stopwords: config.stopwords,
                    case_fold: !config.case_sensitive,
                },
            }),
            ({
                let l = b.ledger();
                &&& l.policy == config.policy
                &&& l.byte_cap == config.byte_cap
                &&& l.byte_cap_max == config.byte_cap_max
                &&& l.head_boundary == (if config.head_boundary == 0 {
                    DEFAULT_HEAD_BOUNDARY
                } else {
                    config.head_boundary
                })
                &&& l.name_prefix == config.name_prefix
                &&& l.sortcol == config.sortcol
                &&& l.case_normalization == !config.case_sensitive
                &&& l.open_count == 0 && l.global_base == 0
                &&& l.facets@.len() == 0 && !l.has_facets
                &&& l.specs@.len() == 0 && l.blobs@.len() == 0 && l.facet_blobs@.len() == 0
            }),
    {
        let stemmer = if config.stem {
            config.language
        } else {
            None
        };
        reveal(Ledger::listed);
        TermSplitSetBuilder {
            ledger: Ledger {
                policy: config.policy,
                byte_cap: config.byte_cap,
                byte_cap_max: config.byte_cap_max,
                head_boundary: nonzero_or(config.head_boundary, DEFAULT_HEAD_BOUNDARY),
                name_prefix: config.name_prefix,
                sortcol: config.sortcol,
                case_normalization: !config.case_sensitive,
                open_count: 0,
                global_base: 0,
                facets: FacetPostings::new(),
                has_facets: false,
                specs: Vec::new(),
                blobs: Vec::new(),
                facet_blobs: Vec::new(),
            },
            language: config.language,
            stem: config.stem,
            tokenizer: Tokenizer::new(stemmer, config.stopwords, !config.case_sensitive),
            open: TermPostings::new(),
            bytes_upper: 0,
        }
    }

    /// Number of documents added so far, across sealed and open splits.
    pub fn doc_count(&self) -> (n: u32)
        requires
            self.wf(),
        ensures
            n == self.ledger().next_id(),
    {
        self.ledger.global_base + self.ledger.open_count
    }

    /// Hands out the splits and facet sidecars sealed since the last call, and drops them here.
    pub fn drain_sealed(&mut self) -> (files: (NamedFiles, NamedFiles))
        requires
            old(self).wf(),
        ensures
            final(self).wf(),
            files.0@ == old(self).ledger().blobs@,
            files.1@ == old(self).ledger().facet_blobs@,
            final(self).ledger().blobs@.len() == 0,
            final(self).ledger().facet_blobs@.len() == 0,
            final(self).ledger().same_settings(old(self).ledger()),
            final(self).ledger().specs@ == old(self).ledger().specs@,
            final(self).ledger().global_base == old(self).ledger().global_base,
            final(self).ledger().open_count == old(self).ledger().open_count,
            final(self).ledger().facets@ == old(self).ledger().facets@,
            final(self).ledger().has_facets == old(self).ledger().has_facets,
            final(self).open() == old(self).open(),
            final(self).upper() == old(self).upper(),
            final(self).settings() == old(self).settings(),
    {
        let files = self.ledger.drain();
        proof {
            lemma_listed_same(old(self).ledger, self.ledger, seq!['.', 'r', 'r', 't']);
        }
        files
    }

    /// What the terms `ts` add to the open split's estimate, held at the largest `u64`.
    fn marginal_of(&self, ts: &[Vec<u8>]) -> (n: u64)
        requires
            self.wf(),
        ensures
            n == held(term_marginal(raws(ts@), self.open()@) as int),
    {
        let ghost all = raws(ts@);
        let mut n: u64 = 0;
        let mut i: usize = 0;
        assert(all.take(0) =~= Seq::<Seq<u8>>::empty());
        while i < ts.len()
            invariant
                i <= ts@.len(),
                self.wf(),
                all == raws(ts@),
                n == held(term_marginal(all.take(i as int), self.open()@) as int),
            decreases ts@.len() - i,
        {
            assert(all.take(i + 1).drop_last() =~= all.take(i as int));
            assert(all.take(i + 1).last() == ts@[i as int]@);
            if !self.open.contains(ts[i].as_slice()) {
                n = n.saturating_add(PER_NEW_TERM_BYTES).saturating_add(ts[i].len() as u64);
            }
            n = n.saturating_add(PER_TERM_ELEMENT_BYTES);
            i += 1;
        }
        assert(all.take(i as int) =~= all);
        n
    }

    /// Seals the open split into an immutable term index and a manifest entry, and starts a
    /// fresh one. Does nothing when the open split is empty.
    fn seal<F: Fn(Vec<FacetField>, bool) -> Result<Vec<u8>, BuildError>>(&mut self, encode_facets: &F) -> (r:
        Result<(), BuildError>)
        requires
            old(self).wf(),
            forall|fields: Vec<FacetField>, c: bool| call_requires(encode_facets, (fields, c)),
        ensures
            final(self).wf(),
            old(self).seals(*final(self), encode_facets, r),
    {
        if self.ledger.open_count == 0 {
            return Ok(());
        }
        if self.language.is_none() && (self.stem || self.tokenizer.stopwords) {
            self.open = TermPostings::new();
            return Err(BuildError::NoLanguage);
        }
        let ghost start = *self;
        let coded = write_term_index_from_postings(
            &self.open,
            self.ledger.head_boundary,
            self.tokenizer.language,
            self.tokenizer.stopwords,
            self.tokenizer.case_fold,
            0,
        );
        let ghost answer = coded;
        assert(index_written(
            start.open().terms(),
            start.open().docs(),
            start.settings().tokenizer,
            start.ledger().head_boundary,
            0,
            answer,
        ));
        let mut body = match coded {
            Ok(body) => body,
            Err(e) => {
                self.open = TermPostings::new();
                return Err(e);
            },
        };
        record_language(&mut body, self.language);
        let front: Vec<u8> = Vec::new();
        proof {
            assert(front@ =~= Seq::<u8>::empty());
            reveal_strlit(".rrt");
            assert(".rrt"@ =~= seq!['.', 'r', 'r', 't']);
        }
        let ghost whole = body@;
        let sealed_ok = self.ledger.seal_with(".rrt", body, front, encode_facets);
        proof {
            lemma_seal_ends_listed(
                start.ledger,
                self.ledger,
                seq!['.', 'r', 'r', 't'],
                whole,
                Seq::empty(),
                encode_facets,
                sealed_ok,
            );
        }
        match sealed_ok {
            Err(e) => {
                self.open = TermPostings::new();
                Err(e)
            },
            Ok(_) => {
                self.open = TermPostings::new();
                self.bytes_upper = 0;
                Ok(())
            },
        }
    }

    /// Tokenizes `words` and appends it as one document, returning its global doc ID. A
    /// document without terms still consumes an ID, so that the doc-ID space stays dense.
    pub fn add_text<F: Fn(Vec<FacetField>, bool) -> Result<Vec<u8>, BuildError>>(
        &mut self,
        words: &str,
        encode_facets: &F,
    ) -> (r: Result<u32, BuildError>)
        requires
            old(self).wf(),
            old(self).ledger().next_id() < u32::MAX,
            forall|fields: Vec<FacetField>, c: bool| call_requires(encode_facets, (fields, c)),
        ensures
            final(self).wf(),
            old(self).adds_text(*final(self), words@, Seq::empty(), encode_facets, r),
    {
        let none: Vec<Selection> = Vec::new();
        assert(none@ =~= Seq::<Selection>::empty());
        self.add_faceted(words, none.as_slice(), encode_facets)
    }

    /// Like [`add_text`](Self::add_text), and records the document's facet memberships.
    pub fn add_faceted<F: Fn(Vec<FacetField>, bool) -> Result<Vec<u8>, BuildError>>(
        &mut self,
        words: &str,
        facets: &[Selection],
        encode_facets: &F,
    ) -> (r: Result<u32, BuildError>)
        requires
            old(self).wf(),
            old(self).ledger().next_id() < u32::MAX,
            forall|fields: Vec<FacetField>, c: bool| call_requires(encode_facets, (fields, c)),
        ensures
            final(self).wf(),
            old(self).adds_text(*final(self), words@, facets@, encode_facets, r),
    {
        let ghost start = *self;
        let tokens = self.tokenizer.tokenize(words);
        let terms = sorted_terms(tokens.as_slice());
        let ghost ts = raws(terms@);
        assert(sorted_set(ts, encoded(start.settings().tokenizer.terms(words@))));
        let more: u64 = self.marginal_of(terms.as_slice());
        if self.ledger.open_count > 0 && TERM_INDEX_HEADER_EST.saturating_add(
            self.bytes_upper,
        ).saturating_add(more) > cap_for(
            self.ledger.byte_cap,
            self.ledger.byte_cap_max,
            self.ledger.specs.len(),
        ) {
            assert(start.must_seal(ts));
            match self.seal(encode_facets) {
                Err(e) => {
                    let ghost sr: Result<(), BuildError> = Err(e);
                    assert(start.seals(*self, encode_facets, sr));
                    return Err(e);
                },
                Ok(_) => {},
            }
        }
        let ghost mid = *self;
        assert(mid.ledger().next_id() == start.ledger().next_id());
        let charged: u64 = self.marginal_of(terms.as_slice());
        let local: u32 = self.ledger.open_count;
        let mut i: usize = 0;
        assert(ts.take(0) =~= Seq::<Seq<u8>>::empty());
        while i < terms.len()
            invariant
                i <= terms@.len(),
                ts == raws(terms@),
                self.open.wf(),
                self.ledger == mid.ledger,
                self.settings() == mid.settings(),
                self.bytes_upper == mid.bytes_upper,
                self.open@ == posted_all(mid.open@, ts.take(i as int), local),
            decreases terms@.len() - i,
        {
            assert(ts.take(i + 1).drop_last() =~= ts.take(i as int));
            assert(ts.take(i + 1).last() == terms@[i as int]@);
            self.open.post(terms[i].as_slice(), local);
            i += 1;
        }
        assert(ts.take(i as int) =~= ts);
        self.bytes_upper = self.bytes_upper.saturating_add(charged);
        let global = self.ledger.count_in(facets);
        proof {
            lemma_listed_same(mid.ledger, self.ledger, seq!['.', 'r', 'r', 't']);
            assert(mid.holds_doc(*self, ts, facets@));
            if start.must_seal(ts) {
                let sr: Result<(), BuildError> = Ok(());
                assert(start.seals(mid, encode_facets, sr));
            }
            let r: Result<u32, BuildError> = Ok(global);
            assert(start.adds(*self, ts, facets@, encode_facets, r));
        }
        Ok(global)
    }

    /// Seals the final open split and serializes the manifest. Errors if any single document's
    /// postings alone exceed the byte cap.
    pub fn finish<F: Fn(Vec<FacetField>, bool) -> Result<Vec<u8>, BuildError>>(
        self,
        encode_facets: &F,
    ) -> (r: Result<BuiltSplitSet, BuildError>)
        requires
            self.wf(),
            forall|fields: Vec<FacetField>, c: bool| call_requires(encode_facets, (fields, c)),
        ensures
            exists|mid: TermSplitSetBuilder, sr: Result<(), BuildError>|
                #[trigger] self.seals(mid, encode_facets, sr) && match sr {
                    Err(e) => r == Err::<BuiltSplitSet, _>(e),
                    Ok(_) => mid.ledger().finished(0, BodyKind::Term, false, r),
                },
    {
        let mut b = self;
        let sealed_ok = b.seal(encode_facets);
        let ghost sr = sealed_ok;
        let ghost mid = b;
        assert(self.seals(mid, encode_facets, sr));
        match sealed_ok {
            Err(e) => Err(e),
            Ok(_) => b.ledger.finish(0, BodyKind::Term, false),
        }
    }
}

impl TermSplitSetBuilder {
    /// Whether nothing has been handed out.
    pub open spec fn undrained(&self) -> bool {
        self.ledger().blobs@.len() == self.ledger().specs@.len()
    }

    /// Whether `b` is `self` with the files `splits` and `facets` handed out already.
    pub open spec fn keeps_pace(
        &self,
        b: TermSplitSetBuilder,
        splits: Seq<(Seq<char>, Seq<u8>)>,
        facets: Seq<(Seq<char>, Seq<u8>)>,
    ) -> bool {
        &&& drained(self.ledger(), b.ledger(), splits, facets)
        &&& b.open()@ == self.open()@
        &&& b.upper() == self.upper()
        &&& b.settings() == self.settings()
    }

    /// Whether draining `self` leaves `b`.
    pub open spec fn drains(&self, b: TermSplitSetBuilder) -> bool {
        let (l, m) = (self.ledger(), b.ledger());
        &&& m.blobs@.len() == 0
        &&& m.facet_blobs@.len() == 0
        &&& m.same_settings(l)
        &&& m.specs@ == l.specs@
        &&& m.global_base == l.global_base
        &&& m.open_count == l.open_count
        &&& m.facets@ == l.facets@
        &&& m.has_facets == l.has_facets
        &&& b.open() == self.open()
        &&& b.upper() == self.upper()
        &&& b.settings() == self.settings()
    }
}

/// The index that a seal which succeeded recorded.
proof fn lemma_term_body<F: Fn(Vec<FacetField>, bool) -> Result<Vec<u8>, BuildError>>(
    a: TermSplitSetBuilder,
    b: TermSplitSetBuilder,
    encode_facets: &F,
) -> (body: Vec<u8>)
    requires
        a.ledger().open_count > 0,
        a.seals(b, encode_facets, Ok(())),
    ensures
        index_written(
            a.open().terms(),
            a.open().docs(),
            a.settings().tokenizer,
            a.ledger().head_boundary,
            0,
            Ok(body),
        ),
        seal_ends(
            a.ledger(),
            b.ledger(),
            seq!['.', 'r', 'r', 't'],
            language_recorded(body@, a.settings().language),
            Seq::empty(),
            encode_facets,
            Ok(()),
        ),
        b.settings() == a.settings(),
        b.open()@ == Map::<Seq<u8>, Set<u32>>::empty(),
        b.upper() == 0,
{
    let r: Result<(), BuildError> = Ok(());
    let coded = choose|coded: Result<Vec<u8>, BuildError>|
        #[trigger] index_written(
            a.open().terms(),
            a.open().docs(),
            a.settings().tokenizer,
            a.ledger().head_boundary,
            0,
            coded,
        ) && match coded {
            Err(e) => r == Err::<(), _>(e) && a.emptied(b),
            Ok(body) => {
                &&& seal_ends(
                    a.ledger(),
                    b.ledger(),
                    seq!['.', 'r', 'r', 't'],
                    language_recorded(body@, a.settings().language),
                    Seq::empty(),
                    encode_facets,
                    r,
                )
                &&& b.settings() == a.settings()
                &&& b.open()@ == Map::<Seq<u8>, Set<u32>>::empty()
                &&& b.upper() == (if r is Ok {
                    0
                } else {
                    a.upper()
                })
            },
        };
    let body = coded->Ok_0;
    assert(coded == Ok::<Vec<u8>, BuildError>(body));
    body
}

proof fn lemma_sealed_terms<F: Fn(Vec<FacetField>, bool) -> Result<Vec<u8>, BuildError>>(
    a: TermSplitSetBuilder,
    b: TermSplitSetBuilder,
    encode_facets: &F,
)
    requires
        a.wf(),
        a.seals(b, encode_facets, Ok(())),
    ensures
        b.ledger().wf(),
        b.ledger().listed(seq!['.', 'r', 'r', 't']),
        b.ledger().open_count == 0,
        b.ledger().next_id() == a.ledger().next_id(),
        b.ledger().same_settings(a.ledger()),
        a.undrained() ==> b.undrained(),
{
    if a.ledger().open_count > 0 {
        let body = lemma_term_body(a, b, encode_facets);
        lemma_seal_ends_listed(
            a.ledger(),
            b.ledger(),
            seq!['.', 'r', 'r', 't'],
            language_recorded(body@, a.settings().language),
            Seq::empty(),
            encode_facets,
            Ok(()),
        );
    }
}

/// A term-bodied build that is never drained ends in a manifest that lists exactly its splits:
/// they tile the IDs of all the docs added.
pub proof fn law_finish_terms<F: Fn(Vec<FacetField>, bool) -> Result<Vec<u8>, BuildError>>(
    b: TermSplitSetBuilder,
    mid: TermSplitSetBuilder,
    encode_facets: &F,
    built: BuiltSplitSet,
)
    requires
        b.wf(),
        b.undrained(),
        b.seals(mid, encode_facets, Ok(())),
        mid.ledger().finished(0, BodyKind::Term, false, Ok(built)),
        built.manifest@.len() <= usize::MAX,
    ensures
        ({
            let m = built.manifest@;
            splitset::manifest_of(
                m.take(splitset::HEADER_SIZE as int),
                m.subrange(splitset::HEADER_SIZE as int, m.len() as int),
            ) matches Ok(r) && lists_built(
                r,
                b.ledger(),
                seq!['.', 'r', 'r', 't'],
                files(built.splits@),
                b.ledger().next_id(),
            )
        }),
{
    lemma_sealed_terms(b, mid, encode_facets);
    law_built(mid.ledger(), seq!['.', 'r', 'r', 't'], 0, BodyKind::Term, false, built);
}

#[verifier::spinoff_prover]
proof fn lemma_terms_seal_in_pace<F: Fn(Vec<FacetField>, bool) -> Result<Vec<u8>, BuildError>>(
    a: TermSplitSetBuilder,
    a2: TermSplitSetBuilder,
    b: TermSplitSetBuilder,
    b2: TermSplitSetBuilder,
    splits: Seq<(Seq<char>, Seq<u8>)>,
    facets: Seq<(Seq<char>, Seq<u8>)>,
    encode_facets: &F,
)
    requires
        steady_facets(encode_facets),
        a.open().wf(),
        b.open().wf(),
        a.keeps_pace(b, splits, facets),
        a.seals(a2, encode_facets, Ok(())),
        b.seals(b2, encode_facets, Ok(())),
    ensures
        a2.keeps_pace(b2, splits, facets),
{
    if a.ledger().open_count > 0 {
        let x = lemma_term_body(a, a2, encode_facets);
        let y = lemma_term_body(b, b2, encode_facets);
        lemma_postings_unique(a.open().terms(), a.open().docs(), b.open().terms(), b.open().docs());
        law_index_determined(
            a.open().terms(),
            a.open().docs(),
            a.settings().tokenizer,
            a.ledger().head_boundary,
            0,
            Ok(x),
            Ok(y),
        );
        lemma_seal_ledgers(
            a.ledger(),
            a2.ledger(),
            b.ledger(),
            b2.ledger(),
            splits,
            facets,
            seq!['.', 'r', 'r', 't'],
            language_recorded(x@, a.settings().language),
            Seq::empty(),
            encode_facets,
        );
    }
}

proof fn lemma_terms_hold_in_pace(
    a: TermSplitSetBuilder,
    a2: TermSplitSetBuilder,
    b: TermSplitSetBuilder,
    b2: TermSplitSetBuilder,
    splits: Seq<(Seq<char>, Seq<u8>)>,
    facets: Seq<(Seq<char>, Seq<u8>)>,
    ts: Seq<Seq<u8>>,
    own: Seq<Selection>,
)
    requires
        a.keeps_pace(b, splits, facets),
        a.holds_doc(a2, ts, own),
        b.holds_doc(b2, ts, own),
    ensures
        a2.keeps_pace(b2, splits, facets),
{
}

proof fn lemma_terms_add_in_pace<F: Fn(Vec<FacetField>, bool) -> Result<Vec<u8>, BuildError>>(
    a: TermSplitSetBuilder,
    a2: TermSplitSetBuilder,
    b: TermSplitSetBuilder,
    b2: TermSplitSetBuilder,
    splits: Seq<(Seq<char>, Seq<u8>)>,
    facets: Seq<(Seq<char>, Seq<u8>)>,
    words: Seq<char>,
    own: Seq<Selection>,
    ids: (u32, u32),
    encode_facets: &F,
)
    requires
        steady_facets(encode_facets),
        a.open().wf(),
        b.open().wf(),
        a.keeps_pace(b, splits, facets),
        a.adds_text(a2, words, own, encode_facets, Ok(ids.0)),
        b.adds_text(b2, words, own, encode_facets, Ok(ids.1)),
    ensures
        a2.keeps_pace(b2, splits, facets),
        ids.0 == ids.1,
{
    let all = encoded(a.settings().tokenizer.terms(words));
    let ts = choose|ts: Seq<Seq<u8>>|
        #[trigger] sorted_set(ts, all) && a.adds(a2, ts, own, encode_facets, Ok(ids.0));
    let us = choose|us: Seq<Seq<u8>>|
        #[trigger] sorted_set(us, all) && b.adds(b2, us, own, encode_facets, Ok(ids.1));
    lemma_terms_unique(ts, us);
    assert(a.must_seal(ts) == b.must_seal(ts));
    if a.must_seal(ts) {
        let (p, x) = choose|mid: TermSplitSetBuilder, sr: Result<(), BuildError>|
            #[trigger] a.seals(mid, encode_facets, sr) && match sr {
                Err(e) => Ok::<u32, BuildError>(ids.0) == Err::<u32, _>(e) && a2 == mid,
                Ok(_) => Ok::<u32, BuildError>(ids.0) == Ok::<u32, BuildError>(
                    mid.ledger().next_id() as u32,
                ) && mid.holds_doc(a2, ts, own),
            };
        let (q, y) = choose|mid: TermSplitSetBuilder, sr: Result<(), BuildError>|
            #[trigger] b.seals(mid, encode_facets, sr) && match sr {
                Err(e) => Ok::<u32, BuildError>(ids.1) == Err::<u32, _>(e) && b2 == mid,
                Ok(_) => Ok::<u32, BuildError>(ids.1) == Ok::<u32, BuildError>(
                    mid.ledger().next_id() as u32,
                ) && mid.holds_doc(b2, ts, own),
            };
        assert(x is Ok && y is Ok);
        assert(x->Ok_0 == () && y->Ok_0 == ());
        assert(x == Ok::<(), BuildError>(()) && y == Ok::<(), BuildError>(()));
        lemma_terms_seal_in_pace(a, p, b, q, splits, facets, encode_facets);
        lemma_terms_hold_in_pace(p, a2, q, b2, splits, facets, ts, own);
    } else {
        lemma_terms_hold_in_pace(a, a2, b, b2, splits, facets, ts, own);
    }
}

proof fn lemma_terms_drain_in_pace(
    a: TermSplitSetBuilder,
    b: TermSplitSetBuilder,
    b2: TermSplitSetBuilder,
    splits: Seq<(Seq<char>, Seq<u8>)>,
    facets: Seq<(Seq<char>, Seq<u8>)>,
)
    requires
        a.keeps_pace(b, splits, facets),
        b.drains(b2),
    ensures
        a.keeps_pace(
            b2,
            splits + files(b.ledger().blobs@),
            facets + files(b.ledger().facet_blobs@),
        ),
{
    assert(files(b2.ledger().blobs@) =~= Seq::<(Seq<char>, Seq<u8>)>::empty());
    assert(files(b2.ledger().facet_blobs@) =~= Seq::<(Seq<char>, Seq<u8>)>::empty());
    let (l, m) = (a.ledger(), b.ledger());
    assert(files(l.blobs@) =~= splits + files(m.blobs@) + files(b2.ledger().blobs@));
    assert(files(l.facet_blobs@) =~= facets + files(m.facet_blobs@) + files(
        b2.ledger().facet_blobs@,
    ));
}

/// What is done with a term-bodied builder.
pub enum TermAct {
    /// A document is added.
    Add {
        /// Its text.
        words: Seq<char>,
        /// Its facets.
        facets: Seq<Selection>,
    },
    /// What has been sealed is handed out.
    Drain,
}

/// Whether the acts take one builder through the states `xs`, which is not drained, and another
/// through `ys`, which is.
pub open spec fn terms_in_step<F: Fn(Vec<FacetField>, bool) -> Result<Vec<u8>, BuildError>>(
    acts: Seq<TermAct>,
    xs: Seq<TermSplitSetBuilder>,
    ys: Seq<TermSplitSetBuilder>,
    encode_facets: &F,
) -> bool {
    &&& xs.len() == acts.len() + 1
    &&& ys.len() == acts.len() + 1
    &&& forall|i: int| 0 <= i < xs.len() ==> (#[trigger] xs[i]).open().wf()
    &&& forall|i: int| 0 <= i < ys.len() ==> (#[trigger] ys[i]).open().wf()
    &&& forall|i: int|
        0 <= i < acts.len() ==> match #[trigger] acts[i] {
            TermAct::Add { words, facets } => {
                &&& exists|id: u32|
                    xs[i].adds_text(xs[i + 1], words, facets, encode_facets, Ok::<u32, BuildError>(id))
                &&& exists|id: u32|
                    ys[i].adds_text(ys[i + 1], words, facets, encode_facets, Ok::<u32, BuildError>(id))
            },
            TermAct::Drain => xs[i + 1] == xs[i] && ys[i].drains(ys[i + 1]),
        }
}

/// The splits that the first `n` acts have handed out.
pub open spec fn handed_term_splits(
    acts: Seq<TermAct>,
    ys: Seq<TermSplitSetBuilder>,
    n: int,
) -> Seq<(Seq<char>, Seq<u8>)>
    decreases n,
{
    if n <= 0 {
        Seq::empty()
    } else if acts[n - 1] is Drain {
        handed_term_splits(acts, ys, n - 1) + files(ys[n - 1].ledger().blobs@)
    } else {
        handed_term_splits(acts, ys, n - 1)
    }
}

/// The facet sidecars that the first `n` acts have handed out.
pub open spec fn handed_term_facets(
    acts: Seq<TermAct>,
    ys: Seq<TermSplitSetBuilder>,
    n: int,
) -> Seq<(Seq<char>, Seq<u8>)>
    decreases n,
{
    if n <= 0 {
        Seq::empty()
    } else if acts[n - 1] is Drain {
        handed_term_facets(acts, ys, n - 1) + files(ys[n - 1].ledger().facet_blobs@)
    } else {
        handed_term_facets(acts, ys, n - 1)
    }
}

proof fn lemma_terms_in_step<F: Fn(Vec<FacetField>, bool) -> Result<Vec<u8>, BuildError>>(
    acts: Seq<TermAct>,
    xs: Seq<TermSplitSetBuilder>,
    ys: Seq<TermSplitSetBuilder>,
    encode_facets: &F,
    n: int,
)
    requires
        steady_facets(encode_facets),
        terms_in_step(acts, xs, ys, encode_facets),
        xs[0].keeps_pace(ys[0], Seq::empty(), Seq::empty()),
        0 <= n <= acts.len(),
    ensures
        xs[n].keeps_pace(ys[n], handed_term_splits(acts, ys, n), handed_term_facets(acts, ys, n)),
    decreases n,
{
    if n > 0 {
        let k = n - 1;
        lemma_terms_in_step(acts, xs, ys, encode_facets, k);
        let (s, f) = (handed_term_splits(acts, ys, k), handed_term_facets(acts, ys, k));
        match acts[k] {
            TermAct::Add { words, facets } => {
                let a = choose|id: u32|
                    xs[k].adds_text(xs[k + 1], words, facets, encode_facets, Ok::<u32, BuildError>(id));
                let b = choose|id: u32|
                    ys[k].adds_text(ys[k + 1], words, facets, encode_facets, Ok::<u32, BuildError>(id));
                lemma_terms_add_in_pace(
                    xs[k],
                    xs[n],
                    ys[k],
                    ys[n],
                    s,
                    f,
                    words,
                    facets,
                    (a, b),
                    encode_facets,
                );
            },
            TermAct::Drain => {
                lemma_terms_drain_in_pace(xs[k], ys[k], ys[n], s, f);
            },
        }
    }
}

/// Draining a term-bodied build neither loses, repeats nor reorders a file: of two builders of
/// the same configuration that get the same documents, one of them drained at any points in
/// between, the files handed out and those of its end are together those of the other, and the
/// manifests are the same.
pub proof fn law_drained_term_build<F: Fn(Vec<FacetField>, bool) -> Result<Vec<u8>, BuildError>>(
    acts: Seq<TermAct>,
    xs: Seq<TermSplitSetBuilder>,
    ys: Seq<TermSplitSetBuilder>,
    encode_facets: &F,
    ends: (TermSplitSetBuilder, TermSplitSetBuilder),
    whole: BuiltSplitSet,
    rest: BuiltSplitSet,
)
    requires
        steady_facets(encode_facets),
        terms_in_step(acts, xs, ys, encode_facets),
        xs[0].keeps_pace(ys[0], Seq::empty(), Seq::empty()),
        xs.last().seals(ends.0, encode_facets, Ok(())),
        ys.last().seals(ends.1, encode_facets, Ok(())),
        ends.0.ledger().finished(0, BodyKind::Term, false, Ok(whole)),
        ends.1.ledger().finished(0, BodyKind::Term, false, Ok(rest)),
    ensures
        whole.manifest@ == rest.manifest@,
        files(whole.splits@) == handed_term_splits(acts, ys, acts.len() as int) + files(
            rest.splits@,
        ),
        files(whole.facets@) == handed_term_facets(acts, ys, acts.len() as int) + files(
            rest.facets@,
        ),
{
    let n = acts.len() as int;
    let (s, f) = (handed_term_splits(acts, ys, n), handed_term_facets(acts, ys, n));
    lemma_terms_in_step(acts, xs, ys, encode_facets, n);
    assert(xs[n].open().wf() && ys[n].open().wf());
    lemma_terms_seal_in_pace(xs[n], ends.0, ys[n], ends.1, s, f, encode_facets);
    law_drain_then_finish(
        ends.0.ledger(),
        ends.1.ledger(),
        s,
        f,
        0,
        BodyKind::Term,
        false,
        whole,
        rest,
    );
}

/// Without a largest cap every split has the flat one. With one, each split's cap is twice that
/// of the split before it, up to the largest.
pub proof fn law_tier_doubles(byte_cap: u64, byte_cap_max: u64, tier: nat)
    ensures
        byte_cap_max == 0 ==> tier_cap(byte_cap, byte_cap_max, tier) == byte_cap,
        byte_cap_max > 0 ==> tier_cap(byte_cap, byte_cap_max, tier + 1) == vstd::math::min(
            2 * tier_cap(byte_cap, byte_cap_max, tier),
            vstd::math::max(byte_cap as int, byte_cap_max as int),
        ),
{
    lemma_doubled_grows(byte_cap as nat, tier, tier + 1);
    assert(doubled(byte_cap as nat, tier + 1) == 2 * doubled(byte_cap as nat, tier));
}

/// Tiers count the splits of a tiered base from zero on, as far as they can count; a stable-key
/// base has one tier.
pub proof fn law_tiers(l: Ledger, i: nat)
    ensures
        l.tier(0) == 0,
        l.policy == Policy::StableKey ==> l.tier(i) == 0,
        l.policy == Policy::Tiered && i < u16::MAX ==> l.tier(i + 1) == l.tier(i) + 1,
        l.policy == Policy::Tiered && i >= u16::MAX ==> l.tier(i) == u16::MAX,
{
}

/// The manifest's flags say exactly which of Bloom filters, facets and case sensitivity the set
/// has.
pub proof fn law_set_flags(l: Ledger, with_bloom: bool)
    ensures
        splitset::has_flag(l.flags(with_bloom) as int, FLAG_BLOOM as int) == with_bloom,
        splitset::has_flag(l.flags(with_bloom) as int, FLAG_FACET as int) == l.has_facets,
        splitset::has_flag(l.flags(with_bloom) as int, FLAG_CASE_SENSITIVE as int)
            == !l.case_normalization,
{
}

/// Finishing is refused exactly where a split of a single doc is larger than its tier's cap, for
/// the first such split.
pub proof fn law_oversize(l: Ledger, i: int)
    requires
        0 <= i,
    ensures
        match l.oversize(i) {
            Some(k) => {
                &&& i <= k < l.specs@.len()
                &&& l.specs@[k].doc_count == 1
                &&& l.specs@[k].byte_size > tier_cap(l.byte_cap, l.byte_cap_max, k as nat)
                &&& forall|j: int|
                    i <= j < k ==> (#[trigger] l.specs@[j]).doc_count != 1 || l.specs@[j].byte_size
                        <= tier_cap(l.byte_cap, l.byte_cap_max, j as nat)
            },
            None => forall|j: int|
                i <= j < l.specs@.len() ==> (#[trigger] l.specs@[j]).doc_count != 1
                    || l.specs@[j].byte_size <= tier_cap(l.byte_cap, l.byte_cap_max, j as nat),
        },
    decreases l.specs@.len() - i,
{
    if i < l.specs@.len() {
        law_oversize(l, i + 1);
    }
}

/// The keys that a split does not hold yet are counted one by one.
pub proof fn law_new_keys(keys: Seq<u64>, m: Map<u64, Set<u32>>)
    ensures
        new_keys(keys, m) == keys.filter(|k: u64| !m.contains_key(k)).len(),
    decreases keys.len(),
{
    reveal(Seq::filter);
    if keys.len() > 0 {
        law_new_keys(keys.drop_last(), m);
    }
}

/// What a doc's terms add to a split's estimate is the sum over them: for each a posting's
/// element, and for one that the split does not hold yet its own bytes and an entry's.
pub proof fn law_term_marginal(
    a: Seq<Seq<u8>>,
    b: Seq<Seq<u8>>,
    t: Seq<u8>,
    m: Map<Seq<u8>, Set<u32>>,
)
    ensures
        term_marginal(a + b, m) == term_marginal(a, m) + term_marginal(b, m),
        m.contains_key(t) ==> term_marginal(seq![t], m) == PER_TERM_ELEMENT_BYTES,
        !m.contains_key(t) ==> term_marginal(seq![t], m) == PER_TERM_ELEMENT_BYTES
            + PER_NEW_TERM_BYTES + t.len(),
    decreases b.len(),
{
    reveal_with_fuel(term_marginal, 2);
    assert(seq![t].drop_last() =~= Seq::<Seq<u8>>::empty());
    if b.len() == 0 {
        assert(a + b =~= a);
    } else {
        law_term_marginal(a, b.drop_last(), t, m);
        assert((a + b).drop_last() =~= a + b.drop_last());
    }
}

/// Whether sealing left `b` with a new split over the open docs of `a`.
spec fn turned(a: Ledger, b: Ledger) -> bool {
    &&& b.open_count == 0
    &&& b.global_base == a.next_id()
    &&& b.same_settings(a)
    &&& b.specs@.len() == a.specs@.len() + 1
    &&& b.specs@.last().doc_id_lo == a.global_base
    &&& b.specs@.last().doc_count == a.open_count
}

proof fn lemma_turned<F: Fn(Vec<FacetField>, bool) -> Result<Vec<u8>, BuildError>>(
    a: Ledger,
    b: Ledger,
    ext: Seq<char>,
    body: Seq<u8>,
    front: Seq<u8>,
    encode_facets: &F,
)
    requires
        seal_ends(a, b, ext, body, front, encode_facets, Ok(())),
    ensures
        turned(a, b),
{
    let sidecar = lemma_seal_sidecar(a, b, ext, body, front, encode_facets);
}

proof fn lemma_builder_turned<
    E: Fn(u16, u32, bool, Vec<(u64, Vec<u8>)>) -> Result<Vec<u8>, BuildError>,
    F: Fn(Vec<FacetField>, bool) -> Result<Vec<u8>, BuildError>,
>(a: SplitSetBuilder, b: SplitSetBuilder, encode: &E, encode_facets: &F)
    requires
        a.ledger().open_count > 0,
        a.seals(b, encode, encode_facets, Ok(())),
    ensures
        turned(a.ledger(), b.ledger()),
        b.open() == Map::<u64, Set<u32>>::empty(),
{
    let (es, body, front) = lemma_seal_body(a, b, encode, encode_facets);
    lemma_turned(
        a.ledger(),
        b.ledger(),
        seq!['.', 'r', 'r', 's'],
        body@,
        front,
        encode_facets,
    );
}

proof fn lemma_terms_turned<F: Fn(Vec<FacetField>, bool) -> Result<Vec<u8>, BuildError>>(
    a: TermSplitSetBuilder,
    b: TermSplitSetBuilder,
    encode_facets: &F,
)
    requires
        a.ledger().open_count > 0,
        a.seals(b, encode_facets, Ok(())),
    ensures
        turned(a.ledger(), b.ledger()),
        b.open()@ == Map::<Seq<u8>, Set<u32>>::empty(),
{
    let body = lemma_term_body(a, b, encode_facets);
    lemma_turned(
        a.ledger(),
        b.ledger(),
        seq!['.', 'r', 'r', 't'],
        language_recorded(body@, a.settings().language),
        Seq::empty(),
        encode_facets,
    );
}

proof fn lemma_facets_held(v: Seq<FacetView>, facets: Seq<Selection>, doc: u32)
    ensures
        forall|f: Seq<char>, c: Seq<char>|
            (exists|j: int|
                0 <= j < facets.len() && (#[trigger] facets[j]).field@ == f && facets[j].category@
                    == c) ==> #[trigger] records(with_facets(v, facets, doc), f, c, doc),
{
    assert forall|f: Seq<char>, c: Seq<char>|
        (exists|j: int|
            0 <= j < facets.len() && (#[trigger] facets[j]).field@ == f && facets[j].category@
                == c) implies #[trigger] records(with_facets(v, facets, doc), f, c, doc) by {
        law_facets_recorded(v, facets, doc, f, c, doc);
    }
}

/// The builder in which a doc was put: `a` itself, or `a` after its seal.
proof fn lemma_put_in<
    E: Fn(u16, u32, bool, Vec<(u64, Vec<u8>)>) -> Result<Vec<u8>, BuildError>,
    F: Fn(Vec<FacetField>, bool) -> Result<Vec<u8>, BuildError>,
>(
    a: SplitSetBuilder,
    b: SplitSetBuilder,
    keys: Seq<u64>,
    facets: Seq<Selection>,
    encode: &E,
    encode_facets: &F,
    id: u32,
) -> (mid: SplitSetBuilder)
    requires
        a.adds(b, keys, facets, encode, encode_facets, Ok(id)),
    ensures
        mid.holds_doc(b, keys, facets),
        id == mid.ledger().next_id() as u32,
        a.must_seal(keys) ==> turned(a.ledger(), mid.ledger()) && mid.open() == Map::<
            u64,
            Set<u32>,
        >::empty(),
        !a.must_seal(keys) ==> mid == a,
{
    if a.must_seal(keys) {
        let (mid, sr) = choose|mid: SplitSetBuilder, sr: Result<(), BuildError>|
            #[trigger] a.seals(mid, encode, encode_facets, sr) && match sr {
                Err(e) => Ok::<u32, BuildError>(id) == Err::<u32, _>(e) && b == mid,
                Ok(_) => Ok::<u32, BuildError>(id) == Ok::<u32, BuildError>(
                    mid.ledger().next_id() as u32,
                ) && mid.holds_doc(b, keys, facets),
            };
        assert(sr->Ok_0 == ());
        assert(sr == Ok::<(), BuildError>(()));
        lemma_builder_turned(a, mid, encode, encode_facets);
        mid
    } else {
        a
    }
}

proof fn lemma_text_put_in<F: Fn(Vec<FacetField>, bool) -> Result<Vec<u8>, BuildError>>(
    a: TermSplitSetBuilder,
    b: TermSplitSetBuilder,
    ts: Seq<Seq<u8>>,
    facets: Seq<Selection>,
    encode_facets: &F,
    id: u32,
) -> (mid: TermSplitSetBuilder)
    requires
        a.adds(b, ts, facets, encode_facets, Ok(id)),
    ensures
        mid.holds_doc(b, ts, facets),
        id == mid.ledger().next_id() as u32,
        a.must_seal(ts) ==> turned(a.ledger(), mid.ledger()) && mid.open()@ == Map::<
            Seq<u8>,
            Set<u32>,
        >::empty(),
        !a.must_seal(ts) ==> mid == a,
{
    if a.must_seal(ts) {
        let (mid, sr) = choose|mid: TermSplitSetBuilder, sr: Result<(), BuildError>|
            #[trigger] a.seals(mid, encode_facets, sr) && match sr {
                Err(e) => Ok::<u32, BuildError>(id) == Err::<u32, _>(e) && b == mid,
                Ok(_) => Ok::<u32, BuildError>(id) == Ok::<u32, BuildError>(
                    mid.ledger().next_id() as u32,
                ) && mid.holds_doc(b, ts, facets),
            };
        assert(sr->Ok_0 == ());
        assert(sr == Ok::<(), BuildError>(()));
        lemma_terms_turned(a, mid, encode_facets);
        mid
    } else {
        a
    }
}

/// A doc that is added gets the next ID, and in the open split it is found under exactly its keys
/// and its categories. Every doc that the open split held before is still in it, or was sealed
/// with it; it is sealed exactly where it holds a doc and its estimate with the new doc exceeds
/// the cap of its tier.
pub proof fn law_doc_added<
    E: Fn(u16, u32, bool, Vec<(u64, Vec<u8>)>) -> Result<Vec<u8>, BuildError>,
    F: Fn(Vec<FacetField>, bool) -> Result<Vec<u8>, BuildError>,
>(
    a: SplitSetBuilder,
    b: SplitSetBuilder,
    keys: Seq<u64>,
    facets: Seq<Selection>,
    encode: &E,
    encode_facets: &F,
    id: u32,
    k: u64,
    x: u32,
)
    requires
        a.wf(),
        a.adds(b, keys, facets, encode, encode_facets, Ok(id)),
    ensures
        id == a.ledger().next_id(),
        b.ledger().next_id() == id + 1,
        ({
            let local = (b.ledger().open_count - 1) as u32;
            let sealed_first = a.ledger().open_count > 0 && a.estimated() + marginal(keys, a.open())
                > tier_cap(a.ledger().byte_cap, a.ledger().byte_cap_max, a.ledger().specs@.len());
            &&& b.ledger().global_base + local == id
            &&& posting(b.open(), k).contains(local) <==> keys.contains(k)
            &&& forall|f: Seq<char>, c: Seq<char>|
                (exists|j: int|
                    0 <= j < facets.len() && (#[trigger] facets[j]).field@ == f
                        && facets[j].category@ == c) ==> #[trigger] records(
                    b.ledger().facets@,
                    f,
                    c,
                    local,
                )
            &&& sealed_first ==> {
                &&& b.ledger().specs@.len() == a.ledger().specs@.len() + 1
                &&& b.ledger().specs@.last().doc_id_lo == a.ledger().global_base
                &&& b.ledger().specs@.last().doc_count == a.ledger().open_count
                &&& x != local ==> !posting(b.open(), k).contains(x)
            }
            &&& !sealed_first ==> {
                &&& b.ledger().specs@ == a.ledger().specs@
                &&& b.ledger().global_base == a.ledger().global_base
                &&& x != local ==> (posting(b.open(), k).contains(x) <==> posting(
                    a.open(),
                    k,
                ).contains(x))
            }
        }),
{
    let mid = lemma_put_in(a, b, keys, facets, encode, encode_facets, id);
    let local = mid.ledger().open_count;
    law_with_doc(mid.open(), keys, local, k, x);
    law_with_doc(mid.open(), keys, local, k, local);
    lemma_facets_held(mid.ledger().facets@, facets, local);
}

/// Sealing hands the encoder, with the builder's settings, one entry for each key of the open
/// split in ascending order, with exactly the docs under it; and what the encoder made of them is
/// the file of the new split, which covers the docs of the open one.
pub proof fn law_sealed_entries<
    E: Fn(u16, u32, bool, Vec<(u64, Vec<u8>)>) -> Result<Vec<u8>, BuildError>,
    F: Fn(Vec<FacetField>, bool) -> Result<Vec<u8>, BuildError>,
>(a: SplitSetBuilder, b: SplitSetBuilder, encode: &E, encode_facets: &F)
    requires
        a.ledger().open_count > 0,
        a.seals(b, encode, encode_facets, Ok(())),
    ensures
        exists|es: Vec<(u64, Vec<u8>)>, body: Vec<u8>|
            {
                &&& #[trigger] call_ensures(
                    encode,
                    (a.settings().0, a.settings().1, a.ledger().case_normalization, es),
                    Ok::<Vec<u8>, BuildError>(body),
                )
                &&& forall|i: int, j: int|
                    0 <= i < j < es@.len() ==> (#[trigger] es@[i]).0 < (#[trigger] es@[j]).0
                &&& forall|i: int|
                    0 <= i < es@.len() ==> read_ids((#[trigger] es@[i]).1@) == Some(
                        posting(a.open(), es@[i].0),
                    )
                &&& forall|k: u64|
                    #[trigger] a.open().contains_key(k) ==> exists|i: int|
                        0 <= i < es@.len() && (#[trigger] es@[i]).0 == k
                &&& b.ledger().blobs@.len() == a.ledger().blobs@.len() + 1
                &&& b.ledger().blobs@.last().1@ == body@
                &&& b.ledger().specs@.last().data_file@ == b.ledger().blobs@.last().0@
                &&& b.ledger().specs@.last().byte_size == body@.len()
                &&& b.ledger().specs@.last().doc_id_lo == a.ledger().global_base
                &&& b.ledger().specs@.last().doc_count == a.ledger().open_count
            },
        b.open() == Map::<u64, Set<u32>>::empty(),
        b.ledger().next_id() == a.ledger().next_id(),
{
    let (es, body, front) = lemma_seal_body(a, b, encode, encode_facets);
    let sidecar = lemma_seal_sidecar(
        a.ledger(),
        b.ledger(),
        seq!['.', 'r', 'r', 's'],
        body@,
        front,
        encode_facets,
    );
    let ks = es@.map_values(|e: (u64, Vec<u8>)| e.0);
    assert forall|i: int| 0 <= i < es@.len() implies read_ids((#[trigger] es@[i]).1@) == Some(
        posting(a.open(), es@[i].0),
    ) by {
        assert(ks[i] == es@[i].0);
        assert(ks.contains(ks[i]));
    }
    assert forall|i: int, j: int| 0 <= i < j < es@.len() implies (#[trigger] es@[i]).0 < (
    #[trigger] es@[j]).0 by {
        assert(ks[i] < ks[j]);
    }
    assert forall|k: u64| #[trigger] a.open().contains_key(k) implies exists|i: int|
        0 <= i < es@.len() && (#[trigger] es@[i]).0 == k by {
        assert(ks.contains(k));
        let i = choose|i: int| 0 <= i < ks.len() && ks[i] == k;
        assert(es@[i].0 == k);
    }
    assert(call_ensures(
        encode,
        (a.settings().0, a.settings().1, a.ledger().case_normalization, es),
        Ok::<Vec<u8>, BuildError>(body),
    ));
}

/// Whether the open split of `b` holds the doc `d` under the term `t`.
pub open spec fn open_holds(b: TermSplitSetBuilder, t: Seq<u8>, d: u32) -> bool {
    b.open()@.contains_key(t) && b.open()@[t].contains(d)
}

/// A text that is added gets the next ID, and in the open split its doc is found under every one
/// of its terms and under no other for its sake; no other doc changes its terms, but that the
/// open split may have been sealed first.
pub proof fn law_text_added<F: Fn(Vec<FacetField>, bool) -> Result<Vec<u8>, BuildError>>(
    a: TermSplitSetBuilder,
    b: TermSplitSetBuilder,
    words: Seq<char>,
    facets: Seq<Selection>,
    encode_facets: &F,
    id: u32,
    t: Seq<u8>,
    d: u32,
)
    requires
        a.wf(),
        a.adds_text(b, words, facets, encode_facets, Ok(id)),
    ensures
        id == a.ledger().next_id(),
        b.ledger().next_id() == id + 1,
        ({
            let local = (b.ledger().open_count - 1) as u32;
            let own = encoded(a.settings().tokenizer.terms(words));
            &&& b.ledger().global_base + local == id
            &&& own.contains(t) ==> open_holds(b, t, local)
            &&& d != local || !own.contains(t) ==> (open_holds(b, t, d) ==> open_holds(a, t, d))
            &&& b.ledger().specs@ == a.ledger().specs@ ==> (open_holds(a, t, d) ==> open_holds(
                b,
                t,
                d,
            ))
            &&& b.ledger().specs@ != a.ledger().specs@ ==> {
                &&& b.ledger().specs@.len() == a.ledger().specs@.len() + 1
                &&& b.ledger().specs@.last().doc_id_lo == a.ledger().global_base
                &&& b.ledger().specs@.last().doc_count == a.ledger().open_count
            }
            &&& forall|f: Seq<char>, c: Seq<char>|
                (exists|j: int|
                    0 <= j < facets.len() && (#[trigger] facets[j]).field@ == f
                        && facets[j].category@ == c) ==> #[trigger] records(
                    b.ledger().facets@,
                    f,
                    c,
                    local,
                )
        }),
{
    let own = encoded(a.settings().tokenizer.terms(words));
    let ts = choose|ts: Seq<Seq<u8>>|
        #[trigger] sorted_set(ts, own) && a.adds(b, ts, facets, encode_facets, Ok(id));
    let mid = lemma_text_put_in(a, b, ts, facets, encode_facets, id);
    let local = mid.ledger().open_count;
    assert(ts.contains(t) <==> own.contains(t));
    lemma_posted_all(mid.open()@, ts, local, t, d);
    lemma_posted_all(mid.open()@, ts, local, t, local);
    lemma_facets_held(mid.ledger().facets@, facets, local);
}

/// Adding a doc charges the open split two bytes for each distinct key, and a split that was
/// sealed first starts again from nothing.
pub proof fn law_doc_charged<
    E: Fn(u16, u32, bool, Vec<(u64, Vec<u8>)>) -> Result<Vec<u8>, BuildError>,
    F: Fn(Vec<FacetField>, bool) -> Result<Vec<u8>, BuildError>,
>(
    a: SplitSetBuilder,
    b: SplitSetBuilder,
    keys: Seq<u64>,
    facets: Seq<Selection>,
    encode: &E,
    encode_facets: &F,
    id: u32,
)
    requires
        a.adds(b, keys, facets, encode, encode_facets, Ok(id)),
    ensures
        ({
            let sealed_first = a.ledger().open_count > 0 && a.estimated() + marginal(keys, a.open())
                > tier_cap(a.ledger().byte_cap, a.ledger().byte_cap_max, a.ledger().specs@.len());
            b.upper() == (if sealed_first {
                0
            } else {
                a.upper()
            }) + 2 * keys.to_set().len()
        }),
{
    if a.must_seal(keys) {
        let (mid, sr) = choose|mid: SplitSetBuilder, sr: Result<(), BuildError>|
            #[trigger] a.seals(mid, encode, encode_facets, sr) && match sr {
                Err(e) => Ok::<u32, BuildError>(id) == Err::<u32, _>(e) && b == mid,
                Ok(_) => Ok::<u32, BuildError>(id) == Ok::<u32, BuildError>(
                    mid.ledger().next_id() as u32,
                ) && mid.holds_doc(b, keys, facets),
            };
        assert(mid.upper() == 0);
    }
}

/// A split's estimate is a header of 20 bytes, 64 bytes for each key, eight for each started run
/// of `stride` keys, and its elements.
pub proof fn law_size_estimate(nkeys: nat, stride: u32, upper: int, runs: nat)
    requires
        ({
            let step = if stride == 0 {
                1
            } else {
                stride as int
            };
            (runs - 1) * step < nkeys <= runs * step
        }),
    ensures
        size_estimate(nkeys, stride, upper) == 20 + 64 * nkeys + 8 * runs + upper,
{
    let step = if stride == 0 {
        1
    } else {
        stride as int
    };
    let n = nkeys as int;
    let r = runs as int;
    assert((n + step - 1) / step == r) by (nonlinear_arith)
        requires
            step > 0,
            (r - 1) * step < n <= r * step,
    ;
}

/// Adding a text seals the open split first exactly where it holds a doc and its estimate with
/// the text's terms exceeds the cap of its tier, and charges what the terms add to the open
/// split, which starts again from nothing where it was sealed.
pub proof fn law_text_charged<F: Fn(Vec<FacetField>, bool) -> Result<Vec<u8>, BuildError>>(
    a: TermSplitSetBuilder,
    b: TermSplitSetBuilder,
    words: Seq<char>,
    facets: Seq<Selection>,
    encode_facets: &F,
    id: u32,
    ts: Seq<Seq<u8>>,
)
    requires
        a.wf(),
        a.adds_text(b, words, facets, encode_facets, Ok(id)),
        sorted_set(ts, encoded(a.settings().tokenizer.terms(words))),
    ensures
        ({
            let l = a.ledger();
            let more = held(term_marginal(ts, a.open()@) as int);
            if l.open_count > 0 && held(128 + a.upper() + more) > tier_cap(
                l.byte_cap,
                l.byte_cap_max,
                l.specs@.len(),
            ) {
                &&& b.ledger().specs@.len() == l.specs@.len() + 1
                &&& b.upper() == held(
                    held(term_marginal(ts, Map::<Seq<u8>, Set<u32>>::empty()) as int) as int,
                )
            } else {
                &&& b.ledger().specs@ == l.specs@
                &&& b.upper() == held(a.upper() + more)
            }
        }),
{
    let own = encoded(a.settings().tokenizer.terms(words));
    let us = choose|us: Seq<Seq<u8>>|
        #[trigger] sorted_set(us, own) && a.adds(b, us, facets, encode_facets, Ok(id));
    assert forall|t: Seq<u8>| us.contains(t) <==> ts.contains(t) by {
        assert(us.contains(t) <==> own.contains(t));
        assert(ts.contains(t) <==> own.contains(t));
    }
    lemma_terms_unique(us, ts);
    if a.must_seal(ts) {
        let (mid, sr) = choose|mid: TermSplitSetBuilder, sr: Result<(), BuildError>|
            #[trigger] a.seals(mid, encode_facets, sr) && match sr {
                Err(e) => Ok::<u32, BuildError>(id) == Err::<u32, _>(e) && b == mid,
                Ok(_) => Ok::<u32, BuildError>(id) == Ok::<u32, BuildError>(
                    mid.ledger().next_id() as u32,
                ) && mid.holds_doc(b, ts, facets),
            };
        assert(sr->Ok_0 == ());
        assert(sr == Ok::<(), BuildError>(()));
        lemma_terms_turned(a, mid, encode_facets);
        assert(mid.upper() == 0);
    }
}

/// Files of one builder never share a name: their numbers differ.
pub proof fn law_file_names(l: Ledger, i: nat, j: nat, ext: Seq<char>)
    requires
        l.file_name(i, ext) == l.file_name(j, ext),
    ensures
        i == j,
{
    text::law_decimal5(i);
    text::law_decimal5(j);
    let front = l.name_prefix@ + seq!['-'] + seq!['s'];
    let (a, b) = (l.file_name(i, ext), l.file_name(j, ext));
    let n = front.len() as int;
    assert(a.subrange(n, a.len() - ext.len()) =~= text::decimal5(i));
    assert(b.subrange(n, b.len() - ext.len()) =~= text::decimal5(j));
}

/// The term of a document is charged two bytes, and one that the split does not have yet 24 and
/// its length more; the terms of two lists together cost what both lists do.
pub proof fn law_term_charges(
    a: Seq<Seq<u8>>,
    b: Seq<Seq<u8>>,
    t: Seq<u8>,
    m: Map<Seq<u8>, Set<u32>>,
)
    ensures
        term_marginal(a + b, m) == term_marginal(a, m) + term_marginal(b, m),
        term_marginal(seq![t], m) == (if m.contains_key(t) {
            2
        } else {
            26 + t.len()
        }),
    decreases b.len(),
{
    reveal_with_fuel(term_marginal, 2);
    assert(seq![t].drop_last() =~= Seq::<Seq<u8>>::empty());
    if b.len() == 0 {
        assert(a + b =~= a);
    } else {
        law_term_charges(a, b.drop_last(), t, m);
        assert((a + b).drop_last() =~= a + b.drop_last());
        assert((a + b).last() == b.last());
    }
}

/// The manifest of a finished set, read back, says what the builder was set to: its policy, byte
/// cap, n-gram window, kind of index and rank source, and which summaries its splits carry.
pub proof fn law_finished_config(
    l: Ledger,
    gram_size: u16,
    body_kind: BodyKind,
    with_bloom: bool,
    built: BuiltSplitSet,
)
    requires
        l.finished(gram_size, body_kind, with_bloom, Ok(built)),
        built.manifest@.len() <= usize::MAX,
    ensures
        ({
            let m = built.manifest@;
            let r = splitset_build::read_back(m);
            &&& r is Ok
            &&& r->Ok_0.policy == l.policy
            &&& r->Ok_0.byte_cap == l.byte_cap
            &&& r->Ok_0.gram_size == gram_size
            &&& r->Ok_0.body_kind == body_kind
            &&& r->Ok_0.base_count == l.specs@.len()
            &&& r->Ok_0.tier_count == l.tier(l.specs@.len())
            &&& r->Ok_0.case_fold() == l.case_normalization
            &&& r->Ok_0.has_facets() == l.has_facets
            &&& splitset::has_flag(r->Ok_0.flags as int, splitset::FLAG_BLOOM as int) == with_bloom
            &&& l.sortcol is None ==> r->Ok_0.sortcol is None
            &&& l.sortcol matches Some(sc) ==> sc.name@.len() > 0 ==> r->Ok_0.sortcol == Some(
                (splitset::SortColView {
                    name: sc.name@,
                    column: sc.column,
                    descending: sc.descending,
                }),
            )
        }),
{
    let c = choose|c: SplitSetConfig| #[trigger]
        l.configures(c, gram_size, body_kind, with_bloom) && write_error(l.specs@, c) is None
            && built.manifest@ == manifest_bytes(l.specs@, c);
    splitset_build::law_read_back(l.specs@, c);
    law_set_flags(l, with_bloom);
}

/// Sealing a term-bodied split without a language is refused where one is needed, for stems or
/// for stop words, before anything is written.
pub proof fn law_language_needed<F: Fn(Vec<FacetField>, bool) -> Result<Vec<u8>, BuildError>>(
    a: TermSplitSetBuilder,
    b: TermSplitSetBuilder,
    encode_facets: &F,
    r: Result<(), BuildError>,
)
    requires
        a.ledger().open_count > 0,
        a.seals(b, encode_facets, r),
    ensures
        a.settings().language is None && (a.settings().stem || a.settings().tokenizer.stopwords)
            ==> r == Err::<(), BuildError>(BuildError::NoLanguage) && b.ledger() == a.ledger(),
        r is Ok ==> a.settings().language is Some || !(a.settings().stem
            || a.settings().tokenizer.stopwords),
{
}

} // verus!
