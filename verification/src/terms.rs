//! The range-fetchable term index: boot, and the decisions of a query between its fetches.
//!
//! A file is `[header][router][dictionary blocks][postings region]`. Boot holds only the small
//! router. A query resolves its terms through the dictionary blocks that the router names,
//! fetches their head postings, and fetches tails only where the heads do not fill the page.

use crate::bitmap::{
    deserialize, duplicate, first_ids, ids, intersect_with, read_ids, take_ids, union_with,
};
use crate::bytes::{self, has_prefix, lex_lt, order_bytes, read_u16, read_u32, read_u64, starts_with, ByteOrder};
use crate::error::IndexError;
use crate::router::{
    self, ascending, checksum_holds, footer_fits, map_bytes, map_image, pairs, readable, streamed,
    well_made,
};
use crate::terms_dict::{
    block_entries, decoded, entries_from, iter_block, scan_block, scan_entries, unpack_loc,
    BlockCursor, BlockIter, Decoded, SIZE_LIMIT,
};
use crate::text;
use crate::tokenize::{folded, texts, Tokenizer};
use fst::Map as FstMap;
use roaring::RoaringBitmap;
use vstd::prelude::*;
use vstd::utf8::{decode_utf8, encode_utf8, valid_utf8};

verus! {

/// Header size in bytes.
pub const HEADER_SIZE: usize = 40;

/// Format version: the blocked dictionary with a router.
pub const VERSION: u16 = 2;

/// The magic bytes.
pub open spec fn magic() -> Seq<u8> {
    seq![0x52u8, 0x52u8, 0x54u8, 0x49u8]
}

/// The header's fields.
#[derive(Debug, Clone, Copy, PartialEq, Eq, Structural)]
pub struct TermHeader {
    /// Tokenizer flags.
    pub flags: u16,
    /// Number of distinct terms.
    pub term_count: u32,
    /// The doc-ID head/tail split of the postings.
    pub head_boundary: u32,
    /// Length of the router.
    pub router_len: u64,
    /// Length of the dictionary blocks.
    pub dict_len: u64,
    /// Stemmer language byte.
    pub language: u8,
}

/// The header that `h` starts with.
pub open spec fn header_of(h: Seq<u8>) -> Result<TermHeader, IndexError> {
    if h.len() < HEADER_SIZE {
        Err(IndexError::Malformed("short RRTI header"))
    } else if h.take(4) != magic() {
        Err(IndexError::BadMagic([h[0], h[1], h[2], h[3]]))
    } else if bytes::u16_at(h, 4) != VERSION {
        Err(IndexError::BadVersion(bytes::u16_at(h, 4)))
    } else {
        Ok(
            TermHeader {
                flags: bytes::u16_at(h, 6),
                term_count: bytes::u32_at(h, 8),
                head_boundary: bytes::u32_at(h, 12),
                router_len: bytes::u64_at(h, 16),
                dict_len: bytes::u64_at(h, 24),
                language: h[36],
            },
        )
    }
}

/// Reads the header: what a boot fetches first, to learn how long the router is.
pub fn parse_header(h: &[u8]) -> (r: Result<TermHeader, IndexError>)
    ensures
        r == header_of(h@),
{
    if h.len() < HEADER_SIZE {
        return Err(IndexError::Malformed("short RRTI header"));
    }
    let m: [u8; 4] = [h[0], h[1], h[2], h[3]];
    assert(h@.take(4) =~= seq![h@[0], h@[1], h@[2], h@[3]]);
    if m[0] != 0x52 || m[1] != 0x52 || m[2] != 0x54 || m[3] != 0x49 {
        proof {
            assert(m@ =~= h@.take(4));
            let t = h@.take(4);
            assert(!(t[0] == 0x52 && t[1] == 0x52 && t[2] == 0x54 && t[3] == 0x49));
            assert(t != magic());
        }
        return Err(IndexError::BadMagic(m));
    }
    assert(h@.take(4) =~= magic());
    let version: u16 = read_u16(h, 4);
    if version != VERSION {
        return Err(IndexError::BadVersion(version));
    }
    Ok(
        TermHeader {
            flags: read_u16(h, 6),
            term_count: read_u32(h, 8),
            head_boundary: read_u32(h, 12),
            router_len: read_u64(h, 16),
            dict_len: read_u64(h, 24),
            language: h[36],
        },
    )
}

/// `a`, held at the largest `u64`.
pub open spec fn held(a: int) -> u64 {
    if a <= u64::MAX {
        a as u64
    } else {
        u64::MAX
    }
}

/// What an open term index knows.
pub struct TermsView {
    /// The router's bytes.
    pub router: Seq<u8>,
    /// Offset of the dictionary blocks.
    pub dict_start: u64,
    /// Offset of the postings region.
    pub postings_offset: u64,
    /// The doc-ID head/tail split of the postings.
    pub head_boundary: u32,
    /// Number of distinct terms.
    pub term_count: u32,
    /// The tokenizer the index was built with.
    pub tokenizer: Tokenizer,
}

/// The byte range of the dictionary block at the packed location `packed`, its offset held at
/// the largest `u64`.
pub open spec fn block_at(dict_start: u64, packed: u64) -> (u64, usize) {
    (held(dict_start + packed / SIZE_LIMIT), (packed % SIZE_LIMIT) as usize)
}

impl TermsView {
    /// The index that a header and a router describe.
    pub open spec fn of(h: TermHeader, raw: Seq<u8>) -> TermsView {
        let dict_start = held(HEADER_SIZE + h.router_len);
        TermsView {
            router: raw,
            dict_start,
            postings_offset: held(dict_start + h.dict_len),
            head_boundary: h.head_boundary,
            term_count: h.term_count,
            tokenizer: Tokenizer::described(h.flags, h.language),
        }
    }

    /// The byte range of the dictionary block that could contain `term`: that of the first
    /// block whose last term does not sort before it.
    pub open spec fn block_range(self, term: Seq<u8>) -> Option<(u64, usize)> {
        let es = streamed(self.router, term);
        if es.len() == 0 {
            None
        } else {
            Some(block_at(self.dict_start, es[0].1))
        }
    }

    /// The byte ranges of all blocks from the one that could contain `term` on.
    pub open spec fn block_ranges(self, term: Seq<u8>) -> Seq<(u64, usize)> {
        streamed(self.router, term).map_values(
            |e: (Seq<u8>, u64)| block_at(self.dict_start, e.1),
        )
    }
}

/// A range-fetchable term index after its boot. It holds only the router, which is small: one
/// entry for each dictionary block, not for each term.
pub struct TermIndex {
    router: FstMap<Vec<u8>>,
    dict_start: u64,
    postings_offset: u64,
    head_boundary: u32,
    term_count: u32,
    tokenizer: Tokenizer,
}

impl View for TermIndex {
    type V = TermsView;

    closed spec fn view(&self) -> TermsView {
        TermsView {
            router: map_bytes(self.router),
            dict_start: self.dict_start,
            postings_offset: self.postings_offset,
            head_boundary: self.head_boundary,
            term_count: self.term_count,
            tokenizer: self.tokenizer,
        }
    }
}

/// The UTF-8 bytes of `terms`.
pub open spec fn encoded(terms: Seq<Seq<char>>) -> Seq<Seq<u8>> {
    terms.map_values(|t: Seq<char>| encode_utf8(t))
}

/// Whether `out` lists the byte strings of `ts`, each once and in ascending order.
pub open spec fn sorted_set(out: Seq<Seq<u8>>, ts: Seq<Seq<u8>>) -> bool {
    &&& strictly_sorted(out)
    &&& forall|t: Seq<u8>| out.contains(t) <==> ts.contains(t)
}

/// Whether `out` is in strictly ascending order.
pub open spec fn strictly_sorted(out: Seq<Seq<u8>>) -> bool {
    forall|i: int, j: int| 0 <= i < j < out.len() ==> lex_lt(#[trigger] out[i], #[trigger] out[j])
}

/// The byte strings of `v`.
pub open spec fn raws(v: Seq<Vec<u8>>) -> Seq<Seq<u8>> {
    v.map_values(|b: Vec<u8>| b@)
}

/// Inserts `term` into the ascending `terms` where it is missing.
fn insert_sorted(terms: &mut Vec<Vec<u8>>, term: Vec<u8>)
    requires
        strictly_sorted(raws(old(terms)@)),
    ensures
        strictly_sorted(raws(final(terms)@)),
        forall|t: Seq<u8>|
            raws(final(terms)@).contains(t) <==> raws(old(terms)@).contains(t) || t == term@,
{
    let ghost before = raws(terms@);
    let mut i: usize = 0;
    while i < terms.len()
        invariant
            i <= terms@.len(),
            before == raws(terms@),
            *terms == *old(terms),
            strictly_sorted(before),
            forall|j: int| 0 <= j < i ==> lex_lt(#[trigger] before[j], term@),
        decreases terms@.len() - i,
    {
        match order_bytes(terms[i].as_slice(), term.as_slice()) {
            ByteOrder::Before => {
                i += 1;
            },
            ByteOrder::Same => {
                assert(before[i as int] == term@);
                assert(before.contains(term@));
                return ;
            },
            ByteOrder::After => {
                proof {
                    lemma_inserted(before, term@, i as int);
                }
                let ghost t = term@;
                terms.insert(i, term);
                assert(raws(terms@) =~= before.insert(i as int, t));
                return ;
            },
        }
    }
    proof {
        lemma_inserted(before, term@, i as int);
    }
    let ghost t = term@;
    terms.push(term);
    assert(raws(terms@) =~= before.insert(i as int, t));
}

/// The UTF-8 bytes of `words`, each once and in ascending order.
pub fn sorted_terms(words: &[String]) -> (terms: Vec<Vec<u8>>)
    ensures
        sorted_set(raws(terms@), encoded(texts(words@))),
{
    let ghost all = encoded(texts(words@));
    let mut terms: Vec<Vec<u8>> = Vec::new();
    let mut i: usize = 0;
    while i < words.len()
        invariant
            i <= words@.len(),
            all == encoded(texts(words@)),
            strictly_sorted(raws(terms@)),
            forall|t: Seq<u8>| raws(terms@).contains(t) <==> all.take(i as int).contains(t),
        decreases words@.len() - i,
    {
        let raw = text::bytes_of(words[i].as_str());
        let term = bytes::copy_range(raw, 0, raw.len());
        proof {
            assert(term@ =~= encode_utf8(words@[i as int]@));
            assert(all[i as int] == term@);
            let t0 = all.take(i as int);
            assert(all.take(i + 1) =~= t0.push(term@));
            assert forall|t: Seq<u8>| t0.push(term@).contains(t) <==> t0.contains(t) || t
                == term@ by {
                if t0.contains(t) {
                    let k = choose|k: int| 0 <= k < t0.len() && t0[k] == t;
                    assert(t0.push(term@)[k] == t);
                }
                assert(t0.push(term@)[t0.len() as int] == term@);
            }
        }
        insert_sorted(&mut terms, term);
        i += 1;
    }
    assert(all.take(i as int) =~= all);
    terms
}

/// A term inserted at its slot leaves the terms ascending.
pub proof fn lemma_inserted(terms: Seq<Seq<u8>>, term: Seq<u8>, i: int)
    requires
        strictly_sorted(terms),
        0 <= i <= terms.len(),
        forall|j: int| 0 <= j < i ==> lex_lt(#[trigger] terms[j], term),
        i < terms.len() ==> lex_lt(term, terms[i]),
    ensures
        strictly_sorted(terms.insert(i, term)),
        forall|t: Seq<u8>|
            #[trigger] terms.insert(i, term).contains(t) <==> terms.contains(t) || t == term,
{
    let out = terms.insert(i, term);
    assert forall|a: int, b: int| 0 <= a < b < out.len() implies lex_lt(
        #[trigger] out[a],
        #[trigger] out[b],
    ) by {
        if a < i && b > i {
            assert(out[a] == terms[a] && out[b] == terms[b - 1]);
        } else if a > i {
            assert(out[a] == terms[a - 1] && out[b] == terms[b - 1]);
        } else if b < i {
            assert(out[a] == terms[a] && out[b] == terms[b]);
        } else if b == i {
            assert(out[a] == terms[a] && out[b] == term);
        } else {
            assert(out[a] == term && out[b] == terms[b - 1]);
            if b - 1 > i {
                bytes::lemma_lex_trans(term, terms[i], terms[b - 1]);
            }
        }
    }
    assert forall|t: Seq<u8>| #[trigger] out.contains(t) <==> terms.contains(t) || t == term by {
        if out.contains(t) {
            let k = choose|k: int| 0 <= k < out.len() && out[k] == t;
            if k < i {
                assert(terms[k] == t);
            } else if k > i {
                assert(terms[k - 1] == t);
            }
        }
        if terms.contains(t) {
            let k = choose|k: int| 0 <= k < terms.len() && terms[k] == t;
            if k < i {
                assert(out[k] == t);
            } else {
                assert(out[k + 1] == t);
            }
        }
        assert(out[i] == term);
    }
}

/// The terms of `terms` that some dictionary block could contain; `None` where one cannot be
/// there and `lenient` is not set.
pub open spec fn routable(v: TermsView, terms: Seq<Seq<u8>>, lenient: bool) -> Option<Seq<Seq<u8>>>
    decreases terms.len(),
{
    if terms.len() == 0 {
        Some(Seq::empty())
    } else {
        match routable(v, terms.drop_last(), lenient) {
            None => None,
            Some(kept) => match v.block_range(terms.last()) {
                Some(_) => Some(kept.push(terms.last())),
                None => if lenient {
                    Some(kept)
                } else {
                    None
                },
            },
        }
    }
}

/// What to fetch to resolve a query's terms: each distinct dictionary block once, since a
/// query's terms often share one.
#[derive(Debug)]
pub struct Lookup {
    /// The terms to look up, as UTF-8.
    pub terms: Vec<Vec<u8>>,
    /// The byte ranges of the dictionary blocks to fetch, no two the same.
    pub ranges: Vec<(u64, usize)>,
    /// For each term, the range among `ranges` to look in.
    pub block_of: Vec<usize>,
}

impl Lookup {
    /// Every term has its range, and no range is there twice or for nothing.
    pub open spec fn wf(self, v: TermsView) -> bool {
        &&& self.terms@.len() == self.block_of@.len()
        &&& forall|i: int|
            0 <= i < self.terms@.len() ==> #[trigger] self.block_of@[i] < self.ranges@.len()
                && v.block_range(self.terms@[i]@) == Some(
                self.ranges@[self.block_of@[i] as int],
            )
        &&& forall|a: int, b: int|
            0 <= a < b < self.ranges@.len() ==> self.ranges@[a] != self.ranges@[b]
        &&& forall|a: usize|
            a < self.ranges@.len() ==> #[trigger] self.block_of@.contains(a)
    }
}

/// The locations found for the first `n` terms, each scanned for in its fetched block; `None`
/// where one is missing and `lenient` is not set.
pub open spec fn found(
    terms: Seq<Vec<u8>>,
    block_of: Seq<usize>,
    blocks: Seq<Vec<u8>>,
    lenient: bool,
    n: nat,
) -> Option<Seq<(u64, usize)>>
    decreases n,
{
    if n == 0 {
        Some(Seq::empty())
    } else {
        match found(terms, block_of, blocks, lenient, (n - 1) as nat) {
            None => None,
            Some(locs) => match scan_entries(
                block_entries(blocks[block_of[n - 1] as int]@),
                terms[n - 1]@,
            ) {
                Some(loc) => Some(locs.push(loc)),
                None => if lenient {
                    Some(locs)
                } else {
                    None
                },
            },
        }
    }
}

proof fn lemma_routable_none(v: TermsView, terms: Seq<Seq<u8>>, i: int)
    requires
        0 <= i < terms.len(),
        v.block_range(terms[i]) is None,
    ensures
        routable(v, terms, false) is None,
    decreases terms.len(),
{
    if i < terms.len() - 1 {
        assert(terms.drop_last()[i] == terms[i]);
        lemma_routable_none(v, terms.drop_last(), i);
    }
}

proof fn lemma_found_none(
    terms: Seq<Vec<u8>>,
    block_of: Seq<usize>,
    blocks: Seq<Vec<u8>>,
    i: nat,
    n: nat,
)
    requires
        i < n,
        scan_entries(block_entries(blocks[block_of[i as int] as int]@), terms[i as int]@) is None,
    ensures
        found(terms, block_of, blocks, false, n) is None,
    decreases n,
{
    if i < n - 1 {
        lemma_found_none(terms, block_of, blocks, i, (n - 1) as nat);
    }
}

/// Position of `r` among `ranges`.
fn range_pos(ranges: &[(u64, usize)], r: (u64, usize)) -> (at: Option<usize>)
    ensures
        match at {
            Some(i) => i < ranges@.len() && ranges@[i as int] == r,
            None => forall|i: int| 0 <= i < ranges@.len() ==> ranges@[i] != r,
        },
{
    let mut i: usize = 0;
    while i < ranges.len()
        invariant
            i <= ranges@.len(),
            forall|j: int| 0 <= j < i ==> ranges@[j] != r,
        decreases ranges@.len() - i,
    {
        if ranges[i].0 == r.0 && ranges[i].1 == r.1 {
            return Some(i);
        }
        i += 1;
    }
    None
}

impl TermIndex {
    #[verifier::type_invariant]
    closed spec fn checked(self) -> bool {
        well_made(map_bytes(self.router))
    }

    /// Boots the index from its header and its router, which the header says the length of.
    /// The router's checksum is verified up front, so that a corrupted router is refused here
    /// and not met in a query. A router whose checksum holds is one that the builder wrote.
    pub fn open(header: &[u8], raw: Vec<u8>) -> (r: Result<TermIndex, IndexError>)
        requires
            footer_fits(raw@) && readable(raw@) && checksum_holds(raw@) ==> well_made(raw@),
        ensures
            match header_of(header@) {
                Err(e) => r == Err::<TermIndex, _>(e),
                Ok(h) => if !footer_fits(raw@) || !readable(raw@) {
                    r == Err::<TermIndex, _>(IndexError::Malformed("RRTI invalid router FST"))
                } else if !checksum_holds(raw@) {
                    r == Err::<TermIndex, _>(
                        IndexError::Malformed("RRTI router FST failed checksum"),
                    )
                } else {
                    r matches Ok(t) && t@ == TermsView::of(h, raw@)
                },
            },
    {
        let h = match parse_header(header) {
            Ok(h) => h,
            Err(e) => return Err(e),
        };
        let tokenizer = Tokenizer::from_header(h.flags, h.language);
        if !router::fits(raw.as_slice()) {
            return Err(IndexError::Malformed("RRTI invalid router FST"));
        }
        let map = match router::read_map(raw) {
            Some(map) => map,
            None => return Err(IndexError::Malformed("RRTI invalid router FST")),
        };
        if !router::verify_map(&map) {
            return Err(IndexError::Malformed("RRTI router FST failed checksum"));
        }
        let dict_start: u64 = (HEADER_SIZE as u64).saturating_add(h.router_len);
        Ok(
            TermIndex {
                router: map,
                dict_start,
                postings_offset: dict_start.saturating_add(h.dict_len),
                head_boundary: h.head_boundary,
                term_count: h.term_count,
                tokenizer,
            },
        )
    }

    /// Boots the index from a router that may be forged, given the `routes` that it is to hold:
    /// `None` where they are not in order, or where the builder would have written other bytes
    /// for them on this machine.
    pub fn open_routed(header: &[u8], raw: Vec<u8>, routes: &[(Vec<u8>, u64)]) -> (r: Option<
        Result<TermIndex, IndexError>,
    >)
        ensures
            r is Some <==> ascending(pairs(routes@)) && raw@ == map_image(
                usize::BITS as nat,
                pairs(routes@),
            ),
            r matches Some(opened) ==> match header_of(header@) {
                Err(e) => opened == Err::<TermIndex, _>(e),
                Ok(h) => opened matches Ok(t) && t@ == TermsView::of(h, raw@),
            },
    {
        let want = match router::map_of(routes) {
            Some(want) => want,
            None => return None,
        };
        assert(want@.subrange(0, want@.len() as int) =~= want@);
        if raw.len() != want.len() || !bytes::starts_with(raw.as_slice(), want.as_slice()) {
            return None;
        }
        assert(raw@ =~= want@);
        Some(TermIndex::open(header, raw))
    }

    /// Number of distinct terms in the dictionary.
    pub fn len(&self) -> (n: u32)
        ensures
            n == self@.term_count,
    {
        self.term_count
    }

    /// Whether the dictionary is empty.
    pub fn is_empty(&self) -> (yes: bool)
        ensures
            yes == (self@.term_count == 0),
    {
        self.term_count == 0
    }

    /// The doc-ID head/tail boundary of the postings.
    pub fn head_boundary(&self) -> (b: u32)
        ensures
            b == self@.head_boundary,
    {
        self.head_boundary
    }

    /// Bytes held resident after boot: the header and the router. The dictionary blocks stay
    /// on the wire.
    pub fn resident_len(&self) -> (n: u64)
        ensures
            n == self@.dict_start,
    {
        self.dict_start
    }

    /// The tokenizer the index was built with.
    pub fn tokenizer(&self) -> (t: &Tokenizer)
        ensures
            *t == self@.tokenizer,
    {
        &self.tokenizer
    }

    /// Byte range of the dictionary block that could contain `term`: the first block whose
    /// last term is not before it (a resident lookup, no fetch). `None` when `term` sorts past
    /// every block, so that it is absent.
    pub fn block_range_for(&self, term: &[u8]) -> (r: Option<(u64, usize)>)
        ensures
            r == self@.block_range(term@),
    {
        proof {
            use_type_invariant(self);
        }
        match router::first_value(&self.router, term) {
            None => None,
            Some(packed) => {
                let loc = unpack_loc(packed);
                Some((self.dict_start.saturating_add(loc.0), loc.1))
            },
        }
    }

    /// Byte ranges of the dictionary blocks from the one that could contain `term` on.
    fn block_ranges_from(&self, term: &[u8]) -> (out: Vec<(u64, usize)>)
        ensures
            out@ == self@.block_ranges(term@),
    {
        proof {
            use_type_invariant(self);
        }
        let es = router::entries(&self.router, term);
        let mut out: Vec<(u64, usize)> = Vec::new();
        let ghost want = self@.block_ranges(term@);
        let mut i: usize = 0;
        while i < es.len()
            invariant
                i <= es@.len(),
                want == self@.block_ranges(term@),
                router::pairs(es@) == streamed(self@.router, term@),
                out@ == want.take(i as int),
            decreases es@.len() - i,
        {
            let loc = unpack_loc(es[i].1);
            out.push((self.dict_start.saturating_add(loc.0), loc.1));
            proof {
                assert(router::pairs(es@)[i as int].1 == es@[i as int].1);
                assert(want[i as int] == out@[i as int]);
                assert(out@ =~= want.take(i + 1));
            }
            i += 1;
        }
        assert(router::pairs(es@).len() == es@.len());
        assert(want.take(i as int) =~= want);
        out
    }

    /// Every dictionary block's `(offset, len)` in term order, from the resident router.
    pub fn dict_block_locs(&self) -> (out: Vec<(u64, usize)>)
        ensures
            out@ == self@.block_ranges(Seq::empty()),
    {
        let none: Vec<u8> = Vec::new();
        assert(none@ =~= Seq::<u8>::empty());
        self.block_ranges_from(none.as_slice())
    }

    /// The terms of `query`, tokenized as the corpus was, each once and in ascending byte
    /// order.
    pub fn query_terms(&self, query: &str) -> (terms: Vec<Vec<u8>>)
        ensures
            sorted_set(raws(terms@), encoded(self@.tokenizer.terms(query@))),
    {
        let words = self.tokenizer.tokenize(query);
        sorted_terms(words.as_slice())
    }

    /// Plans the lookup of `terms`. In strict mode (`lenient` not set) a term that no block can
    /// contain abandons the query with `None`; in lenient mode such terms are dropped.
    pub fn plan(&self, terms: Vec<Vec<u8>>, lenient: bool) -> (plan: Option<Lookup>)
        ensures
            match plan {
                Some(l) => l.wf(self@) && routable(self@, raws(terms@), lenient) == Some(
                    raws(l.terms@),
                ),
                None => routable(self@, raws(terms@), lenient) is None,
            },
    {
        let ghost all = raws(terms@);
        let mut l = Lookup { terms: Vec::new(), ranges: Vec::new(), block_of: Vec::new() };
        let mut i: usize = 0;
        assert(all.take(0) =~= Seq::<Seq<u8>>::empty());
        assert(raws(l.terms@) =~= Seq::<Seq<u8>>::empty());
        while i < terms.len()
            invariant
                i <= terms@.len(),
                all == raws(terms@),
                l.wf(self@),
                routable(self@, all.take(i as int), lenient) == Some(raws(l.terms@)),
            decreases terms@.len() - i,
        {
            let ghost before = l;
            assert(all.take(i + 1).drop_last() =~= all.take(i as int));
            match self.block_range_for(terms[i].as_slice()) {
                None => {
                    if !lenient {
                        proof {
                            lemma_routable_none(self@, all, i as int);
                        }
                        return None;
                    }
                },
                Some(r) => {
                    let at: usize = match range_pos(l.ranges.as_slice(), r) {
                        Some(at) => at,
                        None => {
                            l.ranges.push(r);
                            l.ranges.len() - 1
                        },
                    };
                    l.terms.push(bytes::copy_range(terms[i].as_slice(), 0, terms[i].len()));
                    l.block_of.push(at);
                    proof {
                        assert(l.terms@.last()@ =~= all[i as int]);
                        assert(raws(l.terms@) =~= raws(before.terms@).push(all[i as int]));
                        assert forall|k: int| 0 <= k < l.terms@.len() implies
                            #[trigger] l.block_of@[k] < l.ranges@.len() && self@.block_range(
                            l.terms@[k]@,
                        ) == Some(l.ranges@[l.block_of@[k] as int]) by {
                            if k < before.terms@.len() {
                                assert(before.block_of@[k] == l.block_of@[k]);
                            }
                        }
                        assert forall|a: usize|
                            a < l.ranges@.len() implies #[trigger] l.block_of@.contains(a) by {
                            if a < before.ranges@.len() {
                                assert(before.block_of@.contains(a));
                                let k = choose|k: int|
                                    0 <= k < before.block_of@.len() && before.block_of@[k] == a;
                                assert(l.block_of@[k] == a);
                            } else {
                                assert(l.block_of@[before.block_of@.len() as int] == a);
                            }
                        }
                    }
                },
            }
            i += 1;
        }
        assert(all.take(i as int) =~= all);
        Some(l)
    }
}

/// Looks the planned terms up in their fetched blocks: the posting locations in term order. In
/// strict mode a missing term abandons the query with `None`; in lenient mode it is dropped.
pub fn resolve_locs(l: &Lookup, blocks: &[Vec<u8>], lenient: bool) -> (locs: Option<
    Vec<(u64, usize)>,
>)
    requires
        l.terms@.len() == l.block_of@.len(),
        forall|i: int|
            0 <= i < l.block_of@.len() ==> #[trigger] l.block_of@[i] < blocks@.len(),
    ensures
        match locs {
            Some(v) => found(l.terms@, l.block_of@, blocks@, lenient, l.terms@.len()) == Some(v@),
            None => found(l.terms@, l.block_of@, blocks@, lenient, l.terms@.len()) is None,
        },
{
    let mut locs: Vec<(u64, usize)> = Vec::new();
    let mut i: usize = 0;
    assert(locs@ =~= Seq::<(u64, usize)>::empty());
    while i < l.terms.len()
        invariant
            i <= l.terms@.len(),
            l.terms@.len() == l.block_of@.len(),
            forall|i: int|
                0 <= i < l.block_of@.len() ==> #[trigger] l.block_of@[i] < blocks@.len(),
            found(l.terms@, l.block_of@, blocks@, lenient, i as nat) == Some(locs@),
        decreases l.terms@.len() - i,
    {
        let at: usize = l.block_of[i];
        match scan_block(blocks[at].as_slice(), l.terms[i].as_slice()) {
            Some(loc) => {
                locs.push(loc);
            },
            None => {
                if !lenient {
                    proof {
                        lemma_found_none(
                            l.terms@,
                            l.block_of@,
                            blocks@,
                            i as nat,
                            l.terms@.len(),
                        );
                    }
                    return None;
                }
            },
        }
        i += 1;
    }
    Some(locs)
}

/// A term's head posting and where its tail is, for a lazy second fetch.
pub struct HeadBlock {
    /// The term's docs below the head boundary.
    pub head: RoaringBitmap,
    /// Offset of the tail.
    pub tail_off: u64,
    /// Length of the tail.
    pub tail_size: usize,
}

impl TermsView {
    /// The byte range of the head posting at `(head_off, head_size)`, with its length word.
    pub open spec fn head_range(self, head_off: u64, head_size: usize) -> Result<
        (u64, usize),
        IndexError,
    > {
        if self.postings_offset + head_off > u64::MAX {
            Err(IndexError::Malformed("RRTI head posting offset overflow"))
        } else if head_size + 4 > usize::MAX {
            Err(IndexError::Malformed("RRTI head posting size overflow"))
        } else {
            Ok(((self.postings_offset + head_off) as u64, (head_size + 4) as usize))
        }
    }
}

/// What the fetched `block` of the range `(base, want)` says: the head's docs, and the offset
/// and the length of the tail.
pub open spec fn head_of(base: u64, want: usize, block: Seq<u8>) -> Result<
    (Set<u32>, u64, usize),
    IndexError,
> {
    if block.len() < want {
        Err(IndexError::Malformed("RRTI short term posting block"))
    } else {
        match read_ids(block.subrange(4, want as int)) {
            None => Err(IndexError::Malformed("unreadable roaring posting")),
            Some(docs) => if base + want > u64::MAX {
                Err(IndexError::Malformed("RRTI tail offset overflow"))
            } else {
                Ok((docs, (base + want) as u64, bytes::u32_at(block, 0) as usize))
            },
        }
    }
}

impl TermIndex {
    /// The byte range to fetch for the head posting at `(head_off, head_size)`. Both come from
    /// the dictionary, which is not trusted: a sum that overflows is an error.
    pub fn head_range(&self, head_off: u64, head_size: usize) -> (r: Result<
        (u64, usize),
        IndexError,
    >)
        ensures
            r == self@.head_range(head_off, head_size),
    {
        let base: u64 = match self.postings_offset.checked_add(head_off) {
            Some(base) => base,
            None => return Err(IndexError::Malformed("RRTI head posting offset overflow")),
        };
        let want: usize = match head_size.checked_add(4) {
            Some(want) => want,
            None => return Err(IndexError::Malformed("RRTI head posting size overflow")),
        };
        Ok((base, want))
    }

    /// The query prefix as the index's tokenizer would have written it: in lower case for a
    /// case-folding index, verbatim for a case-sensitive one. Prefixes are not stemmed.
    pub fn fold_prefix(&self, prefix: &str) -> (p: String)
        ensures
            p@ == folded(prefix@, self@.tokenizer.case_fold),
    {
        crate::tokenize::fold(prefix, self.tokenizer.case_fold)
    }

    /// Byte ranges of the dictionary blocks that can hold terms starting with `p`, in order:
    /// those whose last term is not before it.
    pub fn prefix_ranges(&self, p: &str) -> (out: Vec<(u64, usize)>)
        ensures
            out@ == self@.block_ranges(encode_utf8(p@)),
    {
        self.block_ranges_from(text::bytes_of(p))
    }
}

/// Reads a term's head posting from the fetched range `(base, want)`, and learns its tail's
/// location.
pub fn head_block(base: u64, want: usize, block: &[u8]) -> (r: Result<HeadBlock, IndexError>)
    requires
        want >= 4,
    ensures
        match r {
            Ok(h) => head_of(base, want, block@) == Ok::<_, IndexError>(
                (ids(h.head), h.tail_off, h.tail_size),
            ),
            Err(e) => head_of(base, want, block@) == Err::<(Set<u32>, u64, usize), _>(e),
        },
{
    if block.len() < want {
        return Err(IndexError::Malformed("RRTI short term posting block"));
    }
    let tail_size: usize = read_u32(block, 0) as usize;
    let head = match deserialize(vstd::slice::slice_subrange(block, 4, want)) {
        Ok(head) => head,
        Err(e) => return Err(e),
    };
    match base.checked_add(want as u64) {
        Some(tail_off) => Ok(HeadBlock { head, tail_off, tail_size }),
        None => Err(IndexError::Malformed("RRTI tail offset overflow")),
    }
}

/// What the fetched `raw` of a tail of `tail_size` bytes holds. A tail of no bytes is empty and
/// is not fetched.
pub open spec fn tail_of(tail_size: usize, raw: Seq<u8>) -> Option<Set<u32>> {
    if tail_size == 0 {
        Some(Set::empty())
    } else {
        read_ids(raw)
    }
}

/// Reads a term's tail posting.
pub fn tail_posting(tail_size: usize, raw: &[u8]) -> (r: Result<RoaringBitmap, IndexError>)
    ensures
        match r {
            Ok(b) => tail_of(tail_size, raw@) == Some(ids(b)),
            Err(e) => tail_of(tail_size, raw@) is None && e == IndexError::Malformed(
                "unreadable roaring posting",
            ),
        },
{
    if tail_size == 0 {
        return Ok(RoaringBitmap::new());
    }
    deserialize(raw)
}

/// The docs of the head and of the tail.
pub fn full_posting(block: HeadBlock, tail: &RoaringBitmap) -> (b: RoaringBitmap)
    ensures
        ids(b) == ids(block.head).union(ids(*tail)),
{
    let mut full = block.head;
    union_with(&mut full, tail);
    full
}

/// The docs of each head.
pub open spec fn head_sets(blocks: Seq<HeadBlock>) -> Seq<Set<u32>> {
    blocks.map_values(|b: HeadBlock| ids(b.head))
}

/// The docs of each head and its tail together.
pub open spec fn full_sets(blocks: Seq<HeadBlock>, tails: Seq<RoaringBitmap>) -> Seq<Set<u32>> {
    Seq::new(blocks.len(), |i: int| ids(blocks[i].head).union(ids(tails[i])))
}

/// The docs that every one of `sets` holds; none where there are no sets.
pub open spec fn in_all(sets: Seq<Set<u32>>) -> Set<u32> {
    Set::new(
        |x: u32|
            sets.len() > 0 && forall|i: int| 0 <= i < sets.len() ==> (#[trigger] sets[i]).contains(x),
    )
}

/// The docs that one of `sets` holds.
pub open spec fn in_any(sets: Seq<Set<u32>>) -> Set<u32> {
    Set::new(
        |x: u32| exists|i: int| 0 <= i < sets.len() && (#[trigger] sets[i]).contains(x),
    )
}

/// Whether some block has a tail.
pub open spec fn has_tail(blocks: Seq<HeadBlock>) -> bool {
    exists|i: int| 0 <= i < blocks.len() && (#[trigger] blocks[i]).tail_size > 0
}

/// The page of the heads' docs `docs`: the first `limit` of them, where they fill it or no tail
/// could add to it; `None` where the tails are needed.
pub open spec fn head_page(docs: Set<u32>, blocks: Seq<HeadBlock>, limit: usize) -> Option<
    Seq<u32>,
> {
    if docs.len() >= limit || !has_tail(blocks) {
        Some(first_ids(docs, limit as nat))
    } else {
        None
    }
}

fn any_tail(blocks: &[HeadBlock]) -> (yes: bool)
    ensures
        yes == has_tail(blocks@),
{
    let mut i: usize = 0;
    while i < blocks.len()
        invariant
            i <= blocks@.len(),
            forall|j: int| 0 <= j < i ==> (#[trigger] blocks@[j]).tail_size == 0,
        decreases blocks@.len() - i,
    {
        if blocks[i].tail_size > 0 {
            assert(blocks@[i as int].tail_size > 0);
            return true;
        }
        i += 1;
    }
    false
}

/// The index of the first bitmap with the fewest docs.
fn smallest(sets: &[RoaringBitmap]) -> (at: usize)
    requires
        sets@.len() > 0,
    ensures
        at < sets@.len(),
        forall|j: int|
            0 <= j < sets@.len() ==> ids(sets@[at as int]).len() <= ids(#[trigger] sets@[j]).len(),
        forall|j: int|
            0 <= j < at ==> ids(sets@[at as int]).len() < ids(#[trigger] sets@[j]).len(),
{
    let mut at: usize = 0;
    let mut i: usize = 1;
    while i < sets.len()
        invariant
            at < i <= sets@.len(),
            forall|j: int|
                0 <= j < i ==> ids(sets@[at as int]).len() <= ids(#[trigger] sets@[j]).len(),
            forall|j: int|
                0 <= j < at ==> ids(sets@[at as int]).len() < ids(#[trigger] sets@[j]).len(),
        decreases sets@.len() - i,
    {
        if sets[i].len() < sets[at].len() {
            at = i;
        }
        i += 1;
    }
    at
}

spec fn bitmap_sets(sets: Seq<RoaringBitmap>) -> Seq<Set<u32>> {
    sets.map_values(|b: RoaringBitmap| ids(b))
}

/// The docs in all of `sets`, the smallest first.
fn and_sets(sets: &[RoaringBitmap]) -> (acc: RoaringBitmap)
    ensures
        ids(acc) == in_all(bitmap_sets(sets@)),
{
    if sets.len() == 0 {
        let none = RoaringBitmap::new();
        assert(ids(none) =~= in_all(bitmap_sets(sets@)));
        return none;
    }
    let at = smallest(sets);
    let mut acc = duplicate(&sets[at]);
    let mut i: usize = 0;
    let ghost all = bitmap_sets(sets@);
    while i < sets.len()
        invariant
            i <= sets@.len(),
            at < sets@.len(),
            all == bitmap_sets(sets@),
            forall|x: u32|
                ids(acc).contains(x) <==> all[at as int].contains(x) && forall|j: int|
                    0 <= j < i ==> (#[trigger] all[j]).contains(x),
        decreases sets@.len() - i,
    {
        intersect_with(&mut acc, &sets[i]);
        assert(all[i as int] == ids(sets@[i as int]));
        if acc.is_empty() {
            proof {
                assert forall|x: u32| !in_all(all).contains(x) by {
                    if in_all(all).contains(x) {
                        assert(all[at as int].contains(x));
                        assert(all[i as int].contains(x));
                        assert(ids(acc).contains(x));
                    }
                }
                assert(ids(acc) =~= in_all(all));
            }
            return acc;
        }
        i += 1;
    }
    assert(ids(acc) =~= in_all(all));
    acc
}

/// The docs in any of `sets`.
fn or_sets(sets: &[RoaringBitmap]) -> (acc: RoaringBitmap)
    ensures
        ids(acc) == in_any(bitmap_sets(sets@)),
{
    let mut acc = RoaringBitmap::new();
    let mut i: usize = 0;
    let ghost all = bitmap_sets(sets@);
    while i < sets.len()
        invariant
            i <= sets@.len(),
            all == bitmap_sets(sets@),
            forall|x: u32|
                ids(acc).contains(x) <==> exists|j: int|
                    0 <= j < i && (#[trigger] all[j]).contains(x),
        decreases sets@.len() - i,
    {
        let ghost before = ids(acc);
        union_with(&mut acc, &sets[i]);
        proof {
            assert(all[i as int] == ids(sets@[i as int]));
            assert forall|x: u32|
                ids(acc).contains(x) <==> exists|j: int|
                    0 <= j < i + 1 && (#[trigger] all[j]).contains(x) by {
                if before.contains(x) {
                    let j = choose|j: int| 0 <= j < i && (#[trigger] all[j]).contains(x);
                    assert(0 <= j < i + 1 && all[j].contains(x));
                }
                if all[i as int].contains(x) {
                    assert(0 <= i < i + 1 && all[i as int].contains(x));
                }
            }
        }
        i += 1;
    }
    assert(ids(acc) =~= in_any(all));
    acc
}

fn heads_of(blocks: &[HeadBlock]) -> (sets: Vec<RoaringBitmap>)
    ensures
        bitmap_sets(sets@) == head_sets(blocks@),
{
    let mut sets: Vec<RoaringBitmap> = Vec::new();
    let mut i: usize = 0;
    while i < blocks.len()
        invariant
            i <= blocks@.len(),
            sets@.len() == i,
            forall|j: int| 0 <= j < i ==> ids(#[trigger] sets@[j]) == ids(blocks@[j].head),
        decreases blocks@.len() - i,
    {
        sets.push(duplicate(&blocks[i].head));
        i += 1;
    }
    assert(bitmap_sets(sets@) =~= head_sets(blocks@));
    sets
}

fn fulls_of(blocks: &[HeadBlock], tails: &[RoaringBitmap]) -> (sets: Vec<RoaringBitmap>)
    requires
        blocks@.len() == tails@.len(),
    ensures
        bitmap_sets(sets@) == full_sets(blocks@, tails@),
{
    let mut sets: Vec<RoaringBitmap> = Vec::new();
    let mut i: usize = 0;
    while i < blocks.len()
        invariant
            blocks@.len() == tails@.len(),
            i <= blocks@.len(),
            sets@.len() == i,
            forall|j: int|
                0 <= j < i ==> ids(#[trigger] sets@[j]) == ids(blocks@[j].head).union(
                    ids(tails@[j]),
                ),
        decreases blocks@.len() - i,
    {
        let mut full = duplicate(&blocks[i].head);
        union_with(&mut full, &tails[i]);
        sets.push(full);
        i += 1;
    }
    assert(bitmap_sets(sets@) =~= full_sets(blocks@, tails@));
    sets
}

fn page_of_heads(docs: &RoaringBitmap, blocks: &[HeadBlock], limit: usize) -> (page: Option<
    Vec<u32>,
>)
    ensures
        match page {
            Some(v) => head_page(ids(*docs), blocks@, limit) == Some(v@),
            None => head_page(ids(*docs), blocks@, limit) is None,
        },
{
    if docs.len() >= limit as u64 || !any_tail(blocks) {
        Some(take_ids(docs, limit))
    } else {
        None
    }
}

/// The first wave of a strict-AND query: the first `limit` docs, ascending, that every head
/// holds. Ascending doc ID is descending rank, and the heads hold the top-ranked docs, so they
/// usually fill the page; `None` where they do not and a tail exists.
pub fn and_heads(blocks: &[HeadBlock], limit: usize) -> (page: Option<Vec<u32>>)
    ensures
        match page {
            Some(v) => head_page(in_all(head_sets(blocks@)), blocks@, limit) == Some(v@),
            None => head_page(in_all(head_sets(blocks@)), blocks@, limit) is None,
        },
{
    let acc = and_sets(heads_of(blocks).as_slice());
    page_of_heads(&acc, blocks, limit)
}

/// The second wave of a strict-AND query: the first `limit` docs, ascending, that every full
/// posting holds.
pub fn and_full(blocks: &[HeadBlock], tails: &[RoaringBitmap], limit: usize) -> (page: Vec<u32>)
    requires
        blocks@.len() == tails@.len(),
    ensures
        page@ == first_ids(in_all(full_sets(blocks@, tails@)), limit as nat),
{
    let acc = and_sets(fulls_of(blocks, tails).as_slice());
    take_ids(&acc, limit)
}

/// The first wave of a prefix query: the first `limit` docs, ascending, that some head holds;
/// `None` where they do not fill the page and a tail exists.
pub fn union_heads(blocks: &[HeadBlock], limit: usize) -> (page: Option<Vec<u32>>)
    ensures
        match page {
            Some(v) => head_page(in_any(head_sets(blocks@)), blocks@, limit) == Some(v@),
            None => head_page(in_any(head_sets(blocks@)), blocks@, limit) is None,
        },
{
    let acc = or_sets(heads_of(blocks).as_slice());
    page_of_heads(&acc, blocks, limit)
}

/// The second wave of a prefix query: the first `limit` docs, ascending, that some full posting
/// holds.
pub fn union_full(blocks: &[HeadBlock], tails: &[RoaringBitmap], limit: usize) -> (page: Vec<u32>)
    requires
        blocks@.len() == tails@.len(),
    ensures
        page@ == first_ids(in_any(full_sets(blocks@, tails@)), limit as nat),
{
    let acc = or_sets(fulls_of(blocks, tails).as_slice());
    take_ids(&acc, limit)
}

/// A page that the heads fill is the page of the full postings: the first wave of a strict-AND
/// query never returns what the second would not.
pub proof fn law_and_waves_agree(fulls: Seq<Set<u32>>, boundary: u32, limit: nat)
    requires
        in_all(fulls.map_values(|s: Set<u32>| crate::bitmap::below(s, boundary))).len() >= limit,
    ensures
        first_ids(
            in_all(fulls.map_values(|s: Set<u32>| crate::bitmap::below(s, boundary))),
            limit,
        ) == first_ids(in_all(fulls), limit),
{
    let heads = fulls.map_values(|s: Set<u32>| crate::bitmap::below(s, boundary));
    assert forall|x: u32|
        in_all(heads).contains(x) <==> crate::bitmap::below(in_all(fulls), boundary).contains(x) by {
        if in_all(heads).contains(x) {
            assert forall|i: int| 0 <= i < fulls.len() implies (#[trigger] fulls[i]).contains(
                x,
            ) by {
                assert(heads[i].contains(x));
            }
            assert(heads[0].contains(x));
        }
        if crate::bitmap::below(in_all(fulls), boundary).contains(x) {
            assert forall|i: int| 0 <= i < heads.len() implies (#[trigger] heads[i]).contains(
                x,
            ) by {
                assert(fulls[i].contains(x));
            }
        }
    }
    assert(in_all(heads) =~= crate::bitmap::below(in_all(fulls), boundary));
    crate::bitmap::law_head_fills_page(in_all(fulls), boundary, limit);
}

/// A page that the heads fill is the page of the full postings, for a prefix query.
pub proof fn law_union_waves_agree(fulls: Seq<Set<u32>>, boundary: u32, limit: nat)
    requires
        in_any(fulls.map_values(|s: Set<u32>| crate::bitmap::below(s, boundary))).len() >= limit,
    ensures
        first_ids(
            in_any(fulls.map_values(|s: Set<u32>| crate::bitmap::below(s, boundary))),
            limit,
        ) == first_ids(in_any(fulls), limit),
{
    let heads = fulls.map_values(|s: Set<u32>| crate::bitmap::below(s, boundary));
    assert forall|x: u32|
        in_any(heads).contains(x) <==> crate::bitmap::below(in_any(fulls), boundary).contains(x) by {
        if in_any(heads).contains(x) {
            let i = choose|i: int| 0 <= i < heads.len() && (#[trigger] heads[i]).contains(x);
            assert(fulls[i].contains(x));
        }
        if crate::bitmap::below(in_any(fulls), boundary).contains(x) {
            let i = choose|i: int| 0 <= i < fulls.len() && (#[trigger] fulls[i]).contains(x);
            assert(heads[i].contains(x));
        }
    }
    assert(in_any(heads) =~= crate::bitmap::below(in_any(fulls), boundary));
    crate::bitmap::law_head_fills_page(in_any(fulls), boundary, limit);
}

/// Walks one front-coded dictionary block, yielding each `(term, head_off, head_size)` in term
/// order.
pub fn parse_dict_block<'a>(block: &'a [u8]) -> (it: BlockIter<'a>)
    ensures
        it.block() == block@,
        it.cursor() == BlockCursor::start(),
        entries_from(it.block(), it.cursor()) == block_entries(block@),
{
    iter_block(block)
}

/// Whether the terms of `es` are valid UTF-8.
pub open spec fn all_utf8(es: Seq<Decoded>) -> bool {
    forall|i: int| 0 <= i < es.len() ==> valid_utf8((#[trigger] es[i]).0)
}

/// The terms and posting offsets of one dictionary block, in term order.
pub fn dict_terms(block: &[u8]) -> (r: Result<Vec<(String, u64)>, IndexError>)
    ensures
        match r {
            Ok(v) => all_utf8(block_entries(block@)) && v@.len() == block_entries(block@).len()
                && forall|i: int|
                0 <= i < v@.len() ==> (#[trigger] v@[i]).0@ == decode_utf8(
                    block_entries(block@)[i].0,
                ) && v@[i].1 == block_entries(block@)[i].1,
            Err(e) => !all_utf8(block_entries(block@)) && e == IndexError::Malformed(
                "RRTI non-UTF-8 dictionary term",
            ),
        },
{
    let es = parse_dict_block(block).collect();
    let ghost all = block_entries(block@);
    assert(decoded(es@) == all);
    let mut out: Vec<(String, u64)> = Vec::new();
    let mut i: usize = 0;
    while i < es.len()
        invariant
            i <= es@.len(),
            decoded(es@) == all,
            all == block_entries(block@),
            out@.len() == i,
            forall|j: int|
                0 <= j < i ==> valid_utf8((#[trigger] all[j]).0) && out@[j].0@ == decode_utf8(
                    all[j].0,
                ) && out@[j].1 == all[j].1,
        decreases es@.len() - i,
    {
        assert(all[i as int] == (es@[i as int].0@, es@[i as int].1, es@[i as int].2));
        let raw = bytes::copy_range(es[i].0.as_slice(), 0, es[i].0.len());
        assert(raw@ =~= all[i as int].0);
        match text::decode(raw) {
            None => {
                return Err(IndexError::Malformed("RRTI non-UTF-8 dictionary term"));
            },
            Some(term) => {
                out.push((term, es[i].1));
            },
        }
        i += 1;
    }
    assert(decoded(es@).len() == es@.len());
    assert forall|j: int| 0 <= j < out@.len() implies (#[trigger] out@[j]).0@ == decode_utf8(
        all[j].0,
    ) && out@[j].1 == all[j].1 by {
        assert(valid_utf8(all[j].0));
    }
    Ok(out)
}

/// What a scan of the ascending `es` for the prefix `p` gathers, where `n` entries have been
/// gathered before and `max` are wanted; and whether the scan has ended.
pub open spec fn gather(es: Seq<Decoded>, p: Seq<u8>, max: nat, n: nat) -> (Seq<Decoded>, bool)
    decreases es.len(),
{
    if es.len() == 0 {
        (Seq::empty(), false)
    } else if lex_lt(es[0].0, p) {
        gather(es.drop_first(), p, max, n)
    } else if !has_prefix(es[0].0, p) {
        (Seq::empty(), true)
    } else if n + 1 >= max {
        (seq![es[0]], true)
    } else {
        let rest = gather(es.drop_first(), p, max, n + 1);
        (seq![es[0]] + rest.0, rest.1)
    }
}

/// The posting locations of `es`.
pub open spec fn locations(es: Seq<Decoded>) -> Seq<(u64, usize)> {
    es.map_values(|e: Decoded| (e.1, e.2))
}

/// The terms of `es` as text.
pub open spec fn spelled(es: Seq<Decoded>) -> Seq<Seq<char>> {
    es.map_values(|e: Decoded| text::lossy(e.0))
}

/// A scan of the dictionary for the terms that start with a prefix. The caller fetches the
/// blocks of `TermIndex::prefix_ranges` in order and hands each in, until the scan is done.
#[derive(Debug)]
pub struct PrefixScan {
    /// The prefix as UTF-8.
    pub prefix: Vec<u8>,
    /// How many terms are wanted.
    pub max: usize,
    /// Whether the terms are wanted, or their postings alone.
    pub want_terms: bool,
    /// The posting locations of the terms found.
    pub locs: Vec<(u64, usize)>,
    /// The terms found, where they are wanted.
    pub terms: Vec<String>,
    /// Whether no further block is needed.
    pub done: bool,
}

impl PrefixScan {
    /// Begins a scan for up to `max` terms that start with `p`.
    pub fn begin(p: &str, max: usize, want_terms: bool) -> (s: PrefixScan)
        ensures
            s.prefix@ == encode_utf8(p@),
            s.max == max,
            s.want_terms == want_terms,
            s.locs@.len() == 0,
            s.terms@.len() == 0,
            s.done == (max == 0),
    {
        let raw = text::bytes_of(p);
        let prefix = bytes::copy_range(raw, 0, raw.len());
        assert(prefix@ =~= encode_utf8(p@));
        PrefixScan {
            prefix,
            max,
            want_terms,
            locs: Vec::new(),
            terms: Vec::new(),
            done: max == 0,
        }
    }

    /// Gathers the matches of the next dictionary block.
    pub fn take_block(&mut self, block: &[u8])
        requires
            !old(self).done,
        ensures
            final(self).prefix == old(self).prefix,
            final(self).max == old(self).max,
            final(self).want_terms == old(self).want_terms,
            ({
                let g = gather(
                    block_entries(block@),
                    old(self).prefix@,
                    old(self).max as nat,
                    old(self).locs@.len(),
                );
                &&& final(self).done == g.1
                &&& final(self).locs@ == old(self).locs@ + locations(g.0)
                &&& texts(final(self).terms@) == (if old(self).want_terms {
                    texts(old(self).terms@) + spelled(g.0)
                } else {
                    texts(old(self).terms@)
                })
            }),
    {
        let ghost g = gather(
            block_entries(block@),
            self.prefix@,
            self.max as nat,
            self.locs@.len(),
        );
        let ghost locs0 = self.locs@;
        let ghost terms0 = texts(self.terms@);
        let ghost mut got = Seq::<Decoded>::empty();
        let mut it = iter_block(block);
        assert(locs0 + locations(got) =~= locs0);
        assert(terms0 + spelled(got) =~= terms0);
        loop
            invariant
                !self.done,
                self.prefix == old(self).prefix,
                self.max == old(self).max,
                self.want_terms == old(self).want_terms,
                self.locs@ == locs0 + locations(got),
                locs0 == old(self).locs@,
                terms0 == texts(old(self).terms@),
                texts(self.terms@) == (if self.want_terms {
                    terms0 + spelled(got)
                } else {
                    terms0
                }),
                g == gather(
                    block_entries(block@),
                    old(self).prefix@,
                    old(self).max as nat,
                    old(self).locs@.len(),
                ),
                ({
                    let rest = gather(
                        entries_from(it.block(), it.cursor()),
                        self.prefix@,
                        self.max as nat,
                        self.locs@.len(),
                    );
                    g == (got + rest.0, rest.1)
                }),
            decreases it.block().len() - it.cursor().pos,
        {
            let ghost rest = entries_from(it.block(), it.cursor());
            match it.next() {
                None => {
                    assert(g.0 =~= got);
                    return ;
                },
                Some((t, head_off, head_size)) => {
                    let ghost d: Decoded = (t@, head_off, head_size);
                    assert(rest.drop_first() =~= entries_from(it.block(), it.cursor()));
                    assert(rest[0] == d);
                    if !matches!(order_bytes(t.as_slice(), self.prefix.as_slice()), ByteOrder::Before) {
                        if !starts_with(t.as_slice(), self.prefix.as_slice()) {
                            assert(g.0 =~= got);
                            self.done = true;
                            return ;
                        }
                        self.locs.push((head_off, head_size));
                        proof {
                            assert(locs0 + locations(got.push(d)) =~= self.locs@);
                        }
                        if self.want_terms {
                            let ghost before = texts(self.terms@);
                            let word = text::decode_lossy(t.as_slice());
                            self.terms.push(word);
                            proof {
                                assert(texts(self.terms@) =~= before.push(text::lossy(t@)));
                                assert(terms0 + spelled(got.push(d)) =~= texts(self.terms@));
                            }
                        }
                        proof {
                            let tail = gather(
                                rest.drop_first(),
                                self.prefix@,
                                self.max as nat,
                                self.locs@.len(),
                            );
                            assert(got + (seq![d] + tail.0) =~= got.push(d) + tail.0);
                            assert(got + seq![d] =~= got.push(d));
                            got = got.push(d);
                        }
                        if self.locs.len() >= self.max {
                            self.done = true;
                            return ;
                        }
                    }
                },
            }
        }
    }
}

/// Scanning two stretches of a dictionary one after the other is scanning them as one.
pub proof fn law_prefix_blocks(a: Seq<Decoded>, b: Seq<Decoded>, p: Seq<u8>, max: nat, n: nat)
    ensures
        ({
            let first = gather(a, p, max, n);
            gather(a + b, p, max, n) == (if first.1 {
                first
            } else {
                let second = gather(b, p, max, n + first.0.len());
                (first.0 + second.0, second.1)
            })
        }),
    decreases a.len(),
{
    if a.len() == 0 {
        assert(a + b =~= b);
        let second = gather(b, p, max, n);
        assert(Seq::<Decoded>::empty() + second.0 =~= second.0);
    } else {
        assert((a + b).drop_first() =~= a.drop_first() + b);
        assert((a + b)[0] == a[0]);
        law_prefix_blocks(a.drop_first(), b, p, max, n);
        law_prefix_blocks(a.drop_first(), b, p, max, n + 1);
        if !lex_lt(a[0].0, p) && has_prefix(a[0].0, p) && n + 1 < max {
            let head = gather(a.drop_first(), p, max, n + 1);
            let second = gather(b, p, max, n + 1 + head.0.len());
            assert(seq![a[0]] + (head.0 + second.0) =~= (seq![a[0]] + head.0) + second.0);
        }
    }
}

/// The entries of `es` whose term starts with `p`.
pub open spec fn with_prefix(es: Seq<Decoded>, p: Seq<u8>) -> Seq<Decoded>
    decreases es.len(),
{
    if es.len() == 0 {
        Seq::empty()
    } else if has_prefix(es[0].0, p) {
        seq![es[0]] + with_prefix(es.drop_first(), p)
    } else {
        with_prefix(es.drop_first(), p)
    }
}

/// Whether the terms of `es` are strictly ascending.
pub open spec fn terms_ascend(es: Seq<Decoded>) -> bool {
    forall|i: int, j: int| 0 <= i < j < es.len() ==> lex_lt(#[trigger] es[i].0, #[trigger] es[j].0)
}

/// What starts with `p` does not sort before it.
proof fn lemma_prefix_not_before(t: Seq<u8>, p: Seq<u8>)
    requires
        has_prefix(t, p),
    ensures
        !lex_lt(t, p),
{
    assert forall|j: int| 0 <= j < p.len() implies t[j] == p[j] by {
        assert(t.subrange(0, p.len() as int)[j] == p[j]);
    }
    bytes::lemma_common_len_unique(t, p, p.len());
}

/// Behind a term past the prefix `p`, no term starts with it.
proof fn lemma_past_prefix(a: Seq<u8>, b: Seq<u8>, p: Seq<u8>)
    requires
        lex_lt(a, b),
        !lex_lt(a, p),
        !has_prefix(a, p),
    ensures
        !has_prefix(b, p),
{
    if has_prefix(b, p) {
        assert forall|j: int| 0 <= j < p.len() implies b[j] == p[j] by {
            assert(b.subrange(0, p.len() as int)[j] == p[j]);
        }
        bytes::lemma_common_len(a, p);
        bytes::lemma_common_len(a, b);
        let n = bytes::common_len(a, p) as int;
        if n == p.len() {
            assert(a.subrange(0, p.len() as int) =~= p);
        } else {
            // `a` and `p` part at `n`, where `a` has the greater byte, and `b` is `p` there.
            bytes::lemma_common_len_unique(a, b, n as nat);
        }
    }
}

proof fn lemma_none_with_prefix(es: Seq<Decoded>, p: Seq<u8>)
    requires
        terms_ascend(es),
        es.len() > 0,
        !lex_lt(es[0].0, p),
        !has_prefix(es[0].0, p),
    ensures
        with_prefix(es, p) == Seq::<Decoded>::empty(),
    decreases es.len(),
{
    if es.len() > 1 {
        let rest = es.drop_first();
        lemma_past_prefix(es[0].0, es[1].0, p);
        bytes::lemma_lex_total(es[1].0, p);
        if lex_lt(es[1].0, p) {
            bytes::lemma_lex_trans(es[0].0, es[1].0, p);
        }
        assert forall|i: int, j: int| 0 <= i < j < rest.len() implies lex_lt(
            #[trigger] rest[i].0,
            #[trigger] rest[j].0,
        ) by {
            assert(rest[i] == es[i + 1] && rest[j] == es[j + 1]);
        }
        assert(rest[0] == es[1]);
        lemma_none_with_prefix(rest, p);
    } else {
        reveal_with_fuel(with_prefix, 2);
    }
}

/// A prefix scan of a dictionary finds exactly the terms that start with the prefix, in order,
/// up to `max`.
pub proof fn law_prefix_complete(es: Seq<Decoded>, p: Seq<u8>, max: nat, n: nat)
    requires
        terms_ascend(es),
        n < max,
    ensures
        ({
            let all = with_prefix(es, p);
            gather(es, p, max, n).0 == (if all.len() <= max - n {
                all
            } else {
                all.take(max - n)
            })
        }),
    decreases es.len(),
{
    if es.len() > 0 {
        let rest = es.drop_first();
        assert forall|i: int, j: int| 0 <= i < j < rest.len() implies lex_lt(
            #[trigger] rest[i].0,
            #[trigger] rest[j].0,
        ) by {
            assert(rest[i] == es[i + 1] && rest[j] == es[j + 1]);
        }
        let all = with_prefix(es, p);
        let tail = with_prefix(rest, p);
        if has_prefix(es[0].0, p) {
            lemma_prefix_not_before(es[0].0, p);
            if n + 1 < max {
                law_prefix_complete(rest, p, max, n + 1);
                if all.len() > max - n {
                    assert(all.take(max - n) =~= seq![es[0]] + tail.take(max - n - 1));
                }
            } else if all.len() > 1 {
                assert(all.take(1) =~= seq![es[0]]);
            } else {
                assert(all =~= seq![es[0]]);
            }
        } else if lex_lt(es[0].0, p) {
            law_prefix_complete(rest, p, max, n);
        } else {
            lemma_none_with_prefix(es, p);
        }
    }
}

/// A strict lookup keeps all terms or fails, and it fails exactly where no block can hold one of
/// them; a lenient one keeps exactly the terms that some block can hold, in order.
pub proof fn law_routable(v: TermsView, terms: Seq<Seq<u8>>)
    ensures
        routable(v, terms, true) == Some(terms.filter(|t: Seq<u8>| v.block_range(t) is Some)),
        match routable(v, terms, false) {
            Some(kept) => kept == terms && forall|i: int|
                0 <= i < terms.len() ==> v.block_range(#[trigger] terms[i]) is Some,
            None => exists|i: int|
                0 <= i < terms.len() && v.block_range(#[trigger] terms[i]) is None,
        },
    decreases terms.len(),
{
    reveal(Seq::filter);
    if terms.len() > 0 {
        let front = terms.drop_last();
        law_routable(v, front);
        assert forall|i: int| 0 <= i < front.len() implies #[trigger] front[i] == terms[i] by {}
        assert(front.push(terms.last()) =~= terms);
        if routable(v, front, false) is None {
            let i = choose|i: int|
                0 <= i < front.len() && v.block_range(#[trigger] front[i]) is None;
            assert(v.block_range(terms[i]) is None);
        } else if v.block_range(terms.last()) is None {
            assert(v.block_range(terms[terms.len() - 1]) is None);
        } else {
            assert forall|i: int| 0 <= i < terms.len() implies v.block_range(
                #[trigger] terms[i],
            ) is Some by {
                if i < front.len() {
                    assert(v.block_range(front[i]) is Some);
                }
            }
        }
    } else {
        assert(terms =~= Seq::<Seq<u8>>::empty());
    }
}

/// What a scan of each term's block finds, term after term.
pub open spec fn scans(terms: Seq<Vec<u8>>, block_of: Seq<usize>, blocks: Seq<Vec<u8>>, n: nat) -> Seq<
    Option<(u64, usize)>,
> {
    Seq::new(
        n,
        |i: int| scan_entries(block_entries(blocks[block_of[i] as int]@), terms[i]@),
    )
}

/// A strict lookup finds every term, in order, or fails, and it fails exactly where one is
/// missing; a lenient one finds exactly the terms that are there, in order.
pub proof fn law_found(
    terms: Seq<Vec<u8>>,
    block_of: Seq<usize>,
    blocks: Seq<Vec<u8>>,
    n: nat,
)
    ensures
        found(terms, block_of, blocks, true, n) == Some(
            scans(terms, block_of, blocks, n).filter_map(|o: Option<(u64, usize)>| o),
        ),
        match found(terms, block_of, blocks, false, n) {
            Some(locs) => locs.len() == n && forall|i: int|
                0 <= i < n ==> (#[trigger] scans(terms, block_of, blocks, n)[i]) == Some(locs[i]),
            None => exists|i: int|
                0 <= i < n && (#[trigger] scans(terms, block_of, blocks, n)[i]) is None,
        },
    decreases n,
{
    let all = scans(terms, block_of, blocks, n);
    reveal(Seq::filter_map);
    if n > 0 {
        let k = (n - 1) as nat;
        let front = scans(terms, block_of, blocks, k);
        law_found(terms, block_of, blocks, k);
        assert(all.drop_last() =~= front);
        assert forall|i: int| 0 <= i < k implies #[trigger] all[i] == front[i] by {}
        if found(terms, block_of, blocks, false, k) is None {
            let i = choose|i: int| 0 <= i < k && (#[trigger] front[i]) is None;
            assert(all[i] is None);
        } else if all[k as int] is None {
            assert(all[n - 1] is None);
        } else {
            let locs = found(terms, block_of, blocks, false, n)->Some_0;
            assert forall|i: int| 0 <= i < n implies (#[trigger] all[i]) == Some(locs[i]) by {
                if i < k {
                    assert(front[i] == all[i]);
                }
            }
        }
    } else {
        assert(all =~= Seq::empty());
    }
}

/// One more posting narrows what all of them hold to its own docs, and widens what one of them
/// holds by them; alone it is both.
pub proof fn law_query_sets(sets: Seq<Set<u32>>, s: Set<u32>)
    ensures
        sets.len() > 0 ==> in_all(sets.push(s)) == in_all(sets).intersect(s),
        in_all(seq![s]) == s,
        in_any(sets.push(s)) == in_any(sets).union(s),
        in_any(Seq::empty()) == Set::<u32>::empty(),
{
    let more = sets.push(s);
    assert forall|x: u32| sets.len() > 0 implies (in_all(more).contains(x) <==> in_all(
        sets,
    ).intersect(s).contains(x)) by {
        if in_all(more).contains(x) {
            assert(more[sets.len() as int].contains(x));
            assert forall|i: int| 0 <= i < sets.len() implies (#[trigger] sets[i]).contains(x) by {
                assert(more[i].contains(x));
            }
        }
    }
    assert forall|x: u32| in_any(more).contains(x) <==> in_any(sets).union(s).contains(x) by {
        if in_any(sets).contains(x) {
            let i = choose|i: int| 0 <= i < sets.len() && (#[trigger] sets[i]).contains(x);
            assert(more[i].contains(x));
        }
        if s.contains(x) {
            assert(more[sets.len() as int].contains(x));
        }
        if in_any(more).contains(x) {
            let i = choose|i: int| 0 <= i < more.len() && (#[trigger] more[i]).contains(x);
            if i < sets.len() {
                assert(sets[i].contains(x));
            }
        }
    }
    assert forall|x: u32| in_all(seq![s]).contains(x) <==> s.contains(x) by {
        if in_all(seq![s]).contains(x) {
            assert(seq![s][0].contains(x));
        }
    }
    if sets.len() > 0 {
        assert(in_all(more) =~= in_all(sets).intersect(s));
    }
    assert(in_all(seq![s]) =~= s);
    assert(in_any(more) =~= in_any(sets).union(s));
    assert(in_any(Seq::empty()) =~= Set::<u32>::empty());
}

/// A page that the heads give is the page of the whole postings, for a query of all terms and for
/// one of any; and where the tails are read, the postings are whole.
pub proof fn law_pages_of_postings(
    fulls: Seq<Set<u32>>,
    blocks: Seq<HeadBlock>,
    tails: Seq<RoaringBitmap>,
    boundary: u32,
    limit: usize,
)
    requires
        blocks.len() == fulls.len(),
        tails.len() == fulls.len(),
        forall|i: int|
            0 <= i < fulls.len() ==> ids((#[trigger] blocks[i]).head) == crate::bitmap::below(
                fulls[i],
                boundary,
            ) && ids(tails[i]) == crate::bitmap::from_on(fulls[i], boundary) && (blocks[i].tail_size
                == 0 ==> ids(tails[i]) == Set::<u32>::empty()),
    ensures
        head_page(in_all(head_sets(blocks)), blocks, limit) matches Some(p) ==> p == first_ids(
            in_all(fulls),
            limit as nat,
        ),
        head_page(in_any(head_sets(blocks)), blocks, limit) matches Some(p) ==> p == first_ids(
            in_any(fulls),
            limit as nat,
        ),
        full_sets(blocks, tails) == fulls,
{
    let heads = fulls.map_values(|s: Set<u32>| crate::bitmap::below(s, boundary));
    assert forall|i: int| 0 <= i < heads.len() implies #[trigger] head_sets(blocks)[i]
        == heads[i] by {
        assert(ids(blocks[i].head) == crate::bitmap::below(fulls[i], boundary));
    }
    assert(head_sets(blocks) =~= heads);
    assert forall|i: int| 0 <= i < fulls.len() implies #[trigger] full_sets(blocks, tails)[i]
        == fulls[i] by {
        assert(ids(blocks[i].head) == crate::bitmap::below(fulls[i], boundary));
        crate::bitmap::law_head_tail(fulls[i], boundary);
    }
    assert(full_sets(blocks, tails) =~= fulls);
    if in_all(heads).len() >= limit {
        law_and_waves_agree(fulls, boundary, limit as nat);
    }
    if in_any(heads).len() >= limit {
        law_union_waves_agree(fulls, boundary, limit as nat);
    }
    if !has_tail(blocks) {
        assert forall|i: int| 0 <= i < fulls.len() implies #[trigger] heads[i] == fulls[i] by {
            assert(blocks[i].tail_size == 0);
            assert(ids(blocks[i].head) == crate::bitmap::below(fulls[i], boundary));
            crate::bitmap::law_head_tail(fulls[i], boundary);
            assert(heads[i] =~= fulls[i]);
        }
        assert(heads =~= fulls);
    }
}

/// The entries with a prefix are exactly those whose term is the prefix with something behind
/// it, in order.
pub proof fn law_with_prefix(es: Seq<Decoded>, p: Seq<u8>, e: Decoded)
    ensures
        with_prefix(es, p).contains(e) <==> es.contains(e) && has_prefix(e.0, p),
        has_prefix(e.0, p) <==> exists|rest: Seq<u8>| e.0 == #[trigger] (p + rest),
        terms_ascend(es) ==> terms_ascend(with_prefix(es, p)),
    decreases es.len(),
{
    if has_prefix(e.0, p) {
        assert(p + e.0.skip(p.len() as int) =~= e.0);
    }
    if exists|rest: Seq<u8>| e.0 == #[trigger] (p + rest) {
        let rest = choose|rest: Seq<u8>| e.0 == #[trigger] (p + rest);
        assert(e.0.subrange(0, p.len() as int) =~= p);
    }
    if es.len() > 0 {
        let tail = es.drop_first();
        let (w, u) = (with_prefix(es, p), with_prefix(tail, p));
        law_with_prefix(tail, p, e);
        if es.contains(e) {
            let k = choose|k: int| 0 <= k < es.len() && es[k] == e;
            if k > 0 {
                assert(tail[k - 1] == e);
            }
        }
        if tail.contains(e) {
            let k = choose|k: int| 0 <= k < tail.len() && tail[k] == e;
            assert(es[k + 1] == e);
        }
        if has_prefix(es[0].0, p) {
            if u.contains(e) {
                let k = choose|k: int| 0 <= k < u.len() && u[k] == e;
                assert(w[k + 1] == e);
            }
            if w.contains(e) {
                let k = choose|k: int| 0 <= k < w.len() && w[k] == e;
                if k > 0 {
                    assert(u[k - 1] == e);
                }
            }
            if es[0] == e {
                assert(w[0] == e);
            }
        }
        if terms_ascend(es) {
            assert forall|i: int, j: int| 0 <= i < j < tail.len() implies lex_lt(
                #[trigger] tail[i].0,
                #[trigger] tail[j].0,
            ) by {
                assert(tail[i] == es[i + 1] && tail[j] == es[j + 1]);
            }
            assert forall|i: int, j: int| 0 <= i < j < w.len() implies lex_lt(
                #[trigger] w[i].0,
                #[trigger] w[j].0,
            ) by {
                if has_prefix(es[0].0, p) {
                    if i == 0 {
                        assert(u.contains(u[j - 1]));
                        law_with_prefix(tail, p, u[j - 1]);
                        let k = choose|k: int| 0 <= k < tail.len() && tail[k] == u[j - 1];
                        assert(es[k + 1] == w[j]);
                        assert(lex_lt(es[0].0, es[k + 1].0));
                    } else {
                        assert(lex_lt(u[i - 1].0, u[j - 1].0));
                    }
                }
            }
        }
    }
}

/// A header is accepted exactly where it is whole and starts with `RRTI` and version two; its
/// numbers are little-endian at fixed places.
pub proof fn law_header_accepted(h: Seq<u8>)
    ensures
        header_of(h) is Ok <==> h.len() >= 40 && h[0] == 0x52 && h[1] == 0x52 && h[2] == 0x54 && h[3]
            == 0x49 && bytes::u16_at(h, 4) == 2,
        header_of(h) matches Ok(f) ==> f.flags == bytes::u16_at(h, 6) && f.term_count
            == bytes::u32_at(h, 8) && f.head_boundary == bytes::u32_at(h, 12) && f.router_len
            == bytes::u64_at(h, 16) && f.dict_len == bytes::u64_at(h, 24) && f.language == h[36],
{
    let m = seq![0x52u8, 0x52u8, 0x54u8, 0x49u8];
    if h.len() >= 40 {
        if h.take(4) == m {
            assert(h.take(4)[0] == 0x52 && h.take(4)[1] == 0x52 && h.take(4)[2] == 0x54 && h.take(
                4,
            )[3] == 0x49);
        } else if h[0] == 0x52 && h[1] == 0x52 && h[2] == 0x54 && h[3] == 0x49 {
            assert(h.take(4) =~= m);
        }
    }
}

/// The regions of a file lie one behind the other: the header, the router, the dictionary, the
/// postings.
pub proof fn law_regions(h: TermHeader, raw: Seq<u8>)
    requires
        40 + h.router_len + h.dict_len <= u64::MAX,
    ensures
        TermsView::of(h, raw).dict_start == 40 + h.router_len,
        TermsView::of(h, raw).postings_offset == 40 + h.router_len + h.dict_len,
        TermsView::of(h, raw).router == raw,
        TermsView::of(h, raw).head_boundary == h.head_boundary,
        TermsView::of(h, raw).term_count == h.term_count,
{
}

/// An offset is held at the largest number that 64 bits can spell, and below that is itself.
pub proof fn law_held(a: int)
    requires
        a >= 0,
    ensures
        held(a) <= a,
        a <= 0xffff_ffff_ffff_ffff ==> held(a) == a,
        a > 0xffff_ffff_ffff_ffff ==> held(a) == 0xffff_ffff_ffff_ffff,
{
}

/// A posting without a tail needs no read and adds no doc; any other tail holds the docs that
/// its bytes spell.
pub proof fn law_tail_of(tail_size: usize, raw: Seq<u8>)
    ensures
        tail_size == 0 ==> tail_of(tail_size, raw) == Some(Set::<u32>::empty()),
        tail_size > 0 ==> tail_of(tail_size, raw) == read_ids(raw),
{
}

/// A head block that is whole gives the docs of its head, and the tail starts behind it with the
/// length that its first four bytes say.
pub proof fn law_head_of(base: u64, tail_len: u32, head: Seq<u8>, rest: Seq<u8>)
    requires
        base + 4 + head.len() <= u64::MAX,
        4 + head.len() <= usize::MAX,
    ensures
        ({
            let want = (4 + head.len()) as usize;
            let r = head_of(base, want, bytes::le32(tail_len) + head + rest);
            &&& r is Ok <==> read_ids(head) is Some
            &&& r matches Ok(h) ==> read_ids(head) == Some(h.0) && h.1 == base + 4 + head.len()
                && h.2 == tail_len as usize
        }),
        head.len() > 0 ==> head_of(base, (4 + head.len()) as usize, bytes::le32(tail_len)) is Err,
{
    let block = bytes::le32(tail_len) + head + rest;
    assert(block.subrange(4, 4 + head.len() as int) =~= head);
    assert(block.subrange(0, 4) =~= bytes::le32(tail_len));
    bytes::lemma_u32_at(block, 0, tail_len);
}

/// The places of the gathered entries are those of each entry, in order.
pub proof fn law_locations(es: Seq<Decoded>, i: int)
    requires
        0 <= i < es.len(),
    ensures
        locations(es).len() == es.len(),
        locations(es)[i] == (es[i].1, es[i].2),
        spelled(es).len() == es.len(),
        spelled(es)[i] == text::lossy(es[i].0),
{
}

/// A packed place is that many bytes behind the start of the dictionary.
pub proof fn law_block_at(dict_start: u64, off: u64, size: u64)
    requires
        size < 0x100_0000,
        off < 0x100_0000_0000,
        dict_start + off <= u64::MAX,
    ensures
        block_at(dict_start, (off * 0x100_0000 + size) as u64) == ((dict_start + off) as u64, size as usize),
{
}

/// The terms of a query are in strictly ascending order, none twice and none left out.
pub proof fn law_sorted_set(out: Seq<Seq<u8>>, ts: Seq<Seq<u8>>)
    requires
        sorted_set(out, ts),
    ensures
        out.to_set() == ts.to_set(),
        forall|i: int, j: int|
            0 <= i < j < out.len() ==> lex_lt(#[trigger] out[i], #[trigger] out[j]),
{
    assert forall|t: Seq<u8>| out.to_set().contains(t) <==> ts.to_set().contains(t) by {
        assert(out.contains(t) <==> ts.contains(t));
    }
    assert(out.to_set() =~= ts.to_set());
}

/// The block of a term is the first of those from it on, and there is none exactly where those
/// are none.
pub proof fn law_block_ranges(v: TermsView, term: Seq<u8>)
    ensures
        v.block_range(term) == (if v.block_ranges(term).len() == 0 {
            None
        } else {
            Some(v.block_ranges(term)[0])
        }),
        v.block_ranges(term).len() == streamed(v.router, term).len(),
        forall|i: int|
            0 <= i < v.block_ranges(term).len() ==> #[trigger] v.block_ranges(term)[i] == block_at(
                v.dict_start,
                streamed(v.router, term)[i].1,
            ),
{
}

} // verus!
