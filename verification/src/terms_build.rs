//! The writer of the term index: the build-side mirror of [`crate::terms`].
//!
//! Postings are portable roaring bitmaps split into a head and a tail, the dictionary is
//! front-coded into byte-capped blocks, and a small router maps each block's last term to the
//! block's place.

use crate::bitmap::{below, from_on, ids, image, read_ids, split_posting};
use crate::bytes::{
    self, le16, le32, le64, lex_lt, order_bytes, put_bytes, put_u16, put_u32, put_u64, word32,
    ByteOrder,
};
use crate::error::{BuildError, IndexError};
use crate::router::{self, at_least, map_image, maps, streamed};
use crate::terms::{
    encoded, header_of, in_all, magic, raws, strictly_sorted, TermHeader, TermsView, HEADER_SIZE,
    VERSION,
};
use crate::terms_dict::{
    self, ascending, block_entries, blocks_hold, blocks_len, capped, codable, encode_block,
    located, lookup, pack_loc, route, scan_entries, BlockWriter, Decoded, DictBlocks, DictEntry,
    DEFAULT_DICT_BLOCK_CAP, OFFSET_LIMIT, SIZE_LIMIT,
};
use crate::text;
use crate::tokenize::{texts, Language, Tokenizer};
use roaring::RoaringBitmap;
use vstd::prelude::*;

verus! {

/// A term with its serialized head and tail postings.
pub struct Pushed {
    /// The term's UTF-8 bytes.
    pub term: Seq<u8>,
    /// The serialized head posting.
    pub head: Seq<u8>,
    /// The serialized tail posting.
    pub tail: Seq<u8>,
}

/// The posting block of a term: the tail's length, the head, the tail.
pub open spec fn posting_block(head: Seq<u8>, tail: Seq<u8>) -> Seq<u8> {
    le32(word32(tail.len())) + head + tail
}

/// The postings region of the terms `ps`.
pub open spec fn region(ps: Seq<Pushed>) -> Seq<u8>
    decreases ps.len(),
{
    if ps.len() == 0 {
        Seq::empty()
    } else {
        region(ps.drop_last()) + posting_block(ps.last().head, ps.last().tail)
    }
}

/// The dictionary entries of the terms `ps`.
pub open spec fn dict(ps: Seq<Pushed>) -> Seq<DictEntry> {
    Seq::new(
        ps.len(),
        |i: int|
            DictEntry {
                term: ps[i].term,
                head_off: capped(region(ps.take(i)).len()),
                head_size: ps[i].head.len() as u64,
            },
    )
}

/// The dictionary blocks of the terms `ps`.
pub open spec fn dict_blocks(ps: Seq<Pushed>, cap: int) -> Seq<Seq<DictEntry>> {
    DictBlocks::empty().push_all(dict(ps), cap).flush().sealed
}

/// The byte cap that `block_cap` asks for; `0` is the default.
pub open spec fn cap_used(block_cap: usize) -> usize {
    if block_cap == 0 {
        DEFAULT_DICT_BLOCK_CAP
    } else {
        block_cap
    }
}

/// The router's entries for the dictionary blocks `sealed`: each block's last term, and its
/// packed place.
pub open spec fn routes(sealed: Seq<Seq<DictEntry>>) -> Seq<(Seq<u8>, u64)> {
    Seq::new(
        sealed.len(),
        |i: int|
            (
                sealed[i].last().term,
                (blocks_len(sealed, i) * SIZE_LIMIT + encode_block(sealed[i]).len()) as u64,
            ),
    )
}

/// Why the block `i` of `sealed` has no place in the router.
pub open spec fn route_error(sealed: Seq<Seq<DictEntry>>, i: int) -> Option<BuildError> {
    if encode_block(sealed[i]).len() >= SIZE_LIMIT {
        Some(BuildError::DictBlockTooLarge)
    } else if blocks_len(sealed, i) >= OFFSET_LIMIT {
        Some(BuildError::DictTooLarge)
    } else if i > 0 && !lex_lt(sealed[i - 1].last().term, sealed[i].last().term) {
        Some(BuildError::TermOrder)
    } else {
        None
    }
}

/// The first reason why one of the blocks `sealed` from `i` on has no place in the router.
pub open spec fn routes_error(sealed: Seq<Seq<DictEntry>>, i: int) -> Option<BuildError>
    decreases sealed.len() - i,
{
    if i < 0 || i >= sealed.len() {
        None
    } else {
        match route_error(sealed, i) {
            Some(e) => Some(e),
            None => routes_error(sealed, i + 1),
        }
    }
}

/// The header of a file.
pub open spec fn header_bytes(
    t: Tokenizer,
    term_count: u32,
    head_boundary: u32,
    router_len: u64,
    dict_len: u64,
    block_cap: usize,
) -> Seq<u8> {
    magic() + le16(VERSION) + le16(t.flags()) + le32(term_count) + le32(head_boundary) + le64(
        router_len,
    ) + le64(dict_len) + le32(word32(cap_used(block_cap) as nat)) + seq![
        t.language_byte(),
        0u8,
        0u8,
        0u8,
    ]
}

/// Build-time configuration of a term index. The tokenizer settings are recorded in the header
/// so that the reader tokenizes queries identically.
#[derive(Debug, Clone, Copy)]
pub struct TermIndexConfig {
    /// Doc-ID head/tail split (a multiple of 65536).
    pub head_boundary: u32,
    /// Optional stemmer language; `None` builds an unstemmed index.
    pub language: Option<Language>,
    /// Remove common stop words from the index (and, symmetrically, from queries).
    pub stopwords: bool,
    /// Do not lower-case terms, at index or query time.
    pub case_sensitive: bool,
    /// Dictionary block byte cap; `0` selects the default.
    pub block_cap: usize,
}

impl TermIndexConfig {
    /// The tokenizer of the configuration.
    pub open spec fn tokenizer(self) -> Tokenizer {
        Tokenizer {
            language: self.language,
            stopwords: self.stopwords,
            case_fold: !self.case_sensitive,
        }
    }
}

/// Streaming writer: terms arrive in ascending byte order with their serialized head and tail
/// postings. The posting blocks go to the caller's sink, the large half of an index; the
/// dictionary accumulates here.
pub struct TermIndexStreamWriter {
    region_len: u64,
    blocks: BlockWriter,
    term_count: u64,
    head_boundary: u32,
    tokenizer: Tokenizer,
    block_cap: usize,
    model: Ghost<Seq<Pushed>>,
}

impl View for TermIndexStreamWriter {
    type V = Seq<Pushed>;

    closed spec fn view(&self) -> Seq<Pushed> {
        self.model@
    }
}

/// Why a term with the given head posting is refused behind the terms `ps`.
pub open spec fn push_error(ps: Seq<Pushed>, head_len: nat) -> Option<BuildError> {
    if head_len >= SIZE_LIMIT {
        Some(BuildError::HeadTooLarge(head_len as usize))
    } else if region(ps).len() >= OFFSET_LIMIT {
        Some(BuildError::RegionTooLarge)
    } else {
        None
    }
}

/// The header, the router and the dictionary blocks that end a file, or why there are none.
pub open spec fn meta_error(ps: Seq<Pushed>, block_cap: usize) -> Option<BuildError> {
    match routes_error(dict_blocks(ps, cap_used(block_cap) as int), 0) {
        Some(e) => Some(e),
        None => if ps.len() > u32::MAX {
            Some(BuildError::TermCountTooLarge)
        } else {
            None
        },
    }
}

proof fn lemma_region_push(ps: Seq<Pushed>, p: Pushed)
    ensures
        region(ps.push(p)) == region(ps) + posting_block(p.head, p.tail),
        region(ps.push(p)).len() == region(ps).len() + 4 + p.head.len() + p.tail.len(),
{
    assert(ps.push(p).drop_last() =~= ps);
}

proof fn lemma_dict_push(ps: Seq<Pushed>, p: Pushed)
    ensures
        dict(ps.push(p)) == dict(ps).push(
            DictEntry {
                term: p.term,
                head_off: capped(region(ps).len()),
                head_size: p.head.len() as u64,
            },
        ),
{
    let d = dict(ps.push(p));
    assert forall|i: int| 0 <= i < ps.len() implies d[i] == dict(ps)[i] by {
        assert(ps.push(p).take(i) =~= ps.take(i));
    }
    assert(ps.push(p).take(ps.len() as int) =~= ps);
    assert(d =~= dict(ps).push(
        DictEntry {
            term: p.term,
            head_off: capped(region(ps).len()),
            head_size: p.head.len() as u64,
        },
    ));
}

proof fn lemma_open_last(es: Seq<DictEntry>, cap: int)
    ensures
        ({
            let w = DictBlocks::empty().push_all(es, cap);
            w.open.len() > 0 ==> es.len() > 0 && w.open.last() == es.last()
        }),
        es.len() > 0 ==> DictBlocks::empty().push_all(es, cap).open.len() > 0,
    decreases es.len(),
{
}

impl TermIndexStreamWriter {
    /// The fields agree with the terms pushed so far.
    pub closed spec fn wf(&self) -> bool {
        &&& self.blocks.wf()
        &&& self.blocks.cap() == cap_used(self.block_cap)
        &&& self.blocks@ == DictBlocks::empty().push_all(
            dict(self.model@),
            cap_used(self.block_cap) as int,
        )
        &&& self.region_len == capped(region(self.model@).len())
        &&& self.term_count == self.model@.len()
    }

    /// The doc-ID head/tail split.
    pub closed spec fn boundary(&self) -> u32 {
        self.head_boundary
    }

    /// The tokenizer recorded in the header.
    pub closed spec fn tokens_with(&self) -> Tokenizer {
        self.tokenizer
    }

    /// The dictionary block cap asked for.
    pub closed spec fn cap(&self) -> usize {
        self.block_cap
    }

    /// Creates a writer. `block_cap` of `0` selects the default dictionary block cap.
    pub fn new(
        head_boundary: u32,
        language: Option<Language>,
        stopwords: bool,
        case_normalization: bool,
        block_cap: usize,
    ) -> (w: TermIndexStreamWriter)
        ensures
            w.wf(),
            w@ == Seq::<Pushed>::empty(),
            w.boundary() == head_boundary,
            w.tokens_with() == (Tokenizer { language, stopwords, case_fold: case_normalization }),
            w.cap() == block_cap,
    {
        let w = TermIndexStreamWriter {
            region_len: 0,
            blocks: BlockWriter::new(block_cap),
            term_count: 0,
            head_boundary,
            tokenizer: Tokenizer::new(language, stopwords, case_normalization),
            block_cap,
            model: Ghost(Seq::empty()),
        };
        assert(dict(w.model@) =~= Seq::<DictEntry>::empty());
        w
    }

    /// Appends one term and returns its posting block `[tail length][head][tail]`, which the
    /// caller appends to its sink. Terms must arrive in ascending byte order.
    pub fn push(&mut self, term: &[u8], head: &[u8], tail: &[u8]) -> (r: Result<
        Vec<u8>,
        BuildError,
    >)
        requires
            old(self).wf(),
            old(self)@.len() < u64::MAX,
        ensures
            final(self).wf(),
            final(self).boundary() == old(self).boundary(),
            final(self).tokens_with() == old(self).tokens_with(),
            final(self).cap() == old(self).cap(),
            match push_error(old(self)@, head@.len()) {
                Some(e) => r == Err::<Vec<u8>, _>(e) && final(self)@ == old(self)@,
                None => r matches Ok(block) && block@ == posting_block(head@, tail@)
                    && final(self)@ == old(self)@.push(
                    Pushed { term: term@, head: head@, tail: tail@ },
                ),
            },
    {
        let head_off: u64 = self.region_len;
        if head.len() as u64 >= SIZE_LIMIT {
            return Err(BuildError::HeadTooLarge(head.len()));
        }
        if head_off >= OFFSET_LIMIT {
            return Err(BuildError::RegionTooLarge);
        }
        let ghost ps = self.model@;
        let ghost p = Pushed { term: term@, head: head@, tail: tail@ };
        proof {
            lemma_region_push(ps, p);
            lemma_dict_push(ps, p);
            lemma_open_last(dict(ps), cap_used(self.block_cap) as int);
            assert(dict(ps.push(p)).drop_last() =~= dict(ps));
            if dict(ps).len() > 0 {
                lemma_region_grows(ps, ps.len() - 1);
                assert(ps.take(ps.len() - 1) =~= ps.drop_last());
            }
        }
        let mut block: Vec<u8> = Vec::new();
        let n: u64 = tail.len() as u64 % 0x1_0000_0000;
        put_u32(&mut block, n as u32);
        put_bytes(&mut block, head);
        put_bytes(&mut block, tail);
        assert(block@ =~= posting_block(head@, tail@));
        self.region_len = head_off.saturating_add(4).saturating_add(
            head.len() as u64,
        ).saturating_add(tail.len() as u64);
        self.blocks.push(term, head_off, head.len() as u64);
        self.term_count = self.term_count + 1;
        self.model = Ghost(ps.push(p));
        Ok(block)
    }

    /// Number of terms pushed so far.
    pub fn term_count(&self) -> (n: u64)
        requires
            self.wf(),
        ensures
            n == self@.len(),
    {
        self.term_count
    }

    /// Bytes of the postings region so far, held at the largest `u64`.
    pub fn region_len(&self) -> (n: u64)
        requires
            self.wf(),
        ensures
            n == capped(region(self@).len()),
    {
        self.region_len
    }
}

/// The region never gets shorter.
proof fn lemma_region_grows(ps: Seq<Pushed>, n: int)
    requires
        0 <= n <= ps.len(),
    ensures
        region(ps.take(n)).len() <= region(ps).len(),
    decreases ps.len() - n,
{
    if n < ps.len() {
        assert(ps.take(n + 1).drop_last() =~= ps.take(n));
        lemma_region_grows(ps, n + 1);
    } else {
        assert(ps.take(n) =~= ps);
    }
}

/// What ends a file beside its postings region: the header, the router, and the dictionary
/// blocks.
pub open spec fn meta_written(
    m: (Vec<u8>, Vec<u8>, Vec<Vec<u8>>),
    ps: Seq<Pushed>,
    t: Tokenizer,
    head_boundary: u32,
    block_cap: usize,
) -> bool {
    let sealed = dict_blocks(ps, cap_used(block_cap) as int);
    &&& m.0@ == header_bytes(
        t,
        ps.len() as u32,
        head_boundary,
        m.1@.len() as u64,
        blocks_len(sealed, sealed.len() as int) as u64,
        block_cap,
    )
    &&& m.1@ == map_image(usize::BITS as nat, routes(sealed))
    &&& maps(m.1@, routes(sealed))
    &&& raws(m.2@) == sealed.map_values(|es: Seq<DictEntry>| encode_block(es))
}

fn put_header(
    t: &Tokenizer,
    term_count: u32,
    head_boundary: u32,
    router_len: u64,
    dict_len: u64,
    block_cap: usize,
) -> (h: Vec<u8>)
    ensures
        h@ == header_bytes(*t, term_count, head_boundary, router_len, dict_len, block_cap),
{
    let mut h: Vec<u8> = Vec::new();
    h.push(0x52);
    h.push(0x52);
    h.push(0x54);
    h.push(0x49);
    assert(h@ =~= magic());
    put_u16(&mut h, VERSION);
    put_u16(&mut h, t.header_flags());
    put_u32(&mut h, term_count);
    put_u32(&mut h, head_boundary);
    put_u64(&mut h, router_len);
    put_u64(&mut h, dict_len);
    let cap: usize = if block_cap == 0 {
        DEFAULT_DICT_BLOCK_CAP
    } else {
        block_cap
    };
    let word: u64 = cap as u64 % 0x1_0000_0000;
    put_u32(&mut h, word as u32);
    let language: u8 = match t.language {
        Some(l) => l.to_u8(),
        None => 0,
    };
    let ghost front = h@;
    h.push(language);
    h.push(0);
    h.push(0);
    h.push(0);
    assert(h@ =~= front + seq![t.language_byte(), 0u8, 0u8, 0u8]);
    h
}

impl TermIndexStreamWriter {
    /// Finishes the dictionary and the router, and returns the header, the router, and the
    /// dictionary blocks, for a caller that assembles the file itself: these, then its streamed
    /// region.
    pub fn finish_meta(self) -> (r: Result<(Vec<u8>, Vec<u8>, Vec<Vec<u8>>), BuildError>)
        requires
            self.wf(),
        ensures
            match meta_error(self@, self.cap()) {
                Some(e) => r == Err::<(Vec<u8>, Vec<u8>, Vec<Vec<u8>>), _>(e),
                None => r matches Ok(m) && meta_written(
                    m,
                    self@,
                    self.tokens_with(),
                    self.boundary(),
                    self.cap(),
                ),
            },
    {
        let ghost ps = self.model@;
        let ghost cap = cap_used(self.block_cap) as int;
        let ghost sealed = dict_blocks(ps, cap);
        let term_count: u64 = self.term_count;
        let tokenizer = self.tokenizer;
        let head_boundary: u32 = self.head_boundary;
        let block_cap: usize = self.block_cap;
        let blocks = self.blocks.finish();
        proof {
            reveal(blocks_hold);
        }
        let mut builder = router::new_builder();
        let mut dict_len: u64 = 0;
        let mut out: Vec<Vec<u8>> = Vec::new();
        let mut i: usize = 0;
        assert(routes(sealed).take(0) =~= Seq::<(Seq<u8>, u64)>::empty());
        while i < blocks.len()
            invariant
                i <= blocks@.len(),
                blocks_hold(blocks@, sealed),
                routes_error(sealed, 0) == routes_error(sealed, i as int),
                router::inserted(builder) == routes(sealed).take(i as int),
                dict_len == blocks_len(sealed, i as int),
                dict_len <= OFFSET_LIMIT + i * SIZE_LIMIT,
                i > 0 ==> dict_len < OFFSET_LIMIT + SIZE_LIMIT,
                out@.len() == i,
                forall|j: int| 0 <= j < i ==> (#[trigger] out@[j])@ == encode_block(sealed[j]),
                meta_error(ps, block_cap) is None ==> routes_error(sealed, 0) is None,
                routes_error(sealed, 0) is Some ==> meta_error(ps, block_cap) == routes_error(
                    sealed,
                    0,
                ),
                self@ == ps,
                self.cap() == block_cap,
            decreases blocks@.len() - i,
        {
            proof {
                reveal(blocks_hold);
                assert(sealed[i as int].len() > 0);
            }
            let b = &blocks[i];
            let block_len: u64 = b.bytes.len() as u64;
            if block_len >= SIZE_LIMIT {
                return Err(BuildError::DictBlockTooLarge);
            }
            if b.off >= OFFSET_LIMIT {
                return Err(BuildError::DictTooLarge);
            }
            let ghost before = router::inserted(builder);
            let packed: u64 = pack_loc(b.off, block_len);
            proof {
                assert(routes(sealed)[i as int] == (sealed[i as int].last().term, packed));
                if i > 0 {
                    assert(before.last() == routes(sealed)[i - 1]);
                }
            }
            if !router::insert(&mut builder, b.last_term.as_slice(), packed) {
                return Err(BuildError::TermOrder);
            }
            assert(router::inserted(builder) =~= routes(sealed).take(i + 1));
            dict_len = dict_len + block_len;
            out.push(bytes::copy_range(b.bytes.as_slice(), 0, b.bytes.len()));
            assert(out@[i as int]@ =~= encode_block(sealed[i as int]));
            i += 1;
        }
        assert(routes(sealed).take(i as int) =~= routes(sealed));
        let raw = router::finish(builder);
        if term_count > u32::MAX as u64 {
            return Err(BuildError::TermCountTooLarge);
        }
        let header = put_header(
            &tokenizer,
            term_count as u32,
            head_boundary,
            raw.len() as u64,
            dict_len,
            block_cap,
        );
        assert(raws(out@) =~= sealed.map_values(|es: Seq<DictEntry>| encode_block(es)));
        Ok((header, raw, out))
    }
}

/// The bytes of the first `n` dictionary blocks, end to end.
pub open spec fn dict_region(sealed: Seq<Seq<DictEntry>>, n: int) -> Seq<u8>
    decreases n,
{
    if n <= 0 {
        Seq::empty()
    } else {
        dict_region(sealed, n - 1) + encode_block(sealed[n - 1])
    }
}

/// The file of the terms `ps` with the given router.
pub open spec fn term_file(
    ps: Seq<Pushed>,
    t: Tokenizer,
    head_boundary: u32,
    block_cap: usize,
    raw: Seq<u8>,
) -> Seq<u8> {
    let sealed = dict_blocks(ps, cap_used(block_cap) as int);
    header_bytes(
        t,
        ps.len() as u32,
        head_boundary,
        raw.len() as u64,
        blocks_len(sealed, sealed.len() as int) as u64,
        block_cap,
    ) + raw + dict_region(sealed, sealed.len() as int) + region(ps)
}

impl TermIndexStreamWriter {
    /// Finishes the dictionary and the router, and returns the complete file around the
    /// `region` bytes that the caller sank.
    pub fn finish_into(self, region_bytes: &[u8]) -> (r: Result<Vec<u8>, BuildError>)
        requires
            self.wf(),
            region_bytes@ == region(self@),
        ensures
            match meta_error(self@, self.cap()) {
                Some(e) => r == Err::<Vec<u8>, _>(e),
                None => r matches Ok(file) && ({
                    let sealed = dict_blocks(self@, cap_used(self.cap()) as int);
                    let raw = map_image(usize::BITS as nat, routes(sealed));
                    &&& maps(raw, routes(sealed))
                    &&& file@ == term_file(
                        self@,
                        self.tokens_with(),
                        self.boundary(),
                        self.cap(),
                        raw,
                    )
                }),
            },
    {
        let ghost ps = self@;
        let ghost sealed = dict_blocks(self@, cap_used(self.cap()) as int);
        let m = match self.finish_meta() {
            Ok(m) => m,
            Err(e) => return Err(e),
        };
        let mut file = m.0;
        put_bytes(&mut file, m.1.as_slice());
        let ghost front = file@;
        let blocks = m.2;
        let mut i: usize = 0;
        assert(front + dict_region(sealed, 0) =~= front);
        assert(raws(blocks@).len() == blocks@.len());
        while i < blocks.len()
            invariant
                i <= blocks@.len(),
                blocks@.len() == sealed.len(),
                raws(blocks@) == sealed.map_values(|es: Seq<DictEntry>| encode_block(es)),
                file@ == front + dict_region(sealed, i as int),
            decreases blocks@.len() - i,
        {
            assert(raws(blocks@)[i as int] == encode_block(sealed[i as int]));
            put_bytes(&mut file, blocks[i].as_slice());
            assert(file@ =~= front + dict_region(sealed, i + 1));
            i += 1;
        }
        put_bytes(&mut file, region_bytes);
        Ok(file)
    }
}

/// The postings of an index under construction: for each term the docs that hold it.
pub struct TermPostings {
    terms: Vec<Vec<u8>>,
    docs: Vec<RoaringBitmap>,
}

impl TermPostings {
    /// The terms as UTF-8, in ascending byte order.
    pub closed spec fn terms(&self) -> Seq<Seq<u8>> {
        raws(self.terms@)
    }

    /// The docs of each term, in the order of the terms.
    pub closed spec fn docs(&self) -> Seq<Set<u32>> {
        self.docs@.map_values(|b: RoaringBitmap| ids(b))
    }

    /// The terms are strictly ascending, and each has its docs.
    pub open spec fn wf(&self) -> bool {
        &&& self.terms().len() == self.docs().len()
        &&& strictly_sorted(self.terms())
    }
}

impl View for TermPostings {
    type V = Map<Seq<u8>, Set<u32>>;

    /// The docs of each term.
    open spec fn view(&self) -> Map<Seq<u8>, Set<u32>> {
        posting_map(self.terms(), self.docs())
    }
}

/// The docs of each of `terms`.
pub open spec fn posting_map(terms: Seq<Seq<u8>>, docs: Seq<Set<u32>>) -> Map<Seq<u8>, Set<u32>> {
    Map::new(|t: Seq<u8>| terms.contains(t), |t: Seq<u8>| docs[terms.index_of(t)])
}

/// The postings `m` with `doc` recorded under `t`.
pub open spec fn posted(m: Map<Seq<u8>, Set<u32>>, t: Seq<u8>, doc: u32) -> Map<
    Seq<u8>,
    Set<u32>,
> {
    m.insert(
        t,
        (if m.contains_key(t) {
            m[t]
        } else {
            Set::empty()
        }).insert(doc),
    )
}

/// The postings `m` with `doc` recorded under each of `ts`.
pub open spec fn posted_all(m: Map<Seq<u8>, Set<u32>>, ts: Seq<Seq<u8>>, doc: u32) -> Map<
    Seq<u8>,
    Set<u32>,
>
    decreases ts.len(),
{
    if ts.len() == 0 {
        m
    } else {
        posted(posted_all(m, ts.drop_last(), doc), ts.last(), doc)
    }
}

/// In strictly ascending terms, the index of a term is the one where it stands.
proof fn lemma_index_of(terms: Seq<Seq<u8>>, i: int)
    requires
        strictly_sorted(terms),
        0 <= i < terms.len(),
    ensures
        terms.index_of(terms[i]) == i,
{
    let k = terms.index_of(terms[i]);
    assert(terms.contains(terms[i]));
    assert(0 <= k < terms.len() && terms[k] == terms[i]);
    bytes::lemma_lex_total(terms[i], terms[i]);
}

proof fn lemma_posted_update(terms: Seq<Seq<u8>>, docs: Seq<Set<u32>>, i: int, doc: u32)
    requires
        strictly_sorted(terms),
        terms.len() == docs.len(),
        0 <= i < terms.len(),
    ensures
        posting_map(terms, docs.update(i, docs[i].insert(doc))) == posted(
            posting_map(terms, docs),
            terms[i],
            doc,
        ),
{
    let a = posting_map(terms, docs.update(i, docs[i].insert(doc)));
    let b = posted(posting_map(terms, docs), terms[i], doc);
    lemma_index_of(terms, i);
    assert(terms.contains(terms[i]));
    assert(a.dom() =~= b.dom());
    assert forall|t: Seq<u8>| a.contains_key(t) implies a[t] == b[t] by {
        let k = terms.index_of(t);
        assert(terms[k] == t);
        if k == i {
        } else {
            assert(t != terms[i]) by {
                if t == terms[i] {
                    lemma_index_of(terms, i);
                }
            }
        }
    }
    assert(a =~= b);
}

proof fn lemma_posted_insert(terms: Seq<Seq<u8>>, docs: Seq<Set<u32>>, i: int, t: Seq<u8>, doc: u32)
    requires
        strictly_sorted(terms),
        terms.len() == docs.len(),
        0 <= i <= terms.len(),
        forall|j: int| 0 <= j < i ==> lex_lt(#[trigger] terms[j], t),
        i < terms.len() ==> lex_lt(t, terms[i]),
    ensures
        strictly_sorted(terms.insert(i, t)),
        posting_map(terms.insert(i, t), docs.insert(i, Set::<u32>::empty().insert(doc))) == posted(
            posting_map(terms, docs),
            t,
            doc,
        ),
{
    crate::terms::lemma_inserted(terms, t, i);
    let ts = terms.insert(i, t);
    let ds = docs.insert(i, Set::<u32>::empty().insert(doc));
    let a = posting_map(ts, ds);
    let b = posted(posting_map(terms, docs), t, doc);
    assert(!terms.contains(t)) by {
        if terms.contains(t) {
            let k = choose|k: int| 0 <= k < terms.len() && terms[k] == t;
            bytes::lemma_lex_total(t, t);
            if k > i {
                bytes::lemma_lex_trans(t, terms[i], terms[k]);
            }
        }
    }
    assert(ts[i] == t);
    lemma_index_of(ts, i);
    assert forall|u: Seq<u8>| a.dom().contains(u) <==> b.dom().contains(u) by {
        assert(ts.contains(u) <==> terms.contains(u) || u == t);
    }
    assert(a.dom() =~= b.dom());
    assert forall|u: Seq<u8>| a.contains_key(u) implies a[u] == b[u] by {
        if u != t {
            assert(terms.contains(u));
            let k = terms.index_of(u);
            assert(terms[k] == u);
            if k < i {
                assert(ts[k] == u);
                lemma_index_of(ts, k);
            } else {
                assert(ts[k + 1] == u);
                lemma_index_of(ts, k + 1);
            }
        }
    }
    assert(a =~= b);
}

impl TermPostings {
    /// No postings.
    pub fn new() -> (p: TermPostings)
        ensures
            p.wf(),
            p@ == Map::<Seq<u8>, Set<u32>>::empty(),
            p.terms().len() == 0,
    {
        let p = TermPostings { terms: Vec::new(), docs: Vec::new() };
        assert(p@ =~= Map::<Seq<u8>, Set<u32>>::empty());
        p
    }

    /// Number of terms.
    pub fn len(&self) -> (n: usize)
        ensures
            n == self.terms().len(),
    {
        self.terms.len()
    }

    /// The term at `i`, as UTF-8.
    pub fn term(&self, i: usize) -> (t: &[u8])
        requires
            i < self.terms().len(),
        ensures
            t@ == self.terms()[i as int],
    {
        self.terms[i].as_slice()
    }

    /// The docs of the term at `i`.
    pub fn posting(&self, i: usize) -> (b: &RoaringBitmap)
        requires
            self.wf(),
            i < self.terms().len(),
        ensures
            ids(*b) == self.docs()[i as int],
    {
        assert(self.docs().len() == self.docs@.len());
        &self.docs[i]
    }

    /// The index of the first term that does not sort before `term`.
    fn lower_bound(&self, term: &[u8]) -> (at: usize)
        requires
            self.wf(),
        ensures
            at <= self.terms().len(),
            forall|j: int| 0 <= j < at ==> lex_lt(#[trigger] self.terms()[j], term@),
            at < self.terms().len() ==> !lex_lt(self.terms()[at as int], term@),
    {
        let mut lo: usize = 0;
        let mut hi: usize = self.terms.len();
        while lo < hi
            invariant
                lo <= hi <= self.terms@.len(),
                self.wf(),
                forall|j: int| 0 <= j < lo ==> lex_lt(#[trigger] self.terms()[j], term@),
                hi < self.terms@.len() ==> !lex_lt(self.terms()[hi as int], term@),
            decreases hi - lo,
        {
            let mid: usize = lo + (hi - lo) / 2;
            if matches!(order_bytes(self.terms[mid].as_slice(), term), ByteOrder::Before) {
                proof {
                    assert(lex_lt(self.terms()[mid as int], term@));
                    assert forall|j: int| 0 <= j < mid + 1 implies lex_lt(
                        #[trigger] self.terms()[j],
                        term@,
                    ) by {
                        if j < mid {
                            bytes::lemma_lex_trans(
                                self.terms()[j],
                                self.terms()[mid as int],
                                term@,
                            );
                        }
                    }
                }
                lo = mid + 1;
            } else {
                hi = mid;
            }
        }
        lo
    }

    /// Whether there is a posting for `term`.
    pub fn contains(&self, term: &[u8]) -> (yes: bool)
        requires
            self.wf(),
        ensures
            yes == self@.contains_key(term@),
    {
        let at = self.lower_bound(term);
        let yes = at < self.terms.len() && matches!(
            order_bytes(self.terms[at].as_slice(), term),
            ByteOrder::Same
        );
        proof {
            let ts = self.terms();
            if yes {
                assert(ts[at as int] == term@);
            } else if ts.contains(term@) {
                let k = choose|k: int| 0 <= k < ts.len() && ts[k] == term@;
                bytes::lemma_lex_total(term@, term@);
                if k > at {
                    bytes::lemma_lex_total(ts[at as int], term@);
                }
            }
        }
        yes
    }

    /// Records `doc` under `term`.
    pub fn post(&mut self, term: &[u8], doc: u32)
        requires
            old(self).wf(),
        ensures
            final(self).wf(),
            final(self)@ == posted(old(self)@, term@, doc),
    {
        let at = self.lower_bound(term);
        let ghost terms0 = self.terms();
        let ghost docs0 = self.docs();
        assert(docs0.len() == self.docs@.len());
        if at < self.terms.len() && matches!(
            order_bytes(self.terms[at].as_slice(), term),
            ByteOrder::Same
        ) {
            proof {
                lemma_posted_update(terms0, docs0, at as int, doc);
            }
            self.docs[at].insert(doc);
            assert(self.docs() =~= docs0.update(at as int, docs0[at as int].insert(doc)));
        } else {
            proof {
                if at < terms0.len() {
                    bytes::lemma_lex_total(terms0[at as int], term@);
                }
                lemma_posted_insert(terms0, docs0, at as int, term@, doc);
            }
            let mut b = RoaringBitmap::new();
            b.insert(doc);
            self.terms.insert(at, bytes::copy_range(term, 0, term.len()));
            self.docs.insert(at, b);
            proof {
                assert(term@.subrange(0, term@.len() as int) =~= term@);
                assert(self.terms() =~= terms0.insert(at as int, term@));
                assert(self.docs() =~= docs0.insert(at as int, Set::<u32>::empty().insert(doc)));
            }
        }
    }

    /// Records `doc` under each of `words`.
    pub fn post_all(&mut self, words: &[String], doc: u32)
        requires
            old(self).wf(),
        ensures
            final(self).wf(),
            final(self)@ == posted_all(old(self)@, encoded(texts(words@)), doc),
    {
        let ghost all = encoded(texts(words@));
        let mut i: usize = 0;
        assert(all.take(0) =~= Seq::<Seq<u8>>::empty());
        while i < words.len()
            invariant
                i <= words@.len(),
                self.wf(),
                all == encoded(texts(words@)),
                self@ == posted_all(old(self)@, all.take(i as int), doc),
            decreases words@.len() - i,
        {
            let raw = text::bytes_of(words[i].as_str());
            proof {
                assert(all.take(i + 1).drop_last() =~= all.take(i as int));
                assert(all.take(i + 1).last() == raw@);
            }
            self.post(raw, doc);
            i += 1;
        }
        assert(all.take(i as int) =~= all);
    }
}

/// Whether `ps` are the first terms of the postings, each with its docs split at `boundary`.
pub open spec fn splits(
    ps: Seq<Pushed>,
    terms: Seq<Seq<u8>>,
    docs: Seq<Set<u32>>,
    boundary: u32,
) -> bool {
    &&& ps.len() <= terms.len()
    &&& forall|i: int|
        0 <= i < ps.len() ==> (#[trigger] ps[i]).term == terms[i] && read_ids(ps[i].head) == Some(
            below(docs[i], boundary),
        ) && read_ids(ps[i].tail) == Some(from_on(docs[i], boundary)) && ps[i].head == image(
            below(docs[i], boundary),
        ) && ps[i].tail == image(from_on(docs[i], boundary))
}

/// Whether no term of `ps` before the index `n` was refused.
pub open spec fn accepted(ps: Seq<Pushed>, n: int) -> bool {
    forall|i: int|
        0 <= i < n ==> push_error(#[trigger] ps.take(i), ps[i].head.len()) is None
}

/// Whether writing the terms `ps` of `count` ends in `r`: the file of all of them, the refusal
/// of the last one, or the refusal of the dictionary.
pub open spec fn written(
    ps: Seq<Pushed>,
    count: nat,
    t: Tokenizer,
    head_boundary: u32,
    block_cap: usize,
    r: Result<Vec<u8>, BuildError>,
) -> bool {
    let sealed = dict_blocks(ps, cap_used(block_cap) as int);
    let raw = map_image(usize::BITS as nat, routes(sealed));
    match r {
        Ok(file) => {
            &&& ps.len() == count
            &&& accepted(ps, count as int)
            &&& meta_error(ps, block_cap) is None
            &&& maps(raw, routes(sealed))
            &&& file@ == term_file(ps, t, head_boundary, block_cap, raw)
        },
        Err(e) => {
            ||| ps.len() > 0 && accepted(ps, ps.len() - 1) && push_error(
                ps.drop_last(),
                ps.last().head.len(),
            ) == Some(e)
            ||| ps.len() == count && accepted(ps, count as int) && meta_error(ps, block_cap)
                == Some(e)
        },
    }
}

/// Whether `r` is what writing the postings `(terms, docs)` ends in. How long a serialized
/// posting is, and so whether it fits, is the bitmap format's affair.
pub open spec fn index_written(
    terms: Seq<Seq<u8>>,
    docs: Seq<Set<u32>>,
    t: Tokenizer,
    head_boundary: u32,
    block_cap: usize,
    r: Result<Vec<u8>, BuildError>,
) -> bool {
    exists|ps: Seq<Pushed>|
        #[trigger] splits(ps, terms, docs, head_boundary) && written(
            ps,
            terms.len(),
            t,
            head_boundary,
            block_cap,
            r,
        )
}

/// Writes a term index from accumulated postings, in ascending byte order of the terms: the
/// header, the router, the dictionary blocks, and the postings region.
pub fn write_term_index_from_postings(
    postings: &TermPostings,
    head_boundary: u32,
    language: Option<Language>,
    stopwords: bool,
    case_normalization: bool,
    block_cap: usize,
) -> (r: Result<Vec<u8>, BuildError>)
    requires
        postings.wf(),
    ensures
        index_written(
            postings.terms(),
            postings.docs(),
            Tokenizer { language, stopwords, case_fold: case_normalization },
            head_boundary,
            block_cap,
            r,
        ),
{
    let ghost t = Tokenizer { language, stopwords, case_fold: case_normalization };
    let mut sw = TermIndexStreamWriter::new(
        head_boundary,
        language,
        stopwords,
        case_normalization,
        block_cap,
    );
    let mut region_bytes: Vec<u8> = Vec::new();
    let mut i: usize = 0;
    let n: usize = postings.len();
    while i < n
        invariant
            i <= n,
            n == postings.terms().len(),
            postings.wf(),
            sw.wf(),
            sw@.len() == i,
            sw.boundary() == head_boundary,
            sw.tokens_with() == t,
            sw.cap() == block_cap,
            region_bytes@ == region(sw@),
            splits(sw@, postings.terms(), postings.docs(), head_boundary),
            accepted(sw@, i as int),
        decreases n - i,
    {
        let parts = split_posting(postings.posting(i), head_boundary);
        let ghost before = sw@;
        let ghost p = Pushed {
            term: postings.terms()[i as int],
            head: parts.0@,
            tail: parts.1@,
        };
        proof {
            let after = before.push(p);
            assert(splits(after, postings.terms(), postings.docs(), head_boundary));
            assert(after.drop_last() =~= before);
            assert forall|k: int| 0 <= k < i implies push_error(
                #[trigger] after.take(k),
                after[k].head.len(),
            ) is None by {
                assert(after.take(k) =~= before.take(k));
            }
            lemma_region_push(before, p);
        }
        match sw.push(postings.term(i), parts.0.as_slice(), parts.1.as_slice()) {
            Err(e) => {
                let r: Result<Vec<u8>, BuildError> = Err(e);
                assert(written(
                    before.push(p),
                    postings.terms().len(),
                    t,
                    head_boundary,
                    block_cap,
                    r,
                ));
                return r;
            },
            Ok(block) => {
                put_bytes(&mut region_bytes, block.as_slice());
                assert(sw@ == before.push(p));
                assert(sw@.take(i as int) =~= before);
            },
        }
        i += 1;
    }
    let ghost ps = sw@;
    let r = sw.finish_into(region_bytes.as_slice());
    assert(written(ps, postings.terms().len(), t, head_boundary, block_cap, r));
    r
}

/// A builder of a term index. Each document is tokenized and its text discarded, so that only
/// the postings grow.
pub struct TermIndexBuilder {
    postings: TermPostings,
    tokenizer: Tokenizer,
    head_boundary: u32,
    block_cap: usize,
}

impl View for TermIndexBuilder {
    type V = Map<Seq<u8>, Set<u32>>;

    /// The docs recorded under each term.
    closed spec fn view(&self) -> Map<Seq<u8>, Set<u32>> {
        self.postings@
    }
}

impl TermIndexBuilder {
    /// The terms are strictly ascending, and each has its docs.
    pub closed spec fn wf(&self) -> bool {
        self.postings.wf()
    }

    /// The terms as UTF-8, in ascending byte order.
    pub closed spec fn terms(&self) -> Seq<Seq<u8>> {
        self.postings.terms()
    }

    /// The docs of each term, in the order of the terms.
    pub closed spec fn docs(&self) -> Seq<Set<u32>> {
        self.postings.docs()
    }

    /// The builder's tokenizer.
    pub closed spec fn tokens_with(&self) -> Tokenizer {
        self.tokenizer
    }

    /// The doc-ID head/tail split.
    pub closed spec fn boundary(&self) -> u32 {
        self.head_boundary
    }

    /// The dictionary block cap asked for.
    pub closed spec fn cap(&self) -> usize {
        self.block_cap
    }

    /// Whether the builder's settings are those of `config`.
    pub open spec fn configured(&self, config: TermIndexConfig) -> bool {
        &&& self.tokens_with() == config.tokenizer()
        &&& self.boundary() == config.head_boundary
        &&& self.cap() == config.block_cap
    }

    /// Creates an empty builder with the given config.
    pub fn new(config: &TermIndexConfig) -> (b: TermIndexBuilder)
        ensures
            b.wf(),
            b@ == Map::<Seq<u8>, Set<u32>>::empty(),
            b.configured(*config),
    {
        TermIndexBuilder {
            postings: TermPostings::new(),
            tokenizer: Tokenizer::new(config.language, config.stopwords, !config.case_sensitive),
            head_boundary: config.head_boundary,
            block_cap: config.block_cap,
        }
    }

    /// Tokenizes `text` and records `doc` under each resulting term.
    pub fn add(&mut self, doc: u32, text: &str)
        requires
            old(self).wf(),
        ensures
            final(self).wf(),
            final(self)@ == posted_all(
                old(self)@,
                encoded(old(self).tokens_with().terms(text@)),
                doc,
            ),
            final(self).tokens_with() == old(self).tokens_with(),
            final(self).boundary() == old(self).boundary(),
            final(self).cap() == old(self).cap(),
    {
        let words = self.tokenizer.tokenize(text);
        self.postings.post_all(words.as_slice(), doc);
    }

    /// Number of distinct terms accumulated so far.
    pub fn len(&self) -> (n: usize)
        requires
            self.wf(),
        ensures
            n == self.terms().len(),
            n == self@.dom().len(),
    {
        proof {
            lemma_dom_len(self.terms(), self.docs());
        }
        self.postings.len()
    }

    /// Whether no terms have been added.
    pub fn is_empty(&self) -> (yes: bool)
        requires
            self.wf(),
        ensures
            yes == (self.terms().len() == 0),
            yes == (self@.dom().len() == 0),
    {
        self.len() == 0
    }

    /// The accumulated term index.
    pub fn finish(self) -> (r: Result<Vec<u8>, BuildError>)
        requires
            self.wf(),
        ensures
            self@ == posting_map(self.terms(), self.docs()),
            strictly_sorted(self.terms()) && self.terms().len() == self.docs().len(),
            index_written(
                self.terms(),
                self.docs(),
                self.tokens_with(),
                self.boundary(),
                self.cap(),
                r,
            ),
    {
        write_term_index_from_postings(
            &self.postings,
            self.head_boundary,
            self.tokenizer.language,
            self.tokenizer.stopwords,
            self.tokenizer.case_fold,
            self.block_cap,
        )
    }
}

proof fn lemma_dom_len(terms: Seq<Seq<u8>>, docs: Seq<Set<u32>>)
    requires
        strictly_sorted(terms),
    ensures
        posting_map(terms, docs).dom().len() == terms.len(),
{
    assert forall|i: int, j: int| 0 <= i < terms.len() && 0 <= j < terms.len() && i
        != j implies terms[i] != terms[j] by {
        bytes::lemma_lex_total(terms[i], terms[j]);
        if i < j {
            assert(lex_lt(terms[i], terms[j]));
        } else {
            assert(lex_lt(terms[j], terms[i]));
        }
    }
    assert(terms.no_duplicates());
    terms.unique_seq_to_set();
    assert(posting_map(terms, docs).dom() =~= terms.to_set());
}

/// The docs recorded under each term once the documents `docs` have been added.
pub open spec fn corpus(docs: Seq<(u32, &str)>, t: Tokenizer) -> Map<Seq<u8>, Set<u32>>
    decreases docs.len(),
{
    if docs.len() == 0 {
        Map::empty()
    } else {
        posted_all(
            corpus(docs.drop_last(), t),
            encoded(t.terms(docs.last().1@)),
            docs.last().0,
        )
    }
}

/// Whether `r` is what building an index over the corpus `m` ends in.
pub open spec fn corpus_written(
    m: Map<Seq<u8>, Set<u32>>,
    config: TermIndexConfig,
    r: Result<Vec<u8>, BuildError>,
) -> bool {
    exists|terms: Seq<Seq<u8>>, docs: Seq<Set<u32>>|
        strictly_sorted(terms) && terms.len() == docs.len() && #[trigger] posting_map(terms, docs)
            == m && index_written(
            terms,
            docs,
            config.tokenizer(),
            config.head_boundary,
            config.block_cap,
            r,
        )
}

/// Builds an unstemmed term index over `(doc_id, text)` documents. Doc IDs should be the shared
/// rank-order IDs; `head_boundary` is the doc-ID head/tail split.
pub fn write_term_index(docs: &[(u32, &str)], head_boundary: u32) -> (r: Result<
    Vec<u8>,
    BuildError,
>)
    ensures
        ({
            let config = TermIndexConfig {
                head_boundary,
                language: None,
                stopwords: false,
                case_sensitive: false,
                block_cap: 0,
            };
            corpus_written(corpus(docs@, config.tokenizer()), config, r)
        }),
{
    write_term_index_with(
        docs,
        &TermIndexConfig {
            head_boundary,
            language: None,
            stopwords: false,
            case_sensitive: false,
            block_cap: 0,
        },
    )
}

/// Builds a term index with an explicit configuration over `docs`.
pub fn write_term_index_with(docs: &[(u32, &str)], config: &TermIndexConfig) -> (r: Result<
    Vec<u8>,
    BuildError,
>)
    ensures
        corpus_written(corpus(docs@, config.tokenizer()), *config, r),
{
    let mut builder = TermIndexBuilder::new(config);
    let mut i: usize = 0;
    assert(docs@.take(0) =~= Seq::<(u32, &str)>::empty());
    while i < docs.len()
        invariant
            i <= docs@.len(),
            builder.wf(),
            builder.configured(*config),
            builder@ == corpus(docs@.take(i as int), config.tokenizer()),
        decreases docs@.len() - i,
    {
        assert(docs@.take(i + 1).drop_last() =~= docs@.take(i as int));
        builder.add(docs[i].0, docs[i].1);
        i += 1;
    }
    assert(docs@.take(i as int) =~= docs@);
    builder.finish()
}

proof fn lemma_header_pieces(
    t: Tokenizer,
    term_count: u32,
    head_boundary: u32,
    router_len: u64,
    dict_len: u64,
    block_cap: usize,
)
    ensures
        ({
            let h = header_bytes(t, term_count, head_boundary, router_len, dict_len, block_cap);
            &&& h.len() == 40
            &&& h.take(4) == magic()
            &&& h.subrange(4, 6) == le16(VERSION)
            &&& h.subrange(6, 8) == le16(t.flags())
            &&& h.subrange(8, 12) == le32(term_count)
            &&& h.subrange(12, 16) == le32(head_boundary)
            &&& h.subrange(16, 24) == le64(router_len)
            &&& h.subrange(24, 32) == le64(dict_len)
            &&& h[36] == t.language_byte()
        }),
{
    let h = header_bytes(t, term_count, head_boundary, router_len, dict_len, block_cap);
    assert(h.take(4) =~= magic());
    assert(h.subrange(4, 6) =~= le16(VERSION));
    assert(h.subrange(6, 8) =~= le16(t.flags()));
    assert(h.subrange(8, 12) =~= le32(term_count));
    assert(h.subrange(12, 16) =~= le32(head_boundary));
    assert(h.subrange(16, 24) =~= le64(router_len));
    assert(h.subrange(24, 32) =~= le64(dict_len));
}

/// Reading a header gives back what was written, and with it the builder's own tokenizer.
pub proof fn law_header_roundtrip(
    t: Tokenizer,
    term_count: u32,
    head_boundary: u32,
    router_len: u64,
    dict_len: u64,
    block_cap: usize,
)
    ensures
        ({
            let h = header_bytes(t, term_count, head_boundary, router_len, dict_len, block_cap);
            &&& h.len() == HEADER_SIZE
            &&& header_of(h) matches Ok(f) && f.term_count == term_count && f.head_boundary
                == head_boundary && f.router_len == router_len && f.dict_len == dict_len
                && Tokenizer::described(f.flags, f.language) == t
        }),
{
    let h = header_bytes(t, term_count, head_boundary, router_len, dict_len, block_cap);
    lemma_header_pieces(t, term_count, head_boundary, router_len, dict_len, block_cap);
    bytes::lemma_u16_at(h, 4, VERSION);
    bytes::lemma_u16_at(h, 6, t.flags());
    bytes::lemma_u32_at(h, 8, term_count);
    bytes::lemma_u32_at(h, 12, head_boundary);
    bytes::lemma_u64_at(h, 16, router_len);
    bytes::lemma_u64_at(h, 24, dict_len);
    crate::tokenize::law_tokenizer_roundtrip(t);
}

/// The index `raw` with `language` in the language byte of its header.
pub open spec fn language_recorded(raw: Seq<u8>, language: Option<Language>) -> Seq<u8> {
    let byte = match language {
        Some(l) => l.code(),
        None => 0u8,
    };
    if raw.len() > 36 {
        raw.update(36, byte)
    } else {
        raw
    }
}

/// Writes `language` into the language byte of the header of the index `raw`, also where its
/// terms are not stemmed.
pub fn record_language(raw: &mut Vec<u8>, language: Option<Language>)
    ensures
        final(raw)@ == language_recorded(old(raw)@, language),
{
    let byte: u8 = match language {
        Some(l) => l.to_u8(),
        None => 0,
    };
    if raw.len() > 36 {
        raw.set(36, byte);
    }
}

/// The recorded language is what a reader finds in the header, and nothing else changes. Of a
/// tokenizer without a stemmer a reader still rebuilds the same one, and a stemmer's own
/// language is there already.
pub proof fn law_language_recorded(raw: Seq<u8>, language: Option<Language>)
    ensures
        language_recorded(raw, language).len() == raw.len(),
        header_of(raw) is Ok ==> header_of(language_recorded(raw, language)) == Ok::<_, IndexError>(
            (TermHeader {
                language: match language {
                    Some(l) => l.code(),
                    None => 0u8,
                },
                ..header_of(raw)->Ok_0
            }),
        ),
        forall|t: Tokenizer, byte: u8|
            t.language is None ==> #[trigger] Tokenizer::described(t.flags(), byte) == t,
        forall|i: int| 0 <= i < raw.len() && i != 36 ==> language_recorded(raw, language)[i] == raw[i],
{
    let out = language_recorded(raw, language);
    if header_of(raw) is Ok {
        assert(out.take(4) =~= raw.take(4));
        assert(out.subrange(4, 6) =~= raw.subrange(4, 6));
        assert(out.subrange(6, 8) =~= raw.subrange(6, 8));
        assert(out.subrange(8, 12) =~= raw.subrange(8, 12));
        assert(out.subrange(12, 16) =~= raw.subrange(12, 16));
        assert(out.subrange(16, 24) =~= raw.subrange(16, 24));
        assert(out.subrange(24, 32) =~= raw.subrange(24, 32));
    }
    assert forall|t: Tokenizer, byte: u8| t.language is None implies #[trigger] Tokenizer::described(
        t.flags(),
        byte,
    ) == t by {
        crate::tokenize::law_tokenizer_roundtrip(t);
        let b: u16 = if t.stopwords {
            crate::tokenize::FLAG_STOPWORDS
        } else {
            0
        };
        let c: u16 = if t.case_fold {
            0
        } else {
            crate::tokenize::FLAG_CASE_SENSITIVE
        };
        assert((b == 0 || b == 2) && (c == 0 || c == 4) ==> ((0u16 | b | c) & 1 == 0)) by (bit_vector);
    }
}

/// The router's first entry for `term` is that of the block where `term` could be.
proof fn lemma_at_least(
    es: Seq<(Seq<u8>, u64)>,
    sealed: Seq<Seq<DictEntry>>,
    term: Seq<u8>,
)
    requires
        es.len() == sealed.len(),
        forall|i: int| 0 <= i < es.len() ==> (#[trigger] es[i]).0 == sealed[i].last().term,
    ensures
        match route(sealed, term) {
            Some(i) => 0 <= i < es.len() && at_least(es, term) == es.skip(i),
            None => at_least(es, term).len() == 0,
        },
    decreases es.len(),
{
    if es.len() > 0 {
        if lex_lt(es[0].0, term) {
            let rest = es.drop_first();
            let srest = sealed.drop_first();
            assert forall|i: int| 0 <= i < rest.len() implies (#[trigger] rest[i]).0
                == srest[i].last().term by {
                assert(rest[i] == es[i + 1]);
            }
            lemma_at_least(rest, srest, term);
            if let Some(i) = route(srest, term) {
                assert(rest.skip(i) =~= es.skip(i + 1));
            }
        } else {
            assert(es.skip(0) =~= es);
        }
    }
}

proof fn lemma_dict_region(sealed: Seq<Seq<DictEntry>>, i: int, n: int)
    requires
        0 <= i < n,
        n <= sealed.len(),
    ensures
        dict_region(sealed, n).len() == blocks_len(sealed, n),
        blocks_len(sealed, i) + encode_block(sealed[i]).len() <= blocks_len(sealed, n),
        dict_region(sealed, n).subrange(
            blocks_len(sealed, i) as int,
            (blocks_len(sealed, i) + encode_block(sealed[i]).len()) as int,
        ) == encode_block(sealed[i]),
    decreases n,
{
    let a = blocks_len(sealed, i) as int;
    let b = a + encode_block(sealed[i]).len();
    if n - 1 > i {
        lemma_dict_region(sealed, i, n - 1);
        assert(dict_region(sealed, n).subrange(a, b) =~= dict_region(sealed, n - 1).subrange(a, b));
    } else {
        lemma_dict_len(sealed, n - 1);
        assert(dict_region(sealed, n).subrange(a, b) =~= encode_block(sealed[i]));
    }
}

proof fn lemma_dict_len(sealed: Seq<Seq<DictEntry>>, n: int)
    ensures
        dict_region(sealed, n).len() == blocks_len(sealed, n),
    decreases n,
{
    if n > 0 {
        lemma_dict_len(sealed, n - 1);
    }
}

proof fn lemma_no_route_error(sealed: Seq<Seq<DictEntry>>, from: int, i: int)
    requires
        0 <= from <= i < sealed.len(),
        routes_error(sealed, from) is None,
    ensures
        route_error(sealed, i) is None,
    decreases i - from,
{
    if from < i {
        lemma_no_route_error(sealed, from + 1, i);
    }
}

/// Whether the terms `ps` can be written and found again: strictly ascending, none refused, and
/// each fits in memory.
pub open spec fn findable(ps: Seq<Pushed>, block_cap: usize) -> bool {
    &&& accepted(ps, ps.len() as int)
    &&& meta_error(ps, block_cap) is None
    &&& forall|i: int, j: int|
        0 <= i < j < ps.len() ==> lex_lt(#[trigger] ps[i].term, #[trigger] ps[j].term)
    &&& forall|i: int| 0 <= i < ps.len() ==> (#[trigger] ps[i]).term.len() <= usize::MAX
}

proof fn lemma_dict_codable(ps: Seq<Pushed>, block_cap: usize)
    requires
        findable(ps, block_cap),
    ensures
        codable(dict(ps)),
        ascending(dict(ps)),
{
    let d = dict(ps);
    assert forall|i: int| 0 <= i < d.len() implies (#[trigger] d[i]).term.len() <= usize::MAX
        && d[i].head_size <= usize::MAX by {
        assert(push_error(ps.take(i), ps[i].head.len()) is None);
        assert(ps[i].term.len() <= usize::MAX);
    }
    assert forall|i: int, j: int| 0 <= i <= j < d.len() implies d[i].head_off <= d[j].head_off by {
        lemma_region_grows(ps.take(j), i);
        assert(ps.take(j).take(i) =~= ps.take(i));
    }
    assert forall|i: int, j: int| 0 <= i < j < d.len() implies lex_lt(d[i].term, d[j].term) by {
        assert(lex_lt(ps[i].term, ps[j].term));
    }
}

/// What the reader makes of a written file at boot.
#[verifier::opaque]
pub open spec fn booted(ps: Seq<Pushed>, t: Tokenizer, boundary: u32, cap: usize, raw: Seq<u8>) -> TermsView {
    let file = term_file(ps, t, boundary, cap, raw);
    TermsView::of(header_of(file.take(40))->Ok_0, raw)
}

proof fn lemma_booted(ps: Seq<Pushed>, t: Tokenizer, boundary: u32, cap: usize, raw: Seq<u8>)
    requires
        meta_error(ps, cap) is None,
        term_file(ps, t, boundary, cap, raw).len() <= u64::MAX,
    ensures
        ({
            let sealed = dict_blocks(ps, cap_used(cap) as int);
            let file = term_file(ps, t, boundary, cap, raw);
            let v = booted(ps, t, boundary, cap, raw);
            let start = 40 + raw.len();
            let n = blocks_len(sealed, sealed.len() as int);
            &&& header_of(file.take(40)) is Ok
            &&& v.router == raw
            &&& v.dict_start == start
            &&& v.postings_offset == start + n
            &&& v.head_boundary == boundary
            &&& v.term_count == ps.len()
            &&& v.tokenizer == t
            &&& file.len() == start + n + region(ps).len()
            &&& file.subrange(start as int, (start + n) as int) == dict_region(
                sealed,
                sealed.len() as int,
            )
            &&& file.subrange((start + n) as int, file.len() as int) == region(ps)
        }),
{
    let sealed = dict_blocks(ps, cap_used(cap) as int);
    let file = term_file(ps, t, boundary, cap, raw);
    let n = blocks_len(sealed, sealed.len() as int);
    reveal(booted);
    lemma_dict_len(sealed, sealed.len() as int);
    let h = header_bytes(t, ps.len() as u32, boundary, raw.len() as u64, n as u64, cap);
    lemma_header_pieces(t, ps.len() as u32, boundary, raw.len() as u64, n as u64, cap);
    law_header_roundtrip(t, ps.len() as u32, boundary, raw.len() as u64, n as u64, cap);
    let start = 40 + raw.len();
    let d = dict_region(sealed, sealed.len() as int);
    assert(file.len() == start + n + region(ps).len());
    assert(file.take(40) =~= h);
    assert(file.subrange(start as int, (start + n) as int) =~= d);
    assert(file.subrange((start + n) as int, file.len() as int) =~= region(ps));
}

proof fn lemma_booted_region(
    ps: Seq<Pushed>,
    t: Tokenizer,
    boundary: u32,
    cap: usize,
    raw: Seq<u8>,
)
    requires
        meta_error(ps, cap) is None,
        term_file(ps, t, boundary, cap, raw).len() <= u64::MAX,
    ensures
        ({
            let file = term_file(ps, t, boundary, cap, raw);
            let v = booted(ps, t, boundary, cap, raw);
            &&& file.len() == v.postings_offset + region(ps).len()
            &&& file.subrange(v.postings_offset as int, file.len() as int) == region(ps)
        }),
{
    lemma_booted(ps, t, boundary, cap, raw);
}

/// Where the reader finds `term` in a written file: it scans the dictionary block that the
/// router names.
pub open spec fn looked_up(v: TermsView, file: Seq<u8>, term: Seq<u8>) -> Option<(u64, usize)> {
    match v.block_range(term) {
        None => None,
        Some(r) => scan_entries(block_entries(file.subrange(r.0 as int, r.0 + r.1)), term),
    }
}

/// The reader finds exactly the terms that were written, each at its own posting, through one
/// dictionary block.
pub proof fn law_term_found(
    ps: Seq<Pushed>,
    t: Tokenizer,
    boundary: u32,
    cap: usize,
    raw: Seq<u8>,
    term: Seq<u8>,
)
    requires
        findable(ps, cap),
        maps(raw, routes(dict_blocks(ps, cap_used(cap) as int))),
        term_file(ps, t, boundary, cap, raw).len() <= u64::MAX,
    ensures
        ({
            let file = term_file(ps, t, boundary, cap, raw);
            let v = booted(ps, t, boundary, cap, raw);
            &&& header_of(file.take(40)) is Ok
            &&& v.tokenizer == t
            &&& v.term_count == ps.len()
            &&& v.block_range(term) matches Some(r) ==> r.0 + r.1 <= file.len()
            &&& located(dict(ps), term, looked_up(v, file, term))
        }),
{
    let sealed = dict_blocks(ps, cap_used(cap) as int);
    let file = term_file(ps, t, boundary, cap, raw);
    let v = booted(ps, t, boundary, cap, raw);
    lemma_booted(ps, t, boundary, cap, raw);
    lemma_dict_codable(ps, cap);
    terms_dict::law_lookup(dict(ps), cap_used(cap) as int, term);
    assert(located(dict(ps), term, lookup(sealed, term)));
    lemma_at_least(routes(sealed), sealed, term);
    assert(streamed(raw, term) == at_least(routes(sealed), term));
    if let Some(i) = route(sealed, term) {
        lemma_no_route_error(sealed, 0, i);
        lemma_dict_region(sealed, i, sealed.len() as int);
        assert(at_least(routes(sealed), term)[0] == routes(sealed)[i]);
        let off = blocks_len(sealed, i);
        let len = encode_block(sealed[i]).len();
        terms_dict::law_pack_unpack(off as u64, len as u64);
        let a = v.dict_start + off;
        assert(v.block_range(term) == Some((a as u64, len as usize)));
        let d = dict_region(sealed, sealed.len() as int);
        assert(file.subrange(a, a + len) =~= d.subrange(off as int, (off + len) as int));
    }
}

proof fn lemma_region_at(ps: Seq<Pushed>, i: int)
    requires
        0 <= i < ps.len(),
    ensures
        ({
            let a = region(ps.take(i)).len();
            let block = posting_block(ps[i].head, ps[i].tail);
            &&& a + block.len() <= region(ps).len()
            &&& region(ps).subrange(a as int, (a + block.len()) as int) == block
        }),
    decreases ps.len(),
{
    let a = region(ps.take(i)).len();
    let block = posting_block(ps[i].head, ps[i].tail);
    let front = ps.drop_last();
    if i < ps.len() - 1 {
        lemma_region_at(front, i);
        assert(front.take(i) =~= ps.take(i));
        assert(region(ps).subrange(a as int, (a + block.len()) as int) =~= region(front).subrange(
            a as int,
            (a + block.len()) as int,
        ));
    } else {
        assert(ps.take(i) =~= front);
        assert(region(ps).subrange(a as int, (a + block.len()) as int) =~= block);
    }
}

/// What a posting block at `base` of a file reads as.
proof fn lemma_block_read(file: Seq<u8>, base: int, head: Seq<u8>, tail: Seq<u8>)
    requires
        0 <= base,
        base + 4 + head.len() + tail.len() <= file.len(),
        file.subrange(base, base + 4 + head.len() + tail.len()) == posting_block(head, tail),
    ensures
        ({
            let block = file.subrange(base, base + 4 + head.len());
            &&& block.subrange(4, 4 + head.len() as int) == head
            &&& bytes::u32_at(block, 0) == word32(tail.len())
            &&& file.subrange(base + 4 + head.len(), base + 4 + head.len() + tail.len()) == tail
        }),
{
    let size = head.len() as int;
    let n = 4 + size + tail.len();
    let whole = posting_block(head, tail);
    let block = file.subrange(base, base + 4 + size);
    assert(block =~= whole.subrange(0, 4 + size));
    assert(whole.subrange(0, 4 + size).subrange(4, 4 + size) =~= head);
    assert(whole.subrange(0, 4 + size).subrange(0, 4) =~= le32(word32(tail.len())));
    bytes::lemma_u32_at(block, 0, word32(tail.len()));
    assert(file.subrange(base + 4 + size, base + n) =~= whole.subrange(4 + size, n));
    assert(whole.subrange(4 + size, n) =~= tail);
}

/// Whether the reader finds the posting `(head, tail)` of a file at the offset `off` of its
/// region: the head in one ranged read, which also says where the tail is.
#[verifier::opaque]
pub open spec fn posting_at(
    file: Seq<u8>,
    v: TermsView,
    off: u64,
    head: Seq<u8>,
    tail: Seq<u8>,
) -> bool {
    let base = v.postings_offset + off;
    let want = 4 + head.len();
    let block = file.subrange(base, base + want);
    &&& v.head_range(off, head.len() as usize) == Ok::<(u64, usize), crate::error::IndexError>(
        (base as u64, want as usize),
    )
    &&& base + want + tail.len() <= file.len()
    &&& block.subrange(4, want as int) == head
    &&& file.subrange(base + want, base + want + tail.len()) == tail
    &&& read_ids(head) matches Some(docs) ==> crate::terms::head_of(
        base as u64,
        want as usize,
        block,
    ) == Ok::<(Set<u32>, u64, usize), crate::error::IndexError>(
        (docs, (base + want) as u64, word32(tail.len()) as usize),
    )
}

proof fn lemma_posting_in_file(
    file: Seq<u8>,
    v: TermsView,
    r: Seq<u8>,
    off: u64,
    head: Seq<u8>,
    tail: Seq<u8>,
)
    requires
        file.len() == v.postings_offset + r.len(),
        file.len() <= u64::MAX,
        file.subrange(v.postings_offset as int, file.len() as int) == r,
        head.len() < SIZE_LIMIT,
        off + 4 + head.len() + tail.len() <= r.len(),
        r.subrange(off as int, off + 4 + head.len() + tail.len()) == posting_block(head, tail),
    ensures
        posting_at(file, v, off, head, tail),
{
    reveal(posting_at);
    let n = 4 + head.len() + tail.len();
    let base = v.postings_offset + off;
    assert(file.subrange(base, base + n) =~= r.subrange(off as int, off + n));
    lemma_block_read(file, base, head, tail);
}

/// The posting found for a term is the one that was written for it: its head in one ranged
/// read, which also says where its tail is.
pub proof fn law_posting_found(
    ps: Seq<Pushed>,
    t: Tokenizer,
    boundary: u32,
    cap: usize,
    raw: Seq<u8>,
    i: int,
)
    requires
        findable(ps, cap),
        term_file(ps, t, boundary, cap, raw).len() <= u64::MAX,
        0 <= i < ps.len(),
    ensures
        ({
            let file = term_file(ps, t, boundary, cap, raw);
            let v = booted(ps, t, boundary, cap, raw);
            posting_at(file, v, dict(ps)[i].head_off, ps[i].head, ps[i].tail)
        }),
{
    let file = term_file(ps, t, boundary, cap, raw);
    let v = booted(ps, t, boundary, cap, raw);
    lemma_booted_region(ps, t, boundary, cap, raw);
    lemma_region_at(ps, i);
    assert(push_error(ps.take(i), ps[i].head.len()) is None);
    lemma_posting_in_file(
        file,
        v,
        region(ps),
        region(ps.take(i)).len() as u64,
        ps[i].head,
        ps[i].tail,
    );
}

pub proof fn lemma_posted_all(m: Map<Seq<u8>, Set<u32>>, ts: Seq<Seq<u8>>, doc: u32, t: Seq<u8>, d: u32)
    ensures
        posted_all(m, ts, doc).contains_key(t) <==> m.contains_key(t) || ts.contains(t),
        posted_all(m, ts, doc).contains_key(t) ==> (posted_all(m, ts, doc)[t].contains(d) <==> (
        m.contains_key(t) && m[t].contains(d)) || (ts.contains(t) && d == doc)),
    decreases ts.len(),
{
    if ts.len() > 0 {
        let front = ts.drop_last();
        lemma_posted_all(m, front, doc, t, d);
        assert(ts.contains(t) <==> front.contains(t) || t == ts.last()) by {
            if ts.contains(t) {
                let k = choose|k: int| 0 <= k < ts.len() && ts[k] == t;
                if k < front.len() {
                    assert(front[k] == t);
                }
            }
            if front.contains(t) {
                let k = choose|k: int| 0 <= k < front.len() && front[k] == t;
                assert(ts[k] == t);
            }
            assert(ts[ts.len() - 1] == ts.last());
        }
    }
}

/// Whether the document `doc` has the term `t`.
pub open spec fn doc_has(docs: Seq<(u32, &str)>, tok: Tokenizer, t: Seq<u8>, doc: u32) -> bool {
    exists|i: int|
        0 <= i < docs.len() && (#[trigger] docs[i]).0 == doc && encoded(
            tok.terms(docs[i].1@),
        ).contains(t)
}

/// A corpus holds, under each term, exactly the documents that tokenize to it.
pub proof fn law_corpus(docs: Seq<(u32, &str)>, tok: Tokenizer, t: Seq<u8>, doc: u32)
    ensures
        doc_has(docs, tok, t, doc) <==> corpus(docs, tok).contains_key(t) && corpus(
            docs,
            tok,
        )[t].contains(doc),
    decreases docs.len(),
{
    if docs.len() > 0 {
        let front = docs.drop_last();
        let ts = encoded(tok.terms(docs.last().1@));
        law_corpus(front, tok, t, doc);
        lemma_posted_all(corpus(front, tok), ts, docs.last().0, t, doc);
        assert(doc_has(docs, tok, t, doc) <==> doc_has(front, tok, t, doc) || (docs.last().0 == doc
            && ts.contains(t))) by {
            if doc_has(docs, tok, t, doc) {
                let i = choose|i: int|
                    0 <= i < docs.len() && (#[trigger] docs[i]).0 == doc && encoded(
                        tok.terms(docs[i].1@),
                    ).contains(t);
                if i < front.len() {
                    assert(front[i] == docs[i]);
                }
            }
            if doc_has(front, tok, t, doc) {
                let i = choose|i: int|
                    0 <= i < front.len() && (#[trigger] front[i]).0 == doc && encoded(
                        tok.terms(front[i].1@),
                    ).contains(t);
                assert(docs[i] == front[i]);
            }
            assert(docs[docs.len() - 1] == docs.last());
        }
    }
}

/// The docs that a corpus holds under `t`; none where it has no such term.
pub open spec fn docs_under(m: Map<Seq<u8>, Set<u32>>, t: Seq<u8>) -> Set<u32> {
    if m.contains_key(t) {
        m[t]
    } else {
        Set::empty()
    }
}

/// The strict AND of a query's terms over a corpus: a doc is in every term's posting exactly if
/// it tokenizes to every term.
pub proof fn law_query_matches(
    docs: Seq<(u32, &str)>,
    tok: Tokenizer,
    terms: Seq<Seq<u8>>,
    doc: u32,
)
    requires
        terms.len() > 0,
    ensures
        in_all(terms.map_values(|t: Seq<u8>| docs_under(corpus(docs, tok), t))).contains(doc)
            <==> forall|i: int|
            0 <= i < terms.len() ==> doc_has(docs, tok, #[trigger] terms[i], doc),
{
    let sets = terms.map_values(|t: Seq<u8>| docs_under(corpus(docs, tok), t));
    assert forall|i: int| 0 <= i < terms.len() implies (#[trigger] sets[i]).contains(doc)
        == doc_has(docs, tok, terms[i], doc) by {
        law_corpus(docs, tok, terms[i], doc);
    }
    if in_all(sets).contains(doc) {
        assert forall|i: int| 0 <= i < terms.len() implies doc_has(
            docs,
            tok,
            #[trigger] terms[i],
            doc,
        ) by {
            assert(sets[i].contains(doc));
        }
    }
}

/// Whether the posting that the reader finds at `loc` holds exactly `docs`: those below the
/// boundary in its head, the rest in its tail.
pub open spec fn answers(
    file: Seq<u8>,
    v: TermsView,
    loc: (u64, usize),
    docs: Set<u32>,
    boundary: u32,
) -> bool {
    exists|head: Seq<u8>, tail: Seq<u8>|
        #[trigger] posting_at(file, v, loc.0, head, tail) && loc.1 == head.len() && read_ids(head)
            == Some(below(docs, boundary)) && read_ids(tail) == Some(from_on(docs, boundary))
}

/// An index that was written answers every term with exactly the docs that were posted under
/// it: a term without docs is not found, and any other is found with its docs.
pub proof fn law_index_answers(
    terms: Seq<Seq<u8>>,
    docs: Seq<Set<u32>>,
    ps: Seq<Pushed>,
    t: Tokenizer,
    boundary: u32,
    cap: usize,
    raw: Seq<u8>,
    term: Seq<u8>,
)
    requires
        terms.len() == docs.len(),
        ps.len() == terms.len(),
        splits(ps, terms, docs, boundary),
        findable(ps, cap),
        maps(raw, routes(dict_blocks(ps, cap_used(cap) as int))),
        term_file(ps, t, boundary, cap, raw).len() <= u64::MAX,
    ensures
        ({
            let file = term_file(ps, t, boundary, cap, raw);
            let v = booted(ps, t, boundary, cap, raw);
            let m = posting_map(terms, docs);
            match looked_up(v, file, term) {
                None => !m.contains_key(term),
                Some(loc) => m.contains_key(term) && answers(file, v, loc, m[term], boundary),
            }
        }),
{
    let file = term_file(ps, t, boundary, cap, raw);
    let v = booted(ps, t, boundary, cap, raw);
    law_term_found(ps, t, boundary, cap, raw, term);
    let d = dict(ps);
    assert forall|i: int, j: int| 0 <= i < j < terms.len() implies lex_lt(
        #[trigger] terms[i],
        #[trigger] terms[j],
    ) by {
        assert(ps[i].term == terms[i] && ps[j].term == terms[j]);
    }
    match looked_up(v, file, term) {
        None => {
            if terms.contains(term) {
                let k = choose|k: int| 0 <= k < terms.len() && terms[k] == term;
                assert(ps[k].term == terms[k]);
                assert(d[k].term == term);
            }
        },
        Some(loc) => {
            let k = choose|k: int|
                0 <= k < d.len() && (#[trigger] d[k]).term == term && d[k].head_off == loc.0
                    && d[k].head_size == loc.1;
            assert(ps[k].term == terms[k]);
            lemma_index_of(terms, k);
            assert(terms.contains(term));
            assert(push_error(ps.take(k), ps[k].head.len()) is None);
            law_posting_found(ps, t, boundary, cap, raw, k);
            assert(posting_at(file, v, loc.0, ps[k].head, ps[k].tail));
        },
    }
}

/// The entries of all of `blocks`, block after block.
pub open spec fn walked(blocks: Seq<Seq<u8>>) -> Seq<Decoded>
    decreases blocks.len(),
{
    if blocks.len() == 0 {
        Seq::empty()
    } else {
        walked(blocks.drop_last()) + block_entries(blocks.last())
    }
}

/// How many bytes of the postings region lie before the block of the term `n` of `ps`.
pub open spec fn sunk(ps: Seq<Pushed>, n: int) -> nat
    decreases n,
{
    if n <= 0 {
        0
    } else {
        sunk(ps, n - 1) + 4 + ps[n - 1].head.len() + ps[n - 1].tail.len()
    }
}

proof fn lemma_sunk(ps: Seq<Pushed>, n: int)
    requires
        0 <= n <= ps.len(),
    ensures
        region(ps.take(n)).len() == sunk(ps, n),
    decreases n,
{
    if n > 0 {
        lemma_sunk(ps, n - 1);
        assert(ps.take(n) =~= ps.take(n - 1).push(ps[n - 1]));
        lemma_region_push(ps.take(n - 1), ps[n - 1]);
    } else {
        assert(ps.take(0) =~= Seq::<Pushed>::empty());
    }
}

spec fn block_bytes(sealed: Seq<Seq<DictEntry>>) -> Seq<Seq<u8>> {
    sealed.map_values(|es: Seq<DictEntry>| encode_block(es))
}

proof fn lemma_walked(sealed: Seq<Seq<DictEntry>>)
    requires
        codable(sealed.flatten()),
    ensures
        walked(block_bytes(sealed)) == terms_dict::plain(sealed.flatten()),
        block_bytes(sealed).flatten() == dict_region(sealed, sealed.len() as int),
    decreases sealed.len(),
{
    let blocks = block_bytes(sealed);
    if sealed.len() == 0 {
        assert(sealed.flatten() =~= Seq::<DictEntry>::empty());
        assert(blocks.flatten() =~= Seq::<u8>::empty());
        assert(walked(blocks) =~= terms_dict::plain(sealed.flatten()));
    } else {
        let front = sealed.drop_last();
        let a = front.flatten();
        let b = sealed.last();
        assert(sealed =~= front.push(b));
        front.lemma_flatten_push(b);
        let all = sealed.flatten();
        assert(all == a + b);
        assert forall|i: int| 0 <= i < a.len() implies (#[trigger] a[i]).term.len() <= usize::MAX
            && a[i].head_size <= usize::MAX by {
            assert(all[i] == a[i]);
        }
        assert forall|i: int, j: int| 0 <= i <= j < a.len() implies a[i].head_off
            <= a[j].head_off by {
            assert(all[i] == a[i] && all[j] == a[j]);
        }
        assert forall|i: int| 0 <= i < b.len() implies (#[trigger] b[i]).term.len() <= usize::MAX
            && b[i].head_size <= usize::MAX by {
            assert(all[a.len() + i] == b[i]);
        }
        assert forall|i: int, j: int| 0 <= i <= j < b.len() implies b[i].head_off
            <= b[j].head_off by {
            assert(all[a.len() + i] == b[i] && all[a.len() + j] == b[j]);
        }
        lemma_walked(front);
        terms_dict::law_block_roundtrip(b);
        assert(blocks.drop_last() =~= block_bytes(front));
        assert(blocks =~= block_bytes(front).push(encode_block(b)));
        block_bytes(front).lemma_flatten_push(encode_block(b));
        lemma_region_prefix(sealed, front, front.len() as int);
        assert(terms_dict::plain(all) =~= terms_dict::plain(a) + terms_dict::plain(b));
    }
}

proof fn lemma_region_prefix(a: Seq<Seq<DictEntry>>, b: Seq<Seq<DictEntry>>, n: int)
    requires
        0 <= n <= b.len() <= a.len(),
        forall|i: int| 0 <= i < b.len() ==> a[i] == b[i],
    ensures
        dict_region(a, n) == dict_region(b, n),
    decreases n,
{
    if n > 0 {
        lemma_region_prefix(a, b, n - 1);
    }
}

/// The file is the header, the router, the dictionary blocks and the postings region, end to
/// end, and walking all its blocks gives the pushed terms in the order of the pushes, each with
/// the offset of its posting block and the length of its head.
pub proof fn law_blocks_walked(
    ps: Seq<Pushed>,
    t: Tokenizer,
    boundary: u32,
    cap: usize,
    m: (Vec<u8>, Vec<u8>, Vec<Vec<u8>>),
)
    requires
        findable(ps, cap),
        meta_written(m, ps, t, boundary, cap),
    ensures
        term_file(ps, t, boundary, cap, m.1@) == m.0@ + m.1@ + raws(m.2@).flatten() + region(ps),
        walked(raws(m.2@)).len() == ps.len(),
        forall|i: int|
            0 <= i < ps.len() ==> #[trigger] walked(raws(m.2@))[i] == (
                ps[i].term,
                sunk(ps, i) as u64,
                ps[i].head.len() as usize,
            ) && sunk(ps, i) < OFFSET_LIMIT && ps[i].head.len() < SIZE_LIMIT,
{
    let sealed = dict_blocks(ps, cap_used(cap) as int);
    lemma_dict_kept(ps, cap);
    lemma_walked(sealed);
    lemma_dict_at(ps, cap);
    assert(raws(m.2@) =~= block_bytes(sealed));
}

proof fn lemma_dict_kept(ps: Seq<Pushed>, cap: usize)
    requires
        findable(ps, cap),
    ensures
        dict_blocks(ps, cap_used(cap) as int).flatten() == dict(ps),
        codable(dict(ps)),
{
    let c = cap_used(cap) as int;
    let d = dict(ps);
    let w = DictBlocks::empty().push_all(d, c).flush();
    lemma_dict_codable(ps, cap);
    terms_dict::law_entries_kept(DictBlocks::empty(), d, c);
    assert(w.entries() =~= w.sealed.flatten());
    assert(DictBlocks::empty().entries() + d =~= d) by {
        assert(Seq::<Seq<DictEntry>>::empty().flatten() =~= Seq::<DictEntry>::empty());
    }
}

proof fn lemma_dict_entry(ps: Seq<Pushed>, cap: usize, i: int)
    requires
        findable(ps, cap),
        0 <= i < ps.len(),
    ensures
        terms_dict::plain(dict(ps))[i] == (
            ps[i].term,
            sunk(ps, i) as u64,
            ps[i].head.len() as usize,
        ),
        sunk(ps, i) < OFFSET_LIMIT,
        ps[i].head.len() < SIZE_LIMIT,
{
    assert(push_error(ps.take(i), ps[i].head.len()) is None);
    lemma_sunk(ps, i);
    let d = dict(ps);
    assert(d.len() == ps.len());
    assert(d[i].head_off == sunk(ps, i));
    assert(d[i].term == ps[i].term);
}

proof fn lemma_dict_at(ps: Seq<Pushed>, cap: usize)
    requires
        findable(ps, cap),
    ensures
        terms_dict::plain(dict(ps)).len() == ps.len(),
        forall|i: int|
            0 <= i < ps.len() ==> #[trigger] terms_dict::plain(dict(ps))[i] == (
                ps[i].term,
                sunk(ps, i) as u64,
                ps[i].head.len() as usize,
            ) && sunk(ps, i) < OFFSET_LIMIT && ps[i].head.len() < SIZE_LIMIT,
{
    assert forall|i: int| 0 <= i < ps.len() implies #[trigger] terms_dict::plain(dict(ps))[i] == (
        ps[i].term,
        sunk(ps, i) as u64,
        ps[i].head.len() as usize,
    ) && sunk(ps, i) < OFFSET_LIMIT && ps[i].head.len() < SIZE_LIMIT by {
        lemma_dict_entry(ps, cap, i);
    }
}

/// Whether `docs` lists the text `s` under the ID `doc`.
pub open spec fn lists_doc(docs: Seq<(u32, &str)>, doc: u32, s: Seq<char>) -> bool {
    exists|i: int| 0 <= i < docs.len() && (#[trigger] docs[i]).0 == doc && docs[i].1@ == s
}

proof fn lemma_corpus_docs(docs: Seq<(u32, &str)>, tok: Tokenizer, t: Seq<u8>) -> (doc: u32)
    requires
        corpus(docs, tok).contains_key(t),
    ensures
        corpus(docs, tok)[t].contains(doc),
    decreases docs.len(),
{
    let front = docs.drop_last();
    let ts = encoded(tok.terms(docs.last().1@));
    if ts.contains(t) {
        lemma_posted_all(corpus(front, tok), ts, docs.last().0, t, docs.last().0);
        docs.last().0
    } else {
        lemma_posted_all(corpus(front, tok), ts, docs.last().0, t, 0);
        let doc = lemma_corpus_docs(front, tok, t);
        lemma_posted_all(corpus(front, tok), ts, docs.last().0, t, doc);
        doc
    }
}

proof fn lemma_corpus_grows(
    a: Seq<(u32, &str)>,
    b: Seq<(u32, &str)>,
    tok: Tokenizer,
    t: Seq<u8>,
    doc: u32,
)
    requires
        forall|d: u32, s: Seq<char>| #[trigger] lists_doc(a, d, s) ==> lists_doc(b, d, s),
        corpus(a, tok).contains_key(t) && corpus(a, tok)[t].contains(doc),
    ensures
        corpus(b, tok).contains_key(t) && corpus(b, tok)[t].contains(doc),
{
    law_corpus(a, tok, t, doc);
    law_corpus(b, tok, t, doc);
    let i = choose|i: int|
        0 <= i < a.len() && (#[trigger] a[i]).0 == doc && encoded(tok.terms(a[i].1@)).contains(t);
    assert(lists_doc(a, doc, a[i].1@));
    let j = choose|j: int| 0 <= j < b.len() && (#[trigger] b[j]).0 == doc && b[j].1@ == a[i].1@;
    assert(b[j].0 == doc && encoded(tok.terms(b[j].1@)).contains(t));
}

/// The order of the documents, and how often one is listed, does not matter: the same documents
/// give the same postings.
pub proof fn law_corpus_order(a: Seq<(u32, &str)>, b: Seq<(u32, &str)>, tok: Tokenizer)
    requires
        forall|doc: u32, s: Seq<char>| #[trigger] lists_doc(a, doc, s) <==> lists_doc(b, doc, s),
    ensures
        corpus(a, tok) == corpus(b, tok),
{
    let (x, y) = (corpus(a, tok), corpus(b, tok));
    assert forall|d: u32, s: Seq<char>| #[trigger] lists_doc(b, d, s) implies lists_doc(a, d, s) by {
        assert(lists_doc(a, d, s) <==> lists_doc(b, d, s));
    }
    assert forall|t: Seq<u8>| #[trigger] x.contains_key(t) <==> y.contains_key(t) by {
        if x.contains_key(t) {
            let doc = lemma_corpus_docs(a, tok, t);
            lemma_corpus_grows(a, b, tok, t, doc);
        }
        if y.contains_key(t) {
            let doc = lemma_corpus_docs(b, tok, t);
            lemma_corpus_grows(b, a, tok, t, doc);
        }
    }
    assert forall|t: Seq<u8>| #[trigger] x.contains_key(t) implies x[t] == y[t] by {
        assert forall|doc: u32| x[t].contains(doc) <==> y[t].contains(doc) by {
            if x[t].contains(doc) {
                lemma_corpus_grows(a, b, tok, t, doc);
            }
            if y[t].contains(doc) {
                lemma_corpus_grows(b, a, tok, t, doc);
            }
        }
        assert(x[t] =~= y[t]);
    }
    assert(x =~= y);
}

/// Strictly ascending terms are determined by which they are.
pub proof fn lemma_terms_unique(a: Seq<Seq<u8>>, b: Seq<Seq<u8>>)
    requires
        strictly_sorted(a),
        strictly_sorted(b),
        forall|t: Seq<u8>| a.contains(t) <==> b.contains(t),
    ensures
        a == b,
    decreases a.len(),
{
    if a.len() == 0 {
        if b.len() > 0 {
            assert(b.contains(b[0]));
        }
        assert(a =~= b);
    } else {
        assert(a.contains(a.last()));
        assert(b.len() > 0);
        let (x, y) = (a.last(), b.last());
        assert(b.contains(y));
        let i = choose|i: int| 0 <= i < a.len() && a[i] == y;
        let j = choose|j: int| 0 <= j < b.len() && b[j] == x;
        assert(x == y) by {
            if i < a.len() - 1 && j < b.len() - 1 {
                assert(lex_lt(a[i], a[a.len() - 1]));
                assert(lex_lt(b[j], b[b.len() - 1]));
                bytes::lemma_lex_total(x, y);
            }
        }
        let (p, q) = (a.drop_last(), b.drop_last());
        assert forall|t: Seq<u8>| p.contains(t) <==> q.contains(t) by {
            if p.contains(t) {
                let k = choose|k: int| 0 <= k < p.len() && p[k] == t;
                assert(a[k] == t);
                assert(a.contains(t));
                assert(lex_lt(a[k], a[a.len() - 1]));
                bytes::lemma_lex_total(t, x);
                let m = choose|m: int| 0 <= m < b.len() && b[m] == t;
                assert(m < b.len() - 1);
                assert(q[m] == t);
            }
            if q.contains(t) {
                let k = choose|k: int| 0 <= k < q.len() && q[k] == t;
                assert(b[k] == t);
                assert(b.contains(t));
                assert(lex_lt(b[k], b[b.len() - 1]));
                bytes::lemma_lex_total(t, x);
                let m = choose|m: int| 0 <= m < a.len() && a[m] == t;
                assert(m < a.len() - 1);
                assert(p[m] == t);
            }
        }
        lemma_terms_unique(p, q);
        assert(a =~= p.push(x));
        assert(b =~= q.push(x));
    }
}

/// A corpus has one list of terms and docs.
pub proof fn lemma_postings_unique(
    a: Seq<Seq<u8>>,
    x: Seq<Set<u32>>,
    b: Seq<Seq<u8>>,
    y: Seq<Set<u32>>,
)
    requires
        strictly_sorted(a),
        strictly_sorted(b),
        a.len() == x.len(),
        b.len() == y.len(),
        posting_map(a, x) == posting_map(b, y),
    ensures
        a == b,
        x == y,
{
    let (m, n) = (posting_map(a, x), posting_map(b, y));
    assert forall|t: Seq<u8>| a.contains(t) <==> b.contains(t) by {
        assert(m.contains_key(t) <==> n.contains_key(t));
    }
    lemma_terms_unique(a, b);
    assert forall|i: int| 0 <= i < x.len() implies x[i] == y[i] by {
        lemma_index_of(a, i);
        assert(a.contains(a[i]));
        assert(m[a[i]] == x[i]);
        assert(n[a[i]] == y[i]);
    }
    assert(x =~= y);
}

/// Whether two builds end alike: in the same bytes, or in the same refusal.
pub open spec fn ends_alike(
    a: Result<Vec<u8>, BuildError>,
    b: Result<Vec<u8>, BuildError>,
) -> bool {
    match (a, b) {
        (Ok(x), Ok(y)) => x@ == y@,
        (Err(e), Err(f)) => e == f,
        _ => false,
    }
}

/// Where writing the terms `ps` of `count` stopped: at a refused term, or with all of them.
proof fn lemma_stops_alike(
    ps: Seq<Pushed>,
    qs: Seq<Pushed>,
    count: nat,
    t: Tokenizer,
    boundary: u32,
    cap: usize,
    a: Result<Vec<u8>, BuildError>,
    b: Result<Vec<u8>, BuildError>,
)
    requires
        ps.len() <= qs.len() <= count,
        ps == qs.take(ps.len() as int),
        written(ps, count, t, boundary, cap, a),
        written(qs, count, t, boundary, cap, b),
    ensures
        ends_alike(a, b),
{
    if ps.len() == qs.len() {
        assert(ps =~= qs);
        if ps.len() > 0 {
            let k = ps.len() - 1;
            assert(ps.drop_last() =~= ps.take(k));
            assert(ps.last() == ps[k]);
        }
    } else {
        let k = ps.len() - 1;
        assert(ps.len() < count);
        assert(a is Err);
        assert(ps.len() > 0);
        assert(ps.drop_last() =~= qs.take(k));
        assert(ps.last() == qs[k]);
        assert(push_error(qs.take(k), qs[k].head.len()) is None);
    }
}

/// On one machine, what writing postings ends in is determined by them and by the settings, byte
/// for byte. The width of the machine's `usize` bears on the bytes of the router.
pub proof fn law_index_determined(
    terms: Seq<Seq<u8>>,
    docs: Seq<Set<u32>>,
    t: Tokenizer,
    boundary: u32,
    cap: usize,
    a: Result<Vec<u8>, BuildError>,
    b: Result<Vec<u8>, BuildError>,
)
    requires
        terms.len() == docs.len(),
        index_written(terms, docs, t, boundary, cap, a),
        index_written(terms, docs, t, boundary, cap, b),
    ensures
        ends_alike(a, b),
{
    let ps = choose|ps: Seq<Pushed>|
        #[trigger] splits(ps, terms, docs, boundary) && written(
            ps,
            terms.len(),
            t,
            boundary,
            cap,
            a,
        );
    let qs = choose|qs: Seq<Pushed>|
        #[trigger] splits(qs, terms, docs, boundary) && written(
            qs,
            terms.len(),
            t,
            boundary,
            cap,
            b,
        );
    if ps.len() <= qs.len() {
        assert(ps =~= qs.take(ps.len() as int));
        lemma_stops_alike(ps, qs, terms.len(), t, boundary, cap, a, b);
    } else {
        assert(qs =~= ps.take(qs.len() as int));
        lemma_stops_alike(qs, ps, terms.len(), t, boundary, cap, b, a);
    }
}

/// On one machine, what building an index over a corpus ends in is determined by the corpus and
/// the configuration, byte for byte: building it without a configuration, or with the default
/// one spelled out, or from the same documents in another order, writes the same file.
pub proof fn law_corpus_determines_index(
    m: Map<Seq<u8>, Set<u32>>,
    config: TermIndexConfig,
    a: Result<Vec<u8>, BuildError>,
    b: Result<Vec<u8>, BuildError>,
)
    requires
        corpus_written(m, config, a),
        corpus_written(m, config, b),
    ensures
        ends_alike(a, b),
{
    let t = config.tokenizer();
    let (p, x) = choose|p: Seq<Seq<u8>>, x: Seq<Set<u32>>|
        strictly_sorted(p) && p.len() == x.len() && #[trigger] posting_map(p, x) == m
            && index_written(p, x, t, config.head_boundary, config.block_cap, a);
    let (q, y) = choose|q: Seq<Seq<u8>>, y: Seq<Set<u32>>|
        strictly_sorted(q) && q.len() == y.len() && #[trigger] posting_map(q, y) == m
            && index_written(q, y, t, config.head_boundary, config.block_cap, b);
    lemma_postings_unique(p, x, q, y);
    law_index_determined(p, x, t, config.head_boundary, config.block_cap, a, b);
}

/// The header of a written index says how many distinct terms its corpus has, where the head
/// ends, and which tokenizer the terms came from.
pub proof fn law_index_header(
    m: Map<Seq<u8>, Set<u32>>,
    config: TermIndexConfig,
    file: Vec<u8>,
)
    requires
        corpus_written(m, config, Ok(file)),
    ensures
        bytes::u16_at(file@, 6) == config.tokenizer().flags(),
        bytes::u32_at(file@, 8) == m.dom().len(),
        bytes::u32_at(file@, 12) == config.head_boundary,
        config.tokenizer() == (Tokenizer { language: None, stopwords: false, case_fold: true })
            ==> bytes::u16_at(file@, 6) == 0,
{
    let t = config.tokenizer();
    let (terms, docs) = choose|terms: Seq<Seq<u8>>, docs: Seq<Set<u32>>|
        strictly_sorted(terms) && terms.len() == docs.len() && #[trigger] posting_map(terms, docs)
            == m && index_written(terms, docs, t, config.head_boundary, config.block_cap, Ok(file));
    lemma_dom_len(terms, docs);
    let ps = choose|ps: Seq<Pushed>|
        #[trigger] splits(ps, terms, docs, config.head_boundary) && written(
            ps,
            terms.len(),
            t,
            config.head_boundary,
            config.block_cap,
            Ok(file),
        );
    let sealed = dict_blocks(ps, cap_used(config.block_cap) as int);
    let raw = map_image(usize::BITS as nat, routes(sealed));
    let n = blocks_len(sealed, sealed.len() as int) as u64;
    let h = header_bytes(
        t,
        ps.len() as u32,
        config.head_boundary,
        raw.len() as u64,
        n,
        config.block_cap,
    );
    lemma_header_pieces(
        t,
        ps.len() as u32,
        config.head_boundary,
        raw.len() as u64,
        n,
        config.block_cap,
    );
    assert(file@.subrange(6, 8) =~= h.subrange(6, 8));
    assert(file@.subrange(8, 12) =~= h.subrange(8, 12));
    assert(file@.subrange(12, 16) =~= h.subrange(12, 16));
    bytes::lemma_u16_at(file@, 6, t.flags());
    bytes::lemma_u32_at(file@, 8, ps.len() as u32);
    bytes::lemma_u32_at(file@, 12, config.head_boundary);
    assert(0u16 | 0u16 | 0u16 == 0) by (bit_vector);
}

/// A term is accepted exactly where its head takes under sixteen mebibytes and its posting
/// starts in the first tebibyte of the region.
pub proof fn law_push_accepted(ps: Seq<Pushed>, head_len: nat)
    ensures
        push_error(ps, head_len) is None <==> head_len < 0x100_0000 && region(ps).len()
            < 0x100_0000_0000,
{
}

/// The dictionary is accepted exactly where every block takes under sixteen mebibytes, starts in
/// the first tebibyte, and ends on a term that sorts behind the one the block before it ends on.
pub proof fn law_routes_accepted(sealed: Seq<Seq<DictEntry>>, i: int)
    requires
        0 <= i <= sealed.len(),
    ensures
        routes_error(sealed, i) is None <==> forall|k: int|
            i <= k < sealed.len() ==> {
                &&& encode_block(#[trigger] sealed[k]).len() < 0x100_0000
                &&& blocks_len(sealed, k) < 0x100_0000_0000
                &&& k > 0 ==> lex_lt(sealed[k - 1].last().term, sealed[k].last().term)
            },
    decreases sealed.len() - i,
{
    if i < sealed.len() {
        law_routes_accepted(sealed, i + 1);
        if route_error(sealed, i) is Some {
            assert(sealed[i] == sealed[i]);
        }
    }
}

/// The index is accepted exactly where its dictionary is and the terms can be counted.
pub proof fn law_meta_accepted(ps: Seq<Pushed>, block_cap: usize)
    ensures
        meta_error(ps, block_cap) is None <==> routes_error(
            dict_blocks(ps, cap_used(block_cap) as int),
            0,
        ) is None && ps.len() <= 0xffff_ffff,
        cap_used(0) == 4096,
        block_cap != 0 ==> cap_used(block_cap) == block_cap,
{
}

/// Each posting lies in the region behind those before it: the length of its tail, its head and
/// its tail.
pub proof fn law_region(ps: Seq<Pushed>, i: int)
    requires
        0 <= i < ps.len(),
        ps[i].tail.len() <= u32::MAX,
    ensures
        ({
            let off = region(ps.take(i)).len() as int;
            let (head, tail) = (ps[i].head, ps[i].tail);
            &&& off + 4 + head.len() + tail.len() <= region(ps).len()
            &&& bytes::u32_at(region(ps), off) == tail.len()
            &&& region(ps).subrange(off + 4, off + 4 + head.len()) == head
            &&& region(ps).subrange(off + 4 + head.len(), off + 4 + head.len() + tail.len()) == tail
        }),
    decreases ps.len(),
{
    let off = region(ps.take(i)).len() as int;
    let (head, tail) = (ps[i].head, ps[i].tail);
    let front = ps.drop_last();
    let whole = region(ps);
    if i < ps.len() - 1 {
        law_region(front, i);
        assert(front.take(i) =~= ps.take(i));
        assert(whole.subrange(off + 4, off + 4 + head.len()) =~= region(front).subrange(
            off + 4,
            off + 4 + head.len(),
        ));
        assert(whole.subrange(off + 4 + head.len(), off + 4 + head.len() + tail.len())
            =~= region(front).subrange(off + 4 + head.len(), off + 4 + head.len() + tail.len()));
        assert(whole.take(region(front).len() as int) =~= region(front));
        bytes::lemma_prefix_reads(whole, region(front));
    } else {
        assert(ps.take(i) =~= front);
        assert(whole.subrange(off, off + 4) =~= le32(word32(tail.len())));
        bytes::lemma_u32_at(whole, off, word32(tail.len()));
        assert(whole.subrange(off + 4, off + 4 + head.len()) =~= head);
        assert(whole.subrange(off + 4 + head.len(), off + 4 + head.len() + tail.len()) =~= tail);
    }
}

} // verus!
