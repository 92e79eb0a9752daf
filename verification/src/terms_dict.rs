//! Front-coded block codec for the blocked term dictionary.
//!
//! Terms are grouped into byte-capped, front-coded blocks that the reader range-fetches one
//! at a time, while a small resident router maps each block's *last* term to its byte range.
//! This module is the single source of truth for the block bytes, shared by the builder
//! ([`crate::terms_build`]) and the reader ([`crate::terms`]). It is pure: no I/O.
//!
//! A block is a back-to-back sequence of entries, scanned to the block's end:
//!
//! ```text
//! [ shared:     uvarint ]  bytes shared with the previous term in the block (0 for the first)
//! [ suffix_len  uvarint ]  length of the suffix bytes
//! [ suffix      bytes   ]  term = prev_term[..shared] + suffix
//! [ head_off_d  uvarint ]  head_off delta from the previous entry (first entry: absolute)
//! [ head_size   uvarint ]  head posting length in bytes
//! ```
//!
//! All comparisons and shared-prefix lengths are over UTF-8 **bytes**. `head_off` is the byte
//! offset of the term's posting block within the postings region; it does not decrease in
//! term order, so its in-block delta is non-negative.

use crate::bytes;
use crate::bytes::{common_prefix, order_bytes, put_bytes, ByteOrder};
use vstd::prelude::*;

verus! {

/// Default dictionary block byte cap (about one cheap ranged read). A block always holds at
/// least one entry, so a single oversized term may exceed it.
pub const DEFAULT_DICT_BLOCK_CAP: usize = 4096;

/// Bits of a packed location reserved for the byte length; the rest hold the byte offset.
pub const SIZE_BITS: u32 = 24;

/// One more than the largest length that fits in a packed location.
pub const SIZE_LIMIT: u64 = 0x100_0000;

/// One more than the largest offset that fits in a packed location.
pub const OFFSET_LIMIT: u64 = 0x100_0000_0000;

/// Packs `(off, size)` into one `u64` as `(off << SIZE_BITS) | size`. The two come apart
/// again where `size` fits in [`SIZE_BITS`] bits and `off` in the remaining high bits.
pub fn pack_loc(off: u64, size: u64) -> (packed: u64)
    ensures
        packed == (off << 24u64) | size,
        off < OFFSET_LIMIT && size < SIZE_LIMIT ==> packed == off * SIZE_LIMIT + size,
{
    proof {
        assert(off < 0x100_0000_0000u64 && size < 0x100_0000u64 ==> ((off << 24u64) | size)
            == off * 0x100_0000u64 + size) by (bit_vector);
        assert(off << 24u32 == off << 24u64) by (bit_vector);
    }
    (off << SIZE_BITS) | size
}

/// Inverse of [`pack_loc`]: `(off, size)`.
pub fn unpack_loc(packed: u64) -> (loc: (u64, usize))
    ensures
        loc.0 == packed / SIZE_LIMIT,
        loc.1 == packed % SIZE_LIMIT,
{
    (packed / SIZE_LIMIT, (packed % SIZE_LIMIT) as usize)
}

/// Unpacking gives back the offset and the length that were packed, where they fit.
pub proof fn law_pack_unpack(off: u64, size: u64)
    requires
        off < OFFSET_LIMIT,
        size < SIZE_LIMIT,
    ensures
        ({
            let packed = off * SIZE_LIMIT + size;
            packed <= u64::MAX && packed / SIZE_LIMIT as int == off && packed % SIZE_LIMIT as int
                == size
        }),
{
}

/// The unsigned LEB128 encoding of `v`: seven bits per byte, the lowest first, the high bit
/// set on every byte but the last.
pub open spec fn uvarint(v: nat) -> Seq<u8>
    decreases v,
{
    if v < 128 {
        seq![v as u8]
    } else {
        seq![(v % 128 + 128) as u8] + uvarint(v / 128)
    }
}

/// The number that the low seven bits of the bytes of `s` spell, the lowest first.
pub open spec fn septets(s: Seq<u8>) -> nat
    decreases s.len(),
{
    if s.len() == 0 {
        0
    } else {
        (s[0] % 128) as nat + 128 * septets(s.drop_first())
    }
}

/// How many bytes of `s` from `pos` on make up a varint: those up to the first byte below
/// 128. `None` where `s` ends before that.
pub open spec fn uvarint_span(s: Seq<u8>, pos: int) -> Option<nat>
    decreases s.len() - pos,
{
    if pos < 0 || pos >= s.len() {
        None
    } else if s[pos] < 128 {
        Some(1)
    } else {
        match uvarint_span(s, pos + 1) {
            Some(n) => Some(n + 1),
            None => None,
        }
    }
}

/// The varint at `pos` of `s` and the position behind it; `None` where it is cut off, takes
/// more than the ten bytes that 64 bits need, or spells a number above 64 bits.
pub open spec fn uvarint_at(s: Seq<u8>, pos: int) -> Option<(u64, int)> {
    match uvarint_span(s, pos) {
        Some(n) => if n <= 10 && septets(s.subrange(pos, pos + n)) <= u64::MAX {
            Some((septets(s.subrange(pos, pos + n)) as u64, pos + n))
        } else {
            None
        },
        None => None,
    }
}

/// `128` to the power `i`.
spec fn pow128(i: nat) -> nat
    decreases i,
{
    if i == 0 {
        1
    } else {
        128 * pow128((i - 1) as nat)
    }
}

proof fn lemma_pow128_bound(i: nat)
    requires
        i <= 10,
    ensures
        0 < pow128(i) <= 0x40_0000_0000_0000_0000,
{
    reveal_with_fuel(pow128, 11);
}

proof fn lemma_septets_push(s: Seq<u8>, b: u8)
    ensures
        septets(s.push(b)) == septets(s) + (b % 128) as nat * pow128(s.len()),
    decreases s.len(),
{
    if s.len() == 0 {
        assert(s.push(b).drop_first() =~= Seq::<u8>::empty());
        assert(septets(s.push(b)) == (b % 128) as nat + 128 * septets(Seq::<u8>::empty()));
        assert(pow128(0) == 1);
    } else {
        assert(s.push(b).drop_first() =~= s.drop_first().push(b));
        lemma_septets_push(s.drop_first(), b);
        let x = (b % 128) as nat;
        let p = pow128((s.len() - 1) as nat);
        assert(pow128(s.len()) == 128 * p);
        assert(128 * (x * p) == x * (128 * p)) by (nonlinear_arith);
    }
}

proof fn lemma_span_step(s: Seq<u8>, pos: int, n: nat)
    requires
        0 <= pos,
        pos + n <= s.len(),
        forall|j: int| pos <= j < pos + n ==> s[j] >= 128,
    ensures
        uvarint_span(s, pos) == match uvarint_span(s, pos + n) {
            Some(m) => Some(m + n),
            None => None,
        },
    decreases n,
{
    if n > 0 {
        lemma_span_step(s, pos + 1, (n - 1) as nat);
    }
}

/// What is known of a varint whose encoding stands at `pos` of `s`.
proof fn lemma_uvarint_span(s: Seq<u8>, pos: int, v: nat)
    requires
        0 <= pos,
        pos + uvarint(v).len() <= s.len(),
        s.subrange(pos, pos + uvarint(v).len()) == uvarint(v),
    ensures
        uvarint(v).len() >= 1,
        uvarint_span(s, pos) == Some(uvarint(v).len()),
        septets(uvarint(v)) == v,
    decreases v,
{
    let e = uvarint(v);
    assert(s[pos] == s.subrange(pos, pos + e.len())[0]);
    if v < 128 {
        assert(e.drop_first() =~= Seq::<u8>::empty());
        assert(septets(e) == v % 128 + 128 * septets(Seq::<u8>::empty()));
    } else {
        let t = uvarint(v / 128);
        assert(e.drop_first() =~= t);
        assert(s.subrange(pos + 1, pos + 1 + t.len()) =~= e.drop_first());
        lemma_uvarint_span(s, pos + 1, v / 128);
        assert(e[0] >= 128 && e[0] % 128 == v % 128);
    }
}

proof fn lemma_uvarint_len(v: nat, k: nat)
    requires
        v < pow128(k),
        k >= 1,
    ensures
        1 <= uvarint(v).len() <= k,
    decreases k,
{
    if v >= 128 {
        if k == 1 {
            assert(pow128(1) == 128) by {
                reveal_with_fuel(pow128, 2);
            }
        }
        let p = pow128((k - 1) as nat);
        assert(pow128(k) == 128 * p);
        assert(v / 128 < p);
        lemma_uvarint_len(v / 128, (k - 1) as nat);
    }
}

/// Reading a varint gives back the number that was written, and the position behind it,
/// wherever the encoding stands.
pub proof fn law_uvarint_roundtrip(before: Seq<u8>, v: u64, after: Seq<u8>)
    ensures
        uvarint_at(before + uvarint(v as nat) + after, before.len() as int) == Some(
            (v, (before.len() + uvarint(v as nat).len()) as int),
        ),
        1 <= uvarint(v as nat).len() <= 10,
{
    let s = before + uvarint(v as nat) + after;
    let pos = before.len() as int;
    let e = uvarint(v as nat);
    assert(s.subrange(pos, pos + e.len()) =~= e);
    lemma_uvarint_span(s, pos, v as nat);
    assert(v < pow128(10)) by {
        reveal_with_fuel(pow128, 11);
    }
    lemma_uvarint_len(v as nat, 10);
}

/// Appends `v` to `buf` as an unsigned LEB128 varint.
pub fn write_uvarint(buf: &mut Vec<u8>, v: u64)
    ensures
        final(buf)@ == old(buf)@ + uvarint(v as nat),
{
    let mut v: u64 = v;
    let ghost v0 = v;
    while v >= 128
        invariant
            buf@ + uvarint(v as nat) =~= old(buf)@ + uvarint(v0 as nat),
        decreases v,
    {
        let ghost before = buf@;
        buf.push((v % 128 + 128) as u8);
        assert(before + uvarint(v as nat) =~= buf@ + uvarint((v / 128) as nat));
        v = v / 128;
    }
    buf.push(v as u8);
    assert(buf@ =~= old(buf)@ + uvarint(v0 as nat));
}

/// Reads an unsigned LEB128 varint at `buf[*pos..]`, advancing `*pos` behind it. Returns
/// `None` on truncation or a varint longer than 64 bits (treated as corrupt).
pub fn read_uvarint(buf: &[u8], pos: &mut usize) -> (v: Option<u64>)
    ensures
        match v {
            Some(x) => uvarint_at(buf@, *old(pos) as int) == Some((x, *final(pos) as int)),
            None => uvarint_at(buf@, *old(pos) as int) is None,
        },
        v is Some ==> *old(pos) < *final(pos) <= buf@.len(),
        *old(pos) <= *final(pos),
{
    let start: usize = *pos;
    let mut sum: u128 = 0;
    let mut weight: u128 = 1;
    let mut n: usize = 0;
    loop
        invariant
            n <= 10,
            start + n == *pos,
            start == *old(pos),
            n > 0 ==> *pos <= buf@.len(),
            forall|j: int| start <= j < start + n ==> buf@[j] >= 128,
            n > 0 ==> sum == septets(buf@.subrange(start as int, start + n)),
            n == 0 ==> sum == 0,
            weight == pow128(n as nat),
            sum < 0x40_0000_0000_0000_0000,
            sum < pow128(n as nat),
        decreases 10 - n,
    {
        proof {
            lemma_pow128_bound(n as nat);
            if start + n <= buf@.len() {
                lemma_span_step(buf@, start as int, n as nat);
            }
        }
        if *pos >= buf.len() {
            return None;
        }
        let byte: u8 = buf[*pos];
        *pos += 1;
        if n >= 10 {
            assert(uvarint_span(buf@, start + n) matches Some(m) ==> m >= 1);
            return None;
        }
        proof {
            let s = buf@.subrange(start as int, start + n);
            assert(buf@.subrange(start as int, start + n + 1) =~= s.push(byte));
            if n == 0 {
                assert(s =~= Seq::<u8>::empty());
            }
            lemma_septets_push(s, byte);
            let x = (byte % 128) as nat;
            let w = pow128(n as nat);
            assert(pow128((n + 1) as nat) == 128 * w);
            assert(x * w <= 127 * w) by (nonlinear_arith)
                requires
                    x <= 127,
            ;
            lemma_pow128_bound((n + 1) as nat);
        }
        sum = sum + (byte % 128) as u128 * weight;
        if byte < 128 {
            if sum > 0xffff_ffff_ffff_ffff {
                return None;
            }
            return Some(sum as u64);
        }
        weight = weight * 128;
        n += 1;
    }
}

/// Encoded length of `v` as an unsigned varint.
pub fn uvarint_len(v: u64) -> (n: usize)
    ensures
        n == uvarint(v as nat).len(),
        1 <= n <= 10,
{
    let mut v: u64 = v;
    let mut n: usize = 1;
    let ghost v0 = v;
    proof {
        law_uvarint_roundtrip(Seq::empty(), v, Seq::empty());
    }
    while v >= 128
        invariant
            uvarint(v0 as nat).len() <= 10,
            n >= 1,
            n - 1 + uvarint(v as nat).len() == uvarint(v0 as nat).len(),
        decreases v,
    {
        assert(uvarint((v / 128) as nat).len() >= 1) by {
            law_uvarint_roundtrip(Seq::empty(), (v / 128) as u64, Seq::empty());
        }
        v = v / 128;
        n += 1;
    }
    n
}

/// One dictionary entry: a term and where its head posting lies in the postings region.
#[verifier::ext_equal]
pub struct DictEntry {
    /// The term's bytes.
    pub term: Seq<u8>,
    /// Byte offset of the term's posting block.
    pub head_off: u64,
    /// Length of the head posting in bytes.
    pub head_size: u64,
}

/// The bytes of `e` behind the entries `prev` of the same block.
pub open spec fn encode_entry(prev: Seq<DictEntry>, e: DictEntry) -> Seq<u8> {
    let shared = if prev.len() == 0 {
        0
    } else {
        bytes::common_len(prev.last().term, e.term)
    };
    let delta = if prev.len() == 0 {
        e.head_off as int
    } else {
        e.head_off - prev.last().head_off
    };
    uvarint(shared) + uvarint((e.term.len() - shared) as nat) + e.term.skip(shared as int)
        + uvarint(delta as nat) + uvarint(e.head_size as nat)
}

/// The bytes of a block that holds the entries `es`.
pub open spec fn encode_block(es: Seq<DictEntry>) -> Seq<u8>
    decreases es.len(),
{
    if es.len() == 0 {
        Seq::empty()
    } else {
        encode_block(es.drop_last()) + encode_entry(es.drop_last(), es.last())
    }
}

/// The entries pushed so far: those of the sealed blocks, block by block, and those of the
/// block that is still open.
#[verifier::ext_equal]
pub struct DictBlocks {
    /// The entries of each sealed block, in order.
    pub sealed: Seq<Seq<DictEntry>>,
    /// The entries of the open block.
    pub open: Seq<DictEntry>,
}

impl DictBlocks {
    /// No entry yet.
    pub open spec fn empty() -> DictBlocks {
        DictBlocks { sealed: Seq::empty(), open: Seq::empty() }
    }

    /// With the open block sealed; unchanged where it holds nothing.
    pub open spec fn flush(self) -> DictBlocks {
        if self.open.len() == 0 {
            self
        } else {
            DictBlocks { sealed: self.sealed.push(self.open), open: Seq::empty() }
        }
    }

    /// With `e` added: to the open block where that block then stays within `cap` bytes, and
    /// else to a fresh one.
    pub open spec fn push(self, e: DictEntry, cap: int) -> DictBlocks {
        let base = if self.open.len() > 0 && encode_block(self.open).len() + encode_entry(
            self.open,
            e,
        ).len() > cap {
            self.flush()
        } else {
            self
        };
        DictBlocks { sealed: base.sealed, open: base.open.push(e) }
    }

    /// All entries of `es` added in order.
    pub open spec fn push_all(self, es: Seq<DictEntry>, cap: int) -> DictBlocks
        decreases es.len(),
    {
        if es.len() == 0 {
            self
        } else {
            self.push_all(es.drop_last(), cap).push(es.last(), cap)
        }
    }

    /// Every entry, in the order of the pushes.
    pub open spec fn entries(self) -> Seq<DictEntry> {
        self.sealed.flatten() + self.open
    }
}

/// The total length of the first `n` blocks of `sealed`.
pub open spec fn blocks_len(sealed: Seq<Seq<DictEntry>>, n: int) -> nat
    decreases n,
{
    if n <= 0 {
        0
    } else {
        blocks_len(sealed, n - 1) + encode_block(sealed[n - 1]).len()
    }
}

/// `n`, or the largest `u64` where `n` does not fit.
pub open spec fn capped(n: nat) -> u64 {
    if n <= u64::MAX {
        n as u64
    } else {
        u64::MAX
    }
}

/// One emitted dictionary block: its bytes, the byte offset within the dict region where it
/// lives, and its last term (the router's key for the block).
#[derive(Debug)]
pub struct Block {
    /// Front-coded block bytes.
    pub bytes: Vec<u8>,
    /// Byte offset of the block within the dict-blocks region.
    pub off: u64,
    /// The block's last term: the router routes to this block for any term `<= last_term`
    /// that no earlier block already covers.
    pub last_term: Vec<u8>,
}

/// Whether `blocks` are the blocks that hold the entries `sealed`, laid end to end.
#[verifier::opaque]
pub open spec fn blocks_hold(blocks: Seq<Block>, sealed: Seq<Seq<DictEntry>>) -> bool {
    &&& blocks.len() == sealed.len()
    &&& forall|i: int|
        0 <= i < blocks.len() ==> {
            &&& (#[trigger] sealed[i]).len() > 0
            &&& blocks[i].bytes@ == encode_block(sealed[i])
            &&& blocks[i].last_term@ == sealed[i].last().term
            &&& blocks[i].off == capped(blocks_len(sealed, i))
        }
}

/// Accumulates `(term, head_off, head_size)` entries pushed in sorted (byte-lexicographic)
/// order and front-codes them into byte-capped [`Block`]s. The builder pushes every term,
/// then drains [`finish`](Self::finish) to write the dict region and build the router over
/// each block's `last_term`.
pub struct BlockWriter {
    cap: usize,
    cur: Vec<u8>,
    prev_term: Vec<u8>,
    prev_head_off: u64,
    count: usize,
    blocks: Vec<Block>,
    dict_len: u64,
    model: Ghost<DictBlocks>,
}

impl View for BlockWriter {
    type V = DictBlocks;

    closed spec fn view(&self) -> DictBlocks {
        self.model@
    }
}

impl BlockWriter {
    /// The byte cap at which a block is sealed.
    pub closed spec fn cap(&self) -> int {
        self.cap as int
    }

    /// The fields agree with the entries pushed so far.
    pub closed spec fn wf(&self) -> bool {
        let open = self.model@.open;
        &&& blocks_hold(self.blocks@, self.model@.sealed)
        &&& self.dict_len == capped(blocks_len(self.model@.sealed, self.model@.sealed.len() as int))
        &&& self.cur@ == encode_block(open)
        &&& (self.count == 0 <==> open.len() == 0)
        &&& open.len() > 0 ==> self.prev_term@ == open.last().term && self.prev_head_off
            == open.last().head_off
    }

    /// Creates a writer flushing a block once it would exceed `cap` bytes (`0` selects
    /// [`DEFAULT_DICT_BLOCK_CAP`]).
    pub fn new(cap: usize) -> (w: BlockWriter)
        ensures
            w.wf(),
            w@ == DictBlocks::empty(),
            w.cap() == (if cap == 0 {
                DEFAULT_DICT_BLOCK_CAP as int
            } else {
                cap as int
            }),
    {
        proof {
            reveal(blocks_hold);
        }
        BlockWriter {
            cap: if cap == 0 {
                DEFAULT_DICT_BLOCK_CAP
            } else {
                cap
            },
            cur: Vec::new(),
            prev_term: Vec::new(),
            prev_head_off: 0,
            count: 0,
            blocks: Vec::new(),
            dict_len: 0,
            model: Ghost(DictBlocks::empty()),
        }
    }

    /// Records `term -> (head_off, head_size)`. Terms must arrive in ascending byte order for
    /// the reader to find them. `head_off` must not decrease across calls (postings are
    /// appended in term order).
    pub fn push(&mut self, term: &[u8], head_off: u64, head_size: u64)
        requires
            old(self).wf(),
            old(self)@.open.len() > 0 ==> old(self)@.open.last().head_off <= head_off,
        ensures
            final(self).wf(),
            final(self).cap() == old(self).cap(),
            final(self)@ == old(self)@.push(
                DictEntry { term: term@, head_off, head_size },
                old(self).cap(),
            ),
    {
        let ghost e = DictEntry { term: term@, head_off, head_size };
        // If front-coding this entry against the open block's previous term would push the
        // block past the cap, seal the block first; the entry then starts a fresh block as
        // its (full, unshared) first term.
        if self.count > 0 {
            let shared: usize = common_prefix(self.prev_term.as_slice(), term);
            proof {
                bytes::lemma_common_len(self.prev_term@, term@);
            }
            let delta: u64 = head_off - self.prev_head_off;
            let framing: usize = uvarint_len(shared as u64) + uvarint_len(
                (term.len() - shared) as u64,
            ) + uvarint_len(delta) + uvarint_len(head_size);
            assert(encode_entry(self@.open, e).len() == framing + (term@.len() - shared));
            let fits = match framing.checked_add(term.len() - shared) {
                Some(entry_len) => entry_len <= self.cap && self.cur.len() <= self.cap - entry_len,
                None => false,
            };
            if !fits {
                self.flush();
            }
        }
        let first = self.count == 0;
        let shared: usize = if first {
            0
        } else {
            common_prefix(self.prev_term.as_slice(), term)
        };
        proof {
            bytes::lemma_common_len(self.prev_term@, term@);
        }
        let head_off_d: u64 = if first {
            head_off
        } else {
            head_off - self.prev_head_off
        };
        let ghost open = self@.open;
        write_uvarint(&mut self.cur, shared as u64);
        write_uvarint(&mut self.cur, (term.len() - shared) as u64);
        put_bytes(&mut self.cur, vstd::slice::slice_subrange(term, shared, term.len()));
        write_uvarint(&mut self.cur, head_off_d);
        write_uvarint(&mut self.cur, head_size);
        proof {
            assert(term@.subrange(shared as int, term@.len() as int) =~= term@.skip(shared as int));
            assert(self.cur@ =~= encode_block(open) + encode_entry(open, e));
            assert(open.push(e).drop_last() =~= open);
            self.model@ = DictBlocks { sealed: self.model@.sealed, open: open.push(e) };
        }
        self.prev_term = bytes::copy_range(term, 0, term.len());
        assert(self.prev_term@ =~= term@);
        self.prev_head_off = head_off;
        self.count = 1;
    }

    /// Seals the open block (if any), recording its offset and last term.
    fn flush(&mut self)
        requires
            old(self).wf(),
        ensures
            final(self).wf(),
            final(self).cap() == old(self).cap(),
            final(self)@ == old(self)@.flush(),
    {
        if self.count == 0 {
            return ;
        }
        let mut sealed_bytes: Vec<u8> = Vec::new();
        std::mem::swap(&mut sealed_bytes, &mut self.cur);
        let mut last_term: Vec<u8> = Vec::new();
        std::mem::swap(&mut last_term, &mut self.prev_term);
        let off: u64 = self.dict_len;
        self.dict_len = self.dict_len.saturating_add(sealed_bytes.len() as u64);
        let ghost sealed = self.model@.sealed;
        let ghost open = self.model@.open;
        let ghost before = self.blocks@;
        let block = Block { bytes: sealed_bytes, off, last_term };
        proof {
            lemma_hold_push(before, sealed, block, open);
        }
        self.blocks.push(block);
        self.count = 0;
        self.prev_head_off = 0;
        proof {
            self.model@ = DictBlocks { sealed: sealed.push(open), open: Seq::empty() };
            lemma_blocks_len_push(sealed, open);
        }
    }

    /// Flushes the open block and returns every block in term order.
    pub fn finish(self) -> (blocks: Vec<Block>)
        requires
            self.wf(),
        ensures
            blocks_hold(blocks@, self@.flush().sealed),
    {
        let mut w = self;
        w.flush();
        w.blocks
    }
}

proof fn lemma_hold_push(
    blocks: Seq<Block>,
    sealed: Seq<Seq<DictEntry>>,
    b: Block,
    open: Seq<DictEntry>,
)
    requires
        blocks_hold(blocks, sealed),
        open.len() > 0,
        b.bytes@ == encode_block(open),
        b.last_term@ == open.last().term,
        b.off == capped(blocks_len(sealed, sealed.len() as int)),
    ensures
        blocks_hold(blocks.push(b), sealed.push(open)),
{
    reveal(blocks_hold);
    let s = sealed.push(open);
    assert forall|i: int| 0 <= i < s.len() implies {
        &&& (#[trigger] s[i]).len() > 0
        &&& blocks.push(b)[i].bytes@ == encode_block(s[i])
        &&& blocks.push(b)[i].last_term@ == s[i].last().term
        &&& blocks.push(b)[i].off == capped(blocks_len(s, i))
    } by {
        lemma_blocks_len_prefix(sealed, s, i);
        if i < sealed.len() {
            assert(sealed[i].len() > 0);
        }
    }
}

proof fn lemma_blocks_len_prefix(a: Seq<Seq<DictEntry>>, b: Seq<Seq<DictEntry>>, n: int)
    requires
        0 <= n <= a.len(),
        n <= b.len(),
        forall|i: int| 0 <= i < n ==> a[i] == b[i],
    ensures
        blocks_len(a, n) == blocks_len(b, n),
    decreases n,
{
    if n > 0 {
        lemma_blocks_len_prefix(a, b, n - 1);
    }
}

proof fn lemma_blocks_len_push(sealed: Seq<Seq<DictEntry>>, es: Seq<DictEntry>)
    ensures
        forall|i: int|
            0 <= i <= sealed.len() ==> #[trigger] blocks_len(sealed.push(es), i) == blocks_len(
                sealed,
                i,
            ),
        blocks_len(sealed.push(es), sealed.len() as int + 1) == blocks_len(
            sealed,
            sealed.len() as int,
        ) + encode_block(es).len(),
{
    lemma_blocks_len_prefix(sealed.push(es), sealed, sealed.len() as int);
    assert(sealed.push(es)[sealed.len() as int] == es);
    assert forall|i: int| 0 <= i <= sealed.len() implies #[trigger] blocks_len(sealed.push(es), i)
        == blocks_len(sealed, i) by {
        lemma_blocks_len_prefix(sealed.push(es), sealed, i);
    }
}

/// Where a reader stands in a block.
#[verifier::ext_equal]
pub struct BlockCursor {
    /// Position of the next entry.
    pub pos: int,
    /// The previous entry's term; empty before the first.
    pub prev: Seq<u8>,
    /// The previous entry's `head_off`; zero before the first.
    pub head_off: u64,
    /// Whether no entry has been read yet.
    pub first: bool,
}

impl BlockCursor {
    /// At the start of a block.
    pub open spec fn start() -> BlockCursor {
        BlockCursor { pos: 0, prev: Seq::empty(), head_off: 0, first: true }
    }
}

/// A decoded entry: `(term, head_off, head_size)`.
pub type Decoded = (Seq<u8>, u64, usize);

/// The entry at `c` and the cursor behind it; `None` at the block's end and where the entry
/// is malformed (a bad varint, or a suffix that runs past the block).
pub open spec fn decode_entry(block: Seq<u8>, c: BlockCursor) -> Option<(Decoded, BlockCursor)> {
    if c.pos >= block.len() {
        None
    } else {
        match uvarint_at(block, c.pos) {
            None => None,
            Some((shared, p1)) => match uvarint_at(block, p1) {
                None => None,
                Some((suffix_len, p2)) => {
                    let end = p2 + (suffix_len as usize);
                    if end > block.len() {
                        None
                    } else {
                        match uvarint_at(block, end) {
                            None => None,
                            Some((delta, p3)) => match uvarint_at(block, p3) {
                                None => None,
                                Some((size, p4)) => {
                                    let keep = if (shared as usize) <= c.prev.len() {
                                        (shared as usize) as int
                                    } else {
                                        c.prev.len() as int
                                    };
                                    let term = c.prev.take(keep) + block.subrange(p2, end);
                                    let head_off = if c.first {
                                        delta
                                    } else {
                                        capped((c.head_off + delta) as nat)
                                    };
                                    Some(
                                        (
                                            (term, head_off, size as usize),
                                            BlockCursor { pos: p4, prev: term, head_off, first: false },
                                        ),
                                    )
                                },
                            },
                        }
                    }
                },
            },
        }
    }
}

/// The entries that a reader at `c` still yields: those up to the block's end or to the
/// first malformed one.
pub open spec fn entries_from(block: Seq<u8>, c: BlockCursor) -> Seq<Decoded>
    decreases block.len() - c.pos,
{
    match decode_entry(block, c) {
        Some((e, next)) => if c.pos < next.pos <= block.len() {
            seq![e] + entries_from(block, next)
        } else {
            Seq::empty()
        },
        None => Seq::empty(),
    }
}

/// The entries of a front-coded block, in order.
pub open spec fn block_entries(block: Seq<u8>) -> Seq<Decoded> {
    entries_from(block, BlockCursor::start())
}

/// Reads a front-coded block entry by entry. Stops at the block's end or on the first
/// malformed entry.
pub struct BlockIter<'a> {
    block: &'a [u8],
    pos: usize,
    prev: Vec<u8>,
    head_off: u64,
    first: bool,
}

impl<'a> BlockIter<'a> {
    /// The block being read.
    pub closed spec fn block(&self) -> Seq<u8> {
        self.block@
    }

    /// Where the reader stands.
    pub closed spec fn cursor(&self) -> BlockCursor {
        BlockCursor {
            pos: self.pos as int,
            prev: self.prev@,
            head_off: self.head_off,
            first: self.first,
        }
    }

    /// The next entry as `(term, head_off, head_size)`, or `None` when there is none.
    pub fn next(&mut self) -> (e: Option<(Vec<u8>, u64, usize)>)
        ensures
            final(self).block() == old(self).block(),
            match e {
                Some(d) => decode_entry(old(self).block(), old(self).cursor()) == Some(
                    ((d.0@, d.1, d.2), final(self).cursor()),
                ) && final(self).cursor().pos > old(self).cursor().pos && final(self).cursor().pos
                    <= final(self).block().len(),
                None => decode_entry(old(self).block(), old(self).cursor()) is None,
            },
    {
        if self.pos >= self.block.len() {
            return None;
        }
        let mut pos: usize = self.pos;
        let shared: usize = match read_uvarint(self.block, &mut pos) {
            Some(v) => v as usize,
            None => return None,
        };
        let suffix_len: usize = match read_uvarint(self.block, &mut pos) {
            Some(v) => v as usize,
            None => return None,
        };
        // `pos + suffix_len` can overflow on a corrupted varint.
        let end: usize = match pos.checked_add(suffix_len) {
            Some(end) => end,
            None => return None,
        };
        if end > self.block.len() {
            return None;
        }
        let suffix: &[u8] = vstd::slice::slice_subrange(self.block, pos, end);
        pos = end;
        let head_off_d: u64 = match read_uvarint(self.block, &mut pos) {
            Some(v) => v,
            None => return None,
        };
        let head_size: usize = match read_uvarint(self.block, &mut pos) {
            Some(v) => v as usize,
            None => return None,
        };
        let keep: usize = if shared <= self.prev.len() {
            shared
        } else {
            self.prev.len()
        };
        let mut term: Vec<u8> = bytes::copy_range(self.prev.as_slice(), 0, keep);
        put_bytes(&mut term, suffix);
        assert(term@ =~= self.prev@.take(keep as int) + suffix@);
        self.head_off = if self.first {
            head_off_d
        } else {
            self.head_off.saturating_add(head_off_d)
        };
        self.first = false;
        self.pos = pos;
        self.prev = bytes::copy_range(term.as_slice(), 0, term.len());
        assert(self.prev@ =~= term@);
        Some((term, self.head_off, head_size))
    }

    /// Every entry that is left, in order.
    pub fn collect(self) -> (es: Vec<(Vec<u8>, u64, usize)>)
        ensures
            decoded(es@) == entries_from(self.block(), self.cursor()),
    {
        let mut it = self;
        let mut out: Vec<(Vec<u8>, u64, usize)> = Vec::new();
        let ghost all = entries_from(self.block(), self.cursor());
        loop
            invariant
                it.block() == self.block(),
                decoded(out@) + entries_from(it.block(), it.cursor()) == all,
                all == entries_from(self.block(), self.cursor()),
            decreases it.block().len() - it.cursor().pos,
        {
            let ghost before = it.cursor();
            match it.next() {
                None => {
                    assert(decoded(out@) =~= all);
                    return out;
                },
                Some(e) => {
                    let ghost d = (e.0@, e.1, e.2);
                    let ghost so_far = decoded(out@);
                    out.push(e);
                    assert(decoded(out@) =~= so_far.push(d));
                    assert(so_far + (seq![d] + entries_from(it.block(), it.cursor()))
                        =~= so_far.push(d) + entries_from(it.block(), it.cursor()));
                },
            }
        }
    }
}

/// The entries `es` with their terms as byte strings.
pub open spec fn decoded(es: Seq<(Vec<u8>, u64, usize)>) -> Seq<Decoded> {
    es.map_values(|e: (Vec<u8>, u64, usize)| (e.0@, e.1, e.2))
}

/// Reads the entries of a front-coded `block` (see [`BlockIter`]).
pub fn iter_block<'a>(block: &'a [u8]) -> (it: BlockIter<'a>)
    ensures
        it.block() == block@,
        it.cursor() == BlockCursor::start(),
{
    let it = BlockIter { block, pos: 0, prev: Vec::new(), head_off: 0, first: true };
    assert(it.prev@ =~= Seq::<u8>::empty());
    it
}

/// The location that a scan of the entries `es` for `term` yields: it passes over the terms
/// that sort before `term` and stops at the first that does not.
pub open spec fn scan_entries(es: Seq<Decoded>, term: Seq<u8>) -> Option<(u64, usize)>
    decreases es.len(),
{
    if es.len() == 0 {
        None
    } else if es[0].0 == term {
        Some((es[0].1, es[0].2))
    } else if bytes::lex_lt(term, es[0].0) {
        None
    } else {
        scan_entries(es.drop_first(), term)
    }
}

/// Linear-scans a front-coded `block` for `term`, returning its `(head_off, head_size)` or
/// `None` if absent. Stops early once a term sorts past `term` (entries are ascending).
pub fn scan_block(block: &[u8], term: &[u8]) -> (loc: Option<(u64, usize)>)
    ensures
        loc == scan_entries(block_entries(block@), term@),
{
    let mut it = iter_block(block);
    loop
        invariant
            it.block() == block@,
            scan_entries(entries_from(it.block(), it.cursor()), term@) == scan_entries(
                block_entries(block@),
                term@,
            ),
        decreases it.block().len() - it.cursor().pos,
    {
        let ghost rest = entries_from(it.block(), it.cursor());
        match it.next() {
            None => {
                return None;
            },
            Some((t, head_off, head_size)) => {
                assert(rest.drop_first() =~= entries_from(it.block(), it.cursor()));
                proof {
                    bytes::lemma_lex_total(t@, term@);
                }
                match order_bytes(t.as_slice(), term) {
                    ByteOrder::Same => {
                        return Some((head_off, head_size));
                    },
                    ByteOrder::After => {
                        return None;
                    },
                    ByteOrder::Before => {},
                }
            },
        }
    }
}

/// The entries `es` as a reader hands them out.
pub open spec fn plain(es: Seq<DictEntry>) -> Seq<Decoded> {
    es.map_values(|e: DictEntry| (e.term, e.head_off, e.head_size as usize))
}

/// Whether the entries `es` fit the codec: lengths fit in a `usize`, and no `head_off` is
/// below an earlier one.
pub open spec fn codable(es: Seq<DictEntry>) -> bool {
    &&& forall|i: int|
        0 <= i < es.len() ==> (#[trigger] es[i]).term.len() <= usize::MAX && es[i].head_size
            <= usize::MAX
    &&& forall|i: int, j: int| 0 <= i <= j < es.len() ==> es[i].head_off <= es[j].head_off
}

/// Where a reader stands behind the entries `es`.
spec fn cursor_after(es: Seq<DictEntry>) -> BlockCursor {
    if es.len() == 0 {
        BlockCursor::start()
    } else {
        BlockCursor {
            pos: encode_block(es).len() as int,
            prev: es.last().term,
            head_off: es.last().head_off,
            first: false,
        }
    }
}

/// How the pieces of an entry lie behind `a`.
proof fn lemma_pieces(
    a: Seq<u8>,
    v1: Seq<u8>,
    v2: Seq<u8>,
    suffix: Seq<u8>,
    v3: Seq<u8>,
    v4: Seq<u8>,
    after: Seq<u8>,
)
    ensures
        ({
            let block = a + (v1 + v2 + suffix + v3 + v4) + after;
            let p2 = (a + v1 + v2).len() as int;
            &&& block == a + v1 + (v2 + suffix + v3 + v4 + after)
            &&& block == (a + v1) + v2 + (suffix + v3 + v4 + after)
            &&& block == (a + v1 + v2 + suffix) + v3 + (v4 + after)
            &&& block == (a + v1 + v2 + suffix + v3) + v4 + after
            &&& block.subrange(p2, p2 + suffix.len()) == suffix
        }),
{
    let block = a + (v1 + v2 + suffix + v3 + v4) + after;
    let p2 = (a + v1 + v2).len() as int;
    assert(block =~= a + v1 + (v2 + suffix + v3 + v4 + after));
    assert(block =~= (a + v1) + v2 + (suffix + v3 + v4 + after));
    assert(block =~= (a + v1 + v2 + suffix) + v3 + (v4 + after));
    assert(block =~= (a + v1 + v2 + suffix + v3) + v4 + after);
    assert(block.subrange(p2, p2 + suffix.len()) =~= suffix);
}

/// What decoding yields where the four varints of an entry are known.
proof fn lemma_decode_known(
    block: Seq<u8>,
    c: BlockCursor,
    shared: u64,
    p1: int,
    suffix_len: u64,
    p2: int,
    delta: u64,
    p3: int,
    size: u64,
    p4: int,
)
    requires
        c.pos < block.len(),
        uvarint_at(block, c.pos) == Some((shared, p1)),
        uvarint_at(block, p1) == Some((suffix_len, p2)),
        suffix_len <= usize::MAX,
        p2 + suffix_len <= block.len(),
        uvarint_at(block, p2 + suffix_len) == Some((delta, p3)),
        uvarint_at(block, p3) == Some((size, p4)),
        shared <= c.prev.len(),
        shared <= usize::MAX,
        c.first || c.head_off + delta <= u64::MAX,
    ensures
        ({
            let term = c.prev.take(shared as int) + block.subrange(p2, p2 + suffix_len);
            let head_off = if c.first {
                delta
            } else {
                (c.head_off + delta) as u64
            };
            decode_entry(block, c) == Some(
                (
                    (term, head_off, size as usize),
                    (BlockCursor { pos: p4, prev: term, head_off, first: false }),
                ),
            )
        }),
{
}

#[verifier::rlimit(60)]
#[verifier::spinoff_prover]
proof fn lemma_decode_entry(prev: Seq<DictEntry>, e: DictEntry, after: Seq<u8>)
    requires
        codable(prev.push(e)),
    ensures
        decode_entry(encode_block(prev) + encode_entry(prev, e) + after, cursor_after(prev))
            == Some(((e.term, e.head_off, e.head_size as usize), cursor_after(prev.push(e)))),
        cursor_after(prev).pos < cursor_after(prev.push(e)).pos,
{
    let a = encode_block(prev);
    let c = cursor_after(prev);
    let shared = if prev.len() == 0 {
        0
    } else {
        bytes::common_len(prev.last().term, e.term)
    };
    if prev.len() > 0 {
        bytes::lemma_common_len(prev.last().term, e.term);
        assert(prev.push(e)[prev.len() - 1] == prev.last());
    }
    assert(prev.push(e)[prev.len() as int] == e);
    let delta = if prev.len() == 0 {
        e.head_off as int
    } else {
        e.head_off - prev.last().head_off
    };
    let v1 = uvarint(shared);
    let v2 = uvarint((e.term.len() - shared) as nat);
    let suffix = e.term.skip(shared as int);
    let v3 = uvarint(delta as nat);
    let v4 = uvarint(e.head_size as nat);
    let block = a + encode_entry(prev, e) + after;
    assert(prev.push(e).drop_last() =~= prev);
    assert(encode_block(prev.push(e)) == a + encode_entry(prev, e));
    lemma_pieces(a, v1, v2, suffix, v3, v4, after);
    law_uvarint_roundtrip(a, shared as u64, v2 + suffix + v3 + v4 + after);
    law_uvarint_roundtrip(a + v1, (e.term.len() - shared) as u64, suffix + v3 + v4 + after);
    law_uvarint_roundtrip(a + v1 + v2 + suffix, delta as u64, v4 + after);
    law_uvarint_roundtrip(a + v1 + v2 + suffix + v3, e.head_size, after);
    let p1 = (a + v1).len() as int;
    let p2 = (a + v1 + v2).len() as int;
    let p3 = (a + v1 + v2 + suffix + v3).len() as int;
    let p4 = (a + v1 + v2 + suffix + v3 + v4).len() as int;
    lemma_decode_known(
        block,
        c,
        shared as u64,
        p1,
        (e.term.len() - shared) as u64,
        p2,
        delta as u64,
        p3,
        e.head_size,
        p4,
    );
    assert(c.prev.take(shared as int) + suffix =~= e.term);
}

proof fn lemma_encode_block_prefix(es: Seq<DictEntry>, i: int)
    requires
        0 <= i <= es.len(),
    ensures
        encode_block(es.take(i)).len() <= encode_block(es).len(),
        encode_block(es).subrange(0, encode_block(es.take(i)).len() as int) == encode_block(
            es.take(i),
        ),
    decreases es.len() - i,
{
    if i == es.len() {
        assert(es.take(i) =~= es);
        assert(encode_block(es).subrange(0, encode_block(es).len() as int) =~= encode_block(es));
    } else {
        lemma_encode_block_prefix(es, i + 1);
        let n = encode_block(es.take(i)).len() as int;
        let m = encode_block(es.take(i + 1)).len() as int;
        assert(es.take(i + 1).drop_last() =~= es.take(i));
        assert(encode_block(es).subrange(0, n) =~= encode_block(es).subrange(0, m).subrange(0, n));
        assert(encode_block(es.take(i + 1)).subrange(0, n) =~= encode_block(es.take(i)));
    }
}

proof fn lemma_entries_step(block: Seq<u8>, c: BlockCursor, e: Decoded, next: BlockCursor)
    requires
        decode_entry(block, c) == Some((e, next)),
        c.pos < next.pos <= block.len(),
    ensures
        entries_from(block, c) == seq![e] + entries_from(block, next),
{
}

proof fn lemma_block_split(es: Seq<DictEntry>, i: int) -> (after: Seq<u8>)
    requires
        0 <= i < es.len(),
    ensures
        es.take(i).push(es[i]) == es.take(i + 1),
        encode_block(es) == encode_block(es.take(i)) + encode_entry(es.take(i), es[i]) + after,
        encode_block(es.take(i + 1)).len() <= encode_block(es).len(),
{
    lemma_encode_block_prefix(es, i + 1);
    assert(es.take(i).push(es[i]) =~= es.take(i + 1));
    assert(es.take(i + 1).drop_last() =~= es.take(i));
    let block = encode_block(es);
    let m = encode_block(es.take(i + 1)).len() as int;
    let after = block.subrange(m, block.len() as int);
    assert(block =~= block.subrange(0, m) + after);
    after
}

proof fn lemma_codable_take(es: Seq<DictEntry>, i: int)
    requires
        codable(es),
        0 <= i <= es.len(),
    ensures
        codable(es.take(i)),
{
    let t = es.take(i);
    assert forall|k: int| 0 <= k < t.len() implies (#[trigger] t[k]).term.len() <= usize::MAX
        && t[k].head_size <= usize::MAX by {
        assert(t[k] == es[k]);
    }
}

proof fn lemma_entries_end(es: Seq<DictEntry>)
    ensures
        entries_from(encode_block(es), cursor_after(es)) == Seq::<Decoded>::empty(),
{
}

proof fn lemma_entries_one(es: Seq<DictEntry>, i: int)
    requires
        codable(es),
        0 <= i < es.len(),
    ensures
        entries_from(encode_block(es), cursor_after(es.take(i))) == seq![
            (es[i].term, es[i].head_off, es[i].head_size as usize),
        ] + entries_from(encode_block(es), cursor_after(es.take(i + 1))),
{
    let after = lemma_block_split(es, i);
    lemma_codable_take(es, i + 1);
    lemma_decode_entry(es.take(i), es[i], after);
    lemma_entries_step(
        encode_block(es),
        cursor_after(es.take(i)),
        (es[i].term, es[i].head_off, es[i].head_size as usize),
        cursor_after(es.take(i + 1)),
    );
}

proof fn lemma_entries_behind(es: Seq<DictEntry>, i: int)
    requires
        codable(es),
        0 <= i <= es.len(),
    ensures
        entries_from(encode_block(es), cursor_after(es.take(i))) == plain(es.skip(i)),
    decreases es.len() - i,
{
    if i == es.len() {
        assert(es.take(i) =~= es);
        lemma_entries_end(es);
        assert(plain(es.skip(i)) =~= Seq::<Decoded>::empty());
    } else {
        lemma_entries_one(es, i);
        lemma_entries_behind(es, i + 1);
        let d = (es[i].term, es[i].head_off, es[i].head_size as usize);
        assert(plain(es.skip(i)) =~= seq![d] + plain(es.skip(i + 1)));
    }
}

/// Reading a block gives back exactly the entries that were encoded, in order.
pub proof fn law_block_roundtrip(es: Seq<DictEntry>)
    requires
        codable(es),
    ensures
        block_entries(encode_block(es)) == plain(es),
{
    lemma_entries_behind(es, 0);
    assert(es.take(0) =~= Seq::<DictEntry>::empty());
    assert(es.skip(0) =~= es);
}

proof fn lemma_flatten_push<A>(ss: Seq<Seq<A>>, s: Seq<A>)
    ensures
        ss.push(s).flatten() == ss.flatten() + s,
    decreases ss.len(),
{
    if ss.len() == 0 {
        assert(ss.push(s).drop_first() =~= Seq::<Seq<A>>::empty());
        assert(ss.push(s).flatten() =~= s + Seq::<Seq<A>>::empty().flatten());
        assert(ss.flatten() =~= Seq::<A>::empty());
        assert(ss.push(s).flatten() =~= ss.flatten() + s);
    } else {
        assert(ss.push(s).drop_first() =~= ss.drop_first().push(s));
        lemma_flatten_push(ss.drop_first(), s);
        assert(ss.push(s).flatten() =~= ss.first() + (ss.drop_first().flatten() + s));
        assert(ss.push(s).flatten() =~= ss.flatten() + s);
    }
}

/// The entries pushed are kept, in order and none dropped or repeated.
pub proof fn law_entries_kept(w: DictBlocks, es: Seq<DictEntry>, cap: int)
    ensures
        w.push_all(es, cap).entries() == w.entries() + es,
        w.push_all(es, cap).flush().entries() == w.entries() + es,
        w.push_all(es, cap).flush().open.len() == 0,
    decreases es.len(),
{
    if es.len() == 0 {
        assert(w.entries() + es =~= w.entries());
        lemma_flatten_push(w.sealed, w.open);
        assert(w.flush().entries() =~= w.entries());
    } else {
        law_entries_kept(w, es.drop_last(), cap);
        let p = w.push_all(es.drop_last(), cap);
        let q = p.push(es.last(), cap);
        lemma_flatten_push(p.sealed, p.open);
        assert(p.flush().entries() =~= p.entries());
        assert(q.entries() =~= p.entries().push(es.last()));
        assert(es =~= es.drop_last().push(es.last()));
        assert(q.entries() =~= w.entries() + es);
        lemma_flatten_push(q.sealed, q.open);
        assert(q.flush().entries() =~= q.entries());
    }
}

/// Every sealed block holds an entry, and stays within the cap unless it holds only one.
pub proof fn law_blocks_within_cap(es: Seq<DictEntry>, cap: int)
    ensures
        ({
            let w = DictBlocks::empty().push_all(es, cap);
            &&& forall|i: int|
                0 <= i < w.flush().sealed.len() ==> {
                    &&& (#[trigger] w.flush().sealed[i]).len() >= 1
                    &&& w.flush().sealed[i].len() > 1 ==> encode_block(w.flush().sealed[i]).len()
                        <= cap
                }
            &&& w.open.len() > 1 ==> encode_block(w.open).len() <= cap
        }),
    decreases es.len(),
{
    if es.len() > 0 {
        law_blocks_within_cap(es.drop_last(), cap);
        let p = DictBlocks::empty().push_all(es.drop_last(), cap);
        let q = p.push(es.last(), cap);
        assert(forall|i: int| 0 <= i < p.sealed.len() ==> p.flush().sealed[i] == p.sealed[i]);
        if p.open.len() > 0 {
            assert(p.flush().sealed.last() == p.open);
        }
        assert(p.open.push(es.last()).drop_last() =~= p.open);
        assert(encode_block(p.open.push(es.last())) == encode_block(p.open) + encode_entry(
            p.open,
            es.last(),
        ));
        assert forall|i: int| 0 <= i < q.flush().sealed.len() implies {
            &&& (#[trigger] q.flush().sealed[i]).len() >= 1
            &&& q.flush().sealed[i].len() > 1 ==> encode_block(q.flush().sealed[i]).len() <= cap
        } by {
            if i < p.flush().sealed.len() && i < q.sealed.len() {
                assert(q.sealed[i] == p.flush().sealed[i]);
            }
        }
    }
}

/// Whether the terms of `es` are strictly ascending.
pub open spec fn ascending(es: Seq<DictEntry>) -> bool {
    forall|i: int, j: int| 0 <= i < j < es.len() ==> bytes::lex_lt(es[i].term, es[j].term)
}

/// The block that `term` is looked for in: the first whose last term does not sort before it.
pub open spec fn route(sealed: Seq<Seq<DictEntry>>, term: Seq<u8>) -> Option<int>
    decreases sealed.len(),
{
    if sealed.len() == 0 {
        None
    } else if !bytes::lex_lt(sealed[0].last().term, term) {
        Some(0)
    } else {
        match route(sealed.drop_first(), term) {
            Some(i) => Some(i + 1),
            None => None,
        }
    }
}

/// What a lookup of `term` yields: the location that a scan of its block finds.
pub open spec fn lookup(sealed: Seq<Seq<DictEntry>>, term: Seq<u8>) -> Option<(u64, usize)> {
    match route(sealed, term) {
        Some(i) => scan_entries(block_entries(encode_block(sealed[i])), term),
        None => None,
    }
}

/// Whether `loc` is the location that the entries `es` give `term`.
pub open spec fn located(es: Seq<DictEntry>, term: Seq<u8>, loc: Option<(u64, usize)>) -> bool {
    match loc {
        Some((off, size)) => exists|k: int|
            0 <= k < es.len() && (#[trigger] es[k]).term == term && es[k].head_off == off
                && es[k].head_size == size,
        None => forall|k: int| 0 <= k < es.len() ==> (#[trigger] es[k]).term != term,
    }
}

proof fn lemma_scan_located(es: Seq<DictEntry>, term: Seq<u8>)
    requires
        codable(es),
        ascending(es),
    ensures
        located(es, term, scan_entries(plain(es), term)),
    decreases es.len(),
{
    let ds = plain(es);
    if es.len() > 0 {
        let rest = es.drop_first();
        assert(ds.drop_first() =~= plain(rest));
        assert(ds[0].0 == es[0].term);
        assert(es[0].head_size <= usize::MAX);
        if es[0].term == term {
        } else if bytes::lex_lt(term, es[0].term) {
            assert forall|k: int| 0 <= k < es.len() implies (#[trigger] es[k]).term != term by {
                if k > 0 {
                    bytes::lemma_lex_total(term, es[0].term);
                }
            }
        } else {
            assert(codable(rest)) by {
                assert forall|k: int| 0 <= k < rest.len() implies (#[trigger] rest[k]).term.len()
                    <= usize::MAX && rest[k].head_size <= usize::MAX by {
                    assert(rest[k] == es[k + 1]);
                }
            }
            lemma_scan_located(rest, term);
            match scan_entries(plain(rest), term) {
                Some((off, size)) => {
                    let k = choose|k: int|
                        0 <= k < rest.len() && (#[trigger] rest[k]).term == term && rest[k].head_off
                            == off && rest[k].head_size == size;
                    assert(es[k + 1] == rest[k]);
                },
                None => {
                    assert forall|k: int| 0 <= k < es.len() implies (#[trigger] es[k]).term
                        != term by {
                        if k > 0 {
                            assert(es[k] == rest[k - 1]);
                        }
                    }
                },
            }
        }
    }
}

proof fn lemma_codable_part(es: Seq<DictEntry>, a: Seq<DictEntry>, b: Seq<DictEntry>)
    requires
        es == a + b,
        codable(es),
        ascending(es),
    ensures
        codable(a),
        ascending(a),
        codable(b),
        ascending(b),
        forall|i: int, j: int|
            0 <= i < a.len() && 0 <= j < b.len() ==> bytes::lex_lt(a[i].term, b[j].term),
{
    assert(forall|k: int| 0 <= k < a.len() ==> a[k] == es[k]);
    assert(forall|k: int| 0 <= k < b.len() ==> b[k] == es[k + a.len()]);
}

proof fn lemma_lookup_located(sealed: Seq<Seq<DictEntry>>, term: Seq<u8>)
    requires
        codable(sealed.flatten()),
        ascending(sealed.flatten()),
        forall|i: int| 0 <= i < sealed.len() ==> (#[trigger] sealed[i]).len() > 0,
    ensures
        located(sealed.flatten(), term, lookup(sealed, term)),
    decreases sealed.len(),
{
    let es = sealed.flatten();
    if sealed.len() > 0 {
        let a = sealed.first();
        let b = sealed.drop_first().flatten();
        assert(es == a + b);
        lemma_codable_part(es, a, b);
        assert(sealed[0] == a);
        assert(a.len() > 0);
        law_block_roundtrip(a);
        let last = a.last().term;
        if !bytes::lex_lt(last, term) {
            lemma_scan_located(a, term);
            match lookup(sealed, term) {
                Some((off, size)) => {
                    let k = choose|k: int|
                        0 <= k < a.len() && (#[trigger] a[k]).term == term && a[k].head_off == off
                            && a[k].head_size == size;
                    assert(es[k] == a[k]);
                },
                None => {
                    assert forall|k: int| 0 <= k < es.len() implies (#[trigger] es[k]).term
                        != term by {
                        if k < a.len() {
                            assert(es[k] == a[k]);
                        } else {
                            assert(es[k] == b[k - a.len()]);
                            assert(bytes::lex_lt(a[a.len() - 1].term, b[k - a.len()].term));
                        }
                    }
                },
            }
        } else {
            let rest = sealed.drop_first();
            assert forall|i: int| 0 <= i < rest.len() implies (#[trigger] rest[i]).len() > 0 by {
                assert(rest[i] == sealed[i + 1]);
            }
            lemma_lookup_located(rest, term);
            match route(rest, term) {
                Some(i) => {
                    lemma_route_range(rest, term);
                    assert(rest[i] == sealed[i + 1]);
                },
                None => {},
            }
            assert(lookup(sealed, term) == lookup(rest, term));
            match lookup(rest, term) {
                Some((off, size)) => {
                    let k = choose|k: int|
                        0 <= k < b.len() && (#[trigger] b[k]).term == term && b[k].head_off == off
                            && b[k].head_size == size;
                    assert(es[k + a.len()] == b[k]);
                },
                None => {
                    assert forall|k: int| 0 <= k < es.len() implies (#[trigger] es[k]).term
                        != term by {
                        if k < a.len() {
                            assert(es[k] == a[k]);
                            bytes::lemma_lex_total(term, term);
                            bytes::lemma_lex_total(last, term);
                            if k < a.len() - 1 {
                                bytes::lemma_lex_total(a[k].term, last);
                            }
                        } else {
                            assert(es[k] == b[k - a.len()]);
                        }
                    }
                },
            }
        }
    }
}

/// A routed block is one of the blocks.
pub proof fn lemma_route_range(sealed: Seq<Seq<DictEntry>>, term: Seq<u8>)
    ensures
        route(sealed, term) matches Some(i) ==> 0 <= i < sealed.len(),
    decreases sealed.len(),
{
    if sealed.len() > 0 {
        lemma_route_range(sealed.drop_first(), term);
    }
}

/// Looking a term up in the blocks of ascending entries finds exactly what was pushed for it,
/// and nothing for a term that was not pushed.
pub proof fn law_lookup(es: Seq<DictEntry>, cap: int, term: Seq<u8>)
    requires
        codable(es),
        ascending(es),
    ensures
        located(
            es,
            term,
            lookup(DictBlocks::empty().push_all(es, cap).flush().sealed, term),
        ),
{
    let w = DictBlocks::empty().push_all(es, cap).flush();
    law_entries_kept(DictBlocks::empty(), es, cap);
    law_blocks_within_cap(es, cap);
    assert(w.entries() =~= w.sealed.flatten());
    assert(DictBlocks::empty().entries() + es =~= es) by {
        assert(Seq::<Seq<DictEntry>>::empty().flatten() =~= Seq::<DictEntry>::empty());
    }
    lemma_lookup_located(w.sealed, term);
}

/// A scan stops at the first term that does not sort before the one looked for, and finds it
/// exactly where that first term is the one.
pub proof fn law_scan(es: Seq<Decoded>, term: Seq<u8>, k: int)
    requires
        0 <= k <= es.len(),
        forall|j: int|
            0 <= j < k ==> (#[trigger] es[j]).0 != term && !bytes::lex_lt(term, es[j].0),
        k < es.len() ==> es[k].0 == term || bytes::lex_lt(term, es[k].0),
    ensures
        scan_entries(es, term) == (if k < es.len() && es[k].0 == term {
            Some((es[k].1, es[k].2))
        } else {
            None
        }),
    decreases k,
{
    if k > 0 {
        let rest = es.drop_first();
        assert(es[0].0 != term);
        assert forall|j: int| 0 <= j < k - 1 implies (#[trigger] rest[j]).0 != term
            && !bytes::lex_lt(term, rest[j].0) by {
            assert(rest[j] == es[j + 1]);
        }
        law_scan(rest, term, k - 1);
    }
}

/// A term is looked for in the first block whose last term does not sort before it; behind all
/// blocks it is nowhere.
pub proof fn law_route(sealed: Seq<Seq<DictEntry>>, term: Seq<u8>)
    ensures
        match route(sealed, term) {
            Some(i) => {
                &&& 0 <= i < sealed.len()
                &&& !bytes::lex_lt(sealed[i].last().term, term)
                &&& forall|j: int|
                    0 <= j < i ==> bytes::lex_lt((#[trigger] sealed[j]).last().term, term)
            },
            None => forall|j: int|
                0 <= j < sealed.len() ==> bytes::lex_lt((#[trigger] sealed[j]).last().term, term),
        },
    decreases sealed.len(),
{
    if sealed.len() > 0 && bytes::lex_lt(sealed[0].last().term, term) {
        let rest = sealed.drop_first();
        law_route(rest, term);
        let n = match route(rest, term) {
            Some(i) => i + 1,
            None => sealed.len() as int,
        };
        assert forall|j: int| 0 <= j < n implies bytes::lex_lt(
            (#[trigger] sealed[j]).last().term,
            term,
        ) by {
            if j > 0 {
                assert(rest[j - 1] == sealed[j]);
            }
        }
    }
}

/// A block is sealed exactly where it holds an entry and would outgrow the cap with the next
/// one, and the entry that did not fit starts the next block.
pub proof fn law_block_sealed(w: DictBlocks, e: DictEntry, cap: int)
    ensures
        ({
            let p = w.push(e, cap);
            if w.open.len() > 0 && encode_block(w.open.push(e)).len() > cap {
                p.sealed == w.sealed.push(w.open) && p.open == seq![e]
            } else {
                p.sealed == w.sealed && p.open == w.open.push(e)
            }
        }),
{
    assert(w.open.push(e).drop_last() =~= w.open);
    assert(Seq::<DictEntry>::empty().push(e) =~= seq![e]);
    if w.open.len() == 0 {
        assert(w.open =~= Seq::<DictEntry>::empty());
    }
}

/// The bytes of a varint all but the last have the high bit set, they spell the number, and
/// they are no more than it needs.
pub proof fn law_uvarint(v: nat)
    ensures
        uvarint(v).len() > 0,
        uvarint(v).last() < 128,
        forall|i: int| 0 <= i < uvarint(v).len() - 1 ==> #[trigger] uvarint(v)[i] >= 128,
        septets(uvarint(v)) == v,
        uvarint(v).len() > 1 ==> uvarint(v).last() > 0,
    decreases v,
{
    let s = uvarint(v);
    if v >= 128 {
        law_uvarint(v / 128);
        let rest = uvarint(v / 128);
        assert(s.drop_first() =~= rest);
        assert(s[0] == v % 128 + 128);
        assert forall|i: int| 0 <= i < s.len() - 1 implies #[trigger] s[i] >= 128 by {
            if i > 0 {
                assert(s[i] == rest[i - 1]);
            }
        }
        assert(s.last() == rest.last());
    } else {
        assert(s.drop_first() =~= Seq::<u8>::empty());
        reveal_with_fuel(septets, 2);
    }
}

} // verus!
