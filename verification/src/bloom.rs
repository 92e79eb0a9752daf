//! Term Bloom filters: `[k u32 LE][nbits u32 LE][ceil(nbits / 8) bytes]`.

use crate::bytes;
use crate::bytes::{put_bytes, put_u32, read_u32};
use crate::error::IndexError;
use vstd::prelude::*;

verus! {

/// The largest multiple of eight that the 32-bit `nbits` field holds.
pub const MAX_BITS: u64 = 4294967288;

/// A 64-bit mixer (splitmix64): the deterministic, portable hash the filter derives its two
/// base hashes from.
#[verifier::opaque]
pub open spec fn mix(z: u64) -> u64 {
    let a = (z ^ (z >> 30u64)).wrapping_mul(0xbf58_476d_1ce4_e5b9);
    let b = (a ^ (a >> 27u64)).wrapping_mul(0x94d0_49bb_1331_11eb);
    b ^ (b >> 31u64)
}

/// The `i`-th bit position of `key` in a filter of `nbits` bits: double hashing,
/// `h1 + i * h2 mod nbits`.
pub open spec fn position(key: u64, i: nat, nbits: u64) -> u64 {
    let h1 = mix(key);
    let h2 = mix(key ^ 0x9e37_79b9_7f4a_7c15) | 1;
    h1.wrapping_add((i as u64).wrapping_mul(h2)) % nbits
}

/// Whether bit `j` of `b` is set.
pub open spec fn bit(b: u8, j: u8) -> bool {
    b & (1u8 << j) != 0
}

/// Whether bit `pos` of `bits` is set.
pub open spec fn bit_at(bits: Seq<u8>, pos: u64) -> bool {
    bit(bits[(pos / 8) as int], (pos % 8) as u8)
}

/// What probing the positions of `key` from the `i`-th on says: `false` at the first clear
/// bit, and `true` where all are set.
pub open spec fn probe(bits: Seq<u8>, key: u64, i: nat, k: nat, nbits: u64) -> bool
    decreases k - i,
{
    let pos = position(key, i, nbits);
    if i >= k {
        true
    } else if !bit_at(bits, pos) {
        false
    } else {
        probe(bits, key, i + 1, k, nbits)
    }
}

/// Whether a filter header is one that a filter can have.
pub open spec fn header_ok(k: u32, nbits: u32) -> bool {
    0 < k <= 64 && nbits > 0
}

/// How many bytes a filter of `nbits` bits takes, its header included.
pub open spec fn filter_len(nbits: u32) -> nat {
    8 + (nbits as nat + 7) / 8
}

/// Whether `bloom` may hold `key`. A malformed or truncated filter may hold every key.
pub open spec fn may_contain(bloom: Seq<u8>, key: u64) -> bool {
    let k = bytes::u32_at(bloom, 0);
    let nbits = bytes::u32_at(bloom, 4);
    if bloom.len() < 8 || !header_ok(k, nbits) || bloom.len() < filter_len(nbits) {
        true
    } else {
        probe(bloom.skip(8), key, 0, k as nat, nbits as u64)
    }
}

/// The number of hash functions for `bits_per_key`: `bits_per_key * ln 2` rounded to the
/// nearest integer, clamped to `1..=16`.
pub open spec fn hash_count(bits_per_key: u32) -> u32 {
    let rounded = (bits_per_key * 6931471806 + 5000000000) / 10000000000;
    if rounded < 1 {
        1
    } else if rounded > 16 {
        16
    } else {
        rounded as u32
    }
}

/// The number of bits of a filter over `n` keys: `max(n, 1) * bits_per_key`, at least 64,
/// rounded up to a multiple of eight and capped at [`MAX_BITS`].
pub open spec fn bit_count(n: nat, bits_per_key: u32) -> u64 {
    let keys = if n == 0 {
        1
    } else {
        n
    };
    let want = keys * bits_per_key;
    let rounded = if want < 64 {
        64
    } else {
        (want + 7) / 8 * 8
    };
    if rounded > MAX_BITS {
        MAX_BITS
    } else {
        rounded as u64
    }
}

/// Whether `pos` is one of the first `k` positions of one of `keys`.
pub open spec fn marked(keys: Seq<u64>, k: nat, nbits: u64, pos: u64) -> bool {
    exists|j: int, i: nat|
        0 <= j < keys.len() && i < k && #[trigger] position(keys[j], i, nbits) == pos
}

/// Whether `bloom` is the filter over `keys`: its header says how many hash functions and bits
/// it has, and exactly the keys' bits are set.
#[verifier::opaque]
pub open spec fn is_filter(bloom: Seq<u8>, keys: Seq<u64>, bits_per_key: u32) -> bool {
    let k = hash_count(bits_per_key);
    let nbits = bit_count(keys.len(), bits_per_key);
    &&& bloom.len() == 8 + nbits / 8
    &&& bloom.take(8) == bytes::le32(k) + bytes::le32(nbits as u32)
    &&& forall|pos: u64|
        pos < nbits ==> (#[trigger] bit_at(bloom.skip(8), pos) <==> marked(
            keys,
            k as nat,
            nbits,
            pos,
        ))
}

/// The splitmix64 mixer.
pub fn splitmix64(z: u64) -> (h: u64)
    ensures
        h == mix(z),
{
    reveal(mix);
    let a: u64 = (z ^ (z >> 30u64)).wrapping_mul(0xbf58_476d_1ce4_e5b9);
    let b: u64 = (a ^ (a >> 27u64)).wrapping_mul(0x94d0_49bb_1331_11eb);
    b ^ (b >> 31u64)
}

/// The `k` bit positions an n-gram `key` maps to in an `nbits`-bit filter.
pub fn bloom_positions(key: u64, k: u32, nbits: u64) -> (ps: Vec<u64>)
    requires
        nbits > 0,
    ensures
        ps@.len() == k,
        forall|i: int| 0 <= i < k ==> #[trigger] ps@[i] == position(key, i as nat, nbits),
{
    let h1: u64 = splitmix64(key);
    let h2: u64 = splitmix64(key ^ 0x9e37_79b9_7f4a_7c15) | 1;
    let mut ps: Vec<u64> = Vec::new();
    let mut i: u32 = 0;
    while i < k
        invariant
            i <= k,
            nbits > 0,
            h1 == mix(key),
            h2 == mix(key ^ 0x9e37_79b9_7f4a_7c15) | 1,
            ps@.len() == i,
            forall|j: int| 0 <= j < i ==> #[trigger] ps@[j] == position(key, j as nat, nbits),
        decreases k - i,
    {
        ps.push(h1.wrapping_add((i as u64).wrapping_mul(h2)) % nbits);
        i += 1;
    }
    ps
}

/// The number of hash functions `k` for a target `bits_per_key` (about `bits_per_key * ln 2`,
/// clamped to `1..=16`).
pub fn bloom_k(bits_per_key: u32) -> (k: u32)
    ensures
        k == hash_count(bits_per_key),
        1 <= k <= 16,
{
    let rounded: u128 = (bits_per_key as u128 * 6931471806 + 5000000000) / 10000000000;
    if rounded < 1 {
        1
    } else if rounded > 16 {
        16
    } else {
        rounded as u32
    }
}

proof fn lemma_bit_or(b: u8, j: u8, i: u8)
    requires
        j < 8,
        i < 8,
    ensures
        bit(b | (1u8 << j), i) == (i == j || bit(b, i)),
{
    assert(((b | (1u8 << j)) & (1u8 << i) != 0) == (i == j || b & (1u8 << i) != 0)) by (bit_vector)
        requires
            j < 8,
            i < 8,
    ;
}

proof fn lemma_bit_zero(j: u8)
    ensures
        !bit(0, j),
{
    assert(0u8 & (1u8 << j) == 0) by (bit_vector);
}

/// Sets bit `pos` of `bits`.
fn set_bit(bits: &mut Vec<u8>, pos: u64)
    requires
        pos / 8 < old(bits)@.len(),
    ensures
        final(bits)@.len() == old(bits)@.len(),
        forall|p: u64|
            p / 8 < old(bits)@.len() ==> (#[trigger] bit_at(final(bits)@, p) <==> p == pos || bit_at(
                old(bits)@,
                p,
            )),
{
    assert(bits@.len() == bits.len());
    let at: usize = (pos / 8) as usize;
    let j: u8 = (pos % 8) as u8;
    let b: u8 = bits[at];
    bits.set(at, b | (1u8 << j));
    proof {
        assert forall|p: u64| p / 8 < old(bits)@.len() implies (#[trigger] bit_at(bits@, p) <==> p
            == pos || bit_at(old(bits)@, p)) by {
            lemma_bit_or(b, j, (p % 8) as u8);
            if p / 8 != pos / 8 {
                assert(bits@[(p / 8) as int] == old(bits)@[(p / 8) as int]);
            } else {
                assert(p % 8 == pos % 8 <==> p == pos);
            }
        }
    }
}

/// Builds a term Bloom filter over `keys` at roughly `bits_per_key` bits per key. A vocabulary
/// too large for the 32-bit bit count degrades to a higher false-positive rate. The same
/// layout serves a per-split summary, or a standalone **global** sidecar probed remotely by
/// [`RemoteBloom`].
pub fn bloom_build(keys: &[u64], bits_per_key: u32) -> (out: Vec<u8>)
    ensures
        is_filter(out@, keys@, bits_per_key),
{
    let n: u128 = if keys.len() == 0 {
        1
    } else {
        keys.len() as u128
    };
    assert(n * bits_per_key <= u64::MAX * u32::MAX) by (nonlinear_arith)
        requires
            n <= u64::MAX,
            bits_per_key <= u32::MAX,
    ;
    let want: u128 = n * bits_per_key as u128;
    let rounded: u128 = if want < 64 {
        64
    } else {
        (want + 7) / 8 * 8
    };
    let nbits: u64 = if rounded > MAX_BITS as u128 {
        MAX_BITS
    } else {
        rounded as u64
    };
    assert(nbits == bit_count(keys@.len(), bits_per_key));
    let k: u32 = bloom_k(bits_per_key);
    let nbytes: usize = (nbits / 8) as usize;
    let mut bits: Vec<u8> = vec![0u8; nbytes];
    let mut done: usize = 0;
    proof {
        assert forall|p: u64| p < nbits implies (#[trigger] bit_at(bits@, p) <==> marked(
            keys@.take(0),
            k as nat,
            nbits,
            p,
        )) by {
            lemma_bit_zero((p % 8) as u8);
        }
    }
    while done < keys.len()
        invariant
            done <= keys@.len(),
            nbits > 0,
            nbits % 8 == 0,
            bits@.len() == nbits / 8,
            forall|p: u64|
                p < nbits ==> (#[trigger] bit_at(bits@, p) <==> marked(
                    keys@.take(done as int),
                    k as nat,
                    nbits,
                    p,
                )),
        decreases keys@.len() - done,
    {
        let key: u64 = keys[done];
        let ps = bloom_positions(key, k, nbits);
        let ghost before = bits@;
        let mut i: usize = 0;
        while i < ps.len()
            invariant
                i <= ps@.len() == k,
                nbits > 0,
                nbits % 8 == 0,
                bits@.len() == nbits / 8 == before.len(),
                forall|j: int| 0 <= j < k ==> #[trigger] ps@[j] == position(key, j as nat, nbits),
                forall|p: u64|
                    p < nbits ==> (#[trigger] bit_at(bits@, p) <==> bit_at(before, p) || exists|
                        j: nat,
                    |
                        j < i && #[trigger] position(key, j, nbits) == p),
            decreases ps@.len() - i,
        {
            let ghost prior = bits@;
            let pos: u64 = ps[i];
            set_bit(&mut bits, pos);
            proof {
                assert(pos == position(key, i as nat, nbits));
                assert forall|p: u64| p < nbits implies (#[trigger] bit_at(bits@, p) <==> bit_at(
                    before,
                    p,
                ) || exists|j: nat| j < i + 1 && #[trigger] position(key, j, nbits) == p) by {
                    assert(bit_at(bits@, p) <==> p == pos || bit_at(prior, p));
                }
            }
            i += 1;
        }
        proof {
            let t0 = keys@.take(done as int);
            let t1 = keys@.take(done + 1);
            assert(t1 =~= t0.push(key));
            assert forall|p: u64| p < nbits implies (#[trigger] bit_at(bits@, p) <==> marked(
                t1,
                k as nat,
                nbits,
                p,
            )) by {
                assert(bit_at(before, p) <==> marked(t0, k as nat, nbits, p));
                if marked(t0, k as nat, nbits, p) {
                    let (j, i) = choose|j: int, i: nat|
                        0 <= j < t0.len() && i < k && #[trigger] position(t0[j], i, nbits) == p;
                    assert(position(t1[j], i, nbits) == p);
                }
                if marked(t1, k as nat, nbits, p) {
                    let (j, i) = choose|j: int, i: nat|
                        0 <= j < t1.len() && i < k && #[trigger] position(t1[j], i, nbits) == p;
                    if j < t0.len() {
                        assert(position(t0[j], i, nbits) == p);
                    }
                }
                if exists|j: nat| j < k && #[trigger] position(key, j, nbits) == p {
                    let i = choose|j: nat| j < k && #[trigger] position(key, j, nbits) == p;
                    assert(position(t1[done as int], i, nbits) == p);
                }
            }
        }
        done += 1;
    }
    assert(keys@.take(done as int) =~= keys@);
    let mut out: Vec<u8> = Vec::new();
    put_u32(&mut out, k);
    put_u32(&mut out, nbits as u32);
    put_bytes(&mut out, bits.as_slice());
    reveal(is_filter);
    assert(out@.take(8) =~= bytes::le32(k) + bytes::le32(nbits as u32));
    assert(out@.skip(8) =~= bits@);
    out
}

/// Tests whether `key` is **possibly present** in a [`bloom_build`] filter. A `false` is
/// definitive (the key was never inserted); a `true` may be a false positive. A malformed or
/// truncated filter conservatively returns `true` (never prune on bad data).
pub fn bloom_contains(bloom: &[u8], key: u64) -> (maybe: bool)
    ensures
        maybe == may_contain(bloom@, key),
{
    if bloom.len() < 8 {
        return true;
    }
    let k: u32 = read_u32(bloom, 0);
    let nbits: u64 = read_u32(bloom, 4) as u64;
    // An out-of-range `k` would spin billions of rounds per key.
    if k == 0 || k > 64 || nbits == 0 {
        return true;
    }
    if ((bloom.len() - 8) as u64) < (nbits + 7) / 8 {
        return true;
    }
    let bits = vstd::slice::slice_subrange(bloom, 8, bloom.len());
    assert(bits@ =~= bloom@.skip(8));
    let ps = bloom_positions(key, k, nbits);
    let mut i: usize = 0;
    while i < ps.len()
        invariant
            i <= ps@.len() == k,
            0 < nbits <= u32::MAX,
            (nbits + 7) / 8 <= bits@.len(),
            forall|j: int| 0 <= j < k ==> #[trigger] ps@[j] == position(key, j as nat, nbits),
            may_contain(bloom@, key) == probe(bits@, key, i as nat, k as nat, nbits),
        decreases ps@.len() - i,
    {
        let pos: u64 = ps[i];
        assert(pos == position(key, i as nat, nbits) && pos < nbits);
        let j: u8 = (pos % 8) as u8;
        if bits[(pos / 8) as usize] & (1u8 << j) == 0 {
            return false;
        }
        i += 1;
    }
    true
}

proof fn lemma_probe_all(bits: Seq<u8>, key: u64, i: nat, k: nat, nbits: u64)
    requires
        forall|j: nat| i <= j < k ==> bit_at(bits, #[trigger] position(key, j, nbits)),
    ensures
        probe(bits, key, i, k, nbits),
    decreases k - i,
{
    if i < k {
        lemma_probe_all(bits, key, i + 1, k, nbits);
    }
}

/// A filter has no false negatives: every key it was built over may be contained.
pub proof fn law_no_false_negative(bloom: Seq<u8>, keys: Seq<u64>, bits_per_key: u32, key: u64)
    requires
        is_filter(bloom, keys, bits_per_key),
        keys.contains(key),
    ensures
        may_contain(bloom, key),
{
    reveal(is_filter);
    let k = hash_count(bits_per_key);
    let nbits = bit_count(keys.len(), bits_per_key);
    let head = bytes::le32(k) + bytes::le32(nbits as u32);
    lemma_bit_count(keys.len(), bits_per_key);
    assert(bloom.subrange(0, 4) =~= bloom.take(8).subrange(0, 4));
    assert(head.subrange(0, 4) =~= bytes::le32(k));
    bytes::lemma_u32_at(bloom, 0, k);
    assert(bloom.subrange(4, 8) =~= bloom.take(8).subrange(4, 8));
    assert(head.subrange(4, 8) =~= bytes::le32(nbits as u32));
    bytes::lemma_u32_at(bloom, 4, nbits as u32);
    let at = choose|j: int| 0 <= j < keys.len() && keys[j] == key;
    assert forall|j: nat| 0 <= j < k implies bit_at(
        bloom.skip(8),
        #[trigger] position(key, j, nbits),
    ) by {
        let pos = position(keys[at], j, nbits);
        assert(marked(keys, k as nat, nbits, pos));
        assert(pos < nbits);
    }
    lemma_probe_all(bloom.skip(8), key, 0, k as nat, nbits);
}

proof fn lemma_same_byte(x: u8, y: u8)
    requires
        forall|j: u8| j < 8 ==> #[trigger] bit(x, j) == bit(y, j),
    ensures
        x == y,
{
    assert(bit(x, 0) == bit(y, 0) && bit(x, 1) == bit(y, 1) && bit(x, 2) == bit(y, 2) && bit(x, 3)
        == bit(y, 3) && bit(x, 4) == bit(y, 4) && bit(x, 5) == bit(y, 5) && bit(x, 6) == bit(y, 6)
        && bit(x, 7) == bit(y, 7));
    assert(x == y) by (bit_vector)
        requires
            (x & (1u8 << 0u8) != 0) == (y & (1u8 << 0u8) != 0),
            (x & (1u8 << 1u8) != 0) == (y & (1u8 << 1u8) != 0),
            (x & (1u8 << 2u8) != 0) == (y & (1u8 << 2u8) != 0),
            (x & (1u8 << 3u8) != 0) == (y & (1u8 << 3u8) != 0),
            (x & (1u8 << 4u8) != 0) == (y & (1u8 << 4u8) != 0),
            (x & (1u8 << 5u8) != 0) == (y & (1u8 << 5u8) != 0),
            (x & (1u8 << 6u8) != 0) == (y & (1u8 << 6u8) != 0),
            (x & (1u8 << 7u8) != 0) == (y & (1u8 << 7u8) != 0),
    ;
}

/// The keys and the bits per key determine a filter's bytes.
pub proof fn law_filter_unique(a: Seq<u8>, b: Seq<u8>, keys: Seq<u64>, bits_per_key: u32)
    requires
        is_filter(a, keys, bits_per_key),
        is_filter(b, keys, bits_per_key),
    ensures
        a == b,
{
    reveal(is_filter);
    let nbits = bit_count(keys.len(), bits_per_key);
    lemma_bit_count(keys.len(), bits_per_key);
    let (x, y) = (a.skip(8), b.skip(8));
    assert forall|i: int| 0 <= i < x.len() implies x[i] == y[i] by {
        assert forall|j: u8| j < 8 implies #[trigger] bit(x[i], j) == bit(y[i], j) by {
            let pos = (8 * i + j) as u64;
            assert(pos < nbits && pos / 8 == i && pos % 8 == j);
            assert(bit_at(x, pos) == bit_at(y, pos));
        }
        lemma_same_byte(x[i], y[i]);
    }
    assert(x =~= y);
    assert(a =~= a.take(8) + x);
    assert(b =~= b.take(8) + y);
}

proof fn lemma_bit_count(n: nat, bits_per_key: u32)
    ensures
        64 <= bit_count(n, bits_per_key) <= MAX_BITS,
        bit_count(n, bits_per_key) % 8 == 0,
{
    let keys = if n == 0 {
        1
    } else {
        n
    };
    assert(keys * bits_per_key >= 0) by (nonlinear_arith);
}

/// A term Bloom filter probed **without downloading it**: the 8-byte `[k u32][nbits u32]`
/// header is read once, then each key costs `k` single-byte reads at its hash positions.
/// `false` answers are definitive.
pub struct RemoteBloom {
    k: u32,
    nbits: u32,
}

impl RemoteBloom {
    /// The number of hash functions.
    pub closed spec fn k(&self) -> u32 {
        self.k
    }

    /// The number of bits.
    pub closed spec fn nbits(&self) -> u32 {
        self.nbits
    }

    #[verifier::type_invariant]
    spec fn inv(self) -> bool {
        header_ok(self.k, self.nbits)
    }

    /// Validates the 8-byte header `h`.
    pub fn open(h: &[u8]) -> (r: Result<RemoteBloom, IndexError>)
        requires
            h@.len() >= 8,
        ensures
            match r {
                Ok(b) => header_ok(b.k(), b.nbits()) && b.k() == bytes::u32_at(h@, 0) && b.nbits()
                    == bytes::u32_at(h@, 4),
                Err(e) => !header_ok(bytes::u32_at(h@, 0), bytes::u32_at(h@, 4)) && e
                    == IndexError::Malformed("RRSS bloom sidecar header invalid"),
            },
    {
        let k: u32 = read_u32(h, 0);
        let nbits: u32 = read_u32(h, 4);
        if k == 0 || k > 64 || nbits == 0 {
            return Err(IndexError::Malformed("RRSS bloom sidecar header invalid"));
        }
        Ok(RemoteBloom { k, nbits })
    }

    /// The single-byte reads that answer for `key`: the file offset and the bit within that
    /// byte, one for each hash function.
    pub fn probes(&self, key: u64) -> (ps: Vec<(u64, u8)>)
        ensures
            ps@.len() == self.k(),
            forall|i: int|
                0 <= i < self.k() ==> (#[trigger] ps@[i]).0 == 8 + position(
                    key,
                    i as nat,
                    self.nbits() as u64,
                ) / 8 && ps@[i].1 == position(key, i as nat, self.nbits() as u64) % 8,
    {
        proof {
            use_type_invariant(self);
        }
        let positions = bloom_positions(key, self.k, self.nbits as u64);
        let mut ps: Vec<(u64, u8)> = Vec::new();
        let mut i: usize = 0;
        while i < positions.len()
            invariant
                i <= positions@.len() == self.k,
                self.nbits > 0,
                forall|j: int|
                    0 <= j < self.k ==> #[trigger] positions@[j] == position(
                        key,
                        j as nat,
                        self.nbits as u64,
                    ),
                ps@.len() == i,
                forall|j: int|
                    0 <= j < i ==> (#[trigger] ps@[j]).0 == 8 + position(
                        key,
                        j as nat,
                        self.nbits as u64,
                    ) / 8 && ps@[j].1 == position(key, j as nat, self.nbits as u64) % 8,
            decreases positions@.len() - i,
        {
            let p: u64 = positions[i];
            ps.push((8 + p / 8, (p % 8) as u8));
            i += 1;
        }
        ps
    }

    /// Whether every probed bit is set: `bytes[i]` is the byte read for `probes[i]`. Over the
    /// probes of all keys of a query this is the strict-AND prune: any clear bit makes the
    /// whole conjunction `false`.
    pub fn contains_all(probes: &[(u64, u8)], bytes: &[u8]) -> (maybe: bool)
        requires
            probes@.len() == bytes@.len(),
            forall|i: int| 0 <= i < probes@.len() ==> (#[trigger] probes@[i]).1 < 8,
        ensures
            maybe <==> forall|i: int|
                0 <= i < probes@.len() ==> bit(#[trigger] bytes@[i], probes@[i].1),
    {
        let mut i: usize = 0;
        while i < probes.len()
            invariant
                i <= probes@.len() == bytes@.len(),
                forall|j: int| 0 <= j < probes@.len() ==> (#[trigger] probes@[j]).1 < 8,
                forall|j: int| 0 <= j < i ==> bit(#[trigger] bytes@[j], probes@[j].1),
            decreases probes@.len() - i,
        {
            assert(probes@[i as int].1 < 8);
            let j: u8 = probes[i].1;
            if bytes[i] & (1u8 << j) == 0 {
                return false;
            }
            i += 1;
        }
        true
    }
}

/// Probing a filter's bytes where they lie in the file answers as the resident filter does:
/// the bit of every probe of `key` is set exactly where the filter may contain `key`.
pub proof fn law_remote_probe(bloom: Seq<u8>, key: u64)
    requires
        bloom.len() >= 8,
        header_ok(bytes::u32_at(bloom, 0), bytes::u32_at(bloom, 4)),
        bloom.len() == 8 + (bytes::u32_at(bloom, 4) + 7) / 8,
    ensures
        may_contain(bloom, key) <==> forall|i: nat|
            i < bytes::u32_at(bloom, 0) ==> ({
                let p = #[trigger] position(key, i, bytes::u32_at(bloom, 4) as u64);
                bit(bloom[8 + p / 8], (p % 8) as u8)
            }),
{
    let k = bytes::u32_at(bloom, 0) as nat;
    let nbits = bytes::u32_at(bloom, 4) as u64;
    lemma_probe_exact(bloom.skip(8), key, 0, k, nbits);
    assert forall|i: nat| i < k implies bit_at(
        bloom.skip(8),
        #[trigger] position(key, i, nbits),
    ) == ({
        let p = position(key, i, nbits);
        bit(bloom[8 + p / 8], (p % 8) as u8)
    }) by {
        let p = position(key, i, nbits);
        assert(bloom.skip(8)[(p / 8) as int] == bloom[8 + p / 8]);
    }
}

proof fn lemma_probe_exact(bits: Seq<u8>, key: u64, i: nat, k: nat, nbits: u64)
    requires
        nbits > 0,
        bits.len() == (nbits + 7) / 8,
    ensures
        probe(bits, key, i, k, nbits) <==> forall|j: nat|
            i <= j < k ==> bit_at(bits, #[trigger] position(key, j, nbits)),
    decreases k - i,
{
    if i < k {
        lemma_probe_exact(bits, key, i + 1, k, nbits);
        let pos = position(key, i, nbits);
        assert(pos < nbits);
    }
}

/// A filter has a bit for every one that is asked for, up to the cap, in whole bytes and no fewer
/// than 64; and no more than one byte beyond that.
pub proof fn law_bit_count(n: nat, bits_per_key: u32)
    ensures
        ({
            let bits = bit_count(n, bits_per_key);
            let want = n * bits_per_key;
            &&& 64 <= bits <= MAX_BITS
            &&& bits % 8 == 0
            &&& bits >= want || bits == MAX_BITS
            &&& n > 0 ==> bits < want + 8 || bits == 64
        }),
{
    let keys: nat = if n == 0 {
        1
    } else {
        n
    };
    assert(keys * bits_per_key >= 0) by (nonlinear_arith);
    if n == 0 {
        assert(0 * bits_per_key == 0) by (nonlinear_arith);
    }
}

/// The number of hash functions is the one nearest to `bits_per_key` times the logarithm of two,
/// in ten decimals, as far as it lies in `1..=16`.
pub proof fn law_hash_count(bits_per_key: u32)
    ensures
        ({
            let k = hash_count(bits_per_key) as int;
            &&& 1 <= k <= 16
            &&& k > 1 ==> 2 * bits_per_key * 6931471806 >= (2 * k - 1) * 10000000000
            &&& k < 16 ==> 2 * bits_per_key * 6931471806 < (2 * k + 1) * 10000000000
        }),
{
}

/// A filter that is whole answers for a key exactly by its bits: it may hold the key where the bit
/// of each of its positions is set.
pub proof fn law_may_contain(bloom: Seq<u8>, key: u64)
    ensures
        ({
            let k = bytes::u32_at(bloom, 0);
            let nbits = bytes::u32_at(bloom, 4);
            let whole = bloom.len() >= 8 && 0 < k <= 64 && nbits > 0 && bloom.len() >= 8 + (nbits
                + 7) / 8;
            may_contain(bloom, key) <==> (whole ==> forall|i: nat|
                i < k ==> bit_at(
                    bloom.skip(8),
                    #[trigger] position(key, i, nbits as u64),
                ))
        }),
{
    let k = bytes::u32_at(bloom, 0);
    let nbits = bytes::u32_at(bloom, 4);
    if bloom.len() >= 8 && 0 < k <= 64 && nbits > 0 && bloom.len() >= 8 + (nbits + 7) / 8 {
        lemma_probe_each(bloom.skip(8), key, 0, k as nat, nbits as u64);
    }
}

proof fn lemma_probe_each(bits: Seq<u8>, key: u64, i: nat, k: nat, nbits: u64)
    ensures
        probe(bits, key, i, k, nbits) <==> forall|j: nat|
            i <= j < k ==> bit_at(bits, #[trigger] position(key, j, nbits)),
    decreases k - i,
{
    if i < k {
        lemma_probe_each(bits, key, i + 1, k, nbits);
        let pos = position(key, i, nbits);
        assert(bit_at(bits, pos) == bit_at(bits, position(key, i, nbits)));
    }
}

/// Multiplying by `d` undoes multiplying by `c` where their product leaves one.
pub proof fn lemma_product_undone(x: u64, c: int, d: int)
    requires
        c * d % 0x1_0000_0000_0000_0000 == 1,
    ensures
        (x * c % 0x1_0000_0000_0000_0000) * d % 0x1_0000_0000_0000_0000 == x,
{
    let m = 0x1_0000_0000_0000_0000int;
    let k = c * d / m;
    let p = x * c;
    vstd::arithmetic::div_mod::lemma_mul_mod_noop_left(p, d, m);
    assert(p * d == x * (c * d)) by (nonlinear_arith)
        requires
            p == x * c,
    ;
    assert(c * d == k * m + 1);
    assert(x * (k * m + 1) == m * (x * k) + x) by (nonlinear_arith);
    vstd::arithmetic::div_mod::lemma_mod_multiples_vanish(x * k, x as int, m);
    vstd::arithmetic::div_mod::lemma_small_mod(x as nat, m as nat);
}

/// What the mixer made of a number, undone step by step.
pub open spec fn unmixed(w: u64) -> u64 {
    let b = w ^ (w >> 31u64) ^ (w >> 62u64);
    let a = (b * 0x3196_42b2_d24d_8ec3 % 0x1_0000_0000_0000_0000) as u64;
    let c = a ^ (a >> 27u64) ^ (a >> 54u64);
    let y = (c * 0x96de_1b17_3f11_9089 % 0x1_0000_0000_0000_0000) as u64;
    y ^ (y >> 30u64) ^ (y >> 60u64)
}

/// The mixer can be undone, so no two keys have the same hash.
pub proof fn law_mix_undone(z: u64)
    ensures
        unmixed(mix(z)) == z,
{
    reveal(mix);
    let y = z ^ (z >> 30u64);
    let a = y.wrapping_mul(0xbf58_476d_1ce4_e5b9);
    let c = a ^ (a >> 27u64);
    let b = c.wrapping_mul(0x94d0_49bb_1331_11eb);
    let w = b ^ (b >> 31u64);
    assert(w ^ (w >> 31u64) ^ (w >> 62u64) == b) by (bit_vector)
        requires
            w == b ^ (b >> 31u64),
    ;
    lemma_product_undone(c, 0x94d0_49bb_1331_11eb, 0x3196_42b2_d24d_8ec3);
    assert(c ^ (c >> 27u64) ^ (c >> 54u64) == a) by (bit_vector)
        requires
            c == a ^ (a >> 27u64),
    ;
    lemma_product_undone(y, 0xbf58_476d_1ce4_e5b9, 0x96de_1b17_3f11_9089);
    assert(y ^ (y >> 30u64) ^ (y >> 60u64) == z) by (bit_vector)
        requires
            y == z ^ (z >> 30u64),
    ;
}

/// The positions of a key start at its hash and advance by one odd step, the hash of the key
/// with its bits turned.
pub proof fn law_positions(key: u64, i: nat, nbits: u64)
    requires
        nbits > 0,
        i <= u64::MAX,
    ensures
        ({
            let step = mix(key ^ 0x9e37_79b9_7f4a_7c15) as int;
            let odd = if step % 2 == 0 {
                step + 1
            } else {
                step
            };
            position(key, i, nbits) == (mix(key) + i * odd) % 0x1_0000_0000_0000_0000 % nbits as int
        }),
{
    let s = mix(key ^ 0x9e37_79b9_7f4a_7c15);
    let h = s | 1;
    assert(h == (if s % 2 == 0 {
        s + 1
    } else {
        s as int
    })) by (bit_vector)
        requires
            h == s | 1,
    ;
    let m = 0x1_0000_0000_0000_0000int;
    let p = i * h;
    vstd::arithmetic::div_mod::lemma_add_mod_noop_right(mix(key) as int, p, m);
}

/// A filter over no key has the size of one over a single key, and none is larger than the
/// largest multiple of eight that 32 bits can count.
pub proof fn law_bit_count_bounds(n: nat, bits_per_key: u32)
    ensures
        bit_count(0, bits_per_key) == bit_count(1, bits_per_key),
        bit_count(n, bits_per_key) <= 0xffff_fff8,
        n * bits_per_key > 0xffff_fff8 ==> bit_count(n, bits_per_key) == 0xffff_fff8,
{
    assert(0 * bits_per_key == 0) by (nonlinear_arith);
}

} // verus!
