//! Little-endian integers in byte strings, and the lexicographic order of byte strings.

use vstd::prelude::*;

verus! {

/// The little-endian `u16` at offset `o` of `s`.
pub open spec fn u16_at(s: Seq<u8>, o: int) -> u16 {
    (s[o] + s[o + 1] * 0x100) as u16
}

/// The little-endian `u32` at offset `o` of `s`.
pub open spec fn u32_at(s: Seq<u8>, o: int) -> u32 {
    (s[o] + s[o + 1] * 0x100 + s[o + 2] * 0x1_0000 + s[o + 3] * 0x100_0000) as u32
}

/// The little-endian `u64` at offset `o` of `s`.
pub open spec fn u64_at(s: Seq<u8>, o: int) -> u64 {
    (u32_at(s, o) + u32_at(s, o + 4) * 0x1_0000_0000) as u64
}

/// The two little-endian bytes of `x`.
pub open spec fn le16(x: u16) -> Seq<u8> {
    seq![(x % 256) as u8, (x / 256) as u8]
}

/// The four little-endian bytes of `x`.
pub open spec fn le32(x: u32) -> Seq<u8> {
    seq![
        (x % 256) as u8,
        (x / 256 % 256) as u8,
        (x / 65536 % 256) as u8,
        (x / 16777216) as u8,
    ]
}

/// The eight little-endian bytes of `x`.
pub open spec fn le64(x: u64) -> Seq<u8> {
    le32((x % 0x1_0000_0000) as u32) + le32((x / 0x1_0000_0000) as u32)
}

/// The low 32 bits of `n`.
pub open spec fn word32(n: nat) -> u32 {
    (n % 0x1_0000_0000) as u32
}

/// Reading a `u16` gives back the one that was written at that offset.
pub proof fn lemma_u16_at(s: Seq<u8>, o: int, x: u16)
    requires
        0 <= o,
        o + 2 <= s.len(),
        s.subrange(o, o + 2) == le16(x),
    ensures
        u16_at(s, o) == x,
{
    let t = s.subrange(o, o + 2);
    assert(s[o] == t[0] && s[o + 1] == t[1]);
}

/// Reading a `u32` gives back the one that was written at that offset.
pub proof fn lemma_u32_at(s: Seq<u8>, o: int, x: u32)
    requires
        0 <= o,
        o + 4 <= s.len(),
        s.subrange(o, o + 4) == le32(x),
    ensures
        u32_at(s, o) == x,
{
    let t = s.subrange(o, o + 4);
    assert(s[o] == t[0] && s[o + 1] == t[1] && s[o + 2] == t[2] && s[o + 3] == t[3]);
}

/// Reading a `u64` gives back the one that was written at that offset.
pub proof fn lemma_u64_at(s: Seq<u8>, o: int, x: u64)
    requires
        0 <= o,
        o + 8 <= s.len(),
        s.subrange(o, o + 8) == le64(x),
    ensures
        u64_at(s, o) == x,
{
    let t = s.subrange(o, o + 8);
    let lo = (x % 0x1_0000_0000) as u32;
    let hi = (x / 0x1_0000_0000) as u32;
    assert(s.subrange(o, o + 4) =~= t.subrange(0, 4));
    assert(s.subrange(o + 4, o + 8) =~= t.subrange(4, 8));
    assert(le64(x).subrange(0, 4) =~= le32(lo));
    assert(le64(x).subrange(4, 8) =~= le32(hi));
    lemma_u32_at(s, o, lo);
    lemma_u32_at(s, o + 4, hi);
}

/// A prefix `q + f` of `h` puts `f` right behind `q`.
pub proof fn lemma_peel(h: Seq<u8>, q: Seq<u8>, f: Seq<u8>)
    requires
        (q + f).is_prefix_of(h),
    ensures
        q.is_prefix_of(h),
        q.len() + f.len() <= h.len(),
        h.subrange(q.len() as int, (q.len() + f.len()) as int) == f,
{
    let t = h.subrange(0, (q + f).len() as int);
    assert(t =~= q + f);
    assert forall|i: int| 0 <= i < f.len() implies h.subrange(
        q.len() as int,
        (q.len() + f.len()) as int,
    )[i] == f[i] by {
        assert(t[q.len() + i] == h[q.len() + i]);
    }
    assert forall|i: int| 0 <= i < q.len() implies h.subrange(0, q.len() as int)[i] == q[i] by {
        assert(t[i] == h[i]);
    }
    assert(h.subrange(q.len() as int, (q.len() + f.len()) as int) =~= f);
    assert(h.subrange(0, q.len() as int) =~= q);
}

/// What stands at `base` of `s` reads the same there as on its own.
pub proof fn lemma_shift(s: Seq<u8>, base: int, t: Seq<u8>)
    requires
        0 <= base,
        base + t.len() <= s.len(),
        s.subrange(base, base + t.len()) == t,
    ensures
        forall|o: int| 0 <= o && o + 2 <= t.len() ==> #[trigger] u16_at(s, base + o) == u16_at(t, o),
        forall|o: int| 0 <= o && o + 4 <= t.len() ==> #[trigger] u32_at(s, base + o) == u32_at(t, o),
        forall|o: int| 0 <= o && o + 8 <= t.len() ==> #[trigger] u64_at(s, base + o) == u64_at(t, o),
{
    assert forall|o: int| 0 <= o < t.len() implies s[base + o] == t[o] by {
        assert(s.subrange(base, base + t.len())[o] == s[base + o]);
    }
    assert forall|o: int| 0 <= o && o + 4 <= t.len() implies #[trigger] u32_at(s, base + o)
        == u32_at(t, o) by {
        assert(s[base + (o + 1)] == t[o + 1]);
        assert(s[base + (o + 2)] == t[o + 2]);
        assert(s[base + (o + 3)] == t[o + 3]);
    }
    assert forall|o: int| 0 <= o && o + 2 <= t.len() implies #[trigger] u16_at(s, base + o)
        == u16_at(t, o) by {
        assert(s[base + (o + 1)] == t[o + 1]);
    }
    assert forall|o: int| 0 <= o && o + 8 <= t.len() implies #[trigger] u64_at(s, base + o)
        == u64_at(t, o) by {
        assert(u32_at(s, base + o) == u32_at(t, o));
        assert(u32_at(s, base + (o + 4)) == u32_at(t, o + 4));
    }
}

/// A prefix `h` of `m` reads the same in `m` as on its own.
pub proof fn lemma_prefix_reads(m: Seq<u8>, h: Seq<u8>)
    requires
        h.len() <= m.len(),
        m.take(h.len() as int) == h,
    ensures
        forall|o: int| 0 <= o && o + 2 <= h.len() ==> #[trigger] u16_at(m, o) == u16_at(h, o),
        forall|o: int| 0 <= o && o + 4 <= h.len() ==> #[trigger] u32_at(m, o) == u32_at(h, o),
        forall|o: int| 0 <= o && o + 8 <= h.len() ==> #[trigger] u64_at(m, o) == u64_at(h, o),
        forall|o: int| 0 <= o < h.len() ==> #[trigger] m[o] == h[o],
{
    assert(m.subrange(0, h.len() as int) =~= h);
    lemma_shift(m, 0, h);
    assert forall|o: int| 0 <= o < h.len() implies #[trigger] m[o] == h[o] by {
        assert(m.take(h.len() as int)[o] == m[o]);
    }
}

/// Reads the little-endian `u16` at `off`.
pub fn read_u16(buf: &[u8], off: usize) -> (x: u16)
    requires
        off + 2 <= buf@.len(),
    ensures
        x == u16_at(buf@, off as int),
{
    buf[off] as u16 + buf[off + 1] as u16 * 0x100
}

/// Reads the little-endian `u32` at `off`.
pub fn read_u32(buf: &[u8], off: usize) -> (x: u32)
    requires
        off + 4 <= buf@.len(),
    ensures
        x == u32_at(buf@, off as int),
{
    buf[off] as u32 + buf[off + 1] as u32 * 0x100 + buf[off + 2] as u32 * 0x1_0000
        + buf[off + 3] as u32 * 0x100_0000
}

/// Reads the little-endian `u64` at `off`.
pub fn read_u64(buf: &[u8], off: usize) -> (x: u64)
    requires
        off + 8 <= buf@.len(),
    ensures
        x == u64_at(buf@, off as int),
{
    assert(buf@.len() == buf.len());
    read_u32(buf, off) as u64 + read_u32(buf, off + 4) as u64 * 0x1_0000_0000
}

/// Appends `tail` to `out`.
pub fn put_bytes(out: &mut Vec<u8>, tail: &[u8])
    ensures
        final(out)@ == old(out)@ + tail@,
{
    out.extend_from_slice(tail);
    assert(out@ =~= old(out)@ + tail@);
}

/// Appends the little-endian bytes of `x`.
pub fn put_u16(out: &mut Vec<u8>, x: u16)
    ensures
        final(out)@ == old(out)@ + le16(x),
{
    out.push((x % 256) as u8);
    out.push((x / 256) as u8);
    assert(out@ =~= old(out)@ + le16(x));
}

/// Appends the little-endian bytes of `x`.
pub fn put_u32(out: &mut Vec<u8>, x: u32)
    ensures
        final(out)@ == old(out)@ + le32(x),
{
    out.push((x % 256) as u8);
    out.push((x / 256 % 256) as u8);
    out.push((x / 65536 % 256) as u8);
    out.push((x / 16777216) as u8);
    assert(out@ =~= old(out)@ + le32(x));
}

/// Appends the little-endian bytes of `x`.
pub fn put_u64(out: &mut Vec<u8>, x: u64)
    ensures
        final(out)@ == old(out)@ + le64(x),
{
    put_u32(out, (x % 0x1_0000_0000) as u32);
    put_u32(out, (x / 0x1_0000_0000) as u32);
    assert(out@ =~= old(out)@ + le64(x));
}

/// Appends `n` zero bytes.
pub fn put_zeros(out: &mut Vec<u8>, n: usize)
    ensures
        final(out)@ == old(out)@ + Seq::new(n as nat, |i: int| 0u8),
{
    let mut i: usize = 0;
    while i < n
        invariant
            i <= n,
            out@ =~= old(out)@ + Seq::new(i as nat, |j: int| 0u8),
        decreases n - i,
    {
        out.push(0);
        i += 1;
    }
}

/// Copies the bytes `[from, to)` of `buf` into a vector of their own.
pub fn copy_range(buf: &[u8], from: usize, to: usize) -> (out: Vec<u8>)
    requires
        from <= to <= buf@.len(),
    ensures
        out@ == buf@.subrange(from as int, to as int),
{
    let mut out: Vec<u8> = Vec::new();
    put_bytes(&mut out, vstd::slice::slice_subrange(buf, from, to));
    assert(out@ =~= buf@.subrange(from as int, to as int));
    out
}

/// The length of the longest common prefix of `a` and `b` that extends the first `i` bytes.
pub open spec fn common_from(a: Seq<u8>, b: Seq<u8>, i: nat) -> nat
    decreases a.len() - i,
{
    if i < a.len() && i < b.len() && a[i as int] == b[i as int] {
        common_from(a, b, i + 1)
    } else {
        i
    }
}

/// The length of the longest common prefix of `a` and `b`.
pub open spec fn common_len(a: Seq<u8>, b: Seq<u8>) -> nat {
    common_from(a, b, 0)
}

/// Whether `a` sorts before `b`: at the first place where they differ `a` has the smaller
/// byte, or `a` is a proper prefix of `b`.
pub open spec fn lex_lt(a: Seq<u8>, b: Seq<u8>) -> bool {
    let n = common_len(a, b) as int;
    n < b.len() && (n == a.len() || a[n] < b[n])
}

/// Whether `p` is a prefix of `s`.
pub open spec fn has_prefix(s: Seq<u8>, p: Seq<u8>) -> bool {
    p.len() <= s.len() && s.subrange(0, p.len() as int) == p
}

proof fn lemma_common_from(a: Seq<u8>, b: Seq<u8>, i: nat)
    requires
        i <= a.len(),
        i <= b.len(),
    ensures
        i <= common_from(a, b, i) <= a.len(),
        common_from(a, b, i) <= b.len(),
        forall|j: int| i <= j < common_from(a, b, i) ==> a[j] == b[j],
        common_from(a, b, i) < a.len() && common_from(a, b, i) < b.len()
            ==> a[common_from(a, b, i) as int] != b[common_from(a, b, i) as int],
    decreases a.len() - i,
{
    if i < a.len() && i < b.len() && a[i as int] == b[i as int] {
        lemma_common_from(a, b, i + 1);
    }
}

/// What `common_len` is: the bytes below it agree, the ones at it do not.
pub proof fn lemma_common_len(a: Seq<u8>, b: Seq<u8>)
    ensures
        common_len(a, b) <= a.len(),
        common_len(a, b) <= b.len(),
        forall|j: int| 0 <= j < common_len(a, b) ==> a[j] == b[j],
        common_len(a, b) < a.len() && common_len(a, b) < b.len()
            ==> a[common_len(a, b) as int] != b[common_len(a, b) as int],
{
    lemma_common_from(a, b, 0);
}

/// A length below which `a` and `b` agree, and at which they do not, is their `common_len`.
pub proof fn lemma_common_len_unique(a: Seq<u8>, b: Seq<u8>, n: nat)
    requires
        n <= a.len(),
        n <= b.len(),
        forall|j: int| 0 <= j < n ==> a[j] == b[j],
        n < a.len() && n < b.len() ==> a[n as int] != b[n as int],
    ensures
        common_len(a, b) == n,
{
    lemma_common_len(a, b);
    let m = common_len(a, b);
    if m < n {
        assert(a[m as int] == b[m as int]);
    }
    if n < m {
        assert(a[n as int] == b[n as int]);
    }
}

/// Of two byte strings exactly one of "before", "equal" and "after" holds.
pub proof fn lemma_lex_total(a: Seq<u8>, b: Seq<u8>)
    ensures
        lex_lt(a, b) || a == b || lex_lt(b, a),
        !(lex_lt(a, b) && lex_lt(b, a)),
        !lex_lt(a, a),
{
    lemma_common_len(a, b);
    lemma_common_len_unique(b, a, common_len(a, b));
    lemma_common_len_unique(a, a, a.len());
    if common_len(a, b) == a.len() && common_len(a, b) == b.len() {
        assert(a =~= b);
    }
}

/// The order of byte strings is transitive.
pub proof fn lemma_lex_trans(a: Seq<u8>, b: Seq<u8>, c: Seq<u8>)
    requires
        lex_lt(a, b),
        lex_lt(b, c),
    ensures
        lex_lt(a, c),
{
    lemma_common_len(a, b);
    lemma_common_len(b, c);
    let m = common_len(a, b);
    let n = common_len(b, c);
    if m < n {
        assert(b[m as int] == c[m as int]);
        lemma_common_len_unique(a, c, m);
    } else if n < m {
        assert(a[n as int] == b[n as int]);
        lemma_common_len_unique(a, c, n);
    } else {
        lemma_common_len_unique(a, c, m);
    }
}

/// How one byte string sorts against another.
#[derive(Debug, Clone, Copy, PartialEq, Eq, Structural)]
pub enum ByteOrder {
    /// The first sorts before the second.
    Before,
    /// The two are equal.
    Same,
    /// The first sorts after the second.
    After,
}

/// Length of the byte-wise common prefix of `a` and `b`.
pub fn common_prefix(a: &[u8], b: &[u8]) -> (n: usize)
    ensures
        n == common_len(a@, b@),
{
    let mut i: usize = 0;
    while i < a.len() && i < b.len() && a[i] == b[i]
        invariant
            i <= a@.len(),
            i <= b@.len(),
            forall|j: int| 0 <= j < i ==> a@[j] == b@[j],
        decreases a@.len() - i,
    {
        i += 1;
    }
    proof {
        lemma_common_len_unique(a@, b@, i as nat);
    }
    i
}

/// Compares two byte strings.
pub fn order_bytes(a: &[u8], b: &[u8]) -> (o: ByteOrder)
    ensures
        o is Before <==> lex_lt(a@, b@),
        o is Same <==> a@ == b@,
        o is After <==> lex_lt(b@, a@),
{
    let n: usize = common_prefix(a, b);
    proof {
        lemma_lex_total(a@, b@);
        lemma_common_len(a@, b@);
        lemma_common_len_unique(b@, a@, n as nat);
    }
    if n == b.len() {
        if n == a.len() {
            assert(a@ =~= b@);
            ByteOrder::Same
        } else {
            ByteOrder::After
        }
    } else if n == a.len() || a[n] < b[n] {
        ByteOrder::Before
    } else {
        ByteOrder::After
    }
}

/// Whether `s` starts with `p`.
pub fn starts_with(s: &[u8], p: &[u8]) -> (yes: bool)
    ensures
        yes == has_prefix(s@, p@),
{
    if p.len() > s.len() {
        return false;
    }
    let n: usize = common_prefix(s, p);
    proof {
        lemma_common_len(s@, p@);
        if n == p@.len() {
            assert(s@.subrange(0, p@.len() as int) =~= p@);
        } else {
            assert(s@.subrange(0, p@.len() as int)[n as int] == s@[n as int]);
        }
    }
    n == p.len()
}

/// One byte string sorts before another exactly where, behind bytes that agree, it ends first or
/// has the smaller byte.
pub proof fn law_byte_order(a: Seq<u8>, b: Seq<u8>)
    ensures
        lex_lt(a, b) <==> exists|n: int|
            {
                &&& 0 <= n < b.len()
                &&& n <= a.len()
                &&& #[trigger] a.take(n) == b.take(n)
                &&& n == a.len() || a[n] < b[n]
            },
{
    lemma_common_len(a, b);
    let m = common_len(a, b) as int;
    assert(a.take(m) =~= b.take(m));
    if exists|n: int|
        {
            &&& 0 <= n < b.len()
            &&& n <= a.len()
            &&& #[trigger] a.take(n) == b.take(n)
            &&& n == a.len() || a[n] < b[n]
        } {
        let n = choose|n: int|
            {
                &&& 0 <= n < b.len()
                &&& n <= a.len()
                &&& #[trigger] a.take(n) == b.take(n)
                &&& n == a.len() || a[n] < b[n]
            };
        assert forall|j: int| 0 <= j < n implies a[j] == b[j] by {
            assert(a.take(n)[j] == b.take(n)[j]);
        }
        lemma_common_len_unique(a, b, n as nat);
    }
}

/// Two byte strings agree up to their common length, and differ behind it or one of them ends
/// there.
pub proof fn law_common_len(a: Seq<u8>, b: Seq<u8>, n: int)
    requires
        0 <= n <= a.len(),
        n <= b.len(),
        a.take(n) == b.take(n),
        n < a.len() && n < b.len() ==> a[n] != b[n],
    ensures
        common_len(a, b) == n,
{
    lemma_common_at(a, b, 0, n);
}

proof fn lemma_common_at(a: Seq<u8>, b: Seq<u8>, i: nat, n: int)
    requires
        i <= n <= a.len(),
        n <= b.len(),
        a.take(n) == b.take(n),
        n < a.len() && n < b.len() ==> a[n] != b[n],
    ensures
        common_from(a, b, i) == n,
    decreases n - i,
{
    if i < n {
        assert(a[i as int] == a.take(n)[i as int]);
        assert(b[i as int] == b.take(n)[i as int]);
        assert(common_from(a, b, i) == common_from(a, b, i + 1));
        lemma_common_at(a, b, i + 1, n);
    }
}

/// The bytes of a number hold its value in base 256, the lowest first.
pub proof fn law_little_endian(x: u16, y: u32, z: u64)
    ensures
        x == le16(x)[0] + 256 * le16(x)[1],
        y == le32(y)[0] + 256 * (le32(y)[1] + 256 * (le32(y)[2] + 256 * le32(y)[3])),
        z == u32_at(le64(z), 0) + 0x1_0000_0000 * u32_at(le64(z), 4),
        le16(x).len() == 2,
        le32(y).len() == 4,
        le64(z).len() == 8,
{
    let (lo, hi) = ((z % 0x1_0000_0000) as u32, (z / 0x1_0000_0000) as u32);
    assert(le64(z).subrange(0, 4) =~= le32(lo));
    assert(le64(z).subrange(4, 8) =~= le32(hi));
    lemma_u32_at(le64(z), 0, lo);
    lemma_u32_at(le64(z), 4, hi);
}

} // verus!
