//! The range-fetchable similarity-search index: boot, and the decisions of a query around its
//! distance computations.
//!
//! The index is an inverted file of coarse clusters, each vector stored as a product-quantized
//! code. A boot region (an optional rotation, the coarse centroids, the codebooks, and a cluster
//! directory) is read once; each query fetches only the code lists of the clusters nearest to
//! it. Floats are held as their bits; distances are computed by the caller, which hands their
//! bits in.

use crate::bytes::{copy_range, read_u16, read_u32, read_u64, u16_at, u32_at, u64_at};
use crate::error::IndexError;
use crate::lists;
use crate::topk::{candidate, offered, pack_candidate, smallest, sorted, unpack_candidate, TopK};
use vstd::prelude::*;

verus! {

/// Format version.
pub const VERSION: u16 = 1;

/// Fixed header size in bytes.
pub const HEADER_SIZE: usize = 48;

/// Cluster-directory entry size: offset and count.
pub const DIR_ENTRY: usize = 12;

/// Metric tag: inner product on L2-normalized vectors (cosine).
pub const METRIC_IP: u8 = 0;

/// Metric tag: raw L2 distance.
pub const METRIC_L2: u8 = 1;

/// Header flag: a rotation matrix precedes the centroids in the boot region.
pub const FLAG_OPQ: u8 = 1;

/// Re-rank sidecar header size.
pub const RRVR_HEADER_SIZE: usize = 20;

/// Re-rank precision tag: the high 16 bits of each float.
pub const RERANK_BF16: u8 = 0;

/// The similarity metric.
#[derive(Debug, Clone, Copy, PartialEq, Eq, Structural)]
pub enum Metric {
    /// Inner product on L2-normalized vectors.
    InnerProduct,
    /// Raw L2 distance.
    L2,
}

impl Metric {
    /// The on-disk metric tag.
    pub open spec fn code(self) -> u8 {
        match self {
            Metric::InnerProduct => METRIC_IP,
            Metric::L2 => METRIC_L2,
        }
    }
}

impl From<Metric> for u8 {
    fn from(m: Metric) -> (b: u8) {
        match m {
            Metric::InnerProduct => METRIC_IP,
            Metric::L2 => METRIC_L2,
        }
    }
}

impl vstd::std_specs::convert::FromSpecImpl<Metric> for u8 {
    open spec fn obeys_from_spec() -> bool {
        true
    }

    open spec fn from_spec(m: Metric) -> u8 {
        m.code()
    }
}

/// The magic bytes.
pub open spec fn magic() -> Seq<u8> {
    seq![0x52u8, 0x52u8, 0x56u8, 0x49u8]
}

/// The magic bytes of a re-rank sidecar.
pub open spec fn rerank_magic() -> Seq<u8> {
    seq![0x52u8, 0x52u8, 0x56u8, 0x52u8]
}

/// The header's fields.
#[derive(Debug, Clone, Copy, PartialEq, Eq, Structural)]
pub struct VectorHeader {
    /// Metric tag.
    pub metric: u8,
    /// Flags.
    pub flags: u8,
    /// Vector dimensionality.
    pub dim: u32,
    /// Number of coarse clusters.
    pub nlist: u32,
    /// Number of subquantizers.
    pub m: u32,
    /// Bits per code.
    pub nbits: u8,
    /// Total vector count.
    pub n: u64,
}

/// Codebook entries per subspace: two to the power of `nbits`.
pub open spec fn entries_per_subspace(nbits: u8) -> nat {
    if nbits == 1 {
        2
    } else if nbits == 2 {
        4
    } else if nbits == 3 {
        8
    } else if nbits == 4 {
        16
    } else if nbits == 5 {
        32
    } else if nbits == 6 {
        64
    } else if nbits == 7 {
        128
    } else {
        256
    }
}

/// Two to the power of `nbits`.
pub fn ksub_of(nbits: u8) -> (k: usize)
    requires
        1 <= nbits <= 8,
    ensures
        k == entries_per_subspace(nbits),
{
    match nbits {
        1 => 2,
        2 => 4,
        3 => 8,
        4 => 16,
        5 => 32,
        6 => 64,
        7 => 128,
        _ => 256,
    }
}

/// The header that `h` starts with.
pub open spec fn header_of(h: Seq<u8>) -> Result<VectorHeader, IndexError> {
    let f = VectorHeader {
        metric: h[6],
        flags: h[7],
        dim: u32_at(h, 8),
        nlist: u32_at(h, 12),
        m: u32_at(h, 16),
        nbits: h[20],
        n: u64_at(h, 24),
    };
    if h.take(4) != magic() {
        Err(IndexError::BadMagic([h[0], h[1], h[2], h[3]]))
    } else if u16_at(h, 4) != VERSION {
        Err(IndexError::BadVersion(u16_at(h, 4)))
    } else if f.dim == 0 || f.m == 0 || f.dim % f.m != 0 {
        Err(IndexError::Malformed("RRVI dim/m invalid"))
    } else if f.nbits == 0 || f.nbits > 8 {
        Err(IndexError::Malformed("RRVI nbits out of range (1..=8)"))
    } else if f.nlist == 0 {
        Err(IndexError::Malformed("RRVI nlist is zero"))
    } else {
        Ok(f)
    }
}

/// Whether the header is of a sound index.
pub open spec fn header_ok(f: VectorHeader) -> bool {
    f.dim > 0 && f.m > 0 && f.dim % f.m == 0 && 1 <= f.nbits <= 8 && f.nlist > 0
}

/// Whether the file has a rotation matrix.
pub open spec fn rotated(flags: u8) -> bool {
    flags % 2 == 1
}

/// How many floats the rotation matrix has.
pub open spec fn opq_floats(f: VectorHeader) -> nat {
    if rotated(f.flags) {
        f.dim as nat * f.dim as nat
    } else {
        0
    }
}

/// How many floats the centroids have.
pub open spec fn centroid_floats(f: VectorHeader) -> nat {
    f.nlist as nat * f.dim as nat
}

/// How many floats the codebooks have: `m` subspaces of `2^nbits` entries of `dim / m` floats.
pub open spec fn codebook_floats(f: VectorHeader) -> nat {
    f.dim as nat * entries_per_subspace(f.nbits)
}

/// Length of the boot region behind the header.
pub open spec fn boot_bytes(f: VectorHeader) -> nat {
    (opq_floats(f) + centroid_floats(f) + codebook_floats(f)) * 4 + f.nlist as nat * 12
}

/// The bits of `count` little-endian floats from `off` on.
pub open spec fn floats_at(b: Seq<u8>, off: int, count: nat) -> Seq<u32> {
    Seq::new(count, |i: int| u32_at(b, off + 4 * i))
}

/// What an open index knows.
pub struct VectorsView {
    /// The header.
    pub header: VectorHeader,
    /// The rotation matrix, row-major, where there is one.
    pub opq: Option<Seq<u32>>,
    /// Coarse centroids, row-major.
    pub centroids: Seq<u32>,
    /// Codebooks, row-major.
    pub codebooks: Seq<u32>,
    /// Per-cluster file offset of its code list.
    pub dir_offsets: Seq<u64>,
    /// Per-cluster vector count.
    pub dir_counts: Seq<u32>,
}

impl VectorsView {
    /// The index that a header and a boot region describe.
    pub open spec fn of(f: VectorHeader, b: Seq<u8>) -> VectorsView {
        let o = opq_floats(f);
        let c = centroid_floats(f);
        let k = codebook_floats(f);
        let dir = (o + c + k) * 4;
        VectorsView {
            header: f,
            opq: if rotated(f.flags) {
                Some(floats_at(b, 0, o))
            } else {
                None
            },
            centroids: floats_at(b, (o * 4) as int, c),
            codebooks: floats_at(b, ((o + c) * 4) as int, k),
            dir_offsets: Seq::new(f.nlist as nat, |i: int| u64_at(b, dir + i * 12)),
            dir_counts: Seq::new(f.nlist as nat, |i: int| u32_at(b, dir + i * 12 + 8)),
        }
    }

    /// The tables have the sizes that the header says.
    pub open spec fn wf(self) -> bool {
        &&& header_ok(self.header)
        &&& self.dir_offsets.len() == self.header.nlist
        &&& self.dir_counts.len() == self.header.nlist
        &&& self.centroids.len() == centroid_floats(self.header)
        &&& self.codebooks.len() == codebook_floats(self.header)
        &&& self.opq matches Some(r) ==> r.len() == opq_floats(self.header)
    }

    /// Length of cluster `j`'s code list: an ID and a code of `m` bytes for each vector.
    pub open spec fn list_bytes(self, j: int) -> nat {
        self.dir_counts[j] as nat * (4 + self.header.m as nat)
    }
}

/// Reads the header: what a boot fetches first, to learn how long the boot region is.
pub fn parse_header(h: &[u8]) -> (r: Result<VectorHeader, IndexError>)
    requires
        h@.len() >= HEADER_SIZE,
    ensures
        r == header_of(h@),
        r matches Ok(f) ==> header_ok(f),
{
    let m: [u8; 4] = [h[0], h[1], h[2], h[3]];
    assert(h@.take(4) =~= seq![h@[0], h@[1], h@[2], h@[3]]);
    if m[0] != 0x52 || m[1] != 0x52 || m[2] != 0x56 || m[3] != 0x49 {
        proof {
            assert(m@ =~= h@.take(4));
            let t = h@.take(4);
            assert(!(t[0] == 0x52 && t[1] == 0x52 && t[2] == 0x56 && t[3] == 0x49));
            assert(t != magic());
        }
        return Err(IndexError::BadMagic(m));
    }
    assert(h@.take(4) =~= magic());
    let version: u16 = read_u16(h, 4);
    if version != VERSION {
        return Err(IndexError::BadVersion(version));
    }
    let f = VectorHeader {
        metric: h[6],
        flags: h[7],
        dim: read_u32(h, 8),
        nlist: read_u32(h, 12),
        m: read_u32(h, 16),
        nbits: h[20],
        n: read_u64(h, 24),
    };
    if f.dim == 0 || f.m == 0 || f.dim % f.m != 0 {
        return Err(IndexError::Malformed("RRVI dim/m invalid"));
    }
    if f.nbits == 0 || f.nbits > 8 {
        return Err(IndexError::Malformed("RRVI nbits out of range (1..=8)"));
    }
    if f.nlist == 0 {
        return Err(IndexError::Malformed("RRVI nlist is zero"));
    }
    Ok(f)
}

/// The sizes in floats of the rotation, the centroids, and the codebooks.
fn float_counts(f: &VectorHeader) -> (c: (u128, u128, u128))
    requires
        header_ok(*f),
    ensures
        c.0 == opq_floats(*f),
        c.1 == centroid_floats(*f),
        c.2 == codebook_floats(*f),
        c.0 <= 0xffff_ffff_ffff_ffff,
        c.1 <= 0xffff_ffff_ffff_ffff,
        c.2 <= 0x1_0000_0000_00,
{
    let dim: u128 = f.dim as u128;
    let nlist: u128 = f.nlist as u128;
    let ksub: u128 = ksub_of(f.nbits) as u128;
    proof {
        assert(dim * dim <= 0xffff_ffff * 0xffff_ffff) by (nonlinear_arith)
            requires
                dim <= 0xffff_ffff,
        ;
        assert(nlist * dim <= 0xffff_ffff * 0xffff_ffff) by (nonlinear_arith)
            requires
                dim <= 0xffff_ffff,
                nlist <= 0xffff_ffff,
        ;
        assert(dim * ksub <= 0xffff_ffff * 256) by (nonlinear_arith)
            requires
                dim <= 0xffff_ffff,
                ksub <= 256,
        ;
    }
    let opq: u128 = if f.flags % 2 == 1 {
        dim * dim
    } else {
        0
    };
    (opq, nlist * dim, dim * ksub)
}

/// Length of the boot region behind the header; `None` where it does not fit in memory.
pub fn boot_len(f: &VectorHeader) -> (n: Option<usize>)
    requires
        header_ok(*f),
    ensures
        match n {
            Some(n) => n == boot_bytes(*f),
            None => boot_bytes(*f) > usize::MAX,
        },
{
    let c = float_counts(f);
    let total: u128 = (c.0 + c.1 + c.2) * 4 + f.nlist as u128 * 12;
    if total <= usize::MAX as u128 {
        Some(total as usize)
    } else {
        None
    }
}

/// Reads the bits of `count` little-endian floats starting at `off`.
pub fn read_f32_vec(buf: &[u8], off: usize, count: usize) -> (v: Vec<u32>)
    requires
        off + count * 4 <= buf@.len(),
    ensures
        v@ == floats_at(buf@, off as int, count as nat),
{
    let mut v: Vec<u32> = Vec::new();
    let n: usize = buf.len();
    let mut i: usize = 0;
    while i < count
        invariant
            i <= count,
            n == buf@.len(),
            off + count * 4 <= n,
            v@.len() == i,
            forall|j: int| 0 <= j < i ==> v@[j] == u32_at(buf@, off + 4 * j),
        decreases count - i,
    {
        v.push(read_u32(buf, off + i * 4));
        i += 1;
    }
    assert(v@ =~= floats_at(buf@, off as int, count as nat));
    v
}

/// A range-fetchable similarity index after its boot. The per-cluster code lists are read on
/// demand.
pub struct VectorIndex {
    header: VectorHeader,
    opq: Option<Vec<u32>>,
    centroids: Vec<u32>,
    codebooks: Vec<u32>,
    dir_offsets: Vec<u64>,
    dir_counts: Vec<u32>,
}

impl View for VectorIndex {
    type V = VectorsView;

    closed spec fn view(&self) -> VectorsView {
        VectorsView {
            header: self.header,
            opq: match self.opq {
                Some(r) => Some(r@),
                None => None,
            },
            centroids: self.centroids@,
            codebooks: self.codebooks@,
            dir_offsets: self.dir_offsets@,
            dir_counts: self.dir_counts@,
        }
    }
}

/// The packed candidates of the distances `dists` to the things with the given IDs.
pub open spec fn candidates(dists: Seq<u32>, ids: Seq<u32>) -> Seq<u64> {
    Seq::new(dists.len(), |i: int| candidate(dists[i], ids[i]))
}

/// The numbers from zero up to `n`.
pub open spec fn indices(n: nat) -> Seq<u32> {
    Seq::new(n, |i: int| i as u32)
}

/// The values kept after offering `xs` to a selection that holds `s`.
pub open spec fn offered_all(s: Seq<u64>, xs: Seq<u64>, k: nat) -> Seq<u64>
    decreases xs.len(),
{
    if xs.len() == 0 {
        s
    } else {
        offered(offered_all(s, xs.drop_last(), k), xs.last(), k)
    }
}

/// Scanning cluster after cluster keeps the same candidates as scanning all of them at once.
pub proof fn law_scan_in_parts(a: Seq<u64>, b: Seq<u64>, k: nat)
    ensures
        offered_all(smallest(a, k), b, k) == smallest(a + b, k),
    decreases b.len(),
{
    if b.len() == 0 {
        assert(a + b =~= a);
    } else {
        law_scan_in_parts(a, b.drop_last(), k);
        assert((a + b).drop_last() =~= a + b.drop_last());
        assert((a + b).last() == b.last());
    }
}

/// Offers each of `ids` at its distance.
pub fn scan(top: &mut TopK, ids: &[u32], dists: &[u32])
    requires
        sorted(old(top).kept@),
        old(top).kept@.len() <= old(top).k,
        ids@.len() == dists@.len(),
    ensures
        final(top).k == old(top).k,
        sorted(final(top).kept@),
        final(top).kept@.len() <= final(top).k,
        final(top).kept@ == offered_all(
            old(top).kept@,
            candidates(dists@, ids@),
            old(top).k as nat,
        ),
{
    let ghost all = candidates(dists@, ids@);
    let mut i: usize = 0;
    assert(all.take(0) =~= Seq::<u64>::empty());
    while i < ids.len()
        invariant
            i <= ids@.len(),
            ids@.len() == dists@.len(),
            all == candidates(dists@, ids@),
            top.k == old(top).k,
            sorted(top.kept@),
            top.kept@.len() <= top.k,
            top.kept@ == offered_all(old(top).kept@, all.take(i as int), old(top).k as nat),
        decreases ids@.len() - i,
    {
        assert(all.take(i + 1).drop_last() =~= all.take(i as int));
        assert(all.take(i + 1).last() == candidate(dists@[i as int], ids@[i as int]));
        top.offer(pack_candidate(dists[i], ids[i]));
        i += 1;
    }
    assert(all.take(i as int) =~= all);
}

/// The IDs and the distance bits of the packed candidates `cs`, in order.
pub open spec fn unpacked(hits: Seq<(u32, u32)>, cs: Seq<u64>) -> bool {
    &&& hits.len() == cs.len()
    &&& forall|i: int|
        0 <= i < hits.len() ==> candidate((#[trigger] hits[i]).1, hits[i].0) == cs[i]
}

/// The selected candidates as `(id, distance bits)`, nearest first.
pub fn found(top: &TopK) -> (hits: Vec<(u32, u32)>)
    ensures
        unpacked(hits@, top.kept@),
{
    let mut hits: Vec<(u32, u32)> = Vec::new();
    let mut i: usize = 0;
    while i < top.kept.len()
        invariant
            i <= top.kept@.len(),
            hits@.len() == i,
            forall|j: int|
                0 <= j < i ==> candidate((#[trigger] hits@[j]).1, hits@[j].0) == top.kept@[j],
        decreases top.kept@.len() - i,
    {
        let p = unpack_candidate(top.kept[i]);
        hits.push((p.1, p.0));
        i += 1;
    }
    hits
}

impl VectorIndex {
    /// The tables have the sizes that the header says.
    #[verifier::type_invariant]
    closed spec fn sized(self) -> bool {
        self@.wf()
    }

    /// Boots the index from its header and its boot region, which is as long as
    /// [`boot_len`] says.
    pub fn open(h: &[u8], boot: &[u8]) -> (r: Result<VectorIndex, IndexError>)
        requires
            h@.len() >= HEADER_SIZE,
            header_of(h@) matches Ok(f) ==> boot@.len() == boot_bytes(f),
        ensures
            match header_of(h@) {
                Err(e) => r == Err::<VectorIndex, _>(e),
                Ok(f) => r matches Ok(v) && v@ == VectorsView::of(f, boot@),
            },
    {
        let f = match parse_header(h) {
            Ok(f) => f,
            Err(e) => return Err(e),
        };
        let total: usize = boot.len();
        let c = float_counts(&f);
        assert((c.0 + c.1 + c.2) * 4 + f.nlist * 12 == total);
        let o: usize = c.0 as usize;
        let cn: usize = c.1 as usize;
        let kn: usize = c.2 as usize;
        let nlist: usize = f.nlist as usize;
        let opq = if f.flags % 2 == 1 {
            Some(read_f32_vec(boot, 0, o))
        } else {
            None
        };
        let centroids = read_f32_vec(boot, o * 4, cn);
        let codebooks = read_f32_vec(boot, (o + cn) * 4, kn);
        let dir: usize = (o + cn + kn) * 4;
        let mut dir_offsets: Vec<u64> = Vec::new();
        let mut dir_counts: Vec<u32> = Vec::new();
        let mut i: usize = 0;
        while i < nlist
            invariant
                i <= nlist,
                nlist == f.nlist,
                total == boot@.len(),
                dir + nlist * 12 == total,
                dir_offsets@.len() == i,
                dir_counts@.len() == i,
                forall|j: int| 0 <= j < i ==> dir_offsets@[j] == u64_at(boot@, dir + j * 12),
                forall|j: int| 0 <= j < i ==> dir_counts@[j] == u32_at(boot@, dir + j * 12 + 8),
            decreases nlist - i,
        {
            let base: usize = dir + i * 12;
            dir_offsets.push(read_u64(boot, base));
            dir_counts.push(read_u32(boot, base + 8));
            i += 1;
        }
        let ghost want = VectorsView::of(f, boot@);
        assert(dir_offsets@ =~= want.dir_offsets);
        assert(dir_counts@ =~= want.dir_counts);
        Ok(VectorIndex { header: f, opq, centroids, codebooks, dir_offsets, dir_counts })
    }

    /// Vector dimensionality the index was built with.
    pub fn dim(&self) -> (n: usize)
        ensures
            n == self@.header.dim,
    {
        self.header.dim as usize
    }

    /// Number of coarse clusters.
    pub fn nlist(&self) -> (n: usize)
        ensures
            n == self@.header.nlist,
            self@.wf(),
    {
        proof {
            use_type_invariant(self);
        }
        self.header.nlist as usize
    }

    /// Number of subquantizers.
    pub fn subquantizers(&self) -> (n: usize)
        ensures
            n == self@.header.m,
    {
        self.header.m as usize
    }

    /// Bits per code.
    pub fn nbits(&self) -> (n: u8)
        ensures
            n == self@.header.nbits,
    {
        self.header.nbits
    }

    /// Metric tag.
    pub fn metric(&self) -> (n: u8)
        ensures
            n == self@.header.metric,
    {
        self.header.metric
    }

    /// Total number of indexed vectors.
    pub fn len(&self) -> (n: u64)
        ensures
            n == self@.header.n,
    {
        self.header.n
    }

    /// Whether the index holds no vectors.
    pub fn is_empty(&self) -> (yes: bool)
        ensures
            yes == (self@.header.n == 0),
    {
        self.header.n == 0
    }

    /// The rotation matrix's bits, row-major, where there is one.
    pub fn opq(&self) -> (r: Option<&[u32]>)
        ensures
            match r {
                Some(v) => self@.opq == Some(v@),
                None => self@.opq is None,
            },
    {
        match &self.opq {
            Some(r) => Some(r.as_slice()),
            None => None,
        }
    }

    /// The coarse centroids' bits, row-major.
    pub fn centroids(&self) -> (v: &[u32])
        ensures
            v@ == self@.centroids,
    {
        self.centroids.as_slice()
    }

    /// The codebooks' bits, row-major.
    pub fn codebooks(&self) -> (v: &[u32])
        ensures
            v@ == self@.codebooks,
    {
        self.codebooks.as_slice()
    }

    /// Checks a query and says how many clusters to probe: no more than there are, and `0`
    /// where the result is empty.
    pub fn plan(&self, query_len: usize, k: usize, nprobe: usize) -> (r: Result<usize, IndexError>)
        ensures
            r == (if query_len != self@.header.dim {
                Err(IndexError::BadQuery("query vector dim != index dim"))
            } else if k == 0 || nprobe == 0 {
                Ok(0usize)
            } else if nprobe <= self@.header.nlist {
                Ok(nprobe)
            } else {
                Ok(self@.header.nlist as usize)
            }),
            r is Ok <==> query_len == self@.header.dim,
            r matches Ok(n) ==> n <= nprobe && n <= self@.header.nlist && (k > 0 ==> n == nprobe || n
                == self@.header.nlist),
    {
        if query_len != self.header.dim as usize {
            return Err(IndexError::BadQuery("query vector dim != index dim"));
        }
        if k == 0 || nprobe == 0 {
            return Ok(0);
        }
        if nprobe <= self.header.nlist as usize {
            Ok(nprobe)
        } else {
            Ok(self.header.nlist as usize)
        }
    }

    /// The `nprobe` clusters whose centroids are nearest, nearest first, by the distances of
    /// the query to them.
    pub fn nearest_clusters(&self, dists: &[u32], nprobe: usize) -> (probed: Vec<usize>)
        requires
            dists@.len() == self@.header.nlist,
        ensures
            ({
                let best = smallest(
                    candidates(dists@, indices(dists@.len())),
                    nprobe as nat,
                );
                &&& probed@.len() == best.len()
                &&& forall|i: int|
                    0 <= i < probed@.len() ==> #[trigger] probed@[i] == best[i] % 0x1_0000_0000
                &&& forall|i: int| 0 <= i < probed@.len() ==> #[trigger] probed@[i] < dists@.len()
            }),
    {
        let mut top = TopK::new(nprobe);
        let ghost all = candidates(dists@, indices(dists@.len()));
        let mut j: usize = 0;
        assert(all.take(0) =~= Seq::<u64>::empty());
        while j < dists.len()
            invariant
                j <= dists@.len(),
                dists@.len() <= u32::MAX,
                all == candidates(dists@, indices(dists@.len())),
                top.k == nprobe,
                sorted(top.kept@),
                top.kept@.len() <= top.k,
                top.kept@ == smallest(all.take(j as int), nprobe as nat),
            decreases dists@.len() - j,
        {
            assert(all.take(j + 1).drop_last() =~= all.take(j as int));
            assert(all.take(j + 1).last() == candidate(dists@[j as int], j as u32));
            top.offer(pack_candidate(dists[j], j as u32));
            j += 1;
        }
        assert(all.take(j as int) =~= all);
        let mut probed: Vec<usize> = Vec::new();
        let mut i: usize = 0;
        proof {
            lemma_smallest_from(all, nprobe as nat);
        }
        while i < top.kept.len()
            invariant
                i <= top.kept@.len(),
                dists@.len() <= u32::MAX,
                all == candidates(dists@, indices(dists@.len())),
                forall|a: int| 0 <= a < top.kept@.len() ==> all.contains(#[trigger] top.kept@[a]),
                probed@.len() == i,
                forall|a: int|
                    0 <= a < i ==> #[trigger] probed@[a] == top.kept@[a] % 0x1_0000_0000
                        && probed@[a] < dists@.len(),
            decreases top.kept@.len() - i,
        {
            proof {
                let x = top.kept@[i as int];
                assert(all.contains(x));
                let a = choose|a: int| 0 <= a < all.len() && all[a] == x;
                assert(x == candidate(dists@[a], a as u32));
            }
            probed.push((top.kept[i] % 0x1_0000_0000) as usize);
            i += 1;
        }
        probed
    }
}

/// What is selected was offered.
proof fn lemma_smallest_from(xs: Seq<u64>, k: nat)
    ensures
        forall|i: int| 0 <= i < smallest(xs, k).len() ==> xs.contains(#[trigger] smallest(xs, k)[i]),
    decreases xs.len(),
{
    if xs.len() > 0 {
        let front = xs.drop_last();
        lemma_smallest_from(front, k);
        let p = smallest(front, k);
        assert forall|i: int| 0 <= i < smallest(xs, k).len() implies xs.contains(
            #[trigger] smallest(xs, k)[i],
        ) by {
            lemma_inserted_from(p, xs.last(), i);
            let x = smallest(xs, k)[i];
            if x == xs.last() {
                assert(xs[xs.len() - 1] == x);
            } else {
                assert(p.contains(x));
                let a = choose|a: int| 0 <= a < p.len() && p[a] == x;
                assert(front.contains(p[a]));
                let b = choose|b: int| 0 <= b < front.len() && front[b] == x;
                assert(xs[b] == x);
            }
        }
    }
}

proof fn lemma_inserted_from(p: Seq<u64>, x: u64, i: int)
    requires
        0 <= i < crate::topk::inserted(p, x).len(),
    ensures
        crate::topk::inserted(p, x)[i] == x || p.contains(crate::topk::inserted(p, x)[i]),
    decreases p.len(),
{
    let t = crate::topk::inserted(p, x);
    if p.len() == 0 || p.last() <= x {
        if i < p.len() {
            assert(p.contains(p[i]));
        }
    } else {
        let front = p.drop_last();
        let f = crate::topk::inserted(front, x);
        if i < f.len() {
            lemma_inserted_from(front, x, i);
            if f[i] != x {
                let a = choose|a: int| 0 <= a < front.len() && front[a] == f[i];
                assert(p[a] == f[i]);
            }
        } else {
            assert(p.contains(p[p.len() - 1]));
        }
    }
}

/// The clusters of `probed` that hold vectors, in order.
pub open spec fn non_empty(probed: Seq<usize>, counts: Seq<u32>) -> Seq<usize>
    decreases probed.len(),
{
    if probed.len() == 0 {
        Seq::empty()
    } else {
        let front = non_empty(probed.drop_last(), counts);
        if counts[probed.last() as int] > 0 {
            front.push(probed.last())
        } else {
            front
        }
    }
}

impl VectorIndex {
    /// The probed clusters that hold vectors: those whose code lists are fetched.
    pub fn active(&self, probed: &[usize]) -> (out: Vec<usize>)
        requires
            forall|i: int| 0 <= i < probed@.len() ==> #[trigger] probed@[i] < self@.header.nlist,
        ensures
            out@ == non_empty(probed@, self@.dir_counts),
            out@ == probed@.filter(|j: usize| self@.dir_counts[j as int] != 0),
    {
        proof {
            use_type_invariant(self);
        }
        let mut out: Vec<usize> = Vec::new();
        let mut i: usize = 0;
        assert(probed@.take(0) =~= Seq::<usize>::empty());
        while i < probed.len()
            invariant
                i <= probed@.len(),
                self@.wf(),
                forall|i: int|
                    0 <= i < probed@.len() ==> #[trigger] probed@[i] < self@.header.nlist,
                out@ == non_empty(probed@.take(i as int), self@.dir_counts),
            decreases probed@.len() - i,
        {
            assert(probed@.take(i + 1).drop_last() =~= probed@.take(i as int));
            let j: usize = probed[i];
            assert(self@.dir_counts[j as int] == self.dir_counts@[j as int]);
            if self.dir_counts[j] > 0 {
                out.push(j);
            }
            i += 1;
        }
        assert(probed@.take(i as int) =~= probed@);
        proof {
            lemma_non_empty(probed@, self@.dir_counts);
        }
        out
    }

    /// The byte range of cluster `j`'s code list; `None` where its length does not fit in memory.
    pub fn cluster_range(&self, j: usize) -> (r: Option<(u64, usize)>)
        requires
            j < self@.header.nlist,
        ensures
            match r {
                Some((off, len)) => off == self@.dir_offsets[j as int] && len == self@.list_bytes(
                    j as int,
                ),
                None => self@.list_bytes(j as int) > usize::MAX,
            },
    {
        proof {
            use_type_invariant(self);
        }
        let count: u128 = self.dir_counts[j] as u128;
        let width: u128 = 4 + self.header.m as u128;
        proof {
            assert(count * width <= 0xffff_ffff * 0x1_0000_0003) by (nonlinear_arith)
                requires
                    count <= 0xffff_ffff,
                    width <= 0x1_0000_0003,
            ;
        }
        let len: u128 = count * width;
        if len <= usize::MAX as u128 {
            Some((self.dir_offsets[j], len as usize))
        } else {
            None
        }
    }

    /// Splits cluster `j`'s fetched code list into its doc IDs and its codes, `m` bytes for
    /// each ID.
    pub fn cluster_lists(&self, j: usize, block: &[u8]) -> (r: Result<
        (Vec<u32>, Vec<u8>),
        IndexError,
    >)
        requires
            j < self@.header.nlist,
        ensures
            if block@.len() != self@.list_bytes(j as int) {
                r == Err::<(Vec<u32>, Vec<u8>), _>(
                    IndexError::Malformed("RRVI cluster block size mismatch"),
                )
            } else {
                r matches Ok(lists) && lists.0@ == floats_at(
                    block@,
                    0,
                    self@.dir_counts[j as int] as nat,
                ) && lists.1@ == block@.skip(self@.dir_counts[j as int] * 4)
            },
    {
        proof {
            use_type_invariant(self);
        }
        let count: u128 = self.dir_counts[j] as u128;
        let width: u128 = 4 + self.header.m as u128;
        proof {
            assert(count * width <= 0xffff_ffff * 0x1_0000_0003) by (nonlinear_arith)
                requires
                    count <= 0xffff_ffff,
                    width <= 0x1_0000_0003,
            ;
            assert(count * 4 <= count * width) by (nonlinear_arith)
                requires
                    width >= 4,
            ;
        }
        let total: usize = block.len();
        if total as u128 != count * width {
            return Err(IndexError::Malformed("RRVI cluster block size mismatch"));
        }
        let n: usize = self.dir_counts[j] as usize;
        let ids = read_f32_vec(block, 0, n);
        let codes = copy_range(block, n * 4, total);
        assert(codes@ =~= block@.skip(n * 4));
        Ok((ids, codes))
    }
}

/// Ranks exactly scored hits: the `k` best by score in the total order of floats, best first,
/// ties by ascending doc ID. `scored` holds `(doc ID, score bits)`.
pub open spec fn by_score(scored: Seq<(u32, u32)>) -> Seq<u64> {
    Seq::new(
        scored.len(),
        |i: int|
            ((0xffff_ffff - crate::topk::float_key(scored[i].1)) * 0x1_0000_0000 + scored[i].0) as u64,
    )
}

/// The `k` best of the exactly scored candidates, best first: `(doc ID, score bits)`.
pub fn rank_scored(scored: &[(u32, u32)], k: usize) -> (hits: Vec<(u32, u32)>)
    ensures
        by_score(hits@) == smallest(by_score(scored@), k as nat),
{
    let mut top = TopK::new(k);
    let ghost all = by_score(scored@);
    let mut i: usize = 0;
    assert(all.take(0) =~= Seq::<u64>::empty());
    while i < scored.len()
        invariant
            i <= scored@.len(),
            all == by_score(scored@),
            top.k == k,
            sorted(top.kept@),
            top.kept@.len() <= top.k,
            top.kept@ == smallest(all.take(i as int), k as nat),
        decreases scored@.len() - i,
    {
        assert(all.take(i + 1).drop_last() =~= all.take(i as int));
        let key: u32 = 0xffff_ffff - crate::topk::order_key(scored[i].1);
        assert(all.take(i + 1).last() == (key * 0x1_0000_0000 + scored@[i as int].0) as u64);
        top.offer(key as u64 * 0x1_0000_0000 + scored[i].0 as u64);
        i += 1;
    }
    assert(all.take(i as int) =~= all);
    let mut hits: Vec<(u32, u32)> = Vec::new();
    let mut j: usize = 0;
    while j < top.kept.len()
        invariant
            j <= top.kept@.len(),
            hits@.len() == j,
            forall|a: int| 0 <= a < j ==> by_score(hits@)[a] == #[trigger] top.kept@[a],
        decreases top.kept@.len() - j,
    {
        let x: u64 = top.kept[j];
        let key: u32 = 0xffff_ffff - (x / 0x1_0000_0000) as u32;
        let bits: u32 = if key >= 0x8000_0000 {
            key - 0x8000_0000
        } else {
            0xffff_ffff - key
        };
        let ghost before = hits@;
        hits.push(((x % 0x1_0000_0000) as u32, bits));
        proof {
            assert forall|a: int| 0 <= a < j + 1 implies by_score(hits@)[a]
                == #[trigger] top.kept@[a] by {
                if a < j {
                    assert(by_score(before)[a] == top.kept@[a]);
                }
            }
        }
        j += 1;
    }
    assert(by_score(hits@) =~= top.kept@);
    hits
}

/// The float whose high 16 bits are `b`.
pub open spec fn widened(b: u16) -> u32 {
    (b as u32 * 0x1_0000) as u32
}

/// Decodes a bf16 back to a float's bits: the stored bits in the high half, zeros in the low.
pub fn bf16_to_f32(b: u16) -> (bits: u32)
    ensures
        bits == widened(b),
{
    b as u32 * 0x1_0000
}

/// The header of a re-rank sidecar: dimensionality and vector count.
pub open spec fn rerank_header_of(h: Seq<u8>) -> Result<(u32, u64), IndexError> {
    if h.take(4) != rerank_magic() {
        Err(IndexError::BadMagic([h[0], h[1], h[2], h[3]]))
    } else if u16_at(h, 4) != 1 {
        Err(IndexError::BadVersion(u16_at(h, 4)))
    } else if h[6] != RERANK_BF16 {
        Err(IndexError::Malformed("RRVR unsupported precision"))
    } else if u32_at(h, 8) == 0 {
        Err(IndexError::Malformed("RRVR dim is zero"))
    } else {
        Ok((u32_at(h, 8), u64_at(h, 12)))
    }
}

/// A range-fetchable re-rank sidecar: higher-precision vectors keyed densely by doc ID, so that
/// a query can fetch the exact vectors of its best candidates and rescore them.
#[derive(Debug)]
pub struct RerankStore {
    /// Vector dimensionality.
    pub dim: u32,
    /// Number of stored vectors.
    pub n: u64,
    /// Precision tag of the stored vectors.
    pub precision: u8,
}

impl RerankStore {
    /// Reads and validates the header.
    pub fn open(h: &[u8]) -> (r: Result<RerankStore, IndexError>)
        requires
            h@.len() >= RRVR_HEADER_SIZE,
        ensures
            match rerank_header_of(h@) {
                Err(e) => r == Err::<RerankStore, _>(e),
                Ok(f) => r == Ok::<_, IndexError>(
                    (RerankStore { dim: f.0, n: f.1, precision: h@[6] }),
                ) && f.0 > 0 && h@[6] == RERANK_BF16,
            },
    {
        let m: [u8; 4] = [h[0], h[1], h[2], h[3]];
        assert(h@.take(4) =~= seq![h@[0], h@[1], h@[2], h@[3]]);
        if m[0] != 0x52 || m[1] != 0x52 || m[2] != 0x56 || m[3] != 0x52 {
            proof {
                assert(m@ =~= h@.take(4));
                let t = h@.take(4);
                assert(!(t[0] == 0x52 && t[1] == 0x52 && t[2] == 0x56 && t[3] == 0x52));
                assert(t != rerank_magic());
            }
            return Err(IndexError::BadMagic(m));
        }
        assert(h@.take(4) =~= rerank_magic());
        let version: u16 = read_u16(h, 4);
        if version != 1 {
            return Err(IndexError::BadVersion(version));
        }
        let precision: u8 = h[6];
        if precision != RERANK_BF16 {
            return Err(IndexError::Malformed("RRVR unsupported precision"));
        }
        let dim: u32 = read_u32(h, 8);
        if dim == 0 {
            return Err(IndexError::Malformed("RRVR dim is zero"));
        }
        Ok(RerankStore { dim, n: read_u64(h, 12), precision })
    }

    /// Vector dimensionality.
    pub fn dim(&self) -> (n: usize)
        ensures
            n == self.dim,
    {
        self.dim as usize
    }

    /// Number of stored vectors (doc IDs `0..n`).
    pub fn len(&self) -> (n: u64)
        ensures
            n == self.n,
    {
        self.n
    }

    /// Whether the sidecar holds no vectors.
    pub fn is_empty(&self) -> (yes: bool)
        ensures
            yes == (self.n == 0),
    {
        self.n == 0
    }

    /// Precision tag of the stored vectors.
    pub fn precision(&self) -> (p: u8)
        ensures
            p == self.precision,
    {
        self.precision
    }

    /// Offset of the vector of doc `id`: vectors of `dim` two-byte values behind the header.
    pub open spec fn vector_offset(self, id: u32) -> nat {
        RRVR_HEADER_SIZE as nat + id as nat * (self.dim as nat * 2)
    }

    /// The byte range of the vector of doc `id`.
    pub fn vector_range(&self, id: u32) -> (r: (u64, usize))
        requires
            self.vector_offset(id) <= u64::MAX,
            self.dim * 2 <= usize::MAX,
        ensures
            r.0 == self.vector_offset(id),
            r.1 == self.dim * 2,
    {
        let stride: u128 = self.dim as u128 * 2;
        proof {
            assert(id * stride <= 0xffff_ffff * 0x1_ffff_fffe) by (nonlinear_arith)
                requires
                    id <= 0xffff_ffff,
                    stride <= 0x1_ffff_fffe,
            ;
        }
        let off: u128 = RRVR_HEADER_SIZE as u128 + id as u128 * stride;
        (off as u64, stride as usize)
    }

    /// Decodes a fetched vector to its floats' bits.
    pub fn decode(&self, raw: &[u8]) -> (r: Result<Vec<u32>, IndexError>)
        ensures
            if raw@.len() != self.dim * 2 {
                r == Err::<Vec<u32>, _>(IndexError::Malformed("RRVR short read"))
            } else {
                r matches Ok(v) && v@ == Seq::new(
                    self.dim as nat,
                    |i: int| widened(u16_at(raw@, i * 2)),
                )
            },
    {
        let total: usize = raw.len();
        if total as u64 != self.dim as u64 * 2 {
            return Err(IndexError::Malformed("RRVR short read"));
        }
        let dim: usize = self.dim as usize;
        let mut v: Vec<u32> = Vec::new();
        let mut i: usize = 0;
        while i < dim
            invariant
                i <= dim,
                total == raw@.len(),
                total == dim * 2,
                v@.len() == i,
                forall|j: int| 0 <= j < i ==> v@[j] == widened(u16_at(raw@, j * 2)),
            decreases dim - i,
        {
            v.push(bf16_to_f32(read_u16(raw, i * 2)));
            i += 1;
        }
        assert(v@ =~= Seq::new(self.dim as nat, |i: int| widened(u16_at(raw@, i * 2))));
        Ok(v)
    }
}

/// Checks a re-ranked query and says how many candidates to take: at least `k`; `0` where the
/// result is empty.
pub fn rerank_plan(
    query_len: usize,
    index_dim: usize,
    rerank_dim: usize,
    k: usize,
    nprobe: usize,
    r: usize,
) -> (n: Result<usize, IndexError>)
    ensures
        n == (if query_len != index_dim {
            Err(IndexError::BadQuery("query vector dim != index dim"))
        } else if rerank_dim != index_dim {
            Err(IndexError::BadQuery("rerank dim != index dim"))
        } else if k == 0 || nprobe == 0 {
            Ok(0usize)
        } else if r > k {
            Ok(r)
        } else {
            Ok(k)
        }),
        n is Ok <==> query_len == index_dim && rerank_dim == index_dim,
        n matches Ok(c) ==> (c == 0 <==> k == 0 || nprobe == 0) && (c > 0 ==> c >= k && c >= r && (c
            == k || c == r)),
{
    if query_len != index_dim {
        return Err(IndexError::BadQuery("query vector dim != index dim"));
    }
    if rerank_dim != index_dim {
        return Err(IndexError::BadQuery("rerank dim != index dim"));
    }
    if k == 0 || nprobe == 0 {
        return Ok(0);
    }
    if r > k {
        Ok(r)
    } else {
        Ok(k)
    }
}

/// The clusters to fetch are the probed ones that hold a vector, each as often as it was probed
/// and in the order of the probes.
pub proof fn law_active(probed: Seq<usize>, counts: Seq<u32>)
    ensures
        non_empty(probed, counts) == probed.filter(|j: usize| counts[j as int] != 0),
        forall|j: usize|
            #[trigger] non_empty(probed, counts).contains(j) <==> probed.contains(j)
                && counts[j as int] != 0,
{
    lemma_non_empty(probed, counts);
    lists::lemma_filter_members(probed, |j: usize| counts[j as int] != 0);
}

proof fn lemma_non_empty(probed: Seq<usize>, counts: Seq<u32>)
    ensures
        non_empty(probed, counts) == probed.filter(|j: usize| counts[j as int] != 0),
    decreases probed.len(),
{
    reveal(Seq::filter);
    if probed.len() > 0 {
        lemma_non_empty(probed.drop_last(), counts);
    } else {
        assert(probed =~= Seq::<usize>::empty());
    }
}

/// A code of `nbits` bits picks one of `2^nbits` codebook entries.
pub proof fn law_entries_per_subspace(nbits: u8)
    requires
        1 <= nbits <= 8,
    ensures
        entries_per_subspace(nbits) == vstd::arithmetic::power2::pow2(nbits as nat),
{
    vstd::arithmetic::power2::lemma2_to64();
}

/// A header is accepted exactly where it starts with `RRVI` and version one, the vectors split
/// evenly into subspaces, a code takes one to eight bits, and there is a cluster.
pub proof fn law_header_accepted(h: Seq<u8>)
    requires
        h.len() >= 32,
    ensures
        header_of(h) is Ok <==> h[0] == 0x52 && h[1] == 0x52 && h[2] == 0x56 && h[3] == 0x49
            && u16_at(h, 4) == 1 && u32_at(h, 8) != 0 && u32_at(h, 16) != 0 && u32_at(h, 8) % u32_at(
            h,
            16,
        ) == 0 && 1 <= h[20] <= 8 && u32_at(h, 12) != 0,
        header_of(h) matches Ok(f) ==> header_ok(f),
{
    let m = seq![0x52u8, 0x52u8, 0x56u8, 0x49u8];
    if h.take(4) == m {
        assert(h.take(4)[0] == 0x52 && h.take(4)[1] == 0x52 && h.take(4)[2] == 0x56 && h.take(4)[3]
            == 0x49);
    } else if h[0] == 0x52 && h[1] == 0x52 && h[2] == 0x56 && h[3] == 0x49 {
        assert(h.take(4) =~= m);
    }
}

/// A re-rank header is accepted exactly where it starts with `RRVR`, version one and the bf16
/// tag, and the vectors are not empty.
pub proof fn law_rerank_header_accepted(h: Seq<u8>)
    requires
        h.len() >= 20,
    ensures
        rerank_header_of(h) is Ok <==> h[0] == 0x52 && h[1] == 0x52 && h[2] == 0x56 && h[3] == 0x52
            && u16_at(h, 4) == 1 && h[6] == RERANK_BF16 && u32_at(h, 8) != 0,
{
    let m = seq![0x52u8, 0x52u8, 0x56u8, 0x52u8];
    if h.take(4) == m {
        assert(h.take(4)[0] == 0x52 && h.take(4)[1] == 0x52 && h.take(4)[2] == 0x56 && h.take(4)[3]
            == 0x52);
    } else if h[0] == 0x52 && h[1] == 0x52 && h[2] == 0x56 && h[3] == 0x52 {
        assert(h.take(4) =~= m);
    }
}

/// The packed candidate of each cluster is its own: no two are alike, and its low half is the
/// cluster.
proof fn lemma_cluster_candidates(dists: Seq<u32>)
    requires
        dists.len() <= u32::MAX,
    ensures
        ({
            let all = candidates(dists, indices(dists.len()));
            &&& all.len() == dists.len()
            &&& all.no_duplicates()
            &&& forall|c: int| 0 <= c < dists.len() ==> #[trigger] all[c] % 0x1_0000_0000 == c
        }),
{
    let all = candidates(dists, indices(dists.len()));
    assert forall|c: int| 0 <= c < dists.len() implies #[trigger] all[c] % 0x1_0000_0000 == c by {
        assert(all[c] == candidate(dists[c], c as u32));
    }
}

/// The probed clusters are distinct; a cluster that is not probed is not nearer than one that
/// is, ties going to the lower number; and with as many probes as clusters each one is probed.
pub proof fn law_nearest_clusters(dists: Seq<u32>, nprobe: nat, probed: Seq<usize>, c: int)
    requires
        dists.len() <= u32::MAX,
        0 <= c < dists.len(),
        ({
            let best = smallest(candidates(dists, indices(dists.len())), nprobe);
            &&& probed.len() == best.len()
            &&& forall|i: int|
                0 <= i < probed.len() ==> #[trigger] probed[i] == best[i] % 0x1_0000_0000
        }),
    ensures
        probed.len() == (if nprobe <= dists.len() {
            nprobe
        } else {
            dists.len()
        }),
        probed.no_duplicates(),
        forall|i: int, j: int|
            0 <= i < j < probed.len() ==> candidate(
                dists[#[trigger] probed[i] as int],
                probed[i] as u32,
            ) < candidate(dists[#[trigger] probed[j] as int], probed[j] as u32),
        (exists|i: int| 0 <= i < probed.len() && #[trigger] probed[i] == c) || forall|i: int|
            0 <= i < probed.len() ==> candidate(
                dists[#[trigger] probed[i] as int],
                probed[i] as u32,
            ) < candidate(dists[c], c as u32),
        nprobe >= dists.len() ==> exists|i: int| 0 <= i < probed.len() && #[trigger] probed[i] == c,
{
    broadcast use vstd::seq_lib::group_to_multiset_ensures;
    broadcast use vstd::multiset::group_multiset_axioms;

    let all = candidates(dists, indices(dists.len()));
    let best = smallest(all, nprobe);
    lemma_cluster_candidates(dists);
    crate::topk::law_smallest(all, nprobe);
    let out = choose|out: vstd::multiset::Multiset<u64>|
        #[trigger] best.to_multiset().add(out) == all.to_multiset() && crate::topk::none_below(
            out,
            best,
        );
    all.lemma_multiset_has_no_duplicates();
    assert forall|x: u64| best.to_multiset().contains(x) implies best.to_multiset().count(x)
        == 1 by {
        assert(all.to_multiset().count(x) == best.to_multiset().count(x) + out.count(x));
        assert(all.to_multiset().contains(x));
    }
    best.lemma_multiset_has_no_duplicates_conv();
    assert forall|i: int| 0 <= i < probed.len() implies probed[i] < dists.len() && #[trigger] best[i]
        == candidate(dists[probed[i] as int], probed[i] as u32) by {
        assert(best.contains(best[i]));
        assert(best.to_multiset().count(best[i]) > 0);
        assert(all.to_multiset().count(best[i]) > 0);
        assert(all.contains(best[i]));
        let d = choose|d: int| 0 <= d < all.len() && all[d] == best[i];
        assert(all[d] % 0x1_0000_0000 == d);
        assert(probed[i] == d);
    }
    assert forall|i: int, j: int| 0 <= i < j < probed.len() implies candidate(
        dists[#[trigger] probed[i] as int],
        probed[i] as u32,
    ) < candidate(dists[#[trigger] probed[j] as int], probed[j] as u32) by {
        assert(best[i] <= best[j] && best[i] != best[j]);
    }
    assert forall|i: int, j: int| 0 <= i < j < probed.len() implies probed[i] != probed[j] by {
        assert(candidate(dists[probed[i] as int], probed[i] as u32) < candidate(
            dists[probed[j] as int],
            probed[j] as u32,
        ));
    }
    let x = all[c];
    assert(x == candidate(dists[c], c as u32));
    assert(all.contains(x));
    assert(all.to_multiset().count(x) == best.to_multiset().count(x) + out.count(x));
    if best.to_multiset().count(x) > 0 {
        assert(best.contains(x));
        let i = choose|i: int| 0 <= i < best.len() && best[i] == x;
        assert(x % 0x1_0000_0000 == c);
        assert(probed[i] == c);
    } else {
        assert(out.count(x) > 0);
        assert forall|i: int| 0 <= i < probed.len() implies candidate(
            dists[#[trigger] probed[i] as int],
            probed[i] as u32,
        ) < candidate(dists[c], c as u32) by {
            assert(best[i] <= x);
            assert(best.contains(best[i]));
        }
        assert(out.len() > 0);
        assert(all.to_multiset().len() == best.to_multiset().len() + out.len());
    }
}

/// Scored hits rank by the score, the greatest first, and among equal scores by the lower ID.
pub proof fn law_by_score(scored: Seq<(u32, u32)>, i: int, j: int)
    requires
        0 <= i < scored.len(),
        0 <= j < scored.len(),
    ensures
        by_score(scored).len() == scored.len(),
        by_score(scored)[i] < by_score(scored)[j] <==> crate::topk::float_key(scored[j].1)
            < crate::topk::float_key(scored[i].1) || (scored[i].1 == scored[j].1 && scored[i].0
            < scored[j].0),
        by_score(scored)[i] == by_score(scored)[j] <==> scored[i] == scored[j],
{
}

/// The vectors of a re-rank sidecar lie one behind the other from byte twenty on.
pub proof fn law_vector_offsets(s: RerankStore, id: u32)
    requires
        id < u32::MAX,
    ensures
        s.vector_offset(0) == 20,
        s.vector_offset((id + 1) as u32) == s.vector_offset(id) + s.dim * 2,
{
    let d = s.dim as int * 2;
    assert((id + 1) * d == id * d + d) by (nonlinear_arith);
    assert(0 * d == 0) by (nonlinear_arith);
}

} // verus!
