//! The writer of the similarity index and of its re-rank sidecar: the build-side mirror of
//! [`crate::vector`].

use crate::bytes::{self, le16, le32, le64, put_bytes, put_u16, put_u32, put_u64, put_zeros, word32};
use crate::splitset_build::zeros;
use crate::terms::held;
use crate::vector::{
    boot_bytes, codebook_floats, entries_per_subspace, floats_at, header_of, ksub_of, magic,
    rerank_header_of, rerank_magic, Metric, VectorHeader, VectorsView, FLAG_OPQ, HEADER_SIZE,
    RERANK_BF16, VERSION,
};
use vstd::prelude::*;

verus! {

/// Parameters of a build.
#[derive(Debug, Clone)]
pub struct IvfpqParams {
    /// Vector dimensionality. Every input vector must have this length.
    pub dim: usize,
    /// Number of coarse clusters.
    pub nlist: usize,
    /// Number of subquantizers; must divide `dim`.
    pub m: usize,
    /// Bits per code (`1..=8`).
    pub nbits: u8,
    /// The similarity metric to train and score for.
    pub metric: Metric,
    /// Iteration count for every k-means run.
    pub kmeans_iters: usize,
    /// Seed for the deterministic generator that initializes k-means.
    pub seed: u64,
}

impl IvfpqParams {
    /// Parameters with sensible defaults: 8-bit codes, inner-product metric, 25 k-means
    /// iterations, a fixed seed. `m` must divide `dim`.
    pub fn new(dim: usize, nlist: usize, m: usize) -> (p: IvfpqParams)
        ensures
            p == (IvfpqParams {
                dim,
                nlist,
                m,
                nbits: 8,
                metric: Metric::InnerProduct,
                kmeans_iters: 25,
                seed: 0x5251_5649_5252_5649,
            }),
    {
        IvfpqParams {
            dim,
            nlist,
            m,
            nbits: 8,
            metric: Metric::InnerProduct,
            kmeans_iters: 25,
            seed: 0x5251_5649_5252_5649,
        }
    }
}

/// Why a build was refused.
#[derive(Debug, PartialEq, Eq)]
pub enum VectorBuildError {
    /// No input vectors were supplied.
    Empty,
    /// A vector's length did not match the dimensionality.
    DimMismatch,
    /// A parameter was out of range (the message says which).
    BadParams(&'static str),
}

/// Why the shape of an index is refused.
pub open spec fn shape_error(dim: usize, nlist: usize, m: usize, nbits: u8) -> Option<
    VectorBuildError,
> {
    if dim == 0 || m == 0 || dim % m != 0 {
        Some(VectorBuildError::BadParams("dim/m: need dim>0, m>0, m|dim"))
    } else if nbits == 0 || nbits > 8 {
        Some(VectorBuildError::BadParams("nbits must be in 1..=8"))
    } else if nlist == 0 {
        Some(VectorBuildError::BadParams("nlist must be >= 1"))
    } else {
        None
    }
}

fn check_shape(dim: usize, nlist: usize, m: usize, nbits: u8) -> (r: Result<(), VectorBuildError>)
    ensures
        match shape_error(dim, nlist, m, nbits) {
            Some(e) => r == Err::<(), _>(e),
            None => r is Ok,
        },
{
    if dim == 0 || m == 0 || dim % m != 0 {
        return Err(VectorBuildError::BadParams("dim/m: need dim>0, m>0, m|dim"));
    }
    if nbits == 0 || nbits > 8 {
        return Err(VectorBuildError::BadParams("nbits must be in 1..=8"));
    }
    if nlist == 0 {
        return Err(VectorBuildError::BadParams("nlist must be >= 1"));
    }
    Ok(())
}

/// Whether every one of `vectors` has `dim` values.
pub open spec fn all_dim(vectors: Seq<(u32, Vec<u32>)>, dim: usize) -> bool {
    forall|i: int| 0 <= i < vectors.len() ==> (#[trigger] vectors[i]).1@.len() == dim
}

/// Checks the input of a build, and says how many clusters to train: never more than there are
/// vectors.
pub fn check_input(vectors: &[(u32, Vec<u32>)], params: &IvfpqParams) -> (r: Result<
    usize,
    VectorBuildError,
>)
    ensures
        match r {
            Err(e) => if vectors@.len() == 0 {
                e == VectorBuildError::Empty
            } else if shape_error(params.dim, params.nlist, params.m, params.nbits) is Some {
                Some(e) == shape_error(params.dim, params.nlist, params.m, params.nbits)
            } else {
                !all_dim(vectors@, params.dim) && e == VectorBuildError::DimMismatch
            },
            Ok(nlist) => vectors@.len() > 0 && shape_error(
                params.dim,
                params.nlist,
                params.m,
                params.nbits,
            ) is None && all_dim(vectors@, params.dim) && nlist == (if params.nlist
                <= vectors@.len() {
                params.nlist as nat
            } else {
                vectors@.len()
            }),
        },
{
    if vectors.len() == 0 {
        return Err(VectorBuildError::Empty);
    }
    if let Err(e) = check_shape(params.dim, params.nlist, params.m, params.nbits) {
        return Err(e);
    }
    let mut i: usize = 0;
    while i < vectors.len()
        invariant
            i <= vectors@.len(),
            vectors@.len() > 0,
            shape_error(params.dim, params.nlist, params.m, params.nbits) is None,
            forall|j: int| 0 <= j < i ==> (#[trigger] vectors@[j]).1@.len() == params.dim,
        decreases vectors@.len() - i,
    {
        if vectors[i].1.len() != params.dim {
            assert(vectors@[i as int].1@.len() != params.dim);
            return Err(VectorBuildError::DimMismatch);
        }
        i += 1;
    }
    if params.nlist <= vectors.len() {
        Ok(params.nlist)
    } else {
        Ok(vectors.len())
    }
}

/// Already-trained parts, ready to serialize. All arrays are row-major; floats are given by
/// their bits.
#[derive(Debug)]
pub struct IvfpqParts {
    /// Vector dimensionality.
    pub dim: usize,
    /// Number of coarse clusters.
    pub nlist: usize,
    /// Subquantizers.
    pub m: usize,
    /// Bits per code (`1..=8`).
    pub nbits: u8,
    /// The similarity metric.
    pub metric: Metric,
    /// Coarse centroids, `nlist × dim`.
    pub centroids: Vec<u32>,
    /// Codebooks, `m × 2^nbits × (dim / m)`.
    pub codebooks: Vec<u32>,
    /// Optional rotation, `dim × dim`.
    pub opq: Option<Vec<u32>>,
    /// Per-vector doc IDs.
    pub ids: Vec<u32>,
    /// Per-vector cluster assignment.
    pub assignments: Vec<u32>,
    /// Per-vector codes, `m` bytes each.
    pub codes: Vec<u8>,
}

/// Why the parts are refused: the first inconsistency.
pub open spec fn parts_error(p: IvfpqParts) -> Option<VectorBuildError> {
    let k = entries_per_subspace(p.nbits);
    if shape_error(p.dim, p.nlist, p.m, p.nbits) is Some {
        shape_error(p.dim, p.nlist, p.m, p.nbits)
    } else if p.centroids@.len() != p.nlist * p.dim {
        Some(VectorBuildError::BadParams("centroids length != nlist*dim"))
    } else if p.codebooks@.len() != p.dim * k {
        Some(VectorBuildError::BadParams("codebooks length != m*ksub*dsub"))
    } else if p.opq matches Some(r) && r@.len() != p.dim * p.dim {
        Some(VectorBuildError::BadParams("opq length != dim*dim"))
    } else if p.assignments@.len() != p.ids@.len() {
        Some(VectorBuildError::BadParams("assignments length != ids length"))
    } else if p.codes@.len() != p.ids@.len() * p.m {
        Some(VectorBuildError::BadParams("codes length != ids length * m"))
    } else if exists|i: int| 0 <= i < p.assignments@.len() && #[trigger] p.assignments@[i] >= p.nlist {
        Some(VectorBuildError::BadParams("an assignment >= nlist"))
    } else if exists|i: int| 0 <= i < p.codes@.len() && #[trigger] p.codes@[i] >= k {
        Some(VectorBuildError::BadParams("a code >= ksub (1<<nbits)"))
    } else {
        None
    }
}

/// The IDs of the first `n` vectors that are assigned to cluster `c`, in order.
pub open spec fn ids_in(ids: Seq<u32>, assignments: Seq<u32>, c: int, n: nat) -> Seq<u32>
    decreases n,
{
    if n == 0 {
        Seq::empty()
    } else {
        let front = ids_in(ids, assignments, c, (n - 1) as nat);
        if assignments[n - 1] == c {
            front.push(ids[n - 1])
        } else {
            front
        }
    }
}

/// The codes of the first `n` vectors that are assigned to cluster `c`, end to end.
pub open spec fn codes_in(codes: Seq<u8>, m: nat, assignments: Seq<u32>, c: int, n: nat) -> Seq<u8>
    decreases n,
{
    if n == 0 {
        Seq::empty()
    } else {
        let front = codes_in(codes, m, assignments, c, (n - 1) as nat);
        if assignments[n - 1] == c {
            front + codes.subrange((n - 1) * m, (n - 1) * m + m)
        } else {
            front
        }
    }
}

/// A trained index.
pub struct IvfpqView {
    /// Vector dimensionality.
    pub dim: usize,
    /// Number of coarse clusters.
    pub nlist: usize,
    /// Subquantizers.
    pub m: usize,
    /// Bits per code.
    pub nbits: u8,
    /// The similarity metric.
    pub metric: Metric,
    /// Number of vectors.
    pub n: u64,
    /// Optional rotation.
    pub opq: Option<Seq<u32>>,
    /// Coarse centroids.
    pub centroids: Seq<u32>,
    /// Codebooks.
    pub codebooks: Seq<u32>,
    /// Per-cluster vector IDs.
    pub list_ids: Seq<Seq<u32>>,
    /// Per-cluster codes.
    pub list_codes: Seq<Seq<u8>>,
}

impl IvfpqView {
    /// The index that the parts make up: each vector's ID and code in its cluster's list.
    pub open spec fn of(p: IvfpqParts) -> IvfpqView {
        let n = p.ids@.len();
        IvfpqView {
            dim: p.dim,
            nlist: p.nlist,
            m: p.m,
            nbits: p.nbits,
            metric: p.metric,
            n: n as u64,
            opq: match p.opq {
                Some(r) => Some(r@),
                None => None,
            },
            centroids: p.centroids@,
            codebooks: p.codebooks@,
            list_ids: Seq::new(
                p.nlist as nat,
                |c: int| ids_in(p.ids@, p.assignments@, c, n),
            ),
            list_codes: Seq::new(
                p.nlist as nat,
                |c: int| codes_in(p.codes@, p.m as nat, p.assignments@, c, n),
            ),
        }
    }

    /// The tables have the sizes that the shape asks for.
    pub open spec fn wf(self) -> bool {
        &&& shape_error(self.dim, self.nlist, self.m, self.nbits) is None
        &&& self.centroids.len() == self.nlist * self.dim
        &&& self.codebooks.len() == self.dim * entries_per_subspace(self.nbits)
        &&& self.opq matches Some(r) ==> r.len() == self.dim * self.dim
        &&& self.list_ids.len() == self.nlist
        &&& self.list_codes.len() == self.nlist
        &&& forall|c: int|
            0 <= c < self.nlist ==> (#[trigger] self.list_codes[c]).len()
                == self.list_ids[c].len() * self.m
    }
}

/// A trained index, ready to serialize.
pub struct Ivfpq {
    dim: usize,
    nlist: usize,
    m: usize,
    nbits: u8,
    metric: Metric,
    n: u64,
    opq: Option<Vec<u32>>,
    centroids: Vec<u32>,
    codebooks: Vec<u32>,
    list_ids: Vec<Vec<u32>>,
    list_codes: Vec<Vec<u8>>,
}

impl View for Ivfpq {
    type V = IvfpqView;

    closed spec fn view(&self) -> IvfpqView {
        IvfpqView {
            dim: self.dim,
            nlist: self.nlist,
            m: self.m,
            nbits: self.nbits,
            metric: self.metric,
            n: self.n,
            opq: match self.opq {
                Some(r) => Some(r@),
                None => None,
            },
            centroids: self.centroids@,
            codebooks: self.codebooks@,
            list_ids: self.list_ids@.map_values(|v: Vec<u32>| v@),
            list_codes: self.list_codes@.map_values(|v: Vec<u8>| v@),
        }
    }
}

/// Checks the lengths and the ranges of the parts.
fn check_parts(p: &IvfpqParts) -> (r: Result<(), VectorBuildError>)
    ensures
        match parts_error(*p) {
            Some(e) => r == Err::<(), _>(e),
            None => r is Ok,
        },
{
    if let Err(e) = check_shape(p.dim, p.nlist, p.m, p.nbits) {
        return Err(e);
    }
    let ksub: usize = ksub_of(p.nbits);
    proof {
        let (a, b, c, d, e) = (p.nlist as int, p.dim as int, ksub as int, p.ids@.len() as int, p.m as int);
        let top = 0xffff_ffff_ffff_ffffint;
        assert(a * b <= top * top && b * c <= top * 256 && b * b <= top * top) by (nonlinear_arith)
            requires
                0 <= a <= top,
                0 <= b <= top,
                0 <= c <= 256,
        ;
    }
    if p.centroids.len() as u128 != p.nlist as u128 * p.dim as u128 {
        return Err(VectorBuildError::BadParams("centroids length != nlist*dim"));
    }
    if p.codebooks.len() as u128 != p.dim as u128 * ksub as u128 {
        return Err(VectorBuildError::BadParams("codebooks length != m*ksub*dsub"));
    }
    if let Some(r) = &p.opq {
        if r.len() as u128 != p.dim as u128 * p.dim as u128 {
            return Err(VectorBuildError::BadParams("opq length != dim*dim"));
        }
    }
    let n: usize = p.ids.len();
    if p.assignments.len() != n {
        return Err(VectorBuildError::BadParams("assignments length != ids length"));
    }
    proof {
        let (d, e) = (n as int, p.m as int);
        let top = 0xffff_ffff_ffff_ffffint;
        assert(d * e <= top * top) by (nonlinear_arith)
            requires
                0 <= d <= top,
                0 <= e <= top,
        ;
    }
    if p.codes.len() as u128 != n as u128 * p.m as u128 {
        return Err(VectorBuildError::BadParams("codes length != ids length * m"));
    }
    let mut i: usize = 0;
    while i < n
        invariant
            i <= n,
            n == p.assignments@.len(),
            n == p.ids@.len(),
            p.codes@.len() == n * p.m,
            shape_error(p.dim, p.nlist, p.m, p.nbits) is None,
            p.centroids@.len() == p.nlist * p.dim,
            p.codebooks@.len() == p.dim * entries_per_subspace(p.nbits),
            p.opq matches Some(r) ==> r@.len() == p.dim * p.dim,
            forall|j: int| 0 <= j < i ==> #[trigger] p.assignments@[j] < p.nlist,
        decreases n - i,
    {
        if p.assignments[i] as usize >= p.nlist {
            assert(p.assignments@[i as int] >= p.nlist);
            return Err(VectorBuildError::BadParams("an assignment >= nlist"));
        }
        i += 1;
    }
    let mut j: usize = 0;
    while j < p.codes.len()
        invariant
            j <= p.codes@.len(),
            n == p.assignments@.len(),
            n == p.ids@.len(),
            ksub == entries_per_subspace(p.nbits),
            p.codes@.len() == n * p.m,
            shape_error(p.dim, p.nlist, p.m, p.nbits) is None,
            p.centroids@.len() == p.nlist * p.dim,
            p.codebooks@.len() == p.dim * entries_per_subspace(p.nbits),
            p.opq matches Some(r) ==> r@.len() == p.dim * p.dim,
            forall|a: int| 0 <= a < n ==> #[trigger] p.assignments@[a] < p.nlist,
            forall|a: int| 0 <= a < j ==> #[trigger] p.codes@[a] < ksub,
        decreases p.codes@.len() - j,
    {
        if p.codes[j] as usize >= ksub {
            assert(p.codes@[j as int] >= entries_per_subspace(p.nbits));
            return Err(VectorBuildError::BadParams("a code >= ksub (1<<nbits)"));
        }
        j += 1;
    }
    Ok(())
}

proof fn lemma_row(i: int, n: int, m: int)
    requires
        0 <= i < n,
        0 <= m,
    ensures
        0 <= i * m,
        i * m + m <= n * m,
        (i + 1) * m == i * m + m,
{
    assert(0 <= i * m && i * m + m <= n * m && (i + 1) * m == i * m + m) by (nonlinear_arith)
        requires
            0 <= i < n,
            0 <= m,
    ;
}

proof fn lemma_lists_match(
    ids: Seq<u32>,
    codes: Seq<u8>,
    m: nat,
    assignments: Seq<u32>,
    c: int,
    n: nat,
)
    requires
        n <= ids.len(),
        codes.len() == ids.len() * m,
    ensures
        codes_in(codes, m, assignments, c, n).len() == ids_in(ids, assignments, c, n).len() * m,
    decreases n,
{
    if n > 0 {
        lemma_lists_match(ids, codes, m, assignments, c, (n - 1) as nat);
        lemma_row(n - 1, ids.len() as int, m as int);
        let a = ids_in(ids, assignments, c, (n - 1) as nat).len();
        assert((a + 1) * m == a * m + m) by (nonlinear_arith);
    } else {
        assert(0 * m == 0) by (nonlinear_arith);
    }
}

/// Assembles an index from already-trained `parts`, scattering each vector's code into its
/// assigned cluster's list. Every array length must be consistent and every assignment and code
/// in range, so that a malformed export is refused rather than written.
pub fn build_ivfpq_from_parts(parts: IvfpqParts) -> (r: Result<Ivfpq, VectorBuildError>)
    ensures
        match parts_error(parts) {
            Some(e) => r == Err::<Ivfpq, _>(e),
            None => r matches Ok(index) && index@ == IvfpqView::of(parts),
        },
{
    if let Err(e) = check_parts(&parts) {
        return Err(e);
    }
    let ghost want = IvfpqView::of(parts);
    let n: usize = parts.ids.len();
    let m: usize = parts.m;
    let nlist: usize = parts.nlist;
    let mut list_ids: Vec<Vec<u32>> = Vec::new();
    let mut list_codes: Vec<Vec<u8>> = Vec::new();
    let mut c: usize = 0;
    while c < nlist
        invariant
            c <= nlist,
            list_ids@.len() == c,
            list_codes@.len() == c,
            forall|j: int| 0 <= j < c ==> (#[trigger] list_ids@[j])@ == Seq::<u32>::empty(),
            forall|j: int| 0 <= j < c ==> (#[trigger] list_codes@[j])@ == Seq::<u8>::empty(),
        decreases nlist - c,
    {
        list_ids.push(Vec::new());
        list_codes.push(Vec::new());
        c += 1;
    }
    let total: usize = parts.codes.len();
    let mut i: usize = 0;
    while i < n
        invariant
            i <= n,
            n == parts.ids@.len(),
            n == parts.assignments@.len(),
            total == parts.codes@.len(),
            total == n * m,
            m == parts.m,
            forall|a: int| 0 <= a < n ==> #[trigger] parts.assignments@[a] < nlist,
            list_ids@.len() == nlist,
            list_codes@.len() == nlist,
            forall|j: int|
                0 <= j < nlist ==> (#[trigger] list_ids@[j])@ == ids_in(
                    parts.ids@,
                    parts.assignments@,
                    j,
                    i as nat,
                ),
            forall|j: int|
                0 <= j < nlist ==> (#[trigger] list_codes@[j])@ == codes_in(
                    parts.codes@,
                    m as nat,
                    parts.assignments@,
                    j,
                    i as nat,
                ),
        decreases n - i,
    {
        let a: usize = parts.assignments[i] as usize;
        proof {
            lemma_row(i as int, n as int, m as int);
        }
        let ghost ids0 = list_ids@;
        let ghost codes0 = list_codes@;
        list_ids[a].push(parts.ids[i]);
        let row = vstd::slice::slice_subrange(parts.codes.as_slice(), i * m, i * m + m);
        put_bytes(&mut list_codes[a], row);
        proof {
            assert forall|j: int| 0 <= j < nlist implies (#[trigger] list_ids@[j])@ == ids_in(
                parts.ids@,
                parts.assignments@,
                j,
                (i + 1) as nat,
            ) by {
                if j != a {
                    assert(list_ids@[j] == ids0[j]);
                }
            }
            assert forall|j: int| 0 <= j < nlist implies (#[trigger] list_codes@[j])@ == codes_in(
                parts.codes@,
                m as nat,
                parts.assignments@,
                j,
                (i + 1) as nat,
            ) by {
                if j != a {
                    assert(list_codes@[j] == codes0[j]);
                }
            }
        }
        i += 1;
    }
    proof {
        assert(list_ids@.map_values(|v: Vec<u32>| v@) =~= want.list_ids);
        assert(list_codes@.map_values(|v: Vec<u8>| v@) =~= want.list_codes);
        assert forall|j: int| 0 <= j < nlist implies (#[trigger] want.list_codes[j]).len()
            == want.list_ids[j].len() * m by {
            lemma_lists_match(
                parts.ids@,
                parts.codes@,
                m as nat,
                parts.assignments@,
                j,
                n as nat,
            );
        }
    }
    Ok(
        Ivfpq {
            dim: parts.dim,
            nlist,
            m,
            nbits: parts.nbits,
            metric: parts.metric,
            n: n as u64,
            opq: parts.opq,
            centroids: parts.centroids,
            codebooks: parts.codebooks,
            list_ids,
            list_codes,
        },
    )
}

/// The little-endian bytes of `xs`, end to end.
pub open spec fn words(xs: Seq<u32>) -> Seq<u8>
    decreases xs.len(),
{
    if xs.len() == 0 {
        Seq::empty()
    } else {
        words(xs.drop_last()) + le32(xs.last())
    }
}

/// Appends the little-endian bytes of `xs`.
fn put_words(out: &mut Vec<u8>, xs: &[u32])
    ensures
        final(out)@ == old(out)@ + words(xs@),
{
    let mut i: usize = 0;
    assert(out@ + words(xs@.take(0)) =~= out@);
    while i < xs.len()
        invariant
            i <= xs@.len(),
            out@ == old(out)@ + words(xs@.take(i as int)),
        decreases xs@.len() - i,
    {
        put_u32(out, xs[i]);
        proof {
            assert(xs@.take(i + 1).drop_last() =~= xs@.take(i as int));
            assert(out@ =~= old(out)@ + words(xs@.take(i + 1)));
        }
        i += 1;
    }
    assert(xs@.take(i as int) =~= xs@);
}

impl IvfpqView {
    /// The header bytes.
    pub open spec fn header_bytes(self) -> Seq<u8> {
        magic() + le16(VERSION) + seq![
            self.metric.code(),
            if self.opq is Some {
                FLAG_OPQ
            } else {
                0u8
            },
        ] + le32(word32(self.dim as nat)) + le32(word32(self.nlist as nat)) + le32(
            word32(self.m as nat),
        ) + seq![self.nbits] + zeros(3) + le64(self.n) + zeros(16)
    }

    /// The boot tables: the rotation, the centroids, the codebooks.
    pub open spec fn table_bytes(self) -> Seq<u8> {
        (match self.opq {
            Some(r) => words(r),
            None => Seq::empty(),
        }) + words(self.centroids) + words(self.codebooks)
    }

    /// Length of cluster `c`'s list.
    pub open spec fn list_len(self, c: int) -> nat {
        self.list_ids[c].len() * 4 + self.list_codes[c].len()
    }

    /// Length of the first `n` lists.
    pub open spec fn lists_len(self, n: nat) -> nat
        decreases n,
    {
        if n == 0 {
            0
        } else {
            self.lists_len((n - 1) as nat) + self.list_len(n - 1)
        }
    }

    /// Where the lists start in the file.
    #[verifier::opaque]
    pub open spec fn lists_off(self) -> nat {
        let opq = match self.opq {
            Some(r) => self.dim as nat * self.dim as nat,
            None => 0,
        };
        48 + (opq + self.nlist as nat * self.dim as nat + self.dim as nat * entries_per_subspace(
            self.nbits,
        )) * 4 + self.nlist as nat * 12
    }

    /// The directory of the first `n` clusters: each list's offset and count.
    pub open spec fn dir_bytes(self, n: nat) -> Seq<u8>
        decreases n,
    {
        if n == 0 {
            Seq::empty()
        } else {
            self.dir_bytes((n - 1) as nat) + le64(
                held((self.lists_off() + self.lists_len((n - 1) as nat)) as int),
            ) + le32(word32(self.list_ids[n - 1].len()))
        }
    }

    /// The lists of the first `n` clusters: each cluster's IDs, then its codes.
    pub open spec fn list_bytes(self, n: nat) -> Seq<u8>
        decreases n,
    {
        if n == 0 {
            Seq::empty()
        } else {
            self.list_bytes((n - 1) as nat) + words(self.list_ids[n - 1]) + self.list_codes[n - 1]
        }
    }

    /// The whole file.
    #[verifier::opaque]
    pub open spec fn file(self) -> Seq<u8> {
        self.header_bytes() + self.table_bytes() + self.dir_bytes(self.nlist as nat)
            + self.list_bytes(self.nlist as nat)
    }
}

impl Ivfpq {
    #[verifier::type_invariant]
    closed spec fn sized(self) -> bool {
        self@.wf()
    }

    /// Attaches a rotation matrix (`dim × dim`, row-major).
    pub fn with_opq(self, matrix: Vec<u32>) -> (index: Ivfpq)
        requires
            matrix@.len() == self@.dim * self@.dim,
        ensures
            index@ == (IvfpqView { opq: Some(matrix@), ..self@ }),
    {
        proof {
            use_type_invariant(&self);
        }
        let ghost before = self@;
        let index = Ivfpq {
            dim: self.dim,
            nlist: self.nlist,
            m: self.m,
            nbits: self.nbits,
            metric: self.metric,
            n: self.n,
            opq: Some(matrix),
            centroids: self.centroids,
            codebooks: self.codebooks,
            list_ids: self.list_ids,
            list_codes: self.list_codes,
        };
        index
    }

    /// Number of indexed vectors.
    pub fn len(&self) -> (n: u64)
        ensures
            n == self@.n,
    {
        self.n
    }

    /// Whether the index holds no vectors.
    pub fn is_empty(&self) -> (yes: bool)
        ensures
            yes == (self@.n == 0),
    {
        self.n == 0
    }

    /// Vector dimensionality.
    pub fn dim(&self) -> (n: usize)
        ensures
            n == self@.dim,
    {
        self.dim
    }

    /// Number of coarse clusters.
    pub fn nlist(&self) -> (n: usize)
        ensures
            n == self@.nlist,
    {
        self.nlist
    }

    /// Number of subquantizers.
    pub fn subquantizers(&self) -> (n: usize)
        ensures
            n == self@.m,
    {
        self.m
    }

    /// Bits per code.
    pub fn nbits(&self) -> (n: u8)
        ensures
            n == self@.nbits,
    {
        self.nbits
    }

    fn put_header(&self, out: &mut Vec<u8>)
        ensures
            final(out)@ == old(out)@ + self@.header_bytes(),
    {
        let ghost start = out@;
        out.push(0x52);
        out.push(0x52);
        out.push(0x56);
        out.push(0x49);
        assert(out@ =~= start + magic());
        put_u16(out, VERSION);
        let metric: u8 = match self.metric {
            Metric::InnerProduct => crate::vector::METRIC_IP,
            Metric::L2 => crate::vector::METRIC_L2,
        };
        let flag: u8 = if self.opq.is_some() {
            FLAG_OPQ
        } else {
            0
        };
        out.push(metric);
        out.push(flag);
        let ghost a = out@;
        assert(a =~= start + (magic() + le16(VERSION) + seq![metric, flag]));
        let dim: u64 = self.dim as u64 % 0x1_0000_0000;
        let nlist: u64 = self.nlist as u64 % 0x1_0000_0000;
        let m: u64 = self.m as u64 % 0x1_0000_0000;
        put_u32(out, dim as u32);
        put_u32(out, nlist as u32);
        put_u32(out, m as u32);
        out.push(self.nbits);
        put_zeros(out, 3);
        put_u64(out, self.n);
        put_zeros(out, 16);
        assert(out@ =~= start + self@.header_bytes());
    }

    /// Serializes the index.
    pub fn write(&self) -> (out: Vec<u8>)
        ensures
            out@ == self@.file(),
    {
        proof {
            use_type_invariant(self);
            reveal(IvfpqView::file);
            reveal(IvfpqView::lists_off);
        }
        let ghost v = self@;
        let mut out: Vec<u8> = Vec::new();
        self.put_header(&mut out);
        assert(out@ =~= v.header_bytes());
        let mut opq_len: usize = 0;
        if let Some(r) = &self.opq {
            put_words(&mut out, r.as_slice());
            opq_len = r.len();
        }
        put_words(&mut out, self.centroids.as_slice());
        put_words(&mut out, self.codebooks.as_slice());
        let ghost front = out@;
        assert(front =~= v.header_bytes() + v.table_bytes());
        let first: u128 = 48 + (opq_len as u128 + self.centroids.len() as u128
            + self.codebooks.len() as u128) * 4 + self.nlist as u128 * 12;
        assert(first == v.lists_off());
        let mut off: u64 = if first <= u64::MAX as u128 {
            first as u64
        } else {
            u64::MAX
        };
        let mut c: usize = 0;
        assert(front + v.dir_bytes(0) =~= front);
        while c < self.nlist
            invariant
                c <= self.nlist,
                v == self@,
                v.wf(),
                out@ == front + v.dir_bytes(c as nat),
                off == held((v.lists_off() + v.lists_len(c as nat)) as int),
            decreases self.nlist - c,
        {
            assert(v.list_ids[c as int] == self.list_ids@[c as int]@);
            assert(v.list_codes[c as int] == self.list_codes@[c as int]@);
            let count: u64 = self.list_ids[c].len() as u64 % 0x1_0000_0000;
            put_u64(&mut out, off);
            put_u32(&mut out, count as u32);
            proof {
                assert(out@ =~= front + v.dir_bytes((c + 1) as nat));
            }
            let step: u128 = self.list_ids[c].len() as u128 * 4 + self.list_codes[c].len() as u128;
            off = if step <= u64::MAX as u128 {
                off.saturating_add(step as u64)
            } else {
                u64::MAX
            };
            c += 1;
        }
        let ghost dir = out@;
        let mut j: usize = 0;
        assert(dir + v.list_bytes(0) =~= dir);
        while j < self.nlist
            invariant
                j <= self.nlist,
                v == self@,
                v.wf(),
                out@ == dir + v.list_bytes(j as nat),
            decreases self.nlist - j,
        {
            assert(v.list_ids[j as int] == self.list_ids@[j as int]@);
            assert(v.list_codes[j as int] == self.list_codes@[j as int]@);
            put_words(&mut out, self.list_ids[j].as_slice());
            put_bytes(&mut out, self.list_codes[j].as_slice());
            assert(out@ =~= dir + v.list_bytes((j + 1) as nat));
            j += 1;
        }
        out
    }

    /// Serializes the index to an in-memory byte vector.
    pub fn to_bytes(&self) -> (out: Vec<u8>)
        ensures
            out@ == self@.file(),
    {
        self.write()
    }
}

/// Whether the bits are of a NaN: the exponent is all ones and the mantissa is not zero.
pub open spec fn is_nan(bits: u32) -> bool {
    bits % 0x8000_0000 > 0x7f80_0000
}

/// The bf16 that the float with the given bits rounds to: its high 16 bits, rounded to nearest
/// with ties to even. A NaN stays a (quiet) NaN.
pub open spec fn rounded(bits: u32) -> u16 {
    let high = bits / 0x1_0000;
    let low = bits % 0x1_0000;
    if is_nan(bits) {
        (high as u16) | 0x40u16
    } else if low > 0x8000 || (low == 0x8000 && high % 2 == 1) {
        ((high + 1) % 0x1_0000) as u16
    } else {
        high as u16
    }
}

/// Rounds a float, given by its bits, to bf16 with round-to-nearest-even.
pub fn f32_to_bf16(bits: u32) -> (b: u16)
    ensures
        b == rounded(bits),
{
    let high: u32 = bits / 0x1_0000;
    if bits % 0x8000_0000 > 0x7f80_0000 {
        return (high as u16) | 0x40u16;
    }
    let low: u32 = bits % 0x1_0000;
    if low > 0x8000 || (low == 0x8000 && high % 2 == 1) {
        ((high + 1) % 0x1_0000) as u16
    } else {
        high as u16
    }
}

/// The bf16 bytes of the vector `xs`.
pub open spec fn bf16_bytes(xs: Seq<u32>) -> Seq<u8>
    decreases xs.len(),
{
    if xs.len() == 0 {
        Seq::empty()
    } else {
        bf16_bytes(xs.drop_last()) + le16(rounded(xs.last()))
    }
}

/// The bf16 bytes of the vectors `vs`, end to end.
pub open spec fn vector_bytes(vs: Seq<Vec<u32>>) -> Seq<u8>
    decreases vs.len(),
{
    if vs.len() == 0 {
        Seq::empty()
    } else {
        vector_bytes(vs.drop_last()) + bf16_bytes(vs.last()@)
    }
}

/// The header of a re-rank sidecar.
pub open spec fn rerank_header(dim: usize, n: nat) -> Seq<u8> {
    rerank_magic() + le16(1) + seq![RERANK_BF16, 0u8] + le32(word32(dim as nat)) + le64(n as u64)
}

/// Writes the re-rank sidecar: a header, then a dense bf16 array of `vectors` keyed by doc ID.
/// Every vector must have length `dim`. For an inner-product index the caller hands in
/// normalized vectors.
pub fn write_rerank(dim: usize, vectors: &[Vec<u32>]) -> (r: Result<Vec<u8>, VectorBuildError>)
    ensures
        match r {
            Ok(out) => (forall|i: int|
                0 <= i < vectors@.len() ==> (#[trigger] vectors@[i])@.len() == dim) && out@
                == rerank_header(dim, vectors@.len()) + vector_bytes(vectors@),
            Err(e) => e == VectorBuildError::DimMismatch && exists|i: int|
                0 <= i < vectors@.len() && (#[trigger] vectors@[i])@.len() != dim,
        },
{
    let mut out: Vec<u8> = Vec::new();
    out.push(0x52);
    out.push(0x52);
    out.push(0x56);
    out.push(0x52);
    assert(out@ =~= rerank_magic());
    put_u16(&mut out, 1);
    out.push(RERANK_BF16);
    out.push(0);
    let word: u64 = dim as u64 % 0x1_0000_0000;
    put_u32(&mut out, word as u32);
    put_u64(&mut out, vectors.len() as u64);
    let ghost front = out@;
    assert(front =~= rerank_header(dim, vectors@.len()));
    let mut i: usize = 0;
    assert(front + vector_bytes(vectors@.take(0)) =~= front);
    while i < vectors.len()
        invariant
            i <= vectors@.len(),
            out@ == front + vector_bytes(vectors@.take(i as int)),
            forall|j: int| 0 <= j < i ==> (#[trigger] vectors@[j])@.len() == dim,
        decreases vectors@.len() - i,
    {
        let v = &vectors[i];
        if v.len() != dim {
            assert(vectors@[i as int]@.len() != dim);
            return Err(VectorBuildError::DimMismatch);
        }
        let ghost before = out@;
        let mut j: usize = 0;
        assert(before + bf16_bytes(v@.take(0)) =~= before);
        while j < v.len()
            invariant
                j <= v@.len(),
                out@ == before + bf16_bytes(v@.take(j as int)),
            decreases v@.len() - j,
        {
            put_u16(&mut out, f32_to_bf16(v[j]));
            proof {
                assert(v@.take(j + 1).drop_last() =~= v@.take(j as int));
                assert(out@ =~= before + bf16_bytes(v@.take(j + 1)));
            }
            j += 1;
        }
        proof {
            assert(v@.take(j as int) =~= v@);
            assert(vectors@.take(i + 1).drop_last() =~= vectors@.take(i as int));
            assert(out@ =~= front + vector_bytes(vectors@.take(i + 1)));
        }
        i += 1;
    }
    assert(vectors@.take(i as int) =~= vectors@);
    Ok(out)
}

/// The next state of the generator.
pub open spec fn rng_step(x: u64) -> u64 {
    let a = x ^ (x >> 12u64);
    let b = a ^ (a << 25u64);
    b ^ (b >> 27u64)
}

/// The output of the generator in the state `x`.
pub open spec fn rng_output(x: u64) -> u64 {
    (x * 0x2545_F491_4F6C_DD1D % 0x1_0000_0000_0000_0000) as u64
}

/// A tiny deterministic generator (xorshift64*), so that a build is reproducible.
#[derive(Debug)]
pub struct Rng {
    /// The state.
    pub state: u64,
}

impl Rng {
    /// Starts from `seed`; zero, which the generator never leaves, is replaced.
    pub fn new(seed: u64) -> (r: Rng)
        ensures
            r.state == (if seed == 0 {
                0x9E37_79B9_7F4A_7C15u64
            } else {
                seed
            }),
    {
        Rng {
            state: if seed == 0 {
                0x9E37_79B9_7F4A_7C15
            } else {
                seed
            },
        }
    }

    /// The next number.
    pub fn next_u64(&mut self) -> (x: u64)
        ensures
            final(self).state == rng_step(old(self).state),
            x == rng_output(final(self).state),
    {
        let x: u64 = self.state;
        let a: u64 = x ^ (x >> 12u64);
        let b: u64 = a ^ (a << 25u64);
        let c: u64 = b ^ (b >> 27u64);
        self.state = c;
        c.wrapping_mul(0x2545_F491_4F6C_DD1D)
    }

    /// A pseudo-random index in `0..n`.
    pub fn next_usize(&mut self, n: usize) -> (i: usize)
        requires
            n > 0,
        ensures
            final(self).state == rng_step(old(self).state),
            i == rng_output(final(self).state) as int % n as int,
            i < n,
    {
        (self.next_u64() % n as u64) as usize
    }
}

proof fn lemma_words_len(xs: Seq<u32>)
    ensures
        words(xs).len() == 4 * xs.len(),
    decreases xs.len(),
{
    if xs.len() > 0 {
        lemma_words_len(xs.drop_last());
    }
}

proof fn lemma_words_at(xs: Seq<u32>, i: int)
    requires
        0 <= i < xs.len(),
    ensures
        words(xs).len() == 4 * xs.len(),
        words(xs).subrange(4 * i, 4 * i + 4) == le32(xs[i]),
    decreases xs.len(),
{
    lemma_words_len(xs);
    lemma_words_len(xs.drop_last());
    if i < xs.len() - 1 {
        lemma_words_at(xs.drop_last(), i);
        assert(words(xs).subrange(4 * i, 4 * i + 4) =~= words(xs.drop_last()).subrange(
            4 * i,
            4 * i + 4,
        ));
    } else {
        assert(words(xs).subrange(4 * i, 4 * i + 4) =~= le32(xs[i]));
    }
}

/// Floats written at an offset are read back.
proof fn lemma_floats_read(b: Seq<u8>, off: int, xs: Seq<u32>)
    requires
        0 <= off,
        off + 4 * xs.len() <= b.len(),
        b.subrange(off, off + 4 * xs.len()) == words(xs),
    ensures
        floats_at(b, off, xs.len()) == xs,
{
    assert forall|i: int| 0 <= i < xs.len() implies bytes::u32_at(b, off + 4 * i) == xs[i] by {
        lemma_words_at(xs, i);
        assert(b.subrange(off + 4 * i, off + 4 * i + 4) =~= words(xs).subrange(4 * i, 4 * i + 4));
        bytes::lemma_u32_at(b, off + 4 * i, xs[i]);
    }
    assert(floats_at(b, off, xs.len()) =~= xs);
}

/// Whether the index fits its header's fields.
pub open spec fn fits_header(v: IvfpqView) -> bool {
    &&& v.wf()
    &&& v.dim <= u32::MAX
    &&& v.nlist <= u32::MAX
    &&& v.m <= u32::MAX
    &&& forall|c: int| 0 <= c < v.nlist ==> (#[trigger] v.list_ids[c]).len() <= u32::MAX
}

/// The header that a reader finds.
pub open spec fn header_fields(v: IvfpqView) -> VectorHeader {
    VectorHeader {
        metric: v.metric.code(),
        flags: if v.opq is Some {
            FLAG_OPQ
        } else {
            0
        },
        dim: v.dim as u32,
        nlist: v.nlist as u32,
        m: v.m as u32,
        nbits: v.nbits,
        n: v.n,
    }
}

proof fn lemma_header_pieces(v: IvfpqView)
    ensures
        ({
            let h = v.header_bytes();
            &&& h.len() == 48
            &&& h.take(4) == magic()
            &&& h.subrange(4, 6) == le16(VERSION)
            &&& h[6] == v.metric.code()
            &&& h[7] == (if v.opq is Some {
                FLAG_OPQ
            } else {
                0u8
            })
            &&& h.subrange(8, 12) == le32(word32(v.dim as nat))
            &&& h.subrange(12, 16) == le32(word32(v.nlist as nat))
            &&& h.subrange(16, 20) == le32(word32(v.m as nat))
            &&& h[20] == v.nbits
            &&& h.subrange(24, 32) == le64(v.n)
        }),
{
    let h = v.header_bytes();
    assert(h.take(4) =~= magic());
    assert(h.subrange(4, 6) =~= le16(VERSION));
    assert(h.subrange(8, 12) =~= le32(word32(v.dim as nat)));
    assert(h.subrange(12, 16) =~= le32(word32(v.nlist as nat)));
    assert(h.subrange(16, 20) =~= le32(word32(v.m as nat)));
    assert(h.subrange(24, 32) =~= le64(v.n));
}

proof fn lemma_boot_len(v: IvfpqView)
    requires
        fits_header(v),
    ensures
        boot_bytes(header_fields(v)) + 48 == v.lists_off(),
        crate::vector::opq_floats(header_fields(v)) == (match v.opq {
            Some(r) => r.len(),
            None => 0,
        }),
        crate::vector::centroid_floats(header_fields(v)) == v.centroids.len(),
        codebook_floats(header_fields(v)) == v.codebooks.len(),
{
    reveal(IvfpqView::lists_off);
}

/// Reading a header gives back what was written.
pub proof fn law_vector_header(v: IvfpqView)
    requires
        fits_header(v),
    ensures
        v.header_bytes().len() == HEADER_SIZE,
        header_of(v.header_bytes()) == Ok::<VectorHeader, crate::error::IndexError>(
            header_fields(v),
        ),
        boot_bytes(header_fields(v)) + 48 == v.lists_off(),
{
    lemma_boot_len(v);
    lemma_header_pieces(v);
    lemma_shape(v);
    lemma_header_read(v.header_bytes(), header_fields(v));
}

proof fn lemma_shape(v: IvfpqView)
    requires
        fits_header(v),
    ensures
        crate::vector::header_ok(header_fields(v)),
        word32(v.dim as nat) == header_fields(v).dim,
        word32(v.nlist as nat) == header_fields(v).nlist,
        word32(v.m as nat) == header_fields(v).m,
{
}

proof fn lemma_header_read(h: Seq<u8>, f: VectorHeader)
    requires
        crate::vector::header_ok(f),
        h.len() == 48,
        h.take(4) == magic(),
        h.subrange(4, 6) == le16(VERSION),
        h[6] == f.metric,
        h[7] == f.flags,
        h.subrange(8, 12) == le32(f.dim),
        h.subrange(12, 16) == le32(f.nlist),
        h.subrange(16, 20) == le32(f.m),
        h[20] == f.nbits,
        h.subrange(24, 32) == le64(f.n),
    ensures
        header_of(h) == Ok::<VectorHeader, crate::error::IndexError>(f),
{
    bytes::lemma_u16_at(h, 4, VERSION);
    bytes::lemma_u32_at(h, 8, f.dim);
    bytes::lemma_u32_at(h, 12, f.nlist);
    bytes::lemma_u32_at(h, 16, f.m);
    bytes::lemma_u64_at(h, 24, f.n);
}

proof fn lemma_dir_len(v: IvfpqView, n: nat)
    ensures
        v.dir_bytes(n).len() == 12 * n,
    decreases n,
{
    if n > 0 {
        lemma_dir_len(v, (n - 1) as nat);
    }
}

proof fn lemma_dir_at(v: IvfpqView, n: nat, j: int)
    requires
        0 <= j < n,
    ensures
        v.dir_bytes(n).len() == 12 * n,
        v.dir_bytes(n).subrange(12 * j, 12 * j + 8) == le64(
            held((v.lists_off() + v.lists_len(j as nat)) as int),
        ),
        v.dir_bytes(n).subrange(12 * j + 8, 12 * j + 12) == le32(word32(v.list_ids[j].len())),
    decreases n,
{
    lemma_dir_len(v, n);
    lemma_dir_len(v, (n - 1) as nat);
    let d = v.dir_bytes(n);
    if j < n - 1 {
        lemma_dir_at(v, (n - 1) as nat, j);
        let e = v.dir_bytes((n - 1) as nat);
        assert(d.subrange(12 * j, 12 * j + 8) =~= e.subrange(12 * j, 12 * j + 8));
        assert(d.subrange(12 * j + 8, 12 * j + 12) =~= e.subrange(12 * j + 8, 12 * j + 12));
    } else {
        assert(d.subrange(12 * j, 12 * j + 8) =~= le64(
            held((v.lists_off() + v.lists_len(j as nat)) as int),
        ));
        assert(d.subrange(12 * j + 8, 12 * j + 12) =~= le32(word32(v.list_ids[j].len())));
    }
}

proof fn lemma_lists_bytes_len(v: IvfpqView, n: nat)
    ensures
        v.list_bytes(n).len() == v.lists_len(n),
    decreases n,
{
    if n > 0 {
        lemma_lists_bytes_len(v, (n - 1) as nat);
        lemma_words_len(v.list_ids[n - 1]);
    }
}

proof fn lemma_list_at(v: IvfpqView, n: nat, j: int)
    requires
        0 <= j < n,
    ensures
        v.list_bytes(n).len() == v.lists_len(n),
        v.lists_len(j as nat) + v.list_len(j) <= v.lists_len(n),
        v.list_bytes(n).subrange(
            v.lists_len(j as nat) as int,
            (v.lists_len(j as nat) + v.list_len(j)) as int,
        ) == words(v.list_ids[j]) + v.list_codes[j],
    decreases n,
{
    lemma_lists_bytes_len(v, n);
    lemma_lists_bytes_len(v, (n - 1) as nat);
    lemma_words_len(v.list_ids[j]);
    let a = v.lists_len(j as nat) as int;
    let b = a + v.list_len(j);
    if j < n - 1 {
        lemma_list_at(v, (n - 1) as nat, j);
        assert(v.list_bytes(n).subrange(a, b) =~= v.list_bytes((n - 1) as nat).subrange(a, b));
    } else {
        assert(v.list_bytes(n).subrange(a, b) =~= words(v.list_ids[j]) + v.list_codes[j]);
    }
}

proof fn lemma_table_len(v: IvfpqView)
    requires
        v.wf(),
    ensures
        48 + v.table_bytes().len() + 12 * v.nlist == v.lists_off(),
{
    reveal(IvfpqView::lists_off);
    lemma_words_len(v.centroids);
    lemma_words_len(v.codebooks);
    if let Some(r) = v.opq {
        lemma_words_len(r);
    }
}

/// The region of the file behind the header that the boot reads.
#[verifier::opaque]
pub open spec fn boot_region(v: IvfpqView) -> Seq<u8> {
    v.file().subrange(48, v.lists_off() as int)
}

proof fn lemma_boot_region(v: IvfpqView)
    requires
        v.wf(),
    ensures
        48 <= v.lists_off() <= v.file().len(),
        v.file().take(48) == v.header_bytes(),
        boot_region(v).len() == v.lists_off() - 48,
        boot_region(v) == v.table_bytes() + v.dir_bytes(v.nlist as nat),
        v.file().subrange(v.lists_off() as int, v.file().len() as int) == v.list_bytes(
            v.nlist as nat,
        ),
{
    reveal(IvfpqView::file);
    reveal(boot_region);
    lemma_header_pieces(v);
    lemma_table_len(v);
    lemma_dir_len(v, v.nlist as nat);
    assert(v.file().take(48) =~= v.header_bytes());
    assert(boot_region(v) =~= v.table_bytes() + v.dir_bytes(v.nlist as nat));
    assert(v.file().subrange(v.lists_off() as int, v.file().len() as int) =~= v.list_bytes(
        v.nlist as nat,
    ));
}

proof fn lemma_tables_read(v: IvfpqView)
    requires
        fits_header(v),
    ensures
        ({
            let w = VectorsView::of(header_fields(v), boot_region(v));
            &&& w.opq == v.opq
            &&& w.centroids == v.centroids
            &&& w.codebooks == v.codebooks
        }),
{
    let b = boot_region(v);
    lemma_boot_region(v);
    lemma_boot_len(v);
    let r = match v.opq {
        Some(r) => r,
        None => Seq::empty(),
    };
    let d = v.dir_bytes(v.nlist as nat);
    assert(v.table_bytes() =~= words(r) + words(v.centroids) + words(v.codebooks));
    lemma_tables_split(b, r, v.centroids, v.codebooks, d);
}

proof fn lemma_tables_split(
    b: Seq<u8>,
    r: Seq<u32>,
    c: Seq<u32>,
    k: Seq<u32>,
    d: Seq<u8>,
)
    requires
        b == words(r) + words(c) + words(k) + d,
    ensures
        floats_at(b, 0, r.len()) == r,
        floats_at(b, (r.len() * 4) as int, c.len()) == c,
        floats_at(b, ((r.len() + c.len()) * 4) as int, k.len()) == k,
{
    lemma_words_len(r);
    lemma_words_len(c);
    lemma_words_len(k);
    let x = 4 * r.len() as int;
    let y = x + 4 * c.len();
    let z = y + 4 * k.len();
    assert(b.subrange(0, x) =~= words(r));
    assert(b.subrange(x, y) =~= words(c));
    assert(b.subrange(y, z) =~= words(k));
    lemma_floats_read(b, 0, r);
    lemma_floats_read(b, x, c);
    lemma_floats_read(b, y, k);
}

proof fn lemma_dir_read(v: IvfpqView, j: int)
    requires
        fits_header(v),
        0 <= j < v.nlist,
    ensures
        ({
            let w = VectorsView::of(header_fields(v), boot_region(v));
            &&& w.dir_offsets[j] == held((v.lists_off() + v.lists_len(j as nat)) as int)
            &&& w.dir_counts[j] == v.list_ids[j].len()
        }),
{
    let f = header_fields(v);
    let t = v.table_bytes();
    let d = v.dir_bytes(v.nlist as nat);
    let off = held((v.lists_off() + v.lists_len(j as nat)) as int);
    let count = word32(v.list_ids[j].len());
    assert(boot_region(v) == t + d) by {
        lemma_boot_region(v);
    }
    assert(f.nlist == v.nlist);
    assert(count == v.list_ids[j].len());
    lemma_tables_len(v);
    lemma_dir_at(v, v.nlist as nat, j);
    lemma_dir_of(f, t, d, j, off, count);
}

proof fn lemma_dir_of(f: VectorHeader, t: Seq<u8>, d: Seq<u8>, j: int, off: u64, count: u32)
    requires
        t.len() == (crate::vector::opq_floats(f) + crate::vector::centroid_floats(f)
            + codebook_floats(f)) * 4,
        0 <= j < f.nlist,
        12 * j + 12 <= d.len(),
        d.subrange(12 * j, 12 * j + 8) == le64(off),
        d.subrange(12 * j + 8, 12 * j + 12) == le32(count),
    ensures
        VectorsView::of(f, t + d).dir_offsets[j] == off,
        VectorsView::of(f, t + d).dir_counts[j] == count,
{
    lemma_dir_entry(t, d, j, off, count);
}

proof fn lemma_tables_len(v: IvfpqView)
    requires
        fits_header(v),
    ensures
        v.table_bytes().len() == (crate::vector::opq_floats(header_fields(v))
            + crate::vector::centroid_floats(header_fields(v)) + codebook_floats(header_fields(v)))
            * 4,
{
    lemma_boot_len(v);
    lemma_words_len(v.centroids);
    lemma_words_len(v.codebooks);
    if let Some(r) = v.opq {
        lemma_words_len(r);
    }
}

proof fn lemma_dir_entry(t: Seq<u8>, d: Seq<u8>, j: int, off: u64, count: u32)
    requires
        0 <= j,
        12 * j + 12 <= d.len(),
        d.subrange(12 * j, 12 * j + 8) == le64(off),
        d.subrange(12 * j + 8, 12 * j + 12) == le32(count),
    ensures
        bytes::u64_at(t + d, t.len() + j * 12) == off,
        bytes::u32_at(t + d, t.len() + j * 12 + 8) == count,
{
    let b = t + d;
    let dir = t.len() as int;
    assert(b.subrange(dir + j * 12, dir + j * 12 + 8) =~= d.subrange(12 * j, 12 * j + 8));
    bytes::lemma_u64_at(b, dir + j * 12, off);
    assert(b.subrange(dir + j * 12 + 8, dir + j * 12 + 12) =~= d.subrange(12 * j + 8, 12 * j + 12));
    bytes::lemma_u32_at(b, dir + j * 12 + 8, count);
}

/// A cluster's list is read back from its place in the file.
proof fn lemma_block_read(file: Seq<u8>, start: int, lists: Seq<u8>, a: int, ids: Seq<u32>, codes: Seq<u8>)
    requires
        0 <= start <= file.len(),
        file.subrange(start, file.len() as int) == lists,
        0 <= a,
        a + 4 * ids.len() + codes.len() <= lists.len(),
        lists.subrange(a, a + 4 * ids.len() + codes.len()) == words(ids) + codes,
    ensures
        ({
            let off = start + a;
            let block = file.subrange(off, off + 4 * ids.len() + codes.len());
            &&& off + 4 * ids.len() + codes.len() <= file.len()
            &&& floats_at(block, 0, ids.len()) == ids
            &&& block.skip(4 * ids.len() as int) == codes
        }),
{
    lemma_words_len(ids);
    let off = start + a;
    let len = 4 * ids.len() + codes.len();
    let block = file.subrange(off, off + len);
    assert(block =~= lists.subrange(a, a + len));
    assert(block.subrange(0, 4 * ids.len() as int) =~= words(ids));
    lemma_floats_read(block, 0, ids);
    assert(block.skip(4 * ids.len() as int) =~= codes);
}

/// The reader gets back the header and the tables at boot.
pub proof fn law_vector_boot(v: IvfpqView)
    requires
        fits_header(v),
        v.file().len() <= u64::MAX,
    ensures
        ({
            let w = VectorsView::of(header_fields(v), boot_region(v));
            &&& header_of(v.file().take(48)) == Ok::<VectorHeader, crate::error::IndexError>(
                header_fields(v),
            )
            &&& boot_region(v).len() == boot_bytes(header_fields(v))
            &&& w.opq == v.opq
            &&& w.centroids == v.centroids
            &&& w.codebooks == v.codebooks
        }),
{
    law_vector_header(v);
    lemma_boot_region(v);
    lemma_tables_read(v);
}

/// The place and the size of a cluster's list, as the directory gives them.
proof fn lemma_list_place(v: IvfpqView, j: int)
    requires
        fits_header(v),
        v.file().len() <= u64::MAX,
        0 <= j < v.nlist,
    ensures
        ({
            let w = VectorsView::of(header_fields(v), boot_region(v));
            let (ids, codes) = (v.list_ids[j], v.list_codes[j]);
            let a = v.lists_len(j as nat) as int;
            let lists = v.list_bytes(v.nlist as nat);
            &&& a + 4 * ids.len() + codes.len() <= lists.len()
            &&& lists.subrange(a, a + 4 * ids.len() + codes.len()) == words(ids) + codes
            &&& w.dir_offsets[j] == v.lists_off() + a
            &&& w.dir_counts[j] == ids.len()
            &&& w.list_bytes(j) == 4 * ids.len() + codes.len()
        }),
{
    lemma_boot_region(v);
    lemma_dir_read(v, j);
    lemma_list_at(v, v.nlist as nat, j);
    let n = v.list_ids[j].len() as int;
    let m = v.m as int;
    assert(n * (4 + m) == n * 4 + n * m) by (nonlinear_arith);
}

/// The reader gets back each cluster's IDs and codes in one ranged read at the place that the
/// directory says.
pub proof fn law_vector_list(v: IvfpqView, j: int)
    requires
        fits_header(v),
        v.file().len() <= u64::MAX,
        0 <= j < v.nlist,
    ensures
        ({
            let w = VectorsView::of(header_fields(v), boot_region(v));
            let off = w.dir_offsets[j] as int;
            let block = v.file().subrange(off, off + w.list_bytes(j));
            &&& w.dir_counts[j] == v.list_ids[j].len()
            &&& off + w.list_bytes(j) <= v.file().len()
            &&& floats_at(block, 0, w.dir_counts[j] as nat) == v.list_ids[j]
            &&& block.skip(w.dir_counts[j] * 4) == v.list_codes[j]
        }),
{
    lemma_boot_region(v);
    lemma_list_place(v, j);
    lemma_block_read(
        v.file(),
        v.lists_off() as int,
        v.list_bytes(v.nlist as nat),
        v.lists_len(j as nat) as int,
        v.list_ids[j],
        v.list_codes[j],
    );
}

/// The reader gets back what was written: the tables at boot, and each cluster's IDs and codes
/// in one ranged read at the place that the directory says.
#[verifier::spinoff_prover]
pub proof fn law_vector_roundtrip(v: IvfpqView, j: int)
    requires
        fits_header(v),
        v.file().len() <= u64::MAX,
        0 <= j < v.nlist,
    ensures
        ({
            let w = VectorsView::of(header_fields(v), boot_region(v));
            let off = w.dir_offsets[j] as int;
            let block = v.file().subrange(off, off + w.list_bytes(j));
            &&& header_of(v.file().take(48)) == Ok::<VectorHeader, crate::error::IndexError>(
                header_fields(v),
            )
            &&& boot_region(v).len() == boot_bytes(header_fields(v))
            &&& w.opq == v.opq
            &&& w.centroids == v.centroids
            &&& w.codebooks == v.codebooks
            &&& w.dir_counts[j] == v.list_ids[j].len()
            &&& off + w.list_bytes(j) <= v.file().len()
            &&& floats_at(block, 0, w.dir_counts[j] as nat) == v.list_ids[j]
            &&& block.skip(w.dir_counts[j] * 4) == v.list_codes[j]
        }),
{
    law_vector_boot(v);
    law_vector_list(v, j);
}

/// Rounding to bf16 and widening again gives back every float that bf16 can hold.
pub proof fn law_bf16_exact(b: u16)
    requires
        !is_nan(crate::vector::widened(b)),
    ensures
        rounded(crate::vector::widened(b)) == b,
{
}

proof fn lemma_bf16_len(xs: Seq<u32>)
    ensures
        bf16_bytes(xs).len() == 2 * xs.len(),
    decreases xs.len(),
{
    if xs.len() > 0 {
        lemma_bf16_len(xs.drop_last());
    }
}

proof fn lemma_bf16_at(xs: Seq<u32>, i: int)
    requires
        0 <= i < xs.len(),
    ensures
        bf16_bytes(xs).subrange(2 * i, 2 * i + 2) == le16(rounded(xs[i])),
    decreases xs.len(),
{
    lemma_bf16_len(xs);
    lemma_bf16_len(xs.drop_last());
    if i < xs.len() - 1 {
        lemma_bf16_at(xs.drop_last(), i);
        assert(bf16_bytes(xs).subrange(2 * i, 2 * i + 2) =~= bf16_bytes(xs.drop_last()).subrange(
            2 * i,
            2 * i + 2,
        ));
    } else {
        assert(bf16_bytes(xs).subrange(2 * i, 2 * i + 2) =~= le16(rounded(xs[i])));
    }
}

proof fn lemma_vectors_at(vs: Seq<Vec<u32>>, dim: nat, id: int)
    requires
        0 <= id < vs.len(),
        forall|i: int| 0 <= i < vs.len() ==> (#[trigger] vs[i])@.len() == dim,
    ensures
        vector_bytes(vs).len() == vs.len() * (dim * 2),
        0 <= id * (dim * 2),
        id * (dim * 2) + dim * 2 <= vs.len() * (dim * 2),
        vector_bytes(vs).subrange(id * (dim * 2), id * (dim * 2) + dim * 2) == bf16_bytes(vs[id]@),
    decreases vs.len(),
{
    let n = vs.len() as int;
    let w = (dim * 2) as int;
    let front = vs.drop_last();
    lemma_row(id, n, w);
    lemma_row(n - 1, n, w);
    lemma_bf16_len(vs.last()@);
    assert(vs[n - 1]@.len() == dim);
    assert forall|i: int| 0 <= i < front.len() implies (#[trigger] front[i])@.len() == dim by {
        assert(front[i] == vs[i]);
    }
    if n > 1 {
        lemma_vectors_at(
            front,
            dim,
            if id < n - 1 {
                id
            } else {
                0
            },
        );
    } else {
        assert(vector_bytes(front).len() == 0);
        assert(0 * w == 0) by (nonlinear_arith);
    }
    let b = vector_bytes(vs);
    if id < n - 1 {
        lemma_row(id, n - 1, w);
        assert(b.subrange(id * w, id * w + w) =~= vector_bytes(front).subrange(
            id * w,
            id * w + w,
        ));
    } else {
        assert(b.subrange(id * w, id * w + w) =~= bf16_bytes(vs[id]@));
    }
}

proof fn lemma_rerank_header(dim: usize, n: nat)
    requires
        0 < dim <= u32::MAX,
        n <= u64::MAX,
    ensures
        rerank_header(dim, n).len() == 20,
        rerank_header_of(rerank_header(dim, n)) == Ok::<(u32, u64), crate::error::IndexError>(
            (dim as u32, n as u64),
        ),
{
    let h = rerank_header(dim, n);
    assert(h.take(4) =~= rerank_magic());
    assert(h.subrange(4, 6) =~= le16(1));
    assert(h.subrange(8, 12) =~= le32(dim as u32));
    assert(h.subrange(12, 20) =~= le64(n as u64));
    bytes::lemma_u16_at(h, 4, 1);
    bytes::lemma_u32_at(h, 8, dim as u32);
    bytes::lemma_u64_at(h, 12, n as u64);
}

/// The re-rank sidecar gives back each doc's vector, rounded to bf16, in one ranged read.
pub proof fn law_rerank_roundtrip(dim: usize, vs: Seq<Vec<u32>>, id: u32)
    requires
        0 < dim <= u32::MAX,
        id < vs.len() <= u64::MAX,
        forall|i: int| 0 <= i < vs.len() ==> (#[trigger] vs[i])@.len() == dim,
    ensures
        ({
            let file = rerank_header(dim, vs.len()) + vector_bytes(vs);
            let store = crate::vector::RerankStore {
                dim: dim as u32,
                n: vs.len() as u64,
                precision: RERANK_BF16,
            };
            let off = store.vector_offset(id) as int;
            let raw = file.subrange(off, off + dim * 2);
            &&& rerank_header_of(file.take(20)) == Ok::<(u32, u64), crate::error::IndexError>(
                (store.dim, store.n),
            )
            &&& file.take(20)[6] == store.precision
            &&& off + dim * 2 <= file.len()
            &&& forall|i: int|
                0 <= i < dim ==> #[trigger] bytes::u16_at(raw, i * 2) == rounded(vs[id as int]@[i])
        }),
{
    let h = rerank_header(dim, vs.len());
    let b = vector_bytes(vs);
    let file = h + b;
    let w = dim * 2;
    lemma_rerank_header(dim, vs.len());
    lemma_vectors_at(vs, dim as nat, id as int);
    assert(file.take(20) =~= h);
    let off = 20 + id * w;
    let raw = file.subrange(off, off + w);
    let xs = vs[id as int]@;
    assert(raw =~= b.subrange(id * w, id * w + w));
    lemma_bf16_len(xs);
    assert forall|i: int| 0 <= i < dim implies #[trigger] bytes::u16_at(raw, i * 2) == rounded(
        xs[i],
    ) by {
        lemma_bf16_at(xs, i);
        assert(raw.subrange(i * 2, i * 2 + 2) =~= bf16_bytes(xs).subrange(2 * i, 2 * i + 2));
        bytes::lemma_u16_at(raw, i * 2, rounded(xs[i]));
    }
}

/// A shape is accepted exactly where the vectors split evenly into subspaces, a code takes one
/// to eight bits, and there is a cluster.
pub proof fn law_shape_accepted(dim: usize, nlist: usize, m: usize, nbits: u8)
    ensures
        shape_error(dim, nlist, m, nbits) is None <==> dim > 0 && m > 0 && dim % m == 0 && 1
            <= nbits <= 8 && nlist > 0,
{
}

/// Parts are accepted exactly where their shape is, every table has its size, every vector is
/// assigned to a cluster and every code picks a codebook entry.
pub proof fn law_parts_accepted(p: IvfpqParts)
    ensures
        parts_error(p) is None <==> {
            &&& p.dim > 0 && p.m > 0 && p.dim % p.m == 0 && 1 <= p.nbits <= 8 && p.nlist > 0
            &&& p.centroids@.len() == p.nlist * p.dim
            &&& p.codebooks@.len() == p.dim * vstd::arithmetic::power2::pow2(p.nbits as nat)
            &&& p.opq matches Some(r) ==> r@.len() == p.dim * p.dim
            &&& p.assignments@.len() == p.ids@.len()
            &&& p.codes@.len() == p.ids@.len() * p.m
            &&& forall|i: int| 0 <= i < p.assignments@.len() ==> #[trigger] p.assignments@[i] < p.nlist
            &&& forall|i: int|
                0 <= i < p.codes@.len() ==> (#[trigger] p.codes@[i]) < vstd::arithmetic::power2::pow2(
                    p.nbits as nat,
                )
        },
{
    if 1 <= p.nbits <= 8 {
        crate::vector::law_entries_per_subspace(p.nbits);
    }
}

/// How many of the first `i` vectors are assigned to cluster `c`.
pub open spec fn in_cluster(assignments: Seq<u32>, c: int, i: int) -> nat {
    assignments.take(i).filter(|a: u32| a == c).len()
}

proof fn lemma_in_cluster(assignments: Seq<u32>, c: int, i: int)
    requires
        0 < i <= assignments.len(),
    ensures
        in_cluster(assignments, c, i) == in_cluster(assignments, c, i - 1) + (if assignments[i - 1]
            == c {
            1int
        } else {
            0
        }),
{
    reveal(Seq::filter);
    assert(assignments.take(i).drop_last() =~= assignments.take(i - 1));
}

/// A cluster's list holds exactly the vectors that are assigned to it, in their order: as many
/// IDs and codes as there are such vectors, and each one's ID and code behind those of the
/// vectors of the same cluster before it.
pub proof fn law_cluster_lists(
    ids: Seq<u32>,
    codes: Seq<u8>,
    m: nat,
    assignments: Seq<u32>,
    c: int,
    n: nat,
)
    requires
        n <= assignments.len(),
        n <= ids.len(),
        n * m <= codes.len(),
    ensures
        ids_in(ids, assignments, c, n).len() == in_cluster(assignments, c, n as int),
        codes_in(codes, m, assignments, c, n).len() == in_cluster(assignments, c, n as int) * m,
        forall|i: int|
            0 <= i < n && #[trigger] assignments[i] == c ==> {
                let k = in_cluster(assignments, c, i);
                &&& k < in_cluster(assignments, c, n as int)
                &&& ids_in(ids, assignments, c, n)[k as int] == ids[i]
                &&& codes_in(codes, m, assignments, c, n).subrange((k * m) as int, (k * m + m) as int)
                    == codes.subrange(i * m, i * m + m)
            },
    decreases n,
{
    let (a, b) = (ids_in(ids, assignments, c, n), codes_in(codes, m, assignments, c, n));
    if n == 0 {
        reveal(Seq::filter);
        assert(0 * m == 0) by (nonlinear_arith);
    } else {
        let l = (n - 1) as nat;
        let (fa, fb) = (ids_in(ids, assignments, c, l), codes_in(codes, m, assignments, c, l));
        assert(l * m + m == n * m) by (nonlinear_arith)
            requires
                l == n - 1,
        ;
        law_cluster_lists(ids, codes, m, assignments, c, l);
        lemma_in_cluster(assignments, c, n as int);
        let k = in_cluster(assignments, c, l as int);
        assert((k + 1) * m == k * m + m) by (nonlinear_arith);
        assert forall|i: int| 0 <= i < n && #[trigger] assignments[i] == c implies {
            let q = in_cluster(assignments, c, i);
            &&& q < in_cluster(assignments, c, n as int)
            &&& a[q as int] == ids[i]
            &&& b.subrange((q * m) as int, (q * m + m) as int) == codes.subrange(i * m, i * m + m)
        } by {
            let q = in_cluster(assignments, c, i);
            if i < l {
                assert(q * m + m <= k * m) by (nonlinear_arith)
                    requires
                        q + 1 <= k,
                ;
                assert(b.subrange((q * m) as int, (q * m + m) as int) =~= fb.subrange(
                    (q * m) as int,
                    (q * m + m) as int,
                ));
            } else {
                assert(codes.subrange(i * m, i * m + m).len() == m);
                assert(b.subrange((q * m) as int, (q * m + m) as int) =~= codes.subrange(
                    i * m,
                    i * m + m,
                ));
            }
        }
    }
}

/// A float is rounded to the nearest one that bf16 can hold, and a float half way between two to
/// the even one; a NaN stays a NaN of the same sign.
pub proof fn law_bf16_nearest(bits: u32)
    ensures
        ({
            let w = crate::vector::widened(rounded(bits));
            if is_nan(bits) {
                is_nan(w) && (w < 0x8000_0000 <==> bits < 0x8000_0000)
            } else {
                &&& bits - 0x8000 <= w <= bits + 0x8000
                &&& (w == bits - 0x8000 || w == bits + 0x8000) ==> rounded(bits) % 2 == 0
                &&& w % 0x1_0000 == 0
            }
        }),
{
    let high = bits / 0x1_0000;
    let h = high as u16;
    if is_nan(bits) {
        let r = h | 0x40u16;
        assert(r % 0x8000 >= 0x7f80 && r % 0x8000 != 0x7f80 && (r < 0x8000 <==> h < 0x8000))
            by (bit_vector)
            requires
                r == h | 0x40u16,
                h % 0x8000 >= 0x7f80,
        ;
    }
}

/// The generator never comes to rest: a state that is not zero is followed by one that is not
/// zero, and no state follows two states.
pub proof fn law_generator(x: u64, y: u64)
    ensures
        rng_step(x) == 0 ==> x == 0,
        rng_step(x) == rng_step(y) ==> x == y,
        ({
            let a = x ^ (x / 4096);
            let b = a ^ ((a * 0x200_0000 % 0x1_0000_0000_0000_0000) as u64);
            rng_step(x) == b ^ (b / 0x800_0000)
        }),
{
    let (a, c) = (x ^ (x >> 12u64), y ^ (y >> 12u64));
    let (b, d) = (a ^ (a << 25u64), c ^ (c << 25u64));
    assert(a == c ==> x == y) by (bit_vector)
        requires
            a == x ^ (x >> 12u64),
            c == y ^ (y >> 12u64),
    ;
    assert(b == d ==> a == c) by (bit_vector)
        requires
            b == a ^ (a << 25u64),
            d == c ^ (c << 25u64),
    ;
    assert(b ^ (b >> 27u64) == d ^ (d >> 27u64) ==> b == d) by (bit_vector);
    assert(a == 0 ==> x == 0) by (bit_vector)
        requires
            a == x ^ (x >> 12u64),
    ;
    assert(b == 0 ==> a == 0) by (bit_vector)
        requires
            b == a ^ (a << 25u64),
    ;
    assert(b ^ (b >> 27u64) == 0 ==> b == 0) by (bit_vector);
    assert(x >> 12u64 == x / 4096 && b >> 27u64 == b / 0x800_0000 && a << 25u64 == (a * 0x200_0000
        % 0x1_0000_0000_0000_0000) as u64) by (bit_vector);
}

/// A number of the generator tells the state that it came from.
pub proof fn law_generator_output(x: u64)
    ensures
        rng_output(x) * 0x5907_1d96_d81e_cd35 % 0x1_0000_0000_0000_0000 == x,
{
    crate::bloom::lemma_product_undone(x, 0x2545_F491_4F6C_DD1D, 0x5907_1d96_d81e_cd35);
}

} // verus!
