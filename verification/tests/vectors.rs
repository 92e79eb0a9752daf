use roaringrange::error::IndexError;
use roaringrange::topk::{order_key, pack_candidate, unpack_candidate, TopK};
use roaringrange::vector::{
    bf16_to_f32, boot_len, found, ksub_of, parse_header, rank_scored, rerank_plan, scan, Metric,
    RerankStore, VectorIndex, HEADER_SIZE, METRIC_IP, RRVR_HEADER_SIZE,
};
use roaringrange::vector_build::{
    build_ivfpq_from_parts, check_input, f32_to_bf16, write_rerank, Ivfpq, IvfpqParams, IvfpqParts,
    Rng, VectorBuildError,
};

/// A tiny deterministic generator (xorshift64*) so the synthetic corpora and queries are
/// reproducible.
struct Random(u64);
impl Random {
    fn new(seed: u64) -> Self {
        Random(if seed == 0 {
            0x1234_5678_9abc_def0
        } else {
            seed
        })
    }
    fn next_u64(&mut self) -> u64 {
        let mut x = self.0;
        x ^= x >> 12;
        x ^= x << 25;
        x ^= x >> 27;
        self.0 = x;
        x.wrapping_mul(0x2545_F491_4F6C_DD1D)
    }
    /// Uniform in `[0, 1)`.
    fn unit(&mut self) -> f32 {
        (self.next_u64() >> 40) as f32 / (1u64 << 24) as f32
    }
    /// Standard-normal sample.
    fn gauss(&mut self) -> f32 {
        let u1 = self.unit().max(1e-7);
        let u2 = self.unit();
        (-2.0 * u1.ln()).sqrt() * (std::f32::consts::TAU * u2).cos()
    }
    fn point(&mut self, dim: usize) -> Vec<f32> {
        let v: Vec<f32> = (0..dim).map(|_| self.gauss()).collect();
        normalize(&v)
    }
}

fn normalize(v: &[f32]) -> Vec<f32> {
    let norm = v.iter().map(|x| x * x).sum::<f32>().sqrt();
    if norm == 0.0 {
        return v.to_vec();
    }
    v.iter().map(|x| x / norm).collect()
}

fn dot(a: &[f32], b: &[f32]) -> f32 {
    a.iter().zip(b).map(|(x, y)| x * y).sum()
}

fn l2_sq(a: &[f32], b: &[f32]) -> f32 {
    a.iter().zip(b).map(|(x, y)| (x - y) * (x - y)).sum()
}

fn bits(v: &[f32]) -> Vec<u32> {
    v.iter().map(|x| x.to_bits()).collect()
}

fn floats(v: &[u32]) -> Vec<f32> {
    v.iter().map(|&b| f32::from_bits(b)).collect()
}

/// Exact top-`k` doc IDs by cosine over the (already-normalized) corpus.
fn exact_topk(corpus: &[(u32, Vec<f32>)], query: &[f32], k: usize) -> Vec<u32> {
    let mut scored: Vec<(f32, u32)> = corpus.iter().map(|(id, v)| (dot(v, query), *id)).collect();
    scored.sort_by(|a, b| b.0.total_cmp(&a.0).then(a.1.cmp(&b.1)));
    scored.into_iter().take(k).map(|(_, id)| id).collect()
}

fn nearest(p: &[f32], centroids: &[f32], dim: usize) -> usize {
    let mut best = 0usize;
    let mut best_d = f32::INFINITY;
    for (j, c) in centroids.chunks_exact(dim).enumerate() {
        let d = l2_sq(p, c);
        if d < best_d {
            best_d = d;
            best = j;
        }
    }
    best
}

/// Lloyd's algorithm: `k` centroids and each point's nearest one.
fn kmeans(
    points: &[f32],
    n: usize,
    dim: usize,
    k: usize,
    iters: usize,
    rng: &mut Rng,
) -> (Vec<f32>, Vec<u32>) {
    let mut centroids = Vec::new();
    for _ in 0..k {
        let r = rng.next_usize(n);
        centroids.extend_from_slice(&points[r * dim..(r + 1) * dim]);
    }
    for _ in 0..iters {
        let mut sums = vec![0f32; k * dim];
        let mut counts = vec![0u32; k];
        for p in points.chunks_exact(dim) {
            let a = nearest(p, &centroids, dim);
            counts[a] += 1;
            for (acc, &x) in sums[a * dim..(a + 1) * dim].iter_mut().zip(p) {
                *acc += x;
            }
        }
        for c in 0..k {
            if counts[c] == 0 {
                let r = rng.next_usize(n);
                centroids[c * dim..(c + 1) * dim].copy_from_slice(&points[r * dim..(r + 1) * dim]);
            } else {
                for d in 0..dim {
                    centroids[c * dim + d] = sums[c * dim + d] / counts[c] as f32;
                }
            }
        }
    }
    let assign = points
        .chunks_exact(dim)
        .map(|p| nearest(p, &centroids, dim) as u32)
        .collect();
    (centroids, assign)
}

/// Trains an index over the corpus.
fn build_ivfpq(
    corpus: &[(u32, Vec<f32>)],
    params: &IvfpqParams,
) -> Result<Ivfpq, VectorBuildError> {
    let input: Vec<(u32, Vec<u32>)> = corpus.iter().map(|(id, v)| (*id, bits(v))).collect();
    let nlist = check_input(&input, params)?;
    let (n, dim, m) = (corpus.len(), params.dim, params.m);
    let (ksub, dsub) = (ksub_of(params.nbits), dim / m);
    let pts: Vec<f32> = corpus.iter().flat_map(|(_, v)| normalize(v)).collect();
    let mut rng = Rng::new(params.seed);
    let iters = params.kmeans_iters.max(1);
    let (centroids, assignments) = kmeans(&pts, n, dim, nlist, iters, &mut rng);
    let mut res = Vec::new();
    for (p, &a) in pts.chunks_exact(dim).zip(&assignments) {
        let c = &centroids[a as usize * dim..(a as usize + 1) * dim];
        res.extend(p.iter().zip(c).map(|(x, y)| x - y));
    }
    let mut codebooks = Vec::new();
    let mut codes = vec![0u8; n * m];
    for s in 0..m {
        let mut sub = Vec::new();
        for r in res.chunks_exact(dim) {
            sub.extend_from_slice(&r[s * dsub..(s + 1) * dsub]);
        }
        let (cb, code) = kmeans(&sub, n, dsub, ksub, iters, &mut rng);
        codebooks.extend(cb);
        for (i, c) in code.into_iter().enumerate() {
            codes[i * m + s] = c as u8;
        }
    }
    build_ivfpq_from_parts(IvfpqParts {
        dim,
        nlist,
        m,
        nbits: params.nbits,
        metric: params.metric,
        centroids: bits(&centroids),
        codebooks: bits(&codebooks),
        opq: None,
        ids: corpus.iter().map(|(id, _)| *id).collect(),
        assignments,
        codes,
    })
}

/// An index over a file in memory, with the arithmetic of a query.
struct Index {
    file: Vec<u8>,
    vi: VectorIndex,
}

impl Index {
    fn open(file: Vec<u8>) -> Index {
        let h = parse_header(&file[..HEADER_SIZE]).unwrap();
        let end = HEADER_SIZE + boot_len(&h).unwrap();
        let vi = VectorIndex::open(&file[..HEADER_SIZE], &file[HEADER_SIZE..end]).unwrap();
        Index { file, vi }
    }

    fn unit(&self, query: &[f32]) -> Vec<f32> {
        if self.vi.metric() == METRIC_IP {
            normalize(query)
        } else {
            query.to_vec()
        }
    }

    fn search(
        &self,
        query: &[f32],
        k: usize,
        nprobe: usize,
    ) -> Result<Vec<(u32, f32)>, IndexError> {
        let nprobe = self.vi.plan(query.len(), k, nprobe)?;
        if nprobe == 0 {
            return Ok(Vec::new());
        }
        let (dim, m) = (self.vi.dim(), self.vi.subquantizers());
        let (ksub, dsub) = (ksub_of(self.vi.nbits()), dim / m);
        let q = self.unit(query);
        let q: Vec<f32> = match self.vi.opq() {
            Some(r) => floats(r).chunks_exact(dim).map(|row| dot(row, &q)).collect(),
            None => q,
        };
        let centroids = floats(self.vi.centroids());
        let codebooks = floats(self.vi.codebooks());
        let dists: Vec<u32> = centroids
            .chunks_exact(dim)
            .map(|c| l2_sq(c, &q).to_bits())
            .collect();
        let mut top = TopK::new(k);
        for j in self.vi.active(&self.vi.nearest_clusters(&dists, nprobe)) {
            let (off, len) = self.vi.cluster_range(j).unwrap();
            let block = &self.file[off as usize..off as usize + len];
            let (ids, codes) = self.vi.cluster_lists(j, block)?;
            let c = &centroids[j * dim..(j + 1) * dim];
            let residual: Vec<f32> = q.iter().zip(c).map(|(a, b)| a - b).collect();
            let cell = |s: usize, c: u8| {
                let at = (s * ksub + c as usize) * dsub;
                l2_sq(&residual[s * dsub..(s + 1) * dsub], &codebooks[at..at + dsub])
            };
            let near: Vec<u32> = codes
                .chunks_exact(m)
                .map(|code| {
                    let d: f32 = code.iter().enumerate().map(|(s, &c)| cell(s, c)).sum();
                    d.to_bits()
                })
                .collect();
            scan(&mut top, &ids, &near);
        }
        Ok(found(&top)
            .into_iter()
            .map(|(id, d)| {
                let d = f32::from_bits(d);
                let score = if self.vi.metric() == METRIC_IP {
                    1.0 - 0.5 * d
                } else {
                    -d
                };
                (id, score)
            })
            .collect())
    }

    fn search_rerank(
        &self,
        query: &[f32],
        k: usize,
        nprobe: usize,
        r: usize,
        store: &Rerank,
    ) -> Result<Vec<u32>, IndexError> {
        let r = rerank_plan(query.len(), self.vi.dim(), store.rr.dim(), k, nprobe, r)?;
        if r == 0 {
            return Ok(Vec::new());
        }
        let q = self.unit(query);
        let mut scored = Vec::new();
        for (id, _) in self.search(query, r, nprobe)? {
            let v = store.get(id)?;
            scored.push((id, dot(&q, &v).to_bits()));
        }
        let hits = rank_scored(&scored, k);
        Ok(hits.into_iter().map(|(id, _)| id).collect())
    }
}

struct Rerank {
    file: Vec<u8>,
    rr: RerankStore,
}

impl Rerank {
    fn open(corpus: &[(u32, Vec<f32>)], dim: usize) -> Rerank {
        let vecs: Vec<Vec<u32>> = corpus.iter().map(|(_, v)| bits(&normalize(v))).collect();
        let file = write_rerank(dim, &vecs).unwrap();
        let rr = RerankStore::open(&file[..RRVR_HEADER_SIZE]).unwrap();
        Rerank { file, rr }
    }

    fn get(&self, id: u32) -> Result<Vec<f32>, IndexError> {
        let (off, len) = self.rr.vector_range(id);
        let raw = &self.file[off as usize..off as usize + len];
        Ok(floats(&self.rr.decode(raw)?))
    }
}

fn open_index(corpus: &[(u32, Vec<f32>)], params: &IvfpqParams) -> Index {
    Index::open(build_ivfpq(corpus, params).unwrap().to_bytes())
}

/// Random unit vectors with ascending doc IDs.
fn random_corpus(rng: &mut Random, n: u32, dim: usize) -> Vec<(u32, Vec<f32>)> {
    (0..n).map(|i| (i, rng.point(dim))).collect()
}

/// Well-separated Gaussian blobs of `per` points each; the normalized corpus with ascending
/// doc IDs.
fn blob_corpus(rng: &mut Random, dim: usize, nb: usize, per: usize) -> Vec<(u32, Vec<f32>)> {
    let centers: Vec<Vec<f32>> = (0..nb)
        .map(|_| (0..dim).map(|_| rng.gauss() * 5.0).collect())
        .collect();
    let mut corpus = Vec::with_capacity(nb * per);
    let mut id = 0u32;
    for c in &centers {
        for _ in 0..per {
            let v: Vec<f32> = c.iter().map(|&m| m + rng.gauss() * 0.5).collect();
            corpus.push((id, normalize(&v)));
            id += 1;
        }
    }
    corpus
}

#[test]
fn header_roundtrips() {
    let mut rng = Random::new(1);
    let corpus = random_corpus(&mut rng, 64, 8);
    let idx = open_index(&corpus, &IvfpqParams::new(8, 4, 4));
    assert_eq!(idx.vi.dim(), 8);
    assert_eq!(idx.vi.nlist(), 4);
    assert_eq!(idx.vi.subquantizers(), 4);
    assert_eq!(idx.vi.nbits(), 8);
    assert_eq!(idx.vi.len(), 64);
    assert!(!idx.vi.is_empty());
}

#[test]
fn returns_all_docs_once_when_scanning_every_cluster() {
    // With nprobe == nlist and k == N the search scans every cluster and keeps every vector, so
    // the result must be exactly the input doc IDs, ordered best-first.
    let mut rng = Random::new(7);
    let n = 200usize;
    let corpus = random_corpus(&mut rng, n as u32, 16);
    let idx = open_index(&corpus, &IvfpqParams::new(16, 8, 8));
    let query = corpus[0].1.clone();
    let hits = idx.search(&query, n, idx.vi.nlist()).expect("search");
    assert_eq!(hits.len(), n, "should return every vector");
    let mut ids: Vec<u32> = hits.iter().map(|h| h.0).collect();
    ids.sort_unstable();
    let expect: Vec<u32> = (0..n as u32).collect();
    assert_eq!(ids, expect, "every doc id present exactly once");
    for w in hits.windows(2) {
        assert!(
            w[0].1 >= w[1].1,
            "scores must be non-increasing: {} then {}",
            w[0].1,
            w[1].1
        );
    }
}

#[test]
fn self_query_finds_itself_with_high_score() {
    // Querying with an indexed vector should rank that vector first with a near-1 cosine score.
    let mut rng = Random::new(11);
    let corpus = blob_corpus(&mut rng, 16, 12, 40);
    let idx = open_index(&corpus, &IvfpqParams::new(16, 16, 8));
    for &probe in &[0usize, 137, 400, 479] {
        let (id, ref v) = corpus[probe];
        let hits = idx.search(v, 5, idx.vi.nlist()).expect("search");
        assert_eq!(hits[0].0, id, "self should be top-1");
        assert!(
            hits[0].1 > 0.9,
            "self score should be ~1, got {}",
            hits[0].1
        );
    }
}

#[test]
fn recall_at_10_beats_brute_force_threshold() {
    // Recall@10 against exact cosine NN on clustered data, with fixed seeds.
    let mut rng = Random::new(2024);
    let dim = 16usize;
    let corpus = blob_corpus(&mut rng, dim, 16, 100); // 1600 vectors
    let idx = open_index(&corpus, &IvfpqParams::new(dim, 16, 8));

    let k = 10usize;
    let nprobe = 8usize;
    let queries = 40usize;
    let mut total = 0.0f64;
    let mut qrng = Random::new(99);
    for _ in 0..queries {
        let base = &corpus[qrng.next_u64() as usize % corpus.len()].1;
        let q: Vec<f32> = base.iter().map(|&x| x + qrng.gauss() * 0.1).collect();
        let q = normalize(&q);
        let exact = exact_topk(&corpus, &q, k);
        let approx = idx.search(&q, k, nprobe).expect("search");
        let hit = approx.iter().filter(|h| exact.contains(&h.0)).count();
        total += hit as f64 / k as f64;
    }
    let recall = total / queries as f64;
    assert!(
        recall >= 0.75,
        "mean recall@{k} = {recall:.3}, expected >= 0.75"
    );
}

#[test]
fn identity_opq_matches_no_opq() {
    // An identity rotation must leave results unchanged.
    let mut rng = Random::new(5);
    let corpus = blob_corpus(&mut rng, 8, 8, 30);
    let params = IvfpqParams::new(8, 8, 4);

    let plain = build_ivfpq(&corpus, &params).unwrap();
    let mut identity = vec![0f32; 8 * 8];
    for i in 0..8 {
        identity[i * 8 + i] = 1.0;
    }
    let with_opq = build_ivfpq(&corpus, &params)
        .unwrap()
        .with_opq(bits(&identity));

    let idx_a = Index::open(plain.to_bytes());
    let idx_b = Index::open(with_opq.to_bytes());
    assert!(idx_a.vi.opq().is_none() && idx_b.vi.opq().is_some());

    let q = corpus[100].1.clone();
    let a = idx_a.search(&q, 10, idx_a.vi.nlist()).unwrap();
    let b = idx_b.search(&q, 10, idx_b.vi.nlist()).unwrap();
    assert_eq!(a.len(), b.len());
    for (x, y) in a.iter().zip(&b) {
        assert_eq!(x.0, y.0);
        assert!((x.1 - y.1).abs() < 1e-6, "{} vs {}", x.1, y.1);
    }
}

/// Two clusters of two vectors each; each subspace codebook is {[0,0],[1,0],[0,1],[1,1]}.
fn hand_parts() -> IvfpqParts {
    let codebook_2d: [f32; 8] = [0.0, 0.0, 1.0, 0.0, 0.0, 1.0, 1.0, 1.0];
    let mut codebooks = bits(&codebook_2d);
    codebooks.extend(bits(&codebook_2d));
    IvfpqParts {
        dim: 4,
        nlist: 2,
        m: 2,
        nbits: 2,
        metric: Metric::L2,
        centroids: bits(&[0.0, 0.0, 0.0, 0.0, 2.0, 2.0, 2.0, 2.0]),
        codebooks,
        opq: None,
        ids: vec![10u32, 11, 12, 13],
        assignments: vec![0u32, 0, 1, 1],
        codes: vec![3u8, 3, 0, 0, 0, 0, 3, 3],
    }
}

#[test]
fn from_parts_matches_hand_computed_adc() {
    // L2 metric => score == -dist, so the scores are directly comparable.
    let built = build_ivfpq_from_parts(hand_parts()).expect("from_parts");
    assert_eq!(built.len(), 4);
    let idx = Index::open(built.to_bytes());

    let q = [0.2f32, 0.3, 1.6, 1.7];
    let hits = idx.search(&q, 4, 2).expect("search");

    let expect: [(u32, f32); 4] = [
        (10, 1.98),  // table0[3]+table1[3] = 1.13 + 0.85
        (11, 5.58),  // table0[0]+table1[0] = 0.13 + 5.45
        (12, 6.38),  // c1: 6.13 + 0.25
        (13, 18.78), // c1: 15.13 + 3.65
    ];
    assert_eq!(hits.len(), 4);
    for (h, (id, dist)) in hits.iter().zip(&expect) {
        assert_eq!(h.0, *id, "order mismatch: {hits:?}");
        assert!(
            (h.1 - (-dist)).abs() < 1e-4,
            "doc {id}: score {} != {}",
            h.1,
            -dist
        );
    }
}

#[test]
fn from_parts_rejects_inconsistent_arrays() {
    // A short codes array (should be n*m) is rejected, not written.
    let parts = IvfpqParts {
        dim: 4,
        nlist: 2,
        m: 2,
        nbits: 2,
        metric: Metric::L2,
        centroids: vec![0; 8],
        codebooks: vec![0; 2 * 4 * 2],
        opq: None,
        ids: vec![0, 1],
        assignments: vec![0, 1],
        codes: vec![0u8; 3], // should be 2*2 = 4
    };
    assert!(matches!(
        build_ivfpq_from_parts(parts),
        Err(VectorBuildError::BadParams(_))
    ));
}

#[test]
fn index_file_is_laid_out_in_sections() {
    let built = build_ivfpq_from_parts(hand_parts()).unwrap();
    let file = built.write();
    assert_eq!(&file[..4], b"RRVI");
    // 48 header, (8 centroid + 16 codebook) floats, two directory entries, four (id, code) pairs.
    assert_eq!(file.len(), 48 + 24 * 4 + 2 * 12 + 4 * 6);
    let idx = Index::open(file);
    assert_eq!(idx.vi.cluster_range(0), Some((48 + 24 * 4 + 2 * 12, 12)));
    assert_eq!(idx.vi.cluster_range(1).unwrap().0, 48 + 24 * 4 + 2 * 12 + 12);
    let (off, len) = idx.vi.cluster_range(1).unwrap();
    let block = &idx.file[off as usize..off as usize + len];
    assert_eq!(
        idx.vi.cluster_lists(1, block).unwrap(),
        (vec![12, 13], vec![0, 0, 3, 3])
    );
    assert!(matches!(
        idx.vi.cluster_lists(1, &block[1..]),
        Err(IndexError::Malformed(_))
    ));
}

#[test]
fn header_refuses_bad_values() {
    let file = build_ivfpq_from_parts(hand_parts()).unwrap().to_bytes();
    let mut bad = file.clone();
    bad[0] = b'X';
    assert!(matches!(
        parse_header(&bad[..HEADER_SIZE]),
        Err(IndexError::BadMagic(_))
    ));
    let mut bad = file.clone();
    bad[4] = 7;
    assert!(matches!(
        parse_header(&bad[..HEADER_SIZE]),
        Err(IndexError::BadVersion(7))
    ));
    let mut bad = file;
    bad[8..12].copy_from_slice(&0u32.to_le_bytes());
    assert!(matches!(
        parse_header(&bad[..HEADER_SIZE]),
        Err(IndexError::Malformed(_))
    ));
}

#[test]
fn rerank_recovers_near_exact_topk() {
    // Re-ranking every probed candidate against the sidecar should reproduce the exact-cosine
    // top-k almost perfectly.
    let mut rng = Random::new(31);
    let dim = 16usize;
    let n = 800u32;
    let corpus = random_corpus(&mut rng, n, dim);
    let idx = open_index(&corpus, &IvfpqParams::new(dim, 16, 8));
    let rerank = Rerank::open(&corpus, dim);
    assert_eq!(rerank.rr.dim(), dim);
    assert_eq!(rerank.rr.len(), n as u64);

    let k = 10usize;
    let mut qrng = Random::new(64);
    let mut total = 0.0f64;
    let queries = 30usize;
    for _ in 0..queries {
        let base = &corpus[qrng.next_u64() as usize % corpus.len()].1;
        let q: Vec<f32> = base.iter().map(|&x| x + qrng.gauss() * 0.05).collect();
        let q = normalize(&q);
        let exact = exact_topk(&corpus, &q, k);
        let got = idx
            .search_rerank(&q, k, idx.vi.nlist(), corpus.len(), &rerank)
            .expect("search_rerank");
        total += got.iter().filter(|id| exact.contains(id)).count() as f64 / k as f64;
    }
    let recall = total / queries as f64;
    assert!(
        recall >= 0.95,
        "rerank recall@{k} = {recall:.3}, expected >= 0.95"
    );
}

#[test]
fn rerank_improves_over_adc() {
    // Exact re-ranking of the top-r must do at least as well as the scan that it post-processes.
    let mut rng = Random::new(17);
    let dim = 16usize;
    let corpus = blob_corpus(&mut rng, dim, 16, 100);
    let idx = open_index(&corpus, &IvfpqParams::new(dim, 16, 8));
    let rerank = Rerank::open(&corpus, dim);

    let (k, nprobe, r) = (10usize, 8usize, 50usize);
    let mut qrng = Random::new(88);
    let (mut adc_recall, mut rer_recall) = (0.0f64, 0.0f64);
    let queries = 40usize;
    for _ in 0..queries {
        let base = &corpus[qrng.next_u64() as usize % corpus.len()].1;
        let q: Vec<f32> = base.iter().map(|&x| x + qrng.gauss() * 0.1).collect();
        let q = normalize(&q);
        let exact = exact_topk(&corpus, &q, k);
        let adc = idx.search(&q, k, nprobe).unwrap();
        let rer = idx.search_rerank(&q, k, nprobe, r, &rerank).unwrap();
        adc_recall += adc.iter().filter(|h| exact.contains(&h.0)).count() as f64 / k as f64;
        rer_recall += rer.iter().filter(|id| exact.contains(id)).count() as f64 / k as f64;
    }
    adc_recall /= queries as f64;
    rer_recall /= queries as f64;
    assert!(
        rer_recall >= adc_recall,
        "rerank ({rer_recall:.3}) should be >= adc ({adc_recall:.3})"
    );
    assert!(rer_recall >= 0.9, "rerank recall {rer_recall:.3} too low");
}

#[test]
fn edge_cases() {
    let mut rng = Random::new(3);
    let corpus = random_corpus(&mut rng, 32, 8);
    let params = IvfpqParams::new(8, 4, 4);
    let idx = open_index(&corpus, &params);
    let q = corpus[0].1.clone();

    // k == 0 or nprobe == 0 yields an empty result, not an error.
    assert!(idx.search(&q, 0, 4).unwrap().is_empty());
    assert!(idx.search(&q, 5, 0).unwrap().is_empty());

    // A wrong-dimensionality query is a BadQuery, not a panic.
    let bad = vec![0.0f32; 7];
    assert!(matches!(
        idx.search(&bad, 5, 4),
        Err(IndexError::BadQuery(_))
    ));

    // nprobe is clamped to nlist, so an over-large nprobe still works.
    assert!(!idx.search(&q, 5, 999).unwrap().is_empty());

    // Building from no vectors is a clean error.
    match build_ivfpq(&[], &params) {
        Err(e) => assert_eq!(e, VectorBuildError::Empty),
        Ok(_) => panic!("expected VectorBuildError::Empty"),
    }
}

#[test]
fn build_input_errors_come_in_order() {
    let v = vec![(0u32, bits(&[1.0, 2.0]))];
    let p = |dim, nlist, m, nbits| IvfpqParams {
        nbits,
        ..IvfpqParams::new(dim, nlist, m)
    };
    assert!(matches!(
        check_input(&v, &p(3, 1, 2, 8)),
        Err(VectorBuildError::BadParams(_))
    ));
    assert!(matches!(
        check_input(&v, &p(2, 1, 2, 9)),
        Err(VectorBuildError::BadParams(_))
    ));
    assert!(matches!(
        check_input(&v, &p(2, 0, 2, 8)),
        Err(VectorBuildError::BadParams(_))
    ));
    assert_eq!(
        check_input(&v, &p(4, 1, 2, 8)),
        Err(VectorBuildError::DimMismatch)
    );
    // Never more clusters than vectors.
    assert_eq!(check_input(&v, &p(2, 9, 2, 8)), Ok(1));
}

#[test]
fn rerank_plan_checks_the_query() {
    assert!(matches!(
        rerank_plan(3, 4, 4, 1, 1, 1),
        Err(IndexError::BadQuery(_))
    ));
    assert!(matches!(
        rerank_plan(4, 4, 5, 1, 1, 1),
        Err(IndexError::BadQuery(_))
    ));
    // At least `k` candidates are asked for.
    assert_eq!(rerank_plan(4, 4, 4, 7, 1, 2).unwrap(), 7);
    assert_eq!(rerank_plan(4, 4, 4, 7, 1, 20).unwrap(), 20);
    assert_eq!(rerank_plan(4, 4, 4, 0, 1, 20).unwrap(), 0);
}

#[test]
fn rerank_sidecar_refuses_bad_headers() {
    let file = write_rerank(2, &[bits(&[1.0, -2.5])]).unwrap();
    assert_eq!(file.len(), 20 + 4);
    let rr = RerankStore::open(&file[..20]).unwrap();
    assert_eq!((rr.precision(), rr.is_empty()), (0, false));
    assert_eq!(floats(&rr.decode(&file[20..]).unwrap()), vec![1.0, -2.5]);
    assert!(matches!(
        rr.decode(&file[21..]),
        Err(IndexError::Malformed(_))
    ));
    for (at, byte) in [(0usize, b'X'), (4, 9), (6, 1)] {
        let mut bad = file.clone();
        bad[at] = byte;
        assert!(RerankStore::open(&bad[..20]).is_err());
    }
    assert_eq!(
        write_rerank(3, &[bits(&[1.0, -2.5])]).err(),
        Some(VectorBuildError::DimMismatch)
    );
}

#[test]
fn bf16_rounds_to_nearest_even() {
    let round = |x: f32| f32::from_bits(bf16_to_f32(f32_to_bf16(x.to_bits())));
    assert_eq!(round(1.0), 1.0);
    assert_eq!(round(-2.5), -2.5);
    // A tie goes to the even neighbour; above the tie goes up.
    assert_eq!(f32_to_bf16(0x3f80_8000), 0x3f80);
    assert_eq!(f32_to_bf16(0x3f81_8000), 0x3f82);
    assert_eq!(f32_to_bf16(0x3f80_8001), 0x3f81);
    // A NaN stays a NaN, an infinity an infinity.
    assert!(round(f32::from_bits(0x7f80_0001)).is_nan());
    assert_eq!(round(f32::INFINITY), f32::INFINITY);
    assert_eq!(f32_to_bf16(f32::MAX.to_bits()), 0x7f80);
}

#[test]
fn order_key_orders_like_total_order() {
    let xs = [
        f32::NEG_INFINITY,
        -2.0,
        -0.0,
        0.0,
        1e-30,
        3.5,
        f32::INFINITY,
        f32::NAN,
    ];
    for a in xs {
        for b in xs {
            assert_eq!(
                order_key(a.to_bits()) < order_key(b.to_bits()),
                a.total_cmp(&b).is_lt(),
                "{a} {b}"
            );
        }
    }
    let c = pack_candidate(1.5f32.to_bits(), 9);
    assert_eq!(unpack_candidate(c), (1.5f32.to_bits(), 9));
    assert!(c < pack_candidate(1.5f32.to_bits(), 10));
    assert!(pack_candidate((-1.0f32).to_bits(), 10) < c);
}

#[test]
fn topk_keeps_the_smallest_in_order() {
    let mut t = TopK::new(3);
    for x in [5u64, 1, 9, 3, 3, 2] {
        t.offer(x);
    }
    assert_eq!(t.kept, vec![1, 2, 3]);
    let mut none = TopK::new(0);
    none.offer(4);
    assert!(none.kept.is_empty());
}

#[test]
fn scanning_in_parts_is_scanning_at_once() {
    let ids = [4u32, 7, 1, 9];
    let d = bits(&[0.5, 0.25, 0.5, 8.0]);
    let mut whole = TopK::new(3);
    scan(&mut whole, &ids, &d);
    let mut parts = TopK::new(3);
    scan(&mut parts, &ids[2..], &d[2..]);
    scan(&mut parts, &ids[..2], &d[..2]);
    assert_eq!(found(&whole), found(&parts));
    let order: Vec<u32> = found(&whole).iter().map(|h| h.0).collect();
    assert_eq!(order, vec![7, 1, 4]);
}

#[test]
fn exact_scores_rank_highest_first() {
    let s = |x: f32| x.to_bits();
    let hits = rank_scored(&[(5, s(0.5)), (2, s(0.9)), (1, s(0.5)), (8, s(-1.0))], 3);
    assert_eq!(hits, vec![(2, s(0.9)), (1, s(0.5)), (5, s(0.5))]);
}

#[test]
fn generator_never_starts_at_zero() {
    let mut a = Rng::new(0);
    let mut b = Rng::new(0x9E37_79B9_7F4A_7C15);
    assert_eq!(a.next_u64(), b.next_u64());
    assert!(a.next_usize(10) < 10);
    // The first number of seed 1, by hand: x = 1 ^ (1 << 25), then x ^= x >> 27.
    let x = (1u64 | (1 << 25)).wrapping_mul(0x2545_F491_4F6C_DD1D);
    assert_eq!(Rng::new(1).next_u64(), x);
}
