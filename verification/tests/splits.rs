use std::cell::Cell;
use std::collections::{BTreeMap, BTreeSet, HashMap};

use roaring::RoaringBitmap;
use roaringrange::bitmap::split_posting;
use roaringrange::bloom::{bloom_build, bloom_contains, bloom_k, bloom_positions, RemoteBloom};
use roaringrange::error::{BuildError, FetchError, IndexError};
use roaringrange::facet_build::{facet_presence, FacetField};
use roaringrange::facets::{
    aggregate_counts, combine_counts, contributions, count_targets, digest_covers_pairs,
    digest_covers_top, group_by_field, ids_by_split, pair_totals, FieldCounts, Selection,
};
use roaringrange::search::{SplitSearch, Step, DESCENT_WAVE};
use roaringrange::split_builder::{
    cap_for, BuiltSplitSet, SplitBuildConfig, SplitSetBuilder, TermSplitBuildConfig,
    TermSplitSetBuilder,
};
use roaringrange::splitset::{
    BodyKind, Policy, SplitSet, FLAG_BLOOM, FLAG_FACET, SUMMARY_TAG_FACET,
};
use roaringrange::splitset_build::{write_splitset, SortColSpec, SplitSetConfig, SplitSpec};
use roaringrange::splitset_bundle::{rrti_boot_len, split_boot, write_splitset_bundle, MemberTag};
use roaringrange::splitset_write::{read_rrs_entries, SplitSetWriter, WriterConfig};
use roaringrange::terms::{
    and_full, and_heads, head_block, parse_header, resolve_locs, tail_posting, TermIndex,
    HEADER_SIZE as TERM_HEADER_SIZE,
};
use roaringrange::text::facet_file_name;
use roaringrange::tlv::{find_tlv, tlv_record};
use roaringrange::tokenize::Language;

/// The keys of every run of three letters or digits inside a word, lowercased.
fn ngram_keys(text: &str, n: usize) -> Vec<u64> {
    let mut keys = BTreeSet::new();
    for word in text.split(|c: char| !c.is_alphanumeric()) {
        let cs: Vec<char> = word.chars().flat_map(|c| c.to_lowercase()).collect();
        for w in cs.windows(n) {
            keys.insert(w.iter().fold(0u64, |k, &c| (k << 21) | c as u64));
        }
    }
    keys.into_iter().collect()
}

/// A stand-in for the hash that names a facet category.
fn facet_key(field: &str, category: &str) -> u64 {
    let mut h = 0xcbf2_9ce4_8422_2325u64;
    for b in field.bytes().chain([0]).chain(category.bytes()) {
        h = (h ^ b as u64).wrapping_mul(0x100_0000_01b3);
    }
    h
}

fn pick(pairs: &[(&str, &str)]) -> Vec<Selection> {
    pairs
        .iter()
        .map(|(f, c)| Selection {
            field: f.to_string(),
            category: c.to_string(),
            key: facet_key(f, c),
        })
        .collect()
}

/// A trigram index: header, sparse index, dictionary, then each key's head and tail.
fn index_file(stride: u32, entries: &[(u64, Vec<u8>, Vec<u8>)]) -> Vec<u8> {
    let sparse = entries.len().div_ceil(stride as usize) * 8;
    let mut out = b"RRSI".to_vec();
    out.extend([3, 0, 0, 0]);
    out.extend((entries.len() as u32).to_le_bytes());
    out.extend(stride.to_le_bytes());
    out.extend([0u8; 4]);
    out.extend(vec![0u8; sparse]);
    let mut off = out.len() + 24 * entries.len();
    for (key, head, tail) in entries {
        out.extend(key.to_le_bytes());
        out.extend((off as u64).to_le_bytes());
        out.extend((head.len() as u32).to_le_bytes());
        out.extend((tail.len() as u32).to_le_bytes());
        off += head.len() + tail.len();
    }
    for (_, head, tail) in entries {
        out.extend(head);
        out.extend(tail);
    }
    out
}

/// The encoder that a builder seals its splits with.
fn encode(
    _gram_size: u16,
    stride: u32,
    _case_folded: bool,
    entries: Vec<(u64, Vec<u8>)>,
) -> Result<Vec<u8>, BuildError> {
    let whole: Vec<(u64, Vec<u8>, Vec<u8>)> = entries
        .into_iter()
        .map(|(key, raw)| (key, raw, Vec::new()))
        .collect();
    Ok(index_file(stride, &whole))
}

/// The encoder that a writer seals its splits with.
fn encode_entries(
    _gram_size: u16,
    stride: u32,
    _head_boundary: u32,
    entries: Vec<(u64, Vec<u8>, Vec<u8>)>,
) -> Result<Vec<u8>, BuildError> {
    Ok(index_file(stride, &entries))
}

/// A plain facet sidecar: every category with its field, its name and its docs.
fn encode_facets(fields: Vec<FacetField>, _case_folded: bool) -> Result<Vec<u8>, BuildError> {
    let mut out = Vec::new();
    for f in &fields {
        for c in &f.cats {
            for part in [f.name.as_bytes(), c.name.as_bytes(), &c.head, &c.tail] {
                out.extend((part.len() as u32).to_le_bytes());
                out.extend(part);
            }
        }
    }
    Ok(out)
}

/// The categories of a sidecar, each with its docs.
fn read_facets(raw: &[u8]) -> Result<Vec<(String, String, RoaringBitmap)>, IndexError> {
    let bad = || IndexError::Malformed("facet sidecar");
    let mut pos = 0usize;
    let mut part = || -> Result<Vec<u8>, IndexError> {
        let n = raw.get(pos..pos + 4).ok_or_else(bad)?;
        let n = u32::from_le_bytes(n.try_into().unwrap()) as usize;
        let p = raw.get(pos + 4..pos + 4 + n).ok_or_else(bad)?;
        pos += 4 + n;
        Ok(p.to_vec())
    };
    let mut out = Vec::new();
    let mut seen = 0usize;
    while seen < raw.len() {
        let field = part()?;
        let name = part()?;
        let head = part()?;
        let tail = part()?;
        seen += 16 + field.len() + name.len() + head.len() + tail.len();
        let mut docs = RoaringBitmap::deserialize_from(&head[..]).map_err(|_| bad())?;
        if !tail.is_empty() {
            docs |= RoaringBitmap::deserialize_from(&tail[..]).map_err(|_| bad())?;
        }
        let text = |v: Vec<u8>| String::from_utf8(v).unwrap();
        out.push((text(field), text(name), docs));
    }
    Ok(out)
}

/// The files of a split set, with a count of what a search opens.
struct Store {
    files: HashMap<String, Vec<u8>>,
    opens: Cell<usize>,
    bloom: Option<String>,
    scores: Vec<u32>,
    broken: Option<String>,
}

impl Store {
    fn of(built: &BuiltSplitSet) -> Store {
        let mut files = HashMap::new();
        for (name, raw) in built.splits.iter().chain(built.facets.iter()) {
            files.insert(name.clone(), raw.clone());
        }
        Store::over(files)
    }

    fn over(files: HashMap<String, Vec<u8>>) -> Store {
        Store {
            files,
            opens: Cell::new(0),
            bloom: None,
            scores: Vec::new(),
            broken: None,
        }
    }

    fn fetch(&self, name: &str) -> Result<&[u8], IndexError> {
        self.opens.set(self.opens.get() + 1);
        if self.broken.as_deref() == Some(name) {
            return Err(IndexError::Fetch(FetchError::Transport(name.to_string())));
        }
        match self.files.get(name) {
            Some(raw) => Ok(raw),
            None => Err(IndexError::Fetch(FetchError::NotFound(name.to_string()))),
        }
    }

    /// The docs of a trigram split that hold every key.
    fn trigram_hits(raw: &[u8], keys: &[u64]) -> RoaringBitmap {
        let dict: BTreeMap<u64, RoaringBitmap> =
            read_rrs_entries(raw).unwrap().into_iter().collect();
        let mut acc: Option<RoaringBitmap> = None;
        for k in keys {
            let docs = dict.get(k).cloned().unwrap_or_default();
            acc = Some(match acc {
                Some(a) => a & docs,
                None => docs,
            });
        }
        acc.unwrap_or_default()
    }

    /// The first `limit` docs of a term split that hold every word.
    fn term_hits(raw: &[u8], query: &str, limit: usize) -> Vec<u32> {
        let h = parse_header(&raw[..TERM_HEADER_SIZE]).unwrap();
        let end = TERM_HEADER_SIZE + h.router_len as usize;
        let router = raw[TERM_HEADER_SIZE..end].to_vec();
        let ti = TermIndex::open(&raw[..TERM_HEADER_SIZE], router).unwrap();
        let read = |off: u64, len: usize| raw[off as usize..off as usize + len].to_vec();
        let plan = match ti.plan(ti.query_terms(query), false) {
            Some(p) => p,
            None => return Vec::new(),
        };
        let blocks: Vec<Vec<u8>> = plan.ranges.iter().map(|&(o, n)| read(o, n)).collect();
        let locs = match resolve_locs(&plan, &blocks, false) {
            Some(l) => l,
            None => return Vec::new(),
        };
        let mut heads = Vec::new();
        for (off, size) in locs {
            let (base, want) = ti.head_range(off, size).unwrap();
            heads.push(head_block(base, want, &read(base, want)).unwrap());
        }
        if let Some(page) = and_heads(&heads, limit) {
            return page;
        }
        let tails: Vec<RoaringBitmap> = heads
            .iter()
            .map(|b| tail_posting(b.tail_size, &read(b.tail_off, b.tail_size)).unwrap())
            .collect();
        and_full(&heads, &tails, limit)
    }

    /// The docs of a split that the filter keeps, read from its facet sidecar.
    fn mask(&self, data_file: &str, filter: &[Selection]) -> Result<RoaringBitmap, IndexError> {
        let cats = read_facets(self.fetch(&facet_file_name(data_file))?)?;
        let mut fields: BTreeMap<&str, RoaringBitmap> = BTreeMap::new();
        for s in filter {
            let docs = fields.entry(s.field.as_str()).or_default();
            for (f, c, d) in &cats {
                if *f == s.field && *c == s.category {
                    *docs |= d;
                }
            }
        }
        let mut all = fields.into_values();
        let first = all.next().unwrap_or_default();
        Ok(all.fold(first, |a, d| a & d))
    }

    fn search(&self, ss: &SplitSet, query: &str, limit: usize) -> Result<Vec<u32>, IndexError> {
        self.search_filtered(ss, query, &[], limit)
    }

    fn search_filtered(
        &self,
        ss: &SplitSet,
        query: &str,
        filter: &[Selection],
        limit: usize,
    ) -> Result<Vec<u32>, IndexError> {
        let keys = match ss.body_kind() {
            BodyKind::Trigram => ngram_keys(query, ss.gram_size() as usize),
            BodyKind::Term => Vec::new(),
        };
        let fields = group_by_field(filter);
        let mut s = SplitSearch::begin(ss, keys.clone(), fields, !filter.is_empty(), limit)?;
        loop {
            s = match s.step() {
                Step::Done(ids) => return Ok(ids.to_vec()),
                Step::Probe => {
                    let present = self.probe(&keys);
                    s.with_probe(present)
                }
                Step::Rank { candidates, limit } => {
                    let mut ids = candidates.to_vec();
                    ids.sort_by_key(|&id| std::cmp::Reverse(self.scores[id as usize]));
                    ids.truncate(limit);
                    s.with_ranking(ids)
                }
                Step::Search { targets, limit } => {
                    let mut hits = Vec::new();
                    for &t in targets {
                        let name = &ss.splits()[t].data_file;
                        let raw = self.fetch(name)?;
                        let all = match ss.body_kind() {
                            BodyKind::Trigram => Store::trigram_hits(raw, &keys),
                            BodyKind::Term => {
                                Store::term_hits(raw, query, limit).into_iter().collect()
                            }
                        };
                        let kept = if filter.is_empty() {
                            all
                        } else {
                            all & self.mask(name, filter)?
                        };
                        hits.push(kept.iter().take(limit).collect());
                    }
                    s.with_hits(hits)?
                }
            };
        }
    }

    /// Whether the global filter lets every key through; a missing one lets all through.
    fn probe(&self, keys: &[u64]) -> bool {
        let raw = match &self.bloom {
            Some(name) => match self.fetch(name) {
                Ok(raw) => raw,
                Err(_) => return true,
            },
            None => return true,
        };
        let b = RemoteBloom::open(&raw[..8]).unwrap();
        keys.iter().all(|&k| probe_one(&b, raw, k))
    }

    fn count_estimate(&self, ss: &SplitSet, query: &str) -> Result<(u64, bool), IndexError> {
        let keys = ngram_keys(query, 3);
        let mut counts = Vec::new();
        for t in count_targets(ss, &keys)? {
            let raw = self.fetch(&ss.splits()[t].data_file)?;
            let n = keys
                .iter()
                .map(|&k| Store::trigram_hits(raw, &[k]).len())
                .min()
                .unwrap_or(0);
            counts.push(n);
        }
        Ok(combine_counts(ss, keys.len(), &counts))
    }

    /// The counts of every category that the docs `ids` fall into.
    fn facet_counts(&self, ss: &SplitSet, ids: &[u32]) -> Result<Vec<FieldCounts>, IndexError> {
        let answers = ids_by_split(ss, ids)
            .into_iter()
            .map(|(at, docs)| self.split_counts(&ss.splits()[at].data_file, &docs))
            .collect();
        Ok(aggregate_counts(&contributions(answers)?))
    }

    /// The counts of the categories that the docs of one split fall into.
    fn split_counts(
        &self,
        data_file: &str,
        docs: &RoaringBitmap,
    ) -> Result<Vec<FieldCounts>, IndexError> {
        let raw = self.fetch(&facet_file_name(data_file))?;
        let mut fields: Vec<FieldCounts> = Vec::new();
        for (field, category, all) in read_facets(raw)? {
            let n = all.intersection_len(docs);
            if fields.last().map(|f| f.field.as_str()) != Some(field.as_str()) {
                fields.push(FieldCounts {
                    field,
                    categories: Vec::new(),
                });
            }
            fields.last_mut().unwrap().categories.push((category, n));
        }
        Ok(fields)
    }
}

/// Probes one key, reading only the bytes that its positions fall in.
fn probe_one(b: &RemoteBloom, raw: &[u8], key: u64) -> bool {
    let probes = b.probes(key);
    let read: Vec<u8> = probes.iter().map(|&(at, _)| raw[at as usize]).collect();
    RemoteBloom::contains_all(&probes, &read)
}

fn config(policy: Policy, byte_cap: u64, bloom_bits_per_key: u32) -> SplitBuildConfig {
    SplitBuildConfig {
        byte_cap_max: 0,
        policy,
        byte_cap,
        gram_size: 3,
        head_boundary: 0,
        stride: 0,
        name_prefix: "corpus".to_string(),
        sortcol: None,
        bloom_bits_per_key,
        case_sensitive: false,
    }
}

fn term_config(byte_cap: u64, prefix: &str) -> TermSplitBuildConfig {
    TermSplitBuildConfig {
        byte_cap_max: 0,
        policy: Policy::Tiered,
        byte_cap,
        head_boundary: 0,
        name_prefix: prefix.to_string(),
        sortcol: None,
        language: None,
        stem: false,
        stopwords: false,
        case_sensitive: false,
    }
}

fn add(b: &mut SplitSetBuilder, text: &str) -> Result<u32, BuildError> {
    b.add_keys(&ngram_keys(text, 3), &encode, &encode_facets)
}

fn add_with(
    b: &mut SplitSetBuilder,
    text: &str,
    facets: &[(&str, &str)],
) -> Result<u32, BuildError> {
    b.add_faceted(&ngram_keys(text, 3), &pick(facets), &encode, &encode_facets)
}

fn finish(b: SplitSetBuilder) -> BuiltSplitSet {
    b.finish(&encode, &encode_facets).unwrap()
}

/// Builds `n` documents whose texts `text` gives.
fn corpus(c: SplitBuildConfig, n: u32, text: impl Fn(u32) -> String) -> BuiltSplitSet {
    let mut b = SplitSetBuilder::new(c);
    for i in 0..n {
        // Fed in rank order, so doc i has global id i == rank i.
        assert_eq!(add(&mut b, &text(i)).unwrap(), i);
    }
    finish(b)
}

fn open_built(built: &BuiltSplitSet) -> SplitSet {
    SplitSet::from_bytes(&built.manifest).unwrap()
}

/// Two "en" docs, then two "fr" docs, all matching "abc".
fn languages(policy: Policy) -> BuiltSplitSet {
    let mut b = SplitSetBuilder::new(config(policy, 250, 8));
    add_with(&mut b, "abc en0", &[("lang", "en")]).unwrap();
    add_with(&mut b, "abc en1", &[("lang", "en")]).unwrap();
    add_with(&mut b, "abc fr0", &[("lang", "fr")]).unwrap();
    add_with(&mut b, "abc fr1", &[("lang", "fr")]).unwrap();
    finish(b)
}

fn lang(l: &str) -> Vec<Selection> {
    pick(&[("lang", l)])
}

#[test]
fn count_estimate_sums_per_split_and_flags_exactness() {
    // 60 docs all containing "abc" with a unique per-doc token; a small byte cap forces
    // several splits so the estimate must sum across them.
    let built = corpus(config(Policy::Tiered, 4096, 0), 60, |i| {
        format!("abc unq{i:04}")
    });
    assert!(
        built.splits.len() > 1,
        "byte cap should force multiple splits"
    );
    let ss = open_built(&built);
    let store = Store::of(&built);

    // Single-trigram "abc": every doc matches, base-only, no tombstones -> the summed
    // per-split cardinalities are the exact corpus total.
    assert_eq!(store.count_estimate(&ss, "abc").unwrap(), (60, true));
    // A single trigram no doc holds -> 0, still exact.
    assert_eq!(store.count_estimate(&ss, "zzz").unwrap(), (0, true));
    // A multi-trigram query -> an upper bound (never undercounts the true AND result),
    // flagged inexact.
    let true_count = store.search(&ss, "abc unq", 1000).unwrap().len() as u64;
    let (mc, me) = store.count_estimate(&ss, "abc unq").unwrap();
    assert!(!me, "a multi-key estimate is an upper bound, not exact");
    assert!(
        mc >= true_count,
        "estimate {mc} must not undercount the true count {true_count}"
    );
    // A query too short to form an n-gram -> (0, true).
    assert_eq!(store.count_estimate(&ss, "ab").unwrap(), (0, true));
}

#[test]
fn count_exact_is_the_full_intersection_count() {
    let built = corpus(config(Policy::Tiered, 4096, 0), 60, |i| {
        format!("abc unq{i:04}")
    });
    assert!(
        built.splits.len() > 1,
        "byte cap should force multiple splits"
    );
    let ss = open_built(&built);
    let store = Store::of(&built);
    // Every doc contains "abc": an unbounded search lists all 60.
    assert_eq!(store.search(&ss, "abc", usize::MAX).unwrap().len(), 60);
    // A query no doc holds -> exactly 0.
    assert_eq!(store.search(&ss, "zzz", usize::MAX).unwrap().len(), 0);
}

#[test]
fn tiered_descent_across_wave_boundaries_matches_rank_order() {
    // Enough splits to cross several wave boundaries. Every doc matches "abc", so the result
    // must be exact global rank order no matter where a wave boundary falls.
    let n = 200u32;
    let built = corpus(config(Policy::Tiered, 2048, 0), n, |i| {
        format!("abc unq{i:05}")
    });
    assert!(
        built.splits.len() > DESCENT_WAVE + 1,
        "need multiple waves (got {} splits)",
        built.splits.len()
    );
    let ss = open_built(&built);
    let store = Store::of(&built);
    // Page sizes that fill in tier 0, stop mid-descent across a wave, and exhaust every split.
    for limit in [3usize, 30, 100, 200] {
        let got = store.search(&ss, "abc", limit).unwrap();
        let want: Vec<u32> = (0..limit.min(n as usize) as u32).collect();
        assert_eq!(got, want, "limit={limit}");
    }
}

#[test]
fn count_estimate_rejects_term_bodied_splits() {
    let mut b = TermSplitSetBuilder::new(term_config(4096, "corpus"));
    for i in 0..10u32 {
        b.add_text(&format!("alpha beta tok{i}"), &encode_facets)
            .unwrap();
    }
    let built = b.finish(&encode_facets).unwrap();
    let ss = open_built(&built);
    // Term bodies have no header-only count primitive -> a clear Unsupported, not a wrong count.
    assert!(
        matches!(
            Store::of(&built).count_estimate(&ss, "alpha"),
            Err(IndexError::Unsupported(_))
        ),
        "term-bodied count_estimate should be Unsupported"
    );
}

#[test]
fn tiered_build_query_returns_global_rank_order_across_splits() {
    // Docs all containing "abc" (so the query matches every doc), each with a unique token so
    // distinct trigrams accumulate and a small byte cap forces several splits.
    let n = 60u32;
    let built = corpus(config(Policy::Tiered, 4096, 0), n, |i| {
        format!("abc tok{i:04}")
    });
    assert!(
        built.splits.len() > 1,
        "byte cap should force multiple splits"
    );

    let ss = open_built(&built);
    assert_eq!(ss.policy(), Policy::Tiered);
    assert_eq!(ss.tier_count() as usize, built.splits.len());
    // Every split sealed at or under the cap (the estimate is an upper bound).
    assert!(ss.splits().iter().all(|s| s.byte_size <= ss.byte_cap()));
    // Splits hold disjoint, increasing global id ranges that tile [0, n).
    assert_eq!(ss.splits()[0].doc_id_lo, 0);
    assert_eq!(ss.splits().last().unwrap().doc_id_hi, n - 1);
    for w in ss.splits().windows(2) {
        assert_eq!(w[0].doc_id_hi + 1, w[1].doc_id_lo);
    }

    let store = Store::of(&built);
    // Top-3 are the three highest-ranked docs (global ids 0,1,2), from tier 0 only.
    assert_eq!(store.search(&ss, "abc", 3).unwrap(), vec![0, 1, 2]);
    // A large page returns every match in ascending global (rank) order.
    let all = store.search(&ss, "abc", 1000).unwrap();
    assert_eq!(all, (0..n).collect::<Vec<u32>>());
    // An absent term yields nothing.
    assert!(store.search(&ss, "zzz9999", 10).unwrap().is_empty());
}

#[test]
fn term_bodied_tiered_build_query_returns_global_rank_order() {
    // 60 docs all containing the token "abc" (matches every doc), each with a unique token so
    // distinct terms accumulate and a small cap forces several splits.
    let mut b = TermSplitSetBuilder::new(term_config(600, "corpus"));
    let n = 60u32;
    for i in 0..n {
        // Fed in rank order, so doc i has global id i == rank i.
        let id = b.add_text(&format!("abc tok{i:04}"), &encode_facets);
        assert_eq!(id.unwrap(), i);
    }
    assert_eq!(b.doc_count(), n);
    let built = b.finish(&encode_facets).unwrap();
    assert!(
        built.splits.len() > 1,
        "byte cap should force multiple splits"
    );
    // Term split data files use the `.rrt` extension; the manifest records the term body kind.
    assert!(built.splits.iter().all(|(name, _)| name.ends_with(".rrt")));

    let ss = open_built(&built);
    assert_eq!(ss.policy(), Policy::Tiered);
    assert_eq!(ss.body_kind(), BodyKind::Term);
    assert_eq!(ss.tier_count() as usize, built.splits.len());
    assert_eq!(ss.splits()[0].doc_id_lo, 0);
    assert_eq!(ss.splits().last().unwrap().doc_id_hi, n - 1);

    let store = Store::of(&built);
    // Top-3 are the three highest-ranked docs (global ids 0,1,2), from tier 0 only.
    assert_eq!(store.search(&ss, "abc", 3).unwrap(), vec![0, 1, 2]);
    // A large page returns every match in ascending global (rank) order.
    let all = store.search(&ss, "abc", 1000).unwrap();
    assert_eq!(all, (0..n).collect::<Vec<u32>>());
    // A unique token resolves to exactly its doc: whole-token matching, not trigram.
    assert_eq!(store.search(&ss, "tok0007", 10).unwrap(), vec![7]);
    // An absent term yields nothing.
    assert!(store.search(&ss, "zzz9999", 10).unwrap().is_empty());
}

#[test]
fn stable_key_build_query_ranks_by_sortcol() {
    // Six docs all matching "abc"; a small cap splits them across two splits so the
    // cross-split merge runs. Rank comes from the column that the manifest names.
    let mut c = config(Policy::StableKey, 300, 0);
    c.sortcol = Some(SortColSpec {
        name: "ranks.rrsc".to_string(),
        column: 0,
        descending: true,
    });
    let built = corpus(c, 6, |i| format!("abc tok{i}"));
    assert!(built.splits.len() > 1, "cap should split the six docs");

    let ss = open_built(&built);
    assert_eq!(ss.policy(), Policy::StableKey);
    assert_eq!(ss.tier_count(), 0);
    let mut store = Store::of(&built);
    // Rank scores keyed by global id 0..6; higher = better (descending).
    store.scores = vec![10u32, 60, 30, 50, 20, 40];
    // Top-3 by score desc: 60(id1), 50(id3), 40(id5).
    assert_eq!(store.search(&ss, "abc", 3).unwrap(), vec![1, 3, 5]);
    // Full order: 60,50,40,30,20,10 -> ids 1,3,5,2,4,0.
    assert_eq!(
        store.search(&ss, "abc", 100).unwrap(),
        vec![1, 3, 5, 2, 4, 0]
    );
}

#[test]
fn builder_rejects_single_doc_over_cap() {
    // One document whose postings alone exceed a tiny cap is a degenerate corpus.
    let mut b = SplitSetBuilder::new(config(Policy::Tiered, 10, 0));
    add(&mut b, "abcdefghij").unwrap();
    let r = b.finish(&encode, &encode_facets);
    assert!(r.is_err());
    assert!(matches!(r, Err(BuildError::DocTooLarge { cap: 10, .. })));
}

#[test]
fn keyword_less_doc_still_consumes_an_id() {
    // A doc too short for any trigram keeps the global id space dense (alignment with
    // records/facets), but never appears in results.
    let mut b = SplitSetBuilder::new(config(Policy::Tiered, 1 << 20, 0));
    assert_eq!(add(&mut b, "abc").unwrap(), 0);
    assert_eq!(add(&mut b, "xy").unwrap(), 1); // too short -> no trigram, id 1 consumed
    assert_eq!(add(&mut b, "abc").unwrap(), 2);
    assert_eq!(b.doc_count(), 3);
    let built = finish(b);
    let ss = open_built(&built);
    // "abc" matches docs 0 and 2 only; the keyword-less doc 1 is absent.
    assert_eq!(
        Store::of(&built).search(&ss, "abc", 10).unwrap(),
        vec![0, 2]
    );
}

#[test]
fn remote_bloom_probes_without_downloading() {
    let keys: Vec<u64> = (0..500u64).map(|i| i * 7 + 3).collect();
    let bloom = bloom_build(&keys, 10);
    let r = RemoteBloom::open(&bloom[..8]).unwrap();
    assert!([3u64, 10, 24].iter().all(|&k| probe_one(&r, &bloom, k)));
    // An inserted-keys-only conjunction is possibly-present; adding one definitely-absent key
    // flips the whole strict AND to false.
    assert!(![3u64, 10, 1_000_003]
        .iter()
        .all(|&k| probe_one(&r, &bloom, k)));
    // Every inserted key passes.
    assert!(keys.iter().all(|&k| probe_one(&r, &bloom, k)));
}

#[test]
fn global_bloom_ends_the_descent_for_absent_terms() {
    // A set without per-split filters, so an absent term would otherwise descend through
    // every split.
    let built = corpus(config(Policy::Tiered, 4096, 0), 200, |i| {
        format!("abc tok{i:04}")
    });
    let mut vocab = BTreeSet::new();
    for i in 0..200u32 {
        vocab.extend(ngram_keys(&format!("abc tok{i:04}"), 3));
    }
    assert!(built.splits.len() > 2, "need several splits for a descent");
    let ss = open_built(&built);
    let keys: Vec<u64> = vocab.into_iter().collect();
    let store = |bloom: Option<&str>| {
        let mut s = Store::of(&built);
        s.files
            .insert("global.bloom".to_string(), bloom_build(&keys, 10));
        s.bloom = bloom.map(String::from);
        s
    };

    // Absent term, no global filter: every split opens before giving up.
    let r = store(None);
    assert!(r.search(&ss, "zzzqqq", 10).unwrap().is_empty());
    assert_eq!(r.opens.get(), ss.splits().len());

    // Absent term, with the global filter: the top split opens, the probe answers
    // definitively absent, and the descent ends.
    let r = store(Some("global.bloom"));
    assert!(r.search(&ss, "zzzqqq", 10).unwrap().is_empty());
    assert_eq!(
        r.opens.get(),
        2,
        "first split + the Bloom probe, nothing else"
    );

    // A common present term fills from the top tiers: results are identical.
    let want = store(None).search(&ss, "abc", 100).unwrap();
    let got = store(Some("global.bloom")).search(&ss, "abc", 100).unwrap();
    assert_eq!(got, want);

    // A rare-but-present term (only in a deep split): the probe says possibly present, and the
    // descent continues to find it.
    let want = store(None).search(&ss, "tok0199", 10).unwrap();
    assert_eq!(want.len(), 1);
    let got = store(Some("global.bloom"))
        .search(&ss, "tok0199", 10)
        .unwrap();
    assert_eq!(got, want);

    // A configured-but-missing sidecar must never break search.
    let got = store(Some("nope.bloom"))
        .search(&ss, "tok0199", 10)
        .unwrap();
    assert_eq!(got, want);
}

#[test]
fn bloom_prunes_splits_without_the_term() {
    // Same 60-doc corpus built twice: without and with per-split Bloom filters.
    let text = |i: u32| format!("abc tok{i:04}");
    let plain = corpus(config(Policy::Tiered, 4096, 0), 60, text);
    let bloomed = corpus(config(Policy::Tiered, 4096, 10), 60, text);
    let plain_ss = open_built(&plain);
    let bloom_ss = open_built(&bloomed);
    assert_eq!(bloom_ss.flags() & FLAG_BLOOM, FLAG_BLOOM);
    assert_eq!(plain_ss.flags() & FLAG_BLOOM, 0);

    // An absent term: without Bloom the tiered scan can never fill k, so it opens *every*
    // base split; with Bloom every split is pruned, so it opens none, and both return [].
    let q = "zzzqqq";
    let plain_r = Store::of(&plain);
    let bloom_r = Store::of(&bloomed);
    assert!(plain_r.search(&plain_ss, q, 10).unwrap().is_empty());
    assert!(bloom_r.search(&bloom_ss, q, 10).unwrap().is_empty());
    assert_eq!(plain_r.opens.get(), plain_ss.splits().len());
    assert_eq!(bloom_r.opens.get(), 0, "Bloom should skip every split");

    // A present term: results must be identical with and without Bloom, and Bloom must not
    // open more splits than the plain scan.
    let q = "abc";
    let plain_r = Store::of(&plain);
    let bloom_r = Store::of(&bloomed);
    let plain_hits = plain_r.search(&plain_ss, q, 5).unwrap();
    let bloom_hits = bloom_r.search(&bloom_ss, q, 5).unwrap();
    assert_eq!(plain_hits, vec![0, 1, 2, 3, 4]);
    assert_eq!(bloom_hits, plain_hits);
    assert!(bloom_r.opens.get() <= plain_r.opens.get());
}

#[test]
fn facet_filtered_search_prunes_and_filters() {
    // A small cap puts the two "en" docs in split 0 and the two "fr" docs in split 1, so a
    // facet filter prunes the split that lacks the category.
    let built = languages(Policy::Tiered);
    assert_eq!(built.splits.len(), 2, "cap should split en|fr");
    assert_eq!(built.facets.len(), 2, "one RRSF per split");

    let ss = open_built(&built);
    assert_eq!(ss.flags() & FLAG_FACET, FLAG_FACET);

    // lang=en: only the two en docs; the fr split is pruned by facet presence.
    let r = Store::of(&built);
    assert_eq!(
        r.search_filtered(&ss, "abc", &lang("en"), 10).unwrap(),
        vec![0, 1]
    );
    assert_eq!(r.opens.get(), 2, "only split 0 opened (its .rrs + .rrf)");

    // lang=fr: the other two; the en split is pruned.
    assert_eq!(
        Store::of(&built)
            .search_filtered(&ss, "abc", &lang("fr"), 10)
            .unwrap(),
        vec![2, 3]
    );

    // An absent category prunes every split: zero opens, empty result.
    let r = Store::of(&built);
    assert!(r
        .search_filtered(&ss, "abc", &lang("de"), 10)
        .unwrap()
        .is_empty());
    assert_eq!(r.opens.get(), 0, "an absent category opens no splits");

    // An empty filter is exactly the unfiltered search.
    assert_eq!(
        Store::of(&built)
            .search_filtered(&ss, "abc", &[], 10)
            .unwrap(),
        vec![0, 1, 2, 3]
    );
}

#[test]
fn tiered_filtered_search_bounded_page_matches_full_and_stops_early() {
    let mut b = SplitSetBuilder::new(config(Policy::Tiered, 250, 8));
    // Enough docs to span several waves, so a bounded page stops whole waves short.
    let n = 40u32;
    for i in 0..n {
        add_with(&mut b, &format!("abc en{i}"), &[("lang", "en")]).unwrap();
    }
    let built = finish(b);
    assert!(
        built.splits.len() > 2 * DESCENT_WAVE,
        "need several waves for an early-stop, got {} splits",
        built.splits.len()
    );
    let ss = open_built(&built);

    // Full page: every en doc in ascending (rank) order.
    let r_full = Store::of(&built);
    let full = r_full
        .search_filtered(&ss, "abc", &lang("en"), 1000)
        .unwrap();
    assert_eq!(full, (0..n).collect::<Vec<u32>>());

    // A small page equals the full page truncated.
    let r_small = Store::of(&built);
    let small = r_small
        .search_filtered(&ss, "abc", &lang("en"), 3)
        .unwrap();
    assert_eq!(small, full[..3].to_vec());

    // Early stop: the small page fills within the first wave, so it opens strictly fewer
    // splits than the full descent across every wave.
    assert!(
        r_small.opens.get() < r_full.opens.get(),
        "small page opened {} files, full page {}",
        r_small.opens.get(),
        r_full.opens.get()
    );
}

#[test]
fn stable_key_filtered_search_wave_returns_all_matches() {
    let built = languages(Policy::StableKey);
    assert_eq!(built.splits.len(), 2, "cap should split en|fr");
    let ss = open_built(&built);
    assert_eq!(ss.policy(), Policy::StableKey);
    let store = Store::of(&built);

    // The wave over the surviving en split returns both en docs; the fr split is pruned.
    assert_eq!(
        store.search_filtered(&ss, "abc", &lang("en"), 10).unwrap(),
        vec![0, 1]
    );
    assert_eq!(
        store.search_filtered(&ss, "abc", &lang("fr"), 10).unwrap(),
        vec![2, 3]
    );
    // No filter searches both splits (the full wave) and returns all matches ascending.
    assert_eq!(
        store.search_filtered(&ss, "abc", &[], 10).unwrap(),
        vec![0, 1, 2, 3]
    );
    // An absent category prunes every split.
    assert!(store
        .search_filtered(&ss, "abc", &lang("de"), 10)
        .unwrap()
        .is_empty());
}

#[test]
fn facet_filtered_search_survives_stripped_summaries() {
    // The manifest is written again with every per-split summary dropped and the facet flag
    // cleared. A missing facet record must read as "no information", not "no facets".
    let built = languages(Policy::Tiered);
    let full = open_built(&built);
    let stripped_specs: Vec<SplitSpec> = full
        .splits()
        .iter()
        .map(|s| SplitSpec {
            data_file: s.data_file.clone(),
            tier: s.tier,
            doc_count: s.doc_count,
            doc_id_lo: s.doc_id_lo,
            doc_id_hi: s.doc_id_hi,
            epoch: s.epoch,
            byte_size: s.byte_size,
            flags: 0,
            summary: Vec::new(),
        })
        .collect();
    let config = SplitSetConfig {
        policy: full.policy(),
        tier_count: full.tier_count(),
        base_count: full.base_count(),
        byte_cap: full.byte_cap(),
        gram_size: full.gram_size(),
        body_kind: full.body_kind(),
        sortcol: None,
        flags: 0,
    };
    let manifest = write_splitset(&stripped_specs, &config).unwrap();
    let ss = SplitSet::from_bytes(&manifest).unwrap();
    assert_eq!(ss.flags() & FLAG_FACET, 0);
    let store = Store::of(&built);

    // The filtered results must match the summarized manifest's exactly.
    assert_eq!(
        store.search_filtered(&ss, "abc", &lang("en"), 10).unwrap(),
        vec![0, 1]
    );
    assert_eq!(
        store.search_filtered(&ss, "abc", &lang("fr"), 10).unwrap(),
        vec![2, 3]
    );

    // An absent category now costs .rrf reads (no pruning possible) but stays empty.
    let r = Store::of(&built);
    assert!(r
        .search_filtered(&ss, "abc", &lang("de"), 10)
        .unwrap()
        .is_empty());
    assert!(
        r.opens.get() > 0,
        "without summaries every split is consulted"
    );
}

fn lang_of(counts: &[FieldCounts]) -> Vec<(String, u64)> {
    counts
        .iter()
        .find(|fc| fc.field == "lang")
        .map(|fc| fc.categories.clone())
        .unwrap_or_default()
}

#[test]
fn facet_counts_aggregate_across_splits_by_name() {
    // Two "en" docs in split 0, two "fr" docs in split 1, each with its own sidecar: the counts
    // must sum each split's per-category counts into one name-keyed result.
    let built = languages(Policy::Tiered);
    assert_eq!(built.splits.len(), 2);
    let store = Store::of(&built);
    let ss = open_built(&built);

    // Full result set spans both splits: en=2 (split 0) + fr=2 (split 1).
    let counts = store.facet_counts(&ss, &[0, 1, 2, 3]).unwrap();
    let m: HashMap<String, u64> = lang_of(&counts).into_iter().collect();
    assert_eq!(m.get("en"), Some(&2));
    assert_eq!(m.get("fr"), Some(&2));

    // Subset in split 0 only: fr is omitted (zero counts dropped).
    let counts = store.facet_counts(&ss, &[0, 1]).unwrap();
    assert_eq!(lang_of(&counts), vec![("en".to_string(), 2)]);

    // A single fr id -> fr=1.
    let counts = store.facet_counts(&ss, &[2]).unwrap();
    assert_eq!(lang_of(&counts), vec![("fr".to_string(), 1)]);

    // No ids -> no fields.
    assert!(store.facet_counts(&ss, &[]).unwrap().is_empty());
}

#[test]
fn facet_counts_skips_absent_but_propagates_unreadable_sidecar() {
    // The ways a per-split sidecar can be unavailable: absent, corrupt, or failing to transfer.
    let built = languages(Policy::Tiered);
    assert_eq!(built.splits.len(), 2);
    let ss = open_built(&built);
    // The name of the fr split's facet sidecar: the one made unavailable below.
    let fr_facet = facet_file_name(&ss.splits()[1].data_file);

    // Absent sidecar: that split is skipped, split 0's counts are returned.
    let mut store = Store::of(&built);
    store.files.remove(&fr_facet);
    let counts = store.facet_counts(&ss, &[0, 1, 2, 3]).unwrap();
    assert_eq!(lang_of(&counts), vec![("en".to_string(), 2)]);

    // Corrupt sidecar: present but garbage bytes; the error must propagate.
    store.files.insert(fr_facet.clone(), vec![0xFFu8; 4]);
    assert!(store.facet_counts(&ss, &[0, 1, 2, 3]).is_err());

    // A transport failure on an otherwise-present sidecar propagates too.
    let mut flaky = Store::of(&built);
    flaky.broken = Some(fr_facet);
    assert!(flaky.facet_counts(&ss, &[0, 1, 2, 3]).is_err());
}

#[test]
fn streaming_drain_equals_whole_build() {
    // Streaming a large build (drain after each add) must produce byte-for-byte the same
    // splits, facets, and manifest as accumulating the whole set in memory.
    let docs: Vec<String> = (0..40)
        .map(|i| format!("abc topic{} tok{i:03}", i % 5))
        .collect();
    let group = |i: usize| format!("{}", i % 3);

    let mut whole = SplitSetBuilder::new(config(Policy::Tiered, 2048, 10));
    for (i, d) in docs.iter().enumerate() {
        add_with(&mut whole, d, &[("g", group(i).as_str())]).unwrap();
    }
    let whole = finish(whole);
    assert!(whole.splits.len() > 1);

    let mut stream = SplitSetBuilder::new(config(Policy::Tiered, 2048, 10));
    let mut splits = Vec::new();
    let mut facets = Vec::new();
    for (i, d) in docs.iter().enumerate() {
        add_with(&mut stream, d, &[("g", group(i).as_str())]).unwrap();
        let (s, f) = stream.drain_sealed();
        splits.extend(s);
        facets.extend(f);
    }
    let tail = finish(stream);
    splits.extend(tail.splits);
    facets.extend(tail.facets);

    assert_eq!(tail.manifest, whole.manifest, "manifests differ");
    assert_eq!(splits, whole.splits, "streamed splits differ");
    assert_eq!(facets, whole.facets, "streamed facet sidecars differ");
}

#[test]
fn geometric_seals_fewer_splits_than_flat() {
    let build = |byte_cap_max: u64| {
        let words = [
            "alpha", "beta", "gamma", "delta", "epsilon", "zeta", "eta", "theta", "iota", "kappa",
        ];
        // Base 400: comfortably above the largest single document.
        let mut b = SplitSetBuilder::new(SplitBuildConfig {
            byte_cap_max,
            name_prefix: "geo".to_string(),
            ..config(Policy::Tiered, 400, 8)
        });
        for i in 0..24 {
            let text = format!(
                "{} {}",
                words[i % words.len()],
                words[(i + 3) % words.len()]
            );
            let year = (2018 + (i % 5)).to_string();
            add_with(&mut b, &text, &[("year", year.as_str())]).unwrap();
        }
        finish(b).splits.len()
    };
    assert!(
        build(1600) < build(0),
        "doubling caps should reduce the split count"
    );
}

#[test]
fn tier_caps_double_up_to_the_maximum() {
    assert_eq!(cap_for(300, 0, 9), 300);
    assert_eq!(cap_for(300, 1200, 0), 300);
    assert_eq!(cap_for(300, 1200, 1), 600);
    assert_eq!(cap_for(300, 1200, 2), 1200);
    assert_eq!(cap_for(300, 1200, 3), 1200);
    assert_eq!(cap_for(300, 1200, 200), 1200);
    // A maximum below the cap does not lower it.
    assert_eq!(cap_for(300, 100, 4), 300);
}

#[test]
fn flush_supersession_and_compact_lifecycle() {
    // ---- base: 6 docs all matching "abc", built tiered ----
    let built = corpus(config(Policy::Tiered, 400, 10), 6, |i| {
        format!("abc base{i}")
    });
    let mut files: HashMap<String, Vec<u8>> = built.splits.iter().cloned().collect();
    let base_ss = open_built(&built);

    // ---- resume + add two fresh docs + flush (atomic cutover bytes) ----
    let mut w = SplitSetWriter::resume(&base_ss, 3, 0, 0, "corpus".to_string(), 10);
    assert_eq!(w.add_keys(&ngram_keys("abc new0", 3)), 6); // ids continue past the base
    assert_eq!(w.add_keys(&ngram_keys("abc new1", 3)), 7);
    assert_eq!(w.memtable_doc_count(), 2);
    let f = w.flush(encode_entries).unwrap().expect("a flush happened");
    files.insert(f.split_name.clone(), f.split_bytes.clone());

    let ss1 = SplitSet::from_bytes(&f.manifest).unwrap();
    assert_eq!(ss1.delta_splits().len(), 1);
    let res1 = Store::over(files.clone()).search(&ss1, "abc", 100).unwrap();
    // Base in rank order, then the two fresh docs appended (findable after the base).
    assert_eq!(res1, vec![0, 1, 2, 3, 4, 5, 6, 7]);

    // ---- delete a base doc + flush (deletes-only -> a tombstone-carrying split) ----
    w.delete(2);
    let f2 = w.flush(encode_entries).unwrap().expect("deletes-only flush");
    files.insert(f2.split_name.clone(), f2.split_bytes.clone());
    let ss2 = SplitSet::from_bytes(&f2.manifest).unwrap();
    assert_eq!(ss2.delta_splits().len(), 2);
    let res2 = Store::over(files.clone()).search(&ss2, "abc", 100).unwrap();
    assert_eq!(res2, vec![0, 1, 3, 4, 5, 6, 7]); // doc 2 masked by the tombstone

    // ---- compact the two deltas into one absolute-id split ----
    let inputs: Vec<(String, Vec<u8>)> = ss2
        .delta_splits()
        .iter()
        .map(|s| (s.data_file.clone(), files[&s.data_file].clone()))
        .collect();
    let c = w.compact(&inputs, encode_entries).unwrap();
    assert_eq!(c.removed.len(), 2);
    files.insert(c.split_name.clone(), c.split_bytes.clone());
    let ss3 = SplitSet::from_bytes(&c.manifest).unwrap();
    assert_eq!(ss3.delta_splits().len(), 1, "two deltas merged into one");
    assert!(ss3.delta_splits()[0].absolute_ids());
    let res3 = Store::over(files.clone()).search(&ss3, "abc", 100).unwrap();
    assert_eq!(
        res3, res2,
        "compaction preserves results (and supersession)"
    );
}

fn fresh() -> SplitSetWriter {
    SplitSetWriter::new(WriterConfig {
        gram_size: 3,
        head_boundary: 0,
        stride: 0,
        byte_cap: 1 << 20,
        name_prefix: "fresh".to_string(),
        policy: Policy::StableKey,
        tier_count: 0,
        sortcol: None,
        bloom_bits_per_key: 0,
    })
}

#[test]
fn fresh_writer_flushes_first_delta() {
    let mut w = fresh();
    assert!(
        w.flush(encode_entries).unwrap().is_none(),
        "nothing to flush yet"
    );
    w.add_keys(&ngram_keys("abc hello", 3));
    let f = w.flush(encode_entries).unwrap().unwrap();
    let ss = SplitSet::from_bytes(&f.manifest).unwrap();
    assert_eq!(ss.base_count(), 0);
    assert_eq!(ss.delta_splits().len(), 1);
    let files: HashMap<String, Vec<u8>> = [(f.split_name, f.split_bytes)].into_iter().collect();
    assert_eq!(
        Store::over(files).search(&ss, "abc", 10).unwrap(),
        vec![0]
    );
}

#[test]
fn a_failed_flush_leaves_the_memtable() {
    let mut w = fresh();
    w.add_keys(&ngram_keys("abc hello", 3));
    let r = w.flush(|_, _, _, _| -> Result<Vec<u8>, BuildError> {
        Err(BuildError::Encoder("disk".to_string()))
    });
    assert!(matches!(r, Err(BuildError::Encoder(_))));
    assert_eq!(w.doc_count(), 1);
    assert!(w.memtable_bytes() > 0);
}

#[test]
fn compaction_refuses_bad_inputs() {
    let built = corpus(config(Policy::Tiered, 4096, 0), 3, |i| {
        format!("abc base{i}")
    });
    let ss = open_built(&built);
    let mut w = SplitSetWriter::resume(&ss, 3, 0, 0, "corpus".to_string(), 0);
    w.add_keys(&ngram_keys("abc new0", 3));
    let f = w.flush(encode_entries).unwrap().unwrap();
    assert!(matches!(
        w.compact(&[("nope.rrs".to_string(), Vec::new())], encode_entries),
        Err(BuildError::NotInManifest(_))
    ));
    assert!(matches!(
        w.compact(&built.splits[..1], encode_entries),
        Err(BuildError::BaseSplit)
    ));
    assert!(matches!(
        w.compact(&[(f.split_name.clone(), vec![1, 2, 3])], encode_entries),
        Err(BuildError::NotAnIndex)
    ));
    let cut = f.split_bytes[..60].to_vec();
    assert!(w.compact(&[(f.split_name, cut)], encode_entries).is_err());
}

#[test]
fn index_reader_names_what_is_wrong() {
    assert!(matches!(
        read_rrs_entries(b"RRSX0000000000000000"),
        Err(BuildError::NotAnIndex)
    ));
    let mut posting = Vec::new();
    RoaringBitmap::from_iter([1u32, 5])
        .serialize_into(&mut posting)
        .unwrap();
    let good = index_file(128, &[(7, posting.clone(), Vec::new())]);
    let entries = read_rrs_entries(&good).unwrap();
    assert_eq!(entries.len(), 1);
    assert_eq!(entries[0].0, 7);
    assert_eq!(entries[0].1.iter().collect::<Vec<u32>>(), vec![1, 5]);
    assert!(matches!(
        read_rrs_entries(&good[..40]),
        Err(BuildError::TruncatedDictionary)
    ));
    assert!(matches!(
        read_rrs_entries(&good[..good.len() - 1]),
        Err(BuildError::PostingOutOfRange)
    ));
    let bad = index_file(128, &[(7, vec![9, 9, 9], Vec::new())]);
    assert!(matches!(
        read_rrs_entries(&bad),
        Err(BuildError::BadPosting)
    ));
}

/// 30 "abc"-bearing docs; the small byte cap forces several splits, so a bundle has several
/// members.
fn bundled() -> BuiltSplitSet {
    let built = corpus(config(Policy::Tiered, 2048, 10), 30, |i| {
        format!("abc tok{i:04}")
    });
    assert!(built.splits.len() > 1, "byte cap should force >1 split");
    built
}

/// The boot of each trigram split: its header and its sparse index.
fn boots(built: &BuiltSplitSet) -> Vec<Option<u64>> {
    built.splits.iter().map(|_| Some(28)).collect()
}

#[test]
fn bundle_inlines_every_split_boot_and_query_matches_cold() {
    let built = bundled();
    let members = write_splitset_bundle(&built, &boots(&built), 0, 1 << 20).unwrap();

    // One member per split, and every split's boot resolves by name.
    assert_eq!(members.len(), built.splits.len());
    for ((name, raw), m) in built.splits.iter().zip(&members) {
        assert_eq!(&m.data_file, name);
        assert_eq!(m.tag, MemberTag::Rrs);
        assert_eq!((m.boot_off, m.boot_len), (0, 28));
        assert_eq!(m.boot_bytes, raw[..28].to_vec());
    }
    assert!(members.iter().all(|m| m.inlined));

    let ss = open_built(&built);
    let store = Store::of(&built);
    assert_eq!(store.search(&ss, "abc", 3).unwrap(), vec![0, 1, 2]);
    let all = store.search(&ss, "abc", 1000).unwrap();
    assert_eq!(all, (0..30).collect::<Vec<u32>>());
}

#[test]
fn max_splits_caps_inlined_members_and_rest_cold_open() {
    let built = bundled();
    // Inline all but the last split; the last is absent from the bundle.
    let n = built.splits.len();
    let members = write_splitset_bundle(&built, &boots(&built), n - 1, 1 << 20).unwrap();
    assert_eq!(members.len(), n - 1);
    assert!(members.iter().any(|m| m.data_file == built.splits[0].0));
    assert!(!members.iter().any(|m| m.data_file == built.splits[n - 1].0));

    let ss = open_built(&built);
    let all = Store::of(&built).search(&ss, "abc", 1000).unwrap();
    assert_eq!(all, (0..30).collect::<Vec<u32>>());
}

#[test]
fn empty_split_set_writes_an_empty_bundle() {
    let built = BuiltSplitSet {
        manifest: Vec::new(),
        splits: Vec::new(),
        facets: Vec::new(),
    };
    let members = write_splitset_bundle(&built, &[], 0, 1 << 20).unwrap();
    assert!(members.is_empty());
}

#[test]
fn term_bundle_inlines_rrti_boots_and_query_matches_cold() {
    let mut b = TermSplitSetBuilder::new(term_config(600, "tcorpus"));
    for i in 0..30u32 {
        b.add_text(&format!("abc tok{i:04}"), &encode_facets)
            .unwrap();
    }
    let built = b.finish(&encode_facets).unwrap();
    assert!(built.splits.len() > 1, "byte cap should force >1 split");
    let none: Vec<Option<u64>> = built.splits.iter().map(|_| None).collect();
    let members = write_splitset_bundle(&built, &none, 0, 1 << 20).unwrap();
    assert_eq!(members.len(), built.splits.len());
    assert!(members
        .iter()
        .all(|m| m.inlined && m.tag == MemberTag::Rrti));
    for ((name, bytes), m) in built.splits.iter().zip(&members) {
        let boot_len = rrti_boot_len(bytes).unwrap() as usize;
        assert_eq!(
            m.boot_bytes,
            bytes[..boot_len].to_vec(),
            "{name} boot must be its RRTI header + router FST"
        );
    }

    let ss = open_built(&built);
    let store = Store::of(&built);
    assert_eq!(store.search(&ss, "abc", 5).unwrap(), vec![0, 1, 2, 3, 4]);
    assert_eq!(store.search(&ss, "tok0007", 10).unwrap(), vec![7]);
    let all = store.search(&ss, "abc", 1000).unwrap();
    assert_eq!(all, (0..30).collect::<Vec<u32>>());
}

#[test]
fn bundle_references_a_boot_over_the_threshold() {
    let built = bundled();
    let at = write_splitset_bundle(&built, &boots(&built), 0, 28).unwrap();
    assert!(at.iter().all(|m| m.inlined));
    let over = write_splitset_bundle(&built, &boots(&built), 0, 27).unwrap();
    assert_eq!(over.len(), built.splits.len());
    assert!(over.iter().all(|m| !m.inlined && m.boot_len == 28));
}

#[test]
fn bundle_refuses_a_boot_past_the_split() {
    let built = BuiltSplitSet {
        manifest: Vec::new(),
        splits: vec![("a.rrs".to_string(), vec![1, 2, 3])],
        facets: Vec::new(),
    };
    assert!(matches!(
        write_splitset_bundle(&built, &[Some(4)], 0, 1 << 20),
        Err(BuildError::BootTooLong {
            boot: 4,
            size: 3,
            ..
        })
    ));
    assert!(matches!(
        write_splitset_bundle(&built, &[None], 0, 1 << 20),
        Err(BuildError::BadSplitHeader(_))
    ));
    assert_eq!(split_boot(&[1, 2, 3], Some(2)), Some((MemberTag::Rrs, 2)));
}

#[test]
fn split_posting_cuts_at_the_boundary() {
    let posting: RoaringBitmap = [1u32, 65_535, 65_536, 70_000].into_iter().collect();
    let (head, tail) = split_posting(&posting, 65_536);
    let ids = |raw: &[u8]| -> Vec<u32> {
        RoaringBitmap::deserialize_from(raw)
            .unwrap()
            .iter()
            .collect()
    };
    assert_eq!(ids(&head), vec![1, 65_535]);
    assert_eq!(ids(&tail), vec![65_536, 70_000]);
}

#[test]
fn bloom_filter_has_its_fixed_layout() {
    // Ten bits per key take seven probes.
    assert_eq!(bloom_k(10), 7);
    let raw = bloom_build(&[1, 2, 3], 10);
    assert_eq!(u32::from_le_bytes(raw[..4].try_into().unwrap()), 7);
    let nbits = u32::from_le_bytes(raw[4..8].try_into().unwrap()) as u64;
    assert_eq!(raw.len() as u64, 8 + nbits.div_ceil(8));
    for k in [1u64, 2, 3] {
        assert!(bloom_contains(&raw, k));
        assert_eq!(bloom_positions(k, 7, nbits).len(), 7);
        assert!(bloom_positions(k, 7, nbits).iter().all(|&p| p < nbits));
    }
    // An empty or damaged filter rules nothing out.
    assert!(bloom_contains(&[], 9));
}

#[test]
fn a_truncated_bloom_rules_nothing_out() {
    let whole = bloom_build(&[], 10);
    assert_eq!(whole.len(), 16);
    assert!(!bloom_contains(&whole, 0));
    for cut in 0..16 {
        assert!(bloom_contains(&whole[..cut], 0), "cut to {cut} bytes");
    }
}

#[test]
fn a_filter_depends_on_its_keys_alone() {
    assert_eq!(bloom_build(&[5, 9, 5], 10), bloom_build(&[9, 5, 9], 10));
}

#[test]
fn a_stride_of_zero_is_the_default() {
    let sized = |stride: u32| {
        let mut w = SplitSetWriter::new(WriterConfig {
            gram_size: 3,
            head_boundary: 0,
            stride,
            byte_cap: 1 << 20,
            name_prefix: "fresh".to_string(),
            policy: Policy::StableKey,
            tier_count: 0,
            sortcol: None,
            bloom_bits_per_key: 0,
        });
        w.add_keys(&(0..200).collect::<Vec<u64>>());
        w.memtable_bytes()
    };
    assert_eq!(sized(0), sized(128));
    assert_eq!(sized(1) - sized(0), (200 - 2) * 8);
}

#[test]
fn the_language_is_recorded_without_stemming() {
    let header = |language: Option<Language>, stem: bool, stopwords: bool| {
        let mut b = TermSplitSetBuilder::new(TermSplitBuildConfig {
            language,
            stem,
            stopwords,
            ..term_config(4096, "corpus")
        });
        b.add_text("los gatos corriendo", &encode_facets).unwrap();
        let built = b.finish(&encode_facets).unwrap();
        parse_header(&built.splits[0].1[..TERM_HEADER_SIZE]).unwrap()
    };
    let h = header(Some(Language::Spanish), false, true);
    assert_eq!((h.language, h.flags), (2, 2));
    let h = header(Some(Language::Spanish), true, true);
    assert_eq!((h.language, h.flags), (2, 3));
    assert_eq!(header(None, false, false).language, 0);
}

#[test]
fn all_splits_are_judged_before_one_is_searched() {
    let key = 7u64;
    let spec = |name: &str, id: u32, payload: &[u8]| SplitSpec {
        data_file: name.to_string(),
        tier: 0,
        doc_count: 1,
        doc_id_lo: id,
        doc_id_hi: id,
        epoch: 0,
        byte_size: 1,
        flags: 0,
        summary: tlv_record(SUMMARY_TAG_FACET, payload),
    };
    let specs = [
        spec("a.rrs", 0, &facet_presence(&[key])),
        spec("b.rrs", 1, &[1, 2]),
    ];
    let open = |policy: Policy| {
        let c = SplitSetConfig {
            policy,
            tier_count: 0,
            base_count: 2,
            byte_cap: 1,
            gram_size: 3,
            body_kind: BodyKind::Trigram,
            sortcol: None,
            flags: FLAG_FACET,
        };
        SplitSet::from_bytes(&write_splitset(&specs, &c).unwrap()).unwrap()
    };
    let stable = open(Policy::StableKey);
    assert!(matches!(
        SplitSearch::begin(&stable, Vec::new(), vec![vec![key]], true, 10),
        Err(IndexError::Malformed(_))
    ));
    // Without a filter the summaries are not looked at.
    assert!(SplitSearch::begin(&stable, Vec::new(), Vec::new(), false, 10).is_ok());
    // A descent meets the malformed summary only where it gets that far.
    let tiered = open(Policy::Tiered);
    let s = match SplitSearch::begin(&tiered, Vec::new(), vec![vec![key]], true, 1) {
        Ok(s) => s,
        Err(_) => panic!("the top split is sound"),
    };
    match s.step() {
        Step::Search { targets, limit } => assert_eq!((targets, limit), (&[0usize][..], 1)),
        _ => panic!("the top split is searched first"),
    }
    let s = match s.with_hits(vec![vec![0]]) {
        Ok(s) => s,
        Err(_) => panic!("the page is full"),
    };
    match s.step() {
        Step::Done(ids) => assert_eq!(ids, &[0]),
        _ => panic!("the page is full"),
    }
}

#[test]
fn epochs_advance_with_every_flush() {
    let mut w = fresh();
    let mut files = Vec::new();
    for i in 0..3u64 {
        w.add_keys(&[i]);
        let f = w.flush(encode_entries).unwrap().unwrap();
        files.push((f.split_name, f.split_bytes));
        let ss = SplitSet::from_bytes(&f.manifest).unwrap();
        let epochs: Vec<u64> = ss.splits().iter().map(|s| s.epoch).collect();
        assert_eq!(epochs, (1..=i + 1).collect::<Vec<u64>>());
    }
    // A compaction keeps the latest epoch of its inputs.
    let c = w.compact(&files[..2], encode_entries).unwrap();
    let ss = SplitSet::from_bytes(&c.manifest).unwrap();
    let epochs: Vec<u64> = ss.splits().iter().map(|s| s.epoch).collect();
    assert_eq!(epochs, vec![3, 2]);
    // A compaction of nothing records the next epoch without advancing it.
    w.compact(&[], encode_entries).unwrap();
    w.add_keys(&[9]);
    let f = w.flush(encode_entries).unwrap().unwrap();
    let ss = SplitSet::from_bytes(&f.manifest).unwrap();
    let epochs: Vec<u64> = ss.splits().iter().map(|s| s.epoch).collect();
    assert_eq!(epochs, vec![3, 2, 4, 4]);
    let resumed = SplitSetWriter::resume(&ss, 3, 0, 0, "fresh".to_string(), 0);
    assert_eq!((resumed.doc_count(), resumed.memtable_doc_count()), (4, 0));
}

#[test]
fn the_manifest_lists_what_was_built() {
    let built = corpus(config(Policy::Tiered, 400, 10), 9, |i| format!("abc doc{i}"));
    let ss = open_built(&built);
    assert!(built.splits.len() > 1);
    assert_eq!(ss.splits().len(), built.splits.len());
    assert_eq!(ss.base_count() as usize, built.splits.len());
    let mut next = 0u32;
    for (i, s) in ss.splits().iter().enumerate() {
        assert_eq!(s.data_file, format!("corpus-s{i:05}.rrs"));
        assert_eq!(s.data_file, built.splits[i].0);
        assert_eq!(s.byte_size, built.splits[i].1.len() as u64);
        assert_eq!((s.tier as usize, s.doc_id_lo), (i, next));
        assert_eq!(s.doc_count, s.doc_id_hi - s.doc_id_lo + 1);
        next = s.doc_id_hi + 1;
    }
    assert_eq!(next, 9);
}

#[test]
fn facet_presence_is_read_back() {
    let keys = vec![3u64, 900, u64::MAX];
    let spec = SplitSpec {
        data_file: "a.rrs".to_string(),
        tier: 0,
        doc_count: 1,
        doc_id_lo: 0,
        doc_id_hi: 0,
        epoch: 0,
        byte_size: 1,
        flags: 0,
        summary: tlv_record(SUMMARY_TAG_FACET, &facet_presence(&keys)),
    };
    let c = SplitSetConfig {
        policy: Policy::Tiered,
        tier_count: 1,
        base_count: 1,
        byte_cap: 1,
        gram_size: 3,
        body_kind: BodyKind::Trigram,
        sortcol: None,
        flags: FLAG_FACET,
    };
    let ss = SplitSet::from_bytes(&write_splitset(&[spec], &c).unwrap()).unwrap();
    let s = &ss.splits()[0];
    assert_eq!(ss.facet_keys(s).unwrap(), Some(keys));
    assert!(find_tlv(ss.summary(s).unwrap(), SUMMARY_TAG_FACET)
        .unwrap()
        .is_some());
    // Pruned only where some field has none of its categories present.
    assert!(!ss.facet_pruned(s, &[vec![1, 3], vec![900]]).unwrap());
    assert!(ss.facet_pruned(s, &[vec![3], vec![4, 5]]).unwrap());
    // A digest answers a pair that it lists or that the presence keys rule out.
    let digest = vec![FieldCounts {
        field: "f".to_string(),
        categories: vec![("a".to_string(), 4)],
    }];
    let listed = vec![Selection {
        field: "f".to_string(),
        category: "a".to_string(),
        key: 3,
    }];
    let ruled_out = vec![Selection {
        field: "f".to_string(),
        category: "b".to_string(),
        key: 5,
    }];
    let unknown = vec![Selection {
        field: "f".to_string(),
        category: "c".to_string(),
        key: 900,
    }];
    assert!(digest_covers_pairs(&ss, s, &digest, &listed).unwrap());
    assert!(digest_covers_pairs(&ss, s, &digest, &ruled_out).unwrap());
    assert!(!digest_covers_pairs(&ss, s, &digest, &unknown).unwrap());
}

#[test]
fn counts_add_up_by_name() {
    let of = |pairs: &[(&str, u64)]| {
        vec![FieldCounts {
            field: "tag".to_string(),
            categories: pairs.iter().map(|(c, n)| (c.to_string(), *n)).collect(),
        }]
    };
    let out = aggregate_counts(&[of(&[("a", 2), ("b", 1)]), of(&[("b", 4)])]);
    assert_eq!(out.len(), 1);
    let m: HashMap<String, u64> = out[0].categories.iter().cloned().collect();
    assert_eq!(m.get("a"), Some(&2));
    assert_eq!(m.get("b"), Some(&5));
    assert_eq!(pair_totals(&[vec![1, 0], vec![2, 7]], 2), vec![3, 7]);
    assert_eq!(pair_totals(&[], 2), vec![0, 0]);
    assert!(digest_covers_top(128, 128));
    assert!(!digest_covers_top(129, 128));
}

#[test]
fn filters_group_by_field_in_order() {
    let filter = pick(&[("lang", "en"), ("year", "2020"), ("lang", "fr")]);
    let groups = group_by_field(&filter);
    assert_eq!(groups.len(), 2);
    let mut sizes: Vec<usize> = groups.iter().map(|g| g.len()).collect();
    sizes.sort_unstable();
    assert_eq!(sizes, vec![1, 2]);
    assert!(groups.contains(&vec![facet_key("year", "2020")]));
}

#[test]
fn term_builder_seals_stemmed_splits() {
    let mut b = TermSplitSetBuilder::new(TermSplitBuildConfig {
        language: Some(Language::English),
        stem: true,
        stopwords: true,
        ..term_config(400, "tcorpus")
    });
    for text in [
        "The running runner runs quickly",
        "connected connecting connections",
        "the a an and are",
    ] {
        b.add_faceted(text, &pick(&[("kind", "a")]), &encode_facets)
            .unwrap();
    }
    let built = b.finish(&encode_facets).unwrap();
    let ss = open_built(&built);
    assert_eq!(ss.flags() & FLAG_FACET, FLAG_FACET);
    let store = Store::of(&built);
    assert_eq!(store.search(&ss, "connection", 10).unwrap(), vec![1]);
    assert_eq!(store.search(&ss, "runs", 10).unwrap(), vec![0]);
    assert_eq!(built.facets.len(), built.splits.len());
    assert!(built.splits[0].0.starts_with("tcorpus-s00000"));
}

#[test]
fn streaming_term_drain_equals_whole_build() {
    let feed = |drain: bool| {
        let mut b = TermSplitSetBuilder::new(term_config(300, "tcorpus"));
        let (mut splits, mut facets) = (Vec::new(), Vec::new());
        for i in 0..20 {
            let text = format!("alpha word{i} tail{}", i % 3);
            b.add_faceted(&text, &pick(&[("kind", "a")]), &encode_facets)
                .unwrap();
            if drain && i % 4 == 1 {
                let (s, f) = b.drain_sealed();
                splits.extend(s);
                facets.extend(f);
            }
        }
        let built = b.finish(&encode_facets).unwrap();
        splits.extend(built.splits);
        facets.extend(built.facets);
        (built.manifest, splits, facets)
    };
    let whole = feed(false);
    assert!(whole.1.len() > 2);
    assert_eq!(whole, feed(true));
}

#[test]
fn encoders_are_handed_the_settings() {
    let handed = Cell::new(None);
    let noted = |g: u16, s: u32, c: bool, es: Vec<(u64, Vec<u8>)>| {
        handed.set(Some((g, s, c, es.len())));
        encode(g, s, c, es)
    };
    let faceted = Cell::new(None);
    let noted_facets = |fields: Vec<FacetField>, c: bool| {
        faceted.set(Some((fields.len(), c)));
        encode_facets(fields, c)
    };
    for case_sensitive in [false, true] {
        let mut b = SplitSetBuilder::new(SplitBuildConfig {
            stride: 7,
            case_sensitive,
            ..config(Policy::Tiered, 1 << 20, 0)
        });
        let pairs = pick(&[("kind", "a"), ("lang", "en"), ("lang", "fr")]);
        b.add_faceted(&ngram_keys("abcd", 3), &pairs, &noted, &noted_facets)
            .unwrap();
        b.finish(&noted, &noted_facets).unwrap();
        assert_eq!(handed.get(), Some((3, 7, !case_sensitive, 2)));
        assert_eq!(faceted.get(), Some((2, !case_sensitive)));
    }

    let written = Cell::new(None);
    let noted_entries = |g: u16, s: u32, h: u32, es: Vec<(u64, Vec<u8>, Vec<u8>)>| {
        written.set(Some((g, s, h, es.len())));
        encode_entries(g, s, h, es)
    };
    let base = corpus(config(Policy::Tiered, 400, 0), 2, |i| format!("abc base{i}"));
    let mut w = SplitSetWriter::resume(&open_built(&base), 3, 9, 5, "corpus".to_string(), 0);
    w.add_keys(&ngram_keys("abcd", 3));
    let f = w.flush(noted_entries).unwrap().unwrap();
    assert_eq!(written.take(), Some((3, 5, 9, 2)));
    w.compact(&[(f.split_name, f.split_bytes)], noted_entries)
        .unwrap();
    assert_eq!(written.take(), Some((3, 5, 9, 2)));
}

#[test]
fn encoders_get_the_same_bytes_for_the_same_docs() {
    let seen = |order: &[&str]| {
        let kept = std::cell::RefCell::new(Vec::new());
        let noted = |g: u16, s: u32, c: bool, es: Vec<(u64, Vec<u8>)>| {
            kept.borrow_mut().push(es.clone());
            encode(g, s, c, es)
        };
        let mut b = SplitSetBuilder::new(config(Policy::Tiered, 1 << 20, 0));
        for text in order {
            b.add_keys(&ngram_keys(text, 3), &noted, &encode_facets)
                .unwrap();
        }
        b.finish(&noted, &encode_facets).unwrap();
        kept.into_inner()
    };
    assert_eq!(
        seen(&["abc abd", "abd abe"]),
        seen(&["abd abc", "abe abd"])
    );
}

#[test]
fn a_failed_seal_takes_the_open_postings() {
    let fails = |_: u16, _: u32, _: bool, _: Vec<(u64, Vec<u8>)>| -> Result<Vec<u8>, BuildError> {
        Err(BuildError::Encoder("disk".to_string()))
    };
    let mut b = SplitSetBuilder::new(config(Policy::Tiered, 250, 0));
    add(&mut b, "abc en0").unwrap();
    add(&mut b, "abc en1").unwrap();
    let r = b.add_keys(&ngram_keys("abc fr0", 3), &fails, &encode_facets);
    assert!(matches!(r, Err(BuildError::Encoder(_))));
    // The docs keep their ids; their postings went to the encoder.
    assert_eq!(b.doc_count(), 2);
    assert_eq!(add(&mut b, "abc fr0").unwrap(), 2);
    let built = finish(b);
    let store = Store::of(&built);
    assert_eq!(
        store.search(&open_built(&built), "abc", 10).unwrap(),
        vec![2]
    );
}

#[test]
fn a_malformed_summary_stops_compaction() {
    let spec = SplitSpec {
        data_file: "corpus-d00000.rrs".to_string(),
        tier: 0,
        doc_count: 1,
        doc_id_lo: 0,
        doc_id_hi: 0,
        epoch: 1,
        byte_size: 1,
        flags: 0,
        summary: vec![4, 9, 0, 0, 0],
    };
    let c = SplitSetConfig {
        policy: Policy::Tiered,
        tier_count: 0,
        base_count: 0,
        byte_cap: 1,
        gram_size: 3,
        body_kind: BodyKind::Trigram,
        sortcol: None,
        flags: 0,
    };
    let ss = SplitSet::from_bytes(&write_splitset(&[spec], &c).unwrap()).unwrap();
    let mut w = SplitSetWriter::resume(&ss, 3, 0, 0, "corpus".to_string(), 0);
    let input = ("corpus-d00000.rrs".to_string(), index_file(128, &[]));
    assert!(matches!(
        w.compact(&[input], encode_entries),
        Err(BuildError::BadSummary)
    ));
}

#[test]
fn a_stop_word_filter_needs_a_language() {
    let mut b = TermSplitSetBuilder::new(TermSplitBuildConfig {
        stopwords: true,
        ..term_config(4096, "corpus")
    });
    b.add_text("alpha beta", &encode_facets).unwrap();
    assert!(matches!(
        b.finish(&encode_facets),
        Err(BuildError::NoLanguage)
    ));
}

#[test]
fn compaction_keeps_the_dead_and_the_living() {
    let mut w = fresh();
    for text in ["abc one", "abc two", "xyz abc"] {
        w.add_keys(&ngram_keys(text, 3));
    }
    let a = w.flush(encode_entries).unwrap().unwrap();
    w.add_keys(&ngram_keys("abc four", 3));
    w.delete(1);
    let b = w.flush(encode_entries).unwrap().unwrap();
    let inputs = vec![
        (a.split_name.clone(), a.split_bytes.clone()),
        (b.split_name.clone(), b.split_bytes.clone()),
    ];
    let c = w.compact(&inputs, encode_entries).unwrap();
    assert_eq!(c.removed, vec![a.split_name, b.split_name]);
    let ss = SplitSet::from_bytes(&c.manifest).unwrap();
    let s = &ss.splits()[0];
    assert_eq!((s.doc_id_lo, s.doc_id_hi, s.doc_count), (0, 3, 3));
    let dead: RoaringBitmap = [1u32].into_iter().collect();
    assert_eq!(ss.tombstone(s).unwrap(), Some(dead));
    let entries = read_rrs_entries(&c.split_bytes).unwrap();
    let abc = ngram_keys("abc", 3)[0];
    let docs = &entries.iter().find(|e| e.0 == abc).unwrap().1;
    assert_eq!(docs.iter().collect::<Vec<u32>>(), vec![0, 2, 3]);
    // A key that only the deleted doc had is gone.
    let two = ngram_keys("two", 3)[0];
    assert!(entries.iter().all(|e| e.0 != two));
}
