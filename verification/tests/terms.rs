use std::collections::BTreeSet;

use roaring::RoaringBitmap;
use roaringrange::bytes::read_u64;
use roaringrange::error::{BuildError, IndexError};
use roaringrange::terms::{
    and_full, and_heads, dict_terms, full_posting, head_block, parse_dict_block, parse_header,
    resolve_locs, tail_posting, union_full, union_heads, HeadBlock, PrefixScan, TermIndex,
    HEADER_SIZE,
};
use roaringrange::terms_build::{
    write_term_index, write_term_index_from_postings, write_term_index_with, TermIndexBuilder,
    TermIndexConfig, TermIndexStreamWriter, TermPostings,
};
use roaringrange::terms_dict::pack_loc;
use roaringrange::tokenize::{
    fold, stem_word, tokenize, tokenize_with, Language, Tokenizer, FLAG_CASE_SENSITIVE,
    FLAG_STEMMED, FLAG_STOPWORDS,
};

/// A term index over a file in memory.
struct Index {
    file: Vec<u8>,
    ti: TermIndex,
}

impl Index {
    fn open(file: Vec<u8>) -> Result<Index, IndexError> {
        let header = parse_header(&file[..HEADER_SIZE])?;
        let end = HEADER_SIZE + header.router_len as usize;
        let ti = TermIndex::open(&file[..HEADER_SIZE], file[HEADER_SIZE..end].to_vec())?;
        Ok(Index { file, ti })
    }

    fn read(&self, off: u64, len: usize) -> Vec<u8> {
        self.file[off as usize..off as usize + len].to_vec()
    }

    fn heads(&self, locs: &[(u64, usize)]) -> Result<Vec<HeadBlock>, IndexError> {
        let mut blocks = Vec::new();
        for &(off, size) in locs {
            let (base, want) = self.ti.head_range(off, size)?;
            blocks.push(head_block(base, want, &self.read(base, want))?);
        }
        Ok(blocks)
    }

    fn tails(&self, blocks: &[HeadBlock]) -> Result<Vec<RoaringBitmap>, IndexError> {
        let mut tails = Vec::new();
        for b in blocks {
            let raw = self.read(b.tail_off, b.tail_size);
            tails.push(tail_posting(b.tail_size, &raw)?);
        }
        Ok(tails)
    }

    fn locs(&self, query: &str, lenient: bool) -> Option<Vec<(u64, usize)>> {
        let plan = self.ti.plan(self.ti.query_terms(query), lenient)?;
        let blocks: Vec<Vec<u8>> = plan
            .ranges
            .iter()
            .map(|&(off, len)| self.read(off, len))
            .collect();
        resolve_locs(&plan, &blocks, lenient)
    }

    fn search(&self, query: &str, limit: usize) -> Result<Vec<u32>, IndexError> {
        if limit == 0 || self.ti.query_terms(query).is_empty() {
            return Ok(Vec::new());
        }
        let locs = match self.locs(query, false) {
            Some(l) => l,
            None => return Ok(Vec::new()),
        };
        let blocks = self.heads(&locs)?;
        if let Some(page) = and_heads(&blocks, limit) {
            return Ok(page);
        }
        Ok(and_full(&blocks, &self.tails(&blocks)?, limit))
    }

    fn scan(&self, prefix: &str, max: usize, want_terms: bool) -> PrefixScan {
        let p = self.ti.fold_prefix(prefix);
        let mut scan = PrefixScan::begin(&p, max, want_terms);
        for (off, len) in self.ti.prefix_ranges(&p) {
            if scan.done {
                break;
            }
            scan.take_block(&self.read(off, len));
        }
        scan
    }

    fn search_prefix(&self, prefix: &str, limit: usize) -> Result<Vec<u32>, IndexError> {
        let scan = self.scan(prefix, usize::MAX, false);
        let blocks = self.heads(&scan.locs)?;
        if let Some(page) = union_heads(&blocks, limit) {
            return Ok(page);
        }
        Ok(union_full(&blocks, &self.tails(&blocks)?, limit))
    }

    fn complete(&self, prefix: &str, max: usize) -> Vec<String> {
        self.scan(prefix, max, true).terms
    }
}

/// Builds an in-memory index over the docs at the default block cap.
fn build(docs: &[(u32, &str)], head_boundary: u32) -> Index {
    Index::open(write_term_index(docs, head_boundary).unwrap()).unwrap()
}

fn config() -> TermIndexConfig {
    TermIndexConfig {
        head_boundary: 65_536,
        language: None,
        stopwords: false,
        case_sensitive: false,
        block_cap: 0,
    }
}

/// Builds with an explicit dict block cap; a tiny cap forces many blocks, exercising the
/// router and the cross-block scan paths.
fn build_capped(docs: &[(u32, &str)], head_boundary: u32, block_cap: usize) -> Index {
    let c = TermIndexConfig {
        head_boundary,
        block_cap,
        ..config()
    };
    Index::open(write_term_index_with(docs, &c).unwrap()).unwrap()
}

#[test]
fn language_code_and_byte_roundtrip() {
    const ALL: [Language; 18] = [
        Language::English,
        Language::Spanish,
        Language::Arabic,
        Language::Danish,
        Language::Dutch,
        Language::Finnish,
        Language::French,
        Language::German,
        Language::Greek,
        Language::Hungarian,
        Language::Italian,
        Language::Norwegian,
        Language::Portuguese,
        Language::Romanian,
        Language::Russian,
        Language::Swedish,
        Language::Tamil,
        Language::Turkish,
    ];
    let mut seen_bytes = BTreeSet::new();
    for lang in ALL {
        // Byte round-trips through the canonical `From`/`from_u8` pair.
        assert_eq!(Language::from_u8(u8::from(lang)), Some(lang));
        assert_eq!(lang.to_u8(), u8::from(lang));
        // Name and uppercased name both resolve back to the same language.
        assert_eq!(Language::from_code(lang.as_code()), Some(lang));
        assert_eq!(
            Language::from_code(&lang.as_code().to_uppercase()),
            Some(lang)
        );
        assert!(seen_bytes.insert(u8::from(lang)), "duplicate on-disk byte");
    }
    // Bytes are dense 1..=18: every language present, none reused.
    assert_eq!(seen_bytes, (1u8..=18).collect());
    // Stable bytes: must not drift across versions.
    assert_eq!(u8::from(Language::English), 1);
    assert_eq!(u8::from(Language::Spanish), 2);
    // ISO-639-1 aliases and whitespace/case handling.
    assert_eq!(Language::from_code("es"), Some(Language::Spanish));
    assert_eq!(Language::from_code("de"), Some(Language::German));
    assert_eq!(Language::from_code(" Tr "), Some(Language::Turkish));
    assert_eq!(Language::from_code("klingon"), None);
    assert_eq!(Language::from_u8(0), None);
    assert_eq!(Language::from_u8(99), None);
}

#[test]
fn tokenize_mirrors_simple_lowercaser() {
    assert_eq!(
        tokenize("Machine-Learning, FAST!"),
        vec!["machine", "learning", "fast"]
    );
    assert_eq!(tokenize("posthuman became"), vec!["posthuman", "became"]);
    assert_eq!(tokenize("GPT-4 and BERT"), vec!["gpt", "4", "and", "bert"]);
    assert!(tokenize("  --  ").is_empty());
    assert!(tokenize("").is_empty());
}

#[test]
fn tokenize_with_case_fold_off_keeps_case() {
    // case_fold on (the default) lowercases; off keeps the token verbatim.
    assert_eq!(
        tokenize_with("Machine LEARNING", true),
        vec!["machine", "learning"]
    );
    assert_eq!(
        tokenize_with("Machine LEARNING", false),
        vec!["Machine", "LEARNING"]
    );
    // Boundary rules (alnum runs) are identical regardless of folding.
    assert_eq!(tokenize_with("GPT-4 BERT", false), vec!["GPT", "4", "BERT"]);
}

#[test]
fn tokenize_follows_unicode() {
    // U+0130 lowercases to two characters; a circled digit is numeric, so part of a word.
    assert_eq!(
        tokenize("\u{130}stanbul \u{2460}"),
        vec!["i\u{307}stanbul", "\u{2460}"]
    );
    assert_eq!(fold("\u{3a3}O", true), "\u{3c3}o");
    assert_eq!(fold("AbC", false), "AbC");
}

#[test]
fn tokenizer_stems_and_drops_stop_words() {
    let t = Tokenizer::new(Some(Language::English), true, true);
    assert_eq!(
        t.tokenize("The running runner runs quickly"),
        vec!["run", "runner", "run", "quick"]
    );
    let plain = Tokenizer::plain();
    assert_eq!(plain.tokenize("The Runner"), vec!["the", "runner"]);
    let spanish = Tokenizer::new(Some(Language::Spanish), false, true);
    assert_eq!(spanish.tokenize("bibliotecas"), vec!["bibliotec"]);
}

#[test]
fn tokenizer_round_trips_through_the_header() {
    for language in [None, Some(Language::French)] {
        for stopwords in [false, true] {
            for case_fold in [false, true] {
                let t = Tokenizer::new(language, stopwords, case_fold);
                let byte = language.map_or(0, u8::from);
                let back = Tokenizer::from_header(t.header_flags(), byte);
                assert_eq!(back.spec(), t.spec());
                assert_eq!(back.case_fold(), case_fold);
            }
        }
    }
    let t = Tokenizer::new(Some(Language::English), true, false);
    assert_eq!(
        t.header_flags(),
        FLAG_STEMMED | FLAG_STOPWORDS | FLAG_CASE_SENSITIVE
    );
}

#[test]
fn case_sensitive_index_distinguishes_case() {
    // A case-sensitive index keeps "Rust" and "rust" as distinct terms; queries are matched
    // verbatim (the header's case bit makes build and query agree).
    let docs = [
        (0u32, "Rust systems programming"),
        (1, "rust never sleeps"),
        (2, "RUST belt revival"),
    ];
    let c = TermIndexConfig {
        case_sensitive: true,
        ..config()
    };
    let ti = Index::open(write_term_index_with(&docs, &c).unwrap()).unwrap();
    // The three casings are three distinct dictionary terms.
    assert_eq!(ti.search("Rust", 10).unwrap(), vec![0]);
    assert_eq!(ti.search("rust", 10).unwrap(), vec![1]);
    assert_eq!(ti.search("RUST", 10).unwrap(), vec![2]);
    // Prefix matching is also verbatim: "Ru" hits only doc 0's "Rust".
    assert_eq!(ti.search_prefix("Ru", 10).unwrap(), vec![0]);

    // The default (case-folding) index merges all three onto "rust".
    let ci = build(&docs, 65_536);
    assert_eq!(ci.search("Rust", 10).unwrap(), vec![0, 1, 2]);
    assert_eq!(ci.search("RUST", 10).unwrap(), vec![0, 1, 2]);
}

#[test]
fn whole_word_and_with_rank_order() {
    let docs = [
        (0u32, "deep learning for vision"),
        (1, "deep reinforcement learning"),
        (2, "statistical learning theory"),
        (3, "deep sea creatures"),
    ];
    let ti = build(&docs, 65_536);
    // distinct terms: deep, learning, for, vision, reinforcement, statistical,
    // theory, sea, creatures.
    assert_eq!(ti.ti.len(), 9);

    // "deep learning" -> docs with BOTH (0, 1), ascending.
    assert_eq!(ti.search("deep learning", 10).unwrap(), vec![0, 1]);
    // "learning" alone -> 0, 1, 2.
    assert_eq!(ti.search("learning", 10).unwrap(), vec![0, 1, 2]);
    // "deep" -> 0, 1, 3; top-1 by rank is the lowest doc ID.
    assert_eq!(ti.search("deep", 1).unwrap(), vec![0]);
    // case/punctuation-insensitive, same as the indexed tokens.
    assert_eq!(ti.search("DEEP, Learning", 10).unwrap(), vec![0, 1]);
    // a term not in the dictionary -> no results.
    assert!(ti.search("quantum", 10).unwrap().is_empty());
    // empty / punctuation-only query -> no results.
    assert!(ti.search("  ---  ", 10).unwrap().is_empty());
}

#[test]
fn head_tail_split_and_lazy_tail() {
    // A tiny head boundary forces a head/tail split: head = docs [0, 2).
    let docs = [
        (0u32, "alpha"),
        (1, "alpha"),
        (2, "alpha"),
        (3, "alpha"),
        (4, "alpha beta"),
        (5, "beta"),
    ];
    let ti = build(&docs, 2);

    // "alpha" spans head {0,1} and tail {2,3,4}; limit 10 pulls the tail.
    assert_eq!(ti.search("alpha", 10).unwrap(), vec![0, 1, 2, 3, 4]);
    // limit 2 is satisfied by the rank head alone: no tail fetch needed.
    assert_eq!(ti.search("alpha", 2).unwrap(), vec![0, 1]);
    let heads = ti.heads(&ti.locs("alpha", false).unwrap()).unwrap();
    assert_eq!(and_heads(&heads, 2), Some(vec![0, 1]));
    assert_eq!(and_heads(&heads, 10), None);
    // AND across head and tail: alpha {0..4} & beta {4,5} = {4} (a tail doc).
    assert_eq!(ti.search("alpha beta", 10).unwrap(), vec![4]);
    // Head and tail together are the whole posting.
    let tail = ti.tails(&heads).unwrap().remove(0);
    let whole = full_posting(heads.into_iter().next().unwrap(), &tail);
    assert_eq!(whole.iter().collect::<Vec<u32>>(), vec![0, 1, 2, 3, 4]);
}

#[test]
fn empty_corpus_and_bad_magic() {
    let ti = build(&[], 65_536);
    assert!(ti.ti.is_empty());
    assert!(ti.search("anything", 10).unwrap().is_empty());

    // A buffer that is not an RRTI file is rejected.
    let bogus = vec![0u8; HEADER_SIZE];
    assert!(matches!(Index::open(bogus), Err(IndexError::BadMagic(_))));
}

#[test]
fn complete_returns_capped_prefix_terms() {
    let docs = [
        (0u32, "learn learner learning learned"),
        (1, "learns lethal"),
    ];
    let ti = build(&docs, 65_536);

    // "learn" prefixes five terms, returned in lexicographic order.
    assert_eq!(
        ti.complete("learn", 10),
        vec!["learn", "learned", "learner", "learning", "learns"]
    );
    // The cap keeps the first two in order.
    assert_eq!(ti.complete("learn", 2), vec!["learn", "learned"]);
    // The prefix is lowercased the same way the tokens are.
    assert_eq!(
        ti.complete("LEARN", 10),
        vec!["learn", "learned", "learner", "learning", "learns"]
    );
    // "le" widens to take in "lethal".
    assert_eq!(
        ti.complete("le", 10),
        vec!["learn", "learned", "learner", "learning", "learns", "lethal"]
    );
    // A prefix that matches nothing yields nothing.
    assert!(ti.complete("zzz", 10).is_empty());
    // An empty prefix matches everything (capped).
    assert_eq!(ti.complete("", 1), vec!["learn"]);
    // A cap of zero asks for nothing.
    assert!(ti.complete("learn", 0).is_empty());
}

#[test]
fn blocked_dict_many_blocks_round_trips() {
    // A tiny block cap forces many front-coded blocks, so exact lookup, the
    // dict-block wave, and the cross-block prefix scan all span block boundaries.
    let docs: Vec<(u32, String)> = (0..200u32)
        .map(|i| (i, format!("term{i:04} shared{}", i % 5)))
        .collect();
    let refs: Vec<(u32, &str)> = docs.iter().map(|(d, t)| (*d, t.as_str())).collect();
    let ti = build_capped(&refs, 65_536, 24);

    // Exact lookups resolve across many blocks.
    assert_eq!(ti.search("term0000", 10).unwrap(), vec![0]);
    assert_eq!(ti.search("term0137", 10).unwrap(), vec![137]);
    assert_eq!(ti.search("term0199", 10).unwrap(), vec![199]);
    // Absent term -> no results (fetches its candidate block, scans, misses).
    assert!(ti.search("term9999", 10).unwrap().is_empty());
    // A two-term AND whose terms live in different blocks.
    assert_eq!(ti.search("term0000 shared0", 10).unwrap(), vec![0]);
    // "shared0" appears on docs 0,5,10,...; prefix scan crosses blocks and unions.
    assert_eq!(
        ti.search_prefix("shared0", 5).unwrap(),
        vec![0, 5, 10, 15, 20]
    );
    // Completion crosses block boundaries and is capped.
    assert_eq!(
        ti.complete("term001", 3),
        vec!["term0010", "term0011", "term0012"]
    );
}

#[test]
fn search_prefix_unions_matching_terms() {
    let docs = [
        (0u32, "learn"),
        (1, "learning"),
        (2, "lethal"),
        (3, "unrelated"),
    ];
    let ti = build(&docs, 65_536);

    // "learn" matches both "learn" (doc 0) and "learning" (doc 1): their OR.
    assert_eq!(ti.search_prefix("learn", 10).unwrap(), vec![0, 1]);
    // "le" widens to also take in "lethal" (doc 2); ascending == rank order.
    assert_eq!(ti.search_prefix("le", 10).unwrap(), vec![0, 1, 2]);
    // `limit` keeps the most-popular (lowest doc-ID) prefix hits.
    assert_eq!(ti.search_prefix("le", 2).unwrap(), vec![0, 1]);
    // A prefix matching no term yields no results.
    assert!(ti.search_prefix("zzz", 10).unwrap().is_empty());
}

#[test]
fn search_prefix_spans_head_and_tail() {
    // A tiny head boundary forces a split; "alpha" spans head {0,1} and tail
    // {2,3,4}, "alpine" adds doc 5, so the prefix "alp" unions all of them.
    let docs = [
        (0u32, "alpha"),
        (1, "alpha"),
        (2, "alpha"),
        (3, "alpha"),
        (4, "alpha"),
        (5, "alpine"),
    ];
    let ti = build(&docs, 2);
    assert_eq!(
        ti.search_prefix("alp", 10).unwrap(),
        vec![0, 1, 2, 3, 4, 5]
    );
    // limit 2 is satisfied by the rank heads alone: no tail fetch needed.
    assert_eq!(ti.search_prefix("alp", 2).unwrap(), vec![0, 1]);
}

#[test]
fn resident_router_is_small_vs_dictionary() {
    // The scaling property: with the default block cap, what stays resident (header + router)
    // is a small fraction of the full dictionary bytes.
    let docs: Vec<(u32, String)> = (0..8_000u32)
        .map(|i| (i, format!("scholarlyterm{i:05}")))
        .collect();
    let refs: Vec<(u32, &str)> = docs.iter().map(|(d, t)| (*d, t.as_str())).collect();
    let buf = write_term_index(&refs, 65_536).unwrap();
    let dict_len = read_u64(&buf, 24); // header field: dict-blocks region length
    let ti = Index::open(buf).unwrap();
    assert_eq!(ti.ti.len(), 8_000);
    assert!(
        ti.ti.resident_len() * 3 < dict_len,
        "resident {} should be << dict {dict_len}",
        ti.ti.resident_len()
    );
    // And it still resolves a term across the many blocks.
    assert_eq!(ti.search("scholarlyterm04242", 10).unwrap(), vec![4242]);
}

#[test]
fn stemming_makes_inflections_match() {
    // An English-stemmed index reduces learning/learned/learns to the stem "learn",
    // so a query for any inflection matches docs indexed with any other.
    let docs = [
        (0u32, "deep learning"),
        (1, "she learned quickly"),
        (2, "it learns fast"),
        (3, "ocean depths"),
    ];
    let c = TermIndexConfig {
        language: Some(Language::English),
        ..config()
    };
    let ti = Index::open(write_term_index_with(&docs, &c).unwrap()).unwrap();
    // "learning" -> stem "learn" -> docs 0, 1, 2 (learning / learned / learns).
    assert_eq!(ti.search("learning", 10).unwrap(), vec![0, 1, 2]);
    // a different inflection of the same stem returns the same docs (and lowercases).
    assert_eq!(ti.search("LEARNED", 10).unwrap(), vec![0, 1, 2]);
    // an unrelated word does not.
    assert_eq!(ti.search("ocean", 10).unwrap(), vec![3]);
}

#[test]
fn stopwords_dropped_from_index_and_query() {
    let docs = [(0u32, "the cat"), (1, "a dog and a cat")];
    let c = TermIndexConfig {
        stopwords: true,
        ..config()
    };
    let ti = Index::open(write_term_index_with(&docs, &c).unwrap()).unwrap();
    // Stop words ("the", "a", "and") were dropped from the index; "cat" remains in both.
    assert_eq!(ti.search("cat", 10).unwrap(), vec![0, 1]);
    // A query of only stop words drops to nothing.
    assert!(ti.search("the and a", 10).unwrap().is_empty());
    // Stop words in a query are dropped too, leaving "cat" -> docs 0, 1.
    assert_eq!(ti.search("the cat", 10).unwrap(), vec![0, 1]);
}

#[test]
fn lenient_lookup_drops_absent_terms() {
    let ti = build(&[(0, "alpha"), (1, "alpha beta")], 65_536);
    assert_eq!(ti.locs("alpha beta missing", false), None);
    assert_eq!(ti.locs("alpha beta missing", true).unwrap().len(), 2);
    assert_eq!(ti.locs("alpha beta", false).unwrap().len(), 2);
    // A term past the last block key is missed by the router alone.
    assert_eq!(ti.ti.block_range_for(b"zzz"), None);
}

#[test]
fn query_terms_are_sorted_and_distinct() {
    let ti = build(&[(0, "alpha")], 65_536);
    assert_eq!(
        ti.ti.query_terms("beta Alpha beta"),
        vec![b"alpha".to_vec(), b"beta".to_vec()]
    );
}

#[test]
fn dictionary_lists_every_term_in_order() {
    let ti = build_capped(&[(0, "delta alpha"), (1, "charlie bravo")], 65_536, 8);
    let mut all = Vec::new();
    for (off, len) in ti.ti.dict_block_locs() {
        let block = ti.read(off, len);
        assert_eq!(
            parse_dict_block(&block).collect().len(),
            dict_terms(&block).unwrap().len()
        );
        all.extend(dict_terms(&block).unwrap());
    }
    let names: Vec<&str> = all.iter().map(|(t, _)| t.as_str()).collect();
    assert_eq!(names, vec!["alpha", "bravo", "charlie", "delta"]);
    assert!(all.windows(2).all(|w| w[0].1 < w[1].1));
}

#[test]
fn greek_words_that_cannot_be_stemmed_stay() {
    let t = Tokenizer::new(Some(Language::Greek), false, true);
    assert_eq!(
        t.tokenize("ισαισα ισάισες τρέχω σπίτια ισαισαβγ"),
        vec!["ισαισα", "ισάισες", "τρεχ", "σπιτ", "ισαισαβγ"]
    );
    let past = ["εσ", "α", "ε", "ατε", "αμε", "ανε", "αν"];
    let verb = [
        "", "ιζεσ", "ιζεισ", "ιζω", "ιζα", "ιζατε", "ιζετε", "ιζε", "ιζουμε", "ιζαμε", "ιζουνε",
        "ιζανε", "ιζει", "ιζουν", "ιζαν",
    ];
    for a in past {
        for b in 0..8 {
            for c in verb {
                let passive = if b == 0 {
                    String::new()
                } else {
                    format!("ωθηκ{}", past[b - 1])
                };
                let word = format!("ισαισ{a}{passive}{c}");
                assert_eq!(t.tokenize(&word), vec![word.clone()]);
            }
        }
    }
    // Capitals too, where case is kept.
    let t = Tokenizer::new(Some(Language::Greek), false, false);
    assert_eq!(t.tokenize("ΙΣΑΊΣΑΝ"), vec!["ΙΣΑΊΣΑΝ"]);
    // Other languages have their own rules.
    let t = Tokenizer::new(Some(Language::English), false, true);
    assert_eq!(t.tokenize("ισαισα running"), vec!["ισαισα", "run"]);
}

#[test]
fn tokens_are_the_maximal_runs() {
    let text = "Éa-b2 ?c, D";
    let plain = tokenize_with(text, false);
    assert_eq!(plain, vec!["Éa", "b2", "c", "D"]);
    let kept: String = text.chars().filter(|c| c.is_alphanumeric()).collect();
    assert_eq!(plain.concat(), kept);
    let folded = tokenize_with(text, true);
    assert_eq!(folded, vec!["éa", "b2", "c", "d"]);
}

#[test]
fn a_router_opens_against_its_routes() {
    let mut w = TermIndexStreamWriter::new(65_536, None, false, true, 1);
    let mut posting = Vec::new();
    RoaringBitmap::from_iter([0u32])
        .serialize_into(&mut posting)
        .unwrap();
    for t in ["alpha", "beta", "gamma"] {
        w.push(t.as_bytes(), &posting, &[]).unwrap();
    }
    let (header, raw, blocks) = w.finish_meta().unwrap();
    let mut routes = Vec::new();
    let mut off = 0u64;
    let mut walked = Vec::new();
    for b in &blocks {
        let entries: Vec<_> = parse_dict_block(b).collect();
        routes.push((
            entries.last().unwrap().0.clone(),
            pack_loc(off, b.len() as u64),
        ));
        off += b.len() as u64;
        walked.extend(entries);
    }
    // Walking the blocks gives the pushed terms, each behind the posting blocks before it.
    let step = 4 + posting.len() as u64;
    let expected: Vec<(Vec<u8>, u64, usize)> = ["alpha", "beta", "gamma"]
        .iter()
        .enumerate()
        .map(|(i, t)| (t.as_bytes().to_vec(), i as u64 * step, posting.len()))
        .collect();
    assert_eq!(walked, expected);

    let opened = TermIndex::open_routed(&header, raw.clone(), &routes);
    assert_eq!(opened.unwrap().unwrap().len(), 3);
    let mut bad = header.clone();
    bad[0] = 0;
    assert!(matches!(
        TermIndex::open_routed(&bad, raw.clone(), &routes),
        Some(Err(IndexError::BadMagic(_)))
    ));
    // Other routes, or the same out of order, are not what the router holds.
    let mut other = routes.clone();
    other[1].1 += 1;
    assert!(TermIndex::open_routed(&header, raw.clone(), &other).is_none());
    let mut turned = routes.clone();
    turned.reverse();
    assert!(TermIndex::open_routed(&header, raw.clone(), &turned).is_none());
    let mut forged = raw.clone();
    forged[20] ^= 1;
    assert!(TermIndex::open_routed(&header, forged, &routes).is_none());
}

#[test]
fn a_corpus_determines_its_index() {
    let docs = [(0u32, "alpha beta"), (7, "beta gamma"), (9, "alpha")];
    let turned = [(9u32, "alpha"), (0, "alpha beta"), (7, "beta gamma"), (9, "alpha")];
    let file = write_term_index(&docs, 8).unwrap();
    assert_eq!(file, write_term_index(&turned, 8).unwrap());
    let spelled_out = TermIndexConfig {
        head_boundary: 8,
        ..config()
    };
    assert_eq!(file, write_term_index_with(&docs, &spelled_out).unwrap());
    assert_eq!(&file[6..16], &[0, 0, 3, 0, 0, 0, 8, 0, 0, 0]);
}

#[test]
fn header_errors_name_what_is_wrong() {
    let good = write_term_index(&[(0, "alpha")], 65_536).unwrap();
    assert!(matches!(
        parse_header(&good[..HEADER_SIZE - 1]),
        Err(IndexError::Malformed(_))
    ));
    let mut bad = good.clone();
    bad[4] = 1;
    assert!(matches!(
        parse_header(&bad[..HEADER_SIZE]),
        Err(IndexError::BadVersion(1))
    ));
    // A router that is not a map is refused.
    let mut raw = good[HEADER_SIZE..].to_vec();
    let len = parse_header(&good[..HEADER_SIZE]).unwrap().router_len as usize;
    raw.truncate(len);
    raw[len / 2] ^= 0xff;
    assert!(TermIndex::open(&good[..HEADER_SIZE], raw).is_err());
}

#[test]
fn postings_that_cannot_be_read_are_malformed() {
    assert!(matches!(
        head_block(0, 8, &[1, 0, 0]),
        Err(IndexError::Malformed(_))
    ));
    assert!(matches!(
        head_block(0, 6, &[0, 0, 0, 0, 9, 9]),
        Err(IndexError::Malformed(_))
    ));
    assert!(tail_posting(3, &[1, 2, 3]).is_err());
    assert!(tail_posting(0, &[]).unwrap().is_empty());
    let ti = build(&[(0, "alpha")], 65_536);
    assert!(matches!(
        ti.ti.head_range(u64::MAX, 8),
        Err(IndexError::Malformed(_))
    ));
    assert!(matches!(
        ti.ti.head_range(0, usize::MAX),
        Err(IndexError::Malformed(_))
    ));
}

#[test]
fn builder_and_slice_writer_agree() {
    let docs = [(0u32, "alpha beta"), (7, "beta gamma"), (9, "alpha")];
    let mut b = TermIndexBuilder::new(&config());
    assert!(b.is_empty());
    for (d, t) in docs {
        b.add(d, t);
    }
    assert_eq!(b.len(), 3);
    let built = b.finish().unwrap();
    assert_eq!(built, write_term_index_with(&docs, &config()).unwrap());

    let mut p = TermPostings::new();
    for (d, t) in docs {
        p.post_all(&tokenize(t), d);
    }
    assert_eq!(p.len(), 3);
    assert!(p.contains(b"gamma") && !p.contains(b"gam"));
    assert_eq!(p.term(1), b"beta");
    assert_eq!(p.posting(1).iter().collect::<Vec<u32>>(), vec![0, 7]);
    let from = write_term_index_from_postings(&p, 65_536, None, false, true, 0).unwrap();
    assert_eq!(built, from);
}

#[test]
fn stream_writer_writes_the_same_file() {
    let docs = [(0u32, "alpha beta"), (3, "beta gamma")];
    let whole = write_term_index(&docs, 2).unwrap();
    let mut w = TermIndexStreamWriter::new(2, None, false, true, 0);
    let mut region = Vec::new();
    for (t, ids) in [("alpha", vec![0u32]), ("beta", vec![0, 3]), ("gamma", vec![3])] {
        let head: RoaringBitmap = ids.iter().copied().filter(|&d| d < 2).collect();
        let tail: RoaringBitmap = ids.iter().copied().filter(|&d| d >= 2).collect();
        let mut h = Vec::new();
        head.serialize_into(&mut h).unwrap();
        let mut l = Vec::new();
        tail.serialize_into(&mut l).unwrap();
        region.extend(w.push(t.as_bytes(), &h, &l).unwrap());
    }
    assert_eq!(w.term_count(), 3);
    assert_eq!(w.region_len(), region.len() as u64);
    assert_eq!(w.finish_into(&region).unwrap(), whole);
}

#[test]
fn stream_writer_refuses_terms_out_of_order() {
    // A cap of one byte gives each term a block, so the router sees both keys.
    let mut w = TermIndexStreamWriter::new(2, None, false, true, 1);
    w.push(b"beta", &[1], &[]).unwrap();
    w.push(b"alpha", &[1], &[]).unwrap();
    assert!(matches!(w.finish_meta(), Err(BuildError::TermOrder)));
}

#[test]
fn stream_writer_refuses_an_oversized_head() {
    let mut w = TermIndexStreamWriter::new(2, None, false, true, 0);
    let big = vec![0u8; 1 << 24];
    assert!(matches!(
        w.push(b"alpha", &big, &[]),
        Err(BuildError::HeadTooLarge(n)) if n == 1 << 24
    ));
}

#[test]
fn stream_writer_refuses_an_oversized_block() {
    let mut w = TermIndexStreamWriter::new(2, None, false, true, 0);
    let term = vec![b'a'; 1 << 24];
    w.push(&term, &[1], &[]).unwrap();
    assert!(matches!(
        w.finish_meta(),
        Err(BuildError::DictBlockTooLarge)
    ));
}

#[test]
fn non_utf8_terms_are_completed_with_replacements() {
    let mut w = TermIndexStreamWriter::new(65_536, None, false, true, 0);
    let mut posting = Vec::new();
    RoaringBitmap::from_iter([0u32])
        .serialize_into(&mut posting)
        .unwrap();
    let region = w.push(b"ab\xff", &posting, &[]).unwrap();
    let ti = Index::open(w.finish_into(&region).unwrap()).unwrap();
    assert_eq!(ti.complete("ab", 5), vec!["ab\u{fffd}"]);
    // The dictionary listing refuses such a term.
    let (off, len) = ti.ti.dict_block_locs()[0];
    assert!(matches!(
        dict_terms(&ti.read(off, len)),
        Err(IndexError::Malformed(_))
    ));
}

/// A few endings of each language's stemming rules.
const ENDINGS: [(&str, &str); 18] = [
    (
        "arabic",
        "! ; أأ ال تم ف ن و ٍ ٣ ٬ ﺈ ﺑ ﺚ ﺣ ﺬ ﺵ ﺾ ﻇ ﻐ ﻙ ﻢ ﻫ ﻴ",
    ),
    (
        "danish",
        "dt e els ende endes enes er ere erede erende erens erer eret erne ernes es ethed gd gt heden heder heds kt løst",
    ),
    (
        "dutch",
        "I Y aa baar dd ee en end heden ig ing kk oo s se tt á ä é ë ï ó ö ú",
    ),
    (
        "english",
        "able aliti anci ate atlas biliti cosmos early eed ent ff gener ible iciti ing iti iz l mm ogi ousness s sky tional",
    ),
    (
        "finnish",
        "a an eja han hon i immi impi j ko kö llä mma mmi mpi na nsa oo seen ssa sti tta tä än",
    ),
    (
        "french",
        "I Y ables ances asse ateurs col ements era erez eus ic ifs iqUes irait irons issais isse issiez ité ière par âmes ées",
    ),
    (
        "german",
        "U Y e em en end er ern es est heit ig ik isch keit lich s st ung ä ö ü",
    ),
    (
        "greek",
        "Ά Ϊ αιθ ανοργ αται βρομ διαθ εξων ηθειτε ηστε ιζουνε ισατε ιτσεσ κοπ μαιντ μπολ ολο ουδεσ πατ πολυφ σκ ταβ υποκοπ χαμηλοδαπ",
    ),
    (
        "hungarian",
        "a aitok astul ből e eitek et höz itek je jj ként n nál on ről tt unk zzs áink ánk éik ém öd",
    ),
    (
        "italian",
        "I amenti anze ata atrici azioni enda erai ereste eva gliele ic imento irei irà ismi istì ivamo le melo ose tele ute velo",
    ),
    (
        "norwegian",
        "a ande ar ast e ede eig elig els en endes enes er ers erte et het heten hetenes heter ig leg lov slov",
    ),
    (
        "portuguese",
        "a adora amentos aram ares aríeis ava ei eras eres eríeis eu ica ido ira iremos iríamos isses ivas os uço~es áveis éreis íeis",
    ),
    (
        "romanian",
        "I abilităi antă aserăţi ativi aţi eau eze iaţi ical icitate ică indu iserăţi it itivi iuni ivă osi seseră urăţi ute âră âşi",
    ),
    (
        "russian",
        "а ая е ей ему ет ив ией ила ими ишь иях ли нно ого ост ть уйте ы ые ыло ых ю ям",
    ),
    (
        "spanish",
        "a ables adora an anzas ará arían aste er eríais ic idades ieras imientos iréis ista ivo le nos se yais yes ár íais",
    ),
    (
        "swedish",
        "a ade ande andes ar aren arna arne ast at dt els ens ern ernas es gd het hetens heterna kt löst or ornas",
    ),
    (
        "tamil",
        "அ இ ஊ ஐ ஓ கின்ற கிற் கொண்டிர் ஞ த ந் ந்த் படி பட்ட பட்டது பி ர ள வ விட்டு ாநின்ற ி ூ ே",
    ),
    (
        "turkish",
        "a casına dan dim dum düm dım im ları miz müş nda ni nü sak sem sunuz ta tik tu tü tı um üz",
    ),
];

#[test]
fn stemmers_take_made_up_words() {
    let mut seed = 0x2545_f491u32;
    let mut roll = |n: usize| {
        seed = seed.wrapping_mul(1_103_515_245).wrapping_add(12_345);
        (seed >> 16) as usize % n
    };
    for (name, endings) in ENDINGS {
        let language = Language::from_code(name).unwrap();
        let endings: Vec<&str> = endings.split(' ').collect();
        let letters: Vec<char> = endings.concat().chars().chain('a'..='z').collect();
        let mut changed = 0;
        for _ in 0..50_000 {
            let mut word = String::new();
            for _ in 0..roll(4) {
                word.push(letters[roll(letters.len())]);
            }
            for _ in 0..1 + roll(4) {
                word.push_str(endings[roll(endings.len())]);
            }
            if stem_word(language, &word) != word {
                changed += 1;
            }
        }
        assert!(changed > 0, "{name}");
    }
}

#[test]
fn block_offsets_stop_at_the_largest() {
    let file = write_term_index(&[(0, "alpha beta")], 8).unwrap();
    let fields = parse_header(&file[..HEADER_SIZE]).unwrap();
    let end = HEADER_SIZE + fields.router_len as usize;
    let router = file[HEADER_SIZE..end].to_vec();
    let plain = TermIndex::open(&file[..HEADER_SIZE], router.clone()).unwrap();
    let (off, len) = plain.block_range_for(b"alpha").unwrap();
    assert_eq!(off, end as u64);

    // A header that claims the largest router leaves no room behind it.
    let mut header = file[..HEADER_SIZE].to_vec();
    header[16..24].copy_from_slice(&u64::MAX.to_le_bytes());
    let full = TermIndex::open(&header, router).unwrap();
    assert_eq!(full.block_range_for(b"alpha"), Some((u64::MAX, len)));
    assert_eq!(full.dict_block_locs(), vec![(u64::MAX, len)]);
}
