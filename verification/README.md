# roaringrange

Range-fetchable search indexes, written in Verus. The functions of the library carry contracts that
are proved; what is believed without proof are the small wrappers around `roaring`, `fst`,
`rust-stemmers` and a few functions of `std`, each with a doc comment that says what it claims.

* `src/terms_dict.rs`, `src/terms.rs`, `src/terms_build.rs`: the front-coded dictionary and the
  term index (`RRTI`), with `src/tokenize.rs` for the tokenizer, `src/greek.rs` for the Greek words
  that it cannot stem, and `src/router.rs` for the resident router.
* `src/splitset.rs`, `src/splitset_build.rs`: the split-set manifest (`RRSS`);
  `src/split_builder.rs` seals byte-capped splits, `src/splitset_write.rs` flushes and compacts
  delta splits, `src/splitset_bundle.rs` lists the boots of a bundle.
* `src/search.rs`, `src/facets.rs`: the decisions of a query over a split set; the caller performs
  the reads that they ask for. `src/search_run.rs` states what a whole search returns.
* `src/bloom.rs`, `src/tlv.rs`, `src/facet_build.rs`: the summaries that let a query skip a split.
* `src/vector.rs`, `src/vector_build.rs`, `src/topk.rs`: the vector index (`RRVI`) and the re-rank
  sidecar (`RRVR`). Floats are held as their bits; the arithmetic on them is in `app/`.
* `src/web.rs`: what the browser bindings decide.

Public proof functions named `law_…` state what holds across functions: that a reader gets back
what a writer wrote, that pruning loses no match, that waves return what a serial descent would,
that compaction keeps results.

`app/` holds what surrounds the library: ranged reads, training, and the JavaScript classes.
