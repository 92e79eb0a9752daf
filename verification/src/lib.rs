//! Range-fetchable index formats: the front-coded term dictionary, the term index, the
//! split-set manifest and its builders, and the vector index layout.

pub mod bitmap;
pub mod bloom;
pub mod bytes;
pub mod error;
pub mod facet_build;
pub mod facets;
pub mod greek;
pub mod lists;
pub mod postings;
pub mod router;
pub mod search;
pub mod search_run;
pub mod split_builder;
pub mod splitset;
pub mod splitset_build;
pub mod splitset_bundle;
pub mod splitset_write;
pub mod terms;
pub mod terms_build;
pub mod terms_dict;
pub mod text;
pub mod tlv;
pub mod tokenize;
pub mod topk;
pub mod vector;
pub mod vector_build;
pub mod web;
