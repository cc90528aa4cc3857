//! A search engine library for technical documentation: field extraction
//! and tokenization, block-based construction of a positional index with a
//! variable-byte codec, the k-way merge of blocks into one postings file,
//! and the query side (spell correction, intersection, phrase checks and the
//! integer inputs of BM25F ranking).

pub mod block_merge;
pub mod cleanup;
pub mod encode_decode;
pub mod field_extract;
pub mod intersect;
pub mod phrase_check;
pub mod postings;
pub mod query;
pub mod ranking;
pub mod spell_check;
pub mod term_map;
pub mod text;
pub mod three_gram_index;
pub mod traverse;
