# search_engine

A search engine library for technical documentation, written in Verus. Verus
proves the contracts of the library's functions; the few small wrappers that
call the `regex` crate or std string conversions have contracts that are
assumed, each stating what that call returns.

- `cleanup` — the tokenizer: ASCII token characters with a keep list, edge
  trimming, underscore and CamelCase pieces, the 64-character limit.
- `field_extract` — markdown split into title, headers, code and body (the
  pattern matching is the `regex` crate's).
- `postings`, `term_map` — a term's positional postings and the sorted
  term maps used for block indexes, trigram indexes and the dictionary.
- `encode_decode` — the variable-byte codec and the postings and block
  formats, with round-trip laws.
- `traverse` — the indexer: document ids, per-field positions, trigram
  indexing and block flushes every 4,000 documents.
- `block_merge` — the k-way merge of sorted blocks into one postings file and
  its dictionary.
- `intersect`, `phrase_check`, `spell_check`, `three_gram_index`, `query`,
  `ranking` — the query side: ordering by document frequency, sorted
  intersection, exact phrases, trigram spell correction and the integer
  inputs of BM25F.

`app/` is the program around the library: it walks the corpus directory,
writes and reads the block and index files, scores with BM25F in floating
point and runs the query loop.
