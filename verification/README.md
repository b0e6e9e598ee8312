# token_fuzz_rs

Token-based fuzzy string matching for large, static corpora, verified with Verus.

Strings are cut into byte n-grams whose length lies in
`(min_token_length, max_token_length]`; each n-gram is hashed under a family of
seeded hash functions (FNV-1a of the bytes, mixed with the seed by the
splitmix64 finaliser), and a string is summarised by its MinHash signature. The
score of a corpus string against a query is the number of signature components
they share.

* `src/hashing.rs`: seeds, token hashes, MinHash signatures (`compute_signature`).
* `src/scoring.rs`: scores and the choice of the first string of highest score.
* `src/binary.rs`: `BinaryTokenFuzzer`, reverse indexes sorted by hash value,
  merged per query; returns exactly the first corpus string of highest score.
* `src/grouped.rs`: `GroupedTokenFuzzer`, components bucketed in groups of
  four; only strings sharing a whole group with the query are scored.
* `src/parallel.rs`: the rayon calls that spread construction over threads.

Every executable function is verified against its contract; the rayon and
std sorting calls are trusted items whose contracts are stated in their doc
comments.
