//! Token-based fuzzy string matching over a static corpus.
//!
//! Strings are cut into byte n-grams, each n-gram is hashed under a family of
//! seeded hash functions, and every string is summarised by its MinHash
//! signature: for each hash function, the least hash over its n-grams.  The
//! similarity of two strings is the number of signature components on which
//! they agree.  Two search structures answer "which corpus string is closest
//! to this query":
//!
//! * [`binary::BinaryTokenFuzzer`] keeps, per hash function, the corpus entries sorted
//!   by hash value and merges the matching runs; it returns exactly the first
//!   corpus string of highest score.
//! * [`grouped::GroupedTokenFuzzer`] buckets the signature components in groups of four
//!   and only scores the corpus strings that agree with the query on a whole
//!   group.

pub mod hashing;
pub mod binary;
pub mod grouped;
pub mod scoring;
mod parallel;
