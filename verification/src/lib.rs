//! A full-text search engine over plain-text documents, verified with
//! Verus.
//!
//! - [`disk`]: the bit-level codec. `bits` and `codes` model a stream of
//!   bits and the codes stored in it (Elias γ, variable-byte, strings,
//!   gap-coded vectors); `bits_writer` and `bits_reader` are the two ends of
//!   a stream over a buffer of bytes; `laws` proves that what is written is
//!   what is read, from the start or after a seek.
//! - [`engine`]: the index and the queries. `builder` turns the documents of
//!   a corpus into postings; `documents`, `vocabulary` and `postings` are
//!   the three parts of an index and their files; `boolean`, `ranking`,
//!   `proximity` and `heap` answer queries; `preprocessor` turns text into
//!   terms.
//! - [`index`]: plain index files, of document lengths, of terms with the
//!   offsets of their postings, and of postings without positions.
//! - [`trie`]: a map from words to values with lookup by prefix.
//!
//! The library computes on bytes and values; reading and writing files,
//! the clock and floating-point scores are left to its callers.
pub mod disk;
pub mod engine;
pub mod index;
pub mod trie;
