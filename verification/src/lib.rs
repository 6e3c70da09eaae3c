//! A persistent, incrementally maintained trigram index for source code.
//!
//! Files are indexed by the set of 3-byte windows of their raw UTF-8
//! bytes. The store keeps an inverted posting per trigram and the trigram
//! set per file, mutually consistent within every transaction; substring
//! search intersects the postings of the query's trigrams. A scanner
//! reconciles the index with a working tree, preferring repository
//! metadata over a full walk; a watcher keeps it in step with edits; a
//! lease row elects at most one writer per index across processes.
//!
//! Layout: `trigram` and `codec` define extraction and the per-file blob;
//! `store` holds the trusted wrappers around the embedded database;
//! `index` is the writer (id allocation, transactional upsert and remove,
//! batches); `search` the read path; `text` the content gates, substring
//! search, snippets and path canonicalization; `scan`, `watch` and
//! `lease` the decision rules that the surrounding process loops apply.

pub mod codec;
pub mod index;
pub mod lease;
pub mod model;
pub mod scan;
pub mod search;
pub mod store;
pub mod text;
pub mod trigram;
pub mod watch;
