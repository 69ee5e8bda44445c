//! Content-defined chunking with a content-addressed blob store.
//!
//! A byte stream is split into variable-sized chunks by a rolling hash,
//! each chunk is deduplicated and compressed into a store keyed by its
//! SHA-512/256 digest, and the chunk layout is recorded in a compact
//! little-endian binary index.  A reconstruction engine rebuilds the
//! stream from an index, drawing each chunk from a local seed file when
//! one supplies it and from the store otherwise.

pub mod assembler;
pub mod buzhash;
pub mod chunker;
pub mod index;
pub mod store;
pub mod utils;
