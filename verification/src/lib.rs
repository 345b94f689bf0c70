//! CrabKv: a verified embeddable key-value store core.
//!
//! The engine keeps the append-only log as an in-memory byte image together
//! with the index, cache, and byte counters derived from it; callers that
//! want durability persist the byte image and hand it back on open.

pub mod cache;
pub mod codec;
pub mod compaction;
pub mod config;
pub mod engine;
pub mod index;
pub mod wal;

pub use engine::CrabKv;
pub use engine::CrabKvBuilder;
