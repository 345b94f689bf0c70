//! Configuration helpers for CrabKv.

use vstd::prelude::*;

verus! {

/// Tunable parameters for the storage engine. Durations are whole seconds.
#[derive(Clone, Copy, Debug, PartialEq, Eq, Structural)]
pub struct EngineConfig {
    /// Maximum number of cached entries kept in memory.
    /// When absent, caching is disabled; when present, it is positive.
    pub cache_capacity: Option<usize>,
    /// Default time-to-live applied to writes when not explicitly provided.
    pub default_ttl: Option<u64>,
    /// Interval between WAL syncs; `None` means sync on every write.
    pub sync_interval: Option<u64>,
    /// Whether to compress values with Snappy before writing to the WAL.
    pub compression: bool,
    /// Whether to enable write-back caching.
    pub write_back_cache: bool,
}

impl EngineConfig {
    /// The default configuration: caching disabled, no default TTL, a sync
    /// on every write, no compression, no write-back.
    pub open spec fn spec_default() -> EngineConfig {
        EngineConfig {
            cache_capacity: None,
            default_ttl: None,
            sync_interval: None,
            compression: false,
            write_back_cache: false,
        }
    }

    /// Returns a configuration built from the given tunables.
    pub fn new(
        cache_capacity: Option<usize>,
        default_ttl: Option<u64>,
        sync_interval: Option<u64>,
        compression: bool,
        write_back_cache: bool,
    ) -> (r: Self)
        ensures
            r == (EngineConfig {
                cache_capacity,
                default_ttl,
                sync_interval,
                compression,
                write_back_cache,
            }),
    {
        EngineConfig { cache_capacity, default_ttl, sync_interval, compression, write_back_cache }
    }
}

impl Default for EngineConfig {
    /// A configuration with caching disabled, no default TTL, a sync on every
    /// write, and no compression.
    fn default() -> (r: Self)
        ensures
            r == EngineConfig::spec_default(),
    {
        EngineConfig {
            cache_capacity: None,
            default_ttl: None,
            sync_interval: None,
            compression: false,
            write_back_cache: false,
        }
    }
}

} // verus!
