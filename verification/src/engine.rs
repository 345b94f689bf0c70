//! High-level storage engine orchestrating the in-memory index and WAL.
//!
//! The engine owns the log byte image, the index derived from it, the
//! optional cache, and the byte counters. Its well-formedness invariant ties
//! them together: replaying the log yields exactly the index and the stale
//! count, the total equals the log size, and every cache entry agrees with
//! the log or with the write-back buffer. Time enters as an explicit
//! `now` argument in seconds since the Unix epoch.

use vstd::prelude::*;
use vstd::utf8::{decode_utf8, encode_utf8, valid_utf8};
use vstd::string::StrSliceExecFns;
use crate::cache::{Cache, CacheEntry};
use crate::codec::{
    lemma_decode_rec_bounds, model_payload, spec_encode, spec_encode_oversized, spec_record_len,
    EntryModel, WalEntry, WalError,
};
use crate::compaction::{should_compact, spec_should_compact};
use crate::config::EngineConfig;
use crate::index::{IndexEntry, KeyIndex, ValuePointer};
use crate::wal::{
    acc_empty, acc_entry_wf, acc_wf, index_matches_acc, lemma_acc_member_bound,
    lemma_replay_from_append, lemma_replay_wf, live_sum, replay_step, spec_replay, ReplayAcc,
    Wal,
};

verus! {

/// An entry is expired once the clock has reached its deadline.
pub open spec fn spec_expired(expires_at: Option<u64>, now: u64) -> bool {
    match expires_at {
        Some(t) => now >= t,
        None => false,
    }
}

/// Returns whether an entry with the given expiry is expired at `now`.
pub fn is_expired_at(expires_at: Option<u64>, now: u64) -> (r: bool)
    ensures
        r == spec_expired(expires_at, now),
{
    match expires_at {
        Some(t) => now >= t,
        None => false,
    }
}

/// The absolute expiry instant of a write issued at `now` with the given
/// time-to-live: the deadline saturates to "no expiry" past the integer range.
pub open spec fn spec_expiry(now: u64, ttl: Option<u64>) -> Option<u64> {
    match ttl {
        Some(d) => if now + d <= u64::MAX {
            Some((now + d) as u64)
        } else {
            None
        },
        None => None,
    }
}

/// Computes the expiry instant of a write issued at `now`.
pub fn expiry_at(now: u64, ttl: Option<u64>) -> (r: Option<u64>)
    ensures
        r == spec_expiry(now, ttl),
{
    match ttl {
        Some(d) => if d <= u64::MAX - now {
            Some(now + d)
        } else {
            None
        },
        None => None,
    }
}

/// The accumulator a successful replay of `log` produces.
pub open spec fn replay_acc_of(log: Seq<u8>, c: bool) -> ReplayAcc {
    match spec_replay(log, c) {
        Ok(acc) => acc,
        Err(_) => acc_empty(),
    }
}

/// The live map a log describes: each key's value characters and expiry.
pub open spec fn live_of_log(log: Seq<u8>, c: bool) -> Map<Seq<u8>, (Seq<char>, Option<u64>)> {
    let acc = replay_acc_of(log, c);
    Map::new(
        |kb: Seq<u8>| acc.index.contains_key(kb),
        |kb: Seq<u8>| (acc.index[kb].value, acc.index[kb].expires_at),
    )
}

/// Every cache entry agrees with the write-back buffer when buffered, and
/// with the log otherwise.
pub open spec fn cache_coherent(cache: Cache, acc: ReplayAcc) -> bool {
    forall|kb: Seq<u8>| #[trigger]
        cache.lru_view().contains_key(kb) ==> if cache.buffer_view().contains_key(kb) {
            cache.lru_view()[kb] == cache.buffer_view()[kb]@
        } else {
            acc.index.contains_key(kb) && cache.lru_view()[kb] == (
                acc.index[kb].value,
                acc.index[kb].expires_at,
            )
        }
}

/// Buffered keys are the UTF-8 encodings of their own decodings, so that a
/// flush can reconstruct the key string.
pub open spec fn buffer_keys_valid(cache: Cache) -> bool {
    forall|kb: Seq<u8>| #[trigger]
        cache.buffer_view().contains_key(kb) ==> valid_utf8(kb) && encode_utf8(decode_utf8(kb))
            == kb
}

/// Frame of a read at `now` on the key with byte encoding `kb`: either the
/// lazy-expiry step ran, dropping the key everywhere and appending its
/// tombstone, or the log, the counters, and the live map are untouched (a
/// read may at most re-populate the cache with the value the log already
/// holds).
pub open spec fn get_frame(pre: CrabKv, post: CrabKv, kb: Seq<u8>, key: Seq<char>, now: u64) -> bool {
    let c = pre.config_of().compression;
    if pre.lazy_expiry_fires(kb, now) {
        &&& post.live() == pre.live().remove(kb)
        &&& post.wal_live() == pre.wal_live().remove(kb)
        &&& post.buffer_map() == pre.buffer_map().remove(kb)
        &&& post.log_view() == pre.log_view() + spec_encode(
            EntryModel::Delete { key: key },
            c,
        )
        &&& post.total_of() == post.log_view().len()
        &&& post.stale_of() == pre.stale_of() + pre.live_record_len(kb)
    } else {
        &&& post.log_view() == pre.log_view()
        &&& post.total_of() == pre.total_of()
        &&& post.stale_of() == pre.stale_of()
        &&& post.wal_live() == pre.wal_live()
        &&& post.live() == pre.live()
        &&& (post.buffer_map() == pre.buffer_map() || post.buffer_map()
            == pre.buffer_map().insert(kb, pre.wal_live()[kb]))
    }
}

/// Concurrent key-value store core with append-only persistence.
pub struct CrabKv {
    index: KeyIndex,
    wal: Wal,
    cache: Option<Cache>,
    config: EngineConfig,
    async_compaction: bool,
    stale_bytes: u64,
    total_bytes: u64,
    compaction_pending: bool,
}

/// Builder used to configure the storage engine before opening it.
#[derive(Clone, Copy, Debug, PartialEq, Eq, Structural)]
pub struct CrabKvBuilder {
    /// Size of the lookup cache; `None` disables caching.
    pub cache_capacity: Option<usize>,
    /// Expiry applied to Puts lacking an explicit TTL, in seconds.
    pub default_ttl: Option<u64>,
    /// Seconds between syncs; `None` means sync on every append.
    pub sync_interval: Option<u64>,
    /// Whether compaction is deferred to a background worker.
    pub async_compaction: bool,
    /// Whether value payloads are Snappy-compressed.
    pub compression: bool,
    /// Whether Puts are buffered in memory until an explicit flush.
    pub write_back_cache: bool,
}

impl CrabKv {
    /// The byte image of the log.
    pub closed spec fn log_view(&self) -> Seq<u8> {
        self.wal.log_bytes()
    }

    /// The engine's configuration.
    pub closed spec fn config_of(&self) -> EngineConfig {
        self.config
    }

    /// Whether compaction is handed to a background worker.
    pub closed spec fn async_on(&self) -> bool {
        self.async_compaction
    }

    /// The stale-byte counter.
    pub closed spec fn stale_of(&self) -> u64 {
        self.stale_bytes
    }

    /// The total-byte counter.
    pub closed spec fn total_of(&self) -> u64 {
        self.total_bytes
    }

    /// Whether a compaction request is waiting for the background worker.
    pub closed spec fn pending_of(&self) -> bool {
        self.compaction_pending
    }

    /// The index as a map from key bytes to record locations.
    pub closed spec fn index_view(&self) -> Map<Seq<u8>, IndexEntry> {
        self.index@
    }

    /// The live map the log alone describes.
    pub open spec fn wal_live(&self) -> Map<Seq<u8>, (Seq<char>, Option<u64>)> {
        live_of_log(self.log_view(), self.config_of().compression)
    }

    /// Whether the write-back fast path is in effect: write-back mode is on
    /// and a cache exists.
    pub closed spec fn wb_active(&self) -> bool {
        self.config.write_back_cache && self.cache is Some
    }

    /// Contents of the write-back buffer, empty without a cache.
    pub closed spec fn buffer_map(&self) -> Map<Seq<u8>, (Seq<char>, Option<u64>)> {
        match self.cache {
            Some(cache) => Map::new(
                |kb: Seq<u8>| cache.buffer_view().contains_key(kb),
                |kb: Seq<u8>| cache.buffer_view()[kb]@,
            ),
            None => Map::empty(),
        }
    }

    /// Whether no un-flushed writes are buffered.
    pub open spec fn buffer_empty(&self) -> bool {
        self.buffer_map() =~= Map::empty()
    }

    /// What the cache would answer for the key; in write-back mode the fast
    /// path of a read takes any such hit.
    pub closed spec fn cache_probe(&self, kb: Seq<u8>) -> Option<(Seq<char>, Option<u64>)> {
        match self.cache {
            Some(cache) => cache.lookup(kb),
            None => None,
        }
    }

    /// Whether a read of `kb` at `now` performs the lazy-expiry step: the
    /// write-back fast path did not answer, the log holds the key, and its
    /// deadline has been reached.
    pub open spec fn lazy_expiry_fires(&self, kb: Seq<u8>, now: u64) -> bool {
        &&& !(self.wb_active() && self.cache_probe(kb) is Some)
        &&& self.wal_live().contains_key(kb)
        &&& spec_expired(self.wal_live()[kb].1, now)
    }

    /// The live map as reads observe it: buffered writes override the log.
    pub open spec fn live(&self) -> Map<Seq<u8>, (Seq<char>, Option<u64>)> {
        if self.wb_active() {
            self.wal_live().union_prefer_right(self.buffer_map())
        } else {
            self.wal_live()
        }
    }

    /// What a read of the key with byte encoding `kb` returns at `now`: the
    /// live value, unless it is absent or its expiry has been reached.
    pub open spec fn visible(&self, kb: Seq<u8>, now: u64) -> Option<Seq<char>> {
        if self.live().contains_key(kb) && !spec_expired(self.live()[kb].1, now) {
            Some(self.live()[kb].0)
        } else {
            None
        }
    }

    /// The record length of the live record for `kb`.
    pub open spec fn live_record_len(&self, kb: Seq<u8>) -> int {
        replay_acc_of(self.log_view(), self.config_of().compression).index[kb].record_len
    }

    /// The engine invariant: the log replays to exactly the index and the
    /// stale count, the total equals the log size, and the cache layers
    /// agree with the log and the buffer.
    pub closed spec fn wf(&self) -> bool {
        let c = self.config.compression;
        let log = self.wal.log_bytes();
        let acc = replay_acc_of(log, c);
        &&& self.wal.compression_on() == c
        &&& self.wal.sync_interval_of() == self.config.sync_interval
        &&& spec_replay(log, c) is Ok
        &&& self.index.wf()
        &&& index_matches_acc(self.index@, acc)
        &&& self.total_bytes == log.len()
        &&& self.stale_bytes == acc.stale
        &&& match self.cache {
            Some(cache) => {
                &&& match self.config.cache_capacity {
                    Some(n) => n > 0,
                    None => false,
                }
                &&& cache.wf()
                &&& cache.write_back_on() == self.config.write_back_cache
                &&& cache_coherent(cache, acc)
                &&& buffer_keys_valid(cache)
            },
            None => match self.config.cache_capacity {
                Some(n) => n == 0,
                None => true,
            },
        }
    }

    /// Returns a builder to customize caching and TTL behaviour.
    pub fn builder() -> (r: CrabKvBuilder)
        ensures
            r == CrabKvBuilder::default_spec(),
    {
        CrabKvBuilder::new()
    }

    /// Opens the engine over the given log image with default configuration.
    pub fn open(log: Vec<u8>) -> (r: Result<CrabKv, WalError>)
        ensures
            r is Ok <==> spec_replay(log@, false) is Ok,
            r matches Ok(kv) ==> {
                &&& kv.wf()
                &&& kv.log_view() == log@
                &&& kv.config_of() == EngineConfig::spec_default()
                &&& kv.live() == live_of_log(log@, false)
                &&& kv.buffer_empty()
                &&& !kv.pending_of()
            },
            r matches Err(e) ==> spec_replay(log@, false) == Err::<ReplayAcc, WalError>(e),
    {
        CrabKvBuilder::new().build(log)
    }

    /// The raw bytes of the log, for persistence by the caller.
    pub fn wal_bytes(&self) -> (r: &Vec<u8>)
        ensures
            r@ == self.log_view(),
    {
        self.wal.bytes()
    }

    /// Current size of the log in bytes.
    pub fn log_size(&self) -> (r: u64)
        ensures
            r == self.log_view().len(),
    {
        self.wal.size()
    }

    /// The total-byte counter: bytes ever appended to the current log.
    pub fn total_bytes(&self) -> (r: u64)
        ensures
            r == self.total_of(),
    {
        self.total_bytes
    }

    /// The stale-byte counter: bytes of superseded or deleted records.
    pub fn stale_bytes(&self) -> (r: u64)
        ensures
            r == self.stale_of(),
    {
        self.stale_bytes
    }

    /// Takes the pending background-compaction request, if one is waiting.
    /// The caller that runs compaction in the background polls this after
    /// each mutation.
    pub fn take_compaction_request(&mut self) -> (r: bool)
        requires
            old(self).wf(),
        ensures
            final(self).wf(),
            r == old(self).pending_of(),
            !final(self).pending_of(),
            final(self).log_view() == old(self).log_view(),
            final(self).config_of() == old(self).config_of(),
            final(self).live() == old(self).live(),
            final(self).total_of() == old(self).total_of(),
            final(self).stale_of() == old(self).stale_of(),
    {
        let r = self.compaction_pending;
        self.compaction_pending = false;
        r
    }
}

impl CrabKv {
    /// Returns the value stored for the key if present and not expired at
    /// `now`. Reaching the expiry at the read instant counts as expired. A
    /// key whose index entry has expired is lazily removed, with a tombstone
    /// appended to the log.
    pub fn get(&mut self, key: &str, now: u64) -> (r: Option<String>)
        requires
            old(self).wf(),
        ensures
            final(self).wf(),
            final(self).config_of() == old(self).config_of(),
            final(self).async_on() == old(self).async_on(),
            final(self).pending_of() == old(self).pending_of(),
            match r {
                Some(v) => old(self).visible(encode_utf8(key@), now) == Some(v@),
                None => old(self).visible(encode_utf8(key@), now) is None,
            },
            forall|k2: Seq<u8>| final(self).visible(k2, now) == old(self).visible(k2, now),
            get_frame(*old(self), *final(self), encode_utf8(key@), key@, now),
    {
        broadcast use vstd::utf8::encode_utf8_valid_utf8, vstd::utf8::encode_utf8_decode_utf8;

        let kb = key.as_bytes_vec();
        let ghost kbv = kb@;
        let ghost acc = replay_acc_of(self.wal.log_bytes(), self.config.compression);
        proof {
            lemma_replay_wf(self.wal.log_bytes(), self.config.compression, acc);
        }
        // Write-back fast path: any cache hit answers the read, expired hits
        // report absence without touching the log.
        let wb_hit: Option<CacheEntry> = if self.config.write_back_cache {
            match &mut self.cache {
                Some(cache) => cache.get(&kb),
                None => None,
            }
        } else {
            None
        };
        match wb_hit {
            Some(hit) => {
                proof {
                    assert(old(self).live().contains_key(kbv) && old(self).live()[kbv] == hit@);
                    assert(old(self).wb_active() && old(self).cache_probe(kbv) is Some);
                    assert(!old(self).lazy_expiry_fires(kbv, now));
                    assert(final(self).buffer_map() =~= old(self).buffer_map());
                    assert(final(self).live() =~= old(self).live());
                }
                if !is_expired_at(hit.expires_at, now) {
                    return Some(hit.value);
                } else {
                    return None;
                }
            },
            None => {},
        }
        proof {
            assert(!(old(self).wb_active() && old(self).cache_probe(kbv) is Some));
        }
        proof {
            assert(!self.buffer_map().contains_key(kbv)) by {
                match self.cache {
                    Some(cache) => {
                        if self.config.write_back_cache {
                        } else {
                            cache.lemma_no_write_back_buffer();
                        }
                    },
                    None => {},
                }
            }
        }
        let entry = match self.index.get(&kb) {
            Some(entry) => entry,
            None => {
                proof {
                    assert(!self.wal_live().contains_key(kbv));
                    assert(old(self).visible(kbv, now) is None);
                    assert(!old(self).lazy_expiry_fires(kbv, now));
                    assert(final(self).buffer_map() =~= old(self).buffer_map());
                    assert(final(self).live() =~= old(self).live());
                }
                return None;
            },
        };
        proof {
            assert(acc.index.contains_key(kbv));
            assert(acc_entry_wf(
                self.wal.log_bytes(),
                self.config.compression,
                self.wal.log_bytes().len() as int,
                kbv,
                acc.index[kbv],
            ));
            assert(entry.expires_at == acc.index[kbv].expires_at);
            assert(self.wal_live().contains_key(kbv));
            assert(self.live()[kbv] == (acc.index[kbv].value, acc.index[kbv].expires_at));
        }
        if is_expired_at(entry.expires_at, now) {
            proof {
                assert(old(self).lazy_expiry_fires(kbv, now));
            }
            let r = self.expire_key(&kb, now);
            proof {
                assert(spec_encode(
                    EntryModel::Delete { key: decode_utf8(kbv) },
                    self.config.compression,
                ) == spec_encode(EntryModel::Delete { key: key@ }, self.config.compression));
            }
            return r;
        }
        proof {
            assert(!old(self).lazy_expiry_fires(kbv, now));
        }
        // Consult the read cache; in write-back mode the lookup above already
        // covered it.
        let read_hit: Option<CacheEntry> = if !self.config.write_back_cache {
            match &mut self.cache {
                Some(cache) => cache.get(&kb),
                None => None,
            }
        } else {
            None
        };
        match read_hit {
            Some(hit) => {
                proof {
                    assert(hit@ == (acc.index[kbv].value, acc.index[kbv].expires_at));
                }
                if !is_expired_at(hit.expires_at, now) {
                    proof {
                        assert(final(self).buffer_map() =~= old(self).buffer_map());
                        assert(final(self).live() =~= old(self).live());
                    }
                    return Some(hit.value);
                }
            },
            None => {},
        }
        let rec = match self.wal.read_record(entry.pointer) {
            Ok(rec) => rec,
            Err(_) => {
                proof {
                    assert(false);
                }
                return None;
            },
        };
        proof {
            assert(rec.entry@ == (EntryModel::Put {
                key: decode_utf8(kbv),
                value: acc.index[kbv].value,
                expires_at: acc.index[kbv].expires_at,
            }));
        }
        match rec.entry {
            WalEntry::Put { value, .. } => {
                let ghost pre = *self;
                match &mut self.cache {
                    Some(cache) => {
                        cache.put(
                            kb,
                            CacheEntry { value: value.clone(), expires_at: entry.expires_at },
                        );
                    },
                    None => {},
                }
                proof {
                    assert(final(self).wal_live() == old(self).wal_live());
                    if self.wb_active() {
                        assert(final(self).buffer_map() =~= old(self).buffer_map().insert(
                            kbv,
                            (acc.index[kbv].value, acc.index[kbv].expires_at),
                        ));
                        assert(old(self).wal_live()[kbv] == (
                            acc.index[kbv].value,
                            acc.index[kbv].expires_at,
                        ));
                        assert(final(self).live() =~= old(self).live());
                    } else {
                        assert(final(self).buffer_map() =~= old(self).buffer_map());
                    }
                    assert(final(self).live() == old(self).live());
                }
                Some(value)
            },
            WalEntry::Delete { .. } => {
                proof {
                    assert(false);
                }
                None
            },
        }
    }

    /// Removes a key whose index entry has expired: the lazy-expiry step of
    /// a read. Appends a tombstone, credits the superseded record to the
    /// stale count, and drops the key from index and cache.
    fn expire_key(&mut self, kb: &Vec<u8>, now: u64) -> (r: Option<String>)
        requires
            old(self).wf(),
            valid_utf8(kb@),
            encode_utf8(decode_utf8(kb@)) == kb@,
            old(self).wal_live().contains_key(kb@),
            spec_expired(old(self).wal_live()[kb@].1, now),
            !old(self).buffer_map().contains_key(kb@),
        ensures
            final(self).wf(),
            final(self).config_of() == old(self).config_of(),
            final(self).async_on() == old(self).async_on(),
            final(self).pending_of() == old(self).pending_of(),
            r is None,
            final(self).live() == old(self).live().remove(kb@),
            final(self).wal_live() == old(self).wal_live().remove(kb@),
            final(self).buffer_map() == old(self).buffer_map().remove(kb@),
            final(self).log_view() == old(self).log_view() + spec_encode(
                EntryModel::Delete { key: decode_utf8(kb@) },
                old(self).config_of().compression,
            ),
            final(self).total_of() == final(self).log_view().len(),
            final(self).stale_of() == old(self).stale_of() + old(self).live_record_len(kb@),
            forall|k2: Seq<u8>| final(self).visible(k2, now) == old(self).visible(k2, now),
    {
        broadcast use vstd::utf8::encode_utf8_valid_utf8, vstd::utf8::encode_utf8_decode_utf8;

        let ghost logv = self.wal.log_bytes();
        let ghost c = self.config.compression;
        let ghost acc = replay_acc_of(logv, c);
        proof {
            lemma_replay_wf(logv, c, acc);
            assert(acc.index.contains_key(kb@));
            lemma_acc_member_bound(logv, c, logv.len() as int, acc, kb@);
            lemma_decode_rec_bounds(
                logv.skip(acc.index[kb@].offset),
                c,
                EntryModel::Put {
                    key: decode_utf8(kb@),
                    value: acc.index[kb@].value,
                    expires_at: acc.index[kb@].expires_at,
                },
                acc.index[kb@].record_len,
                acc.index[kb@].value_len,
            );
        }
        let entry = match self.index.remove(kb) {
            Some(entry) => entry,
            None => {
                proof {
                    assert(false);
                }
                return None;
            },
        };
        self.stale_bytes = self.stale_bytes + entry.pointer.record_len as u64;
        if let Some(cache) = &mut self.cache {
            cache.remove(kb);
        }
        let key_copy = crate::codec::copy_range(kb, 0, kb.len());
        proof {
            assert(key_copy@ =~= kb@);
        }
        let key_string = match crate::codec::string_from_utf8(key_copy) {
            Some(s) => s,
            None => {
                proof {
                    assert(false);
                }
                return None;
            },
        };
        let delete = WalEntry::Delete { key: key_string };
        proof {
            assert(crate::codec::model_key_bytes(delete@) == kb@);
            assert(!spec_encode_oversized(delete@, c));
        }
        let ghost pre_log = self.wal.log_bytes();
        match self.wal.append(&delete) {
            Ok(ptr) => {
                self.total_bytes = self.wal.size();
                proof {
                    lemma_replay_from_append(
                        pre_log,
                        spec_encode(delete@, c),
                        c,
                        0,
                        acc_empty(),
                        acc,
                        delete@,
                        model_payload(delete@, c).len() as int,
                    );
                    let acc2 = replay_step(
                        acc,
                        delete@,
                        pre_log.len() as int,
                        spec_encode(delete@, c).len() as int,
                        model_payload(delete@, c).len() as int,
                    );
                    assert(spec_replay(self.wal.log_bytes(), c) == Ok::<ReplayAcc, WalError>(
                        acc2,
                    ));
                    assert(acc2.index =~= acc.index.remove(kb@));
                    assert(final(self).wal_live() =~= old(self).wal_live().remove(kb@));
                    assert(final(self).buffer_map() =~= old(self).buffer_map().remove(kb@));
                    if final(self).wb_active() {
                        assert(final(self).live() =~= old(self).live().remove(kb@));
                    }
                    assert forall|k2: Seq<u8>|
                        final(self).visible(k2, now) == old(self).visible(k2, now) by {
                        if k2 == kb@ {
                            assert(old(self).visible(k2, now) is None);
                        }
                    }
                }
                None
            },
            Err(_) => {
                proof {
                    assert(false);
                }
                None
            },
        }
    }
}

/// Lexicographic order on byte sequences, read from position `i` on.
pub open spec fn spec_bytes_le_from(a: Seq<u8>, b: Seq<u8>, i: int) -> bool
    decreases a.len() - i,
{
    if i < 0 || i >= a.len() {
        true
    } else if i >= b.len() {
        false
    } else if a[i] < b[i] {
        true
    } else if a[i] > b[i] {
        false
    } else {
        spec_bytes_le_from(a, b, i + 1)
    }
}

/// Lexicographic order on byte sequences.
pub open spec fn spec_bytes_le(a: Seq<u8>, b: Seq<u8>) -> bool {
    spec_bytes_le_from(a, b, 0)
}

/// The lexicographic order is total.
pub proof fn lemma_bytes_le_total(a: Seq<u8>, b: Seq<u8>)
    ensures
        spec_bytes_le(a, b) || spec_bytes_le(b, a),
{
    lemma_bytes_le_from_total(a, b, 0);
}

proof fn lemma_bytes_le_from_total(a: Seq<u8>, b: Seq<u8>, i: int)
    requires
        0 <= i,
    ensures
        spec_bytes_le_from(a, b, i) || spec_bytes_le_from(b, a, i),
    decreases a.len() - i,
{
    if i < a.len() && i < b.len() && a[i] == b[i] {
        lemma_bytes_le_from_total(a, b, i + 1);
    }
}

/// The lexicographic order is transitive.
pub proof fn lemma_bytes_le_trans(a: Seq<u8>, b: Seq<u8>, c: Seq<u8>)
    requires
        spec_bytes_le(a, b),
        spec_bytes_le(b, c),
    ensures
        spec_bytes_le(a, c),
{
    lemma_bytes_le_from_trans(a, b, c, 0);
}

proof fn lemma_bytes_le_from_trans(a: Seq<u8>, b: Seq<u8>, c: Seq<u8>, i: int)
    requires
        0 <= i,
        spec_bytes_le_from(a, b, i),
        spec_bytes_le_from(b, c, i),
    ensures
        spec_bytes_le_from(a, c, i),
    decreases a.len() - i,
{
    if i < a.len() {
        assert(i < b.len());
        assert(i < c.len());
        if a[i] == b[i] && b[i] == c[i] {
            lemma_bytes_le_from_trans(a, b, c, i + 1);
        }
    }
}

/// Compares two keys by the lexicographic order of their UTF-8 bytes, the
/// order compaction writes records in.
fn key_le(a: &String, b: &String) -> (r: bool)
    ensures
        r == spec_bytes_le(encode_utf8(a@), encode_utf8(b@)),
{
    let av = a.as_str().as_bytes_vec();
    let bv = b.as_str().as_bytes_vec();
    let mut i: usize = 0;
    loop
        invariant
            av@ == encode_utf8(a@),
            bv@ == encode_utf8(b@),
            i <= av@.len(),
            i <= bv@.len(),
            spec_bytes_le(av@, bv@) == spec_bytes_le_from(av@, bv@, i as int),
        decreases av@.len() - i,
    {
        if i == av.len() {
            return true;
        }
        if i == bv.len() {
            return false;
        }
        if av[i] < bv[i] {
            return true;
        }
        if av[i] > bv[i] {
            return false;
        }
        i = i + 1;
    }
}

/// Position at which compaction inserts a retained entry to keep its output
/// ordered by key: every earlier entry is at most the key, and the entry at
/// the position, if any, is at least it.
fn insert_pos(out: &Vec<(String, String, Option<u64>)>, key: &String) -> (r: usize)
    ensures
        r <= out@.len(),
        forall|j: int|
            0 <= j < r ==> spec_bytes_le(encode_utf8(#[trigger] out@[j].0@), encode_utf8(key@)),
        r < out@.len() ==> spec_bytes_le(encode_utf8(key@), encode_utf8(out@[r as int].0@)),
{
    let n = out.len();
    let mut p: usize = 0;
    while p < n
        invariant
            p <= n,
            n == out@.len(),
            forall|j: int|
                0 <= j < p ==> spec_bytes_le(
                    encode_utf8(#[trigger] out@[j].0@),
                    encode_utf8(key@),
                ),
        decreases n - p,
    {
        if !key_le(&out[p].0, key) {
            proof {
                lemma_bytes_le_total(encode_utf8(out@[p as int].0@), encode_utf8(key@));
            }
            return p;
        }
        p = p + 1;
    }
    p
}

/// Two retained triples carry the same key, value, and expiry.
pub open spec fn triple_eq(x: (String, String, Option<u64>), y: (String, String, Option<u64>)) -> bool {
    x.0@ == y.0@ && x.1@ == y.1@ && x.2 == y.2
}

/// Orders the retained entries by key bytes ascending. The order is a
/// determinism aid; the contract tracks, through two position maps, that
/// exactly the same entries come out. `r.1` maps each output position to the
/// input position it came from; `r.2` maps each input position to where its
/// entry went.
fn sort_entries(input: &Vec<(String, String, Option<u64>)>) -> (r: (
    Vec<(String, String, Option<u64>)>,
    Ghost<Seq<int>>,
    Ghost<Seq<int>>,
))
    ensures
        r.0@.len() == input@.len(),
        r.1@.len() == input@.len(),
        r.2@.len() == input@.len(),
        forall|j: int|
            0 <= j < input@.len() ==> 0 <= #[trigger] r.1@[j] < input@.len() && triple_eq(
                r.0@[j],
                input@[r.1@[j]],
            ),
        forall|p: int|
            0 <= p < input@.len() ==> 0 <= #[trigger] r.2@[p] < input@.len() && triple_eq(
                r.0@[r.2@[p]],
                input@[p],
            ),
        forall|a: int, b: int| 0 <= a < b < input@.len() ==> r.1@[a] != r.1@[b],
        forall|a: int, b: int|
            0 <= a < b < input@.len() ==> spec_bytes_le(
                encode_utf8(#[trigger] r.0@[a].0@),
                encode_utf8(#[trigger] r.0@[b].0@),
            ),
{
    let n = input.len();
    let mut out: Vec<(String, String, Option<u64>)> = Vec::new();
    let ghost mut srcs: Seq<int> = Seq::empty();
    let ghost mut slots: Seq<int> = Seq::empty();
    let mut i: usize = 0;
    while i < n
        invariant
            i <= n,
            n == input@.len(),
            out@.len() == i,
            srcs.len() == i,
            slots.len() == i,
            forall|j: int|
                0 <= j < i ==> 0 <= #[trigger] srcs[j] < i && triple_eq(out@[j], input@[srcs[j]]),
            forall|p: int|
                0 <= p < i ==> 0 <= #[trigger] slots[p] < i && triple_eq(out@[slots[p]], input@[p]),
            forall|a: int, b: int| 0 <= a < b < i ==> srcs[a] != srcs[b],
            forall|a: int, b: int|
                0 <= a < b < i ==> spec_bytes_le(
                    encode_utf8(#[trigger] out@[a].0@),
                    encode_utf8(#[trigger] out@[b].0@),
                ),
        decreases n - i,
    {
        let t = &input[i];
        let item = (t.0.clone(), t.1.clone(), t.2);
        proof {
            assert(triple_eq(item, input@[i as int]));
        }
        let pos = insert_pos(&out, &t.0);
        let ghost pre = out@;
        let ghost pre_srcs = srcs;
        let ghost pre_slots = slots;
        out.insert(pos, item);
        proof {
            srcs = pre_srcs.insert(pos as int, i as int);
            slots = pre_slots.map_values(
                |v: int| if v >= pos { v + 1 } else { v },
            ).push(pos as int);
            assert(out@ == pre.insert(pos as int, item));
            assert forall|j: int| 0 <= j < i + 1 implies 0 <= #[trigger] srcs[j] < i + 1
                && triple_eq(out@[j], input@[srcs[j]]) by {
                if j < pos {
                    assert(out@[j] == pre[j] && srcs[j] == pre_srcs[j]);
                } else if j == pos {
                    assert(out@[j] == item && srcs[j] == i as int);
                } else {
                    assert(out@[j] == pre[j - 1] && srcs[j] == pre_srcs[j - 1]);
                }
            }
            assert forall|p: int| 0 <= p < i + 1 implies 0 <= #[trigger] slots[p] < i + 1
                && triple_eq(out@[slots[p]], input@[p]) by {
                if p < i {
                    assert(slots[p] == if pre_slots[p] >= pos { pre_slots[p] + 1 } else {
                        pre_slots[p]
                    });
                    if pre_slots[p] >= pos {
                        assert(out@[pre_slots[p] + 1] == pre[pre_slots[p]]);
                    } else {
                        assert(out@[pre_slots[p]] == pre[pre_slots[p]]);
                    }
                } else {
                    assert(slots[p] == pos as int);
                    assert(out@[pos as int] == item);
                }
            }
            assert forall|a: int, b: int|
                0 <= a < b < i + 1 implies spec_bytes_le(
                encode_utf8(#[trigger] out@[a].0@),
                encode_utf8(#[trigger] out@[b].0@),
            ) by {
                if b < pos {
                    assert(out@[a] == pre[a] && out@[b] == pre[b]);
                } else if a < pos && b == pos {
                    assert(out@[a] == pre[a] && out@[b] == item);
                    assert(item.0@ == t.0@);
                } else if a < pos && b > pos {
                    assert(out@[a] == pre[a] && out@[b] == pre[b - 1]);
                } else if a == pos {
                    assert(out@[a] == item && b > pos);
                    assert(out@[b] == pre[b - 1]);
                    assert(pos < pre.len());
                    assert(spec_bytes_le(encode_utf8(t.0@), encode_utf8(pre[pos as int].0@)));
                    if b - 1 > pos {
                        lemma_bytes_le_trans(
                            encode_utf8(t.0@),
                            encode_utf8(pre[pos as int].0@),
                            encode_utf8(pre[b - 1].0@),
                        );
                    }
                    assert(item.0@ == t.0@);
                } else {
                    assert(out@[a] == pre[a - 1] && out@[b] == pre[b - 1]);
                }
            }
            assert forall|a: int, b: int| 0 <= a < b < i + 1 implies srcs[a] != srcs[b] by {
                if b == pos {
                    if a < pos {
                        assert(srcs[a] == pre_srcs[a] && pre_srcs[a] < i);
                    }
                } else if a == pos {
                    assert(srcs[b] == pre_srcs[b - 1] && pre_srcs[b - 1] < i);
                } else {
                    let ra: int = if a < pos { pre_srcs[a] } else { pre_srcs[a - 1] };
                    let rb: int = if b < pos { pre_srcs[b] } else { pre_srcs[b - 1] };
                    assert(srcs[a] == ra && srcs[b] == rb);
                }
            }
        }
        i = i + 1;
    }
    (out, Ghost(srcs), Ghost(slots))
}

/// The records of the log ascend by key: any two live keys sit in the log in
/// lexicographic byte order. Right after a compaction every record is live,
/// so this orders the whole file.
pub open spec fn records_key_ordered(log: Seq<u8>, c: bool) -> bool {
    forall|k1: Seq<u8>, k2: Seq<u8>|
        (#[trigger] replay_acc_of(log, c).index.contains_key(k1)
            && #[trigger] replay_acc_of(log, c).index.contains_key(k2) && replay_acc_of(
            log,
            c,
        ).index[k1].offset < replay_acc_of(log, c).index[k2].offset) ==> spec_bytes_le(k1, k2)
}

/// The set of byte keys of the first `q` entries of `keys`.
pub open spec fn key_set(keys: Seq<Vec<u8>>, q: int) -> Set<Seq<u8>>
    decreases q,
{
    if q <= 0 {
        Set::empty()
    } else {
        key_set(keys, q - 1).insert(keys[q - 1]@)
    }
}

/// Membership in `key_set` is position-wise membership in the list.
pub proof fn lemma_key_set_contains(keys: Seq<Vec<u8>>, q: int, k: Seq<u8>)
    requires
        0 <= q <= keys.len(),
    ensures
        key_set(keys, q).contains(k) <==> exists|j: int| 0 <= j < q && keys[j]@ == k,
    decreases q,
{
    if q > 0 {
        lemma_key_set_contains(keys, q - 1, k);
        if keys[q - 1]@ == k {
            assert(0 <= q - 1 < q && keys[q - 1]@ == k);
        }
    }
}

impl CrabKv {
    /// Rewrites the log so that it holds exactly the live, unexpired records,
    /// sorted by key; expired entries leave the index and the cache, the
    /// stale counter returns to zero, and the total matches the new log.
    /// With compression on, re-encoding a record can exceed the size bound;
    /// the log is then left untouched and the error surfaces.
    #[verifier::rlimit(100)]
    fn run_compaction(&mut self, now: u64) -> (r: Result<(), WalError>)
        requires
            old(self).wf(),
        ensures
            final(self).wf(),
            final(self).config_of() == old(self).config_of(),
            final(self).async_on() == old(self).async_on(),
            final(self).pending_of() == old(self).pending_of(),
            r matches Err(e) ==> {
                &&& *final(self) == *old(self)
                &&& e == WalError::RecordTooLarge
                &&& old(self).config_of().compression
                &&& exists|kb: Seq<u8>|
                    #[trigger] old(self).wal_live().contains_key(kb) && !spec_expired(
                        old(self).wal_live()[kb].1,
                        now,
                    ) && spec_encode_oversized(
                        stored_put_model(old(self).wal_live(), kb),
                        old(self).config_of().compression,
                    )
            },
            (forall|kb: Seq<u8>|
                #[trigger] old(self).wal_live().contains_key(kb) && !spec_expired(
                    old(self).wal_live()[kb].1,
                    now,
                ) ==> !spec_encode_oversized(
                    stored_put_model(old(self).wal_live(), kb),
                    old(self).config_of().compression,
                )) ==> r is Ok,
            !old(self).config_of().compression ==> r is Ok,
            r is Ok ==> {
                &&& final(self).stale_of() == 0
                &&& final(self).total_of() == final(self).log_view().len()
                &&& final(self).total_of() == live_sum(
                    replay_acc_of(
                        final(self).log_view(),
                        old(self).config_of().compression,
                    ).index,
                )
                &&& final(self).wal_live() == Map::new(
                    |k: Seq<u8>|
                        old(self).wal_live().contains_key(k) && !spec_expired(
                            old(self).wal_live()[k].1,
                            now,
                        ),
                    |k: Seq<u8>| old(self).wal_live()[k],
                )
                &&& final(self).buffer_map() == Map::new(
                    |k: Seq<u8>|
                        old(self).buffer_map().contains_key(k) && !(old(
                            self,
                        ).wal_live().contains_key(k) && spec_expired(
                            old(self).wal_live()[k].1,
                            now,
                        )),
                    |k: Seq<u8>| old(self).buffer_map()[k],
                )
                &&& (old(self).buffer_empty() ==> final(self).buffer_empty())
                &&& (old(self).buffer_empty() ==> forall|k2: Seq<u8>|
                    final(self).visible(k2, now) == old(self).visible(k2, now))
                &&& records_key_ordered(
                    final(self).log_view(),
                    old(self).config_of().compression,
                )
            },
    {
        broadcast use vstd::utf8::encode_utf8_valid_utf8, vstd::utf8::encode_utf8_decode_utf8;

        let ghost self0 = *self;
        let ghost logv0 = self.wal.log_bytes();
        let ghost c = self.config.compression;
        let ghost acc0 = replay_acc_of(logv0, c);
        let ghost pairs = self.index.pairs();
        proof {
            lemma_replay_wf(logv0, c, acc0);
            self.index.lemma_pairs_view();
        }
        let n = self.index.len();
        let mut retained: Vec<(String, String, Option<u64>)> = Vec::new();
        let mut expired_keys: Vec<Vec<u8>> = Vec::new();
        let ghost mut ret_src: Seq<int> = Seq::empty();
        let ghost mut exp_src: Seq<int> = Seq::empty();
        let ghost mut fate: Seq<int> = Seq::empty();
        let mut i: usize = 0;
        while i < n
            invariant
                *self == self0,
                self0.wf(),
                logv0 == self0.wal.log_bytes(),
                c == self0.config.compression,
                acc0 == replay_acc_of(logv0, c),
                acc_wf(logv0, c, logv0.len() as int, acc0),
                pairs == self0.index.pairs(),
                n == pairs.len(),
                i <= n,
                forall|p: int|
                    0 <= p < pairs.len() ==> #[trigger] self0.index_view().contains_key(
                        pairs[p].0@,
                    ) && self0.index_view()[pairs[p].0@] == pairs[p].1,
                forall|a: int, b: int| 0 <= a < b < pairs.len() ==> pairs[a].0@ != pairs[b].0@,
                ret_src.len() == retained@.len(),
                exp_src.len() == expired_keys@.len(),
                fate.len() == i,
                forall|j: int|
                    0 <= j < retained@.len() ==> {
                        let p = #[trigger] ret_src[j];
                        &&& 0 <= p < i
                        &&& encode_utf8(retained@[j].0@) == pairs[p].0@
                        &&& retained@[j].1@ == acc0.index[pairs[p].0@].value
                        &&& retained@[j].2 == pairs[p].1.expires_at
                        &&& !spec_expired(pairs[p].1.expires_at, now)
                    },
                forall|j1: int, j2: int|
                    0 <= j1 < j2 < ret_src.len() ==> ret_src[j1] != ret_src[j2],
                forall|q: int|
                    0 <= q < expired_keys@.len() ==> {
                        let p = #[trigger] exp_src[q];
                        &&& 0 <= p < i
                        &&& expired_keys@[q]@ == pairs[p].0@
                        &&& spec_expired(pairs[p].1.expires_at, now)
                    },
                forall|p: int|
                    0 <= p < i ==> {
                        let f = #[trigger] fate[p];
                        if spec_expired(pairs[p].1.expires_at, now) {
                            &&& f < 0
                            &&& 0 <= -1 - f < expired_keys@.len()
                            &&& exp_src[-1 - f] == p
                        } else {
                            &&& 0 <= f < retained@.len()
                            &&& ret_src[f] == p
                        }
                    },
            decreases n - i,
        {
            let ghost kbp = pairs[i as int].0@;
            proof {
                assert(self0.index_view().contains_key(kbp));
                assert(acc0.index.contains_key(kbp));
                assert(acc_entry_wf(logv0, c, logv0.len() as int, kbp, acc0.index[kbp]));
            }
            let expired = {
                let pair = self.index.pair_at(i);
                is_expired_at(pair.1.expires_at, now)
            };
            if expired {
                let kb_copy = {
                    let pair = self.index.pair_at(i);
                    crate::codec::copy_range(&pair.0, 0, pair.0.len())
                };
                proof {
                    assert(kb_copy@ =~= kbp);
                }
                expired_keys.push(kb_copy);
                proof {
                    exp_src = exp_src.push(i as int);
                    fate = fate.push(-(expired_keys@.len() as int));
                }
            } else {
                let pointer = {
                    let pair = self.index.pair_at(i);
                    pair.1.pointer
                };
                let rec = match self.wal.read_record(pointer) {
                    Ok(rec) => rec,
                    Err(_) => {
                        proof {
                            assert(false);
                        }
                        return Err(WalError::UnexpectedEof);
                    },
                };
                proof {
                    assert(rec.entry@ == (EntryModel::Put {
                        key: decode_utf8(kbp),
                        value: acc0.index[kbp].value,
                        expires_at: acc0.index[kbp].expires_at,
                    }));
                }
                match rec.entry {
                    WalEntry::Put { key, value, expires_at } => {
                        retained.push((key, value, expires_at));
                        proof {
                            ret_src = ret_src.push(i as int);
                            fate = fate.push(retained@.len() - 1);
                            assert(encode_utf8(retained@.last().0@) == kbp);
                        }
                    },
                    WalEntry::Delete { .. } => {
                        proof {
                            assert(false);
                        }
                        return Err(WalError::UnexpectedEof);
                    },
                }
            }
            i = i + 1;
        }
        // Sort the survivors by key, then atomically replace the log.
        let sort_out = sort_entries(&retained);
        let sorted = sort_out.0;
        let ghost srcs = sort_out.1@;
        let ghost slots = sort_out.2@;
        proof {
            assert forall|a: int, b: int|
                0 <= a < b < sorted@.len() implies sorted@[a].0@ != sorted@[b].0@ by {
                let pa = ret_src[srcs[a]];
                let pb = ret_src[srcs[b]];
                assert(encode_utf8(sorted@[a].0@) == pairs[pa].0@);
                assert(encode_utf8(sorted@[b].0@) == pairs[pb].0@);
                if sorted@[a].0@ == sorted@[b].0@ {
                    assert(pairs[pa].0@ == pairs[pb].0@);
                    assert(pa == pb);
                    assert(srcs[a] != srcs[b]);
                    assert(ret_src[srcs[a]] != ret_src[srcs[b]]) by {
                        assert(forall|j1: int, j2: int|
                            0 <= j1 < j2 < ret_src.len() ==> ret_src[j1] != ret_src[j2]);
                    }
                    assert(false);
                }
            }
        }
        let new_index = match self.wal.rewrite(&sorted) {
            Ok(ix) => ix,
            Err(e) => {
                proof {
                    let j = choose|j: int|
                        0 <= j < sorted@.len() && spec_encode_oversized(
                            crate::wal::put_model(sorted@[j]),
                            c,
                        );
                    assert(0 <= srcs[j] < retained@.len());
                    let p = ret_src[srcs[j]];
                    let kbj = pairs[p].0@;
                    assert(0 <= p < pairs.len());
                    assert(self0.index_view().contains_key(kbj));
                    assert(acc0.index.contains_key(kbj));
                    assert(acc_entry_wf(logv0, c, logv0.len() as int, kbj, acc0.index[kbj]));
                    assert(encode_utf8(retained@[srcs[j]].0@) == kbj);
                    assert(sorted@[j].0@ == retained@[srcs[j]].0@);
                    assert(sorted@[j].1@ == retained@[srcs[j]].1@);
                    assert(retained@[srcs[j]].1@ == acc0.index[kbj].value);
                    vstd::utf8::encode_utf8_decode_utf8(sorted@[j].0@);
                    assert(sorted@[j].0@ == decode_utf8(kbj));
                    assert(self0.wal_live().contains_key(kbj));
                    assert(crate::wal::put_model(sorted@[j]) == stored_put_model(
                        self0.wal_live(),
                        kbj,
                    ));
                    assert(!spec_expired(self0.wal_live()[kbj].1, now));
                    if !c {
                        lemma_decode_rec_bounds(
                            logv0.skip(acc0.index[kbj].offset),
                            c,
                            EntryModel::Put {
                                key: decode_utf8(kbj),
                                value: acc0.index[kbj].value,
                                expires_at: acc0.index[kbj].expires_at,
                            },
                            acc0.index[kbj].record_len,
                            acc0.index[kbj].value_len,
                        );
                        assert(encode_utf8(crate::codec::model_key(
                            crate::wal::put_model(sorted@[j]),
                        )) == kbj);
                        assert(crate::codec::model_value_bytes(crate::wal::put_model(sorted@[j]))
                            == encode_utf8(acc0.index[kbj].value));
                        assert(spec_record_len(crate::wal::put_model(sorted@[j]), c)
                            == acc0.index[kbj].record_len);
                        assert(false);
                    }
                }
                return Err(e);
            },
        };
        let ghost logv1 = self.wal.log_bytes();
        let ghost acc1 = replay_acc_of(logv1, c);
        self.index = new_index;
        proof {
            // The keys of the new log are exactly the unexpired keys of the
            // old, with the same values and expiries.
            assert forall|k: Seq<u8>| #[trigger]
                acc1.index.contains_key(k) implies acc0.index.contains_key(k) && !spec_expired(
                acc0.index[k].expires_at,
                now,
            ) && acc1.index[k].value == acc0.index[k].value && acc1.index[k].expires_at
                == acc0.index[k].expires_at by {
                let j = choose|j: int|
                    0 <= j < sorted@.len() && k == encode_utf8(sorted@[j].0@);
                let p = ret_src[srcs[j]];
                assert(encode_utf8(sorted@[j].0@) == encode_utf8(retained@[srcs[j]].0@));
                assert(encode_utf8(retained@[srcs[j]].0@) == pairs[p].0@);
                assert(self0.index_view().contains_key(pairs[p].0@));
                assert(acc0.index.contains_key(k));
                assert(acc1.index[k].value == sorted@[j].1@);
                assert(sorted@[j].1@ == retained@[srcs[j]].1@);
                assert(pairs[p].1.expires_at == acc0.index[pairs[p].0@].expires_at);
            }
            assert forall|k: Seq<u8>| #[trigger]
                acc0.index.contains_key(k) && !spec_expired(
                acc0.index[k].expires_at,
                now,
            ) implies acc1.index.contains_key(k) by {
                assert(self0.index_view().contains_key(k));
                let p = choose|p: int| 0 <= p < pairs.len() && pairs[p].0@ == k;
                assert(pairs[p].1 == self0.index_view()[k]);
                assert(pairs[p].1.expires_at == acc0.index[k].expires_at);
                assert(!spec_expired(pairs[p].1.expires_at, now));
                let j0 = fate[p];
                assert(0 <= j0 < retained@.len() && ret_src[j0] == p);
                let j = slots[j0];
                assert(encode_utf8(sorted@[j].0@) == encode_utf8(retained@[j0].0@));
                assert(encode_utf8(retained@[j0].0@) == k);
                assert(0 <= j < sorted@.len() && k == encode_utf8(sorted@[j].0@));
            }
            // The collected expired keys are exactly the expired keys of the
            // old log.
            assert forall|k: Seq<u8>| #[trigger]
                key_set(expired_keys@, expired_keys@.len() as int).contains(k) <==> (
            acc0.index.contains_key(k) && spec_expired(acc0.index[k].expires_at, now)) by {
                lemma_key_set_contains(expired_keys@, expired_keys@.len() as int, k);
                if key_set(expired_keys@, expired_keys@.len() as int).contains(k) {
                    let q = choose|q: int|
                        0 <= q < expired_keys@.len() && expired_keys@[q]@ == k;
                    let p = exp_src[q];
                    assert(self0.index_view().contains_key(pairs[p].0@));
                    assert(pairs[p].1.expires_at == acc0.index[k].expires_at);
                }
                if acc0.index.contains_key(k) && spec_expired(acc0.index[k].expires_at, now) {
                    assert(self0.index_view().contains_key(k));
                    let p = choose|p: int| 0 <= p < pairs.len() && pairs[p].0@ == k;
                    assert(pairs[p].1 == self0.index_view()[k]);
                    let f = fate[p];
                    assert(f < 0 && exp_src[-1 - f] == p);
                    assert(expired_keys@[-1 - f]@ == k);
                }
            }
        }
        // Expired keys leave the cache together with their index entries.
        let ghost mid = *self;
        let m = expired_keys.len();
        let mut q: usize = 0;
        while q < m
            invariant
                q <= m,
                m == expired_keys@.len(),
                self.wal == mid.wal,
                self.index == mid.index,
                self.config == mid.config,
                self.async_compaction == mid.async_compaction,
                self.stale_bytes == mid.stale_bytes,
                self.total_bytes == mid.total_bytes,
                self.compaction_pending == mid.compaction_pending,
                match (self.cache, mid.cache) {
                    (Some(cache), Some(cache0)) => {
                        &&& cache.wf()
                        &&& cache.write_back_on() == cache0.write_back_on()
                        &&& cache.lru_view() == cache0.lru_view().remove_keys(
                            key_set(expired_keys@, q as int),
                        )
                        &&& cache.buffer_view() == cache0.buffer_view().remove_keys(
                            key_set(expired_keys@, q as int),
                        )
                    },
                    (None, None) => true,
                    _ => false,
                },
            decreases m - q,
        {
            let ghost pre_cache = self.cache;
            match &mut self.cache {
                Some(cache) => {
                    cache.remove(&expired_keys[q]);
                },
                None => {},
            }
            proof {
                match (&self.cache, &mid.cache) {
                    (Some(cache), Some(cache0)) => {
                        assert(cache.lru_view() =~= cache0.lru_view().remove_keys(
                            key_set(expired_keys@, q + 1),
                        ));
                        assert(cache.buffer_view() =~= cache0.buffer_view().remove_keys(
                            key_set(expired_keys@, q + 1),
                        ));
                    },
                    _ => {},
                }
            }
            q = q + 1;
        }
        self.total_bytes = self.wal.size();
        self.stale_bytes = 0;
        proof {
            let ghost ek = key_set(expired_keys@, expired_keys@.len() as int);
            assert(final(self).wf()) by {
                match (&self.cache, &self0.cache) {
                    (Some(cache), Some(cache0)) => {
                        assert forall|kb: Seq<u8>| #[trigger]
                            cache.lru_view().contains_key(kb) implies {
                            if cache.buffer_view().contains_key(kb) {
                                cache.lru_view()[kb] == cache.buffer_view()[kb]@
                            } else {
                                acc1.index.contains_key(kb) && cache.lru_view()[kb] == (
                                    acc1.index[kb].value,
                                    acc1.index[kb].expires_at,
                                )
                            }
                        } by {
                            assert(cache0.lru_view().contains_key(kb));
                            assert(!ek.contains(kb));
                            if cache0.buffer_view().contains_key(kb) {
                                assert(cache.buffer_view().contains_key(kb));
                            } else {
                                assert(!cache.buffer_view().contains_key(kb));
                                assert(acc0.index.contains_key(kb));
                                assert(!spec_expired(acc0.index[kb].expires_at, now));
                                assert(acc1.index.contains_key(kb));
                            }
                        }
                        assert(buffer_keys_valid(*cache)) by {
                            assert forall|kb: Seq<u8>| #[trigger]
                                cache.buffer_view().contains_key(kb) implies valid_utf8(kb)
                                && encode_utf8(decode_utf8(kb)) == kb by {
                                assert(cache0.buffer_view().contains_key(kb));
                            }
                        }
                    },
                    _ => {},
                }
            }
            assert(final(self).wal_live() =~= Map::new(
                |k: Seq<u8>|
                    old(self).wal_live().contains_key(k) && !spec_expired(
                        old(self).wal_live()[k].1,
                        now,
                    ),
                |k: Seq<u8>| old(self).wal_live()[k],
            ));
            assert(final(self).buffer_map() =~= Map::new(
                |k: Seq<u8>|
                    old(self).buffer_map().contains_key(k) && !(old(
                        self,
                    ).wal_live().contains_key(k) && spec_expired(old(self).wal_live()[k].1, now)),
                |k: Seq<u8>| old(self).buffer_map()[k],
            )) by {
                match (&self.cache, &self0.cache) {
                    (Some(cache), Some(cache0)) => {},
                    _ => {},
                }
            }
            if old(self).buffer_empty() {
                assert(final(self).buffer_empty()) by {
                    assert(final(self).buffer_map() =~= Map::empty());
                }
                assert forall|k2: Seq<u8>|
                    final(self).visible(k2, now) == old(self).visible(k2, now) by {
                    assert(final(self).live() =~= final(self).wal_live());
                    assert(old(self).live() =~= old(self).wal_live());
                }
            }
            assert(records_key_ordered(final(self).log_view(), c)) by {
                assert forall|k1: Seq<u8>, k2: Seq<u8>|
                    (#[trigger] acc1.index.contains_key(k1)
                        && #[trigger] acc1.index.contains_key(k2) && acc1.index[k1].offset
                        < acc1.index[k2].offset) implies spec_bytes_le(k1, k2) by {
                    let j1 = choose|j: int|
                        0 <= j < sorted@.len() && k1 == encode_utf8(sorted@[j].0@);
                    let j2 = choose|j: int|
                        0 <= j < sorted@.len() && k2 == encode_utf8(sorted@[j].0@);
                    assert(0 <= j1 < sorted@.len() && k1 == encode_utf8(sorted@[j1].0@));
                    assert(0 <= j2 < sorted@.len() && k2 == encode_utf8(sorted@[j2].0@));
                    if j1 < j2 {
                        assert(spec_bytes_le(
                            encode_utf8(sorted@[j1].0@),
                            encode_utf8(sorted@[j2].0@),
                        ));
                    } else if j1 == j2 {
                        assert(acc1.index[k1].offset == acc1.index[k2].offset);
                        assert(false);
                    } else {
                        assert(acc1.index[k2].offset < acc1.index[k1].offset);
                        assert(false);
                    }
                }
            }
        }
        Ok(())
    }
}

impl CrabKv {
    /// Forces a compaction cycle regardless of the current heuristic.
    pub fn compact(&mut self, now: u64) -> (r: Result<(), WalError>)
        requires
            old(self).wf(),
        ensures
            final(self).wf(),
            final(self).config_of() == old(self).config_of(),
            final(self).async_on() == old(self).async_on(),
            final(self).pending_of() == old(self).pending_of(),
            r matches Err(e) ==> {
                &&& *final(self) == *old(self)
                &&& e == WalError::RecordTooLarge
                &&& old(self).config_of().compression
                &&& exists|kb: Seq<u8>|
                    #[trigger] old(self).wal_live().contains_key(kb) && !spec_expired(
                        old(self).wal_live()[kb].1,
                        now,
                    ) && spec_encode_oversized(
                        stored_put_model(old(self).wal_live(), kb),
                        old(self).config_of().compression,
                    )
            },
            (forall|kb: Seq<u8>|
                #[trigger] old(self).wal_live().contains_key(kb) && !spec_expired(
                    old(self).wal_live()[kb].1,
                    now,
                ) ==> !spec_encode_oversized(
                    stored_put_model(old(self).wal_live(), kb),
                    old(self).config_of().compression,
                )) ==> r is Ok,
            !old(self).config_of().compression ==> r is Ok,
            r is Ok ==> {
                &&& final(self).stale_of() == 0
                &&& final(self).total_of() == final(self).log_view().len()
                &&& final(self).total_of() == live_sum(
                    replay_acc_of(
                        final(self).log_view(),
                        old(self).config_of().compression,
                    ).index,
                )
                &&& final(self).wal_live() == Map::new(
                    |k: Seq<u8>|
                        old(self).wal_live().contains_key(k) && !spec_expired(
                            old(self).wal_live()[k].1,
                            now,
                        ),
                    |k: Seq<u8>| old(self).wal_live()[k],
                )
                &&& (old(self).buffer_empty() ==> final(self).buffer_empty())
                &&& (old(self).buffer_empty() ==> forall|k2: Seq<u8>|
                    final(self).visible(k2, now) == old(self).visible(k2, now))
                &&& records_key_ordered(
                    final(self).log_view(),
                    old(self).config_of().compression,
                )
            },
    {
        self.run_compaction(now)
    }

    /// Evaluates the compaction heuristic after a mutation: a hit is run
    /// inline, or recorded for the background worker when one is configured.
    fn maybe_compact(&mut self, now: u64) -> (r: Result<(), WalError>)
        requires
            old(self).wf(),
        ensures
            final(self).wf(),
            final(self).config_of() == old(self).config_of(),
            final(self).async_on() == old(self).async_on(),
            r matches Err(e) ==> {
                &&& *final(self) == *old(self)
                &&& e == WalError::RecordTooLarge
                &&& old(self).config_of().compression
                &&& exists|kb: Seq<u8>|
                    #[trigger] old(self).wal_live().contains_key(kb) && !spec_expired(
                        old(self).wal_live()[kb].1,
                        now,
                    ) && spec_encode_oversized(
                        stored_put_model(old(self).wal_live(), kb),
                        old(self).config_of().compression,
                    )
            },
            !old(self).config_of().compression ==> r is Ok,
            !spec_should_compact(old(self).total_of(), old(self).stale_of()) ==> *final(self)
                == *old(self) && r is Ok,
            spec_should_compact(old(self).total_of(), old(self).stale_of()) && old(
                self,
            ).async_on() ==> {
                &&& r is Ok
                &&& final(self).log_view() == old(self).log_view()
                &&& final(self).live() == old(self).live()
                &&& final(self).buffer_map() == old(self).buffer_map()
                &&& final(self).total_of() == old(self).total_of()
                &&& final(self).stale_of() == old(self).stale_of()
                &&& final(self).pending_of()
            },
            spec_should_compact(old(self).total_of(), old(self).stale_of()) && !old(
                self,
            ).async_on() && r is Ok ==> {
                &&& final(self).stale_of() == 0
                &&& final(self).total_of() == final(self).log_view().len()
                &&& final(self).pending_of() == old(self).pending_of()
                &&& (old(self).buffer_empty() ==> final(self).buffer_empty())
                &&& (old(self).buffer_empty() ==> forall|k2: Seq<u8>|
                    final(self).visible(k2, now) == old(self).visible(k2, now))
            },
    {
        if should_compact(self.total_bytes, self.stale_bytes) {
            if self.async_compaction {
                self.compaction_pending = true;
                proof {
                    assert(final(self).live() =~= old(self).live());
                    assert(final(self).buffer_map() =~= old(self).buffer_map());
                }
                Ok(())
            } else {
                self.run_compaction(now)
            }
        } else {
            Ok(())
        }
    }

    /// Stores or updates a value, applying the default TTL when configured.
    pub fn put(&mut self, key: String, value: String, now: u64) -> (r: Result<(), WalError>)
        requires
            old(self).wf(),
            key@.len() > 0,
        ensures
            final(self).wf(),
            final(self).config_of() == old(self).config_of(),
            final(self).async_on() == old(self).async_on(),
            put_effect(
                *old(self),
                *final(self),
                r,
                key@,
                value@,
                old(self).config_of().default_ttl,
                now,
            ),
    {
        let ttl = self.config.default_ttl;
        self.put_with_ttl(key, value, ttl, now)
    }

    /// Stores or updates a value using the provided TTL in seconds.
    #[verifier::rlimit(100)]
    pub fn put_with_ttl(
        &mut self,
        key: String,
        value: String,
        ttl: Option<u64>,
        now: u64,
    ) -> (r: Result<(), WalError>)
        requires
            old(self).wf(),
            key@.len() > 0,
        ensures
            final(self).wf(),
            final(self).config_of() == old(self).config_of(),
            final(self).async_on() == old(self).async_on(),
            put_effect(*old(self), *final(self), r, key@, value@, ttl, now),
    {
        broadcast use vstd::utf8::encode_utf8_valid_utf8, vstd::utf8::encode_utf8_decode_utf8;

        let expires = expiry_at(now, ttl);
        let kb = key.as_str().as_bytes_vec();
        let ghost kbv = kb@;
        let ghost logv0 = self.wal.log_bytes();
        let ghost c = self.config.compression;
        let ghost acc0 = replay_acc_of(logv0, c);
        proof {
            lemma_replay_wf(logv0, c, acc0);
        }
        // Write-back fast path: buffer the write in memory and return.
        if self.config.write_back_cache {
            let is_some = match &self.cache {
                Some(_) => true,
                None => false,
            };
            if is_some {
                match &mut self.cache {
                    Some(cache) => {
                        cache.put(kb, CacheEntry { value, expires_at: expires });
                    },
                    None => {},
                }
                proof {
                    assert(final(self).buffer_map() =~= old(self).buffer_map().insert(
                        kbv,
                        (value@, expires),
                    ));
                    assert(final(self).live() =~= old(self).live().insert(
                        kbv,
                        (value@, expires),
                    ));
                }
                return Ok(());
            }
        }
        // WAL path: encode, append, update index, cache, and counters.
        let cache_value = value.clone();
        let entry = WalEntry::Put { key, value, expires_at: expires };
        let ghost m = entry@;
        let kb_for_cache = crate::codec::copy_range(&kb, 0, kb.len());
        proof {
            assert(kb_for_cache@ =~= kbv);
        }
        match self.wal.append(&entry) {
            Err(e) => {
                return Err(e);
            },
            Ok(ptr) => {
                proof {
                    lemma_replay_from_append(
                        logv0,
                        spec_encode(m, c),
                        c,
                        0,
                        acc_empty(),
                        acc0,
                        m,
                        model_payload(m, c).len() as int,
                    );
                }
                let ghost acc2 = replay_step(
                    acc0,
                    m,
                    logv0.len() as int,
                    spec_encode(m, c).len() as int,
                    model_payload(m, c).len() as int,
                );
                self.total_bytes = self.wal.size();
                let prev = self.index.insert(
                    kb,
                    IndexEntry { pointer: ptr, expires_at: expires },
                );
                match prev {
                    Some(p) => {
                        proof {
                            lemma_acc_member_bound(logv0, c, logv0.len() as int, acc0, kbv);
                        }
                        self.stale_bytes = self.stale_bytes + p.pointer.record_len as u64;
                    },
                    None => {},
                }
                match &mut self.cache {
                    Some(cache) => {
                        cache.put(
                            kb_for_cache,
                            CacheEntry { value: cache_value, expires_at: expires },
                        );
                    },
                    None => {},
                }
                let ghost mid = *self;
                proof {
                    assert(spec_replay(self.wal.log_bytes(), c) == Ok::<ReplayAcc, WalError>(
                        acc2,
                    ));
                    assert(mid.wal_live() =~= old(self).wal_live().insert(
                        kbv,
                        (value@, expires),
                    ));
                    assert(mid.wf()) by {
                        match &mid.cache {
                            Some(cache) => {
                                assert(!cache.write_back_on());
                                cache.lemma_no_write_back_buffer();
                            },
                            None => {},
                        }
                    }
                    assert(mid.live() =~= old(self).live().insert(kbv, (value@, expires)));
                    assert(mid.buffer_empty()) by {
                        match &mid.cache {
                            Some(cache) => {
                                cache.lemma_no_write_back_buffer();
                                assert(mid.buffer_map() =~= Map::empty());
                            },
                            None => {
                                assert(mid.buffer_map() =~= Map::empty());
                            },
                        }
                    }
                }
                let res = self.maybe_compact(now);
                proof {
                    if res is Ok {
                        assert forall|k2: Seq<u8>|
                            final(self).visible(k2, now) == (if k2 == kbv {
                                if spec_expired(expires, now) {
                                    None::<Seq<char>>
                                } else {
                                    Some(value@)
                                }
                            } else {
                                old(self).visible(k2, now)
                            }) by {
                            assert(mid.visible(k2, now) == (if k2 == kbv {
                                if spec_expired(expires, now) {
                                    None::<Seq<char>>
                                } else {
                                    Some(value@)
                                }
                            } else {
                                old(self).visible(k2, now)
                            }));
                        }
                    }
                }
                res
            },
        }
    }

    /// Removes the key if present, appending a tombstone to the log.
    pub fn delete(&mut self, key: &str, now: u64) -> (r: Result<(), WalError>)
        requires
            old(self).wf(),
            key@.len() > 0,
        ensures
            final(self).wf(),
            final(self).config_of() == old(self).config_of(),
            final(self).async_on() == old(self).async_on(),
            delete_effect(*old(self), *final(self), r, key@, now),
    {
        broadcast use vstd::utf8::encode_utf8_valid_utf8, vstd::utf8::encode_utf8_decode_utf8;

        let kb = key.as_bytes_vec();
        let ghost kbv = kb@;
        let ghost logv0 = self.wal.log_bytes();
        let ghost c = self.config.compression;
        let ghost acc0 = replay_acc_of(logv0, c);
        proof {
            lemma_replay_wf(logv0, c, acc0);
        }
        let entry = WalEntry::Delete { key: key.to_owned() };
        let ghost m = entry@;
        match self.wal.append(&entry) {
            Err(e) => {
                return Err(e);
            },
            Ok(_ptr) => {
                proof {
                    lemma_replay_from_append(
                        logv0,
                        spec_encode(m, c),
                        c,
                        0,
                        acc_empty(),
                        acc0,
                        m,
                        model_payload(m, c).len() as int,
                    );
                }
                let ghost acc2 = replay_step(
                    acc0,
                    m,
                    logv0.len() as int,
                    spec_encode(m, c).len() as int,
                    model_payload(m, c).len() as int,
                );
                self.total_bytes = self.wal.size();
                match self.index.remove(&kb) {
                    Some(p) => {
                        proof {
                            lemma_acc_member_bound(logv0, c, logv0.len() as int, acc0, kbv);
                        }
                        self.stale_bytes = self.stale_bytes + p.pointer.record_len as u64;
                    },
                    None => {},
                }
                match &mut self.cache {
                    Some(cache) => {
                        cache.remove(&kb);
                    },
                    None => {},
                }
                let ghost mid = *self;
                proof {
                    assert(spec_replay(self.wal.log_bytes(), c) == Ok::<ReplayAcc, WalError>(
                        acc2,
                    ));
                    assert(mid.wal_live() =~= old(self).wal_live().remove(kbv));
                    assert(mid.buffer_map() =~= old(self).buffer_map().remove(kbv));
                    assert(mid.live() =~= old(self).live().remove(kbv));
                }
                let res = self.maybe_compact(now);
                proof {
                    if res is Ok && old(self).buffer_empty() {
                        assert(mid.buffer_empty()) by {
                            assert(mid.buffer_map() =~= Map::empty());
                        }
                        assert forall|k2: Seq<u8>|
                            final(self).visible(k2, now) == (if k2 == kbv {
                                None::<Seq<char>>
                            } else {
                                old(self).visible(k2, now)
                            }) by {
                            assert(mid.visible(k2, now) == (if k2 == kbv {
                                None::<Seq<char>>
                            } else {
                                old(self).visible(k2, now)
                            }));
                        }
                    }
                }
                res
            },
        }
    }
}

/// The Put record that re-encodes one entry of a live map: the key decoded
/// from its bytes, with the stored value and expiry.
pub open spec fn stored_put_model(
    m: Map<Seq<u8>, (Seq<char>, Option<u64>)>,
    kb: Seq<u8>,
) -> EntryModel {
    EntryModel::Put { key: decode_utf8(kb), value: m[kb].0, expires_at: m[kb].1 }
}

/// The live map after writing the first `i` buffered entries over `m`.
pub open spec fn flush_fold(
    m: Map<Seq<u8>, (Seq<char>, Option<u64>)>,
    s: Seq<(Vec<u8>, CacheEntry)>,
    i: int,
) -> Map<Seq<u8>, (Seq<char>, Option<u64>)>
    decreases i,
{
    if i <= 0 {
        m
    } else {
        flush_fold(m, s, i - 1).insert(s[i - 1].0@, s[i - 1].1@)
    }
}

/// What `flush_fold` holds at each key: the buffered entry when the key is
/// buffered among the first `i`, the base entry otherwise.
pub proof fn lemma_flush_fold_lookup(
    m: Map<Seq<u8>, (Seq<char>, Option<u64>)>,
    s: Seq<(Vec<u8>, CacheEntry)>,
    i: int,
    k: Seq<u8>,
)
    requires
        crate::index::distinct_keys(s),
        0 <= i <= s.len(),
    ensures
        (exists|j: int| 0 <= j < i && s[j].0@ == k) ==> {
            let j = choose|j: int| 0 <= j < i && s[j].0@ == k;
            flush_fold(m, s, i).contains_key(k) && flush_fold(m, s, i)[k] == s[j].1@
        },
        !(exists|j: int| 0 <= j < i && s[j].0@ == k) ==> {
            &&& flush_fold(m, s, i).contains_key(k) == m.contains_key(k)
            &&& (m.contains_key(k) ==> flush_fold(m, s, i)[k] == m[k])
        },
    decreases i,
{
    if i > 0 {
        lemma_flush_fold_lookup(m, s, i - 1, k);
        if s[i - 1].0@ == k {
            assert(0 <= i - 1 < i && s[i - 1].0@ == k);
            let j = choose|j: int| 0 <= j < i && s[j].0@ == k;
            assert(s[j].0@ == s[i - 1].0@);
            assert(j == i - 1);
        } else {
            if exists|j: int| 0 <= j < i && s[j].0@ == k {
                let j = choose|j: int| 0 <= j < i && s[j].0@ == k;
                assert(0 <= j < i - 1 && s[j].0@ == k);
                let j2 = choose|j: int| 0 <= j < i - 1 && s[j].0@ == k;
                assert(j2 == j);
            }
        }
    }
}

impl CrabKv {
    /// Writes every buffered write-back entry to the log, with its expiry
    /// preserved, and points the index at the new records. The reads observe
    /// the same values before and after; only their durability changes.
    /// A no-op without write-back caching.
    #[verifier::rlimit(100)]
    pub fn flush(&mut self) -> (r: Result<(), WalError>)
        requires
            old(self).wf(),
        ensures
            final(self).wf(),
            final(self).config_of() == old(self).config_of(),
            final(self).async_on() == old(self).async_on(),
            final(self).pending_of() == old(self).pending_of(),
            !old(self).config_of().write_back_cache ==> *final(self) == *old(self) && r is Ok,
            r matches Err(e) ==> {
                &&& *final(self) == *old(self)
                &&& e == WalError::RecordTooLarge
                &&& exists|kb: Seq<u8>|
                    #[trigger] old(self).buffer_map().contains_key(kb) && spec_encode_oversized(
                        stored_put_model(old(self).buffer_map(), kb),
                        old(self).config_of().compression,
                    )
            },
            (forall|kb: Seq<u8>|
                #[trigger] old(self).buffer_map().contains_key(kb) ==> !spec_encode_oversized(
                    stored_put_model(old(self).buffer_map(), kb),
                    old(self).config_of().compression,
                )) ==> r is Ok,
            r is Ok ==> {
                &&& final(self).buffer_empty()
                &&& final(self).live() == old(self).live()
                &&& final(self).wal_live() == old(self).live()
                &&& final(self).total_of() == final(self).log_view().len()
            },
    {
        broadcast use vstd::utf8::encode_utf8_valid_utf8, vstd::utf8::encode_utf8_decode_utf8;

        if !self.config.write_back_cache {
            proof {
                match &self.cache {
                    Some(cache) => {
                        cache.lemma_no_write_back_buffer();
                        assert(final(self).buffer_map() =~= Map::empty());
                    },
                    None => {
                        assert(final(self).buffer_map() =~= Map::empty());
                    },
                }
                assert(final(self).buffer_empty());
            }
            return Ok(());
        }
        let ghost self0 = *self;
        let ghost logv0 = self.wal.log_bytes();
        let ghost c = self.config.compression;
        let ghost acc0 = replay_acc_of(logv0, c);
        proof {
            lemma_replay_wf(logv0, c, acc0);
        }
        let snapshot = match &self.cache {
            Some(cache) => cache.buffer_snapshot(),
            None => {
                proof {
                    assert(final(self).buffer_map() =~= Map::empty());
                    assert(final(self).buffer_empty());
                }
                return Ok(());
            },
        };
        let ghost bufv = crate::index::map_of(snapshot@);
        let n = snapshot.len();
        // Validate every buffered entry before touching any state.
        let mut ws: Vec<WalEntry> = Vec::new();
        let mut i: usize = 0;
        while i < n
            invariant
                *self == self0,
                self0.wf(),
                self0.config_of().write_back_cache,
                c == self0.config_of().compression,
                n == snapshot@.len(),
                crate::index::distinct_keys(snapshot@),
                bufv == crate::index::map_of(snapshot@),
                match self0.cache {
                    Some(cache) => cache.buffer_view() == bufv && forall|j: int|
                        0 <= j < snapshot@.len() ==> #[trigger] cache.buffer_view().contains_key(
                            snapshot@[j].0@,
                        ) && cache.buffer_view()[snapshot@[j].0@] == snapshot@[j].1,
                    None => false,
                },
                ws@.len() == i,
                i <= n,
                forall|j: int|
                    0 <= j < i ==> #[trigger] ws@[j]@ == (EntryModel::Put {
                        key: decode_utf8(snapshot@[j].0@),
                        value: snapshot@[j].1.value@,
                        expires_at: snapshot@[j].1.expires_at,
                    }) && !spec_encode_oversized(ws@[j]@, c),
            decreases n - i,
        {
            let ghost kbv = snapshot@[i as int].0@;
            proof {
                assert(bufv.contains_key(kbv));
                match self0.cache {
                    Some(cache) => {
                        assert(cache.buffer_view().contains_key(kbv));
                    },
                    None => {},
                }
                assert(valid_utf8(kbv));
            }
            let pair = &snapshot[i];
            let key_copy = crate::codec::copy_range(&pair.0, 0, pair.0.len());
            proof {
                assert(key_copy@ =~= kbv);
            }
            let key_s = match crate::codec::string_from_utf8(key_copy) {
                Some(s) => s,
                None => {
                    proof {
                        assert(false);
                    }
                    return Err(WalError::InvalidUtf8Key);
                },
            };
            let e = WalEntry::Put {
                key: key_s,
                value: pair.1.value.clone(),
                expires_at: pair.1.expires_at,
            };
            match crate::codec::encode_entry(&e, self.config.compression) {
                Ok(_) => {},
                Err(err) => {
                    proof {
                        assert(old(self).buffer_map().contains_key(kbv));
                        assert(old(self).buffer_map()[kbv] == snapshot@[i as int].1@);
                        assert(e@ == stored_put_model(old(self).buffer_map(), kbv));
                        assert(spec_encode_oversized(
                            stored_put_model(old(self).buffer_map(), kbv),
                            c,
                        ));
                    }
                    return Err(err);
                },
            }
            ws.push(e);
            i = i + 1;
        }
        // Commit: append each buffered entry and point the index at it.
        let mut i: usize = 0;
        while i < n
            invariant
                self.wf(),
                self.config == self0.config_of(),
                self.async_compaction == self0.async_on(),
                self.compaction_pending == self0.pending_of(),
                self.cache == self0.cache,
                c == self0.config_of().compression,
                n == snapshot@.len(),
                i <= n,
                crate::index::distinct_keys(snapshot@),
                bufv == crate::index::map_of(snapshot@),
                match self0.cache {
                    Some(cache) => cache.buffer_view() == bufv && forall|j: int|
                        0 <= j < snapshot@.len() ==> #[trigger] cache.buffer_view().contains_key(
                            snapshot@[j].0@,
                        ) && cache.buffer_view()[snapshot@[j].0@] == snapshot@[j].1,
                    None => false,
                },
                ws@.len() == n,
                forall|j: int|
                    0 <= j < n ==> #[trigger] ws@[j]@ == (EntryModel::Put {
                        key: decode_utf8(snapshot@[j].0@),
                        value: snapshot@[j].1.value@,
                        expires_at: snapshot@[j].1.expires_at,
                    }) && !spec_encode_oversized(ws@[j]@, c),
                self.wal_live() == flush_fold(self0.wal_live(), snapshot@, i as int),
                self.total_bytes == self.wal.log_bytes().len(),
            decreases n - i,
        {
            let ghost logv_i = self.wal.log_bytes();
            let ghost acc_i = replay_acc_of(logv_i, c);
            let ghost kbv = snapshot@[i as int].0@;
            let ghost m = ws@[i as int]@;
            proof {
                lemma_replay_wf(logv_i, c, acc_i);
                match &self.cache {
                    Some(cache) => {
                        assert(cache.buffer_view().contains_key(kbv));
                    },
                    None => {
                        assert(false);
                    },
                }
                assert(valid_utf8(kbv));
                assert(encode_utf8(decode_utf8(kbv)) == kbv);
            }
            let expires_at = snapshot[i].1.expires_at;
            let ptr = match self.wal.append(&ws[i]) {
                Ok(ptr) => ptr,
                Err(_) => {
                    proof {
                        assert(false);
                    }
                    return Err(WalError::RecordTooLarge);
                },
            };
            proof {
                lemma_replay_from_append(
                    logv_i,
                    spec_encode(m, c),
                    c,
                    0,
                    acc_empty(),
                    acc_i,
                    m,
                    model_payload(m, c).len() as int,
                );
            }
            let ghost acc2 = replay_step(
                acc_i,
                m,
                logv_i.len() as int,
                spec_encode(m, c).len() as int,
                model_payload(m, c).len() as int,
            );
            self.total_bytes = self.wal.size();
            let kb2 = crate::codec::copy_range(&snapshot[i].0, 0, snapshot[i].0.len());
            proof {
                assert(kb2@ =~= kbv);
            }
            let prev = self.index.insert(kb2, IndexEntry { pointer: ptr, expires_at });
            match prev {
                Some(p) => {
                    proof {
                        lemma_acc_member_bound(logv_i, c, logv_i.len() as int, acc_i, kbv);
                    }
                    self.stale_bytes = self.stale_bytes + p.pointer.record_len as u64;
                },
                None => {},
            }
            proof {
                assert(spec_replay(self.wal.log_bytes(), c) == Ok::<ReplayAcc, WalError>(acc2));
                assert(self.wal_live() =~= flush_fold(self0.wal_live(), snapshot@, i + 1));
                assert(self.wf()) by {
                    match (&self.cache, &self0.cache) {
                        (Some(cache), Some(cache0)) => {
                            assert forall|kb: Seq<u8>| #[trigger]
                                cache.lru_view().contains_key(kb) implies {
                                if cache.buffer_view().contains_key(kb) {
                                    cache.lru_view()[kb] == cache.buffer_view()[kb]@
                                } else {
                                    acc2.index.contains_key(kb) && cache.lru_view()[kb] == (
                                        acc2.index[kb].value,
                                        acc2.index[kb].expires_at,
                                    )
                                }
                            } by {
                                if !cache.buffer_view().contains_key(kb) {
                                    assert(kb != kbv);
                                }
                            }
                        },
                        _ => {},
                    }
                }
            }
            i = i + 1;
        }
        // The buffered entries are durable now: empty the buffer.
        match &mut self.cache {
            Some(cache) => {
                let _drained = cache.flush_write_buffer();
            },
            None => {},
        }
        proof {
            let accn = replay_acc_of(self.wal.log_bytes(), c);
            assert(final(self).wal_live() == flush_fold(self0.wal_live(), snapshot@, n as int));
            assert forall|k: Seq<u8>| #[trigger]
                final(self).wal_live().contains_key(k) implies old(self).live().contains_key(k)
                && final(self).wal_live()[k] == old(self).live()[k] by {
                lemma_flush_fold_lookup(self0.wal_live(), snapshot@, n as int, k);
                crate::index::lemma_map_of_contains(snapshot@, k);
                if exists|j: int| 0 <= j < snapshot@.len() && snapshot@[j].0@ == k {
                    let j = choose|j: int| 0 <= j < n && snapshot@[j].0@ == k;
                    assert(0 <= j < snapshot@.len() && snapshot@[j].0@ == k);
                    crate::index::lemma_map_of_index(snapshot@, j);
                    assert(bufv.contains_key(k) && bufv[k] == snapshot@[j].1);
                    assert(old(self).buffer_map().contains_key(k));
                    assert(old(self).live()[k] == old(self).buffer_map()[k]);
                } else {
                    assert(!bufv.contains_key(k));
                    assert(!old(self).buffer_map().contains_key(k));
                    assert(old(self).wal_live().contains_key(k));
                }
            }
            assert forall|k: Seq<u8>| #[trigger]
                old(self).live().contains_key(k) implies final(self).wal_live().contains_key(
                k,
            ) by {
                lemma_flush_fold_lookup(self0.wal_live(), snapshot@, n as int, k);
                crate::index::lemma_map_of_contains(snapshot@, k);
                if old(self).buffer_map().contains_key(k) {
                    assert(bufv.contains_key(k));
                } else {
                    assert(!bufv.contains_key(k));
                    assert(old(self).wal_live().contains_key(k));
                }
            }
            assert(final(self).wal_live() =~= old(self).live());
            assert(final(self).buffer_map() =~= Map::empty());
            assert(final(self).buffer_empty());
            assert(final(self).live() =~= final(self).wal_live());
            assert(final(self).wf()) by {
                match (&self.cache, &self0.cache) {
                    (Some(cache), Some(cache0)) => {
                        assert forall|kb: Seq<u8>| #[trigger]
                            cache.lru_view().contains_key(kb) implies {
                            if cache.buffer_view().contains_key(kb) {
                                cache.lru_view()[kb] == cache.buffer_view()[kb]@
                            } else {
                                accn.index.contains_key(kb) && cache.lru_view()[kb] == (
                                    accn.index[kb].value,
                                    accn.index[kb].expires_at,
                                )
                            }
                        } by {
                            assert(cache0.lru_view().contains_key(kb));
                            assert(final(self).wal_live() == old(self).live());
                            if cache0.buffer_view().contains_key(kb) {
                                assert(old(self).buffer_map().contains_key(kb));
                                assert(old(self).live().contains_key(kb));
                                assert(old(self).live()[kb] == old(self).buffer_map()[kb]);
                                assert(cache0.lru_view()[kb] == cache0.buffer_view()[kb]@);
                            } else {
                                assert(acc0.index.contains_key(kb));
                                assert(old(self).wal_live().contains_key(kb));
                                assert(old(self).live().contains_key(kb));
                                assert(old(self).live()[kb] == old(self).wal_live()[kb]);
                            }
                        }
                    },
                    _ => {},
                }
            }
        }
        Ok(())
    }
}

/// A cache step in lockstep with a log append keeps the cache coherent: the
/// written key now agrees with the new record in both layers, and every
/// other entry is untouched on both sides.
proof fn lemma_cache_step_coherence(
    cache0: Cache,
    cache: Cache,
    acc_i: ReplayAcc,
    acc2: ReplayAcc,
    key: Seq<char>,
    value: Seq<char>,
    expires: Option<u64>,
)
    requires
        cache_coherent(cache0, acc_i),
        buffer_keys_valid(cache0),
        acc2.index.contains_key(encode_utf8(key)),
        acc2.index[encode_utf8(key)].value == value,
        acc2.index[encode_utf8(key)].expires_at == expires,
        forall|k2: Seq<u8>|
            #[trigger] acc2.index.contains_key(k2) && k2 != encode_utf8(key)
                ==> acc_i.index.contains_key(k2) && acc2.index[k2] == acc_i.index[k2],
        forall|k2: Seq<u8>|
            #[trigger] acc_i.index.contains_key(k2) && k2 != encode_utf8(key)
                ==> acc2.index.contains_key(k2),
        cache.write_back_on() == cache0.write_back_on(),
        cache.lru_view().contains_key(encode_utf8(key)),
        cache.lru_view()[encode_utf8(key)] == (value, expires),
        forall|k2: Seq<u8>|
            #[trigger] cache.lru_view().contains_key(k2) && k2 != encode_utf8(key)
                ==> cache0.lru_view().contains_key(k2) && cache.lru_view()[k2]
                == cache0.lru_view()[k2],
        forall|k2: Seq<u8>|
            #[trigger] cache.buffer_view().contains_key(k2) && k2 != encode_utf8(key)
                ==> cache0.buffer_view().contains_key(k2) && cache.buffer_view()[k2]
                == cache0.buffer_view()[k2],
        forall|k2: Seq<u8>|
            #[trigger] cache0.buffer_view().contains_key(k2) && k2 != encode_utf8(key)
                ==> cache.buffer_view().contains_key(k2),
        cache.buffer_view().contains_key(encode_utf8(key)) ==> cache.buffer_view()[encode_utf8(
            key,
        )]@ == (value, expires),
    ensures
        cache_coherent(cache, acc2),
        buffer_keys_valid(cache),
{
    broadcast use vstd::utf8::encode_utf8_valid_utf8, vstd::utf8::encode_utf8_decode_utf8;

    let kbv = encode_utf8(key);
    assert forall|k2: Seq<u8>| #[trigger] cache.lru_view().contains_key(k2) implies {
        if cache.buffer_view().contains_key(k2) {
            cache.lru_view()[k2] == cache.buffer_view()[k2]@
        } else {
            acc2.index.contains_key(k2) && cache.lru_view()[k2] == (
                acc2.index[k2].value,
                acc2.index[k2].expires_at,
            )
        }
    } by {
        if k2 != kbv {
            assert(cache0.lru_view().contains_key(k2));
        }
    }
    assert forall|k2: Seq<u8>| #[trigger] cache.buffer_view().contains_key(k2) implies valid_utf8(
        k2,
    ) && encode_utf8(decode_utf8(k2)) == k2 by {
        if k2 == kbv {
            vstd::utf8::encode_utf8_valid_utf8(key);
            vstd::utf8::encode_utf8_decode_utf8(key);
        } else {
            assert(cache0.buffer_view().contains_key(k2));
        }
    }
}

/// Model of the record a batch writes for one triple of key, value, and TTL.
pub open spec fn batch_model(t: (String, String, Option<u64>), now: u64) -> EntryModel {
    EntryModel::Put { key: t.0@, value: t.1@, expires_at: spec_expiry(now, t.2) }
}

/// Whether some entry of the batch is too large for the record format.
pub open spec fn batch_oversized(
    s: Seq<(String, String, Option<u64>)>,
    c: bool,
    now: u64,
) -> bool {
    exists|i: int| 0 <= i < s.len() && spec_encode_oversized(batch_model(s[i], now), c)
}

/// Sum of the record lengths a batch appends.
pub open spec fn batch_sum(s: Seq<(String, String, Option<u64>)>, c: bool, now: u64) -> int
    decreases s.len(),
{
    if s.len() == 0 {
        0
    } else {
        batch_sum(s.drop_last(), c, now) + spec_record_len(batch_model(s.last(), now), c)
    }
}

/// Concatenation of the encodings a batch appends.
pub open spec fn batch_cat(s: Seq<(String, String, Option<u64>)>, c: bool, now: u64) -> Seq<u8>
    decreases s.len(),
{
    if s.len() == 0 {
        Seq::empty()
    } else {
        batch_cat(s.drop_last(), c, now) + spec_encode(batch_model(s.last(), now), c)
    }
}

/// The live map after applying a batch in order, later entries overriding
/// earlier ones of the same key.
pub open spec fn batch_live(
    m: Map<Seq<u8>, (Seq<char>, Option<u64>)>,
    s: Seq<(String, String, Option<u64>)>,
    now: u64,
) -> Map<Seq<u8>, (Seq<char>, Option<u64>)>
    decreases s.len(),
{
    if s.len() == 0 {
        m
    } else {
        batch_live(m, s.drop_last(), now).insert(
            encode_utf8(s.last().0@),
            (s.last().1@, spec_expiry(now, s.last().2)),
        )
    }
}

/// What a lookup in a live map returns at `now`.
pub open spec fn map_visible(
    m: Map<Seq<u8>, (Seq<char>, Option<u64>)>,
    k: Seq<u8>,
    now: u64,
) -> Option<Seq<char>> {
    if m.contains_key(k) && !spec_expired(m[k].1, now) {
        Some(m[k].0)
    } else {
        None
    }
}

impl CrabKv {
    /// Appends one already-validated Put record and brings index, counters,
    /// and cache in line with it.
    #[verifier::rlimit(100)]
    fn commit_put(
        &mut self,
        e: &WalEntry,
        kb: Vec<u8>,
        cache_value: String,
        expires: Option<u64>,
        key_chars: Ghost<Seq<char>>,
    )
        requires
            old(self).wf(),
            e@ == (EntryModel::Put {
                key: key_chars@,
                value: cache_value@,
                expires_at: expires,
            }),
            kb@ == encode_utf8(key_chars@),
            !spec_encode_oversized(e@, old(self).config_of().compression),
        ensures
            final(self).wf(),
            final(self).config_of() == old(self).config_of(),
            final(self).async_on() == old(self).async_on(),
            final(self).pending_of() == old(self).pending_of(),
            (final(self).cache is Some) == (old(self).cache is Some),
            final(self).log_view() == old(self).log_view() + spec_encode(
                e@,
                old(self).config_of().compression,
            ),
            final(self).total_of() == final(self).log_view().len(),
            final(self).live() == old(self).live().insert(kb@, (cache_value@, expires)),
            old(self).buffer_empty() && !old(self).wb_active() ==> final(self).buffer_empty(),
    {
        broadcast use vstd::utf8::encode_utf8_valid_utf8, vstd::utf8::encode_utf8_decode_utf8;

        let ghost c = self.config.compression;
        let ghost logv_i = self.wal.log_bytes();
        let ghost acc_i = replay_acc_of(logv_i, c);
        let ghost iter0 = *self;
        let ghost kbv = kb@;
        let ghost m = e@;
        proof {
            lemma_replay_wf(logv_i, c, acc_i);
        }
        let kb2 = crate::codec::copy_range(&kb, 0, kb.len());
        proof {
            assert(kb2@ =~= kbv);
        }
        let ptr = match self.wal.append(e) {
            Ok(ptr) => ptr,
            Err(_) => {
                proof {
                    assert(false);
                }
                return ;
            },
        };
        proof {
            lemma_replay_from_append(
                logv_i,
                spec_encode(m, c),
                c,
                0,
                acc_empty(),
                acc_i,
                m,
                model_payload(m, c).len() as int,
            );
        }
        let ghost acc2 = replay_step(
            acc_i,
            m,
            logv_i.len() as int,
            spec_encode(m, c).len() as int,
            model_payload(m, c).len() as int,
        );
        self.total_bytes = self.wal.size();
        let prev = self.index.insert(kb, IndexEntry { pointer: ptr, expires_at: expires });
        match prev {
            Some(p) => {
                proof {
                    lemma_acc_member_bound(logv_i, c, logv_i.len() as int, acc_i, kbv);
                }
                self.stale_bytes = self.stale_bytes + p.pointer.record_len as u64;
            },
            None => {},
        }
        match &mut self.cache {
            Some(cache) => {
                cache.put(kb2, CacheEntry { value: cache_value, expires_at: expires });
            },
            None => {},
        }
        proof {
            assert(spec_replay(self.wal.log_bytes(), c) == Ok::<ReplayAcc, WalError>(acc2));
            assert(final(self).wf()) by {
                match (&self.cache, &iter0.cache) {
                    (Some(cache), Some(cache0)) => {
                        if !cache0.write_back_on() {
                            cache0.lemma_no_write_back_buffer();
                            cache.lemma_no_write_back_buffer();
                        }
                        assert(acc2.index == acc_i.index.insert(
                            kbv,
                            acc2.index[kbv],
                        ));
                        lemma_cache_step_coherence(
                            *cache0,
                            *cache,
                            acc_i,
                            acc2,
                            key_chars@,
                            cache_value@,
                            expires,
                        );
                    },
                    (None, None) => {},
                    _ => {
                        assert(false);
                    },
                }
            }
            crate::codec::lemma_encode_len(m, c);
            assert(final(self).live() =~= old(self).live().insert(
                kbv,
                (cache_value@, expires),
            ));
            if old(self).buffer_empty() && !old(self).wb_active() {
                assert(final(self).buffer_map() =~= Map::empty());
            }
        }
    }
}

impl CrabKv {
    /// Stores multiple key-value pairs, each with its own optional TTL in
    /// seconds, in a single batch: either every entry is appended or, when
    /// one is too large for the record format, none is.
    #[verifier::rlimit(100)]
    pub fn put_batch(&mut self, entries: &Vec<(String, String, Option<u64>)>, now: u64) -> (r:
        Result<(), WalError>)
        requires
            old(self).wf(),
            forall|i: int| 0 <= i < entries@.len() ==> #[trigger] entries@[i].0@.len() > 0,
        ensures
            final(self).wf(),
            final(self).config_of() == old(self).config_of(),
            final(self).async_on() == old(self).async_on(),
            entries@.len() == 0 ==> r is Ok && *final(self) == *old(self),
            batch_oversized(entries@, old(self).config_of().compression, now) ==> r == Err::<
                (),
                WalError,
            >(WalError::RecordTooLarge) && *final(self) == *old(self),
            (entries@.len() > 0 && !batch_oversized(
                entries@,
                old(self).config_of().compression,
                now,
            )) ==> {
                let c = old(self).config_of().compression;
                let midlog = old(self).log_view() + batch_cat(entries@, c, now);
                let t2 = old(self).total_of() + batch_sum(entries@, c, now);
                let s2 = replay_acc_of(midlog, c).stale;
                &&& (r is Ok || (r == Err::<(), WalError>(WalError::RecordTooLarge) && c && {
                    let mid_live = live_of_log(midlog, c);
                    exists|k2: Seq<u8>|
                        #[trigger] mid_live.contains_key(k2) && !spec_expired(
                            mid_live[k2].1,
                            now,
                        ) && spec_encode_oversized(stored_put_model(mid_live, k2), c)
                }))
                &&& (!spec_should_compact(t2 as u64, s2 as u64) ==> {
                    &&& r is Ok
                    &&& final(self).log_view() == midlog
                    &&& final(self).live() == batch_live(old(self).live(), entries@, now)
                    &&& final(self).total_of() == t2
                    &&& final(self).stale_of() == s2
                    &&& final(self).pending_of() == old(self).pending_of()
                })
                &&& (spec_should_compact(t2 as u64, s2 as u64) && old(self).async_on() ==> {
                    &&& r is Ok
                    &&& final(self).live() == batch_live(old(self).live(), entries@, now)
                    &&& final(self).total_of() == t2
                    &&& final(self).stale_of() == s2
                    &&& final(self).pending_of()
                })
                &&& (r is Ok && old(self).buffer_empty() && !old(self).wb_active() ==> forall|
                    k2: Seq<u8>,
                |
                    final(self).visible(k2, now) == map_visible(
                        batch_live(old(self).live(), entries@, now),
                        k2,
                        now,
                    ))
            },
    {
        broadcast use vstd::utf8::encode_utf8_valid_utf8, vstd::utf8::encode_utf8_decode_utf8;

        if entries.is_empty() {
            return Ok(());
        }
        let ghost self0 = *self;
        let ghost c = self.config.compression;
        let n = entries.len();
        // Validate every entry before touching any state.
        let mut ws: Vec<WalEntry> = Vec::new();
        let mut i: usize = 0;
        while i < n
            invariant
                *self == self0,
                self0.wf(),
                c == self0.config_of().compression,
                n == entries@.len(),
                i <= n,
                ws@.len() == i,
                forall|j: int|
                    0 <= j < i ==> #[trigger] ws@[j]@ == batch_model(entries@[j], now)
                        && !spec_encode_oversized(ws@[j]@, c),
            decreases n - i,
        {
            let t = &entries[i];
            let expires = expiry_at(now, t.2);
            let e = WalEntry::Put { key: t.0.clone(), value: t.1.clone(), expires_at: expires };
            match crate::codec::encode_entry(&e, self.config.compression) {
                Ok(_) => {},
                Err(err) => {
                    proof {
                        assert(spec_encode_oversized(batch_model(entries@[i as int], now), c));
                    }
                    return Err(err);
                },
            }
            ws.push(e);
            i = i + 1;
        }
        // Commit: append each entry, updating index, counters, and cache.
        let mut i: usize = 0;
        while i < n
            invariant
                self.wf(),
                self.config == self0.config_of(),
                self.async_compaction == self0.async_on(),
                self.compaction_pending == self0.pending_of(),
                (self.cache is Some) == (self0.cache is Some),
                c == self0.config_of().compression,
                n == entries@.len(),
                i <= n,
                ws@.len() == n,
                forall|j: int|
                    0 <= j < n ==> #[trigger] ws@[j]@ == batch_model(entries@[j], now)
                        && !spec_encode_oversized(ws@[j]@, c),
                self.wal.log_bytes() == self0.log_view() + batch_cat(
                    entries@.subrange(0, i as int),
                    c,
                    now,
                ),
                self.total_bytes == self.wal.log_bytes().len(),
                self.total_bytes == self0.total_of() + batch_sum(
                    entries@.subrange(0, i as int),
                    c,
                    now,
                ),
                self.live() == batch_live(self0.live(), entries@.subrange(0, i as int), now),
                self0.buffer_empty() && !self0.wb_active() ==> self.buffer_empty(),
            decreases n - i,
        {
            let t = &entries[i];
            let expires = expiry_at(now, t.2);
            let kb = t.0.as_str().as_bytes_vec();
            self.commit_put(&ws[i], kb, t.1.clone(), expires, Ghost(entries@[i as int].0@));
            proof {
                crate::codec::lemma_encode_len(ws@[i as int]@, c);
                assert(entries@.subrange(0, i + 1).drop_last() =~= entries@.subrange(0, i as int));
                assert(entries@.subrange(0, i + 1).last() == entries@[i as int]);
                assert(self.wal.log_bytes() == self0.log_view() + batch_cat(
                    entries@.subrange(0, i + 1),
                    c,
                    now,
                )) by {
                    assert((self0.log_view() + batch_cat(entries@.subrange(0, i as int), c, now))
                        + spec_encode(ws@[i as int]@, c) =~= self0.log_view() + (batch_cat(
                        entries@.subrange(0, i as int),
                        c,
                        now,
                    ) + spec_encode(ws@[i as int]@, c)));
                }
                assert(self.live() == batch_live(self0.live(), entries@.subrange(0, i + 1), now));
            }
            i = i + 1;
        }
        let ghost mid = *self;
        proof {
            assert(entries@.subrange(0, n as int) =~= entries@);
            assert(!batch_oversized(entries@, c, now)) by {
                if batch_oversized(entries@, c, now) {
                    let j = choose|j: int|
                        0 <= j < entries@.len() && spec_encode_oversized(
                            batch_model(entries@[j], now),
                            c,
                        );
                    assert(!spec_encode_oversized(ws@[j]@, c));
                    assert(false);
                }
            }
        }
        let res = self.maybe_compact(now);
        proof {
            if res is Ok && old(self).buffer_empty() && !old(self).wb_active() {
                assert(mid.buffer_empty());
                assert forall|k2: Seq<u8>|
                    final(self).visible(k2, now) == map_visible(
                        batch_live(old(self).live(), entries@, now),
                        k2,
                        now,
                    ) by {
                    assert(mid.visible(k2, now) == map_visible(
                        batch_live(old(self).live(), entries@, now),
                        k2,
                        now,
                    ));
                }
            }
        }
        res
    }
}

/// Replaying the log from scratch reconstructs an index identical to the
/// in-memory one: every key maps to the same record location and expiry.
pub proof fn lemma_replay_reconstructs_index(kv: CrabKv)
    requires
        kv.wf(),
    ensures
        spec_replay(kv.log_view(), kv.config_of().compression) is Ok,
        index_matches_acc(
            kv.index_view(),
            replay_acc_of(kv.log_view(), kv.config_of().compression),
        ),
{
}

/// The log alone determines what reads observe: two well-formed engines over
/// the same log bytes and compression flag, with nothing buffered, have the
/// same live map. In particular, writes that reached the log survive a drop
/// and reopen.
pub proof fn lemma_log_determines_state(a: CrabKv, b: CrabKv)
    requires
        a.wf(),
        b.wf(),
        a.log_view() == b.log_view(),
        a.config_of().compression == b.config_of().compression,
        a.buffer_empty(),
        b.buffer_empty(),
    ensures
        a.live() == b.live(),
{
    assert(a.live() =~= a.wal_live());
    assert(b.live() =~= b.wal_live());
}

/// Put after delete after put: the final read of the key returns the latest
/// value, whatever the earlier steps left behind.
pub proof fn lemma_latest_write_wins(
    s0: CrabKv,
    s1: CrabKv,
    s2: CrabKv,
    s3: CrabKv,
    key: Seq<char>,
    v1: Seq<char>,
    v2: Seq<char>,
    now: u64,
)
    requires
        put_effect(s0, s1, Ok(()), key, v1, None, now),
        delete_effect(s1, s2, Ok(()), key, now),
        put_effect(s2, s3, Ok(()), key, v2, None, now),
    ensures
        s3.visible(encode_utf8(key), now) == Some(v2),
{
    let kb = encode_utf8(key);
    if s2.wb_active() {
        assert(s3.live().contains_key(kb) && s3.live()[kb] == (v2, None::<u64>));
    }
}

/// What a put with the given key, value, TTL, and clock does to the engine.
pub open spec fn put_effect(
    pre: CrabKv,
    post: CrabKv,
    r: Result<(), WalError>,
    key: Seq<char>,
    value: Seq<char>,
    ttl: Option<u64>,
    now: u64,
) -> bool {
    let kb = encode_utf8(key);
    let expires = spec_expiry(now, ttl);
    let m = EntryModel::Put { key, value, expires_at: expires };
    let c = pre.config_of().compression;
    if pre.wb_active() {
        // Buffered in memory; the log is untouched.
        &&& r is Ok
        &&& post.live() == pre.live().insert(kb, (value, expires))
        &&& post.buffer_map() == pre.buffer_map().insert(kb, (value, expires))
        &&& post.log_view() == pre.log_view()
        &&& post.total_of() == pre.total_of()
        &&& post.stale_of() == pre.stale_of()
        &&& post.pending_of() == pre.pending_of()
    } else if spec_encode_oversized(m, c) {
        // Too large for the record format: rejected, nothing changes.
        &&& r == Err::<(), WalError>(WalError::RecordTooLarge)
        &&& post == pre
    } else {
        let t2 = pre.total_of() + spec_record_len(m, c);
        let s2 = pre.stale_of() + (if pre.wal_live().contains_key(kb) {
            pre.live_record_len(kb)
        } else {
            0
        });
        // The record is appended and the index updated; the prior record, if
        // any, becomes stale. Compaction may then run inline, and with
        // compression it can fail on an entry whose re-encoding no longer
        // fits the record format.
        &&& (r is Ok || (r == Err::<(), WalError>(WalError::RecordTooLarge) && c && {
            let mid_live = pre.wal_live().insert(kb, (value, expires));
            exists|k2: Seq<u8>|
                #[trigger] mid_live.contains_key(k2) && !spec_expired(mid_live[k2].1, now)
                    && spec_encode_oversized(stored_put_model(mid_live, k2), c)
        }))
        &&& (!spec_should_compact(t2 as u64, s2 as u64) ==> {
            &&& r is Ok
            &&& post.log_view() == pre.log_view() + spec_encode(m, c)
            &&& post.live() == pre.live().insert(kb, (value, expires))
            &&& post.buffer_map() == pre.buffer_map()
            &&& post.total_of() == t2
            &&& post.stale_of() == s2
            &&& post.pending_of() == pre.pending_of()
        })
        &&& (spec_should_compact(t2 as u64, s2 as u64) && pre.async_on() ==> {
            &&& r is Ok
            &&& post.log_view() == pre.log_view() + spec_encode(m, c)
            &&& post.live() == pre.live().insert(kb, (value, expires))
            &&& post.buffer_map() == pre.buffer_map()
            &&& post.total_of() == t2
            &&& post.stale_of() == s2
            &&& post.pending_of()
        })
        &&& (r is Ok && pre.buffer_empty() ==> post.buffer_empty())
        &&& (r is Ok ==> forall|k2: Seq<u8>|
            post.visible(k2, now) == (if k2 == kb {
                if spec_expired(expires, now) {
                    None::<Seq<char>>
                } else {
                    Some(value)
                }
            } else {
                pre.visible(k2, now)
            }))
    }
}

/// What a delete with the given key does to the engine.
pub open spec fn delete_effect(
    pre: CrabKv,
    post: CrabKv,
    r: Result<(), WalError>,
    key: Seq<char>,
    now: u64,
) -> bool {
    let kb = encode_utf8(key);
    let m = EntryModel::Delete { key };
    let c = pre.config_of().compression;
    if spec_encode_oversized(m, c) {
        &&& r == Err::<(), WalError>(WalError::RecordTooLarge)
        &&& post == pre
    } else {
        let t2 = pre.total_of() + spec_record_len(m, c);
        let s2 = pre.stale_of() + (if pre.wal_live().contains_key(kb) {
            pre.live_record_len(kb)
        } else {
            0
        });
        &&& (r is Ok || (r == Err::<(), WalError>(WalError::RecordTooLarge) && c && {
            let mid_live = pre.wal_live().remove(kb);
            exists|k2: Seq<u8>|
                #[trigger] mid_live.contains_key(k2) && !spec_expired(mid_live[k2].1, now)
                    && spec_encode_oversized(stored_put_model(mid_live, k2), c)
        }))
        &&& (!spec_should_compact(t2 as u64, s2 as u64) ==> {
            &&& r is Ok
            &&& post.log_view() == pre.log_view() + spec_encode(m, c)
            &&& post.live() == pre.live().remove(kb)
            &&& post.buffer_map() == pre.buffer_map().remove(kb)
            &&& post.total_of() == t2
            &&& post.stale_of() == s2
            &&& post.pending_of() == pre.pending_of()
        })
        &&& (spec_should_compact(t2 as u64, s2 as u64) && pre.async_on() ==> {
            &&& r is Ok
            &&& post.log_view() == pre.log_view() + spec_encode(m, c)
            &&& post.live() == pre.live().remove(kb)
            &&& post.buffer_map() == pre.buffer_map().remove(kb)
            &&& post.total_of() == t2
            &&& post.stale_of() == s2
            &&& post.pending_of()
        })
        &&& (r is Ok && pre.buffer_empty() ==> post.buffer_empty())
        &&& (r is Ok && pre.buffer_empty() ==> forall|k2: Seq<u8>|
            post.visible(k2, now) == (if k2 == kb {
                None::<Seq<char>>
            } else {
                pre.visible(k2, now)
            }))
    }
}

impl CrabKvBuilder {
    /// The default tunables: no cache, no default TTL, sync on every append,
    /// inline compaction, no compression, no write-back.
    pub open spec fn default_spec() -> CrabKvBuilder {
        CrabKvBuilder {
            cache_capacity: None,
            default_ttl: None,
            sync_interval: None,
            async_compaction: false,
            compression: false,
            write_back_cache: false,
        }
    }

    /// The configuration this builder produces.
    pub open spec fn config_spec(&self) -> EngineConfig {
        EngineConfig {
            cache_capacity: self.cache_capacity,
            default_ttl: self.default_ttl,
            sync_interval: self.sync_interval,
            compression: self.compression,
            write_back_cache: self.write_back_cache,
        }
    }

    /// Creates a builder with caching disabled and every tunable at its
    /// default.
    pub fn new() -> (r: Self)
        ensures
            r == CrabKvBuilder::default_spec(),
    {
        CrabKvBuilder {
            cache_capacity: None,
            default_ttl: None,
            sync_interval: None,
            async_compaction: false,
            compression: false,
            write_back_cache: false,
        }
    }

    /// Enables an LRU cache sized by the provided positive entry count.
    pub fn cache_capacity(self, capacity: usize) -> (r: Self)
        requires
            capacity > 0,
        ensures
            r == (CrabKvBuilder { cache_capacity: Some(capacity), ..self }),
    {
        CrabKvBuilder { cache_capacity: Some(capacity), ..self }
    }

    /// Applies a default TTL in seconds to future writes.
    pub fn default_ttl(self, ttl_secs: u64) -> (r: Self)
        ensures
            r == (CrabKvBuilder { default_ttl: Some(ttl_secs), ..self }),
    {
        CrabKvBuilder { default_ttl: Some(ttl_secs), ..self }
    }

    /// Sets a sync interval in seconds for periodic WAL syncs instead of
    /// syncing every write.
    pub fn sync_interval(self, interval_secs: u64) -> (r: Self)
        ensures
            r == (CrabKvBuilder { sync_interval: Some(interval_secs), ..self }),
    {
        CrabKvBuilder { sync_interval: Some(interval_secs), ..self }
    }

    /// Enables background compaction: the engine then only records a request
    /// and the caller's worker runs it.
    pub fn async_compaction(self, enabled: bool) -> (r: Self)
        ensures
            r == (CrabKvBuilder { async_compaction: enabled, ..self }),
    {
        CrabKvBuilder { async_compaction: enabled, ..self }
    }

    /// Enables Snappy compression for values written to the WAL.
    pub fn compression(self, enabled: bool) -> (r: Self)
        ensures
            r == (CrabKvBuilder { compression: enabled, ..self }),
    {
        CrabKvBuilder { compression: enabled, ..self }
    }

    /// Enables write-back caching mode that buffers writes in memory until an
    /// explicit flush.
    pub fn write_back_cache(self, enabled: bool) -> (r: Self)
        ensures
            r == (CrabKvBuilder { write_back_cache: enabled, ..self }),
    {
        CrabKvBuilder { write_back_cache: enabled, ..self }
    }

    /// Builds the engine over the given log image, replaying it to recover
    /// the index and the counters.
    pub fn build(self, log: Vec<u8>) -> (r: Result<CrabKv, WalError>)
        ensures
            r is Ok <==> spec_replay(log@, self.compression) is Ok,
            r matches Ok(kv) ==> {
                &&& kv.wf()
                &&& kv.log_view() == log@
                &&& kv.config_of() == self.config_spec()
                &&& kv.async_on() == self.async_compaction
                &&& kv.live() == live_of_log(log@, self.compression)
                &&& kv.buffer_empty()
                &&& !kv.pending_of()
                &&& kv.total_of() == log@.len()
                &&& kv.stale_of() == replay_acc_of(log@, self.compression).stale
                &&& kv.wb_active() == (self.write_back_cache && match self.cache_capacity {
                    Some(n) => n > 0,
                    None => false,
                })
            },
            r matches Err(e) ==> spec_replay(log@, self.compression) == Err::<ReplayAcc, WalError>(
                e,
            ),
    {
        let wal = Wal::open(log, self.sync_interval, self.compression);
        let (index, stale_bytes) = match wal.load_index() {
            Ok(p) => p,
            Err(e) => {
                return Err(e);
            },
        };
        let total_bytes = wal.size();
        let cache = match self.cache_capacity {
            Some(capacity) => if capacity > 0 {
                Some(Cache::with_write_back(capacity, self.write_back_cache))
            } else {
                None
            },
            None => None,
        };
        let config = EngineConfig::new(
            self.cache_capacity,
            self.default_ttl,
            self.sync_interval,
            self.compression,
            self.write_back_cache,
        );
        let kv = CrabKv {
            index,
            wal,
            cache,
            config,
            async_compaction: self.async_compaction,
            stale_bytes,
            total_bytes,
            compaction_pending: false,
        };
        proof {
            if kv.wb_active() {
                assert(kv.buffer_map() =~= Map::empty());
                assert(kv.live() =~= kv.wal_live());
            }
            assert(kv.buffer_empty());
        }
        Ok(kv)
    }
}

} // verus!
