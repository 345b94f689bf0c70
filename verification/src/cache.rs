//! Optional in-memory cache for CrabKv lookups.
//!
//! The cache pairs a bounded LRU of decoded values, provided by the `lru`
//! crate behind trusted wrappers, with a verified unbounded write buffer used
//! in write-back mode. Both are keyed by the UTF-8 bytes of the key.

use vstd::prelude::*;
use crate::index::{distinct_keys, lemma_map_of_congruent, lemma_map_of_contains,
    lemma_map_of_index, lemma_map_of_remove, map_of, bytes_eq};
use crate::codec::copy_range;

verus! {

/// Value stored in the cache, keeping the decoded payload and optional
/// expiration in seconds since the Unix epoch.
#[derive(Clone, Debug, PartialEq, Eq)]
pub struct CacheEntry {
    /// Decoded value.
    pub value: String,
    /// Expiry instant, if any.
    pub expires_at: Option<u64>,
}

impl View for CacheEntry {
    type V = (Seq<char>, Option<u64>);

    open spec fn view(&self) -> (Seq<char>, Option<u64>) {
        (self.value@, self.expires_at)
    }
}

/// What the LRU holds: each cached key's value characters and expiry.
pub uninterp spec fn lru_contents(c: lru::LruCache<Vec<u8>, (String, Option<u64>)>) -> Map<
    Seq<u8>,
    (Seq<char>, Option<u64>),
>;

/// Declares `lru::LruCache` to the verifier; values of it are opaque and
/// described only by `lru_contents`.
#[verifier::external_type_specification]
#[verifier::external_body]
#[verifier::reject_recursive_types(K)]
#[verifier::reject_recursive_types(V)]
#[verifier::reject_recursive_types(S)]
pub struct ExLruCache<K, V, S>(lru::LruCache<K, V, S>);

/// Declares the cache's default hasher type, which `lru::LruCache` carries
/// as its third type parameter.
#[verifier::external_type_specification]
#[verifier::external_body]
pub struct ExDefaultHashBuilder(lru::DefaultHasher);

/// Relies on `lru::LruCache::new`: a freshly created cache holds nothing.
#[verifier::external_body]
fn lru_new(capacity: usize) -> (r: lru::LruCache<Vec<u8>, (String, Option<u64>)>)
    requires
        capacity > 0,
    ensures
        forall|k: Seq<u8>| !lru_contents(r).contains_key(k),
{
    lru::LruCache::new(std::num::NonZeroUsize::new(capacity).unwrap())
}

/// Relies on `lru::LruCache::get`: returns the entry stored for the key and
/// only promotes its recency; the contents are unchanged.
#[verifier::external_body]
fn lru_get(c: &mut lru::LruCache<Vec<u8>, (String, Option<u64>)>, key: &Vec<u8>) -> (r: Option<
    (String, Option<u64>),
>)
    ensures
        lru_contents(*final(c)) == lru_contents(*old(c)),
        match r {
            Some(v) => lru_contents(*old(c)).contains_key(key@) && lru_contents(*old(c))[key@]
                == (v.0@, v.1),
            None => !lru_contents(*old(c)).contains_key(key@),
        },
{
    c.get(key).cloned()
}

/// Relies on `lru::LruCache::put`: stores the pair under the key; when the
/// cache is full and the key is new, at most the least-recently-used other
/// entry leaves; every other entry keeps its value.
#[verifier::external_body]
fn lru_put(
    c: &mut lru::LruCache<Vec<u8>, (String, Option<u64>)>,
    key: Vec<u8>,
    value: String,
    expires_at: Option<u64>,
)
    ensures
        lru_contents(*final(c)).contains_key(key@),
        lru_contents(*final(c))[key@] == (value@, expires_at),
        forall|k2: Seq<u8>|
            #[trigger] lru_contents(*final(c)).contains_key(k2) && k2 != key@ ==> lru_contents(
                *old(c),
            ).contains_key(k2) && lru_contents(*final(c))[k2] == lru_contents(*old(c))[k2],
{
    c.put(key, (value, expires_at));
}

/// Relies on `lru::LruCache::pop`: removes exactly the given key.
#[verifier::external_body]
fn lru_pop(c: &mut lru::LruCache<Vec<u8>, (String, Option<u64>)>, key: &Vec<u8>)
    ensures
        lru_contents(*final(c)) == lru_contents(*old(c)).remove(key@),
{
    c.pop(key);
}

/// Unbounded buffer of writes not yet persisted, keyed by key bytes.
struct WriteBuffer {
    entries: Vec<(Vec<u8>, CacheEntry)>,
}

impl WriteBuffer {
    spec fn wf(&self) -> bool {
        distinct_keys(self.entries@)
    }

    spec fn view_map(&self) -> Map<Seq<u8>, CacheEntry> {
        map_of(self.entries@)
    }

    fn new() -> (r: WriteBuffer)
        ensures
            r.wf(),
            r.view_map() == Map::<Seq<u8>, CacheEntry>::empty(),
    {
        WriteBuffer { entries: Vec::new() }
    }

    fn find(&self, key: &Vec<u8>) -> (r: Option<usize>)
        ensures
            match r {
                Some(i) => i < self.entries@.len() && self.entries@[i as int].0@ == key@,
                None => forall|i: int| 0 <= i < self.entries@.len() ==> self.entries@[i].0@ != key@,
            },
    {
        let n = self.entries.len();
        let mut i: usize = 0;
        while i < n
            invariant
                n == self.entries@.len(),
                i <= n,
                forall|j: int| 0 <= j < i ==> self.entries@[j].0@ != key@,
            decreases n - i,
        {
            if bytes_eq(&self.entries[i].0, key) {
                return Some(i);
            }
            i = i + 1;
        }
        None
    }

    fn get(&self, key: &Vec<u8>) -> (r: Option<CacheEntry>)
        requires
            self.wf(),
        ensures
            match r {
                Some(e) => self.view_map().contains_key(key@) && self.view_map()[key@] == e,
                None => !self.view_map().contains_key(key@),
            },
    {
        proof {
            lemma_map_of_contains(self.entries@, key@);
        }
        match self.find(key) {
            Some(i) => {
                proof {
                    lemma_map_of_index(self.entries@, i as int);
                }
                let e = &self.entries[i].1;
                let copy = CacheEntry { value: e.value.clone(), expires_at: e.expires_at };
                proof {
                    assert(copy == self.entries@[i as int].1);
                }
                Some(copy)
            },
            None => None,
        }
    }

    fn insert(&mut self, key: Vec<u8>, entry: CacheEntry)
        requires
            old(self).wf(),
        ensures
            final(self).wf(),
            final(self).view_map() == old(self).view_map().insert(key@, entry),
    {
        self.remove(&key);
        let ghost mid = self.entries@;
        self.entries.push((key, entry));
        proof {
            assert(self.entries@.drop_last() =~= mid);
            assert(final(self).view_map() =~= old(self).view_map().insert(key@, entry)) by {
                assert(map_of(self.entries@) == map_of(mid).insert(key@, entry));
                assert(map_of(mid) == old(self).view_map().remove(key@));
                assert(old(self).view_map().remove(key@).insert(key@, entry) =~= old(
                    self,
                ).view_map().insert(key@, entry));
            }
            assert forall|i: int, j: int|
                0 <= i < j < self.entries@.len() implies self.entries@[i].0@
                != self.entries@[j].0@ by {
                if j == self.entries@.len() - 1 {
                    lemma_map_of_contains(mid, self.entries@[i].0@);
                    assert(!map_of(mid).contains_key(key@));
                }
            }
        }
    }

    fn remove(&mut self, key: &Vec<u8>)
        requires
            old(self).wf(),
        ensures
            final(self).wf(),
            final(self).view_map() == old(self).view_map().remove(key@),
    {
        proof {
            lemma_map_of_contains(self.entries@, key@);
        }
        match self.find(key) {
            Some(i) => {
                proof {
                    lemma_map_of_remove(self.entries@, i as int);
                }
                self.entries.remove(i);
                proof {
                    assert(self.entries@ =~= old(self).entries@.subrange(0, i as int) + old(
                        self,
                    ).entries@.subrange(i + 1, old(self).entries@.len() as int));
                }
            },
            None => {
                proof {
                    assert(old(self).view_map().remove(key@) =~= old(self).view_map());
                }
            },
        }
    }

    fn drain(&mut self) -> (r: Vec<(Vec<u8>, CacheEntry)>)
        requires
            old(self).wf(),
        ensures
            final(self).wf(),
            final(self).view_map() == Map::<Seq<u8>, CacheEntry>::empty(),
            distinct_keys(r@),
            map_of(r@) == old(self).view_map(),
    {
        let mut taken: Vec<(Vec<u8>, CacheEntry)> = Vec::new();
        core::mem::swap(&mut self.entries, &mut taken);
        taken
    }
}

/// Bounded LRU of decoded values with an optional write-back buffer.
pub struct Cache {
    lru: lru::LruCache<Vec<u8>, (String, Option<u64>)>,
    write_buffer: WriteBuffer,
    write_back: bool,
}

impl Cache {
    /// Contents of the LRU layer.
    pub closed spec fn lru_view(&self) -> Map<Seq<u8>, (Seq<char>, Option<u64>)> {
        lru_contents(self.lru)
    }

    /// Contents of the write-back buffer.
    pub closed spec fn buffer_view(&self) -> Map<Seq<u8>, CacheEntry> {
        self.write_buffer.view_map()
    }

    /// Whether write-back mode is on.
    pub closed spec fn write_back_on(&self) -> bool {
        self.write_back
    }

    /// Internal consistency: without write-back the buffer stays empty.
    pub closed spec fn wf(&self) -> bool {
        &&& self.write_buffer.wf()
        &&& !self.write_back ==> self.buffer_view() =~= Map::<Seq<u8>, CacheEntry>::empty()
    }

    /// Without write-back mode the buffer holds nothing.
    pub proof fn lemma_no_write_back_buffer(&self)
        requires
            self.wf(),
            !self.write_back_on(),
        ensures
            self.buffer_view() =~= Map::<Seq<u8>, CacheEntry>::empty(),
    {
    }

    /// What a lookup returns: the buffer wins in write-back mode, then the LRU.
    pub open spec fn lookup(&self, k: Seq<u8>) -> Option<(Seq<char>, Option<u64>)> {
        if self.write_back_on() && self.buffer_view().contains_key(k) {
            Some(self.buffer_view()[k]@)
        } else if self.lru_view().contains_key(k) {
            Some(self.lru_view()[k])
        } else {
            None
        }
    }

    /// Constructs a cache with the provided positive capacity.
    pub fn new(capacity: usize) -> (r: Cache)
        requires
            capacity > 0,
        ensures
            r.wf(),
            !r.write_back_on(),
            r.lru_view() == Map::<Seq<u8>, (Seq<char>, Option<u64>)>::empty(),
            r.buffer_view() == Map::<Seq<u8>, CacheEntry>::empty(),
    {
        Cache::with_write_back(capacity, false)
    }

    /// Constructs a cache with optional write-back mode.
    pub fn with_write_back(capacity: usize, write_back: bool) -> (r: Cache)
        requires
            capacity > 0,
        ensures
            r.wf(),
            r.write_back_on() == write_back,
            r.lru_view() == Map::<Seq<u8>, (Seq<char>, Option<u64>)>::empty(),
            r.buffer_view() == Map::<Seq<u8>, CacheEntry>::empty(),
    {
        let lru = lru_new(capacity);
        proof {
            assert(lru_contents(lru) =~= Map::<Seq<u8>, (Seq<char>, Option<u64>)>::empty());
        }
        Cache { lru, write_buffer: WriteBuffer::new(), write_back }
    }

    /// Returns the cached entry if present, checking the write buffer first.
    pub fn get(&mut self, key: &Vec<u8>) -> (r: Option<CacheEntry>)
        requires
            old(self).wf(),
        ensures
            final(self).wf(),
            final(self).lru_view() == old(self).lru_view(),
            final(self).buffer_view() == old(self).buffer_view(),
            final(self).write_back_on() == old(self).write_back_on(),
            match r {
                Some(e) => old(self).lookup(key@) == Some(e@),
                None => old(self).lookup(key@) is None,
            },
    {
        if self.write_back {
            if let Some(e) = self.write_buffer.get(key) {
                return Some(e);
            }
        }
        match lru_get(&mut self.lru, key) {
            Some(v) => Some(CacheEntry { value: v.0, expires_at: v.1 }),
            None => None,
        }
    }

    /// Inserts or updates the cached entry, buffering it when write-back is
    /// enabled.
    pub fn put(&mut self, key: Vec<u8>, entry: CacheEntry)
        requires
            old(self).wf(),
        ensures
            final(self).wf(),
            final(self).write_back_on() == old(self).write_back_on(),
            final(self).buffer_view() == if old(self).write_back_on() {
                old(self).buffer_view().insert(key@, entry)
            } else {
                old(self).buffer_view()
            },
            final(self).lru_view().contains_key(key@),
            final(self).lru_view()[key@] == entry@,
            forall|k2: Seq<u8>|
                #[trigger] final(self).lru_view().contains_key(k2) && k2 != key@ ==> old(
                    self,
                ).lru_view().contains_key(k2) && final(self).lru_view()[k2] == old(
                    self,
                ).lru_view()[k2],
    {
        if self.write_back {
            let key2 = copy_range(&key, 0, key.len());
            let entry2 = CacheEntry { value: entry.value.clone(), expires_at: entry.expires_at };
            proof {
                assert(key2@ =~= key@);
            }
            self.write_buffer.insert(key2, entry2);
            proof {
                assert(old(self).buffer_view().insert(key2@, entry2) =~= old(
                    self,
                ).buffer_view().insert(key@, entry));
            }
        }
        lru_put(&mut self.lru, key, entry.value, entry.expires_at);
    }

    /// Evicts the provided key from the cache and the write buffer.
    pub fn remove(&mut self, key: &Vec<u8>)
        requires
            old(self).wf(),
        ensures
            final(self).wf(),
            final(self).write_back_on() == old(self).write_back_on(),
            final(self).buffer_view() == old(self).buffer_view().remove(key@),
            final(self).lru_view() == old(self).lru_view().remove(key@),
    {
        if self.write_back {
            self.write_buffer.remove(key);
        } else {
            proof {
                assert(old(self).buffer_view().remove(key@) =~= old(self).buffer_view());
            }
        }
        lru_pop(&mut self.lru, key);
    }

    /// A copy of the buffered entries, in buffer order, without draining.
    pub fn buffer_snapshot(&self) -> (r: Vec<(Vec<u8>, CacheEntry)>)
        requires
            self.wf(),
        ensures
            distinct_keys(r@),
            map_of(r@) == self.buffer_view(),
            forall|j: int|
                0 <= j < r@.len() ==> #[trigger] self.buffer_view().contains_key(r@[j].0@),
            forall|j: int|
                0 <= j < r@.len() ==> self.buffer_view()[#[trigger] r@[j].0@] == r@[j].1,
    {
        let n = self.write_buffer.entries.len();
        let mut r: Vec<(Vec<u8>, CacheEntry)> = Vec::new();
        let mut i: usize = 0;
        while i < n
            invariant
                i <= n,
                n == self.write_buffer.entries@.len(),
                r@.len() == i,
                forall|j: int|
                    0 <= j < i ==> #[trigger] r@[j].0@ == self.write_buffer.entries@[j].0@
                        && r@[j].1 == self.write_buffer.entries@[j].1,
            decreases n - i,
        {
            let pair = &self.write_buffer.entries[i];
            let kb = copy_range(&pair.0, 0, pair.0.len());
            let entry = CacheEntry { value: pair.1.value.clone(), expires_at: pair.1.expires_at };
            proof {
                assert(kb@ =~= self.write_buffer.entries@[i as int].0@);
            }
            r.push((kb, entry));
            i = i + 1;
        }
        proof {
            assert(distinct_keys(self.write_buffer.entries@));
            assert(map_of(r@) == map_of(self.write_buffer.entries@)) by {
                lemma_map_of_congruent(r@, self.write_buffer.entries@);
            }
            assert forall|j: int|
                0 <= j < r@.len() implies #[trigger] self.buffer_view().contains_key(
                r@[j].0@,
            ) by {
                lemma_map_of_index(self.write_buffer.entries@, j);
                assert(r@[j].0@ == self.write_buffer.entries@[j].0@);
            }
            assert forall|j: int|
                0 <= j < r@.len() implies self.buffer_view()[#[trigger] r@[j].0@]
                == r@[j].1 by {
                lemma_map_of_index(self.write_buffer.entries@, j);
                assert(r@[j].0@ == self.write_buffer.entries@[j].0@);
                assert(r@[j].1 == self.write_buffer.entries@[j].1);
            }
        }
        r
    }

    /// Empties the write buffer, returning the buffered entries for
    /// persistence. Without write-back mode there is nothing to return.
    pub fn flush_write_buffer(&mut self) -> (r: Vec<(Vec<u8>, CacheEntry)>)
        requires
            old(self).wf(),
        ensures
            final(self).wf(),
            final(self).write_back_on() == old(self).write_back_on(),
            final(self).lru_view() == old(self).lru_view(),
            final(self).buffer_view() == Map::<Seq<u8>, CacheEntry>::empty(),
            distinct_keys(r@),
            map_of(r@) == old(self).buffer_view(),
    {
        if !self.write_back {
            proof {
                assert(old(self).buffer_view() =~= map_of(Seq::<(Vec<u8>, CacheEntry)>::empty()));
            }
            return Vec::new();
        }
        self.write_buffer.drain()
    }
}

} // verus!
