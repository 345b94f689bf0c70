//! In-memory index pointing to values stored in the write-ahead log.
//!
//! The index maps the UTF-8 bytes of each live key to the location of its
//! most recent record. It is a vector of pairs with pairwise distinct keys,
//! viewed as a `Map`.

use vstd::prelude::*;

verus! {

/// Location of a value within the log.
#[derive(Clone, Copy, Debug, PartialEq, Eq, Structural)]
pub struct ValuePointer {
    /// Byte offset inside the log where the record begins.
    pub offset: u64,
    /// Length of the stored value payload in bytes.
    pub value_len: u32,
    /// Total size of the log record, including header and key bytes.
    pub record_len: u32,
}

impl ValuePointer {
    /// Creates a pointer describing a record written to the log.
    pub fn new(offset: u64, value_len: u32, record_len: u32) -> (r: Self)
        ensures
            r == (ValuePointer { offset, value_len, record_len }),
    {
        ValuePointer { offset, value_len, record_len }
    }
}

/// What the index knows of one live key.
#[derive(Clone, Copy, Debug, PartialEq, Eq, Structural)]
pub struct IndexEntry {
    /// Location of the key's most recent Put record.
    pub pointer: ValuePointer,
    /// Expiry of that record, in seconds since the Unix epoch.
    pub expires_at: Option<u64>,
}

/// Compares two byte vectors for equality.
pub fn bytes_eq(a: &Vec<u8>, b: &Vec<u8>) -> (r: bool)
    ensures
        r == (a@ == b@),
{
    if a.len() != b.len() {
        proof {
            assert(a@ != b@);
        }
        return false;
    }
    let n = a.len();
    let mut i: usize = 0;
    while i < n
        invariant
            n == a@.len() == b@.len(),
            i <= n,
            forall|j: int| 0 <= j < i ==> a@[j] == b@[j],
        decreases n - i,
    {
        if a[i] != b[i] {
            return false;
        }
        i = i + 1;
    }
    proof {
        assert(a@ =~= b@);
    }
    true
}

/// Map described by an association list, later pairs overriding earlier ones.
pub open spec fn map_of<T>(s: Seq<(Vec<u8>, T)>) -> Map<Seq<u8>, T>
    decreases s.len(),
{
    if s.len() == 0 {
        Map::empty()
    } else {
        map_of(s.drop_last()).insert(s.last().0@, s.last().1)
    }
}

/// Pairwise distinct keys.
pub open spec fn distinct_keys<T>(s: Seq<(Vec<u8>, T)>) -> bool {
    forall|i: int, j: int| 0 <= i < j < s.len() ==> s[i].0@ != s[j].0@
}

/// The domain of `map_of(s)` is exactly the set of keys in `s`, and each key
/// maps to the entry beside its last occurrence.
pub proof fn lemma_map_of_contains<T>(s: Seq<(Vec<u8>, T)>, k: Seq<u8>)
    ensures
        map_of(s).contains_key(k) <==> exists|i: int| 0 <= i < s.len() && s[i].0@ == k,
    decreases s.len(),
{
    if s.len() > 0 {
        lemma_map_of_contains(s.drop_last(), k);
        if map_of(s).contains_key(k) {
            if s.last().0@ == k {
                assert(s[s.len() - 1].0@ == k);
            }
        }
        if exists|i: int| 0 <= i < s.len() && s[i].0@ == k {
            let i = choose|i: int| 0 <= i < s.len() && s[i].0@ == k;
            if i < s.len() - 1 {
                assert(s.drop_last()[i].0@ == k);
            }
        }
    }
}

/// With distinct keys, every position of the list is reflected in the map.
pub proof fn lemma_map_of_index<T>(s: Seq<(Vec<u8>, T)>, i: int)
    requires
        distinct_keys(s),
        0 <= i < s.len(),
    ensures
        map_of(s).contains_key(s[i].0@),
        map_of(s)[s[i].0@] == s[i].1,
    decreases s.len(),
{
    if i == s.len() - 1 {
        assert(map_of(s) == map_of(s.drop_last()).insert(s.last().0@, s.last().1));
    } else {
        lemma_map_of_index(s.drop_last(), i);
        assert(s.drop_last()[i] == s[i]);
    }
}

/// Removing position `i` from a distinct-keyed list removes its key from the map.
pub proof fn lemma_map_of_remove<T>(s: Seq<(Vec<u8>, T)>, i: int)
    requires
        distinct_keys(s),
        0 <= i < s.len(),
    ensures
        map_of(s.subrange(0, i) + s.subrange(i + 1, s.len() as int)) == map_of(s).remove(s[i].0@),
    decreases s.len(),
{
    let s2 = s.subrange(0, i) + s.subrange(i + 1, s.len() as int);
    if i == s.len() - 1 {
        assert(s2 =~= s.drop_last());
        lemma_map_of_contains(s.drop_last(), s[i].0@);
        assert(forall|j: int|
            0 <= j < s.drop_last().len() ==> s.drop_last()[j].0@ != s[i].0@) by {
            assert(forall|j: int| 0 <= j < s.len() - 1 ==> s[j].0@ != s[i].0@);
        }
        assert(!map_of(s.drop_last()).contains_key(s[i].0@));
        assert(map_of(s).remove(s[i].0@) =~= map_of(s.drop_last()));
    } else {
        let sd = s.drop_last();
        let sd2 = sd.subrange(0, i) + sd.subrange(i + 1, sd.len() as int);
        lemma_map_of_remove(sd, i);
        assert(s2.drop_last() =~= sd2);
        assert(s2.last() == s.last());
        assert(map_of(s2) == map_of(sd2).insert(s.last().0@, s.last().1));
        assert(map_of(s).remove(s[i].0@) =~= map_of(sd).remove(s[i].0@).insert(
            s.last().0@,
            s.last().1,
        ));
        assert(sd[i] == s[i]);
    }
}

/// Two association lists with position-wise equal keys and entries describe
/// the same map.
pub proof fn lemma_map_of_congruent<T>(a: Seq<(Vec<u8>, T)>, b: Seq<(Vec<u8>, T)>)
    requires
        a.len() == b.len(),
        forall|j: int| 0 <= j < a.len() ==> #[trigger] a[j].0@ == b[j].0@ && a[j].1 == b[j].1,
    ensures
        map_of(a) == map_of(b),
    decreases a.len(),
{
    if a.len() > 0 {
        lemma_map_of_congruent(a.drop_last(), b.drop_last());
        assert(a[a.len() - 1].0@ == b[b.len() - 1].0@ && a[a.len() - 1].1 == b[b.len() - 1].1);
    }
}

/// The map of an association list is finite.
pub proof fn lemma_map_of_finite<T>(s: Seq<(Vec<u8>, T)>)
    ensures
        map_of(s).dom().finite(),
    decreases s.len(),
{
    if s.len() > 0 {
        lemma_map_of_finite(s.drop_last());
    }
}

/// In-memory index: key bytes of each live key to its most recent record.
pub struct KeyIndex {
    entries: Vec<(Vec<u8>, IndexEntry)>,
}

impl View for KeyIndex {
    type V = Map<Seq<u8>, IndexEntry>;

    closed spec fn view(&self) -> Map<Seq<u8>, IndexEntry> {
        map_of(self.entries@)
    }
}

impl KeyIndex {
    /// The association list holds each key at most once.
    pub closed spec fn wf(&self) -> bool {
        distinct_keys(self.entries@)
    }

    /// Underlying pairs, for iteration.
    pub closed spec fn pairs(&self) -> Seq<(Vec<u8>, IndexEntry)> {
        self.entries@
    }

    /// The pair list and the map view describe each other: each pair is in
    /// the map, the keys are pairwise distinct, and every key of the map
    /// stands in the list.
    pub proof fn lemma_pairs_view(&self)
        requires
            self.wf(),
        ensures
            forall|i: int|
                0 <= i < self.pairs().len() ==> #[trigger] self@.contains_key(self.pairs()[i].0@)
                    && self@[self.pairs()[i].0@] == self.pairs()[i].1,
            forall|i: int, j: int|
                0 <= i < j < self.pairs().len() ==> self.pairs()[i].0@ != self.pairs()[j].0@,
            forall|k: Seq<u8>| #[trigger]
                self@.contains_key(k) ==> exists|i: int|
                    0 <= i < self.pairs().len() && self.pairs()[i].0@ == k,
            self@.dom().finite(),
    {
        assert forall|i: int|
            0 <= i < self.pairs().len() implies #[trigger] self@.contains_key(self.pairs()[i].0@)
            && self@[self.pairs()[i].0@] == self.pairs()[i].1 by {
            lemma_map_of_index(self.entries@, i);
        }
        assert forall|k: Seq<u8>| #[trigger] self@.contains_key(k) implies exists|i: int|
            0 <= i < self.pairs().len() && self.pairs()[i].0@ == k by {
            lemma_map_of_contains(self.entries@, k);
            let i = choose|i: int| 0 <= i < self.entries@.len() && self.entries@[i].0@ == k;
            assert(0 <= i < self.pairs().len() && self.pairs()[i].0@ == k);
        }
        lemma_map_of_finite(self.entries@);
    }

    /// Creates an empty index.
    pub fn new() -> (r: KeyIndex)
        ensures
            r.wf(),
            r@ == Map::<Seq<u8>, IndexEntry>::empty(),
            r.pairs().len() == 0,
    {
        KeyIndex { entries: Vec::new() }
    }

    /// Number of live keys.
    pub fn len(&self) -> (r: usize)
        ensures
            r == self.pairs().len(),
    {
        self.entries.len()
    }

    /// The pair stored at position `i`.
    pub fn pair_at(&self, i: usize) -> (r: &(Vec<u8>, IndexEntry))
        requires
            i < self.pairs().len(),
        ensures
            *r == self.pairs()[i as int],
    {
        &self.entries[i]
    }

    /// Position of `key` in the list, if present.
    fn find(&self, key: &Vec<u8>) -> (r: Option<usize>)
        requires
            self.wf(),
        ensures
            match r {
                Some(i) => i < self.entries@.len() && self.entries@[i as int].0@ == key@,
                None => forall|i: int| 0 <= i < self.entries@.len() ==> self.entries@[i].0@ != key@,
            },
    {
        let n = self.entries.len();
        let mut i: usize = 0;
        while i < n
            invariant
                n == self.entries@.len(),
                i <= n,
                forall|j: int| 0 <= j < i ==> self.entries@[j].0@ != key@,
            decreases n - i,
        {
            if bytes_eq(&self.entries[i].0, key) {
                return Some(i);
            }
            i = i + 1;
        }
        None
    }

    /// Looks up the entry for `key`.
    pub fn get(&self, key: &Vec<u8>) -> (r: Option<IndexEntry>)
        requires
            self.wf(),
        ensures
            match r {
                Some(e) => self@.contains_key(key@) && self@[key@] == e,
                None => !self@.contains_key(key@),
            },
    {
        proof {
            lemma_map_of_contains(self.entries@, key@);
        }
        match self.find(key) {
            Some(i) => {
                proof {
                    lemma_map_of_index(self.entries@, i as int);
                }
                Some(self.entries[i].1)
            },
            None => None,
        }
    }

    /// Inserts or replaces the entry for `key`, returning the previous one.
    pub fn insert(&mut self, key: Vec<u8>, entry: IndexEntry) -> (r: Option<IndexEntry>)
        requires
            old(self).wf(),
        ensures
            final(self).wf(),
            final(self)@ == old(self)@.insert(key@, entry),
            match r {
                Some(e) => old(self)@.contains_key(key@) && old(self)@[key@] == e,
                None => !old(self)@.contains_key(key@),
            },
    {
        let prev = self.remove(&key);
        let ghost mid = self.entries@;
        self.entries.push((key, entry));
        proof {
            assert(self.entries@.drop_last() =~= mid);
            assert(final(self)@ =~= old(self)@.insert(key@, entry)) by {
                assert(map_of(self.entries@) == map_of(mid).insert(key@, entry));
                assert(map_of(mid) == old(self)@.remove(key@));
                assert(old(self)@.remove(key@).insert(key@, entry) =~= old(self)@.insert(
                    key@,
                    entry,
                ));
            }
            assert forall|i: int, j: int|
                0 <= i < j < self.entries@.len() implies self.entries@[i].0@
                != self.entries@[j].0@ by {
                if j == self.entries@.len() - 1 {
                    lemma_map_of_contains(mid, self.entries@[i].0@);
                    assert(!map_of(mid).contains_key(key@));
                }
            }
        }
        prev
    }

    /// Removes the entry for `key`, returning it when one existed.
    pub fn remove(&mut self, key: &Vec<u8>) -> (r: Option<IndexEntry>)
        requires
            old(self).wf(),
        ensures
            final(self).wf(),
            final(self)@ == old(self)@.remove(key@),
            match r {
                Some(e) => old(self)@.contains_key(key@) && old(self)@[key@] == e,
                None => !old(self)@.contains_key(key@) && *final(self) == *old(self),
            },
    {
        proof {
            lemma_map_of_contains(self.entries@, key@);
        }
        match self.find(key) {
            Some(i) => {
                proof {
                    lemma_map_of_index(self.entries@, i as int);
                    lemma_map_of_remove(self.entries@, i as int);
                }
                let pair = self.entries.remove(i);
                proof {
                    assert(self.entries@ =~= old(self).entries@.subrange(0, i as int) + old(
                        self,
                    ).entries@.subrange(i + 1, old(self).entries@.len() as int));
                }
                Some(pair.1)
            },
            None => {
                proof {
                    assert(old(self)@.remove(key@) =~= old(self)@);
                }
                None
            },
        }
    }
}

} // verus!
