use crate::entry::Entry;
use crate::list_bucket::{holds_pair, key_eq_is_equality, lists_exactly, pairs_of};
use crate::raw_map::RBTreeHashMap;
use std::hash::{BuildHasher, Hash, RandomState};
use vstd::prelude::*;

verus! {

/// Relies on `RandomState::new`, which makes a randomly seeded hasher builder.
pub assume_specification[ RandomState::new ]() -> RandomState;

/// Hashes `key` with a hasher from `hash_builder`.
///
/// Relies on `BuildHasher::hash_one`.  Nothing is promised of the value: the
/// default builder is seeded at random.
#[verifier::external_body]
pub fn make_hash<K: Hash, S: BuildHasher>(hash_builder: &S, key: &K) -> u64 {
    hash_builder.hash_one(key)
}

/// A hash map over a caller-chosen hasher builder, backed by a table whose buckets
/// turn into trees when their chains grow long.
///
/// Each key is stored under the hash the builder gives it; the contracts speak of
/// the table's pairs of hash and key.
#[verifier::reject_recursive_types(K)]
pub struct HashMap<K, V, S = RandomState> {
    pub table: RBTreeHashMap<K, V>,
    pub hash_builder: S,
}

impl<K, V> HashMap<K, V, RandomState> {
    /// An empty map with a randomly seeded hasher.
    pub fn new() -> (r: Self)
        ensures
            r.wf(),
            r@ == Map::<(u64, K), V>::empty(),
    {
        HashMap { table: RBTreeHashMap::new(), hash_builder: RandomState::new() }
    }

    /// An empty map that will start with `capacity` buckets, rounded up to a power
    /// of two, with a randomly seeded hasher.
    pub fn with_capacity(capacity: usize) -> (r: Self)
        ensures
            r.wf(),
            r@ == Map::<(u64, K), V>::empty(),
    {
        Self::with_capacity_hasher(capacity, RandomState::new())
    }

    /// A map holding one pair.
    pub fn of(key: K, value: V) -> (r: HashMap<K, V>)
        where
            K: Hash + Eq,
        requires
            key_eq_is_equality::<K>(),
        ensures
            r.wf(),
            exists|h: u64| #[trigger] r@.contains_key((h, key)) && r@ == Map::<(u64, K), V>::empty().insert((h, key), value),
    {
        let mut map = Self::with_capacity(1);
        let ghost k = key;
        map.put(key, value);
        proof {
            let h = choose|h: u64| #[trigger] map@ == Map::<(u64, K), V>::empty().insert((h, k), value);
            assert(map@.contains_key((h, k)));
        }
        map
    }
}

impl<K, V, S> HashMap<K, V, S> {
    /// What the map stores, keyed by the hash each key was stored under and the key.
    pub open spec fn view(&self) -> Map<(u64, K), V> {
        self.table@
    }

    pub open spec fn wf(&self) -> bool {
        self.table.wf()
    }

    /// An empty map over `hash_builder`.
    pub fn with_hasher(hash_builder: S) -> (r: Self)
        ensures
            r.wf(),
            r@ == Map::<(u64, K), V>::empty(),
    {
        HashMap { table: RBTreeHashMap::new(), hash_builder }
    }

    /// An empty map over `hash_builder` that will start with `capacity` buckets,
    /// rounded up to a power of two.
    pub fn with_capacity_hasher(capacity: usize, hash_builder: S) -> (r: Self)
        ensures
            r.wf(),
            r@ == Map::<(u64, K), V>::empty(),
    {
        HashMap { table: RBTreeHashMap::with_capacity(capacity), hash_builder }
    }

    /// An empty map over `hash_builder` that will start with `capacity` buckets,
    /// rounded up to a power of two, and doubles past `load_num / load_den` entries
    /// per bucket.
    pub fn with_capacity_ratio_hasher(capacity: usize, load_num: u32, load_den: u32, hash_builder: S) -> (r:
        Self)
        requires
            load_den > 0,
        ensures
            r.wf(),
            r@ == Map::<(u64, K), V>::empty(),
    {
        HashMap { table: RBTreeHashMap::with_capacity_ratio(capacity, load_num, load_den), hash_builder }
    }

    /// The number of entries.
    pub fn size(&self) -> (r: usize)
        requires
            self.wf(),
        ensures
            r == self@.len(),
    {
        self.table.size()
    }

    /// The number of entries.
    pub fn len(&self) -> (r: usize)
        requires
            self.wf(),
        ensures
            r == self@.len(),
    {
        self.size()
    }

    /// Whether the map holds no entry.
    pub fn is_empty(&self) -> (r: bool)
        requires
            self.wf(),
        ensures
            r == (self@.len() == 0),
    {
        self.size() == 0
    }

    /// Borrows every key and value: each stored pair once.
    pub fn iter(&self) -> (r: Vec<(&K, &V)>)
        requires
            self.wf(),
        ensures
            exists|t: Seq<(u64, &K, &V)>| #[trigger] pairs_of(t) == r@ && lists_exactly(t, self@),
    {
        self.table.iter()
    }

    /// Calls `f` on every entry; `f` may change the values, not the keys.
    pub fn foreach<F: Fn(&K, &mut V)>(&mut self, f: F)
        requires
            old(self).wf(),
            forall|k: &K, v: &mut V| f.requires((k, v)),
        ensures
            final(self).wf(),
            final(self)@.dom() == old(self)@.dom(),
    {
        self.table.foreach(&f)
    }
}

impl<K: Hash + Eq, V, S: BuildHasher> HashMap<K, V, S> {
    /// The value stored for `key`.
    pub fn get(&self, key: &K) -> (r: Option<&V>)
        requires
            key_eq_is_equality::<K>(),
            self.wf(),
        ensures
            self@.len() == 0 ==> r is None,
            r matches Some(v) ==> holds_pair(self@, *key, *v),
            exists|h: u64|
                {
                    &&& r is Some <==> #[trigger] self@.contains_key((h, *key))
                    &&& r matches Some(v) ==> *v == self@[(h, *key)]
                },
    {
        proof {
            self.table.lemma_nonempty_is_sized();
        }
        if self.is_empty() {
            assert(!self@.contains_key((0, *key)));
            return None;
        }
        proof {
            self.table.lemma_nonempty_is_sized();
        }
        let hash = make_hash(&self.hash_builder, key);
        let r = self.table.get(hash, key);
        proof {
            if r is Some {
                assert(self@.contains_key((hash, *key)));
            }
        }
        r
    }

    /// The value stored for `key`, to change in place.
    pub fn get_mut(&mut self, key: &K) -> (r: Option<&mut V>)
        requires
            key_eq_is_equality::<K>(),
            old(self).wf(),
        ensures
            final(self).wf(),
            old(self)@.len() == 0 ==> r is None,
            r is None ==> final(self)@ == old(self)@,
            exists|h: u64|
                {
                    &&& r is Some <==> #[trigger] old(self)@.contains_key((h, *key))
                    &&& r matches Some(v) ==> *v == old(self)@[(h, *key)] && final(self)@ == old(
                        self,
                    )@.insert((h, *key), *final(v))
                },
    {
        proof {
            self.table.lemma_nonempty_is_sized();
        }
        if self.is_empty() {
            assert(!self@.contains_key((0, *key)));
            return None;
        }
        proof {
            self.table.lemma_nonempty_is_sized();
        }
        let hash = make_hash(&self.hash_builder, key);
        self.table.get_mut(hash, key)
    }

    /// Whether some value is stored for `key`.
    pub fn contains_key(&self, key: &K) -> (r: bool)
        requires
            key_eq_is_equality::<K>(),
            self.wf(),
        ensures
            self@.len() == 0 ==> !r,
            exists|h: u64| r == #[trigger] self@.contains_key((h, *key)),
    {
        let r = self.get(key);
        r.is_some()
    }

    /// Stores `value` for `key` and returns the value it replaced.
    pub fn put(&mut self, key: K, value: V) -> (r: Option<V>)
        requires
            key_eq_is_equality::<K>(),
            old(self).wf(),
            old(self)@.len() < usize::MAX,
        ensures
            final(self).wf(),
            exists|h: u64|
                {
                    &&& #[trigger] final(self)@ == old(self)@.insert((h, key), value)
                    &&& r is Some <==> old(self)@.contains_key((h, key))
                    &&& r matches Some(v) ==> v == old(self)@[(h, key)]
                },
    {
        let hash = make_hash(&self.hash_builder, &key);
        self.table.put(hash, key, value)
    }

    /// Stores `value` for `key` and returns the value it replaced.
    pub fn insert(&mut self, key: K, value: V) -> (r: Option<V>)
        requires
            key_eq_is_equality::<K>(),
            old(self).wf(),
            old(self)@.len() < usize::MAX,
        ensures
            final(self).wf(),
            exists|h: u64|
                {
                    &&& #[trigger] final(self)@ == old(self)@.insert((h, key), value)
                    &&& r is Some <==> old(self)@.contains_key((h, key))
                    &&& r matches Some(v) ==> v == old(self)@[(h, key)]
                },
    {
        self.put(key, value)
    }

    /// Takes the entry for `key` out and returns its value.
    pub fn remove(&mut self, key: &K) -> (r: Option<V>)
        requires
            key_eq_is_equality::<K>(),
            old(self).wf(),
        ensures
            final(self).wf(),
            old(self)@.len() == 0 ==> r is None && final(self)@ == old(self)@,
            exists|h: u64|
                {
                    &&& #[trigger] final(self)@ == old(self)@.remove((h, *key))
                    &&& r is Some <==> old(self)@.contains_key((h, *key))
                    &&& r matches Some(v) ==> v == old(self)@[(h, *key)]
                },
    {
        proof {
            self.table.lemma_nonempty_is_sized();
        }
        if self.is_empty() {
            proof {
                assert(old(self)@.remove((0, *key)) =~= old(self)@);
            }
            return None;
        }
        let hash = make_hash(&self.hash_builder, key);
        self.table.remove(hash, key)
    }

    /// Probes for `key` once, after making room for one more entry.
    pub fn entry(&mut self, key: K) -> (r: Entry<'_, K, V>)
        requires
            key_eq_is_equality::<K>(),
            old(self).wf(),
            old(self)@.len() < usize::MAX,
        ensures
            r.wf(),
            match r {
                Entry::Occupied(o) => exists|h: u64|
                    {
                        &&& #[trigger] old(self)@.contains_key((h, key))
                        &&& *o.key == key
                        &&& *o.value == old(self)@[(h, key)]
                        &&& final(self).wf()
                        &&& final(self)@ == old(self)@.insert((h, key), *final(o.value))
                    },
                Entry::Vacant(v) => {
                    &&& !old(self)@.contains_key((v.hash, key))
                    &&& v.key == key
                    &&& (*v.map)@ == old(self)@
                    &&& final(self).table == *final(v.map)
                },
            },
    {
        let hash = make_hash(&self.hash_builder, &key);
        self.table.entry(hash, key)
    }
}

} // verus!
