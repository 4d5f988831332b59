use crate::list_bucket::key_eq_is_equality;
use crate::raw_map::RBTreeHashMap;
use vstd::prelude::*;

verus! {

/// What a probe of a table found for a key: its entry, or the place to add one.
#[verifier::reject_recursive_types(K)]
pub enum Entry<'a, K, V> {
    Occupied(OccupiedEntry<'a, K, V>),
    Vacant(VacantEntry<'a, K, V>),
}

/// A stored key, and its value to change in place.
pub struct OccupiedEntry<'a, K, V> {
    pub key: &'a K,
    pub value: &'a mut V,
}

/// A key the table does not hold, with its hash and the table to add it to.
#[verifier::reject_recursive_types(K)]
pub struct VacantEntry<'a, K, V> {
    pub key: K,
    pub hash: u64,
    pub map: &'a mut RBTreeHashMap<K, V>,
}

impl<'a, K, V> OccupiedEntry<'a, K, V> {
    pub fn new(key: &'a K, value: &'a mut V) -> (r: OccupiedEntry<'a, K, V>)
        ensures
            r.key == key,
            *r.value == *old(value),
            *final(r.value) == *final(value),
    {
        OccupiedEntry { key, value }
    }

    pub fn key(&self) -> (r: &'a K)
        ensures
            r == self.key,
    {
        self.key
    }

    /// The value, to change in place.
    pub fn value(self) -> (r: &'a mut V)
        ensures
            *r == *old(self.value),
            *final(r) == *final(self.value),
    {
        self.value
    }

    /// Replaces the value and returns the one it held.
    pub fn take_insert(self, value: V) -> (r: V)
        ensures
            r == *old(self.value),
            *final(self.value) == value,
    {
        let mut v = value;
        core::mem::swap(self.value, &mut v);
        v
    }

    /// Calls `f` on the value, then hands the entry back.
    pub fn and_modify<F: FnOnce(&mut V)>(self, f: F) -> (r: OccupiedEntry<'a, K, V>)
        requires
            forall|v: &mut V| f.requires((v,)),
        ensures
            r.key == self.key,
            *final(self.value) == *final(r.value),
            exists|m: &mut V| *m == *old(self.value) && *final(m) == *r.value && #[trigger] f.ensures((m,), ()),
    {
        let OccupiedEntry { key, value } = self;
        f(&mut *value);
        OccupiedEntry { key, value }
    }
}

impl<'a, K, V> VacantEntry<'a, K, V> {
    /// The entry is ready to be added to its table.
    pub open spec fn wf(&self) -> bool {
        &&& (*self.map).wf()
        &&& !(*self.map)@.contains_key((self.hash, self.key))
        &&& (*self.map)@.len() < usize::MAX
    }

    pub fn new(key: K, hash: u64, map: &'a mut RBTreeHashMap<K, V>) -> (r: VacantEntry<'a, K, V>)
        ensures
            r.key == key,
            r.hash == hash,
            *r.map == *old(map),
            *final(r.map) == *final(map),
    {
        VacantEntry { key, hash, map }
    }

    pub fn key(&self) -> (r: &K)
        ensures
            *r == self.key,
    {
        &self.key
    }

    /// Adds the key with `value` and returns the stored value, to change in place.
    pub fn or_insert(self, value: V) -> (r: &'a mut V)
        requires
            self.wf(),
        ensures
            *r == value,
            (*final(self.map)).wf(),
            (*final(self.map))@ == (*old(self.map))@.insert((self.hash, self.key), *final(r)),
    {
        let VacantEntry { key, hash, map } = self;
        map.add_node(hash, key, value).1
    }

    /// Adds the key with `value`; there was no value to return.
    pub fn take_insert(self, value: V) -> (r: Option<V>)
        requires
            self.wf(),
        ensures
            r is None,
            (*final(self.map)).wf(),
            (*final(self.map))@ == (*old(self.map))@.insert((self.hash, self.key), value),
    {
        let VacantEntry { key, hash, map } = self;
        map.add_node(hash, key, value);
        None
    }

    /// Adds the key with the default value changed by `f`.
    pub fn and_modify<F: FnOnce(&mut V)>(self, f: F) -> (r: OccupiedEntry<'a, K, V>)
        where
            V: Default,
        requires
            self.wf(),
            forall|v: &mut V| f.requires((v,)),
        ensures
            *r.key == self.key,
            (*final(self.map)).wf(),
            (*final(self.map))@ == (*old(self.map))@.insert((self.hash, self.key), *final(r.value)),
            exists|m: &mut V|
                call_ensures(V::default, (), *m) && *final(m) == *r.value && #[trigger] f.ensures((m,), ()),
    {
        let VacantEntry { key, hash, map } = self;
        let mut value = V::default();
        f(&mut value);
        let (k, v) = map.add_node(hash, key, value);
        OccupiedEntry { key: k, value: v }
    }

    /// Adds the key with the value `f` makes from it.
    pub fn put_if_absent<F: FnOnce(&K) -> V>(self, f: F) -> (r: OccupiedEntry<'a, K, V>)
        requires
            self.wf(),
            forall|k: &K| f.requires((k,)),
        ensures
            *r.key == self.key,
            f.ensures((&self.key,), *r.value),
            (*final(self.map)).wf(),
            (*final(self.map))@ == (*old(self.map))@.insert((self.hash, self.key), *final(r.value)),
    {
        let VacantEntry { key, hash, map } = self;
        let value = f(&key);
        let (k, v) = map.add_node(hash, key, value);
        OccupiedEntry { key: k, value: v }
    }
}

impl<'a, K, V> Entry<'a, K, V> {
    /// A vacant entry is ready to be added to its table.
    pub open spec fn wf(&self) -> bool {
        match self {
            Entry::Occupied(_) => true,
            Entry::Vacant(v) => v.wf(),
        }
    }

    /// The stored value, or `default` added and stored.
    pub fn or_insert(self, default: V) -> (r: &'a mut V)
        requires
            self.wf(),
        ensures
            match self {
                Entry::Occupied(o) => *r == *o.value && *final(r) == *final(o.value),
                Entry::Vacant(v) => {
                    &&& *r == default
                    &&& (*final(v.map)).wf()
                    &&& (*final(v.map))@ == (*v.map)@.insert((v.hash, v.key), *final(r))
                },
            },
    {
        match self {
            Entry::Occupied(x) => x.value,
            Entry::Vacant(x) => x.or_insert(default),
        }
    }

    /// Stores `value` and returns the value it replaced, if any.
    pub fn take_insert(self, value: V) -> (r: Option<V>)
        requires
            self.wf(),
        ensures
            match self {
                Entry::Occupied(o) => r == Some(*o.value) && *final(o.value) == value,
                Entry::Vacant(v) => {
                    &&& r is None
                    &&& (*final(v.map)).wf()
                    &&& (*final(v.map))@ == (*v.map)@.insert((v.hash, v.key), value)
                },
            },
    {
        match self {
            Entry::Occupied(x) => Some(x.take_insert(value)),
            Entry::Vacant(x) => x.take_insert(value),
        }
    }

    /// The key probed for.
    pub fn key(&self) -> (r: &K)
        ensures
            match self {
                Entry::Occupied(o) => *r == *o.key,
                Entry::Vacant(v) => *r == v.key,
            },
    {
        match self {
            Entry::Occupied(x) => x.key,
            Entry::Vacant(x) => &x.key,
        }
    }

    /// Calls `f` on the stored value, or on a default value that is then added.
    pub fn and_modify<F: FnOnce(&mut V)>(self, f: F) -> (r: OccupiedEntry<'a, K, V>)
        where
            V: Default,
        requires
            self.wf(),
            forall|v: &mut V| f.requires((v,)),
        ensures
            match self {
                Entry::Occupied(o) => {
                    &&& r.key == o.key
                    &&& *final(o.value) == *final(r.value)
                    &&& exists|m: &mut V| *m == *o.value && *final(m) == *r.value && #[trigger] f.ensures((m,), ())
                },
                Entry::Vacant(v) => {
                    &&& *r.key == v.key
                    &&& (*final(v.map)).wf()
                    &&& (*final(v.map))@ == (*v.map)@.insert((v.hash, v.key), *final(r.value))
                    &&& exists|m: &mut V|
                        call_ensures(V::default, (), *m) && *final(m) == *r.value && #[trigger] f.ensures((m,), ())
                },
            },
    {
        match self {
            Entry::Occupied(x) => x.and_modify(f),
            Entry::Vacant(x) => x.and_modify(f),
        }
    }
}

impl<K, V> RBTreeHashMap<K, V> {
    /// Probes for `(hash, key)` once, after making room for one more entry.
    pub fn entry(&mut self, hash: u64, key: K) -> (r: Entry<'_, K, V>)
        where
            K: Eq,
        requires
            key_eq_is_equality::<K>(),
            old(self).wf(),
            old(self)@.len() < usize::MAX,
        ensures
            r.wf(),
            match r {
                Entry::Occupied(o) => {
                    &&& old(self)@.contains_key((hash, key))
                    &&& *o.key == key
                    &&& *o.value == old(self)@[(hash, key)]
                    &&& final(self).wf()
                    &&& final(self)@ == old(self)@.insert((hash, key), *final(o.value))
                },
                Entry::Vacant(v) => {
                    &&& !old(self)@.contains_key((hash, key))
                    &&& v.key == key
                    &&& v.hash == hash
                    &&& (*v.map)@ == old(self)@
                    &&& *final(self) == *final(v.map)
                },
            },
    {
        self.reserve(1);
        if self.contains_key(hash, &key) {
            let e = self.get_key_value_mut(hash, &key).unwrap();
            Entry::Occupied(OccupiedEntry { key: e.0, value: e.1 })
        } else {
            Entry::Vacant(VacantEntry { key, hash, map: self })
        }
    }
}

} // verus!
