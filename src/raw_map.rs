use crate::allocator::Allocator;
use crate::bucket::Bucket;
use crate::list_bucket::{
    keep_bit, key_eq_is_equality, lemma_lists_exactly_concat, lists_exactly, pairs_from, pairs_of, EntryNode,
};
use crate::numbers::{next_power_of_two, MAXIMUM_CAPACITY};
use vstd::arithmetic::power2::{lemma2_to64, lemma_pow2_strictly_increases, lemma_pow2_unfold, pow2};
use vstd::bits::lemma_u64_shl_is_mul;
use vstd::prelude::*;

verus! {

/// The slot a hash falls in, in a table of `cap` slots.
pub open spec fn bucket_index(h: u64, cap: nat) -> int {
    (h & ((cap - 1) as u64)) as int
}

/// In a table of a power-of-two size `c`, a hash falls in a slot below `c`; when the
/// table doubles, the hash stays in its slot if its bit `c` is clear, and moves up by
/// `c` if that bit is set.
pub proof fn lemma_split_lands(h: u64, k: nat)
    requires
        k <= 31,
    ensures
        0 <= bucket_index(h, pow2(k)) < pow2(k),
        0 <= bucket_index(h, 2 * pow2(k)) < 2 * pow2(k),
        k < 31 ==> pow2(k) <= MAXIMUM_CAPACITY / 2,
        k == 31 ==> pow2(k) == MAXIMUM_CAPACITY,
        h & (pow2(k) as u64) == 0 ==> bucket_index(h, 2 * pow2(k)) == bucket_index(h, pow2(k)),
        h & (pow2(k) as u64) != 0 ==> bucket_index(h, 2 * pow2(k)) == bucket_index(h, pow2(k)) + pow2(k),
{
    lemma2_to64();
    lemma_u64_shl_is_mul(1, k as u64);
    lemma_u64_shl_is_mul(1, (k + 1) as u64);
    lemma_pow2_unfold(k + 1);
    if k < 30 {
        lemma_pow2_strictly_increases(k, 30);
    }
    if k < 31 {
        lemma_pow2_strictly_increases(k, 31);
    }
    let kk = k as u64;
    let c: u64 = 1u64 << kk;
    let m: u64 = (c - 1) as u64;
    let c2: u64 = 1u64 << ((kk + 1) as u64);
    let m2: u64 = (c2 - 1) as u64;
    assert(c as nat == pow2(k));
    assert(c2 as nat == pow2(k + 1));
    assert((h & m) < c && (h & m2) < c2 && ((h & c) == 0 ==> (h & m2) == (h & m)) && ((h & c) != 0 ==> (h
        & m2) == ((h & m) + c) as u64)) by (bit_vector)
        requires
            kk <= 31,
            c == 1u64 << kk,
            m == (c - 1) as u64,
            c2 == 1u64 << ((kk + 1) as u64),
            m2 == (c2 - 1) as u64,
    ;
}

/// A hash table of buckets whose number is a power of two.  Each entry is stored
/// under the hash its caller gave, in the bucket that hash selects; buckets are
/// chains that turn into trees when they grow long.  The table is sized on first use
/// and doubles, splitting every bucket in two, as it fills.
#[verifier::reject_recursive_types(K)]
pub struct RBTreeHashMap<K, V> {
    pub allocator: Allocator<EntryNode<K, V>>,
    pub tab: Vec<Bucket<K, V>>,
    /// Before the first sizing, the number of buckets to start with; after it, the
    /// number of entries past which the table doubles.
    pub threshold: u64,
    /// The load factor, as the fraction `load_num / load_den`.
    pub load_num: u32,
    pub load_den: u32,
    /// The number of buckets is two to this power.
    pub exp: Ghost<nat>,
    /// The `(hash, key)` pairs the table stores.
    pub keys: Ghost<Set<(u64, K)>>,
}

impl<K, V> RBTreeHashMap<K, V> {
    /// What the table stores, keyed by hash and key.
    pub open spec fn view(&self) -> Map<(u64, K), V> {
        Map::new(
            |p: (u64, K)| self.keys@.contains(p),
            |p: (u64, K)| self.tab@[bucket_index(p.0, self.tab@.len())].content()[p],
        )
    }

    /// The number of buckets.
    pub open spec fn capacity(&self) -> nat {
        self.tab@.len()
    }

    pub open spec fn wf(&self) -> bool {
        &&& self.load_den > 0
        &&& self.keys@.finite()
        &&& self.allocator.size == self.keys@.len()
        &&& self.exp@ <= 31
        &&& self.tab@.len() == 0 ==> {
            &&& self.keys@ == Set::<(u64, K)>::empty()
            &&& self.threshold == pow2(self.exp@)
        }
        &&& self.tab@.len() > 0 ==> self.tab@.len() == pow2(self.exp@)
        &&& forall|i: int| 0 <= i < self.tab@.len() ==> (#[trigger] self.tab@[i]).wf()
        &&& forall|i: int, p: (u64, K)|
            0 <= i < self.tab@.len() && #[trigger] self.tab@[i].content().contains_key(p) ==> bucket_index(
                p.0,
                self.tab@.len(),
            ) == i
        &&& forall|p: (u64, K)| #[trigger]
            self.keys@.contains(p) <==> self.tab@.len() > 0 && self.tab@[bucket_index(
                p.0,
                self.tab@.len(),
            )].content().contains_key(p)
    }

    /// A table that will start with 16 buckets.
    pub fn new() -> (r: Self)
        ensures
            r.wf(),
            r@ == Map::<(u64, K), V>::empty(),
    {
        Self::with_capacity(16)
    }

    /// A table that will start with `init_cap` buckets, rounded up to a power of two.
    pub fn with_capacity(init_cap: usize) -> (r: Self)
        ensures
            r.wf(),
            r@ == Map::<(u64, K), V>::empty(),
    {
        Self::with_capacity_ratio(init_cap, 3, 4)
    }

    /// A table that will start with `init_cap` buckets, rounded up to a power of two,
    /// and doubles once it holds more than `load_num / load_den` entries per bucket.
    pub fn with_capacity_ratio(init_cap: usize, load_num: u32, load_den: u32) -> (r: Self)
        requires
            load_den > 0,
        ensures
            r.wf(),
            r@ == Map::<(u64, K), V>::empty(),
    {
        let capacity = next_power_of_two(init_cap);
        let ghost k = choose|k: nat| pow2(k) == capacity as nat;
        proof {
            lemma2_to64();
            if k > 31 {
                lemma_pow2_strictly_increases(31, k);
            }
        }
        let r = RBTreeHashMap {
            allocator: Allocator::new(),
            tab: Vec::new(),
            threshold: capacity as u64,
            load_num,
            load_den,
            exp: Ghost(k),
            keys: Ghost(Set::empty()),
        };
        proof {
            assert(r@ =~= Map::<(u64, K), V>::empty());
        }
        r
    }

    /// A table that holds an entry has been sized.
    pub proof fn lemma_nonempty_is_sized(&self)
        requires
            self.wf(),
        ensures
            self@.dom() == self.keys@,
            self@.dom().finite(),
            self@.len() > 0 ==> self.capacity() > 0,
            self@.len() == 0 ==> self@ == Map::<(u64, K), V>::empty(),
    {
        assert(self@.dom() =~= self.keys@);
        vstd::set_lib::lemma_set_empty_equivalency_len(self.keys@);
        if self@.len() == 0 {
            assert(self@ =~= Map::<(u64, K), V>::empty());
        }
    }

    /// The number of entries.
    pub fn size(&self) -> (r: usize)
        requires
            self.wf(),
        ensures
            r == self@.len(),
    {
        assert(self@.dom() =~= self.keys@);
        self.allocator.size
    }


    /// Makes room for `additional` more entries: sizes the table on first use, and
    /// doubles it, splitting every bucket, once it would pass its threshold.  The
    /// number of buckets never passes `MAXIMUM_CAPACITY`.
    pub fn reserve(&mut self, additional: usize)
        requires
            old(self).wf(),
            old(self)@.len() + additional <= usize::MAX,
        ensures
            final(self).wf(),
            final(self)@ == old(self)@,
            final(self).keys@ == old(self).keys@,
            final(self).capacity() > 0,
            final(self).load_num == old(self).load_num,
            final(self).load_den == old(self).load_den,
            old(self).capacity() > 0 && old(self)@.len() + additional <= old(self).threshold ==> final(self).capacity() == old(self).capacity() && final(self).threshold == old(self).threshold,
            old(self).capacity() >= MAXIMUM_CAPACITY ==> final(self).capacity() == old(self).capacity()
                && final(self).threshold == old(self).threshold,
            !(old(self).capacity() > 0 && old(self)@.len() + additional <= old(self).threshold) && old(self).capacity() < MAXIMUM_CAPACITY ==> {
                &&& final(self).capacity() == if old(self).capacity() == 0 {
                    old(self).threshold as nat
                } else {
                    2 * old(self).capacity()
                }
                &&& final(self).threshold as int == (final(self).capacity() * old(self).load_num) as int / old(self).load_den as int
            },
    {
        proof {
            assert(self@.dom() =~= self.keys@);
        }
        if self.tab.len() > 0 && (self.allocator.size as u64) + (additional as u64) <= self.threshold {
            return;
        }
        let old_cap = self.tab.len();
        if old_cap >= MAXIMUM_CAPACITY {
            return;
        }
        proof {
            lemma2_to64();
            if old_cap > 0 && self.exp@ >= 31 {
                if self.exp@ > 31 {
                    lemma_pow2_strictly_increases(31, self.exp@);
                }
                assert(false);
            }
            if self.exp@ < 31 {
                lemma_pow2_strictly_increases(self.exp@, 31);
            }
            lemma_pow2_unfold(self.exp@ + 1);
        }
        let capacity: usize = if old_cap > 0 {
            old_cap * 2
        } else {
            self.threshold as usize
        };
        proof {
            if old_cap > 0 && self.exp@ + 1 < 31 {
                lemma_pow2_strictly_increases(self.exp@ + 1, 31);
            }
            assert(capacity <= MAXIMUM_CAPACITY);
        }
        let ghost new_exp: nat = if old_cap > 0 {
            self.exp@ + 1
        } else {
            self.exp@
        };
        let mut new_tab: Vec<Bucket<K, V>> = Vec::new();
        let mut j: usize = 0;
        while j < capacity
            invariant
                j <= capacity,
                new_tab@.len() == j,
                forall|x: int|
                    0 <= x < j ==> (#[trigger] new_tab@[x]).wf() && new_tab@[x].content() == Map::<
                        (u64, K),
                        V,
                    >::empty(),
            decreases capacity - j,
        {
            new_tab.push(Bucket::new_list());
            j = j + 1;
        }
        let mut old_tab: Vec<Bucket<K, V>> = Vec::new();
        core::mem::swap(&mut self.tab, &mut old_tab);
        let ghost orig = old_tab@;
        let ghost keys = self.keys@;
        let ghost k = self.exp@;
        let mut i: usize = 0;
        while i < old_cap
            invariant
                old_cap > 0 ==> capacity == 2 * old_cap && old_cap == pow2(k) && k < 31,
                capacity <= MAXIMUM_CAPACITY,
                i <= old_cap,
                old_tab@.len() == old_cap,
                orig.len() == old_cap,
                forall|x: int| i <= x < old_cap ==> #[trigger] old_tab@[x] == orig[x],
                forall|x: int| 0 <= x < old_cap ==> (#[trigger] orig[x]).wf(),
                forall|x: int, p: (u64, K)|
                    0 <= x < old_cap && #[trigger] orig[x].content().contains_key(p) ==> bucket_index(p.0, old_cap as nat) == x,
                forall|p: (u64, K)| #[trigger]
                    keys.contains(p) <==> old_cap > 0 && orig[bucket_index(p.0, old_cap as nat)].content().contains_key(p),
                new_tab@.len() == capacity,
                forall|x: int| 0 <= x < capacity ==> (#[trigger] new_tab@[x]).wf(),
                forall|x: int, p: (u64, K)|
                    0 <= x < capacity && #[trigger] new_tab@[x].content().contains_key(p) ==> {
                        &&& bucket_index(p.0, capacity as nat) == x
                        &&& bucket_index(p.0, old_cap as nat) < i
                        &&& keys.contains(p)
                        &&& new_tab@[x].content()[p] == orig[bucket_index(p.0, old_cap as nat)].content()[p]
                    },
                forall|p: (u64, K)|
                    #[trigger] keys.contains(p) && bucket_index(p.0, old_cap as nat) < i ==> new_tab@[bucket_index(
                        p.0,
                        capacity as nat,
                    )].content().contains_key(p),
            decreases old_cap - i,
        {
            let mut b = Bucket::new_list();
            old_tab.set_and_swap(i, &mut b);
            let (lo, hi) = b.split(old_cap as u64);
            let ghost before = new_tab@;
            new_tab.set(i, lo);
            new_tab.set(i + old_cap, hi);
            proof {
                assert(b == orig[i as int]);
                assert(new_tab@[i as int] == lo);
                assert(new_tab@[(i + old_cap) as int] == hi);
                assert forall|x: int, p: (u64, K)|
                    0 <= x < capacity && #[trigger] new_tab@[x].content().contains_key(p) implies {
                        &&& bucket_index(p.0, capacity as nat) == x
                        &&& bucket_index(p.0, old_cap as nat) < i + 1
                        &&& keys.contains(p)
                        &&& new_tab@[x].content()[p] == orig[bucket_index(p.0, old_cap as nat)].content()[p]
                    } by {
                    lemma_split_lands(p.0, k);
                    if x == i {
                        assert(keep_bit(b.content(), old_cap as u64, false).contains_key(p));
                        assert(b.content().contains_key(p));
                        assert(bucket_index(p.0, old_cap as nat) == i);
                        assert(keys.contains(p));
                    } else if x == i + old_cap {
                        assert(keep_bit(b.content(), old_cap as u64, true).contains_key(p));
                        assert(b.content().contains_key(p));
                        assert(bucket_index(p.0, old_cap as nat) == i);
                        assert(keys.contains(p));
                    } else {
                        assert(new_tab@[x] == before[x]);
                    }
                }
                assert forall|p: (u64, K)|
                    #[trigger] keys.contains(p) && bucket_index(p.0, old_cap as nat) < i + 1 implies new_tab@[bucket_index(
                        p.0,
                        capacity as nat,
                    )].content().contains_key(p) by {
                    lemma_split_lands(p.0, k);
                    if bucket_index(p.0, old_cap as nat) == i {
                        assert(b.content().contains_key(p));
                    } else {
                        assert(before[bucket_index(p.0, capacity as nat)].content().contains_key(p));
                    }
                }
            }
            i = i + 1;
        }
        self.tab = new_tab;
        proof {
            assert((capacity as u64) * (self.load_num as u64) <= 0x8000_0000u64 * 0xffff_ffffu64) by (nonlinear_arith)
                requires
                    capacity <= 0x8000_0000,
                    self.load_num <= 0xffff_ffffu32,
            ;
        }
        self.threshold = (capacity as u64) * (self.load_num as u64) / (self.load_den as u64);
        self.exp = Ghost(new_exp);
        proof {
            assert forall|p: (u64, K)| #[trigger]
                self.keys@.contains(p) <==> self.tab@.len() > 0 && self.tab@[bucket_index(
                    p.0,
                    self.tab@.len(),
                )].content().contains_key(p) by {
                if old_cap > 0 {
                    lemma_split_lands(p.0, k);
                } else {
                    lemma_split_lands(p.0, new_exp);
                }
            }
            assert forall|p: (u64, K)| #[trigger] self@.contains_key(p) implies self@[p] == old(self)@[p] by {
                if old_cap > 0 {
                    lemma_split_lands(p.0, k);
                } else {
                    lemma_split_lands(p.0, new_exp);
                }
            }
            assert(self@ =~= old(self)@);
        }
    }

    /// The value stored for `(hash, key)`.  The table must have been sized.
    pub fn get(&self, hash: u64, key: &K) -> (r: Option<&V>)
        where
            K: Eq,
        requires
            key_eq_is_equality::<K>(),
            self.wf(),
            self.capacity() > 0,
        ensures
            r is Some <==> self@.contains_key((hash, *key)),
            r matches Some(v) ==> *v == self@[(hash, *key)],
    {
        let idx = self.index_of(hash);
        self.tab[idx].get(hash, key)
    }

    /// The stored key and value for `(hash, key)`, the value to change in place.  The
    /// table must have been sized.
    pub fn get_key_value_mut(&mut self, hash: u64, key: &K) -> (r: Option<(&K, &mut V)>)
        where
            K: Eq,
        requires
            key_eq_is_equality::<K>(),
            old(self).wf(),
            old(self).capacity() > 0,
        ensures
            final(self).wf(),
            final(self).capacity() == old(self).capacity(),
            r is Some <==> old(self)@.contains_key((hash, *key)),
            r is None ==> final(self)@ == old(self)@,
            r matches Some(e) ==> *e.0 == *key && *e.1 == old(self)@[(hash, *key)] && final(self)@ == old(self)@.insert((hash, *key), *final(e.1)),
    {
        let idx = self.index_of(hash);
        let ghost tab0 = self.tab@;
        let b = &mut self.tab[idx];
        let ghost fb = *final(b);
        let ghost b0 = *b;
        let r = b.get_key_value_mut(hash, key);
        proof {
            let t1 = after_borrow(self.tab)@;
            assert(t1 == tab0.update(idx as int, fb));
            assert(b0 == tab0[idx as int]);
            assert(fb.content().dom() =~= b0.content().dom());
            assert forall|x: int| 0 <= x < t1.len() implies (#[trigger] t1[x]).wf() by {
                if x != idx {
                    assert(t1[x] == tab0[x]);
                }
            }
            assert forall|x: int, q: (u64, K)|
                0 <= x < t1.len() && #[trigger] t1[x].content().contains_key(q) implies bucket_index(
                q.0,
                t1.len(),
            ) == x by {
                if x == idx {
                    assert(b0.content().dom().contains(q));
                } else {
                    assert(t1[x] == tab0[x]);
                }
            }
            assert forall|q: (u64, K)| #[trigger]
                self.keys@.contains(q) <==> t1.len() > 0 && t1[bucket_index(q.0, t1.len())].content().contains_key(
                    q,
                ) by {
                lemma_split_lands(q.0, self.exp@);
                if bucket_index(q.0, t1.len()) == idx {
                    assert(fb.content().dom().contains(q) == b0.content().dom().contains(q));
                } else {
                    assert(t1[bucket_index(q.0, t1.len())] == tab0[bucket_index(q.0, t1.len())]);
                }
            }
            let m1 = Map::new(
                |q: (u64, K)| self.keys@.contains(q),
                |q: (u64, K)| t1[bucket_index(q.0, t1.len())].content()[q],
            );
            assert forall|q: (u64, K)| #[trigger] m1.contains_key(q) && q != (hash, *key) implies m1[q]
                == old(self)@[q] by {
                lemma_split_lands(q.0, self.exp@);
                if bucket_index(q.0, t1.len()) != idx {
                    assert(t1[bucket_index(q.0, t1.len())] == tab0[bucket_index(q.0, t1.len())]);
                }
            }
            if r is Some {
                assert(m1 =~= old(self)@.insert((hash, *key), *final(r.unwrap().1)));
            } else {
                assert(m1 =~= old(self)@);
            }
        }
        r
    }

    /// The value stored for `(hash, key)`, to change in place.  The table must have
    /// been sized.
    pub fn get_mut(&mut self, hash: u64, key: &K) -> (r: Option<&mut V>)
        where
            K: Eq,
        requires
            key_eq_is_equality::<K>(),
            old(self).wf(),
            old(self).capacity() > 0,
        ensures
            final(self).wf(),
            final(self).capacity() == old(self).capacity(),
            r is Some <==> old(self)@.contains_key((hash, *key)),
            r is None ==> final(self)@ == old(self)@,
            r matches Some(v) ==> *v == old(self)@[(hash, *key)] && final(self)@ == old(self)@.insert(
                (hash, *key),
                *final(v),
            ),
    {
        match self.get_key_value_mut(hash, key) {
            Some(e) => Some(e.1),
            None => None,
        }
    }

    /// Whether `(hash, key)` is stored.  The table must have been sized.
    pub fn contains_key(&self, hash: u64, key: &K) -> (r: bool)
        where
            K: Eq,
        requires
            key_eq_is_equality::<K>(),
            self.wf(),
            self.capacity() > 0,
        ensures
            r == self@.contains_key((hash, *key)),
    {
        self.get(hash, key).is_some()
    }

    /// Stores a new entry for `(hash, key)`, sizing or doubling the table first if it
    /// needs room, and hands out its key and value.
    pub fn add_node(&mut self, hash: u64, key: K, value: V) -> (r: (&K, &mut V))
        requires
            old(self).wf(),
            !old(self)@.contains_key((hash, key)),
            old(self)@.len() < usize::MAX,
        ensures
            *r.0 == key,
            *r.1 == value,
            final(self).wf(),
            final(self).capacity() > 0,
            final(self)@ == old(self)@.insert((hash, key), *final(r.1)),
    {
        self.reserve(1);
        let ghost p = (hash, key);
        let ghost m0 = self@;
        let idx = self.index_of(hash);
        proof {
            assert(self@.dom() =~= self.keys@);
            assert(!self.keys@.contains(p));
        }
        self.keys = Ghost(self.keys@.insert(p));
        let ghost tab0 = self.tab@;
        let b = &mut self.tab[idx];
        let ghost fb = *final(b);
        let ghost b0 = *b;
        let r = b.add_node(hash, key, value, &mut self.allocator);
        proof {
            let t1 = after_borrow(self.tab)@;
            assert(t1 == tab0.update(idx as int, fb));
            assert(b0 == tab0[idx as int]);
            assert forall|x: int| 0 <= x < t1.len() implies (#[trigger] t1[x]).wf() by {
                if x != idx {
                    assert(t1[x] == tab0[x]);
                }
            }
            assert forall|x: int, q: (u64, K)|
                0 <= x < t1.len() && #[trigger] t1[x].content().contains_key(q) implies bucket_index(
                q.0,
                t1.len(),
            ) == x by {
                if x == idx {
                    if q != p {
                        assert(b0.content().contains_key(q));
                    }
                } else {
                    assert(t1[x] == tab0[x]);
                }
            }
            assert forall|q: (u64, K)| #[trigger]
                self.keys@.contains(q) <==> t1.len() > 0 && t1[bucket_index(q.0, t1.len())].content().contains_key(
                    q,
                ) by {
                lemma_split_lands(q.0, self.exp@);
                if bucket_index(q.0, t1.len()) != idx {
                    assert(t1[bucket_index(q.0, t1.len())] == tab0[bucket_index(q.0, t1.len())]);
                }
            }
            let m1 = Map::new(
                |q: (u64, K)| self.keys@.contains(q),
                |q: (u64, K)| t1[bucket_index(q.0, t1.len())].content()[q],
            );
            assert forall|q: (u64, K)| #[trigger] m1.contains_key(q) && q != p implies m1[q] == m0[q] by {
                lemma_split_lands(q.0, self.exp@);
                if bucket_index(q.0, t1.len()) != idx {
                    assert(t1[bucket_index(q.0, t1.len())] == tab0[bucket_index(q.0, t1.len())]);
                }
            }
            assert(m1 =~= m0.insert(p, *final(r.1)));
        }
        r
    }

    /// Stores `value` for `(hash, key)`, sizing or doubling the table first if it needs
    /// room, and returns the value replaced.
    pub fn put(&mut self, hash: u64, key: K, value: V) -> (r: Option<V>)
        where
            K: Eq,
        requires
            key_eq_is_equality::<K>(),
            old(self).wf(),
            old(self)@.len() < usize::MAX,
        ensures
            final(self).wf(),
            final(self).capacity() > 0,
            final(self)@ == old(self)@.insert((hash, key), value),
            r is Some <==> old(self)@.contains_key((hash, key)),
            r matches Some(v) ==> v == old(self)@[(hash, key)],
    {
        self.reserve(1);
        let ghost p = (hash, key);
        let ghost m0 = self@;
        let ghost tab0 = self.tab@;
        let idx = self.index_of(hash);
        proof {
            assert(self@.dom() =~= self.keys@);
            assert(self.keys@.contains(p) == tab0[idx as int].content().contains_key(p));
        }
        let mut b = Bucket::new_list();
        self.tab.set_and_swap(idx, &mut b);
        let ghost b0 = b;
        let r = b.write(hash, key, value, &mut self.allocator);
        let ghost b1 = b;
        self.tab.set_and_swap(idx, &mut b);
        self.keys = Ghost(self.keys@.insert(p));
        proof {
            let t1 = self.tab@;
            assert(t1 =~= tab0.update(idx as int, b1));
            assert(b0 == tab0[idx as int]);
            assert forall|x: int| 0 <= x < t1.len() implies (#[trigger] t1[x]).wf() by {
                if x != idx {
                    assert(t1[x] == tab0[x]);
                }
            }
            assert forall|x: int, q: (u64, K)|
                0 <= x < t1.len() && #[trigger] t1[x].content().contains_key(q) implies bucket_index(
                q.0,
                t1.len(),
            ) == x by {
                if x == idx {
                    if q != p {
                        assert(b0.content().contains_key(q));
                    }
                } else {
                    assert(t1[x] == tab0[x]);
                }
            }
            assert forall|q: (u64, K)| #[trigger]
                self.keys@.contains(q) <==> t1.len() > 0 && t1[bucket_index(q.0, t1.len())].content().contains_key(
                    q,
                ) by {
                lemma_split_lands(q.0, self.exp@);
                if bucket_index(q.0, t1.len()) == idx {
                } else {
                    assert(t1[bucket_index(q.0, t1.len())] == tab0[bucket_index(q.0, t1.len())]);
                }
            }
            assert forall|q: (u64, K)| #[trigger] self@.contains_key(q) implies self@[q] == m0.insert(p, value)[q] by {
                lemma_split_lands(q.0, self.exp@);
                if bucket_index(q.0, t1.len()) != idx {
                    assert(t1[bucket_index(q.0, t1.len())] == tab0[bucket_index(q.0, t1.len())]);
                }
            }
            assert(self@ =~= m0.insert(p, value));
        }
        r
    }

    /// Unlinks the entry for `(hash, key)` and returns its value.  The table must have
    /// been sized.
    pub fn remove(&mut self, hash: u64, key: &K) -> (r: Option<V>)
        where
            K: Eq,
        requires
            key_eq_is_equality::<K>(),
            old(self).wf(),
            old(self).capacity() > 0,
        ensures
            final(self).wf(),
            final(self).capacity() == old(self).capacity(),
            final(self)@ == old(self)@.remove((hash, *key)),
            r is Some <==> old(self)@.contains_key((hash, *key)),
            r matches Some(v) ==> v == old(self)@[(hash, *key)],
    {
        let ghost p = (hash, *key);
        let ghost tab0 = self.tab@;
        let idx = self.index_of(hash);
        proof {
            if self.keys@.contains(p) {
                assert(self.keys@.len() > 0);
            }
            assert(self.keys@.contains(p) == tab0[idx as int].content().contains_key(p));
        }
        let mut b = Bucket::new_list();
        self.tab.set_and_swap(idx, &mut b);
        let ghost b0 = b;
        let r = b.remove(hash, key, &mut self.allocator);
        let ghost b1 = b;
        self.tab.set_and_swap(idx, &mut b);
        self.keys = Ghost(self.keys@.remove(p));
        proof {
            let t1 = self.tab@;
            assert(t1 =~= tab0.update(idx as int, b1));
            assert(b0 == tab0[idx as int]);
            assert forall|x: int| 0 <= x < t1.len() implies (#[trigger] t1[x]).wf() by {
                if x != idx {
                    assert(t1[x] == tab0[x]);
                }
            }
            assert forall|x: int, q: (u64, K)|
                0 <= x < t1.len() && #[trigger] t1[x].content().contains_key(q) implies bucket_index(
                q.0,
                t1.len(),
            ) == x by {
                if x == idx {
                    assert(b0.content().contains_key(q));
                } else {
                    assert(t1[x] == tab0[x]);
                }
            }
            assert forall|q: (u64, K)| #[trigger]
                self.keys@.contains(q) <==> t1.len() > 0 && t1[bucket_index(q.0, t1.len())].content().contains_key(
                    q,
                ) by {
                lemma_split_lands(q.0, self.exp@);
                if bucket_index(q.0, t1.len()) != idx {
                    assert(t1[bucket_index(q.0, t1.len())] == tab0[bucket_index(q.0, t1.len())]);
                }
            }
            assert forall|q: (u64, K)| #[trigger] self@.contains_key(q) implies self@[q] == old(self)@.remove(p)[q] by {
                lemma_split_lands(q.0, self.exp@);
                if bucket_index(q.0, t1.len()) != idx {
                    assert(t1[bucket_index(q.0, t1.len())] == tab0[bucket_index(q.0, t1.len())]);
                }
            }
            assert(self@ =~= old(self)@.remove(p));
        }
        r
    }

    /// Calls `f` on every entry, bucket by bucket; `f` may change the values, not
    /// the keys.
    pub fn foreach<F: Fn(&K, &mut V)>(&mut self, f: &F)
        requires
            old(self).wf(),
            forall|k: &K, v: &mut V| f.requires((k, v)),
        ensures
            final(self).wf(),
            final(self)@.dom() == old(self)@.dom(),
            final(self).capacity() == old(self).capacity(),
    {
        let n = self.tab.len();
        let mut i: usize = 0;
        while i < n
            invariant
                forall|k: &K, v: &mut V| f.requires((k, v)),
                self.wf(),
                self.keys@ == old(self).keys@,
                self.tab@.len() == n,
                n == old(self).tab@.len(),
                i <= n,
            decreases n - i,
        {
            let ghost tab0 = self.tab@;
            let mut b = Bucket::new_list();
            self.tab.set_and_swap(i, &mut b);
            let ghost b0 = b;
            b.foreach(f);
            let ghost b1 = b;
            self.tab.set_and_swap(i, &mut b);
            proof {
                let t1 = self.tab@;
                assert(t1 =~= tab0.update(i as int, b1));
                assert(b0 == tab0[i as int]);
                assert forall|x: int| 0 <= x < t1.len() implies (#[trigger] t1[x]).wf() by {
                    if x != i {
                        assert(t1[x] == tab0[x]);
                    }
                }
                assert forall|x: int, q: (u64, K)|
                    0 <= x < t1.len() && #[trigger] t1[x].content().contains_key(q) implies bucket_index(
                    q.0,
                    t1.len(),
                ) == x by {
                    if x == i {
                        assert(b1.content().dom().contains(q));
                        assert(b0.content().contains_key(q));
                    } else {
                        assert(t1[x] == tab0[x]);
                    }
                }
                assert forall|q: (u64, K)| #[trigger]
                    self.keys@.contains(q) <==> t1.len() > 0 && t1[bucket_index(q.0, t1.len())].content().contains_key(
                        q,
                    ) by {
                    lemma_split_lands(q.0, self.exp@);
                    if bucket_index(q.0, t1.len()) != i {
                        assert(t1[bucket_index(q.0, t1.len())] == tab0[bucket_index(q.0, t1.len())]);
                    } else {
                        assert(b1.content().dom().contains(q) == b0.content().dom().contains(q));
                    }
                }
            }
            i = i + 1;
        }
        proof {
            assert(self@.dom() =~= old(self)@.dom());
        }
    }

    /// Borrows every key and value, bucket by bucket in slot order: each stored pair
    /// once.
    pub fn iter(&self) -> (r: Vec<(&K, &V)>)
        requires
            self.wf(),
        ensures
            exists|t: Seq<(u64, &K, &V)>| #[trigger] pairs_of(t) == r@ && lists_exactly(t, self@),
    {
        let mut out: Vec<(u64, &K, &V)> = Vec::new();
        let ghost m = self@;
        let ghost len = self.tab@.len();
        let mut i: usize = 0;
        proof {
            assert(Map::new(|p: (u64, K)| m.contains_key(p) && bucket_index(p.0, len) < 0, |p: (u64, K)| m[p])
                =~= Map::<(u64, K), V>::empty());
        }
        while i < self.tab.len()
            invariant
                self.wf(),
                m == self@,
                len == self.tab@.len(),
                i <= len,
                lists_exactly(out@, Map::new(|p: (u64, K)| m.contains_key(p) && bucket_index(p.0, len) < i, |p: (u64, K)| m[p])),
            decreases len - i,
        {
            let ghost before = out@;
            let ghost part = Map::new(|p: (u64, K)| m.contains_key(p) && bucket_index(p.0, len) < i, |p: (u64, K)| m[p]);
            let ghost next = Map::new(|p: (u64, K)| m.contains_key(p) && bucket_index(p.0, len) < i + 1, |p: (u64, K)| m[p]);
            let ghost b = self.tab@[i as int];
            self.tab[i].collect(&mut out);
            proof {
                let seg = out@.subrange(before.len() as int, out@.len() as int);
                assert(out@ =~= before + seg);
                assert forall|p: (u64, K)| #[trigger] b.content().contains_key(p) implies bucket_index(p.0, len) == i
                    && m.contains_key(p) && m[p] == b.content()[p] by {
                    assert(self.tab@[i as int].content().contains_key(p));
                }
                assert forall|p: (u64, K)| #[trigger] part.contains_key(p) implies !b.content().contains_key(p) by {}
                lemma_lists_exactly_concat(before, seg, part, b.content());
                assert forall|p: (u64, K)| #[trigger] next.contains_key(p) <==> part.union_prefer_right(b.content()).contains_key(p) by {
                    if next.contains_key(p) && bucket_index(p.0, len) == i {
                        assert(self.keys@.contains(p));
                    }
                }
                assert(next =~= part.union_prefer_right(b.content()));
            }
            i = i + 1;
        }
        proof {
            assert forall|p: (u64, K)| #[trigger] m.contains_key(p) implies bucket_index(p.0, len) < len by {
                lemma_split_lands(p.0, self.exp@);
            }
            assert(Map::new(|p: (u64, K)| m.contains_key(p) && bucket_index(p.0, len) < len, |p: (u64, K)| m[p]) =~= m);
        }
        pairs_from(out)
    }

    /// The slot `hash` falls in.
    fn index_of(&self, hash: u64) -> (r: usize)
        requires
            self.wf(),
            self.tab@.len() > 0,
        ensures
            r == bucket_index(hash, self.tab@.len()),
            r < self.tab@.len(),
    {
        proof {
            lemma_split_lands(hash, self.exp@);
        }
        let mask = (self.tab.len() - 1) as u64;
        (hash & mask) as usize
    }
}

} // verus!
