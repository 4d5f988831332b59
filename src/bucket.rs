use crate::allocator::Allocator;
use crate::list_bucket::{
    key_eq_is_equality, keep_bit, lists_exactly, pairs_from, pairs_of, EntryNode, ListBucket, MAX_LIST_LENGTH,
};
use crate::tree_bucket::TreeBucket;
use vstd::prelude::*;

verus! {

/// A half of a split tree bucket holding no more than this many entries becomes a chain.
pub const MIN_TREE_LENGTH: usize = 6;

/// The two forms a bucket takes.
pub enum BucketEnum<K, V> {
    List(ListBucket<K, V>),
    Tree(TreeBucket<K, V>),
}

/// One slot of a table: a chain, or a tree once the chain has grown too long.
pub struct Bucket<K, V> {
    pub bucket: BucketEnum<K, V>,
}

impl<K, V> Bucket<K, V> {
    pub open spec fn wf(&self) -> bool {
        match self.bucket {
            BucketEnum::List(l) => l.wf(),
            BucketEnum::Tree(t) => t.wf(),
        }
    }

    /// The pairs the bucket stores, with their values.
    pub open spec fn content(&self) -> Map<(u64, K), V> {
        match self.bucket {
            BucketEnum::List(l) => l.content(),
            BucketEnum::Tree(t) => t.content(),
        }
    }

    /// The bucket is held as a tree.
    pub open spec fn is_tree(&self) -> bool {
        self.bucket is Tree
    }

    /// The chain, when the bucket is one.
    pub open spec fn list_view(&self) -> Seq<EntryNode<K, V>> {
        match self.bucket {
            BucketEnum::List(l) => l@,
            BucketEnum::Tree(_) => Seq::empty(),
        }
    }

    /// The length of the chain, when the bucket is one.
    pub open spec fn list_len(&self) -> nat {
        match self.bucket {
            BucketEnum::List(l) => l@.len(),
            BucketEnum::Tree(_) => 0,
        }
    }

    /// An empty chain.
    pub fn new_list() -> (r: Self)
        ensures
            r.wf(),
            !r.is_tree(),
            r.content() == Map::<(u64, K), V>::empty(),
    {
        let r = Bucket { bucket: BucketEnum::List(ListBucket::new()) };
        assert(r.content() =~= Map::<(u64, K), V>::empty());
        r
    }

    pub fn with_list(bucket: ListBucket<K, V>) -> (r: Self)
        ensures
            r.bucket == BucketEnum::List(bucket),
    {
        Bucket { bucket: BucketEnum::List(bucket) }
    }

    pub fn with_tree(bucket: TreeBucket<K, V>) -> (r: Self)
        ensures
            r.bucket == BucketEnum::Tree(bucket),
    {
        Bucket { bucket: BucketEnum::Tree(bucket) }
    }

    /// The bucket's current form.
    pub fn take(self) -> (r: BucketEnum<K, V>)
        ensures
            r == self.bucket,
    {
        self.bucket
    }

    /// Stores `value` for `(hash, key)` and returns the value replaced.  A chain that
    /// grows past `MAX_LIST_LENGTH` entries is turned into a tree.
    pub fn write(&mut self, hash: u64, key: K, value: V, allocator: &mut Allocator<EntryNode<K, V>>) -> (r:
        Option<V>)
        where
            K: Eq,
        requires
            key_eq_is_equality::<K>(),
            old(self).wf(),
            old(allocator).size < usize::MAX,
        ensures
            final(self).wf(),
            final(self).content() == old(self).content().insert((hash, key), value),
            r is Some <==> old(self).content().contains_key((hash, key)),
            r matches Some(v) ==> v == old(self).content()[(hash, key)],
            r is Some ==> final(allocator).size == old(allocator).size,
            r is None ==> final(allocator).size == old(allocator).size + 1,
            old(self).is_tree() ==> final(self).is_tree(),
            !old(self).is_tree() ==> (final(self).is_tree() <==> r is None && old(self).list_len()
                >= MAX_LIST_LENGTH),
            !final(self).is_tree() ==> final(self).list_len() == old(self).list_len() + if r is None {
                1nat
            } else {
                0nat
            },
    {
        match &mut self.bucket {
            BucketEnum::Tree(tree) => tree.write(hash, key, value, allocator),
            BucketEnum::List(list) => {
                let (too_long, replaced) = list.write(hash, key, value, allocator);
                if too_long {
                    let tree = list.convert_to_tree();
                    self.bucket = BucketEnum::Tree(tree);
                }
                replaced
            },
        }
    }

    /// Links a new node for `(hash, key)` in and hands out its key and value.  The
    /// chain is not turned into a tree here, however long it grows.
    pub fn add_node(
        &mut self,
        hash: u64,
        key: K,
        value: V,
        allocator: &mut Allocator<EntryNode<K, V>>,
    ) -> (r: (&K, &mut V))
        requires
            old(self).wf(),
            !old(self).content().contains_key((hash, key)),
            old(allocator).size < usize::MAX,
        ensures
            final(allocator).size == old(allocator).size + 1,
            *r.0 == key,
            *r.1 == value,
            final(self).wf(),
            final(self).content() == old(self).content().insert((hash, key), *final(r.1)),
    {
        match &mut self.bucket {
            BucketEnum::List(list) => {
                proof {
                    if crate::list_bucket::has_entry(list@, hash, key) {
                        let i = choose|i: int|
                            0 <= i < list@.len() && #[trigger] crate::list_bucket::node_is(list@[i], hash, key);
                        crate::list_bucket::lemma_entries_map_at(list@, i);
                    }
                }
                list.add_node(hash, key, value, allocator)
            },
            BucketEnum::Tree(tree) => tree.add_node(hash, key, value, allocator),
        }
    }

    /// Unlinks the entry for `(hash, key)` and returns its value.
    pub fn remove(&mut self, hash: u64, key: &K, allocator: &mut Allocator<EntryNode<K, V>>) -> (r:
        Option<V>)
        where
            K: Eq,
        requires
            key_eq_is_equality::<K>(),
            old(self).wf(),
            old(self).content().contains_key((hash, *key)) ==> old(allocator).size > 0,
        ensures
            final(self).wf(),
            final(self).content() == old(self).content().remove((hash, *key)),
            r is Some <==> old(self).content().contains_key((hash, *key)),
            r matches Some(v) ==> v == old(self).content()[(hash, *key)],
            r is Some ==> final(allocator).size == old(allocator).size - 1,
            r is None ==> final(allocator).size == old(allocator).size,
            final(self).is_tree() == old(self).is_tree(),
            !old(self).is_tree() && r is Some ==> exists|i: int|
                0 <= i < old(self).list_view().len() && #[trigger] crate::list_bucket::node_is(
                    old(self).list_view()[i],
                    hash,
                    *key,
                ) && final(self).list_view() == old(self).list_view().remove(i),
            r is None ==> final(self).list_view() == old(self).list_view(),
    {
        match &mut self.bucket {
            BucketEnum::List(list) => {
                let ghost l0 = *list;
                let r = list.remove(hash, key, allocator);
                proof {
                    if r is Some {
                        let i = choose|i: int|
                            0 <= i < l0@.len() && #[trigger] crate::list_bucket::node_is(l0@[i], hash, *key)
                                && list@ == l0@.remove(i);
                        assert(old(self).list_view() == l0@);
                        assert(crate::list_bucket::node_is(old(self).list_view()[i], hash, *key));
                    }
                }
                r
            },
            BucketEnum::Tree(tree) => tree.remove(hash, key, allocator),
        }
    }

    /// Links an existing node in, as a chain's new head or under its hash in the tree.
    pub fn push(&mut self, hash: u64, node: EntryNode<K, V>)
        requires
            old(self).wf(),
            node.hash == hash,
            !old(self).content().contains_key((hash, node.key)),
        ensures
            final(self).wf(),
            final(self).content() == old(self).content().insert((hash, node.key), node.value),
            final(self).is_tree() == old(self).is_tree(),
            !old(self).is_tree() ==> final(self).list_view() == seq![node] + old(self).list_view(),
    {
        match &mut self.bucket {
            BucketEnum::List(list) => {
                proof {
                    crate::list_bucket::lemma_entries_map_push(list@, node);
                }
                list.push(node);
            },
            BucketEnum::Tree(tree) => tree.push(hash, node),
        }
    }

    /// The value stored for `(hash, key)`.
    pub fn get(&self, hash: u64, key: &K) -> (r: Option<&V>)
        where
            K: Eq,
        requires
            key_eq_is_equality::<K>(),
            self.wf(),
        ensures
            r is Some <==> self.content().contains_key((hash, *key)),
            r matches Some(v) ==> *v == self.content()[(hash, *key)],
    {
        match &self.bucket {
            BucketEnum::List(list) => list.get(hash, key),
            BucketEnum::Tree(tree) => tree.get(hash, key),
        }
    }

    /// The stored key and value for `(hash, key)`, the value to change in place.
    pub fn get_key_value_mut(&mut self, hash: u64, key: &K) -> (r: Option<(&K, &mut V)>)
        where
            K: Eq,
        requires
            key_eq_is_equality::<K>(),
            old(self).wf(),
        ensures
            r is Some <==> old(self).content().contains_key((hash, *key)),
            r is None ==> final(self).wf() && final(self).content() == old(self).content(),
            r matches Some(e) ==> {
                &&& *e.0 == *key
                &&& *e.1 == old(self).content()[(hash, *key)]
                &&& final(self).wf()
                &&& final(self).content() == old(self).content().insert((hash, *key), *final(e.1))
            },
    {
        match &mut self.bucket {
            BucketEnum::List(list) => list.get_key_value_mut(hash, key),
            BucketEnum::Tree(tree) => tree.get_key_value_mut(hash, key),
        }
    }

    /// The value stored for `(hash, key)`, to change in place.
    pub fn get_mut(&mut self, hash: u64, key: &K) -> (r: Option<&mut V>)
        where
            K: Eq,
        requires
            key_eq_is_equality::<K>(),
            old(self).wf(),
        ensures
            r is Some <==> old(self).content().contains_key((hash, *key)),
            r is None ==> final(self).wf() && final(self).content() == old(self).content(),
            r matches Some(v) ==> {
                &&& *v == old(self).content()[(hash, *key)]
                &&& final(self).wf()
                &&& final(self).content() == old(self).content().insert((hash, *key), *final(v))
            },
    {
        match self.get_key_value_mut(hash, key) {
            Some(e) => Some(e.1),
            None => None,
        }
    }

    /// Calls `f` on every entry in place; `f` may change the values, not the keys.
    pub fn foreach<F: Fn(&K, &mut V)>(&mut self, f: &F)
        requires
            old(self).wf(),
            forall|k: &K, v: &mut V| f.requires((k, v)),
        ensures
            final(self).wf(),
            final(self).content().dom() == old(self).content().dom(),
            final(self).is_tree() == old(self).is_tree(),
    {
        match &mut self.bucket {
            BucketEnum::List(list) => {
                let ghost s0 = list@;
                list.foreach(f);
                proof {
                    crate::list_bucket::lemma_entries_map_same_keys(s0, list@);
                }
            },
            BucketEnum::Tree(tree) => tree.foreach(f),
        }
    }

    /// Appends every entry's hash and borrows of its key and value to `out`: a chain
    /// from its head, a tree by hash in ascending order.
    pub fn collect<'a>(&'a self, out: &mut Vec<(u64, &'a K, &'a V)>)
        requires
            self.wf(),
        ensures
            final(out)@.len() >= old(out)@.len(),
            final(out)@.subrange(0, old(out)@.len() as int) == old(out)@,
            lists_exactly(final(out)@.subrange(old(out)@.len() as int, final(out)@.len() as int), self.content()),
    {
        match &self.bucket {
            BucketEnum::List(list) => list.collect(out),
            BucketEnum::Tree(tree) => tree.collect(out),
        }
    }

    /// Borrows every key and value, in the order `collect` gives: each stored pair once.
    pub fn iter(&self) -> (r: Vec<(&K, &V)>)
        requires
            self.wf(),
        ensures
            exists|t: Seq<(u64, &K, &V)>| #[trigger] pairs_of(t) == r@ && lists_exactly(t, self.content()),
    {
        let mut out: Vec<(u64, &K, &V)> = Vec::new();
        self.collect(&mut out);
        assert(out@.subrange(0, out@.len() as int) == out@);
        pairs_from(out)
    }

    /// Splits the bucket by bit `bit` of each entry's hash: the entries where it is
    /// clear, then those where it is set.  A chain splits into two chains, in order; a
    /// tree splits as `TreeBucket::split_transfer` does.
    pub fn split(self, bit: u64) -> (r: (Bucket<K, V>, Bucket<K, V>))
        requires
            self.wf(),
        ensures
            r.0.wf(),
            r.1.wf(),
            r.0.content() == keep_bit(self.content(), bit, false),
            r.1.content() == keep_bit(self.content(), bit, true),
            !self.is_tree() ==> !r.0.is_tree() && !r.1.is_tree(),
            self.is_tree() ==> r.0.is_tree() == (r.0.content().len() > MIN_TREE_LENGTH),
            self.is_tree() ==> r.1.is_tree() == (r.1.content().len() > MIN_TREE_LENGTH),
    {
        match self.bucket {
            BucketEnum::List(list) => {
                let (lo, hi) = list.split(bit);
                (Bucket::with_list(lo), Bucket::with_list(hi))
            },
            BucketEnum::Tree(tree) => tree.split_transfer(bit),
        }
    }
}

} // verus!
