use crate::allocator::Allocator;
use crate::bucket::{Bucket, MIN_TREE_LENGTH};
use crate::list_bucket::{
    lemma_lists_exactly_concat, lists_exactly, pairs_from, pairs_of, keep_bit, all_hashed, entries_map, has_entry, key_eq_is_equality, lemma_entries_map_at, lemma_entries_map_concat,
    lemma_entries_map_push, lemma_entries_map_push_back, node_is, unique_entries, EntryNode, ListBucket,
};
use crate::rbtree::{
    black_height, bst, deref_pairs, inorder, is_red, key_order_is_total, lemma_inorder, lt,
    red_black, tree_map, RBTree, TreeNode,
};
use vstd::prelude::*;

verus! {

/// Hashes, compared as `u64`s, are totally ordered.
pub proof fn lemma_hash_order()
    ensures
        key_order_is_total::<u64>(),
{
    broadcast use vstd::laws_cmp::group_laws_cmp;

}

/// Two chains hold the same pairs in the same places; only values may differ.
pub open spec fn same_chain<K, V>(s1: Seq<EntryNode<K, V>>, s2: Seq<EntryNode<K, V>>) -> bool {
    &&& s2.len() == s1.len()
    &&& forall|j: int| 0 <= j < s1.len() ==> (#[trigger] s2[j]).hash == s1[j].hash && s2[j].key == s1[j].key
}

/// Two subtrees of chains have the same shape, keys and colors, and their chains hold
/// the same pairs in the same places; only values may differ.
pub open spec fn same_layout<K, V>(
    t1: Option<Box<TreeNode<u64, ListBucket<K, V>>>>,
    t2: Option<Box<TreeNode<u64, ListBucket<K, V>>>>,
) -> bool
    decreases t1,
{
    match t1 {
        None => t2 is None,
        Some(a) => match t2 {
            None => false,
            Some(b) => {
                &&& a.key == b.key
                &&& a.is_red == b.is_red
                &&& same_chain(a.value@, b.value@)
                &&& same_layout(a.left, b.left)
                &&& same_layout(a.right, b.right)
            },
        },
    }
}

/// Subtrees of the same layout map the same hashes to chains of the same pairs, and
/// are search trees and red-black trees alike.
pub proof fn lemma_same_layout<K, V>(
    t1: Option<Box<TreeNode<u64, ListBucket<K, V>>>>,
    t2: Option<Box<TreeNode<u64, ListBucket<K, V>>>>,
)
    requires
        same_layout(t1, t2),
    ensures
        tree_map(t2).dom() == tree_map(t1).dom(),
        forall|h: u64| #[trigger]
            tree_map(t1).contains_key(h) ==> same_chain(tree_map(t1)[h]@, tree_map(t2)[h]@),
        bst(t2) == bst(t1),
        red_black(t2) == red_black(t1),
        black_height(t2) == black_height(t1),
        is_red(t2) == is_red(t1),
    decreases t1,
{
    match t1 {
        None => {},
        Some(a) => {
            let b = t2.unwrap();
            lemma_same_layout(a.left, b.left);
            lemma_same_layout(a.right, b.right);
            assert(tree_map(t2).dom() =~= tree_map(t1).dom());
            assert forall|h: u64| #[trigger]
                tree_map(t1).contains_key(h) implies same_chain(tree_map(t1)[h]@, tree_map(t2)[h]@) by {
                if h != a.key && !tree_map(a.right).contains_key(h) {
                    assert(tree_map(a.left).contains_key(h));
                }
            }
        },
    }
}

/// Calls `f` on every entry of every chain below `link`, in place.
fn foreach_link<K, V, F: Fn(&K, &mut V)>(link: &mut Option<Box<TreeNode<u64, ListBucket<K, V>>>>, f: &F)
    requires
        forall|k: &K, v: &mut V| f.requires((k, v)),
    ensures
        same_layout(*old(link), *final(link)),
    decreases *old(link),
{
    match link {
        None => {},
        Some(node) => {
            foreach_link(&mut node.left, f);
            node.value.foreach(f);
            foreach_link(&mut node.right, f);
        },
    }
}

/// The pairs stored in a sequence of chains, each chain filed under its hash.
pub open spec fn chains_content<K, V>(ps: Seq<(u64, ListBucket<K, V>)>) -> Map<(u64, K), V> {
    Map::new(
        |p: (u64, K)| exists|i: int| 0 <= i < ps.len() && #[trigger] ps[i].1.content().contains_key(p),
        |p: (u64, K)| ps[choose|i: int| 0 <= i < ps.len() && #[trigger] ps[i].1.content().contains_key(p)].1.content()[p],
    )
}

/// Chains filed under distinct hashes, each repeating no pair and holding only
/// entries with the hash it is filed under.
pub open spec fn chains_wf<K, V>(ps: Seq<(u64, ListBucket<K, V>)>) -> bool {
    &&& forall|i: int| 0 <= i < ps.len() ==> (#[trigger] ps[i]).1.wf() && all_hashed(ps[i].1@, ps[i].0)
    &&& forall|i: int, j: int| 0 <= i < ps.len() && 0 <= j < ps.len() && i != j ==> #[trigger] ps[i].0 != #[trigger] ps[j].0
}

/// A pair a chain stores has the chain's hash.
proof fn lemma_chain_pair_hash<K, V>(c: ListBucket<K, V>, h: u64, p: (u64, K))
    requires
        all_hashed(c@, h),
        c.content().contains_key(p),
    ensures
        p.0 == h,
{
    let i = choose|i: int| 0 <= i < c@.len() && #[trigger] node_is(c@[i], p.0, p.1);
    assert(c@[i].hash == h);
}

/// Putting a chain in front of others adds exactly its pairs.
proof fn lemma_chains_content_cons<K, V>(x: (u64, ListBucket<K, V>), ps: Seq<(u64, ListBucket<K, V>)>)
    requires
        chains_wf(seq![x] + ps),
    ensures
        chains_wf(ps),
        chains_content(seq![x] + ps) == x.1.content().union_prefer_right(chains_content(ps)),
        forall|p: (u64, K)| #[trigger] x.1.content().contains_key(p) ==> p.0 == x.0 && !chains_content(ps).contains_key(p),
{
    let all = seq![x] + ps;
    assert forall|i: int| 0 <= i < ps.len() implies (#[trigger] ps[i]).1.wf() && all_hashed(ps[i].1@, ps[i].0) by {
        assert(ps[i] == all[i + 1]);
    }
    assert forall|i: int, j: int| 0 <= i < ps.len() && 0 <= j < ps.len() && i != j implies #[trigger] ps[i].0 != #[trigger] ps[j].0 by {
        assert(ps[i] == all[i + 1] && ps[j] == all[j + 1]);
    }
    assert(all[0] == x);
    assert forall|p: (u64, K)| #[trigger] x.1.content().contains_key(p) implies p.0 == x.0 && !chains_content(ps).contains_key(p) by {
        lemma_chain_pair_hash(x.1, x.0, p);
        if chains_content(ps).contains_key(p) {
            let i = choose|i: int| 0 <= i < ps.len() && #[trigger] ps[i].1.content().contains_key(p);
            assert(ps[i] == all[i + 1]);
            lemma_chain_pair_hash(ps[i].1, ps[i].0, p);
        }
    }
    let m1 = chains_content(all);
    let m2 = x.1.content().union_prefer_right(chains_content(ps));
    assert forall|p: (u64, K)| m1.contains_key(p) <==> m2.contains_key(p) by {
        if x.1.content().contains_key(p) {
            assert(all[0].1.content().contains_key(p));
        }
        if chains_content(ps).contains_key(p) {
            let i = choose|i: int| 0 <= i < ps.len() && #[trigger] ps[i].1.content().contains_key(p);
            assert(all[i + 1].1.content().contains_key(p));
        }
        if m1.contains_key(p) {
            let i = choose|i: int| 0 <= i < all.len() && #[trigger] all[i].1.content().contains_key(p);
            if i > 0 {
                assert(ps[i - 1] == all[i]);
                assert(ps[i - 1].1.content().contains_key(p));
            }
        }
    }
    assert forall|p: (u64, K)| m1.contains_key(p) implies m1[p] == m2[p] by {
        let i = choose|i: int| 0 <= i < all.len() && #[trigger] all[i].1.content().contains_key(p);
        lemma_chain_pair_hash(all[i].1, all[i].0, p);
        if i == 0 {
            assert(!chains_content(ps).contains_key(p));
        } else {
            assert(ps[i - 1] == all[i]);
            assert(ps[i - 1].1.content().contains_key(p));
            let j = choose|j: int| 0 <= j < ps.len() && #[trigger] ps[j].1.content().contains_key(p);
            lemma_chain_pair_hash(ps[j].1, ps[j].0, p);
            assert(ps[j] == all[j + 1]);
            if j + 1 != i {
                assert(all[j + 1].0 != all[i].0);
            }
            if x.1.content().contains_key(p) {
                lemma_chain_pair_hash(x.1, x.0, p);
                assert(all[0].0 != all[i].0);
            }
        }
    }
    assert(m1 =~= m2);
}

/// Joins a sequence of chains into one chain.
pub fn chains_into_list<K, V>(ps: Vec<(u64, ListBucket<K, V>)>) -> (r: ListBucket<K, V>)
    requires
        chains_wf(ps@),
    ensures
        r.wf(),
        r.content() == chains_content(ps@),
{
    let ghost all = ps@;
    let mut rest = ps;
    let mut out: ListBucket<K, V> = ListBucket::new();
    proof {
        assert(all.subrange(all.len() as int, all.len() as int) =~= Seq::<(u64, ListBucket<K, V>)>::empty());
        assert(chains_content(Seq::<(u64, ListBucket<K, V>)>::empty()) =~= out.content());
    }
    while rest.len() > 0
        invariant
            chains_wf(all),
            rest@.len() <= all.len(),
            rest@ == all.subrange(0, rest@.len() as int),
            out.wf(),
            out.content() == chains_content(all.subrange(rest@.len() as int, all.len() as int)),
            forall|i: int|
                0 <= i < out@.len() ==> exists|j: int|
                    rest@.len() <= j < all.len() && #[trigger] all[j].0 == (#[trigger] out@[i]).hash,
        decreases rest@.len(),
    {
        let ghost m = rest@.len() as int;
        let ghost pre = rest@;
        let x = rest.pop().unwrap();
        proof {
            assert(pre == rest@.push(x));
            assert(all[m - 1] == x);
            assert(all.subrange(m - 1, all.len() as int) == seq![x] + all.subrange(m, all.len() as int));
            lemma_chains_content_cons(x, all.subrange(m, all.len() as int));
            assert(all[m - 1].1.wf() && all_hashed(x.1@, x.0));
            assert forall|i: int, j: int| 0 <= i < x.1@.len() && 0 <= j < out@.len() implies #[trigger] x.1@[i].hash
                != #[trigger] out@[j].hash by {
                let k = choose|k: int| m <= k < all.len() && #[trigger] all[k].0 == out@[j].hash;
                assert(all[k].0 != all[m - 1].0);
            }
            lemma_entries_map_concat(x.1@, out@);
        }
        let ghost out0 = out;
        out.merge(x.1);
        proof {
            assert(out@ == x.1@ + out0@);
            assert(out.content() =~= chains_content(all.subrange(m - 1, all.len() as int)));
            assert forall|i: int| 0 <= i < out@.len() implies exists|j: int|
                m - 1 <= j < all.len() && #[trigger] all[j].0 == (#[trigger] out@[i]).hash by {
                if i < x.1@.len() {
                    assert(all[m - 1].0 == out@[i].hash);
                } else {
                    assert(out@[i] == out0@[i - x.1@.len()]);
                }
            }
        }
    }
    proof {
        assert(all.subrange(0, all.len() as int) == all);
    }
    out
}

/// Builds a tree bucket from a sequence of chains, filing each under its hash.
pub fn chains_into_tree<K, V>(ps: Vec<(u64, ListBucket<K, V>)>) -> (r: TreeBucket<K, V>)
    requires
        chains_wf(ps@),
    ensures
        r.wf(),
        r.content() == chains_content(ps@),
{
    proof {
        lemma_hash_order();
    }
    let ghost all = ps@;
    let mut rest = ps;
    let mut out: TreeBucket<K, V> = TreeBucket::new();
    proof {
        assert(chains_content(all.subrange(all.len() as int, all.len() as int)) =~= out.content());
    }
    while rest.len() > 0
        invariant
            key_order_is_total::<u64>(),
            chains_wf(all),
            rest@.len() <= all.len(),
            rest@ == all.subrange(0, rest@.len() as int),
            out.wf(),
            out.content() == chains_content(all.subrange(rest@.len() as int, all.len() as int)),
            forall|h: u64|
                #[trigger] out.tree@.contains_key(h) ==> exists|j: int| rest@.len() <= j < all.len() && #[trigger] all[j].0 == h,
        decreases rest@.len(),
    {
        let ghost m = rest@.len() as int;
        let ghost pre = rest@;
        let x = rest.pop().unwrap();
        proof {
            assert(pre == rest@.push(x));
            assert(all[m - 1] == x);
            assert(all.subrange(m - 1, all.len() as int) == seq![x] + all.subrange(m, all.len() as int));
            lemma_chains_content_cons(x, all.subrange(m, all.len() as int));
            assert(all[m - 1].1.wf() && all_hashed(x.1@, x.0));
            if out.tree@.contains_key(x.0) {
                let k = choose|k: int| m <= k < all.len() && #[trigger] all[k].0 == x.0;
                assert(all[k].0 != all[m - 1].0);
            }
        }
        let ghost out0 = out;
        out.tree.put(x.0, x.1);
        proof {
            assert(out.tree@ == out0.tree@.insert(x.0, x.1));
            assert forall|p: (u64, K)| #[trigger] out.content().contains_key(p) == chains_content(
                all.subrange(m - 1, all.len() as int),
            ).contains_key(p) by {
                if p.0 == x.0 {
                    assert(!out0.content().contains_key(p));
                } else if x.1.content().contains_key(p) {
                    lemma_chain_pair_hash(x.1, x.0, p);
                }
            }
            assert forall|p: (u64, K)| #[trigger] out.content().contains_key(p) implies out.content()[p]
                == chains_content(all.subrange(m - 1, all.len() as int))[p] by {
                if p.0 != x.0 && x.1.content().contains_key(p) {
                    lemma_chain_pair_hash(x.1, x.0, p);
                }
            }
            assert(out.content() =~= chains_content(all.subrange(m - 1, all.len() as int)));
            assert forall|h: u64| #[trigger] out.tree@.contains_key(h) implies exists|j: int|
                m - 1 <= j < all.len() && #[trigger] all[j].0 == h by {
                if h == x.0 {
                    assert(all[m - 1].0 == h);
                }
            }
        }
    }
    proof {
        assert(all.subrange(0, all.len() as int) == all);
    }
    out
}

/// A bucket held as a red-black tree keyed by hash; each tree node holds the chain of
/// every entry with that hash, so keys need no order of their own.
pub struct TreeBucket<K, V> {
    pub tree: RBTree<u64, ListBucket<K, V>>,
}

impl<K, V> TreeBucket<K, V> {
    /// The tree is a valid red-black tree, and each chain repeats no pair and holds
    /// only entries with the hash it is filed under.
    pub open spec fn wf(&self) -> bool {
        &&& self.tree.wf()
        &&& forall|h: u64| #[trigger]
            self.tree@.contains_key(h) ==> self.tree@[h].wf() && all_hashed(self.tree@[h]@, h)
    }

    /// The pairs the bucket stores, with their values.
    pub open spec fn content(&self) -> Map<(u64, K), V> {
        Map::new(
            |p: (u64, K)| self.tree@.contains_key(p.0) && self.tree@[p.0].content().contains_key(p),
            |p: (u64, K)| self.tree@[p.0].content()[p],
        )
    }

    pub fn new() -> (r: Self)
        ensures
            r.wf(),
            r.content() == Map::<(u64, K), V>::empty(),
            r.tree@ == Map::<u64, ListBucket<K, V>>::empty(),
    {
        let r = TreeBucket { tree: RBTree::new() };
        assert(r.content() =~= Map::<(u64, K), V>::empty());
        r
    }

    /// Files an existing node under `hash`, in front of that hash's chain.
    pub fn push(&mut self, hash: u64, node: EntryNode<K, V>)
        requires
            old(self).wf(),
            node.hash == hash,
            !old(self).content().contains_key((hash, node.key)),
        ensures
            final(self).wf(),
            final(self).content() == old(self).content().insert((hash, node.key), node.value),
            final(self).tree@.contains_key(hash),
            final(self).tree@[hash]@ == seq![node] + if old(self).tree@.contains_key(hash) {
                old(self).tree@[hash]@
            } else {
                Seq::<EntryNode<K, V>>::empty()
            },
    {
        proof {
            lemma_hash_order();
        }
        let ghost t0 = self.tree@;
        let list = self.tree.get_or_insert(hash, ListBucket::new());
        let ghost l0 = *list;
        proof {
            if !t0.contains_key(hash) {
                assert(l0@ =~= Seq::<EntryNode<K, V>>::empty());
            }
            if has_entry(l0@, hash, node.key) {
                let i = choose|i: int| 0 <= i < l0@.len() && #[trigger] node_is(l0@[i], hash, node.key);
                lemma_entries_map_at(l0@, i);
            }
            lemma_entries_map_push(l0@, node);
        }
        list.push(node);
        proof {
            let t1 = after_borrow(self.tree)@;
            assert(t1 == t0.insert(hash, *list));
            assert(all_hashed(list@, hash));
            assert(self.content() =~= old(self).content().insert((hash, node.key), node.value));
        }
    }

    /// Stores `value` for `(hash, key)` in that hash's chain; returns the value replaced.
    pub fn write(&mut self, hash: u64, key: K, value: V, allocator: &mut Allocator<EntryNode<K, V>>) -> (r:
        Option<V>)
        where
            K: Eq,
        requires
            key_eq_is_equality::<K>(),
            old(self).wf(),
            old(allocator).size < usize::MAX,
        ensures
            final(self).wf(),
            final(self).content() == old(self).content().insert((hash, key), value),
            r is Some <==> old(self).content().contains_key((hash, key)),
            r matches Some(v) ==> v == old(self).content()[(hash, key)],
            r is Some ==> final(allocator).size == old(allocator).size,
            r is None ==> final(allocator).size == old(allocator).size + 1,
    {
        proof {
            lemma_hash_order();
        }
        let ghost t0 = self.tree@;
        let list = self.tree.get_or_insert(hash, ListBucket::new());
        let ghost l0 = *list;
        proof {
            if !t0.contains_key(hash) {
                assert(l0@ =~= Seq::<EntryNode<K, V>>::empty());
                assert(l0.content() =~= Map::<(u64, K), V>::empty());
            }
        }
        let (_, replaced) = list.write(hash, key, value, allocator);
        proof {
            let t1 = after_borrow(self.tree)@;
            assert(t1 == t0.insert(hash, *list));
            assert(self.content() =~= old(self).content().insert((hash, key), value));
        }
        replaced
    }

    /// The value stored for `(hash, key)`.
    pub fn get(&self, hash: u64, key: &K) -> (r: Option<&V>)
        where
            K: Eq,
        requires
            key_eq_is_equality::<K>(),
            self.wf(),
        ensures
            r is Some <==> self.content().contains_key((hash, *key)),
            r matches Some(v) ==> *v == self.content()[(hash, *key)],
    {
        proof {
            lemma_hash_order();
        }
        match self.tree.get(&hash) {
            Some(list) => list.get(hash, key),
            None => None,
        }
    }

    /// The stored key and value for `(hash, key)`, the value to change in place.
    pub fn get_key_value_mut(&mut self, hash: u64, key: &K) -> (r: Option<(&K, &mut V)>)
        where
            K: Eq,
        requires
            key_eq_is_equality::<K>(),
            old(self).wf(),
        ensures
            r is Some <==> old(self).content().contains_key((hash, *key)),
            r is None ==> final(self).wf() && final(self).content() == old(self).content(),
            r matches Some(e) ==> {
                &&& *e.0 == *key
                &&& *e.1 == old(self).content()[(hash, *key)]
                &&& final(self).wf()
                &&& final(self).content() == old(self).content().insert((hash, *key), *final(e.1))
            },
    {
        proof {
            lemma_hash_order();
        }
        let ghost t0 = self.tree@;
        match self.tree.get_mut(&hash) {
            Some(list) => {
                let ghost l0 = *list;
                let ghost fl = *final(list);
                let r = list.get_key_value_mut(hash, key);
                proof {
                    let b1 = TreeBucket { tree: after_borrow(self.tree) };
                    let t1 = b1.tree@;
                    assert(t1 == t0.insert(hash, fl));
                    if r is Some {
                        assert(b1.content() =~= old(self).content().insert((hash, *key), *final(r.unwrap().1)));
                    } else {
                        assert(t1 =~= t0);
                        assert(b1.content() =~= old(self).content());
                    }
                }
                r
            },
            None => None,
        }
    }

    /// The value stored for `(hash, key)`, to change in place.
    pub fn get_mut(&mut self, hash: u64, key: &K) -> (r: Option<&mut V>)
        where
            K: Eq,
        requires
            key_eq_is_equality::<K>(),
            old(self).wf(),
        ensures
            r is Some <==> old(self).content().contains_key((hash, *key)),
            r is None ==> final(self).wf() && final(self).content() == old(self).content(),
            r matches Some(v) ==> {
                &&& *v == old(self).content()[(hash, *key)]
                &&& final(self).wf()
                &&& final(self).content() == old(self).content().insert((hash, *key), *final(v))
            },
    {
        match self.get_key_value_mut(hash, key) {
            Some(e) => Some(e.1),
            None => None,
        }
    }

    /// Links a new node for `(hash, key)` in front of that hash's chain and hands out
    /// its key and value.
    pub fn add_node(
        &mut self,
        hash: u64,
        key: K,
        value: V,
        allocator: &mut Allocator<EntryNode<K, V>>,
    ) -> (r: (&K, &mut V))
        requires
            old(self).wf(),
            !old(self).content().contains_key((hash, key)),
            old(allocator).size < usize::MAX,
        ensures
            final(allocator).size == old(allocator).size + 1,
            *r.0 == key,
            *r.1 == value,
            final(self).wf(),
            final(self).content() == old(self).content().insert((hash, key), *final(r.1)),
    {
        proof {
            lemma_hash_order();
        }
        let ghost t0 = self.tree@;
        let list = self.tree.get_or_insert(hash, ListBucket::new());
        let ghost l0 = *list;
        let ghost fl = *final(list);
        proof {
            if !t0.contains_key(hash) {
                assert(l0@ =~= Seq::<EntryNode<K, V>>::empty());
            }
            if has_entry(l0@, hash, key) {
                let i = choose|i: int| 0 <= i < l0@.len() && #[trigger] node_is(l0@[i], hash, key);
                lemma_entries_map_at(l0@, i);
            }
        }
        let r = list.add_node(hash, key, value, allocator);
        proof {
            let b1 = TreeBucket { tree: after_borrow(self.tree) };
            assert(b1.tree@ == t0.insert(hash, fl));
            assert(all_hashed(fl@, hash)) by {
                assert forall|i: int| 0 <= i < fl@.len() implies (#[trigger] fl@[i]).hash == hash by {
                    if i > 0 {
                        assert(fl@[i] == l0@[i - 1]);
                    }
                }
            }
            assert(b1.content() =~= old(self).content().insert((hash, key), *final(r.1)));
        }
        r
    }

    /// Calls `f` on every entry, chain by chain in place; `f` may change the values,
    /// not the keys.
    pub fn foreach<F: Fn(&K, &mut V)>(&mut self, f: &F)
        requires
            old(self).wf(),
            forall|k: &K, v: &mut V| f.requires((k, v)),
        ensures
            final(self).wf(),
            final(self).content().dom() == old(self).content().dom(),
    {
        let ghost t0 = self.tree.root;
        foreach_link(&mut self.tree.root, f);
        proof {
            let t1 = self.tree.root;
            lemma_same_layout(t0, t1);
            assert forall|h: u64| #[trigger]
                self.tree@.contains_key(h) implies self.tree@[h].wf() && all_hashed(self.tree@[h]@, h) by {
                assert(tree_map(t0).contains_key(h));
                assert(old(self).tree@.contains_key(h));
                let c0 = tree_map(t0)[h]@;
                let c1 = tree_map(t1)[h]@;
                assert(same_chain(c0, c1));
                crate::list_bucket::lemma_entries_map_same_keys(c0, c1);
                assert forall|i: int| 0 <= i < c1.len() implies (#[trigger] c1[i]).hash == h by {
                    assert(c1[i].hash == c0[i].hash);
                }
            }
            assert forall|p: (u64, K)| #[trigger]
                self.content().contains_key(p) <==> old(self).content().contains_key(p) by {
                if tree_map(t0).contains_key(p.0) {
                    crate::list_bucket::lemma_entries_map_same_keys(tree_map(t0)[p.0]@, tree_map(t1)[p.0]@);
                    assert(tree_map(t1)[p.0].content().dom() == tree_map(t0)[p.0].content().dom());
                }
            }
            assert(self.content().dom() =~= old(self).content().dom());
        }
    }

    /// Appends every entry's hash and borrows of its key and value to `out`: by hash
    /// in ascending order, each hash's chain from its head.
    pub fn collect<'a>(&'a self, out: &mut Vec<(u64, &'a K, &'a V)>)
        requires
            self.wf(),
        ensures
            final(out)@.len() >= old(out)@.len(),
            final(out)@.subrange(0, old(out)@.len() as int) == old(out)@,
            lists_exactly(final(out)@.subrange(old(out)@.len() as int, final(out)@.len() as int), self.content()),
    {
        proof {
            lemma_hash_order();
            lemma_inorder(self.tree.root);
        }
        let lists = self.tree.iter();
        let ghost w = inorder(self.tree.root);
        let ghost c = self.content();
        let ghost n0 = out@.len() as int;
        let mut i: usize = 0;
        proof {
            assert(out@.subrange(n0, n0) =~= Seq::<(u64, &K, &V)>::empty());
            assert(Map::new(
                |p: (u64, K)| c.contains_key(p) && exists|j: int| 0 <= j < 0 && w[j].0 == p.0,
                |p: (u64, K)| c[p],
            ) =~= Map::<(u64, K), V>::empty());
        }
        while i < lists.len()
            invariant
                key_order_is_total::<u64>(),
                deref_pairs(lists@) == w,
                w == inorder(self.tree.root),
                c == self.content(),
                self.wf(),
                forall|j: int|
                    0 <= j < w.len() ==> #[trigger] self.tree@.contains_key(w[j].0) && self.tree@[w[j].0] == w[j].1,
                forall|h: u64| #[trigger] self.tree@.contains_key(h) ==> exists|j: int| 0 <= j < w.len() && #[trigger] w[j].0 == h,
                forall|x: int, y: int| 0 <= x < y < w.len() ==> lt(#[trigger] w[x].0, #[trigger] w[y].0),
                i <= lists@.len(),
                n0 == old(out)@.len(),
                n0 <= out@.len(),
                out@.subrange(0, n0) == old(out)@,
                lists_exactly(
                    out@.subrange(n0, out@.len() as int),
                    Map::new(
                        |p: (u64, K)| c.contains_key(p) && exists|j: int| 0 <= j < i && w[j].0 == p.0,
                        |p: (u64, K)| c[p],
                    ),
                ),
            decreases lists@.len() - i,
        {
            let pair = lists[i];
            let h = pair.0;
            let list = pair.1;
            let ghost before = out@;
            let ghost part = Map::new(
                |p: (u64, K)| c.contains_key(p) && exists|j: int| 0 <= j < i && w[j].0 == p.0,
                |p: (u64, K)| c[p],
            );
            let ghost next = Map::new(
                |p: (u64, K)| c.contains_key(p) && exists|j: int| 0 <= j < i + 1 && w[j].0 == p.0,
                |p: (u64, K)| c[p],
            );
            proof {
                assert(w[i as int] == (*h, *list));
                assert(self.tree@.contains_key(w[i as int].0));
                assert(self.tree@[*h] == *list);
            }
            list.collect(out);
            proof {
                let seg = out@.subrange(before.len() as int, out@.len() as int);
                let old_seg = before.subrange(n0, before.len() as int);
                assert(out@.subrange(n0, out@.len() as int) =~= old_seg + seg);
                assert(out@.subrange(0, n0) =~= before.subrange(0, n0));
                assert forall|p: (u64, K)| #[trigger] list.content().contains_key(p) implies p.0 == *h by {
                    lemma_chain_pair_hash(*list, *h, p);
                }
                assert forall|p: (u64, K)| #[trigger] part.contains_key(p) implies !list.content().contains_key(p) by {
                    let j = choose|j: int| 0 <= j < i && w[j].0 == p.0;
                    assert(lt(w[j].0, w[i as int].0));
                    crate::rbtree::lemma_key_order::<u64>();
                }
                lemma_lists_exactly_concat(old_seg, seg, part, list.content());
                assert forall|p: (u64, K)| #[trigger] next.contains_key(p) <==> part.union_prefer_right(list.content()).contains_key(p) by {
                    if list.content().contains_key(p) {
                        assert(w[i as int].0 == p.0);
                    }
                    if next.contains_key(p) && !part.contains_key(p) {
                        let j = choose|j: int| 0 <= j < i + 1 && w[j].0 == p.0;
                        assert(j == i);
                    }
                }
                assert(next =~= part.union_prefer_right(list.content()));
            }
            i = i + 1;
        }
        proof {
            let last = Map::new(
                |p: (u64, K)| c.contains_key(p) && exists|j: int| 0 <= j < lists@.len() && w[j].0 == p.0,
                |p: (u64, K)| c[p],
            );
            assert forall|p: (u64, K)| #[trigger] c.contains_key(p) implies last.contains_key(p) by {
                assert(self.tree@.contains_key(p.0));
                let j = choose|j: int| 0 <= j < w.len() && #[trigger] w[j].0 == p.0;
            }
            assert(last =~= c);
        }
    }

    /// Borrows every key and value, in the order `collect` gives: each stored pair once.
    pub fn iter(&self) -> (r: Vec<(&K, &V)>)
        requires
            self.wf(),
        ensures
            exists|t: Seq<(u64, &K, &V)>| #[trigger] pairs_of(t) == r@ && lists_exactly(t, self.content()),
    {
        let mut out: Vec<(u64, &K, &V)> = Vec::new();
        self.collect(&mut out);
        assert(out@.subrange(0, out@.len() as int) == out@);
        pairs_from(out)
    }

    /// Unlinks the entry for `(hash, key)` from that hash's chain and returns its value.
    ///
    /// The tree keeps the node for `hash` even when its chain becomes empty: nodes
    /// are never taken out of the tree, so it needs no deletion rebalancing.
    pub fn remove(&mut self, hash: u64, key: &K, allocator: &mut Allocator<EntryNode<K, V>>) -> (r:
        Option<V>)
        where
            K: Eq,
        requires
            key_eq_is_equality::<K>(),
            old(self).wf(),
            old(self).content().contains_key((hash, *key)) ==> old(allocator).size > 0,
        ensures
            final(self).wf(),
            final(self).content() == old(self).content().remove((hash, *key)),
            r is Some <==> old(self).content().contains_key((hash, *key)),
            r matches Some(v) ==> v == old(self).content()[(hash, *key)],
            r is Some ==> final(allocator).size == old(allocator).size - 1,
            r is None ==> final(allocator).size == old(allocator).size,
    {
        proof {
            lemma_hash_order();
        }
        let ghost t0 = self.tree@;
        match self.tree.get_mut(&hash) {
            Some(list) => {
                let r = list.remove(hash, key, allocator);
                proof {
                    let t1 = after_borrow(self.tree)@;
                    assert(t1 == t0.insert(hash, *list));
                    assert(self.content() =~= old(self).content().remove((hash, *key)));
                }
                r
            },
            None => {
                proof {
                    assert(self.content() =~= old(self).content().remove((hash, *key)));
                }
                None
            },
        }
    }

    /// Joins every chain of the tree into one chain.
    pub fn into_list(self) -> (r: ListBucket<K, V>)
        requires
            self.wf(),
        ensures
            r.wf(),
            r.content() == self.content(),
    {
        let ghost b = self;
        let mut tree = self.tree;
        let pairs = tree.clean_transfer();
        proof {
            lemma_drained_chains(b, pairs@);
        }
        chains_into_list(pairs)
    }

    /// Splits the bucket by bit `bit` of each hash, moving whole chains: those whose
    /// hash has the bit clear, then those where it is set.  A half holding no more than
    /// `MIN_TREE_LENGTH` entries becomes one chain, joined from its chains; a larger
    /// half becomes a tree of its chains.
    pub fn split_transfer(self, bit: u64) -> (r: (Bucket<K, V>, Bucket<K, V>))
        requires
            self.wf(),
        ensures
            r.0.wf(),
            r.1.wf(),
            r.0.content() == keep_bit(self.content(), bit, false),
            r.1.content() == keep_bit(self.content(), bit, true),
            r.0.content().dom().finite(),
            r.1.content().dom().finite(),
            r.0.is_tree() == (r.0.content().len() > MIN_TREE_LENGTH),
            r.1.is_tree() == (r.1.content().len() > MIN_TREE_LENGTH),
    {
        let ghost b = self;
        let mut tree = self.tree;
        let mut rest = tree.clean_transfer();
        let ghost all = rest@;
        proof {
            lemma_drained_chains(b, all);
        }
        let mut lo: Vec<(u64, ListBucket<K, V>)> = Vec::new();
        let mut hi: Vec<(u64, ListBucket<K, V>)> = Vec::new();
        let mut lo_count: usize = 0;
        let mut hi_count: usize = 0;
        let ghost mut done: Set<u64> = Set::empty();
        proof {
            let e = all.subrange(all.len() as int, all.len() as int);
            assert(e =~= Seq::<(u64, ListBucket<K, V>)>::empty());
            assert(chains_content(e) =~= Map::<(u64, K), V>::empty());
            assert(keep_bit(chains_content(e), bit, false) =~= chains_content(lo@));
            assert(keep_bit(chains_content(e), bit, true) =~= chains_content(hi@));
                }
        while rest.len() > 0
            invariant
                chains_wf(all),
                rest@.len() <= all.len(),
                rest@ == all.subrange(0, rest@.len() as int),
                chains_wf(lo@),
                chains_wf(hi@),
                chains_content(lo@) == keep_bit(chains_content(all.subrange(rest@.len() as int, all.len() as int)), bit, false),
                chains_content(hi@) == keep_bit(chains_content(all.subrange(rest@.len() as int, all.len() as int)), bit, true),
                forall|i: int| 0 <= i < lo@.len() ==> done.contains(#[trigger] lo@[i].0),
                forall|i: int| 0 <= i < hi@.len() ==> done.contains(#[trigger] hi@[i].0),
                forall|j: int| 0 <= j < rest@.len() ==> !done.contains(#[trigger] all[j].0),
                lo_count == capped_len(lo@),
                hi_count == capped_len(hi@),
            decreases rest@.len(),
        {
            let ghost m = rest@.len() as int;
            let ghost pre = rest@;
            let x = rest.pop().unwrap();
            let n = x.1.count();
            proof {
                assert(pre == rest@.push(x));
                assert(all[m - 1] == x);
                assert(all.subrange(m - 1, all.len() as int) == seq![x] + all.subrange(m, all.len() as int));
                lemma_chains_content_cons(x, all.subrange(m, all.len() as int));
                assert(all[m - 1].1.wf() && all_hashed(x.1@, x.0));
                assert(!done.contains(all[m - 1].0));
            }
            let ghost lo0 = lo@;
            let ghost hi0 = hi@;
            let ghost c = chains_content(all.subrange(m - 1, all.len() as int));
            let ghost c0 = chains_content(all.subrange(m, all.len() as int));
            if x.0 & bit == 0 {
                lo_count = add_capped(lo_count, n);
                lo.insert(0, x);
                proof {
                    assert(lo@ == seq![x] + lo0);
                    lemma_chains_cons_wf(x, lo0, done);
                    lemma_chains_content_cons(x, lo0);
                    assert forall|p: (u64, K)| #[trigger] x.1.content().contains_key(p) implies p.0 == x.0 by {
                        lemma_chain_pair_hash(x.1, x.0, p);
                    }
                    assert(keep_bit(c, bit, false) =~= x.1.content().union_prefer_right(keep_bit(c0, bit, false)));
                    assert(keep_bit(c, bit, true) =~= keep_bit(c0, bit, true));
                    lemma_capped_len_cons(x, lo0);
                    assert forall|i: int| 0 <= i < lo@.len() implies done.insert(x.0).contains(#[trigger] lo@[i].0) by {
                        if i > 0 {
                            assert(lo@[i] == lo0[i - 1]);
                        }
                    }
                }
            } else {
                hi_count = add_capped(hi_count, n);
                hi.insert(0, x);
                proof {
                    assert(hi@ == seq![x] + hi0);
                    lemma_chains_cons_wf(x, hi0, done);
                    lemma_chains_content_cons(x, hi0);
                    assert forall|p: (u64, K)| #[trigger] x.1.content().contains_key(p) implies p.0 == x.0 by {
                        lemma_chain_pair_hash(x.1, x.0, p);
                    }
                    assert(keep_bit(c, bit, true) =~= x.1.content().union_prefer_right(keep_bit(c0, bit, true)));
                    assert(keep_bit(c, bit, false) =~= keep_bit(c0, bit, false));
                    lemma_capped_len_cons(x, hi0);
                    assert forall|i: int| 0 <= i < hi@.len() implies done.insert(x.0).contains(#[trigger] hi@[i].0) by {
                        if i > 0 {
                            assert(hi@[i] == hi0[i - 1]);
                        }
                    }
                }
            }
            proof {
                assert forall|j: int| 0 <= j < rest@.len() implies !done.insert(x.0).contains(#[trigger] all[j].0) by {
                    assert(all[j].0 != all[m - 1].0);
                }
                done = done.insert(x.0);
            }
        }
        proof {
            assert(all.subrange(0, all.len() as int) == all);
            lemma_chains_len(lo@);
            lemma_chains_len(hi@);
        }
        (build_branch(lo, lo_count), build_branch(hi, hi_count))
    }
}

/// The number of entries in a sequence of chains.
pub open spec fn chains_len<K, V>(ps: Seq<(u64, ListBucket<K, V>)>) -> nat
    decreases ps.len(),
{
    if ps.len() == 0 {
        0
    } else {
        ps[0].1@.len() + chains_len(ps.drop_first())
    }
}

/// A sequence of chains stores as many pairs as its chains have nodes.
pub proof fn lemma_chains_len<K, V>(ps: Seq<(u64, ListBucket<K, V>)>)
    requires
        chains_wf(ps),
    ensures
        chains_content(ps).dom().finite(),
        chains_content(ps).len() == chains_len(ps),
    decreases ps.len(),
{
    if ps.len() == 0 {
        assert(chains_content(ps).dom() =~= Set::<(u64, K)>::empty());
    } else {
        let x = ps[0];
        let rest = ps.drop_first();
        assert(ps == seq![x] + rest);
        lemma_chains_content_cons(x, rest);
        lemma_chains_len(rest);
        assert(x.1.wf());
        crate::list_bucket::lemma_entries_map_len(x.1@);
        let a = x.1.content().dom();
        let b = chains_content(rest).dom();
        assert(a.disjoint(b));
        vstd::set_lib::lemma_set_disjoint_lens(a, b);
        assert(chains_content(ps).dom() =~= a + b);
    }
}

/// The number of entries in a sequence of chains, counted up to one past
/// `MIN_TREE_LENGTH`.
pub open spec fn capped_len<K, V>(ps: Seq<(u64, ListBucket<K, V>)>) -> nat {
    if chains_len(ps) > MIN_TREE_LENGTH {
        (MIN_TREE_LENGTH + 1) as nat
    } else {
        chains_len(ps)
    }
}

/// `a + b`, counted up to one past `MIN_TREE_LENGTH`.
fn add_capped(a: usize, b: usize) -> (r: usize)
    requires
        a <= MIN_TREE_LENGTH + 1,
    ensures
        r == if a + b > MIN_TREE_LENGTH {
            (MIN_TREE_LENGTH + 1) as int
        } else {
            a + b
        },
{
    if b > MIN_TREE_LENGTH + 1 - a {
        MIN_TREE_LENGTH + 1
    } else if a + b > MIN_TREE_LENGTH {
        MIN_TREE_LENGTH + 1
    } else {
        a + b
    }
}

/// Putting a chain in front of others adds its length to their count.
proof fn lemma_capped_len_cons<K, V>(x: (u64, ListBucket<K, V>), ps: Seq<(u64, ListBucket<K, V>)>)
    ensures
        chains_len(seq![x] + ps) == x.1@.len() + chains_len(ps),
        capped_len(seq![x] + ps) == if capped_len(ps) + x.1@.len() > MIN_TREE_LENGTH {
            (MIN_TREE_LENGTH + 1) as nat
        } else {
            (capped_len(ps) + x.1@.len()) as nat
        },
{
    assert((seq![x] + ps).drop_first() =~= ps);
}

/// A chain whose hash is not among those of others can go in front of them.
proof fn lemma_chains_cons_wf<K, V>(x: (u64, ListBucket<K, V>), ps: Seq<(u64, ListBucket<K, V>)>, done: Set<u64>)
    requires
        chains_wf(ps),
        x.1.wf(),
        all_hashed(x.1@, x.0),
        forall|i: int| 0 <= i < ps.len() ==> done.contains(#[trigger] ps[i].0),
        !done.contains(x.0),
    ensures
        chains_wf(seq![x] + ps),
{
    let s = seq![x] + ps;
    assert forall|i: int| 0 <= i < s.len() implies (#[trigger] s[i]).1.wf() && all_hashed(s[i].1@, s[i].0) by {
        if i > 0 {
            assert(s[i] == ps[i - 1]);
        }
    }
    assert forall|i: int, j: int| 0 <= i < s.len() && 0 <= j < s.len() && i != j implies #[trigger] s[i].0 != #[trigger] s[j].0 by {
        if i == 0 {
            assert(s[j] == ps[j - 1]);
            assert(done.contains(ps[j - 1].0));
        } else if j == 0 {
            assert(s[i] == ps[i - 1]);
            assert(done.contains(ps[i - 1].0));
        } else {
            assert(s[i] == ps[i - 1] && s[j] == ps[j - 1]);
        }
    }
}

/// One half of a split tree bucket: one chain joined from its chains when it holds no
/// more than `MIN_TREE_LENGTH` entries, else a tree of its chains.
fn build_branch<K, V>(ps: Vec<(u64, ListBucket<K, V>)>, count: usize) -> (r: Bucket<K, V>)
    requires
        chains_wf(ps@),
        count == capped_len(ps@),
    ensures
        r.wf(),
        r.content() == chains_content(ps@),
        r.is_tree() == (chains_len(ps@) > MIN_TREE_LENGTH),
{
    if count <= MIN_TREE_LENGTH {
        Bucket::with_list(chains_into_list(ps))
    } else {
        Bucket::with_tree(chains_into_tree(ps))
    }
}

/// The chains drained from a valid tree bucket hold exactly its pairs.
proof fn lemma_drained_chains<K, V>(b: TreeBucket<K, V>, pairs: Seq<(u64, ListBucket<K, V>)>)
    requires
        b.wf(),
        pairs == inorder(b.tree.root),
    ensures
        chains_wf(pairs),
        chains_content(pairs) == b.content(),
{
    lemma_hash_order();
    lemma_inorder(b.tree.root);
    let m = b.tree@;
    assert forall|i: int| 0 <= i < pairs.len() implies (#[trigger] pairs[i]).1.wf() && all_hashed(pairs[i].1@, pairs[i].0) by {
        assert(m.contains_key(pairs[i].0));
    }
    assert forall|i: int, j: int| 0 <= i < pairs.len() && 0 <= j < pairs.len() && i != j implies #[trigger] pairs[i].0 != #[trigger] pairs[j].0 by {
        crate::rbtree::lemma_key_order::<u64>();
        if i < j {
            assert(lt(pairs[i].0, pairs[j].0));
        } else {
            assert(lt(pairs[j].0, pairs[i].0));
        }
    }
    let c = chains_content(pairs);
    assert forall|p: (u64, K)| c.contains_key(p) <==> b.content().contains_key(p) by {
        if c.contains_key(p) {
            let i = choose|i: int| 0 <= i < pairs.len() && #[trigger] pairs[i].1.content().contains_key(p);
            assert(m.contains_key(pairs[i].0));
            lemma_chain_pair_hash(pairs[i].1, pairs[i].0, p);
        }
        if b.content().contains_key(p) {
            let i = choose|i: int| 0 <= i < pairs.len() && #[trigger] pairs[i].0 == p.0;
            assert(m.contains_key(pairs[i].0));
            assert(pairs[i].1.content().contains_key(p));
        }
    }
    assert forall|p: (u64, K)| c.contains_key(p) implies c[p] == b.content()[p] by {
        let i = choose|i: int| 0 <= i < pairs.len() && #[trigger] pairs[i].1.content().contains_key(p);
        assert(m.contains_key(pairs[i].0));
        lemma_chain_pair_hash(pairs[i].1, pairs[i].0, p);
    }
    assert(c =~= b.content());
}

impl<K, V> ListBucket<K, V> {
    /// Moves every node of the chain into a new tree bucket, filed by its hash; the
    /// chain is left empty.
    pub fn convert_to_tree(&mut self) -> (r: TreeBucket<K, V>)
        requires
            old(self).wf(),
        ensures
            r.wf(),
            r.content() == old(self).content(),
            final(self)@ == Seq::<EntryNode<K, V>>::empty(),
    {
        let mut rest = self.take();
        let ghost s = rest@;
        let mut tree: TreeBucket<K, V> = TreeBucket::new();
        let ghost mut i: int = 0;
        proof {
            assert(entries_map(s.subrange(0, 0)) =~= Map::<(u64, K), V>::empty());
        }
        while rest.nodes.len() > 0
            invariant
                unique_entries(s),
                0 <= i <= s.len(),
                rest@ == s.subrange(i, s.len() as int),
                tree.wf(),
                tree.content() == entries_map(s.subrange(0, i)),
            decreases rest@.len(),
        {
            let node = rest.nodes.remove(0);
            proof {
                assert(node == s[i]);
                let pre = s.subrange(0, i);
                assert(unique_entries(pre));
                if has_entry(pre, node.hash, node.key) {
                    let j = choose|j: int| 0 <= j < pre.len() && #[trigger] node_is(pre[j], node.hash, node.key);
                    assert(s[j].hash == s[i].hash && s[j].key == s[i].key);
                }
                lemma_entries_map_push_back(pre, node);
                assert(s.subrange(0, i + 1) == pre.push(node));
            }
            let h = node.hash;
            tree.push(h, node);
            proof {
                i = i + 1;
            }
        }
        proof {
            assert(s.subrange(0, s.len() as int) == s);
        }
        tree
    }
}

} // verus!
