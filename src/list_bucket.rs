use crate::allocator::Allocator;
use vstd::prelude::*;
use vstd::std_specs::cmp::PartialEqSpec;

verus! {

/// A chain holding more than this many entries is turned into a tree.
pub const MAX_LIST_LENGTH: usize = 8;

/// One stored key/value pair, with the hash it was stored under.
pub struct EntryNode<K, V> {
    pub key: K,
    pub value: V,
    pub hash: u64,
}

/// `==` on `K` holds exactly of equal values.
pub open spec fn key_eq_is_equality<K: PartialEq>() -> bool {
    &&& K::obeys_eq_spec()
    &&& forall|a: K, b: K| (#[trigger] a.eq_spec(&b)) <==> (a == b)
}

/// Compares two keys with the key type's `==`.
pub fn same_key<K: Eq>(a: &K, b: &K) -> (r: bool)
    requires
        key_eq_is_equality::<K>(),
    ensures
        r == (*a == *b),
{
    *a == *b
}

/// The node stands for the pair `(h, k)`.
pub open spec fn node_is<K, V>(e: EntryNode<K, V>, h: u64, k: K) -> bool {
    e.hash == h && e.key == k
}

/// Some node of `s` stands for `(h, k)`.
pub open spec fn has_entry<K, V>(s: Seq<EntryNode<K, V>>, h: u64, k: K) -> bool {
    exists|i: int| 0 <= i < s.len() && #[trigger] node_is(s[i], h, k)
}

/// The position of the node of `s` that stands for `(h, k)`.
pub open spec fn entry_index<K, V>(s: Seq<EntryNode<K, V>>, h: u64, k: K) -> int {
    choose|i: int| 0 <= i < s.len() && #[trigger] node_is(s[i], h, k)
}

/// No two nodes of `s` stand for the same pair.
pub open spec fn unique_entries<K, V>(s: Seq<EntryNode<K, V>>) -> bool {
    forall|i: int, j: int|
        0 <= i < s.len() && 0 <= j < s.len() && i != j && s[i].hash == s[j].hash ==> #[trigger] s[i].key
            != #[trigger] s[j].key
}

/// What a chain maps each `(hash, key)` pair to.
pub open spec fn entries_map<K, V>(s: Seq<EntryNode<K, V>>) -> Map<(u64, K), V> {
    Map::new(
        |p: (u64, K)| has_entry(s, p.0, p.1),
        |p: (u64, K)| s[entry_index(s, p.0, p.1)].value,
    )
}

/// In a chain without repeated pairs, node `i` gives the value of its own pair.
pub proof fn lemma_entries_map_at<K, V>(s: Seq<EntryNode<K, V>>, i: int)
    requires
        unique_entries(s),
        0 <= i < s.len(),
    ensures
        entries_map(s).contains_key((s[i].hash, s[i].key)),
        entries_map(s)[(s[i].hash, s[i].key)] == s[i].value,
{
    assert(node_is(s[i], s[i].hash, s[i].key));
    let j = entry_index(s, s[i].hash, s[i].key);
    assert(node_is(s[j], s[i].hash, s[i].key));
}

/// Replacing the value of node `i` rebinds its pair and leaves the other pairs alone.
pub proof fn lemma_entries_map_set_value<K, V>(
    s: Seq<EntryNode<K, V>>,
    s2: Seq<EntryNode<K, V>>,
    i: int,
)
    requires
        unique_entries(s),
        0 <= i < s.len(),
        s2.len() == s.len(),
        s2[i].hash == s[i].hash,
        s2[i].key == s[i].key,
        forall|j: int| 0 <= j < s.len() && j != i ==> s2[j] == s[j],
    ensures
        unique_entries(s2),
        entries_map(s2) == entries_map(s).insert((s[i].hash, s[i].key), s2[i].value),
{
    assert forall|a: int, b: int|
        0 <= a < s2.len() && 0 <= b < s2.len() && a != b && s2[a].hash == s2[b].hash implies #[trigger] s2[a].key
            != #[trigger] s2[b].key by {
        assert(s[a].hash == s2[a].hash && s[a].key == s2[a].key);
        assert(s[b].hash == s2[b].hash && s[b].key == s2[b].key);
    }
    let m1 = entries_map(s2);
    let m2 = entries_map(s).insert((s[i].hash, s[i].key), s2[i].value);
    assert forall|p: (u64, K)| m1.contains_key(p) <==> m2.contains_key(p) by {
        if has_entry(s, p.0, p.1) {
            let j = entry_index(s, p.0, p.1);
            assert(node_is(s2[j], p.0, p.1));
        }
        if has_entry(s2, p.0, p.1) {
            let j = entry_index(s2, p.0, p.1);
            assert(node_is(s[j], p.0, p.1));
        }
        if p == (s[i].hash, s[i].key) {
            assert(node_is(s2[i], p.0, p.1));
        }
    }
    assert forall|p: (u64, K)| m1.contains_key(p) implies m1[p] == m2[p] by {
        let j = entry_index(s2, p.0, p.1);
        lemma_entries_map_at(s2, j);
        if j != i {
            lemma_entries_map_at(s, j);
        }
    }
    assert(m1 =~= m2);
}

/// Linking a node for a new pair in at the head binds that pair and nothing else.
pub proof fn lemma_entries_map_push<K, V>(s: Seq<EntryNode<K, V>>, n: EntryNode<K, V>)
    requires
        unique_entries(s),
        !has_entry(s, n.hash, n.key),
    ensures
        unique_entries(seq![n] + s),
        entries_map(seq![n] + s) == entries_map(s).insert((n.hash, n.key), n.value),
{
    let s2 = seq![n] + s;
    assert forall|a: int, b: int|
        0 <= a < s2.len() && 0 <= b < s2.len() && a != b && s2[a].hash == s2[b].hash implies #[trigger] s2[a].key
            != #[trigger] s2[b].key by {
        if a == 0 {
            assert(s2[b] == s[b - 1]);
            if s2[b].key == n.key {
                assert(node_is(s[b - 1], n.hash, n.key));
            }
        } else if b == 0 {
            assert(s2[a] == s[a - 1]);
            if s2[a].key == n.key {
                assert(node_is(s[a - 1], n.hash, n.key));
            }
        } else {
            assert(s2[a] == s[a - 1] && s2[b] == s[b - 1]);
        }
    }
    let m1 = entries_map(s2);
    let m2 = entries_map(s).insert((n.hash, n.key), n.value);
    assert forall|p: (u64, K)| m1.contains_key(p) <==> m2.contains_key(p) by {
        if has_entry(s, p.0, p.1) {
            let j = entry_index(s, p.0, p.1);
            assert(node_is(s2[j + 1], p.0, p.1));
        }
        if has_entry(s2, p.0, p.1) {
            let j = entry_index(s2, p.0, p.1);
            if j > 0 {
                assert(node_is(s[j - 1], p.0, p.1));
            }
        }
        if p == (n.hash, n.key) {
            assert(node_is(s2[0], p.0, p.1));
        }
    }
    assert forall|p: (u64, K)| m1.contains_key(p) implies m1[p] == m2[p] by {
        let j = entry_index(s2, p.0, p.1);
        lemma_entries_map_at(s2, j);
        if j > 0 {
            assert(s2[j] == s[j - 1]);
            lemma_entries_map_at(s, j - 1);
        }
    }
    assert(m1 =~= m2);
}

/// Unlinking node `i` drops its pair and nothing else.
pub proof fn lemma_entries_map_remove<K, V>(s: Seq<EntryNode<K, V>>, i: int)
    requires
        unique_entries(s),
        0 <= i < s.len(),
    ensures
        unique_entries(s.remove(i)),
        entries_map(s.remove(i)) == entries_map(s).remove((s[i].hash, s[i].key)),
{
    let s2 = s.remove(i);
    assert forall|a: int, b: int|
        0 <= a < s2.len() && 0 <= b < s2.len() && a != b && s2[a].hash == s2[b].hash implies #[trigger] s2[a].key
            != #[trigger] s2[b].key by {
        let a1 = if a < i { a } else { a + 1 };
        let b1 = if b < i { b } else { b + 1 };
        assert(s2[a] == s[a1] && s2[b] == s[b1]);
    }
    let m1 = entries_map(s2);
    let m2 = entries_map(s).remove((s[i].hash, s[i].key));
    assert forall|p: (u64, K)| m1.contains_key(p) <==> m2.contains_key(p) by {
        if has_entry(s, p.0, p.1) && p != (s[i].hash, s[i].key) {
            let j = entry_index(s, p.0, p.1);
            if j < i {
                assert(node_is(s2[j], p.0, p.1));
            } else {
                assert(node_is(s2[j - 1], p.0, p.1));
            }
        }
        if has_entry(s2, p.0, p.1) {
            let j = entry_index(s2, p.0, p.1);
            let j1 = if j < i { j } else { j + 1 };
            assert(node_is(s[j1], p.0, p.1));
            if p == (s[i].hash, s[i].key) {
                assert(s[j1].hash == s[i].hash);
            }
        }
    }
    assert forall|p: (u64, K)| m1.contains_key(p) implies m1[p] == m2[p] by {
        let j = entry_index(s2, p.0, p.1);
        lemma_entries_map_at(s2, j);
        let j1 = if j < i { j } else { j + 1 };
        assert(s2[j] == s[j1]);
        lemma_entries_map_at(s, j1);
    }
    assert(m1 =~= m2);
}

/// The pairs of `m` whose hash has bit `bit` set (`set`) or clear (`!set`).
pub open spec fn keep_bit<K, V>(m: Map<(u64, K), V>, bit: u64, set: bool) -> Map<(u64, K), V> {
    Map::new(|p: (u64, K)| m.contains_key(p) && ((p.0 & bit != 0) == set), |p: (u64, K)| m[p])
}

/// `m` maps `k`, under some hash, to `v`.
pub open spec fn holds_pair<K, V>(m: Map<(u64, K), V>, k: K, v: V) -> bool {
    exists|h: u64| m.contains_key((h, k)) && m[(h, k)] == v
}

/// `t` lists every pair of `m` exactly once, each as its hash, key and value.
pub open spec fn lists_exactly<K, V>(t: Seq<(u64, &K, &V)>, m: Map<(u64, K), V>) -> bool {
    &&& forall|i: int|
        0 <= i < t.len() ==> #[trigger] m.contains_key((t[i].0, *t[i].1)) && m[(t[i].0, *t[i].1)] == *t[i].2
    &&& forall|i: int, j: int|
        0 <= i < t.len() && 0 <= j < t.len() && i != j ==> (#[trigger] t[i].0, *t[i].1) != (#[trigger] t[j].0, *t[j].1)
    &&& forall|p: (u64, K)| #[trigger] m.contains_key(p) ==> exists|i: int| 0 <= i < t.len() && t[i].0 == p.0 && *t[i].1 == p.1
}

/// The keys and values of a sequence of listed entries.
pub open spec fn pairs_of<'a, K, V>(t: Seq<(u64, &'a K, &'a V)>) -> Seq<(&'a K, &'a V)> {
    t.map_values(|x: (u64, &'a K, &'a V)| (x.1, x.2))
}

/// The keys and values of listed entries, in order.
pub fn pairs_from<'a, K, V>(t: Vec<(u64, &'a K, &'a V)>) -> (r: Vec<(&'a K, &'a V)>)
    ensures
        r@ == pairs_of(t@),
{
    let mut r: Vec<(&'a K, &'a V)> = Vec::new();
    let mut i: usize = 0;
    while i < t.len()
        invariant
            i <= t@.len(),
            r@ == pairs_of(t@.subrange(0, i as int)),
        decreases t@.len() - i,
    {
        let e = t[i];
        r.push((e.1, e.2));
        proof {
            assert(pairs_of(t@.subrange(0, i + 1)) =~= pairs_of(t@.subrange(0, i as int)).push((e.1, e.2)));
        }
        i = i + 1;
    }
    assert(t@.subrange(0, t@.len() as int) == t@);
    r
}

/// Two listings of maps with no pair in common list their union.
pub proof fn lemma_lists_exactly_concat<K, V>(
    a: Seq<(u64, &K, &V)>,
    b: Seq<(u64, &K, &V)>,
    ma: Map<(u64, K), V>,
    mb: Map<(u64, K), V>,
)
    requires
        lists_exactly(a, ma),
        lists_exactly(b, mb),
        forall|p: (u64, K)| #[trigger] ma.contains_key(p) ==> !mb.contains_key(p),
    ensures
        lists_exactly(a + b, ma.union_prefer_right(mb)),
{
    let t = a + b;
    let m = ma.union_prefer_right(mb);
    assert forall|i: int| 0 <= i < t.len() implies #[trigger] m.contains_key((t[i].0, *t[i].1)) && m[(t[i].0, *t[i].1)]
        == *t[i].2 by {
        if i < a.len() {
            assert(t[i] == a[i]);
            assert(ma.contains_key((a[i].0, *a[i].1)));
        } else {
            assert(t[i] == b[i - a.len()]);
            assert(mb.contains_key((b[i - a.len()].0, *b[i - a.len()].1)));
        }
    }
    assert forall|i: int, j: int|
        0 <= i < t.len() && 0 <= j < t.len() && i != j implies (#[trigger] t[i].0, *t[i].1) != (#[trigger] t[j].0, *t[j].1) by {
        if i < a.len() && j < a.len() {
            assert(t[i] == a[i] && t[j] == a[j]);
        } else if i >= a.len() && j >= a.len() {
            assert(t[i] == b[i - a.len()] && t[j] == b[j - a.len()]);
        } else if i < a.len() {
            assert(t[i] == a[i] && t[j] == b[j - a.len()]);
            assert(ma.contains_key((a[i].0, *a[i].1)));
            assert(mb.contains_key((b[j - a.len()].0, *b[j - a.len()].1)));
        } else {
            assert(t[j] == a[j] && t[i] == b[i - a.len()]);
            assert(ma.contains_key((a[j].0, *a[j].1)));
            assert(mb.contains_key((b[i - a.len()].0, *b[i - a.len()].1)));
        }
    }
    assert forall|p: (u64, K)| #[trigger] m.contains_key(p) implies exists|i: int|
        0 <= i < t.len() && t[i].0 == p.0 && *t[i].1 == p.1 by {
        if mb.contains_key(p) {
            let k = choose|k: int| 0 <= k < b.len() && b[k].0 == p.0 && *b[k].1 == p.1;
            assert(t[a.len() + k] == b[k]);
        } else {
            let k = choose|k: int| 0 <= k < a.len() && a[k].0 == p.0 && *a[k].1 == p.1;
            assert(t[k] == a[k]);
        }
    }
}

/// Every node of `s` was stored under hash `h`.
pub open spec fn all_hashed<K, V>(s: Seq<EntryNode<K, V>>, h: u64) -> bool {
    forall|i: int| 0 <= i < s.len() ==> (#[trigger] s[i]).hash == h
}

/// A node for a new pair appended at the tail binds that pair and nothing else.
pub proof fn lemma_entries_map_push_back<K, V>(s: Seq<EntryNode<K, V>>, n: EntryNode<K, V>)
    requires
        unique_entries(s),
        !has_entry(s, n.hash, n.key),
    ensures
        unique_entries(s.push(n)),
        entries_map(s.push(n)) == entries_map(s).insert((n.hash, n.key), n.value),
{
    let s2 = s.push(n);
    assert forall|a: int, b: int|
        0 <= a < s2.len() && 0 <= b < s2.len() && a != b && s2[a].hash == s2[b].hash implies #[trigger] s2[a].key
            != #[trigger] s2[b].key by {
        if a == s.len() {
            if s2[b].key == n.key {
                assert(node_is(s[b], n.hash, n.key));
            }
        } else if b == s.len() {
            if s2[a].key == n.key {
                assert(node_is(s[a], n.hash, n.key));
            }
        }
    }
    let m1 = entries_map(s2);
    let m2 = entries_map(s).insert((n.hash, n.key), n.value);
    assert forall|p: (u64, K)| m1.contains_key(p) <==> m2.contains_key(p) by {
        if has_entry(s, p.0, p.1) {
            let j = entry_index(s, p.0, p.1);
            assert(node_is(s2[j], p.0, p.1));
        }
        if has_entry(s2, p.0, p.1) {
            let j = entry_index(s2, p.0, p.1);
            if j < s.len() {
                assert(node_is(s[j], p.0, p.1));
            }
        }
        if p == (n.hash, n.key) {
            assert(node_is(s2[s.len() as int], p.0, p.1));
        }
    }
    assert forall|p: (u64, K)| m1.contains_key(p) implies m1[p] == m2[p] by {
        let j = entry_index(s2, p.0, p.1);
        lemma_entries_map_at(s2, j);
        if j < s.len() {
            lemma_entries_map_at(s, j);
        }
    }
    assert(m1 =~= m2);
}

/// Two chains with no hash in common join into one that maps what either maps.
pub proof fn lemma_entries_map_concat<K, V>(a: Seq<EntryNode<K, V>>, b: Seq<EntryNode<K, V>>)
    requires
        unique_entries(a),
        unique_entries(b),
        forall|i: int, j: int| 0 <= i < a.len() && 0 <= j < b.len() ==> #[trigger] a[i].hash != #[trigger] b[j].hash,
    ensures
        unique_entries(a + b),
        entries_map(a + b) == entries_map(a).union_prefer_right(entries_map(b)),
        forall|p: (u64, K)| #[trigger] entries_map(a).contains_key(p) ==> !entries_map(b).contains_key(p),
{
    let s = a + b;
    assert forall|x: int, y: int|
        0 <= x < s.len() && 0 <= y < s.len() && x != y && s[x].hash == s[y].hash implies #[trigger] s[x].key
            != #[trigger] s[y].key by {
        if x < a.len() && y >= a.len() {
            assert(s[y] == b[y - a.len()]);
        } else if y < a.len() && x >= a.len() {
            assert(s[x] == b[x - a.len()]);
        } else if x >= a.len() {
            assert(s[x] == b[x - a.len()] && s[y] == b[y - a.len()]);
        }
    }
    let m1 = entries_map(s);
    let m2 = entries_map(a).union_prefer_right(entries_map(b));
    assert forall|p: (u64, K)| m1.contains_key(p) <==> m2.contains_key(p) by {
        if has_entry(a, p.0, p.1) {
            let j = entry_index(a, p.0, p.1);
            assert(node_is(s[j], p.0, p.1));
        }
        if has_entry(b, p.0, p.1) {
            let j = entry_index(b, p.0, p.1);
            assert(node_is(s[j + a.len()], p.0, p.1));
        }
        if has_entry(s, p.0, p.1) {
            let j = entry_index(s, p.0, p.1);
            if j < a.len() {
                assert(node_is(a[j], p.0, p.1));
            } else {
                assert(node_is(b[j - a.len()], p.0, p.1));
            }
        }
    }
    assert forall|p: (u64, K)| m1.contains_key(p) implies m1[p] == m2[p] by {
        let j = entry_index(s, p.0, p.1);
        lemma_entries_map_at(s, j);
        if j < a.len() {
            lemma_entries_map_at(a, j);
            if has_entry(b, p.0, p.1) {
                let k = entry_index(b, p.0, p.1);
                assert(a[j].hash != b[k].hash);
            }
        } else {
            lemma_entries_map_at(b, j - a.len());
        }
    }
    assert(m1 =~= m2);
    assert forall|p: (u64, K)| #[trigger] entries_map(a).contains_key(p) implies !entries_map(b).contains_key(p) by {
        if has_entry(b, p.0, p.1) {
            let i = entry_index(a, p.0, p.1);
            let k = entry_index(b, p.0, p.1);
            assert(a[i].hash != b[k].hash);
        }
    }
}

/// Two chains that agree on every node's hash and key store the same pairs, and one
/// repeats no pair exactly when the other does not.
pub proof fn lemma_entries_map_same_keys<K, V>(s: Seq<EntryNode<K, V>>, s2: Seq<EntryNode<K, V>>)
    requires
        s2.len() == s.len(),
        forall|j: int| 0 <= j < s.len() ==> (#[trigger] s2[j]).hash == s[j].hash && s2[j].key == s[j].key,
    ensures
        unique_entries(s) ==> unique_entries(s2),
        entries_map(s2).dom() == entries_map(s).dom(),
{
    assert forall|p: (u64, K)| entries_map(s2).contains_key(p) <==> entries_map(s).contains_key(p) by {
        if has_entry(s, p.0, p.1) {
            let j = entry_index(s, p.0, p.1);
            assert(node_is(s2[j], p.0, p.1));
        }
        if has_entry(s2, p.0, p.1) {
            let j = entry_index(s2, p.0, p.1);
            assert(node_is(s[j], p.0, p.1));
        }
    }
    assert(entries_map(s2).dom() =~= entries_map(s).dom());
    if unique_entries(s) {
        assert forall|a: int, b: int|
            0 <= a < s2.len() && 0 <= b < s2.len() && a != b && s2[a].hash == s2[b].hash implies #[trigger] s2[a].key
                != #[trigger] s2[b].key by {
            assert(s[a].hash == s2[a].hash && s[a].key == s2[a].key);
            assert(s[b].hash == s2[b].hash && s[b].key == s2[b].key);
        }
    }
}

/// A chain without repeated pairs stores as many pairs as it has nodes.
pub proof fn lemma_entries_map_len<K, V>(s: Seq<EntryNode<K, V>>)
    requires
        unique_entries(s),
    ensures
        entries_map(s).dom().finite(),
        entries_map(s).len() == s.len(),
    decreases s.len(),
{
    if s.len() == 0 {
        assert(entries_map(s).dom() =~= Set::<(u64, K)>::empty());
    } else {
        let pre = s.drop_last();
        let n = s.last();
        assert(unique_entries(pre));
        if has_entry(pre, n.hash, n.key) {
            let j = choose|j: int| 0 <= j < pre.len() && #[trigger] node_is(pre[j], n.hash, n.key);
            assert(s[j].hash == s[s.len() - 1].hash && s[j].key == s[s.len() - 1].key);
        }
        lemma_entries_map_len(pre);
        lemma_entries_map_push_back(pre, n);
        assert(pre.push(n) == s);
    }
}

/// A singly linked chain of entries, most recently added first.
///
/// The chain is held as a vector whose first element is the head.
pub struct ListBucket<K, V> {
    pub nodes: Vec<EntryNode<K, V>>,
}

impl<K, V> ListBucket<K, V> {
    pub open spec fn view(&self) -> Seq<EntryNode<K, V>> {
        self.nodes@
    }

    /// No pair is stored twice.
    pub open spec fn wf(&self) -> bool {
        unique_entries(self.nodes@)
    }

    /// The pairs the chain stores, with their values.
    pub open spec fn content(&self) -> Map<(u64, K), V> {
        entries_map(self.nodes@)
    }

    pub fn new() -> (r: Self)
        ensures
            r@ == Seq::<EntryNode<K, V>>::empty(),
            r.wf(),
    {
        ListBucket { nodes: Vec::new() }
    }

    /// The number of entries in the chain.
    pub fn count(&self) -> (r: usize)
        ensures
            r == self@.len(),
    {
        self.nodes.len()
    }

    /// Detaches the whole chain and leaves this bucket empty.
    pub fn take(&mut self) -> (r: ListBucket<K, V>)
        ensures
            r@ == old(self)@,
            final(self)@ == Seq::<EntryNode<K, V>>::empty(),
    {
        let mut nodes = Vec::new();
        core::mem::swap(&mut self.nodes, &mut nodes);
        ListBucket { nodes }
    }

    /// Links an existing node in at the head.
    pub fn push(&mut self, node: EntryNode<K, V>)
        ensures
            final(self)@ == seq![node] + old(self)@,
    {
        self.nodes.insert(0, node);
    }

    /// Splices every node of `other` onto the front, keeping its order.
    pub fn merge(&mut self, other: ListBucket<K, V>)
        ensures
            final(self)@ == other@ + old(self)@,
    {
        let mut front = other.nodes;
        let mut rest = Vec::new();
        core::mem::swap(&mut self.nodes, &mut rest);
        front.append(&mut rest);
        self.nodes = front;
    }

    /// The position of the node for `(hash, key)`, if there is one.
    pub fn find(&self, hash: u64, key: &K) -> (r: Option<usize>)
        where
            K: Eq,
        requires
            key_eq_is_equality::<K>(),
        ensures
            r matches Some(i) ==> i < self@.len() && node_is(self@[i as int], hash, *key),
            r is None ==> !has_entry(self@, hash, *key),
    {
        let mut i: usize = 0;
        while i < self.nodes.len()
            invariant
                key_eq_is_equality::<K>(),
                i <= self@.len(),
                forall|j: int| 0 <= j < i ==> !node_is(self@[j], hash, *key),
            decreases self@.len() - i,
        {
            let node = &self.nodes[i];
            if node.hash == hash && same_key(&node.key, key) {
                return Some(i);
            }
            i = i + 1;
        }
        None
    }



    /// Links a new node for `(hash, key)` in at the head and hands out its key and value.
    pub fn add_node(
        &mut self,
        hash: u64,
        key: K,
        value: V,
        allocator: &mut Allocator<EntryNode<K, V>>,
    ) -> (r: (&K, &mut V))
        requires
            old(self).wf(),
            !has_entry(old(self)@, hash, key),
            old(allocator).size < usize::MAX,
        ensures
            final(allocator).size == old(allocator).size + 1,
            *r.0 == key,
            *r.1 == value,
            final(self).wf(),
            final(self)@.len() == old(self)@.len() + 1,
            final(self).content() == old(self).content().insert((hash, key), *final(r.1)),
            final(self)@[0].hash == hash,
            forall|j: int| 0 < j < final(self)@.len() ==> #[trigger] final(self)@[j] == old(self)@[j - 1],
            final(self)@ == seq![EntryNode { key, value: *final(r.1), hash }] + old(self)@,
    {
        let ghost s0 = self@;
        let node = allocator.allocate(EntryNode { key, value, hash });
        proof {
            lemma_entries_map_push(self@, node);
        }
        self.nodes.insert(0, node);
        assert(self@ =~= seq![node] + s0);
        let ghost s = self@;
        let n = &mut self.nodes[0];
        let r = (&n.key, &mut n.value);
        proof {
            let s2 = after_borrow(self.nodes)@;
            lemma_entries_map_set_value(s, s2, 0);
            assert(s2 =~= seq![EntryNode { key: s[0].key, value: *final(r.1), hash }] + s0);
        }
        r
    }

    /// Stores `value` for `(hash, key)`: the value is replaced in place if the pair is
    /// there, else a new node is linked in at the head.
    ///
    /// Returns whether the chain has grown past `MAX_LIST_LENGTH`, and the value replaced.
    pub fn write(
        &mut self,
        hash: u64,
        key: K,
        value: V,
        allocator: &mut Allocator<EntryNode<K, V>>,
    ) -> (r: (bool, Option<V>))
        where
            K: Eq,
        requires
            key_eq_is_equality::<K>(),
            old(self).wf(),
            old(allocator).size < usize::MAX,
        ensures
            final(self).wf(),
            final(self).content() == old(self).content().insert((hash, key), value),
            r.1 is Some <==> old(self).content().contains_key((hash, key)),
            r.1 matches Some(v) ==> v == old(self).content()[(hash, key)],
            r.1 is Some ==> final(allocator).size == old(allocator).size && final(self)@.len()
                == old(self)@.len(),
            r.1 is None ==> final(allocator).size == old(allocator).size + 1 && final(self)@.len()
                == old(self)@.len() + 1,
            r.0 == (r.1 is None && final(self)@.len() > MAX_LIST_LENGTH),
            all_hashed(old(self)@, hash) ==> all_hashed(final(self)@, hash),
            r.1 is None ==> final(self)@ == seq![EntryNode { key, value, hash }] + old(self)@,
            r.1 is Some ==> exists|i: int|
                0 <= i < old(self)@.len() && #[trigger] node_is(old(self)@[i], hash, key) && final(self)@
                    == old(self)@.update(i, EntryNode { key, value, hash }),
    {
        match self.find(hash, &key) {
            Some(i) => {
                proof {
                    lemma_entries_map_at(self@, i as int);
                }
                let slot = self.value_at_mut(i);
                let mut v = value;
                core::mem::swap(slot, &mut v);
                (false, Some(v))
            },
            None => {
                self.add_node(hash, key, value, allocator);
                (self.nodes.len() > MAX_LIST_LENGTH, None)
            },
        }
    }

    /// Unlinks the node for `(hash, key)` and returns its value.
    pub fn remove(&mut self, hash: u64, key: &K, allocator: &mut Allocator<EntryNode<K, V>>) -> (r:
        Option<V>)
        where
            K: Eq,
        requires
            key_eq_is_equality::<K>(),
            old(self).wf(),
            old(self).content().contains_key((hash, *key)) ==> old(allocator).size > 0,
        ensures
            final(self).wf(),
            final(self).content() == old(self).content().remove((hash, *key)),
            r is Some <==> old(self).content().contains_key((hash, *key)),
            r matches Some(v) ==> v == old(self).content()[(hash, *key)],
            r is Some ==> final(allocator).size == old(allocator).size - 1,
            r is None ==> final(allocator).size == old(allocator).size && *final(self) == *old(self),
            forall|h: u64| all_hashed(old(self)@, h) ==> all_hashed(final(self)@, h),
            r is Some ==> exists|i: int|
                0 <= i < old(self)@.len() && #[trigger] node_is(old(self)@[i], hash, *key) && final(self)@
                    == old(self)@.remove(i),
    {
        match self.find(hash, key) {
            Some(i) => {
                proof {
                    lemma_entries_map_at(self@, i as int);
                    lemma_entries_map_remove(self@, i as int);
                }
                let node = self.nodes.remove(i);
                Some(allocator.free(node).value)
            },
            None => {
                proof {
                    assert(!entries_map(self@).contains_key((hash, *key)));
                }
                None
            },
        }
    }

    /// Splits the chain by bit `bit` of each node's hash: the nodes where it is clear,
    /// then those where it is set, each in the order they had.
    pub fn split(self, bit: u64) -> (r: (ListBucket<K, V>, ListBucket<K, V>))
        requires
            self.wf(),
        ensures
            r.0@ == self@.filter(|n: EntryNode<K, V>| n.hash & bit == 0),
            r.1@ == self@.filter(|n: EntryNode<K, V>| n.hash & bit != 0),
            r.0.wf(),
            r.1.wf(),
            r.0.content() == keep_bit(self.content(), bit, false),
            r.1.content() == keep_bit(self.content(), bit, true),
    {
        let ghost s = self@;
        let mut rest = self.nodes;
        let mut lo: Vec<EntryNode<K, V>> = Vec::new();
        let mut hi: Vec<EntryNode<K, V>> = Vec::new();
        let ghost mut done: int = 0;
        proof {
            assert(entries_map(s.subrange(0, 0)) =~= Map::<(u64, K), V>::empty());
            assert(keep_bit(Map::<(u64, K), V>::empty(), bit, false) =~= Map::<(u64, K), V>::empty());
            assert(keep_bit(Map::<(u64, K), V>::empty(), bit, true) =~= Map::<(u64, K), V>::empty());
            assert(entries_map(lo@) =~= Map::<(u64, K), V>::empty());
        }
        while rest.len() > 0
            invariant
                0 <= done <= s.len(),
                rest@ == s.subrange(done, s.len() as int),
                lo@ == s.subrange(0, done).filter(|n: EntryNode<K, V>| n.hash & bit == 0),
                hi@ == s.subrange(0, done).filter(|n: EntryNode<K, V>| n.hash & bit != 0),
                unique_entries(s),
                unique_entries(lo@),
                unique_entries(hi@),
                entries_map(lo@) == keep_bit(entries_map(s.subrange(0, done)), bit, false),
                entries_map(hi@) == keep_bit(entries_map(s.subrange(0, done)), bit, true),
            decreases rest@.len(),
        {
            let node = rest.remove(0);
            proof {
                let pre = s.subrange(0, done);
                assert(node == s[done]);
                assert(s.subrange(0, done + 1) == pre.push(node));
                reveal(Seq::filter);
                assert(pre.push(node).drop_last() == pre);
                assert(unique_entries(pre));
                if has_entry(pre, node.hash, node.key) {
                    let j = choose|j: int| 0 <= j < pre.len() && #[trigger] node_is(pre[j], node.hash, node.key);
                    assert(s[j].hash == s[done].hash && s[j].key == s[done].key);
                }
                lemma_entries_map_push_back(pre, node);
                let m0 = entries_map(pre);
                let m1 = entries_map(pre.push(node));
                assert(!m0.contains_key((node.hash, node.key)));
                if has_entry(lo@, node.hash, node.key) {
                    let j = choose|j: int| 0 <= j < lo@.len() && #[trigger] node_is(lo@[j], node.hash, node.key);
                    lemma_entries_map_at(lo@, j);
                }
                if has_entry(hi@, node.hash, node.key) {
                    let j = choose|j: int| 0 <= j < hi@.len() && #[trigger] node_is(hi@[j], node.hash, node.key);
                    lemma_entries_map_at(hi@, j);
                }
                if node.hash & bit == 0 {
                    lemma_entries_map_push_back(lo@, node);
                    assert(keep_bit(m1, bit, false) =~= keep_bit(m0, bit, false).insert(
                        (node.hash, node.key),
                        node.value,
                    ));
                    assert(keep_bit(m1, bit, true) =~= keep_bit(m0, bit, true));
                } else {
                    lemma_entries_map_push_back(hi@, node);
                    assert(keep_bit(m1, bit, true) =~= keep_bit(m0, bit, true).insert(
                        (node.hash, node.key),
                        node.value,
                    ));
                    assert(keep_bit(m1, bit, false) =~= keep_bit(m0, bit, false));
                }
                done = done + 1;
            }
            if node.hash & bit == 0 {
                lo.push(node);
            } else {
                hi.push(node);
            }
        }
        proof {
            assert(s.subrange(0, s.len() as int) == s);
        }
        (ListBucket { nodes: lo }, ListBucket { nodes: hi })
    }

    /// Appends every entry's hash and borrows of its key and value, from the head,
    /// to `out`.
    pub fn collect<'a>(&'a self, out: &mut Vec<(u64, &'a K, &'a V)>)
        requires
            self.wf(),
        ensures
            final(out)@.len() == old(out)@.len() + self@.len(),
            final(out)@.subrange(0, old(out)@.len() as int) == old(out)@,
            forall|i: int|
                0 <= i < self@.len() ==> (#[trigger] final(out)@[old(out)@.len() + i]).0 == self@[i].hash
                    && *final(out)@[old(out)@.len() + i].1 == self@[i].key && *final(out)@[old(out)@.len()
                    + i].2 == self@[i].value,
            lists_exactly(final(out)@.subrange(old(out)@.len() as int, final(out)@.len() as int), self.content()),
    {
        let ghost n0 = out@.len();
        let mut i: usize = 0;
        while i < self.nodes.len()
            invariant
                i <= self@.len(),
                out@.len() == n0 + i,
                n0 == old(out)@.len(),
                out@.subrange(0, n0 as int) == old(out)@,
                forall|j: int|
                    0 <= j < i ==> (#[trigger] out@[n0 + j]).0 == self@[j].hash && *out@[n0 + j].1
                        == self@[j].key && *out@[n0 + j].2 == self@[j].value,
            decreases self@.len() - i,
        {
            let node = &self.nodes[i];
            let ghost pre = out@;
            out.push((node.hash, &node.key, &node.value));
            proof {
                assert(out@.subrange(0, n0 as int) =~= pre.subrange(0, n0 as int));
                assert forall|j: int| 0 <= j < i + 1 implies (#[trigger] out@[n0 + j]).0 == self@[j].hash
                    && *out@[n0 + j].1 == self@[j].key && *out@[n0 + j].2 == self@[j].value by {
                    if j < i {
                        assert(out@[n0 + j] == pre[n0 + j]);
                    }
                }
            }
            i = i + 1;
        }
        proof {
            let t = out@.subrange(n0 as int, out@.len() as int);
            let s0 = self@;
            assert forall|x: int| 0 <= x < t.len() implies #[trigger] self.content().contains_key((t[x].0, *t[x].1))
                && self.content()[(t[x].0, *t[x].1)] == *t[x].2 by {
                assert(t[x] == out@[n0 + x]);
                lemma_entries_map_at(s0, x);
            }
            assert forall|x: int, y: int|
                0 <= x < t.len() && 0 <= y < t.len() && x != y implies (#[trigger] t[x].0, *t[x].1) != (
                #[trigger] t[y].0,
                *t[y].1,
            ) by {
                assert(t[x] == out@[n0 + x] && t[y] == out@[n0 + y]);
                if s0[x].hash == s0[y].hash {
                    assert(s0[x].key != s0[y].key);
                }
            }
            assert forall|p: (u64, K)| #[trigger] self.content().contains_key(p) implies exists|x: int|
                0 <= x < t.len() && t[x].0 == p.0 && *t[x].1 == p.1 by {
                let x = entry_index(s0, p.0, p.1);
                assert(t[x] == out@[n0 + x]);
            }
        }
    }

    /// Walks the chain from the head.
    pub fn iter(&self) -> (r: ListBucketIter<'_, K, V>)
        ensures
            r.nodes@ == self@,
            r.index == 0,
    {
        ListBucketIter { nodes: &self.nodes, index: 0 }
    }

    /// Calls `f` on every entry, from the head; `f` may change the values, not the keys.
    pub fn foreach<F: Fn(&K, &mut V)>(&mut self, f: &F)
        requires
            forall|k: &K, v: &mut V| f.requires((k, v)),
        ensures
            old(self).wf() ==> final(self).wf(),
            final(self).content().dom() == old(self).content().dom(),
            final(self)@.len() == old(self)@.len(),
            forall|i: int|
                0 <= i < old(self)@.len() ==> (#[trigger] final(self)@[i]).key == old(self)@[i].key
                    && final(self)@[i].hash == old(self)@[i].hash,
    {
        let mut i: usize = 0;
        while i < self.nodes.len()
            invariant
                forall|k: &K, v: &mut V| f.requires((k, v)),
                i <= self@.len(),
                self@.len() == old(self)@.len(),
                forall|j: int|
                    0 <= j < old(self)@.len() ==> (#[trigger] self@[j]).key == old(self)@[j].key
                        && self@[j].hash == old(self)@[j].hash,
            decreases self@.len() - i,
        {
            let node = &mut self.nodes[i];
            f(&node.key, &mut node.value);
            i = i + 1;
        }
        proof {
            lemma_entries_map_same_keys(old(self)@, self@);
        }
    }

    /// The stored key and value for `(hash, key)`, the value to change in place.
    pub fn get_key_value_mut(&mut self, hash: u64, key: &K) -> (r: Option<(&K, &mut V)>)
        where
            K: Eq,
        requires
            key_eq_is_equality::<K>(),
            old(self).wf(),
        ensures
            r is Some <==> old(self).content().contains_key((hash, *key)),
            r is None ==> *final(self) == *old(self),
            r matches Some(e) ==> {
                &&& *e.0 == *key
                &&& *e.1 == old(self).content()[(hash, *key)]
                &&& final(self).wf()
                &&& final(self).content() == old(self).content().insert((hash, *key), *final(e.1))
                &&& final(self)@.len() == old(self)@.len()
                &&& forall|j: int|
                    0 <= j < old(self)@.len() ==> (#[trigger] final(self)@[j]).hash == old(self)@[j].hash
            },
    {
        match self.find(hash, key) {
            Some(i) => {
                proof {
                    lemma_entries_map_at(self@, i as int);
                }
                Some(self.entry_at_mut(i))
            },
            None => None,
        }
    }

    /// The value stored for `(hash, key)`, to change in place.
    pub fn get_mut(&mut self, hash: u64, key: &K) -> (r: Option<&mut V>)
        where
            K: Eq,
        requires
            key_eq_is_equality::<K>(),
            old(self).wf(),
        ensures
            r is Some <==> old(self).content().contains_key((hash, *key)),
            r is None ==> *final(self) == *old(self),
            r matches Some(v) ==> {
                &&& *v == old(self).content()[(hash, *key)]
                &&& final(self).wf()
                &&& final(self).content() == old(self).content().insert((hash, *key), *final(v))
            },
    {
        match self.get_key_value_mut(hash, key) {
            Some(e) => Some(e.1),
            None => None,
        }
    }

    /// The key and value of node `i`, the value to change in place.
    fn entry_at_mut(&mut self, i: usize) -> (r: (&K, &mut V))
        requires
            old(self).wf(),
            i < old(self)@.len(),
        ensures
            *r.0 == old(self)@[i as int].key,
            *r.1 == old(self)@[i as int].value,
            final(self).wf(),
            final(self)@.len() == old(self)@.len(),
            forall|j: int|
                0 <= j < old(self)@.len() ==> (#[trigger] final(self)@[j]).hash == old(self)@[j].hash
                    && final(self)@[j].key == old(self)@[j].key,
            final(self).content() == old(self).content().insert(
                (old(self)@[i as int].hash, old(self)@[i as int].key),
                *final(r.1),
            ),
    {
        let ghost s = self@;
        let node = &mut self.nodes[i];
        let r = (&node.key, &mut node.value);
        proof {
            let s2 = after_borrow(self.nodes)@;
            lemma_entries_map_set_value(s, s2, i as int);
        }
        r
    }

    /// The value of node `i`, to change in place.
    fn value_at_mut(&mut self, i: usize) -> (r: &mut V)
        requires
            old(self).wf(),
            i < old(self)@.len(),
        ensures
            *r == old(self)@[i as int].value,
            final(self).wf(),
            final(self)@.len() == old(self)@.len(),
            forall|j: int|
                0 <= j < old(self)@.len() ==> (#[trigger] final(self)@[j]).hash == old(self)@[j].hash
                    && final(self)@[j].key == old(self)@[j].key,
            final(self)@ == old(self)@.update(
                i as int,
                EntryNode { key: old(self)@[i as int].key, value: *final(r), hash: old(self)@[i as int].hash },
            ),
            final(self).content() == old(self).content().insert(
                (old(self)@[i as int].hash, old(self)@[i as int].key),
                *final(r),
            ),
    {
        let ghost s = self@;
        let node = &mut self.nodes[i];
        let r = &mut node.value;
        proof {
            let s2 = after_borrow(self.nodes)@;
            lemma_entries_map_set_value(s, s2, i as int);
            assert(s2 =~= s.update(i as int, EntryNode { key: s[i as int].key, value: *final(r), hash: s[i as int].hash }));
        }
        r
    }

    /// The value stored for `(hash, key)`.
    pub fn get(&self, hash: u64, key: &K) -> (r: Option<&V>)
        where
            K: Eq,
        requires
            key_eq_is_equality::<K>(),
            self.wf(),
        ensures
            r is Some <==> self.content().contains_key((hash, *key)),
            r matches Some(v) ==> *v == self.content()[(hash, *key)],
    {
        match self.find(hash, key) {
            Some(i) => {
                proof {
                    lemma_entries_map_at(self@, i as int);
                }
                Some(&self.nodes[i].value)
            },
            None => None,
        }
    }
}

/// A cursor over a chain, from the head.
pub struct ListBucketIter<'a, K, V> {
    pub nodes: &'a Vec<EntryNode<K, V>>,
    pub index: usize,
}

impl<'a, K, V> ListBucketIter<'a, K, V> {
    pub fn new(nodes: &'a Vec<EntryNode<K, V>>) -> (r: Self)
        ensures
            r.nodes == nodes,
            r.index == 0,
    {
        ListBucketIter { nodes, index: 0 }
    }

    /// The next entry, if any is left.
    pub fn next(&mut self) -> (r: Option<(&'a K, &'a V)>)
        ensures
            final(self).nodes == old(self).nodes,
            old(self).index < old(self).nodes@.len() ==> {
                &&& r matches Some(p) && *p.0 == old(self).nodes@[old(self).index as int].key && *p.1
                    == old(self).nodes@[old(self).index as int].value
                &&& final(self).index == old(self).index + 1
            },
            old(self).index >= old(self).nodes@.len() ==> r is None && final(self).index == old(
                self,
            ).index,
    {
        if self.index < self.nodes.len() {
            let node = &self.nodes[self.index];
            self.index = self.index + 1;
            Some((&node.key, &node.value))
        } else {
            None
        }
    }
}

} // verus!
