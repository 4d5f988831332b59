use crate::list_bucket::key_eq_is_equality;
use core::cmp::Ordering;
use vstd::laws_cmp::{obeys_cmp, obeys_cmp_ord, obeys_cmp_partial_ord, obeys_partial_cmp_spec_properties};
use vstd::prelude::*;
use vstd::std_specs::cmp::{OrdSpec, PartialEqSpec, PartialOrdSpec};

verus! {

/// A node of a red-black tree: a key, its value, a color and two owned subtrees.
pub struct TreeNode<K, V> {
    pub key: K,
    pub value: V,
    pub is_red: bool,
    pub left: Option<Box<TreeNode<K, V>>>,
    pub right: Option<Box<TreeNode<K, V>>>,
}

impl<K, V> TreeNode<K, V> {
    /// A detached node.
    pub fn new(key: K, value: V, is_red: bool) -> (r: Self)
        ensures
            r.key == key,
            r.value == value,
            r.is_red == is_red,
            r.left is None,
            r.right is None,
    {
        TreeNode { key, value, is_red, left: None, right: None }
    }
}

/// `cmp` on `K` is a total order whose equal keys are equal values.
pub open spec fn key_order_is_total<K: Ord>() -> bool {
    obeys_cmp::<K>() && key_eq_is_equality::<K>()
}

/// `a` orders before `b`.
pub open spec fn lt<K: Ord>(a: K, b: K) -> bool {
    a.cmp_spec(&b) == Ordering::Less
}

/// The facts about a total order that the tree relies on.
pub proof fn lemma_key_order<K: Ord>()
    requires
        key_order_is_total::<K>(),
    ensures
        K::obeys_cmp_spec(),
        forall|a: K, b: K| #[trigger] a.cmp_spec(&b) == Ordering::Equal <==> a == b,
        forall|a: K, b: K| #[trigger] a.cmp_spec(&b) == Ordering::Greater <==> lt(b, a),
        forall|a: K, b: K, c: K| #[trigger] lt(a, b) && #[trigger] lt(b, c) ==> lt(a, c),
        forall|a: K| !(#[trigger] lt(a, a)),
{
    reveal(obeys_cmp_partial_ord);
    reveal(obeys_cmp_ord);
    reveal(obeys_partial_cmp_spec_properties);
    assert forall|a: K, b: K| #[trigger] a.cmp_spec(&b) == Ordering::Equal <==> a == b by {
        assert(a.partial_cmp_spec(&b) == Some(a.cmp_spec(&b)));
    }
    assert forall|a: K, b: K| #[trigger] a.cmp_spec(&b) == Ordering::Greater <==> lt(b, a) by {
        assert(a.partial_cmp_spec(&b) == Some(a.cmp_spec(&b)));
        assert(b.partial_cmp_spec(&a) == Some(b.cmp_spec(&a)));
    }
    assert forall|a: K, b: K, c: K| #[trigger] lt(a, b) && #[trigger] lt(b, c) implies lt(a, c) by {
        assert(a.partial_cmp_spec(&b) == Some(a.cmp_spec(&b)));
        assert(b.partial_cmp_spec(&c) == Some(b.cmp_spec(&c)));
        assert(a.partial_cmp_spec(&c) == Some(a.cmp_spec(&c)));
    }
    assert forall|a: K| !(#[trigger] lt(a, a)) by {
        assert(a.partial_cmp_spec(&a) == Some(a.cmp_spec(&a)));
    }
}

/// What a subtree maps each key to.
pub open spec fn tree_map<K, V>(t: Option<Box<TreeNode<K, V>>>) -> Map<K, V>
    decreases t,
{
    match t {
        None => Map::empty(),
        Some(n) => tree_map(n.left).union_prefer_right(tree_map(n.right)).insert(n.key, n.value),
    }
}

/// Every key of the left subtree orders before the node's key, every key of the right
/// subtree after it, at every node.
pub open spec fn bst<K: Ord, V>(t: Option<Box<TreeNode<K, V>>>) -> bool
    decreases t,
{
    match t {
        None => true,
        Some(n) => {
            &&& forall|k: K| #[trigger] tree_map(n.left).contains_key(k) ==> lt(k, n.key)
            &&& forall|k: K| #[trigger] tree_map(n.right).contains_key(k) ==> lt(n.key, k)
            &&& bst(n.left)
            &&& bst(n.right)
        },
    }
}

/// The subtree has a red root.
pub open spec fn is_red<K, V>(t: Option<Box<TreeNode<K, V>>>) -> bool {
    t matches Some(n) && n.is_red
}

/// The number of black nodes on the leftmost path down from the root.
pub open spec fn black_height<K, V>(t: Option<Box<TreeNode<K, V>>>) -> nat
    decreases t,
{
    match t {
        None => 0,
        Some(n) => black_height(n.left) + if n.is_red {
            0nat
        } else {
            1nat
        },
    }
}

/// No red node has a red child, and every path down from a node passes the same
/// number of black nodes.
pub open spec fn red_black<K, V>(t: Option<Box<TreeNode<K, V>>>) -> bool
    decreases t,
{
    match t {
        None => true,
        Some(n) => {
            &&& red_black(n.left)
            &&& red_black(n.right)
            &&& black_height(n.left) == black_height(n.right)
            &&& n.is_red ==> !is_red(n.left) && !is_red(n.right)
        },
    }
}

/// A red node whose subtrees are red-black trees of equal black height, at most one
/// of them with a red root: what an insertion may leave below a red parent.
pub open spec fn red_black_but_root<K, V>(n: Box<TreeNode<K, V>>) -> bool {
    &&& n.is_red
    &&& red_black(n.left)
    &&& red_black(n.right)
    &&& black_height(n.left) == black_height(n.right)
    &&& !(is_red(n.left) && is_red(n.right))
}

/// A subtree as it may stand after an insertion below it.
pub open spec fn nearly_red_black<K, V>(t: Option<Box<TreeNode<K, V>>>) -> bool {
    red_black(t) || (t matches Some(n) && red_black_but_root(n))
}


/// Rotating a subtree right keeps what it maps.
proof fn lemma_rotate_map<K: Ord, V>(
    a: Map<K, V>,
    b: Map<K, V>,
    c: Map<K, V>,
    pk: K,
    pv: V,
    gk: K,
    gv: V,
)
    requires
        key_order_is_total::<K>(),
        forall|k: K| #[trigger] a.contains_key(k) ==> lt(k, pk),
        forall|k: K| #[trigger] b.contains_key(k) ==> lt(pk, k) && lt(k, gk),
        forall|k: K| #[trigger] c.contains_key(k) ==> lt(gk, k),
        lt(pk, gk),
    ensures
        a.union_prefer_right(b.union_prefer_right(c).insert(gk, gv)).insert(pk, pv) == a.union_prefer_right(
            b,
        ).insert(pk, pv).union_prefer_right(c).insert(gk, gv),
{
    lemma_key_order::<K>();
    let m1 = a.union_prefer_right(b.union_prefer_right(c).insert(gk, gv)).insert(pk, pv);
    let m2 = a.union_prefer_right(b).insert(pk, pv).union_prefer_right(c).insert(gk, gv);
    assert forall|k: K| m1.contains_key(k) <==> m2.contains_key(k) by {
        if c.contains_key(k) {
            assert(lt(pk, k));
        }
    }
    assert forall|k: K| m1.contains_key(k) implies m1[k] == m2[k] by {
        if c.contains_key(k) {
            assert(lt(pk, k));
            assert(k != pk);
            assert(!a.contains_key(k));
            assert(!b.contains_key(k));
        }
        if a.contains_key(k) {
            assert(k != gk);
            assert(!c.contains_key(k));
        }
        if b.contains_key(k) {
            assert(!c.contains_key(k));
        }
    }
    assert(m1 =~= m2);
}

/// Rotating a subtree twice, to bring a grandchild up, keeps what it maps.
proof fn lemma_double_rotate_map<K: Ord, V>(
    a: Map<K, V>,
    b: Map<K, V>,
    c: Map<K, V>,
    d: Map<K, V>,
    pk: K,
    pv: V,
    nk: K,
    nv: V,
    gk: K,
    gv: V,
)
    requires
        key_order_is_total::<K>(),
        forall|k: K| #[trigger] a.contains_key(k) ==> lt(k, pk),
        forall|k: K| #[trigger] b.contains_key(k) ==> lt(pk, k) && lt(k, nk),
        forall|k: K| #[trigger] c.contains_key(k) ==> lt(nk, k) && lt(k, gk),
        forall|k: K| #[trigger] d.contains_key(k) ==> lt(gk, k),
        lt(pk, nk),
        lt(nk, gk),
    ensures
        a.union_prefer_right(b).insert(pk, pv).union_prefer_right(c.union_prefer_right(d).insert(gk, gv)).insert(
            nk,
            nv,
        ) == a.union_prefer_right(b.union_prefer_right(c).insert(nk, nv)).insert(pk, pv).union_prefer_right(
            d,
        ).insert(gk, gv),
{
    lemma_key_order::<K>();
    let m1 = a.union_prefer_right(b).insert(pk, pv).union_prefer_right(
        c.union_prefer_right(d).insert(gk, gv),
    ).insert(nk, nv);
    let m2 = a.union_prefer_right(b.union_prefer_right(c).insert(nk, nv)).insert(pk, pv).union_prefer_right(
        d,
    ).insert(gk, gv);
    assert forall|k: K| m1.contains_key(k) <==> m2.contains_key(k) by {
    }
    assert forall|k: K| m1.contains_key(k) implies m1[k] == m2[k] by {
        if a.contains_key(k) {
            assert(lt(k, nk));
            assert(lt(k, gk));
            assert(!b.contains_key(k) && !c.contains_key(k) && !d.contains_key(k));
        }
        if b.contains_key(k) {
            assert(lt(k, gk));
            assert(!a.contains_key(k) && !c.contains_key(k) && !d.contains_key(k));
        }
        if c.contains_key(k) {
            assert(lt(pk, k));
            assert(!a.contains_key(k) && !b.contains_key(k) && !d.contains_key(k));
        }
        if d.contains_key(k) {
            assert(lt(nk, k));
            assert(lt(pk, k));
            assert(!a.contains_key(k) && !b.contains_key(k) && !c.contains_key(k));
        }
    }
    assert(m1 =~= m2);
}

/// The subtree with the value stored for `k` replaced by `v`; shape, keys and colors
/// stay as they are.
pub open spec fn with_value<K, V>(t: Option<Box<TreeNode<K, V>>>, k: K, v: V) -> Option<Box<TreeNode<K, V>>>
    decreases t,
{
    match t {
        None => None,
        Some(n) => if n.key == k {
            Some(Box::new(TreeNode { key: n.key, value: v, is_red: n.is_red, left: n.left, right: n.right }))
        } else {
            Some(
                Box::new(
                    TreeNode {
                        key: n.key,
                        value: n.value,
                        is_red: n.is_red,
                        left: with_value(n.left, k, v),
                        right: with_value(n.right, k, v),
                    },
                ),
            )
        },
    }
}

/// Replacing the value of a key a subtree does not hold changes nothing.
proof fn lemma_with_value_absent<K, V>(t: Option<Box<TreeNode<K, V>>>, k: K, v: V)
    requires
        !tree_map(t).contains_key(k),
    ensures
        with_value(t, k, v) == t,
    decreases t,
{
    match t {
        None => {},
        Some(n) => {
            lemma_with_value_absent(n.left, k, v);
            lemma_with_value_absent(n.right, k, v);
        },
    }
}

/// Replacing a value keeps the colors and black heights.
proof fn lemma_with_value_colors<K, V>(t: Option<Box<TreeNode<K, V>>>, k: K, v: V)
    ensures
        red_black(with_value(t, k, v)) == red_black(t),
        black_height(with_value(t, k, v)) == black_height(t),
        is_red(with_value(t, k, v)) == is_red(t),
    decreases t,
{
    match t {
        None => {},
        Some(n) => {
            lemma_with_value_colors(n.left, k, v);
            lemma_with_value_colors(n.right, k, v);
        },
    }
}

/// Whether a subtree has a red root.
fn link_is_red<K, V>(t: &Option<Box<TreeNode<K, V>>>) -> (r: bool)
    ensures
        r == is_red(*t),
{
    match t {
        Some(n) => n.is_red,
        None => false,
    }
}

/// Paints the root of a subtree black.
fn paint_black<K: Ord, V>(n: Box<TreeNode<K, V>>) -> (r: Box<TreeNode<K, V>>)
    ensures
        r.key == n.key && r.value == n.value && r.left == n.left && r.right == n.right,
        !r.is_red,
        tree_map(Some(r)) == tree_map(Some(n)),
        bst(Some(r)) == bst(Some(n)),
        black_height(Some(r)) == black_height(n.left) + 1,
        red_black(Some(n)) ==> red_black(Some(r)),
        !n.is_red ==> r == n,
{
    let TreeNode { key, value, is_red: _, left, right } = *n;
    Box::new(TreeNode { key, value, is_red: false, left, right })
}

/// Repairs a red node with a red child standing left of a black node: by recoloring
/// when the other child is red too, else by one or two rotations.  Any other node is
/// returned as it is.
fn balance_left<K: Ord, V>(node: Box<TreeNode<K, V>>) -> (r: Box<TreeNode<K, V>>)
    requires
        key_order_is_total::<K>(),
        bst(Some(node)),
        nearly_red_black(node.left),
        red_black(node.right),
        black_height(node.left) == black_height(node.right),
        !red_black(node.left) ==> !node.is_red,
    ensures
        bst(Some(r)),
        tree_map(Some(r)) == tree_map(Some(node)),
        black_height(Some(r)) == black_height(Some(node)),
        red_black(node.left) ==> r == node,
        !red_black(node.left) ==> red_black(Some(r)),
{
    proof {
        lemma_key_order::<K>();
    }
    let ghost old_map = tree_map(Some(node));
    let TreeNode { key: gk, value: gv, is_red: g_red, left: gl, right: gr } = *node;
    match gl {
        None => {
            let r = Box::new(TreeNode { key: gk, value: gv, is_red: g_red, left: None, right: gr });
            assert(r == node);
            r
        },
        Some(p) => {
            let TreeNode { key: pk, value: pv, is_red: p_red, left: pl, right: pr } = *p;
            let outer = link_is_red(&pl);
            let inner = link_is_red(&pr);
            if !p_red || (!outer && !inner) {
                let lifted_parent = Box::new(TreeNode { key: pk, value: pv, is_red: p_red, left: pl, right: pr });
                return Box::new(TreeNode { key: gk, value: gv, is_red: g_red, left: Some(lifted_parent), right: gr });
            }
            if link_is_red(&gr) {
                let lifted_parent = Box::new(TreeNode { key: pk, value: pv, is_red: false, left: pl, right: pr });
                match gr {
                    Some(u) => {
                        let black_uncle = paint_black(u);
                        let r = Box::new(TreeNode { key: gk, value: gv, is_red: true, left: Some(lifted_parent), right: Some(black_uncle) });
                        proof {
                            assert(tree_map(Some(lifted_parent)) == tree_map(node.left));
                            assert(bst(Some(lifted_parent)) == bst(node.left));
                            assert(tree_map(Some(black_uncle)) == tree_map(node.right));
                            assert(black_height(Some(lifted_parent)) == black_height(node.left) + 1);
                            assert(red_black(Some(lifted_parent)));
                            assert(red_black(Some(black_uncle)));
                            assert(tree_map(Some(r)) =~= old_map);
                        }
                        return r;
                    },
                    None => {
                        proof {
                            assert(false);
                        }
                        return Box::new(TreeNode { key: gk, value: gv, is_red: g_red, left: Some(lifted_parent), right: None });
                    },
                }
            }
            if outer {
                let lowered_grand = Box::new(TreeNode { key: gk, value: gv, is_red: true, left: pr, right: gr });
                let r = Box::new(TreeNode { key: pk, value: pv, is_red: false, left: pl, right: Some(lowered_grand) });
                proof {
                    assert(node.left == Some(p));
                    assert(bst(Some(p)));
                    assert(forall|k: K| #[trigger] tree_map(pl).contains_key(k) ==> lt(k, pk));
                    assert(forall|k: K| #[trigger] tree_map(pr).contains_key(k) ==> lt(pk, k));
                    assert(forall|k: K| #[trigger] tree_map(pr).contains_key(k) ==> tree_map(node.left).contains_key(k));
                    assert(tree_map(node.left).contains_key(pk));
                    assert(lt(pk, gk));
                    lemma_rotate_map(tree_map(pl), tree_map(pr), tree_map(gr), pk, pv, gk, gv);
                    assert(tree_map(Some(lowered_grand)) == tree_map(pr).union_prefer_right(tree_map(gr)).insert(gk, gv));
                    assert(tree_map(node.left) == tree_map(pl).union_prefer_right(tree_map(pr)).insert(pk, pv));
                    assert(old_map == tree_map(node.left).union_prefer_right(tree_map(gr)).insert(gk, gv));
                    assert(tree_map(Some(r)) == old_map);
                    assert(bst(Some(lowered_grand)));
                    assert(red_black_but_root(p));
                    assert(black_height(node.left) == black_height(pl));
                    assert(red_black(Some(lowered_grand)));
                    assert(black_height(Some(lowered_grand)) == black_height(pr));
                }
                r
            } else {
                match pr {
                    Some(n) => {
                        let TreeNode { key: nk, value: nv, is_red: _, left: nl, right: nr } = *n;
                        let lifted_parent = Box::new(TreeNode { key: pk, value: pv, is_red: true, left: pl, right: nl });
                        let lowered_grand = Box::new(TreeNode { key: gk, value: gv, is_red: true, left: nr, right: gr });
                        let r = Box::new(TreeNode { key: nk, value: nv, is_red: false, left: Some(lifted_parent), right: Some(lowered_grand) });
                        proof {
                            assert(node.left == Some(p));
                            assert(bst(Some(p)));
                            assert(pr == Some(n));
                            assert(bst(Some(n)));
                            assert(tree_map(pr).contains_key(nk));
                            assert(forall|k: K| #[trigger] tree_map(nl).contains_key(k) ==> tree_map(pr).contains_key(k));
                            assert(forall|k: K| #[trigger] tree_map(nr).contains_key(k) ==> tree_map(pr).contains_key(k));
                            assert(forall|k: K| #[trigger] tree_map(pr).contains_key(k) ==> tree_map(node.left).contains_key(k));
                            assert(tree_map(node.left).contains_key(pk));
                            assert(tree_map(node.left).contains_key(nk));
                            assert(tree_map(pr) == tree_map(nl).union_prefer_right(tree_map(nr)).insert(nk, nv));
                            assert(tree_map(node.left) == tree_map(pl).union_prefer_right(tree_map(pr)).insert(pk, pv));
                            assert(lt(pk, nk));
                            assert(lt(nk, gk));
                            lemma_double_rotate_map(
                                tree_map(pl),
                                tree_map(nl),
                                tree_map(nr),
                                tree_map(gr),
                                pk,
                                pv,
                                nk,
                                nv,
                                gk,
                                gv,
                            );
                            assert(tree_map(Some(lowered_grand)) == tree_map(nr).union_prefer_right(tree_map(gr)).insert(gk, gv));
                            assert(tree_map(Some(lifted_parent)) == tree_map(pl).union_prefer_right(tree_map(nl)).insert(pk, pv));
                            assert(old_map == tree_map(node.left).union_prefer_right(tree_map(gr)).insert(gk, gv));
                            assert(tree_map(Some(r)) == old_map);
                            assert(bst(Some(lifted_parent)));
                            assert(bst(Some(lowered_grand)));
                            assert(red_black_but_root(p));
                            assert(red_black(Some(n)));
                            assert(black_height(node.left) == black_height(pl));
                            assert(black_height(Some(n)) == black_height(nl));
                            assert(red_black(Some(lifted_parent)));
                            assert(red_black(Some(lowered_grand)));
                            assert(black_height(Some(lifted_parent)) == black_height(pl));
                            assert(black_height(Some(lowered_grand)) == black_height(nr));
                        }
                        r
                    },
                    None => {
                        proof {
                            assert(false);
                        }
                        let lifted_parent = Box::new(TreeNode { key: pk, value: pv, is_red: p_red, left: pl, right: None });
                        Box::new(TreeNode { key: gk, value: gv, is_red: g_red, left: Some(lifted_parent), right: gr })
                    },
                }
            }
        },
    }
}


/// The mirror image of `balance_left`, for a red child standing right.
fn balance_right<K: Ord, V>(node: Box<TreeNode<K, V>>) -> (r: Box<TreeNode<K, V>>)
    requires
        key_order_is_total::<K>(),
        bst(Some(node)),
        nearly_red_black(node.right),
        red_black(node.left),
        black_height(node.left) == black_height(node.right),
        !red_black(node.right) ==> !node.is_red,
    ensures
        bst(Some(r)),
        tree_map(Some(r)) == tree_map(Some(node)),
        black_height(Some(r)) == black_height(Some(node)),
        red_black(node.right) ==> r == node,
        !red_black(node.right) ==> red_black(Some(r)),
{
    proof {
        lemma_key_order::<K>();
    }
    let ghost old_map = tree_map(Some(node));
    let TreeNode { key: gk, value: gv, is_red: g_red, left: gl, right: gr } = *node;
    match gr {
        None => {
            let r = Box::new(TreeNode { key: gk, value: gv, is_red: g_red, left: gl, right: None });
            assert(r == node);
            r
        },
        Some(p) => {
            let TreeNode { key: pk, value: pv, is_red: p_red, left: pl, right: pr } = *p;
            let outer = link_is_red(&pr);
            let inner = link_is_red(&pl);
            if !p_red || (!outer && !inner) {
                let lifted_parent = Box::new(TreeNode { key: pk, value: pv, is_red: p_red, left: pl, right: pr });
                return Box::new(TreeNode { key: gk, value: gv, is_red: g_red, left: gl, right: Some(lifted_parent) });
            }
            if link_is_red(&gl) {
                let lifted_parent = Box::new(TreeNode { key: pk, value: pv, is_red: false, left: pl, right: pr });
                match gl {
                    Some(u) => {
                        let black_uncle = paint_black(u);
                        let r = Box::new(TreeNode { key: gk, value: gv, is_red: true, left: Some(black_uncle), right: Some(lifted_parent) });
                        proof {
                            assert(tree_map(Some(lifted_parent)) == tree_map(node.right));
                            assert(bst(Some(lifted_parent)) == bst(node.right));
                            assert(tree_map(Some(black_uncle)) == tree_map(node.left));
                            assert(black_height(Some(lifted_parent)) == black_height(node.right) + 1);
                            assert(red_black(Some(lifted_parent)));
                            assert(red_black(Some(black_uncle)));
                            assert(tree_map(Some(r)) =~= old_map);
                        }
                        return r;
                    },
                    None => {
                        proof {
                            assert(false);
                        }
                        return Box::new(TreeNode { key: gk, value: gv, is_red: g_red, left: None, right: Some(lifted_parent) });
                    },
                }
            }
            if outer {
                let lowered_grand = Box::new(TreeNode { key: gk, value: gv, is_red: true, left: gl, right: pl });
                let r = Box::new(TreeNode { key: pk, value: pv, is_red: false, left: Some(lowered_grand), right: pr });
                proof {
                    assert(node.right == Some(p));
                    assert(bst(Some(p)));
                    assert(forall|k: K| #[trigger] tree_map(pl).contains_key(k) ==> lt(k, pk));
                    assert(forall|k: K| #[trigger] tree_map(pr).contains_key(k) ==> lt(pk, k));
                    assert(forall|k: K| #[trigger] tree_map(pl).contains_key(k) ==> tree_map(node.right).contains_key(k));
                    assert(tree_map(node.right).contains_key(pk));
                    assert(lt(gk, pk));
                    lemma_rotate_map(tree_map(gl), tree_map(pl), tree_map(pr), gk, gv, pk, pv);
                    assert(tree_map(Some(lowered_grand)) == tree_map(gl).union_prefer_right(tree_map(pl)).insert(gk, gv));
                    assert(tree_map(node.right) == tree_map(pl).union_prefer_right(tree_map(pr)).insert(pk, pv));
                    assert(old_map == tree_map(gl).union_prefer_right(tree_map(node.right)).insert(gk, gv));
                    assert(tree_map(Some(r)) == old_map);
                    assert(bst(Some(lowered_grand)));
                    assert(red_black_but_root(p));
                    assert(black_height(node.right) == black_height(pl));
                    assert(red_black(Some(lowered_grand)));
                    assert(black_height(Some(lowered_grand)) == black_height(gl));
                }
                r
            } else {
                match pl {
                    Some(n) => {
                        let TreeNode { key: nk, value: nv, is_red: _, left: nl, right: nr } = *n;
                        let lowered_grand = Box::new(TreeNode { key: gk, value: gv, is_red: true, left: gl, right: nl });
                        let lifted_parent = Box::new(TreeNode { key: pk, value: pv, is_red: true, left: nr, right: pr });
                        let r = Box::new(TreeNode { key: nk, value: nv, is_red: false, left: Some(lowered_grand), right: Some(lifted_parent) });
                        proof {
                            assert(node.right == Some(p));
                            assert(bst(Some(p)));
                            assert(pl == Some(n));
                            assert(bst(Some(n)));
                            assert(tree_map(pl).contains_key(nk));
                            assert(forall|k: K| #[trigger] tree_map(nl).contains_key(k) ==> tree_map(pl).contains_key(k));
                            assert(forall|k: K| #[trigger] tree_map(nr).contains_key(k) ==> tree_map(pl).contains_key(k));
                            assert(forall|k: K| #[trigger] tree_map(pl).contains_key(k) ==> tree_map(node.right).contains_key(k));
                            assert(tree_map(node.right).contains_key(pk));
                            assert(tree_map(node.right).contains_key(nk));
                            assert(tree_map(pl) == tree_map(nl).union_prefer_right(tree_map(nr)).insert(nk, nv));
                            assert(tree_map(node.right) == tree_map(pl).union_prefer_right(tree_map(pr)).insert(pk, pv));
                            assert(lt(gk, nk));
                            assert(lt(nk, pk));
                            lemma_double_rotate_map(
                                tree_map(gl),
                                tree_map(nl),
                                tree_map(nr),
                                tree_map(pr),
                                gk,
                                gv,
                                nk,
                                nv,
                                pk,
                                pv,
                            );
                            assert(forall|k: K| #[trigger] tree_map(pr).contains_key(k) ==> lt(nk, k));
                            lemma_rotate_map(tree_map(gl), tree_map(pl), tree_map(pr), gk, gv, pk, pv);
                            assert(tree_map(Some(lowered_grand)) == tree_map(gl).union_prefer_right(tree_map(nl)).insert(gk, gv));
                            assert(tree_map(Some(lifted_parent)) == tree_map(nr).union_prefer_right(tree_map(pr)).insert(pk, pv));
                            assert(old_map == tree_map(gl).union_prefer_right(tree_map(node.right)).insert(gk, gv));
                            assert(tree_map(Some(r)) == old_map);
                            assert(bst(Some(lifted_parent)));
                            assert(bst(Some(lowered_grand)));
                            assert(red_black_but_root(p));
                            assert(red_black(Some(n)));
                            assert(black_height(node.right) == black_height(pl));
                            assert(black_height(Some(n)) == black_height(nl));
                            assert(red_black(Some(lifted_parent)));
                            assert(red_black(Some(lowered_grand)));
                            assert(black_height(Some(lowered_grand)) == black_height(gl));
                            assert(black_height(Some(lifted_parent)) == black_height(nr));
                        }
                        r
                    },
                    None => {
                        proof {
                            assert(false);
                        }
                        let lifted_parent = Box::new(TreeNode { key: pk, value: pv, is_red: p_red, left: None, right: pr });
                        Box::new(TreeNode { key: gk, value: gv, is_red: g_red, left: gl, right: Some(lifted_parent) })
                    },
                }
            }
        },
    }
}

/// Inserts `key` below `link` as a red leaf, or replaces its value, repairing the
/// colors on the way back up.  Returns the new subtree and the value replaced.
fn insert_link<K: Ord, V>(link: Option<Box<TreeNode<K, V>>>, key: K, value: V) -> (r: (
    Box<TreeNode<K, V>>,
    Option<V>,
))
    requires
        key_order_is_total::<K>(),
        bst(link),
        red_black(link),
    ensures
        bst(Some(r.0)),
        tree_map(Some(r.0)) == tree_map(link).insert(key, value),
        r.1 is Some <==> tree_map(link).contains_key(key),
        r.1 matches Some(v) ==> v == tree_map(link)[key],
        black_height(Some(r.0)) == black_height(link),
        is_red(link) ==> red_black_but_root(r.0),
        !is_red(link) ==> red_black(Some(r.0)),
        tree_map(link).contains_key(key) ==> Some(r.0) == with_value(link, key, value),
    decreases link,
{
    proof {
        lemma_key_order::<K>();
    }
    match link {
        None => {
            let r = Box::new(TreeNode::new(key, value, true));
            proof {
                assert(tree_map(Some(r)) =~= tree_map(link).insert(key, value));
            }
            (r, None)
        },
        Some(node) => {
            let ghost old_map = tree_map(Some(node));
            let TreeNode { key: nk, value: nv, is_red, left, right } = *node;
            match key.cmp(&nk) {
                Ordering::Equal => {
                    let r = Box::new(TreeNode { key: nk, value, is_red, left, right });
                    proof {
                        assert(!tree_map(left).contains_key(nk));
                        assert(!tree_map(right).contains_key(nk));
                        assert(tree_map(Some(r)) =~= old_map.insert(key, value));
                    }
                    (r, Some(nv))
                },
                Ordering::Less => {
                    let (nl, old) = insert_link(left, key, value);
                    let n2 = Box::new(TreeNode { key: nk, value: nv, is_red, left: Some(nl), right });
                    proof {
                        if tree_map(left).contains_key(key) {
                            lemma_with_value_absent(right, key, value);
                            lemma_with_value_colors(left, key, value);
                            assert(Some(n2) == with_value(Some(node), key, value));
                        }
                        assert(!tree_map(right).contains_key(key));
                        assert(tree_map(Some(n2)) =~= old_map.insert(key, value));
                        assert(bst(Some(n2)));
                    }
                    (balance_left(n2), old)
                },
                Ordering::Greater => {
                    let (nr, old) = insert_link(right, key, value);
                    let n2 = Box::new(TreeNode { key: nk, value: nv, is_red, left, right: Some(nr) });
                    proof {
                        if tree_map(right).contains_key(key) {
                            lemma_with_value_absent(left, key, value);
                            lemma_with_value_colors(right, key, value);
                            assert(Some(n2) == with_value(Some(node), key, value));
                        }
                        assert(!tree_map(left).contains_key(key));
                        assert(tree_map(Some(n2)) =~= old_map.insert(key, value));
                        assert(bst(Some(n2)));
                    }
                    (balance_right(n2), old)
                },
            }
        },
    }
}


/// The pairs of a subtree in ascending key order.
pub open spec fn inorder<K, V>(t: Option<Box<TreeNode<K, V>>>) -> Seq<(K, V)>
    decreases t,
{
    match t {
        None => Seq::empty(),
        Some(n) => inorder(n.left) + seq![(n.key, n.value)] + inorder(n.right),
    }
}

/// Reads a sequence of borrowed pairs as the pairs themselves.
pub open spec fn deref_pairs<K, V>(s: Seq<(&K, &V)>) -> Seq<(K, V)> {
    s.map_values(|p: (&K, &V)| (*p.0, *p.1))
}

/// The in-order pairs of a search tree list what it maps, in strictly ascending order.
pub proof fn lemma_inorder<K: Ord, V>(t: Option<Box<TreeNode<K, V>>>)
    requires
        key_order_is_total::<K>(),
        bst(t),
    ensures
        forall|i: int|
            0 <= i < inorder(t).len() ==> #[trigger] tree_map(t).contains_key(inorder(t)[i].0)
                && tree_map(t)[inorder(t)[i].0] == inorder(t)[i].1,
        forall|k: K|
            #[trigger] tree_map(t).contains_key(k) ==> exists|i: int|
                0 <= i < inorder(t).len() && #[trigger] inorder(t)[i].0 == k,
        forall|i: int, j: int|
            0 <= i < j < inorder(t).len() ==> lt(#[trigger] inorder(t)[i].0, #[trigger] inorder(t)[j].0),
    decreases t,
{
    lemma_key_order::<K>();
    match t {
        None => {},
        Some(n) => {
            lemma_inorder(n.left);
            lemma_inorder(n.right);
            let l = inorder(n.left);
            let r = inorder(n.right);
            let s = inorder(t);
            assert(s == l + seq![(n.key, n.value)] + r);
            assert forall|i: int|
                0 <= i < s.len() implies #[trigger] tree_map(t).contains_key(s[i].0) && tree_map(t)[s[i].0]
                    == s[i].1 by {
                if i < l.len() {
                    assert(s[i] == l[i]);
                    assert(tree_map(n.left).contains_key(l[i].0));
                    assert(lt(l[i].0, n.key));
                    if tree_map(n.right).contains_key(l[i].0) {
                        assert(lt(n.key, l[i].0));
                    }
                } else if i > l.len() {
                    assert(s[i] == r[i - l.len() - 1]);
                    assert(tree_map(n.right).contains_key(r[i - l.len() - 1].0));
                }
            }
            assert forall|k: K| #[trigger] tree_map(t).contains_key(k) implies exists|i: int|
                0 <= i < s.len() && #[trigger] s[i].0 == k by {
                if k == n.key {
                    assert(s[l.len() as int].0 == k);
                } else if tree_map(n.right).contains_key(k) {
                    let j = choose|j: int| 0 <= j < r.len() && #[trigger] r[j].0 == k;
                    assert(s[l.len() + 1 + j].0 == k);
                } else {
                    assert(tree_map(n.left).contains_key(k));
                    let j = choose|j: int| 0 <= j < l.len() && #[trigger] l[j].0 == k;
                    assert(s[j].0 == k);
                }
            }
            assert forall|i: int, j: int| 0 <= i < j < s.len() implies lt(
                #[trigger] s[i].0,
                #[trigger] s[j].0,
            ) by {
                let li = l.len() as int;
                if i < li {
                    assert(tree_map(n.left).contains_key(l[i].0));
                    if j < li {
                        assert(lt(l[i].0, l[j].0));
                    } else if j > li {
                        assert(tree_map(n.right).contains_key(r[j - li - 1].0));
                    }
                } else if i == li {
                    assert(tree_map(n.right).contains_key(r[j - li - 1].0));
                } else {
                    assert(lt(r[i - li - 1].0, r[j - li - 1].0));
                }
            }
        },
    }
}

/// Finds the value of `key` below `link`.
fn link_get<'a, K: Ord, V>(link: &'a Option<Box<TreeNode<K, V>>>, key: &K) -> (r: Option<&'a V>)
    requires
        key_order_is_total::<K>(),
        bst(*link),
    ensures
        r is Some <==> tree_map(*link).contains_key(*key),
        r matches Some(v) ==> *v == tree_map(*link)[*key],
    decreases *link,
{
    proof {
        lemma_key_order::<K>();
    }
    match link {
        None => None,
        Some(node) => match key.cmp(&node.key) {
            Ordering::Equal => {
                proof {
                    assert(!tree_map(node.left).contains_key(node.key));
                    assert(!tree_map(node.right).contains_key(node.key));
                }
                Some(&node.value)
            },
            Ordering::Less => {
                proof {
                    assert(!tree_map(node.right).contains_key(*key));
                }
                link_get(&node.left, key)
            },
            Ordering::Greater => {
                proof {
                    assert(!tree_map(node.left).contains_key(*key));
                }
                link_get(&node.right, key)
            },
        },
    }
}

/// Finds the value of `key` below `link`, to change in place.
fn link_get_mut<'a, K: Ord, V>(link: &'a mut Option<Box<TreeNode<K, V>>>, key: &K) -> (r: Option<&'a mut V>)
    requires
        key_order_is_total::<K>(),
        bst(*old(link)),
    ensures
        r is Some <==> tree_map(*old(link)).contains_key(*key),
        r is None ==> *final(link) == *old(link),
        r matches Some(v) ==> {
            &&& *v == tree_map(*old(link))[*key]
            &&& bst(*final(link))
            &&& tree_map(*final(link)) == tree_map(*old(link)).insert(*key, *final(v))
            &&& red_black(*final(link)) == red_black(*old(link))
            &&& black_height(*final(link)) == black_height(*old(link))
            &&& is_red(*final(link)) == is_red(*old(link))
        },
    decreases *old(link),
{
    proof {
        lemma_key_order::<K>();
    }
    match link {
        None => None,
        Some(node) => {
            let ghost n0 = **node;
            match key.cmp(&node.key) {
                Ordering::Equal => {
                    proof {
                        assert(!tree_map(n0.left).contains_key(n0.key));
                        assert(!tree_map(n0.right).contains_key(n0.key));
                    }
                    let r = &mut node.value;
                    proof {
                        let t2 = after_borrow(*link);
                        assert(tree_map(t2) =~= tree_map(Some(Box::new(n0))).insert(*key, *final(r)));
                    }
                    Some(r)
                },
                Ordering::Less => {
                    proof {
                        assert(!tree_map(n0.right).contains_key(*key));
                    }
                    let r = link_get_mut(&mut node.left, key);
                    proof {
                        if r is Some {
                            let t2 = after_borrow(*link);
                            assert(tree_map(t2) =~= tree_map(Some(Box::new(n0))).insert(*key, *final(r.unwrap())));
                        }
                    }
                    r
                },
                Ordering::Greater => {
                    proof {
                        assert(!tree_map(n0.left).contains_key(*key));
                    }
                    let r = link_get_mut(&mut node.right, key);
                    proof {
                        if r is Some {
                            let t2 = after_borrow(*link);
                            assert(tree_map(t2) =~= tree_map(Some(Box::new(n0))).insert(*key, *final(r.unwrap())));
                        }
                    }
                    r
                },
            }
        },
    }
}


/// Moves the pairs of a subtree onto `out`, in ascending order.
fn drain_link<K, V>(link: Option<Box<TreeNode<K, V>>>, out: &mut Vec<(K, V)>)
    ensures
        final(out)@ == old(out)@ + inorder(link),
    decreases link,
{
    match link {
        None => {},
        Some(node) => {
            let TreeNode { key, value, is_red: _, left, right } = *node;
            drain_link(left, out);
            out.push((key, value));
            drain_link(right, out);
            proof {
                assert(out@ =~= old(out)@ + inorder(Some(node)));
            }
        },
    }
}

/// Appends borrows of the pairs of a subtree to `out`, in ascending order.
fn collect_link<'a, K, V>(link: &'a Option<Box<TreeNode<K, V>>>, out: &mut Vec<(&'a K, &'a V)>)
    ensures
        deref_pairs(final(out)@) == deref_pairs(old(out)@) + inorder(*link),
    decreases *link,
{
    match link {
        None => {
            assert(deref_pairs(out@) =~= deref_pairs(old(out)@) + inorder(*link));
        },
        Some(node) => {
            collect_link(&node.left, out);
            let ghost mid = out@;
            out.push((&node.key, &node.value));
            assert(deref_pairs(out@) =~= deref_pairs(mid) + seq![(node.key, node.value)]);
            collect_link(&node.right, out);
            assert(deref_pairs(out@) =~= deref_pairs(old(out)@) + inorder(*link));
        },
    }
}

/// The order a tree is walked in: the root, the keys above it in ascending order,
/// then the keys below it in descending order.
pub open spec fn walk_order<K, V>(t: Option<Box<TreeNode<K, V>>>) -> Seq<(K, V)> {
    match t {
        None => Seq::empty(),
        Some(n) => {
            let l = inorder(n.left);
            seq![(n.key, n.value)] + inorder(n.right) + Seq::new(l.len(), |j: int| l[l.len() - 1 - j])
        },
    }
}

/// A red-black tree mapping keys to values; it has no removal.
pub struct RBTree<K, V> {
    pub root: Option<Box<TreeNode<K, V>>>,
}

impl<K, V> RBTree<K, V> {
    pub open spec fn view(&self) -> Map<K, V> {
        tree_map(self.root)
    }

    pub fn new() -> (r: Self)
        ensures
            r@ == Map::<K, V>::empty(),
            r.root is None,
    {
        RBTree { root: None }
    }

    /// Borrows every pair in ascending key order.
    pub fn iter(&self) -> (r: Vec<(&K, &V)>)
        ensures
            deref_pairs(r@) == inorder(self.root),
    {
        let mut out: Vec<(&K, &V)> = Vec::new();
        collect_link(&self.root, &mut out);
        assert(deref_pairs(out@) =~= inorder(self.root));
        out
    }

    /// Borrows every pair: the root first, then the keys above it in ascending order,
    /// then the keys below it in descending order.
    pub fn walk(&self) -> (r: Vec<(&K, &V)>)
        ensures
            deref_pairs(r@) == walk_order(self.root),
    {
        let mut out: Vec<(&K, &V)> = Vec::new();
        match &self.root {
            None => {
                assert(deref_pairs(out@) =~= walk_order(self.root));
            },
            Some(n) => {
                out.push((&n.key, &n.value));
                collect_link(&n.right, &mut out);
                let mut before: Vec<(&K, &V)> = Vec::new();
                collect_link(&n.left, &mut before);
                let ghost l = inorder(n.left);
                let ghost head = deref_pairs(out@);
                assert(deref_pairs(before@) =~= l);
                assert(head =~= seq![(n.key, n.value)] + inorder(n.right));
                while before.len() > 0
                    invariant
                        l.len() >= before@.len(),
                        deref_pairs(before@) == l.subrange(0, before@.len() as int),
                        deref_pairs(out@) == head + Seq::new(
                            (l.len() - before@.len()) as nat,
                            |j: int| l[l.len() - 1 - j],
                        ),
                    decreases before@.len(),
                {
                    let ghost m = before@.len();
                    let ghost pre = before@;
                    let p = before.pop().unwrap();
                    assert(pre == before@.push(p));
                    assert(deref_pairs(pre)[m - 1] == (*p.0, *p.1));
                    assert(deref_pairs(pre)[m - 1] == l.subrange(0, m as int)[m - 1]);
                    assert(deref_pairs(before@) =~= l.subrange(0, before@.len() as int));
                    assert((*p.0, *p.1) == l[m - 1]);
                    let ghost pre_out = out@;
                    out.push(p);
                    assert(deref_pairs(out@) =~= deref_pairs(pre_out).push((*p.0, *p.1)));
                    assert(deref_pairs(out@) =~= head + Seq::new(
                        (l.len() - before@.len()) as nat,
                        |j: int| l[l.len() - 1 - j],
                    ));
                }
                assert(deref_pairs(out@) =~= walk_order(self.root));
            },
        }
        out
    }

    /// Empties the tree and hands out its pairs in ascending order.
    pub fn clean_transfer(&mut self) -> (r: Vec<(K, V)>)
        ensures
            r@ == inorder(old(self).root),
            final(self).root is None,
    {
        let mut root = None;
        core::mem::swap(&mut self.root, &mut root);
        let mut out: Vec<(K, V)> = Vec::new();
        drain_link(root, &mut out);
        assert(out@ =~= inorder(old(self).root));
        out
    }
}

impl<K: Ord, V> RBTree<K, V> {
    /// Keys are in search order, no red node has a red child, every path down passes
    /// the same number of black nodes, and the root is black.
    pub open spec fn wf(&self) -> bool {
        &&& bst(self.root)
        &&& red_black(self.root)
        &&& !is_red(self.root)
    }

    /// The value stored for `key`.
    pub fn get(&self, key: &K) -> (r: Option<&V>)
        requires
            key_order_is_total::<K>(),
            self.wf(),
        ensures
            r is Some <==> self@.contains_key(*key),
            r matches Some(v) ==> *v == self@[*key],
    {
        link_get(&self.root, key)
    }

    /// The value stored for `key`, to change in place.
    pub fn get_mut(&mut self, key: &K) -> (r: Option<&mut V>)
        requires
            key_order_is_total::<K>(),
            old(self).wf(),
        ensures
            r is Some <==> old(self)@.contains_key(*key),
            r is None ==> *final(self) == *old(self),
            r matches Some(v) ==> {
                &&& *v == old(self)@[*key]
                &&& final(self).wf()
                &&& final(self)@ == old(self)@.insert(*key, *final(v))
            },
    {
        link_get_mut(&mut self.root, key)
    }

    /// Whether `key` is stored.
    pub fn contains(&self, key: &K) -> (r: bool)
        requires
            key_order_is_total::<K>(),
            self.wf(),
        ensures
            r == self@.contains_key(*key),
    {
        self.get(key).is_some()
    }

    /// Stores `value` for `key` and returns the value it replaced.  The tree stays a
    /// search tree whose root is black, with no red node under a red node and the
    /// same number of black nodes on every path down.
    pub fn put(&mut self, key: K, value: V) -> (r: Option<V>)
        requires
            key_order_is_total::<K>(),
            old(self).wf(),
        ensures
            final(self).wf(),
            bst(final(self).root),
            red_black(final(self).root),
            !is_red(final(self).root),
            old(self)@.contains_key(key) ==> final(self).root == with_value(old(self).root, key, value),
            final(self)@ == old(self)@.insert(key, value),
            r is Some <==> old(self)@.contains_key(key),
            r matches Some(v) ==> v == old(self)@[key],
    {
        let mut root = None;
        core::mem::swap(&mut self.root, &mut root);
        let ghost key0 = key;
        let ghost value0 = value;
        let ghost root0 = old(self).root;
        let (n, replaced) = insert_link(root, key, value);
        proof {
            if tree_map(root0).contains_key(key0) {
                lemma_with_value_colors(root0, key0, value0);
            }
        }
        self.root = Some(paint_black(n));
        replaced
    }

    /// Links a detached node's pair into the tree; returns the value it replaced.
    pub fn merge_node(&mut self, node: TreeNode<K, V>) -> (r: Option<V>)
        requires
            key_order_is_total::<K>(),
            old(self).wf(),
        ensures
            final(self).wf(),
            final(self)@ == old(self)@.insert(node.key, node.value),
            old(self)@.contains_key(node.key) ==> final(self).root == with_value(old(self).root, node.key, node.value),
            r is Some <==> old(self)@.contains_key(node.key),
            r matches Some(v) ==> v == old(self)@[node.key],
    {
        let TreeNode { key, value, is_red: _, left: _, right: _ } = node;
        self.put(key, value)
    }

    /// The value stored for `key`, first storing `value` for it if there is none.
    pub fn get_or_insert(&mut self, key: K, value: V) -> (r: &mut V)
        where
            K: Copy,
        requires
            key_order_is_total::<K>(),
            old(self).wf(),
        ensures
            *r == if old(self)@.contains_key(key) {
                old(self)@[key]
            } else {
                value
            },
            final(self).wf(),
            final(self)@ == old(self)@.insert(key, *final(r)),
    {
        if !self.contains(&key) {
            self.put(key, value);
        }
        self.get_mut(&key).unwrap()
    }
}

} // verus!
