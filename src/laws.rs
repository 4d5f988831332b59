use crate::list_bucket::keep_bit;
use vstd::prelude::*;

verus! {

/// A change made to a table, keyed by hash and key, as its contracts describe it.
pub enum TableOp<K, V> {
    Put((u64, K), V),
    Remove((u64, K)),
}

/// What a table holds after `ops`, starting from `m`: `put` inserts, `remove` removes.
pub open spec fn apply_ops<K, V>(m: Map<(u64, K), V>, ops: Seq<TableOp<K, V>>) -> Map<(u64, K), V>
    decreases ops.len(),
{
    if ops.len() == 0 {
        m
    } else {
        let m2 = match ops[0] {
            TableOp::Put(p, v) => m.insert(p, v),
            TableOp::Remove(p) => m.remove(p),
        };
        apply_ops(m2, ops.drop_first())
    }
}

/// The operation touches the pair `p`.
pub open spec fn touches<K, V>(op: TableOp<K, V>, p: (u64, K)) -> bool {
    match op {
        TableOp::Put(q, _) => q == p,
        TableOp::Remove(q) => q == p,
    }
}

/// The pairs stored after `ops` on an empty table: each pair whose latest operation
/// was a `put`.
pub open spec fn live_keys<K, V>(ops: Seq<TableOp<K, V>>) -> Set<(u64, K)>
    decreases ops.len(),
{
    if ops.len() == 0 {
        Set::empty()
    } else {
        let s = live_keys(ops.drop_last());
        match ops.last() {
            TableOp::Put(p, _) => s.insert(p),
            TableOp::Remove(p) => s.remove(p),
        }
    }
}

/// After `put(p, v)`, the table holds `v` for `p` through any sequence of puts and
/// removes of other pairs; a lookup of `p` then returns `v`.
pub proof fn law_get_after_put<K, V>(m: Map<(u64, K), V>, p: (u64, K), v: V, ops: Seq<TableOp<K, V>>)
    requires
        forall|i: int| 0 <= i < ops.len() ==> !touches(#[trigger] ops[i], p),
    ensures
        apply_ops(m.insert(p, v), ops).contains_key(p),
        apply_ops(m.insert(p, v), ops)[p] == v,
    decreases ops.len(),
{
    if ops.len() > 0 {
        assert(!touches(ops[0], p));
        let m2 = match ops[0] {
            TableOp::Put(q, w) => m.insert(q, w),
            TableOp::Remove(q) => m.remove(q),
        };
        let m3 = match ops[0] {
            TableOp::Put(q, w) => m.insert(p, v).insert(q, w),
            TableOp::Remove(q) => m.insert(p, v).remove(q),
        };
        assert(m3 =~= m2.insert(p, v));
        assert forall|i: int| 0 <= i < ops.drop_first().len() implies !touches(#[trigger] ops.drop_first()[i], p) by {
            assert(ops.drop_first()[i] == ops[i + 1]);
        }
        law_get_after_put(m2, p, v, ops.drop_first());
    }
}

/// Starting from an empty table, the pairs stored are those put and not removed
/// since, so the table's size is their number.
pub proof fn law_size_counts_live_keys<K, V>(ops: Seq<TableOp<K, V>>)
    ensures
        apply_ops(Map::<(u64, K), V>::empty(), ops).dom() == live_keys(ops),
        live_keys(ops).finite(),
        apply_ops(Map::<(u64, K), V>::empty(), ops).len() == live_keys(ops).len(),
    decreases ops.len(),
{
    if ops.len() > 0 {
        let pre = ops.drop_last();
        law_size_counts_live_keys(pre);
        lemma_apply_ops_last(Map::<(u64, K), V>::empty(), ops);
        let m = apply_ops(Map::<(u64, K), V>::empty(), pre);
        match ops.last() {
            TableOp::Put(p, v) => {
                assert(m.insert(p, v).dom() =~= live_keys(pre).insert(p));
            },
            TableOp::Remove(p) => {
                assert(m.remove(p).dom() =~= live_keys(pre).remove(p));
            },
        }
    }
}

/// Splitting a bucket's pairs by one hash bit loses and duplicates nothing: every
/// pair goes to exactly one half, with its value.
pub proof fn law_split_partitions<K, V>(m: Map<(u64, K), V>, bit: u64)
    ensures
        keep_bit(m, bit, false).dom().disjoint(keep_bit(m, bit, true).dom()),
        keep_bit(m, bit, false).union_prefer_right(keep_bit(m, bit, true)) == m,
{
    assert(keep_bit(m, bit, false).union_prefer_right(keep_bit(m, bit, true)) =~= m);
}

/// Applying a sequence is applying all but its last operation, then the last.
proof fn lemma_apply_ops_last<K, V>(m: Map<(u64, K), V>, ops: Seq<TableOp<K, V>>)
    requires
        ops.len() > 0,
    ensures
        apply_ops(m, ops) == match ops.last() {
            TableOp::Put(p, v) => apply_ops(m, ops.drop_last()).insert(p, v),
            TableOp::Remove(p) => apply_ops(m, ops.drop_last()).remove(p),
        },
    decreases ops.len(),
{
    if ops.len() > 1 {
        let m2 = match ops[0] {
            TableOp::Put(q, w) => m.insert(q, w),
            TableOp::Remove(q) => m.remove(q),
        };
        let rest = ops.drop_first();
        lemma_apply_ops_last(m2, rest);
        assert(rest.last() == ops.last());
        assert(rest.drop_last() =~= ops.drop_last().drop_first());
        assert(ops.drop_last()[0] == ops[0]);
        assert(apply_ops(m, ops.drop_last()) == apply_ops(m2, ops.drop_last().drop_first()));
        assert(apply_ops(m, ops) == apply_ops(m2, rest));
    } else {
        assert(ops.drop_last() =~= Seq::<TableOp<K, V>>::empty());
        assert(ops.drop_first() =~= Seq::<TableOp<K, V>>::empty());
        assert(ops.last() == ops[0]);
        let m2 = match ops[0] {
            TableOp::Put(q, w) => m.insert(q, w),
            TableOp::Remove(q) => m.remove(q),
        };
        assert(apply_ops(m, ops) == apply_ops(m2, ops.drop_first()));
        assert(apply_ops(m2, ops.drop_first()) == m2);
        assert(apply_ops(m, ops.drop_last()) == m);
    }
}

} // verus!
