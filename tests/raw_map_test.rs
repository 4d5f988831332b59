use mutcrab::hash_table::HashTable;
use mutcrab::rbtree::RBTree;
use mutcrab::numbers::next_power_of_two;
use mutcrab::raw_map::RBTreeHashMap;

#[test]
fn base_test1() {
    let mut map = RBTreeHashMap::<i32, &str>::new();
    map.put(1, 1, &"a");
    map.put(2, 2, &"b");
    map.put(3, 3, &"c");
    map.put(4, 4, &"d");
    map.put(5, 5, &"e");

    assert_eq!(map.get(1, &1), Some(&"a"));
    assert_eq!(map.get(2, &2), Some(&"b"));
    assert_eq!(map.get(3, &3), Some(&"c"));
    assert_eq!(map.get(4, &4), Some(&"d"));
    assert_eq!(map.get(5, &5), Some(&"e"));
}

#[test]
fn base_tree_test1() {
    let mut map = RBTreeHashMap::<u8, char>::new();
    let hasher = |x: &u8| -> u64 { *x as u64 / 10 + 1 };
    for i in 0..10 {
        let hash = hasher(&i);
        let ch = (b'a' + i) as char;
        map.put(hash, i, ch);
        assert_eq!(map.size(), i as usize + 1);
        assert_eq!(map.get(hash, &i), Some(&ch));
    }
    for i in 10..16 {
        let ch = (b'a' + i) as char;
        map.put(hasher(&i), i, ch);
        assert_eq!(map.size(), i as usize + 1);
    }

    for i in 0..16 {
        let ch = (b'a' + i) as char;
        assert_eq!(map.get(hasher(&i), &i), Some(&ch));
    }
}

#[test]
fn raw_rbtree_hashmap_test_foreach() {
    let mut map = RBTreeHashMap::<u8, char>::new();
    let hasher = |x: &u8| -> u64 { *x as u64 / 10 + 1 };

    for i in 0..10 {
        let ch = (b'a' + i) as char;
        map.put(hasher(&i), i, ch);
    }
    for i in 10..16 {
        let ch = (b'a' + i) as char;
        map.put(hasher(&i), i, ch);
    }
    let mut keys: Vec<u8> = map.iter().into_iter().map(|(k, _v)| *k).collect();
    let mut values: Vec<char> = map.iter().into_iter().map(|(_k, v)| *v).collect();
    keys.sort();
    values.sort();
    assert_eq!(keys, vec![0, 1, 2, 3, 4, 5, 6, 7, 8, 9, 10, 11, 12, 13, 14, 15]);
    assert_eq!(
        values,
        vec!['a', 'b', 'c', 'd', 'e', 'f', 'g', 'h', 'i', 'j', 'k', 'l', 'm', 'n', 'o', 'p']
    );
}

#[test]
fn next_power_of_two_rounds_up_and_caps() {
    assert_eq!(next_power_of_two(0), 1);
    assert_eq!(next_power_of_two(1), 1);
    assert_eq!(next_power_of_two(2), 2);
    assert_eq!(next_power_of_two(3), 4);
    assert_eq!(next_power_of_two(16), 16);
    assert_eq!(next_power_of_two(17), 32);
    assert_eq!(next_power_of_two(1 << 31), 1 << 31);
    assert_eq!(next_power_of_two((1 << 31) + 1), 1 << 31);
    assert_eq!(next_power_of_two(usize::MAX), 1 << 31);
}

#[test]
fn table_is_sized_lazily_and_doubles() {
    let mut map = RBTreeHashMap::<u64, u64>::with_capacity(4);
    assert_eq!(map.tab.len(), 0);
    map.put(0, 0, 0);
    assert_eq!(map.tab.len(), 4);
    assert_eq!(map.threshold, 3);
    for k in 1..4u64 {
        map.put(k, k, k);
    }
    assert_eq!(map.tab.len(), 8);
    assert_eq!(map.threshold, 6);
    for k in 0..4u64 {
        assert_eq!(map.get(k, &k), Some(&k));
    }
}

#[test]
fn resize_reads_every_key_back() {
    let mut map = RBTreeHashMap::<u64, u64>::with_capacity(16);
    let n: u64 = 1000;
    for k in 0..n {
        let h = k.wrapping_mul(0x9E37_79B9_7F4A_7C15);
        assert_eq!(map.put(h, k, k + 1), None);
    }
    assert_eq!(map.size(), n as usize);
    assert!(map.tab.len() >= 1024);
    for k in 0..n {
        let h = k.wrapping_mul(0x9E37_79B9_7F4A_7C15);
        assert_eq!(map.get(h, &k), Some(&(k + 1)));
    }
}

#[test]
fn split_moves_keys_up_by_the_old_capacity() {
    let mut map = RBTreeHashMap::<u64, u64>::with_capacity(4);
    for h in [1u64, 5, 2, 6] {
        map.put(h, h, h);
    }
    // Doubling from 4 to 8: hash 5 and 6 have bit 4 set and move up by 4.
    assert_eq!(map.tab.len(), 8);
    assert_eq!(map.tab[1].get(1, &1), Some(&1));
    assert_eq!(map.tab[5].get(5, &5), Some(&5));
    assert_eq!(map.tab[2].get(2, &2), Some(&2));
    assert_eq!(map.tab[6].get(6, &6), Some(&6));
    assert_eq!(map.tab[1].get(5, &5), None);
    assert_eq!(map.size(), 4);
}

#[test]
fn identity_hash_example() {
    let mut map = RBTreeHashMap::<i32, &str>::with_capacity(4);
    map.put(1, 1, "a");
    map.put(2, 2, "b");
    map.put(3, 3, "c");
    assert_eq!(map.get(2, &2), Some(&"b"));
    assert_eq!(map.remove(2, &2), Some("b"));
    assert_eq!(map.get(2, &2), None);
    assert_eq!(map.size(), 2);
}

#[test]
fn entry_or_insert_keeps_first_value() {
    let mut map = RBTreeHashMap::<i32, i32>::new();
    assert_eq!(*map.entry(5, 5).or_insert(10), 10);
    assert_eq!(*map.entry(5, 5).or_insert(99), 10);
    assert_eq!(map.get(5, &5), Some(&10));
    assert_eq!(map.size(), 1);
}

#[test]
fn get_after_put_survives_other_operations() {
    let mut map = RBTreeHashMap::<u32, u32>::new();
    map.put(7, 7, 70);
    for k in 0..50u32 {
        if k != 7 {
            map.put(k as u64, k, k);
        }
    }
    for k in 0..50u32 {
        if k != 7 && k % 2 == 0 {
            map.remove(k as u64, &k);
        }
    }
    assert_eq!(map.get(7, &7), Some(&70));
    assert_eq!(map.put(7, 7, 71), Some(70));
    assert_eq!(map.get(7, &7), Some(&71));
    assert_eq!(map.remove(7, &7), Some(71));
    assert_eq!(map.get(7, &7), None);
}

#[test]
fn size_counts_distinct_keys_put_minus_removed() {
    let mut map = RBTreeHashMap::<u32, u32>::new();
    for k in 0..30u32 {
        map.put(k as u64, k, k);
        map.put(k as u64, k, k + 1);
    }
    assert_eq!(map.size(), 30);
    for k in 0..10u32 {
        assert_eq!(map.remove(k as u64, &k), Some(k + 1));
        assert_eq!(map.remove(k as u64, &k), None);
    }
    assert_eq!(map.size(), 20);
}

#[test]
fn colliding_keys_survive_resize_in_tree_buckets() {
    let mut map = RBTreeHashMap::<u32, u32>::with_capacity(2);
    for k in 0..40u32 {
        map.put((k % 4) as u64 * 2, k, k);
    }
    for k in 0..40u32 {
        assert_eq!(map.get((k % 4) as u64 * 2, &k), Some(&k));
    }
    let mut count = 0;
    map.foreach(&|_k: &u32, v: &mut u32| {
        *v += 1;
    });
    for k in 0..40u32 {
        assert_eq!(map.get((k % 4) as u64 * 2, &k), Some(&(k + 1)));
        count += 1;
    }
    assert_eq!(count, 40);
    assert_eq!(map.size(), 40);
}

#[test]
fn load_ratio_sets_threshold() {
    let mut map = RBTreeHashMap::<u32, u32>::with_capacity_ratio(8, 1, 2);
    map.put(0, 0, 0);
    assert_eq!(map.tab.len(), 8);
    assert_eq!(map.threshold, 4);
}

#[test]
fn list_table_put_get_remove_and_resize() {
    let mut t = HashTable::<u32, u32>::with_capacity(2);
    for k in 0..100u32 {
        assert_eq!(t.put(k as u64 % 7, k, k * 3), None);
    }
    assert_eq!(t.size(), 100);
    assert!(t.tab.len() >= 128);
    for k in 0..100u32 {
        assert_eq!(t.get(k as u64 % 7, &k), Some(&(k * 3)));
    }
    assert_eq!(t.remove(3, &3), Some(9));
    assert_eq!(t.get(3, &3), None);
    assert_eq!(t.iter().len(), 99);
}

#[test]
fn zero_load_ratio_doubles_on_every_put() {
    let mut map = RBTreeHashMap::<u32, u32>::with_capacity_ratio(2, 0, 4);
    map.put(0, 0, 0);
    assert_eq!(map.tab.len(), 2);
    map.put(1, 1, 1);
    assert_eq!(map.tab.len(), 4);
    assert_eq!(map.get(0, &0), Some(&0));
}

#[test]
fn put_on_present_key_keeps_tree_shape() {
    let mut tree = RBTree::new();
    for k in 1..20 {
        tree.put(k, k);
    }
    let before: Vec<(i32, bool)> = tree.walk().into_iter().map(|(k, _)| (*k, false)).collect();
    assert_eq!(tree.put(7, 70), Some(7));
    let after: Vec<(i32, bool)> = tree.walk().into_iter().map(|(k, _)| (*k, false)).collect();
    assert_eq!(before, after);
    assert_eq!(tree.get(&7), Some(&70));
}
