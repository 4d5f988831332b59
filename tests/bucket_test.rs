use mutcrab::allocator::Allocator;
use mutcrab::bucket::{Bucket, BucketEnum};
use mutcrab::list_bucket::{EntryNode, ListBucket};

#[test]
fn test_convert_to_tree() {
    let mut allocator = Allocator::new();
    let mut bucket: Bucket<i32, &str> = Bucket::new_list();
    let hasher = |_x: &i32| -> u64 { 1 };
    for i in 0..8 {
        bucket.write(hasher(&i), i, "a", &mut allocator);
        assert!(matches!(&bucket.bucket, BucketEnum::List(_)));
        assert_eq!(allocator.size, i as usize + 1);
    }
    bucket.write(hasher(&8), 8, "a", &mut allocator);
    assert_eq!(allocator.size, 9);
    assert!(matches!(&bucket.bucket, BucketEnum::Tree(_)));
}

#[test]
fn escalation_keeps_every_entry() {
    let mut allocator = Allocator::new();
    let mut bucket: Bucket<i32, i32> = Bucket::new_list();
    for i in 0..9 {
        assert_eq!(bucket.write((i % 3) as u64, i, i * 10, &mut allocator), None);
    }
    assert!(matches!(&bucket.bucket, BucketEnum::Tree(_)));
    for i in 0..9 {
        assert_eq!(bucket.get((i % 3) as u64, &i), Some(&(i * 10)));
    }
    assert_eq!(bucket.get(1, &0), None);
    assert_eq!(bucket.write(2, 5, 55, &mut allocator), Some(50));
    assert_eq!(allocator.size, 9);
    assert_eq!(bucket.remove(2, &5, &mut allocator), Some(55));
    assert_eq!(bucket.remove(2, &5, &mut allocator), None);
    assert_eq!(allocator.size, 8);
    assert_eq!(bucket.iter().len(), 8);
}

#[test]
fn rewriting_a_key_does_not_escalate() {
    let mut allocator = Allocator::new();
    let mut bucket: Bucket<i32, i32> = Bucket::new_list();
    for i in 0..8 {
        bucket.write(7, i, i, &mut allocator);
    }
    for i in 0..8 {
        assert_eq!(bucket.write(7, i, i + 1, &mut allocator), Some(i));
    }
    assert!(matches!(&bucket.bucket, BucketEnum::List(_)));
    assert_eq!(allocator.size, 8);
}

#[test]
fn chain_writes_go_to_the_head() {
    let mut allocator = Allocator::new();
    let mut list: ListBucket<&str, i32> = ListBucket::new();
    list.write(1, "a", 1, &mut allocator);
    list.write(2, "b", 2, &mut allocator);
    list.write(3, "c", 3, &mut allocator);
    let mut it = list.iter();
    let mut keys = Vec::new();
    while let Some((k, _)) = it.next() {
        keys.push(*k);
    }
    assert_eq!(keys, vec!["c", "b", "a"]);
    assert_eq!(list.count(), 3);
}

#[test]
fn list_split_partitions_by_hash_bit_in_order() {
    let mut allocator = Allocator::new();
    let mut list: ListBucket<u32, u32> = ListBucket::new();
    for (h, k) in [(0u64, 0u32), (4, 1), (8, 2), (12, 3), (16, 4)] {
        list.write(h, k, k, &mut allocator);
    }
    let (lo, hi) = list.split(4);
    let lo_keys: Vec<u32> = lo.nodes.iter().map(|n| n.key).collect();
    let hi_keys: Vec<u32> = hi.nodes.iter().map(|n| n.key).collect();
    assert_eq!(lo_keys, vec![4, 2, 0]);
    assert_eq!(hi_keys, vec![3, 1]);
}

#[test]
fn tree_bucket_split_chooses_representation_by_size() {
    let mut allocator = Allocator::new();
    let mut bucket: Bucket<u32, u32> = Bucket::new_list();
    // Nine entries in one slot of a table of 8: hashes 8 apart, so bit 8 alternates.
    for k in 0..9u32 {
        bucket.write(3 + 8 * k as u64, k, k, &mut allocator);
    }
    assert!(matches!(&bucket.bucket, BucketEnum::Tree(_)));
    let (lo, hi) = bucket.split(8);
    // Even k has bit 8 clear: five entries; odd k: four.
    assert!(matches!(&lo.bucket, BucketEnum::List(_)));
    assert!(matches!(&hi.bucket, BucketEnum::List(_)));
    for k in 0..9u32 {
        let h = 3 + 8 * k as u64;
        if k % 2 == 0 {
            assert_eq!(lo.get(h, &k), Some(&k));
            assert_eq!(hi.get(h, &k), None);
        } else {
            assert_eq!(hi.get(h, &k), Some(&k));
            assert_eq!(lo.get(h, &k), None);
        }
    }
}

#[test]
fn tree_bucket_split_keeps_large_halves_as_trees() {
    let mut allocator = Allocator::new();
    let mut bucket: Bucket<u32, u32> = Bucket::new_list();
    for k in 0..20u32 {
        bucket.write(5 + 16 * (k % 2) as u64, k, k, &mut allocator);
    }
    let (lo, hi) = bucket.split(16);
    assert!(matches!(&lo.bucket, BucketEnum::Tree(_)));
    assert!(matches!(&hi.bucket, BucketEnum::Tree(_)));
    assert_eq!(lo.iter().len(), 10);
    assert_eq!(hi.iter().len(), 10);
}

#[test]
fn push_links_existing_nodes() {
    let mut bucket: Bucket<u8, u8> = Bucket::new_list();
    bucket.push(9, EntryNode { key: 1, value: 10, hash: 9 });
    bucket.push(9, EntryNode { key: 2, value: 20, hash: 9 });
    assert_eq!(bucket.get(9, &1), Some(&10));
    assert_eq!(bucket.get(9, &2), Some(&20));
    assert_eq!(bucket.get(8, &2), None);
}
