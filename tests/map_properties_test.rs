use mutcrab::hash_map::HashMap;
use std::hash::{BuildHasherDefault, Hasher};

#[derive(Default)]
struct IdentityHasher(u64);

impl Hasher for IdentityHasher {
    fn finish(&self) -> u64 {
        self.0
    }

    fn write(&mut self, bytes: &[u8]) {
        for b in bytes.iter().rev() {
            self.0 = (self.0 << 8) | *b as u64;
        }
    }
}

type Identity = BuildHasherDefault<IdentityHasher>;

#[test]
fn identity_hasher_put_get_remove() {
    let mut map: HashMap<u32, &str, Identity> = HashMap::with_capacity_hasher(4, Identity::default());
    map.put(1, "a");
    map.put(2, "b");
    map.put(3, "c");
    assert_eq!(map.get(&2), Some(&"b"));
    assert_eq!(map.remove(&2), Some("b"));
    assert_eq!(map.get(&2), None);
    assert_eq!(map.size(), 2);
}

#[test]
fn entry_or_insert_on_empty_map() {
    let mut map = HashMap::<i32, i32>::new();
    assert_eq!(*map.entry(5).or_insert(10), 10);
    assert_eq!(*map.entry(5).or_insert(99), 10);
    assert_eq!(map.get(&5), Some(&10));
}

#[test]
fn empty_map_lookups() {
    let mut map = HashMap::<i32, i32>::new();
    assert!(map.is_empty());
    assert_eq!(map.get(&1), None);
    assert_eq!(map.get_mut(&1), None);
    assert_eq!(map.remove(&1), None);
    assert!(!map.contains_key(&1));
}

#[test]
fn get_mut_changes_in_place() {
    let mut map = HashMap::<i32, i32>::new();
    map.put(3, 30);
    *map.get_mut(&3).unwrap() += 1;
    assert_eq!(map.get(&3), Some(&31));
}

#[test]
fn put_if_absent_builds_from_key() {
    let mut map = HashMap::<i32, i32>::new();
    match map.entry(4) {
        mutcrab::entry::Entry::Vacant(v) => {
            let o = v.put_if_absent(|k| *k * 3);
            assert_eq!(*o.key(), 4);
            assert_eq!(*o.value(), 12);
        }
        mutcrab::entry::Entry::Occupied(_) => panic!("expected a vacant entry"),
    }
    assert_eq!(map.get(&4), Some(&12));
}

#[test]
fn many_keys_with_random_hasher() {
    let mut map = HashMap::<u32, u32>::with_capacity(2);
    for k in 0..2000u32 {
        assert_eq!(map.insert(k, k * 2), None);
    }
    assert_eq!(map.len(), 2000);
    for k in 0..2000u32 {
        assert_eq!(map.get(&k), Some(&(k * 2)));
    }
    assert_eq!(map.iter().len(), 2000);
}

#[test]
fn iteration_lists_every_entry_once() {
    let mut map = HashMap::<u32, u32>::with_capacity(2);
    for k in 0..300u32 {
        map.put(k, k + 1);
    }
    let mut keys: Vec<u32> = map.iter().into_iter().map(|(k, _)| *k).collect();
    keys.sort();
    assert_eq!(keys, (0..300u32).collect::<Vec<u32>>());
    for (k, v) in map.iter() {
        assert_eq!(*v, *k + 1);
    }
}

#[test]
fn and_modify_applies_closure_once() {
    let mut map = HashMap::<&str, i32>::new();
    map.insert("b", 2);
    let v = map.entry("b").and_modify(|x| *x = *x * 10 + 2).value();
    assert_eq!(*v, 22);
    let w = map.entry("c").and_modify(|x| *x += 5).value();
    assert_eq!(*w, 5);
    assert_eq!(map.get(&"c"), Some(&5));
}
