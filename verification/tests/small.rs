use std::collections::HashMap;

use stringmap::small::SlotData;
use stringmap::FnvHasher;
use stringmap::KeyHasher;
use stringmap::SmallStringMap;

#[test]
fn small_test_hash_map() {
    let mut map = SmallStringMap::<u64, 16, FnvHasher>::new(&FnvHasher);
    let mut cmp = HashMap::new();
    let hasher = FnvHasher;

    for _ in 0..10 {
        let value = rand::random::<u64>();
        let key = value.to_ne_bytes();
        let hash = hasher.hash(&key);

        let a1 = map.insert(SlotData::<16>::new(&key), hash, value, &hasher);
        let a2 = cmp.insert(key.to_vec(), value);
        assert_eq!(a1, a2);
    }

    // Test conflict conditions
    for _ in 0..1000 {
        let value = rand::random::<u16>() as u64;
        let key = value.to_ne_bytes();
        let hash = hasher.hash(&key);

        let a1 = map.insert(SlotData::<16>::new(&key), hash, value, &hasher);
        let a2 = cmp.insert(key.to_vec(), value);
        assert_eq!(a1, a2);
    }

    for (k, v) in map.into_pairs() {
        let value = cmp.remove(&k);
        assert_eq!(value, Some(v));
    }
    assert!(cmp.is_empty());
}

#[test]
fn test_conflict() {
    let mut map = SmallStringMap::<u64, 16, FnvHasher>::new(&FnvHasher);
    let hasher = FnvHasher;

    let value = 111111111111111u64;
    let key = value.to_ne_bytes();
    let hash = hasher.hash(&key as &[u8]);

    let a = map.insert(SlotData::<16>::new(&key), hash, value, &hasher);
    assert_eq!(a, None);

    for _ in 0..7 {
        let value = rand::random::<u64>();
        let key = value.to_ne_bytes();
        let hash = hasher.hash(&key as &[u8]);

        map.insert(SlotData::<16>::new(&key), hash, value, &hasher);
    }
    let a = map.insert(SlotData::<16>::new(&key), hash, value, &hasher);
    assert_eq!(a, Some(value));
}

#[test]
fn small_remove_and_get_mut() {
    let hasher = FnvHasher;
    let mut map = SmallStringMap::<u32, 8, FnvHasher>::new(&hasher);

    let key = *b"abcd";
    let hash = hasher.hash(&key);
    assert_eq!(map.insert(SlotData::<8>::new(&key), hash, 1, &hasher), None);
    assert_eq!(map.get(&key, hash), Some(&1));

    if let Some(v) = map.get_mut(&key, hash) {
        *v = 2;
    }
    assert_eq!(map.get(&key, hash), Some(&2));
    assert_eq!(map.len(), 1);

    assert_eq!(map.remove(&key, hash, &hasher), Some(2));
    assert_eq!(map.get(&key, hash), None);
    assert_eq!(map.len(), 0);
    assert_eq!(map.remove(&key, hash, &hasher), None);
}

#[test]
fn small_iter_matches_pairs() {
    let hasher = FnvHasher;
    let mut map = SmallStringMap::<u32, 8, FnvHasher>::new(&hasher);
    for i in 0u32..20 {
        let key = i.to_le_bytes();
        let hash = hasher.hash(&key);
        map.insert(SlotData::<8>::new(&key), hash, i, &hasher);
    }

    let mut it = map.iter();
    let mut seen = HashMap::new();
    while let Some((k, v)) = it.next() {
        seen.insert(k.to_vec(), *v);
    }
    assert_eq!(seen.len(), 20);
    for (k, v) in map.into_pairs() {
        assert_eq!(seen.remove(&k), Some(v));
    }
    assert!(seen.is_empty());
}
