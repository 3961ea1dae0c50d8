use std::collections::HashMap;

use bumpalo::Bump;
use stringmap::large::SlotData;
use stringmap::FnvHasher;
use stringmap::KeyHasher;
use stringmap::LargeStringMap;

#[test]
fn large_test_hash_map() {
    let bump = Bump::new();
    let mut map = LargeStringMap::<u64, FnvHasher>::new(&FnvHasher);
    let mut cmp = HashMap::new();
    let hasher = FnvHasher;

    for _ in 0..50000 {
        let value = rand::random::<u64>();
        let key = value.to_ne_bytes();
        let hash = hasher.hash(&key);

        map.insert(SlotData::new(&bump, &key, hash), hash, value, &hasher);
        cmp.insert(key.to_vec(), value);
    }

    // Test conflict conditions
    for _ in 0..100000 {
        let value = rand::random::<u16>() as u64;
        let key = value.to_ne_bytes();
        let hash = hasher.hash(&key);

        map.insert(SlotData::new(&bump, &key, hash), hash, value, &hasher);
        cmp.insert(key.to_vec(), value);
    }

    for (k, v) in map.into_pairs() {
        let value = cmp.remove(&k);
        assert_eq!(value, Some(v));
    }
    assert!(cmp.is_empty());
}

#[test]
fn large_try_insert_and_remove() {
    let bump = Bump::new();
    let hasher = FnvHasher;
    let mut map = LargeStringMap::<u32, FnvHasher>::new(&hasher);

    let key: Vec<u8> = (0u8..30).collect();
    let hash = hasher.hash(&key);

    assert!(map.try_insert(SlotData::new(&bump, &key, hash), hash, 1, &hasher).is_none());
    match map.try_insert(SlotData::new(&bump, &key, hash), hash, 2, &hasher) {
        Some((stored, rejected)) => {
            assert_eq!(*stored, 1);
            assert_eq!(rejected, 2);
        },
        None => panic!("second try_insert must hit the stored entry"),
    }
    assert_eq!(map.get(&key, hash), Some(&1));

    assert_eq!(map.remove(&key, hash, &hasher), Some(1));
    assert_eq!(map.get(&key, hash), None);
}
