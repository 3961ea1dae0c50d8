use std::collections::HashMap;

use bumpalo::Bump;
use stringmap::FnvHasher;
use stringmap::KeyHasher;
use stringmap::KeyRef;
use stringmap::Slot;
use stringmap::StringMap;

#[test]
fn adaptive_test_hash_map() {
    let bump = Bump::new();
    let mut map = StringMap::new(&bump);
    let mut cmp = HashMap::new();

    for _ in 0..50000 {
        let value = rand::random::<[u8; 10]>();

        map.insert(KeyRef::classify(&value), Vec::from(value));
        cmp.insert(value.into_iter().collect::<Vec<_>>(), Vec::from(value));
    }

    // Test conflict conditions
    for _ in 0..100000 {
        let value = rand::random::<[u8; 4]>();

        map.insert(KeyRef::classify(&value), Vec::from(value));
        cmp.insert(value.into_iter().collect::<Vec<_>>(), Vec::from(value));
    }

    for (k, v) in map.into_pairs() {
        let value = cmp.remove(&k);
        assert_eq!(value, Some(v));
    }
    assert!(cmp.is_empty());
}

#[test]
fn classification_by_length() {
    for len in 0..=40usize {
        let zeros = vec![0u8; len];
        let ones = vec![0xffu8; len];
        let tag = |k: &KeyRef| match k {
            KeyRef::Empty => 0,
            KeyRef::S8(_) => 1,
            KeyRef::S16(_) => 2,
            KeyRef::S24(_) => 3,
            KeyRef::Large(_) => 4,
        };
        let expected = match len {
            0 => 0,
            1..=8 => 1,
            9..=16 => 2,
            17..=24 => 3,
            _ => 4,
        };
        assert_eq!(tag(&KeyRef::classify(&zeros)), expected);
        assert_eq!(tag(&KeyRef::classify(&ones)), expected);
        assert_eq!(KeyRef::classify(&zeros).key(), &zeros[..]);
    }
}

#[test]
fn hash_depends_on_bytes_alone() {
    let hasher = FnvHasher;

    // Known FNV-1a 64-bit values.
    assert_eq!(hasher.hash(b""), 0xcbf2_9ce4_8422_2325);
    assert_eq!(hasher.hash(b"a"), 0xaf63_dc4c_8601_ec8c);

    // The hash of the bytes carried by a classification equals the hash of
    // the bytes themselves, whatever the size class.
    let bytes: Vec<u8> = (0u8..30).collect();
    for len in [0usize, 4, 8, 12, 16, 20, 24, 30] {
        let k = &bytes[..len];
        assert_eq!(hasher.hash(k), hasher.hash(KeyRef::classify(k).key()));
    }

    // A precomputed hash can be reused across entry points.
    let bump = Bump::new();
    let mut map = StringMap::new(&bump);
    let h = hasher.hash(b"shared-key");
    map.insert_hashed(KeyRef::classify(b"shared-key"), h, 5u64);
    assert_eq!(map.get_hashed(KeyRef::classify(b"shared-key"), h), Some(&5));
    assert_eq!(map.get(KeyRef::classify(b"shared-key")), Some(&5));
    assert_eq!(map.remove_hashed(KeyRef::classify(b"shared-key"), h), Some(5));
    assert_eq!(map.get(KeyRef::classify(b"shared-key")), None);
}

#[test]
fn scenario_overwrite_returns_previous() {
    let bump = Bump::new();
    let mut map = StringMap::new(&bump);

    assert_eq!(map.insert(KeyRef::classify(b"abcdefgh"), 1u64), None);
    assert_eq!(map.insert(KeyRef::classify(b"abcdefgh"), 2u64), Some(1));
    assert_eq!(map.get(KeyRef::classify(b"abcdefgh")), Some(&2));
}

#[test]
fn scenario_remove_large_key() {
    let bump = Bump::new();
    let mut map = StringMap::new(&bump);
    let key: Vec<u8> = (0u8..30).collect();

    map.insert(KeyRef::classify(&key), 7u64);
    assert_eq!(map.len(), 1);
    let after_insert = bump.allocated_bytes();
    assert!(after_insert >= 30);

    assert_eq!(map.remove(KeyRef::classify(&key)), Some(7));
    assert_eq!(map.get(KeyRef::classify(&key)), None);
    assert_eq!(map.len(), 0);
    // The removed key's arena bytes are abandoned, not reclaimed: the arena
    // holds at least as much as before, until it is itself released.
    assert!(bump.allocated_bytes() >= after_insert);
    map.insert(KeyRef::classify(&key), 8u64);
    assert_eq!(map.get(KeyRef::classify(&key)), Some(&8));
}

#[test]
fn scenario_empty_key() {
    let bump = Bump::new();
    let mut map = StringMap::new(&bump);

    map.insert(KeyRef::classify(b""), 42u64);
    assert_eq!(map.get(KeyRef::classify(b"")), Some(&42));
    assert_eq!(map.len(), 1);
    // No hashing, no size-class table: the pair list holds the empty key.
    let pairs = map.into_pairs();
    assert_eq!(pairs, vec![(Vec::new(), 42u64)]);
}

#[test]
fn scenario_mixed_classes() {
    let bump = Bump::new();
    let mut map = StringMap::new(&bump);
    let mut cmp = HashMap::new();

    for i in 0..5000u32 {
        let len = rand::random::<usize>() % 40;
        let key: Vec<u8> = (0..len).map(|_| rand::random::<u8>() % 4).collect();
        map.insert(KeyRef::classify(&key), i);
        cmp.insert(key, i);
    }

    let pairs = map.into_pairs();
    assert_eq!(pairs.len(), cmp.len());
    for (k, v) in pairs {
        assert_eq!(cmp.remove(&k), Some(v));
    }
    assert!(cmp.is_empty());
}

#[test]
fn try_insert_keeps_existing() {
    let bump = Bump::new();
    let mut map = StringMap::new(&bump);

    assert!(map.try_insert(KeyRef::classify(b"key-one"), 10u64).is_none());
    assert_eq!(map.get(KeyRef::classify(b"key-one")), Some(&10));
    match map.try_insert(KeyRef::classify(b"key-one"), 20u64) {
        Some((existing, rejected)) => {
            assert_eq!(*existing, 10);
            assert_eq!(rejected, 20);
        },
        None => panic!("second try_insert must hit the stored entry"),
    }
    assert_eq!(map.get(KeyRef::classify(b"key-one")), Some(&10));
    assert_eq!(map.len(), 1);
}

#[test]
fn try_insert_merges_counts() {
    let bump = Bump::new();
    let mut map = StringMap::new(&bump);
    let rows: [&[u8]; 6] = [b"apple", b"banana", b"apple", b"cherry", b"apple", b"banana"];

    for row in rows {
        if let Some((count, _)) = map.try_insert(KeyRef::classify(row), 1u64) {
            *count += 1;
        }
    }
    assert_eq!(map.get(KeyRef::classify(b"apple")), Some(&3));
    assert_eq!(map.get(KeyRef::classify(b"banana")), Some(&2));
    assert_eq!(map.get(KeyRef::classify(b"cherry")), Some(&1));
}

#[test]
fn remove_then_get_misses() {
    let bump = Bump::new();
    let mut map = StringMap::new(&bump);

    map.insert(KeyRef::classify(b"alpha"), 1u64);
    map.insert(KeyRef::classify(b"a-table-spanning-long-key"), 2u64);
    let n = map.len();

    assert_eq!(map.remove(KeyRef::classify(b"alpha")), Some(1));
    assert_eq!(map.get(KeyRef::classify(b"alpha")), None);
    assert_eq!(map.len(), n - 1);
    assert_eq!(map.remove(KeyRef::classify(b"alpha")), None);
    assert_eq!(map.len(), n - 1);
    assert_eq!(map.get(KeyRef::classify(b"a-table-spanning-long-key")), Some(&2));
}

#[test]
fn get_mut_updates_in_place() {
    let bump = Bump::new();
    let mut map = StringMap::new(&bump);

    map.insert(KeyRef::classify(b"counter"), 1u64);
    if let Some(v) = map.get_mut(KeyRef::classify(b"counter")) {
        *v = 99;
    }
    assert_eq!(map.get(KeyRef::classify(b"counter")), Some(&99));
    assert_eq!(map.get_mut(KeyRef::classify(b"missing")).is_none(), true);
}

#[test]
fn many_removals_shrink_and_stay_consistent() {
    let bump = Bump::new();
    let mut map = StringMap::new(&bump);

    let keys: Vec<Vec<u8>> = (0u32..400).map(|i| {
        let mut k = vec![b'k'; 9];
        k.extend_from_slice(&i.to_le_bytes());
        k
    }).collect();
    for (i, k) in keys.iter().enumerate() {
        map.insert(KeyRef::classify(k), i as u64);
    }
    assert_eq!(map.len(), 400);
    for k in keys.iter().take(390) {
        assert!(map.remove(KeyRef::classify(k)).is_some());
    }
    assert_eq!(map.len(), 10);
    for (i, k) in keys.iter().enumerate().skip(390) {
        assert_eq!(map.get(KeyRef::classify(k)), Some(&(i as u64)));
    }
}

#[test]
fn slot_operations() {
    let mut s: Slot<u32> = Slot::Empty;
    assert_eq!(s.insert(5), None);
    match s.try_insert(6) {
        Some((stored, rejected)) => {
            assert_eq!(*stored, 5);
            assert_eq!(rejected, 6);
        },
        None => panic!("an occupied slot must reject"),
    }
    assert_eq!(s.remove(), Some(5));
    assert_eq!(s.remove(), None);
    // A tombstone can be reclaimed.
    assert_eq!(s.insert(7), None);
}
