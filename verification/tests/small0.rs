use std::collections::HashMap;

use stringmap::small0::from_index;
use stringmap::small0::to_index;
use stringmap::ArrayStringMap;

#[test]
fn small0_test_hash_map() {
    let mut map = ArrayStringMap::new();
    let mut cmp = HashMap::new();

    // Test conflict conditions
    for _ in 0..100000 {
        let value = rand::random::<u16>();
        let key = value.to_ne_bytes();

        map.insert(&key, value);
        cmp.insert(key, value);
    }

    for (k, v) in map.into_pairs() {
        let value = cmp.remove(&k);
        assert_eq!(value, Some(v));
    }
    assert!(cmp.is_empty());
}

#[test]
fn small0_basic_ops() {
    let mut map = ArrayStringMap::new();
    assert!(map.is_empty());

    assert_eq!(map.insert(&[1, 2], 10u32), None);
    assert_eq!(map.insert(&[1, 2], 11), Some(10));
    assert_eq!(map.len(), 1);
    assert_eq!(map.get(&[1, 2]), Some(&11));
    assert_eq!(map.get(&[2, 1]), None);

    match map.try_insert(&[1, 2], 12) {
        Some((stored, rejected)) => {
            assert_eq!(*stored, 11);
            assert_eq!(rejected, 12);
        },
        None => panic!("an occupied slot must reject"),
    }
    assert!(map.try_insert(&[2, 1], 20).is_none());
    assert_eq!(map.get(&[2, 1]), Some(&20));
    assert_eq!(map.len(), 2);

    if let Some(v) = map.get_mut(&[1, 2]) {
        *v = 13;
    }
    assert_eq!(map.remove(&[1, 2]), Some(13));
    assert_eq!(map.get(&[1, 2]), None);
    assert_eq!(map.len(), 1);
    assert_eq!(map.remove(&[1, 2]), None);
}

#[test]
fn small0_index_round_trip() {
    for index in [0usize, 1, 255, 256, 513, 65535] {
        assert_eq!(to_index(&from_index(index)), index);
    }
    assert_eq!(from_index(513), [1, 2]);
    assert_eq!(to_index(&[1, 2]), 513);
}

#[test]
fn small0_iter_in_index_order() {
    let mut map = ArrayStringMap::new();
    map.insert(&[0, 0], 1u32);
    map.insert(&[1, 0], 2);
    map.insert(&[0, 1], 3);

    let mut it = map.iter();
    let mut seen = Vec::new();
    while let Some((k, v)) = it.next() {
        seen.push((k, *v));
    }
    assert_eq!(seen, vec![([0, 0], 1), ([1, 0], 2), ([0, 1], 3)]);
    assert_eq!(map.len(), 3);
}
