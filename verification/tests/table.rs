use std::collections::hash_map::RandomState;

use smolmap::SmolMap;

#[test]
fn new() {
    let map: SmolMap<u32, u32, 8> = SmolMap::new(RandomState::new());
    assert!(map.is_empty());
    assert_eq!(map.len(), 0);
}

#[test]
fn insert() {
    let mut map: SmolMap<u32, u32, 4> = SmolMap::new(RandomState::new());
    map.insert(1, 2);
    map.insert(2, 2);
    map.insert(3, 2);
    map.insert(4, 2);
    map.insert(1, 3);
    map.insert(2, 4);
    map.insert(3, 5);
    map.insert(4, 6);
}

#[test]
#[should_panic]
fn insert_panic() {
    let mut map: SmolMap<u32, u32, 4> = SmolMap::new(RandomState::new());
    map.insert(1, 2);
    map.insert(2, 2);
    map.insert(3, 2);
    map.insert(4, 2);
    map.insert(5, 2);
}

#[test]
fn get() {
    let mut map: SmolMap<u32, u32, 4> = SmolMap::new(RandomState::new());
    map.insert(1, 3);
    map.insert(2, 2);
    map.insert(3, 1);
    assert_eq!(map.get(&1), Some(&3));
    assert_eq!(map.get(&2), Some(&2));
    assert_eq!(map.get(&3), Some(&1));
    assert_eq!(map.get(&6), None);
}

#[test]
fn get_mut() {
    let mut map: SmolMap<u32, u32, 4> = SmolMap::new(RandomState::new());
    map.insert(1, 3);
    map.insert(2, 2);
    map.insert(3, 1);
    assert_eq!(map.get(&1), Some(&3));
    let val = map.get_mut(&1);

    if let Some(val) = val {
        *val = 4;
    }
    assert_eq!(map.get(&1), Some(&4));
}

#[test]
fn fill_then_read_back() {
    let mut map: SmolMap<u32, u32, 4> = SmolMap::new(RandomState::new());
    assert_eq!(map.insert(1, 2), None);
    assert_eq!(map.insert(2, 2), None);
    assert_eq!(map.insert(3, 2), None);
    assert_eq!(map.insert(4, 2), None);
    assert_eq!(map.len(), 4);
    assert_eq!(map.get(&1), Some(&2));
    assert_eq!(map.get(&2), Some(&2));
    assert_eq!(map.get(&3), Some(&2));
    assert_eq!(map.get(&4), Some(&2));
}

#[test]
fn overwrite_returns_prior_value() {
    let mut map: SmolMap<u32, u32, 4> = SmolMap::new(RandomState::new());
    map.insert(1, 2);
    map.insert(2, 2);
    map.insert(3, 2);
    map.insert(4, 2);
    assert_eq!(map.insert(1, 3), Some(2));
    assert_eq!(map.insert(2, 4), Some(2));
    assert_eq!(map.insert(3, 5), Some(2));
    assert_eq!(map.insert(4, 6), Some(2));
    assert_eq!(map.len(), 4);
    assert_eq!(map.get(&1), Some(&3));
    assert_eq!(map.get(&2), Some(&4));
    assert_eq!(map.get(&3), Some(&5));
    assert_eq!(map.get(&4), Some(&6));
}

#[test]
fn reinsert_keeps_one_entry_per_key() {
    let mut map: SmolMap<u32, u32, 8> = SmolMap::new(RandomState::new());
    for round in 0..5u32 {
        for key in 0..6u32 {
            map.insert(key, round * 10 + key);
            let expected = if round == 0 { key as usize + 1 } else { 6 };
            assert_eq!(map.len(), expected);
        }
    }
    for key in 0..6u32 {
        assert_eq!(map.get(&key), Some(&(40 + key)));
    }
}

#[test]
fn len_counts_distinct_keys() {
    let mut map: SmolMap<u32, u32, 16> = SmolMap::new(RandomState::new());
    assert!(map.is_empty());
    let keys = [7u32, 3, 7, 9, 3, 3, 11, 7, 100];
    let distinct = [1usize, 2, 2, 3, 3, 3, 4, 4, 5];
    for (key, expected) in keys.iter().zip(distinct.iter()) {
        map.insert(*key, 0);
        assert_eq!(map.len(), *expected);
        assert_eq!(map.is_empty(), map.len() == 0);
    }
    assert!(!map.is_empty());
}

#[test]
fn read_after_write() {
    let mut map: SmolMap<u32, u32, 32> = SmolMap::new(RandomState::new());
    for key in 0..32u32 {
        map.insert(key, key * key);
        assert_eq!(map.get(&key), Some(&(key * key)));
    }
    for key in 0..32u32 {
        assert_eq!(map.get(&key), Some(&(key * key)));
    }
}

#[test]
fn update_after_update() {
    let mut map: SmolMap<u32, u32, 4> = SmolMap::new(RandomState::new());
    assert_eq!(map.insert(9, 100), None);
    assert_eq!(map.insert(9, 200), Some(100));
    assert_eq!(map.get(&9), Some(&200));
    assert_eq!(map.len(), 1);
}

#[test]
fn absent_key_in_full_table() {
    let mut map: SmolMap<u32, u32, 4> = SmolMap::new(RandomState::new());
    assert_eq!(map.get(&1), None);
    for key in 1..=4u32 {
        map.insert(key, key);
    }
    assert_eq!(map.len(), 4);
    for absent in [0u32, 5, 6, 1000, u32::MAX] {
        assert_eq!(map.get(&absent), None);
        assert!(map.get_mut(&absent).is_none());
    }
}

#[test]
fn fills_to_capacity() {
    let mut one: SmolMap<u32, u32, 1> = SmolMap::new(RandomState::new());
    assert_eq!(one.insert(42, 1), None);
    assert_eq!(one.len(), 1);
    assert_eq!(one.insert(42, 2), Some(1));
    assert_eq!(one.get(&42), Some(&2));

    let mut many: SmolMap<u32, u32, 64> = SmolMap::new(RandomState::new());
    for key in 0..64u32 {
        assert_eq!(many.insert(key, key + 1), None);
    }
    assert_eq!(many.len(), 64);
    for key in 0..64u32 {
        assert_eq!(many.get(&key), Some(&(key + 1)));
    }
    assert_eq!(many.get(&64), None);
}

#[test]
fn write_through_get_mut() {
    let mut map: SmolMap<u32, String, 4> = SmolMap::new(RandomState::new());
    map.insert(1, String::from("one"));
    map.insert(2, String::from("two"));
    if let Some(value) = map.get_mut(&2) {
        value.push_str(" and a bit");
    }
    assert_eq!(map.get(&2).map(String::as_str), Some("two and a bit"));
    assert_eq!(map.get(&1).map(String::as_str), Some("one"));
    assert_eq!(map.len(), 2);
    assert!(map.get_mut(&3).is_none());
}

#[test]
fn insert_hands_back_the_old_value() {
    let mut map: SmolMap<String, Vec<u8>, 2> = SmolMap::new(RandomState::new());
    assert_eq!(map.insert(String::from("k"), vec![1, 2, 3]), None);
    assert_eq!(map.insert(String::from("k"), vec![4]), Some(vec![1, 2, 3]));
    assert_eq!(map.get(&String::from("k")), Some(&vec![4]));
}

#[test]
fn zero_capacity_finds_nothing() {
    let mut map: SmolMap<u32, u32, 0> = SmolMap::new(RandomState::new());
    assert!(map.is_empty());
    assert_eq!(map.len(), 0);
    assert_eq!(map.get(&1), None);
    assert!(map.get_mut(&1).is_none());
    assert_eq!(map.get_hashed(5, &1), None);
    assert!(map.get_mut_hashed(5, &1).is_none());
}
