use std::collections::hash_map::RandomState;
use std::hash::{BuildHasher, Hash, Hasher};

use smolmap::SmolMap;

/// A hasher whose digest is the last integer written to it.
struct Plain(u64);

impl Hasher for Plain {
    fn finish(&self) -> u64 {
        self.0
    }

    fn write(&mut self, bytes: &[u8]) {
        for byte in bytes {
            self.0 = (self.0 << 8) | u64::from(*byte);
        }
    }

    fn write_u32(&mut self, n: u32) {
        self.0 = u64::from(n);
    }
}

/// Builds `Plain` hashers: the digest of a `u32` key is the key.
struct PlainState;

impl BuildHasher for PlainState {
    type Hasher = Plain;

    fn build_hasher(&self) -> Plain {
        Plain(0)
    }
}

/// A hasher that answers every key with the same digest.
struct Fixed(u64);

impl Hasher for Fixed {
    fn finish(&self) -> u64 {
        self.0
    }

    fn write(&mut self, _bytes: &[u8]) {}
}

struct FixedState(u64);

impl BuildHasher for FixedState {
    type Hasher = Fixed;

    fn build_hasher(&self) -> Fixed {
        Fixed(self.0)
    }
}

/// A key that compares and hashes by `id` alone.
#[derive(Debug)]
struct Tagged {
    id: u32,
    tag: u32,
}

impl PartialEq for Tagged {
    fn eq(&self, other: &Tagged) -> bool {
        self.id == other.id
    }
}

impl Eq for Tagged {}

impl Hash for Tagged {
    fn hash<H: Hasher>(&self, state: &mut H) {
        self.id.hash(state);
    }
}

#[test]
fn new_table_has_every_slot_empty() {
    let map: SmolMap<u32, u32, 8> = SmolMap::new(RandomState::new());
    for start in 0..8u64 {
        assert_eq!(map.get_hashed(start, &1), None);
    }
    assert!(map.is_empty());
}

#[test]
fn start_slot_is_digest_mod_capacity() {
    let mut map: SmolMap<u32, u32, 4> = SmolMap::new(RandomState::new());
    // 7 mod 4 = 3: key 10 goes to slot 3.
    assert_eq!(map.insert_hashed(7, 10, 70), None);
    // A probe from slot 3 finds it, whatever digest leads there.
    assert_eq!(map.get_hashed(3, &10), Some(&70));
    assert_eq!(map.get_hashed(7, &10), Some(&70));
    assert_eq!(map.get_hashed(4_000_000_003, &10), Some(&70));
    assert_eq!(map.get_hashed(u64::MAX, &10), Some(&70));
    // Probes from slots 0, 1 and 2 meet an empty slot first.
    assert_eq!(map.get_hashed(0, &10), None);
    assert_eq!(map.get_hashed(1, &10), None);
    assert_eq!(map.get_hashed(2, &10), None);
    assert_eq!(map.get_hashed(u64::MAX - 1, &10), None);
    assert_eq!(map.len(), 1);
}

#[test]
fn probe_wraps_round_the_end() {
    let mut map: SmolMap<u32, u32, 4> = SmolMap::new(RandomState::new());
    assert_eq!(map.insert_hashed(3, 1, 10), None);
    // Slot 3 is taken: the next slot of the sequence is slot 0.
    assert_eq!(map.insert_hashed(3, 2, 20), None);
    assert_eq!(map.get_hashed(3, &2), Some(&20));
    assert_eq!(map.get_hashed(0, &2), Some(&20));
    assert_eq!(map.get_hashed(1, &2), None);
    // Then slot 1.
    assert_eq!(map.insert_hashed(3, 3, 30), None);
    assert_eq!(map.get_hashed(1, &3), Some(&30));
    assert_eq!(map.get_hashed(2, &3), None);
    assert_eq!(map.len(), 3);
}

#[test]
fn lookup_stops_at_the_first_empty_slot() {
    let mut map: SmolMap<u32, u32, 4> = SmolMap::new(RandomState::new());
    assert_eq!(map.insert_hashed(2, 5, 50), None);
    // Slot 1 is empty, so a probe from there ends before it reaches slot 2.
    assert_eq!(map.get_hashed(1, &5), None);
    assert!(map.get_mut_hashed(1, &5).is_none());
    assert_eq!(map.get_hashed(2, &5), Some(&50));
}

#[test]
fn lookup_passes_over_other_keys() {
    let mut map: SmolMap<u32, u32, 4> = SmolMap::new(RandomState::new());
    assert_eq!(map.insert_hashed(0, 1, 10), None);
    assert_eq!(map.insert_hashed(0, 2, 20), None);
    assert_eq!(map.insert_hashed(0, 3, 30), None);
    assert_eq!(map.insert_hashed(0, 4, 40), None);
    // Full table: every probe visits all four slots.
    for start in 0..4u64 {
        assert_eq!(map.get_hashed(start, &1), Some(&10));
        assert_eq!(map.get_hashed(start, &4), Some(&40));
        assert_eq!(map.get_hashed(start, &9), None);
    }
    // A key that is there is replaced in place, from any start.
    assert_eq!(map.insert_hashed(2, 3, 33), Some(30));
    assert_eq!(map.get_hashed(1, &3), Some(&33));
    assert_eq!(map.len(), 4);
}

#[test]
fn two_digests_for_one_key_make_two_entries() {
    let mut map: SmolMap<u32, u32, 4> = SmolMap::new(RandomState::new());
    assert_eq!(map.insert_hashed(0, 1, 10), None);
    assert_eq!(map.insert_hashed(2, 1, 20), None);
    assert_eq!(map.len(), 2);
    assert_eq!(map.get_hashed(0, &1), Some(&10));
    assert_eq!(map.get_hashed(2, &1), Some(&20));
}

#[test]
fn get_mut_hashed_writes_in_place() {
    let mut map: SmolMap<u32, u32, 4> = SmolMap::new(RandomState::new());
    map.insert_hashed(1, 7, 70);
    map.insert_hashed(1, 8, 80);
    if let Some(value) = map.get_mut_hashed(1, &8) {
        assert_eq!(*value, 80);
        *value = 81;
    }
    assert_eq!(map.get_hashed(1, &8), Some(&81));
    assert_eq!(map.get_hashed(1, &7), Some(&70));
    assert_eq!(map.len(), 2);
}

#[test]
fn table_hashes_with_the_strategy_it_was_given() {
    let mut map: SmolMap<u32, u32, 4, PlainState> = SmolMap::new(PlainState);
    // Under `PlainState` the digest of a key is the key: 6 starts at slot 2.
    assert_eq!(map.insert(6, 60), None);
    assert_eq!(map.get_hashed(2, &6), Some(&60));
    assert_eq!(map.get_hashed(1, &6), None);
    assert_eq!(map.get_hashed(3, &6), None);
    // 10 starts at slot 2 as well and moves on to slot 3.
    assert_eq!(map.insert(10, 100), None);
    assert_eq!(map.get_hashed(3, &10), Some(&100));
    assert_eq!(map.get(&10), Some(&100));
    assert_eq!(map.get(&6), Some(&60));
    assert_eq!(map.get(&2), None);
    if let Some(value) = map.get_mut(&10) {
        *value += 1;
    }
    assert_eq!(map.get(&10), Some(&101));
}

#[test]
fn colliding_keys_chain() {
    let mut map: SmolMap<u32, u32, 5, FixedState> = SmolMap::new(FixedState(13));
    for key in 0..5u32 {
        assert_eq!(map.insert(key, key + 100), None);
        assert_eq!(map.len(), key as usize + 1);
    }
    for key in 0..5u32 {
        assert_eq!(map.get(&key), Some(&(key + 100)));
    }
    assert_eq!(map.get(&5), None);
    // 13 mod 5 = 3: the keys sit in slots 3, 4, 0, 1, 2 in the order stored.
    assert_eq!(map.insert(0, 7), Some(100));
    assert_eq!(map.get(&0), Some(&7));
    assert_eq!(map.len(), 5);
}

#[test]
fn overwrite_keeps_the_stored_key() {
    let mut map: SmolMap<Tagged, u32, 2> = SmolMap::new(RandomState::new());
    assert_eq!(map.insert(Tagged { id: 1, tag: 10 }, 5), None);
    assert_eq!(map.insert(Tagged { id: 1, tag: 20 }, 6), Some(5));
    assert_eq!(map.len(), 1);
    assert_eq!(map.get(&Tagged { id: 1, tag: 30 }), Some(&6));
    let shown = format!("{:?}", map);
    assert!(shown.contains("tag: 10"));
    assert!(!shown.contains("tag: 20"));
}
