//! A map of fixed capacity, stored inline in `N` slots and searched by linear
//! probing.
//!
//! The table never grows, never moves an entry and never removes one. A key
//! is hashed to a start slot; the slots are then tried one after another,
//! wrapping round at the end, until one is empty or holds the key.
//!
//! [`probing`] holds the mathematical model that the contracts are stated
//! over: the table as a sequence of slots, and where a probe lands in it.
//!
//! The hashing strategy is the caller's, and nothing is assumed of it. Each of
//! [`SmolMap::insert`], [`SmolMap::get`] and [`SmolMap::get_mut`] hashes the
//! key and hands the digest to its counterpart that takes one,
//! [`SmolMap::insert_hashed`], [`SmolMap::get_hashed`] and
//! [`SmolMap::get_mut_hashed`]. Those say exactly what happens for every
//! digest; the first three promise the same for the digest that the strategy
//! gave, whichever it was.
//!
//! [`laws`] holds what follows: what is true wherever a probe begins, and
//! that a table filled under a strategy that answers the same key with the
//! same digest is a finite map with one entry for each key.
use std::collections::hash_map::RandomState;
use std::hash::{BuildHasher, Hash};
use vstd::prelude::*;
use vstd::std_specs::cmp::PartialEqSpec;

mod hashing;
pub mod laws;
pub mod probing;
mod storage;

use crate::hashing::digest_of;
use crate::probing::{
    halts_at, holds, holds_key, landing, lemma_landing_at, lemma_landing_exists,
    lemma_occupied_bounded, lemma_occupied_none, lemma_slot_index_next, lemma_vacancy, lookup,
    occupied, revalued, slot_index, start_index, stored, vacant,
};
use crate::storage::{empty_slots, fill, lend_value, replace_value};

verus! {

/// A map from `K` to `V` that holds at most `N` entries, in `N` slots that
/// are part of the value itself. `S` builds the hasher that picks a key's
/// start slot.
#[derive(Debug)]
pub struct SmolMap<K, V, const N: usize, S = RandomState> {
    slots: [Option<(K, V)>; N],
    len: usize,
    state: S,
}

impl<K, V, const N: usize, S> View for SmolMap<K, V, N, S> {
    type V = Seq<Option<(K, V)>>;

    /// The slots in order, `None` for an empty one.
    closed spec fn view(&self) -> Seq<Option<(K, V)>> {
        self.slots@
    }
}

impl<K, V, const N: usize, S> SmolMap<K, V, N, S> {
    /// The hashing strategy that the table was made with.
    pub closed spec fn strategy(&self) -> S {
        self.state
    }

    /// The count that the table keeps is the number of occupied slots.
    #[verifier::type_invariant]
    spec fn well_formed(&self) -> bool {
        self.len == occupied(self@).len()
    }

    /// A table has `N` slots.
    pub proof fn lemma_capacity(&self)
        ensures
            self@.len() == N,
    {
    }

    /// An empty table that hashes with `hasher`.
    pub fn new(hasher: S) -> (map: Self)
        ensures
            map@ == vacant::<K, V>(N as nat),
            map.strategy() == hasher,
            occupied(map@).len() == 0,
    {
        let slots = empty_slots();
        proof {
            assert(occupied(slots@) =~= Set::<int>::empty());
        }
        SmolMap { slots, len: 0, state: hasher }
    }

    /// The number of entries.
    pub fn len(&self) -> (n: usize)
        ensures
            n == occupied(self@).len(),
            n <= N,
    {
        proof {
            use_type_invariant(self);
            lemma_occupied_bounded(self@);
        }
        self.len
    }

    /// Whether the table holds no entry.
    pub fn is_empty(&self) -> (empty: bool)
        ensures
            empty <==> occupied(self@).len() == 0,
            empty <==> forall|i: int| 0 <= i < N ==> self@[i] is None,
    {
        proof {
            use_type_invariant(self);
            lemma_occupied_none(self@);
        }
        self.len == 0
    }
}

impl<K: Eq, V, const N: usize, S> SmolMap<K, V, N, S> {
    /// Walks the probe sequence for `key` and returns the slot it lands on.
    fn probe(&self, digest: u64, key: &K) -> (landed: Option<usize>)
        requires
            K::obeys_eq_spec(),
        ensures
            landed matches Some(i) ==> i < N,
            match landed {
                Some(i) => landing(self@, start_index(digest, N as nat), *key) == Some(i as int),
                None => landing(self@, start_index(digest, N as nat), *key) is None,
            },
    {
        if N == 0 {
            return None;
        }
        let ghost start = start_index(digest, N as nat);
        let mut idx: usize = (digest % (N as u64)) as usize;
        let mut step: usize = 0;
        proof {
            assert(slot_index(start, 0, N as nat) == idx) by {
                vstd::arithmetic::div_mod::lemma_mod_twice(digest as int, N as int);
            }
        }
        while step < N
            invariant
                N > 0,
                K::obeys_eq_spec(),
                self@.len() == N,
                start == start_index(digest, N as nat),
                step <= N,
                idx < N,
                idx == slot_index(start, step as int, N as nat),
                forall|earlier: int|
                    0 <= earlier < step ==> !halts_at(
                        self@[#[trigger] slot_index(start, earlier, N as nat)],
                        *key,
                    ),
            decreases N - step,
        {
            let halted = match &self.slots[idx] {
                Some(entry) => entry.0 == *key,
                None => true,
            };
            if halted {
                proof {
                    lemma_landing_at(self@, start, *key, step as int);
                }
                return Some(idx);
            }
            proof {
                lemma_slot_index_next(start, step as int, N as nat);
            }
            step += 1;
            idx = if idx + 1 < N {
                idx + 1
            } else {
                0
            };
        }
        None
    }

    /// Looks `key` up by the probe sequence that `digest` selects.
    pub fn get_hashed(&self, digest: u64, key: &K) -> (found: Option<&V>)
        requires
            K::obeys_eq_spec(),
        ensures
            match found {
                Some(value) => lookup(self@, start_index(digest, N as nat), *key) == Some(*value),
                None => lookup(self@, start_index(digest, N as nat), *key) is None,
            },
    {
        match self.probe(digest, key) {
            Some(i) => match &self.slots[i] {
                Some(entry) => Some(&entry.1),
                None => None,
            },
            None => None,
        }
    }

    /// Looks `key` up by the probe sequence that `digest` selects, and lends
    /// the value out for writing. The key stays as it is.
    pub fn get_mut_hashed(&mut self, digest: u64, key: &K) -> (found: Option<&mut V>)
        requires
            K::obeys_eq_spec(),
        ensures
            final(self).strategy() == old(self).strategy(),
            match found {
                Some(value) => {
                    &&& lookup(old(self)@, start_index(digest, N as nat), *key) == Some(*value)
                    &&& final(self)@ == revalued(
                        old(self)@,
                        start_index(digest, N as nat),
                        *key,
                        *final(value),
                    )
                },
                None => {
                    &&& lookup(old(self)@, start_index(digest, N as nat), *key) is None
                    &&& final(self)@ == old(self)@
                },
            },
    {
        match self.probe(digest, key) {
            Some(i) => {
                proof {
                    use_type_invariant(&*self);
                }
                lend_value(&mut self.slots, i)
            },
            None => None,
        }
    }

    /// Stores `value` under `key` by the probe sequence that `digest`
    /// selects, and returns the value that `key` had before. An entry that
    /// is already there keeps its key and takes the new value.
    ///
    /// A table whose slots all hold other keys has no place for `key`; the
    /// precondition leaves that out.
    ///
    /// # Panics
    ///
    /// If code that Verus has not verified calls it on a table with no place
    /// for `key`.
    pub fn insert_hashed(&mut self, digest: u64, key: K, value: V) -> (previous: Option<V>)
        requires
            K::obeys_eq_spec(),
            occupied(old(self)@).len() < N || holds_key(old(self)@, key),
        ensures
            final(self).strategy() == old(self).strategy(),
            final(self)@ == stored(old(self)@, start_index(digest, N as nat), key, value),
            previous == lookup(old(self)@, start_index(digest, N as nat), key),
    {
        proof {
            use_type_invariant(&*self);
        }
        match self.probe(digest, &key) {
            Some(i) => {
                if self.slots[i].is_some() {
                    Some(replace_value(&mut self.slots, i, value))
                } else {
                    fill(&mut self.slots, &mut self.len, i, key, value);
                    None
                }
            },
            None => {
                proof {
                    let start = start_index(digest, N as nat);
                    if holds_key(self@, key) {
                        let i = choose|i: int| holds(self@, i, key);
                        lemma_landing_exists(self@, start, key, i);
                    } else {
                        let i = lemma_vacancy(self@);
                        lemma_landing_exists(self@, start, key, i);
                    }
                }
                unreached()
            },
        }
    }

}

impl<K: Eq + Hash, V, const N: usize, S: BuildHasher> SmolMap<K, V, N, S> {
    /// Looks `key` up. The probe begins where the key's digest under the
    /// table's hashing strategy points: the result is that of
    /// [`SmolMap::get_hashed`] for some digest.
    pub fn get(&self, key: &K) -> (found: Option<&V>)
        requires
            K::obeys_eq_spec(),
        ensures
            exists|digest: u64|
                match found {
                    Some(value) => lookup(self@, #[trigger] start_index(digest, N as nat), *key)
                        == Some(*value),
                    None => lookup(self@, #[trigger] start_index(digest, N as nat), *key) is None,
                },
    {
        let digest = digest_of(&self.state, key);
        self.get_hashed(digest, key)
    }

    /// Looks `key` up and lends its value out for writing. The probe begins
    /// where the key's digest under the table's hashing strategy points: the
    /// result is that of [`SmolMap::get_mut_hashed`] for some digest.
    pub fn get_mut(&mut self, key: &K) -> (found: Option<&mut V>)
        requires
            K::obeys_eq_spec(),
        ensures
            final(self).strategy() == old(self).strategy(),
            exists|digest: u64|
                match found {
                    Some(value) => {
                        &&& lookup(old(self)@, #[trigger] start_index(digest, N as nat), *key)
                            == Some(*value)
                        &&& final(self)@ == revalued(
                            old(self)@,
                            start_index(digest, N as nat),
                            *key,
                            *final(value),
                        )
                    },
                    None => {
                        &&& lookup(old(self)@, #[trigger] start_index(digest, N as nat), *key)
                            is None
                        &&& final(self)@ == old(self)@
                    },
                },
    {
        let digest = digest_of(&self.state, key);
        self.get_mut_hashed(digest, key)
    }

    /// Stores `value` under `key` and returns the value that `key` had
    /// before. The probe begins where the key's digest under the table's
    /// hashing strategy points: the result is that of
    /// [`SmolMap::insert_hashed`] for some digest.
    ///
    /// A table whose slots all hold other keys has no place for `key`; the
    /// precondition leaves that out.
    ///
    /// # Panics
    ///
    /// If code that Verus has not verified calls it on a table with no place
    /// for `key`.
    pub fn insert(&mut self, key: K, value: V) -> (previous: Option<V>)
        requires
            K::obeys_eq_spec(),
            occupied(old(self)@).len() < N || holds_key(old(self)@, key),
        ensures
            final(self).strategy() == old(self).strategy(),
            exists|digest: u64|
                {
                    &&& final(self)@ == stored(
                        old(self)@,
                        #[trigger] start_index(digest, N as nat),
                        key,
                        value,
                    )
                    &&& previous == lookup(old(self)@, start_index(digest, N as nat), key)
                },
    {
        let digest = digest_of(&self.state, &key);
        self.insert_hashed(digest, key, value)
    }
}

} // verus!
