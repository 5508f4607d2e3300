//! What the table guarantees, stated over the model of [`crate::probing`]
//! and proved.
//!
//! The contracts of the table's functions speak of three functions of the
//! model: `stored` is the table that an insertion leaves, `lookup` is what a
//! lookup finds and what an insertion hands back, and `revalued` is the table
//! that a write through a lent-out value leaves. The laws relate the three.
//!
//! The first group of laws holds whatever slot a probe begins at, and so for
//! every hashing strategy. The second group is about tables whose entries
//! were all stored under one digest function `h`, a strategy that answers
//! the same key with the same digest: such a table is a finite map, and
//! storing and looking up are the map's insertion and application.
//!
//! Where a law needs more of key equality than that it is what `==`
//! computes, it takes it to be identity: `obeys_concrete_eq`.
use crate::probing::{
    halts_at, holds, holds_key, landing, lemma_landing_at, lemma_landing_exists,
    lemma_landing_halts, lemma_occupied_bounded, lemma_occupied_fill, lemma_occupied_keep,
    lemma_vacancy, lookup, occupied, revalued, slot_index, start_index, stored, vacant,
};
use vstd::laws_eq::obeys_concrete_eq;
use vstd::prelude::*;
use vstd::relations::injective_on;
use vstd::set_lib::{lemma_len_subset, lemma_map_size};

verus! {

/// Whether slot `i` is empty, or the probe for the key it holds lands on it
/// when it begins where `h` points.
pub open spec fn placed<K: PartialEq, V>(
    slots: Seq<Option<(K, V)>>,
    h: spec_fn(K) -> u64,
    i: int,
) -> bool {
    match slots[i] {
        Some((key, _)) => landing(slots, start_index(h(key), slots.len()), key) == Some(i),
        None => true,
    }
}

/// Whether every entry is where the probe for its key under `h` finds it:
/// the probe reaches the entry's slot before it meets an empty slot or
/// another entry with that key.
pub open spec fn well_placed<K: PartialEq, V>(
    slots: Seq<Option<(K, V)>>,
    h: spec_fn(K) -> u64,
) -> bool {
    forall|i: int| 0 <= i < slots.len() ==> #[trigger] placed(slots, h, i)
}

/// The finite map that a table stands for: each key that some slot holds,
/// with the value beside it.
pub open spec fn contents<K: PartialEq, V>(slots: Seq<Option<(K, V)>>) -> Map<K, V> {
    Map::new(
        |key: K| holds_key(slots, key),
        |key: K| slots[choose|i: int| holds(slots, i, key)].unwrap().1,
    )
}

/// The table after each pair of `entries` is stored in turn, each by a
/// probe that begins where `h` points.
pub open spec fn stored_all<K: PartialEq, V>(
    slots: Seq<Option<(K, V)>>,
    h: spec_fn(K) -> u64,
    entries: Seq<(K, V)>,
) -> Seq<Option<(K, V)>>
    decreases entries.len(),
{
    if entries.len() == 0 {
        slots
    } else {
        let earlier = stored_all(slots, h, entries.drop_last());
        let (key, value) = entries.last();
        stored(earlier, start_index(h(key), earlier.len()), key, value)
    }
}

/// The map after each pair of `entries` is inserted in turn into the empty
/// map.
pub open spec fn inserted_all<K, V>(entries: Seq<(K, V)>) -> Map<K, V>
    decreases entries.len(),
{
    if entries.len() == 0 {
        Map::empty()
    } else {
        inserted_all(entries.drop_last()).insert(entries.last().0, entries.last().1)
    }
}

/// Two tables in which the probe for `key` ends at the same slots have the
/// same landing slot for it.
proof fn lemma_landing_same_halts<K: PartialEq, V>(
    a: Seq<Option<(K, V)>>,
    b: Seq<Option<(K, V)>>,
    start: int,
    key: K,
)
    requires
        a.len() == b.len(),
        forall|i: int| 0 <= i < a.len() ==> halts_at(a[i], key) == halts_at(b[i], key),
    ensures
        landing(a, start, key) == landing(b, start, key),
{
    if landing(a, start, key) is Some {
        let step = lemma_landing_halts(a, start, key);
        lemma_landing_at(b, start, key, step);
    } else if landing(b, start, key) is Some {
        let step = lemma_landing_halts(b, start, key);
        lemma_landing_at(a, start, key, step);
    }
}

/// A change to one slot at which the probe for `key` would have ended
/// leaves a landing slot elsewhere as it was.
proof fn lemma_landing_unaffected<K: PartialEq, V>(
    a: Seq<Option<(K, V)>>,
    b: Seq<Option<(K, V)>>,
    start: int,
    key: K,
    changed: int,
)
    requires
        a.len() == b.len(),
        0 <= changed < a.len(),
        forall|i: int| 0 <= i < a.len() && i != changed ==> a[i] == b[i],
        halts_at(a[changed], key),
        landing(a, start, key) is Some,
        landing(a, start, key) != Some(changed),
    ensures
        landing(b, start, key) == landing(a, start, key),
{
    let step = lemma_landing_halts(a, start, key);
    assert forall|earlier: int| 0 <= earlier < step implies !halts_at(
        b[#[trigger] slot_index(start, earlier, b.len())],
        key,
    ) by {}
    lemma_landing_at(b, start, key, step);
}

/// Storing a pair leaves the probe for its key landing where it landed, on
/// a slot that now holds the pair.
proof fn lemma_stored_landing<K: PartialEq, V>(
    slots: Seq<Option<(K, V)>>,
    start: int,
    key: K,
    value: V,
)
    requires
        obeys_concrete_eq::<K>(),
        landing(slots, start, key) is Some,
    ensures
        landing(stored(slots, start, key, value), start, key) == landing(slots, start, key),
        stored(slots, start, key, value)[landing(slots, start, key).unwrap()] == Some(
            (key, value),
        ),
{
    reveal(obeys_concrete_eq);
    let after = stored(slots, start, key, value);
    let step = lemma_landing_halts(slots, start, key);
    assert forall|earlier: int| 0 <= earlier < step implies !halts_at(
        after[#[trigger] slot_index(start, earlier, after.len())],
        key,
    ) by {}
    lemma_landing_at(after, start, key, step);
}

/// Storing a pair leaves the landing slot of another key as it was, where
/// that key's probe landed on an entry.
proof fn lemma_other_landing<K: PartialEq, V>(
    slots: Seq<Option<(K, V)>>,
    start: int,
    key: K,
    value: V,
    other_start: int,
    other: K,
)
    requires
        landing(slots, start, key) is Some,
        landing(slots, other_start, other) is Some,
        landing(slots, other_start, other) != landing(slots, start, key),
        slots[landing(slots, other_start, other).unwrap()] is Some,
    ensures
        landing(stored(slots, start, key, value), other_start, other) == landing(
            slots,
            other_start,
            other,
        ),
{
    let after = stored(slots, start, key, value);
    let i = landing(slots, start, key).unwrap();
    if slots[i] is Some {
        lemma_landing_same_halts(slots, after, other_start, other);
    } else {
        lemma_landing_unaffected(slots, after, other_start, other, i);
    }
}

/// **Read after write.** A lookup of `key` finds the value that was last
/// stored under it, wherever the two probes begin, as long as they begin at
/// the same slot and the table had a place for `key`.
pub proof fn law_read_after_write<K: PartialEq, V>(
    slots: Seq<Option<(K, V)>>,
    start: int,
    key: K,
    value: V,
)
    requires
        obeys_concrete_eq::<K>(),
        landing(slots, start, key) is Some,
    ensures
        lookup(stored(slots, start, key, value), start, key) == Some(value),
{
    lemma_stored_landing(slots, start, key, value);
}

/// **Update after update.** Of two stores under one key, the second
/// replaces the value of the first: it finds the first value in place, a
/// lookup afterwards finds the second, and no further slot is taken.
pub proof fn law_update_after_update<K: PartialEq, V>(
    slots: Seq<Option<(K, V)>>,
    start: int,
    key: K,
    first: V,
    second: V,
)
    requires
        obeys_concrete_eq::<K>(),
        landing(slots, start, key) is Some,
    ensures
        ({
            let once = stored(slots, start, key, first);
            let twice = stored(once, start, key, second);
            &&& lookup(once, start, key) == Some(first)
            &&& lookup(twice, start, key) == Some(second)
            &&& occupied(twice) == occupied(once)
        }),
{
    let once = stored(slots, start, key, first);
    lemma_stored_landing(slots, start, key, first);
    lemma_stored_landing(once, start, key, second);
    lemma_occupied_keep(once, landing(once, start, key).unwrap(), (key, second));
}

/// **Absence.** A lookup of a key that no slot holds finds nothing,
/// wherever the probe begins and however full the table is.
pub proof fn law_absent_key_not_found<K: PartialEq, V>(
    slots: Seq<Option<(K, V)>>,
    start: int,
    key: K,
)
    requires
        !holds_key(slots, key),
    ensures
        lookup(slots, start, key) is None,
{
    if lookup(slots, start, key) is Some {
        assert(holds(slots, landing(slots, start, key).unwrap(), key));
    }
}

/// A lookup finds only what some slot holds beside the key.
pub proof fn law_found_is_held<K: PartialEq, V>(
    slots: Seq<Option<(K, V)>>,
    start: int,
    key: K,
)
    requires
        lookup(slots, start, key) is Some,
    ensures
        exists|i: int|
            holds(slots, i, key) && slots[i].unwrap().1 == lookup(slots, start, key).unwrap(),
{
    let i = landing(slots, start, key).unwrap();
    assert(holds(slots, i, key) && slots[i].unwrap().1 == lookup(slots, start, key).unwrap());
}

/// Storing a pair brings no key into the table but its own, and takes none
/// out.
pub proof fn law_stored_keys<K: PartialEq, V>(
    slots: Seq<Option<(K, V)>>,
    start: int,
    key: K,
    value: V,
    other: K,
)
    requires
        obeys_concrete_eq::<K>(),
        landing(slots, start, key) is Some,
    ensures
        holds_key(stored(slots, start, key, value), other) <==> other == key || holds_key(
            slots,
            other,
        ),
{
    reveal(obeys_concrete_eq);
    let after = stored(slots, start, key, value);
    let i = landing(slots, start, key).unwrap();
    if holds_key(after, other) {
        let j = choose|j: int| holds(after, j, other);
        if j != i {
            assert(holds(slots, j, other));
        }
    }
    if other == key {
        assert(holds(after, i, other));
    } else if holds_key(slots, other) {
        let j = choose|j: int| holds(slots, j, other);
        assert(holds(after, j, other));
    }
}

/// **Length of a stored table.** Storing a pair takes one more slot where
/// the probe lands on an empty one, and none where it lands on an entry or
/// nowhere.
pub proof fn law_stored_len<K: PartialEq, V>(
    slots: Seq<Option<(K, V)>>,
    start: int,
    key: K,
    value: V,
)
    ensures
        stored(slots, start, key, value).len() == slots.len(),
        occupied(stored(slots, start, key, value)).len() == occupied(slots).len() + if landing(
            slots,
            start,
            key,
        ) is Some && lookup(slots, start, key) is None {
            1int
        } else {
            0int
        },
{
    if landing(slots, start, key) is Some {
        let i = landing(slots, start, key).unwrap();
        match slots[i] {
            Some((kept, _)) => lemma_occupied_keep(slots, i, (kept, value)),
            None => lemma_occupied_fill(slots, i, (key, value)),
        }
    }
}

/// A key that no slot holds takes one more slot when it is stored,
/// wherever the probe begins, as long as the table has a place for it.
pub proof fn law_new_key_takes_slot<K: PartialEq, V>(
    slots: Seq<Option<(K, V)>>,
    start: int,
    key: K,
    value: V,
)
    requires
        !holds_key(slots, key),
        landing(slots, start, key) is Some,
    ensures
        occupied(stored(slots, start, key, value)).len() == occupied(slots).len() + 1,
{
    law_absent_key_not_found(slots, start, key);
    law_stored_len(slots, start, key, value);
}

/// **Overflow is decided by the table alone.** The probe for `key` lands
/// exactly when some slot is empty or holds `key`, wherever it begins: no
/// digest finds a place in a full table of other keys, and every digest
/// finds one in any other table.
pub proof fn law_overflow_ignores_digest<K: PartialEq, V>(
    slots: Seq<Option<(K, V)>>,
    start: int,
    key: K,
)
    ensures
        landing(slots, start, key) is Some <==> exists|i: int|
            0 <= i < slots.len() && halts_at(#[trigger] slots[i], key),
{
    if landing(slots, start, key) is Some {
        lemma_landing_halts(slots, start, key);
    }
    if exists|i: int| 0 <= i < slots.len() && halts_at(#[trigger] slots[i], key) {
        let i = choose|i: int| 0 <= i < slots.len() && halts_at(#[trigger] slots[i], key);
        lemma_landing_exists(slots, start, key, i);
    }
}

/// **Room.** A table with fewer entries than slots has a place for every
/// key; a table with as many entries as slots has a place for the keys it
/// holds and for no others.
pub proof fn law_room<K: PartialEq, V>(slots: Seq<Option<(K, V)>>, start: int, key: K)
    ensures
        occupied(slots).len() < slots.len() ==> landing(slots, start, key) is Some,
        holds_key(slots, key) ==> landing(slots, start, key) is Some,
        occupied(slots).len() == slots.len() && !holds_key(slots, key) ==> landing(
            slots,
            start,
            key,
        ) is None,
{
    if occupied(slots).len() < slots.len() {
        let i = lemma_vacancy(slots);
        lemma_landing_exists(slots, start, key, i);
    }
    if holds_key(slots, key) {
        let i = choose|i: int| holds(slots, i, key);
        lemma_landing_exists(slots, start, key, i);
    }
    if occupied(slots).len() == slots.len() && landing(slots, start, key) is Some {
        let i = landing(slots, start, key).unwrap();
        lemma_landing_halts(slots, start, key);
        if slots[i] is Some {
            assert(holds(slots, i, key));
        } else {
            let filled = slots.update(i, Some((key, arbitrary::<V>())));
            lemma_occupied_fill(slots, i, (key, arbitrary::<V>()));
            lemma_occupied_bounded(filled);
        }
    }
}

/// **Writing through.** After the value that a lookup of `key` finds is
/// replaced, the same lookup finds the replacement, and every other slot is
/// as it was.
pub proof fn law_write_through<K: PartialEq, V>(
    slots: Seq<Option<(K, V)>>,
    start: int,
    key: K,
    value: V,
)
    requires
        lookup(slots, start, key) is Some,
    ensures
        lookup(revalued(slots, start, key, value), start, key) == Some(value),
        forall|i: int|
            0 <= i < slots.len() && Some(i) != landing(slots, start, key) ==> revalued(
                slots,
                start,
                key,
                value,
            )[i] == slots[i],
{
    lemma_landing_halts(slots, start, key);
    lemma_landing_same_halts(slots, revalued(slots, start, key, value), start, key);
}

/// An empty table is well placed under every digest function, stands for
/// the empty map and has no entry.
pub proof fn law_vacant_well_placed<K: PartialEq, V>(n: nat, h: spec_fn(K) -> u64)
    ensures
        well_placed(vacant::<K, V>(n), h),
        contents(vacant::<K, V>(n)) == Map::<K, V>::empty(),
        occupied(vacant::<K, V>(n)).len() == 0,
{
    let slots = vacant::<K, V>(n);
    assert forall|i: int| 0 <= i < slots.len() implies #[trigger] placed(slots, h, i) by {}
    assert(occupied(slots) =~= Set::<int>::empty());
}

/// **Uniqueness.** A well-placed table holds a key in one slot at most.
pub proof fn law_unique_keys<K: PartialEq, V>(
    slots: Seq<Option<(K, V)>>,
    h: spec_fn(K) -> u64,
    key: K,
    i: int,
    j: int,
)
    requires
        obeys_concrete_eq::<K>(),
        well_placed(slots, h),
        holds(slots, i, key),
        holds(slots, j, key),
    ensures
        i == j,
{
    reveal(obeys_concrete_eq);
    assert(placed(slots, h, i));
    assert(placed(slots, h, j));
}

/// Storing a pair under a key that a well-placed table holds replaces the
/// value beside that key and takes no further slot.
pub proof fn law_held_key_keeps_len<K: PartialEq, V>(
    slots: Seq<Option<(K, V)>>,
    h: spec_fn(K) -> u64,
    key: K,
    value: V,
)
    requires
        obeys_concrete_eq::<K>(),
        well_placed(slots, h),
        holds_key(slots, key),
    ensures
        lookup(slots, start_index(h(key), slots.len()), key) is Some,
        occupied(stored(slots, start_index(h(key), slots.len()), key, value)) == occupied(slots),
{
    reveal(obeys_concrete_eq);
    let i = choose|i: int| holds(slots, i, key);
    assert(placed(slots, h, i));
    lemma_occupied_keep(slots, i, (key, value));
}

/// Storing a pair by a probe that begins where `h` points keeps a
/// well-placed table well placed.
pub proof fn law_stored_well_placed<K: PartialEq, V>(
    slots: Seq<Option<(K, V)>>,
    h: spec_fn(K) -> u64,
    key: K,
    value: V,
)
    requires
        obeys_concrete_eq::<K>(),
        well_placed(slots, h),
    ensures
        well_placed(stored(slots, start_index(h(key), slots.len()), key, value), h),
{
    let start = start_index(h(key), slots.len());
    let after = stored(slots, start, key, value);
    if landing(slots, start, key) is Some {
        lemma_stored_landing(slots, start, key, value);
        let i = landing(slots, start, key).unwrap();
        assert forall|j: int| 0 <= j < after.len() implies #[trigger] placed(after, h, j) by {
            if j != i && after[j] is Some {
                let other = after[j].unwrap().0;
                assert(placed(slots, h, j));
                lemma_other_landing(
                    slots,
                    start,
                    key,
                    value,
                    start_index(h(other), slots.len()),
                    other,
                );
            }
        }
    }
}

/// Writing a value through a lookup keeps a well-placed table well placed,
/// wherever the lookup's probe began.
pub proof fn law_revalued_well_placed<K: PartialEq, V>(
    slots: Seq<Option<(K, V)>>,
    h: spec_fn(K) -> u64,
    start: int,
    key: K,
    value: V,
)
    requires
        well_placed(slots, h),
    ensures
        well_placed(revalued(slots, start, key, value), h),
{
    let after = revalued(slots, start, key, value);
    assert forall|j: int| 0 <= j < after.len() implies #[trigger] placed(after, h, j) by {
        if after[j] is Some {
            let other = after[j].unwrap().0;
            assert(placed(slots, h, j));
            lemma_landing_same_halts(slots, after, start_index(h(other), slots.len()), other);
        }
    }
}

/// In a well-placed table, a lookup that begins where `h` points is the
/// application of the table's map.
pub proof fn law_lookup_is_map_get<K: PartialEq, V>(
    slots: Seq<Option<(K, V)>>,
    h: spec_fn(K) -> u64,
    key: K,
)
    requires
        obeys_concrete_eq::<K>(),
        well_placed(slots, h),
    ensures
        lookup(slots, start_index(h(key), slots.len()), key) == contents(slots).get(key),
{
    reveal(obeys_concrete_eq);
    if holds_key(slots, key) {
        let i = choose|i: int| holds(slots, i, key);
        assert(placed(slots, h, i));
    } else {
        law_absent_key_not_found(slots, start_index(h(key), slots.len()), key);
    }
}

/// In a well-placed table, storing a pair by a probe that begins where `h`
/// points is insertion into the table's map, as long as the table has a
/// place for the key.
pub proof fn law_stored_is_map_insert<K: PartialEq, V>(
    slots: Seq<Option<(K, V)>>,
    h: spec_fn(K) -> u64,
    key: K,
    value: V,
)
    requires
        obeys_concrete_eq::<K>(),
        well_placed(slots, h),
        landing(slots, start_index(h(key), slots.len()), key) is Some,
    ensures
        contents(stored(slots, start_index(h(key), slots.len()), key, value)) == contents(
            slots,
        ).insert(key, value),
{
    reveal(obeys_concrete_eq);
    let start = start_index(h(key), slots.len());
    let after = stored(slots, start, key, value);
    law_stored_well_placed(slots, h, key, value);
    assert forall|other: K|
        contents(after).dom().contains(other) == contents(slots).insert(key, value).dom().contains(
            other,
        ) by {
        law_stored_keys(slots, start, key, value, other);
    }
    assert forall|other: K| #[trigger]
        contents(after).dom().contains(other) implies contents(after)[other] == contents(
        slots,
    ).insert(key, value)[other] by {
        law_lookup_is_map_get(after, h, other);
        if other == key {
            law_read_after_write(slots, start, key, value);
        } else {
            let j = choose|j: int| holds(slots, j, other);
            assert(placed(slots, h, j));
            lemma_other_landing(
                slots,
                start,
                key,
                value,
                start_index(h(other), slots.len()),
                other,
            );
        }
    }
}

/// In a well-placed table, writing a value through a lookup that begins
/// where `h` points is insertion into the table's map under a key that the
/// map has.
pub proof fn law_revalued_is_map_insert<K: PartialEq, V>(
    slots: Seq<Option<(K, V)>>,
    h: spec_fn(K) -> u64,
    key: K,
    value: V,
)
    requires
        obeys_concrete_eq::<K>(),
        well_placed(slots, h),
        lookup(slots, start_index(h(key), slots.len()), key) is Some,
    ensures
        contents(slots).contains_key(key),
        contents(revalued(slots, start_index(h(key), slots.len()), key, value)) == contents(
            slots,
        ).insert(key, value),
{
    reveal(obeys_concrete_eq);
    let start = start_index(h(key), slots.len());
    law_found_is_held(slots, start, key);
    law_stored_is_map_insert(slots, h, key, value);
    assert(revalued(slots, start, key, value) == stored(slots, start, key, value));
}

/// **Length accounting.** A well-placed table has as many entries as its
/// map has keys.
pub proof fn law_len_is_key_count<K: PartialEq, V>(
    slots: Seq<Option<(K, V)>>,
    h: spec_fn(K) -> u64,
)
    requires
        obeys_concrete_eq::<K>(),
        well_placed(slots, h),
    ensures
        contents(slots).dom().finite(),
        occupied(slots).len() == contents(slots).dom().len(),
{
    reveal(obeys_concrete_eq);
    let key_at = |i: int| slots[i].unwrap().0;
    lemma_occupied_bounded(slots);
    assert(injective_on(key_at, occupied(slots))) by {
        assert forall|i: int, j: int|
            occupied(slots).contains(i) && occupied(slots).contains(j) && #[trigger] key_at(i)
                == #[trigger] key_at(j) implies i == j by {
            law_unique_keys(slots, h, key_at(i), i, j);
        }
    }
    assert(occupied(slots).map(key_at) =~= contents(slots).dom()) by {
        assert forall|key: K| contents(slots).dom().contains(key) implies occupied(slots).map(
            key_at,
        ).contains(key) by {
            let i = choose|i: int| holds(slots, i, key);
            assert(occupied(slots).contains(i) && key_at(i) == key);
        }
        assert forall|key: K| occupied(slots).map(key_at).contains(key) implies contents(
            slots,
        ).dom().contains(key) by {
            let i = choose|i: int| occupied(slots).contains(i) && key == key_at(i);
            assert(holds(slots, i, key));
        }
    }
    lemma_map_size(occupied(slots), contents(slots).dom(), key_at);
}

/// **Any run of stores.** Pairs stored one after another into an empty
/// table of `n` slots, under one digest function and with no more than `n`
/// different keys among them, leave a well-placed table that stands for the
/// map that the same insertions build, with one entry for each different
/// key; and the last of them found a place.
pub proof fn law_stored_all<K: PartialEq, V>(n: nat, h: spec_fn(K) -> u64, entries: Seq<(K, V)>)
    requires
        obeys_concrete_eq::<K>(),
        inserted_all(entries).dom().len() <= n,
    ensures
        stored_all(vacant::<K, V>(n), h, entries).len() == n,
        well_placed(stored_all(vacant::<K, V>(n), h, entries), h),
        contents(stored_all(vacant::<K, V>(n), h, entries)) == inserted_all(entries),
        occupied(stored_all(vacant::<K, V>(n), h, entries)).len() == inserted_all(
            entries,
        ).dom().len(),
        entries.len() > 0 ==> landing(
            stored_all(vacant::<K, V>(n), h, entries.drop_last()),
            start_index(h(entries.last().0), n),
            entries.last().0,
        ) is Some,
    decreases entries.len(),
{
    if entries.len() == 0 {
        law_vacant_well_placed::<K, V>(n, h);
    } else {
        let (key, value) = entries.last();
        let fewer = inserted_all(entries.drop_last());
        lemma_inserted_all_finite(entries);
        lemma_len_subset(fewer.dom(), inserted_all(entries).dom());
        law_stored_all(n, h, entries.drop_last());
        let earlier = stored_all(vacant::<K, V>(n), h, entries.drop_last());
        let start = start_index(h(key), n);
        if !fewer.dom().contains(key) {
            assert(inserted_all(entries).dom() =~= fewer.dom().insert(key));
        }
        law_room(earlier, start, key);
        law_stored_well_placed(earlier, h, key, value);
        law_stored_is_map_insert(earlier, h, key, value);
        law_len_is_key_count(stored(earlier, start, key, value), h);
    }
}

/// **Room for every store.** In such a run, the store of the pair at
/// position `k` finds a place in the table that the pairs before it left.
pub proof fn law_every_store_finds_room<K: PartialEq, V>(
    n: nat,
    h: spec_fn(K) -> u64,
    entries: Seq<(K, V)>,
    k: int,
)
    requires
        obeys_concrete_eq::<K>(),
        inserted_all(entries).dom().len() <= n,
        0 <= k < entries.len(),
    ensures
        landing(
            stored_all(vacant::<K, V>(n), h, entries.take(k)),
            start_index(h(entries[k].0), n),
            entries[k].0,
        ) is Some,
{
    let upto = entries.take(k + 1);
    lemma_inserted_all_grows(entries, k + 1);
    lemma_inserted_all_finite(entries);
    lemma_len_subset(inserted_all(upto).dom(), inserted_all(entries).dom());
    law_stored_all(n, h, upto);
    assert(upto.drop_last() =~= entries.take(k));
}

/// **A full table overflows.** Once pairs with `n` different keys are
/// stored in a table of `n` slots, no further key has a place in it,
/// wherever its probe begins.
pub proof fn law_full_table_overflows<K: PartialEq, V>(
    n: nat,
    h: spec_fn(K) -> u64,
    entries: Seq<(K, V)>,
    start: int,
    key: K,
)
    requires
        obeys_concrete_eq::<K>(),
        inserted_all(entries).dom().len() == n,
        !inserted_all(entries).dom().contains(key),
    ensures
        landing(stored_all(vacant::<K, V>(n), h, entries), start, key) is None,
{
    law_stored_all(n, h, entries);
    law_room(stored_all(vacant::<K, V>(n), h, entries), start, key);
}

/// The keys of a run of insertions include the keys of every run that it
/// begins with.
proof fn lemma_inserted_all_grows<K, V>(entries: Seq<(K, V)>, k: int)
    requires
        0 <= k <= entries.len(),
    ensures
        inserted_all(entries.take(k)).dom().subset_of(inserted_all(entries).dom()),
    decreases entries.len() - k,
{
    if k < entries.len() {
        lemma_inserted_all_grows(entries, k + 1);
        assert(entries.take(k + 1).drop_last() =~= entries.take(k));
    } else {
        assert(entries.take(k) =~= entries);
    }
}

/// The map that a run of insertions builds is finite.
proof fn lemma_inserted_all_finite<K, V>(entries: Seq<(K, V)>)
    ensures
        inserted_all(entries).dom().finite(),
    decreases entries.len(),
{
    if entries.len() > 0 {
        lemma_inserted_all_finite(entries.drop_last());
    }
}

} // verus!
