//! The mathematical model of the table: a sequence of slots and the probe
//! sequence that linear probing walks over it.
//!
//! Everything here is ghost code. A table of `n` slots is a
//! `Seq<Option<(K, V)>>` of length `n`; slot `i` is empty where the sequence
//! holds `None` at `i`. Keys are compared with the key type's own equality,
//! `eq_spec`, with the stored key on the left.
use vstd::arithmetic::div_mod::{
    lemma_add_mod_noop_right, lemma_fundamental_div_mod, lemma_fundamental_div_mod_converse,
    lemma_small_mod,
};
use vstd::prelude::*;
use vstd::set_lib::{lemma_int_range, lemma_len_subset, set_int_range};
use vstd::std_specs::cmp::PartialEqSpec;

verus! {

/// A table of `n` empty slots.
pub open spec fn vacant<K, V>(n: nat) -> Seq<Option<(K, V)>> {
    Seq::new(n, |i: int| None::<(K, V)>)
}

/// The slot at which the probe sequence for a key with digest `digest`
/// begins, in a table of `n` slots.
pub open spec fn start_index(digest: u64, n: nat) -> int {
    (digest as int) % (n as int)
}

/// The slot visited at step `step` of the probe sequence that begins at
/// `start`, in a table of `n` slots: the slots follow one another and wrap
/// round at the end of the table.
pub open spec fn slot_index(start: int, step: int, n: nat) -> int {
    (start + step) % (n as int)
}

/// Whether the probe for `key` ends at `slot`: the slot is empty, or the key
/// it holds equals `key`.
pub open spec fn halts_at<K: PartialEq, V>(slot: Option<(K, V)>, key: K) -> bool {
    match slot {
        Some((stored, _)) => stored.eq_spec(&key),
        None => true,
    }
}

/// Whether `step` is the first step of the probe sequence from `start` at
/// which the probe for `key` ends.
pub open spec fn first_halt<K: PartialEq, V>(
    slots: Seq<Option<(K, V)>>,
    start: int,
    key: K,
    step: int,
) -> bool {
    &&& 0 <= step < slots.len()
    &&& halts_at(slots[slot_index(start, step, slots.len())], key)
    &&& forall|earlier: int|
        0 <= earlier < step ==> !halts_at(
            slots[#[trigger] slot_index(start, earlier, slots.len())],
            key,
        )
}

/// The slot on which the probe for `key` lands when it begins at `start`:
/// the first slot of the probe sequence that is empty or holds `key`. `None`
/// when every slot of the table holds another key.
pub open spec fn landing<K: PartialEq, V>(slots: Seq<Option<(K, V)>>, start: int, key: K) -> Option<
    int,
> {
    if exists|step: int| first_halt(slots, start, key, step) {
        Some(slot_index(start, choose|step: int| first_halt(slots, start, key, step), slots.len()))
    } else {
        None
    }
}

/// What a lookup of `key` that probes from `start` finds: the value in the
/// landing slot, if the probe lands on an occupied one.
pub open spec fn lookup<K: PartialEq, V>(slots: Seq<Option<(K, V)>>, start: int, key: K) -> Option<
    V,
> {
    match landing(slots, start, key) {
        Some(i) => match slots[i] {
            Some((_, value)) => Some(value),
            None => None,
        },
        None => None,
    }
}

/// The table after `key` is stored with `value` by a probe from `start`. An
/// empty landing slot receives the pair; an occupied one keeps its key and
/// takes the new value. A table with no landing slot for `key` is unchanged.
pub open spec fn stored<K: PartialEq, V>(
    slots: Seq<Option<(K, V)>>,
    start: int,
    key: K,
    value: V,
) -> Seq<Option<(K, V)>> {
    match landing(slots, start, key) {
        Some(i) => match slots[i] {
            Some((kept, _)) => slots.update(i, Some((kept, value))),
            None => slots.update(i, Some((key, value))),
        },
        None => slots,
    }
}

/// The table after the value that a lookup of `key` from `start` finds is
/// replaced by `value`. A table in which the lookup finds nothing is
/// unchanged.
pub open spec fn revalued<K: PartialEq, V>(
    slots: Seq<Option<(K, V)>>,
    start: int,
    key: K,
    value: V,
) -> Seq<Option<(K, V)>> {
    match landing(slots, start, key) {
        Some(i) => match slots[i] {
            Some((kept, _)) => slots.update(i, Some((kept, value))),
            None => slots,
        },
        None => slots,
    }
}

/// The indices of the occupied slots.
pub open spec fn occupied<K, V>(slots: Seq<Option<(K, V)>>) -> Set<int> {
    Set::new(|i: int| 0 <= i < slots.len() && slots[i] is Some)
}

/// Whether two tables have the same number of slots and the same slots
/// occupied.
pub open spec fn same_shape<K, V>(a: Seq<Option<(K, V)>>, b: Seq<Option<(K, V)>>) -> bool {
    &&& a.len() == b.len()
    &&& forall|i: int| 0 <= i < a.len() ==> (a[i] is Some <==> b[i] is Some)
}

/// Whether slot `i` is occupied by a key equal to `key`.
pub open spec fn holds<K: PartialEq, V>(slots: Seq<Option<(K, V)>>, i: int, key: K) -> bool {
    &&& 0 <= i < slots.len()
    &&& match slots[i] {
        Some((stored, _)) => stored.eq_spec(&key),
        None => false,
    }
}

/// Whether some slot is occupied by a key equal to `key`.
pub open spec fn holds_key<K: PartialEq, V>(slots: Seq<Option<(K, V)>>, key: K) -> bool {
    exists|i: int| holds(slots, i, key)
}

/// The occupied slots are finitely many, and no more than the table has
/// slots.
pub proof fn lemma_occupied_bounded<K, V>(slots: Seq<Option<(K, V)>>)
    ensures
        occupied(slots).finite(),
        occupied(slots).len() <= slots.len(),
{
    let all = set_int_range(0, slots.len() as int);
    lemma_int_range(0, slots.len() as int);
    lemma_len_subset(occupied(slots), all);
}

/// The count of occupied slots is zero exactly when every slot is empty.
pub proof fn lemma_occupied_none<K, V>(slots: Seq<Option<(K, V)>>)
    ensures
        occupied(slots).len() == 0 <==> forall|i: int| 0 <= i < slots.len() ==> slots[i] is None,
{
    lemma_occupied_bounded(slots);
    if occupied(slots).len() == 0 {
        assert forall|i: int| 0 <= i < slots.len() implies slots[i] is None by {
            if slots[i] is Some {
                assert(occupied(slots).contains(i));
            }
        }
    }
    if forall|i: int| 0 <= i < slots.len() ==> slots[i] is None {
        assert(occupied(slots) =~= Set::<int>::empty());
    }
}

/// The probe sequence moves to the next slot, and from the last slot of the
/// table back to the first.
pub proof fn lemma_slot_index_next(start: int, step: int, n: nat)
    requires
        n > 0,
    ensures
        slot_index(start, step + 1, n) == if slot_index(start, step, n) + 1 < n {
            slot_index(start, step, n) + 1
        } else {
            0
        },
{
    let d = n as int;
    let x = start + step;
    lemma_fundamental_div_mod(x, d);
    if x % d + 1 < d {
        lemma_fundamental_div_mod_converse(x + 1, d, x / d, x % d + 1);
    } else {
        assert(x + 1 == (x / d + 1) * d + 0) by (nonlinear_arith)
            requires
                x == d * (x / d) + x % d,
                x % d + 1 == d,
        ;
        lemma_fundamental_div_mod_converse(x + 1, d, x / d + 1, 0);
    }
}

/// A step at which the probe ends for the first time fixes the landing slot.
pub proof fn lemma_landing_at<K: PartialEq, V>(
    slots: Seq<Option<(K, V)>>,
    start: int,
    key: K,
    step: int,
)
    requires
        first_halt(slots, start, key, step),
    ensures
        landing(slots, start, key) == Some(slot_index(start, step, slots.len())),
{
}

/// Every slot of the table is visited at some step of every probe sequence.
pub proof fn lemma_slot_index_covers(start: int, n: nat, i: int) -> (step: int)
    requires
        0 <= i < n,
    ensures
        0 <= step < n,
        slot_index(start, step, n) == i,
{
    let step = (i - start) % (n as int);
    lemma_add_mod_noop_right(start, i - start, n as int);
    lemma_small_mod(i as nat, n);
    step
}

/// The landing slot is a slot of the table at which the probe ends, and the
/// probe passed over every slot that it visited before.
pub proof fn lemma_landing_halts<K: PartialEq, V>(
    slots: Seq<Option<(K, V)>>,
    start: int,
    key: K,
) -> (step: int)
    requires
        landing(slots, start, key) is Some,
    ensures
        first_halt(slots, start, key, step),
        landing(slots, start, key) == Some(slot_index(start, step, slots.len())),
        0 <= landing(slots, start, key).unwrap() < slots.len(),
        halts_at(slots[landing(slots, start, key).unwrap()], key),
{
    choose|step: int| first_halt(slots, start, key, step)
}

/// A probe that ends at step `step` has a first step at which it ends.
proof fn lemma_first_halt_exists<K: PartialEq, V>(
    slots: Seq<Option<(K, V)>>,
    start: int,
    key: K,
    step: int,
)
    requires
        0 <= step < slots.len(),
        halts_at(slots[slot_index(start, step, slots.len())], key),
    ensures
        exists|first: int| first_halt(slots, start, key, first),
    decreases step,
{
    if exists|earlier: int|
        0 <= earlier < step && halts_at(
            slots[#[trigger] slot_index(start, earlier, slots.len())],
            key,
        ) {
        let earlier = choose|earlier: int|
            0 <= earlier < step && halts_at(
                slots[#[trigger] slot_index(start, earlier, slots.len())],
                key,
            );
        lemma_first_halt_exists(slots, start, key, earlier);
    } else {
        assert(first_halt(slots, start, key, step));
    }
}

/// Where some slot is empty or holds `key`, the probe for `key` lands,
/// wherever it begins.
pub proof fn lemma_landing_exists<K: PartialEq, V>(
    slots: Seq<Option<(K, V)>>,
    start: int,
    key: K,
    i: int,
)
    requires
        0 <= i < slots.len(),
        halts_at(slots[i], key),
    ensures
        landing(slots, start, key) is Some,
{
    let step = lemma_slot_index_covers(start, slots.len(), i);
    lemma_first_halt_exists(slots, start, key, step);
}

/// A table with fewer occupied slots than slots has an empty one.
pub proof fn lemma_vacancy<K, V>(slots: Seq<Option<(K, V)>>) -> (i: int)
    requires
        occupied(slots).len() < slots.len(),
    ensures
        0 <= i < slots.len(),
        slots[i] is None,
{
    if forall|i: int| 0 <= i < slots.len() ==> slots[i] is Some {
        lemma_int_range(0, slots.len() as int);
        assert(occupied(slots) =~= set_int_range(0, slots.len() as int));
    }
    choose|i: int| 0 <= i < slots.len() && slots[i] is None
}

/// Filling an empty slot adds its index to the occupied ones.
pub proof fn lemma_occupied_fill<K, V>(slots: Seq<Option<(K, V)>>, i: int, entry: (K, V))
    requires
        0 <= i < slots.len(),
        slots[i] is None,
    ensures
        occupied(slots.update(i, Some(entry))) == occupied(slots).insert(i),
        occupied(slots.update(i, Some(entry))).len() == occupied(slots).len() + 1,
{
    lemma_occupied_bounded(slots);
    assert(occupied(slots.update(i, Some(entry))) =~= occupied(slots).insert(i));
}

/// Replacing the entry of an occupied slot leaves the occupied ones as
/// they were.
pub proof fn lemma_occupied_keep<K, V>(slots: Seq<Option<(K, V)>>, i: int, entry: (K, V))
    requires
        0 <= i < slots.len(),
        slots[i] is Some,
    ensures
        occupied(slots.update(i, Some(entry))) == occupied(slots),
{
}

} // verus!
