//! The inline slot array: how it is made, and the three ways in which a slot
//! changes.
use crate::probing::{
    lemma_occupied_bounded, lemma_occupied_fill, lemma_occupied_keep, occupied, same_shape,
};
use vstd::prelude::*;

verus! {

/// The initial content of a slot: no entry, whatever the slot's position.
pub(crate) fn no_entry<K, V>(_position: usize) -> (slot: Option<(K, V)>)
    ensures
        slot is None,
{
    None
}

/// Builds the slot array of an empty table, by a call of
/// `std::array::from_fn`, which fills index `i` with what the closure returns
/// for `i`. The closure is `no_entry`, so every slot is empty.
#[verifier::external_body]
pub(crate) fn empty_slots<K, V, const N: usize>() -> (slots: [Option<(K, V)>; N])
    ensures
        forall|i: int| 0 <= i < N ==> slots@[i] is None,
{
    std::array::from_fn(|position| no_entry(position))
}

/// Puts an entry into the empty slot `i` and counts it.
pub(crate) fn fill<K, V, const N: usize>(
    slots: &mut [Option<(K, V)>; N],
    len: &mut usize,
    i: usize,
    key: K,
    value: V,
)
    requires
        i < N,
        old(slots)@[i as int] is None,
        *old(len) == occupied(old(slots)@).len(),
    ensures
        final(slots)@ == old(slots)@.update(i as int, Some((key, value))),
        *final(len) == occupied(final(slots)@).len(),
        *final(len) == *old(len) + 1,
    no_unwind
{
    proof {
        lemma_occupied_fill(slots@, i as int, (key, value));
        lemma_occupied_bounded(slots@.update(i as int, Some((key, value))));
    }
    slots[i] = Some((key, value));
    *len += 1;
}

/// Gives the entry in slot `i` the value `value` and hands back the value
/// that it had. The key stays as it is.
pub(crate) fn replace_value<K, V, const N: usize>(
    slots: &mut [Option<(K, V)>; N],
    i: usize,
    value: V,
) -> (previous: V)
    requires
        i < N,
        old(slots)@[i as int] is Some,
    ensures
        previous == old(slots)@[i as int].unwrap().1,
        final(slots)@ == old(slots)@.update(
            i as int,
            Some((old(slots)@[i as int].unwrap().0, value)),
        ),
        occupied(final(slots)@) == occupied(old(slots)@),
    no_unwind
{
    proof {
        lemma_occupied_keep(slots@, i as int, (slots@[i as int].unwrap().0, value));
    }
    let mut held = value;
    match &mut slots[i] {
        Some(entry) => std::mem::swap(&mut entry.1, &mut held),
        None => {},
    }
    held
}

/// Lends out the value of the entry in slot `i`, if the slot has one, for
/// writing. The key stays as it is.
pub(crate) fn lend_value<K, V, const N: usize>(slots: &mut [Option<(K, V)>; N], i: usize) -> (lent:
    Option<&mut V>)
    requires
        i < N,
    ensures
        match lent {
            Some(value) => {
                &&& old(slots)@[i as int] is Some
                &&& *value == old(slots)@[i as int].unwrap().1
                &&& final(slots)@ == old(slots)@.update(
                    i as int,
                    Some((old(slots)@[i as int].unwrap().0, *final(value))),
                )
            },
            None => old(slots)@[i as int] is None && final(slots)@ == old(slots)@,
        },
        occupied(final(slots)@) == occupied(old(slots)@),
    no_unwind
{
    proof {
        // Whatever is written to the value, the same slots stay occupied.
        assert forall|after: Seq<Option<(K, V)>>|
            same_shape(slots@, after) implies #[trigger] occupied(after) == occupied(slots@) by {}
    }
    match &mut slots[i] {
        Some(entry) => Some(&mut entry.1),
        None => None,
    }
}

} // verus!
