//! The order in which an ordered map is walked.

use crate::addressspace::address_limit;
use vstd::prelude::*;
use vstd::std_specs::btree::increasing_seq;
use vstd::std_specs::cmp::OrdSpec;

verus! {

/// The entries of a map in the order in which it is walked: by ascending
/// key, each key with its value, no key missing.
pub open spec fn walks<V>(map: Map<u64, V>, entries: Seq<(&u64, &V)>) -> bool {
    &&& forall|i: int, j: int| 0 <= i < j < entries.len() ==> *entries[i].0 < *entries[j].0
    &&& forall|i: int|
        0 <= i < entries.len() ==> map.contains_key(*(#[trigger] entries[i]).0)
            && map[*entries[i].0] == *entries[i].1
    &&& forall|k: u64| #[trigger]
        map.contains_key(k) ==> exists|i: int| 0 <= i < entries.len() && *entries[i].0 == k
}

/// The address from which the walk of a map has still to go on, once `done`
/// of its entries are behind it.
pub open spec fn walk_front<V>(entries: Seq<(&u64, &V)>, done: int) -> nat {
    if 0 <= done < entries.len() {
        *entries[done].0 as nat
    } else {
        address_limit()
    }
}

/// A map is walked by ascending key.
pub proof fn lemma_ascending_keys<V>(entries: Seq<(&u64, &V)>)
    requires
        increasing_seq(entries.map_values(|kv: (&u64, &V)| *kv.0)),
    ensures
        forall|i: int, j: int| 0 <= i < j < entries.len() ==> *entries[i].0 < *entries[j].0,
{
    let keys = entries.map_values(|kv: (&u64, &V)| *kv.0);
    assert forall|i: int, j: int| 0 <= i < j < entries.len() implies *entries[i].0
        < *entries[j].0 by {
        assert(keys[i].cmp_spec(&keys[j]) is Less);
    }
}

/// Between the entries that are behind the walk and its front, the map
/// holds nothing.
pub proof fn lemma_walk_gap<V>(map: Map<u64, V>, entries: Seq<(&u64, &V)>, done: int)
    requires
        walks(map, entries),
        0 <= done <= entries.len(),
    ensures
        forall|a: u64|
            (if done == 0 {
                0
            } else {
                *entries[done - 1].0 + 1
            }) <= a < walk_front(entries, done) ==> !map.contains_key(a),
{
    assert forall|a: u64|
        (if done == 0 {
            0
        } else {
            *entries[done - 1].0 + 1
        }) <= a < walk_front(entries, done) implies !map.contains_key(a) by {
        if map.contains_key(a) {
            let i = choose|i: int| 0 <= i < entries.len() && *entries[i].0 == a;
            if i < done {
                if i < done - 1 {
                    assert(*entries[i].0 < *entries[done - 1].0);
                }
            } else if i > done {
                assert(*entries[done].0 < *entries[i].0);
            }
        }
    }
}

} // verus!
