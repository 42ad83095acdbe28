//! Predecessor lists: for every address, the instructions that name it as a
//! successor.

use crate::addressspace::address_limit;
use crate::instruction::{AsmSpace, Instruction, InstructionView};
use crate::walk::{lemma_ascending_keys, lemma_walk_gap, walk_front, walks};
use std::collections::BTreeMap;
use vstd::prelude::*;
use vstd::std_specs::iter::IteratorSpec;

verus! {

/// What one instruction adds to the predecessor list of `target`: its own
/// address, once for each of its first `upto` successors that is `target`.
pub open spec fn links(ins: InstructionView, target: u64, upto: nat) -> Seq<u64>
    decreases upto,
{
    if upto == 0 {
        Seq::empty()
    } else if upto <= ins.nexts.len() && ins.nexts[upto - 1] == target {
        links(ins, target, (upto - 1) as nat).push(ins.address)
    } else {
        links(ins, target, (upto - 1) as nat)
    }
}

/// The predecessor list of `target`, as far as the instructions filed below
/// `bound` fill it.
pub open spec fn predecessors_below(
    stream: Map<u64, InstructionView>,
    target: u64,
    bound: nat,
) -> Seq<u64>
    decreases bound,
{
    if bound == 0 {
        Seq::empty()
    } else {
        let a = (bound - 1) as u64;
        let earlier = predecessors_below(stream, target, (bound - 1) as nat);
        if bound <= address_limit() && stream.contains_key(a) {
            earlier + links(stream[a], target, stream[a].nexts.len())
        } else {
            earlier
        }
    }
}

/// The predecessor list of `target`: going through the stream by ascending
/// address, and through each instruction's successors in their order, the
/// instruction's own address for every successor that is `target`.
pub open spec fn predecessors(stream: Map<u64, InstructionView>, target: u64) -> Seq<u64> {
    predecessors_below(stream, target, address_limit())
}

/// The list that `map` holds for `target`; empty where it holds none.
pub open spec fn listed(map: Map<u64, Vec<u64>>, target: u64) -> Seq<u64> {
    if map.contains_key(target) {
        map[target]@
    } else {
        Seq::empty()
    }
}

/// Addresses at which nothing is filed add nothing to a predecessor list.
pub proof fn lemma_predecessors_skip(
    stream: Map<u64, InstructionView>,
    target: u64,
    lo: nat,
    hi: nat,
)
    requires
        lo <= hi <= address_limit(),
        forall|a: u64| lo <= a < hi ==> !stream.contains_key(a),
    ensures
        predecessors_below(stream, target, hi) == predecessors_below(stream, target, lo),
    decreases hi - lo,
{
    if lo < hi {
        lemma_predecessors_skip(stream, target, lo, (hi - 1) as nat);
    }
}

/// The list grows with the bound, and what it held stays in front.
pub proof fn lemma_predecessors_grow(
    stream: Map<u64, InstructionView>,
    target: u64,
    lo: nat,
    hi: nat,
)
    requires
        lo <= hi,
    ensures
        predecessors_below(stream, target, lo).len() <= predecessors_below(
            stream,
            target,
            hi,
        ).len(),
        forall|k: int|
            0 <= k < predecessors_below(stream, target, lo).len() ==> predecessors_below(
                stream,
                target,
                hi,
            )[k] == predecessors_below(stream, target, lo)[k],
    decreases hi - lo,
{
    if lo < hi {
        lemma_predecessors_grow(stream, target, lo, (hi - 1) as nat);
    }
}

/// A successor that is `target` puts one entry on the list.
pub proof fn lemma_links_one(ins: InstructionView, target: u64, upto: nat, i: int)
    requires
        0 <= i < upto <= ins.nexts.len(),
        ins.nexts[i] == target,
    ensures
        links(ins, target, upto).len() >= 1,
        links(ins, target, upto).last() == ins.address,
    decreases upto,
{
    if i < upto - 1 {
        lemma_links_one(ins, target, (upto - 1) as nat, i);
    }
}

/// Two successors that are `target` put two entries on the list.
pub proof fn lemma_links_two(ins: InstructionView, target: u64, upto: nat, i: int, j: int)
    requires
        0 <= i < j < upto <= ins.nexts.len(),
        ins.nexts[i] == target,
        ins.nexts[j] == target,
    ensures
        links(ins, target, upto).len() >= 2,
    decreases upto,
{
    if j < upto - 1 {
        lemma_links_two(ins, target, (upto - 1) as nat, i, j);
    } else {
        lemma_links_one(ins, target, (upto - 1) as nat, i);
    }
}

/// Every entry of the list that one instruction adds is its own address.
pub proof fn lemma_links_entries(ins: InstructionView, target: u64, upto: nat)
    ensures
        forall|k: int|
            0 <= k < links(ins, target, upto).len() ==> links(ins, target, upto)[k]
                == ins.address,
        links(ins, target, upto).len() > 0 ==> exists|i: int|
            0 <= i < upto && i < ins.nexts.len() && ins.nexts[i] == target,
    decreases upto,
{
    if upto > 0 {
        lemma_links_entries(ins, target, (upto - 1) as nat);
        if upto <= ins.nexts.len() && ins.nexts[upto - 1] == target {
            assert(0 <= upto - 1 < upto && ins.nexts[upto - 1] == target);
        }
    }
}

/// An instruction that names `target` as a successor is on its predecessor list.
pub proof fn lemma_predecessor_listed(
    stream: Map<u64, InstructionView>,
    target: u64,
    from: u64,
    i: int,
)
    requires
        stream.contains_key(from),
        0 <= i < stream[from].nexts.len(),
        stream[from].nexts[i] == target,
    ensures
        predecessors(stream, target).len() >= 1,
{
    lemma_links_one(stream[from], target, stream[from].nexts.len(), i);
    lemma_predecessors_grow(stream, target, (from + 1) as nat, address_limit());
}

/// Where a predecessor list holds one entry at most, it holds the address
/// of the one instruction that names `target` as a successor, and nothing
/// else.
pub proof fn lemma_sole_predecessor(
    stream: Map<u64, InstructionView>,
    target: u64,
    from: u64,
    i: int,
)
    requires
        stream.contains_key(from),
        0 <= i < stream[from].nexts.len(),
        stream[from].nexts[i] == target,
        predecessors(stream, target).len() <= 1,
    ensures
        predecessors(stream, target).len() == 1,
        predecessors(stream, target)[0] == stream[from].address,
{
    let ins = stream[from];
    lemma_links_one(ins, target, ins.nexts.len(), i);
    lemma_links_entries(ins, target, ins.nexts.len());
    lemma_predecessors_grow(stream, target, (from + 1) as nat, address_limit());
    let upto = predecessors_below(stream, target, (from + 1) as nat);
    assert(upto == predecessors_below(stream, target, from as nat) + links(
        ins,
        target,
        ins.nexts.len(),
    ));
    assert(upto[0] == links(ins, target, ins.nexts.len())[0]);
}

/// Two instructions that name `target` as a successor make its predecessor
/// list at least two long.
pub proof fn lemma_two_predecessors(
    stream: Map<u64, InstructionView>,
    target: u64,
    from: u64,
    i: int,
    other: u64,
    j: int,
)
    requires
        stream.contains_key(from),
        0 <= i < stream[from].nexts.len(),
        stream[from].nexts[i] == target,
        stream.contains_key(other),
        0 <= j < stream[other].nexts.len(),
        stream[other].nexts[j] == target,
        from != other || i != j,
    ensures
        predecessors(stream, target).len() >= 2,
{
    if from == other {
        if i < j {
            lemma_links_two(stream[from], target, stream[from].nexts.len(), i, j);
        } else {
            lemma_links_two(stream[from], target, stream[from].nexts.len(), j, i);
        }
        lemma_predecessors_grow(stream, target, (from + 1) as nat, address_limit());
    } else {
        let (low, li, high, hi) = if from < other {
            (from, i, other, j)
        } else {
            (other, j, from, i)
        };
        lemma_links_one(stream[low], target, stream[low].nexts.len(), li);
        lemma_links_one(stream[high], target, stream[high].nexts.len(), hi);
        lemma_predecessors_grow(stream, target, (low + 1) as nat, high as nat);
        lemma_predecessors_grow(stream, target, (high + 1) as nat, address_limit());
    }
}

/// Builds the predecessor list of every address that some instruction of
/// the stream names as a successor.
pub fn predecessor_map<Ins: Instruction>(space: &AsmSpace<Ins>) -> (map: BTreeMap<u64, Vec<u64>>)
    ensures
        forall|target: u64| #[trigger] listed(map@, target) == predecessors(space@, target),
        forall|target: u64| #[trigger]
            map@.contains_key(target) <==> predecessors(space@, target).len() > 0,
{
    let mut map: BTreeMap<u64, Vec<u64>> = BTreeMap::new();
    let walk = space.space.iter();
    let ghost entries = walk.remaining();
    proof {
        lemma_ascending_keys(entries);
        assert(walks(space.space@, entries));
        lemma_walk_gap(space.space@, entries, 0);
        assert forall|target: u64| #[trigger]
            listed(map@, target) == predecessors_below(
                space@,
                target,
                walk_front(entries, 0),
            ) by {
            lemma_predecessors_skip(space@, target, 0, walk_front(entries, 0));
        }
    }
    for kv in it: walk
        invariant
            it.seq() == entries,
            walks(space.space@, entries),
            forall|target: u64| #[trigger] map@.contains_key(target) ==> map@[target]@.len() > 0,
            forall|target: u64| #[trigger]
                listed(map@, target) == predecessors_below(
                    space@,
                    target,
                    walk_front(entries, it.index() as int),
                ),
    {
        let ghost done = it.index() as int;
        let ghost key = *entries[done].0;
        let ins = kv.1;
        let address = ins.address();
        let nexts = ins.nexts();
        let mut j: usize = 0;
        assert(space@[key] == ins@);
        while j < nexts.len()
            invariant
                j <= nexts.len(),
                nexts@ == ins@.nexts,
                address == ins@.address,
                forall|target: u64| #[trigger]
                    map@.contains_key(target) ==> map@[target]@.len() > 0,
                forall|target: u64| #[trigger]
                    listed(map@, target) == predecessors_below(space@, target, key as nat) + links(
                        ins@,
                        target,
                        j as nat,
                    ),
            decreases nexts.len() - j,
        {
            let next = nexts[j];
            let ghost before = map@;
            let mut list = match map.remove(&next) {
                Some(list) => list,
                None => Vec::new(),
            };
            list.push(address);
            map.insert(next, list);
            j += 1;
            assert forall|target: u64| #[trigger]
                listed(map@, target) == predecessors_below(space@, target, key as nat) + links(
                    ins@,
                    target,
                    j as nat,
                ) by {
                if target == next {
                    assert(listed(map@, target) =~= listed(before, target).push(address));
                } else {
                    assert(listed(map@, target) == listed(before, target));
                }
            }
        }
        proof {
            lemma_walk_gap(space.space@, entries, done + 1);
            assert forall|target: u64| #[trigger]
                listed(map@, target) == predecessors_below(
                    space@,
                    target,
                    walk_front(entries, done + 1),
                ) by {
                assert(space@.contains_key(key));
                assert(predecessors_below(space@, target, (key + 1) as nat)
                    == predecessors_below(space@, target, key as nat) + links(
                    ins@,
                    target,
                    ins@.nexts.len(),
                ));
                lemma_predecessors_skip(
                    space@,
                    target,
                    (key + 1) as nat,
                    walk_front(entries, done + 1),
                );
            }
        }
    }
    assert forall|target: u64| #[trigger]
        map@.contains_key(target) <==> predecessors(space@, target).len() > 0 by {
        assert(listed(map@, target) == predecessors(space@, target));
    }
    map
}

} // verus!
