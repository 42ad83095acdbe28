//! What the graph builder knows while it works, and why each of its steps
//! keeps that true.

use crate::addressspace::{address_limit, lemma_addresses_bounded};
use crate::graph::{
    hands_on_to_blocks, hands_to, is_block, is_cfg_of, leads, lemma_reached_next,
    lemma_reached_stays, reached, BasicBlockView, CfgView,
};
use crate::instruction::InstructionView;
use vstd::prelude::*;

verus! {

/// The builder's state.  `seen` holds the candidates for a block start that
/// were found so far, `pending` those that are still to be looked at, and
/// `blocks` what was built.  The blocks are basic blocks of the stream that
/// routes from `entry` reach; every candidate is `entry` or an address that
/// a block may hand control to; and every candidate that is no longer
/// pending has its block, unless nothing was decoded there.
pub open spec fn building(
    stream: Map<u64, InstructionView>,
    entry: u64,
    blocks: Map<u64, BasicBlockView>,
    seen: Set<u64>,
    pending: Seq<u64>,
) -> bool {
    &&& seen.finite()
    &&& seen.contains(entry)
    &&& pending.no_duplicates()
    &&& forall|i: int|
        0 <= i < pending.len() ==> seen.contains(#[trigger] pending[i]) && !blocks.contains_key(
            pending[i],
        )
    &&& forall|a: u64| #[trigger]
        blocks.contains_key(a) ==> seen.contains(a) && is_block(stream, a, blocks[a]) && reached(
            blocks,
            entry,
            a,
        )
    &&& forall|q: u64| #[trigger]
        seen.contains(q) ==> q == entry || exists|a: u64| #[trigger] hands_to(blocks, a, q)
    &&& forall|s: u64| #[trigger]
        seen.contains(s) ==> pending.contains(s) || blocks.contains_key(s) || !stream.contains_key(
            s,
        )
}

/// Every address that a block may hand control to is a candidate; of the
/// block at `current`, at least its first `upto` successors are.
pub open spec fn handed_on(
    blocks: Map<u64, BasicBlockView>,
    seen: Set<u64>,
    current: u64,
    upto: int,
) -> bool {
    forall|a: u64, k: int|
        blocks.contains_key(a) && 0 <= k < blocks[a].nexts().len() && (a != current || k < upto)
            ==> seen.contains(#[trigger] blocks[a].nexts()[k])
}

/// Every address that a block may hand control to is a candidate.
pub open spec fn all_handed_on(blocks: Map<u64, BasicBlockView>, seen: Set<u64>) -> bool {
    forall|a: u64, k: int|
        blocks.contains_key(a) && 0 <= k < blocks[a].nexts().len() ==> seen.contains(
            #[trigger] blocks[a].nexts()[k],
        )
}

/// What is pending beside its last address stays pending without it.
proof fn lemma_rest_pending(pending: Seq<u64>, s: u64)
    requires
        pending.len() > 0,
        pending.contains(s),
        s != pending.last(),
    ensures
        pending.drop_last().contains(s),
{
    let i = choose|i: int| 0 <= i < pending.len() && pending[i] == s;
    assert(pending.drop_last()[i] == s);
}

/// The builder begins with the entry as its one candidate.
pub proof fn lemma_begin(stream: Map<u64, InstructionView>, entry: u64)
    ensures
        building(
            stream,
            entry,
            Map::empty(),
            Set::<u64>::empty().insert(entry),
            Seq::<u64>::empty().push(entry),
        ),
        all_handed_on(Map::empty(), Set::<u64>::empty().insert(entry)),
        Set::<u64>::empty().insert(entry).len() <= address_limit(),
{
    let pending = Seq::<u64>::empty().push(entry);
    assert(pending[0] == entry);
    lemma_addresses_bounded(Set::<u64>::empty().insert(entry));
}

/// A candidate at which nothing was decoded is dropped.
pub proof fn lemma_drop_candidate(
    stream: Map<u64, InstructionView>,
    entry: u64,
    blocks: Map<u64, BasicBlockView>,
    seen: Set<u64>,
    pending: Seq<u64>,
)
    requires
        building(stream, entry, blocks, seen, pending),
        pending.len() > 0,
        !stream.contains_key(pending.last()),
    ensures
        building(stream, entry, blocks, seen, pending.drop_last()),
{
    let rest = pending.drop_last();
    assert forall|s: u64| #[trigger] seen.contains(s) implies rest.contains(s)
        || blocks.contains_key(s) || !stream.contains_key(s) by {
        if pending.contains(s) && s != pending.last() {
            lemma_rest_pending(pending, s);
        }
    }
}

/// The block of a candidate is added to the graph.
pub proof fn lemma_add_block(
    stream: Map<u64, InstructionView>,
    entry: u64,
    blocks: Map<u64, BasicBlockView>,
    seen: Set<u64>,
    pending: Seq<u64>,
    block: BasicBlockView,
)
    requires
        building(stream, entry, blocks, seen, pending),
        all_handed_on(blocks, seen),
        pending.len() > 0,
        is_block(stream, pending.last(), block),
    ensures
        !blocks.contains_key(pending.last()),
        building(stream, entry, blocks.insert(pending.last(), block), seen, pending.drop_last()),
        handed_on(blocks.insert(pending.last(), block), seen, pending.last(), 0),
{
    let start = pending.last();
    let rest = pending.drop_last();
    let more = blocks.insert(start, block);
    assert(seen.contains(start) && !blocks.contains_key(start));
    if start == entry {
        assert(leads(more, entry, start, seq![entry]));
    } else {
        let from = choose|a: u64| hands_to(blocks, a, start);
        lemma_reached_next(blocks, entry, from, start, block);
    }
    assert forall|a: u64| #[trigger] more.contains_key(a) implies reached(more, entry, a) by {
        if a != start {
            lemma_reached_stays(blocks, entry, a, start, block);
        }
    }
    assert forall|s: u64| #[trigger] seen.contains(s) implies rest.contains(s) || more.contains_key(
        s,
    ) || !stream.contains_key(s) by {
        if pending.contains(s) && s != start {
            lemma_rest_pending(pending, s);
        }
    }
    assert forall|q: u64| #[trigger] seen.contains(q) implies q == entry || exists|a: u64|
        #[trigger] hands_to(more, a, q) by {
        if q != entry {
            let a = choose|a: u64| hands_to(blocks, a, q);
            assert(hands_to(more, a, q));
        }
    }
    assert forall|i: int| 0 <= i < rest.len() implies seen.contains(#[trigger] rest[i])
        && !more.contains_key(rest[i]) by {
        assert(rest[i] == pending[i]);
    }
}

/// A successor of the block at `current` that is no candidate yet becomes
/// one, and pending.
pub proof fn lemma_add_candidate(
    stream: Map<u64, InstructionView>,
    entry: u64,
    blocks: Map<u64, BasicBlockView>,
    seen: Set<u64>,
    pending: Seq<u64>,
    current: u64,
    upto: int,
)
    requires
        building(stream, entry, blocks, seen, pending),
        handed_on(blocks, seen, current, upto),
        blocks.contains_key(current),
        0 <= upto < blocks[current].nexts().len(),
        !seen.contains(blocks[current].nexts()[upto]),
    ensures
        building(
            stream,
            entry,
            blocks,
            seen.insert(blocks[current].nexts()[upto]),
            pending.push(blocks[current].nexts()[upto]),
        ),
        handed_on(blocks, seen.insert(blocks[current].nexts()[upto]), current, upto + 1),
        seen.insert(blocks[current].nexts()[upto]).len() == seen.len() + 1,
        seen.insert(blocks[current].nexts()[upto]).len() <= address_limit(),
{
    let next = blocks[current].nexts()[upto];
    let more = seen.insert(next);
    let longer = pending.push(next);
    lemma_addresses_bounded(more);
    assert(hands_to(blocks, current, next));
    assert(longer.no_duplicates()) by {
        assert forall|x: int, y: int| 0 <= x < y < longer.len() implies longer[x] != longer[y] by {
            if y == pending.len() {
                assert(seen.contains(pending[x]));
            }
        }
    }
    assert forall|s: u64| #[trigger] more.contains(s) implies longer.contains(s)
        || blocks.contains_key(s) || !stream.contains_key(s) by {
        if s == next {
            assert(longer[pending.len() as int] == s);
        } else if pending.contains(s) {
            let x = choose|x: int| 0 <= x < pending.len() && pending[x] == s;
            assert(longer[x] == s);
        }
    }
    assert forall|i: int| 0 <= i < longer.len() implies more.contains(#[trigger] longer[i])
        && !blocks.contains_key(longer[i]) by {
        if i < pending.len() {
            assert(longer[i] == pending[i]);
        }
    }
}

/// A successor of the block at `current` that is a candidate already needs
/// nothing.
pub proof fn lemma_known_candidate(
    blocks: Map<u64, BasicBlockView>,
    seen: Set<u64>,
    current: u64,
    upto: int,
)
    requires
        handed_on(blocks, seen, current, upto),
        blocks.contains_key(current),
        0 <= upto < blocks[current].nexts().len(),
        seen.contains(blocks[current].nexts()[upto]),
    ensures
        handed_on(blocks, seen, current, upto + 1),
{
}

/// With nothing pending, what was built is the graph.
pub proof fn lemma_built(
    stream: Map<u64, InstructionView>,
    entry: u64,
    blocks: Map<u64, BasicBlockView>,
    seen: Set<u64>,
    pending: Seq<u64>,
)
    requires
        building(stream, entry, blocks, seen, pending),
        all_handed_on(blocks, seen),
        pending.len() == 0,
    ensures
        is_cfg_of(stream, entry, CfgView { entrypoint: entry, blocks }),
{
    assert forall|a: u64, i: int|
        blocks.contains_key(a) && 0 <= i < blocks[a].nexts().len() && stream.contains_key(
            #[trigger] blocks[a].nexts()[i],
        ) implies blocks.contains_key(blocks[a].nexts()[i]) by {
        let to = blocks[a].nexts()[i];
        assert(seen.contains(to));
        assert(!pending.contains(to));
    }
    assert(hands_on_to_blocks(stream, blocks));
    assert(!pending.contains(entry));
}

} // verus!
