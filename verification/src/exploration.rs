//! Exploring an address space: which instruction stream it yields from an
//! entry, and why the worklist that follows successors finds exactly that.

use crate::addressspace::{address_limit, lemma_addresses_bounded};
use crate::instruction::{filed_by_address, Instruction, InstructionView};
use vstd::prelude::*;

verus! {

/// Decoding at `from` yields an instruction that names `to` as a successor.
pub open spec fn follows<Ins: Instruction>(memory: Map<u64, u8>, from: u64, to: u64) -> bool {
    match Ins::decoded(memory, from) {
        Some(found) => found.nexts.contains(to),
        None => false,
    }
}

/// `trace` follows successors: each of its addresses but the last decodes
/// to an instruction that names the following address as a successor.
pub open spec fn is_trace<Ins: Instruction>(memory: Map<u64, u8>, trace: Seq<u64>) -> bool {
    forall|i: int|
        0 <= i < trace.len() - 1 ==> follows::<Ins>(memory, #[trigger] trace[i], trace[i + 1])
}

/// `trace` follows successors from `entry` to `to`.
pub open spec fn traces<Ins: Instruction>(
    memory: Map<u64, u8>,
    entry: u64,
    to: u64,
    trace: Seq<u64>,
) -> bool {
    trace.len() > 0 && trace[0] == entry && trace.last() == to && is_trace::<Ins>(memory, trace)
}

/// Exploration from `entry` comes to `to`.
pub open spec fn explored<Ins: Instruction>(memory: Map<u64, u8>, entry: u64, to: u64) -> bool {
    exists|trace: Seq<u64>| #[trigger] traces::<Ins>(memory, entry, to, trace)
}

/// The instruction stream of `memory` explored from `entry`: under every
/// address that exploration comes to and that decodes, the instruction
/// decoded there.
pub open spec fn stream_from<Ins: Instruction>(memory: Map<u64, u8>, entry: u64) -> Map<
    u64,
    InstructionView,
> {
    Map::new(
        |a: u64| explored::<Ins>(memory, entry, a) && Ins::decoded(memory, a) is Some,
        |a: u64| Ins::decoded(memory, a).unwrap(),
    )
}

/// `path` goes through the stream: each of its addresses but the last
/// holds an instruction that names the following address as a successor.
pub open spec fn is_path(stream: Map<u64, InstructionView>, path: Seq<u64>) -> bool {
    forall|i: int|
        0 <= i < path.len() - 1 ==> stream.contains_key(#[trigger] path[i])
            && stream[path[i]].nexts.contains(path[i + 1])
}

/// `path` goes through the stream from `entry` to `to`.
pub open spec fn leads_through(
    stream: Map<u64, InstructionView>,
    entry: u64,
    to: u64,
    path: Seq<u64>,
) -> bool {
    path.len() > 0 && path[0] == entry && path.last() == to && is_path(stream, path)
}

/// Every instruction of the stream can be come to from `entry` on a path
/// through the stream.
pub open spec fn grown_from(stream: Map<u64, InstructionView>, entry: u64) -> bool {
    forall|a: u64| #[trigger]
        stream.contains_key(a) ==> exists|path: Seq<u64>| #[trigger]
            leads_through(stream, entry, a, path)
}

/// A trace to an address is a trace to every address on its way.
proof fn lemma_trace_part<Ins: Instruction>(
    memory: Map<u64, u8>,
    entry: u64,
    to: u64,
    trace: Seq<u64>,
    upto: int,
)
    requires
        traces::<Ins>(memory, entry, to, trace),
        0 <= upto < trace.len(),
    ensures
        explored::<Ins>(memory, entry, trace[upto]),
{
    let part = trace.take(upto + 1);
    assert forall|k: int| 0 <= k < part.len() - 1 implies follows::<Ins>(
        memory,
        #[trigger] part[k],
        part[k + 1],
    ) by {
        assert(part[k] == trace[k]);
        assert(follows::<Ins>(memory, trace[k], trace[k + 1]));
    }
    assert(traces::<Ins>(memory, entry, trace[upto], part));
}

/// The stream explored from `entry` has every instruction under its own
/// address, and each can be come to from `entry` through the stream.
pub proof fn lemma_stream_grown<Ins: Instruction>(memory: Map<u64, u8>, entry: u64)
    ensures
        filed_by_address(stream_from::<Ins>(memory, entry)),
        grown_from(stream_from::<Ins>(memory, entry), entry),
{
    let stream = stream_from::<Ins>(memory, entry);
    assert forall|a: u64| #[trigger] stream.contains_key(a) implies stream[a].address == a by {
        Ins::decoded_lives_there(memory, a);
    }
    assert forall|a: u64| #[trigger] stream.contains_key(a) implies exists|path: Seq<u64>|
        #[trigger] leads_through(stream, entry, a, path) by {
        let trace = choose|trace: Seq<u64>| traces::<Ins>(memory, entry, a, trace);
        assert forall|i: int| 0 <= i < trace.len() - 1 implies stream.contains_key(
            #[trigger] trace[i],
        ) && stream[trace[i]].nexts.contains(trace[i + 1]) by {
            lemma_trace_part::<Ins>(memory, entry, a, trace, i);
            assert(follows::<Ins>(memory, trace[i], trace[i + 1]));
        }
        assert(leads_through(stream, entry, a, trace));
    }
}

/// Exploration that comes to an instruction comes to each of its successors.
proof fn lemma_explored_next<Ins: Instruction>(
    memory: Map<u64, u8>,
    entry: u64,
    from: u64,
    to: u64,
)
    requires
        explored::<Ins>(memory, entry, from),
        follows::<Ins>(memory, from, to),
    ensures
        explored::<Ins>(memory, entry, to),
{
    let trace = choose|trace: Seq<u64>| traces::<Ins>(memory, entry, from, trace);
    let longer = trace.push(to);
    assert forall|i: int| 0 <= i < longer.len() - 1 implies follows::<Ins>(
        memory,
        #[trigger] longer[i],
        longer[i + 1],
    ) by {
        if i < trace.len() - 1 {
            assert(longer[i] == trace[i]);
            assert(follows::<Ins>(memory, trace[i], trace[i + 1]));
        }
    }
    assert(traces::<Ins>(memory, entry, to, longer));
}

/// A set that holds `entry` and, with every address that decodes, the
/// successors of what is decoded there, holds every address of a trace
/// from `entry`.
proof fn lemma_trace_within<Ins: Instruction>(
    memory: Map<u64, u8>,
    trace: Seq<u64>,
    seen: Set<u64>,
    upto: int,
)
    requires
        is_trace::<Ins>(memory, trace),
        0 <= upto < trace.len(),
        seen.contains(trace[0]),
        forall|a: u64, to: u64|
            seen.contains(a) && #[trigger] follows::<Ins>(memory, a, to) ==> seen.contains(to),
    ensures
        seen.contains(trace[upto]),
    decreases upto,
{
    if upto > 0 {
        lemma_trace_within::<Ins>(memory, trace, seen, upto - 1);
        assert(follows::<Ins>(memory, trace[upto - 1], trace[upto]));
    }
}

/// The explorer's state.  `seen` holds the addresses that were found so
/// far, `pending` those that are still to be decoded, and `stream` what was
/// decoded.  Every address that was found can be come to from `entry`, and
/// the stream holds, of those that are no longer pending, the ones that
/// decode, each with what is decoded there.
pub open spec fn exploring<Ins: Instruction>(
    memory: Map<u64, u8>,
    entry: u64,
    stream: Map<u64, InstructionView>,
    seen: Set<u64>,
    pending: Seq<u64>,
) -> bool {
    &&& seen.finite()
    &&& seen.contains(entry)
    &&& pending.no_duplicates()
    &&& forall|i: int| 0 <= i < pending.len() ==> seen.contains(#[trigger] pending[i])
    &&& forall|a: u64| #[trigger] seen.contains(a) ==> explored::<Ins>(memory, entry, a)
    &&& forall|a: u64| #[trigger]
        stream.contains_key(a) <==> seen.contains(a) && !pending.contains(a) && Ins::decoded(
            memory,
            a,
        ) is Some
    &&& forall|a: u64| #[trigger]
        stream.contains_key(a) ==> Some(stream[a]) == Ins::decoded(memory, a)
}

/// Every successor of a decoded instruction was found; of the instruction
/// at `current`, at least its first `upto` successors were.
pub open spec fn followed(
    stream: Map<u64, InstructionView>,
    seen: Set<u64>,
    current: u64,
    upto: int,
) -> bool {
    forall|a: u64, k: int|
        stream.contains_key(a) && 0 <= k < stream[a].nexts.len() && (a != current || k < upto)
            ==> seen.contains(#[trigger] stream[a].nexts[k])
}

/// Every successor of a decoded instruction was found.
pub open spec fn all_followed(stream: Map<u64, InstructionView>, seen: Set<u64>) -> bool {
    forall|a: u64, k: int|
        stream.contains_key(a) && 0 <= k < stream[a].nexts.len() ==> seen.contains(
            #[trigger] stream[a].nexts[k],
        )
}

/// What is pending beside its last address is pending without it, and
/// nothing else is.
proof fn lemma_rest_pending(pending: Seq<u64>)
    requires
        pending.len() > 0,
        pending.no_duplicates(),
    ensures
        forall|a: u64|
            pending.drop_last().contains(a) <==> pending.contains(a) && a != pending.last(),
{
    let rest = pending.drop_last();
    assert forall|a: u64| pending.contains(a) && a != pending.last() implies rest.contains(a) by {
        let i = choose|i: int| 0 <= i < pending.len() && pending[i] == a;
        assert(rest[i] == a);
    }
    assert forall|a: u64| rest.contains(a) implies pending.contains(a) && a != pending.last() by {
        let i = choose|i: int| 0 <= i < rest.len() && rest[i] == a;
        assert(pending[i] == a);
    }
}

/// The explorer begins with the entry as the one address that it found.
pub proof fn lemma_begin<Ins: Instruction>(memory: Map<u64, u8>, entry: u64)
    ensures
        exploring::<Ins>(
            memory,
            entry,
            Map::empty(),
            Set::<u64>::empty().insert(entry),
            Seq::<u64>::empty().push(entry),
        ),
        all_followed(Map::empty(), Set::<u64>::empty().insert(entry)),
        Set::<u64>::empty().insert(entry).len() <= address_limit(),
{
    let pending = Seq::<u64>::empty().push(entry);
    assert(pending[0] == entry);
    assert(traces::<Ins>(memory, entry, entry, seq![entry]));
    lemma_addresses_bounded(Set::<u64>::empty().insert(entry));
}

/// An address at which nothing decodes is dropped.
pub proof fn lemma_drop_address<Ins: Instruction>(
    memory: Map<u64, u8>,
    entry: u64,
    stream: Map<u64, InstructionView>,
    seen: Set<u64>,
    pending: Seq<u64>,
)
    requires
        exploring::<Ins>(memory, entry, stream, seen, pending),
        pending.len() > 0,
        Ins::decoded(memory, pending.last()) is None,
    ensures
        exploring::<Ins>(memory, entry, stream, seen, pending.drop_last()),
{
    lemma_rest_pending(pending);
}

/// What was decoded at an address is added to the stream.
pub proof fn lemma_add_instruction<Ins: Instruction>(
    memory: Map<u64, u8>,
    entry: u64,
    stream: Map<u64, InstructionView>,
    seen: Set<u64>,
    pending: Seq<u64>,
    found: InstructionView,
)
    requires
        exploring::<Ins>(memory, entry, stream, seen, pending),
        all_followed(stream, seen),
        pending.len() > 0,
        Ins::decoded(memory, pending.last()) == Some(found),
    ensures
        exploring::<Ins>(
            memory,
            entry,
            stream.insert(pending.last(), found),
            seen,
            pending.drop_last(),
        ),
        followed(stream.insert(pending.last(), found), seen, pending.last(), 0),
{
    lemma_rest_pending(pending);
    assert(pending.contains(pending.last())) by {
        assert(pending[pending.len() - 1] == pending.last());
    }
}

/// A successor of the instruction at `current` that was not found before is
/// found now, and pending.
pub proof fn lemma_add_address<Ins: Instruction>(
    memory: Map<u64, u8>,
    entry: u64,
    stream: Map<u64, InstructionView>,
    seen: Set<u64>,
    pending: Seq<u64>,
    current: u64,
    upto: int,
)
    requires
        exploring::<Ins>(memory, entry, stream, seen, pending),
        followed(stream, seen, current, upto),
        stream.contains_key(current),
        0 <= upto < stream[current].nexts.len(),
        !seen.contains(stream[current].nexts[upto]),
    ensures
        exploring::<Ins>(
            memory,
            entry,
            stream,
            seen.insert(stream[current].nexts[upto]),
            pending.push(stream[current].nexts[upto]),
        ),
        followed(stream, seen.insert(stream[current].nexts[upto]), current, upto + 1),
        seen.insert(stream[current].nexts[upto]).len() == seen.len() + 1,
        seen.insert(stream[current].nexts[upto]).len() <= address_limit(),
{
    let next = stream[current].nexts[upto];
    let more = seen.insert(next);
    let longer = pending.push(next);
    lemma_addresses_bounded(more);
    assert(follows::<Ins>(memory, current, next));
    lemma_explored_next::<Ins>(memory, entry, current, next);
    assert(longer.no_duplicates()) by {
        assert forall|x: int, y: int| 0 <= x < y < longer.len() implies longer[x] != longer[y] by {
            if y == pending.len() {
                assert(seen.contains(pending[x]));
            }
        }
    }
    assert forall|a: u64| longer.contains(a) <==> pending.contains(a) || a == next by {
        if pending.contains(a) {
            let x = choose|x: int| 0 <= x < pending.len() && pending[x] == a;
            assert(longer[x] == a);
        }
        if a == next {
            assert(longer[pending.len() as int] == a);
        }
        if longer.contains(a) {
            let x = choose|x: int| 0 <= x < longer.len() && longer[x] == a;
            if x < pending.len() {
                assert(pending[x] == a);
            }
        }
    }
    assert forall|i: int| 0 <= i < longer.len() implies more.contains(#[trigger] longer[i]) by {
        if i < pending.len() {
            assert(longer[i] == pending[i]);
        }
    }
}

/// A successor of the instruction at `current` that was found before needs
/// nothing.
pub proof fn lemma_known_address(
    stream: Map<u64, InstructionView>,
    seen: Set<u64>,
    current: u64,
    upto: int,
)
    requires
        followed(stream, seen, current, upto),
        stream.contains_key(current),
        0 <= upto < stream[current].nexts.len(),
        seen.contains(stream[current].nexts[upto]),
    ensures
        followed(stream, seen, current, upto + 1),
{
}

/// With nothing pending, what was decoded is the stream explored from the
/// entry, every instruction under its own address.
pub proof fn lemma_explored_all<Ins: Instruction>(
    memory: Map<u64, u8>,
    entry: u64,
    stream: Map<u64, InstructionView>,
    seen: Set<u64>,
    pending: Seq<u64>,
)
    requires
        exploring::<Ins>(memory, entry, stream, seen, pending),
        all_followed(stream, seen),
        pending.len() == 0,
    ensures
        stream == stream_from::<Ins>(memory, entry),
        filed_by_address(stream),
{
    let goal = stream_from::<Ins>(memory, entry);
    assert forall|a: u64| goal.contains_key(a) implies stream.contains_key(a) by {
        let trace = choose|trace: Seq<u64>| traces::<Ins>(memory, entry, a, trace);
        assert forall|b: u64, to: u64|
            seen.contains(b) && #[trigger] follows::<Ins>(memory, b, to) implies seen.contains(
            to,
        ) by {
            assert(stream.contains_key(b));
            let k = choose|k: int| 0 <= k < stream[b].nexts.len() && stream[b].nexts[k] == to;
            assert(seen.contains(stream[b].nexts[k]));
        }
        lemma_trace_within::<Ins>(memory, trace, seen, trace.len() - 1);
    }
    assert(stream =~= goal);
    assert forall|a: u64| #[trigger] stream.contains_key(a) implies stream[a].address == a by {
        Ins::decoded_lives_there(memory, a);
    }
}

} // verus!
