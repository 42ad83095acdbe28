//! What holds of every control-flow graph that is built of a stream.

use crate::addressspace::address_limit;
use crate::graph::{
    block_edges, can_grow, continues, edges_below, instructions_below, is_block, is_cfg_of,
    hands_to, is_route, leads, lemma_aligned_back, lemma_chain_distinct, nodes_below, reached,
    BasicBlockView, CfgView,
};
use crate::exploration::{grown_from, is_path, leads_through, lemma_stream_grown, stream_from};
use crate::instruction::{filed_by_address, Instruction, InstructionView};
use crate::predecessors::{
    lemma_predecessor_listed, lemma_sole_predecessor, lemma_two_predecessors, predecessors,
};
use vstd::prelude::*;
use vstd::set_lib::lemma_set_disjoint_lens;

verus! {

/// Two basic blocks of one stream that start at one address agree on their
/// first `upto` instructions, and the second is at least as long as that.
proof fn lemma_blocks_agree(
    stream: Map<u64, InstructionView>,
    start: u64,
    one: BasicBlockView,
    other: BasicBlockView,
    upto: int,
)
    requires
        is_block(stream, start, one),
        is_block(stream, start, other),
        0 < upto <= one.insns.len(),
    ensures
        upto <= other.insns.len(),
        forall|i: int| 0 <= i < upto ==> one.insns[i] == other.insns[i],
    decreases upto,
{
    if upto == 1 {
        assert(one.insns[0] == stream[start]);
        assert(other.insns[0] == stream[start]);
    } else {
        lemma_blocks_agree(stream, start, one, other, upto - 1);
        let at = one.insns[upto - 2];
        assert(continues(stream, start, at.address, one.insns[upto - 1].address));
        assert(other.insns[upto - 2] == at);
        assert(can_grow(stream, start, at.address));
        if upto - 1 >= other.insns.len() {
            assert(other.insns.last() == at);
        }
        let next = other.insns[upto - 1].address;
        assert(continues(stream, start, other.insns[upto - 2].address, next));
        assert(one.insns[upto - 1] == stream[next]);
        assert(other.insns[upto - 1] == stream[next]);
    }
}

/// A stream has one basic block at most that starts at a given address.
pub proof fn lemma_block_unique(
    stream: Map<u64, InstructionView>,
    start: u64,
    one: BasicBlockView,
    other: BasicBlockView,
)
    requires
        is_block(stream, start, one),
        is_block(stream, start, other),
    ensures
        one == other,
{
    lemma_blocks_agree(stream, start, one, other, one.insns.len() as int);
    lemma_blocks_agree(stream, start, other, one, other.insns.len() as int);
    assert(one.insns =~= other.insns);
}

/// Every address of a route through one graph of a stream starts a block in
/// any other graph of that stream from the same entry.
proof fn lemma_route_carries_over(
    stream: Map<u64, InstructionView>,
    entry: u64,
    one: CfgView,
    other: CfgView,
    route: Seq<u64>,
    upto: int,
)
    requires
        is_cfg_of(stream, entry, one),
        is_cfg_of(stream, entry, other),
        is_route(one.blocks, route),
        route.len() > 0,
        route[0] == entry,
        0 <= upto < route.len(),
    ensures
        other.blocks.contains_key(route[upto]),
    decreases upto,
{
    assert(one.blocks.contains_key(route[upto]));
    assert(is_block(stream, route[upto], one.blocks[route[upto]]));
    assert(one.blocks[route[upto]].insns[0].address == route[upto]);
    assert(stream.contains_key(route[upto]));
    if upto > 0 {
        lemma_route_carries_over(stream, entry, one, other, route, upto - 1);
        let from = route[upto - 1];
        assert(one.blocks.contains_key(from));
        lemma_block_unique(stream, from, one.blocks[from], other.blocks[from]);
        let exits = other.blocks[from].nexts();
        assert(exits.contains(route[upto]));
        let i = choose|i: int| 0 <= i < exits.len() && exits[i] == route[upto];
        assert(stream.contains_key(other.blocks[from].nexts()[i]));
    }
}

/// Building the graph of a stream from an entry has one outcome: two graphs
/// of the same stream from the same entry have the same blocks with the same
/// instructions, and so the same nodes and edges.
pub proof fn law_one_graph(
    stream: Map<u64, InstructionView>,
    entry: u64,
    one: CfgView,
    other: CfgView,
)
    requires
        is_cfg_of(stream, entry, one),
        is_cfg_of(stream, entry, other),
    ensures
        one == other,
        one.nodes() == other.nodes(),
        one.edges() == other.edges(),
{
    assert forall|a: u64| one.blocks.contains_key(a) implies other.blocks.contains_key(a) by {
        assert(reached(one.blocks, entry, a));
        let route = choose|route: Seq<u64>| leads(one.blocks, entry, a, route);
        lemma_route_carries_over(stream, entry, one, other, route, route.len() - 1);
    }
    assert forall|a: u64| other.blocks.contains_key(a) implies one.blocks.contains_key(a) by {
        assert(reached(other.blocks, entry, a));
        let route = choose|route: Seq<u64>| leads(other.blocks, entry, a, route);
        lemma_route_carries_over(stream, entry, other, one, route, route.len() - 1);
    }
    assert forall|a: u64| one.blocks.contains_key(a) implies one.blocks[a] == other.blocks[a] by {
        lemma_block_unique(stream, a, one.blocks[a], other.blocks[a]);
    }
    assert(one.blocks =~= other.blocks);
}

/// On a route that does not begin at `to` and comes to it, some block
/// other than the one at `to` hands control to `to`.
proof fn lemma_first_arrival(blocks: Map<u64, BasicBlockView>, route: Seq<u64>, to: u64, upto: int)
    requires
        is_route(blocks, route),
        0 <= upto < route.len(),
        route[0] != to,
        route[upto] == to,
    ensures
        exists|from: u64| from != to && #[trigger] hands_to(blocks, from, to),
    decreases upto,
{
    let from = route[upto - 1];
    if from == to {
        lemma_first_arrival(blocks, route, to, upto - 1);
    } else {
        assert(hands_to(blocks, from, to));
    }
}

/// A block that does not start at the entry is handed control by another
/// block.
pub proof fn lemma_entered_from_other(blocks: Map<u64, BasicBlockView>, entry: u64, start: u64)
    requires
        reached(blocks, entry, start),
        start != entry,
    ensures
        exists|from: u64| from != start && #[trigger] hands_to(blocks, from, start),
{
    let route = choose|route: Seq<u64>| leads(blocks, entry, start, route);
    lemma_first_arrival(blocks, route, start, route.len() - 1);
}

/// A block that does not start at the entry starts where paths join or
/// where a branch leads: the predecessor list of its first instruction
/// holds more than one entry, or it holds one, and the instruction at that
/// address has more than one successor.  (The list holds an instruction
/// once for each time that it names the address.)
pub proof fn law_block_starts(
    stream: Map<u64, InstructionView>,
    entry: u64,
    cfg: CfgView,
    start: u64,
)
    requires
        filed_by_address(stream),
        is_cfg_of(stream, entry, cfg),
        cfg.blocks.contains_key(start),
        start != entry,
    ensures
        predecessors(stream, start).len() > 1 || (predecessors(stream, start).len() == 1
            && stream.contains_key(predecessors(stream, start)[0]) && stream[predecessors(
            stream,
            start,
        )[0]].nexts.len() > 1),
{
    lemma_entered_from_other(cfg.blocks, entry, start);
    let from = choose|from: u64| from != start && hands_to(cfg.blocks, from, start);
    let block = cfg.blocks[from];
    assert(is_block(stream, from, block));
    let last = block.insns.last();
    assert(stream.contains_key(last.address) && stream[last.address] == last);
    let i = choose|i: int| 0 <= i < last.nexts.len() && last.nexts[i] == start;
    lemma_predecessor_listed(stream, start, last.address, i);
    if predecessors(stream, start).len() == 1 {
        lemma_sole_predecessor(stream, start, last.address, i);
        assert(is_block(stream, start, cfg.blocks[start]));
        assert(cfg.blocks[start].insns[0].address == start);
        assert(stream.contains_key(start));
        assert(!can_grow(stream, from, last.address));
    }
}

/// The edges of the blocks filed below a bound are among those of the
/// blocks filed below a higher one.
proof fn lemma_edges_stay(blocks: Map<u64, BasicBlockView>, lo: nat, hi: nat, edge: (u64, u64))
    requires
        lo <= hi,
        edges_below(blocks, lo).contains(edge),
    ensures
        edges_below(blocks, hi).contains(edge),
    decreases hi - lo,
{
    if lo < hi {
        lemma_edges_stay(blocks, lo, (hi - 1) as nat, edge);
        let earlier = edges_below(blocks, (hi - 1) as nat);
        let k = choose|k: int| 0 <= k < earlier.len() && earlier[k] == edge;
        assert(edges_below(blocks, hi)[k] == edge);
    }
}

/// Every successor of a block's last instruction is the target of an edge
/// from that block.
pub proof fn lemma_exit_is_edge(cfg: CfgView, from: u64, i: int)
    requires
        cfg.blocks.contains_key(from),
        0 <= i < cfg.blocks[from].nexts().len(),
    ensures
        cfg.edges().contains((from, cfg.blocks[from].nexts()[i])),
{
    let exits = cfg.blocks[from].nexts();
    let upto = edges_below(cfg.blocks, (from + 1) as nat);
    let earlier = edges_below(cfg.blocks, from as nat);
    assert(upto == earlier + block_edges(from, exits));
    assert(upto[earlier.len() + i] == (from, exits[i]));
    lemma_edges_stay(cfg.blocks, (from + 1) as nat, address_limit(), (from, exits[i]));
}

/// Every node is the address of a block.
pub proof fn lemma_node_is_block(blocks: Map<u64, BasicBlockView>, bound: nat, node: u64)
    requires
        nodes_below(blocks, bound).contains(node),
    ensures
        exists|a: u64| #[trigger] blocks.contains_key(a) && blocks[a].address == node,
    decreases bound,
{
    if bound > 0 {
        let earlier = nodes_below(blocks, (bound - 1) as nat);
        let a = (bound - 1) as u64;
        if earlier.contains(node) {
            lemma_node_is_block(blocks, (bound - 1) as nat, node);
        } else {
            let k = choose|k: int|
                0 <= k < nodes_below(blocks, bound).len() && nodes_below(blocks, bound)[k] == node;
            if k < earlier.len() {
                assert(earlier[k] == node);
            }
            assert(blocks.contains_key(a) && blocks[a].address == node);
        }
    }
}

/// An edge may dangle: where a block's last instruction names a successor
/// at which nothing was decoded, the graph has the edge from the block to
/// that address, and no block and no node for the address.
pub proof fn law_dangling_edge(
    stream: Map<u64, InstructionView>,
    entry: u64,
    cfg: CfgView,
    from: u64,
    i: int,
)
    requires
        is_cfg_of(stream, entry, cfg),
        cfg.blocks.contains_key(from),
        0 <= i < cfg.blocks[from].nexts().len(),
        !stream.contains_key(cfg.blocks[from].nexts()[i]),
    ensures
        cfg.edges().contains((from, cfg.blocks[from].nexts()[i])),
        !cfg.blocks.contains_key(cfg.blocks[from].nexts()[i]),
        !cfg.nodes().contains(cfg.blocks[from].nexts()[i]),
{
    let to = cfg.blocks[from].nexts()[i];
    lemma_exit_is_edge(cfg, from, i);
    if cfg.blocks.contains_key(to) {
        assert(is_block(stream, to, cfg.blocks[to]));
        assert(cfg.blocks[to].insns[0].address == to);
    }
    if cfg.nodes().contains(to) {
        lemma_node_is_block(cfg.blocks, address_limit(), to);
        let a = choose|a: u64| #[trigger] cfg.blocks.contains_key(a) && cfg.blocks[a].address == to;
        assert(is_block(stream, a, cfg.blocks[a]));
    }
}

/// The instruction at which a block that does not start at the entry
/// starts is not inside any block.
proof fn lemma_start_not_inside(
    stream: Map<u64, InstructionView>,
    entry: u64,
    cfg: CfgView,
    start: u64,
    host: u64,
    at: int,
)
    requires
        is_cfg_of(stream, entry, cfg),
        cfg.blocks.contains_key(start),
        start != entry,
        cfg.blocks.contains_key(host),
        1 <= at < cfg.blocks[host].insns.len(),
    ensures
        cfg.blocks[host].insns[at].address != start,
{
    if cfg.blocks[host].insns[at].address == start {
        lemma_entered_from_other(cfg.blocks, entry, start);
        let from = choose|from: u64| from != start && hands_to(cfg.blocks, from, start);
        assert(is_block(stream, from, cfg.blocks[from]));
        assert(is_block(stream, host, cfg.blocks[host]));
        assert(is_block(stream, start, cfg.blocks[start]));
        let last = cfg.blocks[from].insns.last();
        let i = choose|i: int| 0 <= i < last.nexts.len() && last.nexts[i] == start;
        let before = cfg.blocks[host].insns[at - 1];
        assert(continues(stream, host, before.address, start));
        assert(stream[last.address] == last);
        if last.address != before.address || i != 0 {
            lemma_two_predecessors(stream, start, last.address, i, before.address, 0);
        }
        assert(cfg.blocks[start].insns[0].address == start);
        assert(can_grow(stream, from, last.address));
    }
}

/// The block at `start` holds the address `a` as its instruction `at`.
pub open spec fn holds(cfg: CfgView, start: u64, at: int, a: u64) -> bool {
    cfg.blocks.contains_key(start) && 0 <= at < cfg.blocks[start].insns.len()
        && cfg.blocks[start].insns[at].address == a
}

/// Whether the instruction at `from` runs into `to`: `to` is its only
/// successor, and nothing else leads there.
pub open spec fn runs_into(stream: Map<u64, InstructionView>, from: u64, to: u64) -> bool {
    &&& stream.contains_key(from)
    &&& stream[from].nexts.len() == 1
    &&& stream[from].nexts[0] == to
    &&& predecessors(stream, to).len() <= 1
}

/// The instruction at the entry is in no block but its own: if an
/// instruction runs into it, then that is the last one of the entry's block.
pub open spec fn entry_stays_first(
    stream: Map<u64, InstructionView>,
    entry: u64,
    cfg: CfgView,
) -> bool {
    forall|from: u64|
        stream.contains_key(entry) && #[trigger] runs_into(stream, from, entry)
            ==> cfg.blocks.contains_key(entry) && cfg.blocks[entry].insns.last().address == from
}

/// Every address of the stream is held by a block.
pub open spec fn all_held(stream: Map<u64, InstructionView>, cfg: CfgView) -> bool {
    forall|a: u64| #[trigger]
        stream.contains_key(a) ==> exists|start: u64, at: int| #[trigger] holds(cfg, start, at, a)
}

/// No address is held by two blocks, nor twice by one.
pub open spec fn held_once(cfg: CfgView) -> bool {
    forall|a: u64, start: u64, at: int, other_start: u64, other_at: int|
        #[trigger] holds(cfg, start, at, a) && #[trigger] holds(cfg, other_start, other_at, a)
            ==> start == other_start && at == other_at
}

/// Every address of a path from the entry is held by some block.
proof fn lemma_path_covered(
    stream: Map<u64, InstructionView>,
    entry: u64,
    cfg: CfgView,
    path: Seq<u64>,
    upto: int,
)
    requires
        is_cfg_of(stream, entry, cfg),
        is_path(stream, path),
        path.len() > 0,
        path[0] == entry,
        0 <= upto < path.len(),
        stream.contains_key(path[upto]),
    ensures
        exists|start: u64, at: int| #[trigger] holds(cfg, start, at, path[upto]),
    decreases upto,
{
    if upto == 0 {
        assert(is_block(stream, entry, cfg.blocks[entry]));
        assert(holds(cfg, entry, 0, entry));
    } else {
        assert(stream.contains_key(path[upto - 1]));
        lemma_path_covered(stream, entry, cfg, path, upto - 1);
        let (start, at) = choose|start: u64, at: int| #[trigger]
            holds(cfg, start, at, path[upto - 1]);
        let block = cfg.blocks[start];
        assert(is_block(stream, start, block));
        let to = path[upto];
        assert(stream[block.insns[at].address] == block.insns[at]);
        let exits = stream[path[upto - 1]].nexts;
        let i = choose|i: int| 0 <= i < exits.len() && exits[i] == to;
        if at == block.insns.len() - 1 {
            assert(block.nexts()[i] == to);
            assert(cfg.blocks.contains_key(cfg.blocks[start].nexts()[i]));
            assert(is_block(stream, to, cfg.blocks[to]));
            assert(holds(cfg, to, 0, to));
        } else {
            assert(continues(stream, start, block.insns[at].address, block.insns[at + 1].address));
            assert(holds(cfg, start, at + 1, to));
        }
    }
}

/// Where two blocks, or two places in a block, hold one address, they are
/// the same block and the same place.
proof fn lemma_same_place(
    stream: Map<u64, InstructionView>,
    entry: u64,
    cfg: CfgView,
    start: u64,
    at: int,
    other_start: u64,
    other_at: int,
    a: u64,
)
    requires
        is_cfg_of(stream, entry, cfg),
        entry_stays_first(stream, entry, cfg),
        holds(cfg, start, at, a),
        holds(cfg, other_start, other_at, a),
        at <= other_at,
    ensures
        start == other_start,
        at == other_at,
{
    let one = cfg.blocks[start];
    let other = cfg.blocks[other_start];
    assert(is_block(stream, start, one));
    assert(is_block(stream, other_start, other));
    lemma_aligned_back(stream, start, one, at, other_start, other, other_at, at);
    let inside = other_at - at;
    lemma_chain_distinct(stream, other_start, other);
    if inside > 0 {
        // The block at `start` begins inside the other block.
        if start != entry {
            lemma_start_not_inside(stream, entry, cfg, start, other_start, inside);
        } else {
            let from = other.insns[inside - 1].address;
            assert(continues(stream, other_start, from, entry));
            assert(runs_into(stream, from, entry));
            let first = cfg.blocks[entry];
            let end = first.insns.len() - 1;
            assert(first.insns[end].address == from);
            if inside - 1 <= end {
                lemma_aligned_back(
                    stream,
                    entry,
                    first,
                    end,
                    other_start,
                    other,
                    inside - 1,
                    inside - 1,
                );
                let place = end - (inside - 1);
                assert(first.insns[place].address == other_start);
                if place > 0 {
                    if other_start != entry {
                        lemma_start_not_inside(stream, entry, cfg, other_start, entry, place);
                    } else {
                        lemma_chain_distinct(stream, entry, first);
                    }
                }
            } else {
                lemma_aligned_back(stream, entry, first, end, other_start, other, inside - 1, end);
            }
        }
    }
}

/// The addresses that the blocks filed below `bound` hold.
spec fn held_below(cfg: CfgView, bound: nat) -> Set<u64> {
    Set::new(
        |a: u64| exists|start: u64, at: int| start < bound && #[trigger] holds(cfg, start, at, a),
    )
}

/// The addresses that one block holds.
spec fn held_by(block: BasicBlockView) -> Set<u64> {
    block.insns.map_values(|v: InstructionView| v.address).to_set()
}

/// What the blocks filed below a bound hold is what those below the bound
/// before hold, and what the block at that bound holds.
proof fn lemma_held_step(cfg: CfgView, bound: nat)
    requires
        0 < bound <= address_limit(),
    ensures
        held_below(cfg, bound) == (if cfg.blocks.contains_key((bound - 1) as u64) {
            held_below(cfg, (bound - 1) as nat) + held_by(cfg.blocks[(bound - 1) as u64])
        } else {
            held_below(cfg, (bound - 1) as nat)
        }),
{
    let key = (bound - 1) as u64;
    let earlier = held_below(cfg, (bound - 1) as nat);
    let here = if cfg.blocks.contains_key(key) {
        held_by(cfg.blocks[key])
    } else {
        Set::empty()
    };
    let addresses = cfg.blocks[key].insns.map_values(|v: InstructionView| v.address);
    assert forall|a: u64| held_below(cfg, bound).contains(a) implies (earlier + here).contains(
        a,
    ) by {
        let (start, at) = choose|start: u64, at: int|
            start < bound && #[trigger] holds(cfg, start, at, a);
        if start == key {
            assert(addresses[at] == a);
        } else {
            assert(start < bound - 1 && holds(cfg, start, at, a));
        }
    }
    assert forall|a: u64| (earlier + here).contains(a) implies held_below(cfg, bound).contains(
        a,
    ) by {
        if here.contains(a) {
            let at = choose|at: int| 0 <= at < addresses.len() && addresses[at] == a;
            assert(key < bound && holds(cfg, key, at, a));
        } else {
            let (start, at) = choose|start: u64, at: int|
                start < bound - 1 && #[trigger] holds(cfg, start, at, a);
            assert(start < bound && holds(cfg, start, at, a));
        }
    }
    assert(held_below(cfg, bound) =~= earlier + here);
}

/// Where no address is held twice, the blocks filed below `bound` hold as
/// many addresses as they hold instructions.
proof fn lemma_held_counts(stream: Map<u64, InstructionView>, entry: u64, cfg: CfgView, bound: nat)
    requires
        is_cfg_of(stream, entry, cfg),
        held_once(cfg),
        bound <= address_limit(),
    ensures
        held_below(cfg, bound).finite(),
        held_below(cfg, bound).len() == instructions_below(cfg.blocks, bound),
    decreases bound,
{
    if bound == 0 {
        assert(held_below(cfg, bound) =~= Set::<u64>::empty());
    } else {
        let key = (bound - 1) as u64;
        let earlier = held_below(cfg, (bound - 1) as nat);
        lemma_held_counts(stream, entry, cfg, (bound - 1) as nat);
        lemma_held_step(cfg, bound);
        if cfg.blocks.contains_key(key) {
            let block = cfg.blocks[key];
            assert(is_block(stream, key, block));
            let addresses = block.insns.map_values(|v: InstructionView| v.address);
            lemma_chain_distinct(stream, key, block);
            assert(addresses.no_duplicates());
            addresses.unique_seq_to_set();
            assert forall|a: u64| held_by(block).contains(a) implies !earlier.contains(a) by {
                let at = choose|at: int| 0 <= at < addresses.len() && addresses[at] == a;
                assert(holds(cfg, key, at, a));
            }
            assert(earlier.disjoint(held_by(block)));
            lemma_set_disjoint_lens(earlier, held_by(block));
        }
    }
}

/// Every instruction is in exactly one basic block.  For a stream that can
/// be come to from `entry` and its graph: every address of the stream is
/// held by a block, and by no second block, nor twice by one; so the blocks
/// hold, all told, as many instructions as the stream.  This is stated of
/// the graphs in which the entry's instruction is in no block but its own.
pub proof fn law_coverage(stream: Map<u64, InstructionView>, entry: u64, cfg: CfgView)
    requires
        grown_from(stream, entry),
        is_cfg_of(stream, entry, cfg),
        entry_stays_first(stream, entry, cfg),
    ensures
        all_held(stream, cfg),
        held_once(cfg),
        stream.dom().finite(),
        cfg.instruction_count() == stream.dom().len(),
{
    assert forall|a: u64| #[trigger] stream.contains_key(a) implies exists|start: u64, at: int|
        #[trigger] holds(cfg, start, at, a) by {
        let path = choose|path: Seq<u64>| leads_through(stream, entry, a, path);
        lemma_path_covered(stream, entry, cfg, path, path.len() - 1);
    }
    assert forall|a: u64, start: u64, at: int, other_start: u64, other_at: int|
        #[trigger] holds(cfg, start, at, a) && #[trigger] holds(
            cfg,
            other_start,
            other_at,
            a,
        ) implies start == other_start && at == other_at by {
        if at <= other_at {
            lemma_same_place(stream, entry, cfg, start, at, other_start, other_at, a);
        } else {
            lemma_same_place(stream, entry, cfg, other_start, other_at, start, at, a);
        }
    }
    lemma_held_counts(stream, entry, cfg, address_limit());
    let held = held_below(cfg, address_limit());
    assert forall|a: u64| held.contains(a) implies stream.dom().contains(a) by {
        let (start, at) = choose|start: u64, at: int|
            start < address_limit() && #[trigger] holds(cfg, start, at, a);
        assert(is_block(stream, start, cfg.blocks[start]));
        assert(stream.contains_key(cfg.blocks[start].insns[at].address));
    }
    assert forall|a: u64| stream.dom().contains(a) implies held.contains(a) by {
        assert(stream.contains_key(a));
        let (start, at) = choose|start: u64, at: int| #[trigger] holds(cfg, start, at, a);
        assert(start < address_limit() && holds(cfg, start, at, a));
    }
    assert(held =~= stream.dom());
}

/// Coverage, said of exploration itself: in the graph of the stream that
/// was explored from `entry` in `memory`, built from the same `entry`,
/// every decoded instruction is in exactly one basic block.
pub proof fn law_explored_is_covered<Ins: Instruction>(
    memory: Map<u64, u8>,
    entry: u64,
    cfg: CfgView,
)
    requires
        is_cfg_of(stream_from::<Ins>(memory, entry), entry, cfg),
        entry_stays_first(stream_from::<Ins>(memory, entry), entry, cfg),
    ensures
        all_held(stream_from::<Ins>(memory, entry), cfg),
        held_once(cfg),
        cfg.instruction_count() == stream_from::<Ins>(memory, entry).dom().len(),
{
    lemma_stream_grown::<Ins>(memory, entry);
    law_coverage(stream_from::<Ins>(memory, entry), entry, cfg);
}

} // verus!
