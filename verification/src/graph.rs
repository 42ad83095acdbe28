//! The control-flow graph of an instruction stream, as mathematics: what a
//! basic block of a stream is, which blocks make up its graph, and in which
//! order the graph's nodes and edges are listed.

use crate::addressspace::address_limit;
use crate::hex::hex_text;
use crate::instruction::InstructionView;
use crate::predecessors::{lemma_two_predecessors, predecessors};
use vstd::prelude::*;
use vstd::set_lib::lemma_len_subset;

verus! {

/// A basic block as the control-flow logic sees it.
pub ghost struct BasicBlockView {
    /// The address of the block's first instruction.
    pub address: u64,
    /// The block's instructions, in control-flow order.
    pub insns: Seq<InstructionView>,
    /// The predecessor list of the block's first instruction.
    pub prevs: Seq<u64>,
}

impl BasicBlockView {
    /// Where control may go when it leaves the block: the successors of its
    /// last instruction.
    pub open spec fn nexts(self) -> Seq<u64> {
        if self.insns.len() > 0 {
            self.insns.last().nexts
        } else {
            Seq::empty()
        }
    }
}

/// The lines that show `insns`: each instruction's text behind two spaces,
/// on a line of its own.
pub open spec fn listing_text(insns: Seq<InstructionView>) -> Seq<char>
    decreases insns.len(),
{
    if insns.len() == 0 {
        Seq::empty()
    } else {
        listing_text(insns.drop_last()) + "  "@ + insns.last().text + "\n"@
    }
}

/// The text that shows a block: its address in hexadecimal on a first line,
/// then its instructions.
pub open spec fn block_text(block: BasicBlockView) -> Seq<char> {
    "0x"@ + hex_text(block.address as nat) + ":\n"@ + listing_text(block.insns)
}

/// Whether a block that starts at `start` goes on from the instruction at
/// `from` to the one at `to`: `to` is the only successor of `from`, it was
/// decoded, nothing else leads to it, and it is not where the block began.
pub open spec fn continues(
    stream: Map<u64, InstructionView>,
    start: u64,
    from: u64,
    to: u64,
) -> bool {
    &&& stream.contains_key(from)
    &&& stream[from].nexts.len() == 1
    &&& stream[from].nexts[0] == to
    &&& stream.contains_key(to)
    &&& predecessors(stream, to).len() <= 1
    &&& to != start
}

/// Whether a block that starts at `start` can take one more instruction
/// after the one at `last`.
pub open spec fn can_grow(stream: Map<u64, InstructionView>, start: u64, last: u64) -> bool {
    &&& stream.contains_key(last)
    &&& stream[last].nexts.len() == 1
    &&& continues(stream, start, last, stream[last].nexts[0])
}

/// `block` starts at `start` and holds instructions of the stream, each
/// going on to the next.
pub open spec fn is_chain(
    stream: Map<u64, InstructionView>,
    start: u64,
    block: BasicBlockView,
) -> bool {
    &&& block.address == start
    &&& block.prevs == predecessors(stream, start)
    &&& block.insns.len() > 0
    &&& block.insns[0].address == start
    &&& forall|i: int|
        0 <= i < block.insns.len() ==> stream.contains_key((#[trigger] block.insns[i]).address)
            && stream[block.insns[i].address] == block.insns[i]
    &&& forall|i: int|
        0 <= i < block.insns.len() - 1 ==> continues(
            stream,
            start,
            (#[trigger] block.insns[i]).address,
            block.insns[i + 1].address,
        )
}

/// `block` is the basic block of the stream that starts at `start`: a chain
/// that cannot grow.
pub open spec fn is_block(
    stream: Map<u64, InstructionView>,
    start: u64,
    block: BasicBlockView,
) -> bool {
    is_chain(stream, start, block) && !can_grow(stream, start, block.insns.last().address)
}

/// No address occurs twice among the instructions.
pub open spec fn distinct_addresses(insns: Seq<InstructionView>) -> bool {
    forall|i: int, j: int| 0 <= i < j < insns.len() ==> insns[i].address != insns[j].address
}

/// Two chains of one stream that hold one address hold, equally far before
/// it, one address again.
pub proof fn lemma_aligned_back(
    stream: Map<u64, InstructionView>,
    start: u64,
    one: BasicBlockView,
    at: int,
    other_start: u64,
    other: BasicBlockView,
    other_at: int,
    back: int,
)
    requires
        is_chain(stream, start, one),
        is_chain(stream, other_start, other),
        0 <= back <= at < one.insns.len(),
        back <= other_at < other.insns.len(),
        one.insns[at].address == other.insns[other_at].address,
    ensures
        one.insns[at - back].address == other.insns[other_at - back].address,
    decreases back,
{
    if back > 0 {
        lemma_aligned_back(stream, start, one, at, other_start, other, other_at, back - 1);
        let from = one.insns[at - back].address;
        let other_from = other.insns[other_at - back].address;
        let to = one.insns[at - back + 1].address;
        assert(continues(stream, start, from, to));
        assert(other.insns[other_at - back + 1].address == to);
        assert(continues(stream, other_start, other_from, to));
        if from != other_from {
            lemma_two_predecessors(stream, to, from, 0, other_from, 0);
        }
    }
}

/// No address occurs twice in a chain.
pub proof fn lemma_chain_distinct(
    stream: Map<u64, InstructionView>,
    start: u64,
    block: BasicBlockView,
)
    requires
        is_chain(stream, start, block),
    ensures
        distinct_addresses(block.insns),
{
    assert forall|i: int, j: int| 0 <= i < j < block.insns.len() implies block.insns[i].address
        != block.insns[j].address by {
        if block.insns[i].address == block.insns[j].address {
            lemma_aligned_back(stream, start, block, i, start, block, j, i);
            let before = block.insns[j - i - 1].address;
            assert(continues(stream, start, before, block.insns[j - i].address));
        }
    }
}

/// A chain is no longer than the stream.
pub proof fn lemma_chain_fits(stream: Map<u64, InstructionView>, start: u64, block: BasicBlockView)
    requires
        is_chain(stream, start, block),
        stream.dom().finite(),
    ensures
        block.insns.len() <= stream.dom().len(),
{
    lemma_chain_distinct(stream, start, block);
    let addresses = block.insns.map_values(|v: InstructionView| v.address);
    assert(addresses.no_duplicates());
    addresses.unique_seq_to_set();
    assert(addresses.to_set().subset_of(stream.dom())) by {
        assert forall|a: u64| addresses.to_set().contains(a) implies stream.dom().contains(a) by {
            let i = choose|i: int| 0 <= i < addresses.len() && addresses[i] == a;
            assert(stream.contains_key(block.insns[i].address));
        }
    }
    lemma_len_subset(addresses.to_set(), stream.dom());
}

/// A chain that can grow is a chain again with the instruction that it
/// grows by.
pub proof fn lemma_chain_grows(
    stream: Map<u64, InstructionView>,
    start: u64,
    block: BasicBlockView,
    longer: BasicBlockView,
)
    requires
        is_chain(stream, start, block),
        can_grow(stream, start, block.insns.last().address),
        longer.address == block.address,
        longer.prevs == block.prevs,
        longer.insns == block.insns.push(stream[stream[block.insns.last().address].nexts[0]]),
        stream[stream[block.insns.last().address].nexts[0]].address
            == stream[block.insns.last().address].nexts[0],
    ensures
        is_chain(stream, start, longer),
{
    assert forall|i: int| 0 <= i < longer.insns.len() - 1 implies continues(
        stream,
        start,
        (#[trigger] longer.insns[i]).address,
        longer.insns[i + 1].address,
    ) by {
        if i < block.insns.len() - 1 {
            assert(longer.insns[i] == block.insns[i]);
            assert(longer.insns[i + 1] == block.insns[i + 1]);
        }
    }
    assert forall|i: int| 0 <= i < longer.insns.len() implies stream.contains_key(
        (#[trigger] longer.insns[i]).address,
    ) && stream[longer.insns[i].address] == longer.insns[i] by {
        if i < block.insns.len() {
            assert(longer.insns[i] == block.insns[i]);
        }
    }
}

/// A control-flow graph as the logic sees it.
pub ghost struct CfgView {
    /// Where exploration began.
    pub entrypoint: u64,
    /// The basic blocks, each under the address of its first instruction.
    pub blocks: Map<u64, BasicBlockView>,
}

/// The block at `from` may hand control to `to`.
pub open spec fn hands_to(blocks: Map<u64, BasicBlockView>, from: u64, to: u64) -> bool {
    blocks.contains_key(from) && blocks[from].nexts().contains(to)
}

/// Every address of `route` starts a block, and each block may hand control
/// to the next address.
pub open spec fn is_route(blocks: Map<u64, BasicBlockView>, route: Seq<u64>) -> bool {
    &&& forall|i: int| 0 <= i < route.len() ==> blocks.contains_key(#[trigger] route[i])
    &&& forall|i: int|
        0 <= i < route.len() - 1 ==> hands_to(blocks, #[trigger] route[i], route[i + 1])
}

/// `route` leads from the block at `entry` to the block at `to`.
pub open spec fn leads(
    blocks: Map<u64, BasicBlockView>,
    entry: u64,
    to: u64,
    route: Seq<u64>,
) -> bool {
    route.len() > 0 && route[0] == entry && route.last() == to && is_route(blocks, route)
}

/// Some route leads from the block at `entry` to the block at `to`.
pub open spec fn reached(blocks: Map<u64, BasicBlockView>, entry: u64, to: u64) -> bool {
    exists|route: Seq<u64>| #[trigger] leads(blocks, entry, to, route)
}

/// Every decoded address that a block may hand control to starts a block.
pub open spec fn hands_on_to_blocks(
    stream: Map<u64, InstructionView>,
    blocks: Map<u64, BasicBlockView>,
) -> bool {
    forall|a: u64, i: int|
        blocks.contains_key(a) && 0 <= i < blocks[a].nexts().len() && stream.contains_key(
            #[trigger] blocks[a].nexts()[i],
        ) ==> blocks.contains_key(blocks[a].nexts()[i])
}

/// `cfg` is the control-flow graph of `stream` explored from `entry`: its
/// blocks are basic blocks of the stream; the one at `entry` is among them
/// if an instruction was decoded there; every decoded address that a block
/// may hand control to starts a block; and no block is there that no route
/// from `entry` reaches.
pub open spec fn is_cfg_of(stream: Map<u64, InstructionView>, entry: u64, cfg: CfgView) -> bool {
    &&& cfg.entrypoint == entry
    &&& forall|a: u64| #[trigger]
        cfg.blocks.contains_key(a) ==> is_block(stream, a, cfg.blocks[a])
    &&& stream.contains_key(entry) ==> cfg.blocks.contains_key(entry)
    &&& hands_on_to_blocks(stream, cfg.blocks)
    &&& forall|a: u64| #[trigger] cfg.blocks.contains_key(a) ==> reached(cfg.blocks, entry, a)
}

/// A route stays a route when a block is added under an address that
/// started none.
pub proof fn lemma_route_stays(
    blocks: Map<u64, BasicBlockView>,
    route: Seq<u64>,
    start: u64,
    block: BasicBlockView,
)
    requires
        is_route(blocks, route),
        !blocks.contains_key(start),
    ensures
        is_route(blocks.insert(start, block), route),
{
    let more = blocks.insert(start, block);
    assert forall|i: int| 0 <= i < route.len() - 1 implies hands_to(
        more,
        #[trigger] route[i],
        route[i + 1],
    ) by {
        assert(hands_to(blocks, route[i], route[i + 1]));
    }
}

/// What was reached stays reached when a block is added under an address
/// that started none.
pub proof fn lemma_reached_stays(
    blocks: Map<u64, BasicBlockView>,
    entry: u64,
    to: u64,
    start: u64,
    block: BasicBlockView,
)
    requires
        reached(blocks, entry, to),
        !blocks.contains_key(start),
    ensures
        reached(blocks.insert(start, block), entry, to),
{
    let route = choose|route: Seq<u64>| leads(blocks, entry, to, route);
    lemma_route_stays(blocks, route, start, block);
    assert(leads(blocks.insert(start, block), entry, to, route));
}

/// A new block that a reached block may hand control to is reached too.
pub proof fn lemma_reached_next(
    blocks: Map<u64, BasicBlockView>,
    entry: u64,
    from: u64,
    start: u64,
    block: BasicBlockView,
)
    requires
        reached(blocks, entry, from),
        hands_to(blocks, from, start),
        !blocks.contains_key(start),
    ensures
        reached(blocks.insert(start, block), entry, start),
{
    let route = choose|route: Seq<u64>| leads(blocks, entry, from, route);
    lemma_route_stays(blocks, route, start, block);
    let more = blocks.insert(start, block);
    let longer = route.push(start);
    assert forall|i: int| 0 <= i < longer.len() - 1 implies hands_to(
        more,
        #[trigger] longer[i],
        longer[i + 1],
    ) by {
        if i < route.len() - 1 {
            assert(longer[i] == route[i]);
            assert(hands_to(more, route[i], route[i + 1]));
        } else {
            assert(longer[i] == from);
            assert(more[from] == blocks[from]);
        }
    }
    assert forall|i: int| 0 <= i < longer.len() implies more.contains_key(#[trigger] longer[i]) by {
        if i < route.len() {
            assert(longer[i] == route[i]);
        }
    }
    assert(leads(more, entry, start, longer));
}

/// The edges that leave the block at `from`: one to each of `nexts`.
pub open spec fn block_edges(from: u64, nexts: Seq<u64>) -> Seq<(u64, u64)> {
    nexts.map_values(|to: u64| (from, to))
}

/// The edges that leave the blocks filed below `bound`, by ascending
/// address of the block and then in the order of its successors.
pub open spec fn edges_below(blocks: Map<u64, BasicBlockView>, bound: nat) -> Seq<(u64, u64)>
    decreases bound,
{
    if bound == 0 {
        Seq::empty()
    } else {
        let a = (bound - 1) as u64;
        let earlier = edges_below(blocks, (bound - 1) as nat);
        if bound <= address_limit() && blocks.contains_key(a) {
            earlier + block_edges(a, blocks[a].nexts())
        } else {
            earlier
        }
    }
}

/// The addresses of the blocks filed below `bound`, by ascending address
/// under which they are filed.
pub open spec fn nodes_below(blocks: Map<u64, BasicBlockView>, bound: nat) -> Seq<u64>
    decreases bound,
{
    if bound == 0 {
        Seq::empty()
    } else {
        let a = (bound - 1) as u64;
        let earlier = nodes_below(blocks, (bound - 1) as nat);
        if bound <= address_limit() && blocks.contains_key(a) {
            earlier.push(blocks[a].address)
        } else {
            earlier
        }
    }
}

/// How many instructions the blocks filed below `bound` hold, all told.
pub open spec fn instructions_below(blocks: Map<u64, BasicBlockView>, bound: nat) -> nat
    decreases bound,
{
    if bound == 0 {
        0
    } else {
        let a = (bound - 1) as u64;
        let earlier = instructions_below(blocks, (bound - 1) as nat);
        if bound <= address_limit() && blocks.contains_key(a) {
            earlier + blocks[a].insns.len()
        } else {
            earlier
        }
    }
}

impl CfgView {
    /// How many instructions the blocks hold, all told.
    pub open spec fn instruction_count(self) -> nat {
        instructions_below(self.blocks, address_limit())
    }

    /// The nodes of the graph: the address of every block.
    pub open spec fn nodes(self) -> Seq<u64> {
        nodes_below(self.blocks, address_limit())
    }

    /// The edges of the graph: from every block to each successor of its
    /// last instruction, whether a block starts there or not.
    pub open spec fn edges(self) -> Seq<(u64, u64)> {
        edges_below(self.blocks, address_limit())
    }
}

/// Addresses under which no block is filed add no edge.
pub proof fn lemma_edges_skip(blocks: Map<u64, BasicBlockView>, lo: nat, hi: nat)
    requires
        lo <= hi <= address_limit(),
        forall|a: u64| lo <= a < hi ==> !blocks.contains_key(a),
    ensures
        edges_below(blocks, hi) == edges_below(blocks, lo),
    decreases hi - lo,
{
    if lo < hi {
        lemma_edges_skip(blocks, lo, (hi - 1) as nat);
    }
}

/// Addresses under which no block is filed add no node.
pub proof fn lemma_nodes_skip(blocks: Map<u64, BasicBlockView>, lo: nat, hi: nat)
    requires
        lo <= hi <= address_limit(),
        forall|a: u64| lo <= a < hi ==> !blocks.contains_key(a),
    ensures
        nodes_below(blocks, hi) == nodes_below(blocks, lo),
    decreases hi - lo,
{
    if lo < hi {
        lemma_nodes_skip(blocks, lo, (hi - 1) as nat);
    }
}

} // verus!
