//! Basic blocks and the control-flow graph that is built of them.

use crate::addressspace::address_limit;
use crate::building::{
    all_handed_on, building, handed_on, lemma_add_block, lemma_add_candidate, lemma_begin,
    lemma_built, lemma_drop_candidate, lemma_known_candidate,
};
use crate::graph::{
    block_edges, block_text, can_grow, edges_below, is_block, is_cfg_of, is_chain,
    lemma_chain_fits, lemma_chain_grows, lemma_edges_skip, lemma_nodes_skip, listing_text,
    nodes_below, BasicBlockView, CfgView,
};
use crate::hex::{hex_text, push_hex};
use crate::instruction::{AsmSpace, Instruction, InstructionView};
use crate::predecessors::{lemma_predecessor_listed, listed, predecessor_map, predecessors};
use crate::walk::{lemma_ascending_keys, lemma_walk_gap, walk_front, walks};
use std::collections::{BTreeMap, BTreeSet};
use vstd::prelude::*;
use vstd::std_specs::iter::IteratorSpec;
use vstd::string::*;

verus! {

/// A straight run of instructions: control enters at the first and leaves
/// after the last.
#[derive(Debug, Clone)]
pub struct BasicBlock<Ins: Instruction> {
    pub address: u64,
    pub insns: Vec<Ins>,
    pub prevs: Vec<u64>,
}

impl<Ins: Instruction> View for BasicBlock<Ins> {
    type V = BasicBlockView;

    open spec fn view(&self) -> BasicBlockView {
        BasicBlockView {
            address: self.address,
            insns: self.insns@.map_values(|ins: Ins| ins@),
            prevs: self.prevs@,
        }
    }
}

impl<Ins: Instruction> BasicBlock<Ins> {
    /// A block that holds `first_ins` alone.
    pub fn new(first_ins: Ins, prevs: &Vec<u64>) -> (block: Self)
        ensures
            block@.address == first_ins@.address,
            block@.insns == seq![first_ins@],
            block@.prevs == prevs@,
    {
        let address = first_ins.address();
        let mut insns: Vec<Ins> = Vec::new();
        insns.push(first_ins);
        let block = BasicBlock { address, insns, prevs: prevs.clone() };
        assert(block@.insns =~= seq![first_ins@]);
        block
    }

    /// The successors of the block's last instruction.
    pub fn nexts(&self) -> (nexts: Vec<u64>)
        ensures
            nexts@ == self@.nexts(),
    {
        let n = self.insns.len();
        if n > 0 {
            self.insns[n - 1].nexts()
        } else {
            Vec::new()
        }
    }

    /// Appends `ins` to the block.
    pub fn push_ins(&mut self, ins: Ins)
        ensures
            final(self)@.address == old(self)@.address,
            final(self)@.insns == old(self)@.insns.push(ins@),
            final(self)@.prevs == old(self)@.prevs,
    {
        self.insns.push(ins);
        assert(self@.insns =~= old(self)@.insns.push(ins@));
    }

    /// The text that shows the block.
    pub fn text(&self) -> (text: String)
        ensures
            text@ == block_text(self@),
    {
        let mut text = String::from_str("0x");
        push_hex(&mut text, self.address);
        text.append(":\n");
        let n = self.insns.len();
        let mut i: usize = 0;
        assert(self@.insns.take(0) =~= Seq::<InstructionView>::empty());
        while i < n
            invariant
                n == self.insns@.len(),
                i <= n,
                text@ == "0x"@ + hex_text(self.address as nat) + ":\n"@ + listing_text(
                    self@.insns.take(i as int),
                ),
            decreases n - i,
        {
            let line = self.insns[i].text();
            text.append("  ");
            text.append(line.as_str());
            text.append("\n");
            proof {
                let shown = self@.insns.take(i + 1);
                assert(shown.drop_last() =~= self@.insns.take(i as int));
                assert(shown.last() == self.insns@[i as int]@);
                assert(text@ =~= "0x"@ + hex_text(self.address as nat) + ":\n"@ + listing_text(
                    shown,
                ));
            }
            i += 1;
        }
        assert(self@.insns.take(n as int) =~= self@.insns);
        text
    }
}

/// A control-flow graph: the basic blocks that can be come to from the
/// entry point, each under the address of its first instruction.
#[derive(Debug, Clone)]
pub struct CFG<Ins: Instruction> {
    pub entrypoint: u64,
    pub graph: BTreeMap<u64, BasicBlock<Ins>>,
}

impl<Ins: Instruction> View for CFG<Ins> {
    type V = CfgView;

    open spec fn view(&self) -> CfgView {
        CfgView {
            entrypoint: self.entrypoint,
            blocks: self.graph@.map_values(|block: BasicBlock<Ins>| block@),
        }
    }
}

/// Builds the basic block that starts with `first_ins`, the instruction at
/// `start`.
fn grow_block<Ins: Instruction>(
    space: &AsmSpace<Ins>,
    prevs_map: &BTreeMap<u64, Vec<u64>>,
    start: u64,
    first_ins: &Ins,
) -> (block: BasicBlock<Ins>)
    requires
        space.wf(),
        space@.contains_key(start),
        space@[start] == first_ins@,
        forall|target: u64| #[trigger] listed(prevs_map@, target) == predecessors(space@, target),
    ensures
        is_block(space@, start, block@),
{
    let ghost stream = space@;
    let first_prevs = match prevs_map.get(&start) {
        Some(prevs) => prevs.clone(),
        None => Vec::new(),
    };
    assert(first_prevs@ == listed(prevs_map@, start));
    let first = first_ins.clone();
    proof {
        Ins::clone_is_same(first_ins, &first);
        assert(stream.dom() =~= space.space@.dom());
    }
    let mut bb = BasicBlock::new(first, &first_prevs);
    proof {
        lemma_chain_fits(stream, start, bb@);
    }
    loop
        invariant
            stream == space@,
            space.wf(),
            stream.dom().finite(),
            forall|target: u64| #[trigger]
                listed(prevs_map@, target) == predecessors(space@, target),
            is_chain(stream, start, bb@),
            bb@.insns.len() <= stream.dom().len(),
        ensures
            is_block(stream, start, bb@),
        decreases stream.dom().len() - bb@.insns.len(),
    {
        let ghost last = bb@.insns.last().address;
        let nexts = bb.nexts();
        if nexts.len() != 1 {
            break ;
        }
        let next = nexts[0];
        if next == start {
            // The run has come round to where it began.
            break ;
        }
        let ins = match space.space.get(&next) {
            Some(ins) => ins,
            None => {
                break ;
            },
        };
        assert(stream.contains_key(next) && stream[next] == ins@);
        let prevs = match prevs_map.get(&next) {
            Some(prevs) => prevs,
            None => {
                proof {
                    assert(listed(prevs_map@, next).len() == 0);
                    lemma_predecessor_listed(stream, next, last, 0);
                }
                break ;
            },
        };
        assert(prevs@ == listed(prevs_map@, next));
        if prevs.len() > 1 {
            break ;
        }
        let copy = ins.clone();
        let ghost before = bb@;
        proof {
            Ins::clone_is_same(ins, &copy);
        }
        bb.push_ins(copy);
        proof {
            assert(can_grow(stream, start, last));
            lemma_chain_grows(stream, start, before, bb@);
            lemma_chain_fits(stream, start, bb@);
        }
    }
    bb
}

impl<Ins: Instruction> CFG<Ins> {
    /// Builds the control-flow graph of the instruction stream `space`,
    /// explored from `entrypoint`.
    pub fn from_asmspace(space: &AsmSpace<Ins>, entrypoint: u64) -> (cfg: Self)
        requires
            space.wf(),
        ensures
            is_cfg_of(space@, entrypoint, cfg@),
    {
        let ghost stream = space@;
        let prevs_map = predecessor_map(space);
        let mut queue: Vec<u64> = Vec::new();
        queue.push(entrypoint);
        let mut seen: BTreeSet<u64> = BTreeSet::new();
        seen.insert(entrypoint);
        let mut graph: BTreeMap<u64, BasicBlock<Ins>> = BTreeMap::new();
        let ghost mut blocks: Map<u64, BasicBlockView> = Map::empty();
        proof {
            assert(graph@.map_values(|block: BasicBlock<Ins>| block@) =~= blocks);
            lemma_begin(stream, entrypoint);
        }
        while queue.len() > 0
            invariant
                stream == space@,
                space.wf(),
                forall|target: u64| #[trigger]
                    listed(prevs_map@, target) == predecessors(space@, target),
                blocks == graph@.map_values(|block: BasicBlock<Ins>| block@),
                building(stream, entrypoint, blocks, seen@, queue@),
                all_handed_on(blocks, seen@),
                seen@.len() <= address_limit(),
            decreases address_limit() - seen@.len(), queue@.len(),
        {
            let ghost pending = queue@;
            let addr = queue.pop().unwrap();
            assert(queue@ =~= pending.drop_last() && addr == pending.last());
            let first_ins = match space.space.get(&addr) {
                Some(first_ins) => first_ins,
                None => {
                    proof {
                        lemma_drop_candidate(stream, entrypoint, blocks, seen@, pending);
                    }
                    continue ;
                },
            };
            assert(stream.contains_key(addr) && stream[addr] == first_ins@);
            let bb = grow_block(space, &prevs_map, addr, first_ins);
            let nexts = bb.nexts();
            proof {
                lemma_add_block(stream, entrypoint, blocks, seen@, pending, bb@);
                blocks = blocks.insert(addr, bb@);
            }
            graph.insert(bb.address, bb);
            assert(graph@.map_values(|block: BasicBlock<Ins>| block@) =~= blocks);
            let ghost seen_then = seen@.len();
            let ghost pending_then = queue@;
            let mut i: usize = 0;
            while i < nexts.len()
                invariant
                    i <= nexts.len(),
                    blocks.contains_key(addr),
                    nexts@ == blocks[addr].nexts(),
                    building(stream, entrypoint, blocks, seen@, queue@),
                    handed_on(blocks, seen@, addr, i as int),
                    seen@.len() >= seen_then,
                    seen@.len() == seen_then ==> queue@ == pending_then,
                    seen@.len() <= address_limit(),
                decreases nexts.len() - i,
            {
                let next = nexts[i];
                let ghost seen_now = seen@;
                let ghost pending_now = queue@;
                if seen.insert(next) {
                    queue.push(next);
                    proof {
                        lemma_add_candidate(
                            stream,
                            entrypoint,
                            blocks,
                            seen_now,
                            pending_now,
                            addr,
                            i as int,
                        );
                    }
                } else {
                    proof {
                        lemma_known_candidate(blocks, seen_now, addr, i as int);
                        assert(seen@ =~= seen_now);
                    }
                }
                i += 1;
            }
        }
        proof {
            lemma_built(stream, entrypoint, blocks, seen@, queue@);
        }
        CFG { entrypoint, graph }
    }
}

impl<Ins: Instruction> CFG<Ins> {
    /// The nodes of the graph.
    pub fn nodes(&self) -> (nodes: Vec<u64>)
        ensures
            nodes@ == self@.nodes(),
    {
        let ghost blocks = self@.blocks;
        let mut nodes: Vec<u64> = Vec::new();
        let walk = self.graph.iter();
        let ghost entries = walk.remaining();
        proof {
            lemma_ascending_keys(entries);
            assert(walks(self.graph@, entries));
            lemma_walk_gap(self.graph@, entries, 0);
            lemma_nodes_skip(blocks, 0, walk_front(entries, 0));
        }
        for kv in it: walk
            invariant
                it.seq() == entries,
                walks(self.graph@, entries),
                blocks == self@.blocks,
                nodes@ == nodes_below(blocks, walk_front(entries, it.index() as int)),
        {
            let ghost done = it.index() as int;
            let ghost key = *entries[done].0;
            nodes.push(kv.1.address);
            proof {
                assert(blocks.contains_key(key) && blocks[key] == kv.1@);
                lemma_walk_gap(self.graph@, entries, done + 1);
                assert(nodes_below(blocks, (key + 1) as nat) == nodes_below(
                    blocks,
                    key as nat,
                ).push(blocks[key].address));
                lemma_nodes_skip(blocks, (key + 1) as nat, walk_front(entries, done + 1));
            }
        }
        nodes
    }

    /// The edges of the graph.
    pub fn edges(&self) -> (edges: Vec<(u64, u64)>)
        ensures
            edges@ == self@.edges(),
    {
        let ghost blocks = self@.blocks;
        let mut edges: Vec<(u64, u64)> = Vec::new();
        let walk = self.graph.iter();
        let ghost entries = walk.remaining();
        proof {
            lemma_ascending_keys(entries);
            assert(walks(self.graph@, entries));
            lemma_walk_gap(self.graph@, entries, 0);
            lemma_edges_skip(blocks, 0, walk_front(entries, 0));
        }
        for kv in it: walk
            invariant
                it.seq() == entries,
                walks(self.graph@, entries),
                blocks == self@.blocks,
                edges@ == edges_below(blocks, walk_front(entries, it.index() as int)),
        {
            let ghost done = it.index() as int;
            let ghost key = *entries[done].0;
            let address = *kv.0;
            let nexts = kv.1.nexts();
            assert(blocks.contains_key(key) && blocks[key] == kv.1@);
            let mut j: usize = 0;
            assert(block_edges(key, nexts@).take(0) =~= Seq::<(u64, u64)>::empty());
            while j < nexts.len()
                invariant
                    j <= nexts.len(),
                    address == key,
                    edges@ == edges_below(blocks, key as nat) + block_edges(key, nexts@).take(
                        j as int,
                    ),
                decreases nexts.len() - j,
            {
                edges.push((address, nexts[j]));
                assert(block_edges(key, nexts@).take(j + 1) =~= block_edges(key, nexts@).take(
                    j as int,
                ).push((key, nexts@[j as int])));
                j += 1;
            }
            proof {
                assert(block_edges(key, nexts@).take(nexts@.len() as int) =~= block_edges(
                    key,
                    nexts@,
                ));
                lemma_walk_gap(self.graph@, entries, done + 1);
                assert(edges_below(blocks, (key + 1) as nat) == edges_below(blocks, key as nat)
                    + block_edges(key, blocks[key].nexts()));
                lemma_edges_skip(blocks, (key + 1) as nat, walk_front(entries, done + 1));
            }
        }
        edges
    }
}

} // verus!
