//! Decoded instructions and the stream of them that exploration yields.

use crate::addressspace::{address_limit, AddressSpace};
use crate::exploration::{
    all_followed, exploring, followed, lemma_add_address, lemma_add_instruction, lemma_begin,
    lemma_drop_address, lemma_explored_all, lemma_known_address, stream_from,
};
use crate::walk::{lemma_ascending_keys, walks};
use std::collections::{BTreeMap, BTreeSet};
use vstd::prelude::*;
use vstd::std_specs::iter::IteratorSpec;

verus! {

/// What the control-flow logic knows of a decoded instruction.
pub ghost struct InstructionView {
    /// Where the instruction lives.
    pub address: u64,
    /// Its raw bytes.
    pub bytes: Seq<u8>,
    /// The addresses that control may reach right after it, in the decoder's
    /// order.  Empty for an instruction that ends a path.
    pub nexts: Seq<u64>,
    /// Its display text.
    pub text: Seq<char>,
}

/// A decoded instruction of some architecture.
pub trait Instruction: Sized + Clone + View<V = InstructionView> {
    /// What decoding at `address` yields in an address space that holds
    /// `memory`: the instruction found there, or `None` where the bytes are
    /// no instruction.
    spec fn decoded(memory: Map<u64, u8>, address: u64) -> Option<InstructionView>;

    /// An instruction decoded at an address lives at that address.
    proof fn decoded_lives_there(memory: Map<u64, u8>, address: u64)
        ensures
            Self::decoded(memory, address) matches Some(v) ==> v.address == address,
    ;

    /// A clone is the same instruction.
    proof fn clone_is_same(source: &Self, copy: &Self)
        requires
            cloned(*source, *copy),
        ensures
            copy@ == source@,
    ;

    /// Decodes the instruction at `address` in `space`.
    fn decode<AS: AddressSpace>(space: &AS, address: u64) -> (found: Option<Self>)
        ensures
            match found {
                Some(ins) => Self::decoded(space@, address) == Some(ins@),
                None => Self::decoded(space@, address) is None,
            },
    ;

    /// Where the instruction lies.
    fn address(&self) -> (address: u64)
        ensures
            address == self@.address,
    ;

    /// The bytes of the instruction.
    fn bytes(&self) -> (bytes: Vec<u8>)
        ensures
            bytes@ == self@.bytes,
    ;

    /// The addresses that control may reach right after the instruction.
    fn nexts(&self) -> (nexts: Vec<u64>)
        ensures
            nexts@ == self@.nexts,
    ;

    /// The instruction as text.
    fn text(&self) -> (text: String)
        ensures
            text@ == self@.text,
    ;
}

/// Every instruction of the stream is filed under its own address.
pub open spec fn filed_by_address(stream: Map<u64, InstructionView>) -> bool {
    forall|a: u64| #[trigger] stream.contains_key(a) ==> stream[a].address == a
}

/// An instruction stream: the decoded instructions, each under an address.
#[derive(Debug, Clone)]
pub struct AsmSpace<Ins: Instruction> {
    pub space: BTreeMap<u64, Ins>,
}

impl<Ins: Instruction> View for AsmSpace<Ins> {
    type V = Map<u64, InstructionView>;

    open spec fn view(&self) -> Map<u64, InstructionView> {
        self.space@.map_values(|ins: Ins| ins@)
    }
}

impl<Ins: Instruction> AsmSpace<Ins> {
    /// Every instruction is filed under its own address.
    pub open spec fn wf(&self) -> bool {
        filed_by_address(self@)
    }

    /// Files `ins` under `address` and hands back what was filed there.
    pub fn insert(&mut self, address: u64, ins: Ins) -> (previous: Option<Ins>)
        ensures
            final(self)@ == old(self)@.insert(address, ins@),
            match previous {
                Some(p) => old(self).space@.contains_key(address) && old(self).space@[address] == p,
                None => !old(self)@.contains_key(address),
            },
    {
        let previous = self.space.insert(address, ins);
        assert(self@ =~= old(self)@.insert(address, ins@));
        previous
    }
}

impl<Ins: Instruction> Default for AsmSpace<Ins> {
    fn default() -> (listing: Self)
        ensures
            listing@ == Map::<u64, InstructionView>::empty(),
    {
        AsmSpace::new()
    }
}

impl<Ins: Instruction> AsmSpace<Ins> {
    /// An empty stream.
    pub fn new() -> (listing: Self)
        ensures
            listing@ == Map::<u64, InstructionView>::empty(),
    {
        let listing = AsmSpace { space: BTreeMap::new() };
        assert(listing@ =~= Map::<u64, InstructionView>::empty());
        listing
    }

    /// Whether every instruction is filed under its own address.
    pub fn is_filed_by_address(&self) -> (filed: bool)
        ensures
            filed == self.wf(),
    {
        let walk = self.space.iter();
        let ghost entries = walk.remaining();
        proof {
            lemma_ascending_keys(entries);
            assert(walks(self.space@, entries));
        }
        for kv in it: walk
            invariant
                it.seq() == entries,
                walks(self.space@, entries),
                forall|i: int|
                    0 <= i < it.index() ==> (#[trigger] entries[i]).1@.address == *entries[i].0,
        {
            if kv.1.address() != *kv.0 {
                assert(self@.contains_key(*kv.0) && self@[*kv.0].address != *kv.0);
                return false;
            }
        }
        assert forall|a: u64| #[trigger] self@.contains_key(a) implies self@[a].address == a by {
            let i = choose|i: int| 0 <= i < entries.len() && *entries[i].0 == a;
            assert(entries[i].1@.address == *entries[i].0);
        }
        true
    }

    /// Decodes everything that can be come to from `entrypoint` by following
    /// successors.
    pub fn disassemble_all<AS: AddressSpace>(space: &AS, entrypoint: u64) -> (listing: Self)
        ensures
            listing@ == stream_from::<Ins>(space@, entrypoint),
            listing.wf(),
    {
        let mut queue: Vec<u64> = Vec::new();
        queue.push(entrypoint);
        let mut seen: BTreeSet<u64> = BTreeSet::new();
        seen.insert(entrypoint);
        let mut listing: AsmSpace<Ins> = AsmSpace::new();
        proof {
            lemma_begin::<Ins>(space@, entrypoint);
        }
        while queue.len() > 0
            invariant
                exploring::<Ins>(space@, entrypoint, listing@, seen@, queue@),
                all_followed(listing@, seen@),
                seen@.len() <= address_limit(),
            decreases address_limit() - seen@.len(), queue@.len(),
        {
            let ghost pending = queue@;
            let ghost stream = listing@;
            let addr = queue.pop().unwrap();
            assert(queue@ =~= pending.drop_last() && addr == pending.last());
            let ins = match Ins::decode(space, addr) {
                Some(ins) => ins,
                None => {
                    proof {
                        lemma_drop_address::<Ins>(space@, entrypoint, stream, seen@, pending);
                    }
                    continue ;
                },
            };
            let nexts = ins.nexts();
            proof {
                lemma_add_instruction::<Ins>(space@, entrypoint, stream, seen@, pending, ins@);
            }
            listing.insert(addr, ins);
            let ghost seen_then = seen@.len();
            let ghost pending_then = queue@;
            let mut i: usize = 0;
            while i < nexts.len()
                invariant
                    i <= nexts.len(),
                    listing@.contains_key(addr),
                    nexts@ == listing@[addr].nexts,
                    exploring::<Ins>(space@, entrypoint, listing@, seen@, queue@),
                    followed(listing@, seen@, addr, i as int),
                    seen@.len() >= seen_then,
                    seen@.len() == seen_then ==> queue@ == pending_then,
                    seen@.len() <= address_limit(),
                decreases nexts.len() - i,
            {
                let next = nexts[i];
                let ghost seen_now = seen@;
                let ghost pending_now = queue@;
                if seen.insert(next) {
                    queue.push(next);
                    proof {
                        lemma_add_address::<Ins>(
                            space@,
                            entrypoint,
                            listing@,
                            seen_now,
                            pending_now,
                            addr,
                            i as int,
                        );
                    }
                } else {
                    proof {
                        lemma_known_address(listing@, seen_now, addr, i as int);
                        assert(seen@ =~= seen_now);
                    }
                }
                i += 1;
            }
        }
        proof {
            lemma_explored_all::<Ins>(space@, entrypoint, listing@, seen@, queue@);
        }
        listing
    }
}

} // verus!
