use disasm_cfg::addressspace::BlobAddressSpace;
use disasm_cfg::basicblock::{BasicBlock, CFG};
use disasm_cfg::instruction::AsmSpace;
use disasm_cfg::predecessors::predecessor_map;
use disasm_cfg::x86::X86Instruction;

fn ins(address: u64, nexts: &[u64]) -> X86Instruction {
    X86Instruction {
        address,
        mnemonic: "op".to_string(),
        op_str: format!("{}", address),
        bytes: vec![0x90],
        nexts: nexts.to_vec(),
    }
}

fn stream(instructions: &[(u64, &[u64])]) -> AsmSpace<X86Instruction> {
    let mut space = AsmSpace::new();
    for (address, nexts) in instructions {
        assert!(space.insert(*address, ins(*address, nexts)).is_none());
    }
    space
}

fn addresses(block: &BasicBlock<X86Instruction>) -> Vec<u64> {
    block.insns.iter().map(|ins| ins.address).collect()
}

/// The blocks of the graph: start, addresses of the instructions, predecessor list.
fn shape(cfg: &CFG<X86Instruction>) -> Vec<(u64, Vec<u64>, Vec<u64>)> {
    cfg.graph
        .iter()
        .map(|(start, block)| {
            assert_eq!(*start, block.address);
            (*start, addresses(block), block.prevs.clone())
        })
        .collect()
}

#[test]
fn single_return_is_one_block_without_edges() {
    let space = stream(&[(0x1000, &[])]);
    let cfg = CFG::from_asmspace(&space, 0x1000);
    assert_eq!(cfg.entrypoint, 0x1000);
    assert_eq!(shape(&cfg), vec![(0x1000, vec![0x1000], vec![])]);
    assert_eq!(cfg.nodes(), vec![0x1000]);
    assert_eq!(cfg.edges(), Vec::<(u64, u64)>::new());
    assert_eq!(cfg.graph[&0x1000].nexts(), Vec::<u64>::new());
}

#[test]
fn straight_line_is_one_block() {
    let space = stream(&[(0x1000, &[0x1001]), (0x1001, &[0x1002]), (0x1002, &[0x1003])]);
    let cfg = CFG::from_asmspace(&space, 0x1000);
    assert_eq!(shape(&cfg), vec![(0x1000, vec![0x1000, 0x1001, 0x1002], vec![])]);
    assert_eq!(cfg.edges(), vec![(0x1000, 0x1003)]);
}

#[test]
fn branch_ends_the_block_and_starts_two() {
    let space = stream(&[(0x1000, &[0x1002, 0x1010]), (0x1002, &[]), (0x1010, &[])]);
    let cfg = CFG::from_asmspace(&space, 0x1000);
    assert_eq!(
        shape(&cfg),
        vec![
            (0x1000, vec![0x1000], vec![]),
            (0x1002, vec![0x1002], vec![0x1000]),
            (0x1010, vec![0x1010], vec![0x1000]),
        ]
    );
    assert_eq!(cfg.graph[&0x1000].nexts(), vec![0x1002, 0x1010]);
    assert_eq!(cfg.edges(), vec![(0x1000, 0x1002), (0x1000, 0x1010)]);
}

#[test]
fn branch_to_undecoded_targets_leaves_the_edges() {
    let space = stream(&[(0x1000, &[0x1002, 0x1010])]);
    let cfg = CFG::from_asmspace(&space, 0x1000);
    assert_eq!(shape(&cfg), vec![(0x1000, vec![0x1000], vec![])]);
    assert_eq!(cfg.edges(), vec![(0x1000, 0x1002), (0x1000, 0x1010)]);
}

#[test]
fn jump_to_undecoded_address_dangles() {
    let space = stream(&[(0x1000, &[0x1002])]);
    let cfg = CFG::from_asmspace(&space, 0x1000);
    assert_eq!(shape(&cfg), vec![(0x1000, vec![0x1000], vec![])]);
    assert_eq!(cfg.edges(), vec![(0x1000, 0x1002)]);
    assert!(!cfg.graph.contains_key(&0x1002));
    assert!(!cfg.nodes().contains(&0x1002));
}

#[test]
fn join_starts_its_own_block() {
    // 0x10 branches to 0x20 and 0x30; each runs on for two instructions
    // and then into 0x40.
    let space = stream(&[
        (0x10, &[0x20, 0x30]),
        (0x20, &[0x21]),
        (0x21, &[0x40]),
        (0x30, &[0x31]),
        (0x31, &[0x40]),
        (0x40, &[0x41]),
        (0x41, &[]),
    ]);
    let cfg = CFG::from_asmspace(&space, 0x10);
    assert_eq!(
        shape(&cfg),
        vec![
            (0x10, vec![0x10], vec![]),
            (0x20, vec![0x20, 0x21], vec![0x10]),
            (0x30, vec![0x30, 0x31], vec![0x10]),
            (0x40, vec![0x40, 0x41], vec![0x21, 0x31]),
        ]
    );
    assert_eq!(cfg.edges(), vec![(0x10, 0x20), (0x10, 0x30), (0x20, 0x40), (0x30, 0x40)]);
}

#[test]
fn join_far_from_the_entry_starts_its_own_block() {
    let space = stream(&[
        (1, &[2]),
        (2, &[3, 10]),
        (3, &[4]),
        (4, &[5]),
        (5, &[6]),
        (6, &[]),
        (10, &[5]),
    ]);
    let cfg = CFG::from_asmspace(&space, 1);
    assert_eq!(
        shape(&cfg),
        vec![
            (1, vec![1, 2], vec![]),
            (3, vec![3, 4], vec![2]),
            (5, vec![5, 6], vec![4, 10]),
            (10, vec![10], vec![2]),
        ]
    );
}

#[test]
fn nothing_decoded_at_the_entry_gives_no_block() {
    let space = stream(&[(0x1000, &[])]);
    let cfg = CFG::from_asmspace(&space, 0x2000);
    assert_eq!(cfg.entrypoint, 0x2000);
    assert!(cfg.graph.is_empty());
    assert!(cfg.nodes().is_empty());
    assert!(cfg.edges().is_empty());
    let empty: AsmSpace<X86Instruction> = AsmSpace::default();
    assert!(CFG::from_asmspace(&empty, 0).graph.is_empty());
}

#[test]
fn what_the_entry_does_not_reach_gets_no_block() {
    let space = stream(&[(1, &[2]), (2, &[]), (7, &[2]), (8, &[9]), (9, &[])]);
    let cfg = CFG::from_asmspace(&space, 1);
    assert_eq!(shape(&cfg), vec![(1, vec![1], vec![]), (2, vec![2], vec![1, 7])]);
}

#[test]
fn loop_through_the_entry_ends() {
    let alone = stream(&[(5, &[5])]);
    let cfg = CFG::from_asmspace(&alone, 5);
    assert_eq!(shape(&cfg), vec![(5, vec![5], vec![5])]);
    assert_eq!(cfg.edges(), vec![(5, 5)]);
    let ring = stream(&[(1, &[2]), (2, &[3]), (3, &[1])]);
    let round = CFG::from_asmspace(&ring, 2);
    assert_eq!(shape(&round), vec![(2, vec![2, 3, 1], vec![1])]);
    assert_eq!(round.edges(), vec![(2, 2)]);
}

#[test]
fn loop_behind_the_entry_is_a_block_of_its_own() {
    let space = stream(&[(1, &[2]), (2, &[3]), (3, &[2, 4]), (4, &[])]);
    let cfg = CFG::from_asmspace(&space, 1);
    assert_eq!(
        shape(&cfg),
        vec![(1, vec![1], vec![]), (2, vec![2, 3], vec![1, 3]), (4, vec![4], vec![3])]
    );
    assert_eq!(cfg.edges(), vec![(1, 2), (2, 2), (2, 4)]);
}

#[test]
fn successor_named_twice_starts_a_block() {
    let space = stream(&[(1, &[2, 2]), (2, &[])]);
    let cfg = CFG::from_asmspace(&space, 1);
    assert_eq!(shape(&cfg), vec![(1, vec![1], vec![]), (2, vec![2], vec![1, 1])]);
    assert_eq!(cfg.edges(), vec![(1, 2), (1, 2)]);
}

#[test]
fn entry_that_another_block_runs_into_is_held_twice() {
    let space = stream(&[(1, &[2, 3]), (2, &[1]), (3, &[])]);
    let cfg = CFG::from_asmspace(&space, 1);
    assert_eq!(
        shape(&cfg),
        vec![(1, vec![1], vec![2]), (2, vec![2, 1], vec![1]), (3, vec![3], vec![1])]
    );
}

#[test]
fn building_twice_gives_the_same_graph() {
    let space = stream(&[
        (0x10, &[0x20, 0x30]),
        (0x20, &[0x40]),
        (0x30, &[0x40]),
        (0x40, &[0x10, 0x99]),
    ]);
    let first = CFG::from_asmspace(&space, 0x10);
    let second = CFG::from_asmspace(&space, 0x10);
    assert_eq!(shape(&first), shape(&second));
    assert_eq!(first.nodes(), second.nodes());
    assert_eq!(first.edges(), second.edges());
    assert_eq!(first.entrypoint, second.entrypoint);
}

#[test]
fn every_instruction_is_in_one_block() {
    let space = stream(&[
        (1, &[2]),
        (2, &[3, 10]),
        (3, &[4]),
        (4, &[5]),
        (5, &[6]),
        (6, &[]),
        (10, &[5]),
    ]);
    let cfg = CFG::from_asmspace(&space, 1);
    let mut held: Vec<u64> = cfg.graph.values().flat_map(|block| addresses(block)).collect();
    let count: usize = cfg.graph.values().map(|block| block.insns.len()).sum();
    assert_eq!(count, space.space.len());
    held.sort();
    assert_eq!(held, space.space.keys().copied().collect::<Vec<u64>>());
}

#[test]
fn blocks_start_at_joins_and_branch_targets() {
    let space = stream(&[
        (1, &[2]),
        (2, &[3, 10]),
        (3, &[4]),
        (4, &[5]),
        (5, &[6]),
        (6, &[]),
        (10, &[5]),
    ]);
    let cfg = CFG::from_asmspace(&space, 1);
    for (start, block) in cfg.graph.iter() {
        if *start != cfg.entrypoint {
            let branch = block.prevs.len() == 1 && space.space[&block.prevs[0]].nexts.len() > 1;
            assert!(block.prevs.len() > 1 || branch);
        }
    }
}

#[test]
fn nodes_and_edges_come_by_ascending_address() {
    let space = stream(&[(30, &[20, 10]), (20, &[10, 99]), (10, &[])]);
    let cfg = CFG::from_asmspace(&space, 30);
    assert_eq!(cfg.nodes(), vec![10, 20, 30]);
    assert_eq!(cfg.edges(), vec![(20, 10), (20, 99), (30, 20), (30, 10)]);
}

#[test]
fn predecessor_lists_go_by_ascending_address() {
    let space = stream(&[(30, &[5, 5]), (20, &[5, 7]), (10, &[7, 5])]);
    let map = predecessor_map(&space);
    assert_eq!(map.len(), 2);
    assert_eq!(map[&5], vec![10, 20, 30, 30]);
    assert_eq!(map[&7], vec![10, 20]);
}

#[test]
fn block_methods() {
    let mut block = BasicBlock::new(ins(0x1000, &[0x1001]), &vec![7, 8]);
    assert_eq!(block.address, 0x1000);
    assert_eq!(addresses(&block), vec![0x1000]);
    assert_eq!(block.prevs, vec![7, 8]);
    assert_eq!(block.nexts(), vec![0x1001]);
    block.push_ins(ins(0x1001, &[0x2000, 0x3000]));
    assert_eq!(block.address, 0x1000);
    assert_eq!(addresses(&block), vec![0x1000, 0x1001]);
    assert_eq!(block.prevs, vec![7, 8]);
    assert_eq!(block.nexts(), vec![0x2000, 0x3000]);
    let empty: BasicBlock<X86Instruction> =
        BasicBlock { address: 1, insns: Vec::new(), prevs: Vec::new() };
    assert_eq!(empty.nexts(), Vec::<u64>::new());
    assert_eq!(empty.text(), "0x1:\n");
}

#[test]
fn block_text_lists_the_instructions() {
    let mut block = BasicBlock::new(ins(0x1000, &[0x1001]), &Vec::new());
    block.push_ins(ins(0x1001, &[]));
    assert_eq!(block.text(), "0x1000:\n  op 4096\n  op 4097\n");
}

#[test]
fn insert_replaces_what_was_filed() {
    let mut space = AsmSpace::new();
    assert!(space.insert(1, ins(1, &[2])).is_none());
    let previous = space.insert(1, ins(1, &[3])).expect("the first one");
    assert_eq!(previous.nexts, vec![2]);
    assert_eq!(space.space.len(), 1);
    assert_eq!(space.space[&1].nexts, vec![3]);
}

#[test]
fn streams_know_whether_they_are_filed_by_address() {
    let mut space = stream(&[(1, &[2]), (2, &[])]);
    assert!(space.is_filed_by_address());
    let empty: AsmSpace<X86Instruction> = AsmSpace::new();
    assert!(empty.is_filed_by_address());
    space.insert(3, ins(4, &[]));
    assert!(!space.is_filed_by_address());
}

#[test]
fn disassemble_all_follows_successors() {
    // xor eax, eax; je 0x1005; inc eax; ret
    let code = [0x31, 0xc0, 0x74, 0x01, 0x40, 0xc3];
    let memory = BlobAddressSpace::default().load(0x1000, &code);
    let space: AsmSpace<X86Instruction> = AsmSpace::disassemble_all(&memory, 0x1000);
    assert!(space.is_filed_by_address());
    let found: Vec<(u64, String, Vec<u64>)> = space
        .space
        .iter()
        .map(|(address, ins)| {
            assert_eq!(*address, ins.address);
            (*address, ins.mnemonic.clone(), ins.nexts.clone())
        })
        .collect();
    assert_eq!(
        found,
        vec![
            (0x1000, "xor".to_string(), vec![0x1002]),
            (0x1002, "je".to_string(), vec![0x1004, 0x1005]),
            (0x1004, "inc".to_string(), vec![0x1005]),
            (0x1005, "ret".to_string(), vec![]),
        ]
    );
    let cfg = CFG::from_asmspace(&space, 0x1000);
    assert_eq!(
        shape(&cfg),
        vec![
            (0x1000, vec![0x1000, 0x1002], vec![]),
            (0x1004, vec![0x1004], vec![0x1002]),
            (0x1005, vec![0x1005], vec![0x1002, 0x1004]),
        ]
    );
    assert_eq!(cfg.edges(), vec![(0x1000, 0x1004), (0x1000, 0x1005), (0x1004, 0x1005)]);
    assert_eq!(cfg.graph[&0x1000].text(), "0x1000:\n  xor eax, eax\n  je 0x1005\n");
}

#[test]
fn disassemble_all_stops_where_nothing_decodes() {
    // nop, and zeros behind it
    let memory = BlobAddressSpace::default().load(0x1000, &[0x90]);
    let space: AsmSpace<X86Instruction> = AsmSpace::disassemble_all(&memory, 0x1000);
    assert_eq!(space.space.keys().copied().collect::<Vec<u64>>(), vec![0x1000]);
    let cfg = CFG::from_asmspace(&space, 0x1000);
    assert_eq!(shape(&cfg), vec![(0x1000, vec![0x1000], vec![])]);
    assert_eq!(cfg.edges(), vec![(0x1000, 0x1001)]);
    let nothing: AsmSpace<X86Instruction> = AsmSpace::disassemble_all(&memory, 0x4000);
    assert!(nothing.space.is_empty());
}

#[test]
fn disassemble_all_decodes_a_loop_once() {
    // nop; jmp 0x1000
    let memory = BlobAddressSpace::default().load(0x1000, &[0x90, 0xeb, 0xfd]);
    let space: AsmSpace<X86Instruction> = AsmSpace::disassemble_all(&memory, 0x1000);
    assert_eq!(space.space.keys().copied().collect::<Vec<u64>>(), vec![0x1000, 0x1001]);
    assert_eq!(space.space[&0x1001].nexts, vec![0x1000]);
    let cfg = CFG::from_asmspace(&space, 0x1000);
    assert_eq!(shape(&cfg), vec![(0x1000, vec![0x1000, 0x1001], vec![0x1001])]);
}

#[test]
fn disassemble_all_skips_what_a_jump_passes_over() {
    // jmp 0x1004; two bytes that are passed over; ret
    let memory = BlobAddressSpace::default().load(0x1000, &[0xeb, 0x02, 0xff, 0xff, 0xc3]);
    let space: AsmSpace<X86Instruction> = AsmSpace::disassemble_all(&memory, 0x1000);
    assert_eq!(space.space.keys().copied().collect::<Vec<u64>>(), vec![0x1000, 0x1004]);
}
