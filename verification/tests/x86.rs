use disasm_cfg::addressspace::BlobAddressSpace;
use disasm_cfg::instruction::Instruction;
use disasm_cfg::x86::{DecodedInsn, X86Instruction, X86InstructionFactory};

fn report(address: u64, mnemonic: &str, op_str: Option<&str>, bytes: &[u8]) -> DecodedInsn {
    DecodedInsn {
        address,
        mnemonic: Some(mnemonic.to_string()),
        op_str: op_str.map(|text| text.to_string()),
        bytes: bytes.to_vec(),
    }
}

fn code_at(address: u64, code: &[u8]) -> BlobAddressSpace {
    BlobAddressSpace::default().load(address, code)
}

#[test]
fn from_capstone_keeps_what_was_reported() {
    let ins = X86Instruction::from_capstone(report(0x1000, "mov", Some("eax, ebx"), &[0x89, 0xd8]));
    assert_eq!(ins.address, 0x1000);
    assert_eq!(ins.mnemonic, "mov");
    assert_eq!(ins.op_str, "eax, ebx");
    assert_eq!(ins.bytes, vec![0x89, 0xd8]);
    assert_eq!(ins.nexts, vec![0x1002]);
}

#[test]
fn from_capstone_without_operands() {
    let ins = X86Instruction::from_capstone(report(0x20, "nop", None, &[0x90]));
    assert_eq!(ins.op_str, "");
    assert_eq!(ins.nexts, vec![0x21]);
    assert_eq!(ins.text(), "nop ");
}

#[test]
fn from_capstone_ret_ends_the_path() {
    let ins = X86Instruction::from_capstone(report(0x1000, "ret", Some(""), &[0xc3]));
    assert_eq!(ins.nexts, Vec::<u64>::new());
}

#[test]
fn from_capstone_jmp_goes_to_its_target_only() {
    let jmp = report(0x1000, "jmp", Some("0x1234"), &[0xe9, 0, 0, 0, 0]);
    let ins = X86Instruction::from_capstone(jmp);
    assert_eq!(ins.nexts, vec![0x1234]);
}

#[test]
fn from_capstone_jmp_without_a_number_goes_nowhere() {
    let ins = X86Instruction::from_capstone(report(0x1000, "jmp", Some("eax"), &[0xff, 0xe0]));
    assert_eq!(ins.nexts, Vec::<u64>::new());
    let short = X86Instruction::from_capstone(report(0x1000, "jmp", Some("0"), &[0xff, 0xe0]));
    assert_eq!(short.nexts, Vec::<u64>::new());
    let none = X86Instruction::from_capstone(report(0x1000, "jmp", None, &[0xff, 0xe0]));
    assert_eq!(none.nexts, Vec::<u64>::new());
    let bare = X86Instruction::from_capstone(report(0x1000, "jmp", Some("0x"), &[0xff, 0xe0]));
    assert_eq!(bare.nexts, Vec::<u64>::new());
}

#[test]
fn from_capstone_conditional_branches_fall_through_first() {
    for mnemonic in ["jg", "jne", "je", "ja"] {
        let branch = report(0x1000, mnemonic, Some("0x1010"), &[0x74, 0x0e]);
        let ins = X86Instruction::from_capstone(branch);
        assert_eq!(ins.nexts, vec![0x1002, 0x1010]);
    }
}

#[test]
fn from_capstone_other_jumps_only_fall_through() {
    let ins = X86Instruction::from_capstone(report(0x1000, "jb", Some("0x1010"), &[0x72, 0x0e]));
    assert_eq!(ins.nexts, vec![0x1002]);
    let call = report(0x1000, "call", Some("0x2000"), &[0xe8, 0, 0, 0, 0]);
    let call = X86Instruction::from_capstone(call);
    assert_eq!(call.nexts, vec![0x1005]);
}

#[test]
fn from_capstone_skips_two_characters_of_the_operand() {
    let ins = X86Instruction::from_capstone(report(0, "je", Some("zz1f"), &[0x74, 0x00]));
    assert_eq!(ins.nexts, vec![2, 0x1f]);
    let plus = X86Instruction::from_capstone(report(0, "je", Some("0x+1f"), &[0x74, 0x00]));
    assert_eq!(plus.nexts, vec![2, 0x1f]);
}

#[test]
fn from_capstone_branch_to_the_next_instruction_names_it_twice() {
    let ins = X86Instruction::from_capstone(report(0x1000, "je", Some("0x1002"), &[0x74, 0x00]));
    assert_eq!(ins.nexts, vec![0x1002, 0x1002]);
}

#[test]
fn from_capstone_wraps_round_at_the_top() {
    let ins = X86Instruction::from_capstone(report(u64::MAX, "nop", None, &[0x90]));
    assert_eq!(ins.nexts, vec![0]);
}

#[test]
fn accessors_hand_out_the_fields() {
    let ins = X86Instruction::from_capstone(report(0x1000, "je", Some("0x1010"), &[0x74, 0x0e]));
    assert_eq!(ins.address(), 0x1000);
    assert_eq!(ins.bytes(), vec![0x74, 0x0e]);
    assert_eq!(ins.nexts(), vec![0x1002, 0x1010]);
    assert_eq!(ins.text(), "je 0x1010");
    let copy = ins.clone();
    assert_eq!(copy.address, ins.address);
    assert_eq!(copy.mnemonic, ins.mnemonic);
    assert_eq!(copy.op_str, ins.op_str);
    assert_eq!(copy.bytes, ins.bytes);
    assert_eq!(copy.nexts, ins.nexts);
}

#[test]
fn decode_finds_the_instruction_at_the_address() {
    let space = code_at(0x1000, &[0x90, 0xc3]);
    let nop = X86Instruction::from_addressspace(&space, 0x1000).expect("a nop");
    assert_eq!(nop.address, 0x1000);
    assert_eq!(nop.mnemonic, "nop");
    assert_eq!(nop.bytes, vec![0x90]);
    assert_eq!(nop.nexts, vec![0x1001]);
    let ret = X86Instruction::from_addressspace(&space, 0x1001).expect("a ret");
    assert_eq!(ret.address, 0x1001);
    assert_eq!(ret.mnemonic, "ret");
    assert_eq!(ret.bytes, vec![0xc3]);
    assert_eq!(ret.nexts, Vec::<u64>::new());
}

#[test]
fn decode_reads_branch_targets() {
    let space = code_at(0x1000, &[0x74, 0x01, 0x40, 0xeb, 0xfb]);
    let je = X86Instruction::from_addressspace(&space, 0x1000).expect("a je");
    assert_eq!(je.mnemonic, "je");
    assert_eq!(je.op_str, "0x1003");
    assert_eq!(je.nexts, vec![0x1002, 0x1003]);
    assert_eq!(je.text(), "je 0x1003");
    let jmp = X86Instruction::from_addressspace(&space, 0x1003).expect("a jmp");
    assert_eq!(jmp.mnemonic, "jmp");
    assert_eq!(jmp.nexts, vec![0x1000]);
}

#[test]
fn decode_takes_two_zero_bytes_for_padding() {
    let space = code_at(0x1000, &[0x90]);
    assert!(X86Instruction::from_addressspace(&space, 0x1001).is_none());
    assert!(X86Instruction::from_addressspace(&space, 0x5000).is_none());
    let add = code_at(0x2000, &[0x00, 0xc0]);
    let found = X86Instruction::from_addressspace(&add, 0x2000).expect("an add");
    assert_eq!(found.mnemonic, "add");
}

#[test]
fn decode_fails_on_bytes_that_are_no_instruction() {
    let space = code_at(0x1000, &[0xff, 0xff, 0xff, 0xff]);
    assert!(X86Instruction::from_addressspace(&space, 0x1000).is_none());
}

#[test]
fn decode_looks_at_fifteen_bytes() {
    // Fourteen prefixes and an opcode are one instruction of fifteen bytes;
    // with the opcode one byte further it is out of the decoder's sight.
    let mut code = vec![0x66u8; 14];
    code.push(0x90);
    let space = code_at(0x1000, &code);
    let found = X86Instruction::from_addressspace(&space, 0x1000).expect("a long nop");
    assert_eq!(found.bytes.len(), 15);
    assert_eq!(found.nexts, vec![0x100f]);
    let mut longer = vec![0x66u8; 15];
    longer.push(0x90);
    let beyond = code_at(0x1000, &longer);
    assert!(X86Instruction::from_addressspace(&beyond, 0x1000).is_none());
}

#[test]
fn the_ways_to_decode_agree() {
    let space = code_at(0x1000, &[0x74, 0x01, 0x40, 0xc3]);
    for address in [0x1000u64, 0x1002, 0x1003, 0x1004] {
        let direct = X86Instruction::from_addressspace(&space, address);
        let by_trait = <X86Instruction as Instruction>::decode(&space, address);
        let by_factory = X86InstructionFactory::decode(&space, address);
        assert_eq!(direct.is_some(), by_trait.is_some());
        assert_eq!(direct.is_some(), by_factory.is_some());
        if let (Some(a), Some(b), Some(c)) = (direct, by_trait, by_factory) {
            assert_eq!(a.text(), b.text());
            assert_eq!(a.nexts, b.nexts);
            assert_eq!(a.text(), c.text());
            assert_eq!(a.nexts, c.nexts);
        }
    }
}
