//! Decoding x86 in 32-bit mode: capstone disassembles, and the successors
//! of an instruction are read off its mnemonic and operand text.

use crate::addressspace::{address_after, byte_at, AddressSpace};
use crate::hex::{hex_value, parse_hex};
use crate::instruction::{Instruction, InstructionView};
use capstone::arch::x86::ArchMode;
use capstone::arch::BuildsCapstone;
use capstone::Capstone;
use vstd::prelude::*;
use vstd::string::*;

verus! {

/// What the disassembler reports of one instruction.
pub struct DecodedInsn {
    pub address: u64,
    pub mnemonic: Option<String>,
    pub op_str: Option<String>,
    pub bytes: Vec<u8>,
}

/// A report of the disassembler as the logic sees it.
pub ghost struct DecodedInsnView {
    pub address: u64,
    pub mnemonic: Option<Seq<char>>,
    pub op_str: Option<Seq<char>>,
    pub bytes: Seq<u8>,
}

impl View for DecodedInsn {
    type V = DecodedInsnView;

    open spec fn view(&self) -> DecodedInsnView {
        DecodedInsnView {
            address: self.address,
            mnemonic: match self.mnemonic {
                Some(text) => Some(text@),
                None => None,
            },
            op_str: match self.op_str {
                Some(text) => Some(text@),
                None => None,
            },
            bytes: self.bytes@,
        }
    }
}

/// The first instruction that capstone, set up for x86 in 32-bit mode
/// without detail, finds in `code` taken to lie at `address`; `None` where
/// it finds none.
pub uninterp spec fn capstone_x86_32(code: Seq<u8>, address: u64) -> Option<DecodedInsnView>;

/// Disassembles at most one instruction with capstone: builds an engine
/// with `Capstone::new().x86().mode(Mode32).detail(false).build()`, calls
/// `disasm_count(code, address, 1)` on it and copies address, mnemonic,
/// operand text and bytes out of the first instruction.
///
/// Trusted: the outcome is the one that `capstone_x86_32` names, so it
/// depends on `code` and `address` alone, and the instruction reported
/// carries the address that was passed in.  An engine that cannot be set up
/// or cannot allocate yields `None` here as well; the name does not model
/// that.
#[verifier::external_body]
fn disassemble_one(code: &[u8], address: u64) -> (found: Option<DecodedInsn>)
    ensures
        match found {
            Some(insn) => capstone_x86_32(code@, address) == Some(insn@) && insn.address
                == address,
            None => capstone_x86_32(code@, address) is None,
        },
{
    let engine = Capstone::new().x86().mode(ArchMode::Mode32).detail(false).build().ok()?;
    let insns = engine.disasm_count(code, address, 1).ok()?;
    let first = insns.iter().next()?;
    Some(
        DecodedInsn {
            address: first.address(),
            mnemonic: first.mnemonic().map(String::from),
            op_str: first.op_str().map(String::from),
            bytes: first.bytes().to_vec(),
        },
    )
}

/// Whether control never falls through an instruction with this mnemonic.
pub open spec fn ends_path(mnemonic: Seq<char>) -> bool {
    mnemonic == "ret"@ || mnemonic == "jmp"@
}

/// Whether an instruction with this mnemonic names a target in its operand.
pub open spec fn is_branch(mnemonic: Seq<char>) -> bool {
    ||| mnemonic == "jg"@
    ||| mnemonic == "jne"@
    ||| mnemonic == "je"@
    ||| mnemonic == "ja"@
    ||| mnemonic == "jmp"@
}

/// The address that a branch operand names: the hexadecimal number behind
/// its first two characters.
pub open spec fn branch_target(op_str: Seq<char>) -> Option<u64> {
    if op_str.len() >= 2 {
        hex_value(op_str.skip(2))
    } else {
        None
    }
}

/// The successors of an x86 instruction of `size` bytes at `address`: the
/// address behind it, unless it ends the path, and then the target of a
/// branch, where its operand names one.
pub open spec fn x86_nexts(
    address: u64,
    mnemonic: Seq<char>,
    op_str: Seq<char>,
    size: nat,
) -> Seq<u64> {
    let through = if ends_path(mnemonic) {
        Seq::empty()
    } else {
        seq![address_after(address, size as int)]
    };
    if is_branch(mnemonic) {
        match branch_target(op_str) {
            Some(target) => through.push(target),
            None => through,
        }
    } else {
        through
    }
}

/// An x86 instruction: where it lies, how it reads, its bytes and its
/// successors.
#[derive(Debug)]
pub struct X86Instruction {
    pub address: u64,
    pub mnemonic: String,
    pub op_str: String,
    pub bytes: Vec<u8>,
    pub nexts: Vec<u64>,
}

impl View for X86Instruction {
    type V = InstructionView;

    open spec fn view(&self) -> InstructionView {
        InstructionView {
            address: self.address,
            bytes: self.bytes@,
            nexts: self.nexts@,
            text: self.mnemonic@ + " "@ + self.op_str@,
        }
    }
}

impl Clone for X86Instruction {
    fn clone(&self) -> (copy: Self)
        ensures
            copy.address == self.address,
            copy.mnemonic@ == self.mnemonic@,
            copy.op_str@ == self.op_str@,
            copy.bytes@ == self.bytes@,
            copy.nexts@ == self.nexts@,
    {
        X86Instruction {
            address: self.address,
            mnemonic: self.mnemonic.clone(),
            op_str: self.op_str.clone(),
            bytes: self.bytes.clone(),
            nexts: self.nexts.clone(),
        }
    }
}

/// The operand text of a report; empty where it has none.
pub open spec fn operands(insn: DecodedInsnView) -> Seq<char> {
    match insn.op_str {
        Some(text) => text,
        None => Seq::empty(),
    }
}

/// The instruction that a report of the disassembler describes, taken to
/// lie at `address`.
pub open spec fn x86_view(address: u64, insn: DecodedInsnView) -> InstructionView {
    let mnemonic = insn.mnemonic.unwrap();
    InstructionView {
        address,
        bytes: insn.bytes,
        nexts: x86_nexts(address, mnemonic, operands(insn), insn.bytes.len()),
        text: mnemonic + " "@ + operands(insn),
    }
}

/// `ins` has the mnemonic and the operand text of the report `insn`.
pub open spec fn reads_as(ins: X86Instruction, insn: DecodedInsnView) -> bool {
    insn.mnemonic == Some(ins.mnemonic@) && ins.op_str@ == operands(insn)
}

/// Whether `text` is the word `word`.
fn spells(text: &String, word: &str) -> (same: bool)
    ensures
        same == (text@ == word@),
{
    let other = String::from_str(word);
    *text == other
}

impl X86Instruction {
    /// The instruction that the disassembler's report `ins` describes.
    pub fn from_capstone(ins: DecodedInsn) -> (found: Self)
        requires
            ins.mnemonic is Some,
        ensures
            found@ == x86_view(ins.address, ins@),
            reads_as(found, ins@),
    {
        let mnemonic = ins.mnemonic.unwrap();
        let op_str = match ins.op_str {
            Some(text) => text,
            None => String::new(),
        };
        let bytes = ins.bytes;
        let mut nexts: Vec<u64> = Vec::new();
        nexts.push(ins.address.wrapping_add(bytes.len() as u64));
        if spells(&mnemonic, "ret") {
            nexts.clear();
        }
        if spells(&mnemonic, "jmp") {
            nexts.clear();
        }
        let branches = spells(&mnemonic, "jg") || spells(&mnemonic, "jne") || spells(
            &mnemonic,
            "je",
        ) || spells(&mnemonic, "ja") || spells(&mnemonic, "jmp");
        if branches {
            let length = op_str.as_str().unicode_len();
            if length >= 2 {
                let operand = op_str.as_str().substring_char(2, length);
                assert(operand@ =~= op_str@.skip(2));
                match parse_hex(operand) {
                    Some(target) => {
                        nexts.push(target);
                    },
                    None => {},
                }
            }
        }
        X86Instruction { address: ins.address, mnemonic, op_str, bytes, nexts }
    }
}

/// The sixteen bytes that the decoder looks at for `address`: the fifteen
/// that `memory` holds from there on, and a zero.
pub open spec fn fetched(memory: Map<u64, u8>, address: u64) -> Seq<u8> {
    Seq::new(
        16,
        |i: int|
            if i < 15 {
                byte_at(memory, address_after(address, i))
            } else {
                0u8
            },
    )
}

/// What decoding x86 at `address` yields in an address space that holds
/// `memory`.  Two zero bytes are taken for padding and not decoded; a
/// report without a mnemonic is taken for none.
pub open spec fn x86_decoded(memory: Map<u64, u8>, address: u64) -> Option<InstructionView> {
    let code = fetched(memory, address);
    if code[0] == 0 && code[1] == 0 {
        None
    } else {
        match capstone_x86_32(code, address) {
            Some(insn) => if insn.mnemonic is Some {
                Some(x86_view(address, insn))
            } else {
                None
            },
            None => None,
        }
    }
}

impl X86Instruction {
    /// Decodes the instruction at `address` in `space`.
    pub fn from_addressspace<AS: AddressSpace>(space: &AS, address: u64) -> (found: Option<Self>)
        ensures
            match found {
                Some(ins) => x86_decoded(space@, address) == Some(ins@) && reads_as(
                    ins,
                    capstone_x86_32(fetched(space@, address), address).unwrap(),
                ),
                None => x86_decoded(space@, address) is None,
            },
    {
        let mut code: Vec<u8> = vec![0u8; 15];
        space.read(address, code.as_mut_slice());
        code.push(0);
        assert(code@ =~= fetched(space@, address));
        if code[0] == 0 && code[1] == 0 {
            return None;
        }
        match disassemble_one(code.as_slice(), address) {
            None => None,
            Some(insn) => {
                if insn.mnemonic.is_some() {
                    Some(X86Instruction::from_capstone(insn))
                } else {
                    None
                }
            },
        }
    }
}

impl Instruction for X86Instruction {
    open spec fn decoded(memory: Map<u64, u8>, address: u64) -> Option<InstructionView> {
        x86_decoded(memory, address)
    }

    proof fn decoded_lives_there(memory: Map<u64, u8>, address: u64) {
    }

    proof fn clone_is_same(source: &Self, copy: &Self) {
    }

    fn decode<AS: AddressSpace>(space: &AS, address: u64) -> (found: Option<Self>) {
        X86Instruction::from_addressspace(space, address)
    }

    fn address(&self) -> (address: u64) {
        self.address
    }

    fn bytes(&self) -> (bytes: Vec<u8>) {
        self.bytes.clone()
    }

    fn nexts(&self) -> (nexts: Vec<u64>) {
        self.nexts.clone()
    }

    fn text(&self) -> (text: String) {
        let mut text = self.mnemonic.clone();
        text.append(" ");
        text.append(self.op_str.as_str());
        text
    }
}

/// The decoder for x86 in 32-bit mode.
pub struct X86InstructionFactory {}

impl X86InstructionFactory {
    /// Decodes the instruction at `address` in `space`.
    pub fn decode<AS: AddressSpace>(space: &AS, address: u64) -> (found: Option<X86Instruction>)
        ensures
            match found {
                Some(ins) => x86_decoded(space@, address) == Some(ins@) && reads_as(
                    ins,
                    capstone_x86_32(fetched(space@, address), address).unwrap(),
                ),
                None => x86_decoded(space@, address) is None,
            },
    {
        X86Instruction::from_addressspace(space, address)
    }
}

} // verus!
