//! Address spaces: memory that answers, for every 64-bit address, with a
//! byte, and reads as zero wherever nothing was put.

use std::collections::BTreeMap;
use vstd::prelude::*;
use vstd::set_lib::{lemma_int_range, lemma_len_subset, lemma_map_size, set_int_range};

verus! {

/// One past the highest address.
pub open spec fn address_limit() -> nat {
    0x1_0000_0000_0000_0000
}

/// The address `offset` bytes after `address`, wrapping round at the top of
/// the 64-bit address space.
pub open spec fn address_after(address: u64, offset: int) -> u64 {
    ((address as int + offset) % (address_limit() as int)) as u64
}

/// A finite set of addresses holds no more of them than there are.
pub proof fn lemma_addresses_bounded(addresses: Set<u64>)
    requires
        addresses.finite(),
    ensures
        addresses.len() <= address_limit(),
{
    let widen = |a: u64| a as int;
    let wide = addresses.map(widen);
    assert(vstd::relations::injective_on(widen, addresses));
    lemma_map_size(addresses, wide, widen);
    lemma_int_range(0, address_limit() as int);
    assert(wide.subset_of(set_int_range(0, address_limit() as int)));
    lemma_len_subset(wide, set_int_range(0, address_limit() as int));
}

/// The byte that `memory` holds at `address`: zero where it holds none.
pub open spec fn byte_at(memory: Map<u64, u8>, address: u64) -> u8 {
    if memory.contains_key(address) {
        memory[address]
    } else {
        0
    }
}

/// Byte-addressable memory.  Its view holds the bytes that were put there;
/// every other address reads as zero.
pub trait AddressSpace: View<V = Map<u64, u8>> {
    /// Fills `buffer` with the bytes that start at `address`.
    fn read(&self, address: u64, buffer: &mut [u8])
        ensures
            final(buffer)@.len() == old(buffer)@.len(),
            forall|i: int|
                0 <= i < old(buffer)@.len() ==> #[trigger] final(buffer)@[i] == byte_at(
                    self@,
                    address_after(address, i),
                ),
    ;
}

/// How far `address` lies behind `base`, going up and wrapping round at the
/// top of the address space.
pub open spec fn offset_from(base: u64, address: u64) -> int {
    (address as int - base as int) % (address_limit() as int)
}

/// `memory` after `data` was written over it from `base` upwards.
pub open spec fn written_over(memory: Map<u64, u8>, base: u64, data: Seq<u8>) -> Map<u64, u8> {
    Map::new(
        |a: u64| memory.contains_key(a) || offset_from(base, a) < data.len(),
        |a: u64|
            if offset_from(base, a) < data.len() {
                data[offset_from(base, a)]
            } else {
                memory[a]
            },
    )
}

/// A flat image in memory: the bytes that were written, each at its address.
pub struct BlobAddressSpace {
    space: BTreeMap<u64, u8>,
}

impl View for BlobAddressSpace {
    type V = Map<u64, u8>;

    closed spec fn view(&self) -> Map<u64, u8> {
        self.space@
    }
}

impl Default for BlobAddressSpace {
    fn default() -> (empty: Self)
        ensures
            empty@ == Map::<u64, u8>::empty(),
    {
        BlobAddressSpace { space: BTreeMap::new() }
    }
}

impl BlobAddressSpace {
    /// Puts `byte` at `address`, in place of what was there.
    pub fn write_byte(&mut self, address: u64, byte: u8)
        ensures
            final(self)@ == old(self)@.insert(address, byte),
    {
        self.space.insert(address, byte);
    }

    /// Writes `data` from `address` upwards.
    pub fn load(self, address: u64, data: &[u8]) -> (loaded: Self)
        ensures
            loaded@ == written_over(self@, address, data@),
    {
        let mut loaded = self;
        let n = data.len();
        let mut off: usize = 0;
        assert(loaded@ =~= written_over(self@, address, data@.take(0)));
        while off < n
            invariant
                n == data@.len(),
                off <= n,
                loaded@ == written_over(self@, address, data@.take(off as int)),
            decreases n - off,
        {
            let ghost so_far = loaded@;
            loaded.write_byte(address.wrapping_add(off as u64), data[off]);
            assert(loaded@ =~= written_over(self@, address, data@.take(off + 1))) by {
                let target = address_after(address, off as int);
                assert(loaded@ == so_far.insert(target, data@[off as int]));
                assert forall|a: u64| (offset_from(address, a) == off) <==> a == target by {}
            }
            off += 1;
        }
        assert(data@.take(n as int) =~= data@);
        loaded
    }
}

impl AddressSpace for BlobAddressSpace {
    fn read(&self, address: u64, buffer: &mut [u8]) {
        let n = buffer.len();
        let mut off: usize = 0;
        while off < n
            invariant
                n == old(buffer)@.len(),
                buffer@.len() == n,
                off <= n,
                forall|i: int|
                    0 <= i < off ==> #[trigger] buffer@[i] == byte_at(
                        self@,
                        address_after(address, i),
                    ),
            decreases n - off,
        {
            let a = address.wrapping_add(off as u64);
            let byte = match self.space.get(&a) {
                Some(b) => *b,
                None => 0,
            };
            buffer[off] = byte;
            off += 1;
        }
    }
}

/// The type of a program header that describes a loadable segment.
pub const PT_LOAD: u32 = 1;

/// A program header of an executable: where one of its segments lies in the
/// file and where it belongs in memory.
#[derive(Clone, Copy, Debug)]
pub struct ProgramHeader {
    pub p_type: u32,
    pub p_flags: u32,
    pub p_offset: u64,
    pub p_vaddr: u64,
    pub p_paddr: u64,
    pub p_filesz: u64,
    pub p_memsz: u64,
    pub p_align: u64,
}

/// The byte that the segment of `header` puts at `address`, where it puts
/// one there: a loadable segment holds the bytes of the file `data` from
/// `p_offset` on, `p_filesz` of them as far as the file has them, and puts
/// them at `p_vaddr` and upwards.
pub open spec fn segment_byte(header: ProgramHeader, data: Seq<u8>, address: u64) -> Option<u8> {
    let within = address - header.p_vaddr;
    if header.p_type == PT_LOAD && 0 <= within < header.p_filesz && header.p_offset + within
        < data.len() {
        Some(data[header.p_offset + within])
    } else {
        None
    }
}

/// The memory that the segments of `headers` make of the file `data`: where
/// two of them put a byte at one address, the later one's stands.
pub open spec fn overlay(headers: Seq<ProgramHeader>, data: Seq<u8>) -> Map<u64, u8>
    decreases headers.len(),
{
    if headers.len() == 0 {
        Map::empty()
    } else {
        let below = overlay(headers.drop_last(), data);
        Map::new(
            |a: u64| segment_byte(headers.last(), data, a) is Some || below.contains_key(a),
            |a: u64|
                match segment_byte(headers.last(), data, a) {
                    Some(byte) => byte,
                    None => below[a],
                },
        )
    }
}

/// Headers whose segments put nothing at an address leave it as the
/// headers before them have it.
proof fn lemma_overlay_skips(headers: Seq<ProgramHeader>, data: Seq<u8>, address: u64, from: int)
    requires
        0 <= from <= headers.len(),
        forall|j: int|
            from <= j < headers.len() ==> segment_byte(headers[j], data, address) is None,
    ensures
        byte_at(overlay(headers, data), address) == byte_at(
            overlay(headers.take(from), data),
            address,
        ),
    decreases headers.len() - from,
{
    if from == headers.len() {
        assert(headers.take(from) =~= headers);
    } else {
        lemma_overlay_skips(headers.drop_last(), data, address, from);
        assert(headers.drop_last().take(from) =~= headers.take(from));
    }
}

/// The program headers that goblin reads out of the ELF file `data`, in the
/// file's order; `None` where it does not take `data` for an ELF file.
pub uninterp spec fn elf_program_headers(data: Seq<u8>) -> Option<Seq<ProgramHeader>>;

/// Parses `data` with goblin's `Elf::parse` and copies the fields of each
/// entry of `program_headers` out.
///
/// Trusted: the outcome is the one that `elf_program_headers` names, so it
/// depends on `data` alone (goblin reads offsets into `usize`, so this is
/// said for one width of it); a file that goblin rejects, for whatever
/// reason, gives `None`.
#[verifier::external_body]
fn parse_program_headers(data: &[u8]) -> (headers: Option<Vec<ProgramHeader>>)
    ensures
        match headers {
            Some(found) => elf_program_headers(data@) == Some(found@),
            None => elf_program_headers(data@) is None,
        },
{
    let binary = goblin::elf::Elf::parse(data).ok()?;
    let copy = |h: &goblin::elf::ProgramHeader| ProgramHeader {
        p_type: h.p_type,
        p_flags: h.p_flags,
        p_offset: h.p_offset,
        p_vaddr: h.p_vaddr,
        p_paddr: h.p_paddr,
        p_filesz: h.p_filesz,
        p_memsz: h.p_memsz,
        p_align: h.p_align,
    };
    Some(binary.program_headers.iter().map(copy).collect())
}

/// The memory that an ELF file describes: its loadable segments, each at
/// its virtual address.
pub struct ElfAddressSpace {
    data: Vec<u8>,
    programheaders: Vec<ProgramHeader>,
}

impl ElfAddressSpace {
    /// The bytes of the file.
    pub closed spec fn data(&self) -> Seq<u8> {
        self.data@
    }

    /// The program headers of the file.
    pub closed spec fn headers(&self) -> Seq<ProgramHeader> {
        self.programheaders@
    }
}

impl View for ElfAddressSpace {
    type V = Map<u64, u8>;

    open spec fn view(&self) -> Map<u64, u8> {
        overlay(self.headers(), self.data())
    }
}

impl ElfAddressSpace {
    /// The address space of the file `data` whose program headers are
    /// `programheaders`.
    pub fn from_headers(data: Vec<u8>, programheaders: Vec<ProgramHeader>) -> (space: Self)
        ensures
            space.data() == data@,
            space.headers() == programheaders@,
    {
        ElfAddressSpace { data, programheaders }
    }

    /// The address space of the ELF file `data`; `None` where `data` is no
    /// ELF file.
    pub fn load(data: Vec<u8>) -> (loaded: Option<Self>)
        ensures
            match loaded {
                Some(space) => space.data() == data@ && elf_program_headers(data@) == Some(
                    space.headers(),
                ),
                None => elf_program_headers(data@) is None,
            },
    {
        match parse_program_headers(data.as_slice()) {
            Some(programheaders) => Some(ElfAddressSpace::from_headers(data, programheaders)),
            None => None,
        }
    }

    /// The address space of the ELF file `data`, and one without segments
    /// where `data` is no ELF file.
    pub fn load_or_empty(data: Vec<u8>) -> (space: Self)
        ensures
            space.data() == data@,
            space.headers() == (match elf_program_headers(data@) {
                Some(headers) => headers,
                None => Seq::empty(),
            }),
    {
        match parse_program_headers(data.as_slice()) {
            Some(programheaders) => ElfAddressSpace::from_headers(data, programheaders),
            None => ElfAddressSpace::from_headers(data, Vec::new()),
        }
    }

    /// How many program headers the file has.
    pub fn header_count(&self) -> (count: usize)
        ensures
            count == self.headers().len(),
    {
        self.programheaders.len()
    }

    /// The byte that the segment of `header` puts at `address`.
    fn segment_lookup(&self, header: &ProgramHeader, address: u64) -> (found: Option<u8>)
        ensures
            found == segment_byte(*header, self.data(), address),
    {
        if header.p_type != PT_LOAD || address < header.p_vaddr {
            return None;
        }
        let within = address - header.p_vaddr;
        if within >= header.p_filesz {
            return None;
        }
        let size = self.data.len() as u64;
        if header.p_offset < size && within < size - header.p_offset {
            let index = header.p_offset + within;
            Some(self.data[index as usize])
        } else {
            None
        }
    }

    /// The byte at `address`.
    fn byte(&self, address: u64) -> (byte: u8)
        ensures
            byte == byte_at(self@, address),
    {
        let mut i = self.programheaders.len();
        while i > 0
            invariant
                i <= self.headers().len(),
                self.headers() == self.programheaders@,
                forall|j: int|
                    i <= j < self.headers().len() ==> segment_byte(
                        self.headers()[j],
                        self.data(),
                        address,
                    ) is None,
            decreases i,
        {
            i -= 1;
            match self.segment_lookup(&self.programheaders[i], address) {
                Some(byte) => {
                    proof {
                        lemma_overlay_skips(self.headers(), self.data(), address, i + 1);
                        assert(self.headers().take(i + 1).last() == self.headers()[i as int]);
                    }
                    return byte;
                },
                None => {},
            }
        }
        proof {
            lemma_overlay_skips(self.headers(), self.data(), address, 0);
        }
        0
    }
}

impl AddressSpace for ElfAddressSpace {
    fn read(&self, address: u64, buffer: &mut [u8]) {
        let n = buffer.len();
        let mut off: usize = 0;
        while off < n
            invariant
                n == old(buffer)@.len(),
                buffer@.len() == n,
                off <= n,
                forall|i: int|
                    0 <= i < off ==> #[trigger] buffer@[i] == byte_at(
                        self@,
                        address_after(address, i),
                    ),
            decreases n - off,
        {
            buffer[off] = self.byte(address.wrapping_add(off as u64));
            off += 1;
        }
    }
}

} // verus!
