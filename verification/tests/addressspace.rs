use disasm_cfg::addressspace::{
    AddressSpace, BlobAddressSpace, ElfAddressSpace, ProgramHeader, PT_LOAD,
};

fn header(p_type: u32, p_offset: u64, p_vaddr: u64, p_filesz: u64) -> ProgramHeader {
    ProgramHeader {
        p_type,
        p_flags: 5,
        p_offset,
        p_vaddr,
        p_paddr: p_vaddr,
        p_filesz,
        p_memsz: p_filesz,
        p_align: 0x1000,
    }
}

/// A 64-bit little-endian ELF file with one loadable segment: the header,
/// one program header, and four bytes of content at offset 120.
fn small_elf() -> Vec<u8> {
    let mut file = vec![0x7f, b'E', b'L', b'F', 2, 1, 1, 0];
    file.extend_from_slice(&[0u8; 8]);
    file.extend_from_slice(&2u16.to_le_bytes());
    file.extend_from_slice(&62u16.to_le_bytes());
    file.extend_from_slice(&1u32.to_le_bytes());
    file.extend_from_slice(&0x40_0078u64.to_le_bytes());
    file.extend_from_slice(&64u64.to_le_bytes());
    file.extend_from_slice(&0u64.to_le_bytes());
    file.extend_from_slice(&0u32.to_le_bytes());
    file.extend_from_slice(&64u16.to_le_bytes());
    file.extend_from_slice(&56u16.to_le_bytes());
    file.extend_from_slice(&1u16.to_le_bytes());
    file.extend_from_slice(&64u16.to_le_bytes());
    file.extend_from_slice(&0u16.to_le_bytes());
    file.extend_from_slice(&0u16.to_le_bytes());
    assert_eq!(file.len(), 64);
    file.extend_from_slice(&1u32.to_le_bytes());
    file.extend_from_slice(&5u32.to_le_bytes());
    file.extend_from_slice(&120u64.to_le_bytes());
    file.extend_from_slice(&0x40_0078u64.to_le_bytes());
    file.extend_from_slice(&0x40_0078u64.to_le_bytes());
    file.extend_from_slice(&4u64.to_le_bytes());
    file.extend_from_slice(&4u64.to_le_bytes());
    file.extend_from_slice(&0x1000u64.to_le_bytes());
    assert_eq!(file.len(), 120);
    file.extend_from_slice(&[0x90, 0x90, 0x90, 0xc3]);
    file
}

#[test]
fn blob_reads_zero_where_nothing_was_written() {
    let space = BlobAddressSpace::default().load(0x1000, &[1, 2, 3]);
    let mut buffer = [0xffu8; 5];
    space.read(0x0fff, &mut buffer);
    assert_eq!(buffer, [0, 1, 2, 3, 0]);
}

#[test]
fn blob_read_of_nothing_changes_nothing() {
    let space = BlobAddressSpace::default().load(0, &[9]);
    let mut buffer: [u8; 0] = [];
    space.read(0, &mut buffer);
    assert_eq!(buffer.len(), 0);
}

#[test]
fn blob_later_write_stands() {
    let mut space = BlobAddressSpace::default();
    space.write_byte(7, 1);
    space.write_byte(7, 2);
    space.write_byte(8, 0);
    let mut buffer = [0xffu8; 3];
    space.read(6, &mut buffer);
    assert_eq!(buffer, [0, 2, 0]);
}

#[test]
fn blob_load_over_earlier_bytes() {
    let space = BlobAddressSpace::default().load(10, &[1, 1, 1, 1]).load(12, &[7, 8, 9]);
    let mut buffer = [0xffu8; 6];
    space.read(10, &mut buffer);
    assert_eq!(buffer, [1, 1, 7, 8, 9, 0]);
}

#[test]
fn blob_wraps_round_at_the_top() {
    let space = BlobAddressSpace::default().load(u64::MAX - 1, &[1, 2, 3, 4]);
    let mut top = [0u8; 2];
    space.read(u64::MAX - 1, &mut top);
    assert_eq!(top, [1, 2]);
    let mut bottom = [0xffu8; 3];
    space.read(0, &mut bottom);
    assert_eq!(bottom, [3, 4, 0]);
    let mut across = [0u8; 4];
    space.read(u64::MAX, &mut across);
    assert_eq!(across, [2, 3, 4, 0]);
}

#[test]
fn elf_segment_is_read_at_its_address() {
    let data = vec![10, 11, 12, 13, 14, 15, 16, 17];
    let space = ElfAddressSpace::from_headers(data, vec![header(PT_LOAD, 2, 0x4000, 4)]);
    assert_eq!(space.header_count(), 1);
    let mut buffer = [0xffu8; 6];
    space.read(0x3fff, &mut buffer);
    assert_eq!(buffer, [0, 12, 13, 14, 15, 0]);
}

#[test]
fn elf_later_segment_stands() {
    let data = vec![1, 2, 3, 4, 5, 6];
    let headers = vec![header(PT_LOAD, 0, 100, 4), header(PT_LOAD, 4, 102, 2)];
    let space = ElfAddressSpace::from_headers(data, headers);
    let mut buffer = [0xffu8; 5];
    space.read(100, &mut buffer);
    assert_eq!(buffer, [1, 2, 5, 6, 0]);
}

#[test]
fn elf_other_segments_are_not_loaded() {
    let data = vec![1, 2, 3, 4];
    let space = ElfAddressSpace::from_headers(data, vec![header(2, 0, 100, 4)]);
    let mut buffer = [0xffu8; 4];
    space.read(100, &mut buffer);
    assert_eq!(buffer, [0, 0, 0, 0]);
}

#[test]
fn elf_segment_ends_with_the_file() {
    let data = vec![1, 2, 3];
    let headers = vec![header(PT_LOAD, 1, 50, 10), header(PT_LOAD, u64::MAX, 60, 5)];
    let space = ElfAddressSpace::from_headers(data, headers);
    let mut buffer = [0xffu8; 4];
    space.read(50, &mut buffer);
    assert_eq!(buffer, [2, 3, 0, 0]);
    let mut far = [0xffu8; 2];
    space.read(60, &mut far);
    assert_eq!(far, [0, 0]);
}

#[test]
fn elf_segment_at_the_top_does_not_wrap() {
    let data = vec![1, 2, 3, 4];
    let space = ElfAddressSpace::from_headers(data, vec![header(PT_LOAD, 0, u64::MAX - 1, 4)]);
    let mut buffer = [0xffu8; 4];
    space.read(u64::MAX - 1, &mut buffer);
    assert_eq!(buffer, [1, 2, 0, 0]);
}

#[test]
fn elf_load_rejects_other_files() {
    assert!(ElfAddressSpace::load(vec![1, 2, 3, 4, 5, 6, 7, 8]).is_none());
    assert!(ElfAddressSpace::load(Vec::new()).is_none());
}

#[test]
fn elf_load_or_empty_has_no_segments_for_other_files() {
    let space = ElfAddressSpace::load_or_empty(vec![0x90, 0x90, 0xc3]);
    assert_eq!(space.header_count(), 0);
    let mut buffer = [0xffu8; 3];
    space.read(0, &mut buffer);
    assert_eq!(buffer, [0, 0, 0]);
}

#[test]
fn elf_load_reads_the_program_headers() {
    let space = ElfAddressSpace::load(small_elf()).expect("an ELF file");
    assert_eq!(space.header_count(), 1);
    let mut buffer = [0xffu8; 6];
    space.read(0x40_0077, &mut buffer);
    assert_eq!(buffer, [0, 0x90, 0x90, 0x90, 0xc3, 0]);
    let same = ElfAddressSpace::load_or_empty(small_elf());
    assert_eq!(same.header_count(), 1);
    let mut again = [0xffu8; 4];
    same.read(0x40_0078, &mut again);
    assert_eq!(again, [0x90, 0x90, 0x90, 0xc3]);
}
