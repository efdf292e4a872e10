use kernel::elf::structs::{Elf32Dyn, Elf32Header, Elf32Phdr, Elf32Rel, Elf64Rela};
use std::mem;

#[test]
fn elf32_header_has_correct_size() {
    assert_eq!(mem::size_of::<Elf32Header>(), 52);
}

#[test]
fn elf32_phdr_has_correct_size() {
    assert_eq!(mem::size_of::<Elf32Phdr>(), 32);
}

#[test]
fn elf32_dyn_has_correct_size() {
    assert_eq!(mem::size_of::<Elf32Dyn>(), 8);
}

#[test]
fn elf32_rel_has_correct_size() {
    assert_eq!(mem::size_of::<Elf32Rel>(), 8);
}

#[test]
fn elf32_header_fields_read_correctly_from_bytes() {
    let mut bytes = [0u8; 52];
    bytes[0..4].copy_from_slice(&[0x7f, b'E', b'L', b'F']);
    bytes[4] = 1;
    bytes[24..28].copy_from_slice(&0xDEAD_BEEFu32.to_le_bytes());
    bytes[28..32].copy_from_slice(&0x34u32.to_le_bytes());
    bytes[44..46].copy_from_slice(&1u16.to_le_bytes());

    let header = Elf32Header::read(&bytes, 0);
    assert_eq!(&header.e_ident[..4], &[0x7f, b'E', b'L', b'F']);
    assert_eq!(header.e_ident[4], 1);
    assert_eq!(header.e_entry, 0xDEAD_BEEF);
    assert_eq!(header.e_phoff, 0x34);
    assert_eq!(header.e_phnum, 1);
}

#[test]
fn elf32_phdr_fields_read_correctly_from_bytes() {
    let mut bytes = [0u8; 32];
    bytes[0..4].copy_from_slice(&1u32.to_le_bytes());
    bytes[4..8].copy_from_slice(&0x1000u32.to_le_bytes());
    bytes[8..12].copy_from_slice(&0x8000u32.to_le_bytes());
    bytes[16..20].copy_from_slice(&0x200u32.to_le_bytes());
    bytes[20..24].copy_from_slice(&0x400u32.to_le_bytes());

    let phdr = Elf32Phdr::read(&bytes, 0);
    assert_eq!(phdr.p_type, 1);
    assert_eq!(phdr.p_offset, 0x1000);
    assert_eq!(phdr.p_vaddr, 0x8000);
    assert_eq!(phdr.p_filesz, 0x200);
    assert_eq!(phdr.p_memsz, 0x400);
}

#[test]
fn elf32_rel_fields_read_correctly_from_bytes() {
    let mut bytes = [0u8; 8];
    bytes[0..4].copy_from_slice(&0x1234u32.to_le_bytes());
    bytes[4..8].copy_from_slice(&0x08u32.to_le_bytes());

    let rel = Elf32Rel::read(&bytes, 0);
    assert_eq!(rel.r_offset, 0x1234);
    assert_eq!(rel.r_info, 8);
}

#[test]
fn elf32_dyn_reads_signed_tag_at_offset() {
    let mut bytes = [0u8; 12];
    bytes[4..8].copy_from_slice(&(-2i32).to_le_bytes());
    bytes[8..12].copy_from_slice(&0x55u32.to_le_bytes());
    let d = Elf32Dyn::read(&bytes, 4);
    assert_eq!(d.d_tag, -2);
    assert_eq!(d.d_val, 0x55);
}

#[test]
fn elf64_rela_type_is_low_word_of_info() {
    let mut bytes = [0u8; 24];
    bytes[0..8].copy_from_slice(&0x2000u64.to_le_bytes());
    bytes[8..16].copy_from_slice(&((7u64 << 32) | 8).to_le_bytes());
    bytes[16..24].copy_from_slice(&(-16i64).to_le_bytes());
    let r = Elf64Rela::read(&bytes, 0);
    assert_eq!(r.r_offset, 0x2000);
    assert_eq!(r.r_type(), 8);
    assert_eq!(r.r_addend, -16);
}
