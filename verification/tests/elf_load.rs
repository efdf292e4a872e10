use kernel::elf::arch::ElfArch;
use kernel::elf::{can_load, load_elf, ElfError, DT_RELA, DT_RELASZ, PT_DYNAMIC, PT_LOAD};
use std::cell::RefCell;

const HEADER_SIZE: usize = 64;
const PHDR_SIZE: usize = 56;
const DYN_SIZE: usize = 16;
const RELA_SIZE: usize = 24;

struct MockElfArch {
    calls: RefCell<Vec<(usize, usize, u64, i64)>>,
}

impl MockElfArch {
    fn new() -> Self {
        Self { calls: RefCell::new(Vec::new()) }
    }

    fn calls(&self) -> Vec<(usize, usize, u64, i64)> {
        self.calls.borrow().clone()
    }
}

impl ElfArch for MockElfArch {
    fn relocated(&self, base: usize, offset: usize, info: u64, addend: i64) -> bool {
        self.calls.borrow().contains(&(base, offset, info, addend))
    }

    fn apply_relocation(&self, base: usize, offset: usize, info: u64, addend: i64) {
        self.calls.borrow_mut().push((base, offset, info, addend));
    }
}

fn put(buf: &mut [u8], at: usize, bytes: &[u8]) {
    buf[at..at + bytes.len()].copy_from_slice(bytes);
}

fn write_header(buf: &mut [u8], entry: u64, phoff: u64, phnum: u16) {
    put(buf, 0, &[0x7f, b'E', b'L', b'F']);
    put(buf, 16, &2u16.to_le_bytes());
    put(buf, 18, &0x3Eu16.to_le_bytes());
    put(buf, 20, &1u32.to_le_bytes());
    put(buf, 24, &entry.to_le_bytes());
    put(buf, 32, &phoff.to_le_bytes());
    put(buf, 52, &(HEADER_SIZE as u16).to_le_bytes());
    put(buf, 54, &(PHDR_SIZE as u16).to_le_bytes());
    put(buf, 56, &phnum.to_le_bytes());
}

fn write_phdr(buf: &mut [u8], at: usize, p_type: u32, offset: u64, vaddr: u64, filesz: u64, memsz: u64) {
    put(buf, at, &p_type.to_le_bytes());
    put(buf, at + 4, &5u32.to_le_bytes());
    put(buf, at + 8, &offset.to_le_bytes());
    put(buf, at + 16, &vaddr.to_le_bytes());
    put(buf, at + 24, &vaddr.to_le_bytes());
    put(buf, at + 32, &filesz.to_le_bytes());
    put(buf, at + 40, &memsz.to_le_bytes());
    put(buf, at + 48, &1u64.to_le_bytes());
}

fn write_dyn(buf: &mut [u8], at: usize, tag: i64, val: u64) {
    put(buf, at, &tag.to_le_bytes());
    put(buf, at + 8, &val.to_le_bytes());
}

fn build_minimal_elf(entry_vaddr: u64) -> Vec<u8> {
    let total = HEADER_SIZE + PHDR_SIZE + 64;
    let mut buf = vec![0u8; total];
    write_header(&mut buf, entry_vaddr, HEADER_SIZE as u64, 1);
    write_phdr(&mut buf, HEADER_SIZE, PT_LOAD, 0, 0, total as u64, total as u64);
    buf
}

fn build_elf_with_rela(r_offset: u64, r_info: u64, r_addend: i64) -> Vec<u8> {
    let load_phdr_at = HEADER_SIZE;
    let dyn_phdr_at = load_phdr_at + PHDR_SIZE;
    let dyn_data_at = dyn_phdr_at + PHDR_SIZE;
    let rela_data_at = dyn_data_at + 3 * DYN_SIZE;
    let total = rela_data_at + RELA_SIZE;
    let mut buf = vec![0u8; total];
    write_header(&mut buf, 0, load_phdr_at as u64, 2);
    write_phdr(&mut buf, load_phdr_at, PT_LOAD, 0, 0, total as u64, total as u64);
    let dyn_len = (3 * DYN_SIZE + RELA_SIZE) as u64;
    write_phdr(&mut buf, dyn_phdr_at, PT_DYNAMIC, dyn_data_at as u64, dyn_data_at as u64, dyn_len, dyn_len);
    write_dyn(&mut buf, dyn_data_at, DT_RELA, rela_data_at as u64);
    write_dyn(&mut buf, dyn_data_at + DYN_SIZE, DT_RELASZ, RELA_SIZE as u64);
    write_dyn(&mut buf, dyn_data_at + 2 * DYN_SIZE, 0, 0);
    put(&mut buf, rela_data_at, &r_offset.to_le_bytes());
    put(&mut buf, rela_data_at + 8, &r_info.to_le_bytes());
    put(&mut buf, rela_data_at + 16, &r_addend.to_le_bytes());
    buf
}

#[test]
fn rejects_too_small() {
    assert!(matches!(load_elf(&[]), Err(ElfError::TooSmall)));
    assert!(matches!(load_elf(&[0u8; 10]), Err(ElfError::TooSmall)));
}

#[test]
fn rejects_invalid_magic() {
    let buf = vec![0u8; HEADER_SIZE];
    assert!(matches!(load_elf(&buf), Err(ElfError::InvalidMagic)));
}

#[test]
fn rejects_no_load_segments() {
    let mut buf = vec![0u8; HEADER_SIZE];
    write_header(&mut buf, 0, HEADER_SIZE as u64, 0);
    assert!(matches!(load_elf(&buf), Err(ElfError::NoLoadSegments)));
}

#[test]
fn computes_entry_point_from_base_and_e_entry() {
    let elf = build_minimal_elf(42);
    let image = load_elf(&elf).unwrap();
    let base = image.image.as_ptr() as usize;
    assert_eq!(image.entry(base), image.image.as_ptr() as usize + 42);
}

#[test]
fn delegates_all_rela_entries_to_elf_arch() {
    let mock = MockElfArch::new();
    let elf = build_elf_with_rela(0x10, 0xAB_0000_0008, 100);
    let image = load_elf(&elf).unwrap();
    let base = image.image.as_ptr() as usize;
    image.apply_relocations(base, &mock);

    let calls = mock.calls();
    assert_eq!(calls.len(), 1);
    let (call_base, offset, info, addend) = calls[0];
    assert_eq!(call_base, image.image.as_ptr() as usize);
    assert_eq!(offset, 0x10);
    assert_eq!(info, 0xAB_0000_0008);
    assert_eq!(addend, 100);
    let rela = image.relocations[0];
    assert!(mock.relocated(base, rela.r_offset as usize, rela.r_info, rela.r_addend));
    assert_eq!(image.relocation_table, 2 * PHDR_SIZE + HEADER_SIZE + 3 * DYN_SIZE);
}

#[test]
fn no_relocations_called_without_dynamic_segment() {
    let mock = MockElfArch::new();
    let elf = build_minimal_elf(0);
    let image = load_elf(&elf).unwrap();
    image.apply_relocations(image.image.as_ptr() as usize, &mock);
    assert!(mock.calls().is_empty());
}

#[test]
fn image_copies_file_part_and_zero_fills_the_rest() {
    let mut buf = vec![0u8; HEADER_SIZE + PHDR_SIZE + 8];
    write_header(&mut buf, 4, HEADER_SIZE as u64, 1);
    let data_at = HEADER_SIZE + PHDR_SIZE;
    put(&mut buf, data_at, &[1, 2, 3, 4, 5, 6, 7, 8]);
    // 8 bytes from the file at virtual address 0x10, 0x20 bytes in memory.
    write_phdr(&mut buf, HEADER_SIZE, PT_LOAD, data_at as u64, 0x10, 8, 0x20);
    let image = load_elf(&buf).unwrap();
    assert_eq!(image.image.len(), 0x30);
    assert!(image.image[..0x10].iter().all(|&b| b == 0));
    assert_eq!(&image.image[0x10..0x18], &[1, 2, 3, 4, 5, 6, 7, 8]);
    assert!(image.image[0x18..].iter().all(|&b| b == 0));
    assert_eq!(image.entry_offset, 4);
    assert!(image.relocations.is_empty());
}

#[test]
fn can_load_takes_files_that_load_elf_refuses_with_an_error() {
    assert!(can_load(&[0u8; 10]));
    assert!(can_load(&[0u8; HEADER_SIZE]));
}

#[test]
fn can_load_accepts_well_formed_files() {
    assert!(can_load(&build_minimal_elf(42)));
    assert!(can_load(&build_elf_with_rela(0x10, 8, 0x20)));
}

#[test]
fn can_load_refuses_program_headers_past_the_file() {
    let mut elf = build_minimal_elf(42);
    write_header(&mut elf, 42, 4096, 1);
    assert!(!can_load(&elf));
}

#[test]
fn can_load_refuses_segments_past_the_file() {
    let mut elf = build_minimal_elf(42);
    write_phdr(&mut elf, HEADER_SIZE, PT_LOAD, 0, 0, 1 << 20, 1 << 20);
    assert!(!can_load(&elf));
}
