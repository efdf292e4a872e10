use vstd::prelude::*;

verus! {

/// Little-endian 16-bit value of the two bytes at `off`.
pub open spec fn le_u16(s: Seq<u8>, off: int) -> nat {
    s[off] as nat + 256 * (s[off + 1] as nat)
}

/// Little-endian 32-bit value of the four bytes at `off`.
pub open spec fn le_u32(s: Seq<u8>, off: int) -> nat {
    le_u16(s, off) + 0x1_0000 * le_u16(s, off + 2)
}

/// Little-endian 64-bit value of the eight bytes at `off`.
pub open spec fn le_u64(s: Seq<u8>, off: int) -> nat {
    le_u32(s, off) + 0x1_0000_0000 * le_u32(s, off + 4)
}

/// Little-endian values of bytes fit their widths.
pub proof fn lemma_le_bounds(s: Seq<u8>, off: int)
    ensures
        le_u16(s, off) < 0x1_0000,
        le_u32(s, off) < 0x1_0000_0000,
        le_u64(s, off) < 0x1_0000_0000_0000_0000,
{
    let a = s[off] as nat;
    let b = s[off + 1] as nat;
    let c = le_u16(s, off + 2);
    let d = s[off + 2] as nat;
    let e = s[off + 3] as nat;
    assert(le_u16(s, off) < 0x1_0000) by (nonlinear_arith)
        requires a < 256, b < 256, le_u16(s, off) == a + 256 * b;
    assert(c < 0x1_0000) by (nonlinear_arith)
        requires d < 256, e < 256, c == d + 256 * e;
    assert(le_u32(s, off) < 0x1_0000_0000) by (nonlinear_arith)
        requires le_u16(s, off) < 0x1_0000, c < 0x1_0000, le_u32(s, off) == le_u16(s, off) + 0x1_0000 * c;
    let f = le_u16(s, off + 4);
    let g = le_u16(s, off + 6);
    let h = s[off + 4] as nat;
    let i = s[off + 5] as nat;
    let j = s[off + 6] as nat;
    let k = s[off + 7] as nat;
    assert(f < 0x1_0000) by (nonlinear_arith)
        requires h < 256, i < 256, f == h + 256 * i;
    assert(g < 0x1_0000) by (nonlinear_arith)
        requires j < 256, k < 256, g == j + 256 * k;
    let hi = le_u32(s, off + 4);
    assert(hi < 0x1_0000_0000) by (nonlinear_arith)
        requires f < 0x1_0000, g < 0x1_0000, hi == f + 0x1_0000 * g;
    assert(le_u64(s, off) < 0x1_0000_0000_0000_0000) by (nonlinear_arith)
        requires le_u32(s, off) < 0x1_0000_0000, hi < 0x1_0000_0000, le_u64(s, off) == le_u32(s, off) + 0x1_0000_0000 * hi;
}

/// Reads the little-endian 16-bit value at `off`.
pub fn read_u16(bytes: &[u8], off: usize) -> (v: u16)
    requires
        off + 2 <= bytes.len(),
    ensures
        v == le_u16(bytes@, off as int),
{
    let b0 = bytes[off] as u16;
    let b1 = bytes[off + 1] as u16;
    assert(b0 | (b1 << 8u16) == b0 + 256 * b1) by (bit_vector)
        requires
            b0 < 256,
            b1 < 256,
    ;
    b0 | (b1 << 8u16)
}

/// Reads the little-endian 32-bit value at `off`.
pub fn read_u32(bytes: &[u8], off: usize) -> (v: u32)
    requires
        off + 4 <= bytes.len(),
    ensures
        v == le_u32(bytes@, off as int),
{
    let lo = read_u16(bytes, off) as u32;
    let hi = read_u16(bytes, off + 2) as u32;
    assert(lo | (hi << 16u32) == lo + 0x1_0000 * hi) by (bit_vector)
        requires
            lo < 0x1_0000,
            hi < 0x1_0000,
    ;
    lo | (hi << 16u32)
}

/// Reads the little-endian 64-bit value at `off`.
pub fn read_u64(bytes: &[u8], off: usize) -> (v: u64)
    requires
        off + 8 <= bytes.len(),
    ensures
        v == le_u64(bytes@, off as int),
{
    let lo = read_u32(bytes, off) as u64;
    let hi = read_u32(bytes, off + 4) as u64;
    assert(lo | (hi << 32u64) == lo + 0x1_0000_0000 * hi) by (bit_vector)
        requires
            lo < 0x1_0000_0000,
            hi < 0x1_0000_0000,
    ;
    lo | (hi << 32u64)
}

/// Bytes of a 64-bit ELF file header.
pub const ELF64_HEADER_SIZE: usize = 64;

/// Bytes of a 64-bit program header.
pub const ELF64_PHDR_SIZE: usize = 56;

/// Bytes of a 64-bit dynamic entry.
pub const ELF64_DYN_SIZE: usize = 16;

/// Bytes of a 64-bit relocation with addend.
pub const ELF64_RELA_SIZE: usize = 24;

/// The file header of a 64-bit ELF file.
#[derive(Clone, Copy)]
pub struct Elf64Header {
    pub e_ident: [u8; 16],
    pub e_type: u16,
    pub e_machine: u16,
    pub e_version: u32,
    pub e_entry: u64,
    pub e_phoff: u64,
    pub e_shoff: u64,
    pub e_flags: u32,
    pub e_ehsize: u16,
    pub e_phentsize: u16,
    pub e_phnum: u16,
    pub e_shentsize: u16,
    pub e_shnum: u16,
    pub e_shstrndx: u16,
}

/// A program header of a 64-bit ELF file.
#[derive(Clone, Copy)]
pub struct Elf64Phdr {
    pub p_type: u32,
    pub p_flags: u32,
    pub p_offset: u64,
    pub p_vaddr: u64,
    pub p_paddr: u64,
    pub p_filesz: u64,
    pub p_memsz: u64,
    pub p_align: u64,
}

/// An entry of the dynamic section of a 64-bit ELF file.
#[derive(Clone, Copy)]
pub struct Elf64Dyn {
    pub d_tag: i64,
    pub d_val: u64,
}

/// A relocation with addend of a 64-bit ELF file.
#[derive(Clone, Copy)]
pub struct Elf64Rela {
    pub r_offset: u64,
    pub r_info: u64,
    pub r_addend: i64,
}

/// The file header of a 32-bit ELF file.
#[derive(Clone, Copy)]
pub struct Elf32Header {
    pub e_ident: [u8; 16],
    pub e_type: u16,
    pub e_machine: u16,
    pub e_version: u32,
    pub e_entry: u32,
    pub e_phoff: u32,
    pub e_shoff: u32,
    pub e_flags: u32,
    pub e_ehsize: u16,
    pub e_phentsize: u16,
    pub e_phnum: u16,
    pub e_shentsize: u16,
    pub e_shnum: u16,
    pub e_shstrndx: u16,
}

/// A program header of a 32-bit ELF file.
#[derive(Clone, Copy)]
pub struct Elf32Phdr {
    pub p_type: u32,
    pub p_offset: u32,
    pub p_vaddr: u32,
    pub p_paddr: u32,
    pub p_filesz: u32,
    pub p_memsz: u32,
    pub p_flags: u32,
    pub p_align: u32,
}

/// An entry of the dynamic section of a 32-bit ELF file.
#[derive(Clone, Copy)]
pub struct Elf32Dyn {
    pub d_tag: i32,
    pub d_val: u32,
}

/// A relocation without addend of a 32-bit ELF file.
#[derive(Clone, Copy)]
pub struct Elf32Rel {
    pub r_offset: u32,
    pub r_info: u32,
}

/// Copies the 16 bytes at `off`.
fn read_ident(bytes: &[u8], off: usize) -> (ident: [u8; 16])
    requires
        off + 16 <= bytes.len(),
    ensures
        ident@ == bytes@.subrange(off as int, off + 16),
{
    let mut ident = [0u8; 16];
    let mut i: usize = 0;
    while i < 16
        invariant
            off + 16 <= bytes.len(),
            i <= 16,
            ident@.len() == 16,
            forall|j: int| 0 <= j < i ==> ident@[j] == bytes@[off + j],
        decreases 16 - i,
    {
        ident[i] = bytes[off + i];
        i = i + 1;
    }
    assert(ident@ =~= bytes@.subrange(off as int, off + 16));
    ident
}

impl Elf64Header {
    /// Whether `h` is what the 64 bytes at `off` of `s` hold.
    pub open spec fn read_from(h: Elf64Header, s: Seq<u8>, off: int) -> bool {
        &&& h.e_ident@ == s.subrange(off, off + 16)
        &&& h.e_type == le_u16(s, off + 16)
        &&& h.e_machine == le_u16(s, off + 18)
        &&& h.e_version == le_u32(s, off + 20)
        &&& h.e_entry == le_u64(s, off + 24)
        &&& h.e_phoff == le_u64(s, off + 32)
        &&& h.e_shoff == le_u64(s, off + 40)
        &&& h.e_flags == le_u32(s, off + 48)
        &&& h.e_ehsize == le_u16(s, off + 52)
        &&& h.e_phentsize == le_u16(s, off + 54)
        &&& h.e_phnum == le_u16(s, off + 56)
        &&& h.e_shentsize == le_u16(s, off + 58)
        &&& h.e_shnum == le_u16(s, off + 60)
        &&& h.e_shstrndx == le_u16(s, off + 62)
    }

    /// Reads the header in the 64 bytes at `off`.
    pub fn read(bytes: &[u8], off: usize) -> (h: Elf64Header)
        requires
            off + ELF64_HEADER_SIZE <= bytes.len(),
        ensures
            Self::read_from(h, bytes@, off as int),
    {
        Elf64Header {
            e_ident: read_ident(bytes, off),
            e_type: read_u16(bytes, off + 16),
            e_machine: read_u16(bytes, off + 18),
            e_version: read_u32(bytes, off + 20),
            e_entry: read_u64(bytes, off + 24),
            e_phoff: read_u64(bytes, off + 32),
            e_shoff: read_u64(bytes, off + 40),
            e_flags: read_u32(bytes, off + 48),
            e_ehsize: read_u16(bytes, off + 52),
            e_phentsize: read_u16(bytes, off + 54),
            e_phnum: read_u16(bytes, off + 56),
            e_shentsize: read_u16(bytes, off + 58),
            e_shnum: read_u16(bytes, off + 60),
            e_shstrndx: read_u16(bytes, off + 62),
        }
    }
}

impl Elf64Phdr {
    /// The program header in the 56 bytes at `off`.
    pub open spec fn spec_read(s: Seq<u8>, off: int) -> Elf64Phdr {
        Elf64Phdr {
            p_type: le_u32(s, off) as u32,
            p_flags: le_u32(s, off + 4) as u32,
            p_offset: le_u64(s, off + 8) as u64,
            p_vaddr: le_u64(s, off + 16) as u64,
            p_paddr: le_u64(s, off + 24) as u64,
            p_filesz: le_u64(s, off + 32) as u64,
            p_memsz: le_u64(s, off + 40) as u64,
            p_align: le_u64(s, off + 48) as u64,
        }
    }

    /// A 64-bit program header lays out its fields in this order: type and
    /// flags in four bytes each, then offset, virtual address, physical
    /// address, file size, memory size and alignment in eight bytes each,
    /// all little-endian.
    pub proof fn lemma_layout(s: Seq<u8>, off: int)
        ensures
            Self::spec_read(s, off).p_type == le_u32(s, off),
            Self::spec_read(s, off).p_flags == le_u32(s, off + 4),
            Self::spec_read(s, off).p_offset == le_u64(s, off + 8),
            Self::spec_read(s, off).p_vaddr == le_u64(s, off + 16),
            Self::spec_read(s, off).p_paddr == le_u64(s, off + 24),
            Self::spec_read(s, off).p_filesz == le_u64(s, off + 32),
            Self::spec_read(s, off).p_memsz == le_u64(s, off + 40),
            Self::spec_read(s, off).p_align == le_u64(s, off + 48),
    {
        lemma_le_bounds(s, off);
        lemma_le_bounds(s, off + 4);
        lemma_le_bounds(s, off + 8);
        lemma_le_bounds(s, off + 16);
        lemma_le_bounds(s, off + 24);
        lemma_le_bounds(s, off + 32);
        lemma_le_bounds(s, off + 40);
        lemma_le_bounds(s, off + 48);
    }

    /// Reads the program header in the 56 bytes at `off`.
    pub fn read(bytes: &[u8], off: usize) -> (p: Elf64Phdr)
        requires
            off + ELF64_PHDR_SIZE <= bytes.len(),
        ensures
            p == Self::spec_read(bytes@, off as int),
            p.p_type == le_u32(bytes@, off as int),
            p.p_flags == le_u32(bytes@, off + 4),
            p.p_offset == le_u64(bytes@, off + 8),
            p.p_vaddr == le_u64(bytes@, off + 16),
            p.p_paddr == le_u64(bytes@, off + 24),
            p.p_filesz == le_u64(bytes@, off + 32),
            p.p_memsz == le_u64(bytes@, off + 40),
            p.p_align == le_u64(bytes@, off + 48),
    {
        Elf64Phdr {
            p_type: read_u32(bytes, off),
            p_flags: read_u32(bytes, off + 4),
            p_offset: read_u64(bytes, off + 8),
            p_vaddr: read_u64(bytes, off + 16),
            p_paddr: read_u64(bytes, off + 24),
            p_filesz: read_u64(bytes, off + 32),
            p_memsz: read_u64(bytes, off + 40),
            p_align: read_u64(bytes, off + 48),
        }
    }
}

impl Elf64Dyn {
    /// The dynamic entry in the 16 bytes at `off`.
    pub open spec fn spec_read(s: Seq<u8>, off: int) -> Elf64Dyn {
        Elf64Dyn { d_tag: le_u64(s, off) as u64 as i64, d_val: le_u64(s, off + 8) as u64 }
    }

    /// A 64-bit dynamic entry is its tag, then its value, in eight
    /// little-endian bytes each; the tag is read as a signed number.
    pub proof fn lemma_layout(s: Seq<u8>, off: int)
        ensures
            Self::spec_read(s, off).d_tag as u64 == le_u64(s, off),
            Self::spec_read(s, off).d_val == le_u64(s, off + 8),
    {
        lemma_le_bounds(s, off);
        lemma_le_bounds(s, off + 8);
        let v = le_u64(s, off) as u64;
        assert(v as i64 as u64 == v) by (bit_vector);
    }

    /// Reads the dynamic entry in the 16 bytes at `off`.
    pub fn read(bytes: &[u8], off: usize) -> (d: Elf64Dyn)
        requires
            off + ELF64_DYN_SIZE <= bytes.len(),
        ensures
            d == Self::spec_read(bytes@, off as int),
            d.d_tag as u64 == le_u64(bytes@, off as int),
            d.d_val == le_u64(bytes@, off + 8),
    {
        proof {
            Self::lemma_layout(bytes@, off as int);
        }
        Elf64Dyn { d_tag: read_u64(bytes, off) as i64, d_val: read_u64(bytes, off + 8) }
    }
}

impl Elf64Rela {
    /// The relocation in the 24 bytes at `off`.
    pub open spec fn spec_read(s: Seq<u8>, off: int) -> Elf64Rela {
        Elf64Rela {
            r_offset: le_u64(s, off) as u64,
            r_info: le_u64(s, off + 8) as u64,
            r_addend: le_u64(s, off + 16) as u64 as i64,
        }
    }

    /// A 64-bit relocation is its offset, its info word and its addend, in
    /// eight little-endian bytes each; the addend is read as a signed number.
    pub proof fn lemma_layout(s: Seq<u8>, off: int)
        ensures
            Self::spec_read(s, off).r_offset == le_u64(s, off),
            Self::spec_read(s, off).r_info == le_u64(s, off + 8),
            Self::spec_read(s, off).r_addend as u64 == le_u64(s, off + 16),
    {
        lemma_le_bounds(s, off);
        lemma_le_bounds(s, off + 8);
        lemma_le_bounds(s, off + 16);
        let v = le_u64(s, off + 16) as u64;
        assert(v as i64 as u64 == v) by (bit_vector);
    }

    /// Reads the relocation in the 24 bytes at `off`.
    pub fn read(bytes: &[u8], off: usize) -> (r: Elf64Rela)
        requires
            off + ELF64_RELA_SIZE <= bytes.len(),
        ensures
            r == Self::spec_read(bytes@, off as int),
            r.r_offset == le_u64(bytes@, off as int),
            r.r_info == le_u64(bytes@, off + 8),
            r.r_addend as u64 == le_u64(bytes@, off + 16),
    {
        proof {
            Self::lemma_layout(bytes@, off as int);
        }
        Elf64Rela {
            r_offset: read_u64(bytes, off),
            r_info: read_u64(bytes, off + 8),
            r_addend: read_u64(bytes, off + 16) as i64,
        }
    }

    /// The relocation type: the low 32 bits of `r_info`.
    pub fn r_type(&self) -> (t: u32)
        ensures
            t == self.r_info % 0x1_0000_0000,
    {
        let info = self.r_info;
        let t = (info & 0xffffffff) as u32;
        assert(t == info % 0x1_0000_0000) by (bit_vector)
            requires t == (info & 0xffffffff) as u32;
        t
    }
}

/// Bytes of a 32-bit ELF file header.
pub const ELF32_HEADER_SIZE: usize = 52;

/// Bytes of a 32-bit program header.
pub const ELF32_PHDR_SIZE: usize = 32;

/// Bytes of a 32-bit dynamic entry.
pub const ELF32_DYN_SIZE: usize = 8;

/// Bytes of a 32-bit relocation.
pub const ELF32_REL_SIZE: usize = 8;

impl Elf32Header {
    /// Whether `h` is what the 52 bytes at `off` of `s` hold.
    pub open spec fn read_from(h: Elf32Header, s: Seq<u8>, off: int) -> bool {
        &&& h.e_ident@ == s.subrange(off, off + 16)
        &&& h.e_type == le_u16(s, off + 16)
        &&& h.e_machine == le_u16(s, off + 18)
        &&& h.e_version == le_u32(s, off + 20)
        &&& h.e_entry == le_u32(s, off + 24)
        &&& h.e_phoff == le_u32(s, off + 28)
        &&& h.e_shoff == le_u32(s, off + 32)
        &&& h.e_flags == le_u32(s, off + 36)
        &&& h.e_ehsize == le_u16(s, off + 40)
        &&& h.e_phentsize == le_u16(s, off + 42)
        &&& h.e_phnum == le_u16(s, off + 44)
        &&& h.e_shentsize == le_u16(s, off + 46)
        &&& h.e_shnum == le_u16(s, off + 48)
        &&& h.e_shstrndx == le_u16(s, off + 50)
    }

    /// Reads the header in the 52 bytes at `off`.
    pub fn read(bytes: &[u8], off: usize) -> (h: Elf32Header)
        requires
            off + ELF32_HEADER_SIZE <= bytes.len(),
        ensures
            Self::read_from(h, bytes@, off as int),
    {
        Elf32Header {
            e_ident: read_ident(bytes, off),
            e_type: read_u16(bytes, off + 16),
            e_machine: read_u16(bytes, off + 18),
            e_version: read_u32(bytes, off + 20),
            e_entry: read_u32(bytes, off + 24),
            e_phoff: read_u32(bytes, off + 28),
            e_shoff: read_u32(bytes, off + 32),
            e_flags: read_u32(bytes, off + 36),
            e_ehsize: read_u16(bytes, off + 40),
            e_phentsize: read_u16(bytes, off + 42),
            e_phnum: read_u16(bytes, off + 44),
            e_shentsize: read_u16(bytes, off + 46),
            e_shnum: read_u16(bytes, off + 48),
            e_shstrndx: read_u16(bytes, off + 50),
        }
    }
}

impl Elf32Phdr {
    /// Reads the program header in the 32 bytes at `off`.
    pub fn read(bytes: &[u8], off: usize) -> (p: Elf32Phdr)
        requires
            off + ELF32_PHDR_SIZE <= bytes.len(),
        ensures
            p.p_type == le_u32(bytes@, off as int),
            p.p_offset == le_u32(bytes@, off + 4),
            p.p_vaddr == le_u32(bytes@, off + 8),
            p.p_paddr == le_u32(bytes@, off + 12),
            p.p_filesz == le_u32(bytes@, off + 16),
            p.p_memsz == le_u32(bytes@, off + 20),
            p.p_flags == le_u32(bytes@, off + 24),
            p.p_align == le_u32(bytes@, off + 28),
    {
        Elf32Phdr {
            p_type: read_u32(bytes, off),
            p_offset: read_u32(bytes, off + 4),
            p_vaddr: read_u32(bytes, off + 8),
            p_paddr: read_u32(bytes, off + 12),
            p_filesz: read_u32(bytes, off + 16),
            p_memsz: read_u32(bytes, off + 20),
            p_flags: read_u32(bytes, off + 24),
            p_align: read_u32(bytes, off + 28),
        }
    }
}

impl Elf32Dyn {
    /// Reads the dynamic entry in the 8 bytes at `off`.
    pub fn read(bytes: &[u8], off: usize) -> (d: Elf32Dyn)
        requires
            off + ELF32_DYN_SIZE <= bytes.len(),
        ensures
            d.d_tag == le_u32(bytes@, off as int) as u32 as i32,
            d.d_val == le_u32(bytes@, off + 4),
    {
        Elf32Dyn { d_tag: read_u32(bytes, off) as i32, d_val: read_u32(bytes, off + 4) }
    }
}

impl Elf32Rel {
    /// Reads the relocation in the 8 bytes at `off`.
    pub fn read(bytes: &[u8], off: usize) -> (r: Elf32Rel)
        requires
            off + ELF32_REL_SIZE <= bytes.len(),
        ensures
            r.r_offset == le_u32(bytes@, off as int),
            r.r_info == le_u32(bytes@, off + 4),
    {
        Elf32Rel { r_offset: read_u32(bytes, off), r_info: read_u32(bytes, off + 4) }
    }
}

} // verus!
