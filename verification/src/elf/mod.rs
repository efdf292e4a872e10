pub mod arch;
pub mod structs;

use vstd::prelude::*;

use self::arch::ElfArch;

use self::structs::{
    le_u16, le_u64, Elf64Dyn, Elf64Header, Elf64Phdr, Elf64Rela, ELF64_DYN_SIZE, ELF64_HEADER_SIZE,
    ELF64_PHDR_SIZE, ELF64_RELA_SIZE,
};

verus! {

/// Type of a program header that is loaded into memory.
pub const PT_LOAD: u32 = 1;

/// Type of the program header of the dynamic section.
pub const PT_DYNAMIC: u32 = 2;

/// Dynamic tag of the address of the relocation table.
pub const DT_RELA: i64 = 7;

/// Dynamic tag of the size in bytes of the relocation table.
pub const DT_RELASZ: i64 = 8;

/// Why an ELF file cannot be loaded.
#[derive(Debug, PartialEq, Eq)]
pub enum ElfError {
    InvalidMagic,
    TooSmall,
    NoLoadSegments,
}

/// A loaded program: its memory image, where it starts within the image,
/// the relocations that the architecture has to apply to the image once the
/// image's address is known, and where their table lies in the image.
pub struct Image {
    pub image: Vec<u8>,
    pub entry_offset: u64,
    pub relocations: Vec<Elf64Rela>,
    pub relocation_table: usize,
}

impl Image {
    /// Whether the relocations are the entries of the table at
    /// `relocation_table` in the image.
    pub open spec fn wf(&self) -> bool {
        &&& self.relocation_table + 24 * self.relocations@.len() <= self.image@.len()
        &&& forall|i: int|
            0 <= i < self.relocations@.len() ==> #[trigger] self.relocations@[i] == Elf64Rela::spec_read(
                self.image@,
                self.relocation_table + 24 * i,
            )
    }

    /// The address of the entry point once the image lies at `base`.
    pub fn entry(&self, base: usize) -> (e: usize)
        requires
            base + self.entry_offset <= usize::MAX,
        ensures
            e == base + self.entry_offset,
    {
        base + self.entry_offset as usize
    }

    /// Hands every relocation of the image, in order, to `arch`, with the
    /// address `base` at which the image lies. Each entry is read from the
    /// table in the image as its turn comes.
    pub fn apply_relocations<A: ElfArch>(&self, base: usize, arch: &A)
        requires
            self.wf(),
        ensures
            forall|i: int|
                0 <= i < self.relocations@.len() ==> arch.relocated(
                    base,
                    #[trigger] self.relocations@[i].r_offset as usize,
                    self.relocations@[i].r_info,
                    self.relocations@[i].r_addend,
                ),
    {
        assert(self.image@.len() == self.image.len());
        let count = self.relocations.len();
        let mut i: usize = 0;
        while i < count
            invariant
                self.wf(),
                count == self.relocations@.len(),
                self.image@.len() == self.image.len(),
                i <= count,
                forall|j: int|
                    0 <= j < i ==> arch.relocated(
                        base,
                        #[trigger] self.relocations@[j].r_offset as usize,
                        self.relocations@[j].r_info,
                        self.relocations@[j].r_addend,
                    ),
            decreases count - i,
        {
            assert(24 * i + 24 <= 24 * count) by (nonlinear_arith)
                requires
                    i < count,
            ;
            let rela = Elf64Rela::read(self.image.as_slice(), self.relocation_table + i * ELF64_RELA_SIZE);
            assert(rela == self.relocations@[i as int]);
            arch.apply_relocation(base, rela.r_offset as usize, rela.r_info, rela.r_addend);
            i = i + 1;
        }
    }
}

/// Whether the file starts with the ELF magic number.
pub open spec fn has_magic(bytes: Seq<u8>) -> bool {
    &&& bytes[0] == 0x7f
    &&& bytes[1] == 0x45
    &&& bytes[2] == 0x4c
    &&& bytes[3] == 0x46
}

/// Offset of the program header table.
pub open spec fn ph_offset(bytes: Seq<u8>) -> nat {
    le_u64(bytes, 32)
}

/// Number of program headers.
pub open spec fn ph_count(bytes: Seq<u8>) -> nat {
    le_u16(bytes, 56)
}

/// Program header `k`.
pub open spec fn phdr(bytes: Seq<u8>, k: int) -> Elf64Phdr {
    Elf64Phdr::spec_read(bytes, ph_offset(bytes) + 56 * k)
}

/// End of the highest loaded segment among the first `n` program headers.
pub open spec fn max_load_end(bytes: Seq<u8>, n: int) -> nat
    decreases n,
{
    if n <= 0 {
        0
    } else {
        let m = max_load_end(bytes, n - 1);
        let p = phdr(bytes, n - 1);
        if p.p_type == PT_LOAD && p.p_vaddr + p.p_memsz > m {
            (p.p_vaddr + p.p_memsz) as nat
        } else {
            m
        }
    }
}

/// `image` with `data` copied over it at `dst`.
pub open spec fn copy_into(image: Seq<u8>, dst: int, data: Seq<u8>) -> Seq<u8> {
    Seq::new(
        image.len(),
        |i: int|
            if dst <= i < dst + data.len() {
                data[i - dst]
            } else {
                image[i]
            },
    )
}

/// The memory image after the loaded segments among the first `n` program
/// headers were copied, in order, into `size` zero bytes.
pub open spec fn load_image(bytes: Seq<u8>, n: int, size: nat) -> Seq<u8>
    decreases n,
{
    if n <= 0 {
        Seq::new(size, |i: int| 0u8)
    } else {
        let image = load_image(bytes, n - 1, size);
        let p = phdr(bytes, n - 1);
        if p.p_type == PT_LOAD {
            copy_into(
                image,
                p.p_vaddr as int,
                bytes.subrange(p.p_offset as int, p.p_offset + p.p_filesz),
            )
        } else {
            image
        }
    }
}

/// Index of the first dynamic program header among the first `n`, or -1.
pub open spec fn first_dynamic(bytes: Seq<u8>, n: int) -> int
    decreases n,
{
    if n <= 0 {
        -1
    } else {
        let f = first_dynamic(bytes, n - 1);
        if f >= 0 {
            f
        } else if phdr(bytes, n - 1).p_type == PT_DYNAMIC {
            n - 1
        } else {
            -1
        }
    }
}

/// After the first `n` dynamic entries at `start` of `image`: whether a
/// null entry ended the table, and the last relocation table address and
/// size seen before it.
pub open spec fn dyn_scan(image: Seq<u8>, start: int, n: int) -> (bool, Option<u64>, Option<u64>)
    decreases n,
{
    if n <= 0 {
        (false, None, None)
    } else {
        let (stopped, offset, size) = dyn_scan(image, start, n - 1);
        let d = Elf64Dyn::spec_read(image, start + 16 * (n - 1));
        if stopped {
            (stopped, offset, size)
        } else if d.d_tag == 0 {
            (true, offset, size)
        } else if d.d_tag == DT_RELA {
            (false, Some(d.d_val), size)
        } else if d.d_tag == DT_RELASZ {
            (false, offset, Some(d.d_val))
        } else {
            (false, offset, size)
        }
    }
}

/// The relocation table that the dynamic section of program header `p`
/// names within `image`.
pub open spec fn relocations_of(image: Seq<u8>, p: Elf64Phdr) -> Seq<Elf64Rela> {
    let (_, offset, size) = dyn_scan(image, p.p_vaddr as int, (p.p_memsz / 16) as int);
    if offset is Some && size is Some {
        Seq::new(
            size->0 as nat / 24,
            |i: int| Elf64Rela::spec_read(image, offset->0 + 24 * i),
        )
    } else {
        Seq::empty()
    }
}

/// Whether the program header table lies in the file.
pub open spec fn phdrs_in_file(bytes: Seq<u8>) -> bool {
    ph_offset(bytes) + 56 * ph_count(bytes) <= bytes.len()
}

/// Whether the end of program header `k`, if it is loaded, fits in 64 bits.
pub open spec fn load_end_fits(bytes: Seq<u8>, k: int) -> bool {
    let p = phdr(bytes, k);
    p.p_type == PT_LOAD ==> p.p_vaddr + p.p_memsz <= u64::MAX
}

/// Whether program header `k`, if it is loaded, can be copied from the file
/// into an image of `size` bytes.
pub open spec fn segment_copyable(bytes: Seq<u8>, k: int, size: nat) -> bool {
    let p = phdr(bytes, k);
    p.p_type == PT_LOAD ==> {
        &&& p.p_offset + p.p_filesz <= bytes.len()
        &&& p.p_vaddr + p.p_filesz <= size
    }
}

/// Whether the dynamic section of program header `p`, and the relocation
/// table that it names, lie in `image`.
pub open spec fn dynamic_in_image(image: Seq<u8>, p: Elf64Phdr) -> bool {
    let (_, offset, rsize) = dyn_scan(image, p.p_vaddr as int, (p.p_memsz / 16) as int);
    &&& p.p_vaddr + 16 * (p.p_memsz / 16) <= image.len()
    &&& offset is Some && rsize is Some ==> offset->0 + 24 * (rsize->0 / 24) <= image.len()
}

/// Whether a file that passed the size and magic checks can be loaded
/// without reading outside the file or the image: the program headers lie
/// in the file, each loaded segment's end fits in 64 bits and, when there is
/// an image, its file part lies in the file and in the image, the image fits
/// in memory, and the dynamic section and the relocation table that it
/// names lie in the image.
pub open spec fn loadable(bytes: Seq<u8>) -> bool {
    let n = ph_count(bytes) as int;
    let size = max_load_end(bytes, n);
    let d = first_dynamic(bytes, n);
    &&& phdrs_in_file(bytes)
    &&& forall|k: int| 0 <= k < n ==> #[trigger] load_end_fits(bytes, k)
    &&& size > 0 ==> {
        &&& size <= usize::MAX
        &&& forall|k: int| 0 <= k < n ==> #[trigger] segment_copyable(bytes, k, size)
        &&& d >= 0 ==> dynamic_in_image(load_image(bytes, n, size), phdr(bytes, d))
    }
}

/// Reads program header `k`.
fn read_phdr(bytes: &[u8], phoff: usize, k: usize) -> (p: Elf64Phdr)
    requires
        phdrs_in_file(bytes@),
        phoff == ph_offset(bytes@),
        k < ph_count(bytes@),
    ensures
        p == phdr(bytes@, k as int),
{
    let ghost n = ph_count(bytes@);
    assert(bytes@.len() == bytes.len());
    assert(56 * k + 56 <= 56 * n) by (nonlinear_arith)
        requires
            k < n,
    ;
    Elf64Phdr::read(bytes, phoff + k * ELF64_PHDR_SIZE)
}

/// The end of the highest loaded segment.
fn max_load_address(bytes: &[u8], phoff: usize, phnum: usize) -> (m: u64)
    requires
        phdrs_in_file(bytes@),
        phoff == ph_offset(bytes@),
        phnum == ph_count(bytes@),
        forall|k: int| 0 <= k < phnum ==> #[trigger] load_end_fits(bytes@, k),
    ensures
        m == max_load_end(bytes@, phnum as int),
{
    let mut max_addr: u64 = 0;
    let mut k: usize = 0;
    while k < phnum
        invariant
            phdrs_in_file(bytes@),
            phoff == ph_offset(bytes@),
            phnum == ph_count(bytes@),
            forall|k: int| 0 <= k < phnum ==> #[trigger] load_end_fits(bytes@, k),
            k <= phnum,
            max_addr == max_load_end(bytes@, k as int),
        decreases phnum - k,
    {
        let p = read_phdr(bytes, phoff, k);
        assert(load_end_fits(bytes@, k as int));
        if p.p_type == PT_LOAD {
            let end = p.p_vaddr + p.p_memsz;
            if end > max_addr {
                max_addr = end;
            }
        }
        k = k + 1;
    }
    max_addr
}

/// Copies the file part of loaded segment `p` into the image.
fn copy_segment(image: &mut Vec<u8>, bytes: &[u8], p: &Elf64Phdr)
    requires
        p.p_offset + p.p_filesz <= bytes.len(),
        p.p_vaddr + p.p_filesz <= old(image)@.len(),
    ensures
        final(image)@ == copy_into(
            old(image)@,
            p.p_vaddr as int,
            bytes@.subrange(p.p_offset as int, p.p_offset + p.p_filesz),
        ),
{
    assert(image@.len() == image.len() && bytes@.len() == bytes.len());
    let dst_start = p.p_vaddr as usize;
    let src_start = p.p_offset as usize;
    let copy_len = p.p_filesz as usize;
    assert(dst_start == p.p_vaddr && src_start == p.p_offset && copy_len == p.p_filesz);
    let ghost before = image@;
    let ghost data = bytes@.subrange(src_start as int, src_start + copy_len);
    let mut i: usize = 0;
    while i < copy_len
        invariant
            src_start + copy_len <= bytes.len(),
            dst_start + copy_len <= before.len(),
            before.len() <= usize::MAX,
            image@.len() == before.len(),
            data == bytes@.subrange(src_start as int, src_start + copy_len),
            i <= copy_len,
            forall|j: int|
                0 <= j < before.len() ==> #[trigger] image@[j] == if dst_start <= j < dst_start + i {
                    data[j - dst_start]
                } else {
                    before[j]
                },
        decreases copy_len - i,
    {
        image.set(dst_start + i, bytes[src_start + i]);
        i = i + 1;
    }
    assert(image@ =~= copy_into(before, dst_start as int, data));
}

/// Builds the memory image of `size` bytes from the loaded segments.
fn build_image(bytes: &[u8], phoff: usize, phnum: usize, size: usize) -> (image: Vec<u8>)
    requires
        phdrs_in_file(bytes@),
        phoff == ph_offset(bytes@),
        phnum == ph_count(bytes@),
        forall|k: int| 0 <= k < phnum ==> #[trigger] segment_copyable(bytes@, k, size as nat),
    ensures
        image@ == load_image(bytes@, phnum as int, size as nat),
{
    let mut image: Vec<u8> = vec![0u8; size];
    assert(image@ =~= load_image(bytes@, 0, size as nat));
    let mut k: usize = 0;
    while k < phnum
        invariant
            phdrs_in_file(bytes@),
            phoff == ph_offset(bytes@),
            phnum == ph_count(bytes@),
            forall|k: int| 0 <= k < phnum ==> #[trigger] segment_copyable(bytes@, k, size as nat),
            k <= phnum,
            image@ == load_image(bytes@, k as int, size as nat),
            image@.len() == size,
        decreases phnum - k,
    {
        let p = read_phdr(bytes, phoff, k);
        assert(segment_copyable(bytes@, k as int, size as nat));
        if p.p_type == PT_LOAD {
            copy_segment(&mut image, bytes, &p);
        }
        k = k + 1;
    }
    image
}

/// The index of the first dynamic program header, if there is one.
fn find_dynamic(bytes: &[u8], phoff: usize, phnum: usize) -> (d: Option<usize>)
    requires
        phdrs_in_file(bytes@),
        phoff == ph_offset(bytes@),
        phnum == ph_count(bytes@),
    ensures
        match d {
            Some(k) => k < phnum && k == first_dynamic(bytes@, phnum as int),
            None => first_dynamic(bytes@, phnum as int) < 0,
        },
{
    let mut k: usize = 0;
    while k < phnum
        invariant
            phdrs_in_file(bytes@),
            phoff == ph_offset(bytes@),
            phnum == ph_count(bytes@),
            k <= phnum,
            first_dynamic(bytes@, k as int) < 0,
        decreases phnum - k,
    {
        let p = read_phdr(bytes, phoff, k);
        if p.p_type == PT_DYNAMIC {
            proof {
                lemma_first_dynamic_prefix(bytes@, k as int + 1, phnum as int);
            }
            return Some(k);
        }
        k = k + 1;
    }
    None
}

/// Whether `load_elf` can take `bytes`: a file too small or without the
/// magic number is always taken (it is refused with an error); any other
/// must be `loadable`.
pub fn can_load(bytes: &[u8]) -> (ok: bool)
    ensures
        ok == (bytes@.len() >= ELF64_HEADER_SIZE && has_magic(bytes@) ==> loadable(bytes@)),
{
    if bytes.len() < ELF64_HEADER_SIZE {
        return true;
    }
    let header = Elf64Header::read(bytes, 0);
    if !(header.e_ident[0] == 0x7f && header.e_ident[1] == 0x45 && header.e_ident[2] == 0x4c
        && header.e_ident[3] == 0x46) {
        return true;
    }
    assert(has_magic(bytes@));
    let phnum = header.e_phnum as usize;
    if (bytes.len() as u128) < (header.e_phoff as u128) + 56 * (phnum as u128) {
        return false;
    }
    assert(phdrs_in_file(bytes@));
    let phoff = header.e_phoff as usize;
    let mut k: usize = 0;
    while k < phnum
        invariant
            phdrs_in_file(bytes@),
            phoff == ph_offset(bytes@),
            phnum == ph_count(bytes@),
            k <= phnum,
            bytes@.len() >= ELF64_HEADER_SIZE,
            has_magic(bytes@),
            forall|j: int| 0 <= j < k ==> #[trigger] load_end_fits(bytes@, j),
        decreases phnum - k,
    {
        let p = read_phdr(bytes, phoff, k);
        if p.p_type == PT_LOAD && p.p_vaddr.checked_add(p.p_memsz).is_none() {
            assert(!load_end_fits(bytes@, k as int));
            assert(k < ph_count(bytes@));
            assert(!loadable(bytes@));
            return false;
        }
        k = k + 1;
    }
    let max_addr = max_load_address(bytes, phoff, phnum);
    if max_addr == 0 {
        return true;
    }
    if max_addr as u128 > usize::MAX as u128 {
        return false;
    }
    let size = max_addr as usize;
    let mut k: usize = 0;
    while k < phnum
        invariant
            phdrs_in_file(bytes@),
            phoff == ph_offset(bytes@),
            phnum == ph_count(bytes@),
            size == max_load_end(bytes@, phnum as int),
            size > 0,
            bytes@.len() >= ELF64_HEADER_SIZE,
            has_magic(bytes@),
            forall|j: int| 0 <= j < phnum ==> #[trigger] load_end_fits(bytes@, j),
            k <= phnum,
            forall|j: int| 0 <= j < k ==> #[trigger] segment_copyable(bytes@, j, size as nat),
        decreases phnum - k,
    {
        let p = read_phdr(bytes, phoff, k);
        if p.p_type == PT_LOAD && ((bytes.len() as u128) < (p.p_offset as u128) + (p.p_filesz as u128)
            || (size as u128) < (p.p_vaddr as u128) + (p.p_filesz as u128)) {
            assert(!segment_copyable(bytes@, k as int, size as nat));
            assert(max_load_end(bytes@, ph_count(bytes@) as int) == size as nat);
            assert(size > 0);
            assert(!loadable(bytes@));
            return false;
        }
        k = k + 1;
    }
    match find_dynamic(bytes, phoff, phnum) {
        None => true,
        Some(d) => {
            let p = read_phdr(bytes, phoff, d);
            let image = build_image(bytes, phoff, phnum, size);
            assert(image@.len() == image.len());
            if (image.len() as u128) < (p.p_vaddr as u128) + 16 * ((p.p_memsz / 16) as u128) {
                return false;
            }
            let (offset, rsize) = scan_dynamic(&image, &p);
            match (offset, rsize) {
                (Some(o), Some(r)) => (o as u128) + 24 * ((r / 24) as u128) <= image.len() as u128,
                _ => true,
            }
        },
    }
}

/// Loads a 64-bit ELF file: checks its size and magic number, builds the
/// memory image from its loaded segments, and lists the relocations of its
/// first dynamic section.
pub fn load_elf(bytes: &[u8]) -> (result: Result<Image, ElfError>)
    requires
        bytes@.len() >= ELF64_HEADER_SIZE && has_magic(bytes@) ==> loadable(bytes@),
    ensures
        bytes@.len() < ELF64_HEADER_SIZE ==> result == Err::<Image, ElfError>(ElfError::TooSmall),
        bytes@.len() >= ELF64_HEADER_SIZE && !has_magic(bytes@) ==> result == Err::<Image, ElfError>(
            ElfError::InvalidMagic,
        ),
        bytes@.len() >= ELF64_HEADER_SIZE && has_magic(bytes@) && max_load_end(
            bytes@,
            ph_count(bytes@) as int,
        ) == 0 ==> result == Err::<Image, ElfError>(ElfError::NoLoadSegments),
        ({
            let n = ph_count(bytes@) as int;
            let size = max_load_end(bytes@, n);
            let image = load_image(bytes@, n, size);
            let d = first_dynamic(bytes@, n);
            bytes@.len() >= ELF64_HEADER_SIZE && has_magic(bytes@) && size > 0 ==> result is Ok && {
                let img = result->Ok_0;
                &&& img.image@ == image
                &&& img.entry_offset == le_u64(bytes@, 24)
                &&& img.wf()
                &&& img.relocations@ == if d >= 0 {
                    relocations_of(image, phdr(bytes@, d))
                } else {
                    Seq::empty()
                }
            }
        }),
{
    if bytes.len() < ELF64_HEADER_SIZE {
        return Err(ElfError::TooSmall);
    }
    let header = Elf64Header::read(bytes, 0);
    if !(header.e_ident[0] == 0x7f && header.e_ident[1] == 0x45 && header.e_ident[2] == 0x4c
        && header.e_ident[3] == 0x46) {
        return Err(ElfError::InvalidMagic);
    }
    assert(has_magic(bytes@));
    let phoff = header.e_phoff as usize;
    let phnum = header.e_phnum as usize;
    let max_addr = max_load_address(bytes, phoff, phnum);
    if max_addr == 0 {
        return Err(ElfError::NoLoadSegments);
    }
    let image = build_image(bytes, phoff, phnum, max_addr as usize);
    let (relocation_table, relocations) = match find_dynamic(bytes, phoff, phnum) {
        Some(k) => {
            let p = read_phdr(bytes, phoff, k);
            dynamic_relocations(&image, &p)
        },
        None => (0, Vec::new()),
    };
    Ok(Image { image, entry_offset: header.e_entry, relocations, relocation_table })
}

proof fn lemma_first_dynamic_prefix(bytes: Seq<u8>, k: int, n: int)
    requires
        0 < k <= n,
        first_dynamic(bytes, k) >= 0,
    ensures
        first_dynamic(bytes, n) == first_dynamic(bytes, k),
    decreases n - k,
{
    if n > k {
        lemma_first_dynamic_prefix(bytes, k, n - 1);
    }
}

/// Scans the dynamic entries of `dynamic_phdr` up to the first null one for
/// the last address and size of the relocation table.
fn scan_dynamic(image: &Vec<u8>, dynamic_phdr: &Elf64Phdr) -> (found: (Option<u64>, Option<u64>))
    requires
        dynamic_phdr.p_vaddr + 16 * (dynamic_phdr.p_memsz / 16) <= image@.len(),
    ensures
        found.0 == dyn_scan(image@, dynamic_phdr.p_vaddr as int, (dynamic_phdr.p_memsz / 16) as int).1,
        found.1 == dyn_scan(image@, dynamic_phdr.p_vaddr as int, (dynamic_phdr.p_memsz / 16) as int).2,
{
    assert(image@.len() == image.len());
    let dyn_start = dynamic_phdr.p_vaddr as usize;
    let dyn_count = (dynamic_phdr.p_memsz / (ELF64_DYN_SIZE as u64)) as usize;
    assert(dyn_start == dynamic_phdr.p_vaddr && dyn_count == dynamic_phdr.p_memsz / 16);
    let ghost full = dyn_scan(image@, dyn_start as int, dyn_count as int);
    let mut rela_offset: Option<u64> = None;
    let mut rela_size: Option<u64> = None;
    let mut j: usize = 0;
    let mut stopped = false;
    while j < dyn_count && !stopped
        invariant
            dyn_start + 16 * dyn_count <= image@.len(),
            image@.len() <= usize::MAX,
            j <= dyn_count,
            (stopped, rela_offset, rela_size) == dyn_scan(image@, dyn_start as int, j as int),
            full == dyn_scan(image@, dyn_start as int, dyn_count as int),
            stopped ==> full == (stopped, rela_offset, rela_size),
        decreases dyn_count - j + if stopped { 0int } else { 1int },
    {
        assert(16 * j + 16 <= 16 * dyn_count) by (nonlinear_arith)
            requires
                j < dyn_count,
        ;
        let d = Elf64Dyn::read(image.as_slice(), dyn_start + j * ELF64_DYN_SIZE);
        if d.d_tag == 0 {
            stopped = true;
        } else if d.d_tag == DT_RELA {
            rela_offset = Some(d.d_val);
        } else if d.d_tag == DT_RELASZ {
            rela_size = Some(d.d_val);
        }
        proof {
            if stopped {
                lemma_dyn_scan_stopped(image@, dyn_start as int, j as int + 1, dyn_count as int);
            }
        }
        j = j + 1;
    }
    assert(full == (stopped, rela_offset, rela_size));
    (rela_offset, rela_size)
}

/// The relocations that the dynamic section of `dynamic_phdr` names: the
/// entries up to the first null one are scanned for the last address and
/// size of the relocation table.
fn dynamic_relocations(image: &Vec<u8>, dynamic_phdr: &Elf64Phdr) -> (found: (usize, Vec<Elf64Rela>))
    requires
        dynamic_in_image(image@, *dynamic_phdr),
    ensures
        found.1@ == relocations_of(image@, *dynamic_phdr),
        found.0 + 24 * found.1@.len() <= image@.len(),
        forall|i: int| 0 <= i < found.1@.len() ==> #[trigger] found.1@[i] == Elf64Rela::spec_read(image@, found.0 + 24 * i),
{
    assert(image@.len() == image.len());
    let (rela_offset, rela_size) = scan_dynamic(image, dynamic_phdr);
    let mut relocations: Vec<Elf64Rela> = Vec::new();
    let mut table: usize = 0;
    match (rela_offset, rela_size) {
        (Some(offset), Some(size)) => {
            let rela_count = (size / (ELF64_RELA_SIZE as u64)) as usize;
            let start = offset as usize;
            assert(start == offset && rela_count == size / 24);
            let mut i: usize = 0;
            while i < rela_count
                invariant
                    start + 24 * rela_count <= image@.len(),
                    image@.len() <= usize::MAX,
                    i <= rela_count,
                    relocations@.len() == i,
                    forall|q: int| 0 <= q < i ==> #[trigger] relocations@[q] == Elf64Rela::spec_read(image@, start + 24 * q),
                decreases rela_count - i,
            {
                assert(24 * i + 24 <= 24 * rela_count) by (nonlinear_arith)
                    requires
                        i < rela_count,
                ;
                relocations.push(Elf64Rela::read(image.as_slice(), start + i * ELF64_RELA_SIZE));
                i = i + 1;
            }
            table = start;
            assert(relocations@ =~= relocations_of(image@, *dynamic_phdr));
        },
        _ => {
            assert(relocations@ =~= relocations_of(image@, *dynamic_phdr));
        },
    }
    (table, relocations)
}

proof fn lemma_dyn_scan_stopped(image: Seq<u8>, start: int, k: int, n: int)
    requires
        0 <= k <= n,
        dyn_scan(image, start, k).0,
    ensures
        dyn_scan(image, start, n) == dyn_scan(image, start, k),
    decreases n - k,
{
    if n > k {
        lemma_dyn_scan_stopped(image, start, k, n - 1);
    }
}

} // verus!
