use vstd::prelude::*;

verus! {

/// What an architecture does with one relocation of a loaded image: `base`
/// is the address at which the image lies, `offset` the place within it.
pub trait ElfArch {
    /// Whether the relocation with `offset`, `info` and `addend` has been
    /// applied to the image at `base`; each architecture says what applying
    /// one means.
    spec fn relocated(&self, base: usize, offset: usize, info: u64, addend: i64) -> bool;

    fn apply_relocation(&self, base: usize, offset: usize, info: u64, addend: i64)
        ensures
            self.relocated(base, offset, info, addend),
    ;
}

} // verus!
