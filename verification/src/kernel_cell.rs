use vstd::prelude::*;

verus! {

/// A value that the kernel owns and lends out.
pub struct KernelCell<T> {
    data: T,
}

impl<T> KernelCell<T> {
    /// The value held.
    pub closed spec fn spec_data(&self) -> T {
        self.data
    }

    /// A cell that holds `data`.
    pub fn new(data: T) -> (cell: Self)
        ensures
            cell.spec_data() == data,
    {
        KernelCell { data }
    }

    /// Lends the value for reading.
    pub fn borrow(&self) -> (data: &T)
        ensures
            *data == self.spec_data(),
    {
        &self.data
    }

    /// Lends the value for writing.
    pub fn borrow_mut(&mut self) -> (data: &mut T)
        ensures
            *data == old(self).spec_data(),
            final(self).spec_data() == *final(data),
    {
        &mut self.data
    }
}

} // verus!
