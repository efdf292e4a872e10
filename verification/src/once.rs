use vstd::prelude::*;

verus! {

/// A value that is set once and then only read.
pub struct Once<T> {
    value: Option<T>,
}

impl<T> Once<T> {
    /// The value, once set.
    pub closed spec fn spec_value(&self) -> Option<T> {
        self.value
    }

    /// A `Once` with no value yet.
    pub fn new() -> (once: Self)
        ensures
            once.spec_value() is None,
    {
        Once { value: None }
    }

    /// Sets the value to what `f` returns; it may be set only once.
    pub fn call_once<F: FnOnce() -> T>(&mut self, f: F)
        requires
            old(self).spec_value() is None,
            call_requires(f, ()),
        ensures
            final(self).spec_value() is Some,
            call_ensures(f, (), final(self).spec_value()->0),
    {
        let value = f();
        self.value = Some(value);
    }

    /// The value, once set.
    pub fn get(&self) -> (value: Option<&T>)
        ensures
            match value {
                Some(v) => self.spec_value() == Some(*v),
                None => self.spec_value() is None,
            },
    {
        match &self.value {
            Some(v) => Some(v),
            None => None,
        }
    }
}

} // verus!
