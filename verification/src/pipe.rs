use vstd::prelude::*;

verus! {

/// A one-character pipe: a write leaves a character for a reader.
pub struct Pipe {
    c: Option<char>,
}

impl Pipe {
    /// The character waiting in the pipe, if any.
    pub closed spec fn spec_char(&self) -> Option<char> {
        self.c
    }

    /// An empty pipe.
    pub fn new() -> (pipe: Pipe)
        ensures
            pipe.spec_char() is None,
    {
        Pipe { c: None }
    }

    /// Leaves `c` in the pipe, in place of any character there.
    pub fn write_char(&mut self, c: char)
        ensures
            final(self).spec_char() == Some(c),
    {
        self.c = Some(c);
    }
}

} // verus!
