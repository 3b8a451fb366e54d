//! The bounds-checked forward-only byte cursor the decoders read from.

use vstd::prelude::*;

use crate::bin_decode::ParseError;

verus! {

/// A forward-only cursor over an immutable byte buffer. All reads are
/// bounds checked; running off the end yields [`ParseError::EOF`].
pub struct Reader<'a> {
    buffer: &'a [u8],
    position: usize,
}

impl<'a> Reader<'a> {
    /// The bytes this cursor reads from.
    pub closed spec fn data(self) -> Seq<u8> {
        self.buffer@
    }

    /// The offset of the next byte to be read.
    pub closed spec fn pos(self) -> int {
        self.position as int
    }

    /// The cursor never stands before the buffer or past its end.
    pub open spec fn wf(self) -> bool {
        0 <= self.pos() <= self.data().len()
    }

    pub fn new(buffer: &'a [u8]) -> (r: Reader<'a>)
        ensures
            r.wf(),
            r.data() == buffer@,
            r.pos() == 0,
    {
        Reader { buffer, position: 0 }
    }

    /// The current offset, for error reporting.
    pub fn position(&self) -> (r: usize)
        ensures
            r == self.pos(),
    {
        self.position
    }

    /// How many bytes are left to read.
    pub fn remaining(&self) -> (r: usize)
        requires
            self.wf(),
        ensures
            r == self.data().len() - self.pos(),
    {
        self.buffer.len() - self.position
    }

    /// Returns the next `n` bytes as a view and moves the position
    /// forward by `n`; fails with EOF if fewer than `n` bytes remain.
    pub fn advance(&mut self, n: usize) -> (r: Result<&'a [u8], ParseError>)
        requires
            old(self).wf(),
        ensures
            final(self).wf(),
            final(self).data() == old(self).data(),
            match r {
                Ok(s) => {
                    &&& old(self).pos() + n <= old(self).data().len()
                    &&& s@ == old(self).data().subrange(old(self).pos(), old(self).pos() + n)
                    &&& final(self).pos() == old(self).pos() + n
                },
                Err(e) => {
                    &&& e == ParseError::EOF
                    &&& old(self).data().len() < old(self).pos() + n
                    &&& *final(self) == *old(self)
                },
            },
    {
        if n <= self.buffer.len() - self.position {
            let s = vstd::slice::slice_subrange(self.buffer, self.position, self.position + n);
            self.position = self.position + n;
            Ok(s)
        } else {
            Err(ParseError::EOF)
        }
    }
}

} // verus!
