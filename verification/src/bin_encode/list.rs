//! The list-of-compounds builder: the count field is written as a
//! placeholder and corrected in place once the list is finished.

use vstd::prelude::*;

use crate::bin_encode::{CompoundWriter, NbtWriter};
use crate::format::be32;
use crate::TagType;

verus! {

/// A builder for a List of Compound tags. On construction it writes
/// the element kind byte and a zero count; `finish` overwrites the
/// count in place with the number of elements that were started, and
/// is the only way to leave the list behind.
pub struct CompoundListWriter {
    start_offset: usize,
    length: usize,
}

impl CompoundListWriter {
    /// Where the 4 count bytes stand in the output.
    pub closed spec fn count_at(&self) -> int {
        self.start_offset as int
    }

    /// How many elements have been started.
    pub closed spec fn count(&self) -> int {
        self.length as int
    }

    pub(crate) fn new(w: &mut NbtWriter) -> (r: CompoundListWriter)
        ensures
            final(w).started() == old(w).started(),
            final(w).bytes() == old(w).bytes() + seq![TagType::Compound.spec_id()] + be32(0),
            r.count() == 0,
            r.count_at() + 4 == final(w).bytes().len(),
    {
        w.write_tag(TagType::Compound);
        let start_offset = w.buffer_len();
        w.write_u32(0);
        proof {
            assert(old(w).bytes() + seq![TagType::Compound.spec_id()] + be32(0) =~= old(w).bytes()
                + (seq![TagType::Compound.spec_id()] + be32(0)));
        }
        CompoundListWriter { start_offset, length: 0 }
    }

    /// Starts a new element in the list, returning a builder for it.
    /// The element must be finished before the next one is started or
    /// the list is finished.
    pub fn element(&mut self) -> (r: CompoundWriter)
        requires
            old(self).count() < usize::MAX,
        ensures
            final(self).count() == old(self).count() + 1,
            final(self).count_at() == old(self).count_at(),
    {
        self.length = self.length + 1;
        CompoundWriter::new()
    }

    /// Finishes the list: goes back and overwrites the placeholder
    /// count with the number of elements, modulo the width of the
    /// count field.
    pub fn finish(self, w: &mut NbtWriter)
        requires
            self.count_at() + 4 <= old(w).bytes().len(),
        ensures
            final(w).started() == old(w).started(),
            final(w).bytes() == old(w).bytes().subrange(0, self.count_at()) + be32(
                ((self.count() as nat) % 0x1_0000_0000) as u32,
            ) + old(w).bytes().subrange(self.count_at() + 4, old(w).bytes().len() as int),
            final(w).bytes().len() == old(w).bytes().len(),
    {
        let count32: u32 = ((self.length as u64) % 0x1_0000_0000) as u32;
        w.patch_u32(self.start_offset, count32);
    }
}

} // verus!
