//! The compound builder: fields are added sequentially, and the
//! terminator byte is written by an explicit `finish`.

use vstd::prelude::*;

use crate::bin_encode::{enc_name, CompoundListWriter, NbtWriter, TagWriter};
use crate::format::be32;
use crate::TagType;

verus! {

/// A builder for a Compound tag, allowing fields to be added
/// sequentially. `finish` is the only way to put down the terminator
/// byte: it consumes the builder, so an emitted compound is never left
/// unterminated by code that reaches it.
pub struct CompoundWriter {
    _private: (),
}

impl CompoundWriter {
    pub(crate) fn new() -> (r: CompoundWriter) {
        CompoundWriter { _private: () }
    }

    /// Creates a new field and returns a builder for filling in its
    /// value.
    pub fn field<'b>(&mut self, name: &'b str) -> (r: TagWriter<'b>)
        ensures
            !r.is_done(),
            r.field_name() == Some(name),
    {
        TagWriter::new_field(name)
    }

    /// Writes the header of a named Compound field and returns a
    /// builder for the nested compound.
    pub fn compound_field(&mut self, w: &mut NbtWriter, name: &str) -> (r: CompoundWriter)
        ensures
            final(w).started() == old(w).started(),
            final(w).bytes() == old(w).bytes() + seq![TagType::Compound.spec_id()] + enc_name(
                name@,
            ),
    {
        w.write_tag(TagType::Compound);
        w.write_string(name);
        CompoundWriter::new()
    }

    /// Writes the header of a named List-of-Compound field and returns
    /// a builder for the elements.
    pub fn compound_list_field(&mut self, w: &mut NbtWriter, name: &str) -> (r: CompoundListWriter)
        ensures
            final(w).started() == old(w).started(),
            final(w).bytes() == old(w).bytes() + seq![TagType::List.spec_id()] + enc_name(name@)
                + seq![TagType::Compound.spec_id()] + be32(0),
            r.count() == 0,
            r.count_at() + 4 == final(w).bytes().len(),
    {
        w.write_tag(TagType::List);
        w.write_string(name);
        CompoundListWriter::new(w)
    }

    /// Finishes the compound: writes the End terminator byte. This must
    /// be called when the fields are done, or the compound would stay
    /// unterminated.
    pub fn finish(self, w: &mut NbtWriter)
        ensures
            final(w).started() == old(w).started(),
            final(w).bytes() == old(w).bytes() + seq![TagType::End.spec_id()],
    {
        w.write_tag(TagType::End);
    }
}

} // verus!
