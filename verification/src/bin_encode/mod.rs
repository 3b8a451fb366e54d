//! Encoder for the NBT binary format. This is based on builder objects
//! rather than a document structure, so very few allocations are
//! required other than the actual data buffer being written into.
//!
//! [`NbtWriter`] owns the output buffer; the builders append to it
//! through it. Every write appends exactly the encoding the format
//! module defines, so the bytes of a finished document can be read off
//! the contracts.

use vstd::prelude::*;

use crate::format::{
    be16, be32, be64, enc_str, i16_as_u16, i32_as_u32, i64_as_u64, i8_as_u8,
};
use crate::text::{cesu8_encode, java_cesu8_bytes_of};
use crate::TagType;

pub mod compound;
pub mod list;
pub mod tag;

pub use compound::CompoundWriter;
pub use list::CompoundListWriter;
pub use tag::TagWriter;

verus! {

/// The bytes a name is written as: a 2-byte length prefix, then the
/// modified-UTF-8 encoding of the text. A length beyond the prefix
/// width is written modulo that width.
pub open spec fn enc_name(s: Seq<char>) -> Seq<u8> {
    enc_str(java_cesu8_bytes_of(s))
}

/// This object owns the buffer that the document is being written
/// into. It represents one document.
pub struct NbtWriter {
    output: Vec<u8>,
    done: bool,
}

impl NbtWriter {
    /// The bytes written so far.
    pub closed spec fn bytes(&self) -> Seq<u8> {
        self.output@
    }

    /// Whether the root tag has been started.
    pub closed spec fn started(&self) -> bool {
        self.done
    }

    /// Creates a new empty writer.
    pub fn new() -> (r: NbtWriter)
        ensures
            r.bytes() == Seq::<u8>::empty(),
            !r.started(),
    {
        NbtWriter { output: Vec::new(), done: false }
    }

    /// Creates the root tag with the given name and returns a builder
    /// for it.
    pub fn root(&mut self, name: &str) -> (r: CompoundWriter)
        ensures
            final(self).started(),
            final(self).bytes() == old(self).bytes() + seq![TagType::Compound.spec_id()]
                + enc_name(name@),
    {
        self.done = true;
        let ghost base = self.bytes();
        self.write_tag(TagType::Compound);
        self.write_string(name);
        proof {
            assert(base + seq![TagType::Compound.spec_id()] + enc_name(name@) =~= base + (seq![
                TagType::Compound.spec_id(),
            ] + enc_name(name@)));
        }
        CompoundWriter::new()
    }

    /// Finalizes the document and returns the buffer for use. The
    /// document must have been started: handing out a buffer with no
    /// root would hand out an invalid document.
    pub fn finish(self) -> (r: Vec<u8>)
        requires
            self.started(),
        ensures
            r@ == self.bytes(),
    {
        self.output
    }

    pub(crate) fn buffer_len(&self) -> (r: usize)
        ensures
            r == self.bytes().len(),
    {
        self.output.len()
    }

    pub(crate) fn write_i8(&mut self, value: i8)
        ensures
            final(self).bytes() == old(self).bytes() + seq![i8_as_u8(value)],
            final(self).started() == old(self).started(),
    {
        let b: u8 = if value >= 0 {
            value as u8
        } else {
            (value as i16 + 0x100) as u8
        };
        self.output.push(b);
        proof {
            assert(final(self).bytes() =~= old(self).bytes() + seq![i8_as_u8(value)]);
        }
    }

    pub(crate) fn write_u16(&mut self, value: u16)
        ensures
            final(self).bytes() == old(self).bytes() + be16(value),
            final(self).started() == old(self).started(),
    {
        self.output.push((value / 0x100) as u8);
        self.output.push((value % 0x100) as u8);
        proof {
            assert(final(self).bytes() =~= old(self).bytes() + be16(value));
        }
    }

    pub(crate) fn write_i16(&mut self, value: i16)
        ensures
            final(self).bytes() == old(self).bytes() + be16(i16_as_u16(value)),
            final(self).started() == old(self).started(),
    {
        let v: u16 = if value >= 0 {
            value as u16
        } else {
            (value as i32 + 0x1_0000) as u16
        };
        self.write_u16(v);
    }

    pub(crate) fn write_u32(&mut self, value: u32)
        ensures
            final(self).bytes() == old(self).bytes() + be32(value),
            final(self).started() == old(self).started(),
    {
        self.write_u16((value / 0x1_0000) as u16);
        self.write_u16((value % 0x1_0000) as u16);
        proof {
            assert(old(self).bytes() + be16((value / 0x1_0000) as u16) + be16(
                (value % 0x1_0000) as u16,
            ) =~= old(self).bytes() + be32(value));
        }
    }

    pub(crate) fn write_i32(&mut self, value: i32)
        ensures
            final(self).bytes() == old(self).bytes() + be32(i32_as_u32(value)),
            final(self).started() == old(self).started(),
    {
        let v: u32 = if value >= 0 {
            value as u32
        } else {
            (value as i64 + 0x1_0000_0000) as u32
        };
        self.write_u32(v);
    }

    pub(crate) fn write_u64(&mut self, value: u64)
        ensures
            final(self).bytes() == old(self).bytes() + be64(value),
            final(self).started() == old(self).started(),
    {
        self.write_u32((value / 0x1_0000_0000) as u32);
        self.write_u32((value % 0x1_0000_0000) as u32);
        proof {
            assert(old(self).bytes() + be32((value / 0x1_0000_0000) as u32) + be32(
                (value % 0x1_0000_0000) as u32,
            ) =~= old(self).bytes() + be64(value));
        }
    }

    pub(crate) fn write_i64(&mut self, value: i64)
        ensures
            final(self).bytes() == old(self).bytes() + be64(i64_as_u64(value)),
            final(self).started() == old(self).started(),
    {
        let v: u64 = if value >= 0 {
            value as u64
        } else {
            (value as i128 + 0x1_0000_0000_0000_0000) as u64
        };
        self.write_u64(v);
    }

    pub(crate) fn write_bytes(&mut self, data: &[u8])
        ensures
            final(self).bytes() == old(self).bytes() + data@,
            final(self).started() == old(self).started(),
    {
        self.output.extend_from_slice(data);
    }

    pub(crate) fn write_tag(&mut self, tag: TagType)
        ensures
            final(self).bytes() == old(self).bytes() + seq![tag.spec_id()],
            final(self).started() == old(self).started(),
    {
        self.output.push(tag.id());
        proof {
            assert(final(self).bytes() =~= old(self).bytes() + seq![tag.spec_id()]);
        }
    }

    /// Writes a length-prefixed name. A text whose encoding is longer
    /// than the prefix can say has its length written modulo the
    /// prefix width, exactly as [`enc_name`] states.
    pub(crate) fn write_string(&mut self, input: &str)
        ensures
            final(self).bytes() == old(self).bytes() + enc_name(input@),
            final(self).started() == old(self).started(),
    {
        let data = cesu8_encode(input);
        let len16: u16 = ((data.len() as u64) % 0x1_0000) as u16;
        self.write_u16(len16);
        self.write_bytes(data.as_slice());
        proof {
            assert(old(self).bytes() + be16(len16) + data@ =~= old(self).bytes() + enc_name(
                input@,
            ));
        }
    }

    /// Overwrites 4 bytes in place at a previously recorded offset.
    pub(crate) fn patch_u32(&mut self, at: usize, value: u32)
        requires
            at + 4 <= old(self).bytes().len(),
        ensures
            final(self).bytes() == old(self).bytes().subrange(0, at as int) + be32(value) + old(
                self,
            ).bytes().subrange(at + 4, old(self).bytes().len() as int),
            final(self).bytes().len() == old(self).bytes().len(),
            final(self).started() == old(self).started(),
    {
        let n = self.output.len();
        assert(at + 4 <= n);
        let hi: u16 = (value / 0x1_0000) as u16;
        let lo: u16 = (value % 0x1_0000) as u16;
        self.output[at] = (hi / 0x100) as u8;
        self.output[at + 1] = (hi % 0x100) as u8;
        self.output[at + 2] = (lo / 0x100) as u8;
        self.output[at + 3] = (lo % 0x100) as u8;
        proof {
            assert(final(self).bytes() =~= old(self).bytes().subrange(0, at as int) + be32(value)
                + old(self).bytes().subrange(at + 4, old(self).bytes().len() as int));
        }
    }
}

} // verus!
