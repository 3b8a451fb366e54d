//! The single-field builder: writes one tag, name and payload, once.

use vstd::prelude::*;

use crate::bin_encode::{enc_name, CompoundListWriter, CompoundWriter, NbtWriter};
use crate::format::{
    enc_byte_arrays, enc_count, enc_i16s, enc_i32s, enc_i64s, enc_payload, enc_str, enc_strs,
    enc_u32s, enc_u64s, lemma_enc_byte_arrays_push, lemma_enc_i16s_push, lemma_enc_i32s_push,
    lemma_enc_i64s_push, lemma_enc_strs_push, lemma_enc_u32s_push, lemma_enc_u64s_push, ListModel,
    TagModel,
};
use crate::text::java_cesu8_bytes_of;
use crate::TagType;

verus! {

/// The bytes a field starts with: its kind byte, then its name when it
/// has one. List elements are unnamed.
pub open spec fn header_bytes(name: Option<&str>, tag: TagType) -> Seq<u8> {
    seq![tag.spec_id()] + (match name {
        Some(n) => enc_name(n@),
        None => Seq::<u8>::empty(),
    })
}

/// A builder bound to exactly one field slot: the first value write
/// puts down the kind byte, the name, and the payload, and the builder
/// is then finished for good. It is created with
/// [`CompoundWriter::field`].
pub struct TagWriter<'a> {
    name: Option<&'a str>,
    done: bool,
}

impl<'a> TagWriter<'a> {
    /// Whether the field has been written.
    pub closed spec fn is_done(&self) -> bool {
        self.done
    }

    /// The name the field will be written under, if any.
    pub closed spec fn field_name(&self) -> Option<&'a str> {
        self.name
    }

    pub(crate) fn new_field(name: &'a str) -> (r: TagWriter<'a>)
        ensures
            !r.is_done(),
            r.field_name() == Some(name),
    {
        TagWriter { name: Some(name), done: false }
    }

    /// Writes the kind byte and the name, and finishes this builder.
    fn header(&mut self, w: &mut NbtWriter, tag: TagType)
        requires
            !old(self).is_done(),
        ensures
            final(self).is_done(),
            final(w).started() == old(w).started(),
            final(w).bytes() == old(w).bytes() + header_bytes(old(self).field_name(), tag),
    {
        let ghost base = w.bytes();
        w.write_tag(tag);
        match self.name {
            Some(name) => {
                w.write_string(name);
                proof {
                    assert(base + seq![tag.spec_id()] + enc_name(name@) =~= base + header_bytes(
                        old(self).field_name(),
                        tag,
                    ));
                }
            },
            None => {
                proof {
                    assert(base + seq![tag.spec_id()] =~= base + header_bytes(
                        old(self).field_name(),
                        tag,
                    ));
                }
            },
        }
        self.done = true;
    }

    /// Writes this field as a Byte tag.
    pub fn byte(&mut self, w: &mut NbtWriter, value: i8)
        requires
            !old(self).is_done(),
        ensures
            final(self).is_done(),
            final(w).started() == old(w).started(),
            final(w).bytes() == old(w).bytes() + header_bytes(old(self).field_name(), TagType::Byte)
                + enc_payload(TagModel::Byte(value)),
    {
        self.header(w, TagType::Byte);
        w.write_i8(value);
    }

    /// Writes this field as a Short tag.
    pub fn short(&mut self, w: &mut NbtWriter, value: i16)
        requires
            !old(self).is_done(),
        ensures
            final(self).is_done(),
            final(w).started() == old(w).started(),
            final(w).bytes() == old(w).bytes() + header_bytes(
                old(self).field_name(),
                TagType::Short,
            ) + enc_payload(TagModel::Short(value)),
    {
        self.header(w, TagType::Short);
        w.write_i16(value);
    }

    /// Writes this field as an Int tag.
    pub fn int32(&mut self, w: &mut NbtWriter, value: i32)
        requires
            !old(self).is_done(),
        ensures
            final(self).is_done(),
            final(w).started() == old(w).started(),
            final(w).bytes() == old(w).bytes() + header_bytes(old(self).field_name(), TagType::Int)
                + enc_payload(TagModel::Int(value)),
    {
        self.header(w, TagType::Int);
        w.write_i32(value);
    }

    /// Writes this field as a Long tag.
    pub fn long(&mut self, w: &mut NbtWriter, value: i64)
        requires
            !old(self).is_done(),
        ensures
            final(self).is_done(),
            final(w).started() == old(w).started(),
            final(w).bytes() == old(w).bytes() + header_bytes(old(self).field_name(), TagType::Long)
                + enc_payload(TagModel::Long(value)),
    {
        self.header(w, TagType::Long);
        w.write_i64(value);
    }

    /// Writes this field as a Float tag, from the raw bits of a 32-bit
    /// IEEE-754 number.
    pub fn float_bits(&mut self, w: &mut NbtWriter, bits: u32)
        requires
            !old(self).is_done(),
        ensures
            final(self).is_done(),
            final(w).started() == old(w).started(),
            final(w).bytes() == old(w).bytes() + header_bytes(
                old(self).field_name(),
                TagType::Float,
            ) + enc_payload(TagModel::Float(bits)),
    {
        self.header(w, TagType::Float);
        w.write_u32(bits);
    }

    /// Writes this field as a Double tag, from the raw bits of a 64-bit
    /// IEEE-754 number.
    pub fn double_bits(&mut self, w: &mut NbtWriter, bits: u64)
        requires
            !old(self).is_done(),
        ensures
            final(self).is_done(),
            final(w).started() == old(w).started(),
            final(w).bytes() == old(w).bytes() + header_bytes(
                old(self).field_name(),
                TagType::Double,
            ) + enc_payload(TagModel::Double(bits)),
    {
        self.header(w, TagType::Double);
        w.write_u64(bits);
    }

    /// Writes this field as a ByteArray tag.
    pub fn byte_array(&mut self, w: &mut NbtWriter, data: &[u8])
        requires
            !old(self).is_done(),
        ensures
            final(self).is_done(),
            final(w).started() == old(w).started(),
            final(w).bytes() == old(w).bytes() + header_bytes(
                old(self).field_name(),
                TagType::ByteArray,
            ) + enc_payload(TagModel::ByteArray(data@)),
    {
        self.header(w, TagType::ByteArray);
        write_count(w, data.len());
        w.write_bytes(data);
        proof {
            assert(final(w).bytes() =~= old(w).bytes() + header_bytes(
                old(self).field_name(),
                TagType::ByteArray,
            ) + enc_payload(TagModel::ByteArray(data@)));
        }
    }

    /// Writes this field as a String tag, encoding the text as
    /// modified UTF-8.
    pub fn string(&mut self, w: &mut NbtWriter, value: &str)
        requires
            !old(self).is_done(),
        ensures
            final(self).is_done(),
            final(w).started() == old(w).started(),
            final(w).bytes() == old(w).bytes() + header_bytes(
                old(self).field_name(),
                TagType::String,
            ) + enc_payload(TagModel::String(java_cesu8_bytes_of(value@))),
    {
        self.header(w, TagType::String);
        w.write_string(value);
    }

    /// Like [`string`](TagWriter::string), but writes raw bytes, for
    /// text already encoded or not encodable.
    pub fn raw_string(&mut self, w: &mut NbtWriter, data: &[u8])
        requires
            !old(self).is_done(),
        ensures
            final(self).is_done(),
            final(w).started() == old(w).started(),
            final(w).bytes() == old(w).bytes() + header_bytes(
                old(self).field_name(),
                TagType::String,
            ) + enc_payload(TagModel::String(data@)),
    {
        self.header(w, TagType::String);
        let len16: u16 = ((data.len() as u64) % 0x1_0000) as u16;
        w.write_u16(len16);
        w.write_bytes(data);
        proof {
            assert(final(w).bytes() =~= old(w).bytes() + header_bytes(
                old(self).field_name(),
                TagType::String,
            ) + enc_payload(TagModel::String(data@)));
        }
    }

    /// Writes this field's header as a Compound tag and returns a
    /// builder for its contents; this builder is then finished.
    pub fn compound(&mut self, w: &mut NbtWriter) -> (r: CompoundWriter)
        requires
            !old(self).is_done(),
        ensures
            final(self).is_done(),
            final(w).started() == old(w).started(),
            final(w).bytes() == old(w).bytes() + header_bytes(
                old(self).field_name(),
                TagType::Compound,
            ),
    {
        self.header(w, TagType::Compound);
        CompoundWriter::new()
    }

    /// Writes this field as an IntArray tag.
    pub fn int_array(&mut self, w: &mut NbtWriter, data: &[i32])
        requires
            !old(self).is_done(),
        ensures
            final(self).is_done(),
            final(w).started() == old(w).started(),
            final(w).bytes() == old(w).bytes() + header_bytes(
                old(self).field_name(),
                TagType::IntArray,
            ) + enc_payload(TagModel::IntArray(data@)),
    {
        self.header(w, TagType::IntArray);
        write_count(w, data.len());
        write_i32_run(w, data);
        proof {
            assert(final(w).bytes() =~= old(w).bytes() + header_bytes(
                old(self).field_name(),
                TagType::IntArray,
            ) + enc_payload(TagModel::IntArray(data@)));
        }
    }

    /// Writes this field as a LongArray tag.
    pub fn long_array(&mut self, w: &mut NbtWriter, data: &[i64])
        requires
            !old(self).is_done(),
        ensures
            final(self).is_done(),
            final(w).started() == old(w).started(),
            final(w).bytes() == old(w).bytes() + header_bytes(
                old(self).field_name(),
                TagType::LongArray,
            ) + enc_payload(TagModel::LongArray(data@)),
    {
        self.header(w, TagType::LongArray);
        write_count(w, data.len());
        write_i64_run(w, data);
        proof {
            assert(final(w).bytes() =~= old(w).bytes() + header_bytes(
                old(self).field_name(),
                TagType::LongArray,
            ) + enc_payload(TagModel::LongArray(data@)));
        }
    }

    /// Writes this field as a List of Byte tags.
    pub fn byte_list(&mut self, w: &mut NbtWriter, data: &[u8])
        requires
            !old(self).is_done(),
        ensures
            final(self).is_done(),
            final(w).started() == old(w).started(),
            final(w).bytes() == old(w).bytes() + header_bytes(old(self).field_name(), TagType::List)
                + enc_payload(TagModel::List(ListModel::Byte(data@))),
    {
        self.header(w, TagType::List);
        w.write_tag(TagType::Byte);
        write_count(w, data.len());
        w.write_bytes(data);
        proof {
            assert(final(w).bytes() =~= old(w).bytes() + header_bytes(
                old(self).field_name(),
                TagType::List,
            ) + enc_payload(TagModel::List(ListModel::Byte(data@))));
        }
    }

    /// Writes this field as a List of Short tags.
    pub fn short_list(&mut self, w: &mut NbtWriter, data: &[i16])
        requires
            !old(self).is_done(),
        ensures
            final(self).is_done(),
            final(w).started() == old(w).started(),
            final(w).bytes() == old(w).bytes() + header_bytes(old(self).field_name(), TagType::List)
                + enc_payload(TagModel::List(ListModel::Short(data@))),
    {
        self.header(w, TagType::List);
        w.write_tag(TagType::Short);
        write_count(w, data.len());
        write_i16_run(w, data);
        proof {
            assert(final(w).bytes() =~= old(w).bytes() + header_bytes(
                old(self).field_name(),
                TagType::List,
            ) + enc_payload(TagModel::List(ListModel::Short(data@))));
        }
    }

    /// Writes this field as a List of Int tags.
    pub fn int_list(&mut self, w: &mut NbtWriter, data: &[i32])
        requires
            !old(self).is_done(),
        ensures
            final(self).is_done(),
            final(w).started() == old(w).started(),
            final(w).bytes() == old(w).bytes() + header_bytes(old(self).field_name(), TagType::List)
                + enc_payload(TagModel::List(ListModel::Int(data@))),
    {
        self.header(w, TagType::List);
        w.write_tag(TagType::Int);
        write_count(w, data.len());
        write_i32_run(w, data);
        proof {
            assert(final(w).bytes() =~= old(w).bytes() + header_bytes(
                old(self).field_name(),
                TagType::List,
            ) + enc_payload(TagModel::List(ListModel::Int(data@))));
        }
    }

    /// Writes this field as a List of Long tags.
    pub fn long_list(&mut self, w: &mut NbtWriter, data: &[i64])
        requires
            !old(self).is_done(),
        ensures
            final(self).is_done(),
            final(w).started() == old(w).started(),
            final(w).bytes() == old(w).bytes() + header_bytes(old(self).field_name(), TagType::List)
                + enc_payload(TagModel::List(ListModel::Long(data@))),
    {
        self.header(w, TagType::List);
        w.write_tag(TagType::Long);
        write_count(w, data.len());
        write_i64_run(w, data);
        proof {
            assert(final(w).bytes() =~= old(w).bytes() + header_bytes(
                old(self).field_name(),
                TagType::List,
            ) + enc_payload(TagModel::List(ListModel::Long(data@))));
        }
    }

    /// Writes this field as a List of Float tags, from the raw bits of
    /// 32-bit IEEE-754 numbers.
    pub fn float_bits_list(&mut self, w: &mut NbtWriter, data: &[u32])
        requires
            !old(self).is_done(),
        ensures
            final(self).is_done(),
            final(w).started() == old(w).started(),
            final(w).bytes() == old(w).bytes() + header_bytes(old(self).field_name(), TagType::List)
                + enc_payload(TagModel::List(ListModel::Float(data@))),
    {
        self.header(w, TagType::List);
        w.write_tag(TagType::Float);
        write_count(w, data.len());
        write_u32_run(w, data);
        proof {
            assert(final(w).bytes() =~= old(w).bytes() + header_bytes(
                old(self).field_name(),
                TagType::List,
            ) + enc_payload(TagModel::List(ListModel::Float(data@))));
        }
    }

    /// Writes this field as a List of Double tags, from the raw bits of
    /// 64-bit IEEE-754 numbers.
    pub fn double_bits_list(&mut self, w: &mut NbtWriter, data: &[u64])
        requires
            !old(self).is_done(),
        ensures
            final(self).is_done(),
            final(w).started() == old(w).started(),
            final(w).bytes() == old(w).bytes() + header_bytes(old(self).field_name(), TagType::List)
                + enc_payload(TagModel::List(ListModel::Double(data@))),
    {
        self.header(w, TagType::List);
        w.write_tag(TagType::Double);
        write_count(w, data.len());
        write_u64_run(w, data);
        proof {
            assert(final(w).bytes() =~= old(w).bytes() + header_bytes(
                old(self).field_name(),
                TagType::List,
            ) + enc_payload(TagModel::List(ListModel::Double(data@))));
        }
    }

    /// Writes this field as a List of String tags.
    pub fn string_list(&mut self, w: &mut NbtWriter, data: &[&str])
        requires
            !old(self).is_done(),
        ensures
            final(self).is_done(),
            final(w).started() == old(w).started(),
            final(w).bytes() == old(w).bytes() + header_bytes(old(self).field_name(), TagType::List)
                + enc_payload(
                TagModel::List(
                    ListModel::String(
                        Seq::new(data@.len(), |i: int| java_cesu8_bytes_of(data@[i]@)),
                    ),
                ),
            ),
    {
        let ghost strs = Seq::new(data@.len(), |i: int| java_cesu8_bytes_of(data@[i]@));
        self.header(w, TagType::List);
        w.write_tag(TagType::String);
        write_count(w, data.len());
        let ghost base = w.bytes();
        let mut i: usize = 0;
        proof {
            assert(strs.subrange(0, 0) =~= Seq::<Seq<u8>>::empty());
            assert(base + enc_strs(strs.subrange(0, 0)) =~= base);
        }
        while i < data.len()
            invariant
                i <= data@.len(),
                w.bytes() == base + enc_strs(strs.subrange(0, i as int)),
                w.started() == old(w).started(),
                strs == Seq::new(data@.len(), |k: int| java_cesu8_bytes_of(data@[k]@)),
            decreases data@.len() - i,
        {
            let ghost pre = strs.subrange(0, i as int);
            w.write_string(data[i]);
            proof {
                assert(strs.subrange(0, i + 1) =~= pre.push(strs[i as int]));
                lemma_enc_strs_push(pre, strs[i as int]);
                assert(enc_name(data@[i as int]@) == enc_str(strs[i as int]));
                assert((base + enc_strs(pre)) + enc_str(strs[i as int]) =~= base + (enc_strs(pre)
                    + enc_str(strs[i as int])));
            }
            i = i + 1;
        }
        proof {
            assert(strs.subrange(0, strs.len() as int) =~= strs);
            assert(final(w).bytes() =~= old(w).bytes() + header_bytes(
                old(self).field_name(),
                TagType::List,
            ) + enc_payload(TagModel::List(ListModel::String(strs))));
        }
    }

    /// Writes this field as a List of ByteArray tags.
    pub fn byte_array_list(&mut self, w: &mut NbtWriter, data: &[&[u8]])
        requires
            !old(self).is_done(),
        ensures
            final(self).is_done(),
            final(w).started() == old(w).started(),
            final(w).bytes() == old(w).bytes() + header_bytes(old(self).field_name(), TagType::List)
                + enc_payload(
                TagModel::List(ListModel::ByteArray(Seq::new(data@.len(), |i: int| data@[i]@))),
            ),
    {
        let ghost arrays = Seq::new(data@.len(), |i: int| data@[i]@);
        self.header(w, TagType::List);
        w.write_tag(TagType::ByteArray);
        write_count(w, data.len());
        let ghost base = w.bytes();
        let mut i: usize = 0;
        proof {
            assert(arrays.subrange(0, 0) =~= Seq::<Seq<u8>>::empty());
            assert(base + enc_byte_arrays(arrays.subrange(0, 0)) =~= base);
        }
        while i < data.len()
            invariant
                i <= data@.len(),
                w.bytes() == base + enc_byte_arrays(arrays.subrange(0, i as int)),
                w.started() == old(w).started(),
                arrays == Seq::new(data@.len(), |k: int| data@[k]@),
            decreases data@.len() - i,
        {
            let ghost pre = arrays.subrange(0, i as int);
            let element = data[i];
            write_count(w, element.len());
            w.write_bytes(element);
            proof {
                assert(arrays.subrange(0, i + 1) =~= pre.push(arrays[i as int]));
                lemma_enc_byte_arrays_push(pre, arrays[i as int]);
                assert(((base + enc_byte_arrays(pre)) + enc_count(arrays[i as int].len()))
                    + arrays[i as int] =~= base + ((enc_byte_arrays(pre) + enc_count(
                    arrays[i as int].len(),
                )) + arrays[i as int]));
            }
            i = i + 1;
        }
        proof {
            assert(arrays.subrange(0, arrays.len() as int) =~= arrays);
            assert(final(w).bytes() =~= old(w).bytes() + header_bytes(
                old(self).field_name(),
                TagType::List,
            ) + enc_payload(TagModel::List(ListModel::ByteArray(arrays))));
        }
    }

    /// Writes this field's header as a List of Compound tags and
    /// returns a builder for the elements; this builder is then
    /// finished.
    pub fn compound_list(&mut self, w: &mut NbtWriter) -> (r: CompoundListWriter)
        requires
            !old(self).is_done(),
        ensures
            final(self).is_done(),
            final(w).started() == old(w).started(),
            final(w).bytes() == old(w).bytes() + header_bytes(old(self).field_name(), TagType::List)
                + seq![TagType::Compound.spec_id()] + crate::format::be32(0),
            r.count() == 0,
            r.count_at() + 4 == final(w).bytes().len(),
    {
        self.header(w, TagType::List);
        CompoundListWriter::new(w)
    }

    /// Whether the tag has been written into.
    pub fn is_finished(&self) -> (r: bool)
        ensures
            r == self.is_done(),
    {
        self.done
    }
}

/// Writes a 4-byte count, modulo the width of the prefix.
pub(crate) fn write_count(w: &mut NbtWriter, n: usize)
    ensures
        final(w).bytes() == old(w).bytes() + enc_count(n as nat),
        final(w).started() == old(w).started(),
{
    w.write_u32(((n as u64) % 0x1_0000_0000) as u32);
}

fn write_i16_run(w: &mut NbtWriter, data: &[i16])
    ensures
        final(w).bytes() == old(w).bytes() + enc_i16s(data@),
        final(w).started() == old(w).started(),
{
    let ghost base = w.bytes();
    let mut i: usize = 0;
    proof {
        assert(data@.subrange(0, 0) =~= Seq::<i16>::empty());
        assert(base + enc_i16s(data@.subrange(0, 0)) =~= base);
    }
    while i < data.len()
        invariant
            i <= data@.len(),
            w.bytes() == base + enc_i16s(data@.subrange(0, i as int)),
            w.started() == old(w).started(),
        decreases data@.len() - i,
    {
        let ghost pre = data@.subrange(0, i as int);
        w.write_i16(data[i]);
        proof {
            assert(data@.subrange(0, i + 1) =~= pre.push(data@[i as int]));
            lemma_enc_i16s_push(pre, data@[i as int]);
            assert((base + enc_i16s(pre)) + crate::format::be16(
                crate::format::i16_as_u16(data@[i as int]),
            ) =~= base + enc_i16s(pre.push(data@[i as int])));
        }
        i = i + 1;
    }
    proof {
        assert(data@.subrange(0, data@.len() as int) =~= data@);
    }
}

fn write_i32_run(w: &mut NbtWriter, data: &[i32])
    ensures
        final(w).bytes() == old(w).bytes() + enc_i32s(data@),
        final(w).started() == old(w).started(),
{
    let ghost base = w.bytes();
    let mut i: usize = 0;
    proof {
        assert(data@.subrange(0, 0) =~= Seq::<i32>::empty());
        assert(base + enc_i32s(data@.subrange(0, 0)) =~= base);
    }
    while i < data.len()
        invariant
            i <= data@.len(),
            w.bytes() == base + enc_i32s(data@.subrange(0, i as int)),
            w.started() == old(w).started(),
        decreases data@.len() - i,
    {
        let ghost pre = data@.subrange(0, i as int);
        w.write_i32(data[i]);
        proof {
            assert(data@.subrange(0, i + 1) =~= pre.push(data@[i as int]));
            lemma_enc_i32s_push(pre, data@[i as int]);
            assert((base + enc_i32s(pre)) + crate::format::be32(
                crate::format::i32_as_u32(data@[i as int]),
            ) =~= base + enc_i32s(pre.push(data@[i as int])));
        }
        i = i + 1;
    }
    proof {
        assert(data@.subrange(0, data@.len() as int) =~= data@);
    }
}

fn write_u32_run(w: &mut NbtWriter, data: &[u32])
    ensures
        final(w).bytes() == old(w).bytes() + enc_u32s(data@),
        final(w).started() == old(w).started(),
{
    let ghost base = w.bytes();
    let mut i: usize = 0;
    proof {
        assert(data@.subrange(0, 0) =~= Seq::<u32>::empty());
        assert(base + enc_u32s(data@.subrange(0, 0)) =~= base);
    }
    while i < data.len()
        invariant
            i <= data@.len(),
            w.bytes() == base + enc_u32s(data@.subrange(0, i as int)),
            w.started() == old(w).started(),
        decreases data@.len() - i,
    {
        let ghost pre = data@.subrange(0, i as int);
        w.write_u32(data[i]);
        proof {
            assert(data@.subrange(0, i + 1) =~= pre.push(data@[i as int]));
            lemma_enc_u32s_push(pre, data@[i as int]);
            assert((base + enc_u32s(pre)) + crate::format::be32(data@[i as int]) =~= base
                + enc_u32s(pre.push(data@[i as int])));
        }
        i = i + 1;
    }
    proof {
        assert(data@.subrange(0, data@.len() as int) =~= data@);
    }
}

fn write_u64_run(w: &mut NbtWriter, data: &[u64])
    ensures
        final(w).bytes() == old(w).bytes() + enc_u64s(data@),
        final(w).started() == old(w).started(),
{
    let ghost base = w.bytes();
    let mut i: usize = 0;
    proof {
        assert(data@.subrange(0, 0) =~= Seq::<u64>::empty());
        assert(base + enc_u64s(data@.subrange(0, 0)) =~= base);
    }
    while i < data.len()
        invariant
            i <= data@.len(),
            w.bytes() == base + enc_u64s(data@.subrange(0, i as int)),
            w.started() == old(w).started(),
        decreases data@.len() - i,
    {
        let ghost pre = data@.subrange(0, i as int);
        w.write_u64(data[i]);
        proof {
            assert(data@.subrange(0, i + 1) =~= pre.push(data@[i as int]));
            lemma_enc_u64s_push(pre, data@[i as int]);
            assert((base + enc_u64s(pre)) + crate::format::be64(data@[i as int]) =~= base
                + enc_u64s(pre.push(data@[i as int])));
        }
        i = i + 1;
    }
    proof {
        assert(data@.subrange(0, data@.len() as int) =~= data@);
    }
}

fn write_i64_run(w: &mut NbtWriter, data: &[i64])
    ensures
        final(w).bytes() == old(w).bytes() + enc_i64s(data@),
        final(w).started() == old(w).started(),
{
    let ghost base = w.bytes();
    let mut i: usize = 0;
    proof {
        assert(data@.subrange(0, 0) =~= Seq::<i64>::empty());
        assert(base + enc_i64s(data@.subrange(0, 0)) =~= base);
    }
    while i < data.len()
        invariant
            i <= data@.len(),
            w.bytes() == base + enc_i64s(data@.subrange(0, i as int)),
            w.started() == old(w).started(),
        decreases data@.len() - i,
    {
        let ghost pre = data@.subrange(0, i as int);
        w.write_i64(data[i]);
        proof {
            assert(data@.subrange(0, i + 1) =~= pre.push(data@[i as int]));
            lemma_enc_i64s_push(pre, data@[i as int]);
            assert((base + enc_i64s(pre)) + crate::format::be64(
                crate::format::i64_as_u64(data@[i as int]),
            ) =~= base + enc_i64s(pre.push(data@[i as int])));
        }
        i = i + 1;
    }
    proof {
        assert(data@.subrange(0, data@.len() as int) =~= data@);
    }
}

} // verus!
