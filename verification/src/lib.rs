//! Decoder and encoder for NBT (Named Binary Tags), the tagged binary
//! tree format used by Minecraft for storing data.
//!
//! The decoder turns a byte buffer into a tree of borrowed views; the
//! encoder is builder-based and writes a document incrementally into a
//! single growing buffer.

pub mod bin_decode;
pub mod bin_encode;
pub mod format;
pub mod laws;
pub mod text;

use vstd::prelude::*;

verus! {

/// NBT tags are a 1-byte value used to specify which type is going to
/// follow. [`tag_id`](TagType::id) maps each kind to its wire value.
#[derive(Copy, Clone, PartialEq, Eq, Structural, Debug, Hash)]
pub enum TagType {
    /// Marks the end of a Compound tag; wire id 0.
    End,
    /// Contains an `i8`; wire id 1.
    Byte,
    /// Contains an `i16`; wire id 2.
    Short,
    /// Contains an `i32`; wire id 3.
    Int,
    /// Contains an `i64`; wire id 4.
    Long,
    /// Contains a 32-bit IEEE-754 number, held as its raw bits; wire id 5.
    Float,
    /// Contains a 64-bit IEEE-754 number, held as its raw bits; wire id 6.
    Double,
    /// Contains raw bytes; wire id 7.
    ByteArray,
    /// Contains length-prefixed modified-UTF-8 text; wire id 8.
    String,
    /// Contains a list of one element kind; wire id 9.
    List,
    /// Contains an ordered key-value sequence; wire id 10.
    Compound,
    /// Contains an array of `i32`; wire id 11.
    IntArray,
    /// Contains an array of `i64`; wire id 12.
    LongArray,
}

impl TagType {
    /// The 1-byte identifier this kind is written as.
    pub open spec fn spec_id(self) -> u8 {
        match self {
            TagType::End => 0,
            TagType::Byte => 1,
            TagType::Short => 2,
            TagType::Int => 3,
            TagType::Long => 4,
            TagType::Float => 5,
            TagType::Double => 6,
            TagType::ByteArray => 7,
            TagType::String => 8,
            TagType::List => 9,
            TagType::Compound => 10,
            TagType::IntArray => 11,
            TagType::LongArray => 12,
        }
    }

    /// Writes the kind out as its 1-byte wire identifier.
    #[verifier::when_used_as_spec(spec_id)]
    pub fn id(self) -> (r: u8)
        ensures
            r == self.spec_id(),
    {
        match self {
            TagType::End => 0,
            TagType::Byte => 1,
            TagType::Short => 2,
            TagType::Int => 3,
            TagType::Long => 4,
            TagType::Float => 5,
            TagType::Double => 6,
            TagType::ByteArray => 7,
            TagType::String => 8,
            TagType::List => 9,
            TagType::Compound => 10,
            TagType::IntArray => 11,
            TagType::LongArray => 12,
        }
    }

    /// The kind's name, as text.
    pub open spec fn spec_name(self) -> Seq<char> {
        match self {
            TagType::End => "End"@,
            TagType::Byte => "Byte"@,
            TagType::Short => "Short"@,
            TagType::Int => "Int"@,
            TagType::Long => "Long"@,
            TagType::Float => "Float"@,
            TagType::Double => "Double"@,
            TagType::ByteArray => "ByteArray"@,
            TagType::String => "String"@,
            TagType::List => "List"@,
            TagType::Compound => "Compound"@,
            TagType::IntArray => "IntArray"@,
            TagType::LongArray => "LongArray"@,
        }
    }

    /// The kind's name, as text.
    pub fn name(self) -> (r: &'static str)
        ensures
            r@ == self.spec_name(),
    {
        match self {
            TagType::End => "End",
            TagType::Byte => "Byte",
            TagType::Short => "Short",
            TagType::Int => "Int",
            TagType::Long => "Long",
            TagType::Float => "Float",
            TagType::Double => "Double",
            TagType::ByteArray => "ByteArray",
            TagType::String => "String",
            TagType::List => "List",
            TagType::Compound => "Compound",
            TagType::IntArray => "IntArray",
            TagType::LongArray => "LongArray",
        }
    }

    /// The kind a 1-byte identifier stands for, if any.
    pub open spec fn spec_of_id(b: u8) -> Option<TagType> {
        if b == 0 {
            Some(TagType::End)
        } else if b == 1 {
            Some(TagType::Byte)
        } else if b == 2 {
            Some(TagType::Short)
        } else if b == 3 {
            Some(TagType::Int)
        } else if b == 4 {
            Some(TagType::Long)
        } else if b == 5 {
            Some(TagType::Float)
        } else if b == 6 {
            Some(TagType::Double)
        } else if b == 7 {
            Some(TagType::ByteArray)
        } else if b == 8 {
            Some(TagType::String)
        } else if b == 9 {
            Some(TagType::List)
        } else if b == 10 {
            Some(TagType::Compound)
        } else if b == 11 {
            Some(TagType::IntArray)
        } else if b == 12 {
            Some(TagType::LongArray)
        } else {
            None
        }
    }
}

} // verus!
