//! Decoder for the NBT binary format. Almost all of the types here are
//! borrows into the original data buffer rather than copies; the main
//! exception is the bookkeeping needed for Compound tags.
//!
//! The entry point is [`Document`]: it owns the raw bytes, and
//! [`Document::parse`] yields the root compound with every nested
//! value as a view into that buffer.

use vstd::prelude::*;

use crate::format::{
    p_document, p_kind, p_payload, p_run, u8_as_i8, EntryModel, TagModel,
};
use crate::TagType;

pub mod array;
pub mod compound;
pub mod internal;
pub mod list;
pub mod string;

pub use array::{IntArray, LongArray, NbtArray, NbtArrayIter, NbtPrimitive};
pub use compound::{Compound, Entry};
pub use internal::Reader;
pub use list::{
    ByteArrayList, CompoundList, DoubleList, FloatList, IntArrayList, IntList, List, ListList,
    LongArrayList, LongList, NbtList, NbtListIter, ShortList, StringList,
};
pub use string::NbtString;

verus! {

/// Failures which can occur while parsing an NBT document.
#[derive(Debug, Clone, Copy, PartialEq, Eq, Structural)]
pub enum ParseError {
    /// The document ended where more bytes were required: a primitive
    /// missing its payload, an array or string shorter than its length
    /// prefix said, a list with fewer elements than its count, or a
    /// compound without its terminator.
    EOF,
    /// A kind byte outside the known range was found in the stream,
    /// carrying the raw byte and the offset at which it was read.
    UnknownTag { tag: u8, offset: usize },
    /// An End kind was found where a value was expected. End may only
    /// terminate a compound, or introduce an empty list.
    UnexpectedEndTag,
    /// The root of a document must be a Compound tag; this carries the
    /// kind that was actually read.
    IncorrectStartTag { tag: TagType },
}

impl ParseError {
    /// The text the error is described by.
    pub open spec fn spec_message(self) -> Seq<char> {
        match self {
            ParseError::EOF => "Unexpected end of file"@,
            ParseError::UnknownTag { tag, offset } => "Unknown tag "@ + string::dec_digits(
                tag as nat,
            ) + " at offset 0x"@ + string::hex_digits(offset as nat),
            ParseError::UnexpectedEndTag => "Unexpected end tag in document"@,
            ParseError::IncorrectStartTag { tag } => "Document starts with tag "@
                + tag.spec_name() + ", it should only start with Compound."@,
        }
    }

    /// Describes the error as text.
    pub fn message(&self) -> (r: String)
        ensures
            r@ == self.spec_message(),
    {
        match self {
            ParseError::EOF => {
                let r = <String as vstd::string::StringExecFns>::from_str(
                    "Unexpected end of file",
                );
                r
            },
            ParseError::UnknownTag { tag, offset } => {
                let mut r = <String as vstd::string::StringExecFns>::from_str("Unknown tag ");
                let digits = string::dec_string(*tag as u64);
                vstd::string::StringExecFns::append(&mut r, digits.as_str());
                vstd::string::StringExecFns::append(&mut r, " at offset 0x");
                let hex = string::hex_string(*offset as u64);
                vstd::string::StringExecFns::append(&mut r, hex.as_str());
                proof {
                    assert(r@ =~= self.spec_message());
                }
                r
            },
            ParseError::UnexpectedEndTag => {
                let r = <String as vstd::string::StringExecFns>::from_str(
                    "Unexpected end tag in document",
                );
                r
            },
            ParseError::IncorrectStartTag { tag } => {
                let mut r = <String as vstd::string::StringExecFns>::from_str(
                    "Document starts with tag ",
                );
                vstd::string::StringExecFns::append(&mut r, tag.name());
                vstd::string::StringExecFns::append(
                    &mut r,
                    ", it should only start with Compound.",
                );
                proof {
                    assert(r@ =~= self.spec_message());
                }
                r
            },
        }
    }
}

/// Representation for all values that a tag can be. Floating-point
/// payloads are carried as their raw IEEE-754 bits; interpreting them
/// as native numbers is the caller's affair.
pub enum Tag<'a> {
    /// A small 8-bit integer.
    Byte(i8),
    /// A 16-bit integer.
    Short(i16),
    /// A 32-bit integer.
    Int(i32),
    /// A 64-bit integer.
    Long(i64),
    /// The raw bits of a 32-bit IEEE-754 number.
    Float(u32),
    /// The raw bits of a 64-bit IEEE-754 number.
    Double(u64),
    /// An array of raw bytes.
    ByteArray(&'a [u8]),
    /// A string of modified-UTF-8 text.
    String(NbtString<'a>),
    /// An array of 32-bit integers.
    IntArray(IntArray<'a>),
    /// An array of 64-bit integers.
    LongArray(LongArray<'a>),
    /// A list of one element kind; nested lists may differ in kind.
    List(List<'a>),
    /// An ordered list of key/value pairs.
    Compound(Compound<'a>),
}

impl<'a> Tag<'a> {
    pub closed spec fn model(self) -> TagModel
        decreases self,
    {
        match self {
            Tag::Byte(v) => TagModel::Byte(v),
            Tag::Short(v) => TagModel::Short(v),
            Tag::Int(v) => TagModel::Int(v),
            Tag::Long(v) => TagModel::Long(v),
            Tag::Float(bits) => TagModel::Float(bits),
            Tag::Double(bits) => TagModel::Double(bits),
            Tag::ByteArray(b) => TagModel::ByteArray(b@),
            Tag::String(s) => TagModel::String(s@),
            Tag::IntArray(a) => TagModel::IntArray(a@),
            Tag::LongArray(a) => TagModel::LongArray(a@),
            Tag::List(l) => TagModel::List(l.model()),
            Tag::Compound(c) => TagModel::Compound(c.model()),
        }
    }

    /// Reads the payload of one tag of the given kind; primitives
    /// decode inline, the structured kinds delegate to their readers.
    /// An End kind here is invalid.
    pub(crate) fn read(tag: TagType, reader: &mut Reader<'a>) -> (r: Result<Tag<'a>, ParseError>)
        requires
            old(reader).wf(),
        ensures
            final(reader).wf(),
            final(reader).data() == old(reader).data(),
            match r {
                Ok(t) => {
                    &&& p_payload(tag, old(reader).data(), old(reader).pos()) == Ok::<
                        _,
                        ParseError,
                    >((t@, final(reader).pos()))
                    &&& old(reader).pos() < final(reader).pos() <= final(reader).data().len()
                },
                Err(e) => p_payload(tag, old(reader).data(), old(reader).pos()) == Err::<
                    (TagModel, int),
                    _,
                >(e),
            },
        decreases old(reader).data().len() - old(reader).pos(), 3int,
    {
        match tag {
            TagType::End => Err(ParseError::UnexpectedEndTag),
            TagType::Byte => {
                let s = match reader.advance(1) {
                    Ok(s) => s,
                    Err(e) => {
                        return Err(e);
                    },
                };
                assert(s@.len() == 1);
                let b = s[0];
                let v: i8 = if b < 0x80 {
                    b as i8
                } else {
                    -0x80i8 + ((b - 0x80) as i8)
                };
                assert(v == u8_as_i8(b));
                Ok(Tag::Byte(v))
            },
            TagType::Short => {
                let s = match reader.advance(2) {
                    Ok(s) => s,
                    Err(e) => {
                        return Err(e);
                    },
                };
                assert(s@.len() == 2);
                Ok(Tag::Short(<i16 as NbtPrimitive>::read(s)))
            },
            TagType::Int => {
                let s = match reader.advance(4) {
                    Ok(s) => s,
                    Err(e) => {
                        return Err(e);
                    },
                };
                assert(s@.len() == 4);
                Ok(Tag::Int(<i32 as NbtPrimitive>::read(s)))
            },
            TagType::Long => {
                let s = match reader.advance(8) {
                    Ok(s) => s,
                    Err(e) => {
                        return Err(e);
                    },
                };
                assert(s@.len() == 8);
                Ok(Tag::Long(<i64 as NbtPrimitive>::read(s)))
            },
            TagType::Float => {
                let s = match reader.advance(4) {
                    Ok(s) => s,
                    Err(e) => {
                        return Err(e);
                    },
                };
                assert(s@.len() == 4);
                Ok(Tag::Float(<u32 as NbtPrimitive>::read(s)))
            },
            TagType::Double => {
                let s = match reader.advance(8) {
                    Ok(s) => s,
                    Err(e) => {
                        return Err(e);
                    },
                };
                assert(s@.len() == 8);
                Ok(Tag::Double(<u64 as NbtPrimitive>::read(s)))
            },
            TagType::String => {
                match NbtString::read(reader) {
                    Ok(s) => Ok(Tag::String(s)),
                    Err(e) => Err(e),
                }
            },
            TagType::List => {
                match List::read(reader) {
                    Ok(l) => Ok(Tag::List(l)),
                    Err(e) => Err(e),
                }
            },
            TagType::Compound => {
                match Compound::read(reader) {
                    Ok(c) => Ok(Tag::Compound(c)),
                    Err(e) => Err(e),
                }
            },
            TagType::ByteArray => {
                match read_byte_array(reader) {
                    Ok(b) => Ok(Tag::ByteArray(b)),
                    Err(e) => Err(e),
                }
            },
            TagType::IntArray => {
                match NbtArray::<i32>::read(reader) {
                    Ok(a) => {
                        proof {
                            array::lemma_i32_elems(a);
                        }
                        Ok(Tag::IntArray(a))
                    },
                    Err(e) => Err(e),
                }
            },
            TagType::LongArray => {
                match NbtArray::<i64>::read(reader) {
                    Ok(a) => {
                        proof {
                            array::lemma_i64_elems(a);
                        }
                        Ok(Tag::LongArray(a))
                    },
                    Err(e) => Err(e),
                }
            },
        }
    }

    /// A copy of the tag; both are views into the same buffer.
    pub(crate) fn duplicate(&self) -> (r: Tag<'a>)
        ensures
            r@ == self@,
        decreases self,
    {
        match self {
            Tag::Byte(v) => Tag::Byte(*v),
            Tag::Short(v) => Tag::Short(*v),
            Tag::Int(v) => Tag::Int(*v),
            Tag::Long(v) => Tag::Long(*v),
            Tag::Float(bits) => Tag::Float(*bits),
            Tag::Double(bits) => Tag::Double(*bits),
            Tag::ByteArray(b) => Tag::ByteArray(b),
            Tag::String(s) => Tag::String(*s),
            Tag::IntArray(a) => Tag::IntArray(*a),
            Tag::LongArray(a) => Tag::LongArray(*a),
            Tag::List(l) => Tag::List(l.duplicate()),
            Tag::Compound(c) => Tag::Compound(c.duplicate()),
        }
    }

    /// The kind that represents this tag.
    pub fn tag_type(&self) -> (r: TagType)
        ensures
            r == self@.kind(),
    {
        match self {
            Tag::Byte(_) => TagType::Byte,
            Tag::Short(_) => TagType::Short,
            Tag::Int(_) => TagType::Int,
            Tag::Long(_) => TagType::Long,
            Tag::Float(_) => TagType::Float,
            Tag::Double(_) => TagType::Double,
            Tag::ByteArray(_) => TagType::ByteArray,
            Tag::String(_) => TagType::String,
            Tag::List(_) => TagType::List,
            Tag::Compound(_) => TagType::Compound,
            Tag::IntArray(_) => TagType::IntArray,
            Tag::LongArray(_) => TagType::LongArray,
        }
    }

    /// If this tag is a string, returns it; no coercion is performed.
    pub fn as_string(&self) -> (r: Option<NbtString<'a>>)
        ensures
            match r {
                Some(s) => self@ is String && s@ == self@->String_0,
                None => !(self@ is String),
            },
    {
        if let Tag::String(value) = self {
            Some(*value)
        } else {
            None
        }
    }

    /// If this tag is a byte array, returns it.
    pub fn as_byte_array(&self) -> (r: Option<&[u8]>)
        ensures
            match r {
                Some(b) => self@ is ByteArray && b@ == self@->ByteArray_0,
                None => !(self@ is ByteArray),
            },
    {
        if let Tag::ByteArray(value) = self {
            Some(value)
        } else {
            None
        }
    }

    /// If this tag is a compound, returns it.
    pub fn as_compound(&self) -> (r: Option<&Compound<'a>>)
        ensures
            match r {
                Some(c) => self@ is Compound && c@ == self@->Compound_0,
                None => !(self@ is Compound),
            },
    {
        if let Tag::Compound(value) = self {
            Some(value)
        } else {
            None
        }
    }

    /// If this tag is a list, returns it.
    pub fn as_list(&self) -> (r: Option<&List<'a>>)
        ensures
            match r {
                Some(l) => self@ is List && l@ == self@->List_0,
                None => !(self@ is List),
            },
    {
        if let Tag::List(value) = self {
            Some(value)
        } else {
            None
        }
    }

    /// Coerces the tag to a 64-bit integer: the four integer kinds
    /// yield their value, every other kind yields nothing.
    pub fn to_i64(&self) -> (r: Option<i64>)
        ensures
            r == (match self@ {
                TagModel::Byte(v) => Some(v as i64),
                TagModel::Short(v) => Some(v as i64),
                TagModel::Int(v) => Some(v as i64),
                TagModel::Long(v) => Some(v),
                _ => None::<i64>,
            }),
    {
        match *self {
            Tag::Byte(value) => Some(value as i64),
            Tag::Short(value) => Some(value as i64),
            Tag::Int(value) => Some(value as i64),
            Tag::Long(value) => Some(value),
            _ => None,
        }
    }
}

impl<'a> Clone for Tag<'a> {
    fn clone(&self) -> (r: Self)
        ensures
            r@ == self@,
    {
        self.duplicate()
    }
}

impl<'a> View for Tag<'a> {
    type V = TagModel;

    open spec fn view(&self) -> TagModel {
        self.model()
    }
}

/// Reads one kind byte; any value outside the known range fails with
/// the byte and its offset.
pub(crate) fn read_type(reader: &mut Reader<'_>) -> (r: Result<TagType, ParseError>)
    requires
        old(reader).wf(),
    ensures
        final(reader).wf(),
        final(reader).data() == old(reader).data(),
        match r {
            Ok(t) => {
                &&& p_kind(old(reader).data(), old(reader).pos()) == Ok::<_, ParseError>(
                    (t, final(reader).pos()),
                )
                &&& final(reader).pos() == old(reader).pos() + 1
            },
            Err(e) => p_kind(old(reader).data(), old(reader).pos()) == Err::<(TagType, int), _>(e),
        },
{
    let offset = reader.position();
    let s = match reader.advance(1) {
        Ok(s) => s,
        Err(e) => {
            return Err(e);
        },
    };
    assert(s@.len() == 1);
    let b = s[0];
    match b {
        0 => Ok(TagType::End),
        1 => Ok(TagType::Byte),
        2 => Ok(TagType::Short),
        3 => Ok(TagType::Int),
        4 => Ok(TagType::Long),
        5 => Ok(TagType::Float),
        6 => Ok(TagType::Double),
        7 => Ok(TagType::ByteArray),
        8 => Ok(TagType::String),
        9 => Ok(TagType::List),
        10 => Ok(TagType::Compound),
        11 => Ok(TagType::IntArray),
        12 => Ok(TagType::LongArray),
        tag => Err(ParseError::UnknownTag { tag, offset }),
    }
}

/// Reads a 4-byte count and then that many raw bytes.
pub(crate) fn read_byte_array<'a>(reader: &mut Reader<'a>) -> (r: Result<&'a [u8], ParseError>)
    requires
        old(reader).wf(),
    ensures
        final(reader).wf(),
        final(reader).data() == old(reader).data(),
        match r {
            Ok(b) => {
                &&& p_run(old(reader).data(), old(reader).pos(), 1) == Ok::<_, ParseError>(
                    (b@, final(reader).pos()),
                )
                &&& old(reader).pos() < final(reader).pos() <= final(reader).data().len()
            },
            Err(e) => p_run(old(reader).data(), old(reader).pos(), 1) == Err::<
                (Seq<u8>, int),
                _,
            >(e),
        },
{
    let prefix = match reader.advance(4) {
        Ok(s) => s,
        Err(e) => {
            return Err(e);
        },
    };
    assert(prefix@.len() == 4);
    let count: u32 = <u32 as NbtPrimitive>::read(prefix);
    match reader.advance(count as usize) {
        Ok(b) => Ok(b),
        Err(e) => Err(e),
    }
}

/// What decompressing a complete gzip stream yields: the decompressed
/// payload, or nothing when the bytes are not such a stream. The
/// result depends on the bytes alone.
pub uninterp spec fn gunzip_of(b: Seq<u8>) -> Option<Seq<u8>>;

#[verifier::external_type_specification]
#[verifier::external_body]
pub struct ExIoError(std::io::Error);

/// Relies on flate2's read::GzDecoder: `new` parses the gzip header at
/// once, `header` says whether it was valid, and reading to the end
/// yields the decompressed payload of a valid stream. Ok(None) means
/// the bytes carry no valid gzip header; the error means the header was
/// valid but the stream would not decompress.
#[verifier::external_body]
fn gunzip(data: &[u8]) -> (r: Result<Option<Vec<u8>>, std::io::Error>)
    ensures
        match r {
            Ok(o) => match o {
                Some(v) => gunzip_of(data@) == Some(v@),
                None => gunzip_of(data@) is None,
            },
            Err(_) => gunzip_of(data@) is None,
        },
{
    let mut decoder = flate2::read::GzDecoder::new(data);
    if decoder.header().is_some() {
        let mut out = vec![];
        match std::io::Read::read_to_end(&mut decoder, &mut out) {
            Ok(_) => Ok(Some(out)),
            Err(e) => Err(e),
        }
    } else {
        Ok(None)
    }
}

/// Represents an NBT document and owns the data contained in it. All
/// other decoder types are borrows of the data stored in this.
pub struct Document {
    data: Vec<u8>,
}

impl View for Document {
    type V = Seq<u8>;

    closed spec fn view(&self) -> Seq<u8> {
        self.data@
    }
}

impl Document {
    /// Loads a document from a byte buffer. Bytes that form a gzip
    /// stream are decompressed; any other bytes are copied as they
    /// are. The error is the decompressor's, for a stream whose header
    /// is valid but whose body will not decompress.
    pub fn load(input: &[u8]) -> (r: Result<Document, std::io::Error>)
        ensures
            match r {
                Ok(doc) => doc@ == (match gunzip_of(input@) {
                    Some(p) => p,
                    None => input@,
                }),
                Err(_) => gunzip_of(input@) is None,
            },
    {
        match gunzip(input) {
            Ok(Some(payload)) => Ok(Document { data: payload }),
            Ok(None) => {
                let data = vstd::slice::slice_to_vec(input);
                Ok(Document { data })
            },
            Err(e) => Err(e),
        }
    }

    /// Parses the document: reads the root's kind, which must be
    /// Compound, then the root's name and the root compound itself.
    /// Returns the name and contents of the root, or the first error.
    pub fn parse(&self) -> (r: Result<(NbtString<'_>, Compound<'_>), ParseError>)
        ensures
            match r {
                Ok((name, root)) => (match p_document(self@) {
                    Ok((n, es, _)) => n == name@ && es == root@,
                    Err(_) => false,
                }),
                Err(e) => p_document(self@) == Err::<(Seq<u8>, Seq<EntryModel>, int), _>(e),
            },
    {
        let mut reader = Reader::new(self.data.as_slice());
        let tag = match read_type(&mut reader) {
            Ok(t) => t,
            Err(e) => {
                return Err(e);
            },
        };
        if tag != TagType::Compound {
            return Err(ParseError::IncorrectStartTag { tag });
        }
        let name = match NbtString::read(&mut reader) {
            Ok(s) => s,
            Err(e) => {
                return Err(e);
            },
        };
        let root = match Compound::read(&mut reader) {
            Ok(c) => c,
            Err(e) => {
                return Err(e);
            },
        };
        Ok((name, root))
    }
}

} // verus!
