//! The binary grammar of the format, written down as mathematics: the
//! mathematical tag tree, the encoding of a tree into bytes, and the
//! parse of a byte sequence back into a tree.
//!
//! These spec functions are the reference that the executable decoder
//! and encoder are verified against.

use vstd::prelude::*;

use crate::bin_decode::ParseError;
use crate::TagType;

verus! {

// ---------------------------------------------------------------------
// Two's-complement reinterpretation between signed and unsigned widths.
// ---------------------------------------------------------------------

pub open spec fn u8_as_i8(v: u8) -> i8 {
    if v < 0x80 {
        v as i8
    } else {
        (v - 0x100) as i8
    }
}

pub open spec fn i8_as_u8(v: i8) -> u8 {
    if v >= 0 {
        v as u8
    } else {
        (v + 0x100) as u8
    }
}

pub open spec fn u16_as_i16(v: u16) -> i16 {
    if v < 0x8000 {
        v as i16
    } else {
        (v - 0x1_0000) as i16
    }
}

pub open spec fn i16_as_u16(v: i16) -> u16 {
    if v >= 0 {
        v as u16
    } else {
        (v + 0x1_0000) as u16
    }
}

pub open spec fn u32_as_i32(v: u32) -> i32 {
    if v < 0x8000_0000 {
        v as i32
    } else {
        (v - 0x1_0000_0000) as i32
    }
}

pub open spec fn i32_as_u32(v: i32) -> u32 {
    if v >= 0 {
        v as u32
    } else {
        (v + 0x1_0000_0000) as u32
    }
}

pub open spec fn u64_as_i64(v: u64) -> i64 {
    if v < 0x8000_0000_0000_0000 {
        v as i64
    } else {
        (v - 0x1_0000_0000_0000_0000) as i64
    }
}

pub open spec fn i64_as_u64(v: i64) -> u64 {
    if v >= 0 {
        v as u64
    } else {
        (v + 0x1_0000_0000_0000_0000) as u64
    }
}

// ---------------------------------------------------------------------
// Big-endian bytes of fixed-width integers, and the values read back.
// ---------------------------------------------------------------------

pub open spec fn be16(v: u16) -> Seq<u8> {
    seq![(v / 0x100) as u8, (v % 0x100) as u8]
}

pub open spec fn be32(v: u32) -> Seq<u8> {
    be16((v / 0x1_0000) as u16) + be16((v % 0x1_0000) as u16)
}

pub open spec fn be64(v: u64) -> Seq<u8> {
    be32((v / 0x1_0000_0000) as u32) + be32((v % 0x1_0000_0000) as u32)
}

/// The value of 2 big-endian bytes.
pub open spec fn be16_val(b: Seq<u8>) -> u16 {
    (b[0] * 0x100 + b[1]) as u16
}

/// The value of 4 big-endian bytes.
pub open spec fn be32_val(b: Seq<u8>) -> u32 {
    (be16_val(b.subrange(0, 2)) * 0x1_0000 + be16_val(b.subrange(2, 4))) as u32
}

/// The value of 8 big-endian bytes.
pub open spec fn be64_val(b: Seq<u8>) -> u64 {
    (be32_val(b.subrange(0, 4)) * 0x1_0000_0000 + be32_val(b.subrange(4, 8))) as u64
}

pub proof fn lemma_be16_round_trip(v: u16)
    ensures
        be16_val(be16(v)) == v,
        be16(v).len() == 2,
{
}

pub proof fn lemma_be32_round_trip(v: u32)
    ensures
        be32_val(be32(v)) == v,
        be32(v).len() == 4,
{
    let hi = (v / 0x1_0000) as u16;
    let lo = (v % 0x1_0000) as u16;
    lemma_be16_round_trip(hi);
    lemma_be16_round_trip(lo);
    assert(be32(v).subrange(0, 2) =~= be16(hi));
    assert(be32(v).subrange(2, 4) =~= be16(lo));
}

pub proof fn lemma_be64_round_trip(v: u64)
    ensures
        be64_val(be64(v)) == v,
        be64(v).len() == 8,
{
    let hi = (v / 0x1_0000_0000) as u32;
    let lo = (v % 0x1_0000_0000) as u32;
    lemma_be32_round_trip(hi);
    lemma_be32_round_trip(lo);
    assert(be64(v).subrange(0, 4) =~= be32(hi));
    assert(be64(v).subrange(4, 8) =~= be32(lo));
}

// ---------------------------------------------------------------------
// Fixed-stride element views of a byte run.
// ---------------------------------------------------------------------

pub open spec fn i16s_of(b: Seq<u8>) -> Seq<i16> {
    Seq::new((b.len() / 2) as nat, |i: int| u16_as_i16(be16_val(b.subrange(2 * i, 2 * i + 2))))
}

pub open spec fn i32s_of(b: Seq<u8>) -> Seq<i32> {
    Seq::new((b.len() / 4) as nat, |i: int| u32_as_i32(be32_val(b.subrange(4 * i, 4 * i + 4))))
}

pub open spec fn i64s_of(b: Seq<u8>) -> Seq<i64> {
    Seq::new((b.len() / 8) as nat, |i: int| u64_as_i64(be64_val(b.subrange(8 * i, 8 * i + 8))))
}

/// 4-byte elements kept as raw IEEE-754 bits.
pub open spec fn u32s_of(b: Seq<u8>) -> Seq<u32> {
    Seq::new((b.len() / 4) as nat, |i: int| be32_val(b.subrange(4 * i, 4 * i + 4)))
}

/// 8-byte elements kept as raw IEEE-754 bits.
pub open spec fn u64s_of(b: Seq<u8>) -> Seq<u64> {
    Seq::new((b.len() / 8) as nat, |i: int| be64_val(b.subrange(8 * i, 8 * i + 8)))
}

// ---------------------------------------------------------------------
// The mathematical tag tree. Text and array nodes are byte or element
// sequences; floating-point payloads are kept as their raw bits.
// ---------------------------------------------------------------------

/// The value of one tag, as mathematics.
pub enum TagModel {
    Byte(i8),
    Short(i16),
    Int(i32),
    Long(i64),
    /// Raw bits of a 32-bit IEEE-754 number.
    Float(u32),
    /// Raw bits of a 64-bit IEEE-754 number.
    Double(u64),
    ByteArray(Seq<u8>),
    /// The raw modified-UTF-8 bytes of the text.
    String(Seq<u8>),
    List(ListModel),
    Compound(Seq<EntryModel>),
    IntArray(Seq<i32>),
    LongArray(Seq<i64>),
}

/// One name/value pair of a compound.
pub struct EntryModel {
    pub name: Seq<u8>,
    pub value: TagModel,
}

/// The value of one list, keyed by its element kind.
pub enum ListModel {
    Byte(Seq<u8>),
    Short(Seq<i16>),
    Int(Seq<i32>),
    Long(Seq<i64>),
    Float(Seq<u32>),
    Double(Seq<u64>),
    ByteArray(Seq<Seq<u8>>),
    String(Seq<Seq<u8>>),
    Compound(Seq<Seq<EntryModel>>),
    List(Seq<ListModel>),
    IntArray(Seq<Seq<i32>>),
    LongArray(Seq<Seq<i64>>),
}

impl TagModel {
    /// The kind a tag is written as.
    pub open spec fn kind(self) -> TagType {
        match self {
            TagModel::Byte(_) => TagType::Byte,
            TagModel::Short(_) => TagType::Short,
            TagModel::Int(_) => TagType::Int,
            TagModel::Long(_) => TagType::Long,
            TagModel::Float(_) => TagType::Float,
            TagModel::Double(_) => TagType::Double,
            TagModel::ByteArray(_) => TagType::ByteArray,
            TagModel::String(_) => TagType::String,
            TagModel::List(_) => TagType::List,
            TagModel::Compound(_) => TagType::Compound,
            TagModel::IntArray(_) => TagType::IntArray,
            TagModel::LongArray(_) => TagType::LongArray,
        }
    }
}

impl ListModel {
    /// The element at one index, wrapped as a tag. Byte-list elements
    /// are read back as signed bytes.
    pub open spec fn elem(self, i: int) -> TagModel {
        match self {
            ListModel::Byte(s) => TagModel::Byte(u8_as_i8(s[i])),
            ListModel::Short(s) => TagModel::Short(s[i]),
            ListModel::Int(s) => TagModel::Int(s[i]),
            ListModel::Long(s) => TagModel::Long(s[i]),
            ListModel::Float(s) => TagModel::Float(s[i]),
            ListModel::Double(s) => TagModel::Double(s[i]),
            ListModel::ByteArray(s) => TagModel::ByteArray(s[i]),
            ListModel::String(s) => TagModel::String(s[i]),
            ListModel::Compound(s) => TagModel::Compound(s[i]),
            ListModel::List(s) => TagModel::List(s[i]),
            ListModel::IntArray(s) => TagModel::IntArray(s[i]),
            ListModel::LongArray(s) => TagModel::LongArray(s[i]),
        }
    }

    /// The element kind the list is written with. An empty Byte list is
    /// what the zero-count End form decodes to, and is written as Byte.
    pub open spec fn elem_kind(self) -> TagType {
        match self {
            ListModel::Byte(_) => TagType::Byte,
            ListModel::Short(_) => TagType::Short,
            ListModel::Int(_) => TagType::Int,
            ListModel::Long(_) => TagType::Long,
            ListModel::Float(_) => TagType::Float,
            ListModel::Double(_) => TagType::Double,
            ListModel::ByteArray(_) => TagType::ByteArray,
            ListModel::String(_) => TagType::String,
            ListModel::Compound(_) => TagType::Compound,
            ListModel::List(_) => TagType::List,
            ListModel::IntArray(_) => TagType::IntArray,
            ListModel::LongArray(_) => TagType::LongArray,
        }
    }

    /// How many elements the list holds.
    pub open spec fn len(self) -> nat {
        match self {
            ListModel::Byte(s) => s.len(),
            ListModel::Short(s) => s.len(),
            ListModel::Int(s) => s.len(),
            ListModel::Long(s) => s.len(),
            ListModel::Float(s) => s.len(),
            ListModel::Double(s) => s.len(),
            ListModel::ByteArray(s) => s.len(),
            ListModel::String(s) => s.len(),
            ListModel::Compound(s) => s.len(),
            ListModel::List(s) => s.len(),
            ListModel::IntArray(s) => s.len(),
            ListModel::LongArray(s) => s.len(),
        }
    }
}

// ---------------------------------------------------------------------
// Well-formedness: every length-prefixed run fits its prefix width.
// ---------------------------------------------------------------------

pub open spec fn wf_payload(t: TagModel) -> bool
    decreases t,
{
    match t {
        TagModel::ByteArray(b) => b.len() < 0x1_0000_0000,
        TagModel::String(b) => b.len() < 0x1_0000,
        TagModel::List(l) => wf_list(l),
        TagModel::Compound(es) => wf_entries(es),
        TagModel::IntArray(xs) => xs.len() < 0x1_0000_0000,
        TagModel::LongArray(xs) => xs.len() < 0x1_0000_0000,
        _ => true,
    }
}

pub open spec fn wf_entries(es: Seq<EntryModel>) -> bool
    decreases es,
{
    if es.len() == 0 {
        true
    } else {
        &&& es.first().name.len() < 0x1_0000
        &&& wf_payload(es.first().value)
        &&& wf_entries(es.drop_first())
    }
}

pub open spec fn wf_list(l: ListModel) -> bool
    decreases l,
{
    &&& l.len() < 0x1_0000_0000
    &&& match l {
        ListModel::ByteArray(s) => forall|i: int|
            0 <= i < s.len() ==> (#[trigger] s[i]).len() < 0x1_0000_0000,
        ListModel::String(s) => forall|i: int|
            0 <= i < s.len() ==> (#[trigger] s[i]).len() < 0x1_0000,
        ListModel::Compound(s) => wf_compound_elems(s),
        ListModel::List(s) => wf_list_elems(s),
        ListModel::IntArray(s) => forall|i: int|
            0 <= i < s.len() ==> (#[trigger] s[i]).len() < 0x1_0000_0000,
        ListModel::LongArray(s) => forall|i: int|
            0 <= i < s.len() ==> (#[trigger] s[i]).len() < 0x1_0000_0000,
        _ => true,
    }
}

pub open spec fn wf_compound_elems(s: Seq<Seq<EntryModel>>) -> bool
    decreases s,
{
    if s.len() == 0 {
        true
    } else {
        wf_entries(s.first()) && wf_compound_elems(s.drop_first())
    }
}

pub open spec fn wf_list_elems(s: Seq<ListModel>) -> bool
    decreases s,
{
    if s.len() == 0 {
        true
    } else {
        wf_list(s.first()) && wf_list_elems(s.drop_first())
    }
}

/// A whole document: a named root compound whose parts are all
/// well formed.
pub open spec fn wf_document(name: Seq<u8>, root: Seq<EntryModel>) -> bool {
    name.len() < 0x1_0000 && wf_entries(root)
}

// ---------------------------------------------------------------------
// Encoding a tree into bytes. Length prefixes are written modulo their
// width, exactly as the writer does; on well-formed trees no prefix
// truncates.
// ---------------------------------------------------------------------

/// A 4-byte count prefix.
pub open spec fn enc_count(n: nat) -> Seq<u8> {
    be32((n % 0x1_0000_0000) as u32)
}

/// A length-prefixed string payload.
pub open spec fn enc_str(b: Seq<u8>) -> Seq<u8> {
    be16((b.len() % 0x1_0000) as u16) + b
}

pub open spec fn enc_payload(t: TagModel) -> Seq<u8>
    decreases t,
{
    match t {
        TagModel::Byte(v) => seq![i8_as_u8(v)],
        TagModel::Short(v) => be16(i16_as_u16(v)),
        TagModel::Int(v) => be32(i32_as_u32(v)),
        TagModel::Long(v) => be64(i64_as_u64(v)),
        TagModel::Float(bits) => be32(bits),
        TagModel::Double(bits) => be64(bits),
        TagModel::ByteArray(b) => enc_count(b.len()) + b,
        TagModel::String(b) => enc_str(b),
        TagModel::List(l) => enc_list(l),
        TagModel::Compound(es) => enc_entries(es) + seq![0u8],
        TagModel::IntArray(xs) => enc_count(xs.len()) + enc_i32s(xs),
        TagModel::LongArray(xs) => enc_count(xs.len()) + enc_i64s(xs),
    }
}

pub open spec fn enc_entries(es: Seq<EntryModel>) -> Seq<u8>
    decreases es,
{
    if es.len() == 0 {
        Seq::empty()
    } else {
        seq![es.first().value.kind().spec_id()] + enc_str(es.first().name) + enc_payload(
            es.first().value,
        ) + enc_entries(es.drop_first())
    }
}

pub open spec fn enc_list(l: ListModel) -> Seq<u8>
    decreases l,
{
    seq![l.elem_kind().spec_id()] + enc_count(l.len()) + match l {
        ListModel::Byte(s) => s,
        ListModel::Short(s) => enc_i16s(s),
        ListModel::Int(s) => enc_i32s(s),
        ListModel::Long(s) => enc_i64s(s),
        ListModel::Float(s) => enc_u32s(s),
        ListModel::Double(s) => enc_u64s(s),
        ListModel::ByteArray(s) => enc_byte_arrays(s),
        ListModel::String(s) => enc_strs(s),
        ListModel::Compound(s) => enc_compound_elems(s),
        ListModel::List(s) => enc_list_elems(s),
        ListModel::IntArray(s) => enc_int_arrays(s),
        ListModel::LongArray(s) => enc_long_arrays(s),
    }
}

pub open spec fn enc_compound_elems(s: Seq<Seq<EntryModel>>) -> Seq<u8>
    decreases s,
{
    if s.len() == 0 {
        Seq::empty()
    } else {
        enc_entries(s.first()) + seq![0u8] + enc_compound_elems(s.drop_first())
    }
}

pub open spec fn enc_list_elems(s: Seq<ListModel>) -> Seq<u8>
    decreases s,
{
    if s.len() == 0 {
        Seq::empty()
    } else {
        enc_list(s.first()) + enc_list_elems(s.drop_first())
    }
}

pub open spec fn enc_i16s(xs: Seq<i16>) -> Seq<u8>
    decreases xs.len(),
{
    if xs.len() == 0 {
        Seq::empty()
    } else {
        be16(i16_as_u16(xs.first())) + enc_i16s(xs.drop_first())
    }
}

pub open spec fn enc_i32s(xs: Seq<i32>) -> Seq<u8>
    decreases xs.len(),
{
    if xs.len() == 0 {
        Seq::empty()
    } else {
        be32(i32_as_u32(xs.first())) + enc_i32s(xs.drop_first())
    }
}

pub open spec fn enc_i64s(xs: Seq<i64>) -> Seq<u8>
    decreases xs.len(),
{
    if xs.len() == 0 {
        Seq::empty()
    } else {
        be64(i64_as_u64(xs.first())) + enc_i64s(xs.drop_first())
    }
}

pub open spec fn enc_u32s(xs: Seq<u32>) -> Seq<u8>
    decreases xs.len(),
{
    if xs.len() == 0 {
        Seq::empty()
    } else {
        be32(xs.first()) + enc_u32s(xs.drop_first())
    }
}

pub open spec fn enc_u64s(xs: Seq<u64>) -> Seq<u8>
    decreases xs.len(),
{
    if xs.len() == 0 {
        Seq::empty()
    } else {
        be64(xs.first()) + enc_u64s(xs.drop_first())
    }
}

pub open spec fn enc_strs(ss: Seq<Seq<u8>>) -> Seq<u8>
    decreases ss.len(),
{
    if ss.len() == 0 {
        Seq::empty()
    } else {
        enc_str(ss.first()) + enc_strs(ss.drop_first())
    }
}

pub open spec fn enc_byte_arrays(ss: Seq<Seq<u8>>) -> Seq<u8>
    decreases ss.len(),
{
    if ss.len() == 0 {
        Seq::empty()
    } else {
        enc_count(ss.first().len()) + ss.first() + enc_byte_arrays(ss.drop_first())
    }
}

pub open spec fn enc_int_arrays(ss: Seq<Seq<i32>>) -> Seq<u8>
    decreases ss.len(),
{
    if ss.len() == 0 {
        Seq::empty()
    } else {
        enc_count(ss.first().len()) + enc_i32s(ss.first()) + enc_int_arrays(ss.drop_first())
    }
}

pub open spec fn enc_long_arrays(ss: Seq<Seq<i64>>) -> Seq<u8>
    decreases ss.len(),
{
    if ss.len() == 0 {
        Seq::empty()
    } else {
        enc_count(ss.first().len()) + enc_i64s(ss.first()) + enc_long_arrays(ss.drop_first())
    }
}

/// A whole document: the Compound kind byte, the root's name, then the
/// root compound's payload.
pub open spec fn enc_document(name: Seq<u8>, root: Seq<EntryModel>) -> Seq<u8> {
    seq![TagType::Compound.spec_id()] + enc_str(name) + enc_entries(root) + seq![0u8]
}

/// Writing one more element appends its encoding.
pub proof fn lemma_enc_i16s_push(xs: Seq<i16>, x: i16)
    ensures
        enc_i16s(xs.push(x)) == enc_i16s(xs) + be16(i16_as_u16(x)),
    decreases xs.len(),
{
    let e = xs.push(x);
    if xs.len() == 0 {
        assert(e.len() == 1);
        assert(e.first() == x);
        assert(e.drop_first() =~= Seq::<i16>::empty());
        assert(enc_i16s(e) == be16(i16_as_u16(e.first())) + enc_i16s(e.drop_first()));
        assert(enc_i16s(e.drop_first()) == Seq::<u8>::empty());
        assert(enc_i16s(xs) == Seq::<u8>::empty());
        assert(enc_i16s(e) =~= enc_i16s(xs) + be16(i16_as_u16(x)));
    } else {
        assert(e.first() == xs.first());
        assert(e.drop_first() =~= xs.drop_first().push(x));
        lemma_enc_i16s_push(xs.drop_first(), x);
        let a = be16(i16_as_u16(xs.first()));
        let b = enc_i16s(xs.drop_first());
        let c = be16(i16_as_u16(x));
        assert(enc_i16s(e) == a + (b + c));
        assert(a + (b + c) =~= (a + b) + c);
        assert(enc_i16s(xs) == a + b);
    }
}

/// Writing one more element appends its encoding.
pub proof fn lemma_enc_i32s_push(xs: Seq<i32>, x: i32)
    ensures
        enc_i32s(xs.push(x)) == enc_i32s(xs) + be32(i32_as_u32(x)),
    decreases xs.len(),
{
    let e = xs.push(x);
    if xs.len() == 0 {
        assert(e.first() == x);
        assert(e.drop_first() =~= Seq::<i32>::empty());
        assert(enc_i32s(e) == be32(i32_as_u32(e.first())) + enc_i32s(e.drop_first()));
        assert(enc_i32s(e.drop_first()) == Seq::<u8>::empty());
        assert(enc_i32s(xs) == Seq::<u8>::empty());
        assert(enc_i32s(e) =~= enc_i32s(xs) + be32(i32_as_u32(x)));
    } else {
        assert(e.first() == xs.first());
        assert(e.drop_first() =~= xs.drop_first().push(x));
        lemma_enc_i32s_push(xs.drop_first(), x);
        let a = be32(i32_as_u32(xs.first()));
        let b = enc_i32s(xs.drop_first());
        let c = be32(i32_as_u32(x));
        assert(enc_i32s(e) == a + (b + c));
        assert(a + (b + c) =~= (a + b) + c);
        assert(enc_i32s(xs) == a + b);
    }
}

/// Writing one more element appends its encoding.
pub proof fn lemma_enc_i64s_push(xs: Seq<i64>, x: i64)
    ensures
        enc_i64s(xs.push(x)) == enc_i64s(xs) + be64(i64_as_u64(x)),
    decreases xs.len(),
{
    let e = xs.push(x);
    if xs.len() == 0 {
        assert(e.first() == x);
        assert(e.drop_first() =~= Seq::<i64>::empty());
        assert(enc_i64s(e) == be64(i64_as_u64(e.first())) + enc_i64s(e.drop_first()));
        assert(enc_i64s(e.drop_first()) == Seq::<u8>::empty());
        assert(enc_i64s(xs) == Seq::<u8>::empty());
        assert(enc_i64s(e) =~= enc_i64s(xs) + be64(i64_as_u64(x)));
    } else {
        assert(e.first() == xs.first());
        assert(e.drop_first() =~= xs.drop_first().push(x));
        lemma_enc_i64s_push(xs.drop_first(), x);
        let a = be64(i64_as_u64(xs.first()));
        let b = enc_i64s(xs.drop_first());
        let c = be64(i64_as_u64(x));
        assert(enc_i64s(e) == a + (b + c));
        assert(a + (b + c) =~= (a + b) + c);
        assert(enc_i64s(xs) == a + b);
    }
}

/// Writing one more element appends its encoding.
pub proof fn lemma_enc_u32s_push(xs: Seq<u32>, x: u32)
    ensures
        enc_u32s(xs.push(x)) == enc_u32s(xs) + be32(x),
    decreases xs.len(),
{
    let e = xs.push(x);
    if xs.len() == 0 {
        assert(e.first() == x);
        assert(e.drop_first() =~= Seq::<u32>::empty());
        assert(enc_u32s(e) == be32(e.first()) + enc_u32s(e.drop_first()));
        assert(enc_u32s(e.drop_first()) == Seq::<u8>::empty());
        assert(enc_u32s(xs) == Seq::<u8>::empty());
        assert(enc_u32s(e) =~= enc_u32s(xs) + be32(x));
    } else {
        assert(e.first() == xs.first());
        assert(e.drop_first() =~= xs.drop_first().push(x));
        lemma_enc_u32s_push(xs.drop_first(), x);
        let a = be32(xs.first());
        let b = enc_u32s(xs.drop_first());
        let c = be32(x);
        assert(enc_u32s(e) == a + (b + c));
        assert(a + (b + c) =~= (a + b) + c);
        assert(enc_u32s(xs) == a + b);
    }
}

/// Writing one more element appends its encoding.
pub proof fn lemma_enc_u64s_push(xs: Seq<u64>, x: u64)
    ensures
        enc_u64s(xs.push(x)) == enc_u64s(xs) + be64(x),
    decreases xs.len(),
{
    let e = xs.push(x);
    if xs.len() == 0 {
        assert(e.first() == x);
        assert(e.drop_first() =~= Seq::<u64>::empty());
        assert(enc_u64s(e) == be64(e.first()) + enc_u64s(e.drop_first()));
        assert(enc_u64s(e.drop_first()) == Seq::<u8>::empty());
        assert(enc_u64s(xs) == Seq::<u8>::empty());
        assert(enc_u64s(e) =~= enc_u64s(xs) + be64(x));
    } else {
        assert(e.first() == xs.first());
        assert(e.drop_first() =~= xs.drop_first().push(x));
        lemma_enc_u64s_push(xs.drop_first(), x);
        let a = be64(xs.first());
        let b = enc_u64s(xs.drop_first());
        let c = be64(x);
        assert(enc_u64s(e) == a + (b + c));
        assert(a + (b + c) =~= (a + b) + c);
        assert(enc_u64s(xs) == a + b);
    }
}

/// Writing one more string appends its length-prefixed encoding.
pub proof fn lemma_enc_strs_push(ss: Seq<Seq<u8>>, s: Seq<u8>)
    ensures
        enc_strs(ss.push(s)) == enc_strs(ss) + enc_str(s),
    decreases ss.len(),
{
    let e = ss.push(s);
    if ss.len() == 0 {
        assert(e.first() == s);
        assert(e.drop_first() =~= Seq::<Seq<u8>>::empty());
        assert(enc_strs(e) == enc_str(e.first()) + enc_strs(e.drop_first()));
        assert(enc_strs(e.drop_first()) == Seq::<u8>::empty());
        assert(enc_strs(ss) == Seq::<u8>::empty());
        assert(enc_strs(e) =~= enc_strs(ss) + enc_str(s));
    } else {
        assert(e.first() == ss.first());
        assert(e.drop_first() =~= ss.drop_first().push(s));
        lemma_enc_strs_push(ss.drop_first(), s);
        let a = enc_str(ss.first());
        let b = enc_strs(ss.drop_first());
        let c = enc_str(s);
        assert(enc_strs(e) == a + (b + c));
        assert(a + (b + c) =~= (a + b) + c);
        assert(enc_strs(ss) == a + b);
    }
}

/// Writing one more byte array appends its count-prefixed encoding.
pub proof fn lemma_enc_byte_arrays_push(ss: Seq<Seq<u8>>, s: Seq<u8>)
    ensures
        enc_byte_arrays(ss.push(s)) == enc_byte_arrays(ss) + enc_count(s.len()) + s,
    decreases ss.len(),
{
    let e = ss.push(s);
    if ss.len() == 0 {
        assert(e.first() == s);
        assert(e.drop_first() =~= Seq::<Seq<u8>>::empty());
        assert(enc_byte_arrays(e) == (enc_count(e.first().len()) + e.first()) + enc_byte_arrays(
            e.drop_first(),
        ));
        assert(enc_byte_arrays(e.drop_first()) == Seq::<u8>::empty());
        assert(enc_byte_arrays(ss) == Seq::<u8>::empty());
        assert(enc_byte_arrays(e) =~= enc_byte_arrays(ss) + enc_count(s.len()) + s);
    } else {
        assert(e.first() == ss.first());
        assert(e.drop_first() =~= ss.drop_first().push(s));
        lemma_enc_byte_arrays_push(ss.drop_first(), s);
        let a = enc_count(ss.first().len()) + ss.first();
        let b = enc_byte_arrays(ss.drop_first());
        let c = enc_count(s.len()) + s;
        assert(enc_byte_arrays(e) == a + ((b + enc_count(s.len())) + s));
        assert(a + ((b + enc_count(s.len())) + s) =~= ((a + b) + enc_count(s.len())) + s);
        assert(enc_byte_arrays(ss) == a + b);
        assert(enc_byte_arrays(e) == ((enc_byte_arrays(ss) + enc_count(s.len())) + s));
    }
}

// ---------------------------------------------------------------------
// Parsing bytes back into a tree. Each function reads at a position and
// returns the value read together with the position after it, or the
// first error. The positions in the results always lie inside the
// buffer and strictly after the start; the checks on them below make
// that plain enough for the recursion to be seen to terminate.
// ---------------------------------------------------------------------

pub open spec fn p_bytes(d: Seq<u8>, pos: int, n: int) -> Result<(Seq<u8>, int), ParseError> {
    if 0 <= pos && 0 <= n && pos + n <= d.len() {
        Ok((d.subrange(pos, pos + n), pos + n))
    } else {
        Err(ParseError::EOF)
    }
}

pub open spec fn p_u8(d: Seq<u8>, pos: int) -> Result<(u8, int), ParseError> {
    if 0 <= pos && pos + 1 <= d.len() {
        Ok((d[pos], pos + 1))
    } else {
        Err(ParseError::EOF)
    }
}

pub open spec fn p_u16(d: Seq<u8>, pos: int) -> Result<(u16, int), ParseError> {
    if 0 <= pos && pos + 2 <= d.len() {
        Ok((be16_val(d.subrange(pos, pos + 2)), pos + 2))
    } else {
        Err(ParseError::EOF)
    }
}

pub open spec fn p_u32(d: Seq<u8>, pos: int) -> Result<(u32, int), ParseError> {
    if 0 <= pos && pos + 4 <= d.len() {
        Ok((be32_val(d.subrange(pos, pos + 4)), pos + 4))
    } else {
        Err(ParseError::EOF)
    }
}

pub open spec fn p_u64(d: Seq<u8>, pos: int) -> Result<(u64, int), ParseError> {
    if 0 <= pos && pos + 8 <= d.len() {
        Ok((be64_val(d.subrange(pos, pos + 8)), pos + 8))
    } else {
        Err(ParseError::EOF)
    }
}

/// Reads a kind byte; a byte outside the known range is an error that
/// carries the byte and its offset.
pub open spec fn p_kind(d: Seq<u8>, pos: int) -> Result<(TagType, int), ParseError> {
    if 0 <= pos && pos + 1 <= d.len() {
        match TagType::spec_of_id(d[pos]) {
            Some(t) => Ok((t, pos + 1)),
            None => Err(ParseError::UnknownTag { tag: d[pos], offset: pos as usize }),
        }
    } else {
        Err(ParseError::EOF)
    }
}

/// Reads a 4-byte element count, then `stride` bytes per element, as
/// one raw byte run.
pub open spec fn p_run(d: Seq<u8>, pos: int, stride: int) -> Result<(Seq<u8>, int), ParseError> {
    match p_u32(d, pos) {
        Ok((n, p1)) => p_bytes(d, p1, stride * (n as int)),
        Err(e) => Err(e),
    }
}

/// Reads a 2-byte length, then that many raw bytes of text.
pub open spec fn p_str(d: Seq<u8>, pos: int) -> Result<(Seq<u8>, int), ParseError> {
    match p_u16(d, pos) {
        Ok((n, p1)) => p_bytes(d, p1, n as int),
        Err(e) => Err(e),
    }
}

/// Reads the payload of one tag of the given kind. An End kind here is
/// an error: End only terminates a compound or introduces an empty
/// list.
pub open spec fn p_payload(t: TagType, d: Seq<u8>, pos: int) -> Result<
    (TagModel, int),
    ParseError,
>
    decreases d.len() - pos, 3int,
{
    match t {
        TagType::End => Err(ParseError::UnexpectedEndTag),
        TagType::Byte => match p_u8(d, pos) {
            Ok((v, p)) => Ok((TagModel::Byte(u8_as_i8(v)), p)),
            Err(e) => Err(e),
        },
        TagType::Short => match p_u16(d, pos) {
            Ok((v, p)) => Ok((TagModel::Short(u16_as_i16(v)), p)),
            Err(e) => Err(e),
        },
        TagType::Int => match p_u32(d, pos) {
            Ok((v, p)) => Ok((TagModel::Int(u32_as_i32(v)), p)),
            Err(e) => Err(e),
        },
        TagType::Long => match p_u64(d, pos) {
            Ok((v, p)) => Ok((TagModel::Long(u64_as_i64(v)), p)),
            Err(e) => Err(e),
        },
        TagType::Float => match p_u32(d, pos) {
            Ok((v, p)) => Ok((TagModel::Float(v), p)),
            Err(e) => Err(e),
        },
        TagType::Double => match p_u64(d, pos) {
            Ok((v, p)) => Ok((TagModel::Double(v), p)),
            Err(e) => Err(e),
        },
        TagType::ByteArray => match p_u32(d, pos) {
            Ok((n, p1)) => match p_bytes(d, p1, n as int) {
                Ok((b, p2)) => Ok((TagModel::ByteArray(b), p2)),
                Err(e) => Err(e),
            },
            Err(e) => Err(e),
        },
        TagType::String => match p_str(d, pos) {
            Ok((b, p)) => Ok((TagModel::String(b), p)),
            Err(e) => Err(e),
        },
        TagType::List => match p_list(d, pos) {
            Ok((l, p)) => Ok((TagModel::List(l), p)),
            Err(e) => Err(e),
        },
        TagType::Compound => match p_entries(d, pos) {
            Ok((es, p)) => Ok((TagModel::Compound(es), p)),
            Err(e) => Err(e),
        },
        TagType::IntArray => match p_u32(d, pos) {
            Ok((n, p1)) => match p_bytes(d, p1, 4 * (n as int)) {
                Ok((b, p2)) => Ok((TagModel::IntArray(i32s_of(b)), p2)),
                Err(e) => Err(e),
            },
            Err(e) => Err(e),
        },
        TagType::LongArray => match p_u32(d, pos) {
            Ok((n, p1)) => match p_bytes(d, p1, 8 * (n as int)) {
                Ok((b, p2)) => Ok((TagModel::LongArray(i64s_of(b)), p2)),
                Err(e) => Err(e),
            },
            Err(e) => Err(e),
        },
    }
}

/// Reads (kind, name, payload) triples until the End terminator, which
/// is consumed but not kept.
pub open spec fn p_entries(d: Seq<u8>, pos: int) -> Result<(Seq<EntryModel>, int), ParseError>
    decreases d.len() - pos, 2int,
{
    match p_kind(d, pos) {
        Err(e) => Err(e),
        Ok((TagType::End, p1)) => Ok((Seq::empty(), p1)),
        Ok((t, p1)) => match p_str(d, p1) {
            Err(e) => Err(e),
            Ok((name, p2)) => if pos < p2 <= d.len() {
                match p_payload(t, d, p2) {
                    Err(e) => Err(e),
                    Ok((v, p3)) => if pos < p3 <= d.len() {
                        match p_entries(d, p3) {
                            Err(e) => Err(e),
                            Ok((rest, p4)) => Ok(
                                (seq![EntryModel { name, value: v }] + rest, p4),
                            ),
                        }
                    } else {
                        Err(ParseError::EOF)
                    },
                }
            } else {
                Err(ParseError::EOF)
            },
        },
    }
}

/// Reads an element kind and count, then that many unnamed payloads.
/// An End element kind is only allowed with count zero, and stands for
/// an empty Byte list.
pub open spec fn p_list(d: Seq<u8>, pos: int) -> Result<(ListModel, int), ParseError>
    decreases d.len() - pos, 2int,
{
    match p_kind(d, pos) {
        Err(e) => Err(e),
        Ok((t, p1)) => match p_u32(d, p1) {
            Err(e) => Err(e),
            Ok((n, p2)) => match t {
                TagType::End => if n == 0 {
                    Ok((ListModel::Byte(Seq::empty()), p2))
                } else {
                    Err(ParseError::UnexpectedEndTag)
                },
                TagType::Byte => match p_bytes(d, p2, n as int) {
                    Ok((b, p3)) => Ok((ListModel::Byte(b), p3)),
                    Err(e) => Err(e),
                },
                TagType::Short => match p_bytes(d, p2, 2 * (n as int)) {
                    Ok((b, p3)) => Ok((ListModel::Short(i16s_of(b)), p3)),
                    Err(e) => Err(e),
                },
                TagType::Int => match p_bytes(d, p2, 4 * (n as int)) {
                    Ok((b, p3)) => Ok((ListModel::Int(i32s_of(b)), p3)),
                    Err(e) => Err(e),
                },
                TagType::Long => match p_bytes(d, p2, 8 * (n as int)) {
                    Ok((b, p3)) => Ok((ListModel::Long(i64s_of(b)), p3)),
                    Err(e) => Err(e),
                },
                TagType::Float => match p_bytes(d, p2, 4 * (n as int)) {
                    Ok((b, p3)) => Ok((ListModel::Float(u32s_of(b)), p3)),
                    Err(e) => Err(e),
                },
                TagType::Double => match p_bytes(d, p2, 8 * (n as int)) {
                    Ok((b, p3)) => Ok((ListModel::Double(u64s_of(b)), p3)),
                    Err(e) => Err(e),
                },
                TagType::ByteArray => match p_byte_arrays(d, p2, n as int) {
                    Ok((s, p3)) => Ok((ListModel::ByteArray(s), p3)),
                    Err(e) => Err(e),
                },
                TagType::String => match p_strs(d, p2, n as int) {
                    Ok((s, p3)) => Ok((ListModel::String(s), p3)),
                    Err(e) => Err(e),
                },
                TagType::Compound => match p_compounds(d, p2, n as int) {
                    Ok((s, p3)) => Ok((ListModel::Compound(s), p3)),
                    Err(e) => Err(e),
                },
                TagType::List => match p_lists(d, p2, n as int) {
                    Ok((s, p3)) => Ok((ListModel::List(s), p3)),
                    Err(e) => Err(e),
                },
                TagType::IntArray => match p_int_arrays(d, p2, n as int) {
                    Ok((s, p3)) => Ok((ListModel::IntArray(s), p3)),
                    Err(e) => Err(e),
                },
                TagType::LongArray => match p_long_arrays(d, p2, n as int) {
                    Ok((s, p3)) => Ok((ListModel::LongArray(s), p3)),
                    Err(e) => Err(e),
                },
            },
        },
    }
}

pub open spec fn p_strs(d: Seq<u8>, pos: int, n: int) -> Result<(Seq<Seq<u8>>, int), ParseError>
    decreases d.len() - pos, 3int,
{
    if n <= 0 {
        Ok((Seq::empty(), pos))
    } else {
        match p_str(d, pos) {
            Err(e) => Err(e),
            Ok((s, p1)) => if pos < p1 <= d.len() {
                match p_strs(d, p1, n - 1) {
                    Err(e) => Err(e),
                    Ok((rest, p2)) => Ok((seq![s] + rest, p2)),
                }
            } else {
                Err(ParseError::EOF)
            },
        }
    }
}

pub open spec fn p_byte_arrays(d: Seq<u8>, pos: int, n: int) -> Result<
    (Seq<Seq<u8>>, int),
    ParseError,
>
    decreases d.len() - pos, 3int,
{
    if n <= 0 {
        Ok((Seq::empty(), pos))
    } else {
        match p_u32(d, pos) {
            Err(e) => Err(e),
            Ok((len, p1)) => match p_bytes(d, p1, len as int) {
                Err(e) => Err(e),
                Ok((b, p2)) => if pos < p2 <= d.len() {
                    match p_byte_arrays(d, p2, n - 1) {
                        Err(e) => Err(e),
                        Ok((rest, p3)) => Ok((seq![b] + rest, p3)),
                    }
                } else {
                    Err(ParseError::EOF)
                },
            },
        }
    }
}

pub open spec fn p_compounds(d: Seq<u8>, pos: int, n: int) -> Result<
    (Seq<Seq<EntryModel>>, int),
    ParseError,
>
    decreases d.len() - pos, 3int,
{
    if n <= 0 {
        Ok((Seq::empty(), pos))
    } else {
        match p_entries(d, pos) {
            Err(e) => Err(e),
            Ok((es, p1)) => if pos < p1 <= d.len() {
                match p_compounds(d, p1, n - 1) {
                    Err(e) => Err(e),
                    Ok((rest, p2)) => Ok((seq![es] + rest, p2)),
                }
            } else {
                Err(ParseError::EOF)
            },
        }
    }
}

pub open spec fn p_lists(d: Seq<u8>, pos: int, n: int) -> Result<(Seq<ListModel>, int), ParseError>
    decreases d.len() - pos, 3int,
{
    if n <= 0 {
        Ok((Seq::empty(), pos))
    } else {
        match p_list(d, pos) {
            Err(e) => Err(e),
            Ok((l, p1)) => if pos < p1 <= d.len() {
                match p_lists(d, p1, n - 1) {
                    Err(e) => Err(e),
                    Ok((rest, p2)) => Ok((seq![l] + rest, p2)),
                }
            } else {
                Err(ParseError::EOF)
            },
        }
    }
}

pub open spec fn p_int_arrays(d: Seq<u8>, pos: int, n: int) -> Result<
    (Seq<Seq<i32>>, int),
    ParseError,
>
    decreases d.len() - pos, 3int,
{
    if n <= 0 {
        Ok((Seq::empty(), pos))
    } else {
        match p_u32(d, pos) {
            Err(e) => Err(e),
            Ok((len, p1)) => match p_bytes(d, p1, 4 * (len as int)) {
                Err(e) => Err(e),
                Ok((b, p2)) => if pos < p2 <= d.len() {
                    match p_int_arrays(d, p2, n - 1) {
                        Err(e) => Err(e),
                        Ok((rest, p3)) => Ok((seq![i32s_of(b)] + rest, p3)),
                    }
                } else {
                    Err(ParseError::EOF)
                },
            },
        }
    }
}

pub open spec fn p_long_arrays(d: Seq<u8>, pos: int, n: int) -> Result<
    (Seq<Seq<i64>>, int),
    ParseError,
>
    decreases d.len() - pos, 3int,
{
    if n <= 0 {
        Ok((Seq::empty(), pos))
    } else {
        match p_u32(d, pos) {
            Err(e) => Err(e),
            Ok((len, p1)) => match p_bytes(d, p1, 8 * (len as int)) {
                Err(e) => Err(e),
                Ok((b, p2)) => if pos < p2 <= d.len() {
                    match p_long_arrays(d, p2, n - 1) {
                        Err(e) => Err(e),
                        Ok((rest, p3)) => Ok((seq![i64s_of(b)] + rest, p3)),
                    }
                } else {
                    Err(ParseError::EOF)
                },
            },
        }
    }
}

/// Parses a whole document: the root must be a Compound, and carries a
/// name. Returns the name, the root's entries, and the position after
/// the root's terminator.
pub open spec fn p_document(d: Seq<u8>) -> Result<(Seq<u8>, Seq<EntryModel>, int), ParseError> {
    match p_kind(d, 0) {
        Err(e) => Err(e),
        Ok((TagType::Compound, p1)) => match p_str(d, p1) {
            Err(e) => Err(e),
            Ok((name, p2)) => match p_entries(d, p2) {
                Err(e) => Err(e),
                Ok((es, p3)) => Ok((name, es, p3)),
            },
        },
        Ok((t, _)) => Err(ParseError::IncorrectStartTag { tag: t }),
    }
}

} // verus!
