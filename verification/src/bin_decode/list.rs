//! List decoding: one element kind, a count, then that many unnamed
//! payloads.

use vstd::prelude::*;

use crate::bin_decode::array::{
    lemma_i16_elems, lemma_i32_elems, lemma_i64_elems, lemma_u32_elems, lemma_u64_elems,
};
use crate::bin_decode::{
    read_byte_array, read_type, Compound, IntArray, LongArray, NbtArray, NbtString, ParseError,
    Reader, Tag,
};
use crate::format::{
    p_byte_arrays, p_compounds, p_int_arrays, p_list, p_lists, p_long_arrays, p_strs, EntryModel,
    ListModel,
};
use crate::TagType;

verus! {

broadcast use vstd::std_specs::vec::axiom_vec_index_decreases;

/// Implementation for lists whose elements do not have a fixed size.
pub struct NbtList<T> {
    entries: Vec<T>,
}

impl<T> View for NbtList<T> {
    type V = Seq<T>;

    closed spec fn view(&self) -> Seq<T> {
        self.entries@
    }
}

impl<T> NbtList<T> {
    /// The number of elements in the list.
    pub fn len(&self) -> (r: usize)
        ensures
            r == self@.len(),
    {
        self.entries.len()
    }

    /// The element at the index, if it is within range.
    pub fn get(&self, index: usize) -> (r: Option<&T>)
        ensures
            r == (if index < self@.len() {
                Some(&self@[index as int])
            } else {
                None::<&T>
            }),
    {
        if index < self.entries.len() {
            Some(&self.entries[index])
        } else {
            None
        }
    }

    /// Converts into the underlying vector.
    pub fn into_vec(self) -> (r: Vec<T>)
        ensures
            r@ == self@,
    {
        self.entries
    }

    /// An iterator over the elements of the list.
    pub fn iter<'s>(&'s self) -> (r: NbtListIter<'s, T>)
        ensures
            r.list == self,
            r.index == 0,
    {
        NbtListIter { list: self, index: 0 }
    }
}

/// Iterator over the contents of [`NbtList`], yielding references to
/// its elements in order.
pub struct NbtListIter<'s, T> {
    pub list: &'s NbtList<T>,
    pub index: usize,
}

impl<'s, T> NbtListIter<'s, T> {
    /// The next element, if one is left.
    pub fn next(&mut self) -> (r: Option<&'s T>)
        ensures
            r == (if old(self).index < old(self).list@.len() {
                Some(&old(self).list@[old(self).index as int])
            } else {
                None::<&'s T>
            }),
            final(self).list == old(self).list,
            final(self).index == old(self).index + (if old(self).index < usize::MAX {
                1int
            } else {
                0int
            }),
    {
        let result = self.list.get(self.index);
        if self.index < usize::MAX {
            self.index = self.index + 1;
        }
        result
    }
}

// Complex lists
/// A list of compounds.
pub type CompoundList<'a> = NbtList<Compound<'a>>;

/// A list of strings.
pub type StringList<'a> = NbtList<NbtString<'a>>;

/// A list of nested lists. The inner lists can each have distinct
/// element kinds.
pub type ListList<'a> = NbtList<List<'a>>;

/// A list of int arrays.
pub type IntArrayList<'a> = NbtList<IntArray<'a>>;

/// A list of long arrays.
pub type LongArrayList<'a> = NbtList<LongArray<'a>>;

/// A list of byte arrays.
pub type ByteArrayList<'a> = NbtList<&'a [u8]>;

// Primitive lists
/// A list of 16-bit integers.
pub type ShortList<'a> = NbtArray<'a, i16>;

/// A list of 32-bit integers.
pub type IntList<'a> = NbtArray<'a, i32>;

/// A list of 64-bit integers.
pub type LongList<'a> = NbtArray<'a, i64>;

/// A list of 32-bit IEEE-754 numbers, held as raw bits.
pub type FloatList<'a> = NbtArray<'a, u32>;

/// A list of 64-bit IEEE-754 numbers, held as raw bits.
pub type DoubleList<'a> = NbtArray<'a, u64>;

/// An enum that represents all possible list types. All direct
/// elements share one kind by construction; nested lists are exempt at
/// their own nesting level.
pub enum List<'a> {
    Byte(&'a [u8]),
    Short(ShortList<'a>),
    Int(IntList<'a>),
    Long(LongList<'a>),
    Float(FloatList<'a>),
    Double(DoubleList<'a>),
    ByteArray(ByteArrayList<'a>),
    String(StringList<'a>),
    Compound(CompoundList<'a>),
    List(ListList<'a>),
    IntArray(IntArrayList<'a>),
    LongArray(LongArrayList<'a>),
}

impl<'a> List<'a> {
    pub closed spec fn model(self) -> ListModel
        decreases self,
    {
        match self {
            List::Byte(b) => ListModel::Byte(b@),
            List::Short(a) => ListModel::Short(a@),
            List::Int(a) => ListModel::Int(a@),
            List::Long(a) => ListModel::Long(a@),
            List::Float(a) => ListModel::Float(a@),
            List::Double(a) => ListModel::Double(a@),
            List::ByteArray(l) => ListModel::ByteArray(
                Seq::new(l.entries@.len(), |i: int| l.entries@[i]@),
            ),
            List::String(l) => ListModel::String(
                Seq::new(l.entries@.len(), |i: int| l.entries@[i]@),
            ),
            List::Compound(l) => ListModel::Compound(
                Seq::new(
                    l.entries@.len(),
                    |i: int|
                        if 0 <= i < l.entries@.len() {
                            l.entries@[i].model()
                        } else {
                            Seq::empty()
                        },
                ),
            ),
            List::List(l) => ListModel::List(
                Seq::new(
                    l.entries@.len(),
                    |i: int|
                        if 0 <= i < l.entries@.len() {
                            l.entries@[i].model()
                        } else {
                            ListModel::Byte(Seq::empty())
                        },
                ),
            ),
            List::IntArray(l) => ListModel::IntArray(
                Seq::new(l.entries@.len(), |i: int| l.entries@[i]@),
            ),
            List::LongArray(l) => ListModel::LongArray(
                Seq::new(l.entries@.len(), |i: int| l.entries@[i]@),
            ),
        }
    }

    /// Reads the element kind and count, then dispatches to the reader
    /// for that kind. An End element kind must carry a zero count, and
    /// yields an empty Byte-kind list.
    pub(crate) fn read(reader: &mut Reader<'a>) -> (r: Result<List<'a>, ParseError>)
        requires
            old(reader).wf(),
        ensures
            final(reader).wf(),
            final(reader).data() == old(reader).data(),
            match r {
                Ok(l) => {
                    &&& p_list(old(reader).data(), old(reader).pos()) == Ok::<_, ParseError>(
                        (l@, final(reader).pos()),
                    )
                    &&& old(reader).pos() < final(reader).pos() <= final(reader).data().len()
                },
                Err(e) => p_list(old(reader).data(), old(reader).pos()) == Err::<
                    (ListModel, int),
                    _,
                >(e),
            },
        decreases old(reader).data().len() - old(reader).pos(), 2int,
    {
        let tag = match read_type(reader) {
            Ok(t) => t,
            Err(e) => {
                return Err(e);
            },
        };
        match tag {
            TagType::End => {
                let prefix = match reader.advance(4) {
                    Ok(s) => s,
                    Err(e) => {
                        return Err(e);
                    },
                };
                assert(prefix@.len() == 4);
                let count: u32 = <u32 as crate::bin_decode::NbtPrimitive>::read(prefix);
                if count == 0 {
                    let empty = match reader.advance(0) {
                        Ok(s) => s,
                        Err(e) => {
                            proof {
                                assert(false);
                            }
                            return Err(e);
                        },
                    };
                    assert(empty@ =~= Seq::<u8>::empty());
                    Ok(List::Byte(empty))
                } else {
                    Err(ParseError::UnexpectedEndTag)
                }
            },
            TagType::Byte => {
                match read_byte_array(reader) {
                    Ok(b) => Ok(List::Byte(b)),
                    Err(e) => Err(e),
                }
            },
            TagType::Short => {
                match NbtArray::<i16>::read(reader) {
                    Ok(a) => {
                        proof {
                            lemma_i16_elems(a);
                        }
                        Ok(List::Short(a))
                    },
                    Err(e) => Err(e),
                }
            },
            TagType::Int => {
                match NbtArray::<i32>::read(reader) {
                    Ok(a) => {
                        proof {
                            lemma_i32_elems(a);
                        }
                        Ok(List::Int(a))
                    },
                    Err(e) => Err(e),
                }
            },
            TagType::Long => {
                match NbtArray::<i64>::read(reader) {
                    Ok(a) => {
                        proof {
                            lemma_i64_elems(a);
                        }
                        Ok(List::Long(a))
                    },
                    Err(e) => Err(e),
                }
            },
            TagType::Float => {
                match NbtArray::<u32>::read(reader) {
                    Ok(a) => {
                        proof {
                            lemma_u32_elems(a);
                        }
                        Ok(List::Float(a))
                    },
                    Err(e) => Err(e),
                }
            },
            TagType::Double => {
                match NbtArray::<u64>::read(reader) {
                    Ok(a) => {
                        proof {
                            lemma_u64_elems(a);
                        }
                        Ok(List::Double(a))
                    },
                    Err(e) => Err(e),
                }
            },
            TagType::ByteArray => {
                let count = match read_count(reader) {
                    Ok(n) => n,
                    Err(e) => {
                        return Err(e);
                    },
                };
                match read_byte_array_elems(reader, count) {
                    Ok(l) => Ok(List::ByteArray(l)),
                    Err(e) => Err(e),
                }
            },
            TagType::String => {
                let count = match read_count(reader) {
                    Ok(n) => n,
                    Err(e) => {
                        return Err(e);
                    },
                };
                match read_string_elems(reader, count) {
                    Ok(l) => Ok(List::String(l)),
                    Err(e) => Err(e),
                }
            },
            TagType::Compound => {
                let count = match read_count(reader) {
                    Ok(n) => n,
                    Err(e) => {
                        return Err(e);
                    },
                };
                match read_compound_elems(reader, count) {
                    Ok(l) => {
                        let list = List::Compound(l);
                        proof {
                            assert(list.model()->Compound_0 =~= Seq::new(
                                l@.len(),
                                |i: int| l@[i].model(),
                            ));
                        }
                        Ok(list)
                    },
                    Err(e) => Err(e),
                }
            },
            TagType::List => {
                let count = match read_count(reader) {
                    Ok(n) => n,
                    Err(e) => {
                        return Err(e);
                    },
                };
                match read_list_elems(reader, count) {
                    Ok(l) => {
                        let list = List::List(l);
                        proof {
                            assert(list.model()->List_0 =~= Seq::new(
                                l@.len(),
                                |i: int| l@[i].model(),
                            ));
                        }
                        Ok(list)
                    },
                    Err(e) => Err(e),
                }
            },
            TagType::IntArray => {
                let count = match read_count(reader) {
                    Ok(n) => n,
                    Err(e) => {
                        return Err(e);
                    },
                };
                match read_int_array_elems(reader, count) {
                    Ok(l) => Ok(List::IntArray(l)),
                    Err(e) => Err(e),
                }
            },
            TagType::LongArray => {
                let count = match read_count(reader) {
                    Ok(n) => n,
                    Err(e) => {
                        return Err(e);
                    },
                };
                match read_long_array_elems(reader, count) {
                    Ok(l) => Ok(List::LongArray(l)),
                    Err(e) => Err(e),
                }
            },
        }
    }

    /// A copy of the list; both are views into the same buffer.
    pub(crate) fn duplicate(&self) -> (r: List<'a>)
        ensures
            r@ == self@,
        decreases self,
    {
        match self {
            List::Byte(b) => List::Byte(b),
            List::Short(a) => List::Short(*a),
            List::Int(a) => List::Int(*a),
            List::Long(a) => List::Long(*a),
            List::Float(a) => List::Float(*a),
            List::Double(a) => List::Double(*a),
            List::ByteArray(l) => List::ByteArray(copy_list(l)),
            List::String(l) => List::String(copy_list(l)),
            List::IntArray(l) => List::IntArray(copy_list(l)),
            List::LongArray(l) => List::LongArray(copy_list(l)),
            List::Compound(l) => {
                let copy = copy_compound_elems(l);
                proof {
                    assert forall|i: int| 0 <= i < copy.entries@.len() implies copy.entries@[i].model()
                        == l.entries@[i].model() by {
                        assert(copy@[i]@ == l@[i]@);
                    }
                }
                let out = List::Compound(copy);
                proof {
                    assert(out.model()->Compound_0 =~= self.model()->Compound_0);
                }
                out
            },
            List::List(l) => {
                let copy = copy_list_elems(l);
                proof {
                    assert forall|i: int| 0 <= i < copy.entries@.len() implies copy.entries@[i].model()
                        == l.entries@[i].model() by {
                        assert(copy@[i]@ == l@[i]@);
                    }
                }
                let out = List::List(copy);
                proof {
                    assert(out.model()->List_0 =~= self.model()->List_0);
                }
                out
            },
        }
    }

    /// The element at the index, wrapped as a tag, or nothing when the
    /// index is out of range. The compound and nested-list kinds hand
    /// out a copy of the element.
    pub fn get(&self, index: usize) -> (r: Option<Tag<'a>>)
        ensures
            match r {
                Some(t) => index < self@.len() && t@ == self@.elem(index as int),
                None => index >= self@.len(),
            },
    {
        match self {
            List::Byte(b) => {
                if index < b.len() {
                    let v = b[index];
                    let signed: i8 = if v < 0x80 {
                        v as i8
                    } else {
                        -0x80i8 + ((v - 0x80) as i8)
                    };
                    Some(Tag::Byte(signed))
                } else {
                    None
                }
            },
            List::Short(a) => match a.get(index) {
                Some(v) => Some(Tag::Short(v)),
                None => None,
            },
            List::Int(a) => match a.get(index) {
                Some(v) => Some(Tag::Int(v)),
                None => None,
            },
            List::Long(a) => match a.get(index) {
                Some(v) => Some(Tag::Long(v)),
                None => None,
            },
            List::Float(a) => match a.get(index) {
                Some(v) => Some(Tag::Float(v)),
                None => None,
            },
            List::Double(a) => match a.get(index) {
                Some(v) => Some(Tag::Double(v)),
                None => None,
            },
            List::ByteArray(l) => match l.get(index) {
                Some(b) => Some(Tag::ByteArray(*b)),
                None => None,
            },
            List::String(l) => match l.get(index) {
                Some(v) => Some(Tag::String(*v)),
                None => None,
            },
            List::Compound(l) => match l.get(index) {
                Some(c) => Some(Tag::Compound(c.duplicate())),
                None => None,
            },
            List::List(l) => match l.get(index) {
                Some(inner) => Some(Tag::List(inner.duplicate())),
                None => None,
            },
            List::IntArray(l) => match l.get(index) {
                Some(a) => Some(Tag::IntArray(*a)),
                None => None,
            },
            List::LongArray(l) => match l.get(index) {
                Some(a) => Some(Tag::LongArray(*a)),
                None => None,
            },
        }
    }

    /// An iterator over the elements of the list, yielding tags.
    pub fn iter<'s>(&'s self) -> (r: ListIter<'s, 'a>)
        ensures
            r.list == self,
            r.index == 0,
    {
        ListIter { list: self, index: 0 }
    }

    /// The number of elements in the list.
    pub fn len(&self) -> (r: usize)
        ensures
            r == self@.len(),
    {
        match self {
            List::Byte(list) => list.len(),
            List::Short(list) => list.len(),
            List::Int(list) => list.len(),
            List::Long(list) => list.len(),
            List::Float(list) => list.len(),
            List::Double(list) => list.len(),
            List::ByteArray(list) => list.len(),
            List::String(list) => list.len(),
            List::Compound(list) => list.len(),
            List::List(list) => list.len(),
            List::IntArray(list) => list.len(),
            List::LongArray(list) => list.len(),
        }
    }
}

impl<'a> Clone for List<'a> {
    fn clone(&self) -> (r: Self)
        ensures
            r@ == self@,
    {
        self.duplicate()
    }
}

/// Iterator over the contents of [`List`], wrapping each element as a
/// [`Tag`].
pub struct ListIter<'s, 'a> {
    pub list: &'s List<'a>,
    pub index: usize,
}

impl<'s, 'a> ListIter<'s, 'a> {
    /// The next element, if one is left.
    pub fn next(&mut self) -> (r: Option<Tag<'a>>)
        ensures
            (match r {
                Some(t) => old(self).index < old(self).list@.len() && t@ == old(
                    self,
                ).list@.elem(old(self).index as int),
                None => old(self).index >= old(self).list@.len(),
            }),
            final(self).list == old(self).list,
            final(self).index == old(self).index + (if old(self).index < usize::MAX {
                1int
            } else {
                0int
            }),
    {
        let result = self.list.get(self.index);
        if self.index < usize::MAX {
            self.index = self.index + 1;
        }
        result
    }
}

/// Rebuilds a list of copyable views.
fn copy_list<'a, T: Copy>(l: &NbtList<T>) -> (r: NbtList<T>)
    ensures
        r@ == l@,
{
    let mut entries: Vec<T> = Vec::new();
    let n = l.entries.len();
    let mut i: usize = 0;
    while i < n
        invariant
            n == l.entries@.len(),
            i <= n,
            entries@ =~= l.entries@.subrange(0, i as int),
        decreases n - i,
    {
        let e = l.entries[i];
        entries.push(e);
        proof {
            assert(entries@ =~= l.entries@.subrange(0, i + 1));
        }
        i = i + 1;
    }
    proof {
        assert(l.entries@.subrange(0, l.entries@.len() as int) =~= l.entries@);
    }
    NbtList { entries }
}

/// Rebuilds a list of compounds, copying each.
fn copy_compound_elems<'a>(l: &CompoundList<'a>) -> (r: CompoundList<'a>)
    ensures
        r@.len() == l@.len(),
        forall|j: int| 0 <= j < r@.len() ==> #[trigger] r@[j]@ == l@[j]@,
    decreases l,
{
    let mut entries: Vec<Compound<'a>> = Vec::new();
    let n = l.entries.len();
    let mut i: usize = 0;
    while i < n
        invariant
            n == l.entries@.len(),
            i <= n,
            entries@.len() == i,
            forall|j: int| 0 <= j < i ==> #[trigger] entries@[j]@ == l.entries@[j]@,
        decreases n - i,
    {
        entries.push(l.entries[i].duplicate());
        i = i + 1;
    }
    NbtList { entries }
}

/// Rebuilds a list of nested lists, copying each.
fn copy_list_elems<'a>(l: &ListList<'a>) -> (r: ListList<'a>)
    ensures
        r@.len() == l@.len(),
        forall|j: int| 0 <= j < r@.len() ==> #[trigger] r@[j]@ == l@[j]@,
    decreases l,
{
    let mut entries: Vec<List<'a>> = Vec::new();
    let n = l.entries.len();
    let mut i: usize = 0;
    while i < n
        invariant
            n == l.entries@.len(),
            i <= n,
            entries@.len() == i,
            forall|j: int| 0 <= j < i ==> #[trigger] entries@[j]@ == l.entries@[j]@,
        decreases n - i,
    {
        entries.push(l.entries[i].duplicate());
        i = i + 1;
    }
    NbtList { entries }
}

impl<'a> View for List<'a> {
    type V = ListModel;

    open spec fn view(&self) -> ListModel {
        self.model()
    }
}

/// Reads the 4-byte element count of a list.
fn read_count(reader: &mut Reader<'_>) -> (r: Result<u32, ParseError>)
    requires
        old(reader).wf(),
    ensures
        final(reader).wf(),
        final(reader).data() == old(reader).data(),
        match r {
            Ok(n) => crate::format::p_u32(old(reader).data(), old(reader).pos()) == Ok::<
                _,
                ParseError,
            >((n, final(reader).pos())),
            Err(e) => crate::format::p_u32(old(reader).data(), old(reader).pos()) == Err::<
                (u32, int),
                _,
            >(e),
        },
{
    let prefix = match reader.advance(4) {
        Ok(s) => s,
        Err(e) => {
            return Err(e);
        },
    };
    assert(prefix@.len() == 4);
    Ok(<u32 as crate::bin_decode::NbtPrimitive>::read(prefix))
}

#[verifier::loop_isolation(false)]
fn read_string_elems<'a>(reader: &mut Reader<'a>, n: u32) -> (r: Result<
    StringList<'a>,
    ParseError,
>)
    requires
        old(reader).wf(),
    ensures
        final(reader).wf(),
        final(reader).data() == old(reader).data(),
        match r {
            Ok(l) => {
                &&& p_strs(old(reader).data(), old(reader).pos(), n as int) == Ok::<
                    _,
                    ParseError,
                >((Seq::new(l@.len(), |i: int| l@[i]@), final(reader).pos()))
                &&& old(reader).pos() <= final(reader).pos() <= final(reader).data().len()
            },
            Err(e) => p_strs(old(reader).data(), old(reader).pos(), n as int) == Err::<
                (Seq<Seq<u8>>, int),
                _,
            >(e),
        },
{
    let ghost d = old(reader).data();
    let ghost pos0 = old(reader).pos();
    let mut entries: Vec<NbtString<'a>> = Vec::new();
    let mut i: u32 = 0;
    while i < n
        invariant
            reader.wf(),
            reader.data() == d,
            pos0 <= reader.pos() <= d.len(),
            i <= n,
            entries@.len() == i as int,
            (match p_strs(d, reader.pos(), n - i) {
                Ok((rest, p)) => p_strs(d, pos0, n as int) == Ok::<_, ParseError>(
                    (Seq::new(entries@.len(), |k: int| entries@[k]@) + rest, p),
                ),
                Err(e) => p_strs(d, pos0, n as int) == Err::<(Seq<Seq<u8>>, int), _>(e),
            }),
        decreases n - i,
    {
        let ghost cur = reader.pos();
        let ghost old_entries = entries@;
        let s = match NbtString::read(reader) {
            Ok(s) => s,
            Err(e) => {
                return Err(e);
            },
        };
        entries.push(s);
        proof {
            let views = |es: Seq<NbtString<'a>>| Seq::new(es.len(), |k: int| es[k]@);
            match p_strs(d, reader.pos(), n - i - 1) {
                Ok((rest, p)) => {
                    assert(p_strs(d, cur, n - i) == Ok::<_, ParseError>((seq![s@] + rest, p)));
                    assert(views(old_entries) + (seq![s@] + rest) =~= views(entries@) + rest);
                },
                Err(e) => {
                    assert(p_strs(d, cur, n - i) == Err::<(Seq<Seq<u8>>, int), _>(e));
                },
            }
        }
        i = i + 1;
    }
    let l = NbtList { entries };
    proof {
        assert(Seq::new(l@.len(), |k: int| l@[k]@) + Seq::<Seq<u8>>::empty() =~= Seq::new(
            l@.len(),
            |k: int| l@[k]@,
        ));
    }
    Ok(l)
}

#[verifier::loop_isolation(false)]
fn read_byte_array_elems<'a>(reader: &mut Reader<'a>, n: u32) -> (r: Result<
    ByteArrayList<'a>,
    ParseError,
>)
    requires
        old(reader).wf(),
    ensures
        final(reader).wf(),
        final(reader).data() == old(reader).data(),
        match r {
            Ok(l) => {
                &&& p_byte_arrays(old(reader).data(), old(reader).pos(), n as int) == Ok::<
                    _,
                    ParseError,
                >((Seq::new(l@.len(), |i: int| l@[i]@), final(reader).pos()))
                &&& old(reader).pos() <= final(reader).pos() <= final(reader).data().len()
            },
            Err(e) => p_byte_arrays(old(reader).data(), old(reader).pos(), n as int) == Err::<
                (Seq<Seq<u8>>, int),
                _,
            >(e),
        },
{
    let ghost d = old(reader).data();
    let ghost pos0 = old(reader).pos();
    let mut entries: Vec<&'a [u8]> = Vec::new();
    let mut i: u32 = 0;
    while i < n
        invariant
            reader.wf(),
            reader.data() == d,
            pos0 <= reader.pos() <= d.len(),
            i <= n,
            entries@.len() == i as int,
            (match p_byte_arrays(d, reader.pos(), n - i) {
                Ok((rest, p)) => p_byte_arrays(d, pos0, n as int) == Ok::<_, ParseError>(
                    (Seq::new(entries@.len(), |k: int| entries@[k]@) + rest, p),
                ),
                Err(e) => p_byte_arrays(d, pos0, n as int) == Err::<(Seq<Seq<u8>>, int), _>(e),
            }),
        decreases n - i,
    {
        let ghost cur = reader.pos();
        let ghost old_entries = entries@;
        let b = match read_byte_array(reader) {
            Ok(b) => b,
            Err(e) => {
                return Err(e);
            },
        };
        entries.push(b);
        proof {
            let views = |es: Seq<&'a [u8]>| Seq::new(es.len(), |k: int| es[k]@);
            match p_byte_arrays(d, reader.pos(), n - i - 1) {
                Ok((rest, p)) => {
                    assert(p_byte_arrays(d, cur, n - i) == Ok::<_, ParseError>(
                        (seq![b@] + rest, p),
                    ));
                    assert(views(old_entries) + (seq![b@] + rest) =~= views(entries@) + rest);
                },
                Err(e) => {
                    assert(p_byte_arrays(d, cur, n - i) == Err::<(Seq<Seq<u8>>, int), _>(e));
                },
            }
        }
        i = i + 1;
    }
    let l = NbtList { entries };
    proof {
        assert(Seq::new(l@.len(), |k: int| l@[k]@) + Seq::<Seq<u8>>::empty() =~= Seq::new(
            l@.len(),
            |k: int| l@[k]@,
        ));
    }
    Ok(l)
}

#[verifier::loop_isolation(false)]
fn read_compound_elems<'a>(reader: &mut Reader<'a>, n: u32) -> (r: Result<
    CompoundList<'a>,
    ParseError,
>)
    requires
        old(reader).wf(),
    ensures
        final(reader).wf(),
        final(reader).data() == old(reader).data(),
        match r {
            Ok(l) => {
                &&& p_compounds(old(reader).data(), old(reader).pos(), n as int) == Ok::<
                    _,
                    ParseError,
                >((Seq::new(l@.len(), |i: int| l@[i].model()), final(reader).pos()))
                &&& old(reader).pos() <= final(reader).pos() <= final(reader).data().len()
            },
            Err(e) => p_compounds(old(reader).data(), old(reader).pos(), n as int) == Err::<
                (Seq<Seq<EntryModel>>, int),
                _,
            >(e),
        },
    decreases old(reader).data().len() - old(reader).pos(), 3int,
{
    let ghost d = old(reader).data();
    let ghost pos0 = old(reader).pos();
    let mut entries: Vec<Compound<'a>> = Vec::new();
    let mut i: u32 = 0;
    while i < n
        invariant
            reader.wf(),
            reader.data() == d,
            pos0 <= reader.pos() <= d.len(),
            i <= n,
            entries@.len() == i as int,
            (match p_compounds(d, reader.pos(), n - i) {
                Ok((rest, p)) => p_compounds(d, pos0, n as int) == Ok::<_, ParseError>(
                    (Seq::new(entries@.len(), |k: int| entries@[k].model()) + rest, p),
                ),
                Err(e) => p_compounds(d, pos0, n as int) == Err::<(Seq<Seq<EntryModel>>, int), _>(
                    e,
                ),
            }),
        decreases n - i,
    {
        let ghost cur = reader.pos();
        let ghost old_entries = entries@;
        let c = match Compound::read(reader) {
            Ok(c) => c,
            Err(e) => {
                return Err(e);
            },
        };
        entries.push(c);
        proof {
            let views = |es: Seq<Compound<'a>>| Seq::new(es.len(), |k: int| es[k].model());
            match p_compounds(d, reader.pos(), n - i - 1) {
                Ok((rest, p)) => {
                    assert(p_compounds(d, cur, n - i) == Ok::<_, ParseError>((seq![c@] + rest, p)));
                    assert(views(old_entries) + (seq![c@] + rest) =~= views(entries@) + rest);
                },
                Err(e) => {
                    assert(p_compounds(d, cur, n - i) == Err::<(Seq<Seq<EntryModel>>, int), _>(e));
                },
            }
        }
        i = i + 1;
    }
    let l = NbtList { entries };
    proof {
        assert(Seq::new(l@.len(), |k: int| l@[k].model()) + Seq::<Seq<EntryModel>>::empty()
            =~= Seq::new(l@.len(), |k: int| l@[k].model()));
    }
    Ok(l)
}

#[verifier::loop_isolation(false)]
fn read_list_elems<'a>(reader: &mut Reader<'a>, n: u32) -> (r: Result<ListList<'a>, ParseError>)
    requires
        old(reader).wf(),
    ensures
        final(reader).wf(),
        final(reader).data() == old(reader).data(),
        match r {
            Ok(l) => {
                &&& p_lists(old(reader).data(), old(reader).pos(), n as int) == Ok::<
                    _,
                    ParseError,
                >((Seq::new(l@.len(), |i: int| l@[i].model()), final(reader).pos()))
                &&& old(reader).pos() <= final(reader).pos() <= final(reader).data().len()
            },
            Err(e) => p_lists(old(reader).data(), old(reader).pos(), n as int) == Err::<
                (Seq<ListModel>, int),
                _,
            >(e),
        },
    decreases old(reader).data().len() - old(reader).pos(), 3int,
{
    let ghost d = old(reader).data();
    let ghost pos0 = old(reader).pos();
    let mut entries: Vec<List<'a>> = Vec::new();
    let mut i: u32 = 0;
    while i < n
        invariant
            reader.wf(),
            reader.data() == d,
            pos0 <= reader.pos() <= d.len(),
            i <= n,
            entries@.len() == i as int,
            (match p_lists(d, reader.pos(), n - i) {
                Ok((rest, p)) => p_lists(d, pos0, n as int) == Ok::<_, ParseError>(
                    (Seq::new(entries@.len(), |k: int| entries@[k].model()) + rest, p),
                ),
                Err(e) => p_lists(d, pos0, n as int) == Err::<(Seq<ListModel>, int), _>(e),
            }),
        decreases n - i,
    {
        let ghost cur = reader.pos();
        let ghost old_entries = entries@;
        let sub = match List::read(reader) {
            Ok(l) => l,
            Err(e) => {
                return Err(e);
            },
        };
        entries.push(sub);
        proof {
            let views = |es: Seq<List<'a>>| Seq::new(es.len(), |k: int| es[k].model());
            match p_lists(d, reader.pos(), n - i - 1) {
                Ok((rest, p)) => {
                    assert(p_lists(d, cur, n - i) == Ok::<_, ParseError>(
                        (seq![sub.model()] + rest, p),
                    ));
                    assert(views(old_entries) + (seq![sub.model()] + rest) =~= views(entries@)
                        + rest);
                },
                Err(e) => {
                    assert(p_lists(d, cur, n - i) == Err::<(Seq<ListModel>, int), _>(e));
                },
            }
        }
        i = i + 1;
    }
    let l = NbtList { entries };
    proof {
        assert(Seq::new(l@.len(), |k: int| l@[k].model()) + Seq::<ListModel>::empty() =~= Seq::new(
            l@.len(),
            |k: int| l@[k].model(),
        ));
    }
    Ok(l)
}

#[verifier::loop_isolation(false)]
fn read_int_array_elems<'a>(reader: &mut Reader<'a>, n: u32) -> (r: Result<
    IntArrayList<'a>,
    ParseError,
>)
    requires
        old(reader).wf(),
    ensures
        final(reader).wf(),
        final(reader).data() == old(reader).data(),
        match r {
            Ok(l) => {
                &&& p_int_arrays(old(reader).data(), old(reader).pos(), n as int) == Ok::<
                    _,
                    ParseError,
                >((Seq::new(l@.len(), |i: int| l@[i]@), final(reader).pos()))
                &&& old(reader).pos() <= final(reader).pos() <= final(reader).data().len()
            },
            Err(e) => p_int_arrays(old(reader).data(), old(reader).pos(), n as int) == Err::<
                (Seq<Seq<i32>>, int),
                _,
            >(e),
        },
{
    let ghost d = old(reader).data();
    let ghost pos0 = old(reader).pos();
    let mut entries: Vec<IntArray<'a>> = Vec::new();
    let mut i: u32 = 0;
    while i < n
        invariant
            reader.wf(),
            reader.data() == d,
            pos0 <= reader.pos() <= d.len(),
            i <= n,
            entries@.len() == i as int,
            (match p_int_arrays(d, reader.pos(), n - i) {
                Ok((rest, p)) => p_int_arrays(d, pos0, n as int) == Ok::<_, ParseError>(
                    (Seq::new(entries@.len(), |k: int| entries@[k]@) + rest, p),
                ),
                Err(e) => p_int_arrays(d, pos0, n as int) == Err::<(Seq<Seq<i32>>, int), _>(e),
            }),
        decreases n - i,
    {
        let ghost cur = reader.pos();
        let ghost old_entries = entries@;
        let a = match NbtArray::<i32>::read(reader) {
            Ok(a) => a,
            Err(e) => {
                return Err(e);
            },
        };
        entries.push(a);
        proof {
            lemma_i32_elems(a);
            let views = |es: Seq<IntArray<'a>>| Seq::new(es.len(), |k: int| es[k]@);
            match p_int_arrays(d, reader.pos(), n - i - 1) {
                Ok((rest, p)) => {
                    assert(p_int_arrays(d, cur, n - i) == Ok::<_, ParseError>((seq![a@] + rest, p)));
                    assert(views(old_entries) + (seq![a@] + rest) =~= views(entries@) + rest);
                },
                Err(e) => {
                    assert(p_int_arrays(d, cur, n - i) == Err::<(Seq<Seq<i32>>, int), _>(e));
                },
            }
        }
        i = i + 1;
    }
    let l = NbtList { entries };
    proof {
        assert(Seq::new(l@.len(), |k: int| l@[k]@) + Seq::<Seq<i32>>::empty() =~= Seq::new(
            l@.len(),
            |k: int| l@[k]@,
        ));
    }
    Ok(l)
}

#[verifier::loop_isolation(false)]
fn read_long_array_elems<'a>(reader: &mut Reader<'a>, n: u32) -> (r: Result<
    LongArrayList<'a>,
    ParseError,
>)
    requires
        old(reader).wf(),
    ensures
        final(reader).wf(),
        final(reader).data() == old(reader).data(),
        match r {
            Ok(l) => {
                &&& p_long_arrays(old(reader).data(), old(reader).pos(), n as int) == Ok::<
                    _,
                    ParseError,
                >((Seq::new(l@.len(), |i: int| l@[i]@), final(reader).pos()))
                &&& old(reader).pos() <= final(reader).pos() <= final(reader).data().len()
            },
            Err(e) => p_long_arrays(old(reader).data(), old(reader).pos(), n as int) == Err::<
                (Seq<Seq<i64>>, int),
                _,
            >(e),
        },
{
    let ghost d = old(reader).data();
    let ghost pos0 = old(reader).pos();
    let mut entries: Vec<LongArray<'a>> = Vec::new();
    let mut i: u32 = 0;
    while i < n
        invariant
            reader.wf(),
            reader.data() == d,
            pos0 <= reader.pos() <= d.len(),
            i <= n,
            entries@.len() == i as int,
            (match p_long_arrays(d, reader.pos(), n - i) {
                Ok((rest, p)) => p_long_arrays(d, pos0, n as int) == Ok::<_, ParseError>(
                    (Seq::new(entries@.len(), |k: int| entries@[k]@) + rest, p),
                ),
                Err(e) => p_long_arrays(d, pos0, n as int) == Err::<(Seq<Seq<i64>>, int), _>(e),
            }),
        decreases n - i,
    {
        let ghost cur = reader.pos();
        let ghost old_entries = entries@;
        let a = match NbtArray::<i64>::read(reader) {
            Ok(a) => a,
            Err(e) => {
                return Err(e);
            },
        };
        entries.push(a);
        proof {
            lemma_i64_elems(a);
            let views = |es: Seq<LongArray<'a>>| Seq::new(es.len(), |k: int| es[k]@);
            match p_long_arrays(d, reader.pos(), n - i - 1) {
                Ok((rest, p)) => {
                    assert(p_long_arrays(d, cur, n - i) == Ok::<_, ParseError>(
                        (seq![a@] + rest, p),
                    ));
                    assert(views(old_entries) + (seq![a@] + rest) =~= views(entries@) + rest);
                },
                Err(e) => {
                    assert(p_long_arrays(d, cur, n - i) == Err::<(Seq<Seq<i64>>, int), _>(e));
                },
            }
        }
        i = i + 1;
    }
    let l = NbtList { entries };
    proof {
        assert(Seq::new(l@.len(), |k: int| l@[k]@) + Seq::<Seq<i64>>::empty() =~= Seq::new(
            l@.len(),
            |k: int| l@[k]@,
        ));
    }
    Ok(l)
}

} // verus!
