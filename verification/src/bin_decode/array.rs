//! Zero-copy fixed-stride element views over a byte range.

use core::marker::PhantomData;
use vstd::prelude::*;

use crate::bin_decode::{ParseError, Reader};
use crate::format::{
    be16_val, be32_val, be64_val, p_run, u16_as_i16, u32_as_i32, u64_as_i64,
};

verus! {

/// A fixed-width big-endian element type: the common shape of the
/// entries of int arrays, long arrays, and lists of fixed-size
/// elements.
pub trait NbtPrimitive: Sized + Copy {
    /// How many bytes one element takes on the wire.
    spec fn stride() -> nat;

    /// The element read from one stride of big-endian bytes.
    spec fn from_be(b: Seq<u8>) -> Self;

    /// The stride, as a value.
    fn width() -> (n: usize)
        ensures
            n == Self::stride(),
            0 < n <= 8,
    ;

    /// Reads one element from exactly one stride of bytes.
    fn read(data: &[u8]) -> (r: Self)
        requires
            data@.len() == Self::stride(),
        ensures
            r == Self::from_be(data@),
    ;
}

impl NbtPrimitive for i16 {
    open spec fn stride() -> nat {
        2
    }

    open spec fn from_be(b: Seq<u8>) -> i16 {
        u16_as_i16(be16_val(b))
    }

    fn width() -> usize {
        2
    }

    fn read(data: &[u8]) -> (r: i16)
        ensures
            r == <i16 as NbtPrimitive>::from_be(data@),
    {
        let v: u16 = (data[0] as u16) * 0x100 + (data[1] as u16);
        if v < 0x8000 {
            v as i16
        } else {
            -0x8000i16 + ((v - 0x8000) as i16)
        }
    }
}

impl NbtPrimitive for i32 {
    open spec fn stride() -> nat {
        4
    }

    open spec fn from_be(b: Seq<u8>) -> i32 {
        u32_as_i32(be32_val(b))
    }

    fn width() -> usize {
        4
    }

    fn read(data: &[u8]) -> (r: i32)
        ensures
            r == <i32 as NbtPrimitive>::from_be(data@),
    {
        let v: u32 = <u32 as NbtPrimitive>::read(data);
        if v < 0x8000_0000 {
            v as i32
        } else {
            -0x8000_0000i32 + ((v - 0x8000_0000) as i32)
        }
    }
}

impl NbtPrimitive for i64 {
    open spec fn stride() -> nat {
        8
    }

    open spec fn from_be(b: Seq<u8>) -> i64 {
        u64_as_i64(be64_val(b))
    }

    fn width() -> usize {
        8
    }

    fn read(data: &[u8]) -> (r: i64)
        ensures
            r == <i64 as NbtPrimitive>::from_be(data@),
    {
        let v: u64 = <u64 as NbtPrimitive>::read(data);
        if v < 0x8000_0000_0000_0000 {
            v as i64
        } else {
            i64::MIN + ((v - 0x8000_0000_0000_0000) as i64)
        }
    }
}

/// The raw bits of a 32-bit IEEE-754 number.
impl NbtPrimitive for u32 {
    open spec fn stride() -> nat {
        4
    }

    open spec fn from_be(b: Seq<u8>) -> u32 {
        be32_val(b)
    }

    fn width() -> usize {
        4
    }

    fn read(data: &[u8]) -> (r: u32)
        ensures
            r == <u32 as NbtPrimitive>::from_be(data@),
    {
        let hi: u16 = (data[0] as u16) * 0x100 + (data[1] as u16);
        let lo: u16 = (data[2] as u16) * 0x100 + (data[3] as u16);
        let r = (hi as u32) * 0x1_0000 + (lo as u32);
        proof {
            assert(data@.subrange(0, 2)[0] == data@[0]);
            assert(data@.subrange(0, 2)[1] == data@[1]);
            assert(data@.subrange(2, 4)[0] == data@[2]);
            assert(data@.subrange(2, 4)[1] == data@[3]);
        }
        r
    }
}

/// The raw bits of a 64-bit IEEE-754 number.
impl NbtPrimitive for u64 {
    open spec fn stride() -> nat {
        8
    }

    open spec fn from_be(b: Seq<u8>) -> u64 {
        be64_val(b)
    }

    fn width() -> usize {
        8
    }

    fn read(data: &[u8]) -> (r: u64)
        ensures
            r == <u64 as NbtPrimitive>::from_be(data@),
    {
        let hi = <u32 as NbtPrimitive>::read(vstd::slice::slice_subrange(data, 0, 4));
        let lo = <u32 as NbtPrimitive>::read(vstd::slice::slice_subrange(data, 4, 8));
        let r = (hi as u64) * 0x1_0000_0000 + (lo as u64);
        proof {
            assert(data@.subrange(0, 4) =~= data@.subrange(0, 8).subrange(0, 4));
            assert(data@.subrange(4, 8) =~= data@.subrange(0, 8).subrange(4, 8));
            assert(data@.subrange(0, 8) =~= data@);
        }
        r
    }
}

/// Common representation for int arrays, long arrays, and lists whose
/// elements have a fixed size: a borrowed byte range read with a
/// stride. The range always covers a whole number of elements, because
/// the decoder reads exactly count-times-stride bytes.
#[derive(Copy)]
pub struct NbtArray<'a, T> {
    data: &'a [u8],
    _phantom: PhantomData<T>,
}

impl<'a, T> Clone for NbtArray<'a, T> {
    fn clone(&self) -> (r: Self)
        ensures
            r == *self,
    {
        NbtArray { data: self.data, _phantom: PhantomData }
    }
}

impl<'a, T: NbtPrimitive> View for NbtArray<'a, T> {
    type V = Seq<T>;

    open spec fn view(&self) -> Seq<T> {
        self.elems()
    }
}

impl<'a, T: NbtPrimitive> NbtArray<'a, T> {
    /// The raw bytes the view covers.
    pub closed spec fn bytes(self) -> Seq<u8> {
        self.data@
    }

    /// The elements, each read from its stride of bytes.
    pub open spec fn elems(self) -> Seq<T> {
        Seq::new(
            (self.bytes().len() as int / T::stride() as int) as nat,
            |i: int|
                T::from_be(
                    self.bytes().subrange(
                        T::stride() as int * i,
                        T::stride() as int * (i + 1),
                    ),
                ),
        )
    }

    /// Reads a 4-byte element count and then count whole elements as
    /// one contiguous view.
    pub fn read(reader: &mut Reader<'a>) -> (r: Result<NbtArray<'a, T>, ParseError>)
        requires
            old(reader).wf(),
        ensures
            final(reader).wf(),
            final(reader).data() == old(reader).data(),
            match r {
                Ok(a) => {
                    &&& p_run(old(reader).data(), old(reader).pos(), T::stride() as int)
                        == Ok::<_, ParseError>((a.bytes(), final(reader).pos()))
                    &&& a.bytes().len() as int % (T::stride() as int) == 0
                    &&& old(reader).pos() < final(reader).pos() <= final(reader).data().len()
                },
                Err(e) => p_run(old(reader).data(), old(reader).pos(), T::stride() as int)
                    == Err::<(Seq<u8>, int), _>(e),
            },
    {
        let prefix = match reader.advance(4) {
            Ok(s) => s,
            Err(e) => {
                return Err(e);
            },
        };
        assert(prefix@.len() == 4);
        let count: u32 = <u32 as NbtPrimitive>::read(prefix);
        let w = T::width();
        let remaining = reader.remaining();
        if count as usize > remaining / w {
            proof {
                assert(w as int * (count as int) > remaining as int) by (nonlinear_arith)
                    requires
                        (count as int) > (remaining as int) / (w as int),
                        0 < w as int,
                        0 <= remaining as int,
                ;
            }
            return Err(ParseError::EOF);
        }
        proof {
            assert(w as int * (count as int) <= remaining as int) by (nonlinear_arith)
                requires
                    (count as int) <= (remaining as int) / (w as int),
                    0 < w as int,
                    0 <= remaining as int,
            ;
            assert((w as int * (count as int)) % (w as int) == 0) by (nonlinear_arith)
                requires
                    0 < w as int,
            ;
        }
        let data = match reader.advance(w * (count as usize)) {
            Ok(s) => s,
            Err(e) => {
                proof {
                    assert(false);
                }
                return Err(e);
            },
        };
        Ok(NbtArray { data, _phantom: PhantomData })
    }

    /// The number of elements in the array.
    pub fn len(&self) -> (r: usize)
        ensures
            r == self@.len(),
    {
        self.data.len() / T::width()
    }

    /// Returns the element at the index if it is within range, or
    /// nothing: an out-of-range index never faults.
    pub fn get(&self, index: usize) -> (r: Option<T>)
        ensures
            r == (if index < self@.len() {
                Some(self@[index as int])
            } else {
                None::<T>
            }),
    {
        let w = T::width();
        let n = self.data.len() / w;
        if index < n {
            proof {
                assert((index as int) * (w as int) + (w as int) <= self.bytes().len() as int)
                    by (nonlinear_arith)
                    requires
                        (index as int) < (self.bytes().len() as int) / (w as int),
                        0 < w as int,
                        0 <= self.bytes().len() as int,
                ;
            }
            let start = index * w;
            proof {
                assert((index as int) * (w as int) == (w as int) * (index as int))
                    by (nonlinear_arith);
                assert((w as int) * (index as int + 1) == (w as int) * (index as int) + (
                w as int)) by (nonlinear_arith);
            }
            Some(T::read(vstd::slice::slice_subrange(self.data, start, start + w)))
        } else {
            None
        }
    }

    /// Copies the elements out into a vector.
    pub fn to_vec(&self) -> (r: Vec<T>)
        ensures
            r@ == self@,
    {
        let mut v: Vec<T> = Vec::new();
        let n = self.len();
        let mut i: usize = 0;
        while i < n
            invariant
                n == self@.len(),
                i <= n,
                v@ =~= self@.subrange(0, i as int),
            decreases n - i,
        {
            let e = match self.get(i) {
                Some(e) => e,
                None => {
                    proof {
                        assert(false);
                    }
                    return v;
                },
            };
            v.push(e);
            proof {
                assert(v@ =~= self@.subrange(0, i + 1));
            }
            i = i + 1;
        }
        proof {
            assert(self@.subrange(0, self@.len() as int) =~= self@);
        }
        v
    }

    /// An iterator over the elements of the array.
    pub fn iter(&self) -> (r: NbtArrayIter<'a, T>)
        ensures
            r.array@ == self@,
            r.index == 0,
    {
        NbtArrayIter { array: *self, index: 0 }
    }
}

/// Iterator over the contents of [`NbtArray`], yielding the element
/// type. Each call to [`next`](NbtArrayIter::next) yields the element
/// at the current index, or nothing once the array is exhausted.
pub struct NbtArrayIter<'a, T> {
    pub array: NbtArray<'a, T>,
    pub index: usize,
}

impl<'a, T: NbtPrimitive> NbtArrayIter<'a, T> {
    /// The next element, if one is left.
    pub fn next(&mut self) -> (r: Option<T>)
        ensures
            r == (if old(self).index < old(self).array@.len() {
                Some(old(self).array@[old(self).index as int])
            } else {
                None::<T>
            }),
            final(self).array == old(self).array,
            final(self).index == old(self).index + (if old(self).index < usize::MAX {
                1int
            } else {
                0int
            }),
    {
        let result = self.array.get(self.index);
        if self.index < usize::MAX {
            self.index = self.index + 1;
        }
        result
    }
}

/// The elements of an `i16` array are the 2-byte views of its range.
pub proof fn lemma_i16_elems<'a>(a: NbtArray<'a, i16>)
    ensures
        a@ == crate::format::i16s_of(a.bytes()),
{
    assert(a@ =~= crate::format::i16s_of(a.bytes()));
}

/// The elements of an `i32` array are the 4-byte views of its range.
pub proof fn lemma_i32_elems<'a>(a: NbtArray<'a, i32>)
    ensures
        a@ == crate::format::i32s_of(a.bytes()),
{
    assert(a@ =~= crate::format::i32s_of(a.bytes()));
}

/// The elements of an `i64` array are the 8-byte views of its range.
pub proof fn lemma_i64_elems<'a>(a: NbtArray<'a, i64>)
    ensures
        a@ == crate::format::i64s_of(a.bytes()),
{
    assert(a@ =~= crate::format::i64s_of(a.bytes()));
}

/// The elements of a 32-bit raw-bits array are the 4-byte views of its
/// range.
pub proof fn lemma_u32_elems<'a>(a: NbtArray<'a, u32>)
    ensures
        a@ == crate::format::u32s_of(a.bytes()),
{
    assert(a@ =~= crate::format::u32s_of(a.bytes()));
}

/// The elements of a 64-bit raw-bits array are the 8-byte views of its
/// range.
pub proof fn lemma_u64_elems<'a>(a: NbtArray<'a, u64>)
    ensures
        a@ == crate::format::u64s_of(a.bytes()),
{
    assert(a@ =~= crate::format::u64s_of(a.bytes()));
}

/// The int-array tag, represented using [`NbtArray`].
pub type IntArray<'a> = NbtArray<'a, i32>;

/// The long-array tag, represented using [`NbtArray`].
pub type LongArray<'a> = NbtArray<'a, i64>;

} // verus!
