//! The ordered key/value sequence of a compound tag.

use vstd::prelude::*;

use crate::bin_decode::{read_type, NbtString, ParseError, Reader, Tag};
use crate::format::{p_entries, EntryModel, TagModel};
use crate::text::{cesu8_encode, java_cesu8_bytes_of};
use crate::TagType;

verus! {

broadcast use vstd::std_specs::vec::axiom_vec_index_decreases;

/// One entry of a [`Compound`]: a name and a value. Immutable once
/// constructed.
pub struct Entry<'a> {
    name: NbtString<'a>,
    value: Tag<'a>,
}

impl<'a> Entry<'a> {
    pub closed spec fn model(self) -> EntryModel
        decreases self,
    {
        EntryModel { name: self.name@, value: self.value.model() }
    }

    /// The entry's name.
    pub fn name(&self) -> (r: &NbtString<'a>)
        ensures
            r@ == self@.name,
    {
        &self.name
    }

    /// The entry's value.
    pub fn value(&self) -> (r: &Tag<'a>)
        ensures
            r@ == self@.value,
    {
        &self.value
    }
}

impl<'a> Entry<'a> {
    /// A copy of the entry; both are views into the same buffer.
    pub(crate) fn duplicate(&self) -> (r: Entry<'a>)
        ensures
            r@ == self@,
        decreases self,
    {
        Entry { name: self.name, value: self.value.duplicate() }
    }
}

impl<'a> Clone for Entry<'a> {
    fn clone(&self) -> (r: Self)
        ensures
            r@ == self@,
    {
        self.duplicate()
    }
}

impl<'a> View for Entry<'a> {
    type V = EntryModel;

    open spec fn view(&self) -> EntryModel {
        self.model()
    }
}

/// An ordered sequence of name/value entries, exactly as they stood in
/// the file. Duplicate names are kept; lookup by name returns the first
/// match only. The terminator byte is consumed during parse and not
/// retained.
pub struct Compound<'a> {
    entries: Vec<Entry<'a>>,
}

impl<'a> Compound<'a> {
    pub closed spec fn model(self) -> Seq<EntryModel>
        decreases self,
    {
        Seq::new(
            self.entries@.len(),
            |i: int|
                if 0 <= i < self.entries@.len() {
                    self.entries@[i].model()
                } else {
                    EntryModel { name: Seq::empty(), value: TagModel::Byte(0) }
                },
        )
    }

    /// The entries, as values rather than models.
    pub closed spec fn entry_seq(self) -> Seq<Entry<'a>> {
        self.entries@
    }

    /// Reads (kind, name, value) triples until the terminator, which is
    /// consumed. A failure anywhere is returned at once: no partial
    /// compound comes back.
    #[verifier::loop_isolation(false)]
    pub(crate) fn read(reader: &mut Reader<'a>) -> (r: Result<Compound<'a>, ParseError>)
        requires
            old(reader).wf(),
        ensures
            final(reader).wf(),
            final(reader).data() == old(reader).data(),
            match r {
                Ok(c) => {
                    &&& p_entries(old(reader).data(), old(reader).pos()) == Ok::<_, ParseError>(
                        (c@, final(reader).pos()),
                    )
                    &&& old(reader).pos() < final(reader).pos() <= final(reader).data().len()
                },
                Err(e) => p_entries(old(reader).data(), old(reader).pos()) == Err::<
                    (Seq<EntryModel>, int),
                    _,
                >(e),
            },
        decreases old(reader).data().len() - old(reader).pos(), 2int,
    {
        let ghost d = old(reader).data();
        let ghost pos0 = old(reader).pos();
        let mut entries: Vec<Entry<'a>> = Vec::new();
        loop
            invariant
                reader.wf(),
                reader.data() == d,
                pos0 <= reader.pos() <= d.len(),
                (match p_entries(d, reader.pos()) {
                    Ok((rest, p)) => p_entries(d, pos0) == Ok::<_, ParseError>(
                        (entry_views(entries@) + rest, p),
                    ),
                    Err(e) => p_entries(d, pos0) == Err::<(Seq<EntryModel>, int), _>(e),
                }),
            decreases d.len() - reader.pos(),
        {
            let ghost cur = reader.pos();
            let tag = match read_type(reader) {
                Ok(t) => t,
                Err(e) => {
                    return Err(e);
                },
            };
            if tag == TagType::End {
                let c = Compound { entries };
                proof {
                    assert(c@ =~= entry_views(c.entries@) + Seq::<EntryModel>::empty());
                }
                return Ok(c);
            }
            let name = match NbtString::read(reader) {
                Ok(s) => s,
                Err(e) => {
                    return Err(e);
                },
            };
            let value = match Tag::read(tag, reader) {
                Ok(v) => v,
                Err(e) => {
                    return Err(e);
                },
            };
            let ghost old_entries = entries@;
            entries.push(Entry { name, value });
            proof {
                let em = EntryModel { name: name@, value: value@ };
                assert(entries@[entries@.len() - 1].model() == em);
                assert(entry_views(entries@) =~= entry_views(old_entries) + seq![em]);
                match p_entries(d, reader.pos()) {
                    Ok((rest, p)) => {
                        assert(p_entries(d, cur) == Ok::<_, ParseError>((seq![em] + rest, p)));
                        assert(entry_views(old_entries) + (seq![em] + rest) =~= entry_views(
                            entries@,
                        ) + rest);
                    },
                    Err(e) => {
                        assert(p_entries(d, cur) == Err::<(Seq<EntryModel>, int), _>(e));
                    },
                }
            }
        }
    }

    /// A copy of the compound; both are views into the same buffer.
    pub(crate) fn duplicate(&self) -> (r: Compound<'a>)
        ensures
            r@ == self@,
        decreases self,
    {
        let mut entries: Vec<Entry<'a>> = Vec::new();
        let n = self.entries.len();
        let mut i: usize = 0;
        while i < n
            invariant
                n == self.entries@.len(),
                i <= n,
                entries@.len() == i,
                forall|j: int| 0 <= j < i ==> #[trigger] entries@[j]@ == self.entries@[j]@,
            decreases n - i,
        {
            entries.push(self.entries[i].duplicate());
            i = i + 1;
        }
        proof {
            assert forall|j: int| 0 <= j < entries@.len() implies entries@[j].model()
                == self.entries@[j].model() by {
                assert(entries@[j]@ == self.entries@[j]@);
            }
        }
        let c = Compound { entries };
        proof {
            assert(c@ =~= self@);
        }
        c
    }

    /// The number of entries.
    pub fn len(&self) -> (r: usize)
        ensures
            r == self@.len(),
    {
        self.entries.len()
    }

    /// Whether there are no entries.
    pub fn is_empty(&self) -> (r: bool)
        ensures
            r == (self@.len() == 0),
    {
        self.entries.len() == 0
    }

    /// Converts into the vector of entries.
    pub fn into_vec(self) -> (r: Vec<Entry<'a>>)
        ensures
            r@ == self.entry_seq(),
            r@.len() == self@.len(),
            forall|i: int| 0 <= i < r@.len() ==> #[trigger] r@[i]@ == self@[i],
    {
        self.entries
    }

    /// The entries as a slice.
    pub fn entries(&self) -> (r: &[Entry<'a>])
        ensures
            r@ == self.entry_seq(),
            r@.len() == self@.len(),
            forall|i: int| 0 <= i < r@.len() ==> #[trigger] r@[i]@ == self@[i],
    {
        self.entries.as_slice()
    }

    /// Searches for the first entry whose name holds the modified-UTF-8
    /// encoding of `key`, and returns it if it exists.
    pub fn find_first_key(&self, key: &str) -> (r: Option<&Entry<'a>>)
        ensures
            match r {
                Some(e) => exists|i: int|
                    {
                        &&& 0 <= i < self@.len()
                        &&& #[trigger] self@[i].name == java_cesu8_bytes_of(key@)
                        &&& e@ == self@[i]
                        &&& forall|j: int|
                            0 <= j < i ==> #[trigger] self@[j].name != java_cesu8_bytes_of(key@)
                    },
                None => forall|i: int|
                    0 <= i < self@.len() ==> #[trigger] self@[i].name != java_cesu8_bytes_of(
                        key@,
                    ),
            },
    {
        let kb = cesu8_encode(key);
        let n = self.entries.len();
        let mut i: usize = 0;
        while i < n
            invariant
                n == self@.len(),
                n == self.entries@.len(),
                i <= n,
                kb@ == java_cesu8_bytes_of(key@),
                forall|j: int| 0 <= j < i ==> #[trigger] self@[j].name != java_cesu8_bytes_of(key@),
            decreases n - i,
        {
            let e = &self.entries[i];
            if bytes_eq(e.name.as_bytes(), kb.as_slice()) {
                proof {
                    assert(self@[i as int] == self.entries@[i as int].model());
                    assert(self@[i as int].name == java_cesu8_bytes_of(key@));
                    assert(e@ == self@[i as int]);
                }
                return Some(e);
            }
            proof {
                assert(self@[i as int] == self.entries@[i as int].model());
            }
            i = i + 1;
        }
        None
    }
}

impl<'a> Clone for Compound<'a> {
    fn clone(&self) -> (r: Self)
        ensures
            r@ == self@,
    {
        self.duplicate()
    }
}

impl<'a> View for Compound<'a> {
    type V = Seq<EntryModel>;

    open spec fn view(&self) -> Seq<EntryModel> {
        self.model()
    }
}

/// The models of a sequence of entries.
pub open spec fn entry_views<'a>(s: Seq<Entry<'a>>) -> Seq<EntryModel> {
    Seq::new(s.len(), |i: int| s[i]@)
}

/// Whether two byte ranges hold the same bytes.
fn bytes_eq(a: &[u8], b: &[u8]) -> (r: bool)
    ensures
        r == (a@ == b@),
{
    if a.len() != b.len() {
        proof {
            assert(a@.len() != b@.len());
        }
        return false;
    }
    let n = a.len();
    let mut i: usize = 0;
    while i < n
        invariant
            n == a@.len(),
            n == b@.len(),
            i <= n,
            forall|j: int| 0 <= j < i ==> a@[j] == b@[j],
        decreases n - i,
    {
        if a[i] != b[i] {
            return false;
        }
        i = i + 1;
    }
    proof {
        assert(a@ =~= b@);
    }
    true
}

} // verus!
