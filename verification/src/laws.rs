//! What holds of the format as a whole: the properties that tie the
//! encoding and the parse together, proved over the spec functions
//! that the executable decoder and encoder are verified against.

use vstd::prelude::*;

use crate::bin_decode::ParseError;
use crate::format::{
    be16, be32, be32_val, be64, enc_byte_arrays, enc_compound_elems, enc_count, enc_document,
    enc_entries, enc_i16s, enc_i32s, enc_i64s, enc_int_arrays, enc_list, enc_list_elems,
    enc_long_arrays, enc_payload, enc_str, enc_strs, enc_u32s, enc_u64s, i16_as_u16, i16s_of,
    i32_as_u32, i32s_of, i64_as_u64, i64s_of, lemma_be16_round_trip, lemma_be32_round_trip,
    lemma_be64_round_trip, p_document, p_entries, p_kind, p_list, p_str, p_u16, p_u32,
    u32s_of, u64s_of, wf_document, wf_entries, wf_list, wf_payload, EntryModel, ListModel,
    TagModel,
};
use crate::TagType;

verus! {

/// A kind's wire identifier maps back to the kind.
pub proof fn lemma_kind_id(t: TagType)
    ensures
        TagType::spec_of_id(t.spec_id()) == Some(t),
{
}

/// A document whose first byte holds a recognized kind other than
/// Compound fails with that kind in the error.
pub proof fn lemma_root_kind(d: Seq<u8>, t: TagType)
    requires
        d.len() > 0,
        TagType::spec_of_id(d[0]) == Some(t),
        t != TagType::Compound,
    ensures
        p_document(d) == Err::<(Seq<u8>, Seq<EntryModel>, int), ParseError>(
            ParseError::IncorrectStartTag { tag: t },
        ),
{
}

/// A first byte outside the known kinds fails with that byte and
/// offset zero.
pub proof fn lemma_unknown_root_kind(d: Seq<u8>)
    requires
        d.len() > 0,
        TagType::spec_of_id(d[0]) is None,
    ensures
        p_document(d) == Err::<(Seq<u8>, Seq<EntryModel>, int), ParseError>(
            ParseError::UnknownTag { tag: d[0], offset: 0 },
        ),
{
}

/// A byte outside the known kinds at an entry's kind position fails
/// with that byte and offset.
pub proof fn lemma_unknown_entry_kind(d: Seq<u8>, pos: int)
    requires
        0 <= pos < d.len(),
        pos <= usize::MAX,
        TagType::spec_of_id(d[pos]) is None,
    ensures
        p_entries(d, pos) == Err::<(Seq<EntryModel>, int), ParseError>(
            ParseError::UnknownTag { tag: d[pos], offset: pos as usize },
        ),
{
}

/// A byte outside the known kinds at a list's element-kind position
/// fails with that byte and offset.
pub proof fn lemma_unknown_list_kind(d: Seq<u8>, pos: int)
    requires
        0 <= pos < d.len(),
        pos <= usize::MAX,
        TagType::spec_of_id(d[pos]) is None,
    ensures
        p_list(d, pos) == Err::<(ListModel, int), ParseError>(
            ParseError::UnknownTag { tag: d[pos], offset: pos as usize },
        ),
{
}

/// A list whose element kind is End decodes to an empty Byte-kind list
/// when its count is zero, and fails with UnexpectedEndTag when the
/// count is anything else.
pub proof fn lemma_end_kind_list(d: Seq<u8>, pos: int)
    requires
        0 <= pos,
        pos + 5 <= d.len(),
        d[pos] == 0,
    ensures
        be32_val(d.subrange(pos + 1, pos + 5)) == 0 ==> p_list(d, pos) == Ok::<_, ParseError>(
            (ListModel::Byte(Seq::<u8>::empty()), pos + 5),
        ),
        be32_val(d.subrange(pos + 1, pos + 5)) != 0 ==> p_list(d, pos) == Err::<
            (ListModel, int),
            ParseError,
        >(ParseError::UnexpectedEndTag),
{
    assert(p_kind(d, pos) == Ok::<_, ParseError>((TagType::End, pos + 1)));
    assert(p_u32(d, pos + 1) == Ok::<_, ParseError>(
        (be32_val(d.subrange(pos + 1, pos + 5)), pos + 5),
    ));
}

/// Bytes that stand side by side in a buffer can be read back piece by
/// piece.
proof fn lemma_split(d: Seq<u8>, pos: int, a: Seq<u8>, b: Seq<u8>)
    requires
        0 <= pos,
        pos + a.len() + b.len() <= d.len(),
        d.subrange(pos, pos + a.len() + b.len()) == a + b,
    ensures
        d.subrange(pos, pos + a.len()) == a,
        d.subrange(pos + a.len(), pos + a.len() + b.len()) == b,
{
    let whole = d.subrange(pos, pos + a.len() + b.len());
    assert forall|i: int| 0 <= i < a.len() implies d.subrange(pos, pos + a.len())[i] == a[i] by {
        assert(whole[i] == d[pos + i]);
        assert(whole[i] == a[i]);
    }
    assert(d.subrange(pos, pos + a.len()) =~= a);
    assert forall|i: int| 0 <= i < b.len() implies d.subrange(
        pos + a.len(),
        pos + a.len() + b.len(),
    )[i] == b[i] by {
        assert(whole[a.len() + i] == d[pos + a.len() + i]);
        assert(whole[a.len() + i] == b[i]);
    }
    assert(d.subrange(pos + a.len(), pos + a.len() + b.len()) =~= b);
}

/// The elements of an encoded run read back as themselves.
proof fn lemma_i16s_of_enc(xs: Seq<i16>)
    ensures
        enc_i16s(xs).len() == 2 * xs.len(),
        i16s_of(enc_i16s(xs)) == xs,
    decreases xs.len(),
{
    let e = enc_i16s(xs);
    if xs.len() == 0 {
        assert(i16s_of(e) =~= xs);
    } else {
        lemma_i16s_of_enc(xs.drop_first());
        let a = be16(i16_as_u16(xs.first()));
        let rest = enc_i16s(xs.drop_first());
        assert(e == a + rest);
        assert(e.len() == 2 * xs.len());
        assert forall|i: int| 0 <= i < xs.len() implies i16s_of(e)[i] == xs[i] by {
            if i == 0 {
                assert(e.subrange(0, 2) =~= a);
                lemma_be16_round_trip(i16_as_u16(xs.first()));
            } else {
                assert(e.subrange(2 * i, 2 * i + 2) =~= rest.subrange(
                    2 * (i - 1),
                    2 * (i - 1) + 2,
                ));
                assert(i16s_of(rest)[i - 1] == xs.drop_first()[i - 1]);
            }
        }
        assert(i16s_of(e) =~= xs);
    }
}

/// The elements of an encoded run read back as themselves.
proof fn lemma_i32s_of_enc(xs: Seq<i32>)
    ensures
        enc_i32s(xs).len() == 4 * xs.len(),
        i32s_of(enc_i32s(xs)) == xs,
    decreases xs.len(),
{
    let e = enc_i32s(xs);
    if xs.len() == 0 {
        assert(i32s_of(e) =~= xs);
    } else {
        lemma_i32s_of_enc(xs.drop_first());
        let a = be32(i32_as_u32(xs.first()));
        let rest = enc_i32s(xs.drop_first());
        assert(e == a + rest);
        lemma_be32_round_trip(i32_as_u32(xs.first()));
        assert(e.len() == 4 * xs.len());
        assert forall|i: int| 0 <= i < xs.len() implies i32s_of(e)[i] == xs[i] by {
            if i == 0 {
                assert(e.subrange(0, 4) =~= a);
            } else {
                assert(e.subrange(4 * i, 4 * i + 4) =~= rest.subrange(
                    4 * (i - 1),
                    4 * (i - 1) + 4,
                ));
                assert(i32s_of(rest)[i - 1] == xs.drop_first()[i - 1]);
            }
        }
        assert(i32s_of(e) =~= xs);
    }
}

/// The elements of an encoded run read back as themselves.
proof fn lemma_i64s_of_enc(xs: Seq<i64>)
    ensures
        enc_i64s(xs).len() == 8 * xs.len(),
        i64s_of(enc_i64s(xs)) == xs,
    decreases xs.len(),
{
    let e = enc_i64s(xs);
    if xs.len() == 0 {
        assert(i64s_of(e) =~= xs);
    } else {
        lemma_i64s_of_enc(xs.drop_first());
        let a = be64(i64_as_u64(xs.first()));
        let rest = enc_i64s(xs.drop_first());
        assert(e == a + rest);
        lemma_be64_round_trip(i64_as_u64(xs.first()));
        assert(e.len() == 8 * xs.len());
        assert forall|i: int| 0 <= i < xs.len() implies i64s_of(e)[i] == xs[i] by {
            if i == 0 {
                assert(e.subrange(0, 8) =~= a);
            } else {
                assert(e.subrange(8 * i, 8 * i + 8) =~= rest.subrange(
                    8 * (i - 1),
                    8 * (i - 1) + 8,
                ));
                assert(i64s_of(rest)[i - 1] == xs.drop_first()[i - 1]);
            }
        }
        assert(i64s_of(e) =~= xs);
    }
}

/// The elements of an encoded run read back as themselves.
proof fn lemma_u32s_of_enc(xs: Seq<u32>)
    ensures
        enc_u32s(xs).len() == 4 * xs.len(),
        u32s_of(enc_u32s(xs)) == xs,
    decreases xs.len(),
{
    let e = enc_u32s(xs);
    if xs.len() == 0 {
        assert(u32s_of(e) =~= xs);
    } else {
        lemma_u32s_of_enc(xs.drop_first());
        let a = be32(xs.first());
        let rest = enc_u32s(xs.drop_first());
        assert(e == a + rest);
        lemma_be32_round_trip(xs.first());
        assert(e.len() == 4 * xs.len());
        assert forall|i: int| 0 <= i < xs.len() implies u32s_of(e)[i] == xs[i] by {
            if i == 0 {
                assert(e.subrange(0, 4) =~= a);
            } else {
                assert(e.subrange(4 * i, 4 * i + 4) =~= rest.subrange(
                    4 * (i - 1),
                    4 * (i - 1) + 4,
                ));
                assert(u32s_of(rest)[i - 1] == xs.drop_first()[i - 1]);
            }
        }
        assert(u32s_of(e) =~= xs);
    }
}

/// The elements of an encoded run read back as themselves.
proof fn lemma_u64s_of_enc(xs: Seq<u64>)
    ensures
        enc_u64s(xs).len() == 8 * xs.len(),
        u64s_of(enc_u64s(xs)) == xs,
    decreases xs.len(),
{
    let e = enc_u64s(xs);
    if xs.len() == 0 {
        assert(u64s_of(e) =~= xs);
    } else {
        lemma_u64s_of_enc(xs.drop_first());
        let a = be64(xs.first());
        let rest = enc_u64s(xs.drop_first());
        assert(e == a + rest);
        lemma_be64_round_trip(xs.first());
        assert(e.len() == 8 * xs.len());
        assert forall|i: int| 0 <= i < xs.len() implies u64s_of(e)[i] == xs[i] by {
            if i == 0 {
                assert(e.subrange(0, 8) =~= a);
            } else {
                assert(e.subrange(8 * i, 8 * i + 8) =~= rest.subrange(
                    8 * (i - 1),
                    8 * (i - 1) + 8,
                ));
                assert(u64s_of(rest)[i - 1] == xs.drop_first()[i - 1]);
            }
        }
        assert(u64s_of(e) =~= xs);
    }
}

/// No tag value is written with the End kind.
proof fn lemma_kind_not_end(t: TagModel)
    ensures
        t.kind() != TagType::End,
{
}

/// A count that fits its prefix reads back as itself.
proof fn lemma_count_at(n: nat, d: Seq<u8>, pos: int)
    requires
        0 <= pos,
        n < 0x1_0000_0000,
        pos + 4 <= d.len(),
        d.subrange(pos, pos + 4) == enc_count(n),
    ensures
        p_u32(d, pos) == Ok::<_, ParseError>((n as u32, pos + 4)),
{
    lemma_be32_round_trip((n % 0x1_0000_0000) as u32);
}

/// A string whose length fits its prefix reads back as itself.
proof fn lemma_str_at(name: Seq<u8>, d: Seq<u8>, pos: int)
    requires
        0 <= pos,
        name.len() < 0x1_0000,
        pos + enc_str(name).len() <= d.len(),
        d.subrange(pos, pos + enc_str(name).len()) == enc_str(name),
    ensures
        enc_str(name).len() == 2 + name.len(),
        p_str(d, pos) == Ok::<_, ParseError>((name, pos + enc_str(name).len())),
{
    let lenb = be16((name.len() % 0x1_0000) as u16);
    assert(enc_str(name) == lenb + name);
    lemma_split(d, pos, lenb, name);
    lemma_be16_round_trip((name.len() % 0x1_0000) as u16);
}

/// A well-formed payload, stood at its place in a buffer, parses back
/// to exactly the value it encodes, ending right after it.
/// A count-prefixed raw byte run reads back as itself.
proof fn lemma_byte_array_payload_at(b: Seq<u8>, d: Seq<u8>, pos: int)
    requires
        b.len() < 0x1_0000_0000,
        0 <= pos,
        pos + enc_payload(TagModel::ByteArray(b)).len() <= d.len(),
        d.subrange(pos, pos + enc_payload(TagModel::ByteArray(b)).len()) == enc_payload(
            TagModel::ByteArray(b),
        ),
    ensures
        crate::format::p_payload(TagType::ByteArray, d, pos) == Ok::<_, ParseError>(
            (TagModel::ByteArray(b), pos + enc_payload(TagModel::ByteArray(b)).len()),
        ),
{
    let cnt = enc_count(b.len());
    assert(enc_payload(TagModel::ByteArray(b)) == cnt + b);
    lemma_split(d, pos, cnt, b);
    lemma_count_at(b.len(), d, pos);
}

/// A count-prefixed run of 4-byte elements reads back as itself.
proof fn lemma_int_array_payload_at(xs: Seq<i32>, d: Seq<u8>, pos: int)
    requires
        xs.len() < 0x1_0000_0000,
        0 <= pos,
        pos + enc_payload(TagModel::IntArray(xs)).len() <= d.len(),
        d.subrange(pos, pos + enc_payload(TagModel::IntArray(xs)).len()) == enc_payload(
            TagModel::IntArray(xs),
        ),
    ensures
        crate::format::p_payload(TagType::IntArray, d, pos) == Ok::<_, ParseError>(
            (TagModel::IntArray(xs), pos + enc_payload(TagModel::IntArray(xs)).len()),
        ),
{
    let cnt = enc_count(xs.len());
    assert(enc_payload(TagModel::IntArray(xs)) == cnt + enc_i32s(xs));
    lemma_split(d, pos, cnt, enc_i32s(xs));
    lemma_count_at(xs.len(), d, pos);
    lemma_i32s_of_enc(xs);
}

/// A count-prefixed run of 8-byte elements reads back as itself.
proof fn lemma_long_array_payload_at(xs: Seq<i64>, d: Seq<u8>, pos: int)
    requires
        xs.len() < 0x1_0000_0000,
        0 <= pos,
        pos + enc_payload(TagModel::LongArray(xs)).len() <= d.len(),
        d.subrange(pos, pos + enc_payload(TagModel::LongArray(xs)).len()) == enc_payload(
            TagModel::LongArray(xs),
        ),
    ensures
        crate::format::p_payload(TagType::LongArray, d, pos) == Ok::<_, ParseError>(
            (TagModel::LongArray(xs), pos + enc_payload(TagModel::LongArray(xs)).len()),
        ),
{
    let cnt = enc_count(xs.len());
    assert(enc_payload(TagModel::LongArray(xs)) == cnt + enc_i64s(xs));
    lemma_split(d, pos, cnt, enc_i64s(xs));
    lemma_count_at(xs.len(), d, pos);
    lemma_i64s_of_enc(xs);
}

#[verifier::rlimit(100)]
#[verifier::spinoff_prover]
proof fn lemma_payload_at(t: TagModel, d: Seq<u8>, pos: int)
    requires
        wf_payload(t),
        0 <= pos,
        pos + enc_payload(t).len() <= d.len(),
        d.subrange(pos, pos + enc_payload(t).len()) == enc_payload(t),
    ensures
        crate::format::p_payload(t.kind(), d, pos) == Ok::<_, ParseError>(
            (t, pos + enc_payload(t).len()),
        ),
    decreases t,
{
    match t {
        TagModel::Byte(v) => {
            assert(d[pos] == enc_payload(t)[0]);
        },
        TagModel::Short(v) => {
            lemma_be16_round_trip(i16_as_u16(v));
        },
        TagModel::Int(v) => {
            lemma_be32_round_trip(i32_as_u32(v));
        },
        TagModel::Long(v) => {
            lemma_be64_round_trip(i64_as_u64(v));
        },
        TagModel::Float(bits) => {
            lemma_be32_round_trip(bits);
        },
        TagModel::Double(bits) => {
            lemma_be64_round_trip(bits);
        },
        TagModel::ByteArray(b) => {
            lemma_byte_array_payload_at(b, d, pos);
        },
        TagModel::String(b) => {
            lemma_str_at(b, d, pos);
        },
        TagModel::List(l) => {
            lemma_list_at(l, d, pos);
        },
        TagModel::Compound(es) => {
            assert(enc_payload(t) == enc_entries(es) + seq![0u8]);
            lemma_entries_at(es, d, pos);
        },
        TagModel::IntArray(xs) => {
            lemma_int_array_payload_at(xs, d, pos);
        },
        TagModel::LongArray(xs) => {
            lemma_long_array_payload_at(xs, d, pos);
        },
    }
}

/// Well-formed entries followed by the terminator parse back to
/// exactly the entries, consuming the terminator as well.
#[verifier::rlimit(100)]
proof fn lemma_entries_at(es: Seq<EntryModel>, d: Seq<u8>, pos: int)
    requires
        wf_entries(es),
        0 <= pos,
        pos + enc_entries(es).len() + 1 <= d.len(),
        d.subrange(pos, pos + enc_entries(es).len() + 1) == enc_entries(es) + seq![0u8],
    ensures
        p_entries(d, pos) == Ok::<_, ParseError>((es, pos + enc_entries(es).len() + 1)),
    decreases es,
{
    let endb = seq![0u8];
    if es.len() == 0 {
        assert(enc_entries(es) + endb =~= endb);
        assert(d.subrange(pos, pos + enc_entries(es).len() + 1)[0] == d[pos]);
        assert(d[pos] == 0);
        assert(p_kind(d, pos) == Ok::<_, ParseError>((TagType::End, pos + 1)));
        assert(p_entries(d, pos) == Ok::<_, ParseError>((Seq::<EntryModel>::empty(), pos + 1)));
        assert(Seq::<EntryModel>::empty() =~= es);
    } else {
        let head = es.first();
        let kind = head.value.kind();
        let kidb = seq![kind.spec_id()];
        let estr = enc_str(head.name);
        let epay = enc_payload(head.value);
        let erest = enc_entries(es.drop_first());
        assert(enc_entries(es) == kidb + estr + epay + erest);
        assert(enc_entries(es) + endb =~= kidb + (estr + (epay + (erest + endb))));
        lemma_split(d, pos, kidb, estr + (epay + (erest + endb)));
        lemma_split(d, pos + 1, estr, epay + (erest + endb));
        lemma_split(d, pos + 1 + estr.len(), epay, erest + endb);
        let pos2 = pos + 1 + estr.len();
        let pos3 = pos2 + epay.len();
        assert(d.subrange(pos, pos + 1)[0] == d[pos]);
        assert(kidb[0] == kind.spec_id());
        assert(d[pos] == kind.spec_id());
        lemma_kind_id(kind);
        lemma_kind_not_end(head.value);
        assert(p_kind(d, pos) == Ok::<_, ParseError>((kind, pos + 1)));
        lemma_str_at(head.name, d, pos + 1);
        assert(p_str(d, pos + 1) == Ok::<_, ParseError>((head.name, pos2)));
        lemma_payload_at(head.value, d, pos2);
        assert(crate::format::p_payload(kind, d, pos2) == Ok::<_, ParseError>(
            (head.value, pos3),
        ));
        lemma_entries_at(es.drop_first(), d, pos3);
        assert(p_entries(d, pos3) == Ok::<_, ParseError>(
            (es.drop_first(), pos3 + erest.len() + 1),
        ));
        assert(EntryModel { name: head.name, value: head.value } == head);
        assert(seq![head] + es.drop_first() =~= es);
        assert(pos3 + erest.len() + 1 == pos + enc_entries(es).len() + 1);
    }
}

/// A well-formed list, stood at its place in a buffer, parses back to
/// exactly the value it encodes.
#[verifier::rlimit(100)]
proof fn lemma_list_at(l: ListModel, d: Seq<u8>, pos: int)
    requires
        wf_list(l),
        0 <= pos,
        pos + enc_list(l).len() <= d.len(),
        d.subrange(pos, pos + enc_list(l).len()) == enc_list(l),
    ensures
        p_list(d, pos) == Ok::<_, ParseError>((l, pos + enc_list(l).len())),
    decreases l,
{
    let kind = l.elem_kind();
    let kidb = seq![kind.spec_id()];
    let cnt = enc_count(l.len());
    let pos2 = pos + 5;
    let payload = match l {
        ListModel::Byte(s) => s,
        ListModel::Short(s) => enc_i16s(s),
        ListModel::Int(s) => enc_i32s(s),
        ListModel::Long(s) => enc_i64s(s),
        ListModel::Float(s) => enc_u32s(s),
        ListModel::Double(s) => enc_u64s(s),
        ListModel::ByteArray(s) => enc_byte_arrays(s),
        ListModel::String(s) => enc_strs(s),
        ListModel::Compound(s) => enc_compound_elems(s),
        ListModel::List(s) => enc_list_elems(s),
        ListModel::IntArray(s) => enc_int_arrays(s),
        ListModel::LongArray(s) => enc_long_arrays(s),
    };
    assert(enc_list(l) == kidb + cnt + payload);
    assert(enc_list(l) =~= kidb + (cnt + payload));
    lemma_split(d, pos, kidb, cnt + payload);
    lemma_split(d, pos + 1, cnt, payload);
    assert(d.subrange(pos, pos + 1)[0] == d[pos]);
    assert(kidb[0] == kind.spec_id());
    assert(d[pos] == kind.spec_id());
    lemma_kind_id(kind);
    assert(p_kind(d, pos) == Ok::<_, ParseError>((kind, pos + 1)));
    lemma_count_at(l.len(), d, pos + 1);
    assert(p_u32(d, pos + 1) == Ok::<_, ParseError>((l.len() as u32, pos2)));
    match l {
        ListModel::Byte(s) => {
        },
        ListModel::Short(s) => {
            lemma_i16s_of_enc(s);
        },
        ListModel::Int(s) => {
            lemma_i32s_of_enc(s);
        },
        ListModel::Long(s) => {
            lemma_i64s_of_enc(s);
        },
        ListModel::Float(s) => {
            lemma_u32s_of_enc(s);
        },
        ListModel::Double(s) => {
            lemma_u64s_of_enc(s);
        },
        ListModel::ByteArray(s) => {
            lemma_byte_arrays_at(s, d, pos2);
        },
        ListModel::String(s) => {
            lemma_strs_at(s, d, pos2);
        },
        ListModel::Compound(s) => {
            lemma_compounds_at(s, d, pos2);
        },
        ListModel::List(s) => {
            lemma_lists_at(s, d, pos2);
        },
        ListModel::IntArray(s) => {
            lemma_int_arrays_at(s, d, pos2);
        },
        ListModel::LongArray(s) => {
            lemma_long_arrays_at(s, d, pos2);
        },
    }
}

/// Encoded strings read back one by one.
proof fn lemma_strs_at(ss: Seq<Seq<u8>>, d: Seq<u8>, pos: int)
    requires
        forall|i: int| 0 <= i < ss.len() ==> (#[trigger] ss[i]).len() < 0x1_0000,
        0 <= pos,
        pos + enc_strs(ss).len() <= d.len(),
        d.subrange(pos, pos + enc_strs(ss).len()) == enc_strs(ss),
    ensures
        crate::format::p_strs(d, pos, ss.len() as int) == Ok::<_, ParseError>(
            (ss, pos + enc_strs(ss).len()),
        ),
    decreases ss,
{
    if ss.len() == 0 {
        assert(Seq::<Seq<u8>>::empty() =~= ss);
    } else {
        let head = ss.first();
        let estr = enc_str(head);
        let erest = enc_strs(ss.drop_first());
        assert(enc_strs(ss) == estr + erest);
        lemma_split(d, pos, estr, erest);
        assert(head.len() < 0x1_0000) by {
            assert(ss[0] == head);
        }
        lemma_str_at(head, d, pos);
        let pos1 = pos + estr.len();
        assert(forall|i: int|
            0 <= i < ss.drop_first().len() ==> (#[trigger] ss.drop_first()[i]).len()
                < 0x1_0000) by {
            assert(forall|i: int|
                0 <= i < ss.drop_first().len() ==> ss.drop_first()[i] == ss[i + 1]);
        }
        lemma_strs_at(ss.drop_first(), d, pos1);
        assert(seq![head] + ss.drop_first() =~= ss);
    }
}

/// Encoded byte arrays read back one by one.
proof fn lemma_byte_arrays_at(ss: Seq<Seq<u8>>, d: Seq<u8>, pos: int)
    requires
        forall|i: int| 0 <= i < ss.len() ==> (#[trigger] ss[i]).len() < 0x1_0000_0000,
        0 <= pos,
        pos + enc_byte_arrays(ss).len() <= d.len(),
        d.subrange(pos, pos + enc_byte_arrays(ss).len()) == enc_byte_arrays(ss),
    ensures
        crate::format::p_byte_arrays(d, pos, ss.len() as int) == Ok::<_, ParseError>(
            (ss, pos + enc_byte_arrays(ss).len()),
        ),
    decreases ss,
{
    if ss.len() == 0 {
        assert(Seq::<Seq<u8>>::empty() =~= ss);
    } else {
        let head = ss.first();
        let cnt = enc_count(head.len());
        let erest = enc_byte_arrays(ss.drop_first());
        assert(enc_byte_arrays(ss) == cnt + head + erest);
        assert(enc_byte_arrays(ss) =~= cnt + (head + erest));
        lemma_split(d, pos, cnt, head + erest);
        lemma_split(d, pos + 4, head, erest);
        assert(head.len() < 0x1_0000_0000) by {
            assert(ss[0] == head);
        }
        lemma_count_at(head.len(), d, pos);
        let pos1 = pos + 4 + head.len();
        assert(forall|i: int|
            0 <= i < ss.drop_first().len() ==> (#[trigger] ss.drop_first()[i]).len()
                < 0x1_0000_0000) by {
            assert(forall|i: int|
                0 <= i < ss.drop_first().len() ==> ss.drop_first()[i] == ss[i + 1]);
        }
        lemma_byte_arrays_at(ss.drop_first(), d, pos1);
        assert(seq![head] + ss.drop_first() =~= ss);
    }
}

/// Encoded compounds read back one by one.
proof fn lemma_compounds_at(ss: Seq<Seq<EntryModel>>, d: Seq<u8>, pos: int)
    requires
        crate::format::wf_compound_elems(ss),
        0 <= pos,
        pos + enc_compound_elems(ss).len() <= d.len(),
        d.subrange(pos, pos + enc_compound_elems(ss).len()) == enc_compound_elems(ss),
    ensures
        crate::format::p_compounds(d, pos, ss.len() as int) == Ok::<_, ParseError>(
            (ss, pos + enc_compound_elems(ss).len()),
        ),
    decreases ss,
{
    if ss.len() == 0 {
        assert(Seq::<Seq<EntryModel>>::empty() =~= ss);
    } else {
        let head = ss.first();
        let ehead = enc_entries(head) + seq![0u8];
        let erest = enc_compound_elems(ss.drop_first());
        assert(enc_compound_elems(ss) == (enc_entries(head) + seq![0u8]) + erest);
        lemma_split(d, pos, ehead, erest);
        lemma_entries_at(head, d, pos);
        let pos1 = pos + ehead.len();
        lemma_compounds_at(ss.drop_first(), d, pos1);
        assert(seq![head] + ss.drop_first() =~= ss);
    }
}

/// Encoded nested lists read back one by one.
proof fn lemma_lists_at(ss: Seq<ListModel>, d: Seq<u8>, pos: int)
    requires
        crate::format::wf_list_elems(ss),
        0 <= pos,
        pos + enc_list_elems(ss).len() <= d.len(),
        d.subrange(pos, pos + enc_list_elems(ss).len()) == enc_list_elems(ss),
    ensures
        crate::format::p_lists(d, pos, ss.len() as int) == Ok::<_, ParseError>(
            (ss, pos + enc_list_elems(ss).len()),
        ),
    decreases ss,
{
    if ss.len() == 0 {
        assert(Seq::<ListModel>::empty() =~= ss);
    } else {
        let head = ss.first();
        let ehead = enc_list(head);
        let erest = enc_list_elems(ss.drop_first());
        assert(enc_list_elems(ss) == ehead + erest);
        lemma_split(d, pos, ehead, erest);
        lemma_list_at(head, d, pos);
        let pos1 = pos + ehead.len();
        lemma_lists_at(ss.drop_first(), d, pos1);
        assert(seq![head] + ss.drop_first() =~= ss);
    }
}

/// Encoded int arrays read back one by one.
proof fn lemma_int_arrays_at(ss: Seq<Seq<i32>>, d: Seq<u8>, pos: int)
    requires
        forall|i: int| 0 <= i < ss.len() ==> (#[trigger] ss[i]).len() < 0x1_0000_0000,
        0 <= pos,
        pos + enc_int_arrays(ss).len() <= d.len(),
        d.subrange(pos, pos + enc_int_arrays(ss).len()) == enc_int_arrays(ss),
    ensures
        crate::format::p_int_arrays(d, pos, ss.len() as int) == Ok::<_, ParseError>(
            (ss, pos + enc_int_arrays(ss).len()),
        ),
    decreases ss,
{
    if ss.len() == 0 {
        assert(Seq::<Seq<i32>>::empty() =~= ss);
    } else {
        let head = ss.first();
        let cnt = enc_count(head.len());
        let run = enc_i32s(head);
        let erest = enc_int_arrays(ss.drop_first());
        assert(enc_int_arrays(ss) == cnt + run + erest);
        assert(enc_int_arrays(ss) =~= cnt + (run + erest));
        lemma_split(d, pos, cnt, run + erest);
        lemma_split(d, pos + 4, run, erest);
        assert(head.len() < 0x1_0000_0000) by {
            assert(ss[0] == head);
        }
        lemma_count_at(head.len(), d, pos);
        lemma_i32s_of_enc(head);
        let pos1 = pos + 4 + run.len();
        assert(forall|i: int|
            0 <= i < ss.drop_first().len() ==> (#[trigger] ss.drop_first()[i]).len()
                < 0x1_0000_0000) by {
            assert(forall|i: int|
                0 <= i < ss.drop_first().len() ==> ss.drop_first()[i] == ss[i + 1]);
        }
        lemma_int_arrays_at(ss.drop_first(), d, pos1);
        assert(seq![head] + ss.drop_first() =~= ss);
    }
}

/// Encoded long arrays read back one by one.
proof fn lemma_long_arrays_at(ss: Seq<Seq<i64>>, d: Seq<u8>, pos: int)
    requires
        forall|i: int| 0 <= i < ss.len() ==> (#[trigger] ss[i]).len() < 0x1_0000_0000,
        0 <= pos,
        pos + enc_long_arrays(ss).len() <= d.len(),
        d.subrange(pos, pos + enc_long_arrays(ss).len()) == enc_long_arrays(ss),
    ensures
        crate::format::p_long_arrays(d, pos, ss.len() as int) == Ok::<_, ParseError>(
            (ss, pos + enc_long_arrays(ss).len()),
        ),
    decreases ss,
{
    if ss.len() == 0 {
        assert(Seq::<Seq<i64>>::empty() =~= ss);
    } else {
        let head = ss.first();
        let cnt = enc_count(head.len());
        let run = enc_i64s(head);
        let erest = enc_long_arrays(ss.drop_first());
        assert(enc_long_arrays(ss) == cnt + run + erest);
        assert(enc_long_arrays(ss) =~= cnt + (run + erest));
        lemma_split(d, pos, cnt, run + erest);
        lemma_split(d, pos + 4, run, erest);
        assert(head.len() < 0x1_0000_0000) by {
            assert(ss[0] == head);
        }
        lemma_count_at(head.len(), d, pos);
        lemma_i64s_of_enc(head);
        let pos1 = pos + 4 + run.len();
        assert(forall|i: int|
            0 <= i < ss.drop_first().len() ==> (#[trigger] ss.drop_first()[i]).len()
                < 0x1_0000_0000) by {
            assert(forall|i: int|
                0 <= i < ss.drop_first().len() ==> ss.drop_first()[i] == ss[i + 1]);
        }
        lemma_long_arrays_at(ss.drop_first(), d, pos1);
        assert(seq![head] + ss.drop_first() =~= ss);
    }
}

/// A payload that reads successfully ends strictly after its start and
/// inside the buffer.
proof fn lemma_payload_bounds(t: TagType, d: Seq<u8>, pos: int)
    ensures
        crate::format::p_payload(t, d, pos) matches Ok((v, p)) ==> pos < p <= d.len(),
    decreases d.len() - pos, 3int,
{
    match t {
        TagType::List => {
            lemma_list_bounds(d, pos);
        },
        TagType::Compound => {
            lemma_entries_bounds(d, pos);
        },
        _ => {},
    }
}

/// Entries that read successfully end strictly after their start and
/// inside the buffer.
proof fn lemma_entries_bounds(d: Seq<u8>, pos: int)
    ensures
        p_entries(d, pos) matches Ok((es, p)) ==> pos < p <= d.len(),
    decreases d.len() - pos, 2int,
{
    match p_kind(d, pos) {
        Ok((t, p1)) => {
            if t != TagType::End {
                match p_str(d, p1) {
                    Ok((name, p2)) => {
                        if pos < p2 <= d.len() {
                            lemma_payload_bounds(t, d, p2);
                            match crate::format::p_payload(t, d, p2) {
                                Ok((v, p3)) => {
                                    if pos < p3 <= d.len() {
                                        lemma_entries_bounds(d, p3);
                                    }
                                },
                                Err(_) => {},
                            }
                        }
                    },
                    Err(_) => {},
                }
            }
        },
        Err(_) => {},
    }
}

/// A list that reads successfully ends strictly after its start and
/// inside the buffer.
proof fn lemma_list_bounds(d: Seq<u8>, pos: int)
    ensures
        p_list(d, pos) matches Ok((l, p)) ==> pos < p <= d.len(),
    decreases d.len() - pos, 2int,
{
    match p_kind(d, pos) {
        Ok((t, p1)) => {
            match p_u32(d, p1) {
                Ok((n, p2)) => {
                    match t {
                        TagType::ByteArray => {
                            lemma_byte_arrays_bounds(d, p2, n as int);
                        },
                        TagType::String => {
                            lemma_strs_bounds(d, p2, n as int);
                        },
                        TagType::Compound => {
                            lemma_compounds_bounds(d, p2, n as int);
                        },
                        TagType::List => {
                            lemma_lists_bounds(d, p2, n as int);
                        },
                        TagType::IntArray => {
                            lemma_int_arrays_bounds(d, p2, n as int);
                        },
                        TagType::LongArray => {
                            lemma_long_arrays_bounds(d, p2, n as int);
                        },
                        _ => {},
                    }
                },
                Err(_) => {},
            }
        },
        Err(_) => {},
    }
}

proof fn lemma_strs_bounds(d: Seq<u8>, pos: int, n: int)
    requires
        0 <= pos <= d.len(),
    ensures
        crate::format::p_strs(d, pos, n) matches Ok((s, p)) ==> pos <= p <= d.len(),
    decreases d.len() - pos, 3int,
{
    if n > 0 {
        match p_str(d, pos) {
            Ok((s, p1)) => {
                if pos < p1 <= d.len() {
                    lemma_strs_bounds(d, p1, n - 1);
                }
            },
            Err(_) => {},
        }
    }
}

proof fn lemma_byte_arrays_bounds(d: Seq<u8>, pos: int, n: int)
    requires
        0 <= pos <= d.len(),
    ensures
        crate::format::p_byte_arrays(d, pos, n) matches Ok((s, p)) ==> pos <= p <= d.len(),
    decreases d.len() - pos, 3int,
{
    if n > 0 {
        match p_u32(d, pos) {
            Ok((len, p1)) => {
                match crate::format::p_bytes(d, p1, len as int) {
                    Ok((b, p2)) => {
                        if pos < p2 <= d.len() {
                            lemma_byte_arrays_bounds(d, p2, n - 1);
                        }
                    },
                    Err(_) => {},
                }
            },
            Err(_) => {},
        }
    }
}

proof fn lemma_compounds_bounds(d: Seq<u8>, pos: int, n: int)
    requires
        0 <= pos <= d.len(),
    ensures
        crate::format::p_compounds(d, pos, n) matches Ok((s, p)) ==> pos <= p <= d.len(),
    decreases d.len() - pos, 3int,
{
    if n > 0 {
        lemma_entries_bounds(d, pos);
        match p_entries(d, pos) {
            Ok((es, p1)) => {
                if pos < p1 <= d.len() {
                    lemma_compounds_bounds(d, p1, n - 1);
                }
            },
            Err(_) => {},
        }
    }
}

proof fn lemma_lists_bounds(d: Seq<u8>, pos: int, n: int)
    requires
        0 <= pos <= d.len(),
    ensures
        crate::format::p_lists(d, pos, n) matches Ok((s, p)) ==> pos <= p <= d.len(),
    decreases d.len() - pos, 3int,
{
    if n > 0 {
        lemma_list_bounds(d, pos);
        match p_list(d, pos) {
            Ok((l, p1)) => {
                if pos < p1 <= d.len() {
                    lemma_lists_bounds(d, p1, n - 1);
                }
            },
            Err(_) => {},
        }
    }
}

proof fn lemma_int_arrays_bounds(d: Seq<u8>, pos: int, n: int)
    requires
        0 <= pos <= d.len(),
    ensures
        crate::format::p_int_arrays(d, pos, n) matches Ok((s, p)) ==> pos <= p <= d.len(),
    decreases d.len() - pos, 3int,
{
    if n > 0 {
        match p_u32(d, pos) {
            Ok((len, p1)) => {
                match crate::format::p_bytes(d, p1, 4 * (len as int)) {
                    Ok((b, p2)) => {
                        if pos < p2 <= d.len() {
                            lemma_int_arrays_bounds(d, p2, n - 1);
                        }
                    },
                    Err(_) => {},
                }
            },
            Err(_) => {},
        }
    }
}

proof fn lemma_long_arrays_bounds(d: Seq<u8>, pos: int, n: int)
    requires
        0 <= pos <= d.len(),
    ensures
        crate::format::p_long_arrays(d, pos, n) matches Ok((s, p)) ==> pos <= p <= d.len(),
    decreases d.len() - pos, 3int,
{
    if n > 0 {
        match p_u32(d, pos) {
            Ok((len, p1)) => {
                match crate::format::p_bytes(d, p1, 8 * (len as int)) {
                    Ok((b, p2)) => {
                        if pos < p2 <= d.len() {
                            lemma_long_arrays_bounds(d, p2, n - 1);
                        }
                    },
                    Err(_) => {},
                }
            },
            Err(_) => {},
        }
    }
}

/// The bytes of a prefix agree with the original wherever both reach.
proof fn lemma_sub_agree(d: Seq<u8>, m: int, a: int, b: int)
    requires
        0 <= a <= b <= m <= d.len(),
    ensures
        d.subrange(0, m).subrange(a, b) == d.subrange(a, b),
{
    assert(d.subrange(0, m).subrange(a, b) =~= d.subrange(a, b));
}

/// Reading a string from a truncated buffer: the same value where the
/// string lay before the cut, and EOF where the cut falls inside it.
proof fn lemma_str_prefix(d: Seq<u8>, m: int, pos: int)
    requires
        0 <= pos <= m <= d.len(),
        p_str(d, pos) is Ok,
    ensures
        ({
            let (b, p) = p_str(d, pos)->Ok_0;
            &&& pos < p <= d.len()
            &&& (p <= m ==> p_str(d.subrange(0, m), pos) == Ok::<_, ParseError>((b, p)))
            &&& (p > m ==> p_str(d.subrange(0, m), pos) == Err::<(Seq<u8>, int), _>(
                ParseError::EOF,
            ))
        }),
{
    let d2 = d.subrange(0, m);
    match p_u16(d, pos) {
        Ok((n, p1)) => {
            if p1 <= m {
                lemma_sub_agree(d, m, pos, pos + 2);
                if p1 + n <= m {
                    lemma_sub_agree(d, m, p1, p1 + n);
                }
            }
        },
        Err(_) => {},
    }
}

/// Reading one payload from a truncated buffer: the same value where
/// it lay wholly before the cut, and EOF where the cut falls inside.
#[verifier::rlimit(100)]
proof fn lemma_payload_prefix(t: TagType, d: Seq<u8>, m: int, pos: int)
    requires
        0 <= pos <= m <= d.len(),
        crate::format::p_payload(t, d, pos) is Ok,
    ensures
        ({
            let (v, p) = crate::format::p_payload(t, d, pos)->Ok_0;
            &&& pos < p <= d.len()
            &&& (p <= m ==> crate::format::p_payload(t, d.subrange(0, m), pos) == Ok::<
                _,
                ParseError,
            >((v, p)))
            &&& (p > m ==> crate::format::p_payload(t, d.subrange(0, m), pos) == Err::<
                (TagModel, int),
                _,
            >(ParseError::EOF))
        }),
    decreases d.len() - pos, 3int,
{
    lemma_payload_bounds(t, d, pos);
    let d2 = d.subrange(0, m);
    match t {
        TagType::End => {},
        TagType::Byte => {},
        TagType::Short => {
            if pos + 2 <= m {
                lemma_sub_agree(d, m, pos, pos + 2);
            }
        },
        TagType::Int => {
            if pos + 4 <= m {
                lemma_sub_agree(d, m, pos, pos + 4);
            }
        },
        TagType::Long => {
            if pos + 8 <= m {
                lemma_sub_agree(d, m, pos, pos + 8);
            }
        },
        TagType::Float => {
            if pos + 4 <= m {
                lemma_sub_agree(d, m, pos, pos + 4);
            }
        },
        TagType::Double => {
            if pos + 8 <= m {
                lemma_sub_agree(d, m, pos, pos + 8);
            }
        },
        TagType::ByteArray => {
            match p_u32(d, pos) {
                Ok((n, p1)) => {
                    if p1 <= m {
                        lemma_sub_agree(d, m, pos, pos + 4);
                        if p1 + n <= m {
                            lemma_sub_agree(d, m, p1, p1 + n);
                        }
                    }
                },
                Err(_) => {},
            }
        },
        TagType::String => {
            lemma_str_prefix(d, m, pos);
        },
        TagType::List => {
            lemma_list_prefix(d, m, pos);
        },
        TagType::Compound => {
            lemma_entries_prefix(d, m, pos);
        },
        TagType::IntArray => {
            match p_u32(d, pos) {
                Ok((n, p1)) => {
                    if p1 <= m {
                        lemma_sub_agree(d, m, pos, pos + 4);
                        if p1 + 4 * (n as int) <= m {
                            lemma_sub_agree(d, m, p1, p1 + 4 * (n as int));
                        }
                    }
                },
                Err(_) => {},
            }
        },
        TagType::LongArray => {
            match p_u32(d, pos) {
                Ok((n, p1)) => {
                    if p1 <= m {
                        lemma_sub_agree(d, m, pos, pos + 4);
                        if p1 + 8 * (n as int) <= m {
                            lemma_sub_agree(d, m, p1, p1 + 8 * (n as int));
                        }
                    }
                },
                Err(_) => {},
            }
        },
    }
}

/// Reading entries from a truncated buffer: the same entries where the
/// whole run lay before the cut, and EOF where the cut falls inside.
#[verifier::rlimit(100)]
proof fn lemma_entries_prefix(d: Seq<u8>, m: int, pos: int)
    requires
        0 <= pos <= m <= d.len(),
        p_entries(d, pos) is Ok,
    ensures
        ({
            let (es, p) = p_entries(d, pos)->Ok_0;
            &&& pos < p <= d.len()
            &&& (p <= m ==> p_entries(d.subrange(0, m), pos) == Ok::<_, ParseError>((es, p)))
            &&& (p > m ==> p_entries(d.subrange(0, m), pos) == Err::<(Seq<EntryModel>, int), _>(
                ParseError::EOF,
            ))
        }),
    decreases d.len() - pos, 2int,
{
    lemma_entries_bounds(d, pos);
    let d2 = d.subrange(0, m);
    match p_kind(d, pos) {
        Ok((t, p1)) => {
            if t == TagType::End {
            } else {
                match p_str(d, p1) {
                    Ok((name, p2)) => {
                        match crate::format::p_payload(t, d, p2) {
                            Ok((v, p3)) => {
                                lemma_payload_bounds(t, d, p2);
                                lemma_entries_bounds(d, p3);
                                if p1 <= m {
                                    lemma_str_prefix(d, m, p1);
                                    if p2 <= m {
                                        lemma_payload_prefix(t, d, m, p2);
                                        if p3 <= m {
                                            lemma_entries_prefix(d, m, p3);
                                        }
                                    }
                                }
                            },
                            Err(_) => {},
                        }
                    },
                    Err(_) => {},
                }
            }
        },
        Err(_) => {},
    }
}

/// Reading a list from a truncated buffer: the same list where it lay
/// wholly before the cut, and EOF where the cut falls inside.
#[verifier::rlimit(100)]
proof fn lemma_list_prefix(d: Seq<u8>, m: int, pos: int)
    requires
        0 <= pos <= m <= d.len(),
        p_list(d, pos) is Ok,
    ensures
        ({
            let (l, p) = p_list(d, pos)->Ok_0;
            &&& pos < p <= d.len()
            &&& (p <= m ==> p_list(d.subrange(0, m), pos) == Ok::<_, ParseError>((l, p)))
            &&& (p > m ==> p_list(d.subrange(0, m), pos) == Err::<(ListModel, int), _>(
                ParseError::EOF,
            ))
        }),
    decreases d.len() - pos, 2int,
{
    lemma_list_bounds(d, pos);
    let d2 = d.subrange(0, m);
    match p_kind(d, pos) {
        Ok((t, p1)) => {
            match p_u32(d, p1) {
                Ok((n, p2)) => {
                    match t {
                        TagType::ByteArray => {
                            lemma_byte_arrays_bounds(d, p2, n as int);
                        },
                        TagType::String => {
                            lemma_strs_bounds(d, p2, n as int);
                        },
                        TagType::Compound => {
                            lemma_compounds_bounds(d, p2, n as int);
                        },
                        TagType::List => {
                            lemma_lists_bounds(d, p2, n as int);
                        },
                        TagType::IntArray => {
                            lemma_int_arrays_bounds(d, p2, n as int);
                        },
                        TagType::LongArray => {
                            lemma_long_arrays_bounds(d, p2, n as int);
                        },
                        _ => {},
                    }
                    if p1 <= m && p2 <= m {
                        lemma_sub_agree(d, m, p1, p1 + 4);
                        match t {
                            TagType::End => {},
                            TagType::Byte => {
                                if p2 + n <= m {
                                    lemma_sub_agree(d, m, p2, p2 + n);
                                }
                            },
                            TagType::Short => {
                                if p2 + 2 * (n as int) <= m {
                                    lemma_sub_agree(d, m, p2, p2 + 2 * (n as int));
                                }
                            },
                            TagType::Int => {
                                if p2 + 4 * (n as int) <= m {
                                    lemma_sub_agree(d, m, p2, p2 + 4 * (n as int));
                                }
                            },
                            TagType::Long => {
                                if p2 + 8 * (n as int) <= m {
                                    lemma_sub_agree(d, m, p2, p2 + 8 * (n as int));
                                }
                            },
                            TagType::Float => {
                                if p2 + 4 * (n as int) <= m {
                                    lemma_sub_agree(d, m, p2, p2 + 4 * (n as int));
                                }
                            },
                            TagType::Double => {
                                if p2 + 8 * (n as int) <= m {
                                    lemma_sub_agree(d, m, p2, p2 + 8 * (n as int));
                                }
                            },
                            TagType::ByteArray => {
                                lemma_byte_arrays_prefix(d, m, p2, n as int);
                            },
                            TagType::String => {
                                lemma_strs_prefix(d, m, p2, n as int);
                            },
                            TagType::Compound => {
                                lemma_compounds_prefix(d, m, p2, n as int);
                            },
                            TagType::List => {
                                lemma_lists_prefix(d, m, p2, n as int);
                            },
                            TagType::IntArray => {
                                lemma_int_arrays_prefix(d, m, p2, n as int);
                            },
                            TagType::LongArray => {
                                lemma_long_arrays_prefix(d, m, p2, n as int);
                            },
                        }
                    }
                },
                Err(_) => {},
            }
        },
        Err(_) => {},
    }
}

proof fn lemma_strs_prefix(d: Seq<u8>, m: int, pos: int, n: int)
    requires
        0 <= pos <= m <= d.len(),
        crate::format::p_strs(d, pos, n) is Ok,
    ensures
        ({
            let (s, p) = crate::format::p_strs(d, pos, n)->Ok_0;
            &&& pos <= p <= d.len()
            &&& (p <= m ==> crate::format::p_strs(d.subrange(0, m), pos, n) == Ok::<
                _,
                ParseError,
            >((s, p)))
            &&& (p > m ==> crate::format::p_strs(d.subrange(0, m), pos, n) == Err::<
                (Seq<Seq<u8>>, int),
                _,
            >(ParseError::EOF))
        }),
    decreases d.len() - pos, 3int,
{
    lemma_strs_bounds(d, pos, n);
    if n > 0 {
        match p_str(d, pos) {
            Ok((s, p1)) => {
                lemma_str_prefix(d, m, pos);
                if p1 <= m {
                    lemma_strs_prefix(d, m, p1, n - 1);
                } else {
                    lemma_strs_bounds(d, p1, n - 1);
                }
            },
            Err(_) => {},
        }
    }
}

proof fn lemma_byte_arrays_prefix(d: Seq<u8>, m: int, pos: int, n: int)
    requires
        0 <= pos <= m <= d.len(),
        crate::format::p_byte_arrays(d, pos, n) is Ok,
    ensures
        ({
            let (s, p) = crate::format::p_byte_arrays(d, pos, n)->Ok_0;
            &&& pos <= p <= d.len()
            &&& (p <= m ==> crate::format::p_byte_arrays(d.subrange(0, m), pos, n) == Ok::<
                _,
                ParseError,
            >((s, p)))
            &&& (p > m ==> crate::format::p_byte_arrays(d.subrange(0, m), pos, n) == Err::<
                (Seq<Seq<u8>>, int),
                _,
            >(ParseError::EOF))
        }),
    decreases d.len() - pos, 3int,
{
    lemma_byte_arrays_bounds(d, pos, n);
    if n > 0 {
        match p_u32(d, pos) {
            Ok((len, p1)) => {
                match crate::format::p_bytes(d, p1, len as int) {
                    Ok((b, p2)) => {
                        if p1 <= m {
                            lemma_sub_agree(d, m, pos, pos + 4);
                            if p2 <= m {
                                lemma_sub_agree(d, m, p1, p1 + len as int);
                                lemma_byte_arrays_prefix(d, m, p2, n - 1);
                            } else {
                                lemma_byte_arrays_bounds(d, p2, n - 1);
                            }
                        } else {
                            lemma_byte_arrays_bounds(d, p2, n - 1);
                        }
                    },
                    Err(_) => {},
                }
            },
            Err(_) => {},
        }
    }
}

proof fn lemma_compounds_prefix(d: Seq<u8>, m: int, pos: int, n: int)
    requires
        0 <= pos <= m <= d.len(),
        crate::format::p_compounds(d, pos, n) is Ok,
    ensures
        ({
            let (s, p) = crate::format::p_compounds(d, pos, n)->Ok_0;
            &&& pos <= p <= d.len()
            &&& (p <= m ==> crate::format::p_compounds(d.subrange(0, m), pos, n) == Ok::<
                _,
                ParseError,
            >((s, p)))
            &&& (p > m ==> crate::format::p_compounds(d.subrange(0, m), pos, n) == Err::<
                (Seq<Seq<EntryModel>>, int),
                _,
            >(ParseError::EOF))
        }),
    decreases d.len() - pos, 3int,
{
    lemma_compounds_bounds(d, pos, n);
    if n > 0 {
        match p_entries(d, pos) {
            Ok((es, p1)) => {
                lemma_entries_prefix(d, m, pos);
                if p1 <= m {
                    lemma_compounds_prefix(d, m, p1, n - 1);
                } else {
                    lemma_compounds_bounds(d, p1, n - 1);
                }
            },
            Err(_) => {},
        }
    }
}

proof fn lemma_lists_prefix(d: Seq<u8>, m: int, pos: int, n: int)
    requires
        0 <= pos <= m <= d.len(),
        crate::format::p_lists(d, pos, n) is Ok,
    ensures
        ({
            let (s, p) = crate::format::p_lists(d, pos, n)->Ok_0;
            &&& pos <= p <= d.len()
            &&& (p <= m ==> crate::format::p_lists(d.subrange(0, m), pos, n) == Ok::<
                _,
                ParseError,
            >((s, p)))
            &&& (p > m ==> crate::format::p_lists(d.subrange(0, m), pos, n) == Err::<
                (Seq<ListModel>, int),
                _,
            >(ParseError::EOF))
        }),
    decreases d.len() - pos, 3int,
{
    lemma_lists_bounds(d, pos, n);
    if n > 0 {
        match p_list(d, pos) {
            Ok((l, p1)) => {
                lemma_list_prefix(d, m, pos);
                if p1 <= m {
                    lemma_lists_prefix(d, m, p1, n - 1);
                } else {
                    lemma_lists_bounds(d, p1, n - 1);
                }
            },
            Err(_) => {},
        }
    }
}

proof fn lemma_int_arrays_prefix(d: Seq<u8>, m: int, pos: int, n: int)
    requires
        0 <= pos <= m <= d.len(),
        crate::format::p_int_arrays(d, pos, n) is Ok,
    ensures
        ({
            let (s, p) = crate::format::p_int_arrays(d, pos, n)->Ok_0;
            &&& pos <= p <= d.len()
            &&& (p <= m ==> crate::format::p_int_arrays(d.subrange(0, m), pos, n) == Ok::<
                _,
                ParseError,
            >((s, p)))
            &&& (p > m ==> crate::format::p_int_arrays(d.subrange(0, m), pos, n) == Err::<
                (Seq<Seq<i32>>, int),
                _,
            >(ParseError::EOF))
        }),
    decreases d.len() - pos, 3int,
{
    lemma_int_arrays_bounds(d, pos, n);
    if n > 0 {
        match p_u32(d, pos) {
            Ok((len, p1)) => {
                match crate::format::p_bytes(d, p1, 4 * (len as int)) {
                    Ok((b, p2)) => {
                        if p1 <= m {
                            lemma_sub_agree(d, m, pos, pos + 4);
                            if p2 <= m {
                                lemma_sub_agree(d, m, p1, p1 + 4 * (len as int));
                                lemma_int_arrays_prefix(d, m, p2, n - 1);
                            } else {
                                lemma_int_arrays_bounds(d, p2, n - 1);
                            }
                        } else {
                            lemma_int_arrays_bounds(d, p2, n - 1);
                        }
                    },
                    Err(_) => {},
                }
            },
            Err(_) => {},
        }
    }
}

proof fn lemma_long_arrays_prefix(d: Seq<u8>, m: int, pos: int, n: int)
    requires
        0 <= pos <= m <= d.len(),
        crate::format::p_long_arrays(d, pos, n) is Ok,
    ensures
        ({
            let (s, p) = crate::format::p_long_arrays(d, pos, n)->Ok_0;
            &&& pos <= p <= d.len()
            &&& (p <= m ==> crate::format::p_long_arrays(d.subrange(0, m), pos, n) == Ok::<
                _,
                ParseError,
            >((s, p)))
            &&& (p > m ==> crate::format::p_long_arrays(d.subrange(0, m), pos, n) == Err::<
                (Seq<Seq<i64>>, int),
                _,
            >(ParseError::EOF))
        }),
    decreases d.len() - pos, 3int,
{
    lemma_long_arrays_bounds(d, pos, n);
    if n > 0 {
        match p_u32(d, pos) {
            Ok((len, p1)) => {
                match crate::format::p_bytes(d, p1, 8 * (len as int)) {
                    Ok((b, p2)) => {
                        if p1 <= m {
                            lemma_sub_agree(d, m, pos, pos + 4);
                            if p2 <= m {
                                lemma_sub_agree(d, m, p1, p1 + 8 * (len as int));
                                lemma_long_arrays_prefix(d, m, p2, n - 1);
                            } else {
                                lemma_long_arrays_bounds(d, p2, n - 1);
                            }
                        } else {
                            lemma_long_arrays_bounds(d, p2, n - 1);
                        }
                    },
                    Err(_) => {},
                }
            },
            Err(_) => {},
        }
    }
}

/// Truncation: removing any nonzero suffix from a buffer that parses
/// completely makes the parse fail with EOF — never succeed, never
/// with another error.
pub proof fn lemma_truncation(d: Seq<u8>, m: int)
    requires
        p_document(d) is Ok,
        p_document(d)->Ok_0.2 == d.len(),
        0 <= m < d.len(),
    ensures
        p_document(d.subrange(0, m)) == Err::<(Seq<u8>, Seq<EntryModel>, int), ParseError>(
            ParseError::EOF,
        ),
{
    let d2 = d.subrange(0, m);
    match p_kind(d, 0) {
        Ok((t, p1)) => {
            if m >= 1 {
                match p_str(d, p1) {
                    Ok((name, p2)) => {
                        lemma_str_prefix(d, m, p1);
                        if p2 <= m {
                            lemma_entries_prefix(d, m, p2);
                        }
                    },
                    Err(_) => {},
                }
            }
        },
        Err(_) => {},
    }
}

/// Round trip: a well-formed document tree, encoded and parsed again,
/// yields exactly the original name and entries, consuming the whole
/// buffer.
pub proof fn lemma_document_round_trip(name: Seq<u8>, root: Seq<EntryModel>)
    requires
        wf_document(name, root),
    ensures
        p_document(enc_document(name, root)) == Ok::<_, ParseError>(
            (name, root, enc_document(name, root).len() as int),
        ),
{
    let d = enc_document(name, root);
    let kidb = seq![TagType::Compound.spec_id()];
    let estr = enc_str(name);
    let ents = enc_entries(root) + seq![0u8];
    assert(d == kidb + estr + enc_entries(root) + seq![0u8]);
    assert(d =~= kidb + (estr + ents));
    assert(d.subrange(0, d.len() as int) =~= d);
    lemma_split(d, 0, kidb, estr + ents);
    lemma_split(d, 1, estr, ents);
    assert(d.subrange(0, 1)[0] == d[0]);
    assert(kidb[0] == TagType::Compound.spec_id());
    assert(d[0] == TagType::Compound.spec_id());
    lemma_kind_id(TagType::Compound);
    assert(p_kind(d, 0) == Ok::<_, ParseError>((TagType::Compound, 1int)));
    lemma_str_at(name, d, 1);
    let pos2 = 1 + estr.len() as int;
    lemma_entries_at(root, d, pos2);
    assert(pos2 + enc_entries(root).len() + 1 == d.len());
}

} // verus!
