use nobility::bin_decode::{Document, List, ParseError, Tag};
use nobility::bin_encode::NbtWriter;
use nobility::TagType;

fn hello_world_doc() -> Vec<u8> {
    vec![
        0x0A, 0x00, 0x0B, 0x68, 0x65, 0x6C, 0x6C, 0x6F, 0x20, 0x77, 0x6F, 0x72, 0x6C, 0x64, 0x08,
        0x00, 0x04, 0x6E, 0x61, 0x6D, 0x65, 0x00, 0x09, 0x42, 0x61, 0x6E, 0x61, 0x6E, 0x72, 0x61,
        0x6D, 0x61, 0x00,
    ]
}

#[test]
pub fn decode_hello_world() {
    let data = hello_world_doc();

    let document = Document::load(&data).unwrap();
    let (name, root) = document.parse().expect("Parsing to succeed");

    assert_eq!(name.decode().expect("Decode to succeed"), "hello world");
    assert_eq!(root.len(), 1);
    let entry = &root.entries()[0];
    assert_eq!(entry.name().decode().expect("Decode to succeed"), "name");
    let value_str = entry.value().as_string().expect("Value to be a string");
    let value_str = value_str.decode().expect("Decode to succeed");
    assert_eq!(value_str, "Bananrama");
}

#[test]
fn decode_gzip_document() {
    // A gzip-compressed document decompresses on load; the parsed tree
    // is the same one the raw bytes give.
    let data = hello_world_doc();
    let mut encoder =
        flate2::write::GzEncoder::new(Vec::new(), flate2::Compression::default());
    std::io::Write::write_all(&mut encoder, &data).unwrap();
    let compressed = encoder.finish().unwrap();
    assert_ne!(compressed, data);

    let document = Document::load(&compressed).unwrap();
    let (name, root) = document.parse().expect("Parsing to succeed");
    assert_eq!(name.decode().unwrap(), "hello world");
    assert_eq!(root.len(), 1);
}

#[test]
fn truncation_always_eof() {
    // Removing any nonzero suffix of a valid document makes the parse
    // fail with EOF.
    let data = hello_world_doc();
    for cut in 0..data.len() {
        let document = Document::load(&data[..cut]).unwrap();
        match document.parse() {
            Err(ParseError::EOF) => {},
            other => panic!("cut {} gave {:?}", cut, other.is_ok()),
        }
    }
}

#[test]
fn unknown_tag_at_root() {
    // Any kind byte outside the known range fails with the byte and
    // its offset.
    for bad in [13u8, 0x21, 0x99, 0xFF] {
        let data = vec![bad, 0x00, 0x00, 0x00];
        let document = Document::load(&data).unwrap();
        match document.parse() {
            Err(ParseError::UnknownTag { tag, offset }) => {
                assert_eq!(tag, bad);
                assert_eq!(offset, 0);
            },
            _ => panic!("expected an unknown tag error"),
        }
    }
}

#[test]
fn unknown_tag_in_compound() {
    // Substituting the field's kind byte inside the document reports
    // the byte and the offset at which it stood.
    let mut data = hello_world_doc();
    data[14] = 0x63; // the String kind byte of the "name" field
    let document = Document::load(&data).unwrap();
    match document.parse() {
        Err(ParseError::UnknownTag { tag, offset }) => {
            assert_eq!(tag, 0x63);
            assert_eq!(offset, 14);
        },
        _ => panic!("expected an unknown tag error"),
    }
}

#[test]
fn incorrect_start_tag() {
    // A document whose first byte is a recognized kind other than
    // Compound is rejected with that kind.
    let data = vec![0x01, 0x00, 0x00, 0x05];
    let document = Document::load(&data).unwrap();
    match document.parse() {
        Err(ParseError::IncorrectStartTag { tag }) => {
            assert_eq!(tag, TagType::Byte);
        },
        _ => panic!("expected an incorrect start tag error"),
    }
}

#[test]
fn empty_document_eof() {
    let document = Document::load(&[]).unwrap();
    assert!(matches!(document.parse(), Err(ParseError::EOF)));
}

#[test]
fn end_kind_list_zero_count() {
    // A List with element kind End and count 0 decodes as an empty
    // Byte-kind list.
    let data = vec![
        0x0A, 0x00, 0x00, // root
        0x09, 0x00, 0x01, 0x65, // list "e"
        0x00, 0x00, 0x00, 0x00, 0x00, // End kind, count 0
        0x00, // terminator
    ];
    let document = Document::load(&data).unwrap();
    let (_, root) = document.parse().expect("Parsing to succeed");
    let entry = root.find_first_key("e").expect("entry to exist");
    let list = entry.value().as_list().expect("value to be a list");
    assert_eq!(list.len(), 0);
    assert!(matches!(list, List::Byte(_)));
}

#[test]
fn end_kind_list_nonzero_count() {
    // The same with a nonzero count must fail with UnexpectedEndTag.
    let data = vec![
        0x0A, 0x00, 0x00, 0x09, 0x00, 0x01, 0x65, 0x00, 0x00, 0x00, 0x00, 0x01, 0x00,
    ];
    let document = Document::load(&data).unwrap();
    assert!(matches!(document.parse(), Err(ParseError::UnexpectedEndTag)));
}

#[test]
fn round_trip_compound_list() {
    // A compound-list field with two compound elements, each holding a
    // Long field: encode, decode, and check length and order.
    let mut writer = NbtWriter::new();
    let mut root = writer.root("doc");
    let mut list = root.compound_list_field(&mut writer, "entries");
    {
        let mut element = list.element();
        let mut f = element.field("created-on");
        f.long(&mut writer, 11);
        element.finish(&mut writer);
    }
    {
        let mut element = list.element();
        let mut f = element.field("created-on");
        f.long(&mut writer, 22);
        element.finish(&mut writer);
    }
    list.finish(&mut writer);
    root.finish(&mut writer);
    let bytes = writer.finish();

    let document = Document::load(&bytes).unwrap();
    let (name, root) = document.parse().expect("Parsing to succeed");
    assert_eq!(name.decode().unwrap(), "doc");
    let entry = root.find_first_key("entries").expect("list to exist");
    let list = entry.value().as_list().expect("value to be a list");
    assert_eq!(list.len(), 2);
    match list {
        List::Compound(elements) => {
            assert_eq!(elements.len(), 2);
            let first = elements.get(0).unwrap();
            let second = elements.get(1).unwrap();
            let v0 = first.entries()[0].value().to_i64().unwrap();
            let v1 = second.entries()[0].value().to_i64().unwrap();
            assert_eq!(v0, 11);
            assert_eq!(v1, 22);
        },
        _ => panic!("expected a compound list"),
    }
}

#[test]
fn int_array_element_access() {
    // An IntArray of length 4 read back element by element equals the
    // original values in order; index 4 is absent, never a fault.
    let values: [i32; 4] = [1, -2, 300000, -2147483648];
    let mut writer = NbtWriter::new();
    let mut root = writer.root("doc");
    root.field("xs").int_array(&mut writer, &values);
    root.finish(&mut writer);
    let bytes = writer.finish();

    let document = Document::load(&bytes).unwrap();
    let (_, root) = document.parse().expect("Parsing to succeed");
    let entry = root.find_first_key("xs").expect("array to exist");
    match entry.value() {
        Tag::IntArray(array) => {
            assert_eq!(array.len(), 4);
            for (i, v) in values.iter().enumerate() {
                assert_eq!(array.get(i), Some(*v));
            }
            assert_eq!(array.get(4), None);
            assert_eq!(array.to_vec(), vec![1, -2, 300000, -2147483648]);
            let mut iter = array.iter();
            assert_eq!(iter.next(), Some(1));
            assert_eq!(iter.next(), Some(-2));
        },
        _ => panic!("expected an int array"),
    }
}

#[test]
fn round_trip_all_kinds() {
    // One field of every kind survives an encode-decode round trip.
    let mut writer = NbtWriter::new();
    let mut root = writer.root("all");
    root.field("by").byte(&mut writer, -5);
    root.field("sh").short(&mut writer, 515);
    root.field("in").int32(&mut writer, -70000);
    root.field("lo").long(&mut writer, 1264099775885);
    root.field("fl").float_bits(&mut writer, 0x3F00_0000);
    root.field("db").double_bits(&mut writer, 0x3FE0_0000_0000_0000);
    root.field("ba").byte_array(&mut writer, &[1, 2, 3]);
    root.field("st").string(&mut writer, "text");
    root.field("li").long_list(&mut writer, &[11, 12, 13, 14, 15]);
    let mut nested = root.field("co").compound(&mut writer);
    {
        let mut f = nested.field("inner");
        f.short(&mut writer, 7);
        nested.finish(&mut writer);
    }
    root.field("ia").int_array(&mut writer, &[9, 10]);
    root.field("la").long_array(&mut writer, &[-1]);
    root.finish(&mut writer);
    let bytes = writer.finish();

    let document = Document::load(&bytes).unwrap();
    let (name, root) = document.parse().expect("Parsing to succeed");
    assert_eq!(name.decode().unwrap(), "all");
    assert_eq!(root.len(), 12);
    assert_eq!(root.entries()[0].value().to_i64(), Some(-5));
    assert_eq!(root.entries()[1].value().to_i64(), Some(515));
    assert_eq!(root.entries()[2].value().to_i64(), Some(-70000));
    assert_eq!(root.entries()[3].value().to_i64(), Some(1264099775885));
    assert!(matches!(root.entries()[4].value(), Tag::Float(0x3F00_0000)));
    assert!(matches!(root.entries()[5].value(), Tag::Double(0x3FE0_0000_0000_0000)));
    assert_eq!(root.entries()[6].value().as_byte_array().unwrap(), &[1, 2, 3]);
    assert_eq!(
        root.entries()[7].value().as_string().unwrap().decode().unwrap(),
        "text"
    );
    match root.entries()[8].value() {
        Tag::List(List::Long(xs)) => {
            assert_eq!(xs.to_vec(), vec![11, 12, 13, 14, 15]);
        },
        _ => panic!("expected a long list"),
    }
    let nested = root.entries()[9].value().as_compound().unwrap();
    assert_eq!(nested.len(), 1);
    assert_eq!(nested.entries()[0].value().to_i64(), Some(7));
    assert!(matches!(root.entries()[10].value(), Tag::IntArray(_)));
    assert!(matches!(root.entries()[11].value(), Tag::LongArray(_)));
    assert_eq!(root.entries()[10].value().tag_type(), TagType::IntArray);
    assert_eq!(root.entries()[11].value().tag_type(), TagType::LongArray);
}

#[test]
fn duplicate_names_first_match() {
    // Duplicate names are all retained; lookup by name returns the
    // first match only.
    let mut writer = NbtWriter::new();
    let mut root = writer.root("doc");
    root.field("twice").byte(&mut writer, 1);
    root.field("twice").byte(&mut writer, 2);
    root.finish(&mut writer);
    let bytes = writer.finish();

    let document = Document::load(&bytes).unwrap();
    let (_, root) = document.parse().expect("Parsing to succeed");
    assert_eq!(root.len(), 2);
    assert!(!root.is_empty());
    let found = root.find_first_key("twice").expect("a match");
    assert_eq!(found.value().to_i64(), Some(1));
    assert!(root.find_first_key("absent").is_none());
    let entries = root.into_vec();
    assert_eq!(entries.len(), 2);
}

#[test]
fn list_get_and_iter() {
    let mut writer = NbtWriter::new();
    let mut root = writer.root("doc");
    root.field("xs").long_list(&mut writer, &[11, 12, 13]);
    root.field("ss").string_list(&mut writer, &["a", "b"]);
    root.finish(&mut writer);
    let bytes = writer.finish();

    let document = Document::load(&bytes).unwrap();
    let (_, root) = document.parse().expect("Parsing to succeed");
    let longs = root.entries()[0].value().as_list().unwrap();
    assert!(matches!(longs.get(0), Some(Tag::Long(11))));
    assert!(matches!(longs.get(2), Some(Tag::Long(13))));
    assert!(longs.get(3).is_none());
    let mut iter = longs.iter();
    assert!(matches!(iter.next(), Some(Tag::Long(11))));
    assert!(matches!(iter.next(), Some(Tag::Long(12))));
    assert!(matches!(iter.next(), Some(Tag::Long(13))));
    assert!(iter.next().is_none());

    let strings = root.entries()[1].value().as_list().unwrap();
    match strings.get(1) {
        Some(Tag::String(s)) => assert_eq!(s.decode().unwrap(), "b"),
        _ => panic!("expected a string element"),
    }
}

#[test]
fn float_bits_list_round_trip() {
    let mut writer = NbtWriter::new();
    let mut root = writer.root("doc");
    root.field("fs").float_bits_list(&mut writer, &[0x3F00_0000, 0x4000_0000]);
    root.field("ds").double_bits_list(&mut writer, &[0x3FE0_0000_0000_0000]);
    root.finish(&mut writer);
    let bytes = writer.finish();

    let document = Document::load(&bytes).unwrap();
    let (_, root) = document.parse().expect("Parsing to succeed");
    let floats = root.entries()[0].value().as_list().unwrap();
    assert_eq!(floats.len(), 2);
    assert!(matches!(floats.get(0), Some(Tag::Float(0x3F00_0000))));
    assert!(matches!(floats.get(1), Some(Tag::Float(0x4000_0000))));
    let doubles = root.entries()[1].value().as_list().unwrap();
    assert!(matches!(doubles.get(0), Some(Tag::Double(0x3FE0_0000_0000_0000))));
}

#[test]
fn clone_preserves_tree() {
    let data = hello_world_doc();
    let document = Document::load(&data).unwrap();
    let (_, root) = document.parse().expect("Parsing to succeed");
    let copy = root.clone();
    assert_eq!(copy.len(), root.len());
    let value = copy.entries()[0].value().clone();
    assert_eq!(value.as_string().unwrap().decode().unwrap(), "Bananrama");
}

#[test]
fn parse_error_messages() {
    assert_eq!(ParseError::EOF.message(), "Unexpected end of file");
    assert_eq!(
        ParseError::UnknownTag { tag: 153, offset: 20 }.message(),
        "Unknown tag 153 at offset 0x14"
    );
    assert_eq!(
        ParseError::UnexpectedEndTag.message(),
        "Unexpected end tag in document"
    );
    assert_eq!(
        ParseError::IncorrectStartTag { tag: TagType::Byte }.message(),
        "Document starts with tag Byte, it should only start with Compound."
    );
}
