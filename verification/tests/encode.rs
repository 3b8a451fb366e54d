use nobility::bin_encode::NbtWriter;

fn hello_world_bytes() -> Vec<u8> {
    vec![
        0x0A, 0x00, 0x0B, 0x68, 0x65, 0x6C, 0x6C, 0x6F, 0x20, 0x77, 0x6F, 0x72, 0x6C, 0x64, 0x08,
        0x00, 0x04, 0x6E, 0x61, 0x6D, 0x65, 0x00, 0x09, 0x42, 0x61, 0x6E, 0x61, 0x6E, 0x72, 0x61,
        0x6D, 0x61, 0x00,
    ]
}

#[test]
fn test_hello() {
    // Uses NbtWriter to construct a document, then makes sure it's a
    // perfect byte match with the example document.
    let mut writer = NbtWriter::new();

    let mut root = writer.root("hello world");
    let mut field = root.field("name");
    field.string(&mut writer, "Bananrama");
    root.finish(&mut writer);

    let result = writer.finish();
    let expected = hello_world_bytes();
    assert_eq!(result, expected);
}

#[test]
fn test_primitive_fields() {
    let mut writer = NbtWriter::new();
    let mut root = writer.root("");
    root.field("a").byte(&mut writer, -1);
    root.field("b").short(&mut writer, -2);
    root.field("c").int32(&mut writer, 0x01020304);
    root.field("d").long(&mut writer, -3);
    root.finish(&mut writer);
    let result = writer.finish();
    let expected: Vec<u8> = vec![
        0x0A, 0x00, 0x00, // root with empty name
        0x01, 0x00, 0x01, 0x61, 0xFF, // byte -1
        0x02, 0x00, 0x01, 0x62, 0xFF, 0xFE, // short -2
        0x03, 0x00, 0x01, 0x63, 0x01, 0x02, 0x03, 0x04, // int
        0x04, 0x00, 0x01, 0x64, 0xFF, 0xFF, 0xFF, 0xFF, 0xFF, 0xFF, 0xFF, 0xFD, // long -3
        0x00,
    ];
    assert_eq!(result, expected);
}

#[test]
fn test_float_bits_fields() {
    let mut writer = NbtWriter::new();
    let mut root = writer.root("");
    root.field("f").float_bits(&mut writer, 0x3F00_0000); // 0.5f32
    root.field("d").double_bits(&mut writer, 0x3FE0_0000_0000_0000); // 0.5f64
    root.finish(&mut writer);
    let result = writer.finish();
    let expected: Vec<u8> = vec![
        0x0A, 0x00, 0x00, 0x05, 0x00, 0x01, 0x66, 0x3F, 0x00, 0x00, 0x00, 0x06, 0x00, 0x01, 0x64,
        0x3F, 0xE0, 0x00, 0x00, 0x00, 0x00, 0x00, 0x00, 0x00,
    ];
    assert_eq!(result, expected);
}

#[test]
fn test_int_array_bytes() {
    let mut writer = NbtWriter::new();
    let mut root = writer.root("");
    root.field("xs").int_array(&mut writer, &[1, -1]);
    root.finish(&mut writer);
    let result = writer.finish();
    let expected: Vec<u8> = vec![
        0x0A, 0x00, 0x00, 0x0B, 0x00, 0x02, 0x78, 0x73, 0x00, 0x00, 0x00, 0x02, 0x00, 0x00, 0x00,
        0x01, 0xFF, 0xFF, 0xFF, 0xFF, 0x00,
    ];
    assert_eq!(result, expected);
}

#[test]
fn test_long_array_kind_byte() {
    // A long array must be written under its own kind id (12).
    let mut writer = NbtWriter::new();
    let mut root = writer.root("");
    root.field("xs").long_array(&mut writer, &[1]);
    root.finish(&mut writer);
    let result = writer.finish();
    let expected: Vec<u8> = vec![
        0x0A, 0x00, 0x00, 0x0C, 0x00, 0x02, 0x78, 0x73, 0x00, 0x00, 0x00, 0x01, 0x00, 0x00, 0x00,
        0x00, 0x00, 0x00, 0x00, 0x01, 0x00,
    ];
    assert_eq!(result, expected);
}

#[test]
fn test_lists_bytes() {
    let mut writer = NbtWriter::new();
    let mut root = writer.root("");
    root.field("b").byte_list(&mut writer, &[7, 8]);
    root.field("s").short_list(&mut writer, &[-1]);
    root.field("i").int_list(&mut writer, &[2]);
    root.field("l").long_list(&mut writer, &[3]);
    root.field("t").string_list(&mut writer, &["hi"]);
    root.field("y").byte_array_list(&mut writer, &[&[9][..]]);
    root.finish(&mut writer);
    let result = writer.finish();
    let expected: Vec<u8> = vec![
        0x0A, 0x00, 0x00, // root
        0x09, 0x00, 0x01, 0x62, 0x01, 0x00, 0x00, 0x00, 0x02, 0x07, 0x08, // byte list
        0x09, 0x00, 0x01, 0x73, 0x02, 0x00, 0x00, 0x00, 0x01, 0xFF, 0xFF, // short list
        0x09, 0x00, 0x01, 0x69, 0x03, 0x00, 0x00, 0x00, 0x01, 0x00, 0x00, 0x00,
        0x02, // int list
        0x09, 0x00, 0x01, 0x6C, 0x04, 0x00, 0x00, 0x00, 0x01, 0x00, 0x00, 0x00, 0x00, 0x00, 0x00,
        0x00, 0x03, // long list
        0x09, 0x00, 0x01, 0x74, 0x08, 0x00, 0x00, 0x00, 0x01, 0x00, 0x02, 0x68,
        0x69, // string list
        0x09, 0x00, 0x01, 0x79, 0x07, 0x00, 0x00, 0x00, 0x01, 0x00, 0x00, 0x00, 0x01,
        0x09, // byte array list
        0x00,
    ];
    assert_eq!(result, expected);
}

#[test]
fn test_compound_list_backpatch() {
    // The count placeholder must be overwritten with the number of
    // elements that were started.
    let mut writer = NbtWriter::new();
    let mut root = writer.root("");
    let mut list = root.compound_list_field(&mut writer, "es");
    {
        let mut element = list.element();
        let mut f = element.field("v");
        f.byte(&mut writer, 1);
        element.finish(&mut writer);
    }
    {
        let mut element = list.element();
        let mut f = element.field("v");
        f.byte(&mut writer, 2);
        element.finish(&mut writer);
    }
    list.finish(&mut writer);
    root.finish(&mut writer);
    let result = writer.finish();
    let expected: Vec<u8> = vec![
        0x0A, 0x00, 0x00, // root
        0x09, 0x00, 0x02, 0x65, 0x73, // list "es"
        0x0A, 0x00, 0x00, 0x00, 0x02, // compound elements, count 2
        0x01, 0x00, 0x01, 0x76, 0x01, 0x00, // {v: 1b}
        0x01, 0x00, 0x01, 0x76, 0x02, 0x00, // {v: 2b}
        0x00,
    ];
    assert_eq!(result, expected);
}

#[test]
fn test_nul_text_encoding() {
    // Modified UTF-8 writes the NUL character as the two-byte form.
    let mut writer = NbtWriter::new();
    let mut root = writer.root("");
    root.field("z").string(&mut writer, "\u{0}");
    root.finish(&mut writer);
    let result = writer.finish();
    let expected: Vec<u8> = vec![
        0x0A, 0x00, 0x00, 0x08, 0x00, 0x01, 0x7A, 0x00, 0x02, 0xC0, 0x80, 0x00,
    ];
    assert_eq!(result, expected);
}

#[test]
fn test_finish_is_tag_writer_state() {
    let mut writer = NbtWriter::new();
    let mut root = writer.root("");
    let mut field = root.field("a");
    assert!(!field.is_finished());
    field.byte(&mut writer, 0);
    assert!(field.is_finished());
    root.finish(&mut writer);
    let _ = writer.finish();
}
