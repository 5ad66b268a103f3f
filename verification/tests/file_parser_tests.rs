//! Tests of the decoder: whole documents, single values, the length
//! guard, and the lenient text policy.

use rnbt::file_parser::FileParser;
use rnbt::file_parser::ReadMode;
use rnbt::file_parser::parse_bytes;
use rnbt::file_parser::parse_compound;
use rnbt::file_parser::parse_list;
use rnbt::file_parser::parse_value;
use rnbt::generic_bin::FileType;
use rnbt::nbt_tag::NbtTag;
use rnbt::nbt_tag::NbtTagByteArray;
use rnbt::nbt_tag::NbtTagCompound;
use rnbt::nbt_tag::NbtTagDouble;
use rnbt::nbt_tag::NbtTagError;
use rnbt::nbt_tag::NbtTagFloat;
use rnbt::nbt_tag::NbtTagInt;
use rnbt::nbt_tag::NbtTagIntArray;
use rnbt::nbt_tag::NbtTagList;
use rnbt::nbt_tag::NbtTagLongArray;
use rnbt::nbt_tag::NbtTagString;
use rnbt::nbt_tag::NbtTagType;

#[test]
fn test_file_parser_new() {
    let path = "test.nbt".to_string();
    let parser = FileParser::new(path.clone(), ReadMode::EntireFile, FileType::Nbt);

    assert_eq!(parser.file_path, path);
    match parser.read_mode {
        ReadMode::EntireFile => (),
        _ => panic!("Expected ReadMode::EntireFile"),
    }
    assert_eq!(parser.file_type, FileType::Nbt);
}

#[test]
fn test_parse_bytes_with_valid_data() {
    // Create a simple NBT compound tag
    let mut compound = NbtTagCompound::new("root");
    compound.insert(
        "int".to_string(),
        NbtTag::Int(NbtTagInt::new("int".to_string(), 42)),
    );

    // Serialize the NBT compound to bytes
    let mut buf = Vec::new();
    rnbt::nbt_tag::write(&mut buf, &compound).unwrap();

    // Now parse the bytes back
    let parsed_tag = parse_bytes(&buf).unwrap();

    // Check that the parsed tag matches the original
    if let NbtTag::Compound(parsed_compound) = parsed_tag {
        assert_eq!(parsed_compound.name, compound.name);
        assert_eq!(parsed_compound.values.len(), compound.values.len());
        assert_eq!(
            parsed_compound.get("int").unwrap().int_tag().unwrap().value,
            compound.get("int").unwrap().int_tag().unwrap().value
        );
    } else {
        panic!("Parsed tag is not a compound");
    }
}

#[test]
fn test_parse_bytes_with_invalid_tag_id() {
    let buf = vec![255u8]; // Invalid tag ID

    let result = parse_bytes(&buf);

    assert!(result.is_err());
    if let Err(NbtTagError::InvalidTagType(id)) = result {
        assert_eq!(id, 255);
    } else {
        panic!("Expected InvalidTagType error");
    }
}

#[test]
fn test_parse_bytes_with_non_compound_root() {
    let buf = vec![1u8]; // Tag ID 1 (Byte), not a compound

    let result = parse_bytes(&buf);

    assert!(result.is_err());
    if let Err(NbtTagError::InvalidTagType(_)) = result {
        // Expected error
    } else {
        panic!("Expected InvalidTagType error");
    }
}

#[test]
fn test_parse_compound_with_empty_data() {
    // A compound body must be closed by an End byte; an empty buffer
    // ends before one.
    let buf: Vec<u8> = vec![];

    let result = parse_compound(&buf, 0, "empty".to_string());

    assert!(matches!(result, Err(NbtTagError::UnexpectedEof)));
}

#[test]
fn test_parse_list_with_valid_data() {
    // Create a list of integers
    let list_tag = NbtTagList::new(
        "int_list".to_string(),
        NbtTagType::Int,
        vec![
            NbtTag::Int(NbtTagInt::new("".to_string(), 1)),
            NbtTag::Int(NbtTagInt::new("".to_string(), 2)),
            NbtTag::Int(NbtTagInt::new("".to_string(), 3)),
        ],
    );

    // Serialize the list payload to bytes
    let mut buf = Vec::new();
    rnbt::nbt_tag::write_value(&mut buf, &NbtTag::List(list_tag.clone()), false).unwrap();

    // Now parse the list back
    let (parsed_list, _end) = parse_list(&buf, 0, "int_list".to_string()).unwrap();

    // Check that the parsed tag matches the original
    assert_eq!(parsed_list.name, list_tag.name);
    assert_eq!(parsed_list.ty, list_tag.ty);
    assert_eq!(parsed_list.values.len(), list_tag.values.len());
    for (parsed_value, original_value) in
        parsed_list.values.iter().zip(list_tag.values.iter())
    {
        assert_eq!(
            parsed_value.int_tag().unwrap().value,
            original_value.int_tag().unwrap().value
        );
    }
}

#[test]
fn test_parse_value_with_invalid_tag_type() {
    let buf: Vec<u8> = vec![];

    let ty = NbtTagType::End;
    let result = parse_value(&buf, 0, ty, "invalid".to_string());

    assert!(result.is_err());
    if let Err(NbtTagError::InvalidTagType(id)) = result {
        assert_eq!(id, 0);
    } else {
        panic!("Expected InvalidTagType error");
    }
}

#[test]
fn test_parse_value_with_string() {
    let original_string = "Hello, NBT!";
    let string_tag = NbtTagString::new("greeting".to_string(), original_string.to_string());

    let mut buf = Vec::new();
    rnbt::nbt_tag::write_value(&mut buf, &NbtTag::String(string_tag.clone()), false).unwrap();

    let (parsed_tag, _end) =
        parse_value(&buf, 0, NbtTagType::String, "greeting".to_string()).unwrap();

    if let NbtTag::String(parsed_string_tag) = parsed_tag {
        assert_eq!(parsed_string_tag.name, string_tag.name);
        assert_eq!(parsed_string_tag.value, string_tag.value);
    } else {
        panic!("Parsed tag is not a string");
    }
}

#[test]
fn test_parse_list_exceeding_max_length() {
    let mut buf = vec![];

    // Write the list's element type
    buf.push(NbtTagType::List.id());
    buf.push(NbtTagType::Int.id());

    // Write a length exceeding the maximum allowed
    buf.extend_from_slice(&65537i32.to_be_bytes()); // len = 65537 (> 65536)

    let result = parse_list(&buf, 0, "big_list".to_string());

    assert!(result.is_err());
    if let Err(NbtTagError::MaxNbtListLengthExceeded) = result {
        // Expected error
    } else {
        panic!("Expected MaxNbtListLengthExceeded error");
    }
}

#[test]
fn test_parse_value_with_byte_array() {
    let byte_array_tag = NbtTagByteArray::new("bytes".to_string(), vec![1, 2, 3, 4]);

    let mut buf = Vec::new();
    rnbt::nbt_tag::write_value(&mut buf, &NbtTag::ByteArray(byte_array_tag.clone()), false).unwrap();

    let (parsed_tag, _end) =
        parse_value(&buf, 0, NbtTagType::ByteArray, "bytes".to_string()).unwrap();

    if let NbtTag::ByteArray(parsed_byte_array) = parsed_tag {
        assert_eq!(parsed_byte_array.name, byte_array_tag.name);
        assert_eq!(parsed_byte_array.values, byte_array_tag.values);
    } else {
        panic!("Parsed tag is not a byte array");
    }
}

#[test]
fn test_parse_value_with_int_array() {
    let int_array_tag = NbtTagIntArray::new("ints".to_string(), vec![10, 20, 30]);

    let mut buf = Vec::new();
    rnbt::nbt_tag::write_value(&mut buf, &NbtTag::IntArray(int_array_tag.clone()), false).unwrap();

    let (parsed_tag, _end) =
        parse_value(&buf, 0, NbtTagType::IntArray, "ints".to_string()).unwrap();

    if let NbtTag::IntArray(parsed_int_array) = parsed_tag {
        assert_eq!(parsed_int_array.name, int_array_tag.name);
        assert_eq!(parsed_int_array.values, int_array_tag.values);
    } else {
        panic!("Parsed tag is not an int array");
    }
}

#[test]
fn test_parse_value_with_long_array() {
    let long_array_tag = NbtTagLongArray::new("longs".to_string(), vec![100, 200, 300]);

    let mut buf = Vec::new();
    rnbt::nbt_tag::write_value(&mut buf, &NbtTag::LongArray(long_array_tag.clone()), false).unwrap();

    let (parsed_tag, _end) =
        parse_value(&buf, 0, NbtTagType::LongArray, "longs".to_string()).unwrap();

    if let NbtTag::LongArray(parsed_long_array) = parsed_tag {
        assert_eq!(parsed_long_array.name, long_array_tag.name);
        assert_eq!(parsed_long_array.values, long_array_tag.values);
    } else {
        panic!("Parsed tag is not a long array");
    }
}

#[test]
fn test_parse_compound_with_nested_compounds() {
    let mut inner_compound = NbtTagCompound::new("inner");
    inner_compound.insert(
        "value".to_string(),
        NbtTag::Int(NbtTagInt::new("value".to_string(), 123)),
    );

    let mut outer_compound = NbtTagCompound::new("outer");
    outer_compound.insert(
        "inner".to_string(),
        NbtTag::Compound(inner_compound.clone()),
    );

    let mut buf = Vec::new();
    rnbt::nbt_tag::write(&mut buf, &outer_compound).unwrap();

    let parsed_tag = parse_bytes(&buf).unwrap();

    if let NbtTag::Compound(parsed_compound) = parsed_tag {
        assert_eq!(parsed_compound.name, outer_compound.name);
        let parsed_inner = parsed_compound.get("inner").unwrap();
        if let NbtTag::Compound(parsed_inner_compound) = parsed_inner {
            assert_eq!(parsed_inner_compound.name, inner_compound.name);
            assert_eq!(
                parsed_inner_compound.get("value").unwrap().int_tag().unwrap().value,
                inner_compound.get("value").unwrap().int_tag().unwrap().value
            );
        } else {
            panic!("Parsed inner tag is not a compound");
        }
    } else {
        panic!("Parsed tag is not a compound");
    }
}

#[test]
fn test_parse_value_with_float() {
    let float_tag = NbtTagFloat::new("float_value".to_string(), 3.14f32.to_bits());

    let mut buf = Vec::new();
    rnbt::nbt_tag::write_value(&mut buf, &NbtTag::Float(float_tag.clone()), false).unwrap();

    let (parsed_tag, _end) =
        parse_value(&buf, 0, NbtTagType::Float, "float_value".to_string()).unwrap();

    if let NbtTag::Float(parsed_float_tag) = parsed_tag {
        assert_eq!(parsed_float_tag.name, float_tag.name);
        assert_eq!(parsed_float_tag.bits, float_tag.bits);
    } else {
        panic!("Parsed tag is not a float");
    }
}

#[test]
fn test_parse_value_with_double() {
    let double_tag = NbtTagDouble::new("double_value".to_string(), 2.71828f64.to_bits());

    let mut buf = Vec::new();
    rnbt::nbt_tag::write_value(&mut buf, &NbtTag::Double(double_tag.clone()), false).unwrap();

    let (parsed_tag, _end) =
        parse_value(&buf, 0, NbtTagType::Double, "double_value".to_string()).unwrap();

    if let NbtTag::Double(parsed_double_tag) = parsed_tag {
        assert_eq!(parsed_double_tag.name, double_tag.name);
        assert_eq!(parsed_double_tag.bits, double_tag.bits);
    } else {
        panic!("Parsed tag is not a double");
    }
}

#[test]
fn test_parse_value_with_large_string() {
    let large_string = "a".repeat(1000);
    let string_tag = NbtTagString::new("large_string".to_string(), large_string.clone());

    let mut buf = Vec::new();
    rnbt::nbt_tag::write_value(&mut buf, &NbtTag::String(string_tag.clone()), false).unwrap();

    let (parsed_tag, _end) =
        parse_value(&buf, 0, NbtTagType::String, "large_string".to_string()).unwrap();

    if let NbtTag::String(parsed_string_tag) = parsed_tag {
        assert_eq!(parsed_string_tag.name, string_tag.name);
        assert_eq!(parsed_string_tag.value, string_tag.value);
    } else {
        panic!("Parsed tag is not a string");
    }
}

#[test]
fn test_parse_bytes_with_incomplete_data() {
    let buf = vec![NbtTagType::Compound.id(), 0x00, 0x05, b'r', b'o', b'o', b't']; // Missing the rest of the compound

    let result = parse_bytes(&buf);

    assert!(result.is_err());
}

#[test]
fn test_parse_compound_with_no_end_tag() {
    // Create a compound body without a closing End byte; the decoder
    // reaches the end of the input while looking for it.
    let mut buf = Vec::new();

    // Write an Int tag inside the compound
    buf.push(NbtTagType::Int.id()); // Int tag type
    buf.extend_from_slice(&(3u16.to_be_bytes())); // Name length = 3
    buf.extend_from_slice(b"int");
    buf.extend_from_slice(&(42i32.to_be_bytes())); // Int value

    // Missing End tag

    let result = parse_compound(&buf, 0, "test".to_string());

    assert!(matches!(result, Err(NbtTagError::UnexpectedEof)));
}

#[test]
fn test_parse_value_with_non_utf8_string() {
    // Create a buffer whose string payload is not valid UTF-8
    let mut buf = Vec::new();
    buf.extend_from_slice(&(1u16.to_be_bytes())); // Length = 1
    buf.push(0xFF); // Invalid UTF-8 byte

    let result = parse_value(&buf, 0, NbtTagType::String, "invalid_string".to_string());

    // Strings are built from bytes without checking UTF-8 validity, so
    // the invalid byte is surfaced as the character of the same code
    assert!(result.is_ok());
}

#[test]
fn test_byte_array_length_guard() {
    // A byte array of exactly 65 536 elements is accepted
    let mut buf = Vec::new();
    buf.extend_from_slice(&(65536i32.to_be_bytes()));
    buf.extend_from_slice(&vec![0u8; 65536]);
    let accepted = parse_value(&buf, 0, NbtTagType::ByteArray, "big".to_string());
    assert!(accepted.is_ok());
    assert_eq!(accepted.unwrap().0.byte_array().unwrap().values.len(), 65536);

    // One element more is rejected
    let mut buf2 = Vec::new();
    buf2.extend_from_slice(&(65537i32.to_be_bytes()));
    buf2.extend_from_slice(&vec![0u8; 65537]);
    let rejected = parse_value(&buf2, 0, NbtTagType::ByteArray, "big".to_string());
    assert!(matches!(rejected, Err(NbtTagError::MaxNbtListLengthExceeded)));
}

#[test]
fn test_encode_of_decode_restores_bytes() {
    // Re-encoding a decoded buffer gives back the bytes that were
    // decoded, byte for byte.
    let buf = vec![
        0x0A, 0x00, 0x01, b'r', 0x02, 0x00, 0x01, b's', 0x01, 0x23, 0x08, 0x00, 0x01, b't',
        0x00, 0x02, b'h', b'i', 0x00,
    ];
    let parsed = parse_bytes(&buf).unwrap();
    let compound = parsed.compound().unwrap();
    let mut out = Vec::new();
    rnbt::nbt_tag::write(&mut out, &compound).unwrap();
    assert_eq!(out, buf);
}

#[test]
fn test_duplicate_keys_keep_last_occurrence() {
    // The wire format permits duplicate names within a compound; the
    // in-memory model keeps the last occurrence.
    let buf = vec![
        0x0A, 0x00, 0x00, // root compound, empty name
        0x01, 0x00, 0x01, b'a', 0x01, // a: Byte(1)
        0x01, 0x00, 0x01, b'a', 0x02, // a: Byte(2)
        0x00, // End
    ];
    let parsed = parse_bytes(&buf).unwrap();
    let compound = parsed.compound().unwrap();
    assert_eq!(compound.values.len(), 1);
    assert_eq!(compound.get("a").unwrap().byte().unwrap().value, 2);
}

#[test]
fn test_decode_single_byte_tag() {
    // A root compound with no name holding `foo: Byte(42)`, then End
    let buf = vec![
        0x0A, 0x00, 0x00, 0x01, 0x00, 0x03, b'f', b'o', b'o', 0x2A, 0x00,
    ];
    let parsed = parse_bytes(&buf).unwrap();
    let compound = parsed.compound().unwrap();
    assert_eq!(compound.name, "");
    let foo = compound.get("foo").unwrap().byte().unwrap();
    assert_eq!(foo.name, "foo");
    assert_eq!(foo.value, 42);
}

#[test]
fn test_decode_empty_list() {
    // A root compound holding `list`: an empty list of element kind End
    let buf = vec![
        0x0A, 0x00, 0x00, 0x09, 0x00, 0x04, b'l', b'i', b's', b't', 0x00, 0x00, 0x00, 0x00,
        0x00, 0x00,
    ];
    let parsed = parse_bytes(&buf).unwrap();
    let compound = parsed.compound().unwrap();
    let list = compound.get("list").unwrap().list().unwrap();
    assert_eq!(list.ty, NbtTagType::End);
    assert_eq!(list.values.len(), 0);
}
