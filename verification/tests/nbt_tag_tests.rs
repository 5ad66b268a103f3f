//! Tests of the tag model: kinds and ids, typed accessors, and the
//! encoder entry point.

use rnbt::nbt_tag::NbtTag;
use rnbt::nbt_tag::NbtTagByte;
use rnbt::nbt_tag::NbtTagByteArray;
use rnbt::nbt_tag::NbtTagCompound;
use rnbt::nbt_tag::NbtTagDouble;
use rnbt::nbt_tag::NbtTagFloat;
use rnbt::nbt_tag::NbtTagInt;
use rnbt::nbt_tag::NbtTagIntArray;
use rnbt::nbt_tag::NbtTagList;
use rnbt::nbt_tag::NbtTagLong;
use rnbt::nbt_tag::NbtTagLongArray;
use rnbt::nbt_tag::NbtTagShort;
use rnbt::nbt_tag::NbtTagString;
use rnbt::nbt_tag::NbtTagType;

#[test]
fn test_nbt_tag_type_from_id() {
    for id in 0u8..=12 {
        let ty = NbtTagType::from_id(id).unwrap();
        assert_eq!(ty.id(), id);
    }
    // Test invalid IDs
    for &invalid_id in &[13u8, 255u8] {
        let ty = NbtTagType::from_id(invalid_id);
        assert!(ty.is_err());
    }
}

#[test]
fn test_nbt_tag_getters() {
    let byte_tag = NbtTag::Byte(NbtTagByte::new("byte".to_string(), 1));
    assert_eq!(byte_tag.ty(), NbtTagType::Byte);
    assert_eq!(byte_tag.byte().unwrap().value, 1);

    let short_tag = NbtTag::Short(NbtTagShort::new("short".to_string(), 2));
    assert_eq!(short_tag.ty(), NbtTagType::Short);
    assert_eq!(short_tag.short().unwrap().value, 2);

    let int_tag = NbtTag::Int(NbtTagInt::new("int".to_string(), 3));
    assert_eq!(int_tag.ty(), NbtTagType::Int);
    assert_eq!(int_tag.int_tag().unwrap().value, 3);

    let long_tag = NbtTag::Long(NbtTagLong::new("long".to_string(), 4));
    assert_eq!(long_tag.ty(), NbtTagType::Long);
    assert_eq!(long_tag.long().unwrap().value, 4);

    let float_tag = NbtTag::Float(NbtTagFloat::new("float".to_string(), 5.0f32.to_bits()));
    assert_eq!(float_tag.ty(), NbtTagType::Float);
    assert_eq!(float_tag.float().unwrap().bits, 5.0f32.to_bits());

    let double_tag = NbtTag::Double(NbtTagDouble::new("double".to_string(), 6.0f64.to_bits()));
    assert_eq!(double_tag.ty(), NbtTagType::Double);
    assert_eq!(double_tag.double().unwrap().bits, 6.0f64.to_bits());

    let byte_array_tag =
        NbtTag::ByteArray(NbtTagByteArray::new("byte_array".to_string(), vec![1, 2, 3]));
    assert_eq!(byte_array_tag.ty(), NbtTagType::ByteArray);
    assert_eq!(byte_array_tag.byte_array().unwrap().values, vec![1, 2, 3]);

    let string_tag =
        NbtTag::String(NbtTagString::new("string".to_string(), "hello".to_string()));
    assert_eq!(string_tag.ty(), NbtTagType::String);
    assert_eq!(string_tag.string().unwrap().value, "hello");

    let int_array_tag =
        NbtTag::IntArray(NbtTagIntArray::new("int_array".to_string(), vec![1, 2, 3]));
    assert_eq!(int_array_tag.ty(), NbtTagType::IntArray);
    assert_eq!(int_array_tag.int_array().unwrap().values, vec![1, 2, 3]);

    let long_array_tag =
        NbtTag::LongArray(NbtTagLongArray::new("long_array".to_string(), vec![1, 2, 3]));
    assert_eq!(long_array_tag.ty(), NbtTagType::LongArray);
    assert_eq!(long_array_tag.long_array().unwrap().values, vec![1, 2, 3]);
}

#[test]
fn test_write_nbt_tag_compound() {
    let mut compound = NbtTagCompound::new("root");
    compound.insert(
        "int".to_string(),
        NbtTag::Int(NbtTagInt::new("int".to_string(), 42)),
    );
    compound.insert(
        "string".to_string(),
        NbtTag::String(NbtTagString::new("string".to_string(), "hello".to_string())),
    );

    let mut buf = Vec::new();
    rnbt::nbt_tag::write(&mut buf, &compound).unwrap();

    // Check that buffer is not empty
    assert!(!buf.is_empty());

    // The root tag kind of the buffer is the compound id
    assert_eq!(buf[0], 0x0A);
}

#[test]
fn test_nbt_tag_getters_return_none_for_wrong_type() {
    let int_tag = NbtTag::Int(NbtTagInt::new("int".to_string(), 42));
    assert!(int_tag.byte().is_none());
    assert!(int_tag.short().is_none());
    assert!(int_tag.int_tag().is_some());
    assert!(int_tag.long().is_none());
}

#[test]
fn test_nbt_tag_list_as_ref() {
    let int_tag1 = NbtTag::Int(NbtTagInt::new("".to_string(), 1));
    let int_tag2 = NbtTag::Int(NbtTagInt::new("".to_string(), 2));
    let list = NbtTagList::new(
        "int_list".to_string(),
        NbtTagType::Int,
        vec![int_tag1.clone(), int_tag2.clone()],
    );
    let list_tag = NbtTag::List(list.clone());

    let list_ref = list_tag.list_as_ref().unwrap();
    assert_eq!(list_ref.name, "int_list");
    assert_eq!(list_ref.ty, NbtTagType::Int);
    assert_eq!(list_ref.values.len(), 2);
}

#[test]
fn test_nbt_tag_type_id() {
    let tag_type = NbtTagType::Int;
    assert_eq!(tag_type.id(), 3);
}

#[test]
fn test_nbt_tag_long_array_as_ref() {
    let long_array_tag =
        NbtTag::LongArray(NbtTagLongArray::new("long_array".to_string(), vec![1, 2, 3]));
    let long_array_ref = long_array_tag.long_array_as_ref().unwrap();
    assert_eq!(long_array_ref.name, "long_array");
    assert_eq!(long_array_ref.values, vec![1, 2, 3]);
}

#[test]
fn test_nbt_tag_float_equality() {
    let float_tag = NbtTag::Float(NbtTagFloat::new("float".to_string(), 3.14f32.to_bits()));
    assert_eq!(float_tag.float().unwrap().bits, 3.14f32.to_bits());
}

#[test]
fn test_nbt_tag_double_equality() {
    let double_tag =
        NbtTag::Double(NbtTagDouble::new("double".to_string(), 2.71828f64.to_bits()));
    assert_eq!(double_tag.double().unwrap().bits, 2.71828f64.to_bits());
}

#[test]
fn test_nbt_tag_byte_array_content() {
    let byte_array_tag =
        NbtTag::ByteArray(NbtTagByteArray::new("bytes".to_string(), vec![10, 20, 30]));
    assert_eq!(byte_array_tag.byte_array().unwrap().values, vec![10, 20, 30]);
}

#[test]
fn test_nbt_tag_int_array_content() {
    let int_array_tag =
        NbtTag::IntArray(NbtTagIntArray::new("ints".to_string(), vec![100, 200, 300]));
    assert_eq!(int_array_tag.int_array().unwrap().values, vec![100, 200, 300]);
}

#[test]
fn test_nbt_tag_string_content() {
    let string_tag = NbtTag::String(NbtTagString::new(
        "greeting".to_string(),
        "Hello, World!".to_string(),
    ));
    assert_eq!(string_tag.string().unwrap().value, "Hello, World!".to_string());
}

#[test]
fn test_write_empty_nbt_tag_compound() {
    let compound = NbtTagCompound::new("empty");
    let mut buf = Vec::new();
    rnbt::nbt_tag::write(&mut buf, &compound).unwrap();
    assert!(!buf.is_empty());
}

#[test]
fn test_write_nbt_tag_compound_with_nested_tags() {
    let mut compound = NbtTagCompound::new("root");
    compound.insert(
        "byte".to_string(),
        NbtTag::Byte(NbtTagByte::new("byte".to_string(), 127)),
    );
    compound.insert(
        "short".to_string(),
        NbtTag::Short(NbtTagShort::new("short".to_string(), 32000)),
    );
    compound.insert(
        "int".to_string(),
        NbtTag::Int(NbtTagInt::new("int".to_string(), 2147483647)),
    );
    compound.insert(
        "long".to_string(),
        NbtTag::Long(NbtTagLong::new("long".to_string(), 9223372036854775807)),
    );
    compound.insert(
        "float".to_string(),
        NbtTag::Float(NbtTagFloat::new("float".to_string(), 3.14f32.to_bits())),
    );
    compound.insert(
        "double".to_string(),
        NbtTag::Double(NbtTagDouble::new("double".to_string(), 2.71828f64.to_bits())),
    );

    let mut buf = Vec::new();
    rnbt::nbt_tag::write(&mut buf, &compound).unwrap();
    assert!(!buf.is_empty());
}
