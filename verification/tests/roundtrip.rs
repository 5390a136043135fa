//! Round trips and exact wire bytes for every supported shape.

use transform::value::{Shape, Value, VariantPayload, VariantShape};
use transform::{from_bytes, to_bytes};

#[test]
fn bool_exact_bytes_and_round_trip() {
    let bytes = to_bytes(&Value::Bool(true)).unwrap();
    assert_eq!(bytes, vec![1]);
    let bytes = to_bytes(&Value::Bool(false)).unwrap();
    assert_eq!(bytes, vec![0]);
    let back = from_bytes(&bytes, &Shape::Bool).unwrap();
    assert_eq!(back, Value::Bool(false));
}

#[test]
fn u8_exact_bytes_and_round_trip() {
    let bytes = to_bytes(&Value::U8(0xAB)).unwrap();
    assert_eq!(bytes, vec![0xAB]);
    let back = from_bytes(&bytes, &Shape::U8).unwrap();
    assert_eq!(back, Value::U8(0xAB));
}

#[test]
fn u32_little_endian_bytes_and_round_trip() {
    let bytes = to_bytes(&Value::U32(0x01020304)).unwrap();
    assert_eq!(bytes, vec![0x04, 0x03, 0x02, 0x01]);
    let back = from_bytes(&bytes, &Shape::U32).unwrap();
    assert_eq!(back, Value::U32(0x01020304));
}

#[test]
fn option_some_discriminant_then_payload() {
    let value = Value::Optional(Some(Box::new(Value::U8(7))));
    let bytes = to_bytes(&value).unwrap();
    assert_eq!(bytes, vec![0x01, 0x07]);
    let back = from_bytes(&bytes, &Shape::Optional(Box::new(Shape::U8))).unwrap();
    assert_eq!(back, value);
}

#[test]
fn option_none_single_zero_byte() {
    let value = Value::Optional(None);
    let bytes = to_bytes(&value).unwrap();
    assert_eq!(bytes, vec![0x00]);
    let back = from_bytes(&bytes, &Shape::Optional(Box::new(Shape::U32))).unwrap();
    assert_eq!(back, value);
}

#[test]
fn unit_single_zero_byte() {
    let bytes = to_bytes(&Value::Unit).unwrap();
    assert_eq!(bytes, vec![0x00]);
    let back = from_bytes(&bytes, &Shape::Unit).unwrap();
    assert_eq!(back, Value::Unit);
}

#[test]
fn newtype_adds_no_framing() {
    let value = Value::Newtype(Box::new(Value::U32(300)));
    let bytes = to_bytes(&value).unwrap();
    assert_eq!(bytes, vec![44, 1, 0, 0]);
    let back = from_bytes(&bytes, &Shape::Newtype(Box::new(Shape::U32))).unwrap();
    assert_eq!(back, value);
}

#[test]
fn u32_sequence_length_prefix_counts_bytes() {
    let value = Value::Sequence(vec![Value::U32(1), Value::U32(2), Value::U32(3)]);
    let bytes = to_bytes(&value).unwrap();
    assert_eq!(
        bytes,
        vec![12, 0, 0, 0, 1, 0, 0, 0, 2, 0, 0, 0, 3, 0, 0, 0]
    );
    let back = from_bytes(&bytes, &Shape::Sequence(Box::new(Shape::U32))).unwrap();
    assert_eq!(back, value);
}

#[test]
fn empty_sequence_zero_prefix() {
    let value = Value::Sequence(vec![]);
    let bytes = to_bytes(&value).unwrap();
    assert_eq!(bytes, vec![0, 0, 0, 0]);
    let back = from_bytes(&bytes, &Shape::Sequence(Box::new(Shape::U8))).unwrap();
    assert_eq!(back, value);
}

#[test]
fn two_field_record_positional_payload() {
    let value = Value::Record(vec![Value::U8(9), Value::U32(300)]);
    let bytes = to_bytes(&value).unwrap();
    assert_eq!(bytes, vec![5, 0, 0, 0, 9, 44, 1, 0, 0]);
    let shape = Shape::Record(vec![Shape::U8, Shape::U32]);
    let back = from_bytes(&bytes, &shape).unwrap();
    assert_eq!(back, value);
}

#[test]
fn tuple_of_mixed_scalars_round_trips() {
    let value = Value::Record(vec![Value::U8(0), Value::U32(1)]);
    let bytes = to_bytes(&value).unwrap();
    let shape = Shape::Record(vec![Shape::U8, Shape::U32]);
    assert_eq!(from_bytes(&bytes, &shape).unwrap(), value);
}

#[test]
fn table_interleaves_keys_and_values() {
    let value = Value::Table(vec![
        (Value::U8(1), Value::U32(10)),
        (Value::U8(2), Value::U32(20)),
    ]);
    let bytes = to_bytes(&value).unwrap();
    assert_eq!(
        bytes,
        vec![10, 0, 0, 0, 1, 10, 0, 0, 0, 2, 20, 0, 0, 0]
    );
    let shape = Shape::Table(Box::new(Shape::U8), Box::new(Shape::U32));
    let back = from_bytes(&bytes, &shape).unwrap();
    assert_eq!(back, value);
}

#[test]
fn empty_table_round_trips() {
    let value = Value::Table(vec![]);
    let bytes = to_bytes(&value).unwrap();
    assert_eq!(bytes, vec![0, 0, 0, 0]);
    let shape = Shape::Table(Box::new(Shape::U8), Box::new(Shape::U8));
    assert_eq!(from_bytes(&bytes, &shape).unwrap(), value);
}

#[test]
fn unit_variant_prefix_and_index_byte() {
    let value = Value::Variant(0, VariantPayload::Unit);
    let bytes = to_bytes(&value).unwrap();
    assert_eq!(bytes, vec![1, 0, 0, 0, 0]);
    let shape = Shape::Enum(vec![VariantShape::Unit]);
    let back = from_bytes(&bytes, &shape).unwrap();
    assert_eq!(back, value);
}

#[test]
fn newtype_variant_round_trips() {
    let value = Value::Variant(0, VariantPayload::Newtype(Box::new(Value::U32(0))));
    let bytes = to_bytes(&value).unwrap();
    assert_eq!(bytes, vec![5, 0, 0, 0, 0, 0, 0, 0, 0]);
    let shape = Shape::Enum(vec![VariantShape::Newtype(Box::new(Shape::U32))]);
    let back = from_bytes(&bytes, &shape).unwrap();
    assert_eq!(back, value);
}

#[test]
fn tuple_variant_shares_outer_prefix() {
    let value = Value::Variant(
        1,
        VariantPayload::Fields(vec![Value::U8(0), Value::U32(1)]),
    );
    let bytes = to_bytes(&value).unwrap();
    assert_eq!(bytes, vec![6, 0, 0, 0, 1, 0, 1, 0, 0, 0]);
    let shape = Shape::Enum(vec![
        VariantShape::Unit,
        VariantShape::Fields(vec![Shape::U8, Shape::U32]),
    ]);
    let back = from_bytes(&bytes, &shape).unwrap();
    assert_eq!(back, value);
}

#[test]
fn struct_variant_and_unit_sibling_round_trip() {
    let shape = Shape::Enum(vec![
        VariantShape::Fields(vec![Shape::U8, Shape::U32]),
        VariantShape::Unit,
    ]);
    let with_fields = Value::Variant(
        0,
        VariantPayload::Fields(vec![Value::U8(0), Value::U32(1)]),
    );
    let bytes = to_bytes(&with_fields).unwrap();
    assert_eq!(from_bytes(&bytes, &shape).unwrap(), with_fields);
    let bare = Value::Variant(1, VariantPayload::Unit);
    let bytes = to_bytes(&bare).unwrap();
    assert_eq!(from_bytes(&bytes, &shape).unwrap(), bare);
}

#[test]
fn variant_index_up_to_255_is_encodable() {
    let mut variants = Vec::new();
    for _ in 0..256 {
        variants.push(VariantShape::Unit);
    }
    let shape = Shape::Enum(variants);
    let value = Value::Variant(255, VariantPayload::Unit);
    let bytes = to_bytes(&value).unwrap();
    assert_eq!(bytes, vec![1, 0, 0, 0, 255]);
    assert_eq!(from_bytes(&bytes, &shape).unwrap(), value);
}

#[test]
fn nested_containers_round_trip() {
    let value = Value::Record(vec![
        Value::Sequence(vec![Value::U8(1), Value::U8(2)]),
        Value::Optional(Some(Box::new(Value::Record(vec![Value::Bool(true)])))),
    ]);
    let shape = Shape::Record(vec![
        Shape::Sequence(Box::new(Shape::U8)),
        Shape::Optional(Box::new(Shape::Record(vec![Shape::Bool]))),
    ]);
    let bytes = to_bytes(&value).unwrap();
    let back = from_bytes(&bytes, &shape).unwrap();
    assert_eq!(back, value);
}

#[test]
fn sequence_of_records_round_trips() {
    let value = Value::Sequence(vec![
        Value::Record(vec![Value::U8(1), Value::U32(100)]),
        Value::Record(vec![Value::U8(2), Value::U32(200)]),
    ]);
    let shape = Shape::Sequence(Box::new(Shape::Record(vec![Shape::U8, Shape::U32])));
    let bytes = to_bytes(&value).unwrap();
    assert_eq!(from_bytes(&bytes, &shape).unwrap(), value);
}

#[test]
fn trailing_bytes_are_ignored() {
    let back = from_bytes(&[7, 99, 98, 97], &Shape::U8).unwrap();
    assert_eq!(back, Value::U8(7));
}

#[test]
fn length_prefix_equals_payload_length() {
    let value = Value::Sequence(vec![Value::U32(9), Value::U32(8)]);
    let bytes = to_bytes(&value).unwrap();
    let prefix = u32::from_le_bytes([bytes[0], bytes[1], bytes[2], bytes[3]]) as usize;
    assert_eq!(prefix, bytes.len() - 4);
    let value = Value::Variant(3, VariantPayload::Newtype(Box::new(Value::U8(1))));
    let bytes = to_bytes(&value).unwrap();
    let prefix = u32::from_le_bytes([bytes[0], bytes[1], bytes[2], bytes[3]]) as usize;
    assert_eq!(prefix, bytes.len() - 4);
}
