//! Rejection of unsupported shapes, bad discriminants, broken byte budgets,
//! and out-of-range variant indexes; and the default-driven `load` helper.

use transform::de::BytesDeserializer;
use transform::format::ScalarKind;
use transform::ser::BytesSerializer;
use transform::value::{Shape, Value, VariantPayload, VariantShape};
use transform::{from_bytes, load, to_bytes, Error};

fn is_custom(e: &Error) -> bool {
    matches!(e, Error::Custom(_))
}

#[test]
fn text_encode_fails_with_unsupported_type() {
    let result = to_bytes(&Value::Unsupported(ScalarKind::Text));
    assert_eq!(result, Err(Error::Unimplemented));
}

#[test]
fn signed_integer_encode_fails_with_unsupported_type() {
    let result = to_bytes(&Value::Unsupported(ScalarKind::SignedInteger));
    assert_eq!(result, Err(Error::Unimplemented));
}

#[test]
fn unsupported_field_aborts_the_whole_encode() {
    let value = Value::Record(vec![
        Value::U8(1),
        Value::Unsupported(ScalarKind::FloatingPoint),
    ]);
    assert_eq!(to_bytes(&value), Err(Error::Unimplemented));
}

#[test]
fn failed_encode_leaves_no_trace_for_a_fresh_encode() {
    let result = to_bytes(&Value::Unsupported(ScalarKind::Text));
    assert!(result.is_err());
    let bytes = to_bytes(&Value::Optional(Some(Box::new(Value::U8(7))))).unwrap();
    assert_eq!(bytes, vec![0x01, 0x07]);
}

#[test]
fn unsupported_decode_fails_with_unsupported_type() {
    let result = from_bytes(&[0, 1, 2, 3], &Shape::Unsupported(ScalarKind::RawBytes));
    assert_eq!(result, Err(Error::Unimplemented));
}

#[test]
fn unsupported_element_shape_fails_inside_a_container() {
    let shape = Shape::Sequence(Box::new(Shape::Unsupported(ScalarKind::Character)));
    let result = from_bytes(&[1, 0, 0, 0, 0], &shape);
    assert_eq!(result, Err(Error::Unimplemented));
}

#[test]
fn variant_index_256_fails_encoding() {
    let value = Value::Variant(256, VariantPayload::Unit);
    assert_eq!(to_bytes(&value), Err(Error::InvalidData));
}

#[test]
fn large_variant_index_fails_before_its_payload() {
    let value = Value::Variant(
        300,
        VariantPayload::Fields(vec![Value::Unsupported(ScalarKind::Text)]),
    );
    assert_eq!(to_bytes(&value), Err(Error::InvalidData));
}

#[test]
fn unknown_variant_index_fails_decoding() {
    let shape = Shape::Enum(vec![VariantShape::Unit]);
    let result = from_bytes(&[1, 0, 0, 0, 1], &shape);
    assert!(is_custom(&result.unwrap_err()));
}

#[test]
fn truncated_u32_fails_decoding() {
    let result = from_bytes(&[1, 2], &Shape::U32);
    assert!(is_custom(&result.unwrap_err()));
}

#[test]
fn empty_buffer_fails_scalar_decoding() {
    let result = from_bytes(&[], &Shape::U8);
    assert!(is_custom(&result.unwrap_err()));
}

#[test]
fn invalid_option_discriminant_fails_decoding() {
    let result = from_bytes(&[2, 7], &Shape::Optional(Box::new(Shape::U8)));
    assert!(is_custom(&result.unwrap_err()));
}

#[test]
fn invalid_unit_byte_fails_decoding() {
    let result = from_bytes(&[1], &Shape::Unit);
    assert!(is_custom(&result.unwrap_err()));
}

#[test]
fn invalid_bool_byte_fails_decoding() {
    let result = from_bytes(&[2], &Shape::Bool);
    assert!(is_custom(&result.unwrap_err()));
}

#[test]
fn element_exceeding_the_budget_fails_decoding() {
    let shape = Shape::Sequence(Box::new(Shape::U32));
    let result = from_bytes(&[2, 0, 0, 0, 1, 0, 0, 0], &shape);
    assert!(is_custom(&result.unwrap_err()));
}

#[test]
fn budget_left_after_the_last_field_fails_decoding() {
    let shape = Shape::Record(vec![]);
    let result = from_bytes(&[1, 0, 0, 0, 0], &shape);
    assert!(is_custom(&result.unwrap_err()));
}

#[test]
fn budget_ending_before_the_last_field_fails_decoding() {
    let shape = Shape::Record(vec![Shape::U8]);
    let result = from_bytes(&[0, 0, 0, 0], &shape);
    assert!(is_custom(&result.unwrap_err()));
}

#[test]
fn truncated_container_payload_fails_decoding() {
    let shape = Shape::Sequence(Box::new(Shape::U8));
    let result = from_bytes(&[3, 0, 0, 0, 1, 2], &shape);
    assert!(is_custom(&result.unwrap_err()));
}

#[test]
fn map_value_missing_after_key_fails_decoding() {
    let shape = Shape::Table(Box::new(Shape::U8), Box::new(Shape::U32));
    let result = from_bytes(&[1, 0, 0, 0, 5], &shape);
    assert!(is_custom(&result.unwrap_err()));
}

#[test]
fn zero_length_variant_fails_decoding() {
    let shape = Shape::Enum(vec![VariantShape::Unit]);
    let result = from_bytes(&[0, 0, 0, 0, 0], &shape);
    assert!(is_custom(&result.unwrap_err()));
}

#[test]
fn unit_variant_with_leftover_budget_fails_decoding() {
    let shape = Shape::Enum(vec![VariantShape::Unit]);
    let result = from_bytes(&[2, 0, 0, 0, 0, 0], &shape);
    assert!(is_custom(&result.unwrap_err()));
}

#[test]
fn newtype_variant_with_wrong_length_fails_decoding() {
    let shape = Shape::Enum(vec![VariantShape::Newtype(Box::new(Shape::U8))]);
    let result = from_bytes(&[3, 0, 0, 0, 0, 7, 9], &shape);
    assert!(is_custom(&result.unwrap_err()));
}

#[test]
fn deserializer_reads_advance_the_cursor() {
    let mut de = BytesDeserializer::new();
    let back = de.from_bytes(&[44, 1, 0, 0, 9], &Shape::U32).unwrap();
    assert_eq!(back, Value::U32(300));
    assert_eq!(de.peek_position(), 4);
    let byte = de.read_byte().unwrap();
    assert_eq!(byte, 9);
    assert!(de.read_byte().is_err());
}

#[test]
fn deserializer_read_primitives_check_bounds() {
    let mut de = BytesDeserializer::new();
    let back = de.from_bytes(&[1, 2, 3], &Shape::U8).unwrap();
    assert_eq!(back, Value::U8(1));
    let rest = de.read_bytes(2).unwrap();
    assert_eq!(rest, vec![2, 3]);
    assert!(de.read_u32().is_err());
    assert_eq!(de.peek_position(), 3);
}

#[test]
fn serializer_instance_encodes_like_the_free_function() {
    let value = Value::Record(vec![Value::U8(9), Value::U32(300)]);
    let mut ser = BytesSerializer::new();
    let bytes = ser.to_bytes(&value).unwrap();
    assert_eq!(bytes, to_bytes(&value).unwrap());
}

#[test]
fn serializer_instance_is_reusable_after_a_successful_encode() {
    let mut ser = BytesSerializer::new();
    let first = ser.to_bytes(&Value::U8(1)).unwrap();
    assert_eq!(first, vec![1]);
    let second = ser.to_bytes(&Value::U32(2)).unwrap();
    assert_eq!(second, vec![2, 0, 0, 0]);
}

#[test]
fn load_truncates_to_the_default_encoding_length() {
    let shape = Shape::Record(vec![Shape::U8, Shape::U32]);
    let default = Value::Record(vec![Value::U8(0), Value::U32(0)]);
    let mut data = to_bytes(&Value::Record(vec![Value::U8(7), Value::U32(300)])).unwrap();
    data.extend_from_slice(&[0xDE, 0xAD, 0xBE]);
    let back = load(data, &default, &shape).unwrap();
    assert_eq!(back, Value::Record(vec![Value::U8(7), Value::U32(300)]));
}

#[test]
fn load_with_an_unsupported_default_fails_fast() {
    let result = load(
        Vec::new(),
        &Value::Unsupported(ScalarKind::Text),
        &Shape::U8,
    );
    assert_eq!(result, Err(Error::Unimplemented));
}

#[test]
fn error_messages_name_each_kind() {
    assert_eq!(Error::Unimplemented.message(), "Unsupported type");
    assert_eq!(Error::InvalidData.message(), "Invalid data");
    assert_eq!(Error::Custom("broken".to_string()).message(), "broken");
}

#[test]
fn error_wraps_a_description() {
    let e = Error::from("bad byte".to_string());
    assert_eq!(e, Error::Custom("bad byte".to_string()));
}

#[test]
fn decode_errors_carry_a_description() {
    let e = from_bytes(&[], &Shape::U8).unwrap_err();
    assert_eq!(e.message(), "Unexpected end of input");
}

#[test]
fn load_of_an_exact_buffer_round_trips() {
    let shape = Shape::Unit;
    let data = to_bytes(&Value::Unit).unwrap();
    let back = load(data, &Value::Unit, &shape).unwrap();
    assert_eq!(back, Value::Unit);
}
