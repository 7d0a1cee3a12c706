use bencode::{
    decode_bencoded_value, decode_int, decode_list, decode_string, decode_type_to_serde_json,
    decode_value, get_colon_idx_and_num, DecodeError, DecodedType,
};
use serde_json::Value;

fn text(s: &str) -> DecodedType {
    DecodedType::String(s.as_bytes().to_vec())
}

fn decode(s: &str) -> Result<(DecodedType, usize), DecodeError> {
    decode_value(s.as_bytes(), 0)
}

fn json(s: &str) -> String {
    decode_bencoded_value(s).unwrap().to_string()
}

#[test]
fn string_yields_payload_and_consumes_header() {
    assert_eq!(decode("5:hello"), Ok((text("hello"), 7)));
    assert_eq!(decode("0:"), Ok((text(""), 2)));
    assert_eq!(decode("10:abcdefghij"), Ok((text("abcdefghij"), 13)));
}

#[test]
fn string_payload_may_hold_any_byte() {
    assert_eq!(decode("3:a:e"), Ok((text("a:e"), 5)));
    let bytes: Vec<u8> = vec![b'2', b':', 0, 255];
    assert_eq!(decode_value(&bytes, 0), Ok((DecodedType::String(vec![0, 255]), 4)));
}

#[test]
fn integer_yields_its_value() {
    assert_eq!(decode("i52e"), Ok((DecodedType::Number(52), 4)));
    assert_eq!(decode("i-52e"), Ok((DecodedType::Number(-52), 5)));
    assert_eq!(decode("i0e"), Ok((DecodedType::Number(0), 3)));
    assert_eq!(decode("i9223372036854775807e"), Ok((DecodedType::Number(i64::MAX), 21)));
    assert_eq!(decode("i-9223372036854775808e"), Ok((DecodedType::Number(i64::MIN), 22)));
}

#[test]
fn integer_accepts_plus_sign_and_leading_zeros() {
    assert_eq!(decode("i+7e"), Ok((DecodedType::Number(7), 4)));
    assert_eq!(decode("i03e"), Ok((DecodedType::Number(3), 4)));
    assert_eq!(decode("i-0e"), Ok((DecodedType::Number(0), 4)));
}

#[test]
fn integer_out_of_range_fails() {
    assert_eq!(decode("i9223372036854775808e"), Err(DecodeError::MalformedInteger));
    assert_eq!(decode("i-9223372036854775809e"), Err(DecodeError::MalformedInteger));
    assert_eq!(decode("i123456789012345678901234567890e"), Err(DecodeError::MalformedInteger));
}

#[test]
fn list_keeps_order() {
    assert_eq!(
        decode("l5:helloi52ee"),
        Ok((DecodedType::List(vec![text("hello"), DecodedType::Number(52)]), 13))
    );
    assert_eq!(
        decode("li1ei2ei3ee"),
        Ok((
            DecodedType::List(vec![
                DecodedType::Number(1),
                DecodedType::Number(2),
                DecodedType::Number(3)
            ]),
            11
        ))
    );
}

#[test]
fn empty_list() {
    assert_eq!(decode("le"), Ok((DecodedType::List(vec![]), 2)));
}

#[test]
fn nested_lists() {
    assert_eq!(
        decode("lli4eee"),
        Ok((DecodedType::List(vec![DecodedType::List(vec![DecodedType::Number(4)])]), 7))
    );
    assert_eq!(
        decode("llelee"),
        Ok((DecodedType::List(vec![DecodedType::List(vec![]), DecodedType::List(vec![])]), 6))
    );
}

#[test]
fn trailing_bytes_are_ignored() {
    assert_eq!(decode("i1eXYZ"), Ok((DecodedType::Number(1), 3)));
    assert_eq!(json("4:spamextra"), "\"spam\"");
}

#[test]
fn presented_round_trip_samples() {
    assert_eq!(decode_bencoded_value("5:hello"), Ok(Value::String("hello".to_string())));
    assert_eq!(decode_bencoded_value("i52e"), Ok(Value::from(52i64)));
    assert_eq!(decode_bencoded_value("i-52e"), Ok(Value::from(-52i64)));
    assert_eq!(
        decode_bencoded_value("l5:helloi52ee"),
        Ok(Value::Array(vec![Value::String("hello".to_string()), Value::from(52i64)]))
    );
    assert_eq!(json("l5:helloi52ee"), "[\"hello\",52]");
    assert_eq!(json("lli4eee"), "[[4]]");
    assert_eq!(json("le"), "[]");
}

#[test]
fn malformed_inputs_fail() {
    assert_eq!(decode_bencoded_value("5:hel"), Err(DecodeError::MalformedLength));
    assert_eq!(decode_bencoded_value("i52"), Err(DecodeError::MalformedInteger));
    assert_eq!(decode_bencoded_value("l5:helloi52e"), Err(DecodeError::UnterminatedList));
    assert_eq!(decode_bencoded_value(""), Err(DecodeError::EmptyInput));
    assert_eq!(decode_bencoded_value("x"), Err(DecodeError::UnrecognizedLeadByte));
}

#[test]
fn malformed_length_cases() {
    assert_eq!(decode("5hello"), Err(DecodeError::MalformedLength));
    assert_eq!(decode("5"), Err(DecodeError::MalformedLength));
    assert_eq!(decode("1a:x"), Err(DecodeError::MalformedLength));
    assert_eq!(decode("99999999999999999999999999:x"), Err(DecodeError::MalformedLength));
}

#[test]
fn malformed_integer_cases() {
    assert_eq!(decode("ie"), Err(DecodeError::MalformedInteger));
    assert_eq!(decode("i-e"), Err(DecodeError::MalformedInteger));
    assert_eq!(decode("i5x2e"), Err(DecodeError::MalformedInteger));
    assert_eq!(decode("i"), Err(DecodeError::MalformedInteger));
}

#[test]
fn unterminated_and_unrecognized_cases() {
    assert_eq!(decode("l"), Err(DecodeError::UnterminatedList));
    assert_eq!(decode("lli1ee"), Err(DecodeError::UnterminatedList));
    assert_eq!(decode("lxe"), Err(DecodeError::UnrecognizedLeadByte));
    assert_eq!(decode("d3:fooe"), Err(DecodeError::UnrecognizedLeadByte));
    assert_eq!(decode("l5:hel"), Err(DecodeError::MalformedLength));
}

#[test]
fn header_reader() {
    assert_eq!(get_colon_idx_and_num(b"5:hello", 0), Ok((1, 5)));
    assert_eq!(get_colon_idx_and_num(b"xx12:", 2), Ok((4, 12)));
    assert_eq!(get_colon_idx_and_num(b":", 0), Err(DecodeError::MalformedLength));
    assert_eq!(get_colon_idx_and_num(b"12", 0), Err(DecodeError::MalformedLength));
}

#[test]
fn kind_decoders_at_offsets() {
    let s = b"li7e3:abce";
    assert_eq!(decode_int(s, 1), Ok((DecodedType::Number(7), 4)));
    assert_eq!(decode_string(s, 4), Ok((text("abc"), 9)));
    assert_eq!(decode_int(s, 0), Err(DecodeError::MalformedInteger));
    assert_eq!(decode_list(s, 1), Err(DecodeError::UnrecognizedLeadByte));
    assert_eq!(
        decode_list(s, 0),
        Ok((DecodedType::List(vec![DecodedType::Number(7), text("abc")]), 10))
    );
}

#[test]
fn presenter_maps_each_kind() {
    assert_eq!(decode_type_to_serde_json(&text("hi")), Value::String("hi".to_string()));
    assert_eq!(decode_type_to_serde_json(&DecodedType::Number(-3)), Value::from(-3i64));
    assert_eq!(
        decode_type_to_serde_json(&DecodedType::List(vec![text("a"), DecodedType::List(vec![])])),
        Value::Array(vec![Value::String("a".to_string()), Value::Array(vec![])])
    );
}

#[test]
fn presenter_replaces_invalid_utf8() {
    let v = DecodedType::String(vec![b'a', 0xff]);
    assert_eq!(decode_type_to_serde_json(&v), Value::String("a\u{fffd}".to_string()));
}
