use bittorrent_core::bencode::{decode_bencoded_value, DecodeError, Value};

fn bytestring(b: &[u8]) -> Value {
    Value::ByteString(b.to_vec())
}

#[test]
fn decode_bytestring_spam() {
    let (v, end) = decode_bencoded_value(b"4:spam").unwrap();
    assert_eq!(v, bytestring(b"spam"));
    assert_eq!(end, 6);
}

#[test]
fn decode_negative_integer() {
    let (v, end) = decode_bencoded_value(b"i-3e").unwrap();
    assert_eq!(v, Value::Integer(-3));
    assert_eq!(end, 4);
}

#[test]
fn decode_positive_integer() {
    let (v, end) = decode_bencoded_value(b"i52e").unwrap();
    assert_eq!(v, Value::Integer(52));
    assert_eq!(end, 4);
}

#[test]
fn decode_integer_extremes() {
    let (v, _) = decode_bencoded_value(b"i9223372036854775807e").unwrap();
    assert_eq!(v, Value::Integer(i64::MAX));
    let (v, _) = decode_bencoded_value(b"i-9223372036854775808e").unwrap();
    assert_eq!(v, Value::Integer(i64::MIN));
    assert_eq!(
        decode_bencoded_value(b"i9223372036854775808e"),
        Err(DecodeError::InvalidInteger)
    );
}

#[test]
fn decode_list_two_strings() {
    let (v, end) = decode_bencoded_value(b"l4:spam4:eggse").unwrap();
    assert_eq!(v, Value::List(vec![bytestring(b"spam"), bytestring(b"eggs")]));
    assert_eq!(end, 14);
}

#[test]
fn decode_empty_list() {
    let (v, end) = decode_bencoded_value(b"le").unwrap();
    assert_eq!(v, Value::List(vec![]));
    assert_eq!(end, 2);
}

#[test]
fn decode_dictionary() {
    let (v, end) = decode_bencoded_value(b"d3:cow3:moo4:spam4:eggse").unwrap();
    assert_eq!(
        v,
        Value::Dictionary(vec![
            (b"cow".to_vec(), bytestring(b"moo")),
            (b"spam".to_vec(), bytestring(b"eggs")),
        ])
    );
    assert_eq!(end, 24);
}

#[test]
fn decode_dictionary_non_string_key_fails() {
    assert_eq!(
        decode_bencoded_value(b"di5eei0ee"),
        Err(DecodeError::NonStringDictionaryKey)
    );
}

#[test]
fn decode_duplicate_key_last_write_wins() {
    let (v, _) = decode_bencoded_value(b"d1:ai1e1:bi2e1:ai3ee").unwrap();
    assert_eq!(
        v,
        Value::Dictionary(vec![
            (b"a".to_vec(), Value::Integer(3)),
            (b"b".to_vec(), Value::Integer(2)),
        ])
    );
}

#[test]
fn decode_nested_lists() {
    let (v, end) = decode_bencoded_value(b"lli1eei2ee").unwrap();
    assert_eq!(
        v,
        Value::List(vec![
            Value::List(vec![Value::Integer(1)]),
            Value::Integer(2),
        ])
    );
    assert_eq!(end, 10);
}

#[test]
fn decode_returns_remainder_index() {
    let (v, end) = decode_bencoded_value(b"4:spamextra").unwrap();
    assert_eq!(v, bytestring(b"spam"));
    assert_eq!(end, 6);
    assert_eq!(&b"4:spamextra"[end..], b"extra");
}

#[test]
fn decode_empty_input_fails() {
    assert_eq!(decode_bencoded_value(b""), Err(DecodeError::InvalidPrefix));
}

#[test]
fn decode_unknown_prefix_fails() {
    assert_eq!(decode_bencoded_value(b"x42e"), Err(DecodeError::InvalidPrefix));
}

#[test]
fn decode_unterminated_integer_fails() {
    assert_eq!(
        decode_bencoded_value(b"i42"),
        Err(DecodeError::UnterminatedInteger)
    );
}

#[test]
fn decode_invalid_integer_bodies_fail() {
    assert_eq!(decode_bencoded_value(b"i4x2e"), Err(DecodeError::InvalidInteger));
    assert_eq!(decode_bencoded_value(b"ie"), Err(DecodeError::InvalidInteger));
    assert_eq!(decode_bencoded_value(b"i-e"), Err(DecodeError::InvalidInteger));
    assert_eq!(decode_bencoded_value(b"i+3e"), Err(DecodeError::InvalidInteger));
}

#[test]
fn decode_truncated_string_fails() {
    assert_eq!(
        decode_bencoded_value(b"10:abc"),
        Err(DecodeError::TruncatedString)
    );
}

#[test]
fn decode_missing_colon_fails() {
    assert_eq!(
        decode_bencoded_value(b"4spam"),
        Err(DecodeError::InvalidStringLength)
    );
    assert_eq!(decode_bencoded_value(b"123"), Err(DecodeError::InvalidStringLength));
}

#[test]
fn decode_unterminated_list_fails() {
    assert_eq!(
        decode_bencoded_value(b"l4:spam"),
        Err(DecodeError::UnterminatedList)
    );
}

#[test]
fn decode_unterminated_dictionary_fails() {
    assert_eq!(
        decode_bencoded_value(b"d3:cow3:moo"),
        Err(DecodeError::UnterminatedDictionary)
    );
}
