use bittorrent::bencode::{decode, decode_prefix, encode, DecodeError, Value};

fn bs(s: &str) -> Value {
    Value::ByteString(s.as_bytes().to_vec())
}

#[test]
fn decode_byte_string() {
    let r = decode(&b"5:hello".to_vec()).unwrap();
    assert_eq!(r, bs("hello"));
}

#[test]
fn decode_byte_string_missing_colon() {
    let r = decode(&b"5hello".to_vec());
    assert_eq!(r.unwrap_err(), DecodeError::MissingDelimiter);
}

#[test]
fn decode_byte_string_bad_length_prefix() {
    let r = decode(&b"5a:hello".to_vec());
    assert_eq!(r.unwrap_err(), DecodeError::InvalidNumber);
}

#[test]
fn decode_byte_string_truncated() {
    let r = decode(&b"6:hello".to_vec());
    assert_eq!(r.unwrap_err(), DecodeError::InvalidLength);
}

#[test]
fn decode_integer() {
    assert_eq!(decode(&b"i52e".to_vec()).unwrap(), Value::Integer(52));
}

#[test]
fn decode_negative_integer() {
    assert_eq!(decode(&b"i-52e".to_vec()).unwrap(), Value::Integer(-52));
}

#[test]
fn decode_integer_missing_end() {
    assert_eq!(decode(&b"i52".to_vec()).unwrap_err(), DecodeError::MissingDelimiter);
}

#[test]
fn decode_integer_bad_digits() {
    assert_eq!(decode(&b"i52ae".to_vec()).unwrap_err(), DecodeError::InvalidNumber);
}

#[test]
fn decode_integer_extremes() {
    assert_eq!(
        decode(&b"i9223372036854775807e".to_vec()).unwrap(),
        Value::Integer(i64::MAX)
    );
    assert_eq!(
        decode(&b"i-9223372036854775808e".to_vec()).unwrap(),
        Value::Integer(i64::MIN)
    );
    assert_eq!(
        decode(&b"i9223372036854775808e".to_vec()).unwrap_err(),
        DecodeError::InvalidNumber
    );
    assert_eq!(decode(&b"i-e".to_vec()).unwrap_err(), DecodeError::InvalidNumber);
    assert_eq!(decode(&b"ie".to_vec()).unwrap_err(), DecodeError::InvalidNumber);
}

#[test]
fn decode_list() {
    let r = decode(&b"l5:helloi52ee".to_vec()).unwrap();
    assert_eq!(r, Value::List(vec![bs("hello"), Value::Integer(52)]));
}

#[test]
fn decode_list_truncated() {
    let r = decode(&b"l5:helloi52e".to_vec());
    assert_eq!(r.unwrap_err(), DecodeError::MissingDelimiter);
}

#[test]
fn decode_dictionary() {
    let r = decode(&b"d3:foo3:bar5:helloi52ee".to_vec()).unwrap();
    assert_eq!(
        r,
        Value::Dictionary(vec![
            (b"foo".to_vec(), bs("bar")),
            (b"hello".to_vec(), Value::Integer(52)),
        ])
    );
}

#[test]
fn decode_dictionary_integer_key() {
    let r = decode(&b"di1e3:fooe".to_vec());
    assert_eq!(r.unwrap_err(), DecodeError::InvalidKey);
}

#[test]
fn decode_empty_input() {
    assert_eq!(decode(&Vec::new()).unwrap_err(), DecodeError::EmptyInput);
}

#[test]
fn decode_prefix_reports_consumed() {
    let (v, end) = decode_prefix(&b"4:spamtrailing".to_vec()).unwrap();
    assert_eq!(v, bs("spam"));
    assert_eq!(end, 6);
}

#[test]
fn encode_byte_string() {
    assert_eq!(encode(&bs("hello")), b"5:hello".to_vec());
    assert_eq!(encode(&bs("")), b"0:".to_vec());
}

#[test]
fn encode_integer() {
    assert_eq!(encode(&Value::Integer(52)), b"i52e".to_vec());
    assert_eq!(encode(&Value::Integer(-52)), b"i-52e".to_vec());
    assert_eq!(encode(&Value::Integer(0)), b"i0e".to_vec());
    assert_eq!(
        encode(&Value::Integer(i64::MIN)),
        b"i-9223372036854775808e".to_vec()
    );
}

#[test]
fn encode_nested() {
    let v = Value::Dictionary(vec![
        (b"a".to_vec(), Value::List(vec![Value::Integer(1), bs("x")])),
        (b"b".to_vec(), Value::Integer(-3)),
    ]);
    assert_eq!(encode(&v), b"d1:ali1e1:xe1:bi-3ee".to_vec());
}

#[test]
fn round_trip_canonical_inputs() {
    let canonical: [&[u8]; 7] = [
        b"5:hello",
        b"i52e",
        b"i-1e",
        b"le",
        b"de",
        b"l5:helloi52ee",
        b"d3:foo3:bar5:helloi52ee",
    ];
    for b in canonical {
        let v = decode(&b.to_vec()).unwrap();
        assert_eq!(encode(&v), b.to_vec());
    }
}

#[test]
fn round_trip_decode_of_encode() {
    let values = vec![
        bs(""),
        Value::Integer(7),
        Value::List(vec![Value::List(vec![bs("deep")]), Value::Integer(-9)]),
        Value::Dictionary(vec![(b"k".to_vec(), Value::Dictionary(Vec::new()))]),
    ];
    for v in values {
        let b = encode(&v);
        assert_eq!(decode(&b).unwrap(), v);
    }
}

#[test]
fn non_canonical_integer_does_not_round_trip() {
    let v = decode(&b"i052e".to_vec()).unwrap();
    assert_eq!(v, Value::Integer(52));
    assert_eq!(encode(&v), b"i52e".to_vec());
}

#[test]
fn dictionary_key_order_is_preserved() {
    let input = b"d1:bi1e1:ai2ee".to_vec();
    let v = decode(&input).unwrap();
    assert_eq!(encode(&v), input);
}

#[test]
fn decode_empty_byte_string() {
    assert_eq!(decode(&b"0:".to_vec()).unwrap(), bs(""));
}

#[test]
fn decode_bare_list_open() {
    assert_eq!(decode(&b"l".to_vec()).unwrap_err(), DecodeError::MissingDelimiter);
    assert_eq!(decode(&b"d".to_vec()).unwrap_err(), DecodeError::MissingDelimiter);
}

#[test]
fn decode_dictionary_truncated_after_key() {
    assert_eq!(decode(&b"d3:foo".to_vec()).unwrap_err(), DecodeError::EmptyInput);
}

#[test]
fn decode_integer_leading_plus_is_rejected() {
    assert_eq!(decode(&b"i+5e".to_vec()).unwrap_err(), DecodeError::InvalidNumber);
}

#[test]
fn errors_propagate_out_of_nesting() {
    assert_eq!(decode(&b"l5:helloi52aee".to_vec()).unwrap_err(), DecodeError::InvalidNumber);
    assert_eq!(decode(&b"d3:foo7:shorte".to_vec()).unwrap_err(), DecodeError::InvalidLength);
}
