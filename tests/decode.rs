use trendt_bencode::{decode, Decoder, Error, Value};

#[test]
fn decode_positive_integer() {
    let mut decoder = Decoder::new(b"i42e");
    assert_eq!(decoder.decode_integer().unwrap(), 42);
}

#[test]
fn decode_negative_integer() {
    let mut decoder = Decoder::new(b"i-3e");
    assert_eq!(decoder.decode_integer().unwrap(), -3);
}

#[test]
fn decode_zero() {
    let mut decoder = Decoder::new(b"i0e");
    assert_eq!(decoder.decode_integer().unwrap(), 0);
}

#[test]
fn reject_leading_zero() {
    let mut decoder = Decoder::new(b"i03e");
    assert!(decoder.decode_integer().is_err());
}

#[test]
fn reject_negative_zero() {
    let mut decoder = Decoder::new(b"i-0e");
    assert!(decoder.decode_integer().is_err());
}

#[test]
fn decode_byte_string_simple() {
    let mut decoder = Decoder::new(b"4:spam");
    assert_eq!(decoder.decode_byte_string().unwrap(), b"spam");
}

#[test]
fn decode_byte_string_empty() {
    let mut decoder = Decoder::new(b"0:");
    assert_eq!(decoder.decode_byte_string().unwrap(), b"");
}

#[test]
fn decode_byte_string_with_binary() {
    let mut decoder = Decoder::new(b"3:\x00\x01\x02");
    assert_eq!(decoder.decode_byte_string().unwrap(), vec![0, 1, 2]);
}

#[test]
fn decode_empty_list() {
    let mut decoder = Decoder::new(b"le");
    assert_eq!(decoder.decode_value().unwrap(), Value::List(vec![]));
}

#[test]
fn decode_list_of_integers() {
    let mut decoder = Decoder::new(b"li1ei2ei3ee");
    let expected = Value::List(vec![
        Value::Integer(1),
        Value::Integer(2),
        Value::Integer(3),
    ]);
    assert_eq!(decoder.decode_value().unwrap(), expected);
}

#[test]
fn decode_list_mixed() {
    let mut decoder = Decoder::new(b"l4:spami42ee");
    let expected = Value::List(vec![
        Value::ByteString(b"spam".to_vec()),
        Value::Integer(42),
    ]);
    assert_eq!(decoder.decode_value().unwrap(), expected);
}

#[test]
fn decode_nested_list() {
    let mut decoder = Decoder::new(b"lli1eee");
    let expected = Value::List(vec![Value::List(vec![Value::Integer(1)])]);
    assert_eq!(decoder.decode_value().unwrap(), expected);
}

#[test]
fn reject_empty_integer() {
    let mut decoder = Decoder::new(b"ie");
    assert_eq!(decoder.decode_integer(), Err(Error::InvalidInteger));
    assert_eq!(Decoder::new(b"i03e").decode_value(), Err(Error::InvalidInteger));
    assert_eq!(Decoder::new(b"i-0e").decode_value(), Err(Error::InvalidInteger));
}

#[test]
fn reject_plus_sign_and_junk_in_integer() {
    assert_eq!(Decoder::new(b"i+5e").decode_value(), Err(Error::InvalidInteger));
    assert_eq!(Decoder::new(b"i1x2e").decode_value(), Err(Error::InvalidInteger));
    assert_eq!(Decoder::new(b"i-e").decode_value(), Err(Error::InvalidInteger));
}

#[test]
fn integer_limits() {
    assert_eq!(
        Decoder::new(b"i9223372036854775807e").decode_integer(),
        Ok(i64::MAX)
    );
    assert_eq!(
        Decoder::new(b"i-9223372036854775808e").decode_integer(),
        Ok(i64::MIN)
    );
    assert_eq!(
        Decoder::new(b"i9223372036854775808e").decode_integer(),
        Err(Error::InvalidInteger)
    );
    assert_eq!(
        Decoder::new(b"i-9223372036854775809e").decode_integer(),
        Err(Error::InvalidInteger)
    );
}

#[test]
fn integer_without_end_is_eof() {
    assert_eq!(Decoder::new(b"i12").decode_value(), Err(Error::UnexpectedEof));
    assert_eq!(Decoder::new(b"").decode_value(), Err(Error::UnexpectedEof));
}

#[test]
fn sorted_keys_accepted() {
    let expected = Value::Dict(vec![
        (b"aa".to_vec(), Value::Integer(2)),
        (b"bb".to_vec(), Value::Integer(1)),
    ]);
    assert_eq!(decode(b"d2:aai2e2:bbi1ee"), Ok((expected, 16)));
    // With a length prefix of 3 the keys read as `aai` and `bbi`, and the
    // byte after the next length digit is no colon.
    assert_eq!(decode(b"d3:aai2e3:bbi1ee"), Err(Error::InvalidCharacter(b'e')));
    assert_eq!(decode(b"d3:bbi1e3:aai2ee"), Err(Error::InvalidCharacter(b'e')));
}

#[test]
fn unsorted_keys_rejected() {
    assert_eq!(decode(b"d2:bbi1e2:aai2ee"), Err(Error::UnsortedDictKeys));
    assert_eq!(decode(b"d1:ai1e1:ai2ee"), Err(Error::UnsortedDictKeys));
}

#[test]
fn dict_key_must_be_byte_string() {
    assert_eq!(decode(b"di1ei2ee"), Err(Error::InvalidDictKey));
}

#[test]
fn byte_string_errors() {
    assert_eq!(decode(b"5:abc"), Err(Error::UnexpectedEof));
    assert_eq!(decode(b"3x:abc"), Err(Error::InvalidCharacter(b'x')));
    assert_eq!(decode(b"03:abc"), Err(Error::InvalidCharacter(b'0')));
    assert_eq!(decode(b"12"), Err(Error::UnexpectedEof));
    assert_eq!(
        decode(b"99999999999999999999999999:a"),
        Err(Error::UnexpectedEof)
    );
    assert_eq!(Decoder::new(b":").decode_byte_string(), Err(Error::InvalidCharacter(0)));
}

#[test]
fn invalid_leading_byte() {
    assert_eq!(decode(b"x"), Err(Error::InvalidCharacter(b'x')));
    assert_eq!(decode(b"l"), Err(Error::UnexpectedEof));
}

#[test]
fn trailing_bytes_are_left() {
    assert_eq!(decode(b"i1eXYZ"), Ok((Value::Integer(1), 3)));
}
