use trendt_bencode::{decode, encode, Decoder, Value};

#[test]
fn encode_integer() {
    assert_eq!(encode(&Value::Integer(42)), b"i42e");
    assert_eq!(encode(&Value::Integer(-3)), b"i-3e");
    assert_eq!(encode(&Value::Integer(0)), b"i0e");
}

#[test]
fn encode_byte_string() {
    assert_eq!(encode(&Value::ByteString(b"spam".to_vec())), b"4:spam");
    assert_eq!(encode(&Value::ByteString(vec![])), b"0:");
}

#[test]
fn encode_list() {
    let list = Value::List(vec![Value::Integer(1), Value::Integer(2)]);
    assert_eq!(encode(&list), b"li1ei2ee");
}

#[test]
fn encode_empty_list() {
    assert_eq!(encode(&Value::List(vec![])), b"le");
}

#[test]
fn encode_dict() {
    let map = vec![(b"foo".to_vec(), Value::Integer(1))];
    assert_eq!(encode(&Value::Dict(map)), b"d3:fooi1ee");
}

#[test]
fn encode_empty_dict() {
    assert_eq!(encode(&Value::Dict(vec![])), b"de");
}

#[test]
fn round_trip() {
    let original = b"d3:bar4:spam3:fooli1ei2eee";
    let mut decoder = Decoder::new(original);
    let value = decoder.decode_value().unwrap();
    let encoded = encode(&value);
    assert_eq!(encoded, original);
}

#[test]
fn encode_integer_extremes() {
    assert_eq!(encode(&Value::Integer(i64::MIN)), b"i-9223372036854775808e");
    assert_eq!(encode(&Value::Integer(i64::MAX)), b"i9223372036854775807e");
    assert_eq!(encode(&Value::Integer(10)), b"i10e");
    assert_eq!(encode(&Value::Integer(-100)), b"i-100e");
}

#[test]
fn encode_long_byte_string_length() {
    let data = vec![b'x'; 123];
    let out = encode(&Value::ByteString(data.clone()));
    assert_eq!(&out[..4], b"123:");
    assert_eq!(&out[4..], &data[..]);
}

#[test]
fn value_round_trip() {
    let v = Value::Dict(vec![
        (b"a".to_vec(), Value::List(vec![Value::Integer(-7), Value::ByteString(vec![0, 255])])),
        (b"b".to_vec(), Value::Dict(vec![])),
        (b"ba".to_vec(), Value::Integer(0)),
    ]);
    let bytes = encode(&v);
    let (back, used) = decode(&bytes).unwrap();
    assert_eq!(used, bytes.len());
    assert_eq!(back, v);
}

#[test]
fn nested_list_scenario() {
    assert_eq!(
        decode(b"lli1eee").unwrap().0,
        Value::List(vec![Value::List(vec![Value::Integer(1)])])
    );
    assert_eq!(decode(b"le").unwrap().0, Value::List(vec![]));
    assert_eq!(
        decode(b"3:\x00\x01\x02").unwrap().0,
        Value::ByteString(vec![0, 1, 2])
    );
    assert_eq!(decode(b"0:").unwrap().0, Value::ByteString(vec![]));
}
