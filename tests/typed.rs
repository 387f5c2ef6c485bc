use trendt_bencode::error::{unsupported_enum, unsupported_float};
use trendt_bencode::{Deserializer, Error, Kind, Serializer};

#[test]
fn deserialize_integer() {
    let mut de = Deserializer::new(b"i42e");
    assert_eq!(de.parse_integer().unwrap(), 42);
}

#[test]
fn deserialize_string() {
    let mut de = Deserializer::new(b"4:spam");
    let bytes = de.parse_byte_string().unwrap();
    assert_eq!(std::str::from_utf8(bytes).unwrap(), "spam");
}

#[test]
fn deserialize_vec() {
    let mut de = Deserializer::new(b"li1ei2ei3ee");
    de.begin_list().unwrap();
    let mut v = Vec::new();
    while !de.at_end().unwrap() {
        v.push(de.parse_integer().unwrap());
    }
    de.end_container().unwrap();
    assert_eq!(v, vec![1, 2, 3]);
}

#[derive(Debug, PartialEq)]
struct Person {
    name: String,
    age: i64,
}

fn read_person(input: &[u8]) -> Result<Person, Error> {
    let mut de = Deserializer::new(input);
    de.begin_dict()?;
    let mut name = None;
    let mut age = None;
    while !de.at_end()? {
        let key = de.parse_byte_string()?;
        match key {
            b"name" => {
                let b = de.parse_byte_string()?;
                name = Some(String::from_utf8(b.to_vec()).unwrap());
            }
            b"age" => age = Some(de.parse_integer()?),
            _ => de.skip_value()?,
        }
    }
    de.end_container()?;
    Ok(Person {
        name: name.ok_or(Error::Message("missing field `name`".to_string()))?,
        age: age.ok_or(Error::Message("missing field `age`".to_string()))?,
    })
}

#[test]
fn deserialize_struct() {
    let p = read_person(b"d3:agei25e4:name5:Alicee").unwrap();
    assert_eq!(
        p,
        Person {
            name: "Alice".into(),
            age: 25
        }
    );
}

#[test]
fn deserialize_struct_skips_unknown_fields() {
    let p = read_person(b"d3:agei25e5:extrali1ei2ee4:name5:Alicee").unwrap();
    assert_eq!(p.age, 25);
    assert_eq!(
        read_person(b"d3:agei25ee"),
        Err(Error::Message("missing field `name`".to_string()))
    );
}

#[test]
fn peek_kind_classifies() {
    assert_eq!(Deserializer::new(b"i1e").peek_kind(), Ok(Kind::Integer));
    assert_eq!(Deserializer::new(b"1:a").peek_kind(), Ok(Kind::ByteString));
    assert_eq!(Deserializer::new(b"le").peek_kind(), Ok(Kind::List));
    assert_eq!(Deserializer::new(b"de").peek_kind(), Ok(Kind::Dict));
    assert_eq!(Deserializer::new(b"x").peek_kind(), Err(Error::InvalidCharacter(b'x')));
    assert_eq!(Deserializer::new(b"").peek_kind(), Err(Error::UnexpectedEof));
}

#[test]
fn typed_integer_rules_match_raw() {
    assert_eq!(Deserializer::new(b"i03e").parse_integer(), Err(Error::InvalidInteger));
    assert_eq!(Deserializer::new(b"i-0e").parse_integer(), Err(Error::InvalidInteger));
}

#[test]
fn serialize_integer() {
    let mut s = Serializer::new();
    s.serialize_i64(42);
    assert_eq!(s.into_bytes(), b"i42e");
    let mut s = Serializer::new();
    s.serialize_i64(-3);
    assert_eq!(s.into_bytes(), b"i-3e");
}

#[test]
fn serialize_string() {
    let mut s = Serializer::new();
    s.serialize_bytes("spam".as_bytes());
    assert_eq!(s.into_bytes(), b"4:spam");
    let mut s = Serializer::new();
    s.serialize_bytes(String::from("hello").as_bytes());
    assert_eq!(s.into_bytes(), b"5:hello");
}

#[test]
fn serialize_vec() {
    let mut s = Serializer::new();
    s.serialize_seq();
    for v in [1i64, 2, 3] {
        s.serialize_i64(v);
    }
    s.end_seq();
    assert_eq!(s.into_bytes(), b"li1ei2ei3ee");
}

fn int_bytes(v: i64) -> Vec<u8> {
    let mut s = Serializer::new();
    s.serialize_i64(v);
    s.into_bytes()
}

fn str_bytes(v: &str) -> Vec<u8> {
    let mut s = Serializer::new();
    s.serialize_bytes(v.as_bytes());
    s.into_bytes()
}

#[test]
fn serialize_struct() {
    let mut s = Serializer::new();
    let mut map = s.serialize_map();
    map.serialize_field(b"age", int_bytes(25)).unwrap();
    map.serialize_field(b"name", str_bytes("Alice")).unwrap();
    map.end(&mut s);
    assert_eq!(s.into_bytes(), b"d3:agei25e4:name5:Alicee");
}

#[test]
fn serialize_struct_unsorted_fields() {
    let mut s = Serializer::new();
    let mut map = s.serialize_map();
    map.serialize_field(b"zebra", int_bytes(1)).unwrap();
    map.serialize_field(b"apple", int_bytes(2)).unwrap();
    map.end(&mut s);
    assert_eq!(s.into_bytes(), b"d5:applei2e5:zebrai1ee");
}

#[test]
fn absent_optional_field_is_omitted() {
    let mut s = Serializer::new();
    let mut map = s.serialize_map();
    map.serialize_field(b"comment", Vec::new()).unwrap();
    map.serialize_field(b"announce", str_bytes("x")).unwrap();
    map.end(&mut s);
    assert_eq!(s.into_bytes(), b"d8:announce1:xe");
}

#[test]
fn key_value_pairing_misuse() {
    let mut s = Serializer::new();
    let mut map = s.serialize_map();
    assert!(matches!(map.serialize_value(int_bytes(1)), Err(Error::Message(_))));
    map.serialize_key(str_bytes("a")).unwrap();
    assert!(matches!(map.serialize_key(str_bytes("b")), Err(Error::Message(_))));
    map.serialize_value(int_bytes(1)).unwrap();
    map.end(&mut s);
    assert_eq!(s.into_bytes(), b"d1:ai1ee");
}

#[test]
fn equal_keys_keep_their_order() {
    let mut s = Serializer::new();
    let mut map = s.serialize_map();
    map.serialize_field(b"k", int_bytes(1)).unwrap();
    map.serialize_field(b"a", int_bytes(0)).unwrap();
    map.serialize_field(b"k", int_bytes(2)).unwrap();
    map.end(&mut s);
    assert_eq!(s.into_bytes(), b"d1:ai0e1:ki1e1:ki2ee");
}

#[test]
fn serialize_bool_as_integer() {
    let mut s = Serializer::new();
    s.serialize_bool(true);
    s.serialize_bool(false);
    assert_eq!(s.into_bytes(), b"i1ei0e");
}

#[test]
fn unsupported_shapes() {
    assert_eq!(
        unsupported_float(),
        Error::Message("bencode does not support floats".to_string())
    );
    assert_eq!(
        unsupported_enum(),
        Error::Message("bencode does not support enums".to_string())
    );
}

#[derive(Debug, PartialEq)]
struct Entry {
    announce: String,
    comment: Option<String>,
}

fn read_entry(input: &[u8]) -> Result<Entry, Error> {
    let mut de = Deserializer::new(input);
    de.begin_dict()?;
    let mut announce = None;
    let mut comment = None;
    while !de.at_end()? {
        let key = de.parse_byte_string()?;
        match key {
            b"announce" => announce = Some(String::from_utf8(de.parse_byte_string()?.to_vec()).unwrap()),
            b"comment" => comment = Some(String::from_utf8(de.parse_byte_string()?.to_vec()).unwrap()),
            _ => de.skip_value()?,
        }
    }
    de.end_container()?;
    Ok(Entry {
        announce: announce.ok_or(Error::Message("missing field `announce`".to_string()))?,
        comment,
    })
}

fn write_entry(e: &Entry) -> Vec<u8> {
    let mut s = Serializer::new();
    let mut map = s.serialize_map();
    map.serialize_field(b"announce", str_bytes(&e.announce)).unwrap();
    let comment = match &e.comment {
        Some(c) => str_bytes(c),
        None => Vec::new(),
    };
    map.serialize_field(b"comment", comment).unwrap();
    map.end(&mut s);
    s.into_bytes()
}

#[test]
fn optional_field_round_trip() {
    let e = read_entry(b"d8:announce3:urle").unwrap();
    assert_eq!(
        e,
        Entry {
            announce: "url".to_string(),
            comment: None
        }
    );
    assert_eq!(write_entry(&e), b"d8:announce3:urle");
    let full = read_entry(b"d8:announce3:url7:comment2:hie").unwrap();
    assert_eq!(full.comment, Some("hi".to_string()));
    assert_eq!(write_entry(&full), b"d8:announce3:url7:comment2:hie");
}

#[test]
fn skip_value_checks_what_it_skips() {
    let mut de = Deserializer::new(b"d1:xi03ee");
    de.begin_dict().unwrap();
    de.parse_byte_string().unwrap();
    assert_eq!(de.skip_value(), Err(Error::InvalidInteger));
    let mut de = Deserializer::new(b"li1e4:spamei7e");
    de.skip_value().unwrap();
    assert_eq!(de.position(), 11);
    assert_eq!(de.parse_integer(), Ok(7));
}

#[test]
fn keys_sort_by_their_bytes_not_their_encoding() {
    let mut s = Serializer::new();
    let mut map = s.serialize_map();
    map.serialize_key(str_bytes("comment")).unwrap();
    map.serialize_value(str_bytes("hi")).unwrap();
    map.serialize_key(str_bytes("announce")).unwrap();
    map.serialize_value(str_bytes("url")).unwrap();
    map.end(&mut s);
    let out = s.into_bytes();
    assert_eq!(out, b"d8:announce3:url7:comment2:hie");
    assert!(trendt_bencode::decode(&out).is_ok());
}

#[test]
fn key_must_be_one_byte_string() {
    let mut s = Serializer::new();
    let mut map = s.serialize_map();
    assert_eq!(map.serialize_key(int_bytes(1)), Err(Error::InvalidDictKey));
    assert_eq!(map.serialize_key(b"1:ab".to_vec()), Err(Error::InvalidDictKey));
    map.serialize_key(b"1:a".to_vec()).unwrap();
    map.serialize_value(int_bytes(5)).unwrap();
    map.end(&mut s);
    assert_eq!(s.into_bytes(), b"d1:ai5ee");
}

#[test]
fn pairing_misuse_messages() {
    let mut map = Serializer::new().serialize_map();
    assert_eq!(
        map.serialize_value(int_bytes(1)),
        Err(Error::Message("serialize_value called before serialize_key".to_string()))
    );
    map.serialize_key(str_bytes("a")).unwrap();
    assert_eq!(
        map.serialize_key(str_bytes("b")),
        Err(Error::Message("serialize_key called twice".to_string()))
    );
    assert_eq!(
        map.serialize_field(b"c", int_bytes(2)),
        Err(Error::Message("serialize_key called twice".to_string()))
    );
}

#[test]
fn three_fields_in_any_order() {
    let fields: [(&[u8], i64); 3] = [(b"zebra", 1), (b"apple", 2), (b"mango", 3)];
    let orders = [[0, 1, 2], [2, 1, 0], [1, 2, 0], [2, 0, 1]];
    for order in orders {
        let mut s = Serializer::new();
        let mut map = s.serialize_map();
        for i in order {
            let (k, v) = fields[i];
            map.serialize_field(k, int_bytes(v)).unwrap();
        }
        map.end(&mut s);
        assert_eq!(s.into_bytes(), b"d5:applei2e5:mangoi3e5:zebrai1ee");
    }
}
