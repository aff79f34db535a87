use eterm::decoder::DecodeError;
use eterm::decoder::Decoder;
use eterm::decoder::RawTerm;

#[test]
fn small_int_ext() {
    let mut d = Decoder::from(vec![131, 97, 42]);
    if let RawTerm::SmallInt(i) = d.decode().unwrap() {
        assert_eq!(i, 42);
    } else {
        assert!(false);
    }
}

#[test]
fn integer_ext() {
    let mut d = Decoder::from(vec![131, 98, 0, 0, 0, 42]);
    if let RawTerm::Int(i) = d.decode().unwrap() {
        assert_eq!(i, 42);
    } else {
        assert!(false);
    }
}

#[test]
fn float_ext() {
    // The float kind is recognized but carries no term in this decoder.
    let mut d = Decoder::from(vec![131, 99]);
    assert_eq!(d.decode(), Err(DecodeError::NotImplemented(99)));
}

#[test]
fn port_ext() {
    let mut d = Decoder::from(vec![
        131, 102, 100, 0, 13, 110, 111, 110, 111, 100, 101, 64, 110, 111, 104, 111, 115, 116, 0,
        0, 0, 6, 0,
    ]);
    if let RawTerm::Port { node, id, creation } = d.decode().unwrap() {
        assert_eq!(node, Box::new(RawTerm::Atom("nonode@nohost".to_string())));
        assert_eq!(id, 6);
        assert_eq!(creation, 0);
    } else {
        assert!(false);
    }
}

#[test]
fn new_port_ext() {
    let mut d = Decoder::from(vec![
        131, 89, 100, 0, 13, 110, 111, 110, 111, 100, 101, 64, 110, 111, 104, 111, 115, 116, 0, 0,
        0, 6, 0, 0, 0, 0,
    ]);
    if let RawTerm::NewPort { node, id, creation } = d.decode().unwrap() {
        assert_eq!(node, Box::new(RawTerm::Atom("nonode@nohost".to_string())));
        assert_eq!(id, 6);
        assert_eq!(creation, 0);
    }
}

#[test]
fn v4_port_ext() {
    let mut d = Decoder::from(vec![
        131, 120, 100, 0, 13, 110, 111, 110, 111, 100, 101, 64, 110, 111, 104, 111, 115, 116, 0,
        0, 0, 0, 0, 0, 0, 6, 0, 0, 0, 0,
    ]);
    if let RawTerm::V4Port { node, id, creation } = d.decode().unwrap() {
        assert_eq!(node, Box::new(RawTerm::Atom("nonode@nohost".to_string())));
        assert_eq!(id, 6);
        assert_eq!(creation, 0);
    }
}

#[test]
fn pid_ext() {
    let mut d = Decoder::from(vec![
        131, 103, 100, 0, 13, 110, 111, 110, 111, 100, 101, 64, 110, 111, 104, 111, 115, 116, 0,
        0, 0, 135, 0, 0, 0, 0, 0,
    ]);
    if let RawTerm::Pid { node, id, serial, creation } = d.decode().unwrap() {
        assert_eq!(node, Box::new(RawTerm::Atom("nonode@nohost".to_string())));
        assert_eq!(id, 135);
        assert_eq!(serial, 0);
        assert_eq!(creation, 0);
    }
}

#[test]
fn new_pid_ext() {
    let mut d = Decoder::from(vec![
        131, 88, 100, 0, 13, 110, 111, 110, 111, 100, 101, 64, 110, 111, 104, 111, 115, 116, 0, 0,
        0, 135, 0, 0, 0, 0, 0, 0, 0, 0,
    ]);
    if let RawTerm::NewPid { node, id, serial, creation } = d.decode().unwrap() {
        assert_eq!(node, Box::new(RawTerm::Atom("nonode@nohost".to_string())));
        assert_eq!(id, 135);
        assert_eq!(serial, 0);
        assert_eq!(creation, 0);
    }
}

#[test]
fn small_tuple_ext() {
    let mut d = Decoder::from(vec![131, 104, 2, 97, 10, 97, 20]);
    if let RawTerm::Tuple(t) = d.decode().unwrap() {
        assert_eq!(t.len(), 2);
        assert_eq!(t[0], RawTerm::SmallInt(10));
        assert_eq!(t[1], RawTerm::SmallInt(20));
    }
}

#[test]
fn large_tuple_ext() {
    let mut d = Decoder::from(vec![131, 105, 0, 0, 0, 2, 97, 10, 97, 20]);
    if let RawTerm::Tuple(t) = d.decode().unwrap() {
        assert_eq!(t.len(), 2);
        assert_eq!(t[0], RawTerm::SmallInt(10));
        assert_eq!(t[1], RawTerm::SmallInt(20));
    }
}

#[test]
fn map_ext() {
    let mut d = Decoder::from(vec![
        131, 116, 0, 0, 0, 5, 100, 0, 1, 97, 97, 10, 100, 0, 1, 98, 97, 20, 100, 0, 1, 101, 106,
        100, 0, 1, 102, 109, 0, 0, 0, 11, 72, 101, 108, 108, 111, 32, 87, 111, 114, 108, 100, 100,
        0, 1, 103, 100, 0, 13, 119, 105, 111, 101, 110, 101, 110, 97, 95, 97, 116, 111, 109,
    ]);
    if let RawTerm::Mapping(m) = d.decode().unwrap() {
        println!("{:?}", m);
    }
}

#[test]
fn nil_ext() {
    let mut d = Decoder::from(vec![131, 106]);
    assert_eq!(d.decode().unwrap(), RawTerm::Nil);
}

#[test]
fn string_ext() {
    let mut d = Decoder::from(vec![
        131, 107, 0, 11, 72, 101, 108, 108, 111, 32, 87, 111, 114, 108, 100,
    ]);
    if let RawTerm::String(s) = d.decode().unwrap() {
        assert_eq!(s, "Hello World");
    }
}

#[test]
fn list_ext() {
    let mut d = Decoder::from(vec![131, 108, 0, 0, 0, 3, 97, 10, 97, 20, 97, 30, 106]);
    if let RawTerm::List(l) = d.decode().unwrap() {
        assert_eq!(l.len(), 3);
        assert_eq!(l[0], RawTerm::SmallInt(10));
        assert_eq!(l[1], RawTerm::SmallInt(20));
        assert_eq!(l[2], RawTerm::SmallInt(30));
    }
}

#[test]
fn binary_ext() {
    let mut d = Decoder::from(vec![
        131, 109, 0, 0, 0, 12, 72, 101, 108, 108, 111, 32, 87, 111, 114, 108, 100, 33,
    ]);
    if let RawTerm::String(s) = d.decode().unwrap() {
        assert_eq!(s, "Hello World!");
    }
}

#[test]
fn map_ext_entries() {
    // The five keys come out with their decoded values, in insertion order.
    let mut d = Decoder::from(vec![
        131, 116, 0, 0, 0, 5, 100, 0, 1, 97, 97, 10, 100, 0, 1, 98, 97, 20, 100, 0, 1, 101, 106,
        100, 0, 1, 102, 109, 0, 0, 0, 11, 72, 101, 108, 108, 111, 32, 87, 111, 114, 108, 100, 100,
        0, 1, 103, 100, 0, 13, 119, 105, 111, 101, 110, 101, 110, 97, 95, 97, 116, 111, 109,
    ]);
    let expected = vec![
        ("a".to_string(), RawTerm::SmallInt(10)),
        ("b".to_string(), RawTerm::SmallInt(20)),
        ("e".to_string(), RawTerm::Nil),
        ("f".to_string(), RawTerm::String("Hello World".to_string())),
        ("g".to_string(), RawTerm::Atom("wioenena_atom".to_string())),
    ];
    assert_eq!(d.decode().unwrap(), RawTerm::Mapping(expected));
}

#[test]
fn map_ext_duplicate_key() {
    // A repeated key keeps one entry, with the later value.
    let mut d = Decoder::from(vec![
        131, 116, 0, 0, 0, 2, 100, 0, 1, 97, 97, 10, 100, 0, 1, 97, 97, 20,
    ]);
    let expected = vec![("a".to_string(), RawTerm::SmallInt(20))];
    assert_eq!(d.decode().unwrap(), RawTerm::Mapping(expected));
}

#[test]
fn negative_integer_ext() {
    let mut d = Decoder::from(vec![131, 98, 255, 255, 255, 214]);
    assert_eq!(d.decode().unwrap(), RawTerm::Int(-42));
}

#[test]
fn decode_twice_equal() {
    // Decoding the same bytes twice yields structurally equal trees.
    let bytes = vec![131, 104, 2, 108, 0, 0, 0, 1, 104, 2, 97, 1, 97, 2, 106, 97, 99];
    let mut d1 = Decoder::from(bytes.clone());
    let mut d2 = Decoder::from(bytes);
    assert_eq!(d1.decode().unwrap(), d2.decode().unwrap());
}

#[test]
fn nested_containers() {
    // A tuple holding a list holding a tuple, each level in order.
    let mut d = Decoder::from(vec![
        131, 104, 2, 108, 0, 0, 0, 1, 104, 2, 97, 1, 97, 2, 106, 97, 99,
    ]);
    let inner_tuple = RawTerm::Tuple(vec![RawTerm::SmallInt(1), RawTerm::SmallInt(2)]);
    let list = RawTerm::List(vec![inner_tuple]);
    let expected = RawTerm::Tuple(vec![list, RawTerm::SmallInt(99)]);
    assert_eq!(d.decode().unwrap(), expected);
}

#[test]
fn truncation_yields_end_of_buffer() {
    // Cutting any number of trailing bytes off a well-formed encoding fails
    // with EndOfBuffer, never anything worse.
    let encodings: Vec<Vec<u8>> = vec![
        vec![131, 97, 42],
        vec![131, 98, 0, 0, 0, 42],
        vec![131, 107, 0, 11, 72, 101, 108, 108, 111, 32, 87, 111, 114, 108, 100],
        vec![131, 108, 0, 0, 0, 3, 97, 10, 97, 20, 97, 30, 106],
        vec![131, 104, 2, 108, 0, 0, 0, 1, 104, 2, 97, 1, 97, 2, 106, 97, 99],
        vec![
            131, 116, 0, 0, 0, 2, 100, 0, 1, 97, 97, 10, 100, 0, 1, 98, 109, 0, 0, 0, 2, 104,
            105,
        ],
        vec![
            131, 102, 100, 0, 13, 110, 111, 110, 111, 100, 101, 64, 110, 111, 104, 111, 115, 116,
            0, 0, 0, 6, 0,
        ],
    ];
    for bytes in encodings {
        for k in 0..bytes.len() {
            let mut d = Decoder::from(bytes[..k].to_vec());
            assert_eq!(d.decode(), Err(DecodeError::EndOfBuffer));
        }
    }
}

#[test]
fn unknown_tag() {
    let mut d = Decoder::from(vec![131, 200, 42]);
    assert_eq!(d.decode(), Err(DecodeError::UnsupportedTag(200)));
}

#[test]
fn unknown_tag_nested() {
    // The unrecognized tag sits inside a tuple; the error still names it.
    let mut d = Decoder::from(vec![131, 104, 2, 97, 10, 201, 5]);
    assert_eq!(d.decode(), Err(DecodeError::UnsupportedTag(201)));
}

#[test]
fn invalid_version() {
    let mut d = Decoder::from(vec![130, 106]);
    assert_eq!(d.decode(), Err(DecodeError::InvalidVersion));
}

#[test]
fn empty_buffer() {
    let mut d = Decoder::from(vec![]);
    assert_eq!(d.decode(), Err(DecodeError::EndOfBuffer));
}

#[test]
fn version_only_buffer() {
    let mut d = Decoder::from(vec![131]);
    assert_eq!(d.decode(), Err(DecodeError::EndOfBuffer));
}

#[test]
fn map_key_not_atom() {
    // The first key decodes to a small integer, not an atom.
    let mut d = Decoder::from(vec![131, 116, 0, 0, 0, 1, 97, 10, 97, 20]);
    assert_eq!(d.decode(), Err(DecodeError::InvalidMapKey));
}

#[test]
fn not_implemented_tags() {
    // Recognized kinds without a term: new float, bignums, a reference.
    for tag in [70u8, 110, 111, 114] {
        let mut d = Decoder::from(vec![131, tag, 1, 2, 3]);
        assert_eq!(d.decode(), Err(DecodeError::NotImplemented(tag)));
    }
}

#[test]
fn invalid_utf8_string() {
    let mut d = Decoder::from(vec![131, 107, 0, 1, 255]);
    assert_eq!(d.decode(), Err(DecodeError::InvalidUtf8));
}

#[test]
fn invalid_utf8_atom() {
    let mut d = Decoder::from(vec![131, 119, 2, 255, 254]);
    assert_eq!(d.decode(), Err(DecodeError::InvalidUtf8));
}

#[test]
fn multibyte_utf8_atom() {
    // A two-byte UTF-8 sequence decodes to one character.
    let mut d = Decoder::from(vec![131, 119, 2, 0xC3, 0xA9]);
    assert_eq!(d.decode().unwrap(), RawTerm::Atom("\u{e9}".to_string()));
}

#[test]
fn trailing_bytes_ignored() {
    let mut d = Decoder::from(vec![131, 106, 99, 99]);
    assert_eq!(d.decode().unwrap(), RawTerm::Nil);
}

#[test]
fn empty_tuple_and_list() {
    let mut d = Decoder::from(vec![131, 104, 0]);
    assert_eq!(d.decode().unwrap(), RawTerm::Tuple(vec![]));
    let mut d2 = Decoder::from(vec![131, 108, 0, 0, 0, 0, 106]);
    assert_eq!(d2.decode().unwrap(), RawTerm::List(vec![]));
}
