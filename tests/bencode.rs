use rustorrent::bencode::{decode, encode, BencodeError, OwnedValue};

fn s(b: &[u8]) -> Vec<u8> {
    b.to_vec()
}

#[test]
fn decode_small_dictionary() {
    let input = s(b"d3:cow3:moo4:spam4:eggse");
    let v = decode(&input).unwrap();
    match &v {
        OwnedValue::Dict(keys, values) => {
            assert_eq!(keys, &vec![s(b"cow"), s(b"spam")]);
            assert_eq!(values.len(), 2);
            assert!(matches!(&values[0], OwnedValue::Str(x) if x == b"moo"));
            assert!(matches!(&values[1], OwnedValue::Str(x) if x == b"eggs"));
        }
        _ => panic!("expected a dictionary"),
    }
    assert_eq!(encode(&v), input);
}

#[test]
fn integers_round_trip() {
    for text in [&b"i0e"[..], b"i42e", b"i-42e", b"i9223372036854775807e", b"i-9223372036854775808e"] {
        let v = decode(&s(text)).unwrap();
        assert_eq!(encode(&v), s(text));
    }
    assert!(matches!(decode(&s(b"i-7e")).unwrap(), OwnedValue::Integer(-7)));
}

#[test]
fn malformed_integers_are_rejected() {
    for text in [&b"i03e"[..], b"i-0e", b"ie", b"i-e", b"i12", b"i9223372036854775808e", b"i1x"] {
        assert_eq!(decode(&s(text)).unwrap_err(), BencodeError::Syntax);
    }
}

#[test]
fn lists_and_nested_values_round_trip() {
    let text = s(b"l4:spami7eli1ei2eed1:ai1e1:bleee");
    let v = decode(&text).unwrap();
    assert_eq!(encode(&v), text);
    assert_eq!(encode(&decode(&s(b"le")).unwrap()), s(b"le"));
    assert_eq!(encode(&decode(&s(b"de")).unwrap()), s(b"de"));
    assert_eq!(encode(&decode(&s(b"0:")).unwrap()), s(b"0:"));
}

#[test]
fn trailing_bytes_are_rejected() {
    assert_eq!(decode(&s(b"i1ei2e")).unwrap_err(), BencodeError::TrailingBytes);
    assert_eq!(decode(&s(b"4:spamx")).unwrap_err(), BencodeError::TrailingBytes);
}

#[test]
fn syntax_errors() {
    for text in [&b""[..], b"x", b"5:abc", b"l", b"d3:cow", b"d1:bi1e1:ai2ee", b"d1:ai1e1:ai2ee", b"01:a", b"di1ei2ee"] {
        assert_eq!(decode(&s(text)).unwrap_err(), BencodeError::Syntax);
    }
}

#[test]
fn encode_built_value() {
    let v = OwnedValue::Dict(
        vec![s(b"a"), s(b"b")],
        vec![OwnedValue::Integer(-3), OwnedValue::List(vec![OwnedValue::Str(s(b"xy"))])],
    );
    assert_eq!(encode(&v), s(b"d1:ai-3e1:bl2:xyee"));
    let back = decode(&encode(&v)).unwrap();
    assert_eq!(encode(&back), encode(&v));
}

#[test]
fn get_finds_keys() {
    let v = decode(&s(b"d1:ai1e1:b1:xe")).unwrap();
    assert!(matches!(v.get(&s(b"a")), Some(OwnedValue::Integer(1))));
    assert!(v.get(&s(b"c")).is_none());
    assert!(OwnedValue::Integer(3).get(&s(b"a")).is_none());
}

#[test]
fn metainfo_top_level_must_be_a_dictionary() {
    assert!(rustorrent::bencode::decode_bencoded_string(&s(b"d1:ai1ee")).is_ok());
    assert_eq!(
        rustorrent::bencode::decode_bencoded_string(&s(b"li1ee")).unwrap_err(),
        BencodeError::NotADictionary
    );
    assert_eq!(rustorrent::bencode::decode_bencoded_string(&s(b"d")).unwrap_err(), BencodeError::Syntax);
}

#[test]
fn readable_text_escapes_bytes() {
    assert_eq!(rustorrent::bencode::safe_utf8_string(b"ab ~"), s(b"ab ~"));
    assert_eq!(rustorrent::bencode::safe_utf8_string(&[0x01, b'x', 0xff]), s(b"\\u0001x\\u00ff"));
}

#[test]
fn encoder_sorts_dictionary_keys() {
    let v = OwnedValue::Dict(
        vec![s(b"spam"), s(b"cow"), s(b"b"), s(b"ba")],
        vec![
            OwnedValue::Str(s(b"eggs")),
            OwnedValue::Dict(vec![s(b"z"), s(b"a")], vec![OwnedValue::Integer(1), OwnedValue::Integer(2)]),
            OwnedValue::Integer(0),
            OwnedValue::List(vec![]),
        ],
    );
    assert_eq!(encode(&v), s(b"d1:bi0e2:bale3:cowd1:ai2e1:zi1ee4:spam4:eggse"));
}
