use bittorrent::bencode::{decode_bencoded_value, try_decode_bencoded_value, Value};

fn string(s: &str) -> Value {
    Value::String(s.to_string())
}

fn same(a: &Value, b: &Value) -> bool {
    match (a, b) {
        (Value::Null, Value::Null) => true,
        (Value::Number(x), Value::Number(y)) => x == y,
        (Value::String(x), Value::String(y)) => x == y,
        (Value::Array(x), Value::Array(y)) => x.len() == y.len() && x.iter().zip(y).all(|(p, q)| same(p, q)),
        (Value::Object(x), Value::Object(y)) => {
            x.len() == y.len() && x.iter().zip(y).all(|(p, q)| p.0 == q.0 && same(&p.1, &q.1))
        }
        _ => false,
    }
}

#[test]
fn decodes_a_string() {
    let (v, rest) = decode_bencoded_value("5:hello");
    assert!(same(&v, &string("hello")));
    assert_eq!(rest, "");
}

#[test]
fn string_leaves_the_rest() {
    let (v, rest) = decode_bencoded_value("4:spamxyz");
    assert!(same(&v, &string("spam")));
    assert_eq!(rest, "xyz");
}

#[test]
fn string_length_counts_bytes() {
    let (v, rest) = decode_bencoded_value("2:\u{e9}!");
    assert!(same(&v, &string("\u{e9}")));
    assert_eq!(rest, "!");
    assert!(try_decode_bencoded_value("1:\u{e9}").is_none());
}

#[test]
fn empty_string() {
    let (v, rest) = decode_bencoded_value("0:abc");
    assert!(same(&v, &string("")));
    assert_eq!(rest, "abc");
}

#[test]
fn decodes_integers() {
    assert!(same(&decode_bencoded_value("i52e").0, &Value::Number(52)));
    assert!(same(&decode_bencoded_value("i-52e").0, &Value::Number(-52)));
    assert!(same(&decode_bencoded_value("i+3e").0, &Value::Number(3)));
    assert!(same(&decode_bencoded_value("i-9223372036854775808e").0, &Value::Number(i64::MIN)));
    assert!(same(&decode_bencoded_value("i9223372036854775807e").0, &Value::Number(i64::MAX)));
}

#[test]
fn unparsable_integers_are_null() {
    assert!(same(&decode_bencoded_value("iabce").0, &Value::Null));
    assert!(same(&decode_bencoded_value("i-e").0, &Value::Null));
    assert!(same(&decode_bencoded_value("ie").0, &Value::Null));
    assert!(same(&decode_bencoded_value("i9223372036854775808e").0, &Value::Null));
}

#[test]
fn decodes_a_list() {
    let (v, rest) = decode_bencoded_value("l5:helloi52eeXY");
    assert!(same(&v, &Value::Array(vec![string("hello"), Value::Number(52)])));
    assert_eq!(rest, "XY");
    assert!(same(&decode_bencoded_value("le").0, &Value::Array(vec![])));
}

#[test]
fn decodes_nested_lists() {
    let (v, _) = decode_bencoded_value("ll1:aeli1eee");
    assert!(same(
        &v,
        &Value::Array(vec![Value::Array(vec![string("a")]), Value::Array(vec![Value::Number(1)])])
    ));
}

#[test]
fn decodes_a_dictionary() {
    let (v, rest) = decode_bencoded_value("d3:foo3:bar5:helloi52ee");
    assert!(same(
        &v,
        &Value::Object(vec![("foo".to_string(), string("bar")), ("hello".to_string(), Value::Number(52))])
    ));
    assert_eq!(rest, "");
}

#[test]
fn repeated_key_takes_the_later_value() {
    let (v, _) = decode_bencoded_value("d1:ai1e1:bi2e1:ai3ee");
    assert!(same(
        &v,
        &Value::Object(vec![("a".to_string(), Value::Number(3)), ("b".to_string(), Value::Number(2))])
    ));
}

#[test]
fn malformed_values_are_refused() {
    assert!(try_decode_bencoded_value("").is_none());
    assert!(try_decode_bencoded_value("x").is_none());
    assert!(try_decode_bencoded_value("5:hi").is_none());
    assert!(try_decode_bencoded_value("5hello").is_none());
    assert!(try_decode_bencoded_value("1a:x").is_none());
    assert!(try_decode_bencoded_value("i42").is_none());
    assert!(try_decode_bencoded_value("l").is_none());
    assert!(try_decode_bencoded_value("li1e").is_none());
    assert!(try_decode_bencoded_value("di1ei2ee").is_none());
    assert!(try_decode_bencoded_value("d1:ae").is_none());
}

#[test]
fn encoded_value_decodes_back_and_leaves_the_rest() {
    let (v, rest) = decode_bencoded_value("d3:cow3:moo4:spaml1:a2:\u{e9}e3:numi-7ee tail");
    let expected = Value::Object(vec![
        ("cow".to_string(), string("moo")),
        ("spam".to_string(), Value::Array(vec![string("a"), string("\u{e9}")])),
        ("num".to_string(), Value::Number(-7)),
    ]);
    assert!(same(&v, &expected));
    assert_eq!(rest, " tail");
}
