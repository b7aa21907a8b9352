use serde_qs::config::Config;
use serde_qs::de::{bracket_hint, take_next_field, Leaf, QsDeserializer, StringParsingDeserializer};
use serde_qs::error::Error;
use serde_qs::value::{Key, ParsedMap, ParsedValue};
use std::cmp::Ordering;

fn skey(x: &str) -> Key {
    Key::String(x.as_bytes().to_vec())
}

fn sval(x: &str) -> ParsedValue {
    ParsedValue::String(x.as_bytes().to_vec())
}

fn order(a: &Key, b: &Key) -> Ordering {
    match (a, b) {
        (Key::Int(x), Key::Int(y)) => x.cmp(y),
        (Key::Int(_), Key::String(_)) => Ordering::Less,
        (Key::String(_), Key::Int(_)) => Ordering::Greater,
        (Key::String(x), Key::String(y)) => x.cmp(y),
    }
}

fn sorted(mut entries: Vec<(Key, ParsedValue)>) -> ParsedMap {
    entries.sort_by(|a, b| order(&a.0, &b.0));
    ParsedMap { entries }
}

fn obj(entries: Vec<(Key, ParsedValue)>) -> ParsedValue {
    ParsedValue::Mapping(sorted(entries))
}

fn parse_str(s: &str) -> ParsedMap {
    QsDeserializer::new(s.as_bytes()).expect("parse").into_map()
}

fn parse_with(config: Config, s: &str) -> ParsedMap {
    QsDeserializer::with_config(config, s.as_bytes()).expect("parse").into_map()
}

fn parse_error(s: &str) -> String {
    match QsDeserializer::new(s.as_bytes()) {
        Ok(d) => panic!("expected an error, got {:?}", d.into_map()),
        Err(e) => e.message(),
    }
}

#[test]
fn qs_nesting() {
    assert_eq!(parse_str("a[b]=c"), sorted(vec![(skey("a"), obj(vec![(skey("b"), sval("c"))]))]));
    assert_eq!(
        parse_str("a[b][c]=d"),
        sorted(vec![(skey("a"), obj(vec![(skey("b"), obj(vec![(skey("c"), sval("d"))]))]))])
    );
    // the default depth is 5: the rest of the key stays flat
    assert_eq!(
        parse_str("a[b][c][d][e][f][g][h]=i"),
        sorted(vec![(
            skey("a"),
            obj(vec![(
                skey("b"),
                obj(vec![(
                    skey("c"),
                    obj(vec![(
                        skey("d"),
                        obj(vec![(skey("e"), obj(vec![(skey("f"), obj(vec![(skey("[g][h]"), sval("i"))]))]))]),
                    )]),
                )]),
            )]),
        )])
    );
}

#[test]
fn correct_decoding() {
    assert_eq!(parse_str("foo=%24"), sorted(vec![(skey("foo"), sval("$"))]));
    assert_eq!(parse_str("foo=%26"), sorted(vec![(skey("foo"), sval("&"))]));
}

#[test]
fn square_brackets_in_values() {
    assert_eq!(parse_str("foo=%5BHello%5D"), sorted(vec![(skey("foo"), sval("[Hello]"))]));
}

#[test]
fn qs_test_simple() {
    assert_eq!(parse_str("0=foo"), sorted(vec![(Key::Int(0), sval("foo"))]));
    assert_eq!(parse_str("&0=foo"), sorted(vec![(Key::Int(0), sval("foo"))]));
    assert_eq!(parse_str("0=foo&"), sorted(vec![(Key::Int(0), sval("foo"))]));
    assert_eq!(parse_str("foo=c++"), sorted(vec![(skey("foo"), sval("c  "))]));
    assert_eq!(parse_str("a[>=]=23"), sorted(vec![(skey("a"), obj(vec![(skey(">="), sval("23"))]))]));
    assert_eq!(parse_str("a[<=>]==23"), sorted(vec![(skey("a"), obj(vec![(skey("<=>"), sval("=23"))]))]));
    assert_eq!(parse_str("a[==]=23"), sorted(vec![(skey("a"), obj(vec![(skey("=="), sval("23"))]))]));
    assert_eq!(parse_str("foo"), sorted(vec![(skey("foo"), ParsedValue::NoValue)]));
    assert_eq!(parse_str("foo="), sorted(vec![(skey("foo"), ParsedValue::Null)]));
    assert_eq!(parse_str("foo=bar"), sorted(vec![(skey("foo"), sval("bar"))]));
    assert_eq!(parse_str(" foo = bar = baz "), sorted(vec![(skey(" foo "), sval(" bar = baz "))]));
    assert_eq!(parse_str("foo=bar=baz"), sorted(vec![(skey("foo"), sval("bar=baz"))]));
    assert_eq!(
        parse_str("foo=bar&bar=baz"),
        sorted(vec![(skey("foo"), sval("bar")), (skey("bar"), sval("baz"))])
    );
    assert_eq!(
        parse_str("foo=bar&&bar=baz"),
        sorted(vec![(skey("foo"), sval("bar")), (skey("bar"), sval("baz"))])
    );
    assert_eq!(
        parse_str("foo2=bar2&baz2="),
        sorted(vec![(skey("foo2"), sval("bar2")), (skey("baz2"), ParsedValue::Null)])
    );
    assert_eq!(
        parse_str("foo=bar&baz"),
        sorted(vec![(skey("foo"), sval("bar")), (skey("baz"), ParsedValue::NoValue)])
    );
    assert_eq!(
        parse_str("cht=p3&chd=t:60,40&chs=250x100&chl=Hello|World"),
        sorted(vec![
            (skey("cht"), sval("p3")),
            (skey("chd"), sval("t:60,40")),
            (skey("chs"), sval("250x100")),
            (skey("chl"), sval("Hello|World")),
        ])
    );
}

#[test]
fn returns_errors() {
    let msg = parse_error("vec[[]=1&vec[]=2");
    assert!(
        msg.contains("invalid input: the key `vec` appears in the input as both a sequence and a map (with keys \"[\")"),
        "got: {}",
        msg
    );
    let msg = parse_error("vec[\x00[]=1&vec[]=2");
    assert!(
        msg.contains("invalid input: the key `vec` appears in the input as both a sequence and a map (with keys \"\x00[\")"),
        "got: {}",
        msg
    );
}

#[test]
fn no_panic_on_parse_error() {
    let mut m = parse_str("vec[]=a&vec[]=2");
    let (_, v) = take_next_field(&mut m, &["vec"]).unwrap();
    let items = v.into_sequence().unwrap();
    let first = items.into_iter().next().unwrap().into_scalar().unwrap();
    let err = std::str::from_utf8(&first).unwrap().parse::<u32>().unwrap_err();
    assert!(err.to_string().contains("invalid digit found in string"));
    // a key used both as a sequence and as a map is refused, not a panic
    let msg = parse_error("vec[]=1&vec[0]=2");
    assert!(msg.contains("parsing failed with error"), "got: {}", msg);
}

#[test]
fn deserialize_plus() {
    assert_eq!(parse_str("email=a%2Bb%40c.com"), sorted(vec![(skey("email"), sval("a+b@c.com"))]));
}

#[test]
fn deserialize_repeat_keys() {
    let parsed = parse_str("vec[0]=0&vec[0]=1&vec[1]=2&repeated=3&repeated=4&implicit=5");
    assert_eq!(
        parsed,
        sorted(vec![
            (
                skey("vec"),
                obj(vec![
                    (Key::Int(0), ParsedValue::Sequence(vec![sval("0"), sval("1")])),
                    (Key::Int(1), sval("2")),
                ])
            ),
            (skey("repeated"), ParsedValue::Sequence(vec![sval("3"), sval("4")])),
            (skey("implicit"), sval("5")),
        ])
    );
    // a repeated key keeps its last value as a scalar
    let mut m = parsed;
    let (_, repeated) = take_next_field(&mut m, &["repeated"]).unwrap();
    assert_eq!(repeated.into_scalar().unwrap(), b"4".to_vec());
}

#[test]
fn querystring_decoding() {
    // with querystring encoding, encoded brackets are part of the key
    assert_eq!(
        parse_with(Config::new(), "vec%5B0%5D%5Ba%5D=1"),
        sorted(vec![(skey("vec[0][a]"), sval("1"))])
    );
    assert_eq!(
        parse_with(Config::new(), "vec%5B%5D=1&vec%5B%5D=2"),
        sorted(vec![(skey("vec[]"), ParsedValue::Sequence(vec![sval("1"), sval("2")]))])
    );
}

#[test]
fn formencoded_decoding() {
    let config = Config::new().use_form_encoding(true);
    let expected = sorted(vec![(
        skey("vec"),
        obj(vec![
            (Key::Int(0), obj(vec![(skey("a"), sval("1"))])),
            (Key::Int(1), obj(vec![(skey("a"), sval("2"))])),
        ]),
    )]);
    for input in [
        "vec%5B0%5D%5Ba%5D=1&vec[1][a]=2",
        "vec[0%5D%5Ba]=1&vec[1][a]=2",
        "vec[0%5D%5Ba%5D=1&vec[1][a]=2",
        "vec%5B0%5D%5Ba]=1&vec[1][a]=2",
    ] {
        assert_eq!(parse_with(config, input), expected, "input {}", input);
    }
    // a lone `%` is a key of its own
    assert_eq!(parse_with(config, "%"), sorted(vec![(skey("%"), ParsedValue::NoValue)]));
    assert_eq!(
        parse_with(config, "vec%5B%5D=1&vec%5B%5D=2"),
        sorted(vec![(skey("vec"), ParsedValue::Sequence(vec![sval("1"), sval("2")]))])
    );
}

fn lone(s: &str) -> ParsedValue {
    match QsDeserializer::new(s.as_bytes()).unwrap().into_lone_value() {
        Ok(v) => v,
        Err(_) => panic!("{s} holds no lone empty key"),
    }
}

fn text_of(v: ParsedValue) -> String {
    String::from_utf8(v.into_scalar().unwrap()).unwrap()
}

#[test]
fn empty_keys() {
    assert_eq!(parse_str("=123"), sorted(vec![(skey(""), sval("123"))]));
    // `=123` reads as a top-level number
    let n = StringParsingDeserializer::new(lone("=123").into_scalar().unwrap()).unwrap().parse_unsigned(u8::MAX as u64);
    assert_eq!(n, Some(123));
    // `=1&=2` reads as a top-level sequence
    let items = QsDeserializer::new(b"=1&=2").unwrap().into_sequence().unwrap();
    assert_eq!(items, vec![sval("1"), sval("2")]);
    // `=foo` reads as a string, and as a sequence of one
    assert_eq!(text_of(lone("=foo")), "foo");
    assert_eq!(QsDeserializer::new(b"=foo").unwrap().into_sequence().unwrap(), vec![sval("foo")]);
    // repeated empty keys: the last value as a string, all as a sequence
    assert_eq!(text_of(lone("=foo&=bar")), "bar");
    assert_eq!(QsDeserializer::new(b"=foo&=bar").unwrap().into_sequence().unwrap(), vec![sval("foo"), sval("bar")]);
    // options: `=foo` is some, `=` is some empty string, `` is none
    assert_eq!(lone("=foo").into_option().map(text_of), Some("foo".to_string()));
    match lone("=").into_leaf().unwrap() {
        Leaf::Bytes(b) => assert!(b.is_empty()),
        Leaf::Other(o) => panic!("got {:?}", o),
    }
    assert!(QsDeserializer::new(b"").unwrap().is_empty());
    // as a map, the empty key is an ordinary key
    assert_eq!(QsDeserializer::new(b"=foo").unwrap().into_map().entries, vec![(skey(""), sval("foo"))]);
    assert!(QsDeserializer::new(b"a=1").unwrap().into_lone_value().is_err());
    assert_eq!(parse_str("a=&b=2"), sorted(vec![(skey("a"), ParsedValue::Null), (skey("b"), sval("2"))]));
}

#[test]
fn deserialize_into_tuple() {
    let vals = QsDeserializer::new(b"=1&=2").unwrap().into_tuple(2).unwrap();
    assert_eq!(vals, vec![sval("1"), sval("2")]);
    match QsDeserializer::new(b"=1&=2").unwrap().into_tuple(1) {
        Err(Error::Custom(m)) => assert!(m.contains("expected a tuple of length 1, got length 2")),
        other => panic!("got {:?}", other),
    }
    let vals = QsDeserializer::new(b"=1&=2").unwrap().into_tuple_struct("Tuple", 2).unwrap();
    assert_eq!(vals, vec![sval("1"), sval("2")]);
    match QsDeserializer::new(b"=1").unwrap().into_tuple_struct("Tuple", 2) {
        Err(Error::Custom(m)) => assert!(m.contains("expected tuple struct `Tuple` of length 2, got length 1")),
        other => panic!("got {:?}", other),
    }
}

#[test]
fn int_key_parsing() {
    let m = parse_str("a[1]=2&a[3]=4");
    assert_eq!(m.entries, vec![(skey("a"), obj(vec![(Key::Int(1), sval("2")), (Key::Int(3), sval("4"))]))]);
    // a key too large for the target type
    let m = parse_str("a[1000]=2");
    assert_eq!(m.entries, vec![(skey("a"), obj(vec![(Key::Int(1000), sval("2"))]))]);
    assert_eq!(StringParsingDeserializer::new_str("1000").parse_unsigned(u8::MAX as u64), None);
    // leading zeros are dropped from integer keys
    let m = parse_str("a[01]=2&a[03]=4");
    assert_eq!(m.entries, vec![(skey("a"), obj(vec![(Key::Int(1), sval("2")), (Key::Int(3), sval("4"))]))]);
    // integer keys read as a sequence
    let mut m = parse_str("a[0]=1&a[1]=2");
    let (_, v) = take_next_field(&mut m, &["a"]).unwrap();
    assert_eq!(v.into_sequence().unwrap(), vec![sval("1"), sval("2")]);
    // but a string key cannot
    let mut m = parse_str("a[x]=1&a[0]=2");
    let (_, v) = take_next_field(&mut m, &["a"]).unwrap();
    match v.into_sequence() {
        Err(Error::Custom(msg)) => assert!(msg.contains("expected an integer index, found a string key `x`")),
        other => panic!("got {:?}", other),
    }
}

#[test]
fn suggests_form_encoding() {
    let m = parse_str("data%5Ba%5D=foo");
    let key = &m.entries[0].0;
    assert_eq!(key, &skey("data[a]"));
    let msg = bracket_hint(key, "unknown field `data[a]`, expected `data`".to_string());
    assert!(msg.starts_with(
        "unknown field `data[a]`, expected `data`\nInvalid field contains an encoded bracket -- consider using form encoding mode"
    ));
    let plain = bracket_hint(&skey("data"), "x".to_string());
    assert_eq!(plain, "x");
}

#[test]
fn empty_values() {
    let mut m = parse_str("a");
    let (_, v) = take_next_field(&mut m, &["a"]).unwrap();
    match v.into_leaf().unwrap() {
        serde_qs::de::Leaf::Bytes(b) => assert!(b.is_empty()),
        serde_qs::de::Leaf::Other(o) => panic!("got {:?}", o),
    }
}

#[test]
fn tuple_and_sequence_shapes() {
    // a top-level sequence needs a single key
    match QsDeserializer::new(b"a=1&b=2").unwrap().into_sequence() {
        Err(Error::Custom(m)) => assert!(m.starts_with("input error: expecting a sequence")),
        other => panic!("got {:?}", other),
    }
    // so does a tuple
    match QsDeserializer::new(b"1=b&0=a").unwrap().into_tuple(2) {
        Err(Error::Custom(m)) => assert!(m.starts_with("input error: expecting a sequence")),
        other => panic!("got {:?}", other),
    }
    // a single key with integer indices reads in index order
    let vals = QsDeserializer::new(b"t[1]=b&t[0]=a").unwrap().into_tuple(2).unwrap();
    assert_eq!(vals, vec![sval("a"), sval("b")]);
}

fn field_of(m: &mut ParsedMap, name: &str) -> Option<ParsedValue> {
    take_next_field(m, &[name]).map(|(_, v)| v)
}

fn u8_of(v: ParsedValue) -> u8 {
    let b = v.into_scalar().unwrap();
    serde_qs::de::StringParsingDeserializer::new(b).unwrap().parse_unsigned(u8::MAX as u64).unwrap() as u8
}

fn string_of(v: ParsedValue) -> String {
    match v.into_leaf().unwrap() {
        serde_qs::de::Leaf::Bytes(b) => serde_qs::de::StringParsingDeserializer::new(b).unwrap().value,
        serde_qs::de::Leaf::Other(o) => panic!("got {:?}", o),
    }
}

fn opt_vec_u8(s: &str) -> Option<Vec<u8>> {
    let mut m = parse_str(s);
    field_of(&mut m, "vec").and_then(|v| v.into_option()).map(|v| v.into_sequence().unwrap().into_iter().map(u8_of).collect())
}

#[test]
fn optional_seq() {
    assert_eq!(opt_vec_u8(""), None);
    assert_eq!(opt_vec_u8("vec"), None);
    assert_eq!(opt_vec_u8("vec="), Some(vec![]));
    assert_eq!(opt_vec_u8("vec[0]=1&vec[1]=2"), Some(vec![1, 2]));
}

fn vec_opt_u8(s: &str) -> Vec<Option<u8>> {
    let mut m = parse_str(s);
    let v = field_of(&mut m, "vec").unwrap();
    v.into_sequence().unwrap().into_iter().map(|x| x.into_option().map(u8_of)).collect()
}

#[test]
fn seq_of_optionals() {
    assert_eq!(vec_opt_u8("vec"), vec![]);
    assert_eq!(vec_opt_u8("vec[]"), vec![None]);
    assert_eq!(vec_opt_u8("vec[0]=1&vec[1]=2"), vec![Some(1), Some(2)]);
    assert_eq!(vec_opt_u8("vec[]&vec[]=2"), vec![None, Some(2)]);
}

fn maybe_maybe(s: &str) -> Option<Option<u8>> {
    let mut m = parse_str(s);
    field_of(&mut m, "maybe_maybe").and_then(|v| v.into_option()).map(|v| v.into_option().map(u8_of))
}

#[test]
fn nested_optionals() {
    assert_eq!(maybe_maybe(""), None);
    assert_eq!(maybe_maybe("maybe_maybe"), None);
    assert_eq!(maybe_maybe("maybe_maybe="), Some(None));
    assert_eq!(maybe_maybe("maybe_maybe=1"), Some(Some(1)));
}

#[test]
fn levels_of_option() {
    let read = |s: &str| {
        let mut m = parse_str(s);
        let a = field_of(&mut m, "a").and_then(|v| v.into_option()).map(string_of);
        let b = field_of(&mut m, "b").and_then(|v| v.into_option()).map(|v| v.into_option().map(string_of));
        let c = field_of(&mut m, "c")
            .and_then(|v| v.into_option())
            .map(|v| v.into_option().map(|v| v.into_option().map(string_of)));
        (a, b, c)
    };
    assert_eq!(
        read("a=1&b=2&c=3"),
        (Some("1".to_string()), Some(Some("2".to_string())), Some(Some(Some("3".to_string()))))
    );
    assert_eq!(read("a&b&c"), (None, None, None));
    assert_eq!(read("a=&b=&c="), (Some("".to_string()), Some(None), Some(None)));
}

#[test]
fn invalid_utf8() {
    let mut m = parse_str("field=%E9");
    let v = field_of(&mut m, "field").unwrap();
    match serde_qs::de::StringParsingDeserializer::new(v.into_scalar().unwrap()) {
        Err(e) => assert!(e.message().contains("incomplete utf-8 byte sequence from inde"), "got {}", e.message()),
        Ok(_) => panic!("expected an error"),
    }
    let mut m = parse_str("field=valid&unused=%E9");
    assert_eq!(string_of(field_of(&mut m, "field").unwrap()), "valid");
}

#[test]
fn deserialize_struct() {
    for query in [
        "name=Acme&id=42&phone=12345&address[postcode]=12345&address[city]=Carrot+City&\
         user_ids[0]=1&user_ids[1]=2&user_ids[2]=3&user_ids[3]=4",
        "name=Acme&id=42&phone=12345&address[postcode]=12345&address[city]=Carrot+City&\
         user_ids[]=1&user_ids[]=2&user_ids[]=3&user_ids[]=4",
        "address[city]=Carrot+City&user_ids[]=1&user_ids[]=2&name=Acme&id=42&phone=12345&\
         address[postcode]=12345&user_ids[]=3&user_ids[]=4",
    ] {
        let mut m = parse_str(query);
        assert_eq!(u8_of(field_of(&mut m, "id").unwrap()), 42);
        assert_eq!(string_of(field_of(&mut m, "name").unwrap()), "Acme");
        match field_of(&mut m, "address").unwrap() {
            ParsedValue::Mapping(mut a) => {
                assert_eq!(string_of(field_of(&mut a, "city").unwrap()), "Carrot City");
                assert_eq!(string_of(field_of(&mut a, "postcode").unwrap()), "12345");
            },
            other => panic!("got {:?}", other),
        }
        assert_eq!(string_of(field_of(&mut m, "phone").unwrap()), "12345");
        let ids: Vec<u8> = field_of(&mut m, "user_ids").unwrap().into_sequence().unwrap().into_iter().map(u8_of).collect();
        assert_eq!(ids, vec![1, 2, 3, 4]);
        assert!(m.is_empty());
    }
}

#[test]
fn deserialize_option() {
    assert!(!QsDeserializer::new(b"id=1").unwrap().is_empty());
    assert!(QsDeserializer::new(b"").unwrap().is_empty());
}

#[test]
fn ignored_compound_fields_do_not_fail_index_check() {
    for query in ["example[123]=321&unrelated[123]=321", "example[123]=321&unrelated[0][a]=1"] {
        let mut m = parse_str(query);
        match field_of(&mut m, "example").unwrap() {
            ParsedValue::Mapping(e) => assert_eq!(e.entries, vec![(Key::Int(123), sval("321"))]),
            other => panic!("got {:?}", other),
        }
    }
}

#[test]
fn struct_fields_come_first() {
    // fields in the order the struct names them, then the rest in key order
    let mut m = parse_str("z=1&b=2&a=3&c=4");
    let fields = ["a", "b"];
    assert_eq!(take_next_field(&mut m, &fields), Some((0, sval("3"))));
    assert_eq!(take_next_field(&mut m, &fields[1..]), Some((0, sval("2"))));
    assert_eq!(take_next_field(&mut m, &fields[2..]), None);
    assert_eq!(m.pop_first(), Some((skey("c"), sval("4"))));
    assert_eq!(m.pop_first(), Some((skey("z"), sval("1"))));
    assert_eq!(m.pop_first(), None);
}

#[test]
fn sequence_indices_ascend() {
    let mut m = parse_str("a[2]=c&a[0]=a&a[1]=b");
    let (_, v) = take_next_field(&mut m, &["a"]).unwrap();
    assert_eq!(v.into_sequence().unwrap(), vec![sval("a"), sval("b"), sval("c")]);
}
