use serde_qs::config::Config;
use serde_qs::decode::decode;
use serde_qs::parse::{parse, Fault};
use serde_qs::value::{Key, ParsedMap, ParsedValue};
use std::cmp::Ordering;

fn k(x: &str) -> Key {
    Key::String(x.as_bytes().to_vec())
}

fn v(x: &str) -> ParsedValue {
    ParsedValue::String(x.as_bytes().to_vec())
}

fn key_order(a: &Key, b: &Key) -> Ordering {
    match (a, b) {
        (Key::Int(x), Key::Int(y)) => x.cmp(y),
        (Key::Int(_), Key::String(_)) => Ordering::Less,
        (Key::String(_), Key::Int(_)) => Ordering::Greater,
        (Key::String(x), Key::String(y)) => x.cmp(y),
    }
}

fn map(mut entries: Vec<(Key, ParsedValue)>) -> ParsedMap {
    entries.sort_by(|a, b| key_order(&a.0, &b.0));
    ParsedMap { entries }
}

fn nested(entries: Vec<(Key, ParsedValue)>) -> ParsedValue {
    ParsedValue::Mapping(map(entries))
}

fn default_config() -> Config {
    Config::new().max_depth(10)
}

fn form_config() -> Config {
    Config::new().max_depth(10).use_form_encoding(true)
}

#[test]
fn parse_empty() {
    let parsed = parse(b"", default_config()).unwrap();
    assert_eq!(parsed, map(vec![]));
}

#[test]
fn parse_map() {
    let parsed = parse(b"abc=def", default_config()).unwrap();
    assert_eq!(parsed, map(vec![(k("abc"), v("def"))]));
}

#[test]
fn parse_map_no_value() {
    let parsed = parse(b"abc", default_config()).unwrap();
    assert_eq!(parsed, map(vec![(k("abc"), ParsedValue::NoValue)]));
}

#[test]
fn parse_map_null_value() {
    let parsed = parse(b"abc=", default_config()).unwrap();
    assert_eq!(parsed, map(vec![(k("abc"), ParsedValue::Null)]));
}

#[test]
fn parse_sequence() {
    let parsed = parse(b"abc[]=1&abc[]=2", default_config()).unwrap();
    assert_eq!(parsed, map(vec![(k("abc"), ParsedValue::Sequence(vec![v("1"), v("2")]))]));
}

#[test]
fn parse_ordered_sequence() {
    let parsed = parse(b"abc[1]=1&abc[0]=0", default_config()).unwrap();
    assert_eq!(
        parsed,
        map(vec![(k("abc"), nested(vec![(Key::Int(1), v("1")), (Key::Int(0), v("0"))]))])
    );
    // the entries are kept in key order
    match &parsed.entries[0].1 {
        ParsedValue::Mapping(m) => {
            assert_eq!(m.entries[0].0, Key::Int(0));
            assert_eq!(m.entries[1].0, Key::Int(1));
        },
        _ => panic!("expected a map"),
    }
}

#[test]
fn parse_nested_map() {
    let parsed = parse(b"abc[def]=ghi", default_config()).unwrap();
    assert_eq!(parsed, map(vec![(k("abc"), nested(vec![(k("def"), v("ghi"))]))]));
}

#[test]
fn parse_empty_and_sequence() {
    let err = parse(b"abc&abc[]=1", default_config()).unwrap_err();
    assert_eq!(err.fault, Fault::ValueAndSequence);
    let text = err.fault.text();
    assert!(text.contains("invalid input: the same key is used for both a value and a sequence"), "got: {}", text);
}

#[test]
fn parse_many() {
    let parsed = parse(b"e[B]&v[V1][x]=12&v[V1][y]=300&u=12", default_config()).unwrap();
    assert_eq!(
        parsed,
        map(vec![
            (k("e"), nested(vec![(k("B"), ParsedValue::NoValue)])),
            (k("u"), v("12")),
            (k("v"), nested(vec![(k("V1"), nested(vec![(k("x"), v("12")), (k("y"), v("300"))]))])),
        ])
    );
}

#[test]
fn parse_max_depth() {
    let parsed = parse(b"a[b][c][d][e][f][g][h]=i", Config::new().max_depth(5)).unwrap();
    assert_eq!(
        parsed,
        map(vec![(k("a"), nested(vec![(k("b"), nested(vec![(k("c"), nested(vec![(k("d"), nested(vec![(
            k("e"),
            nested(vec![(k("f"), nested(vec![(k("[g][h]"), v("i"))]))]),
        )]))]))]))]))])
    );
}

#[test]
fn parse_formencoded_brackets() {
    let parsed = parse(b"abc%5Bdef%5D=ghi", form_config()).unwrap();
    assert_eq!(parsed, map(vec![(k("abc"), nested(vec![(k("def"), v("ghi"))]))]));

    let parsed = parse(b"foo=%5BHello%5D", form_config()).unwrap();
    assert_eq!(parsed, map(vec![(k("foo"), v("[Hello]"))]));
}

#[test]
fn parse_encoded_brackets() {
    let parsed = parse(b"abc%5Bdef%5D=ghi", default_config()).unwrap();
    assert_eq!(parsed, map(vec![(k("abc[def]"), v("ghi"))]));

    let parsed = parse(b"foo=%5BHello%5D", default_config()).unwrap();
    assert_eq!(parsed, map(vec![(k("foo"), v("[Hello]"))]));
}

#[test]
fn decode_brackets() {
    let input = b"a%5Bb%5D=1";
    let expected = b"a[b]=1";
    assert_eq!(decode(input), expected.to_vec());

    let input = b"a%5Bb%5D%5Bc%5D=1";
    let expected = b"a[b][c]=1";
    assert_eq!(decode(input), expected.to_vec());
}

#[test]
fn parse_faults() {
    let cases: [(&[u8], Fault, &str); 8] = [
        (b"a[", Fault::EndedEarly, "query string ended before expected"),
        (b"a[b", Fault::UnexpectedEnd, "unexpected end of input while parsing nested key"),
        (b"a=1&a[b]=2", Fault::ValueAndMap, "invalid input: the same key is used for both a value and a nested map"),
        (b"a&a[b]=2", Fault::UnitAndMap, "invalid input: the same key is used for both a unit value and a nested map"),
        (b"a[]=1&a[b]=2", Fault::SequenceAndMap, "invalid input: the same key is used for both a sequence and a nested map"),
        (b"a[][b]=1", Fault::NestedUnindexed, "unsupported: unable to parse nested maps of unindexed sequences "),
        (b"a[]x=1", Fault::MixedSequence, "unsupported: cannot mix unindexed sequences"),
        (b"a[b]c=1", Fault::UnexpectedChar(b'c'), "unexpected character `c` while parsing nested key: expected `&`, `=` or `[`"),
    ];
    for (input, fault, text) in cases {
        let err = parse(input, default_config()).unwrap_err();
        assert_eq!(err.fault, fault, "input {:?}", std::str::from_utf8(input));
        assert!(err.fault.text().starts_with(text), "got {}", err.fault.text());
    }
    let err = parse(b"a=&a=", default_config()).unwrap_err();
    assert_eq!(err.fault, Fault::Multiple(k("a")));
    assert_eq!(err.fault.text(), "Multiple values for the same key: \"a\"");
}
