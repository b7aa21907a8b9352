use serde_qs::config::Config;
use serde_qs::de::{take_next_field, AnyValue, QsDeserializer, StringParsingDeserializer};
use serde_qs::encode::encode;
use serde_qs::error::Error;
use serde_qs::helpers::{join_delimited, split_delimited};
use serde_qs::ser::{KeySerializer, QsSeq, QsSerializer};
use serde_qs::config::ArrayFormat;
use serde_qs::value::{Key, ParsedMap, ParsedValue};

fn text(s: &str) -> StringParsingDeserializer {
    StringParsingDeserializer::new_str(s)
}

fn parsed(config: Config, s: &str) -> ParsedMap {
    QsDeserializer::with_config(config, s.as_bytes()).unwrap().into_map()
}

#[test]
fn primitive_parsing() {
    assert_eq!(text("42").parse_unsigned(u8::MAX as u64), Some(42));
    assert_eq!(text("+7").parse_unsigned(u64::MAX), Some(7));
    assert_eq!(text("255").parse_unsigned(255), Some(255));
    assert_eq!(text("256").parse_unsigned(255), None);
    assert_eq!(text("18446744073709551615").parse_unsigned(u64::MAX), Some(u64::MAX));
    assert_eq!(text("18446744073709551616").parse_unsigned(u64::MAX), None);
    assert_eq!(text("-0").parse_unsigned(u64::MAX), None);
    assert_eq!(text("").parse_unsigned(u64::MAX), None);
    assert_eq!(text("+").parse_unsigned(u64::MAX), None);
    assert_eq!(text("1a").parse_unsigned(u64::MAX), None);

    assert_eq!(text("-128").parse_signed(i8::MIN as i64, i8::MAX as i64), Some(-128));
    assert_eq!(text("-129").parse_signed(i8::MIN as i64, i8::MAX as i64), None);
    assert_eq!(text("127").parse_signed(i8::MIN as i64, i8::MAX as i64), Some(127));
    assert_eq!(text("+5").parse_signed(i64::MIN, i64::MAX), Some(5));
    assert_eq!(text("-9223372036854775808").parse_signed(i64::MIN, i64::MAX), Some(i64::MIN));
    assert_eq!(text("9223372036854775808").parse_signed(i64::MIN, i64::MAX), None);
    assert_eq!(text("-").parse_signed(i64::MIN, i64::MAX), None);
    assert_eq!(text("-0").parse_signed(0, 10), Some(0));
    assert_eq!(text("-1").parse_signed(0, 10), None);

    assert_eq!(text("true").parse_bool(), Some(true));
    assert_eq!(text("false").parse_bool(), Some(false));
    assert_eq!(text("True").parse_bool(), None);
    assert_eq!(text("").parse_bool(), None);

    // invalid UTF-8 is refused
    assert!(matches!(StringParsingDeserializer::new(vec![0xe9]), Err(Error::Utf8(_))));
    assert_eq!(StringParsingDeserializer::new(b"abc".to_vec()).unwrap().value, "abc");
}

#[test]
fn value_shapes() {
    let m = parsed(Config::new(), "a[x]=1&b[]=1&b[]=2&c=3&d=&e");
    let mut m = m;
    let (_, a) = take_next_field(&mut m, &["a"]).unwrap();
    assert!(matches!(a.into_any().unwrap(), AnyValue::Object(_)));
    let (_, b) = take_next_field(&mut m, &["b"]).unwrap();
    match b.into_any().unwrap() {
        AnyValue::List(vs) => assert_eq!(vs.len(), 2),
        _ => panic!("expected a list"),
    }
    let (_, c) = take_next_field(&mut m, &["c"]).unwrap();
    match c.into_any().unwrap() {
        AnyValue::Text(t) => assert_eq!(t, b"3".to_vec()),
        _ => panic!("expected text"),
    }
    let (_, d) = take_next_field(&mut m, &["d"]).unwrap();
    match d.into_any().unwrap() {
        AnyValue::Text(t) => assert!(t.is_empty()),
        _ => panic!("expected empty text"),
    }
    let (_, e) = take_next_field(&mut m, &["e"]).unwrap();
    assert!(e.expect_unit().is_ok());
    assert!(matches!(e.into_any().unwrap(), AnyValue::Unit));
    match ParsedValue::Uninitialized.into_any() {
        Err(Error::Custom(msg)) => assert_eq!(msg, "internal error: attempted to deserialize unitialised value"),
        _ => panic!("expected an error"),
    }
    match ParsedValue::Null.expect_unit() {
        Err(Error::Custom(msg)) => assert_eq!(msg, "expected unit"),
        _ => panic!("expected an error"),
    }

    assert_eq!(ParsedValue::Null.into_mapping().unwrap().len(), 0);
    assert_eq!(ParsedValue::NoValue.into_mapping().unwrap().len(), 0);
    match ParsedValue::String(b"x".to_vec()).into_mapping() {
        Err(ParsedValue::String(s)) => assert_eq!(s, b"x".to_vec()),
        _ => panic!("expected the value back"),
    }
}

#[test]
fn char_values_and_keys() {
    let mut qs = QsSerializer::new(Config::new());
    KeySerializer::new().serialize_char(&mut qs, 'é').unwrap();
    qs.serialize_char('ü');
    qs.pop_key().unwrap();
    assert_eq!(qs.into_string(), "%C3%A9=%C3%BC");
}

#[test]
fn error_conversions_and_messages() {
    let utf8 = String::from_utf8(vec![0xff]).unwrap_err();
    assert!(matches!(Error::from(utf8), Error::FromUtf8(_)));
    let num = "x".parse::<u8>().unwrap_err();
    let e = Error::from(num);
    assert_eq!(e.message(), "invalid digit found in string");
    let io = std::io::Error::new(std::io::ErrorKind::Other, "disk");
    assert_eq!(Error::from(io).message(), "disk");
    assert_eq!(Error::parse_err("bad", 3).message(), "parsing failed with error: 'bad' at position: 3");
    assert_eq!(Error::Unsupported.message(), "unsupported type for serialization");
    match Error::top_level("u8") {
        Error::Custom(m) => assert_eq!(m, "cannot deserialize u8 at the top level.Try deserializing into a struct."),
        _ => panic!("expected a custom error"),
    }
}

#[test]
fn test_empty() {
    let mut qs = QsSerializer::new(Config::new());
    qs.push_key(b"values").unwrap();
    qs.serialize_str(&join_delimited(&vec![], ','));
    qs.pop_key().unwrap();
    let s = qs.into_string();
    assert_eq!(s, "values=");
    let mut m = parsed(Config::new(), &s);
    let (_, v) = take_next_field(&mut m, &["values"]).unwrap();
    let items = split_delimited(std::str::from_utf8(&v.into_scalar().unwrap_or_default()).unwrap(), ',');
    assert!(items.is_empty());

    let items: Vec<String> = vec!["1".to_string(), "2".to_string(), "3".to_string()];
    let mut qs = QsSerializer::new(Config::new());
    qs.push_key(b"values").unwrap();
    qs.serialize_str(&join_delimited(&items, ','));
    qs.pop_key().unwrap();
    let s = qs.into_string();
    assert_eq!(s, "values=1,2,3");
    let mut m = parsed(Config::new(), &s);
    let (_, v) = take_next_field(&mut m, &["values"]).unwrap();
    let back = split_delimited(std::str::from_utf8(&v.into_scalar().unwrap()).unwrap(), ',');
    assert_eq!(back, items);
}

// ---------- the laws on concrete values ----------

fn write_flat(config: Config, pairs: &[(&[u8], &[u8])]) -> String {
    let mut qs = QsSerializer::new(config);
    for (k, v) in pairs {
        qs.push_key(k).unwrap();
        qs.write_value(v);
        qs.pop_key().unwrap();
    }
    qs.into_string()
}

#[test]
fn flat_pairs_read_back() {
    let pairs: [(&[u8], &[u8]); 6] = [
        (b"plain", b"value"),
        (b"sp ace", b"a b&c=d"),
        (b"100%", b"%41"),
        (b"[x]", b"]["),
        (b"", b"empty key"),
        (b"e", b""),
    ];
    let query = write_flat(Config::new(), &pairs);
    let m = parsed(Config::new(), &query);
    assert_eq!(m.len(), pairs.len());
    for (k, v) in pairs {
        let idx = m.entries.iter().position(|(key, _)| key == &Key::String(k.to_vec())).expect("key");
        let expected = if v.is_empty() { ParsedValue::Null } else { ParsedValue::String(v.to_vec()) };
        assert_eq!(m.entries[idx].1, expected, "query {}", query);
    }

    // form encoding: keys are written encoded twice, so they read back
    // encoded once, brackets included
    let form = Config::new().use_form_encoding(true);
    let pairs: [(&[u8], &[u8]); 4] = [(b"sp ace", b"a b&c=[d]"), (b"x]", b"1"), (b"[y", b"2"), (b"0", b"zero")];
    let query = write_flat(form, &pairs);
    assert_eq!(query, "sp%2520ace=a%20b%26c%3D%5Bd%5D&x%255D=1&%255By=2&0=zero");
    let m = parsed(form, &query);
    assert_eq!(m.len(), 4);
    assert_eq!(m.entries[0], (Key::Int(0), ParsedValue::String(b"zero".to_vec())));
    assert!(m.entries.contains(&(Key::String(b"sp%20ace".to_vec()), ParsedValue::String(b"a b&c=[d]".to_vec()))));
    assert!(m.entries.contains(&(Key::String(b"x%5D".to_vec()), ParsedValue::String(b"1".to_vec()))));
    assert!(m.entries.contains(&(Key::String(b"%5By".to_vec()), ParsedValue::String(b"2".to_vec()))));
}

fn has_map(v: &ParsedValue) -> bool {
    match v {
        ParsedValue::Mapping(_) => true,
        ParsedValue::Sequence(vs) => vs.iter().any(has_map),
        _ => false,
    }
}

#[test]
fn depth_is_bounded() {
    let flat = parsed(Config::new().max_depth(0), "a[b][c]=1&d[]=2");
    assert!(flat.entries.iter().all(|(_, v)| !has_map(v)));
    assert_eq!(flat.entries[0].0, Key::String(b"a[b][c]".to_vec()));

    let one = parsed(Config::new().max_depth(1), "a[b][c]=1");
    match &one.entries[0].1 {
        ParsedValue::Mapping(inner) => match &inner.entries[0].1 {
            ParsedValue::Mapping(leaf) => {
                assert_eq!(leaf.entries[0].0, Key::String(b"[c]".to_vec()));
                assert!(!has_map(&leaf.entries[0].1));
            },
            other => panic!("got {:?}", other),
        },
        other => panic!("got {:?}", other),
    }
}

fn key_less(a: &Key, b: &Key) -> bool {
    match (a, b) {
        (Key::Int(x), Key::Int(y)) => x < y,
        (Key::Int(_), Key::String(_)) => true,
        (Key::String(_), Key::Int(_)) => false,
        (Key::String(x), Key::String(y)) => x < y,
    }
}

fn check_ordered(m: &ParsedMap) {
    for w in m.entries.windows(2) {
        assert!(key_less(&w[0].0, &w[1].0), "{:?} before {:?}", w[0].0, w[1].0);
    }
    for (_, v) in &m.entries {
        if let ParsedValue::Mapping(inner) = v {
            check_ordered(inner);
        }
    }
}

#[test]
fn keys_come_in_order() {
    let m = parsed(Config::new(), "b=1&a=2&10=x&2=y&a=3&z[9]=1&z[10]=2&z[x]=3&z[1]=4");
    check_ordered(&m);
    assert_eq!(m.entries[0].0, Key::Int(2));
    assert_eq!(m.entries[1].0, Key::Int(10));
    assert_eq!(m.entries[2], (Key::String(b"a".to_vec()), ParsedValue::Sequence(vec![
        ParsedValue::String(b"2".to_vec()),
        ParsedValue::String(b"3".to_vec()),
    ])));
}

#[test]
fn encoding_escapes_delimiters() {
    for form in [false, true] {
        let e = encode(b"a&b=c[d]%e f", form);
        for (i, b) in e.iter().enumerate() {
            assert!(!matches!(b, b'&' | b'=' | b'[' | b']'), "raw delimiter in {:?}", e);
            if *b == b'%' {
                assert!(i + 2 < e.len());
            }
        }
    }
    assert_eq!(encode(b"a&b=c[d]%e f", false), b"a%26b%3Dc%5Bd%5D%25e+f".to_vec());
    assert_eq!(encode(b"a&b=c[d]%e f", true), b"a%26b%3Dc%5Bd%5D%25e%20f".to_vec());
}

#[test]
fn implicit_lists() {
    let mut m = parsed(Config::new(), "v=1&v=2&v=3");
    let (_, v) = take_next_field(&mut m, &["v"]).unwrap();
    let items: Vec<Vec<u8>> = v.into_sequence().unwrap().into_iter().map(|x| x.into_scalar().unwrap()).collect();
    assert_eq!(items, vec![b"1".to_vec(), b"2".to_vec(), b"3".to_vec()]);
}

fn lookup<'a>(m: &'a ParsedMap, path: &[Key]) -> Option<&'a ParsedValue> {
    let (first, rest) = path.split_first()?;
    let (_, v) = m.entries.iter().find(|(k, _)| k == first)?;
    if rest.is_empty() {
        Some(v)
    } else {
        match v {
            ParsedValue::Mapping(inner) => lookup(inner, rest),
            _ => None,
        }
    }
}

fn count_values(m: &ParsedMap) -> usize {
    m.entries
        .iter()
        .map(|(_, v)| match v {
            ParsedValue::Mapping(inner) => count_values(inner),
            ParsedValue::Uninitialized => 0,
            _ => 1,
        })
        .sum()
}

#[test]
fn nested_entries_read_back() {
    let entries: [(&[&[u8]], Option<&[u8]>); 7] = [
        (&[b"user", b"name"], Some(&b"Jo Bloggs"[..])),
        (&[b"user", b"tags", b"0"], Some(&b"a&b"[..])),
        (&[b"user", b"tags", b"1"], Some(&b""[..])),
        (&[b"user", b"nick"], None),
        (&[b"odd key", b"%5B"], Some(&b"="[..])),
        (&[b"flat"], Some(&b"x y"[..])),
        (&[b"bare"], None),
    ];
    for config in [Config::new(), Config::new().use_form_encoding(true)] {
        let mut qs = QsSerializer::new(config);
        for (path, v) in entries {
            for k in path {
                qs.push_key(k).unwrap();
            }
            match v {
                Some(v) => qs.write_value(v),
                None => qs.write_no_value(),
            }
            for _ in path {
                qs.pop_key().unwrap();
            }
        }
        let query = qs.into_string();
        let m = parsed(config, &query);
        for (path, v) in entries {
            // form encoding writes keys encoded twice, so they read back
            // encoded once
            let keys: Vec<Key> = path
                .iter()
                .map(|k| match std::str::from_utf8(k).unwrap().parse::<usize>() {
                    Ok(i) => Key::Int(i),
                    Err(_) if config.use_form_encoding => Key::String(encode(k, true)),
                    Err(_) => Key::String(k.to_vec()),
                })
                .collect();
            let expected = match v {
                None => ParsedValue::NoValue,
                Some(v) if v.is_empty() => ParsedValue::Null,
                Some(v) => ParsedValue::String(v.to_vec()),
            };
            assert_eq!(lookup(&m, &keys), Some(&expected), "query {}", query);
        }
        assert_eq!(count_values(&m), entries.len());
    }
}

#[test]
fn repeated_keys_collect_values() {
    let m = parsed(Config::new(), "k=a&k=b&k=c");
    assert_eq!(
        m.entries,
        vec![(
            Key::String(b"k".to_vec()),
            ParsedValue::Sequence(vec![
                ParsedValue::String(b"a".to_vec()),
                ParsedValue::String(b"b".to_vec()),
                ParsedValue::String(b"c".to_vec()),
            ])
        )]
    );
    let m = parsed(Config::new(), "k=a&k=");
    assert_eq!(
        m.entries[0].1,
        ParsedValue::Sequence(vec![ParsedValue::String(b"a".to_vec()), ParsedValue::Null])
    );
    match QsDeserializer::new(b"k=&k=a") {
        Err(e) => assert_eq!(e.message(), "parsing failed with error: 'Multiple values for the same key: \"k\"' at position: 7"),
        Ok(_) => panic!("expected an error"),
    }
}

#[test]
fn empty_indexed_sequences_read_back() {
    let values: [Option<&[u8]>; 4] = [Some(&b"a b"[..]), None, Some(&b""[..]), Some(&b"x&y=z"[..])];
    for form in [false, true] {
        let mut config = Config::new().use_form_encoding(form);
        config.array_format = ArrayFormat::EmptyIndexed;
        let mut qs = QsSerializer::new(config);
        qs.push_key(b"list").unwrap();
        let mut seq = QsSeq::new();
        for v in values {
            seq.push_key(&mut qs).unwrap();
            match v {
                Some(v) => qs.write_value(v),
                None => qs.write_no_value(),
            }
            seq.pop_key(&mut qs).unwrap();
        }
        qs.pop_key().unwrap();
        let query = qs.into_string();
        let expected_query = if form { "list%5B%5D=a%20b&list%5B%5D&list%5B%5D=&list%5B%5D=x%26y%3Dz" } else { "list[]=a+b&list[]&list[]=&list[]=x%26y%3Dz" };
        assert_eq!(query, expected_query);
        let m = parsed(config, &query);
        assert_eq!(
            m.entries,
            vec![(
                Key::String(b"list".to_vec()),
                ParsedValue::Sequence(vec![
                    ParsedValue::String(b"a b".to_vec()),
                    ParsedValue::NoValue,
                    ParsedValue::Null,
                    ParsedValue::String(b"x&y=z".to_vec()),
                ])
            )]
        );
    }
}

#[test]
fn form_encoding_writes_keys_twice() {
    // `{ a: { "[x]": 1 } }`
    let write = |config: Config| {
        let mut qs = QsSerializer::new(config);
        qs.push_key(b"a").unwrap();
        qs.push_key(b"[x]").unwrap();
        qs.write_value(b"1");
        qs.pop_key().unwrap();
        qs.pop_key().unwrap();
        qs.into_string()
    };
    assert_eq!(write(Config::new()), "a[%5Bx%5D]=1");
    let form = Config::new().use_form_encoding(true);
    let s = write(form);
    assert_eq!(s, "a%5B%255Bx%255D%5D=1");
    // and it reads back with the inner key encoded once
    let m = parsed(form, &s);
    assert_eq!(
        m.entries,
        vec![(
            Key::String(b"a".to_vec()),
            ParsedValue::Mapping(ParsedMap { entries: vec![(Key::String(b"%5Bx%5D".to_vec()), ParsedValue::String(b"1".to_vec()))] })
        )]
    );
}

#[test]
fn pair_order_does_not_matter() {
    for config in [Config::new(), Config::new().use_form_encoding(true)] {
        let a = parsed(config, "b=2&a=1&c=x+y&0=zero");
        let b = parsed(config, "0=zero&c=x+y&b=2&a=1");
        let c = parsed(config, "c=x+y&0=zero&a=1&b=2");
        assert_eq!(a, b);
        assert_eq!(a, c);
    }
}

#[test]
fn repeated_keys_below_the_deepest_map() {
    // with no nesting, a repeated key is the one sequence
    let m = parsed(Config::new().max_depth(0), "a=1&a=2&b[c]=3");
    assert_eq!(
        m.entries,
        vec![
            (Key::String(b"a".to_vec()), ParsedValue::Sequence(vec![ParsedValue::String(b"1".to_vec()), ParsedValue::String(b"2".to_vec())])),
            (Key::String(b"b[c]".to_vec()), ParsedValue::String(b"3".to_vec())),
        ]
    );
    // a repeated key in the deepest map makes a sequence one level below it
    let m = parsed(Config::new().max_depth(1), "a[b][c]=1&a[b][c]=2");
    let inner = ParsedMap {
        entries: vec![(
            Key::String(b"[c]".to_vec()),
            ParsedValue::Sequence(vec![ParsedValue::String(b"1".to_vec()), ParsedValue::String(b"2".to_vec())]),
        )],
    };
    let b = ParsedMap { entries: vec![(Key::String(b"b".to_vec()), ParsedValue::Mapping(inner))] };
    assert_eq!(m.entries, vec![(Key::String(b"a".to_vec()), ParsedValue::Mapping(b))]);
}

#[test]
fn nested_pair_order_does_not_matter() {
    let a = "name=Acme&id=42&phone=12345&address[postcode]=12345&address[city]=Carrot+City&\
             user_ids[]=1&user_ids[]=2&user_ids[]=3&user_ids[]=4";
    let b = "address[city]=Carrot+City&user_ids[]=1&user_ids[]=2&name=Acme&id=42&phone=12345&\
             address[postcode]=12345&user_ids[]=3&user_ids[]=4";
    assert_eq!(parsed(Config::new(), a), parsed(Config::new(), b));
    let form = Config::new().use_form_encoding(true);
    let fa = a.replace('[', "%5B").replace(']', "%5D");
    let fb = b.replace('[', "%5B").replace(']', "%5D");
    assert_eq!(parsed(form, &fa), parsed(form, &fb));
    assert_eq!(parsed(form, &fa), parsed(Config::new(), a));
    // sequences below nested keys too
    assert_eq!(
        parsed(Config::new(), "a[b][]=1&x=2&a[c]=4&a[b][]=3"),
        parsed(Config::new(), "x=2&a[b][]=1&a[b][]=3&a[c]=4")
    );
}
