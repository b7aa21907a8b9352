use serde_qs::config::Config;
use serde_qs::de::{take_next_field, QsDeserializer};
use serde_qs::error::Error;
use serde_qs::ser::{KeySerializer, QsMap, QsSeq, QsSerializer};
use serde_qs::value::{Key, ParsedValue};
use serde_qs::ArrayFormat;

fn with_field<F>(qs: &mut QsSerializer, name: &str, value: F) -> Result<(), Error>
where
    F: FnOnce(&mut QsSerializer) -> Result<(), Error>,
{
    qs.push_key(name.as_bytes())?;
    value(qs)?;
    qs.pop_key()
}

fn seq_of<F>(qs: &mut QsSerializer, n: usize, mut element: F) -> Result<(), Error>
where
    F: FnMut(&mut QsSerializer, usize) -> Result<(), Error>,
{
    let mut seq = QsSeq::new();
    for i in 0..n {
        seq.push_key(qs)?;
        element(qs, i)?;
        seq.pop_key(qs)?;
    }
    seq.end(qs);
    Ok(())
}

fn run<F>(config: Config, ser: F) -> Result<String, Error>
where
    F: FnOnce(&mut QsSerializer) -> Result<(), Error>,
{
    let mut qs = QsSerializer::new(config);
    ser(&mut qs)?;
    Ok(qs.into_string())
}

fn string_map(qs: &mut QsSerializer, entries: &[(&str, &str)]) -> Result<(), Error> {
    let mut map = QsMap::new();
    let keys = KeySerializer::new();
    for (k, v) in entries {
        map.note_key();
        keys.serialize_str(qs, k)?;
        qs.serialize_str(v);
        qs.pop_key()?;
    }
    map.end(qs);
    Ok(())
}

#[test]
fn serialize_struct() {
    let s = run(Config::new(), |qs| {
        with_field(qs, "id", |qs| Ok(qs.serialize_u64(42)))?;
        with_field(qs, "name", |qs| Ok(qs.serialize_str("Acme")))?;
        with_field(qs, "phone", |qs| Ok(qs.serialize_u64(12345)))?;
        with_field(qs, "address", |qs| {
            with_field(qs, "city", |qs| Ok(qs.serialize_str("Carrot City")))?;
            with_field(qs, "street", |qs| Ok(qs.serialize_str("Special-Street* No. 11")))?;
            with_field(qs, "postcode", |qs| Ok(qs.serialize_str("12345")))
        })?;
        with_field(qs, "user_ids", |qs| seq_of(qs, 4, |qs, i| Ok(qs.serialize_u64(i as u64 + 1))))
    })
    .unwrap();
    assert_eq!(
        s,
        "id=42&name=Acme&phone=12345&address[city]=Carrot+City&\
         address[street]=Special-Street*+No.+11&\
         address[postcode]=12345&user_ids[0]=1&user_ids[1]=2&\
         user_ids[2]=3&user_ids[3]=4"
    );
}

#[test]
fn serialize_option() {
    let none = run(Config::new(), |qs| with_field(qs, "vec", |qs| Ok(qs.write_no_value()))).unwrap();
    assert_eq!(none, "vec");
    let some = run(Config::new(), |qs| {
        with_field(qs, "vec", |qs| seq_of(qs, 2, |qs, i| Ok(qs.serialize_u64(i as u64 + 1))))
    })
    .unwrap();
    assert_eq!(some, "vec[0]=1&vec[1]=2");
}

#[test]
fn serialize_enum() {
    let a = run(Config::new(), |qs| with_field(qs, "e", |qs| qs.serialize_unit_variant("a"))).unwrap();
    assert_eq!(a, "e[a]");
    let b = run(Config::new(), |qs| {
        with_field(qs, "e", |qs| with_field(qs, "b", |qs| Ok(qs.serialize_bool(true))))
    })
    .unwrap();
    assert_eq!(b, "e[b]=true");
    let c = run(Config::new(), |qs| {
        with_field(qs, "e", |qs| {
            qs.push_key(b"c")?;
            with_field(qs, "x", |qs| Ok(qs.serialize_u64(2)))?;
            with_field(qs, "y", |qs| Ok(qs.serialize_u64(3)))?;
            qs.pop_key()
        })
    })
    .unwrap();
    assert_eq!(c, "e[c][x]=2&e[c][y]=3");
    let d = run(Config::new(), |qs| {
        with_field(qs, "e", |qs| {
            qs.push_key(b"d")?;
            let mut seq = QsSeq::new();
            for v in [128u64, 1] {
                seq.push_key(qs)?;
                qs.serialize_u64(v);
                seq.pop_key(qs)?;
            }
            seq.end_variant(qs)
        })
    })
    .unwrap();
    assert_eq!(d, "e[d][0]=128&e[d][1]=1");
}

#[test]
fn serialize_flatten() {
    let s = run(Config::new(), |qs| {
        with_field(qs, "a", |qs| Ok(qs.serialize_u64(1)))?;
        string_map(qs, &[])?;
        Ok(())
    });
    // an empty flattened map writes a unit value with no key and no separator
    assert_eq!(s.unwrap(), "a=1=");
    let s = run(Config::new(), |qs| {
        with_field(qs, "a", |qs| Ok(qs.serialize_u64(1)))?;
        with_field(qs, "limit", |qs| Ok(qs.serialize_u64(100)))?;
        with_field(qs, "offset", |qs| Ok(qs.serialize_u64(50)))
    });
    assert_eq!(s.unwrap(), "a=1&limit=100&offset=50");
}

#[test]
fn serialize_bytes() {
    let s = run(Config::new(), |qs| with_field(qs, "bytes", |qs| Ok(qs.write_value(b"hello, world!")))).unwrap();
    assert_eq!(s, "bytes=hello,+world!");
    let form = Config::new().use_form_encoding(true);
    let s = run(form, |qs| with_field(qs, "bytes", |qs| Ok(qs.write_value(b"hello, world!")))).unwrap();
    assert_eq!(s, "bytes=hello%2C%20world%21");
}

#[test]
fn serialize_map_keys() {
    let s = run(Config::new(), |qs| {
        with_field(qs, "attrs", |qs| string_map(qs, &[("key 1!", "val 1"), ("key 2!", "val 2")]))
    })
    .unwrap();
    assert_eq!(s, "attrs[key+1!]=val+1&attrs[key+2!]=val+2");
}

#[test]
fn test_serializer() {
    let s = run(Config::new(), |qs| {
        with_field(qs, "a", |qs| seq_of(qs, 2, |qs, i| Ok(qs.serialize_u64(i as u64))))?;
        with_field(qs, "b", |qs| Ok(qs.serialize_str("b")))
    })
    .unwrap();
    assert_eq!(s, "a[0]=0&a[1]=1&b=b");
    let s = run(Config::new(), |qs| {
        with_field(qs, "a", |qs| seq_of(qs, 2, |qs, i| Ok(qs.serialize_u64(3 - i as u64))))?;
        with_field(qs, "b", |qs| Ok(qs.serialize_str("a")))
    })
    .unwrap();
    assert_eq!(s, "a[0]=3&a[1]=2&b=a");
}

#[test]
fn test_serializer_unit() {
    assert_eq!(run(Config::new(), |qs| Ok(qs.write_unit())).unwrap(), "=");
    assert_eq!(run(Config::new(), |qs| with_field(qs, "t", |qs| Ok(qs.write_unit()))).unwrap(), "t=");
}

#[test]
fn formencoding() {
    let form = Config::new().use_form_encoding(true);
    let s = run(form, |qs| {
        with_field(qs, "data", |qs| {
            seq_of(qs, 2, |qs, i| {
                let (a, b) = if i == 0 { (1, "test!") } else { (2, "example:.") };
                with_field(qs, "a", |qs| Ok(qs.serialize_u64(a)))?;
                with_field(qs, "b", |qs| Ok(qs.serialize_str(b)))
            })
        })
    })
    .unwrap();
    assert_eq!(
        s,
        "data%5B0%5D%5Ba%5D=1&data%5B0%5D%5Bb%5D=test%21&data%5B1%5D%5Ba%5D=2&data%5B1%5D%5Bb%5D=example%3A."
    );
}

fn nested(qs: &mut QsSerializer, b: &[u64], c: &[Vec<u64>]) -> Result<(), Error> {
    with_field(qs, "a", |qs| Ok(qs.serialize_u64(1)))?;
    if !b.is_empty() {
        with_field(qs, "b", |qs| seq_of(qs, b.len(), |qs, i| Ok(qs.serialize_u64(b[i]))))?;
    }
    if !c.is_empty() {
        with_field(qs, "c", |qs| {
            seq_of(qs, c.len(), |qs, i| seq_of(qs, c[i].len(), |qs, j| Ok(qs.serialize_u64(c[i][j]))))
        })?;
    }
    Ok(())
}

#[test]
fn max_depth() {
    let none: (Vec<u64>, Vec<Vec<u64>>) = (vec![], vec![]);
    let one: (Vec<u64>, Vec<Vec<u64>>) = (vec![2, 3], vec![]);
    let two: (Vec<u64>, Vec<Vec<u64>>) = (vec![2, 3], vec![vec![4]]);
    let zero = Config::new().max_depth(0);
    let d1 = Config::new().max_depth(1);
    let d2 = Config::new().max_depth(2);

    for config in [zero, d1, d2] {
        assert_eq!(run(config, |qs| nested(qs, &none.0, &none.1)).unwrap(), "a=1");
    }

    let err = run(zero, |qs| nested(qs, &one.0, &one.1)).unwrap_err();
    assert!(err.message().contains("Maximum serialization depth"));
    assert_eq!(run(d1, |qs| nested(qs, &one.0, &one.1)).unwrap(), "a=1&b[0]=2&b[1]=3");
    assert_eq!(run(d2, |qs| nested(qs, &one.0, &one.1)).unwrap(), "a=1&b[0]=2&b[1]=3");

    for config in [zero, d1] {
        let err = run(config, |qs| nested(qs, &two.0, &two.1)).unwrap_err();
        assert!(err.message().contains("Maximum serialization depth"));
    }
    assert_eq!(run(d2, |qs| nested(qs, &two.0, &two.1)).unwrap(), "a=1&b[0]=2&b[1]=3&c[0][0]=4");

    match run(zero, |qs| nested(qs, &one.0, &one.1)) {
        Err(Error::MaxSerializationDepthExceeded(d)) => assert_eq!(d, 0),
        other => panic!("got {:?}", other),
    }
    assert_eq!(Error::MaxSerializationDepthExceeded(3).message(), "Maximum serialization depth `3` exceeded");
}

// ---------- regressions ----------

fn one_field(config: Config, name: &str, value: &str) -> String {
    run(config, |qs| with_field(qs, name, |qs| Ok(qs.serialize_str(value)))).unwrap()
}

fn read_one(config: Config, s: &str, name: &str) -> Vec<u8> {
    let mut m = QsDeserializer::with_config(config, s.as_bytes()).unwrap().into_map();
    let (_, v) = take_next_field(&mut m, &[name]).expect("field");
    v.into_scalar().unwrap()
}

#[test]
fn double_encoding_keys() {
    let s = one_field(Config::new(), "full name", "John Doe");
    assert_eq!(s, "full+name=John+Doe");
    assert_eq!(read_one(Config::new(), &s, "full name"), b"John Doe".to_vec());
}

#[test]
fn percent_signs_roundtrip() {
    for value in ["%41", "100%25", "a%3Db", "%5Bx%5D", "%AD0", "%c5", "50%"] {
        let s = one_field(Config::new(), "name", value);
        assert_eq!(read_one(Config::new(), &s, "name"), value.as_bytes().to_vec(), "encoded as {}", s);
    }
    assert_eq!(one_field(Config::new(), "name", "%41"), "name=%2541");

    let map_key = |key: &str| {
        run(Config::new(), |qs| with_field(qs, "a", |qs| string_map(qs, &[(key, "1")]))).unwrap()
    };
    for key in ["K%47", "%5Bx%5D", "[x]"] {
        let s = map_key(key);
        let mut m = QsDeserializer::new(s.as_bytes()).unwrap().into_map();
        let (_, v) = take_next_field(&mut m, &["a"]).unwrap();
        match v {
            ParsedValue::Mapping(inner) => {
                assert_eq!(inner.entries.len(), 1);
                assert_eq!(inner.entries[0].0, Key::String(key.as_bytes().to_vec()), "encoded as {}", s);
            },
            other => panic!("got {:?}", other),
        }
    }
    assert_ne!(map_key("[x]"), map_key("%5Bx%5D"));
}

#[test]
fn form_encoded_brackets_are_case_insensitive() {
    let config = Config::new().use_form_encoding(true);
    for encoded in ["abc%5Bdef%5D=ghi", "abc%5bdef%5d=ghi", "abc%5Bdef%5d=ghi"] {
        let mut m = QsDeserializer::with_config(config, encoded.as_bytes()).unwrap().into_map();
        let (_, v) = take_next_field(&mut m, &["abc"]).expect("nested");
        match v {
            ParsedValue::Mapping(mut inner) => {
                let (_, d) = take_next_field(&mut inner, &["def"]).unwrap();
                assert_eq!(d.into_scalar().unwrap(), b"ghi".to_vec());
            },
            other => panic!("{} gave {:?}", encoded, other),
        }
    }
    for (encoded, key) in [("abc%255Bdef%255D=ghi", "abc%5Bdef%5D"), ("abc%255bdef%255d=ghi", "abc%5bdef%5d")] {
        let m = QsDeserializer::with_config(config, encoded.as_bytes()).unwrap().into_map();
        assert_eq!(m.entries.len(), 1);
        assert_eq!(m.entries[0].0, Key::String(key.as_bytes().to_vec()));
    }
}

#[test]
fn key_serializer_kinds() {
    let s = run(Config::new(), |qs| {
        with_field(qs, "m", |qs| {
            let keys = KeySerializer::new();
            keys.serialize_u64(qs, 7)?;
            qs.serialize_bool(false);
            qs.pop_key()?;
            keys.serialize_i64(qs, -3)?;
            qs.serialize_i64(-40);
            qs.pop_key()?;
            keys.serialize_bool(qs, true)?;
            qs.serialize_u64(0);
            qs.pop_key()
        })
    })
    .unwrap();
    assert_eq!(s, "m[7]=false&m[-3]=-40&m[true]=0");
    assert!(matches!(KeySerializer::new().unsupported(), Error::Unsupported));
}

#[test]
fn pop_without_key_is_an_error() {
    let mut qs = QsSerializer::new(Config::new());
    match qs.pop_key() {
        Err(Error::Custom(m)) => assert_eq!(m, "internal error: no key found"),
        other => panic!("got {:?}", other),
    }
}

#[test]
fn array_formats() {
    for (format, expected) in [
        (ArrayFormat::Indexed, "v[0]=1&v[1]=2"),
        (ArrayFormat::EmptyIndexed, "v[]=1&v[]=2"),
        (ArrayFormat::Unindexed, "v=1&v=2"),
    ] {
        let mut config = Config::new();
        config.array_format = format;
        let s = run(config, |qs| with_field(qs, "v", |qs| seq_of(qs, 2, |qs, i| Ok(qs.serialize_u64(i as u64 + 1))))).unwrap();
        assert_eq!(s, expected);
        // each format reads back as the same two values
        let mut m = QsDeserializer::with_config(config, s.as_bytes()).unwrap().into_map();
        let (_, v) = take_next_field(&mut m, &["v"]).unwrap();
        let items: Vec<Vec<u8>> = v.into_sequence().unwrap().into_iter().map(|x| x.into_scalar().unwrap()).collect();
        assert_eq!(items, vec![b"1".to_vec(), b"2".to_vec()]);
    }
}
