use serde_qs::config::Config;
use serde_qs::de::{take_next_field, Leaf, QsDeserializer};
use serde_qs::error::Error;
use serde_qs::ser::{QsMap, QsSeq, QsSerializer};
use serde_qs::value::{ParsedMap, ParsedValue};

// ---------- driving the serializer as a derived `Serialize` does ----------

fn field<F>(qs: &mut QsSerializer, name: &str, value: F) -> Result<(), Error>
where
    F: FnOnce(&mut QsSerializer) -> Result<(), Error>,
{
    qs.push_key(name.as_bytes())?;
    value(qs)?;
    qs.pop_key()
}

fn seq_u64(qs: &mut QsSerializer, items: &[u64]) -> Result<(), Error> {
    let mut seq = QsSeq::new();
    for item in items {
        seq.push_key(qs)?;
        qs.serialize_u64(*item);
        seq.pop_key(qs)?;
    }
    seq.end(qs);
    Ok(())
}

fn empty_seq(qs: &mut QsSerializer) -> Result<(), Error> {
    QsSeq::new().end(qs);
    Ok(())
}

fn empty_map(qs: &mut QsSerializer) -> Result<(), Error> {
    QsMap::new().end(qs);
    Ok(())
}

fn serialize_with<F>(config: Config, ser: F) -> String
where
    F: FnOnce(&mut QsSerializer) -> Result<(), Error>,
{
    let mut qs = QsSerializer::new(config);
    ser(&mut qs).expect("serialize");
    qs.into_string()
}

fn configs() -> [(Config, bool); 2] {
    [
        (Config::new().use_form_encoding(false), false),
        (Config::new().use_form_encoding(true), true),
    ]
}

// ---------- reading the parsed map as a derived `Deserialize` does ----------

fn parsed(config: Config, s: &str) -> ParsedMap {
    QsDeserializer::with_config(config, s.as_bytes()).expect("deserialize").into_map()
}

fn take(map: &mut ParsedMap, name: &str) -> ParsedValue {
    let (idx, v) = take_next_field(map, &[name]).expect("missing field");
    assert_eq!(idx, 0);
    v
}

fn as_u64(v: ParsedValue) -> u64 {
    let b = v.into_scalar().expect("scalar");
    std::str::from_utf8(&b).unwrap().parse().unwrap()
}

fn as_bytes(v: ParsedValue) -> Vec<u8> {
    match v.into_leaf().expect("leaf") {
        Leaf::Bytes(b) => b,
        Leaf::Other(o) => panic!("expected bytes, found {:?}", o),
    }
}

fn as_string(v: ParsedValue) -> String {
    String::from_utf8(as_bytes(v)).unwrap()
}

fn as_struct(v: ParsedValue) -> ParsedMap {
    match v {
        ParsedValue::Mapping(m) => m,
        other => panic!("expected a map, found {:?}", other),
    }
}

fn as_u64_seq(v: ParsedValue) -> Vec<u64> {
    v.into_sequence().expect("sequence").into_iter().map(as_u64).collect()
}

fn read_flat(mut m: ParsedMap) -> (u64, u64) {
    let a = as_u64(take(&mut m, "a"));
    let b = as_u64(take(&mut m, "b"));
    assert!(m.is_empty());
    (a, b)
}

// ---------- roundtrips ----------

#[test]
fn flat_struct() {
    for (config, _) in configs() {
        let s = serialize_with(config, |qs| {
            field(qs, "a", |qs| Ok(qs.serialize_u64(1)))?;
            field(qs, "b", |qs| Ok(qs.serialize_u64(2)))
        });
        assert_eq!(s, "a=1&b=2");
        assert_eq!(read_flat(parsed(config, &s)), (1, 2));
    }
}

fn ser_nested_options(qs: &mut QsSerializer, opt_struct: Option<(u64, u64)>, opt_empty: Option<&str>) -> Result<(), Error> {
    field(qs, "opt_struct", |qs| match opt_struct {
        Some((a, b)) => {
            field(qs, "a", |qs| Ok(qs.serialize_u64(a)))?;
            field(qs, "b", |qs| Ok(qs.serialize_u64(b)))
        },
        None => Ok(qs.write_no_value()),
    })?;
    field(qs, "opt_empty_string", |qs| match opt_empty {
        Some(s) => Ok(qs.serialize_str(s)),
        None => Ok(qs.write_no_value()),
    })
}

fn read_nested_options(mut m: ParsedMap) -> (Option<(u64, u64)>, Option<String>) {
    let s = take(&mut m, "opt_struct").into_option().map(|v| read_flat(as_struct(v)));
    let e = take(&mut m, "opt_empty_string").into_option().map(as_string);
    assert!(m.is_empty());
    (s, e)
}

#[test]
fn nested_options() {
    for (config, form) in configs() {
        let s = serialize_with(config, |qs| ser_nested_options(qs, Some((10, 20)), Some("")));
        if form {
            assert_eq!(s, "opt_struct%5Ba%5D=10&opt_struct%5Bb%5D=20&opt_empty_string=");
        } else {
            assert_eq!(s, "opt_struct[a]=10&opt_struct[b]=20&opt_empty_string=");
        }
        assert_eq!(read_nested_options(parsed(config, &s)), (Some((10, 20)), Some(String::new())));
    }

    for (config, _) in configs() {
        let s = serialize_with(config, |qs| ser_nested_options(qs, None, None));
        assert_eq!(s, "opt_struct&opt_empty_string");
        assert_eq!(read_nested_options(parsed(config, &s)), (None, None));
    }
}

#[test]
fn phantom_data_types() {
    for value in [100u64, 1000] {
        for (config, _) in configs() {
            // the phantom field is skipped
            let s = serialize_with(config, |qs| field(qs, "value", |qs| Ok(qs.serialize_u64(value))));
            assert_eq!(s, format!("value={}", value));
            let mut m = parsed(config, &s);
            assert_eq!(as_u64(take(&mut m, "value")), value);
            assert!(m.is_empty());
        }
    }
}

#[test]
fn all_empty_collections() {
    for (config, _) in configs() {
        let s = serialize_with(config, |qs| {
            field(qs, "empty_vec", empty_seq)?;
            field(qs, "empty_vec_vec", empty_seq)?;
            field(qs, "empty_hashmap", empty_map)?;
            field(qs, "empty_btreemap", empty_map)?;
            field(qs, "empty_option_vec", empty_seq)?;
            field(qs, "empty_string", |qs| Ok(qs.serialize_str("")))
        });
        assert_eq!(
            s,
            "empty_vec=&empty_vec_vec=&empty_hashmap=&empty_btreemap=&empty_option_vec=&empty_string="
        );
        let mut m = parsed(config, &s);
        assert!(take(&mut m, "empty_vec").into_sequence().unwrap().is_empty());
        assert!(take(&mut m, "empty_vec_vec").into_sequence().unwrap().is_empty());
        for name in ["empty_hashmap", "empty_btreemap"] {
            match take(&mut m, name) {
                ParsedValue::Null => {},
                other => panic!("expected an empty map, found {:?}", other),
            }
        }
        let opt = take(&mut m, "empty_option_vec").into_option().expect("present");
        assert!(opt.into_sequence().unwrap().is_empty());
        assert_eq!(as_string(take(&mut m, "empty_string")), "");
        assert!(m.is_empty());
    }
}

#[test]
fn bytes_types() {
    let byte_vec: Vec<u8> = vec![0, 1, 2, 255, 128, 64];
    let regular: Vec<u64> = vec![10, 20, 30, 40];
    for (config, form) in configs() {
        let s = serialize_with(config, |qs| {
            field(qs, "byte_vec", |qs| Ok(qs.write_value(&byte_vec)))?;
            field(qs, "regular_u8_vec", |qs| seq_u64(qs, &regular))
        });
        if form {
            assert_eq!(
                s,
                "byte_vec=%00%01%02%FF%80%40&regular_u8_vec%5B0%5D=10&regular_u8_vec%5B1%5D=20\
                 &regular_u8_vec%5B2%5D=30&regular_u8_vec%5B3%5D=40"
            );
        } else {
            assert_eq!(
                s,
                "byte_vec=%00%01%02%FF%80@&regular_u8_vec[0]=10&regular_u8_vec[1]=20\
                 &regular_u8_vec[2]=30&regular_u8_vec[3]=40"
            );
        }
        let mut m = parsed(config, &s);
        assert_eq!(as_bytes(take(&mut m, "byte_vec")), byte_vec);
        assert_eq!(as_u64_seq(take(&mut m, "regular_u8_vec")), regular);
        assert!(m.is_empty());
    }
}

// ---------- more roundtrips, driven the same way ----------

fn as_i64(v: ParsedValue, min: i64, max: i64) -> i64 {
    let b = v.into_scalar().expect("scalar");
    serde_qs::de::StringParsingDeserializer::new(b).unwrap().parse_signed(min, max).expect("in range")
}

fn as_u64_in(v: ParsedValue, max: u64) -> u64 {
    let b = v.into_scalar().expect("scalar");
    serde_qs::de::StringParsingDeserializer::new(b).unwrap().parse_unsigned(max).expect("in range")
}

fn as_bool(v: ParsedValue) -> bool {
    let b = v.into_scalar().expect("scalar");
    serde_qs::de::StringParsingDeserializer::new(b).unwrap().parse_bool().expect("bool")
}

fn float_value(qs: &mut QsSerializer, text: &str) -> Result<(), Error> {
    qs.write_value(text.as_bytes());
    Ok(())
}

#[test]
fn primitive_types() {
    for (config, form) in configs() {
        let f32_text = ryu::Buffer::new().format(3.14159f32).to_string();
        let f64_text = ryu::Buffer::new().format(2.718281828f64).to_string();
        let s = serialize_with(config, |qs| {
            field(qs, "bool_val", |qs| Ok(qs.serialize_bool(true)))?;
            field(qs, "i8_val", |qs| Ok(qs.serialize_i64(-128)))?;
            field(qs, "i16_val", |qs| Ok(qs.serialize_i64(-32768)))?;
            field(qs, "i32_val", |qs| Ok(qs.serialize_i64(-2147483648)))?;
            field(qs, "i64_val", |qs| Ok(qs.serialize_i64(i64::MIN)))?;
            field(qs, "u8_val", |qs| Ok(qs.serialize_u64(255)))?;
            field(qs, "u16_val", |qs| Ok(qs.serialize_u64(65535)))?;
            field(qs, "u32_val", |qs| Ok(qs.serialize_u64(4294967295)))?;
            field(qs, "u64_val", |qs| Ok(qs.serialize_u64(u64::MAX)))?;
            field(qs, "f32_val", |qs| float_value(qs, &f32_text))?;
            field(qs, "f64_val", |qs| float_value(qs, &f64_text))?;
            field(qs, "char_val", |qs| Ok(qs.serialize_char('🦀')))?;
            field(qs, "string_val", |qs| Ok(qs.serialize_str("Hello, world! 你好世界")))
        });
        if !form {
            assert!(s.starts_with("bool_val=true&i8_val=-128&i16_val=-32768&i32_val=-2147483648"));
            assert!(s.contains("&char_val=%F0%9F%A6%80&string_val=Hello,+world!+%E4%BD%A0"));
        } else {
            assert!(s.contains("&char_val=%F0%9F%A6%80&string_val=Hello%2C%20world%21%20%E4%BD%A0"));
        }
        let mut m = parsed(config, &s);
        assert!(as_bool(take(&mut m, "bool_val")));
        assert_eq!(as_i64(take(&mut m, "i8_val"), i8::MIN as i64, i8::MAX as i64), -128);
        assert_eq!(as_i64(take(&mut m, "i16_val"), i16::MIN as i64, i16::MAX as i64), -32768);
        assert_eq!(as_i64(take(&mut m, "i32_val"), i32::MIN as i64, i32::MAX as i64), -2147483648);
        assert_eq!(as_i64(take(&mut m, "i64_val"), i64::MIN, i64::MAX), i64::MIN);
        assert_eq!(as_u64_in(take(&mut m, "u8_val"), u8::MAX as u64), 255);
        assert_eq!(as_u64_in(take(&mut m, "u16_val"), u16::MAX as u64), 65535);
        assert_eq!(as_u64_in(take(&mut m, "u32_val"), u32::MAX as u64), 4294967295);
        assert_eq!(as_u64_in(take(&mut m, "u64_val"), u64::MAX), u64::MAX);
        assert_eq!(as_string(take(&mut m, "f32_val")).parse::<f32>().unwrap(), 3.14159f32);
        assert_eq!(as_string(take(&mut m, "f64_val")).parse::<f64>().unwrap(), 2.718281828f64);
        assert_eq!(as_string(take(&mut m, "char_val")), "🦀");
        assert_eq!(as_string(take(&mut m, "string_val")), "Hello, world! 你好世界");
        assert!(m.is_empty());
    }
}

#[test]
fn edge_case_primitives() {
    let special = "!@#$%^&*()_+-=[]{}|;':,.<>?/~`";
    for (config, _) in configs() {
        let s = serialize_with(config, |qs| {
            field(qs, "empty_string", |qs| Ok(qs.serialize_str("")))?;
            field(qs, "zero_int", |qs| Ok(qs.serialize_i64(0)))?;
            field(qs, "zero_float", |qs| float_value(qs, "0.0"))?;
            field(qs, "false_bool", |qs| Ok(qs.serialize_bool(false)))?;
            field(qs, "space_string", |qs| Ok(qs.serialize_str("   ")))?;
            field(qs, "special_chars", |qs| Ok(qs.serialize_str(special)))
        });
        let mut m = parsed(config, &s);
        assert_eq!(as_string(take(&mut m, "empty_string")), "");
        assert_eq!(as_i64(take(&mut m, "zero_int"), i32::MIN as i64, i32::MAX as i64), 0);
        assert_eq!(as_string(take(&mut m, "zero_float")).parse::<f64>().unwrap(), 0.0);
        assert!(!as_bool(take(&mut m, "false_bool")));
        assert_eq!(as_string(take(&mut m, "space_string")), "   ");
        assert_eq!(as_string(take(&mut m, "special_chars")), special);
        assert!(m.is_empty());
    }
}

#[test]
fn option_types() {
    for (config, _) in configs() {
        let s = serialize_with(config, |qs| {
            field(qs, "opt_none", |qs| Ok(qs.write_no_value()))?;
            field(qs, "opt_some_string", |qs| Ok(qs.serialize_str("Hello")))?;
            field(qs, "opt_some_int", |qs| Ok(qs.serialize_i64(42)))?;
            field(qs, "opt_some_bool", |qs| Ok(qs.serialize_bool(true)))?;
            field(qs, "opt_some_vec", |qs| seq_u64(qs, &[1, 2, 3]))
        });
        let mut m = parsed(config, &s);
        assert!(take(&mut m, "opt_none").into_option().is_none());
        assert_eq!(as_string(take(&mut m, "opt_some_string").into_option().unwrap()), "Hello");
        assert_eq!(as_i64(take(&mut m, "opt_some_int").into_option().unwrap(), i32::MIN as i64, i32::MAX as i64), 42);
        assert!(as_bool(take(&mut m, "opt_some_bool").into_option().unwrap()));
        assert_eq!(as_u64_seq(take(&mut m, "opt_some_vec").into_option().unwrap()), vec![1, 2, 3]);
        assert!(m.is_empty());
    }
}

#[test]
fn vector_types() {
    for (config, _) in configs() {
        let s = serialize_with(config, |qs| {
            field(qs, "empty_vec", empty_seq)?;
            field(qs, "single_vec", |qs| {
                let mut seq = QsSeq::new();
                seq.push_key(qs)?;
                qs.serialize_str("only one");
                seq.pop_key(qs)?;
                seq.end(qs);
                Ok(())
            })?;
            field(qs, "multi_vec", |qs| seq_u64(qs, &[1, 2, 3, 4, 5]))?;
            field(qs, "vec_of_structs", |qs| {
                let mut seq = QsSeq::new();
                for (a, b) in [(1, 2), (3, 4)] {
                    seq.push_key(qs)?;
                    field(qs, "a", |qs| Ok(qs.serialize_u64(a)))?;
                    field(qs, "b", |qs| Ok(qs.serialize_u64(b)))?;
                    seq.pop_key(qs)?;
                }
                seq.end(qs);
                Ok(())
            })
        });
        let mut m = parsed(config, &s);
        assert!(take(&mut m, "empty_vec").into_sequence().unwrap().is_empty());
        let single: Vec<String> = take(&mut m, "single_vec").into_sequence().unwrap().into_iter().map(as_string).collect();
        assert_eq!(single, vec!["only one".to_string()]);
        assert_eq!(as_u64_seq(take(&mut m, "multi_vec")), vec![1, 2, 3, 4, 5]);
        let structs: Vec<(u64, u64)> = take(&mut m, "vec_of_structs")
            .into_sequence()
            .unwrap()
            .into_iter()
            .map(|v| read_flat(as_struct(v)))
            .collect();
        assert_eq!(structs, vec![(1, 2), (3, 4)]);
        assert!(m.is_empty());
    }
}

#[test]
fn nested_vectors() {
    for (config, form) in configs() {
        let vec_of_vecs: Vec<Vec<u64>> = vec![vec![1, 2], vec![], vec![3, 4, 5]];
        let vec_of_options: Vec<Option<&str>> = vec![Some("first"), None, Some("third")];
        let s = serialize_with(config, |qs| {
            field(qs, "vec_of_vecs", |qs| {
                let mut seq = QsSeq::new();
                for inner in &vec_of_vecs {
                    seq.push_key(qs)?;
                    seq_u64(qs, inner)?;
                    seq.pop_key(qs)?;
                }
                seq.end(qs);
                Ok(())
            })?;
            field(qs, "vec_of_options", |qs| {
                let mut seq = QsSeq::new();
                for o in &vec_of_options {
                    seq.push_key(qs)?;
                    match o {
                        Some(x) => qs.serialize_str(x),
                        None => qs.write_no_value(),
                    }
                    seq.pop_key(qs)?;
                }
                seq.end(qs);
                Ok(())
            })?;
            field(qs, "option_vec", |qs| seq_u64(qs, &[10, 20, 30]))
        });
        if !form {
            assert_eq!(
                s,
                "vec_of_vecs[0][0]=1&vec_of_vecs[0][1]=2&vec_of_vecs[1]=&vec_of_vecs[2][0]=3&vec_of_vecs[2][1]=4\
                 &vec_of_vecs[2][2]=5&vec_of_options[0]=first&vec_of_options[1]&vec_of_options[2]=third\
                 &option_vec[0]=10&option_vec[1]=20&option_vec[2]=30"
            );
        }
        let mut m = parsed(config, &s);
        let vv: Vec<Vec<u64>> = take(&mut m, "vec_of_vecs").into_sequence().unwrap().into_iter().map(as_u64_seq).collect();
        assert_eq!(vv, vec_of_vecs);
        let vo: Vec<Option<String>> = take(&mut m, "vec_of_options")
            .into_sequence()
            .unwrap()
            .into_iter()
            .map(|v| v.into_option().map(as_string))
            .collect();
        assert_eq!(vo, vec![Some("first".to_string()), None, Some("third".to_string())]);
        assert_eq!(as_u64_seq(take(&mut m, "option_vec").into_option().unwrap()), vec![10, 20, 30]);
        assert!(m.is_empty());
    }
}

#[test]
fn toplevel_string() {
    for (config, _) in configs() {
        // a top-level string is written with an empty key
        let s = serialize_with(config, |qs| Ok(qs.serialize_str("just a string")));
        assert!(s.starts_with('='));
        let m = parsed(config, &s);
        assert_eq!(m.entries.len(), 1);
        let mut m = m;
        let (_, v) = m.pop_first().unwrap();
        assert_eq!(as_string(v), "just a string");
    }
}
