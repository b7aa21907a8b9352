use vstd::prelude::*;
use vstd::string::StringExecFns;
use vstd::string::StringSliceAdditionalSpecFns;
use vstd::utf8::valid_utf8;
use crate::config::Config;
use crate::debug::debug_text;
use crate::error::{fault_text, key_plain, Error};
use crate::parse::{parse, spec_parse};
use crate::text::{ascii_chars, dec_nat, string_from_utf8, utf8_error_of};
use crate::value::{
    find_key, map_values, values_view, Key, KeyV, ParsedMap, ParsedValue, ValueV,
};

verus! {

/// A deserializer for the querystring format: the parsed map of the input.
///
/// Supported top-level outputs are structs and maps.
pub struct QsDeserializer {
    parsed: ParsedMap,
}

/// What `with_config` gives for an input: the parsed map, or the parse error
/// with its text and position.
pub open spec fn deserializer_outcome(r: Result<QsDeserializer, Error>, input: Seq<u8>, config: Config) -> bool {
    match spec_parse(input, config) {
        Ok(m) => r matches Ok(d) && d.parsed_map() == m,
        Err((f, p)) => r matches Err(Error::Parse(msg, pos)) && msg@ == fault_text(f) && pos == p,
    }
}

impl QsDeserializer {
    pub closed spec fn parsed_map(&self) -> Seq<(KeyV, ValueV)> {
        self.parsed@
    }

    /// Parses the input with the given configuration.
    pub fn with_config(config: Config, input: &[u8]) -> (r: Result<QsDeserializer, Error>)
        requires
            input@.len() + 3 <= usize::MAX,
        ensures
            deserializer_outcome(r, input@, config),
    {
        match parse(input, config) {
            Ok(m) => Ok(QsDeserializer { parsed: m }),
            Err(e) => Err(Error::from_fault(&e.fault, e.position)),
        }
    }

    /// Parses the input with the default configuration.
    pub fn new(input: &[u8]) -> (r: Result<QsDeserializer, Error>)
        requires
            input@.len() + 3 <= usize::MAX,
        ensures
            deserializer_outcome(r, input@, Config::spec_default()),
    {
        Self::with_config(Config::new(), input)
    }

    /// The parsed map.
    pub fn into_map(self) -> (r: ParsedMap)
        ensures
            r@ == self.parsed_map(),
    {
        self.parsed
    }

    /// Whether the input held no entry (deserialized as unit, or `None`).
    pub fn is_empty(&self) -> (r: bool)
        ensures
            r == (self.parsed_map().len() == 0),
    {
        self.parsed.is_empty()
    }

    /// The value of an input that holds a single empty key (`=123`), which
    /// reads as a primitive value at the top level; any other input is
    /// handed back.
    pub fn into_lone_value(self) -> (r: Result<ParsedValue, QsDeserializer>)
        ensures
            (self.parsed_map().len() == 1 && self.parsed_map()[0].0 == KeyV::Str(Seq::empty())) ==> (r matches Ok(
                v,
            ) && v@ == self.parsed_map()[0].1),
            !(self.parsed_map().len() == 1 && self.parsed_map()[0].0 == KeyV::Str(Seq::empty())) ==> (r matches Err(
                d,
            ) && d.parsed_map() == self.parsed_map()),
    {
        if self.parsed.len() == 1 {
            let is_empty_key = match &self.parsed.entries[0].0 {
                Key::String(s) => s.len() == 0,
                Key::Int(_) => false,
            };
            if is_empty_key {
                proof {
                    let k0 = self.parsed.entries@[0].0;
                    assert(self.parsed_map()[0].0 == k0@);
                    match k0 {
                        Key::String(s) => {
                            assert(s@ =~= Seq::<u8>::empty());
                        },
                        Key::Int(_) => {},
                    }
                }
                let mut parsed = self.parsed;
                let ghost pm = parsed@;
                match parsed.pop_first() {
                    Some((k, v)) => {
                        assert(k@ == pm[0].0);
                        return Ok(v);
                    },
                    None => {
                        assert(false);
                        return Err(QsDeserializer { parsed });
                    },
                }
            } else {
                proof {
                    let k0 = self.parsed.entries@[0].0;
                    assert(self.parsed_map()[0].0 == k0@);
                    match k0 {
                        Key::String(s) => {
                            assert(s@.len() != 0);
                            assert(k0@ != KeyV::Str(Seq::<u8>::empty()));
                        },
                        Key::Int(_) => {},
                    }
                }
            }
        }
        Err(self)
    }

    /// The elements of a top-level sequence: none for an empty input, those
    /// of the one key's value otherwise; more than one key is an error.
    pub fn into_sequence(self) -> (r: Result<Vec<ParsedValue>, Error>)
        ensures
            values_outcome(r, top_values(self.parsed_map())),
    {
        if self.parsed.len() > 1 {
            return Err(Error::custom(
                "input error: expecting a sequence which implies a single repeating key or with sequence indices, but found multiple keys",
            ));
        }
        let mut parsed = self.parsed;
        match parsed.pop_first() {
            None => {
                let out: Vec<ParsedValue> = Vec::new();
                assert(values_view(out@) =~= Seq::<ValueV>::empty());
                Ok(out)
            },
            Some((_, v)) => v.into_sequence(),
        }
    }

    /// The elements of a top-level sequence, which must number `len`;
    /// `what` names the target in the error for any other number.
    fn into_counted(self, what: String, len: usize) -> (r: Result<Vec<ParsedValue>, Error>)
        ensures
            values_outcome(r, tuple_values(top_values(self.parsed_map()), what@, len as nat)),
    {
        let vs = self.into_sequence()?;
        if vs.len() != len {
            let a = crate::text::concat_str(String::from_str("expected "), what.as_str());
            let b = crate::text::concat_str(a, " of length ");
            let c = crate::text::concat_str(b, crate::text::usize_text(len).as_str());
            let d = crate::text::concat_str(c, ", got length ");
            let e = crate::text::concat_str(d, crate::text::usize_text(vs.len()).as_str());
            return Err(Error::Custom(e));
        }
        Ok(vs)
    }

    /// The elements of a top-level tuple of `len` elements: the input read
    /// as a sequence, as `into_sequence` reads it, with exactly `len`
    /// elements.
    pub fn into_tuple(self, len: usize) -> (r: Result<Vec<ParsedValue>, Error>)
        ensures
            values_outcome(r, tuple_values(top_values(self.parsed_map()), "a tuple"@, len as nat)),
    {
        self.into_counted(String::from_str("a tuple"), len)
    }

    /// The elements of a top-level tuple struct `name` of `len` fields, read
    /// as `into_tuple` reads them.
    pub fn into_tuple_struct(self, name: &str, len: usize) -> (r: Result<Vec<ParsedValue>, Error>)
        ensures
            values_outcome(
                r,
                tuple_values(top_values(self.parsed_map()), "tuple struct `"@ + name@ + "`"@, len as nat),
            ),
    {
        let a = crate::text::concat_str(String::from_str("tuple struct `"), name);
        let what = crate::text::concat_str(a, "`");
        self.into_counted(what, len)
    }
}

/// Every key of the entries is an integer index.
pub open spec fn int_keys(es: Seq<(KeyV, ValueV)>) -> bool {
    forall|j: int| 0 <= j < es.len() ==> (#[trigger] es[j]).0 is Int
}

/// The error for a map read as a sequence whose key `k` is a string.
pub open spec fn string_index_text(k: KeyV) -> Seq<char> {
    "expected an integer index, found a string key `"@ + key_plain(k) + "`"@
}

/// The first string key of a map whose keys are not all integer indices.
pub open spec fn first_str(es: Seq<(KeyV, ValueV)>) -> int {
    choose|j: int| 0 <= j < es.len() && (#[trigger] es[j]).0 is Str && int_keys(es.subrange(0, j))
}

/// The elements of a value read as a sequence, or the error text: the
/// values of a map whose keys are all integer indices, in key order, and
/// an error naming the first string key of any other map; a sequence's
/// elements, a string as a sequence of one, nothing for an empty or absent
/// value, and an error for an uninitialised one.
pub open spec fn seq_values(v: ValueV) -> Result<Seq<ValueV>, Seq<char>> {
    match v {
        ValueV::Mapping(es) => if int_keys(es) {
            Ok(map_values(es))
        } else {
            Err(string_index_text(es[first_str(es)].0))
        },
        ValueV::Sequence(vs) => Ok(vs),
        ValueV::Str(s) => Ok(seq![ValueV::Str(s)]),
        ValueV::Null => Ok(Seq::empty()),
        ValueV::NoValue => Ok(Seq::empty()),
        ValueV::Uninitialized => Err("internal error: attempted to deserialize unitialised value"@),
    }
}

/// The elements of the whole input read as a sequence: none for an empty
/// input, those of the one key's value, and an error for several keys.
pub open spec fn top_values(pm: Seq<(KeyV, ValueV)>) -> Result<Seq<ValueV>, Seq<char>> {
    if pm.len() > 1 {
        Err(
            "input error: expecting a sequence which implies a single repeating key or with sequence indices, but found multiple keys"@,
        )
    } else if pm.len() == 0 {
        Ok(Seq::empty())
    } else {
        seq_values(pm[0].1)
    }
}

/// The elements of a tuple of `len` elements, described as `what` in the
/// error for any other number of elements.
pub open spec fn tuple_values(x: Result<Seq<ValueV>, Seq<char>>, what: Seq<char>, len: nat) -> Result<
    Seq<ValueV>,
    Seq<char>,
> {
    match x {
        Ok(vs) => if vs.len() == len {
            Ok(vs)
        } else {
            Err(
                "expected "@ + what + " of length "@ + ascii_chars(dec_nat(len)) + ", got length "@ + ascii_chars(
                    dec_nat(vs.len()),
                ),
            )
        },
        Err(m) => Err(m),
    }
}

/// `r` holds the elements `x` gives, or its error as a custom error.
pub open spec fn values_outcome(r: Result<Vec<ParsedValue>, Error>, x: Result<Seq<ValueV>, Seq<char>>) -> bool {
    match x {
        Ok(vs) => r matches Ok(out) && values_view(out@) == vs,
        Err(m) => r matches Err(Error::Custom(rm)) && rm@ == m,
    }
}

/// What `into_sequence` gives for a value.
pub open spec fn sequence_outcome(r: Result<Vec<ParsedValue>, Error>, v: ValueV) -> bool {
    values_outcome(r, seq_values(v))
}

/// In a sorted map whose keys are all integer indices, the indices ascend:
/// the values that `seq_values` gives come in ascending index order.
pub proof fn lemma_int_keys_ascend(es: Seq<(KeyV, ValueV)>)
    requires
        crate::order::sorted(es),
        int_keys(es),
    ensures
        forall|i: int, j: int|
            0 <= i < j < es.len() ==> (#[trigger] es[i]).0->Int_0 < (#[trigger] es[j]).0->Int_0,
{
    assert forall|i: int, j: int| 0 <= i < j < es.len() implies (#[trigger] es[i]).0->Int_0 < (
    #[trigger] es[j]).0->Int_0 by {
        assert(crate::value::key_lt(es[i].0, es[j].0));
    }
}

/// The first string key is the one with only integer keys before it.
proof fn lemma_first_str(es: Seq<(KeyV, ValueV)>, i: int)
    requires
        0 <= i < es.len(),
        es[i].0 is Str,
        int_keys(es.subrange(0, i)),
    ensures
        first_str(es) == i,
        !int_keys(es),
{
    assert(es[i] == es[i]);
    let c = first_str(es);
    assert(0 <= c < es.len() && es[c].0 is Str && int_keys(es.subrange(0, c)));
    if c < i {
        assert(es.subrange(0, i)[c] == es[c]);
    } else if c > i {
        assert(es.subrange(0, c)[i] == es[i]);
    }
}

/// The position of the first string key of a map, if it has one.
fn first_string_key(m: &ParsedMap) -> (r: Option<usize>)
    ensures
        r is None ==> int_keys(m@),
        r matches Some(i) ==> i < m@.len() && m@[i as int].0 is Str && int_keys(m@.subrange(0, i as int)),
{
    let ghost es = m@;
    let keys = m.keys();
    let mut i: usize = 0;
    while i < keys.len()
        invariant
            0 <= i <= keys@.len(),
            keys@.len() == es.len(),
            es == m@,
            forall|j: int| 0 <= j < keys@.len() ==> keys@[j]@ == es[j].0,
            int_keys(es.subrange(0, i as int)),
        decreases keys.len() - i,
    {
        match &keys[i] {
            Key::String(_) => {
                assert(keys@[i as int]@ == es[i as int].0);
                return Some(i);
            },
            Key::Int(_) => {},
        }
        assert(keys@[i as int]@ == es[i as int].0);
        assert(int_keys(es.subrange(0, i + 1))) by {
            assert forall|j: int| 0 <= j < i + 1 implies (#[trigger] es.subrange(0, i + 1)[j]).0 is Int by {
                if j < i {
                    assert(es.subrange(0, i + 1)[j] == es.subrange(0, i as int)[j]);
                }
            }
        }
        i = i + 1;
    }
    assert(es.subrange(0, es.len() as int) =~= es);
    None
}

/// Bytes or text that a leaf value reads as, or the value itself where it
/// is not a leaf.
pub enum Leaf {
    Bytes(Vec<u8>),
    Other(ParsedValue),
}

impl ParsedValue {
    /// The elements of the value read as a sequence.
    pub fn into_sequence(self) -> (r: Result<Vec<ParsedValue>, Error>)
        ensures
            sequence_outcome(r, self@),
    {
        let ghost v0 = self@;
        match self {
            ParsedValue::Mapping(m) => {
                proof {
                    crate::value::lemma_mapping_view(m);
                }
                let ghost es = m@;
                match first_string_key(&m) {
                    Some(i) => {
                        let keys = m.keys();
                        let t = keys[i].plain();
                        let a = crate::text::concat_str(
                            String::from_str("expected an integer index, found a string key `"),
                            t.as_str(),
                        );
                        let msg = crate::text::concat_str(a, "`");
                        proof {
                            lemma_first_str(es, i as int);
                        }
                        return Err(Error::Custom(msg));
                    },
                    None => {},
                }
                Ok(m.into_values())
            },
            ParsedValue::Sequence(vs) => {
                proof {
                    crate::value::lemma_sequence_view(vs);
                }
                Ok(vs)
            },
            ParsedValue::String(s) => {
                let ghost sv = s@;
                let mut out: Vec<ParsedValue> = Vec::new();
                out.push(ParsedValue::String(s));
                assert(values_view(out@) =~= seq![ValueV::Str(sv)]);
                Ok(out)
            },
            ParsedValue::Null => {
                let out: Vec<ParsedValue> = Vec::new();
                assert(values_view(out@) =~= Seq::<ValueV>::empty());
                Ok(out)
            },
            ParsedValue::NoValue => {
                let out: Vec<ParsedValue> = Vec::new();
                assert(values_view(out@) =~= Seq::<ValueV>::empty());
                Ok(out)
            },
            ParsedValue::Uninitialized => Err(Error::custom(
                "internal error: attempted to deserialize unitialised value",
            )),
        }
    }

    /// The value read as optional: no value at all is `None`, an empty value
    /// is present but holds nothing, anything else is present.
    pub fn into_option(self) -> (r: Option<ParsedValue>)
        ensures
            self@ == ValueV::NoValue ==> r is None,
            self@ == ValueV::Null ==> (r matches Some(v) && v@ == ValueV::NoValue),
            self@ != ValueV::NoValue && self@ != ValueV::Null ==> (r matches Some(v) && v@ == self@),
    {
        match self {
            ParsedValue::NoValue => None,
            ParsedValue::Null => Some(ParsedValue::NoValue),
            other => Some(other),
        }
    }

    /// The bytes of a scalar: a string, or the last element of a sequence
    /// (repeated keys keep their last value).
    pub fn into_scalar(self) -> (r: Result<Vec<u8>, Error>)
        ensures
            match self@ {
                ValueV::Str(s) => r matches Ok(b) && b@ == s,
                ValueV::Sequence(vs) => last_string_outcome(r, vs),
                v => r matches Err(Error::Custom(m)) && m@ == "expected a string, found "@ + debug_text(v),
            },
    {
        match self {
            ParsedValue::String(s) => Ok(s),
            ParsedValue::Sequence(vs) => {
                proof {
                    crate::value::lemma_sequence_view(vs);
                }
                let mut vs = vs;
                get_last_string_value(&mut vs)
            },
            other => {
                let d = other.debug_string();
                Err(Error::Custom(crate::text::concat_str(String::from_str("expected a string, found "), d.as_str())))
            },
        }
    }

    /// The value read as text or bytes: a string, the last element of a
    /// sequence, empty for an empty or absent value, or the value itself.
    pub fn into_leaf(self) -> (r: Result<Leaf, Error>)
        ensures
            match self@ {
                ValueV::Str(s) => r matches Ok(Leaf::Bytes(b)) && b@ == s,
                ValueV::Sequence(vs) => match last_string(vs) {
                    Ok(b) => r matches Ok(Leaf::Bytes(rb)) && rb@ == b,
                    Err(m) => r matches Err(Error::Custom(rm)) && rm@ == m,
                },
                ValueV::Null => r matches Ok(Leaf::Bytes(b)) && b@.len() == 0,
                ValueV::NoValue => r matches Ok(Leaf::Bytes(b)) && b@.len() == 0,
                v => r matches Ok(Leaf::Other(o)) && o@ == v,
            },
    {
        match self {
            ParsedValue::String(s) => Ok(Leaf::Bytes(s)),
            ParsedValue::Sequence(vs) => {
                proof {
                    crate::value::lemma_sequence_view(vs);
                }
                let mut vs = vs;
                match get_last_string_value(&mut vs) {
                    Ok(b) => Ok(Leaf::Bytes(b)),
                    Err(e) => Err(e),
                }
            },
            ParsedValue::Null => Ok(Leaf::Bytes(Vec::new())),
            ParsedValue::NoValue => Ok(Leaf::Bytes(Vec::new())),
            other => Ok(Leaf::Other(other)),
        }
    }
}

/// What a value reads as where any form is taken: a map, a sequence, text
/// (an empty value is empty text), or unit for a key without a value.
pub enum AnyValue {
    Object(ParsedMap),
    List(Vec<ParsedValue>),
    Text(Vec<u8>),
    Unit,
}

impl ParsedValue {
    /// The value in the form it holds.
    pub fn into_any(self) -> (r: Result<AnyValue, Error>)
        ensures
            match self@ {
                ValueV::Mapping(es) => r matches Ok(AnyValue::Object(m)) && m@ == es,
                ValueV::Sequence(vs) => r matches Ok(AnyValue::List(v)) && values_view(v@) == vs,
                ValueV::Str(b) => r matches Ok(AnyValue::Text(t)) && t@ == b,
                ValueV::Null => r matches Ok(AnyValue::Text(t)) && t@.len() == 0,
                ValueV::NoValue => r matches Ok(AnyValue::Unit),
                ValueV::Uninitialized => r matches Err(Error::Custom(m)) && m@
                    == "internal error: attempted to deserialize unitialised value"@,
            },
    {
        match self {
            ParsedValue::Mapping(m) => {
                proof {
                    crate::value::lemma_mapping_view(m);
                }
                Ok(AnyValue::Object(m))
            },
            ParsedValue::Sequence(vs) => {
                proof {
                    crate::value::lemma_sequence_view(vs);
                }
                Ok(AnyValue::List(vs))
            },
            ParsedValue::String(b) => Ok(AnyValue::Text(b)),
            ParsedValue::Null => Ok(AnyValue::Text(Vec::new())),
            ParsedValue::NoValue => Ok(AnyValue::Unit),
            ParsedValue::Uninitialized => Err(Error::custom(
                "internal error: attempted to deserialize unitialised value",
            )),
        }
    }

    /// The value read as a map: a map as it is, an empty or absent value as
    /// an empty map; any other value is handed back.
    pub fn into_mapping(self) -> (r: Result<ParsedMap, ParsedValue>)
        ensures
            match self@ {
                ValueV::Mapping(es) => r matches Ok(m) && m@ == es,
                ValueV::Null => r matches Ok(m) && m@.len() == 0,
                ValueV::NoValue => r matches Ok(m) && m@.len() == 0,
                v => r matches Err(o) && o@ == v,
            },
    {
        match self {
            ParsedValue::Mapping(m) => {
                proof {
                    crate::value::lemma_mapping_view(m);
                }
                Ok(m)
            },
            ParsedValue::Null => Ok(ParsedMap::new()),
            ParsedValue::NoValue => Ok(ParsedMap::new()),
            other => Err(other),
        }
    }

    /// A key without a value reads as `true` where a boolean is expected.
    pub fn is_flag(&self) -> (r: bool)
        ensures
            r == (self@ == ValueV::NoValue),
    {
        match self {
            ParsedValue::NoValue => true,
            _ => false,
        }
    }

    /// Only a key without a value reads as unit.
    pub fn expect_unit(&self) -> (r: Result<(), Error>)
        ensures
            r is Ok <==> self@ == ValueV::NoValue,
            r matches Err(e) ==> e matches Error::Custom(m) && m@ == "expected unit"@,
    {
        match self {
            ParsedValue::NoValue => Ok(()),
            _ => Err(Error::custom("expected unit")),
        }
    }
}

/// The last element of a sequence where it is a string, or the error text.
pub open spec fn last_string(vs: Seq<ValueV>) -> Result<Seq<u8>, Seq<char>> {
    if vs.len() == 0 {
        Err("internal error: expected a string, found empty sequence"@)
    } else {
        match vs.last() {
            ValueV::Str(s) => Ok(s),
            v => Err("expected a string, found "@ + debug_text(v)),
        }
    }
}

pub open spec fn last_string_outcome(r: Result<Vec<u8>, Error>, vs: Seq<ValueV>) -> bool {
    match last_string(vs) {
        Ok(b) => r matches Ok(rb) && rb@ == b,
        Err(m) => r matches Err(Error::Custom(rm)) && rm@ == m,
    }
}

/// Takes the last element of a sequence, which must be a string: where a
/// key is repeated, its last value counts.
pub fn get_last_string_value(seq: &mut Vec<ParsedValue>) -> (r: Result<Vec<u8>, Error>)
    ensures
        last_string_outcome(r, values_view(old(seq)@)),
        old(seq)@.len() > 0 ==> final(seq)@ == old(seq)@.drop_last(),
        old(seq)@.len() == 0 ==> final(seq)@ == old(seq)@,
{
    let ghost vs = values_view(seq@);
    match seq.pop() {
        None => Err(Error::custom("internal error: expected a string, found empty sequence")),
        Some(last) => {
            assert(vs.last() == last@);
            match last {
                ParsedValue::String(s) => Ok(s),
                other => {
                    let d = other.debug_string();
                    Err(Error::Custom(crate::text::concat_str(String::from_str("expected a string, found "), d.as_str())))
                },
            }
        },
    }
}

/// Decodes UTF-8 bytes into a string.
pub fn decode_utf8(value: Vec<u8>) -> (r: Result<String, std::str::Utf8Error>)
    ensures
        r is Ok <==> valid_utf8(value@),
        r matches Ok(s) ==> s@ == vstd::utf8::decode_utf8(value@),
{
    match string_from_utf8(value) {
        Ok(s) => Ok(s),
        Err(e) => Err(utf8_error_of(&e)),
    }
}

/// A string whose primitive values are parsed on demand.
pub struct StringParsingDeserializer {
    pub value: String,
}

impl StringParsingDeserializer {
    /// From bytes, which must be valid UTF-8.
    pub fn new(value: Vec<u8>) -> (r: Result<StringParsingDeserializer, Error>)
        ensures
            r is Ok <==> valid_utf8(value@),
            r matches Ok(d) ==> d.value@ == vstd::utf8::decode_utf8(value@),
            r matches Err(e) ==> e is Utf8,
    {
        match decode_utf8(value) {
            Ok(s) => Ok(StringParsingDeserializer { value: s }),
            Err(e) => Err(Error::Utf8(e)),
        }
    }

    /// From a string.
    pub fn new_str(value: &str) -> (r: StringParsingDeserializer)
        ensures
            r.value@ == value@,
    {
        StringParsingDeserializer { value: String::from_str(value) }
    }
}

/// A variant that carries no data.
pub struct UnitOnly;

/// Pairs a value with a unit-only variant.
pub fn unit_only<T>(t: T) -> (r: (T, UnitOnly))
    ensures
        r.0 == t,
{
    (t, UnitOnly)
}

/// The bytes of field names.
pub open spec fn field_bytes(fields: Seq<&str>) -> Seq<Seq<u8>> {
    fields.map_values(|f: &str| f.spec_bytes())
}

/// The position of the first of the fields from `i` on that the map holds
/// as a string key.
pub open spec fn first_field(m: Seq<(KeyV, ValueV)>, fs: Seq<Seq<u8>>, i: int) -> Option<int>
    decreases fs.len() - i,
{
    if i >= fs.len() || i < 0 {
        None
    } else if find_key(m, KeyV::Str(fs[i])) is Some {
        Some(i)
    } else {
        first_field(m, fs, i + 1)
    }
}

/// The order in which the entries of a map are handed out when a struct
/// with the fields `fs` is read: each time the first field that the map
/// still holds, after the fields already handed out, then the rest of the
/// map in its order (`pop_first`).
pub open spec fn field_order(m: Seq<(KeyV, ValueV)>, fs: Seq<Seq<u8>>) -> Seq<(KeyV, ValueV)>
    decreases m.len(),
{
    match first_field(m, fs, 0) {
        Some(i) => match find_key(m, KeyV::Str(fs[i])) {
            Some(j) => if 0 <= j < m.len() {
                seq![m[j]] + field_order(m.remove(j), fs.subrange(i + 1, fs.len() as int))
            } else {
                m
            },
            None => m,
        },
        None => m,
    }
}

proof fn lemma_first_field(m: Seq<(KeyV, ValueV)>, fs: Seq<Seq<u8>>, start: int, i: int)
    requires
        0 <= start <= i <= fs.len(),
        forall|k: int| start <= k < i ==> find_key(m, KeyV::Str(#[trigger] fs[k])) is None,
    ensures
        i < fs.len() && find_key(m, KeyV::Str(fs[i])) is Some ==> first_field(m, fs, start) == Some(i),
        i == fs.len() ==> first_field(m, fs, start) is None,
    decreases i - start,
{
    if start < i {
        lemma_first_field(m, fs, start + 1, i);
    }
}

/// Reading a struct hands out every entry of the map exactly once: the
/// entries that `field_order` gives are those of the map. The named fields
/// come first, in the order of the fields, each at most once, and the rest
/// follow in the map's order.
pub proof fn lemma_field_order(m: Seq<(KeyV, ValueV)>, fs: Seq<Seq<u8>>)
    ensures
        field_order(m, fs).to_multiset() == m.to_multiset(),
        field_order(m, fs).len() == m.len(),
    decreases m.len(),
{
    broadcast use vstd::seq_lib::group_to_multiset_ensures, vstd::multiset::group_multiset_axioms;

    match first_field(m, fs, 0) {
        Some(i) => match find_key(m, KeyV::Str(fs[i])) {
            Some(j) => if 0 <= j < m.len() {
                let rest = m.remove(j);
                let fs2 = fs.subrange(i + 1, fs.len() as int);
                lemma_field_order(rest, fs2);
                let one = seq![m[j]];
                let out = one + field_order(rest, fs2);
                vstd::seq_lib::lemma_multiset_commutative(one, field_order(rest, fs2));
                let e = Seq::<(KeyV, ValueV)>::empty();
                assert(e.push(m[j]) =~= one);
                vstd::seq_lib::to_multiset_build(e, m[j]);
                vstd::multiset::lemma_multiset_empty_len(e.to_multiset());
                assert(e.to_multiset() =~= vstd::multiset::Multiset::empty());
                assert(rest.to_multiset() == m.to_multiset().remove(m[j]));
                assert(m.to_multiset().count(m[j]) > 0) by {
                    assert(m.contains(m[j]));
                }
                assert(out.to_multiset() =~= m.to_multiset());
            },
            None => {},
        },
        None => {},
    }
}

/// For each named field in order, the first that the map holds (as a string
/// key): removes it and returns its position among the fields and its value.
pub fn take_next_field(map: &mut ParsedMap, fields: &[&str]) -> (r: Option<(usize, ParsedValue)>)
    ensures
        r matches Some((idx, _)) ==> first_field(old(map)@, field_bytes(fields@), 0) == Some(idx as int),
        r is None ==> first_field(old(map)@, field_bytes(fields@), 0) is None,
        r matches Some((idx, v)) ==> ({
            let k = KeyV::Str(fields@[idx as int].spec_bytes());
            &&& idx < fields@.len()
            &&& find_key(old(map)@, k) matches Some(j) && v@ == old(map)@[j].1 && final(map)@ == old(map)@.remove(j)
            &&& forall|i: int| 0 <= i < idx ==> find_key(old(map)@, KeyV::Str(#[trigger] fields@[i].spec_bytes())) is None
        }),
        r is None ==> final(map)@ == old(map)@ && forall|i: int| 0 <= i < fields@.len() ==> find_key(
            old(map)@,
            KeyV::Str(#[trigger] fields@[i].spec_bytes()),
        ) is None,
{
    let mut idx: usize = 0;
    while idx < fields.len()
        invariant
            0 <= idx <= fields@.len(),
            map@ == old(map)@,
            forall|i: int| 0 <= i < idx ==> find_key(old(map)@, KeyV::Str(#[trigger] fields@[i].spec_bytes())) is None,
        decreases fields.len() - idx,
    {
        let field: &str = fields[idx];
        let bytes = field.as_bytes();
        let key = Key::String(vstd::slice::slice_to_vec(bytes));
        match map.remove(&key) {
            Some(v) => {
                proof {
                    let fs = field_bytes(fields@);
                    assert forall|k: int| 0 <= k < idx implies find_key(old(map)@, KeyV::Str(#[trigger] fs[k])) is None by {
                        assert(fs[k] == fields@[k].spec_bytes());
                    }
                    assert(fs[idx as int] == fields@[idx as int].spec_bytes());
                    lemma_first_field(old(map)@, fs, 0, idx as int);
                }
                return Some((idx, v));
            },
            None => {},
        }
        idx = idx + 1;
    }
    proof {
        let fs = field_bytes(fields@);
        assert forall|k: int| 0 <= k < fs.len() implies find_key(old(map)@, KeyV::Str(#[trigger] fs[k])) is None by {
            assert(fs[k] == fields@[k].spec_bytes());
        }
        lemma_first_field(old(map)@, fs, 0, fs.len() as int);
    }
    None
}

impl Key {
    /// Whether the key is a string holding a `[`.
    pub fn has_bracket(&self) -> (r: bool)
        ensures
            r == (self@ matches KeyV::Str(s) && s.contains(0x5bu8)),
    {
        match self {
            Key::Int(_) => false,
            Key::String(s) => {
                let mut i: usize = 0;
                while i < s.len()
                    invariant
                        0 <= i <= s@.len(),
                        self@ == KeyV::Str(s@),
                        forall|j: int| 0 <= j < i ==> s@[j] != 0x5b,
                    decreases s.len() - i,
                {
                    if s[i] == 0x5b {
                        assert(s@[i as int] == 0x5bu8);
                        assert(s@.contains(0x5bu8));
                        return true;
                    }
                    i = i + 1;
                }
                false
            },
        }
    }
}

/// The message of a key that failed to deserialize, with a hint where the
/// key holds a bracket.
pub fn bracket_hint(key: &Key, message: String) -> (r: String)
    ensures
        (key@ matches KeyV::Str(s) && s.contains(0x5bu8)) ==> r@ == message@
            + "\nInvalid field contains an encoded bracket -- consider using form encoding mode\n  https://docs.rs/serde_qs/latest/serde_qs/#query-string-vs-form-encoding"@,
        !(key@ matches KeyV::Str(s) && s.contains(0x5bu8)) ==> r@ == message@,
{
    if key.has_bracket() {
        crate::text::concat_str(
            message,
            "\nInvalid field contains an encoded bracket -- consider using form encoding mode\n  https://docs.rs/serde_qs/latest/serde_qs/#query-string-vs-form-encoding",
        )
    } else {
        message
    }
}

} // verus!
