use vstd::prelude::*;
use vstd::string::StringExecFns;
use crate::parse::{Fault, FaultV};
use crate::text::{ascii_chars, char_string, concat_str, dec_nat, shown_text, usize_text, utf8_lossy};
use crate::value::{Key, KeyV};

verus! {

/// `std::io::Error`, carried opaque.
#[verifier::external_type_specification]
#[verifier::external_body]
pub struct ExIoError(std::io::Error);

/// `std::num::ParseIntError`, carried opaque.
#[verifier::external_type_specification]
#[verifier::external_body]
pub struct ExParseIntError(std::num::ParseIntError);

/// The error type of this library.
#[derive(Debug)]
pub enum Error {
    /// Custom string-based error
    Custom(String),
    /// Maximum serialization depth exceeded
    MaxSerializationDepthExceeded(usize),
    /// Parse error at a specified position in the query string
    Parse(String, usize),
    /// Unsupported type that can't be serialized into a query string
    Unsupported,
    /// Error processing UTF-8 for a `String`
    FromUtf8(std::string::FromUtf8Error),
    /// I/O error
    Io(std::io::Error),
    /// Error parsing a number
    ParseInt(std::num::ParseIntError),
    /// Error processing UTF-8 for a `str`
    Utf8(std::str::Utf8Error),
}

/// A key as it appears in messages: an integer by its digits, a string
/// quoted.
pub open spec fn key_display(k: KeyV) -> Seq<char> {
    match k {
        KeyV::Int(i) => ascii_chars(dec_nat(i as nat)),
        KeyV::Str(s) => "\""@ + shown_text(s) + "\""@,
    }
}

/// A key as it appears in messages without quotes.
pub open spec fn key_plain(k: KeyV) -> Seq<char> {
    match k {
        KeyV::Int(i) => ascii_chars(dec_nat(i as nat)),
        KeyV::Str(s) => shown_text(s),
    }
}

/// The displays of keys, separated by `, `.
pub open spec fn keys_display(ks: Seq<KeyV>) -> Seq<char>
    decreases ks.len(),
{
    if ks.len() == 0 {
        Seq::empty()
    } else if ks.len() == 1 {
        key_display(ks[0])
    } else {
        keys_display(ks.drop_last()) + ", "@ + key_display(ks.last())
    }
}

/// The text of a parse fault.
pub open spec fn fault_text(f: FaultV) -> Seq<char> {
    match f {
        FaultV::EndedEarly => "query string ended before expected"@,
        FaultV::UnexpectedEnd => "unexpected end of input while parsing nested key"@,
        FaultV::ValueAndSequence => "invalid input: the same key is used for both a value and a sequence"@,
        FaultV::MapAndSequence(k, ks) => "invalid input: the key `"@ + key_plain(k)
            + "` appears in the input as both a sequence and a map (with keys "@ + keys_display(ks)
            + ")"@,
        FaultV::SequenceAndMap => "invalid input: the same key is used for both a sequence and a nested map"@,
        FaultV::ValueAndMap => "invalid input: the same key is used for both a value and a nested map"@,
        FaultV::UnitAndMap => "invalid input: the same key is used for both a unit value and a nested map"@,
        FaultV::Multiple(k) => "Multiple values for the same key: "@ + key_display(k),
        FaultV::Uninitialized(k) => "internal error: value is unintialized: "@ + key_display(k),
        FaultV::NestedUnindexed => "unsupported: unable to parse nested maps of unindexed sequences "@,
        FaultV::MixedSequence => "unsupported: cannot mix unindexed sequences `abc[]=...` with indexed sequences `abc[0]=...`"@,
        FaultV::UnexpectedChar(b) => "unexpected character `"@ + seq![b as char]
            + "` while parsing nested key: expected `&`, `=` or `[`"@,
    }
}

impl Key {
    /// The key as messages show it.
    pub fn display(&self) -> (r: String)
        ensures
            r@ == key_display(self@),
    {
        match self {
            Key::Int(i) => usize_text(*i),
            Key::String(s) => {
                let body = utf8_lossy(s.as_slice());
                let r = concat_str(concat_str(String::from_str("\""), body.as_str()), "\"");
                r
            },
        }
    }

    /// The key as messages show it, without quotes.
    pub fn plain(&self) -> (r: String)
        ensures
            r@ == key_plain(self@),
    {
        match self {
            Key::Int(i) => usize_text(*i),
            Key::String(s) => utf8_lossy(s.as_slice()),
        }
    }
}

fn keys_text(ks: &Vec<Key>) -> (r: String)
    ensures
        r@ == keys_display(crate::parse::keys_view(ks@)),
{
    let ghost kv = crate::parse::keys_view(ks@);
    let mut r = String::new();
    let mut i: usize = 0;
    assert(kv.subrange(0, 0) =~= Seq::<KeyV>::empty());
    while i < ks.len()
        invariant
            0 <= i <= ks@.len(),
            kv == crate::parse::keys_view(ks@),
            r@ == keys_display(kv.subrange(0, i as int)),
        decreases ks.len() - i,
    {
        let d = ks[i].display();
        let ghost sub = kv.subrange(0, i + 1);
        assert(sub.drop_last() =~= kv.subrange(0, i as int));
        assert(sub.last() == ks@[i as int]@);
        if i == 0 {
            r = d;
        } else {
            r = concat_str(concat_str(r, ", "), d.as_str());
        }
        i = i + 1;
    }
    assert(kv.subrange(0, ks@.len() as int) =~= kv);
    r
}

impl Fault {
    /// The text of the fault.
    pub fn text(&self) -> (r: String)
        ensures
            r@ == fault_text(self@),
    {
        match self {
            Fault::EndedEarly => String::from_str("query string ended before expected"),
            Fault::UnexpectedEnd => String::from_str("unexpected end of input while parsing nested key"),
            Fault::ValueAndSequence => String::from_str(
                "invalid input: the same key is used for both a value and a sequence",
            ),
            Fault::MapAndSequence(k, ks) => {
                let a = concat_str(String::from_str("invalid input: the key `"), k.plain().as_str());
                let b = concat_str(a, "` appears in the input as both a sequence and a map (with keys ");
                let c = concat_str(b, keys_text(ks).as_str());
                concat_str(c, ")")
            },
            Fault::SequenceAndMap => String::from_str(
                "invalid input: the same key is used for both a sequence and a nested map",
            ),
            Fault::ValueAndMap => String::from_str(
                "invalid input: the same key is used for both a value and a nested map",
            ),
            Fault::UnitAndMap => String::from_str(
                "invalid input: the same key is used for both a unit value and a nested map",
            ),
            Fault::Multiple(k) => concat_str(
                String::from_str("Multiple values for the same key: "),
                k.display().as_str(),
            ),
            Fault::Uninitialized(k) => concat_str(
                String::from_str("internal error: value is unintialized: "),
                k.display().as_str(),
            ),
            Fault::NestedUnindexed => String::from_str(
                "unsupported: unable to parse nested maps of unindexed sequences ",
            ),
            Fault::MixedSequence => String::from_str(
                "unsupported: cannot mix unindexed sequences `abc[]=...` with indexed sequences `abc[0]=...`",
            ),
            Fault::UnexpectedChar(b) => {
                let a = concat_str(String::from_str("unexpected character `"), char_string(*b as char).as_str());
                concat_str(a, "` while parsing nested key: expected `&`, `=` or `[`")
            },
        }
    }
}

impl Error {
    /// The error for a type that cannot be deserialized at the top level.
    pub fn top_level(object: &str) -> (r: Error)
        ensures
            r matches Error::Custom(m) && m@ == "cannot deserialize "@ + object@
                + " at the top level.Try deserializing into a struct."@,
    {
        let a = concat_str(String::from_str("cannot deserialize "), object);
        Error::Custom(concat_str(a, " at the top level.Try deserializing into a struct."))
    }

    /// A parse error with its position.
    pub fn parse_err(msg: &str, position: usize) -> (r: Error)
        ensures
            r matches Error::Parse(m, p) && m@ == msg@ && p == position,
    {
        Error::Parse(String::from_str(msg), position)
    }

    /// A custom error.
    pub fn custom(msg: &str) -> (r: Error)
        ensures
            r matches Error::Custom(m) && m@ == msg@,
    {
        Error::Custom(String::from_str(msg))
    }

    /// The error of a parse fault at a position.
    pub fn from_fault(f: &Fault, position: usize) -> (r: Error)
        ensures
            r matches Error::Parse(m, p) && m@ == fault_text(f@) && p == position,
    {
        Error::Parse(f.text(), position)
    }

    /// The message of the error, as it is displayed.
    pub fn message(&self) -> (r: String)
        ensures
            match self {
                Error::Custom(m) => r@ == m@,
                Error::MaxSerializationDepthExceeded(d) => r@ == "Maximum serialization depth `"@
                    + ascii_chars(dec_nat(*d as nat)) + "` exceeded"@,
                Error::Parse(m, p) => r@ == "parsing failed with error: '"@ + m@
                    + "' at position: "@ + ascii_chars(dec_nat(*p as nat)),
                Error::Unsupported => r@ == "unsupported type for serialization"@,
                Error::FromUtf8(e) => vstd::string::to_string_from_display_ensures(e, r),
                Error::Io(e) => vstd::string::to_string_from_display_ensures(e, r),
                Error::ParseInt(e) => vstd::string::to_string_from_display_ensures(e, r),
                Error::Utf8(e) => vstd::string::to_string_from_display_ensures(e, r),
            },
    {
        match self {
            Error::Custom(m) => m.clone(),
            Error::MaxSerializationDepthExceeded(d) => {
                let a = concat_str(String::from_str("Maximum serialization depth `"), usize_text(*d).as_str());
                concat_str(a, "` exceeded")
            },
            Error::Parse(m, p) => {
                let a = concat_str(String::from_str("parsing failed with error: '"), m.as_str());
                let b = concat_str(a, "' at position: ");
                concat_str(b, usize_text(*p).as_str())
            },
            Error::Unsupported => String::from_str("unsupported type for serialization"),
            Error::FromUtf8(e) => e.to_string(),
            Error::Io(e) => e.to_string(),
            Error::ParseInt(e) => e.to_string(),
            Error::Utf8(e) => e.to_string(),
        }
    }
}

impl From<std::string::FromUtf8Error> for Error {
    fn from(e: std::string::FromUtf8Error) -> (r: Error) {
        Error::FromUtf8(e)
    }
}

impl vstd::std_specs::convert::FromSpecImpl<std::string::FromUtf8Error> for Error {
    open spec fn obeys_from_spec() -> bool {
        true
    }

    open spec fn from_spec(v: std::string::FromUtf8Error) -> Error {
        Error::FromUtf8(v)
    }
}

impl From<std::io::Error> for Error {
    fn from(e: std::io::Error) -> (r: Error) {
        Error::Io(e)
    }
}

impl vstd::std_specs::convert::FromSpecImpl<std::io::Error> for Error {
    open spec fn obeys_from_spec() -> bool {
        true
    }

    open spec fn from_spec(v: std::io::Error) -> Error {
        Error::Io(v)
    }
}

impl From<std::num::ParseIntError> for Error {
    fn from(e: std::num::ParseIntError) -> (r: Error) {
        Error::ParseInt(e)
    }
}

impl vstd::std_specs::convert::FromSpecImpl<std::num::ParseIntError> for Error {
    open spec fn obeys_from_spec() -> bool {
        true
    }

    open spec fn from_spec(v: std::num::ParseIntError) -> Error {
        Error::ParseInt(v)
    }
}

impl From<std::str::Utf8Error> for Error {
    fn from(e: std::str::Utf8Error) -> (r: Error) {
        Error::Utf8(e)
    }
}

impl vstd::std_specs::convert::FromSpecImpl<std::str::Utf8Error> for Error {
    open spec fn obeys_from_spec() -> bool {
        true
    }

    open spec fn from_spec(v: std::str::Utf8Error) -> Error {
        Error::Utf8(v)
    }
}

} // verus!
