use vstd::prelude::*;
use vstd::string::StringExecFns;
use vstd::utf8::{decode_utf8, encode_utf8, is_ascii_chars, valid_utf8};

verus! {

/// `std::string::FromUtf8Error`, carried opaque.
#[verifier::external_type_specification]
#[verifier::external_body]
pub struct ExFromUtf8Error(std::string::FromUtf8Error);

/// `std::str::Utf8Error`, carried opaque.
#[verifier::external_type_specification]
#[verifier::external_body]
pub struct ExUtf8Error(std::str::Utf8Error);

/// The decimal digits of a natural number, most significant first.
pub open spec fn dec_nat(n: nat) -> Seq<u8>
    decreases n,
{
    if n < 10 {
        seq![(0x30 + n) as u8]
    } else {
        dec_nat(n / 10).push((0x30 + n % 10) as u8)
    }
}

/// The decimal representation of an integer, with a leading `-` when negative.
pub open spec fn dec_int(i: int) -> Seq<u8> {
    if i < 0 {
        seq![0x2du8] + dec_nat((-i) as nat)
    } else {
        dec_nat(i as nat)
    }
}

/// ASCII bytes read as characters.
pub open spec fn ascii_chars(b: Seq<u8>) -> Seq<char> {
    b.map_values(|x: u8| x as char)
}

pub open spec fn all_ascii(b: Seq<u8>) -> bool {
    forall|i: int| 0 <= i < b.len() ==> b[i] < 0x80
}

/// The text of `String::from_utf8_lossy`, as a function of the bytes.
pub uninterp spec fn lossy_utf8(b: Seq<u8>) -> Seq<char>;

/// Bytes shown as text: the decoded characters of valid UTF-8, and the
/// text of `from_utf8_lossy` for anything else.
pub open spec fn shown_text(b: Seq<u8>) -> Seq<char> {
    if valid_utf8(b) {
        decode_utf8(b)
    } else {
        lossy_utf8(b)
    }
}

/// `itoa::Buffer::format` on a `u64`: the decimal digits of the value.
#[verifier::external_body]
pub(crate) fn fmt_u64(v: u64) -> (r: Vec<u8>)
    ensures
        r@ == dec_nat(v as nat),
{
    let mut buffer = itoa::Buffer::new();
    buffer.format(v).as_bytes().to_vec()
}

/// `itoa::Buffer::format` on an `i64`: the decimal digits of the value,
/// after a `-` when it is negative.
#[verifier::external_body]
pub(crate) fn fmt_i64(v: i64) -> (r: Vec<u8>)
    ensures
        r@ == dec_int(v as int),
{
    let mut buffer = itoa::Buffer::new();
    buffer.format(v).as_bytes().to_vec()
}

/// `String::from_utf8`: succeeds exactly on valid UTF-8, and then holds the
/// decoded characters.
#[verifier::external_body]
pub(crate) fn string_from_utf8(b: Vec<u8>) -> (r: Result<String, std::string::FromUtf8Error>)
    ensures
        r is Ok <==> valid_utf8(b@),
        r matches Ok(s) ==> s@ == decode_utf8(b@),
{
    String::from_utf8(b)
}

/// `FromUtf8Error::utf8_error`: the `Utf8Error` inside. Nothing is stated of it.
#[verifier::external_body]
pub(crate) fn utf8_error_of(e: &std::string::FromUtf8Error) -> std::str::Utf8Error {
    e.utf8_error()
}

/// `String::from_utf8_lossy`: replaces invalid sequences with U+FFFD; on
/// valid UTF-8 it is the decoded text.
#[verifier::external_body]
pub(crate) fn utf8_lossy(b: &[u8]) -> (r: String)
    ensures
        r@ == lossy_utf8(b@),
        valid_utf8(b@) ==> r@ == decode_utf8(b@),
{
    String::from_utf8_lossy(b).into_owned()
}

/// `char::to_string`: a string of just that character.
#[verifier::external_body]
pub(crate) fn char_string(c: char) -> (r: String)
    ensures
        r@ == seq![c],
{
    c.to_string()
}

proof fn lemma_ascii_utf8(b: Seq<u8>)
    requires
        all_ascii(b),
    ensures
        valid_utf8(b),
        decode_utf8(b) == ascii_chars(b),
{
    let c = ascii_chars(b);
    assert(is_ascii_chars(c)) by {
        assert forall|i| 0 <= i < c.len() implies '\0' <= #[trigger] c[i] <= '\u{7f}' by {
            assert(c[i] == b[i] as char);
        }
    }
    vstd::utf8::is_ascii_chars_encode_utf8(c);
    assert(encode_utf8(c) =~= b) by {
        assert forall|i| 0 <= i < b.len() implies encode_utf8(c)[i] == b[i] by {
            assert(c[i] as u8 == encode_utf8(c)[i]);
            assert(c[i] == b[i] as char);
        }
    }
    vstd::utf8::encode_utf8_valid_utf8(c);
    vstd::utf8::encode_utf8_decode_utf8(c);
}

/// A `String` of ASCII bytes.
pub fn ascii_string(b: &Vec<u8>) -> (r: String)
    requires
        all_ascii(b@),
    ensures
        r@ == ascii_chars(b@),
{
    proof {
        lemma_ascii_utf8(b@);
    }
    match string_from_utf8(b.clone()) {
        Ok(s) => s,
        Err(_) => {
            assert(false);
            String::new()
        },
    }
}

proof fn lemma_dec_nat_ascii(n: nat)
    ensures
        all_ascii(dec_nat(n)),
        dec_nat(n).len() >= 1,
    decreases n,
{
    if n >= 10 {
        lemma_dec_nat_ascii(n / 10);
    }
}

/// The decimal digits of a `usize`, as text.
pub fn usize_text(v: usize) -> (r: String)
    ensures
        r@ == ascii_chars(dec_nat(v as nat)),
{
    let d = fmt_u64(v as u64);
    proof {
        lemma_dec_nat_ascii(v as nat);
    }
    ascii_string(&d)
}

/// `a` followed by `b`.
pub fn concat_str(a: String, b: &str) -> (r: String)
    ensures
        r@ == a@ + b@,
{
    let mut a = a;
    a.append(b);
    a
}

} // verus!
