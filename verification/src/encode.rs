use vstd::prelude::*;
use crate::decode::{hex_value, spec_decode};

verus! {

/// Upper-case hex digit of a value below 16.
pub open spec fn hex_upper(n: u8) -> u8 {
    if n < 10 {
        (0x30 + n) as u8
    } else {
        (0x41 + n - 10) as u8
    }
}

/// The `%XX` escape of a byte.
pub open spec fn percent_byte(b: u8) -> Seq<u8> {
    seq![0x25u8, hex_upper(b / 16), hex_upper(b % 16)]
}

/// Bytes that query-string encoding escapes: controls, non-ASCII, and
/// `"`, `#`, `<`, `>`, `+`, `[`, `]`, `=`, `&`, `%`.
pub open spec fn in_query_set(b: u8) -> bool {
    b < 0x20 || b >= 0x7f || b == 0x22 || b == 0x23 || b == 0x3c || b == 0x3e || b == 0x2b
        || b == 0x5b || b == 0x5d || b == 0x3d || b == 0x26 || b == 0x25
}

/// ASCII letters and digits.
pub open spec fn is_alnum(b: u8) -> bool {
    (0x30 <= b <= 0x39) || (0x41 <= b <= 0x5a) || (0x61 <= b <= 0x7a)
}

/// Bytes that form encoding escapes: all but ASCII alphanumerics and `*`, `-`, `.`, `_`.
pub open spec fn in_form_set(b: u8) -> bool {
    !(is_alnum(b) || b == 0x2a || b == 0x2d || b == 0x2e || b == 0x5f)
}

/// How one byte is written: form encoding escapes the form set, query-string
/// encoding writes a space as `+` and escapes the query set.
pub open spec fn encode_byte(b: u8, use_form_encoding: bool) -> Seq<u8> {
    if use_form_encoding {
        if in_form_set(b) {
            percent_byte(b)
        } else {
            seq![b]
        }
    } else if b == 0x20 {
        seq![0x2bu8]
    } else if in_query_set(b) {
        percent_byte(b)
    } else {
        seq![b]
    }
}

/// The encoding of a byte string, byte by byte.
pub open spec fn spec_encode(s: Seq<u8>, use_form_encoding: bool) -> Seq<u8>
    decreases s.len(),
{
    if s.len() == 0 {
        seq![]
    } else {
        spec_encode(s.drop_last(), use_form_encoding) + encode_byte(s.last(), use_form_encoding)
    }
}

/// Whether every byte is an ASCII alphanumeric or one of `-`, `_`, `.`.
pub open spec fn is_unreserved_key(s: Seq<u8>) -> bool {
    forall|i: int| 0 <= i < s.len() ==> is_alnum(#[trigger] s[i]) || s[i] == 0x2d || s[i] == 0x5f || s[i] == 0x2e
}

/// `percent_encoding::percent_encode_byte`: the three-byte escape `%XX` of a
/// byte, with upper-case hex digits, read from the crate's table.
#[verifier::external_body]
fn percent_encode_byte(b: u8) -> (r: Vec<u8>)
    ensures
        r@ == percent_byte(b),
{
    percent_encoding::percent_encode_byte(b).as_bytes().to_vec()
}

fn is_alnum_exec(b: u8) -> (r: bool)
    ensures
        r == is_alnum(b),
{
    (0x30 <= b && b <= 0x39) || (0x41 <= b && b <= 0x5a) || (0x61 <= b && b <= 0x7a)
}

/// Whether a byte must be escaped under the given encoding.
pub fn needs_escape(b: u8, use_form_encoding: bool) -> (r: bool)
    ensures
        r == (if use_form_encoding { in_form_set(b) } else { in_query_set(b) }),
{
    if use_form_encoding {
        !(is_alnum_exec(b) || b == 0x2a || b == 0x2d || b == 0x2e || b == 0x5f)
    } else {
        b < 0x20 || b >= 0x7f || b == 0x22 || b == 0x23 || b == 0x3c || b == 0x3e || b == 0x2b
            || b == 0x5b || b == 0x5d || b == 0x3d || b == 0x26 || b == 0x25
    }
}

/// Appends the encoding of `b` to `out`.
pub fn encode_into(out: &mut Vec<u8>, b: &[u8], use_form_encoding: bool)
    ensures
        final(out)@ == old(out)@ + spec_encode(b@, use_form_encoding),
{
    let n = b.len();
    let mut i: usize = 0;
    assert(b@.subrange(0, 0) =~= Seq::<u8>::empty());
    while i < n
        invariant
            n == b@.len(),
            0 <= i <= n,
            out@ == old(out)@ + spec_encode(b@.subrange(0, i as int), use_form_encoding),
        decreases n - i,
    {
        let c: u8 = b[i];
        let ghost pre = out@;
        if use_form_encoding {
            if needs_escape(c, true) {
                let esc = percent_encode_byte(c);
                out.push(esc[0]);
                out.push(esc[1]);
                out.push(esc[2]);
            } else {
                out.push(c);
            }
        } else if c == 0x20 {
            out.push(0x2b);
        } else if needs_escape(c, false) {
            let esc = percent_encode_byte(c);
            out.push(esc[0]);
            out.push(esc[1]);
            out.push(esc[2]);
        } else {
            out.push(c);
        }
        assert(out@ =~= pre + encode_byte(c, use_form_encoding));
        assert(b@.subrange(0, i + 1).drop_last() =~= b@.subrange(0, i as int));
        i = i + 1;
    }
    assert(b@.subrange(0, n as int) =~= b@);
}

/// Encodes bytes for use in a querystring key or value.
///
/// Query-string encoding (the default) escapes only the minimal set and
/// writes spaces as `+`; form encoding escapes all but ASCII alphanumerics
/// and `*-._`, writing spaces as `%20`.
pub fn encode(b: &[u8], use_form_encoding: bool) -> (r: Vec<u8>)
    ensures
        r@ == spec_encode(b@, use_form_encoding),
{
    let mut out: Vec<u8> = Vec::new();
    encode_into(&mut out, b, use_form_encoding);
    assert(out@ =~= spec_encode(b@, use_form_encoding));
    out
}

/// Encoding a concatenation concatenates the encodings.
pub proof fn lemma_encode_append(a: Seq<u8>, b: Seq<u8>, f: bool)
    ensures
        spec_encode(a + b, f) == spec_encode(a, f) + spec_encode(b, f),
    decreases b.len(),
{
    if b.len() == 0 {
        assert(a + b =~= a);
        assert(spec_encode(a, f) + spec_encode(b, f) =~= spec_encode(a, f));
    } else {
        lemma_encode_append(a, b.drop_last(), f);
        assert((a + b).drop_last() =~= a + b.drop_last());
        assert((a + b).last() == b.last());
    }
}

proof fn lemma_hex_roundtrip(n: u8)
    requires
        n < 16,
    ensures
        hex_value(hex_upper(n)) == Some(n),
{
}

proof fn lemma_decode_escaped(c: u8, f: bool, rest: Seq<u8>)
    ensures
        spec_decode(encode_byte(c, f) + rest) == seq![c] + spec_decode(rest),
{
    let e = encode_byte(c, f);
    let s = e + rest;
    if e == percent_byte(c) {
        lemma_hex_roundtrip(c / 16);
        lemma_hex_roundtrip(c % 16);
        assert(s[0] == 0x25 && s[1] == hex_upper(c / 16) && s[2] == hex_upper(c % 16));
        assert(s.subrange(3, s.len() as int) =~= rest);
        assert((c / 16) * 16 + c % 16 == c);
    } else {
        assert(s.subrange(1, s.len() as int) =~= rest);
    }
}

/// Percent-decoding undoes the encoding: the bytes that went in come back,
/// for either encoding.
pub proof fn lemma_decode_encode(s: Seq<u8>, use_form_encoding: bool)
    ensures
        spec_decode(spec_encode(s, use_form_encoding)) == s,
    decreases s.len(),
{
    if s.len() > 0 {
        let t = s.subrange(1, s.len() as int);
        assert(seq![s[0]] + t =~= s);
        lemma_encode_append(seq![s[0]], t, use_form_encoding);
        let one = seq![s[0]];
        assert(one.drop_last() =~= Seq::<u8>::empty());
        assert(spec_encode(one.drop_last(), use_form_encoding) =~= Seq::<u8>::empty());
        assert(spec_encode(one, use_form_encoding) =~= encode_byte(s[0], use_form_encoding));
        lemma_decode_escaped(s[0], use_form_encoding, spec_encode(t, use_form_encoding));
        lemma_decode_encode(t, use_form_encoding);
    }
}

/// Bytes that need no escaping are written as they are.
pub proof fn lemma_encode_unreserved(s: Seq<u8>, f: bool)
    requires
        is_unreserved_key(s),
    ensures
        spec_encode(s, f) == s,
    decreases s.len(),
{
    if s.len() > 0 {
        assert(is_unreserved_key(s.drop_last()));
        lemma_encode_unreserved(s.drop_last(), f);
        assert(is_alnum(s[s.len() - 1]) || s.last() == 0x2d || s.last() == 0x5f || s.last() == 0x2e);
        assert(s.drop_last().push(s.last()) =~= s);
    }
}

/// Bytes that a querystring reads as structure: `&`, `=`, `[`, `]`, and the
/// `%` of an escape.
pub open spec fn is_delimiter(b: u8) -> bool {
    b == 0x26 || b == 0x3d || b == 0x5b || b == 0x5d || b == 0x25
}

/// Encoding writes no delimiter of its own: every `&`, `=`, `[`, `]` and
/// `%` of the input is escaped, in either encoding, and the only `%` in the
/// output starts an escape of two upper-case hex digits.
pub proof fn lemma_encode_escapes(s: Seq<u8>, f: bool)
    ensures
        forall|i: int|
            #![trigger spec_encode(s, f)[i]]
            0 <= i < spec_encode(s, f).len() && is_delimiter(spec_encode(s, f)[i]) ==> spec_encode(s, f)[i] == 0x25
                && i + 2 < spec_encode(s, f).len(),
    decreases s.len(),
{
    if s.len() > 0 {
        lemma_encode_escapes(s.drop_last(), f);
        let a = spec_encode(s.drop_last(), f);
        let b = encode_byte(s.last(), f);
        let e = spec_encode(s, f);
        assert(e == a + b);
        let c = s.last();
        assert((c / 16) < 16 && (c % 16) < 16);
        assert forall|i: int| #![trigger e[i]] 0 <= i < e.len() && is_delimiter(e[i]) implies e[i] == 0x25 && i + 2
            < e.len() by {
            if i < a.len() {
                assert(e[i] == a[i]);
            } else {
                assert(e[i] == b[i - a.len()]);
            }
        }
    }
}

/// Distinct byte strings are encoded differently, in either encoding: keys
/// never collide once written.
pub proof fn lemma_encode_injective(a: Seq<u8>, b: Seq<u8>, f: bool)
    requires
        spec_encode(a, f) == spec_encode(b, f),
    ensures
        a == b,
{
    lemma_decode_encode(a, f);
    lemma_decode_encode(b, f);
}

/// The upper-case hexadecimal digits, in order.
pub open spec fn upper_hex_digits() -> Seq<u8> {
    seq![
        0x30u8, 0x31u8, 0x32u8, 0x33u8, 0x34u8, 0x35u8, 0x36u8, 0x37u8, 0x38u8, 0x39u8, 0x41u8, 0x42u8, 0x43u8,
        0x44u8, 0x45u8, 0x46u8,
    ]
}

/// Query-string encoding, byte by byte, as the WHATWG query percent-encode
/// set and this format's delimiters ask: controls, non-ASCII bytes, `"`,
/// `#`, `<`, `>`, and the delimiters `+`, `[`, `]`, `=`, `&`, `%` are
/// written as `%` and two upper-case hex digits; a space is written `+`;
/// every other byte is written as it is.
pub proof fn lemma_query_encoding(b: u8)
    ensures
        (b < 0x20 || b >= 0x7f || b == 0x22 || b == 0x23 || b == 0x3c || b == 0x3e || b == 0x2b || b == 0x5b
            || b == 0x5d || b == 0x3d || b == 0x26 || b == 0x25) ==> spec_encode(seq![b], false) == seq![
            0x25u8,
            upper_hex_digits()[(b / 16) as int],
            upper_hex_digits()[(b % 16) as int],
        ],
        b == 0x20 ==> spec_encode(seq![b], false) == seq![0x2bu8],
        !(b < 0x20 || b >= 0x7f || b == 0x22 || b == 0x23 || b == 0x3c || b == 0x3e || b == 0x2b || b == 0x5b
            || b == 0x5d || b == 0x3d || b == 0x26 || b == 0x25 || b == 0x20) ==> spec_encode(seq![b], false)
            == seq![b],
{
    let one = seq![b];
    assert(one.drop_last() =~= Seq::<u8>::empty());
    assert(spec_encode(one.drop_last(), false) =~= Seq::<u8>::empty());
    assert(spec_encode(one, false) =~= encode_byte(b, false));
    let h = upper_hex_digits();
    assert(hex_upper(b / 16) == h[(b / 16) as int]);
    assert(hex_upper(b % 16) == h[(b % 16) as int]);
}

/// Form encoding, byte by byte, as `application/x-www-form-urlencoded`
/// asks: ASCII letters and digits and `*`, `-`, `.`, `_` are written as
/// they are, every other byte (a space included) as `%` and two
/// upper-case hex digits.
pub proof fn lemma_form_encoding(b: u8)
    ensures
        ((0x30 <= b <= 0x39) || (0x41 <= b <= 0x5a) || (0x61 <= b <= 0x7a) || b == 0x2a || b == 0x2d || b == 0x2e
            || b == 0x5f) ==> spec_encode(seq![b], true) == seq![b],
        !((0x30 <= b <= 0x39) || (0x41 <= b <= 0x5a) || (0x61 <= b <= 0x7a) || b == 0x2a || b == 0x2d || b == 0x2e
            || b == 0x5f) ==> spec_encode(seq![b], true) == seq![
            0x25u8,
            upper_hex_digits()[(b / 16) as int],
            upper_hex_digits()[(b % 16) as int],
        ],
{
    let one = seq![b];
    assert(one.drop_last() =~= Seq::<u8>::empty());
    assert(spec_encode(one.drop_last(), true) =~= Seq::<u8>::empty());
    assert(spec_encode(one, true) =~= encode_byte(b, true));
    let h = upper_hex_digits();
    assert(hex_upper(b / 16) == h[(b / 16) as int]);
    assert(hex_upper(b % 16) == h[(b % 16) as int]);
}

} // verus!
