use vstd::prelude::*;
use vstd::utf8::encode_utf8;
use crate::de::StringParsingDeserializer;
use crate::parse::{all_digits, digits_value, is_digit, lemma_digits_prefix};

verus! {

/// The digits of an unsigned number: after an optional `+`.
pub open spec fn unsigned_digits(s: Seq<u8>) -> Seq<u8> {
    if s.len() > 0 && s[0] == 0x2b {
        s.subrange(1, s.len() as int)
    } else {
        s
    }
}

/// The digits of a signed number: after an optional `+` or `-`.
pub open spec fn signed_digits(s: Seq<u8>) -> Seq<u8> {
    if s.len() > 0 && (s[0] == 0x2b || s[0] == 0x2d) {
        s.subrange(1, s.len() as int)
    } else {
        s
    }
}

/// Whether the digits are a decimal number: at least one digit, nothing else.
pub open spec fn is_number(d: Seq<u8>) -> bool {
    d.len() > 0 && all_digits(d)
}

/// The value of a signed number's text.
pub open spec fn signed_value(s: Seq<u8>) -> int {
    if s.len() > 0 && s[0] == 0x2d {
        -(digits_value(signed_digits(s)) as int)
    } else {
        digits_value(signed_digits(s)) as int
    }
}

/// The value of the digits `s[from..]` where they are a number not above `max`.
fn digits_upto(s: &[u8], from: usize, max: u64) -> (r: Option<u64>)
    requires
        from <= s@.len(),
    ensures
        ({
            let d = s@.subrange(from as int, s@.len() as int);
            &&& r is Some <==> (is_number(d) && digits_value(d) <= max)
            &&& r matches Some(v) ==> v == digits_value(d)
        }),
{
    let ghost d = s@.subrange(from as int, s@.len() as int);
    let n = s.len();
    if from == n {
        return None;
    }
    let mut i: usize = from;
    let mut v: u64 = 0;
    assert(d.subrange(0, 0) =~= Seq::<u8>::empty());
    while i < n
        invariant
            n == s@.len(),
            from < n,
            from <= i <= n,
            d == s@.subrange(from as int, n as int),
            v as nat == digits_value(d.subrange(0, i - from)),
            all_digits(d.subrange(0, i - from)),
            v <= max,
        decreases n - i,
    {
        let c: u8 = s[i];
        let ghost k = i - from;
        assert(d[k] == c);
        if c < 0x30 || c > 0x39 {
            assert(!is_digit(d[k]));
            return None;
        }
        let dg: u64 = (c - 0x30) as u64;
        let ghost sub = d.subrange(0, k + 1);
        proof {
            assert(sub.drop_last() =~= d.subrange(0, k));
            assert(sub.last() == c);
            assert forall|j: int| 0 <= j < sub.len() implies is_digit(#[trigger] sub[j]) by {
                if j < k {
                    assert(sub[j] == d.subrange(0, k)[j]);
                }
            }
        }
        if dg > max || v > (max - dg) / 10 {
            proof {
                if dg <= max {
                    assert(v * 10 + dg > max) by (nonlinear_arith)
                        requires
                            v > (max - dg) / 10,
                            dg <= max,
                    ;
                }
                lemma_digits_prefix(d, k + 1);
            }
            return None;
        }
        proof {
            assert(v * 10 + dg <= max) by (nonlinear_arith)
                requires
                    v <= (max - dg) / 10,
                    dg <= 9,
            ;
        }
        v = v * 10 + dg;
        i = i + 1;
    }
    assert(d.subrange(0, n - from) =~= d);
    Some(v)
}

impl StringParsingDeserializer {
    /// The text read as an unsigned integer not above `max`, as
    /// `str::parse` reads one: an optional `+`, then decimal digits.
    pub fn parse_unsigned(&self, max: u64) -> (r: Option<u64>)
        ensures
            ({
                let d = unsigned_digits(encode_utf8(self.value@));
                &&& r is Some <==> (is_number(d) && digits_value(d) <= max)
                &&& r matches Some(v) ==> v == digits_value(d)
            }),
    {
        let s = self.value.as_str().as_bytes();
        let from: usize = if s.len() > 0 && s[0] == 0x2b { 1 } else { 0 };
        proof {
            if from == 0 {
                assert(s@.subrange(0, s@.len() as int) =~= s@);
            }
        }
        digits_upto(s, from, max)
    }

    /// The text read as a signed integer within `min..=max`, as
    /// `str::parse` reads one: an optional `+` or `-`, then decimal digits.
    pub fn parse_signed(&self, min: i64, max: i64) -> (r: Option<i64>)
        requires
            min <= 0 <= max,
        ensures
            ({
                let b = encode_utf8(self.value@);
                &&& r is Some <==> (is_number(signed_digits(b)) && min <= signed_value(b) <= max)
                &&& r matches Some(v) ==> v == signed_value(b)
            }),
    {
        let s = self.value.as_str().as_bytes();
        let neg = s.len() > 0 && s[0] == 0x2d;
        let from: usize = if s.len() > 0 && (s[0] == 0x2b || s[0] == 0x2d) { 1 } else { 0 };
        proof {
            if from == 0 {
                assert(s@.subrange(0, s@.len() as int) =~= s@);
            }
        }
        let limit: u64 = if !neg {
            max as u64
        } else if min == 0 {
            0
        } else {
            ((-(min + 1)) as u64) + 1
        };
        match digits_upto(s, from, limit) {
            None => None,
            Some(mag) => {
                assert(mag <= limit);
                if neg {
                    if mag == 0 {
                        Some(0)
                    } else {
                        Some(-(((mag - 1) as i64)) - 1)
                    }
                } else {
                    Some(mag as i64)
                }
            },
        }
    }

    /// The text read as a boolean, as `str::parse` reads one: exactly
    /// `true` or `false`.
    pub fn parse_bool(&self) -> (r: Option<bool>)
        ensures
            r == (if self.value@ == "true"@ {
                Some(true)
            } else if self.value@ == "false"@ {
                Some(false)
            } else {
                None
            }),
    {
        let s = self.value.as_str();
        proof {
            reveal_strlit("true");
            reveal_strlit("false");
        }
        let n = s.unicode_len();
        if n == 4 && s.get_char(0) == 't' && s.get_char(1) == 'r' && s.get_char(2) == 'u' && s.get_char(3) == 'e' {
            assert(s@ =~= "true"@);
            Some(true)
        } else if n == 5 && s.get_char(0) == 'f' && s.get_char(1) == 'a' && s.get_char(2) == 'l' && s.get_char(3)
            == 's' && s.get_char(4) == 'e' {
            assert(s@ =~= "false"@);
            Some(false)
        } else {
            None
        }
    }
}

} // verus!
