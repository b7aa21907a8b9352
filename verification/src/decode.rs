use vstd::prelude::*;

verus! {

/// The value of an ASCII hexadecimal digit, upper or lower case.
pub open spec fn hex_value(c: u8) -> Option<u8> {
    if 0x30 <= c <= 0x39 {
        Some((c - 0x30) as u8)
    } else if 0x61 <= c <= 0x66 {
        Some((c - 0x61 + 10) as u8)
    } else if 0x41 <= c <= 0x46 {
        Some((c - 0x41 + 10) as u8)
    } else {
        None
    }
}

/// Percent-decoding as a querystring reads it, from the front:
/// `+` stands for a space, `%` and two hex digits for one byte.
/// A `%` that is not followed by two hex digits is kept, together with
/// the bytes that were inspected as its would-be digits.
pub open spec fn spec_decode(s: Seq<u8>) -> Seq<u8>
    decreases s.len(),
{
    if s.len() == 0 {
        seq![]
    } else if s[0] == 0x2b {
        seq![0x20u8] + spec_decode(s.subrange(1, s.len() as int))
    } else if s[0] == 0x25 {
        if s.len() == 1 {
            seq![0x25u8]
        } else if hex_value(s[1]) is None {
            seq![0x25u8, s[1]] + spec_decode(s.subrange(2, s.len() as int))
        } else if s.len() == 2 {
            seq![0x25u8, s[1]]
        } else if hex_value(s[2]) is None {
            seq![0x25u8, s[1], s[2]] + spec_decode(s.subrange(3, s.len() as int))
        } else {
            seq![(hex_value(s[1]).unwrap() * 16 + hex_value(s[2]).unwrap()) as u8]
                + spec_decode(s.subrange(3, s.len() as int))
        }
    } else {
        seq![s[0]] + spec_decode(s.subrange(1, s.len() as int))
    }
}

/// Whether the bytes hold neither `+` nor `%`, so decoding leaves them as they are.
pub open spec fn plain_bytes(s: Seq<u8>) -> bool {
    forall|i: int| 0 <= i < s.len() ==> s[i] != 0x2b && s[i] != 0x25
}

/// The value of a hexadecimal digit, in either case.
pub fn char_to_hexdigit(c: u8) -> (r: Option<u8>)
    ensures
        r == hex_value(c),
{
    if 0x30 <= c && c <= 0x39 {
        Some(c - 0x30)
    } else if 0x61 <= c && c <= 0x66 {
        Some(c - 0x61 + 10)
    } else if 0x41 <= c && c <= 0x46 {
        Some(c - 0x41 + 10)
    } else {
        None
    }
}

/// Appends one byte.
pub fn push_no_alloc(bytes: &mut Vec<u8>, b: u8)
    ensures
        final(bytes)@ == old(bytes)@.push(b),
{
    bytes.push(b);
}

/// Appends `slice[from..to]`.
pub fn extend_no_alloc(bytes: &mut Vec<u8>, slice: &[u8], from: usize, to: usize)
    requires
        from <= to <= slice@.len(),
    ensures
        final(bytes)@ == old(bytes)@ + slice@.subrange(from as int, to as int),
{
    let mut i: usize = from;
    while i < to
        invariant
            from <= i <= to <= slice@.len(),
            bytes@ == old(bytes)@ + slice@.subrange(from as int, i as int),
        decreases to - i,
    {
        bytes.push(slice[i]);
        i = i + 1;
        assert(bytes@ =~= old(bytes)@ + slice@.subrange(from as int, i as int));
    }
}

proof fn lemma_decode_plain(s: Seq<u8>)
    requires
        plain_bytes(s),
    ensures
        spec_decode(s) == s,
    decreases s.len(),
{
    if s.len() > 0 {
        let t = s.subrange(1, s.len() as int);
        assert(plain_bytes(t)) by {
            assert forall|i: int| 0 <= i < t.len() implies t[i] != 0x2b && t[i] != 0x25 by {
                assert(t[i] == s[i + 1]);
            }
        }
        lemma_decode_plain(t);
        assert(seq![s[0]] + t =~= s);
    }
}

fn is_plain(input: &[u8]) -> (r: bool)
    ensures
        r == plain_bytes(input@),
{
    let mut i: usize = 0;
    while i < input.len()
        invariant
            0 <= i <= input@.len(),
            forall|j: int| 0 <= j < i ==> input@[j] != 0x2b && input@[j] != 0x25,
        decreases input.len() - i,
    {
        if input[i] == 0x2b || input[i] == 0x25 {
            return false;
        }
        i = i + 1;
    }
    true
}

/// Decodes the input, replacing `+` with a space and decoding
/// percent-encoded bytes.
pub fn decode(input: &[u8]) -> (r: Vec<u8>)
    ensures
        r@ == spec_decode(input@),
{
    if is_plain(input) {
        proof {
            lemma_decode_plain(input@);
        }
        return vstd::slice::slice_to_vec(input);
    }
    let n = input.len();
    let ghost s = input@;
    let mut decoded: Vec<u8> = Vec::with_capacity(n);
    let mut last_segment: usize = 0;
    let mut idx: usize = 0;
    assert(s.subrange(0, n as int) =~= s);
    while idx < n
        invariant
            n == s.len(),
            s == input@,
            last_segment <= idx <= n,
            decoded@ + s.subrange(last_segment as int, idx as int) + spec_decode(
                s.subrange(idx as int, n as int),
            ) == spec_decode(s),
        decreases n - idx,
    {
        let ghost rest = s.subrange(idx as int, n as int);
        let b: u8 = input[idx];
        assert(rest[0] == b);
        if b == 0x2b {
            let ghost pre = decoded@;
            extend_no_alloc(&mut decoded, input, last_segment, idx);
            push_no_alloc(&mut decoded, 0x20);
            assert(rest.subrange(1, rest.len() as int) =~= s.subrange(idx + 1, n as int));
            assert(s.subrange(idx as int + 1, idx as int + 1) =~= Seq::<u8>::empty());
            assert(decoded@ =~= pre + s.subrange(last_segment as int, idx as int) + seq![0x20u8]);
            idx = idx + 1;
            last_segment = idx;
        } else if b == 0x25 {
            if idx + 1 >= n {
                assert(rest =~= seq![0x25u8]);
                assert(s.subrange(last_segment as int, idx as int) + seq![0x25u8]
                    =~= s.subrange(last_segment as int, n as int));
                assert(s.subrange(n as int, n as int) =~= Seq::<u8>::empty());
                idx = n;
            } else {
                let h = char_to_hexdigit(input[idx + 1]);
                assert(rest[1] == s[idx + 1]);
                match h {
                    None => {
                        assert(rest.subrange(2, rest.len() as int) =~= s.subrange(
                            idx + 2,
                            n as int,
                        ));
                        assert(s.subrange(last_segment as int, idx as int) + seq![0x25u8, s[idx + 1]]
                            =~= s.subrange(last_segment as int, idx + 2));
                        idx = idx + 2;
                    },
                    Some(hv) => {
                        if idx + 2 >= n {
                            assert(rest =~= seq![0x25u8, s[idx + 1]]);
                            assert(s.subrange(last_segment as int, idx as int) + seq![0x25u8, s[idx + 1]]
                                =~= s.subrange(last_segment as int, n as int));
                            assert(s.subrange(n as int, n as int) =~= Seq::<u8>::empty());
                            idx = n;
                        } else {
                            let l = char_to_hexdigit(input[idx + 2]);
                            assert(rest[2] == s[idx + 2]);
                            assert(rest.subrange(3, rest.len() as int) =~= s.subrange(
                                idx + 3,
                                n as int,
                            ));
                            match l {
                                None => {
                                    assert(s.subrange(last_segment as int, idx as int) + seq![
                                        0x25u8,
                                        s[idx + 1],
                                        s[idx + 2],
                                    ] =~= s.subrange(last_segment as int, idx + 3));
                                    idx = idx + 3;
                                },
                                Some(lv) => {
                                    let ghost pre = decoded@;
                                    extend_no_alloc(&mut decoded, input, last_segment, idx);
                                    let byte: u8 = hv * 16 + lv;
                                    push_no_alloc(&mut decoded, byte);
                                    assert(decoded@ =~= pre + s.subrange(
                                        last_segment as int,
                                        idx as int,
                                    ) + seq![byte]);
                                    assert(s.subrange(idx as int + 3, idx as int + 3)
                                        =~= Seq::<u8>::empty());
                                    idx = idx + 3;
                                    last_segment = idx;
                                },
                            }
                        }
                    },
                }
            }
        } else {
            assert(rest.subrange(1, rest.len() as int) =~= s.subrange(idx + 1, n as int));
            assert(s.subrange(last_segment as int, idx as int) + seq![b] =~= s.subrange(
                last_segment as int,
                idx + 1,
            ));
            idx = idx + 1;
        }
    }
    let ghost pre = decoded@;
    extend_no_alloc(&mut decoded, input, last_segment, n);
    assert(s.subrange(n as int, n as int) =~= Seq::<u8>::empty());
    assert(decoded@ =~= pre + s.subrange(last_segment as int, n as int));
    decoded
}

/// The lower-case hexadecimal digits, in order.
pub open spec fn lower_hex_digits() -> Seq<u8> {
    seq![
        0x30u8, 0x31u8, 0x32u8, 0x33u8, 0x34u8, 0x35u8, 0x36u8, 0x37u8, 0x38u8, 0x39u8, 0x61u8, 0x62u8, 0x63u8,
        0x64u8, 0x65u8, 0x66u8,
    ]
}

/// The upper-case hexadecimal digits, in order.
pub open spec fn capital_hex_digits() -> Seq<u8> {
    seq![
        0x30u8, 0x31u8, 0x32u8, 0x33u8, 0x34u8, 0x35u8, 0x36u8, 0x37u8, 0x38u8, 0x39u8, 0x41u8, 0x42u8, 0x43u8,
        0x44u8, 0x45u8, 0x46u8,
    ]
}

/// Hex digits are read in either case: the digit for `d` in lower or upper
/// case has the value `d` (what `char_to_hexdigit` gives), and no other
/// byte is a hex digit.
pub proof fn lemma_hex_digits(d: int, c: u8)
    requires
        0 <= d < 16,
    ensures
        hex_value(lower_hex_digits()[d]) == Some(d as u8),
        hex_value(capital_hex_digits()[d]) == Some(d as u8),
        hex_value(c) matches Some(x) ==> x < 16 && (c == lower_hex_digits()[x as int] || c
            == capital_hex_digits()[x as int]),
{
}

/// A `%` escape decodes to its byte, whatever the case of its two hex
/// digits: `%2f` and `%2F` both give `/`.
pub proof fn lemma_decode_escape(b: u8, upper_hi: bool, upper_lo: bool)
    ensures
        ({
            let hi = if upper_hi {
                capital_hex_digits()[(b / 16) as int]
            } else {
                lower_hex_digits()[(b / 16) as int]
            };
            let lo = if upper_lo {
                capital_hex_digits()[(b % 16) as int]
            } else {
                lower_hex_digits()[(b % 16) as int]
            };
            spec_decode(seq![0x25u8, hi, lo]) == seq![b]
        }),
{
    let hi = if upper_hi {
        capital_hex_digits()[(b / 16) as int]
    } else {
        lower_hex_digits()[(b / 16) as int]
    };
    let lo = if upper_lo {
        capital_hex_digits()[(b % 16) as int]
    } else {
        lower_hex_digits()[(b % 16) as int]
    };
    let s = seq![0x25u8, hi, lo];
    lemma_hex_digits((b / 16) as int, hi);
    lemma_hex_digits((b % 16) as int, lo);
    assert(s.subrange(3, 3) =~= Seq::<u8>::empty());
    assert(spec_decode(s.subrange(3, 3)) =~= Seq::<u8>::empty());
    assert(((b / 16) as u8 * 16 + (b % 16) as u8) as u8 == b);
    assert(spec_decode(s) =~= seq![b]);
}

} // verus!
