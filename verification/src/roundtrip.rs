use vstd::prelude::*;
use crate::config::Config;
use crate::decode::spec_decode;
use crate::encode::{
    encode_byte, hex_upper, is_alnum, is_unreserved_key, lemma_decode_encode, lemma_encode_append,
    lemma_encode_unreserved, percent_byte, spec_encode,
};
use crate::parse::{
    all_digits, digits_value, is_digit, is_stop, key_of, scan, sp_finish_entry, sp_insert, sp_nested,
    sp_root, sp_seq_value, spec_parse, tok_byte, tok_width, value_of, Stop,
};
use crate::error::Error;
use crate::ser::{
    close_bracket, concat_segments, key_bytes, key_segment, open_bracket, pushed_key, separator, stack_text,
    wrote_no_value, wrote_value, QsSerializer, element_key,
};
use crate::config::ArrayFormat;
use crate::text::dec_nat;
use crate::tree::{
    apart, child_map, entries_leaves, fits, is_prefix, lemma_find_set, lemma_fits_empty, lemma_put_count,
    lemma_put_fits_other, lemma_put_lookup_other, lemma_put_lookup_self, lookup, tree_put,
};
use crate::order::{entries_ordered, lemma_get_ordered, ordered};
use crate::reorder::{
    compatible, independent, is_element, key_path, lemma_put_entry, lemma_reorder, put_entries, put_entry,
    reorders, seq_elems,
};
use crate::value::{
    find_key, get_or_uninit, insert_pos, lemma_find_key_range, lemma_insert_pos_range, map_set, KeyV, ValueV,
};

verus! {

/// The encoding of one byte followed by the encoding of the rest.
proof fn lemma_encode_front(k: Seq<u8>, f: bool)
    requires
        k.len() > 0,
    ensures
        spec_encode(k, f) == encode_byte(k[0], f) + spec_encode(k.subrange(1, k.len() as int), f),
{
    let rest = k.subrange(1, k.len() as int);
    let one = seq![k[0]];
    assert(one + rest =~= k);
    lemma_encode_append(one, rest, f);
    assert(one.drop_last() =~= Seq::<u8>::empty());
    assert(spec_encode(one.drop_last(), f) =~= Seq::<u8>::empty());
    assert(spec_encode(one, f) =~= encode_byte(k[0], f));
}

proof fn lemma_hex_upper_range(n: u8)
    requires
        n < 16,
    ensures
        (0x30 <= hex_upper(n) <= 0x39) || (0x41 <= hex_upper(n) <= 0x46),
        hex_upper(n) == 0x35 ==> n == 5,
        hex_upper(n) == 0x42 ==> n == 11,
        hex_upper(n) == 0x44 ==> n == 13,
{
}

/// A scan passes over an encoded segment: nothing that encoding writes
/// stops it, except an escaped bracket in form encoding where a bracket stops.
#[verifier::spinoff_prover]
proof fn lemma_scan_encoded(s: Seq<u8>, i: int, k: Seq<u8>, form: bool, stop: Stop)
    requires
        0 <= i,
        i + spec_encode(k, form).len() <= s.len(),
        s.subrange(i, i + spec_encode(k, form).len()) == spec_encode(k, form),
        form && stop is Root ==> !k.contains(0x5bu8),
        form && stop is Close ==> !k.contains(0x5du8),
    ensures
        scan(s, i, form, stop) == scan(s, i + spec_encode(k, form).len(), form, stop),
        k.len() > 0 ==> !is_stop(tok_byte(s, i, form), stop) && i + tok_width(s, i, form) <= i + spec_encode(
            k,
            form,
        ).len(),
    decreases k.len(),
{
    if k.len() > 0 {
        let c = k[0];
        let rest = k.subrange(1, k.len() as int);
        lemma_encode_front(k, form);
        let e1 = encode_byte(c, form);
        let er = spec_encode(rest, form);
        let n1 = e1.len() as int;
        assert(s.subrange(i, i + n1) =~= e1) by {
            assert forall|j: int| 0 <= j < n1 implies s.subrange(i, i + n1)[j] == e1[j] by {
                assert(s[i + j] == s.subrange(i, i + spec_encode(k, form).len())[j]);
            }
        }
        assert(s.subrange(i + n1, i + n1 + er.len()) =~= er) by {
            assert forall|j: int| 0 <= j < er.len() implies s.subrange(i + n1, i + n1 + er.len())[j] == er[j] by {
                assert(s[i + n1 + j] == s.subrange(i, i + spec_encode(k, form).len())[n1 + j]);
            }
        }
        if e1 == percent_byte(c) {
            let hi = hex_upper(c / 16);
            let lo = hex_upper(c % 16);
            lemma_hex_upper_range(c / 16);
            lemma_hex_upper_range(c % 16);
            assert(s[i] == 0x25u8 && s[i + 1] == hi && s[i + 2] == lo) by {
                assert(s[i] == s.subrange(i, i + n1)[0]);
                assert(s[i + 1] == s.subrange(i, i + n1)[1]);
                assert(s[i + 2] == s.subrange(i, i + n1)[2]);
            }
            if form && (crate::parse::is_escaped_bracket(s, i, false) || crate::parse::is_escaped_bracket(s, i, true)) {
                if crate::parse::is_escaped_bracket(s, i, false) {
                    assert(c == 0x5b) by {
                        assert(c / 16 == 5 && c % 16 == 11);
                    }
                    assert(k[0] == c);
                    assert(stop !is Root);
                } else {
                    assert(c == 0x5d) by {
                        assert(c / 16 == 5 && c % 16 == 13);
                    }
                    assert(k[0] == c);
                    assert(stop !is Close);
                }
                assert(!is_stop(tok_byte(s, i, form), stop));
                assert(tok_width(s, i, form) == 3);
            } else {
                assert(tok_byte(s, i, form) == 0x25);
                assert(tok_width(s, i, form) == 1);
                assert(tok_byte(s, i + 1, form) == hi);
                assert(tok_width(s, i + 1, form) == 1);
                assert(tok_byte(s, i + 2, form) == lo);
                assert(tok_width(s, i + 2, form) == 1);
                assert(scan(s, i + 2, form, stop) == scan(s, i + 3, form, stop));
                assert(scan(s, i + 1, form, stop) == scan(s, i + 2, form, stop));
            }
        } else {
            assert(s[i] == e1[0]) by {
                assert(s[i] == s.subrange(i, i + n1)[0]);
            }
            assert(e1.len() == 1);
            assert(s[i] != 0x25);
            assert(tok_byte(s, i, form) == s[i]);
            assert(!is_stop(s[i], stop));
        }
        if form && stop is Root {
            assert(!rest.contains(0x5bu8)) by {
                if rest.contains(0x5bu8) {
                    let j = choose|j: int| 0 <= j < rest.len() && rest[j] == 0x5bu8;
                    assert(k[j + 1] == 0x5bu8);
                }
            }
        }
        if form && stop is Close {
            assert(!rest.contains(0x5du8)) by {
                if rest.contains(0x5du8) {
                    let j = choose|j: int| 0 <= j < rest.len() && rest[j] == 0x5du8;
                    assert(k[j + 1] == 0x5du8);
                }
            }
        }
        lemma_scan_encoded(s, i + n1, rest, form, stop);
    }
}

/// How a flat key reads back: a run of digits that fits a `usize` as an
/// integer key, anything else as itself.
pub open spec fn read_key(k: Seq<u8>) -> KeyV {
    if k.len() > 0 && all_digits(k) && digits_value(k) <= usize::MAX {
        KeyV::Int(digits_value(k) as usize)
    } else {
        KeyV::Str(k)
    }
}

/// How a value reads back: an empty one as `Null`, anything else as itself.
pub open spec fn read_value(v: Seq<u8>) -> ValueV {
    if v.len() == 0 {
        ValueV::Null
    } else {
        ValueV::Str(v)
    }
}

proof fn lemma_encode_nonempty(k: Seq<u8>, f: bool)
    requires
        k.len() > 0,
    ensures
        spec_encode(k, f).len() > 0,
{
    lemma_encode_front(k, f);
}

/// A run of digits only comes from a run of digits.
proof fn lemma_encoded_digits(k: Seq<u8>, f: bool)
    requires
        all_digits(spec_encode(k, f)),
    ensures
        all_digits(k),
    decreases k.len(),
{
    if k.len() > 0 {
        let e = spec_encode(k, f);
        let a = spec_encode(k.drop_last(), f);
        let b = encode_byte(k.last(), f);
        assert(e == a + b);
        assert(all_digits(a)) by {
            assert forall|i: int| 0 <= i < a.len() implies is_digit(#[trigger] a[i]) by {
                assert(e[i] == a[i]);
            }
        }
        assert(is_digit(b[0])) by {
            assert(e[a.len() as int] == b[0]);
        }
        lemma_encoded_digits(k.drop_last(), f);
        assert(is_digit(k.last()));
        assert forall|i: int| 0 <= i < k.len() implies is_digit(#[trigger] k[i]) by {
            if i < k.len() - 1 {
                assert(k.drop_last()[i] == k[i]);
            }
        }
    }
}

/// An encoded nonempty key reads back as the key.
proof fn lemma_key_of_encoded(k: Seq<u8>, f: bool)
    requires
        k.len() > 0,
    ensures
        key_of(spec_encode(k, f)) == read_key(k),
{
    lemma_decode_encode(k, f);
    if all_digits(k) {
        assert(is_unreserved_key(k)) by {
            assert forall|i: int| 0 <= i < k.len() implies is_alnum(#[trigger] k[i]) || k[i] == 0x2d || k[i]
                == 0x5f || k[i] == 0x2e by {
                assert(is_digit(k[i]));
            }
        }
        lemma_encode_unreserved(k, f);
    } else {
        if all_digits(spec_encode(k, f)) {
            lemma_encoded_digits(k, f);
        }
    }
}

/// An encoded value reads back as the value.
proof fn lemma_value_of_encoded(v: Seq<u8>, f: bool)
    ensures
        value_of(spec_encode(v, f)) == read_value(v),
{
    lemma_decode_encode(v, f);
    if v.len() > 0 {
        lemma_encode_nonempty(v, f);
    } else {
        assert(spec_encode(v, f) =~= Seq::<u8>::empty());
    }
}

/// The segment written for key bytes `k` (the bytes that `key_bytes` gives
/// for a key): `k` encoded, bracketed unless it is the first.
pub open spec fn raw_segment(k: Seq<u8>, first: bool, form: bool) -> Seq<u8> {
    if first {
        spec_encode(k, form)
    } else {
        open_bracket(form) + spec_encode(k, form) + close_bracket(form)
    }
}

/// The pairs with each key replaced by the bytes whose encoding is written.
pub open spec fn raw_pairs(ps: Seq<(Seq<u8>, Seq<u8>)>, form: bool) -> Seq<(Seq<u8>, Seq<u8>)> {
    Seq::new(ps.len(), |i: int| (key_bytes(ps[i].0, form), ps[i].1))
}

/// A path with each key replaced by the bytes whose encoding is written.
pub open spec fn raw_path(path: Seq<Seq<u8>>, form: bool) -> Seq<Seq<u8>> {
    Seq::new(path.len(), |i: int| key_bytes(path[i], form))
}

/// Entries with each path replaced by its `raw_path`.
pub open spec fn raw_entries(es: Seq<(Seq<Seq<u8>>, Option<Seq<u8>>)>, form: bool) -> Seq<
    (Seq<Seq<u8>>, Option<Seq<u8>>),
> {
    Seq::new(es.len(), |i: int| (raw_path(es[i].0, form), es[i].1))
}

/// Form encoding escapes every bracket of a key, so the bytes written for
/// a key hold no bracket; they are empty exactly when the key is.
pub proof fn lemma_key_bytes(k: Seq<u8>, form: bool)
    ensures
        form ==> !key_bytes(k, form).contains(0x5bu8) && !key_bytes(k, form).contains(0x5du8),
        key_bytes(k, form).len() == 0 <==> k.len() == 0,
        k.len() == 0 ==> key_bytes(k, form) == k,
    decreases k.len(),
{
    if k.len() == 0 {
        assert(spec_encode(k, true) =~= k);
    } else {
        lemma_key_bytes(k.drop_last(), form);
        lemma_encode_nonempty(k, true);
        if form {
            let e0 = spec_encode(k.drop_last(), true);
            let e1 = encode_byte(k.last(), true);
            assert(spec_encode(k, true) == e0 + e1);
            let b = k.last();
            if e1 == percent_byte(b) {
                lemma_hex_upper_range(b / 16);
                lemma_hex_upper_range(b % 16);
            }
            assert forall|x: int| 0 <= x < e1.len() implies e1[x] != 0x5bu8 && e1[x] != 0x5du8 by {
                if e1 == percent_byte(b) {
                    lemma_hex_upper_range(b / 16);
                    lemma_hex_upper_range(b % 16);
                }
            }
            assert(!(e0 + e1).contains(0x5bu8)) by {
                if (e0 + e1).contains(0x5bu8) {
                    let x = choose|x: int| 0 <= x < (e0 + e1).len() && (e0 + e1)[x] == 0x5bu8;
                    if x < e0.len() {
                        assert(e0[x] == 0x5bu8);
                        assert(e0.contains(0x5bu8));
                    } else {
                        assert(e1[x - e0.len()] == 0x5bu8);
                    }
                }
            }
            assert(!(e0 + e1).contains(0x5du8)) by {
                if (e0 + e1).contains(0x5du8) {
                    let x = choose|x: int| 0 <= x < (e0 + e1).len() && (e0 + e1)[x] == 0x5du8;
                    if x < e0.len() {
                        assert(e0[x] == 0x5du8);
                        assert(e0.contains(0x5du8));
                    } else {
                        assert(e1[x - e0.len()] == 0x5du8);
                    }
                }
            }
        }
    }
}

/// One pair as the serializer writes it at the top level: the segment of
/// the key bytes, `=`, the encoded value.
pub open spec fn pair_text(k: Seq<u8>, v: Seq<u8>, form: bool) -> Seq<u8> {
    concat_segments(seq![raw_segment(k, true, form)]) + seq![0x3du8] + spec_encode(v, form)
}

/// The text that a fresh serializer writes for flat pairs, each written by
/// `push_key(k)`, `write_value(v)` and `pop_key()`: the pairs separated by `&`.
pub open spec fn flat_text(ps: Seq<(Seq<u8>, Seq<u8>)>, form: bool) -> Seq<u8>
    decreases ps.len(),
{
    if ps.len() == 0 {
        Seq::empty()
    } else {
        flat_text(ps.drop_last(), form) + separator(ps.len() == 1) + pair_text(ps.last().0, ps.last().1, form)
    }
}

/// No two keys of the pairs read back as the same key.
pub open spec fn keys_distinct(ps: Seq<(Seq<u8>, Seq<u8>)>) -> bool {
    forall|i: int, j: int| 0 <= i < j < ps.len() ==> read_key(ps[i].0) != read_key(ps[j].0)
}

/// Where form encoding reads an escaped `[` as a bracket and keys nest, no
/// key holds a `[`.
pub open spec fn keys_flat(ps: Seq<(Seq<u8>, Seq<u8>)>, cfg: Config) -> bool {
    cfg.use_form_encoding && cfg.max_depth > 0 ==> forall|j: int| 0 <= j < ps.len() ==> !(#[trigger] ps[j].0).contains(0x5bu8)
}

/// The same text, built from the front.
spec fn front_text(ps: Seq<(Seq<u8>, Seq<u8>)>, form: bool) -> Seq<u8>
    decreases ps.len(),
{
    if ps.len() == 0 {
        Seq::empty()
    } else if ps.len() == 1 {
        pair_text(ps[0].0, ps[0].1, form)
    } else {
        pair_text(ps[0].0, ps[0].1, form) + seq![0x26u8] + front_text(ps.drop_first(), form)
    }
}

proof fn lemma_pair_text(k: Seq<u8>, v: Seq<u8>, form: bool)
    ensures
        pair_text(k, v, form) == spec_encode(k, form) + seq![0x3du8] + spec_encode(v, form),
{
    let one = seq![raw_segment(k, true, form)];
    assert(one.drop_last() =~= Seq::<Seq<u8>>::empty());
    assert(concat_segments(one.drop_last()) =~= Seq::<u8>::empty());
    assert(concat_segments(one) =~= spec_encode(k, form));
}

proof fn lemma_front_snoc(ps: Seq<(Seq<u8>, Seq<u8>)>, form: bool)
    requires
        ps.len() >= 2,
    ensures
        front_text(ps, form) == front_text(ps.drop_last(), form) + seq![0x26u8] + pair_text(
            ps.last().0,
            ps.last().1,
            form,
        ),
    decreases ps.len(),
{
    let p0 = pair_text(ps[0].0, ps[0].1, form);
    let pl = pair_text(ps.last().0, ps.last().1, form);
    let amp = seq![0x26u8];
    if ps.len() == 2 {
        assert(ps.drop_first().len() == 1);
        assert(ps.drop_first()[0] == ps.last());
        assert(ps.drop_last().len() == 1);
        assert(ps.drop_last()[0] == ps[0]);
        assert(front_text(ps.drop_first(), form) == pl);
        assert(front_text(ps.drop_last(), form) == p0);
        assert(front_text(ps, form) =~= p0 + amp + pl);
    } else {
        let t = ps.drop_first();
        lemma_front_snoc(t, form);
        assert(t.drop_last() =~= ps.drop_last().drop_first());
        assert(t.last() == ps.last());
        assert(ps.drop_last()[0] == ps[0]);
        assert(front_text(ps.drop_last(), form) == p0 + amp + front_text(ps.drop_last().drop_first(), form));
        assert(front_text(ps, form) =~= front_text(ps.drop_last(), form) + amp + pl);
    }
}

proof fn lemma_front_back(ps: Seq<(Seq<u8>, Seq<u8>)>, form: bool)
    ensures
        flat_text(ps, form) == front_text(ps, form),
    decreases ps.len(),
{
    if ps.len() == 1 {
        assert(ps.drop_last().len() == 0);
        assert(flat_text(ps.drop_last(), form) =~= Seq::<u8>::empty());
        assert(ps.last() == ps[0]);
        assert(flat_text(ps, form) =~= pair_text(ps[0].0, ps[0].1, form));
    } else if ps.len() >= 2 {
        lemma_front_back(ps.drop_last(), form);
        lemma_front_snoc(ps, form);
    }
}

/// The pairs read back, inserted one after another into `m` in key order.
spec fn insert_pairs(m: Seq<(KeyV, ValueV)>, ps: Seq<(Seq<u8>, Seq<u8>)>) -> Seq<(KeyV, ValueV)>
    decreases ps.len(),
{
    if ps.len() == 0 {
        m
    } else {
        let k = read_key(ps[0].0);
        insert_pairs(m.insert(insert_pos(m, k), (k, read_value(ps[0].1))), ps.drop_first())
    }
}

/// No key of the pairs is already in `m`.
spec fn fresh_in(m: Seq<(KeyV, ValueV)>, ps: Seq<(Seq<u8>, Seq<u8>)>) -> bool {
    forall|j: int, l: int| #![trigger m[l], ps[j]] 0 <= j < ps.len() && 0 <= l < m.len() ==> m[l].0 != read_key(ps[j].0)
}

proof fn lemma_fresh_after_insert(m: Seq<(KeyV, ValueV)>, ps: Seq<(Seq<u8>, Seq<u8>)>)
    requires
        ps.len() > 0,
        keys_distinct(ps),
        fresh_in(m, ps),
    ensures
        ({
            let k = read_key(ps[0].0);
            let m2 = m.insert(insert_pos(m, k), (k, read_value(ps[0].1)));
            &&& m2.len() == m.len() + 1
            &&& fresh_in(m2, ps.drop_first())
            &&& keys_distinct(ps.drop_first())
        }),
{
    let k = read_key(ps[0].0);
    let pos = insert_pos(m, k);
    lemma_insert_pos_range(m, k);
    let m2 = m.insert(pos, (k, read_value(ps[0].1)));
    let t = ps.drop_first();
    assert forall|j: int, l: int| #![trigger m2[l], t[j]] 0 <= j < t.len() && 0 <= l < m2.len() implies m2[l].0 != read_key(t[j].0) by {
        assert(t[j] == ps[j + 1]);
        if l < pos {
            assert(m2[l] == m[l]);
        } else if l == pos {
            assert(read_key(ps[0].0) != read_key(ps[j + 1].0));
        } else {
            assert(m2[l] == m[l - 1]);
        }
    }
    assert forall|i: int, j: int| 0 <= i < j < t.len() implies read_key(t[i].0) != read_key(t[j].0) by {
        assert(t[i] == ps[i + 1] && t[j] == ps[j + 1]);
    }
}

/// Where a pair stands at `i`, the key's scan ends at its `=` and the
/// value's at the following `&` or the end.
proof fn lemma_pair_scan(s: Seq<u8>, i: int, k: Seq<u8>, v: Seq<u8>, form: bool, stop: Stop)
    requires
        0 <= i,
        i + spec_encode(k, form).len() + 1 + spec_encode(v, form).len() <= s.len(),
        s.subrange(i, i + spec_encode(k, form).len()) == spec_encode(k, form),
        s[i + spec_encode(k, form).len()] == 0x3du8,
        s.subrange(i + spec_encode(k, form).len() + 1, i + spec_encode(k, form).len() + 1 + spec_encode(v, form).len())
            == spec_encode(v, form),
        ({
            let e = i + spec_encode(k, form).len() + 1 + spec_encode(v, form).len();
            e == s.len() || s[e] == 0x26u8
        }),
        stop is Root || stop is Flat,
        form && stop is Root ==> !k.contains(0x5bu8),
    ensures
        scan(s, i, form, stop) == i + spec_encode(k, form).len(),
        scan(s, i + spec_encode(k, form).len() + 1, form, Stop::Amp) == i + spec_encode(k, form).len() + 1
            + spec_encode(v, form).len(),
{
    let t = i + spec_encode(k, form).len();
    let e = t + 1 + spec_encode(v, form).len();
    lemma_scan_encoded(s, i, k, form, stop);
    assert(tok_byte(s, t, form) == 0x3du8);
    assert(scan(s, t, form, stop) == t);
    lemma_scan_encoded(s, t + 1, v, form, Stop::Amp);
    if e < s.len() {
        assert(tok_byte(s, e, form) == 0x26u8);
    }
    assert(scan(s, e, form, Stop::Amp) == e);
}

/// One pair at `i` is read and inserted, and reading goes on after it.
#[verifier::spinoff_prover]
proof fn lemma_pair_step(s: Seq<u8>, i: int, k: Seq<u8>, v: Seq<u8>, m: Seq<(KeyV, ValueV)>, cfg: Config)
    requires
        0 <= i,
        i + spec_encode(k, cfg.use_form_encoding).len() + 1 + spec_encode(v, cfg.use_form_encoding).len() <= s.len(),
        s.subrange(i, i + spec_encode(k, cfg.use_form_encoding).len()) == spec_encode(k, cfg.use_form_encoding),
        s[i + spec_encode(k, cfg.use_form_encoding).len()] == 0x3du8,
        s.subrange(
            i + spec_encode(k, cfg.use_form_encoding).len() + 1,
            i + spec_encode(k, cfg.use_form_encoding).len() + 1 + spec_encode(v, cfg.use_form_encoding).len(),
        ) == spec_encode(v, cfg.use_form_encoding),
        ({
            let e = i + spec_encode(k, cfg.use_form_encoding).len() + 1 + spec_encode(v, cfg.use_form_encoding).len();
            e == s.len() || s[e] == 0x26u8
        }),
        cfg.use_form_encoding && cfg.max_depth > 0 ==> !k.contains(0x5bu8),
        forall|l: int| 0 <= l < m.len() ==> m[l].0 != read_key(k),
    ensures
        sp_root(s, i, m, cfg) == sp_root(
            s,
            i + spec_encode(k, cfg.use_form_encoding).len() + 1 + spec_encode(v, cfg.use_form_encoding).len() + 1,
            m.insert(insert_pos(m, read_key(k)), (read_key(k), read_value(v))),
            cfg,
        ),
{
    let form = cfg.use_form_encoding;
    let ek = spec_encode(k, form);
    let ev = spec_encode(v, form);
    let t = i + ek.len();
    let e = t + 1 + ev.len();
    let stop = if cfg.max_depth == 0 {
        Stop::Flat
    } else {
        Stop::Root
    };
    lemma_pair_scan(s, i, k, v, form, stop);
    let key = if t == i {
        KeyV::Str(Seq::empty())
    } else {
        key_of(s.subrange(i, t))
    };
    if k.len() > 0 {
        lemma_encode_nonempty(k, form);
        lemma_key_of_encoded(k, form);
    } else {
        assert(ek =~= Seq::<u8>::empty());
        assert(k =~= Seq::<u8>::empty());
    }
    assert(key == read_key(k));
    lemma_value_of_encoded(v, form);
    let val = read_value(v);
    assert(value_of(s.subrange(t + 1, e)) == val);
    lemma_find_key_range(m, key);
    assert(find_key(m, key) is None) by {
        if find_key(m, key) is Some {
            let j = find_key(m, key)->0;
            assert(m[j].0 != read_key(k));
        }
    }
    let m2 = m.insert(insert_pos(m, key), (key, val));
    assert(sp_insert(m, key, val) == Ok::<Seq<(KeyV, ValueV)>, crate::parse::FaultV>(m2));
    assert(tok_byte(s, t, form) == 0x3du8);
    assert(sp_finish_entry(s, m, key, t, form) == Ok::<(Seq<(KeyV, ValueV)>, int), (crate::parse::FaultV, int)>(
        (m2, e + 1),
    ));
}

/// Where the first pair of the text after `a` stands.
#[verifier::spinoff_prover]
proof fn lemma_layout(a: Seq<u8>, ps: Seq<(Seq<u8>, Seq<u8>)>, form: bool)
    requires
        ps.len() > 0,
    ensures
        ({
            let s = a + front_text(ps, form);
            let i = a.len() as int;
            let ek = spec_encode(ps[0].0, form);
            let ev = spec_encode(ps[0].1, form);
            let t = i + ek.len();
            let e = t + 1 + ev.len();
            &&& e <= s.len()
            &&& s.subrange(i, t) == ek
            &&& s[t] == 0x3du8
            &&& s.subrange(t + 1, e) == ev
            &&& (e == s.len() || s[e] == 0x26u8)
            &&& (ps.len() == 1 ==> e == s.len())
            &&& (ps.len() > 1 ==> {
                let a2 = a + pair_text(ps[0].0, ps[0].1, form) + seq![0x26u8];
                &&& s == a2 + front_text(ps.drop_first(), form)
                &&& a2.len() == e + 1
            })
        }),
{
    let s = a + front_text(ps, form);
    let i = a.len() as int;
    let k = ps[0].0;
    let v = ps[0].1;
    let ek = spec_encode(k, form);
    let ev = spec_encode(v, form);
    lemma_pair_text(k, v, form);
    let pair = pair_text(k, v, form);
    let rest = if ps.len() == 1 {
        Seq::<u8>::empty()
    } else {
        seq![0x26u8] + front_text(ps.drop_first(), form)
    };
    assert(front_text(ps, form) == pair + rest);
    assert(s =~= a + ek + seq![0x3du8] + ev + rest);
    let t = i + ek.len();
    let e = t + 1 + ev.len();
    assert(s.subrange(i, t) =~= ek);
    assert(s[t] == 0x3du8);
    assert(s.subrange(t + 1, e) =~= ev);
    if ps.len() > 1 {
        assert(s[e] == 0x26u8);
        let a2 = a + pair + seq![0x26u8];
        assert(s =~= a2 + front_text(ps.drop_first(), form));
    }
}

proof fn lemma_keys_flat_rest(ps: Seq<(Seq<u8>, Seq<u8>)>, cfg: Config)
    requires
        ps.len() > 0,
        keys_flat(ps, cfg),
    ensures
        keys_flat(ps.drop_first(), cfg),
        cfg.use_form_encoding && cfg.max_depth > 0 ==> !ps[0].0.contains(0x5bu8),
{
    if cfg.use_form_encoding && cfg.max_depth > 0 {
        assert(!(ps[0].0).contains(0x5bu8));
        assert forall|j: int| 0 <= j < ps.drop_first().len() implies !(#[trigger] ps.drop_first()[j].0).contains(0x5bu8) by {
            assert(ps.drop_first()[j] == ps[j + 1]);
        }
    }
}

/// The top level reads the pairs after `a` one by one.
#[verifier::spinoff_prover]
proof fn lemma_root_pairs(a: Seq<u8>, ps: Seq<(Seq<u8>, Seq<u8>)>, m: Seq<(KeyV, ValueV)>, cfg: Config)
    requires
        keys_distinct(ps),
        keys_flat(ps, cfg),
        fresh_in(m, ps),
    ensures
        sp_root(a + front_text(ps, cfg.use_form_encoding), a.len() as int, m, cfg) == Ok::<
            Seq<(KeyV, ValueV)>,
            (crate::parse::FaultV, int),
        >(insert_pairs(m, ps)),
    decreases ps.len(),
{
    let form = cfg.use_form_encoding;
    let s = a + front_text(ps, form);
    let i = a.len() as int;
    if ps.len() == 0 {
        assert(s =~= a);
    } else {
        let k = ps[0].0;
        let v = ps[0].1;
        lemma_layout(a, ps, form);
        lemma_keys_flat_rest(ps, cfg);
        assert forall|l: int| 0 <= l < m.len() implies m[l].0 != read_key(k) by {
            assert(m[l].0 != read_key(ps[0].0));
        }
        lemma_pair_step(s, i, k, v, m, cfg);
        let m2 = m.insert(insert_pos(m, read_key(k)), (read_key(k), read_value(v)));
        lemma_fresh_after_insert(m, ps);
        assert(insert_pairs(m, ps) == insert_pairs(m2, ps.drop_first()));
        if ps.len() > 1 {
            let a2 = a + pair_text(k, v, form) + seq![0x26u8];
            lemma_root_pairs(a2, ps.drop_first(), m2, cfg);
        }
    }
}

/// Each key appears once.
pub open spec fn keys_unique(m: Seq<(KeyV, ValueV)>) -> bool {
    forall|i: int, j: int| 0 <= i < j < m.len() ==> m[i].0 != m[j].0
}

proof fn lemma_find_unique(m: Seq<(KeyV, ValueV)>, k: KeyV, i: int)
    requires
        keys_unique(m),
        0 <= i < m.len(),
        m[i].0 == k,
    ensures
        find_key(m, k) == Some(i),
{
    lemma_find_key_range(m, k);
    if find_key(m, k) is Some {
        let j = find_key(m, k)->0;
        if j < i {
            assert(m[j].0 != m[i].0);
        } else if i < j {
            assert(m[i].0 != m[j].0);
        }
    }
}

proof fn lemma_insert_pairs(m: Seq<(KeyV, ValueV)>, ps: Seq<(Seq<u8>, Seq<u8>)>)
    requires
        keys_distinct(ps),
        fresh_in(m, ps),
        keys_unique(m),
    ensures
        ({
            let r = insert_pairs(m, ps);
            &&& r.len() == m.len() + ps.len()
            &&& keys_unique(r)
            &&& forall|l: int| 0 <= l < m.len() ==> r.contains(#[trigger] m[l])
            &&& forall|j: int| 0 <= j < ps.len() ==> r.contains((read_key(#[trigger] ps[j].0), read_value(ps[j].1)))
        }),
    decreases ps.len(),
{
    if ps.len() > 0 {
        let k = read_key(ps[0].0);
        let pos = insert_pos(m, k);
        lemma_insert_pos_range(m, k);
        let e0 = (k, read_value(ps[0].1));
        let m2 = m.insert(pos, e0);
        let t = ps.drop_first();
        lemma_fresh_after_insert(m, ps);
        assert(keys_unique(m2)) by {
            assert forall|i: int, j: int| 0 <= i < j < m2.len() implies m2[i].0 != m2[j].0 by {
                if j < pos {
                    assert(m2[i] == m[i] && m2[j] == m[j]);
                } else if j == pos {
                    assert(m2[i] == m[i]);
                    assert(m[i].0 != read_key(ps[0].0));
                } else if i < pos {
                    assert(m2[i] == m[i] && m2[j] == m[j - 1]);
                } else if i == pos {
                    assert(m2[j] == m[j - 1]);
                    assert(m[j - 1].0 != read_key(ps[0].0));
                } else {
                    assert(m2[i] == m[i - 1] && m2[j] == m[j - 1]);
                }
            }
        }
        lemma_insert_pairs(m2, t);
        let r = insert_pairs(m2, t);
        assert(r == insert_pairs(m, ps));
        assert forall|l: int| 0 <= l < m.len() implies r.contains(#[trigger] m[l]) by {
            if l < pos {
                assert(m2[l] == m[l]);
            } else {
                assert(m2[l + 1] == m[l]);
            }
        }
        assert forall|j: int| 0 <= j < ps.len() implies r.contains((read_key(#[trigger] ps[j].0), read_value(ps[j].1))) by {
            if j == 0 {
                assert(m2[pos] == e0);
            } else {
                assert(t[j - 1] == ps[j]);
            }
        }
    }
}

/// Flat text read back, over the key bytes whose encoding is written:
/// each key comes back once with its value. Key bytes with a `[` where form
/// encoding nests keys are left out; `key_bytes` never gives such bytes.
proof fn lemma_flat_raw(ps: Seq<(Seq<u8>, Seq<u8>)>, cfg: Config)
    requires
        keys_distinct(ps),
        keys_flat(ps, cfg),
    ensures
        spec_parse(flat_text(ps, cfg.use_form_encoding), cfg) matches Ok(m) && m.len() == ps.len() && forall|j: int|
            #![trigger ps[j]]
            0 <= j < ps.len() ==> (find_key(m, read_key(ps[j].0)) matches Some(i) && m[i].1 == read_value(ps[j].1)),
{
    let form = cfg.use_form_encoding;
    let e = Seq::<(KeyV, ValueV)>::empty();
    lemma_front_back(ps, form);
    assert(Seq::<u8>::empty() + front_text(ps, form) =~= front_text(ps, form));
    lemma_root_pairs(Seq::<u8>::empty(), ps, e, cfg);
    lemma_insert_pairs(e, ps);
    let m = insert_pairs(e, ps);
    assert forall|j: int| #![trigger ps[j]] 0 <= j < ps.len() implies (find_key(m, read_key(ps[j].0)) matches Some(i)
        && m[i].1 == read_value(ps[j].1)) by {
        let p = (read_key(ps[j].0), read_value(ps[j].1));
        assert(m.contains(p));
        let i = choose|i: int| 0 <= i < m.len() && m[i] == p;
        lemma_find_unique(m, p.0, i);
    }
}

/// Writing a pair at the top level, by `push_key(k)`, `write_value(v)` and
/// `pop_key()`, adds that pair to the flat text written so far: what the
/// serializer writes for flat pairs is `flat_text`.
pub proof fn lemma_flat_step(
    pre: QsSerializer,
    pushed: QsSerializer,
    wrote: QsSerializer,
    post: QsSerializer,
    r: Result<(), Error>,
    ps: Seq<(Seq<u8>, Seq<u8>)>,
    k: Seq<u8>,
    v: Seq<u8>,
)
    requires
        pre.key_stack().len() == 0,
        pre.written() == flat_text(raw_pairs(ps, pre.cfg().use_form_encoding), pre.cfg().use_form_encoding),
        pre.at_first() == (ps.len() == 0),
        pushed_key(pre, pushed, k, r),
        wrote_value(pushed, wrote, v),
        post.written() == wrote.written(),
        post.at_first() == wrote.at_first(),
        post.cfg() == wrote.cfg(),
        post.key_stack() == wrote.key_stack().drop_last(),
    ensures
        r is Ok,
        post.written() == flat_text(raw_pairs(ps.push((k, v)), pre.cfg().use_form_encoding), pre.cfg().use_form_encoding),
        !post.at_first(),
        post.key_stack().len() == 0,
        post.cfg() == pre.cfg(),
{
    let form = pre.cfg().use_form_encoding;
    let stack = pushed.key_stack();
    let kb = key_bytes(k, form);
    assert(stack == seq![raw_segment(kb, true, form)]);
    let rs = raw_pairs(ps, form);
    let qs = rs.push((kb, v));
    assert(raw_pairs(ps.push((k, v)), form) =~= qs);
    assert(qs.drop_last() =~= rs);
    assert(qs.last() == (kb, v));
    assert(stack_text(stack, pushed.at_first()) == separator(ps.len() == 0) + concat_segments(stack));
    assert(post.written() =~= flat_text(qs, form));
}

// ---------------------------------------------------------------------------
// Nested keys

/// The keys of a path as they read back.
pub open spec fn read_path(path: Seq<Seq<u8>>) -> Seq<KeyV> {
    Seq::new(path.len(), |i: int| read_key(path[i]))
}

/// The key segments that pushing the keys of a path leaves on the
/// serializer's stack.
pub open spec fn segments(path: Seq<Seq<u8>>, form: bool) -> Seq<Seq<u8>> {
    Seq::new(path.len(), |i: int| raw_segment(path[i], i == 0, form))
}

/// The full key of a path as the serializer writes it: the first key
/// encoded, each further key encoded between brackets.
pub open spec fn path_text(path: Seq<Seq<u8>>, form: bool) -> Seq<u8> {
    concat_segments(segments(path, form))
}

/// What follows a key for its value: `=` and the encoded value, or
/// nothing for a key without a value.
pub open spec fn value_text(v: Option<Seq<u8>>, form: bool) -> Seq<u8> {
    match v {
        Some(x) => seq![0x3du8] + spec_encode(x, form),
        None => Seq::empty(),
    }
}

/// A value as it reads back: a key without a value as `NoValue`.
pub open spec fn read_opt(v: Option<Seq<u8>>) -> ValueV {
    match v {
        Some(x) => read_value(x),
        None => ValueV::NoValue,
    }
}

/// One entry as the serializer writes it: the path's key, then `=` and
/// the value if it has one.
pub open spec fn entry_text(path: Seq<Seq<u8>>, v: Option<Seq<u8>>, form: bool) -> Seq<u8> {
    path_text(path, form) + value_text(v, form)
}

/// What follows an opening bracket: the rest of the key and the value.
spec fn tail_text(q: Seq<Seq<u8>>, v: Option<Seq<u8>>, form: bool) -> Seq<u8>
    decreases q.len(),
{
    if q.len() == 0 {
        value_text(v, form)
    } else if q.len() == 1 {
        spec_encode(q[0], form) + close_bracket(form) + value_text(v, form)
    } else {
        spec_encode(q[0], form) + close_bracket(form) + open_bracket(form) + tail_text(q.drop_first(), v, form)
    }
}

/// Keys inside brackets are not empty and, in form encoding, hold no `]`.
pub open spec fn inner_keys_ok(q: Seq<Seq<u8>>, form: bool) -> bool {
    forall|j: int| #![trigger q[j]] 0 <= j < q.len() ==> q[j].len() > 0 && (form ==> !q[j].contains(0x5du8))
}

proof fn lemma_concat_front(segs: Seq<Seq<u8>>)
    requires
        segs.len() >= 1,
    ensures
        concat_segments(segs) == segs[0] + concat_segments(segs.drop_first()),
    decreases segs.len(),
{
    if segs.len() == 1 {
        assert(segs.drop_first() =~= Seq::<Seq<u8>>::empty());
        assert(segs.drop_last() =~= Seq::<Seq<u8>>::empty());
        assert(concat_segments(segs.drop_last()) =~= Seq::<u8>::empty());
        assert(concat_segments(segs.drop_first()) =~= Seq::<u8>::empty());
        assert(segs.last() == segs[0]);
        assert(concat_segments(segs) =~= segs[0]);
    } else {
        lemma_concat_front(segs.drop_last());
        assert(segs.drop_last().drop_first() =~= segs.drop_first().drop_last());
        assert(segs.drop_first().last() == segs.last());
        assert(segs.drop_last()[0] == segs[0]);
        assert(concat_segments(segs) =~= segs[0] + concat_segments(segs.drop_first()));
    }
}

proof fn lemma_brackets_tail(q: Seq<Seq<u8>>, v: Option<Seq<u8>>, form: bool)
    requires
        q.len() >= 1,
    ensures
        concat_segments(Seq::new(q.len(), |i: int| raw_segment(q[i], false, form))) + value_text(v, form)
            == open_bracket(form) + tail_text(q, v, form),
    decreases q.len(),
{
    let b = Seq::new(q.len(), |i: int| raw_segment(q[i], false, form));
    lemma_concat_front(b);
    let q2 = q.drop_first();
    let b2 = Seq::new(q2.len(), |i: int| raw_segment(q2[i], false, form));
    assert(b.drop_first() =~= b2);
    let ev = value_text(v, form);
    assert(b[0] == open_bracket(form) + spec_encode(q[0], form) + close_bracket(form));
    assert(concat_segments(b) == b[0] + concat_segments(b2));
    if q.len() == 1 {
        assert(b2 =~= Seq::<Seq<u8>>::empty());
        assert(concat_segments(b2) =~= Seq::<u8>::empty());
        assert(concat_segments(b) + ev =~= open_bracket(form) + tail_text(q, v, form));
    } else {
        lemma_brackets_tail(q2, v, form);
        let x = concat_segments(b2) + ev;
        assert(x == open_bracket(form) + tail_text(q2, v, form));
        assert(tail_text(q, v, form) == spec_encode(q[0], form) + close_bracket(form) + open_bracket(form) + tail_text(
            q2,
            v,
            form,
        ));
        assert(concat_segments(b) + ev =~= b[0] + x);
        assert(b[0] + x =~= open_bracket(form) + tail_text(q, v, form));
    }
}

/// An entry's text: the first key, then the bracketed rest, or the value
/// at once.
proof fn lemma_entry_layout(path: Seq<Seq<u8>>, v: Option<Seq<u8>>, form: bool)
    requires
        path.len() >= 1,
    ensures
        entry_text(path, v, form) == spec_encode(path[0], form) + if path.len() == 1 {
            value_text(v, form)
        } else {
            open_bracket(form) + tail_text(path.drop_first(), v, form)
        },
{
    let segs = segments(path, form);
    lemma_concat_front(segs);
    let q = path.drop_first();
    let b = Seq::new(q.len(), |i: int| raw_segment(q[i], false, form));
    assert(segs.drop_first() =~= b);
    assert(segs[0] == spec_encode(path[0], form));
    let ev = value_text(v, form);
    if path.len() == 1 {
        assert(b =~= Seq::<Seq<u8>>::empty());
        assert(concat_segments(b) =~= Seq::<u8>::empty());
        assert(entry_text(path, v, form) =~= spec_encode(path[0], form) + ev);
    } else {
        lemma_brackets_tail(q, v, form);
        assert(entry_text(path, v, form) =~= spec_encode(path[0], form) + (open_bracket(form) + tail_text(q, v, form)));
    }
}

proof fn lemma_close_token(s: Seq<u8>, t: int, form: bool)
    requires
        0 <= t,
        t + close_bracket(form).len() <= s.len(),
        s.subrange(t, t + close_bracket(form).len()) == close_bracket(form),
    ensures
        tok_byte(s, t, form) == 0x5du8,
        tok_width(s, t, form) == close_bracket(form).len(),
{
    let c = close_bracket(form);
    assert(s[t] == c[0]);
    if form {
        assert(s[t + 1] == c[1] && s[t + 2] == c[2]);
    }
}

proof fn lemma_open_token(s: Seq<u8>, t: int, form: bool)
    requires
        0 <= t,
        t + open_bracket(form).len() <= s.len(),
        s.subrange(t, t + open_bracket(form).len()) == open_bracket(form),
    ensures
        tok_byte(s, t, form) == 0x5bu8,
        tok_width(s, t, form) == open_bracket(form).len(),
{
    let c = open_bracket(form);
    assert(s[t] == c[0]);
    if form {
        assert(s[t + 1] == c[1] && s[t + 2] == c[2]);
    }
}

#[verifier::spinoff_prover]
proof fn lemma_tail_layout(s: Seq<u8>, i: int, q: Seq<Seq<u8>>, v: Option<Seq<u8>>, form: bool)
    requires
        q.len() >= 1,
        0 <= i,
        i + tail_text(q, v, form).len() <= s.len(),
        s.subrange(i, i + tail_text(q, v, form).len()) == tail_text(q, v, form),
    ensures
        ({
            let ek = spec_encode(q[0], form);
            let t = i + ek.len();
            let j = t + close_bracket(form).len();
            let e = i + tail_text(q, v, form).len();
            &&& s.subrange(i, t) == ek
            &&& s.subrange(t, j) == close_bracket(form)
            &&& (q.len() == 1 ==> {
                &&& s.subrange(j, e) == value_text(v, form)
                &&& e == j + value_text(v, form).len()
            })
            &&& (q.len() >= 2 ==> {
                let o = j + open_bracket(form).len();
                &&& s.subrange(j, o) == open_bracket(form)
                &&& e == o + tail_text(q.drop_first(), v, form).len()
                &&& s.subrange(o, e) == tail_text(q.drop_first(), v, form)
            })
        }),
{
    let ek = spec_encode(q[0], form);
    let cl = close_bracket(form);
    let tt = tail_text(q, v, form);
    let t = i + ek.len();
    let j = t + cl.len();
    let e = i + tt.len();
    assert(s.subrange(i, t) =~= ek) by {
        assert forall|x: int| 0 <= x < ek.len() implies s.subrange(i, t)[x] == ek[x] by {
            assert(s[i + x] == s.subrange(i, e)[x]);
        }
    }
    assert(s.subrange(t, j) =~= cl) by {
        assert forall|x: int| 0 <= x < cl.len() implies s.subrange(t, j)[x] == cl[x] by {
            assert(s[t + x] == s.subrange(i, e)[ek.len() + x]);
        }
    }
    if q.len() == 1 {
        let ev = value_text(v, form);
        assert(tt == ek + cl + ev);
        assert(s.subrange(j, e) =~= ev) by {
            assert forall|x: int| 0 <= x < ev.len() implies s.subrange(j, e)[x] == ev[x] by {
                assert(s[j + x] == s.subrange(i, e)[ek.len() + cl.len() + x]);
            }
        }
    } else {
        let op = open_bracket(form);
        let t2 = tail_text(q.drop_first(), v, form);
        let o = j + op.len();
        assert(tt == ek + cl + op + t2);
        assert(s.subrange(j, o) =~= op) by {
            assert forall|x: int| 0 <= x < op.len() implies s.subrange(j, o)[x] == op[x] by {
                assert(s[j + x] == s.subrange(i, e)[ek.len() + cl.len() + x]);
            }
        }
        assert(s.subrange(o, e) =~= t2) by {
            assert forall|x: int| 0 <= x < t2.len() implies s.subrange(o, e)[x] == t2[x] by {
                assert(s[o + x] == s.subrange(i, e)[ek.len() + cl.len() + op.len() + x]);
            }
        }
    }
}

/// The last key of a path: after its closing bracket comes its value, or
/// nothing, and the entry is added to the map.
#[verifier::spinoff_prover]
proof fn lemma_nested_last(s: Seq<u8>, j: int, m: Seq<(KeyV, ValueV)>, seg: KeyV, v: Option<Seq<u8>>, cfg: Config)
    requires
        0 <= j,
        j + value_text(v, cfg.use_form_encoding).len() <= s.len(),
        s.subrange(j, j + value_text(v, cfg.use_form_encoding).len()) == value_text(v, cfg.use_form_encoding),
        ({
            let e = j + value_text(v, cfg.use_form_encoding).len();
            e == s.len() || s[e] == 0x26u8
        }),
        find_key(m, seg) is None,
    ensures
        sp_finish_entry(s, m, seg, j, cfg.use_form_encoding) == Ok::<(Seq<(KeyV, ValueV)>, int), (crate::parse::FaultV, int)>(
            (m.insert(insert_pos(m, seg), (seg, read_opt(v))), j + value_text(v, cfg.use_form_encoding).len() + 1),
        ),
{
    let form = cfg.use_form_encoding;
    match v {
        Some(x) => {
            let ev = spec_encode(x, form);
            let vt = value_text(v, form);
            let e = j + 1 + ev.len();
            assert(s[j] == vt[0]) by {
                assert(s[j] == s.subrange(j, j + vt.len())[0]);
            }
            assert(s.subrange(j + 1, e) =~= ev) by {
                assert forall|x: int| 0 <= x < ev.len() implies s.subrange(j + 1, e)[x] == ev[x] by {
                    assert(s[j + 1 + x] == s.subrange(j, e)[1 + x]);
                }
            }
            lemma_scan_encoded(s, j + 1, x, form, Stop::Amp);
            if e < s.len() {
                assert(tok_byte(s, e, form) == 0x26u8);
            }
            assert(scan(s, e, form, Stop::Amp) == e);
            lemma_value_of_encoded(x, form);
            assert(tok_byte(s, j, form) == 0x3du8);
            assert(sp_insert(m, seg, read_value(x)) == Ok::<Seq<(KeyV, ValueV)>, crate::parse::FaultV>(
                m.insert(insert_pos(m, seg), (seg, read_value(x))),
            ));
        },
        None => {
            if j < s.len() {
                assert(tok_byte(s, j, form) == 0x26u8);
            }
            assert(sp_insert(m, seg, ValueV::NoValue) == Ok::<Seq<(KeyV, ValueV)>, crate::parse::FaultV>(
                m.insert(insert_pos(m, seg), (seg, ValueV::NoValue)),
            ));
        },
    }
}

/// The bracketed rest of a path is read into the map `node`: each key
/// below `max_depth` nests, and the value lands at the end of the path.
#[verifier::spinoff_prover]
proof fn lemma_nested_path(
    s: Seq<u8>,
    i: int,
    kstart: int,
    node: ValueV,
    d: nat,
    parent: KeyV,
    q: Seq<Seq<u8>>,
    v: Option<Seq<u8>>,
    cfg: Config,
)
    requires
        q.len() >= 1,
        d + q.len() <= cfg.max_depth,
        node is Mapping || node is Uninitialized,
        fits(child_map(node), read_path(q)),
        inner_keys_ok(q, cfg.use_form_encoding),
        0 <= i,
        i + tail_text(q, v, cfg.use_form_encoding).len() <= s.len(),
        s.subrange(i, i + tail_text(q, v, cfg.use_form_encoding).len()) == tail_text(q, v, cfg.use_form_encoding),
        ({
            let e = i + tail_text(q, v, cfg.use_form_encoding).len();
            e == s.len() || s[e] == 0x26u8
        }),
    ensures
        sp_nested(s, i, kstart, node, d, parent, cfg) == Ok::<(ValueV, int), (crate::parse::FaultV, int)>(
            (
                ValueV::Mapping(tree_put(child_map(node), read_path(q), read_opt(v))),
                i + tail_text(q, v, cfg.use_form_encoding).len() + 1,
            ),
        ),
    decreases q.len(),
{
    let form = cfg.use_form_encoding;
    let m = child_map(node);
    let q0 = q[0];
    let ek = spec_encode(q0, form);
    let t = i + ek.len();
    let cl = close_bracket(form);
    let j = t + cl.len();
    let e = i + tail_text(q, v, form).len();
    lemma_tail_layout(s, i, q, v, form);
    assert(q0.len() > 0 && (form ==> !q0.contains(0x5du8)));
    lemma_scan_encoded(s, i, q0, form, Stop::Close);
    lemma_close_token(s, t, form);
    assert(scan(s, t, form, Stop::Close) == t);
    let i1 = i + tok_width(s, i, form);
    assert(scan(s, i1, form, Stop::Close) == t);
    lemma_encode_nonempty(q0, form);
    lemma_key_of_encoded(q0, form);
    let seg = key_of(s.subrange(i, t));
    assert(seg == read_key(q0));
    let ks = read_path(q);
    assert(ks[0] == seg);
    assert(ks.drop_first() =~= read_path(q.drop_first()));
    assert(tok_byte(s, i, form) != 0x5du8);
    if q.len() == 1 {
        assert(ks =~= seq![seg]);
        assert(fits(m, ks));
        lemma_nested_last(s, j, m, seg, v, cfg);
        assert(tree_put(m, ks, read_opt(v)) == m.insert(insert_pos(m, seg), (seg, read_opt(v))));
        if j < s.len() {
            let vt = value_text(v, form);
            if v is Some {
                assert(s[j] == s.subrange(j, e)[0]);
                assert(tok_byte(s, j, form) == 0x3du8);
            } else {
                assert(e == j);
                assert(tok_byte(s, j, form) == 0x26u8);
            }
        }
    } else {
        let op = open_bracket(form);
        let o = j + op.len();
        lemma_open_token(s, j, form);
        let child = get_or_uninit(m, seg);
        assert(child is Mapping || child is Uninitialized);
        assert(fits(child_map(child), ks.drop_first()));
        assert(inner_keys_ok(q.drop_first(), form)) by {
            assert forall|x: int| #![trigger q.drop_first()[x]] 0 <= x < q.drop_first().len() implies q.drop_first()[x].len()
                > 0 && (form ==> !q.drop_first()[x].contains(0x5du8)) by {
                assert(q.drop_first()[x] == q[x + 1]);
            }
        }
        lemma_nested_path(s, o, j, child, d + 1, seg, q.drop_first(), v, cfg);
        assert(tree_put(m, ks, read_opt(v)) == map_set(
            m,
            seg,
            ValueV::Mapping(tree_put(child_map(child), ks.drop_first(), read_opt(v))),
        ));
    }
}

/// A nested entry at `i`: the first key, then an opening bracket and the
/// rest, read by `sp_nested`.
#[verifier::spinoff_prover]
proof fn lemma_entry_nested(
    s: Seq<u8>,
    i: int,
    path: Seq<Seq<u8>>,
    v: Option<Seq<u8>>,
    m: Seq<(KeyV, ValueV)>,
    cfg: Config,
)
    requires
        2 <= path.len() <= cfg.max_depth + 1,
        fits(m, read_path(path)),
        cfg.use_form_encoding ==> !path[0].contains(0x5bu8),
        inner_keys_ok(path.drop_first(), cfg.use_form_encoding),
        0 <= i,
        ({
            let form = cfg.use_form_encoding;
            let t = i + spec_encode(path[0], form).len();
            let o = t + open_bracket(form).len();
            let e = o + tail_text(path.drop_first(), v, form).len();
            &&& e <= s.len()
            &&& s.subrange(i, t) == spec_encode(path[0], form)
            &&& s.subrange(t, o) == open_bracket(form)
            &&& s.subrange(o, e) == tail_text(path.drop_first(), v, form)
            &&& (e == s.len() || s[e] == 0x26u8)
        }),
    ensures
        ({
            let form = cfg.use_form_encoding;
            let e = i + spec_encode(path[0], form).len() + open_bracket(form).len() + tail_text(
                path.drop_first(),
                v,
                form,
            ).len();
            sp_root(s, i, m, cfg) == sp_root(s, e + 1, tree_put(m, read_path(path), read_opt(v)), cfg)
        }),
{
    let form = cfg.use_form_encoding;
    let k = path[0];
    let ek = spec_encode(k, form);
    let t = i + ek.len();
    let o = t + open_bracket(form).len();
    let q = path.drop_first();
    let ks = read_path(path);
    lemma_scan_encoded(s, i, k, form, Stop::Root);
    lemma_open_token(s, t, form);
    assert(scan(s, t, form, Stop::Root) == t);
    let key = if t == i {
        KeyV::Str(Seq::empty())
    } else {
        key_of(s.subrange(i, t))
    };
    if k.len() > 0 {
        lemma_encode_nonempty(k, form);
        lemma_key_of_encoded(k, form);
    } else {
        assert(ek =~= Seq::<u8>::empty());
        assert(k =~= Seq::<u8>::empty());
    }
    assert(key == read_key(k));
    assert(ks[0] == key);
    assert(ks.drop_first() =~= read_path(q));
    let child = get_or_uninit(m, key);
    lemma_nested_path(s, o, o, child, 0, key, q, v, cfg);
    assert(tree_put(m, ks, read_opt(v)) == map_set(
        m,
        key,
        ValueV::Mapping(tree_put(child_map(child), ks.drop_first(), read_opt(v))),
    ));
}

/// A first key without a value, at `i`: the key's scan ends where the
/// entry does, and the key gets `NoValue`.
#[verifier::spinoff_prover]
proof fn lemma_bare_key_step(s: Seq<u8>, i: int, k: Seq<u8>, m: Seq<(KeyV, ValueV)>, cfg: Config)
    requires
        k.len() > 0,
        0 <= i,
        i + spec_encode(k, cfg.use_form_encoding).len() <= s.len(),
        s.subrange(i, i + spec_encode(k, cfg.use_form_encoding).len()) == spec_encode(k, cfg.use_form_encoding),
        ({
            let e = i + spec_encode(k, cfg.use_form_encoding).len();
            e == s.len() || s[e] == 0x26u8
        }),
        cfg.use_form_encoding && cfg.max_depth > 0 ==> !k.contains(0x5bu8),
        find_key(m, read_key(k)) is None,
    ensures
        sp_root(s, i, m, cfg) == sp_root(
            s,
            i + spec_encode(k, cfg.use_form_encoding).len() + 1,
            m.insert(insert_pos(m, read_key(k)), (read_key(k), ValueV::NoValue)),
            cfg,
        ),
{
    let form = cfg.use_form_encoding;
    let ek = spec_encode(k, form);
    let t = i + ek.len();
    let stop = if cfg.max_depth == 0 {
        Stop::Flat
    } else {
        Stop::Root
    };
    lemma_scan_encoded(s, i, k, form, stop);
    if t < s.len() {
        assert(tok_byte(s, t, form) == 0x26u8);
    }
    assert(scan(s, t, form, stop) == t);
    lemma_encode_nonempty(k, form);
    lemma_key_of_encoded(k, form);
    let key = key_of(s.subrange(i, t));
    assert(key == read_key(k));
    let m2 = m.insert(insert_pos(m, key), (key, ValueV::NoValue));
    assert(sp_insert(m, key, ValueV::NoValue) == Ok::<Seq<(KeyV, ValueV)>, crate::parse::FaultV>(m2));
    assert(sp_finish_entry(s, m, key, t, form) == Ok::<(Seq<(KeyV, ValueV)>, int), (crate::parse::FaultV, int)>(
        (m2, t + 1),
    ));
}

/// One entry at `i` is read into the map, and reading goes on after it.
#[verifier::spinoff_prover]
proof fn lemma_entry_step(
    s: Seq<u8>,
    i: int,
    path: Seq<Seq<u8>>,
    v: Option<Seq<u8>>,
    m: Seq<(KeyV, ValueV)>,
    cfg: Config,
)
    requires
        1 <= path.len() <= cfg.max_depth + 1,
        path.len() == 1 && v is None ==> path[0].len() > 0,
        fits(m, read_path(path)),
        cfg.use_form_encoding && cfg.max_depth > 0 ==> !path[0].contains(0x5bu8),
        inner_keys_ok(path.drop_first(), cfg.use_form_encoding),
        0 <= i,
        i + entry_text(path, v, cfg.use_form_encoding).len() <= s.len(),
        s.subrange(i, i + entry_text(path, v, cfg.use_form_encoding).len()) == entry_text(path, v, cfg.use_form_encoding),
        ({
            let e = i + entry_text(path, v, cfg.use_form_encoding).len();
            e == s.len() || s[e] == 0x26u8
        }),
    ensures
        sp_root(s, i, m, cfg) == sp_root(
            s,
            i + entry_text(path, v, cfg.use_form_encoding).len() + 1,
            tree_put(m, read_path(path), read_opt(v)),
            cfg,
        ),
{
    let form = cfg.use_form_encoding;
    let k = path[0];
    let ek = spec_encode(k, form);
    let et = entry_text(path, v, form);
    let e = i + et.len();
    let t = i + ek.len();
    let ks = read_path(path);
    lemma_entry_layout(path, v, form);
    assert(s.subrange(i, t) =~= ek) by {
        assert forall|x: int| 0 <= x < ek.len() implies s.subrange(i, t)[x] == ek[x] by {
            assert(s[i + x] == s.subrange(i, e)[x]);
        }
    }
    if path.len() == 1 {
        assert(ks =~= seq![read_key(k)]);
        lemma_find_key_range(m, read_key(k));
        match v {
            Some(x) => {
                let ev = spec_encode(x, form);
                assert(et == ek + (seq![0x3du8] + ev));
                assert(s[t] == s.subrange(i, e)[ek.len() as int]);
                assert(s.subrange(t + 1, e) =~= ev) by {
                    assert forall|y: int| 0 <= y < ev.len() implies s.subrange(t + 1, e)[y] == ev[y] by {
                        assert(s[t + 1 + y] == s.subrange(i, e)[ek.len() + 1 + y]);
                    }
                }
                lemma_pair_step(s, i, k, x, m, cfg);
            },
            None => {
                assert(et =~= ek);
                lemma_bare_key_step(s, i, k, m, cfg);
            },
        }
    } else {
        let op = open_bracket(form);
        let q = path.drop_first();
        let tt = tail_text(q, v, form);
        let o = t + op.len();
        assert(et == ek + op + tt);
        assert(s.subrange(t, o) =~= op) by {
            assert forall|x: int| 0 <= x < op.len() implies s.subrange(t, o)[x] == op[x] by {
                assert(s[t + x] == s.subrange(i, e)[ek.len() + x]);
            }
        }
        assert(s.subrange(o, e) =~= tt) by {
            assert forall|x: int| 0 <= x < tt.len() implies s.subrange(o, e)[x] == tt[x] by {
                assert(s[o + x] == s.subrange(i, e)[ek.len() + op.len() + x]);
            }
        }
        lemma_entry_nested(s, i, path, v, m, cfg);
    }
}

/// The text that a fresh serializer writes for entries, each written by
/// pushing the keys of its path, `write_value(v)` (or `write_no_value()`
/// for an entry without a value), and popping the keys: the entries
/// separated by `&`.
pub open spec fn entries_text(es: Seq<(Seq<Seq<u8>>, Option<Seq<u8>>)>, form: bool) -> Seq<u8>
    decreases es.len(),
{
    if es.len() == 0 {
        Seq::empty()
    } else {
        entries_text(es.drop_last(), form) + separator(es.len() == 1) + entry_text(es.last().0, es.last().1, form)
    }
}

/// The same text, built from the front.
spec fn entries_front(es: Seq<(Seq<Seq<u8>>, Option<Seq<u8>>)>, form: bool) -> Seq<u8>
    decreases es.len(),
{
    if es.len() == 0 {
        Seq::empty()
    } else if es.len() == 1 {
        entry_text(es[0].0, es[0].1, form)
    } else {
        entry_text(es[0].0, es[0].1, form) + seq![0x26u8] + entries_front(es.drop_first(), form)
    }
}

proof fn lemma_entries_snoc(es: Seq<(Seq<Seq<u8>>, Option<Seq<u8>>)>, form: bool)
    requires
        es.len() >= 2,
    ensures
        entries_front(es, form) == entries_front(es.drop_last(), form) + seq![0x26u8] + entry_text(
            es.last().0,
            es.last().1,
            form,
        ),
    decreases es.len(),
{
    let p0 = entry_text(es[0].0, es[0].1, form);
    let pl = entry_text(es.last().0, es.last().1, form);
    let amp = seq![0x26u8];
    if es.len() == 2 {
        assert(es.drop_first().len() == 1);
        assert(es.drop_first()[0] == es.last());
        assert(es.drop_last().len() == 1);
        assert(es.drop_last()[0] == es[0]);
        assert(entries_front(es.drop_first(), form) == pl);
        assert(entries_front(es.drop_last(), form) == p0);
        assert(entries_front(es, form) =~= p0 + amp + pl);
    } else {
        let t = es.drop_first();
        lemma_entries_snoc(t, form);
        assert(t.drop_last() =~= es.drop_last().drop_first());
        assert(t.last() == es.last());
        assert(es.drop_last()[0] == es[0]);
        assert(entries_front(es.drop_last(), form) == p0 + amp + entries_front(es.drop_last().drop_first(), form));
        assert(entries_front(es, form) =~= entries_front(es.drop_last(), form) + amp + pl);
    }
}

proof fn lemma_entries_front_back(es: Seq<(Seq<Seq<u8>>, Option<Seq<u8>>)>, form: bool)
    ensures
        entries_text(es, form) == entries_front(es, form),
    decreases es.len(),
{
    if es.len() == 1 {
        assert(es.drop_last().len() == 0);
        assert(entries_text(es.drop_last(), form) =~= Seq::<u8>::empty());
        assert(es.last() == es[0]);
        assert(entries_text(es, form) =~= entry_text(es[0].0, es[0].1, form));
    } else if es.len() >= 2 {
        lemma_entries_front_back(es.drop_last(), form);
        lemma_entries_snoc(es, form);
    }
}

/// Each path has one key at least and no more than `max_depth` allows
/// nesting, a first key without `[` where form encoding nests keys, and
/// further keys as `inner_keys_ok` says; a lone key without a value is
/// not empty.
pub open spec fn paths_fit(es: Seq<(Seq<Seq<u8>>, Option<Seq<u8>>)>, cfg: Config) -> bool {
    forall|j: int|
        #![trigger es[j]]
        0 <= j < es.len() ==> {
            let p = es[j].0;
            &&& 1 <= p.len() <= cfg.max_depth + 1
            &&& (p.len() == 1 && es[j].1 is None ==> p[0].len() > 0)
            &&& (cfg.use_form_encoding && cfg.max_depth > 0 ==> !p[0].contains(0x5bu8))
            &&& inner_keys_ok(p.drop_first(), cfg.use_form_encoding)
        }
}

/// No path starts another, as their keys read back.
pub open spec fn paths_apart(es: Seq<(Seq<Seq<u8>>, Option<Seq<u8>>)>) -> bool {
    forall|i: int, j: int| 0 <= i < j < es.len() ==> apart(read_path(#[trigger] es[i].0), read_path(#[trigger] es[j].0))
}

/// The entries read back, put one after another into `m`.
spec fn put_all(m: Seq<(KeyV, ValueV)>, es: Seq<(Seq<Seq<u8>>, Option<Seq<u8>>)>) -> Seq<(KeyV, ValueV)>
    decreases es.len(),
{
    if es.len() == 0 {
        m
    } else {
        put_all(tree_put(m, read_path(es[0].0), read_opt(es[0].1)), es.drop_first())
    }
}

spec fn all_fit(m: Seq<(KeyV, ValueV)>, es: Seq<(Seq<Seq<u8>>, Option<Seq<u8>>)>) -> bool {
    forall|j: int| #![trigger es[j]] 0 <= j < es.len() ==> fits(m, read_path(es[j].0))
}

#[verifier::spinoff_prover]
proof fn lemma_rest_conditions(m: Seq<(KeyV, ValueV)>, es: Seq<(Seq<Seq<u8>>, Option<Seq<u8>>)>, cfg: Config)
    requires
        es.len() >= 1,
        paths_fit(es, cfg),
        paths_apart(es),
        all_fit(m, es),
    ensures
        paths_fit(es.drop_first(), cfg),
        paths_apart(es.drop_first()),
        all_fit(tree_put(m, read_path(es[0].0), read_opt(es[0].1)), es.drop_first()),
{
    let t = es.drop_first();
    let ks0 = read_path(es[0].0);
    let m1 = tree_put(m, ks0, read_opt(es[0].1));
    assert forall|j: int| #![trigger t[j]] 0 <= j < t.len() implies {
        let p = t[j].0;
        &&& 1 <= p.len() <= cfg.max_depth + 1
        &&& (p.len() == 1 && t[j].1 is None ==> p[0].len() > 0)
        &&& (cfg.use_form_encoding && cfg.max_depth > 0 ==> !p[0].contains(0x5bu8))
        &&& inner_keys_ok(p.drop_first(), cfg.use_form_encoding)
    } by {
        assert(t[j] == es[j + 1]);
    }
    assert forall|i: int, j: int| 0 <= i < j < t.len() implies apart(read_path(#[trigger] t[i].0), read_path(#[trigger] t[j].0)) by {
        assert(t[i] == es[i + 1] && t[j] == es[j + 1]);
    }
    assert forall|j: int| #![trigger t[j]] 0 <= j < t.len() implies fits(m1, read_path(t[j].0)) by {
        assert(t[j] == es[j + 1]);
        assert(fits(m, read_path(es[0].0)));
        assert(fits(m, read_path(es[j + 1].0)));
        assert(apart(read_path(es[0].0), read_path(es[j + 1].0)));
        lemma_put_fits_other(m, ks0, read_opt(es[0].1), read_path(es[j + 1].0));
    }
}

/// Where the first entry of the text after `a` stands.
#[verifier::spinoff_prover]
proof fn lemma_entries_layout(a: Seq<u8>, es: Seq<(Seq<Seq<u8>>, Option<Seq<u8>>)>, form: bool)
    requires
        es.len() > 0,
    ensures
        ({
            let s = a + entries_front(es, form);
            let i = a.len() as int;
            let et = entry_text(es[0].0, es[0].1, form);
            let e = i + et.len();
            &&& e <= s.len()
            &&& s.subrange(i, e) == et
            &&& (e == s.len() || s[e] == 0x26u8)
            &&& (es.len() == 1 ==> e == s.len())
            &&& (es.len() > 1 ==> {
                let a2 = a + et + seq![0x26u8];
                &&& s == a2 + entries_front(es.drop_first(), form)
                &&& a2.len() == e + 1
            })
        }),
{
    let s = a + entries_front(es, form);
    let i = a.len() as int;
    let et = entry_text(es[0].0, es[0].1, form);
    let e = i + et.len();
    let rest = if es.len() == 1 {
        Seq::<u8>::empty()
    } else {
        seq![0x26u8] + entries_front(es.drop_first(), form)
    };
    assert(entries_front(es, form) == et + rest);
    assert(s =~= a + et + rest);
    assert(s.subrange(i, e) =~= et);
    if es.len() > 1 {
        assert(s[e] == 0x26u8);
        let a2 = a + et + seq![0x26u8];
        assert(s =~= a2 + entries_front(es.drop_first(), form));
    }
}

/// The top level reads the entries after `a` one by one.
#[verifier::spinoff_prover]
proof fn lemma_root_entries(a: Seq<u8>, es: Seq<(Seq<Seq<u8>>, Option<Seq<u8>>)>, m: Seq<(KeyV, ValueV)>, cfg: Config)
    requires
        paths_fit(es, cfg),
        paths_apart(es),
        all_fit(m, es),
    ensures
        sp_root(a + entries_front(es, cfg.use_form_encoding), a.len() as int, m, cfg) == Ok::<
            Seq<(KeyV, ValueV)>,
            (crate::parse::FaultV, int),
        >(put_all(m, es)),
    decreases es.len(),
{
    let form = cfg.use_form_encoding;
    let s = a + entries_front(es, form);
    let i = a.len() as int;
    if es.len() == 0 {
        assert(s =~= a);
    } else {
        let path = es[0].0;
        let v = es[0].1;
        let et = entry_text(path, v, form);
        lemma_entries_layout(a, es, form);
        assert(fits(m, read_path(es[0].0)));
        lemma_entry_step(s, i, path, v, m, cfg);
        lemma_rest_conditions(m, es, cfg);
        let m1 = tree_put(m, read_path(path), read_opt(v));
        assert(put_all(m, es) == put_all(m1, es.drop_first()));
        if es.len() > 1 {
            let a2 = a + et + seq![0x26u8];
            lemma_root_entries(a2, es.drop_first(), m1, cfg);
        } else {
            assert(es.drop_first().len() == 0);
        }
    }
}

proof fn lemma_put_all_keeps(m: Seq<(KeyV, ValueV)>, es: Seq<(Seq<Seq<u8>>, Option<Seq<u8>>)>, ks: Seq<KeyV>, cfg: Config)
    requires
        paths_fit(es, cfg),
        paths_apart(es),
        all_fit(m, es),
        ks.len() >= 1,
        forall|j: int| #![trigger es[j]] 0 <= j < es.len() ==> apart(read_path(es[j].0), ks),
    ensures
        lookup(put_all(m, es), ks) == lookup(m, ks),
    decreases es.len(),
{
    if es.len() > 0 {
        lemma_rest_conditions(m, es, cfg);
        let m1 = tree_put(m, read_path(es[0].0), read_opt(es[0].1));
        let t = es.drop_first();
        assert forall|j: int| #![trigger t[j]] 0 <= j < t.len() implies apart(read_path(t[j].0), ks) by {
            assert(t[j] == es[j + 1]);
        }
        lemma_put_all_keeps(m1, t, ks, cfg);
        assert(fits(m, read_path(es[0].0)));
        assert(apart(read_path(es[0].0), ks));
        lemma_put_lookup_other(m, read_path(es[0].0), read_opt(es[0].1), ks);
    }
}

#[verifier::spinoff_prover]
proof fn lemma_put_all_finds(m: Seq<(KeyV, ValueV)>, es: Seq<(Seq<Seq<u8>>, Option<Seq<u8>>)>, cfg: Config)
    requires
        paths_fit(es, cfg),
        paths_apart(es),
        all_fit(m, es),
    ensures
        forall|j: int|
            #![trigger es[j]]
            0 <= j < es.len() ==> lookup(put_all(m, es), read_path(es[j].0)) == Some(read_opt(es[j].1)),
    decreases es.len(),
{
    if es.len() > 0 {
        lemma_rest_conditions(m, es, cfg);
        let ks0 = read_path(es[0].0);
        let m1 = tree_put(m, ks0, read_opt(es[0].1));
        let t = es.drop_first();
        lemma_put_all_finds(m1, t, cfg);
        assert(fits(m, ks0));
        lemma_put_lookup_self(m, ks0, read_opt(es[0].1));
        assert forall|j: int| #![trigger t[j]] 0 <= j < t.len() implies apart(read_path(t[j].0), ks0) by {
            assert(t[j] == es[j + 1]);
            assert(apart(read_path(es[0].0), read_path(es[j + 1].0)));
        }
        assert(es[0].0.len() >= 1);
        lemma_put_all_keeps(m1, t, ks0, cfg);
        assert forall|j: int| #![trigger es[j]] 0 <= j < es.len() implies lookup(put_all(m, es), read_path(es[j].0))
            == Some(read_opt(es[j].1)) by {
            if j > 0 {
                assert(t[j - 1] == es[j]);
            }
        }
    }
}

proof fn lemma_put_all_count(m: Seq<(KeyV, ValueV)>, es: Seq<(Seq<Seq<u8>>, Option<Seq<u8>>)>, cfg: Config)
    requires
        paths_fit(es, cfg),
        paths_apart(es),
        all_fit(m, es),
    ensures
        entries_leaves(put_all(m, es)) == entries_leaves(m) + es.len(),
    decreases es.len(),
{
    if es.len() > 0 {
        lemma_rest_conditions(m, es, cfg);
        let ks0 = read_path(es[0].0);
        let m1 = tree_put(m, ks0, read_opt(es[0].1));
        assert(fits(m, ks0));
        lemma_put_count(m, ks0, read_opt(es[0].1));
        lemma_put_all_count(m1, es.drop_first(), cfg);
    }
}

/// Nested text read back, over the key bytes whose encoding is written:
/// each path finds its value. Besides what `lemma_nested_roundtrip` leaves
/// out, key bytes holding brackets in form encoding are left out here;
/// `key_bytes` never gives such bytes.
proof fn lemma_nested_raw(es: Seq<(Seq<Seq<u8>>, Option<Seq<u8>>)>, cfg: Config)
    requires
        paths_fit(es, cfg),
        paths_apart(es),
    ensures
        spec_parse(entries_text(es, cfg.use_form_encoding), cfg) matches Ok(m) && entries_leaves(m) == es.len()
            && forall|j: int|
            #![trigger es[j]]
            0 <= j < es.len() ==> lookup(m, read_path(es[j].0)) == Some(read_opt(es[j].1)),
{
    let form = cfg.use_form_encoding;
    let e = Seq::<(KeyV, ValueV)>::empty();
    assert forall|j: int| #![trigger es[j]] 0 <= j < es.len() implies fits(e, read_path(es[j].0)) by {
        lemma_fits_empty(read_path(es[j].0));
    }
    lemma_entries_front_back(es, form);
    assert(Seq::<u8>::empty() + entries_front(es, form) =~= entries_front(es, form));
    lemma_root_entries(Seq::<u8>::empty(), es, e, cfg);
    lemma_put_all_finds(e, es, cfg);
    lemma_put_all_count(e, es, cfg);
}

/// Pushing a key on a stack that holds a path's segments, within
/// `max_depth`, gives the segments of the longer path.
pub proof fn lemma_push_segment(
    pre: QsSerializer,
    post: QsSerializer,
    path: Seq<Seq<u8>>,
    k: Seq<u8>,
    r: Result<(), Error>,
)
    requires
        pre.key_stack() == segments(raw_path(path, pre.cfg().use_form_encoding), pre.cfg().use_form_encoding),
        path.len() <= pre.cfg().max_depth,
        pushed_key(pre, post, k, r),
    ensures
        r is Ok,
        post.key_stack() == segments(raw_path(path.push(k), pre.cfg().use_form_encoding), pre.cfg().use_form_encoding),
        post.written() == pre.written(),
        post.at_first() == pre.at_first(),
        post.cfg() == pre.cfg(),
{
    let form = pre.cfg().use_form_encoding;
    assert(raw_path(path.push(k), form) =~= raw_path(path, form).push(key_bytes(k, form)));
    assert(post.key_stack() =~= segments(raw_path(path.push(k), form), form));
}

/// Writing an entry at the top level, by pushing the keys of its path,
/// `write_value(v)` (or `write_no_value()`), and popping the keys, adds
/// that entry to the text
/// written so far: what the serializer writes for such entries is
/// `entries_text`.
pub proof fn lemma_entry_written(
    pre: QsSerializer,
    pushed: QsSerializer,
    wrote: QsSerializer,
    post: QsSerializer,
    es: Seq<(Seq<Seq<u8>>, Option<Seq<u8>>)>,
    path: Seq<Seq<u8>>,
    v: Option<Seq<u8>>,
)
    requires
        pre.key_stack().len() == 0,
        pre.written() == entries_text(raw_entries(es, pre.cfg().use_form_encoding), pre.cfg().use_form_encoding),
        pre.at_first() == (es.len() == 0),
        path.len() >= 1,
        pushed.key_stack() == segments(raw_path(path, pre.cfg().use_form_encoding), pre.cfg().use_form_encoding),
        pushed.written() == pre.written(),
        pushed.at_first() == pre.at_first(),
        pushed.cfg() == pre.cfg(),
        match v {
            Some(x) => wrote_value(pushed, wrote, x),
            None => wrote_no_value(pushed, wrote),
        },
        post.written() == wrote.written(),
        post.at_first() == wrote.at_first(),
    ensures
        post.written() == entries_text(
            raw_entries(es.push((path, v)), pre.cfg().use_form_encoding),
            pre.cfg().use_form_encoding,
        ),
        !post.at_first(),
{
    let form = pre.cfg().use_form_encoding;
    let rp = raw_path(path, form);
    let re = raw_entries(es, form);
    let es2 = re.push((rp, v));
    assert(raw_entries(es.push((path, v)), form) =~= es2);
    assert(es2.drop_last() =~= re);
    assert(es2.last() == (rp, v));
    assert(stack_text(pushed.key_stack(), pushed.at_first()) == separator(es.len() == 0) + path_text(rp, form));
    assert(post.written() =~= entries_text(es2, form));
}

// ---------------------------------------------------------------------------
// Repeated keys

/// A pair at `i` is read and added to the map as `sp_insert` adds a value:
/// a new key in key order, a repeated one collected with the values before.
#[verifier::spinoff_prover]
proof fn lemma_pair_read(s: Seq<u8>, i: int, k: Seq<u8>, v: Seq<u8>, m: Seq<(KeyV, ValueV)>, cfg: Config)
    requires
        0 <= i,
        i + spec_encode(k, cfg.use_form_encoding).len() + 1 + spec_encode(v, cfg.use_form_encoding).len() <= s.len(),
        s.subrange(i, i + spec_encode(k, cfg.use_form_encoding).len()) == spec_encode(k, cfg.use_form_encoding),
        s[i + spec_encode(k, cfg.use_form_encoding).len()] == 0x3du8,
        s.subrange(
            i + spec_encode(k, cfg.use_form_encoding).len() + 1,
            i + spec_encode(k, cfg.use_form_encoding).len() + 1 + spec_encode(v, cfg.use_form_encoding).len(),
        ) == spec_encode(v, cfg.use_form_encoding),
        ({
            let e = i + spec_encode(k, cfg.use_form_encoding).len() + 1 + spec_encode(v, cfg.use_form_encoding).len();
            e == s.len() || s[e] == 0x26u8
        }),
        cfg.use_form_encoding && cfg.max_depth > 0 ==> !k.contains(0x5bu8),
    ensures
        ({
            let e = i + spec_encode(k, cfg.use_form_encoding).len() + 1 + spec_encode(v, cfg.use_form_encoding).len();
            sp_root(s, i, m, cfg) == match sp_insert(m, read_key(k), read_value(v)) {
                Ok(m2) => sp_root(s, e + 1, m2, cfg),
                Err(f) => Err((f, e + 1)),
            }
        }),
{
    let form = cfg.use_form_encoding;
    let ek = spec_encode(k, form);
    let ev = spec_encode(v, form);
    let t = i + ek.len();
    let e = t + 1 + ev.len();
    let stop = if cfg.max_depth == 0 {
        Stop::Flat
    } else {
        Stop::Root
    };
    lemma_pair_scan(s, i, k, v, form, stop);
    let key = if t == i {
        KeyV::Str(Seq::empty())
    } else {
        key_of(s.subrange(i, t))
    };
    if k.len() > 0 {
        lemma_encode_nonempty(k, form);
        lemma_key_of_encoded(k, form);
    } else {
        assert(ek =~= Seq::<u8>::empty());
        assert(k =~= Seq::<u8>::empty());
    }
    assert(key == read_key(k));
    lemma_value_of_encoded(v, form);
    assert(value_of(s.subrange(t + 1, e)) == read_value(v));
    assert(tok_byte(s, t, form) == 0x3du8);
}

/// The values of a repeated key, as they read back.
pub open spec fn read_values(vs: Seq<Seq<u8>>) -> Seq<ValueV> {
    Seq::new(vs.len(), |i: int| ValueV::Str(vs[i]))
}

/// The same key with each of the values.
pub open spec fn repeated(k: Seq<u8>, vs: Seq<Seq<u8>>) -> Seq<(Seq<u8>, Seq<u8>)> {
    Seq::new(vs.len(), |i: int| (k, vs[i]))
}

/// What a repeated key holds after its first `n` values.
spec fn collected(vs: Seq<Seq<u8>>, n: int) -> ValueV {
    if n == 1 {
        ValueV::Str(vs[0])
    } else {
        ValueV::Sequence(read_values(vs.subrange(0, n)))
    }
}

/// One more value for a key collected so far.
proof fn lemma_collect_step(vs: Seq<Seq<u8>>, n: int, rk: KeyV)
    requires
        1 <= n < vs.len(),
        vs[n].len() > 0,
    ensures
        sp_insert(seq![(rk, collected(vs, n))], rk, read_value(vs[n])) == Ok::<
            Seq<(KeyV, ValueV)>,
            crate::parse::FaultV,
        >(seq![(rk, collected(vs, n + 1))]),
{
    let m = seq![(rk, collected(vs, n))];
    assert(find_key(m, rk) == Some(0int)) by {
        assert(m.last().0 == rk);
    }
    assert(read_value(vs[n]) == ValueV::Str(vs[n]));
    let next = collected(vs, n + 1);
    if n == 1 {
        assert(read_values(vs.subrange(0, 2)) =~= seq![ValueV::Str(vs[0]), ValueV::Str(vs[1])]);
    } else {
        assert(read_values(vs.subrange(0, n + 1)) =~= read_values(vs.subrange(0, n)).push(ValueV::Str(vs[n])));
    }
    assert(m.update(0, (rk, next)) =~= seq![(rk, next)]);
}

#[verifier::spinoff_prover]
proof fn lemma_repeated_rest(
    a: Seq<u8>,
    k: Seq<u8>,
    vs: Seq<Seq<u8>>,
    n: int,
    cfg: Config,
)
    requires
        1 <= n < vs.len(),
        forall|i: int| 0 <= i < vs.len() ==> (#[trigger] vs[i]).len() > 0,
        cfg.use_form_encoding && cfg.max_depth > 0 ==> !k.contains(0x5bu8),
    ensures
        sp_root(
            a + front_text(repeated(k, vs).subrange(n, vs.len() as int), cfg.use_form_encoding),
            a.len() as int,
            seq![(read_key(k), collected(vs, n))],
            cfg,
        ) == Ok::<Seq<(KeyV, ValueV)>, (crate::parse::FaultV, int)>(seq![(read_key(k), collected(vs, vs.len() as int))]),
    decreases vs.len() - n,
{
    let form = cfg.use_form_encoding;
    let ps = repeated(k, vs).subrange(n, vs.len() as int);
    let s = a + front_text(ps, form);
    let i = a.len() as int;
    let rk = read_key(k);
    let m = seq![(rk, collected(vs, n))];
    assert(ps[0] == (k, vs[n]));
    lemma_layout(a, ps, form);
    lemma_pair_read(s, i, k, vs[n], m, cfg);
    lemma_collect_step(vs, n, rk);
    if n + 1 < vs.len() {
        let a2 = a + pair_text(k, vs[n], form) + seq![0x26u8];
        assert(ps.drop_first() =~= repeated(k, vs).subrange(n + 1, vs.len() as int));
        lemma_repeated_rest(a2, k, vs, n + 1, cfg);
    } else {
        assert(ps.len() == 1);
    }
}

/// A repeated key read back, over the key bytes whose encoding is written.
proof fn lemma_repeated_raw(k: Seq<u8>, vs: Seq<Seq<u8>>, cfg: Config)
    requires
        vs.len() >= 1,
        forall|i: int| 0 <= i < vs.len() ==> (#[trigger] vs[i]).len() > 0,
        cfg.use_form_encoding && cfg.max_depth > 0 ==> !k.contains(0x5bu8),
    ensures
        spec_parse(flat_text(repeated(k, vs), cfg.use_form_encoding), cfg) == Ok::<
            Seq<(KeyV, ValueV)>,
            (crate::parse::FaultV, int),
        >(
            seq![
                (
                    read_key(k),
                    if vs.len() == 1 {
                        ValueV::Str(vs[0])
                    } else {
                        ValueV::Sequence(read_values(vs))
                    },
                ),
            ],
        ),
{
    let form = cfg.use_form_encoding;
    let ps = repeated(k, vs);
    let e = Seq::<(KeyV, ValueV)>::empty();
    let a = Seq::<u8>::empty();
    lemma_front_back(ps, form);
    assert(a + front_text(ps, form) =~= front_text(ps, form));
    assert(ps[0] == (k, vs[0]));
    lemma_layout(a, ps, form);
    lemma_pair_read(front_text(ps, form), 0, k, vs[0], e, cfg);
    let rk = read_key(k);
    let m1 = seq![(rk, ValueV::Str(vs[0]))];
    assert(sp_insert(e, rk, read_value(vs[0])) == Ok::<Seq<(KeyV, ValueV)>, crate::parse::FaultV>(m1)) by {
        assert(e.insert(0, (rk, ValueV::Str(vs[0]))) =~= m1);
    }
    assert(collected(vs, 1) == ValueV::Str(vs[0]));
    if vs.len() > 1 {
        let a2 = a + pair_text(k, vs[0], form) + seq![0x26u8];
        assert(ps.drop_first() =~= ps.subrange(1, vs.len() as int));
        lemma_repeated_rest(a2, k, vs, 1, cfg);
        assert(vs.subrange(0, vs.len() as int) =~= vs);
    }
}

// ---------------------------------------------------------------------------
// Sequences with empty indices

/// The entries that a sequence under key `k` writes with empty indices:
/// `k[]` with each value in turn.
pub open spec fn empty_indexed(k: Seq<u8>, vs: Seq<Option<Seq<u8>>>) -> Seq<(Seq<Seq<u8>>, Option<Seq<u8>>)> {
    Seq::new(vs.len(), |i: int| (seq![k, Seq::<u8>::empty()], vs[i]))
}

/// The values of a sequence, as they read back.
pub open spec fn read_opts(vs: Seq<Option<Seq<u8>>>) -> Seq<ValueV> {
    Seq::new(vs.len(), |i: int| read_opt(vs[i]))
}

/// Where the parts of a `k[]` entry stand.
#[verifier::spinoff_prover]
proof fn lemma_element_layout(s: Seq<u8>, i: int, k: Seq<u8>, v: Option<Seq<u8>>, form: bool)
    requires
        0 <= i,
        ({
            let et = entry_text(seq![k, Seq::<u8>::empty()], v, form);
            &&& i + et.len() <= s.len()
            &&& s.subrange(i, i + et.len()) == et
        }),
    ensures
        ({
            let t = i + spec_encode(k, form).len();
            let o = t + open_bracket(form).len();
            let c = o + close_bracket(form).len();
            let e = c + value_text(v, form).len();
            &&& e == i + entry_text(seq![k, Seq::<u8>::empty()], v, form).len()
            &&& s.subrange(i, t) == spec_encode(k, form)
            &&& s.subrange(t, o) == open_bracket(form)
            &&& s.subrange(o, c) == close_bracket(form)
            &&& s.subrange(c, e) == value_text(v, form)
        }),
{
    let path = seq![k, Seq::<u8>::empty()];
    let ek = spec_encode(k, form);
    let op = open_bracket(form);
    let cl = close_bracket(form);
    let vt = value_text(v, form);
    let et = entry_text(path, v, form);
    let e = i + et.len();
    let t = i + ek.len();
    let o = t + op.len();
    let c = o + cl.len();
    lemma_entry_layout(path, v, form);
    assert(path.drop_first() =~= seq![Seq::<u8>::empty()]);
    assert(spec_encode(Seq::<u8>::empty(), form) =~= Seq::<u8>::empty());
    assert(tail_text(path.drop_first(), v, form) =~= cl + vt);
    assert(et =~= ek + op + cl + vt);
    assert(s.subrange(i, t) =~= ek) by {
        assert forall|x: int| 0 <= x < ek.len() implies s.subrange(i, t)[x] == ek[x] by {
            assert(s[i + x] == s.subrange(i, e)[x]);
        }
    }
    assert(s.subrange(t, o) =~= op) by {
        assert forall|x: int| 0 <= x < op.len() implies s.subrange(t, o)[x] == op[x] by {
            assert(s[t + x] == s.subrange(i, e)[ek.len() + x]);
        }
    }
    assert(s.subrange(o, c) =~= cl) by {
        assert forall|x: int| 0 <= x < cl.len() implies s.subrange(o, c)[x] == cl[x] by {
            assert(s[o + x] == s.subrange(i, e)[ek.len() + op.len() + x]);
        }
    }
    assert(s.subrange(c, e) =~= vt) by {
        assert forall|x: int| 0 <= x < vt.len() implies s.subrange(c, e)[x] == vt[x] by {
            assert(s[c + x] == s.subrange(i, e)[ek.len() + op.len() + cl.len() + x]);
        }
    }
}

/// After `k[]`, the value (or none) is added to the elements.
#[verifier::spinoff_prover]
proof fn lemma_element_value(s: Seq<u8>, c: int, v: Option<Seq<u8>>, xs: Seq<ValueV>, form: bool)
    requires
        0 <= c,
        c + value_text(v, form).len() <= s.len(),
        s.subrange(c, c + value_text(v, form).len()) == value_text(v, form),
        ({
            let e = c + value_text(v, form).len();
            e == s.len() || s[e] == 0x26u8
        }),
    ensures
        sp_seq_value(s, c, xs, form) == Ok::<(Seq<ValueV>, int), (crate::parse::FaultV, int)>(
            (xs.push(read_opt(v)), c + value_text(v, form).len() + 1),
        ),
{
    let vt = value_text(v, form);
    let e = c + vt.len();
    match v {
        Some(x) => {
            let ev = spec_encode(x, form);
            assert(s[c] == s.subrange(c, e)[0]);
            assert(tok_byte(s, c, form) == 0x3du8);
            assert(s.subrange(c + 1, e) =~= ev) by {
                assert forall|y: int| 0 <= y < ev.len() implies s.subrange(c + 1, e)[y] == ev[y] by {
                    assert(s[c + 1 + y] == s.subrange(c, e)[1 + y]);
                }
            }
            lemma_scan_encoded(s, c + 1, x, form, Stop::Amp);
            if e < s.len() {
                assert(tok_byte(s, e, form) == 0x26u8);
            }
            assert(scan(s, e, form, Stop::Amp) == e);
            lemma_value_of_encoded(x, form);
        },
        None => {
            if c < s.len() {
                assert(tok_byte(s, c, form) == 0x26u8);
            }
        },
    }
}

/// One `k[]` entry at `i` adds its value to the sequence under `k`.
#[verifier::spinoff_prover]
proof fn lemma_element_step(
    s: Seq<u8>,
    i: int,
    k: Seq<u8>,
    v: Option<Seq<u8>>,
    m: Seq<(KeyV, ValueV)>,
    xs: Seq<ValueV>,
    cfg: Config,
)
    requires
        cfg.max_depth > 0,
        cfg.use_form_encoding ==> !k.contains(0x5bu8),
        (m.len() == 0 && xs.len() == 0) || m == seq![(read_key(k), ValueV::Sequence(xs))],
        0 <= i,
        ({
            let et = entry_text(seq![k, Seq::<u8>::empty()], v, cfg.use_form_encoding);
            let e = i + et.len();
            &&& e <= s.len()
            &&& s.subrange(i, e) == et
            &&& (e == s.len() || s[e] == 0x26u8)
        }),
    ensures
        sp_root(s, i, m, cfg) == sp_root(
            s,
            i + entry_text(seq![k, Seq::<u8>::empty()], v, cfg.use_form_encoding).len() + 1,
            seq![(read_key(k), ValueV::Sequence(xs.push(read_opt(v))))],
            cfg,
        ),
{
    let form = cfg.use_form_encoding;
    let ek = spec_encode(k, form);
    let t = i + ek.len();
    let o = t + open_bracket(form).len();
    let c = o + close_bracket(form).len();
    let e = c + value_text(v, form).len();
    lemma_element_layout(s, i, k, v, form);
    lemma_scan_encoded(s, i, k, form, Stop::Root);
    lemma_open_token(s, t, form);
    assert(scan(s, t, form, Stop::Root) == t);
    let key = if t == i {
        KeyV::Str(Seq::empty())
    } else {
        key_of(s.subrange(i, t))
    };
    if k.len() > 0 {
        lemma_encode_nonempty(k, form);
        lemma_key_of_encoded(k, form);
    } else {
        assert(ek =~= Seq::<u8>::empty());
        assert(k =~= Seq::<u8>::empty());
    }
    assert(key == read_key(k));
    lemma_close_token(s, o, form);
    let node = get_or_uninit(m, key);
    if m.len() == 0 {
        assert(node == ValueV::Uninitialized);
        assert(xs =~= Seq::<ValueV>::empty());
    } else {
        assert(find_key(m, key) == Some(0int)) by {
            assert(m.last().0 == key);
        }
        assert(node == ValueV::Sequence(xs));
    }
    let xs2 = xs.push(read_opt(v));
    lemma_element_value(s, c, v, xs, form);
    assert(sp_nested(s, o, o, node, 0, key, cfg) == Ok::<(ValueV, int), (crate::parse::FaultV, int)>(
        (ValueV::Sequence(xs2), e + 1),
    ));
    assert(map_set(m, key, ValueV::Sequence(xs2)) =~= seq![(key, ValueV::Sequence(xs2))]);
}

/// The sequence under `k` after its first `n` values.
spec fn elements_after(k: Seq<u8>, vs: Seq<Option<Seq<u8>>>, n: int) -> Seq<(KeyV, ValueV)> {
    if n == 0 {
        Seq::empty()
    } else {
        seq![(read_key(k), ValueV::Sequence(read_opts(vs.subrange(0, n))))]
    }
}

#[verifier::spinoff_prover]
#[verifier::rlimit(40)]
proof fn lemma_elements_rest(a: Seq<u8>, k: Seq<u8>, vs: Seq<Option<Seq<u8>>>, n: int, cfg: Config)
    requires
        0 <= n < vs.len(),
        cfg.max_depth > 0,
        cfg.use_form_encoding ==> !k.contains(0x5bu8),
    ensures
        sp_root(
            a + entries_front(empty_indexed(k, vs).subrange(n, vs.len() as int), cfg.use_form_encoding),
            a.len() as int,
            elements_after(k, vs, n),
            cfg,
        ) == Ok::<Seq<(KeyV, ValueV)>, (crate::parse::FaultV, int)>(elements_after(k, vs, vs.len() as int)),
    decreases vs.len() - n,
{
    let form = cfg.use_form_encoding;
    let es = empty_indexed(k, vs).subrange(n, vs.len() as int);
    let s = a + entries_front(es, form);
    let i = a.len() as int;
    let xs = read_opts(vs.subrange(0, n));
    let m = elements_after(k, vs, n);
    assert(n == 0 ==> xs =~= Seq::<ValueV>::empty());
    assert(es[0] == (seq![k, Seq::<u8>::empty()], vs[n]));
    lemma_entries_layout(a, es, form);
    let et = entry_text(es[0].0, es[0].1, form);
    lemma_element_step(s, i, k, vs[n], m, xs, cfg);
    assert(xs.push(read_opt(vs[n])) =~= read_opts(vs.subrange(0, n + 1)));
    assert(elements_after(k, vs, n + 1) == seq![(read_key(k), ValueV::Sequence(xs.push(read_opt(vs[n]))))]);
    if n + 1 < vs.len() {
        let a2 = a + et + seq![0x26u8];
        assert(es.drop_first() =~= empty_indexed(k, vs).subrange(n + 1, vs.len() as int));
        lemma_elements_rest(a2, k, vs, n + 1, cfg);
    } else {
        assert(s.len() == i + et.len());
    }
}

/// An empty-indexed sequence read back, over the key bytes whose encoding
/// is written.
proof fn lemma_empty_indexed_raw(k: Seq<u8>, vs: Seq<Option<Seq<u8>>>, cfg: Config)
    requires
        vs.len() >= 1,
        cfg.max_depth > 0,
        cfg.use_form_encoding ==> !k.contains(0x5bu8),
    ensures
        spec_parse(entries_text(empty_indexed(k, vs), cfg.use_form_encoding), cfg) == Ok::<
            Seq<(KeyV, ValueV)>,
            (crate::parse::FaultV, int),
        >(seq![(read_key(k), ValueV::Sequence(read_opts(vs)))]),
{
    let form = cfg.use_form_encoding;
    let es = empty_indexed(k, vs);
    lemma_entries_front_back(es, form);
    assert(Seq::<u8>::empty() + entries_front(es, form) =~= entries_front(es, form));
    assert(es.subrange(0, vs.len() as int) =~= es);
    lemma_elements_rest(Seq::<u8>::empty(), k, vs, 0, cfg);
    assert(vs.subrange(0, vs.len() as int) =~= vs);
}

// ---------------------------------------------------------------------------
// The laws over the keys that the serializer is given

/// Flat pairs written by the serializer read back as they were written:
/// each key comes back once, as its key bytes read back (in form encoding
/// the key percent-encoded once, since form encoding writes keys encoded
/// twice), with its value (an empty value as `Null`), and nothing else
/// comes back. Keys that read back as the same key (`1` and `01`) are left
/// out.
pub proof fn lemma_flat_roundtrip(ps: Seq<(Seq<u8>, Seq<u8>)>, cfg: Config)
    requires
        keys_distinct(raw_pairs(ps, cfg.use_form_encoding)),
    ensures
        spec_parse(flat_text(raw_pairs(ps, cfg.use_form_encoding), cfg.use_form_encoding), cfg) matches Ok(m)
            && m.len() == ps.len() && forall|j: int|
            #![trigger ps[j]]
            0 <= j < ps.len() ==> (find_key(m, read_key(key_bytes(ps[j].0, cfg.use_form_encoding))) matches Some(i)
                && m[i].1 == read_value(ps[j].1)),
{
    let form = cfg.use_form_encoding;
    let rs = raw_pairs(ps, form);
    assert(keys_flat(rs, cfg)) by {
        assert forall|j: int| 0 <= j < rs.len() implies !(#[trigger] rs[j]).0.contains(0x5bu8) || !form by {
            lemma_key_bytes(ps[j].0, form);
        }
    }
    lemma_flat_raw(rs, cfg);
    assert forall|j: int| #![trigger ps[j]] 0 <= j < ps.len() implies rs[j] == (key_bytes(ps[j].0, form), ps[j].1) by {}
}

/// A key repeated with several values reads back as one sequence of the
/// values, in the order they were written; a key written once reads back
/// as its value. Empty values are left out: one reads back as `Null`
/// inside the sequence, and a key whose first value is empty takes no
/// second one (`Multiple values for the same key`).
pub proof fn lemma_repeated_key(k: Seq<u8>, vs: Seq<Seq<u8>>, cfg: Config)
    requires
        vs.len() >= 1,
        forall|i: int| 0 <= i < vs.len() ==> (#[trigger] vs[i]).len() > 0,
    ensures
        spec_parse(flat_text(raw_pairs(repeated(k, vs), cfg.use_form_encoding), cfg.use_form_encoding), cfg)
            == Ok::<Seq<(KeyV, ValueV)>, (crate::parse::FaultV, int)>(
            seq![
                (
                    read_key(key_bytes(k, cfg.use_form_encoding)),
                    if vs.len() == 1 {
                        ValueV::Str(vs[0])
                    } else {
                        ValueV::Sequence(read_values(vs))
                    },
                ),
            ],
        ),
{
    let form = cfg.use_form_encoding;
    let kb = key_bytes(k, form);
    lemma_key_bytes(k, form);
    assert(raw_pairs(repeated(k, vs), form) =~= repeated(kb, vs));
    lemma_repeated_raw(kb, vs, cfg);
}

/// A sequence written under key `k` with empty indices (`k[]=..&k[]=..`)
/// reads back as one sequence of its values, in the order they were
/// written: an empty value as `Null`, no value as `NoValue`. Where keys do
/// not nest (`max_depth` 0) the brackets are part of the key, and that is
/// left out.
pub proof fn lemma_empty_indexed(k: Seq<u8>, vs: Seq<Option<Seq<u8>>>, cfg: Config)
    requires
        vs.len() >= 1,
        cfg.max_depth > 0,
    ensures
        spec_parse(entries_text(raw_entries(empty_indexed(k, vs), cfg.use_form_encoding), cfg.use_form_encoding), cfg)
            == Ok::<Seq<(KeyV, ValueV)>, (crate::parse::FaultV, int)>(
            seq![(read_key(key_bytes(k, cfg.use_form_encoding)), ValueV::Sequence(read_opts(vs)))],
        ),
{
    let form = cfg.use_form_encoding;
    let kb = key_bytes(k, form);
    lemma_key_bytes(k, form);
    lemma_key_bytes(Seq::<u8>::empty(), form);
    let ee = raw_entries(empty_indexed(k, vs), form);
    assert forall|i: int| 0 <= i < vs.len() implies #[trigger] ee[i] == empty_indexed(kb, vs)[i] by {
        assert(raw_path(seq![k, Seq::<u8>::empty()], form) =~= seq![kb, Seq::<u8>::empty()]);
    }
    assert(ee =~= empty_indexed(kb, vs));
    lemma_empty_indexed_raw(kb, vs, cfg);
}

/// Every path has one key at least and no more than `max_depth` allows
/// nesting, keys inside brackets are not empty (an empty one reads as a
/// sequence), and a lone key without a value is not empty (nothing is
/// written for it).
pub open spec fn paths_ok(es: Seq<(Seq<Seq<u8>>, Option<Seq<u8>>)>, cfg: Config) -> bool {
    forall|j: int|
        #![trigger es[j]]
        0 <= j < es.len() ==> {
            let p = es[j].0;
            &&& 1 <= p.len() <= cfg.max_depth + 1
            &&& (p.len() == 1 && es[j].1 is None ==> p[0].len() > 0)
            &&& forall|x: int| 1 <= x < p.len() ==> (#[trigger] p[x]).len() > 0
        }
}

/// Nested entries written by the serializer read back where they were
/// written: following the keys of each path, as its key bytes read back
/// (in form encoding each key percent-encoded once, since form encoding
/// writes keys encoded twice), through the parsed maps finds its value (an
/// empty value as `Null`, no value as `NoValue`), and the parsed maps hold
/// no other value. Paths of which one starts another are left out (a key
/// cannot hold both a value and a map), and so are paths that `paths_ok`
/// leaves out.
pub proof fn lemma_nested_roundtrip(es: Seq<(Seq<Seq<u8>>, Option<Seq<u8>>)>, cfg: Config)
    requires
        paths_ok(es, cfg),
        paths_apart(raw_entries(es, cfg.use_form_encoding)),
    ensures
        spec_parse(entries_text(raw_entries(es, cfg.use_form_encoding), cfg.use_form_encoding), cfg) matches Ok(m)
            && entries_leaves(m) == es.len() && forall|j: int|
            #![trigger es[j]]
            0 <= j < es.len() ==> lookup(m, read_path(raw_path(es[j].0, cfg.use_form_encoding))) == Some(
                read_opt(es[j].1),
            ),
{
    let form = cfg.use_form_encoding;
    let re = raw_entries(es, form);
    assert forall|j: int| #![trigger re[j]] 0 <= j < re.len() implies {
        let p = re[j].0;
        &&& 1 <= p.len() <= cfg.max_depth + 1
        &&& (p.len() == 1 && re[j].1 is None ==> p[0].len() > 0)
        &&& (cfg.use_form_encoding && cfg.max_depth > 0 ==> !p[0].contains(0x5bu8))
        &&& inner_keys_ok(p.drop_first(), cfg.use_form_encoding)
    } by {
        let up = es[j].0;
        let p = re[j].0;
        assert(p == raw_path(up, form));
        lemma_key_bytes(up[0], form);
        assert forall|x: int| #![trigger p.drop_first()[x]] 0 <= x < p.drop_first().len() implies p.drop_first()[x].len()
            > 0 && (form ==> !p.drop_first()[x].contains(0x5du8)) by {
            assert(p.drop_first()[x] == key_bytes(up[x + 1], form));
            assert(up[x + 1].len() > 0);
            lemma_key_bytes(up[x + 1], form);
        }
    }
    assert(paths_fit(re, cfg));
    lemma_nested_raw(re, cfg);
    assert forall|j: int| #![trigger es[j]] 0 <= j < es.len() implies re[j] == (raw_path(es[j].0, form), es[j].1) by {}
}

// ---------------------------------------------------------------------------
// Order of the pairs

/// A pair of key and value bytes as it reads back.
pub open spec fn read_pair(p: (Seq<u8>, Seq<u8>)) -> (KeyV, ValueV) {
    (read_key(p.0), read_value(p.1))
}

/// A sequence with the first element taken off, as multisets.
proof fn lemma_ms_front<A>(a: Seq<A>)
    requires
        a.len() > 0,
    ensures
        a.to_multiset() == a.drop_first().to_multiset().insert(a[0]),
{
    broadcast use vstd::seq_lib::group_to_multiset_ensures, vstd::multiset::group_multiset_axioms;

    assert(a =~= a.drop_first().insert(0, a[0]));
}

/// Mapping two sequences with the same elements gives sequences with the
/// same elements.
proof fn lemma_map_ms<A, B>(a: Seq<A>, b: Seq<A>, f: spec_fn(A) -> B)
    requires
        a.to_multiset() == b.to_multiset(),
    ensures
        a.map_values(f).to_multiset() == b.map_values(f).to_multiset(),
    decreases a.len(),
{
    broadcast use vstd::seq_lib::group_to_multiset_ensures, vstd::multiset::group_multiset_axioms;

    vstd::seq_lib::to_multiset_len(a);
    vstd::seq_lib::to_multiset_len(b);
    assert(a.len() == b.len());
    if a.len() == 0 {
        assert(a.map_values(f) =~= b.map_values(f));
    } else {
        let x = a[0];
        assert(a.to_multiset().count(x) > 0) by {
            assert(a.contains(x));
        }
        assert(b.contains(x));
        let i = choose|i: int| 0 <= i < b.len() && b[i] == x;
        let a2 = a.remove(0);
        let b2 = b.remove(i);
        assert(a2.to_multiset() =~= b2.to_multiset());
        lemma_map_ms(a2, b2, f);
        assert(a.map_values(f).remove(0) =~= a2.map_values(f));
        assert(b.map_values(f).remove(i) =~= b2.map_values(f));
        assert(a.map_values(f).to_multiset().remove(f(x)) == a2.map_values(f).to_multiset());
        assert(b.map_values(f).to_multiset().remove(f(x)) == b2.map_values(f).to_multiset());
        assert(a.map_values(f).contains(f(x))) by {
            assert(a.map_values(f)[0] == f(x));
        }
        assert(b.map_values(f).contains(f(x))) by {
            assert(b.map_values(f)[i] == f(x));
        }
        let ma = a.map_values(f).to_multiset();
        let mb = b.map_values(f).to_multiset();
        assert(ma.count(f(x)) > 0);
        assert(mb.count(f(x)) > 0);
        assert(ma =~= ma.remove(f(x)).insert(f(x)));
        assert(mb =~= mb.remove(f(x)).insert(f(x)));
    }
}

/// Two sorted maps with the same entries are the same.
proof fn lemma_sorted_unique(a: Seq<(KeyV, ValueV)>, b: Seq<(KeyV, ValueV)>)
    requires
        crate::order::sorted(a),
        crate::order::sorted(b),
        a.to_multiset() == b.to_multiset(),
    ensures
        a == b,
    decreases a.len(),
{
    broadcast use vstd::seq_lib::group_to_multiset_ensures, vstd::multiset::group_multiset_axioms;

    vstd::seq_lib::to_multiset_len(a);
    vstd::seq_lib::to_multiset_len(b);
    assert(a.len() == b.len());
    if a.len() == 0 {
        assert(a =~= b);
    } else {
        assert(a.to_multiset().count(a[0]) > 0) by {
            assert(a.contains(a[0]));
        }
        assert(b.contains(a[0]));
        let j = choose|j: int| 0 <= j < b.len() && b[j] == a[0];
        assert(b.to_multiset().count(b[0]) > 0) by {
            assert(b.contains(b[0]));
        }
        assert(a.contains(b[0]));
        let i = choose|i: int| 0 <= i < a.len() && a[i] == b[0];
        if j != 0 {
            assert(crate::value::key_lt(b[0].0, b[j].0));
            if i != 0 {
                assert(crate::value::key_lt(a[0].0, a[i].0));
                crate::order::lemma_key_lt_order(a[0].0, b[0].0, a[0].0);
            }
            crate::order::lemma_key_lt_order(b[0].0, b[0].0, b[0].0);
        }
        assert(a[0] == b[0]);
        lemma_ms_front(a);
        lemma_ms_front(b);
        assert(a.drop_first().to_multiset() =~= b.drop_first().to_multiset()) by {
            assert(a.drop_first().to_multiset() == a.to_multiset().remove(a[0]));
            assert(b.drop_first().to_multiset() == b.to_multiset().remove(b[0]));
        }
        lemma_sorted_unique(a.drop_first(), b.drop_first());
        assert forall|x: int| 0 <= x < a.len() implies a[x] == b[x] by {
            if x > 0 {
                assert(a[x] == a.drop_first()[x - 1]);
                assert(b[x] == b.drop_first()[x - 1]);
            }
        }
        assert(a =~= b);
    }
}

/// Inserting pairs adds what they read back as.
proof fn lemma_insert_pairs_ms(m: Seq<(KeyV, ValueV)>, ps: Seq<(Seq<u8>, Seq<u8>)>)
    ensures
        insert_pairs(m, ps).to_multiset() == m.to_multiset().add(ps.map_values(|p: (Seq<u8>, Seq<u8>)| read_pair(p)).to_multiset()),
    decreases ps.len(),
{
    broadcast use vstd::seq_lib::group_to_multiset_ensures, vstd::multiset::group_multiset_axioms;

    let f = |p: (Seq<u8>, Seq<u8>)| read_pair(p);
    if ps.len() == 0 {
        assert(ps.map_values(f) =~= Seq::<(KeyV, ValueV)>::empty());
        vstd::multiset::lemma_multiset_empty_len(ps.map_values(f).to_multiset());
        assert(m.to_multiset().add(ps.map_values(f).to_multiset()) =~= m.to_multiset());
    } else {
        let k = read_key(ps[0].0);
        lemma_insert_pos_range(m, k);
        let m2 = m.insert(insert_pos(m, k), (k, read_value(ps[0].1)));
        lemma_insert_pairs_ms(m2, ps.drop_first());
        assert(ps.drop_first().map_values(f) =~= ps.map_values(f).drop_first());
        lemma_ms_front(ps.map_values(f));
        assert(ps.map_values(f)[0] == (k, read_value(ps[0].1)));
        assert(insert_pairs(m, ps).to_multiset() =~= m.to_multiset().add(ps.map_values(f).to_multiset()));
    }
}

/// The order of flat pairs does not matter: pairs with distinct keys,
/// written in any order, parse to the same map.
pub proof fn lemma_flat_any_order(ps: Seq<(Seq<u8>, Seq<u8>)>, qs: Seq<(Seq<u8>, Seq<u8>)>, cfg: Config)
    requires
        qs.to_multiset() == ps.to_multiset(),
        keys_distinct(raw_pairs(ps, cfg.use_form_encoding)),
        keys_distinct(raw_pairs(qs, cfg.use_form_encoding)),
    ensures
        spec_parse(flat_text(raw_pairs(qs, cfg.use_form_encoding), cfg.use_form_encoding), cfg) == spec_parse(
            flat_text(raw_pairs(ps, cfg.use_form_encoding), cfg.use_form_encoding),
            cfg,
        ),
        spec_parse(flat_text(raw_pairs(ps, cfg.use_form_encoding), cfg.use_form_encoding), cfg) is Ok,
{
    let form = cfg.use_form_encoding;
    let g = |p: (Seq<u8>, Seq<u8>)| (key_bytes(p.0, form), p.1);
    let f = |p: (Seq<u8>, Seq<u8>)| read_pair(p);
    let rp = raw_pairs(ps, form);
    let rq = raw_pairs(qs, form);
    assert(rp =~= ps.map_values(g));
    assert(rq =~= qs.map_values(g));
    lemma_map_ms(qs, ps, g);
    lemma_map_ms(rq, rp, f);
    let e = Seq::<(KeyV, ValueV)>::empty();
    assert forall|x: Seq<(Seq<u8>, Seq<u8>)>| x == rp || x == rq implies keys_flat(x, cfg) && fresh_in(e, x) by {
        assert forall|j: int| 0 <= j < x.len() implies !(#[trigger] x[j]).0.contains(0x5bu8) || !form by {
            if x == rp {
                lemma_key_bytes(ps[j].0, form);
            } else {
                lemma_key_bytes(qs[j].0, form);
            }
        }
    }
    lemma_front_back(rp, form);
    lemma_front_back(rq, form);
    assert(Seq::<u8>::empty() + front_text(rp, form) =~= front_text(rp, form));
    assert(Seq::<u8>::empty() + front_text(rq, form) =~= front_text(rq, form));
    lemma_root_pairs(Seq::<u8>::empty(), rp, e, cfg);
    lemma_root_pairs(Seq::<u8>::empty(), rq, e, cfg);
    let mp = insert_pairs(e, rp);
    let mq = insert_pairs(e, rq);
    lemma_insert_pairs_ms(e, rp);
    lemma_insert_pairs_ms(e, rq);
    assert(mp.to_multiset() =~= mq.to_multiset());
    crate::order::lemma_parse_ordered(flat_text(rp, form), cfg);
    crate::order::lemma_parse_ordered(flat_text(rq, form), cfg);
    lemma_sorted_unique(mp, mq);
}

// ---------------------------------------------------------------------------
// Any order of nested entries

/// Where an entry can go into `m`: the maps along its path are maps or
/// absent; an element's sequence is a sequence or absent, and any other
/// path's last key is absent.
pub open spec fn fits_any(m: Seq<(KeyV, ValueV)>, ks: Seq<KeyV>) -> bool
    decreases ks.len(),
{
    if ks.len() == 0 {
        false
    } else if ks.len() == 1 {
        find_key(m, ks[0]) is None
    } else if ks.len() == 2 && ks[1] == KeyV::Str(Seq::empty()) {
        get_or_uninit(m, ks[0]) is Sequence || get_or_uninit(m, ks[0]) is Uninitialized
    } else {
        match get_or_uninit(m, ks[0]) {
            ValueV::Mapping(_) | ValueV::Uninitialized => fits_any(child_map(get_or_uninit(m, ks[0])), ks.drop_first()),
            _ => false,
        }
    }
}

/// The value at a node after putting the rest `ks` of a path below it: an
/// element appended to the node's sequence, or the entry put into the
/// node's map.
pub open spec fn node_put(node: ValueV, ks: Seq<KeyV>, v: ValueV) -> ValueV {
    if ks.len() == 1 && ks[0] == KeyV::Str(Seq::empty()) {
        ValueV::Sequence(seq_elems(node).push(v))
    } else {
        ValueV::Mapping(put_entry(child_map(node), ks, v))
    }
}

/// A node can take the rest `ks` of a path.
pub open spec fn node_fits(node: ValueV, ks: Seq<KeyV>) -> bool {
    if ks.len() == 1 && ks[0] == KeyV::Str(Seq::empty()) {
        node is Sequence || node is Uninitialized
    } else {
        (node is Mapping || node is Uninitialized) && fits_any(child_map(node), ks)
    }
}

/// Keys inside brackets: none is empty but the last (an element), and in
/// form encoding none holds `]`.
pub open spec fn inner_keys_any(q: Seq<Seq<u8>>, form: bool) -> bool {
    forall|j: int|
        #![trigger q[j]]
        0 <= j < q.len() ==> (j < q.len() - 1 ==> q[j].len() > 0) && (form ==> !q[j].contains(0x5du8))
}

/// Putting a path below the key `k` of `m` is setting `k` to the node put.
proof fn lemma_put_node(m: Seq<(KeyV, ValueV)>, ks: Seq<KeyV>, v: ValueV)
    requires
        ks.len() >= 2,
    ensures
        put_entry(m, ks, v) == map_set(m, ks[0], node_put(get_or_uninit(m, ks[0]), ks.drop_first(), v)),
        fits_any(m, ks) == node_fits(get_or_uninit(m, ks[0]), ks.drop_first()),
{
    if ks.drop_first().len() == 1 && ks.drop_first()[0] == KeyV::Str(Seq::empty()) {
        assert(ks.len() == 2 && ks[1] == KeyV::Str(Seq::empty()));
    }
}

/// The bracketed rest of a path, elements included, is read into the node.
#[verifier::spinoff_prover]
#[verifier::rlimit(40)]
proof fn lemma_nested_any(
    s: Seq<u8>,
    i: int,
    kstart: int,
    node: ValueV,
    d: nat,
    parent: KeyV,
    q: Seq<Seq<u8>>,
    v: Option<Seq<u8>>,
    cfg: Config,
)
    requires
        q.len() >= 1,
        q.last().len() == 0 ==> d + q.len() - 1 <= cfg.max_depth,
        q.last().len() > 0 ==> d + q.len() <= cfg.max_depth,
        node_fits(node, read_path(q)),
        inner_keys_any(q, cfg.use_form_encoding),
        0 <= i,
        i + tail_text(q, v, cfg.use_form_encoding).len() <= s.len(),
        s.subrange(i, i + tail_text(q, v, cfg.use_form_encoding).len()) == tail_text(q, v, cfg.use_form_encoding),
        ({
            let e = i + tail_text(q, v, cfg.use_form_encoding).len();
            e == s.len() || s[e] == 0x26u8
        }),
    ensures
        sp_nested(s, i, kstart, node, d, parent, cfg) == Ok::<(ValueV, int), (crate::parse::FaultV, int)>(
            (node_put(node, read_path(q), read_opt(v)), i + tail_text(q, v, cfg.use_form_encoding).len() + 1),
        ),
    decreases q.len(),
{
    let form = cfg.use_form_encoding;
    let q0 = q[0];
    let ek = spec_encode(q0, form);
    let t = i + ek.len();
    let cl = close_bracket(form);
    let j = t + cl.len();
    let e = i + tail_text(q, v, form).len();
    let ks = read_path(q);
    lemma_tail_layout(s, i, q, v, form);
    if q.len() == 1 && q0.len() == 0 {
        // an element: `]` at once, then the value
        assert(ek =~= Seq::<u8>::empty());
        assert(q0 =~= Seq::<u8>::empty());
        assert(ks =~= seq![KeyV::Str(Seq::<u8>::empty())]);
        lemma_close_token(s, i, form);
        let xs = seq_elems(node);
        if node is Uninitialized {
            assert(xs =~= Seq::<ValueV>::empty());
        }
        lemma_element_value(s, j, v, xs, form);
    } else {
        assert(q0.len() > 0) by {
            if q.len() > 1 {
                assert(q[0] == q[0]);
            }
        }
        assert(form ==> !q0.contains(0x5du8));
        lemma_scan_encoded(s, i, q0, form, Stop::Close);
        lemma_close_token(s, t, form);
        assert(scan(s, t, form, Stop::Close) == t);
        let i1 = i + tok_width(s, i, form);
        assert(scan(s, i1, form, Stop::Close) == t);
        lemma_encode_nonempty(q0, form);
        lemma_key_of_encoded(q0, form);
        let seg = key_of(s.subrange(i, t));
        assert(seg == read_key(q0));
        assert(ks[0] == seg);
        assert(ks.drop_first() =~= read_path(q.drop_first()));
        assert(tok_byte(s, i, form) != 0x5du8);
        assert(seg != KeyV::Str(Seq::<u8>::empty()));
        let m = child_map(node);
        if q.len() == 1 {
            assert(ks =~= seq![seg]);
            lemma_nested_last(s, j, m, seg, v, cfg);
            if j < s.len() {
                if v is Some {
                    assert(s[j] == s.subrange(j, e)[0]);
                    assert(tok_byte(s, j, form) == 0x3du8);
                } else {
                    assert(e == j);
                    assert(tok_byte(s, j, form) == 0x26u8);
                }
            }
        } else {
            let op = open_bracket(form);
            let o = j + op.len();
            lemma_open_token(s, j, form);
            let child = get_or_uninit(m, seg);
            lemma_put_node(m, ks, read_opt(v));
            let q2 = q.drop_first();
            assert(q2.last() == q.last());
            assert(inner_keys_any(q2, form)) by {
                assert forall|x: int| #![trigger q2[x]] 0 <= x < q2.len() implies (x < q2.len() - 1 ==> q2[x].len() > 0) && (
                form ==> !q2[x].contains(0x5du8)) by {
                    assert(q2[x] == q[x + 1]);
                }
            }
            lemma_nested_any(s, o, j, child, d + 1, seg, q2, v, cfg);
        }
    }
}

/// One entry at `i`, an element or any other path, is put into the map,
/// and reading goes on after it.
#[verifier::spinoff_prover]
#[verifier::rlimit(80)]
proof fn lemma_entry_any(s: Seq<u8>, i: int, path: Seq<Seq<u8>>, v: Option<Seq<u8>>, m: Seq<(KeyV, ValueV)>, cfg: Config)
    requires
        2 <= path.len(),
        path.last().len() == 0 ==> path.len() <= cfg.max_depth + 2,
        path.last().len() > 0 ==> path.len() <= cfg.max_depth + 1,
        cfg.max_depth > 0,
        fits_any(m, read_path(path)),
        cfg.use_form_encoding ==> !path[0].contains(0x5bu8),
        inner_keys_any(path.drop_first(), cfg.use_form_encoding),
        0 <= i,
        i + entry_text(path, v, cfg.use_form_encoding).len() <= s.len(),
        s.subrange(i, i + entry_text(path, v, cfg.use_form_encoding).len()) == entry_text(path, v, cfg.use_form_encoding),
        ({
            let e = i + entry_text(path, v, cfg.use_form_encoding).len();
            e == s.len() || s[e] == 0x26u8
        }),
    ensures
        sp_root(s, i, m, cfg) == sp_root(
            s,
            i + entry_text(path, v, cfg.use_form_encoding).len() + 1,
            put_entry(m, read_path(path), read_opt(v)),
            cfg,
        ),
{
    let form = cfg.use_form_encoding;
    let k = path[0];
    let ek = spec_encode(k, form);
    let et = entry_text(path, v, form);
    let e = i + et.len();
    let t = i + ek.len();
    let ks = read_path(path);
    let op = open_bracket(form);
    let q = path.drop_first();
    let tt = tail_text(q, v, form);
    let o = t + op.len();
    lemma_entry_layout(path, v, form);
    assert(et == ek + op + tt);
    assert(s.subrange(i, t) =~= ek) by {
        assert forall|x: int| 0 <= x < ek.len() implies s.subrange(i, t)[x] == ek[x] by {
            assert(s[i + x] == s.subrange(i, e)[x]);
        }
    }
    assert(s.subrange(t, o) =~= op) by {
        assert forall|x: int| 0 <= x < op.len() implies s.subrange(t, o)[x] == op[x] by {
            assert(s[t + x] == s.subrange(i, e)[ek.len() + x]);
        }
    }
    assert(s.subrange(o, e) =~= tt) by {
        assert forall|x: int| 0 <= x < tt.len() implies s.subrange(o, e)[x] == tt[x] by {
            assert(s[o + x] == s.subrange(i, e)[ek.len() + op.len() + x]);
        }
    }
    lemma_scan_encoded(s, i, k, form, Stop::Root);
    lemma_open_token(s, t, form);
    assert(scan(s, t, form, Stop::Root) == t);
    let key = if t == i {
        KeyV::Str(Seq::empty())
    } else {
        key_of(s.subrange(i, t))
    };
    if k.len() > 0 {
        lemma_encode_nonempty(k, form);
        lemma_key_of_encoded(k, form);
    } else {
        assert(ek =~= Seq::<u8>::empty());
        assert(k =~= Seq::<u8>::empty());
    }
    assert(key == read_key(k));
    assert(ks[0] == key);
    assert(ks.drop_first() =~= read_path(q));
    assert(q.last() == path.last());
    lemma_put_node(m, ks, read_opt(v));
    lemma_nested_any(s, o, o, get_or_uninit(m, key), 0, key, q, v, cfg);
}

/// Putting a path that fits and is no element is `tree_put`.
proof fn lemma_tree_put_entry(m: Seq<(KeyV, ValueV)>, ks: Seq<KeyV>, v: ValueV)
    requires
        fits(m, ks),
        !is_element(ks),
    ensures
        put_entry(m, ks, v) == tree_put(m, ks, v),
    decreases ks.len(),
{
    if ks.len() >= 2 {
        assert(ks.drop_first().last() == ks.last());
        lemma_tree_put_entry(child_map(get_or_uninit(m, ks[0])), ks.drop_first(), v);
    }
}

/// Whether an entry fits depends on its first key's entry alone.
proof fn lemma_fits_any_frame(m: Seq<(KeyV, ValueV)>, k: KeyV, x: ValueV, ks: Seq<KeyV>)
    requires
        ks.len() >= 1,
        ks[0] != k,
    ensures
        fits_any(map_set(m, k, x), ks) == fits_any(m, ks),
{
    lemma_find_set(m, k, x, ks[0]);
}

/// After one entry, an entry that is independent of it, or a later element
/// of the same sequence, still goes in.
proof fn lemma_fit_after(m: Seq<(KeyV, ValueV)>, a: Seq<KeyV>, x: ValueV, b: Seq<KeyV>)
    requires
        entries_ordered(m),
        ordered(x),
        a.len() >= 1,
        b.len() >= 1,
        fits_any(m, a),
        fits_any(m, b),
        independent(a, b) || (is_element(a) && a == b),
    ensures
        fits_any(put_entry(m, a, x), b),
    decreases a.len(),
{
    lemma_put_entry(m, a, x);
    let e = KeyV::Str(Seq::<u8>::empty());
    if a[0] != b[0] {
        let node = get_or_uninit(m, a[0]);
        let xa = if a.len() == 1 {
            x
        } else {
            node_put(node, a.drop_first(), x)
        };
        if a.len() >= 2 {
            lemma_put_node(m, a, x);
        }
        assert(put_entry(m, a, x) == map_set(m, a[0], xa));
        lemma_fits_any_frame(m, a[0], xa, b);
    } else if a == b {
        // the same element: its sequence is a sequence after it
        assert(!independent(a, a)) by {
            assert(key_path(a).subrange(0, key_path(a).len() as int) =~= key_path(a));
        }
        assert(is_element(a));
        lemma_put_node(m, a, x);
        let k = a[0];
        if a.len() == 2 {
            assert(a[1] == e);
            lemma_find_set(m, k, node_put(get_or_uninit(m, k), a.drop_first(), x), k);
        } else {
            let node = get_or_uninit(m, k);
            let c = child_map(node);
            assert(a.drop_first().last() == e);
            assert(!(a.drop_first().len() == 1 && a.drop_first()[0] == e));
            assert(node is Mapping || node is Uninitialized);
            lemma_get_ordered(m, k);
            assert(entries_ordered(c)) by {
                assert(ordered(node));
            }
            lemma_fit_after(c, a.drop_first(), x, b.drop_first());
            lemma_find_set(m, k, node_put(node, a.drop_first(), x), k);
            lemma_put_node(put_entry(m, a, x), b, x);
        }
    } else {
        // the same first key, different paths: both go below it
        let k = a[0];
        assert(a.len() >= 2 && b.len() >= 2 && !(a.len() == 2 && a[1] == e) && !(b.len() == 2 && b[1] == e)) by {
            if a.len() == 1 || (a.len() == 2 && a[1] == e) {
                assert(key_path(a) =~= seq![k]);
                assert(key_path(b).len() >= 1 && key_path(b)[0] == k);
                assert(key_path(b).subrange(0, 1) =~= seq![k]);
            }
            if b.len() == 1 || (b.len() == 2 && b[1] == e) {
                assert(key_path(b) =~= seq![k]);
                assert(key_path(a).len() >= 1 && key_path(a)[0] == k);
                assert(key_path(a).subrange(0, 1) =~= seq![k]);
            }
        }
        let ra = a.drop_first();
        let rb = b.drop_first();
        assert(independent(ra, rb)) by {
            assert(is_element(ra) == is_element(a));
            assert(is_element(rb) == is_element(b));
            assert(key_path(ra) =~= key_path(a).drop_first());
            assert(key_path(rb) =~= key_path(b).drop_first());
            if is_prefix(key_path(ra), key_path(rb)) {
                assert(key_path(a) =~= seq![k] + key_path(ra));
                assert(key_path(b) =~= seq![k] + key_path(rb));
                assert(key_path(b).subrange(0, key_path(a).len() as int) =~= seq![k] + key_path(rb).subrange(
                    0,
                    key_path(ra).len() as int,
                ));
            }
            if is_prefix(key_path(rb), key_path(ra)) {
                assert(key_path(a) =~= seq![k] + key_path(ra));
                assert(key_path(b) =~= seq![k] + key_path(rb));
                assert(key_path(a).subrange(0, key_path(b).len() as int) =~= seq![k] + key_path(ra).subrange(
                    0,
                    key_path(rb).len() as int,
                ));
            }
        }
        let node = get_or_uninit(m, k);
        let c = child_map(node);
        lemma_put_node(m, a, x);
        lemma_put_node(m, b, x);
        assert(!(ra.len() == 1 && ra[0] == e) && !(rb.len() == 1 && rb[0] == e));
        lemma_get_ordered(m, k);
        assert(entries_ordered(c)) by {
            assert(ordered(node));
        }
        lemma_fit_after(c, ra, x, rb);
        lemma_find_set(m, k, node_put(node, ra, x), k);
        lemma_put_node(put_entry(m, a, x), b, x);
    }
}

/// A raw entry as the parser reads it: its path's keys and its value.
pub open spec fn read_entry(e: (Seq<Seq<u8>>, Option<Seq<u8>>)) -> (Seq<KeyV>, ValueV) {
    (read_path(e.0), read_opt(e.1))
}

/// The raw entries as the parser reads them.
pub open spec fn read_entries(es: Seq<(Seq<Seq<u8>>, Option<Seq<u8>>)>) -> Seq<(Seq<KeyV>, ValueV)> {
    Seq::new(es.len(), |i: int| read_entry(es[i]))
}

/// A raw entry that the parser reads as written: a path no deeper than
/// `max_depth` allows, whose keys inside brackets are not empty but the
/// last, which an element (`k[]`) leaves empty, and which as a lone key
/// without a value is not empty; in form encoding the first key holds no
/// `[` where keys nest and the others no `]`.
pub open spec fn raw_entry_ok(e: (Seq<Seq<u8>>, Option<Seq<u8>>), cfg: Config) -> bool {
    let p = e.0;
    &&& p.len() >= 1
    &&& (p.len() >= 2 && p.last().len() == 0 ==> p.len() <= cfg.max_depth + 2 && cfg.max_depth > 0)
    &&& (!(p.len() >= 2 && p.last().len() == 0) ==> p.len() <= cfg.max_depth + 1)
    &&& (p.len() == 1 && e.1 is None ==> p[0].len() > 0)
    &&& (cfg.use_form_encoding && cfg.max_depth > 0 ==> !p[0].contains(0x5bu8))
    &&& inner_keys_any(p.drop_first(), cfg.use_form_encoding)
}

proof fn lemma_read_entry_element(e: (Seq<Seq<u8>>, Option<Seq<u8>>), cfg: Config)
    requires
        raw_entry_ok(e, cfg),
    ensures
        is_element(read_entry(e).0) <==> (e.0.len() >= 2 && e.0.last().len() == 0),
        read_entry(e).0.len() == e.0.len(),
        ordered(read_entry(e).1),
{
    let p = e.0;
    let ks = read_path(p);
    if p.len() >= 2 {
        assert(ks.last() == read_key(p.last()));
        if p.last().len() == 0 {
            assert(p.last() =~= Seq::<u8>::empty());
        } else if ks.last() == KeyV::Str(Seq::<u8>::empty()) {
            assert(p.last() =~= Seq::<u8>::empty());
        }
    }
}

/// A raw path read: after the first key, what `lemma_entry_any` asks.
proof fn lemma_fits_read(m: Seq<(KeyV, ValueV)>, e: (Seq<Seq<u8>>, Option<Seq<u8>>), cfg: Config)
    requires
        raw_entry_ok(e, cfg),
        fits_any(m, read_path(e.0)),
        e.0.len() == 1,
    ensures
        fits(m, read_path(e.0)),
        !is_element(read_path(e.0)),
{
}

/// The top level reads entries, elements included, one by one.
#[verifier::spinoff_prover]
#[verifier::rlimit(40)]
proof fn lemma_root_any(a: Seq<u8>, es: Seq<(Seq<Seq<u8>>, Option<Seq<u8>>)>, m: Seq<(KeyV, ValueV)>, cfg: Config)
    requires
        forall|j: int| 0 <= j < es.len() ==> raw_entry_ok(#[trigger] es[j], cfg),
        compatible(read_entries(es)),
        entries_ordered(m),
        forall|j: int| 0 <= j < es.len() ==> fits_any(m, (#[trigger] read_entries(es)[j]).0),
    ensures
        sp_root(a + entries_front(es, cfg.use_form_encoding), a.len() as int, m, cfg) == Ok::<
            Seq<(KeyV, ValueV)>,
            (crate::parse::FaultV, int),
        >(put_entries(m, read_entries(es))),
    decreases es.len(),
{
    let form = cfg.use_form_encoding;
    let s = a + entries_front(es, form);
    let i = a.len() as int;
    let rs = read_entries(es);
    if es.len() == 0 {
        assert(s =~= a);
    } else {
        let path = es[0].0;
        let v = es[0].1;
        let et = entry_text(path, v, form);
        lemma_entries_layout(a, es, form);
        lemma_read_entry_element(es[0], cfg);
        assert(rs[0] == read_entry(es[0]));
        let ks = read_path(path);
        let x = read_opt(v);
        assert(fits_any(m, ks));
        if path.len() == 1 {
            lemma_fits_read(m, es[0], cfg);
            assert(inner_keys_ok(path.drop_first(), form));
            lemma_entry_step(s, i, path, v, m, cfg);
            lemma_tree_put_entry(m, ks, x);
        } else {
            lemma_entry_any(s, i, path, v, m, cfg);
        }
        let m1 = put_entry(m, ks, x);
        lemma_put_entry(m, ks, x);
        let t = es.drop_first();
        let rt = read_entries(t);
        assert(rt =~= rs.drop_first());
        assert(put_entries(m, rs) == put_entries(m1, rt));
        assert forall|j: int| 0 <= j < t.len() implies raw_entry_ok(#[trigger] t[j], cfg) by {
            assert(t[j] == es[j + 1]);
        }
        assert(compatible(rt)) by {
            assert forall|p: int, q: int| 0 <= p < q < rt.len() implies independent((#[trigger] rt[p]).0, (#[trigger] rt[q]).0)
                || (is_element(rt[p].0) && rt[p].0 == rt[q].0) by {
                assert(rt[p] == rs[p + 1] && rt[q] == rs[q + 1]);
            }
        }
        assert forall|j: int| 0 <= j < t.len() implies fits_any(m1, (#[trigger] read_entries(t)[j]).0) by {
            assert(rt[j] == rs[j + 1]);
            lemma_read_entry_element(es[j + 1], cfg);
            assert(rs[0].0.len() >= 1 && rs[j + 1].0.len() >= 1);
            lemma_fit_after(m, ks, x, rs[j + 1].0);
        }
        if es.len() > 1 {
            let a2 = a + et + seq![0x26u8];
            lemma_root_any(a2, t, m1, cfg);
        } else {
            assert(t.len() == 0);
        }
    }
}

/// An entry as the serializer is given it, in a form whose text the
/// parser reads back as written: a path of keys no deeper than
/// `max_depth` allows, whose keys inside brackets are not empty but the
/// last, which an element of a sequence (`k[]`, `a[b][]`) leaves empty,
/// and which as a lone key without a value is not empty.
pub open spec fn entry_ok(e: (Seq<Seq<u8>>, Option<Seq<u8>>), cfg: Config) -> bool {
    let p = e.0;
    &&& p.len() >= 1
    &&& (p.len() >= 2 && p.last().len() == 0 ==> p.len() <= cfg.max_depth + 2 && cfg.max_depth > 0)
    &&& (!(p.len() >= 2 && p.last().len() == 0) ==> p.len() <= cfg.max_depth + 1)
    &&& (p.len() == 1 && e.1 is None ==> p[0].len() > 0)
    &&& forall|x: int| 1 <= x < p.len() - 1 ==> (#[trigger] p[x]).len() > 0
}

proof fn lemma_raw_entries_ok(es: Seq<(Seq<Seq<u8>>, Option<Seq<u8>>)>, cfg: Config)
    requires
        forall|j: int| 0 <= j < es.len() ==> entry_ok(#[trigger] es[j], cfg),
    ensures
        forall|j: int|
            0 <= j < es.len() ==> raw_entry_ok(#[trigger] raw_entries(es, cfg.use_form_encoding)[j], cfg),
{
    let form = cfg.use_form_encoding;
    let re = raw_entries(es, form);
    assert forall|j: int| 0 <= j < es.len() implies raw_entry_ok(#[trigger] raw_entries(es, cfg.use_form_encoding)[j], cfg) by {
        let up = es[j].0;
        let p = re[j].0;
        assert(p == raw_path(up, form));
        assert(re[j].1 == es[j].1);
        lemma_key_bytes(up[0], form);
        lemma_key_bytes(up.last(), form);
        assert(p.last() == key_bytes(up.last(), form));
        assert forall|x: int| #![trigger p.drop_first()[x]] 0 <= x < p.drop_first().len() implies (x < p.drop_first().len()
            - 1 ==> p.drop_first()[x].len() > 0) && (form ==> !p.drop_first()[x].contains(0x5du8)) by {
            assert(p.drop_first()[x] == key_bytes(up[x + 1], form));
            lemma_key_bytes(up[x + 1], form);
        }
    }
}

/// The entries written in `es` parse to the entries put in order into an
/// empty map.
proof fn lemma_parse_entries(es: Seq<(Seq<Seq<u8>>, Option<Seq<u8>>)>, cfg: Config)
    requires
        forall|j: int| 0 <= j < es.len() ==> entry_ok(#[trigger] es[j], cfg),
        compatible(read_entries(raw_entries(es, cfg.use_form_encoding))),
    ensures
        spec_parse(entries_text(raw_entries(es, cfg.use_form_encoding), cfg.use_form_encoding), cfg) == Ok::<
            Seq<(KeyV, ValueV)>,
            (crate::parse::FaultV, int),
        >(put_entries(Seq::empty(), read_entries(raw_entries(es, cfg.use_form_encoding)))),
{
    let form = cfg.use_form_encoding;
    let re = raw_entries(es, form);
    let rs = read_entries(re);
    let e = Seq::<(KeyV, ValueV)>::empty();
    lemma_raw_entries_ok(es, cfg);
    assert forall|j: int| 0 <= j < re.len() implies fits_any(e, (#[trigger] read_entries(re)[j]).0) by {
        lemma_read_entry_element(re[j], cfg);
        assert(rs[j] == read_entry(re[j]));
        lemma_fits_any_empty(rs[j].0);
    }
    assert(entries_ordered(e));
    lemma_entries_front_back(re, form);
    assert(Seq::<u8>::empty() + entries_front(re, form) =~= entries_front(re, form));
    lemma_root_any(Seq::<u8>::empty(), re, e, cfg);
}

/// Any path of one key or more fits an empty map.
proof fn lemma_fits_any_empty(ks: Seq<KeyV>)
    requires
        ks.len() >= 1,
    ensures
        fits_any(Seq::empty(), ks),
    decreases ks.len(),
{
    if ks.len() >= 2 && !(ks.len() == 2 && ks[1] == KeyV::Str(Seq::empty())) {
        lemma_fits_any_empty(ks.drop_first());
    }
}

/// The order of the pairs does not matter: entries written in one order
/// and in another parse to the same tree, so long as any two entries that
/// read as the same path keep their order (the values of a sequence
/// `k[]`, in the order they came) and no key path is a bracket-prefix of
/// another (`a` and `a[b]`, or `a[]` and `a[b]`), which the parser refuses
/// in some orders or reads as one value overwriting another.
pub proof fn lemma_any_order(
    ps: Seq<(Seq<Seq<u8>>, Option<Seq<u8>>)>,
    qs: Seq<(Seq<Seq<u8>>, Option<Seq<u8>>)>,
    cfg: Config,
)
    requires
        forall|j: int| 0 <= j < ps.len() ==> entry_ok(#[trigger] ps[j], cfg),
        forall|j: int| 0 <= j < qs.len() ==> entry_ok(#[trigger] qs[j], cfg),
        compatible(read_entries(raw_entries(ps, cfg.use_form_encoding))),
        compatible(read_entries(raw_entries(qs, cfg.use_form_encoding))),
        reorders(read_entries(raw_entries(ps, cfg.use_form_encoding)), read_entries(raw_entries(qs, cfg.use_form_encoding))),
    ensures
        spec_parse(entries_text(raw_entries(ps, cfg.use_form_encoding), cfg.use_form_encoding), cfg) is Ok,
        spec_parse(entries_text(raw_entries(qs, cfg.use_form_encoding), cfg.use_form_encoding), cfg) == spec_parse(
            entries_text(raw_entries(ps, cfg.use_form_encoding), cfg.use_form_encoding),
            cfg,
        ),
{
    let form = cfg.use_form_encoding;
    let rp = read_entries(raw_entries(ps, form));
    let rq = read_entries(raw_entries(qs, form));
    lemma_parse_entries(ps, cfg);
    lemma_parse_entries(qs, cfg);
    lemma_raw_entries_ok(ps, cfg);
    lemma_raw_entries_ok(qs, cfg);
    assert(crate::reorder::values_ordered(rp)) by {
        assert forall|i: int| 0 <= i < rp.len() implies ordered(#[trigger] rp[i].1) by {
            lemma_read_entry_element(raw_entries(ps, form)[i], cfg);
        }
    }
    assert(crate::reorder::values_ordered(rq) && crate::reorder::paths_nonempty(rq)) by {
        assert forall|i: int| 0 <= i < rq.len() implies ordered(#[trigger] rq[i].1) && (#[trigger] rq[i]).0.len() >= 1 by {
            lemma_read_entry_element(raw_entries(qs, form)[i], cfg);
        }
    }
    lemma_reorder(Seq::empty(), rp, rq);
}

// ---------------------------------------------------------------------------
// Indexed sequences

/// The decimal digits of a number read back as that number.
proof fn lemma_dec_nat_digits(n: nat)
    ensures
        dec_nat(n).len() > 0,
        all_digits(dec_nat(n)),
        digits_value(dec_nat(n)) == n,
    decreases n,
{
    if n >= 10 {
        lemma_dec_nat_digits(n / 10);
        let d = dec_nat(n / 10);
        let s = d.push((0x30 + n % 10) as u8);
        assert(s.drop_last() =~= d);
        assert forall|i: int| 0 <= i < s.len() implies is_digit(#[trigger] s[i]) by {
            if i < d.len() {
                assert(s[i] == d[i]);
            }
        }
        assert(dec_nat(n) == s);
        assert(s.last() == (0x30 + n % 10) as u8);
        assert(s.drop_last() =~= d);
        assert(digits_value(s) == digits_value(s.drop_last()) * 10 + (s.last() - 0x30) as nat);
        assert((s.last() - 0x30) as nat == n % 10);
        assert((n / 10) * 10 + n % 10 == n);
    } else {
        let s = dec_nat(n);
        assert(s.drop_last() =~= Seq::<u8>::empty());
        assert(digits_value(s.drop_last()) == 0);
        assert(s.last() == (0x30 + n) as u8);
        assert((s.last() - 0x30) as nat == n);
        assert(digits_value(s) == digits_value(s.drop_last()) * 10 + (s.last() - 0x30) as nat);
    }
}

/// Under `ArrayFormat::Indexed`, the element at position `i` of a sequence
/// is keyed so that the parser reads its key back as the integer `i`; so
/// elements at different positions get different keys.
pub proof fn lemma_indexed_keys(i: usize, j: usize)
    ensures
        element_key(ArrayFormat::Indexed, i) matches Some(k) && read_key(k) == KeyV::Int(i),
        i != j ==> element_key(ArrayFormat::Indexed, i) != element_key(ArrayFormat::Indexed, j),
{
    lemma_dec_nat_digits(i as nat);
    lemma_dec_nat_digits(j as nat);
}

} // verus!
