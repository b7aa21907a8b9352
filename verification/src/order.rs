use vstd::prelude::*;
use crate::config::Config;
use crate::parse::{
    lemma_finish_pos, lemma_nested_pos, lemma_scan, scan, sp_finish_entry, sp_insert, sp_nested,
    sp_root, sp_seq_value, spec_parse, tok_byte, tok_width, value_of, Stop,
};
use crate::value::{
    bytes_lt, find_key, get_or_uninit, insert_pos, key_lt, lemma_find_key_range, map_set, KeyV, ValueV,
};

verus! {

proof fn lemma_bytes_lt_irrefl(a: Seq<u8>)
    ensures
        !bytes_lt(a, a),
    decreases a.len(),
{
    if a.len() > 0 {
        lemma_bytes_lt_irrefl(a.subrange(1, a.len() as int));
    }
}

proof fn lemma_bytes_lt_trans(a: Seq<u8>, b: Seq<u8>, c: Seq<u8>)
    requires
        bytes_lt(a, b),
        bytes_lt(b, c),
    ensures
        bytes_lt(a, c),
    decreases a.len(),
{
    if a.len() > 0 && b.len() > 0 && c.len() > 0 && a[0] == b[0] && b[0] == c[0] {
        lemma_bytes_lt_trans(
            a.subrange(1, a.len() as int),
            b.subrange(1, b.len() as int),
            c.subrange(1, c.len() as int),
        );
    }
}

proof fn lemma_bytes_lt_total(a: Seq<u8>, b: Seq<u8>)
    requires
        a != b,
    ensures
        bytes_lt(a, b) || bytes_lt(b, a),
    decreases a.len(),
{
    if a.len() > 0 && b.len() > 0 && a[0] == b[0] {
        let ta = a.subrange(1, a.len() as int);
        let tb = b.subrange(1, b.len() as int);
        if ta == tb {
            assert(a =~= seq![a[0]] + ta);
            assert(b =~= seq![b[0]] + tb);
        }
        lemma_bytes_lt_total(ta, tb);
    } else if a.len() == 0 && b.len() == 0 {
        assert(a =~= b);
    }
}

/// The key order is a strict total order.
pub proof fn lemma_key_lt_order(a: KeyV, b: KeyV, c: KeyV)
    ensures
        !key_lt(a, a),
        key_lt(a, b) && key_lt(b, c) ==> key_lt(a, c),
        a != b ==> key_lt(a, b) || key_lt(b, a),
        key_lt(a, b) ==> !key_lt(b, a),
{
    match a {
        KeyV::Str(x) => {
            lemma_bytes_lt_irrefl(x);
        },
        _ => {},
    }
    match (a, b, c) {
        (KeyV::Str(x), KeyV::Str(y), KeyV::Str(z)) => {
            if bytes_lt(x, y) && bytes_lt(y, z) {
                lemma_bytes_lt_trans(x, y, z);
            }
        },
        _ => {},
    }
    match (a, b) {
        (KeyV::Str(x), KeyV::Str(y)) => {
            if x != y {
                lemma_bytes_lt_total(x, y);
            }
            if bytes_lt(x, y) && bytes_lt(y, x) {
                lemma_bytes_lt_trans(x, y, x);
                lemma_bytes_lt_irrefl(x);
            }
        },
        _ => {},
    }
}

/// The keys of the entries are in strictly increasing order, so no key
/// appears twice.
pub open spec fn sorted(m: Seq<(KeyV, ValueV)>) -> bool {
    forall|i: int, j: int| 0 <= i < j < m.len() ==> key_lt(#[trigger] m[i].0, #[trigger] m[j].0)
}

/// Every map inside a parsed value has its keys in strictly increasing order.
pub open spec fn ordered(v: ValueV) -> bool
    decreases v,
{
    match v {
        ValueV::Mapping(es) => sorted(es) && forall|i: int| 0 <= i < es.len() ==> ordered(#[trigger] es[i].1),
        ValueV::Sequence(vs) => forall|i: int| 0 <= i < vs.len() ==> ordered(#[trigger] vs[i]),
        _ => true,
    }
}

/// The entries are sorted, and so is every map inside their values.
pub open spec fn entries_ordered(m: Seq<(KeyV, ValueV)>) -> bool {
    sorted(m) && forall|l: int| 0 <= l < m.len() ==> ordered(#[trigger] m[l].1)
}

/// In a sorted map without `k`, the entries before `insert_pos` are below
/// `k` and the others above it.
proof fn lemma_insert_pos_sorted(m: Seq<(KeyV, ValueV)>, k: KeyV)
    requires
        sorted(m),
        forall|l: int| 0 <= l < m.len() ==> m[l].0 != k,
    ensures
        0 <= insert_pos(m, k) <= m.len(),
        forall|l: int| 0 <= l < insert_pos(m, k) ==> key_lt(#[trigger] m[l].0, k),
        forall|l: int| insert_pos(m, k) <= l < m.len() ==> key_lt(k, #[trigger] m[l].0),
    decreases m.len(),
{
    if m.len() > 0 {
        let n = m.len() - 1;
        let d = m.drop_last();
        assert(sorted(d)) by {
            assert forall|i: int, j: int| 0 <= i < j < d.len() implies key_lt(#[trigger] d[i].0, #[trigger] d[j].0) by {
                assert(d[i] == m[i] && d[j] == m[j]);
            }
        }
        assert forall|l: int| 0 <= l < d.len() implies d[l].0 != k by {
            assert(d[l] == m[l]);
        }
        if key_lt(k, m.last().0) {
            lemma_insert_pos_sorted(d, k);
            assert forall|l: int| 0 <= l < insert_pos(m, k) implies key_lt(#[trigger] m[l].0, k) by {
                assert(d[l] == m[l]);
            }
            assert forall|l: int| insert_pos(m, k) <= l < m.len() implies key_lt(k, #[trigger] m[l].0) by {
                if l < n {
                    assert(d[l] == m[l]);
                }
            }
        } else {
            lemma_key_lt_order(m[n].0, k, k);
            assert(key_lt(m[n].0, k));
            assert forall|l: int| 0 <= l < insert_pos(m, k) implies key_lt(#[trigger] m[l].0, k) by {
                if l < n {
                    assert(key_lt(m[l].0, m[n].0));
                    lemma_key_lt_order(m[l].0, m[n].0, k);
                }
            }
        }
    }
}

/// Inserting a new key where `insert_pos` puts it keeps the map sorted.
proof fn lemma_insert_sorted(m: Seq<(KeyV, ValueV)>, k: KeyV, v: ValueV)
    requires
        sorted(m),
        find_key(m, k) is None,
    ensures
        sorted(m.insert(insert_pos(m, k), (k, v))),
        0 <= insert_pos(m, k) <= m.len(),
{
    lemma_find_key_range(m, k);
    lemma_insert_pos_sorted(m, k);
    let p = insert_pos(m, k);
    let m2 = m.insert(p, (k, v));
    assert forall|i: int, j: int| 0 <= i < j < m2.len() implies key_lt(#[trigger] m2[i].0, #[trigger] m2[j].0) by {
        if j < p {
            assert(m2[i] == m[i] && m2[j] == m[j]);
        } else if j == p {
            assert(m2[i] == m[i]);
        } else if i < p {
            assert(m2[i] == m[i] && m2[j] == m[j - 1]);
            lemma_key_lt_order(m[i].0, k, m[j - 1].0);
        } else if i == p {
            assert(m2[j] == m[j - 1]);
        } else {
            assert(m2[i] == m[i - 1] && m2[j] == m[j - 1]);
        }
    }
}

/// Changing the value at an existing entry keeps the keys as they are.
proof fn lemma_update_ordered(m: Seq<(KeyV, ValueV)>, j: int, k: KeyV, v: ValueV)
    requires
        entries_ordered(m),
        0 <= j < m.len(),
        m[j].0 == k,
        ordered(v),
    ensures
        entries_ordered(m.update(j, (k, v))),
{
    let m2 = m.update(j, (k, v));
    assert forall|a: int, b: int| 0 <= a < b < m2.len() implies key_lt(#[trigger] m2[a].0, #[trigger] m2[b].0) by {
        assert(m2[a].0 == m[a].0 && m2[b].0 == m[b].0);
    }
    assert forall|l: int| 0 <= l < m2.len() implies ordered(#[trigger] m2[l].1) by {
        if l != j {
            assert(m2[l] == m[l]);
        }
    }
}

proof fn lemma_insert_new_ordered(m: Seq<(KeyV, ValueV)>, k: KeyV, v: ValueV)
    requires
        entries_ordered(m),
        find_key(m, k) is None,
        ordered(v),
    ensures
        entries_ordered(m.insert(insert_pos(m, k), (k, v))),
{
    lemma_insert_sorted(m, k, v);
    let p = insert_pos(m, k);
    let m2 = m.insert(p, (k, v));
    assert forall|l: int| 0 <= l < m2.len() implies ordered(#[trigger] m2[l].1) by {
        if l < p {
            assert(m2[l] == m[l]);
        } else if l > p {
            assert(m2[l] == m[l - 1]);
        }
    }
}

/// Adding a leaf keeps the entries ordered.
proof fn lemma_sp_insert_ordered(m: Seq<(KeyV, ValueV)>, k: KeyV, v: ValueV)
    requires
        entries_ordered(m),
        ordered(v),
        !(v is Mapping) && !(v is Sequence),
    ensures
        sp_insert(m, k, v) matches Ok(m2) ==> entries_ordered(m2),
{
    match find_key(m, k) {
        None => {
            lemma_insert_new_ordered(m, k, v);
        },
        Some(j) => {
            lemma_find_key_range(m, k);
            match m[j].1 {
                ValueV::Sequence(vs) => {
                    let vs2 = vs.push(v);
                    assert(ordered(m[j].1));
                    assert(forall|i: int| 0 <= i < vs.len() ==> ordered(#[trigger] vs[i]));
                    assert forall|i: int| 0 <= i < vs2.len() implies ordered(#[trigger] vs2[i]) by {
                        if i < vs.len() {
                            assert(vs2[i] == vs[i]);
                        }
                    }
                    lemma_update_ordered(m, j, k, ValueV::Sequence(vs2));
                },
                ValueV::Str(x) => {
                    let two = seq![ValueV::Str(x), v];
                    assert forall|i: int| 0 <= i < two.len() implies ordered(#[trigger] two[i]) by {
                        if i == 0 {
                            assert(two[0] == ValueV::Str(x));
                        } else {
                            assert(two[1] == v);
                        }
                    }
                    lemma_update_ordered(m, j, k, ValueV::Sequence(two));
                },
                _ => {},
            }
        },
    }
}

proof fn lemma_finish_ordered(s: Seq<u8>, m: Seq<(KeyV, ValueV)>, k: KeyV, t: int, form: bool)
    requires
        entries_ordered(m),
    ensures
        sp_finish_entry(s, m, k, t, form) matches Ok((m2, _)) ==> entries_ordered(m2),
{
    if t < s.len() && tok_byte(s, t, form) == 0x3d {
        let e = scan(s, t + 1, form, Stop::Amp);
        lemma_sp_insert_ordered(m, k, value_of(s.subrange(t + 1, e)));
    } else {
        lemma_sp_insert_ordered(m, k, ValueV::NoValue);
    }
}

pub(crate) proof fn lemma_set_ordered(m: Seq<(KeyV, ValueV)>, k: KeyV, v: ValueV)
    requires
        entries_ordered(m),
        ordered(v),
    ensures
        entries_ordered(map_set(m, k, v)),
{
    lemma_find_key_range(m, k);
    match find_key(m, k) {
        None => lemma_insert_new_ordered(m, k, v),
        Some(j) => lemma_update_ordered(m, j, k, v),
    }
}

pub(crate) proof fn lemma_get_ordered(m: Seq<(KeyV, ValueV)>, k: KeyV)
    requires
        entries_ordered(m),
    ensures
        ordered(get_or_uninit(m, k)),
{
    lemma_find_key_range(m, k);
    if let Some(j) = find_key(m, k) {
        assert(ordered(m[j].1));
    }
}

proof fn lemma_seq_value_ordered(s: Seq<u8>, i: int, vs: Seq<ValueV>, form: bool)
    requires
        ordered(ValueV::Sequence(vs)),
    ensures
        sp_seq_value(s, i, vs, form) matches Ok((vs2, _)) ==> ordered(ValueV::Sequence(vs2)),
{
    let sv = ValueV::Sequence(vs);
    assert(sv->Sequence_0 == vs);
    assert(forall|k: int| 0 <= k < vs.len() ==> ordered(#[trigger] vs[k]));
    if let Ok((vs2, _)) = sp_seq_value(s, i, vs, form) {
        let x = if i < s.len() && tok_byte(s, i, form) == 0x3d {
            value_of(s.subrange(i + 1, scan(s, i + 1, form, Stop::Amp)))
        } else {
            ValueV::NoValue
        };
        assert(vs2 == vs.push(x));
        assert forall|k: int| 0 <= k < vs2.len() implies ordered(#[trigger] vs2[k]) by {
            if k < vs.len() {
                assert(vs2[k] == vs[k]);
            } else {
                assert(vs2[k] == x);
            }
        }
    }
}

proof fn lemma_nested_ordered(
    s: Seq<u8>,
    i: int,
    kstart: int,
    node: ValueV,
    depth: nat,
    parent: KeyV,
    cfg: Config,
)
    requires
        ordered(node),
    ensures
        sp_nested(s, i, kstart, node, depth, parent, cfg) matches Ok((v, _)) ==> ordered(v),
    decreases s.len() - i,
{
    let form = cfg.use_form_encoding;
    if 0 <= i < s.len() {
        let i1 = i + tok_width(s, i, form);
        if tok_byte(s, i, form) == 0x5d {
            match node {
                ValueV::Sequence(vs) => {
                    lemma_seq_value_ordered(s, i1, vs, form);
                },
                ValueV::Uninitialized => {
                    lemma_seq_value_ordered(s, i1, seq![], form);
                },
                _ => {},
            }
        } else {
            match node {
                ValueV::Mapping(_) | ValueV::Uninitialized => {
                    let m = match node {
                        ValueV::Mapping(mm) => mm,
                        _ => Seq::empty(),
                    };
                    assert(entries_ordered(m));
                    if depth >= cfg.max_depth {
                        let t = scan(s, i1, form, Stop::Flat);
                        lemma_finish_ordered(s, m, crate::parse::key_of(s.subrange(kstart, t)), t, form);
                    } else {
                        let t = scan(s, i1, form, Stop::Close);
                        if t < s.len() {
                            let seg = crate::parse::key_of(s.subrange(i, t));
                            let j = t + tok_width(s, t, form);
                            if j < s.len() && tok_byte(s, j, form) == 0x5b {
                                lemma_scan(s, i1, form, Stop::Close);
                                lemma_get_ordered(m, seg);
                                lemma_nested_ordered(
                                    s,
                                    j + tok_width(s, j, form),
                                    j,
                                    get_or_uninit(m, seg),
                                    depth + 1,
                                    seg,
                                    cfg,
                                );
                                if let Ok((v, _)) = sp_nested(
                                    s,
                                    j + tok_width(s, j, form),
                                    j,
                                    get_or_uninit(m, seg),
                                    depth + 1,
                                    seg,
                                    cfg,
                                ) {
                                    lemma_set_ordered(m, seg, v);
                                }
                            } else {
                                lemma_finish_ordered(s, m, seg, j, form);
                            }
                        }
                    }
                },
                _ => {},
            }
        }
    }
}

proof fn lemma_root_ordered(s: Seq<u8>, i: int, m: Seq<(KeyV, ValueV)>, cfg: Config)
    requires
        entries_ordered(m),
    ensures
        sp_root(s, i, m, cfg) matches Ok(r) ==> entries_ordered(r),
    decreases s.len() + 1 - i,
{
    let form = cfg.use_form_encoding;
    if 0 <= i < s.len() {
        let stop = if cfg.max_depth == 0 {
            Stop::Flat
        } else {
            Stop::Root
        };
        let t = scan(s, i, form, stop);
        lemma_scan(s, i, form, stop);
        let key = if t == i {
            KeyV::Str(Seq::empty())
        } else {
            crate::parse::key_of(s.subrange(i, t))
        };
        if t < s.len() && tok_byte(s, t, form) == 0x5b {
            let w = tok_width(s, t, form);
            lemma_get_ordered(m, key);
            lemma_nested_ordered(s, t + w, t + w, get_or_uninit(m, key), 0, key, cfg);
            lemma_nested_pos(s, t + w, t + w, get_or_uninit(m, key), 0, key, cfg);
            if let Ok((v, p)) = sp_nested(s, t + w, t + w, get_or_uninit(m, key), 0, key, cfg) {
                lemma_set_ordered(m, key, v);
                lemma_root_ordered(s, p, map_set(m, key, v), cfg);
            }
        } else if t == i && t < s.len() && tok_byte(s, t, form) == 0x26 {
            lemma_root_ordered(s, t + 1, m, cfg);
        } else {
            lemma_finish_ordered(s, m, key, t, form);
            lemma_finish_pos(s, m, key, t, form);
            if let Ok((m2, p)) = sp_finish_entry(s, m, key, t, form) {
                lemma_root_ordered(s, p, m2, cfg);
            }
        }
    }
}

/// Parsing keeps every map in key order: the keys of the parsed map, and
/// of every map nested in it, are strictly increasing (integers first, by
/// value, then strings, byte by byte), so no key appears twice and
/// sequence indices come out in index order.
pub proof fn lemma_parse_ordered(s: Seq<u8>, cfg: Config)
    ensures
        spec_parse(s, cfg) matches Ok(m) ==> entries_ordered(m),
{
    lemma_root_ordered(s, 0, Seq::empty(), cfg);
}

} // verus!
