use vstd::prelude::*;
use crate::config::Config;
use crate::parse::{
    is_stop, lemma_finish_pos, lemma_nested_pos, lemma_scan, scan, sp_finish_entry, sp_insert,
    sp_nested, sp_root, sp_seq_value, spec_parse, tok_byte, tok_width, value_of, FaultV, Stop,
};
use crate::value::{find_key, get_or_uninit, insert_pos, lemma_find_key_range, lemma_insert_pos_range, map_set, KeyV, ValueV};

verus! {

/// A value that holds no other: a string, an empty value or no value.
pub open spec fn is_leaf(v: ValueV) -> bool {
    v is Str || v is Null || v is NoValue
}

/// Whether a parsed value nests at most `b` maps and sequences deep, but
/// for the sequence of a key repeated below the deepest map: a map takes
/// one level; a sequence holds leaves and takes one level, or, where no
/// level is left, holds two values at least, the first a string, as a key
/// repeated there makes it; a leaf takes none.
pub open spec fn within(v: ValueV, b: int) -> bool
    decreases v,
{
    match v {
        ValueV::Mapping(es) => b >= 1 && forall|i: int| 0 <= i < es.len() ==> within(#[trigger] es[i].1, b - 1),
        ValueV::Sequence(vs) => (forall|i: int| 0 <= i < vs.len() ==> is_leaf(#[trigger] vs[i])) && (b < 1 ==> vs.len()
            >= 2 && vs[0] is Str),
        ValueV::Uninitialized => false,
        _ => true,
    }
}

/// Whether a parsed value nests at most `b` maps and sequences deep: each
/// map or sequence on the way down to a leaf takes one level.
pub open spec fn levels_within(v: ValueV, b: int) -> bool
    decreases v,
{
    match v {
        ValueV::Mapping(es) => b >= 1 && forall|i: int| 0 <= i < es.len() ==> levels_within(#[trigger] es[i].1, b - 1),
        ValueV::Sequence(vs) => b >= 1 && forall|i: int| 0 <= i < vs.len() ==> levels_within(#[trigger] vs[i], b - 1),
        _ => true,
    }
}

/// Sequences hold only leaves, so counting them adds one level at most.
proof fn lemma_levels(v: ValueV, b: int)
    requires
        b >= 0,
        within(v, b),
    ensures
        levels_within(v, b + 1),
    decreases v,
{
    match v {
        ValueV::Mapping(es) => {
            assert forall|i: int| 0 <= i < es.len() implies levels_within(#[trigger] es[i].1, b) by {
                lemma_levels(es[i].1, b - 1);
            }
        },
        ValueV::Sequence(vs) => {
            assert forall|i: int| 0 <= i < vs.len() implies levels_within(#[trigger] vs[i], b) by {
                assert(is_leaf(vs[i]));
            }
        },
        _ => {},
    }
}

/// Every value of the entries nests at most `b` maps deep.
pub open spec fn entries_within(m: Seq<(KeyV, ValueV)>, b: int) -> bool {
    forall|l: int| 0 <= l < m.len() ==> within(#[trigger] m[l].1, b)
}

/// The deepest nesting that parsing builds under `cfg`: none when
/// `max_depth` is 0, else `max_depth + 1` maps below the top level.
pub open spec fn depth_bound(cfg: Config) -> int {
    if cfg.max_depth == 0 {
        0
    } else {
        cfg.max_depth + 1
    }
}

proof fn lemma_value_of_within(x: Seq<u8>, b: int)
    ensures
        within(value_of(x), b),
{
}

/// Adding a leaf to a map, or to the sequence of a repeated key, keeps
/// its entries within the bound.
proof fn lemma_insert_within(m: Seq<(KeyV, ValueV)>, k: KeyV, v: ValueV, b: int)
    requires
        entries_within(m, b),
        is_leaf(v),
    ensures
        sp_insert(m, k, v) matches Ok(m2) ==> entries_within(m2, b),
{
    match find_key(m, k) {
        None => {
            let pos = insert_pos(m, k);
            lemma_insert_pos_range(m, k);
            let m2 = m.insert(pos, (k, v));
            assert forall|l: int| 0 <= l < m2.len() implies within(#[trigger] m2[l].1, b) by {
                if l < pos {
                    assert(m2[l] == m[l]);
                } else if l > pos {
                    assert(m2[l] == m[l - 1]);
                }
            }
        },
        Some(j) => {
            lemma_find_key_range(m, k);
            assert(within(m[j].1, b));
            match m[j].1 {
                ValueV::Sequence(vs) => {
                    let nv = ValueV::Sequence(vs.push(v));
                    assert(within(nv, b)) by {
                        assert forall|i: int| 0 <= i < vs.push(v).len() implies is_leaf(#[trigger] vs.push(v)[i]) by {
                            if i < vs.len() {
                                assert(vs.push(v)[i] == vs[i]);
                            }
                        }
                    }
                    let m2 = m.update(j, (k, nv));
                    assert forall|l: int| 0 <= l < m2.len() implies within(#[trigger] m2[l].1, b) by {
                        if l != j {
                            assert(m2[l] == m[l]);
                        }
                    }
                },
                ValueV::Str(x) => {
                    let two = seq![ValueV::Str(x), v];
                    let nv = ValueV::Sequence(two);
                    assert(within(nv, b)) by {
                        assert forall|i: int| 0 <= i < 2 implies is_leaf(#[trigger] two[i]) by {
                            if i == 0 {
                                assert(two[0] == ValueV::Str(x));
                            } else {
                                assert(two[1] == v);
                            }
                        }
                    }
                    let m2 = m.update(j, (k, nv));
                    assert forall|l: int| 0 <= l < m2.len() implies within(#[trigger] m2[l].1, b) by {
                        if l != j {
                            assert(m2[l] == m[l]);
                        }
                    }
                },
                _ => {},
            }
        },
    }
}

proof fn lemma_finish_within(s: Seq<u8>, m: Seq<(KeyV, ValueV)>, k: KeyV, t: int, form: bool, b: int)
    requires
        entries_within(m, b),
    ensures
        sp_finish_entry(s, m, k, t, form) matches Ok((m2, _)) ==> entries_within(m2, b),
{
    if t < s.len() && tok_byte(s, t, form) == 0x3d {
        let e = scan(s, t + 1, form, Stop::Amp);
        lemma_value_of_within(s.subrange(t + 1, e), b);
        lemma_insert_within(m, k, value_of(s.subrange(t + 1, e)), b);
    } else {
        lemma_insert_within(m, k, ValueV::NoValue, b);
    }
}

proof fn lemma_set_within(m: Seq<(KeyV, ValueV)>, k: KeyV, v: ValueV, b: int)
    requires
        entries_within(m, b),
        within(v, b),
    ensures
        entries_within(map_set(m, k, v), b),
{
    match find_key(m, k) {
        None => {
            let pos = insert_pos(m, k);
            lemma_insert_pos_range(m, k);
            let m2 = m.insert(pos, (k, v));
            assert forall|l: int| 0 <= l < m2.len() implies within(#[trigger] m2[l].1, b) by {
                if l < pos {
                    assert(m2[l] == m[l]);
                } else if l > pos {
                    assert(m2[l] == m[l - 1]);
                }
            }
        },
        Some(j) => {
            lemma_find_key_range(m, k);
            let m2 = m.update(j, (k, v));
            assert forall|l: int| 0 <= l < m2.len() implies within(#[trigger] m2[l].1, b) by {
                if l != j {
                    assert(m2[l] == m[l]);
                }
            }
        },
    }
}

proof fn lemma_get_within(m: Seq<(KeyV, ValueV)>, k: KeyV, b: int)
    requires
        entries_within(m, b),
    ensures
        within(get_or_uninit(m, k), b) || get_or_uninit(m, k) is Uninitialized,
{
    lemma_find_key_range(m, k);
    if let Some(j) = find_key(m, k) {
        assert(within(m[j].1, b));
    }
}

proof fn lemma_seq_value_within(s: Seq<u8>, i: int, vs: Seq<ValueV>, form: bool, b: int)
    requires
        b >= 1,
        within(ValueV::Sequence(vs), b),
    ensures
        sp_seq_value(s, i, vs, form) matches Ok((vs2, _)) ==> within(ValueV::Sequence(vs2), b),
{
    let sv = ValueV::Sequence(vs);
    assert(sv->Sequence_0 == vs);
    assert(forall|k: int| 0 <= k < vs.len() ==> is_leaf(#[trigger] vs[k]));
    if let Ok((vs2, _)) = sp_seq_value(s, i, vs, form) {
        let x = if i < s.len() && tok_byte(s, i, form) == 0x3d {
            value_of(s.subrange(i + 1, scan(s, i + 1, form, Stop::Amp)))
        } else {
            ValueV::NoValue
        };
        assert(vs2 == vs.push(x));
        assert(is_leaf(x));
        assert forall|k: int| 0 <= k < vs2.len() implies is_leaf(#[trigger] vs2[k]) by {
            if k < vs.len() {
                assert(vs2[k] == vs[k]);
                assert(is_leaf(vs[k]));
            } else {
                assert(vs2[k] == x);
            }
        }
    }
}

/// A nested key at `depth` builds a value within what is left of the bound.
proof fn lemma_nested_within(
    s: Seq<u8>,
    i: int,
    kstart: int,
    node: ValueV,
    depth: nat,
    parent: KeyV,
    cfg: Config,
)
    requires
        depth <= cfg.max_depth,
        within(node, cfg.max_depth + 1 - depth) || node is Uninitialized,
    ensures
        sp_nested(s, i, kstart, node, depth, parent, cfg) matches Ok((v, _)) ==> within(v, cfg.max_depth + 1 - depth),
    decreases s.len() - i,
{
    let form = cfg.use_form_encoding;
    let b = cfg.max_depth + 1 - depth;
    if 0 <= i < s.len() {
        let i1 = i + tok_width(s, i, form);
        if tok_byte(s, i, form) == 0x5d {
            match node {
                ValueV::Sequence(vs) => {
                    lemma_seq_value_within(s, i1, vs, form, b);
                },
                ValueV::Uninitialized => {
                    lemma_seq_value_within(s, i1, seq![], form, b);
                },
                _ => {},
            }
        } else {
            match node {
                ValueV::Mapping(_) | ValueV::Uninitialized => {
                    let m = match node {
                        ValueV::Mapping(mm) => mm,
                        _ => Seq::empty(),
                    };
                    assert(entries_within(m, b - 1));
                    if depth >= cfg.max_depth {
                        let t = scan(s, i1, form, Stop::Flat);
                        lemma_finish_within(s, m, crate::parse::key_of(s.subrange(kstart, t)), t, form, b - 1);
                    } else {
                        let t = scan(s, i1, form, Stop::Close);
                        if t < s.len() {
                            let seg = crate::parse::key_of(s.subrange(i, t));
                            let j = t + tok_width(s, t, form);
                            if j < s.len() && tok_byte(s, j, form) == 0x5b {
                                lemma_scan(s, i1, form, Stop::Close);
                                lemma_get_within(m, seg, b - 1);
                                lemma_nested_within(
                                    s,
                                    j + tok_width(s, j, form),
                                    j,
                                    get_or_uninit(m, seg),
                                    depth + 1,
                                    seg,
                                    cfg,
                                );
                                if let Ok((v, _)) = sp_nested(
                                    s,
                                    j + tok_width(s, j, form),
                                    j,
                                    get_or_uninit(m, seg),
                                    depth + 1,
                                    seg,
                                    cfg,
                                ) {
                                    lemma_set_within(m, seg, v, b - 1);
                                }
                            } else {
                                lemma_finish_within(s, m, seg, j, form, b - 1);
                            }
                        }
                    }
                },
                _ => {},
            }
        }
    }
}

/// The top level keeps every entry within the bound.
proof fn lemma_root_within(s: Seq<u8>, i: int, m: Seq<(KeyV, ValueV)>, cfg: Config)
    requires
        entries_within(m, depth_bound(cfg)),
    ensures
        sp_root(s, i, m, cfg) matches Ok(r) ==> entries_within(r, depth_bound(cfg)),
    decreases s.len() + 1 - i,
{
    let form = cfg.use_form_encoding;
    let bound = depth_bound(cfg);
    if 0 <= i < s.len() {
        let stop = if cfg.max_depth == 0 {
            Stop::Flat
        } else {
            Stop::Root
        };
        let t = scan(s, i, form, stop);
        lemma_scan(s, i, form, stop);
        let key = if t == i {
            KeyV::Str(Seq::empty())
        } else {
            crate::parse::key_of(s.subrange(i, t))
        };
        if t < s.len() && tok_byte(s, t, form) == 0x5b {
            assert(cfg.max_depth > 0);
            let w = tok_width(s, t, form);
            lemma_get_within(m, key, bound);
            lemma_nested_within(s, t + w, t + w, get_or_uninit(m, key), 0, key, cfg);
            lemma_nested_pos(s, t + w, t + w, get_or_uninit(m, key), 0, key, cfg);
            if let Ok((v, p)) = sp_nested(s, t + w, t + w, get_or_uninit(m, key), 0, key, cfg) {
                lemma_set_within(m, key, v, bound);
                lemma_root_within(s, p, map_set(m, key, v), cfg);
            }
        } else if t == i && t < s.len() && tok_byte(s, t, form) == 0x26 {
            lemma_root_within(s, t + 1, m, cfg);
        } else {
            lemma_finish_within(s, m, key, t, form, bound);
            lemma_finish_pos(s, m, key, t, form);
            if let Ok((m2, p)) = sp_finish_entry(s, m, key, t, form) {
                lemma_root_within(s, p, m2, cfg);
            }
        }
    }
}

/// Parsing nests no deeper than `max_depth` allows: with a `max_depth` of
/// 0 no value is a map (flat pairs only), and otherwise maps and sequences
/// nest at most `max_depth + 1` levels deep, the rest of a deeper key
/// staying one flat key (`entries_within`). The one value deeper than that
/// is the sequence of a key repeated below the deepest map (`a=1&a=2` with
/// a `max_depth` of 0, `a[b][c]=1&a[b][c]=2` with a `max_depth` of 1): it
/// holds leaves, two at least, the first a string. So with a `max_depth`
/// of 0 every value is a leaf or such a sequence, and counting every map
/// and sequence, values nest at most one level more.
pub proof fn lemma_parse_depth(s: Seq<u8>, cfg: Config)
    ensures
        spec_parse(s, cfg) matches Ok(m) ==> entries_within(m, depth_bound(cfg)),
        spec_parse(s, cfg) matches Ok(m) ==> forall|l: int|
            0 <= l < m.len() ==> levels_within(#[trigger] m[l].1, depth_bound(cfg) + 1),
        spec_parse(s, cfg) matches Ok(m) ==> (cfg.max_depth == 0 ==> forall|l: int|
            0 <= l < m.len() ==> is_leaf(#[trigger] m[l].1) || (m[l].1 matches ValueV::Sequence(vs) && vs.len() >= 2
                && vs[0] is Str && forall|i: int| 0 <= i < vs.len() ==> is_leaf(#[trigger] vs[i]))),
{
    lemma_root_within(s, 0, Seq::empty(), cfg);
    if let Ok(m) = spec_parse(s, cfg) {
        assert forall|l: int| 0 <= l < m.len() implies levels_within(#[trigger] m[l].1, depth_bound(cfg) + 1) by {
            lemma_levels(m[l].1, depth_bound(cfg));
        }
        if cfg.max_depth == 0 {
            assert forall|l: int| 0 <= l < m.len() implies is_leaf(#[trigger] m[l].1) || (m[l].1 matches ValueV::Sequence(
                vs,
            ) && vs.len() >= 2 && vs[0] is Str && forall|i: int| 0 <= i < vs.len() ==> is_leaf(#[trigger] vs[i])) by {
                assert(within(m[l].1, 0));
            }
        }
    }
}

} // verus!
