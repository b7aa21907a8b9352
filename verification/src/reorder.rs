use vstd::prelude::*;
use crate::order::{entries_ordered, lemma_get_ordered, lemma_key_lt_order, lemma_set_ordered, ordered, sorted};
use crate::tree::{apart, child_map, is_prefix, lemma_find_set};
use crate::value::{
    find_key, get_or_uninit, insert_pos, key_lt, lemma_find_key_range, lemma_insert_pos_range, map_set, KeyV, ValueV,
};

verus! {

/// The elements of a sequence value; none for anything else.
pub open spec fn seq_elems(v: ValueV) -> Seq<ValueV> {
    match v {
        ValueV::Sequence(vs) => vs,
        _ => Seq::empty(),
    }
}

/// A path of keys that ends in an empty key after another (`k[]`): an
/// element of the sequence at the path before it.
pub open spec fn is_element(ks: Seq<KeyV>) -> bool {
    ks.len() >= 2 && ks.last() == KeyV::Str(Seq::empty())
}

/// The keys that name where an entry goes: the path, or for an element the
/// path of its sequence.
pub open spec fn key_path(ks: Seq<KeyV>) -> Seq<KeyV> {
    if is_element(ks) {
        ks.drop_last()
    } else {
        ks
    }
}

/// `m` with the entry `v` at path `ks` added: the maps along the path are
/// kept or made, an element is appended to its sequence, and any other
/// value is set at the last key.
pub open spec fn put_entry(m: Seq<(KeyV, ValueV)>, ks: Seq<KeyV>, v: ValueV) -> Seq<(KeyV, ValueV)>
    decreases ks.len(),
{
    if ks.len() == 0 {
        m
    } else if ks.len() == 1 {
        map_set(m, ks[0], v)
    } else if ks.len() == 2 && ks[1] == KeyV::Str(Seq::empty()) {
        map_set(m, ks[0], ValueV::Sequence(seq_elems(get_or_uninit(m, ks[0])).push(v)))
    } else {
        map_set(m, ks[0], ValueV::Mapping(put_entry(child_map(get_or_uninit(m, ks[0])), ks.drop_first(), v)))
    }
}

/// The entries put one after another.
pub open spec fn put_entries(m: Seq<(KeyV, ValueV)>, es: Seq<(Seq<KeyV>, ValueV)>) -> Seq<(KeyV, ValueV)>
    decreases es.len(),
{
    if es.len() == 0 {
        m
    } else {
        put_entries(put_entry(m, es[0].0, es[0].1), es.drop_first())
    }
}

/// Two entries that may come in either order: their key paths are apart.
pub open spec fn independent(a: Seq<KeyV>, b: Seq<KeyV>) -> bool {
    apart(key_path(a), key_path(b))
}

/// Any two entries either may come in either order, or are elements of
/// the same sequence.
pub open spec fn compatible(es: Seq<(Seq<KeyV>, ValueV)>) -> bool {
    forall|i: int, j: int|
        0 <= i < j < es.len() ==> independent((#[trigger] es[i]).0, (#[trigger] es[j]).0) || (is_element(es[i].0)
            && es[i].0 == es[j].0)
}

/// `qs` holds the entries of `ps` in another order, where entries with the
/// same path keep their order: the first of `ps` is the first entry of
/// `qs` with its path, and the rest of `ps` is so reordered in the rest of
/// `qs`.
pub open spec fn reorders(ps: Seq<(Seq<KeyV>, ValueV)>, qs: Seq<(Seq<KeyV>, ValueV)>) -> bool
    decreases ps.len(),
{
    if ps.len() == 0 {
        qs.len() == 0
    } else {
        exists|i: int|
            0 <= i < qs.len() && qs[i] == ps[0] && (forall|j: int| 0 <= j < i ==> (#[trigger] qs[j]).0 != ps[0].0)
                && reorders(ps.drop_first(), qs.remove(i))
    }
}

/// The values are leaves or maps and sequences of them in order.
pub open spec fn values_ordered(es: Seq<(Seq<KeyV>, ValueV)>) -> bool {
    forall|i: int| 0 <= i < es.len() ==> ordered(#[trigger] es[i].1)
}

/// Two sorted maps holding the same entries are the same.
proof fn lemma_sorted_ext(a: Seq<(KeyV, ValueV)>, b: Seq<(KeyV, ValueV)>)
    requires
        sorted(a),
        sorted(b),
        forall|x: (KeyV, ValueV)| a.contains(x) <==> b.contains(x),
    ensures
        a == b,
    decreases a.len() + b.len(),
{
    if a.len() == 0 {
        if b.len() > 0 {
            assert(b.contains(b[0]));
        }
        assert(a =~= b);
    } else if b.len() == 0 {
        assert(a.contains(a[0]));
    } else {
        assert(a.contains(a[0]));
        let j = choose|j: int| 0 <= j < b.len() && b[j] == a[0];
        assert(b.contains(b[0]));
        let i = choose|i: int| 0 <= i < a.len() && a[i] == b[0];
        if j != 0 {
            assert(key_lt(b[0].0, b[j].0));
            if i != 0 {
                assert(key_lt(a[0].0, a[i].0));
                lemma_key_lt_order(a[0].0, b[0].0, a[0].0);
            }
            lemma_key_lt_order(b[0].0, b[0].0, b[0].0);
        }
        assert(a[0] == b[0]);
        let a2 = a.drop_first();
        let b2 = b.drop_first();
        assert forall|x: (KeyV, ValueV)| a2.contains(x) <==> b2.contains(x) by {
            if a2.contains(x) {
                let p = choose|p: int| 0 <= p < a2.len() && a2[p] == x;
                assert(a[p + 1] == x);
                assert(key_lt(a[0].0, a[p + 1].0));
                assert(b.contains(x));
                let q = choose|q: int| 0 <= q < b.len() && b[q] == x;
                if q == 0 {
                    lemma_key_lt_order(a[0].0, a[0].0, a[0].0);
                }
                assert(b2[q - 1] == x);
            }
            if b2.contains(x) {
                let p = choose|p: int| 0 <= p < b2.len() && b2[p] == x;
                assert(b[p + 1] == x);
                assert(key_lt(b[0].0, b[p + 1].0));
                assert(a.contains(x));
                let q = choose|q: int| 0 <= q < a.len() && a[q] == x;
                if q == 0 {
                    lemma_key_lt_order(b[0].0, b[0].0, b[0].0);
                }
                assert(a2[q - 1] == x);
            }
        }
        assert forall|p: int, q: int| 0 <= p < q < a2.len() implies key_lt(#[trigger] a2[p].0, #[trigger] a2[q].0) by {
            assert(a2[p] == a[p + 1] && a2[q] == a[q + 1]);
        }
        assert forall|p: int, q: int| 0 <= p < q < b2.len() implies key_lt(#[trigger] b2[p].0, #[trigger] b2[q].0) by {
            assert(b2[p] == b[p + 1] && b2[q] == b[q + 1]);
        }
        lemma_sorted_ext(a2, b2);
        assert forall|x: int| 0 <= x < a.len() implies a[x] == b[x] by {
            if x > 0 {
                assert(a[x] == a2[x - 1]);
                assert(b[x] == b2[x - 1]);
            }
        }
        assert(a =~= b);
    }
}

/// The entries of a sorted map after `map_set`: the one set, and those of
/// other keys.
proof fn lemma_set_contains(m: Seq<(KeyV, ValueV)>, k: KeyV, x: ValueV)
    requires
        sorted(m),
    ensures
        forall|e: (KeyV, ValueV)|
            #[trigger] map_set(m, k, x).contains(e) <==> (e == (k, x) || (e.0 != k && m.contains(e))),
{
    lemma_find_key_range(m, k);
    let m2 = map_set(m, k, x);
    match find_key(m, k) {
        Some(j) => {
            assert forall|e: (KeyV, ValueV)| #[trigger] m2.contains(e) <==> (e == (k, x) || (e.0 != k && m.contains(e))) by {
                if m2.contains(e) {
                    let i = choose|i: int| 0 <= i < m2.len() && m2[i] == e;
                    if i != j {
                        assert(m[i] == e);
                        if e.0 == k {
                            if i < j {
                                assert(key_lt(m[i].0, m[j].0));
                            } else {
                                assert(key_lt(m[j].0, m[i].0));
                            }
                            lemma_key_lt_order(k, k, k);
                        }
                    }
                }
                if e == (k, x) {
                    assert(m2[j] == e);
                } else if e.0 != k && m.contains(e) {
                    let i = choose|i: int| 0 <= i < m.len() && m[i] == e;
                    assert(i != j);
                    assert(m2[i] == e);
                }
            }
        },
        None => {
            let p = insert_pos(m, k);
            lemma_insert_pos_range(m, k);
            assert forall|e: (KeyV, ValueV)| #[trigger] m2.contains(e) <==> (e == (k, x) || (e.0 != k && m.contains(e))) by {
                if m2.contains(e) {
                    let i = choose|i: int| 0 <= i < m2.len() && m2[i] == e;
                    if i < p {
                        assert(m[i] == e);
                    } else if i > p {
                        assert(m[i - 1] == e);
                    }
                }
                if e == (k, x) {
                    assert(m2[p] == e);
                } else if e.0 != k && m.contains(e) {
                    let i = choose|i: int| 0 <= i < m.len() && m[i] == e;
                    if i < p {
                        assert(m2[i] == e);
                    } else {
                        assert(m2[i + 1] == e);
                    }
                }
            }
        },
    }
}

/// Setting two different keys, in either order, gives the same map.
proof fn lemma_set_swap(m: Seq<(KeyV, ValueV)>, k1: KeyV, x1: ValueV, k2: KeyV, x2: ValueV)
    requires
        entries_ordered(m),
        ordered(x1),
        ordered(x2),
        k1 != k2,
    ensures
        map_set(map_set(m, k1, x1), k2, x2) == map_set(map_set(m, k2, x2), k1, x1),
{
    lemma_set_ordered(m, k1, x1);
    lemma_set_ordered(m, k2, x2);
    lemma_set_ordered(map_set(m, k1, x1), k2, x2);
    lemma_set_ordered(map_set(m, k2, x2), k1, x1);
    lemma_set_contains(m, k1, x1);
    lemma_set_contains(m, k2, x2);
    lemma_set_contains(map_set(m, k1, x1), k2, x2);
    lemma_set_contains(map_set(m, k2, x2), k1, x1);
    lemma_sorted_ext(map_set(map_set(m, k1, x1), k2, x2), map_set(map_set(m, k2, x2), k1, x1));
}

/// Setting a key twice keeps the second value.
proof fn lemma_set_twice(m: Seq<(KeyV, ValueV)>, k: KeyV, x1: ValueV, x2: ValueV)
    requires
        entries_ordered(m),
        ordered(x1),
        ordered(x2),
    ensures
        map_set(map_set(m, k, x1), k, x2) == map_set(m, k, x2),
{
    lemma_set_ordered(m, k, x1);
    lemma_set_ordered(m, k, x2);
    lemma_set_ordered(map_set(m, k, x1), k, x2);
    lemma_set_contains(m, k, x1);
    lemma_set_contains(m, k, x2);
    lemma_set_contains(map_set(m, k, x1), k, x2);
    lemma_sorted_ext(map_set(map_set(m, k, x1), k, x2), map_set(m, k, x2));
}

/// Putting an entry keeps the map ordered, and leaves every key off its
/// path as it was.
pub proof fn lemma_put_entry(m: Seq<(KeyV, ValueV)>, ks: Seq<KeyV>, v: ValueV)
    requires
        entries_ordered(m),
        ordered(v),
    ensures
        entries_ordered(put_entry(m, ks, v)),
        ks.len() > 0 ==> forall|k: KeyV| k != ks[0] ==> get_or_uninit(put_entry(m, ks, v), k) == get_or_uninit(m, k),
    decreases ks.len(),
{
    if ks.len() > 0 {
        lemma_get_ordered(m, ks[0]);
        let node = get_or_uninit(m, ks[0]);
        let x = if ks.len() == 1 {
            v
        } else if ks.len() == 2 && ks[1] == KeyV::Str(Seq::empty()) {
            ValueV::Sequence(seq_elems(node).push(v))
        } else {
            ValueV::Mapping(put_entry(child_map(node), ks.drop_first(), v))
        };
        if ks.len() == 2 && ks[1] == KeyV::Str(Seq::empty()) {
            let vs = seq_elems(node);
            assert forall|i: int| 0 <= i < vs.push(v).len() implies ordered(#[trigger] vs.push(v)[i]) by {
                if i < vs.len() {
                    assert(vs.push(v)[i] == vs[i]);
                    assert(ordered(node));
                }
            }
        } else if ks.len() > 1 {
            assert(entries_ordered(child_map(node))) by {
                assert(ordered(node));
            }
            lemma_put_entry(child_map(node), ks.drop_first(), v);
        }
        assert(ordered(x));
        lemma_set_ordered(m, ks[0], x);
        assert forall|k: KeyV| k != ks[0] implies get_or_uninit(put_entry(m, ks, v), k) == get_or_uninit(m, k) by {
            lemma_find_set(m, ks[0], x, k);
        }
    }
}

/// Two entries whose key paths are apart can be put in either order.
pub proof fn lemma_put_swap(m: Seq<(KeyV, ValueV)>, a: Seq<KeyV>, x: ValueV, b: Seq<KeyV>, y: ValueV)
    requires
        entries_ordered(m),
        ordered(x),
        ordered(y),
        a.len() >= 1,
        b.len() >= 1,
        independent(a, b),
    ensures
        put_entry(put_entry(m, a, x), b, y) == put_entry(put_entry(m, b, y), a, x),
    decreases a.len(),
{
    lemma_put_entry(m, a, x);
    lemma_put_entry(m, b, y);
    if a[0] != b[0] {
        let na = get_or_uninit(m, a[0]);
        let nb = get_or_uninit(m, b[0]);
        let xa = if a.len() == 1 {
            x
        } else if a.len() == 2 && a[1] == KeyV::Str(Seq::empty()) {
            ValueV::Sequence(seq_elems(na).push(x))
        } else {
            ValueV::Mapping(put_entry(child_map(na), a.drop_first(), x))
        };
        let yb = if b.len() == 1 {
            y
        } else if b.len() == 2 && b[1] == KeyV::Str(Seq::empty()) {
            ValueV::Sequence(seq_elems(nb).push(y))
        } else {
            ValueV::Mapping(put_entry(child_map(nb), b.drop_first(), y))
        };
        assert(put_entry(m, a, x) == map_set(m, a[0], xa));
        assert(put_entry(m, b, y) == map_set(m, b[0], yb));
        lemma_find_set(m, a[0], xa, b[0]);
        lemma_find_set(m, b[0], yb, a[0]);
        assert(ordered(xa)) by {
            assert(entries_ordered(put_entry(m, a, x)));
            lemma_find_set(m, a[0], xa, a[0]);
            lemma_get_ordered(put_entry(m, a, x), a[0]);
        }
        assert(ordered(yb)) by {
            assert(entries_ordered(put_entry(m, b, y)));
            lemma_find_set(m, b[0], yb, b[0]);
            lemma_get_ordered(put_entry(m, b, y), b[0]);
        }
        lemma_set_swap(m, a[0], xa, b[0], yb);
    } else {
        let k = a[0];
        let e = KeyV::Str(Seq::<u8>::empty());
        // neither is a one-key path or an element of the sequence at `k`:
        // its key path would start the other's
        assert(a.len() >= 2 && b.len() >= 2 && !(a.len() == 2 && a[1] == e) && !(b.len() == 2 && b[1] == e)) by {
            if a.len() == 1 || (a.len() == 2 && a[1] == e) {
                assert(key_path(a) =~= seq![k]);
                assert(key_path(b).len() >= 1 && key_path(b)[0] == k);
                assert(key_path(b).subrange(0, 1) =~= seq![k]);
                assert(is_prefix(key_path(a), key_path(b)));
            }
            if b.len() == 1 || (b.len() == 2 && b[1] == e) {
                assert(key_path(b) =~= seq![k]);
                assert(key_path(a).len() >= 1 && key_path(a)[0] == k);
                assert(key_path(a).subrange(0, 1) =~= seq![k]);
                assert(is_prefix(key_path(b), key_path(a)));
            }
        }
        let ra = a.drop_first();
        let rb = b.drop_first();
        assert(independent(ra, rb)) by {
            assert(is_element(ra) == is_element(a));
            assert(is_element(rb) == is_element(b));
            assert(key_path(ra) =~= key_path(a).drop_first());
            assert(key_path(rb) =~= key_path(b).drop_first());
            if is_prefix(key_path(ra), key_path(rb)) {
                assert(key_path(a) =~= seq![k] + key_path(ra));
                assert(key_path(b) =~= seq![k] + key_path(rb));
                assert(key_path(b).subrange(0, key_path(a).len() as int) =~= seq![k] + key_path(rb).subrange(
                    0,
                    key_path(ra).len() as int,
                ));
            }
            if is_prefix(key_path(rb), key_path(ra)) {
                assert(key_path(a) =~= seq![k] + key_path(ra));
                assert(key_path(b) =~= seq![k] + key_path(rb));
                assert(key_path(a).subrange(0, key_path(b).len() as int) =~= seq![k] + key_path(ra).subrange(
                    0,
                    key_path(rb).len() as int,
                ));
            }
        }
        let node = get_or_uninit(m, k);
        lemma_get_ordered(m, k);
        let c = child_map(node);
        assert(entries_ordered(c)) by {
            assert(ordered(node));
        }
        lemma_put_entry(c, ra, x);
        lemma_put_entry(c, rb, y);
        lemma_put_swap(c, ra, x, rb, y);
        let ca = put_entry(c, ra, x);
        let cb = put_entry(c, rb, y);
        let ma = put_entry(m, a, x);
        let mb = put_entry(m, b, y);
        assert(ma == map_set(m, k, ValueV::Mapping(ca)));
        assert(mb == map_set(m, k, ValueV::Mapping(cb)));
        lemma_find_set(m, k, ValueV::Mapping(ca), k);
        lemma_find_set(m, k, ValueV::Mapping(cb), k);
        assert(child_map(get_or_uninit(ma, k)) == ca);
        assert(child_map(get_or_uninit(mb, k)) == cb);
        let cab = put_entry(ca, rb, y);
        let cba = put_entry(cb, ra, x);
        assert(cab == cba);
        lemma_put_entry(ca, rb, y);
        assert(put_entry(ma, b, y) == map_set(ma, k, ValueV::Mapping(cab)));
        assert(put_entry(mb, a, x) == map_set(mb, k, ValueV::Mapping(cba)));
        lemma_set_twice(m, k, ValueV::Mapping(ca), ValueV::Mapping(cab));
        lemma_put_entry(cb, ra, x);
        lemma_set_twice(m, k, ValueV::Mapping(cb), ValueV::Mapping(cba));
    }
}

/// Every path holds a key at least.
pub open spec fn paths_nonempty(es: Seq<(Seq<KeyV>, ValueV)>) -> bool {
    forall|i: int| 0 <= i < es.len() ==> (#[trigger] es[i]).0.len() >= 1
}

proof fn lemma_put_entries_ordered(m: Seq<(KeyV, ValueV)>, es: Seq<(Seq<KeyV>, ValueV)>)
    requires
        entries_ordered(m),
        values_ordered(es),
    ensures
        entries_ordered(put_entries(m, es)),
    decreases es.len(),
{
    if es.len() > 0 {
        lemma_put_entry(m, es[0].0, es[0].1);
        assert(values_ordered(es.drop_first())) by {
            assert forall|i: int| 0 <= i < es.drop_first().len() implies ordered(#[trigger] es.drop_first()[i].1) by {
                assert(es.drop_first()[i] == es[i + 1]);
            }
        }
        lemma_put_entries_ordered(put_entry(m, es[0].0, es[0].1), es.drop_first());
    }
}

/// An entry independent of every entry before it can be put first.
proof fn lemma_move_front(m: Seq<(KeyV, ValueV)>, es: Seq<(Seq<KeyV>, ValueV)>, i: int)
    requires
        entries_ordered(m),
        values_ordered(es),
        paths_nonempty(es),
        0 <= i < es.len(),
        forall|j: int| 0 <= j < i ==> independent((#[trigger] es[j]).0, es[i].0),
    ensures
        put_entries(m, es) == put_entries(m, seq![es[i]] + es.remove(i)),
    decreases i,
{
    let x = es[i];
    let moved = seq![x] + es.remove(i);
    assert(moved[0] == x);
    assert(moved.drop_first() =~= es.remove(i));
    if i == 0 {
        assert(moved =~= es);
    } else {
        let t = es.drop_first();
        let e0 = es[0];
        assert(values_ordered(t) && paths_nonempty(t)) by {
            assert forall|l: int| 0 <= l < t.len() implies ordered(#[trigger] t[l].1) && (#[trigger] t[l]).0.len() >= 1 by {
                assert(t[l] == es[l + 1]);
            }
        }
        assert(t[i - 1] == x);
        assert forall|j: int| 0 <= j < i - 1 implies independent((#[trigger] t[j]).0, t[i - 1].0) by {
            assert(t[j] == es[j + 1]);
        }
        let m1 = put_entry(m, e0.0, e0.1);
        lemma_put_entry(m, e0.0, e0.1);
        lemma_move_front(m1, t, i - 1);
        // put_entries(m, es) == put_entries(m1, t) == put_entries(m1, [x] + t.remove(i - 1))
        let rest = t.remove(i - 1);
        let m12 = put_entry(m1, x.0, x.1);
        assert((seq![x] + rest)[0] == x);
        assert((seq![x] + rest).drop_first() =~= rest);
        assert(put_entries(m1, seq![x] + rest) == put_entries(m12, rest));
        // swap the two first puts
        assert(ordered(x.1) && ordered(e0.1));
        assert(independent(e0.0, x.0));
        lemma_put_swap(m, e0.0, e0.1, x.0, x.1);
        let m2 = put_entry(m, x.0, x.1);
        assert(m12 == put_entry(m2, e0.0, e0.1));
        // put_entries(m2, [e0] + rest) == put_entries(m, moved)
        let tail = seq![e0] + rest;
        assert(tail[0] == e0);
        assert(tail.drop_first() =~= rest);
        assert(put_entries(m2, tail) == put_entries(m12, rest));
        assert(es.remove(i) =~= tail);
        assert(put_entries(m, moved) == put_entries(m2, es.remove(i)));
    }
}

/// Entries put in an order that `reorders` allows give the same map.
pub proof fn lemma_reorder(m: Seq<(KeyV, ValueV)>, ps: Seq<(Seq<KeyV>, ValueV)>, qs: Seq<(Seq<KeyV>, ValueV)>)
    requires
        entries_ordered(m),
        values_ordered(ps),
        values_ordered(qs),
        paths_nonempty(qs),
        compatible(qs),
        reorders(ps, qs),
    ensures
        put_entries(m, ps) == put_entries(m, qs),
    decreases ps.len(),
{
    if ps.len() > 0 {
        let i = choose|i: int|
            0 <= i < qs.len() && qs[i] == ps[0] && (forall|j: int| 0 <= j < i ==> (#[trigger] qs[j]).0 != ps[0].0)
                && reorders(ps.drop_first(), qs.remove(i));
        assert forall|j: int| 0 <= j < i implies independent((#[trigger] qs[j]).0, qs[i].0) by {
            assert(qs[j].0 != ps[0].0);
        }
        lemma_move_front(m, qs, i);
        let x = qs[i];
        let r = qs.remove(i);
        let moved = seq![x] + r;
        assert(moved[0] == x);
        assert(moved.drop_first() =~= r);
        let m1 = put_entry(m, x.0, x.1);
        lemma_put_entry(m, x.0, x.1);
        assert(values_ordered(r) && paths_nonempty(r)) by {
            assert forall|l: int| 0 <= l < r.len() implies ordered(#[trigger] r[l].1) && (#[trigger] r[l]).0.len() >= 1 by {
                if l < i {
                    assert(r[l] == qs[l]);
                } else {
                    assert(r[l] == qs[l + 1]);
                }
            }
        }
        assert(compatible(r)) by {
            assert forall|a: int, b: int| 0 <= a < b < r.len() implies independent((#[trigger] r[a]).0, (#[trigger] r[b]).0)
                || (is_element(r[a].0) && r[a].0 == r[b].0) by {
                let a2 = if a < i { a } else { a + 1 };
                let b2 = if b < i { b } else { b + 1 };
                assert(r[a] == qs[a2] && r[b] == qs[b2]);
            }
        }
        let p2 = ps.drop_first();
        assert(values_ordered(p2)) by {
            assert forall|l: int| 0 <= l < p2.len() implies ordered(#[trigger] p2[l].1) by {
                assert(p2[l] == ps[l + 1]);
            }
        }
        lemma_reorder(m1, p2, r);
        assert(ps[0] == x);
    }
}

} // verus!
