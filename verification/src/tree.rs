use vstd::prelude::*;
use crate::value::{
    find_key, get_or_uninit, insert_pos, lemma_find_key_range, lemma_insert_pos_range, map_set, KeyV, ValueV,
};

verus! {

/// The entries of a map value; none for anything else.
pub open spec fn child_map(v: ValueV) -> Seq<(KeyV, ValueV)> {
    match v {
        ValueV::Mapping(es) => es,
        _ => Seq::empty(),
    }
}

/// The value found by following a path of keys through nested maps.
pub open spec fn lookup(m: Seq<(KeyV, ValueV)>, ks: Seq<KeyV>) -> Option<ValueV>
    decreases ks.len(),
{
    if ks.len() == 0 {
        None
    } else {
        match find_key(m, ks[0]) {
            None => None,
            Some(j) => if ks.len() == 1 {
                Some(m[j].1)
            } else {
                match m[j].1 {
                    ValueV::Mapping(es) => lookup(es, ks.drop_first()),
                    _ => None,
                }
            },
        }
    }
}

/// `m` with `v` put at the end of the path: the maps along the path are
/// kept or made, and the last key is added.
pub open spec fn tree_put(m: Seq<(KeyV, ValueV)>, ks: Seq<KeyV>, v: ValueV) -> Seq<(KeyV, ValueV)>
    decreases ks.len(),
{
    if ks.len() == 0 {
        m
    } else if ks.len() == 1 {
        m.insert(insert_pos(m, ks[0]), (ks[0], v))
    } else {
        map_set(
            m,
            ks[0],
            ValueV::Mapping(tree_put(child_map(get_or_uninit(m, ks[0])), ks.drop_first(), v)),
        )
    }
}

/// A path can be put into `m`: the maps along it are maps or absent, and
/// its last key is absent.
pub open spec fn fits(m: Seq<(KeyV, ValueV)>, ks: Seq<KeyV>) -> bool
    decreases ks.len(),
{
    if ks.len() == 0 {
        false
    } else if ks.len() == 1 {
        find_key(m, ks[0]) is None
    } else {
        match get_or_uninit(m, ks[0]) {
            ValueV::Mapping(_) | ValueV::Uninitialized => fits(
                child_map(get_or_uninit(m, ks[0])),
                ks.drop_first(),
            ),
            _ => false,
        }
    }
}

/// `a` starts `b`.
pub open spec fn is_prefix(a: Seq<KeyV>, b: Seq<KeyV>) -> bool {
    a.len() <= b.len() && b.subrange(0, a.len() as int) == a
}

/// Neither path starts the other.
pub open spec fn apart(a: Seq<KeyV>, b: Seq<KeyV>) -> bool {
    !is_prefix(a, b) && !is_prefix(b, a)
}

proof fn lemma_find_insert(m: Seq<(KeyV, ValueV)>, p: int, k: KeyV, v: ValueV, k2: KeyV)
    requires
        0 <= p <= m.len(),
    ensures
        k2 != k ==> find_key(m.insert(p, (k, v)), k2) == match find_key(m, k2) {
            None => None::<int>,
            Some(j) => Some(if j < p { j } else { j + 1 }),
        },
        find_key(m, k) is None ==> find_key(m.insert(p, (k, v)), k) == Some(p),
    decreases m.len(),
{
    let m2 = m.insert(p, (k, v));
    if p == m.len() {
        assert(m2.drop_last() =~= m);
        assert(m2.last() == (k, v));
        lemma_find_key_range(m, k2);
        lemma_find_key_range(m, k);
    } else {
        assert(m2.last() == m.last());
        assert(m2.drop_last() =~= m.drop_last().insert(p, (k, v)));
        lemma_find_insert(m.drop_last(), p, k, v, k2);
        if find_key(m, k) is None {
            assert(m.last().0 != k);
        }
    }
}

proof fn lemma_find_update(m: Seq<(KeyV, ValueV)>, j: int, k: KeyV, x: ValueV, k2: KeyV)
    requires
        0 <= j < m.len(),
        m[j].0 == k,
    ensures
        find_key(m.update(j, (k, x)), k2) == find_key(m, k2),
    decreases m.len(),
{
    let m2 = m.update(j, (k, x));
    if j == m.len() - 1 {
        assert(m2.drop_last() =~= m.drop_last());
    } else {
        assert(m2.last() == m.last());
        assert(m2.drop_last() =~= m.drop_last().update(j, (k, x)));
        lemma_find_update(m.drop_last(), j, k, x, k2);
    }
}

/// What `map_set` does to finding keys: the key set is found with the new
/// value, every other key as before.
pub(crate) proof fn lemma_find_set(m: Seq<(KeyV, ValueV)>, k: KeyV, x: ValueV, k2: KeyV)
    ensures
        find_key(map_set(m, k, x), k) matches Some(j) && map_set(m, k, x)[j] == (k, x),
        k2 != k ==> (find_key(map_set(m, k, x), k2) is None <==> find_key(m, k2) is None),
        k2 != k ==> (find_key(m, k2) matches Some(j) ==> find_key(map_set(m, k, x), k2) matches Some(j2) && map_set(
            m,
            k,
            x,
        )[j2] == m[j]),
        get_or_uninit(map_set(m, k, x), k2) == if k2 == k {
            x
        } else {
            get_or_uninit(m, k2)
        },
{
    lemma_find_key_range(m, k);
    lemma_find_key_range(m, k2);
    match find_key(m, k) {
        Some(j) => {
            lemma_find_update(m, j, k, x, k);
            lemma_find_update(m, j, k, x, k2);
            if let Some(j2) = find_key(m, k2) {
                if k2 != k {
                    assert(j2 != j);
                }
            }
        },
        None => {
            let p = insert_pos(m, k);
            lemma_insert_pos_range(m, k);
            lemma_find_insert(m, p, k, x, k);
            lemma_find_insert(m, p, k, x, k2);
        },
    }
}

/// Any path of one key or more fits an empty map.
pub proof fn lemma_fits_empty(ks: Seq<KeyV>)
    requires
        ks.len() >= 1,
    ensures
        fits(Seq::empty(), ks),
    decreases ks.len(),
{
    if ks.len() > 1 {
        assert(get_or_uninit(Seq::<(KeyV, ValueV)>::empty(), ks[0]) == ValueV::Uninitialized);
        assert(child_map(ValueV::Uninitialized) =~= Seq::<(KeyV, ValueV)>::empty());
        lemma_fits_empty(ks.drop_first());
    }
}

proof fn lemma_apart_rest(a: Seq<KeyV>, b: Seq<KeyV>)
    requires
        a.len() >= 2,
        b.len() >= 2,
        a[0] == b[0],
        apart(a, b),
    ensures
        apart(a.drop_first(), b.drop_first()),
{
    let ra = a.drop_first();
    let rb = b.drop_first();
    if is_prefix(ra, rb) {
        assert(b.subrange(0, a.len() as int) =~= a) by {
            assert forall|i: int| 0 <= i < a.len() implies b.subrange(0, a.len() as int)[i] == a[i] by {
                if i > 0 {
                    assert(rb.subrange(0, ra.len() as int)[i - 1] == ra[i - 1]);
                }
            }
        }
    }
    if is_prefix(rb, ra) {
        assert(a.subrange(0, b.len() as int) =~= b) by {
            assert forall|i: int| 0 <= i < b.len() implies a.subrange(0, b.len() as int)[i] == b[i] by {
                if i > 0 {
                    assert(ra.subrange(0, rb.len() as int)[i - 1] == rb[i - 1]);
                }
            }
        }
    }
}

proof fn lemma_apart_heads(a: Seq<KeyV>, b: Seq<KeyV>)
    requires
        a.len() >= 1,
        b.len() >= 1,
        apart(a, b),
    ensures
        a.len() == 1 ==> b[0] != a[0],
        b.len() == 1 ==> b[0] != a[0],
{
    if a.len() == 1 && b[0] == a[0] {
        assert(b.subrange(0, 1) =~= a);
    }
    if b.len() == 1 && b[0] == a[0] {
        assert(a.subrange(0, 1) =~= b);
    }
}

/// A path put into a map is found there with its value.
pub proof fn lemma_put_lookup_self(m: Seq<(KeyV, ValueV)>, ks: Seq<KeyV>, v: ValueV)
    requires
        fits(m, ks),
    ensures
        lookup(tree_put(m, ks, v), ks) == Some(v),
    decreases ks.len(),
{
    if ks.len() == 1 {
        let p = insert_pos(m, ks[0]);
        lemma_insert_pos_range(m, ks[0]);
        lemma_find_insert(m, p, ks[0], v, ks[0]);
    } else {
        let c = get_or_uninit(m, ks[0]);
        let inner = tree_put(child_map(c), ks.drop_first(), v);
        lemma_find_set(m, ks[0], ValueV::Mapping(inner), ks[0]);
        lemma_put_lookup_self(child_map(c), ks.drop_first(), v);
    }
}

/// Putting a path leaves what is found at any path apart from it.
pub proof fn lemma_put_lookup_other(m: Seq<(KeyV, ValueV)>, ks1: Seq<KeyV>, v: ValueV, ks2: Seq<KeyV>)
    requires
        fits(m, ks1),
        ks2.len() >= 1,
        apart(ks1, ks2),
    ensures
        lookup(tree_put(m, ks1, v), ks2) == lookup(m, ks2),
    decreases ks1.len(),
{
    lemma_apart_heads(ks1, ks2);
    lemma_find_key_range(m, ks2[0]);
    if ks1.len() == 1 {
        let p = insert_pos(m, ks1[0]);
        lemma_insert_pos_range(m, ks1[0]);
        lemma_find_insert(m, p, ks1[0], v, ks2[0]);
    } else {
        let k0 = ks1[0];
        let c = get_or_uninit(m, k0);
        let inner = tree_put(child_map(c), ks1.drop_first(), v);
        let m2 = map_set(m, k0, ValueV::Mapping(inner));
        lemma_find_set(m, k0, ValueV::Mapping(inner), ks2[0]);
        if ks2[0] == k0 {
            lemma_apart_rest(ks1, ks2);
            lemma_put_lookup_other(child_map(c), ks1.drop_first(), v, ks2.drop_first());
            if find_key(m, k0) is None {
                assert(child_map(c) =~= Seq::<(KeyV, ValueV)>::empty());
                assert(lookup(Seq::<(KeyV, ValueV)>::empty(), ks2.drop_first()) is None);
            }
        }
    }
}

/// Putting a path keeps any path apart from it fitting.
pub proof fn lemma_put_fits_other(m: Seq<(KeyV, ValueV)>, ks1: Seq<KeyV>, v: ValueV, ks2: Seq<KeyV>)
    requires
        fits(m, ks1),
        fits(m, ks2),
        apart(ks1, ks2),
    ensures
        fits(tree_put(m, ks1, v), ks2),
    decreases ks1.len(),
{
    lemma_apart_heads(ks1, ks2);
    lemma_find_key_range(m, ks2[0]);
    if ks1.len() == 1 {
        let p = insert_pos(m, ks1[0]);
        lemma_insert_pos_range(m, ks1[0]);
        lemma_find_insert(m, p, ks1[0], v, ks2[0]);
        let m2 = m.insert(p, (ks1[0], v));
        assert(get_or_uninit(m2, ks2[0]) == get_or_uninit(m, ks2[0]));
    } else {
        let k0 = ks1[0];
        let c = get_or_uninit(m, k0);
        let inner = tree_put(child_map(c), ks1.drop_first(), v);
        lemma_find_set(m, k0, ValueV::Mapping(inner), ks2[0]);
        if ks2[0] == k0 {
            lemma_apart_rest(ks1, ks2);
            lemma_put_fits_other(child_map(c), ks1.drop_first(), v, ks2.drop_first());
            assert(child_map(ValueV::Mapping(inner)) == inner);
        }
    }
}

/// How many values a parsed value holds: a map the values of its entries,
/// a placeholder none, anything else one.
pub open spec fn leaf_count(v: ValueV) -> nat
    decreases v,
{
    match v {
        ValueV::Mapping(es) => entries_leaves(es),
        ValueV::Uninitialized => 0,
        _ => 1,
    }
}

/// How many values the entries hold.
pub open spec fn entries_leaves(es: Seq<(KeyV, ValueV)>) -> nat
    decreases es,
{
    if es.len() == 0 {
        0
    } else {
        entries_leaves(es.drop_last()) + leaf_count(es.last().1)
    }
}

proof fn lemma_leaves_insert(m: Seq<(KeyV, ValueV)>, p: int, e: (KeyV, ValueV))
    requires
        0 <= p <= m.len(),
    ensures
        entries_leaves(m.insert(p, e)) == entries_leaves(m) + leaf_count(e.1),
    decreases m.len(),
{
    let m2 = m.insert(p, e);
    if p == m.len() {
        assert(m2.drop_last() =~= m);
        assert(m2.last() == e);
    } else {
        assert(m2.last() == m.last());
        assert(m2.drop_last() =~= m.drop_last().insert(p, e));
        lemma_leaves_insert(m.drop_last(), p, e);
    }
}

proof fn lemma_leaves_update(m: Seq<(KeyV, ValueV)>, j: int, e: (KeyV, ValueV))
    requires
        0 <= j < m.len(),
    ensures
        entries_leaves(m.update(j, e)) + leaf_count(m[j].1) == entries_leaves(m) + leaf_count(e.1),
    decreases m.len(),
{
    let m2 = m.update(j, e);
    if j == m.len() - 1 {
        assert(m2.drop_last() =~= m.drop_last());
        assert(m2.last() == e);
    } else {
        assert(m2.last() == m.last());
        assert(m2.drop_last() =~= m.drop_last().update(j, e));
        lemma_leaves_update(m.drop_last(), j, e);
    }
}

/// Putting a single value at a path that fits adds one value.
pub proof fn lemma_put_count(m: Seq<(KeyV, ValueV)>, ks: Seq<KeyV>, v: ValueV)
    requires
        fits(m, ks),
        !(v is Mapping),
        !(v is Uninitialized),
    ensures
        entries_leaves(tree_put(m, ks, v)) == entries_leaves(m) + 1,
    decreases ks.len(),
{
    if ks.len() == 1 {
        let p = insert_pos(m, ks[0]);
        lemma_insert_pos_range(m, ks[0]);
        lemma_leaves_insert(m, p, (ks[0], v));
    } else {
        let k0 = ks[0];
        let c = get_or_uninit(m, k0);
        let inner = tree_put(child_map(c), ks.drop_first(), v);
        lemma_put_count(child_map(c), ks.drop_first(), v);
        lemma_find_key_range(m, k0);
        match find_key(m, k0) {
            Some(j) => {
                assert(c == m[j].1);
                assert(leaf_count(c) == entries_leaves(child_map(c)));
                lemma_leaves_update(m, j, (k0, ValueV::Mapping(inner)));
            },
            None => {
                assert(child_map(c) =~= Seq::<(KeyV, ValueV)>::empty());
                let p = insert_pos(m, k0);
                lemma_insert_pos_range(m, k0);
                lemma_leaves_insert(m, p, (k0, ValueV::Mapping(inner)));
            },
        }
    }
}

} // verus!
