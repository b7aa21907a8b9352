use vstd::prelude::*;
use crate::error::key_display;
use crate::text::{concat_str, shown_text, utf8_lossy};
use crate::value::{KeyV, ParsedValue, ValueV};

verus! {

/// A parsed value as its debug form shows it: maps as `{key: value, ...}`,
/// sequences as `[value, ...]`, strings as `String(text)`.
pub open spec fn debug_text(v: ValueV) -> Seq<char>
    decreases v,
{
    match v {
        ValueV::Mapping(es) => "{"@ + entries_debug(es) + "}"@,
        ValueV::Sequence(vs) => "["@ + values_debug(vs) + "]"@,
        ValueV::Str(s) => "String("@ + shown_text(s) + ")"@,
        ValueV::Null => "Null"@,
        ValueV::NoValue => "NoValue"@,
        ValueV::Uninitialized => "Unintialized"@,
    }
}

/// Entries as `key: value`, separated by `, `.
pub open spec fn entries_debug(es: Seq<(KeyV, ValueV)>) -> Seq<char>
    decreases es,
{
    if es.len() == 0 {
        Seq::empty()
    } else if es.len() == 1 {
        key_display(es[0].0) + ": "@ + debug_text(es[0].1)
    } else {
        entries_debug(es.drop_last()) + ", "@ + key_display(es.last().0) + ": "@ + debug_text(
            es.last().1,
        )
    }
}

/// Values separated by `, `.
pub open spec fn values_debug(vs: Seq<ValueV>) -> Seq<char>
    decreases vs,
{
    if vs.len() == 0 {
        Seq::empty()
    } else if vs.len() == 1 {
        debug_text(vs[0])
    } else {
        values_debug(vs.drop_last()) + ", "@ + debug_text(vs.last())
    }
}

impl ParsedValue {
    /// The debug form of the value.
    pub fn debug_string(&self) -> (r: String)
        ensures
            r@ == debug_text(self@),
        decreases self,
    {
        match self {
            ParsedValue::Mapping(m) => {
                let ghost es = m@;
                let mut r = String::new();
                let mut i: usize = 0;
                assert(es.subrange(0, 0) =~= Seq::<(KeyV, ValueV)>::empty());
                while i < m.entries.len()
                    invariant
                        0 <= i <= m.entries@.len(),
                        es == m@,
                        *self == ParsedValue::Mapping(*m),
                        r@ == entries_debug(es.subrange(0, i as int)),
                    decreases m.entries.len() - i,
                {
                    let e = &m.entries[i];
                    proof {
                        let ent = m.entries@[i as int];
                        assert(decreases_to!(*self => (*self)->Mapping_0));
                        assert(decreases_to!(*m => m.entries));
                        assert(decreases_to!(m.entries => m.entries@));
                        assert(decreases_to!(m.entries@ => ent));
                        assert(decreases_to!(ent => ent.1));
                        assert(decreases_to!(*self => ent.1));
                    }
                    let vt = e.1.debug_string();
                    let kt = e.0.display();
                    let ghost sub = es.subrange(0, i + 1);
                    assert(sub.drop_last() =~= es.subrange(0, i as int));
                    assert(sub.last() == es[i as int]);
                    if i == 0 {
                        r = concat_str(concat_str(kt, ": "), vt.as_str());
                    } else {
                        r = concat_str(concat_str(concat_str(concat_str(r, ", "), kt.as_str()), ": "), vt.as_str());
                    }
                    i = i + 1;
                }
                assert(es.subrange(0, m.entries@.len() as int) =~= es);
                proof {
                    crate::value::lemma_mapping_view(*m);
                }
                concat_str(concat_str(String::from_str("{"), r.as_str()), "}")
            },
            ParsedValue::Sequence(v) => {
                let ghost vs = crate::value::values_view(v@);
                let mut r = String::new();
                let mut i: usize = 0;
                assert(vs.subrange(0, 0) =~= Seq::<ValueV>::empty());
                while i < v.len()
                    invariant
                        0 <= i <= v@.len(),
                        vs == crate::value::values_view(v@),
                        *self == ParsedValue::Sequence(*v),
                        r@ == values_debug(vs.subrange(0, i as int)),
                    decreases v.len() - i,
                {
                    proof {
                        assert(decreases_to!(*self => (*self)->Sequence_0));
                        assert(decreases_to!(*v => v@));
                        assert(decreases_to!(v@ => v@[i as int]));
                        assert(decreases_to!(*self => v@[i as int]));
                    }
                    let vt = v[i].debug_string();
                    let ghost sub = vs.subrange(0, i + 1);
                    assert(sub.drop_last() =~= vs.subrange(0, i as int));
                    assert(sub.last() == vs[i as int]);
                    if i == 0 {
                        r = vt;
                    } else {
                        r = concat_str(concat_str(r, ", "), vt.as_str());
                    }
                    i = i + 1;
                }
                assert(vs.subrange(0, v@.len() as int) =~= vs);
                proof {
                    crate::value::lemma_sequence_view(*v);
                }
                concat_str(concat_str(String::from_str("["), r.as_str()), "]")
            },
            ParsedValue::String(s) => concat_str(
                concat_str(String::from_str("String("), utf8_lossy(s.as_slice()).as_str()),
                ")",
            ),
            ParsedValue::Null => String::from_str("Null"),
            ParsedValue::NoValue => String::from_str("NoValue"),
            ParsedValue::Uninitialized => String::from_str("Unintialized"),
        }
    }
}

} // verus!
