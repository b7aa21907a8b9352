use vstd::prelude::*;

verus! {

/// A key of the parsed querystring, as a mathematical value.
pub enum KeyV {
    Int(usize),
    Str(Seq<u8>),
}

/// A parsed value, as a mathematical tree. A mapping is a sequence of
/// entries kept in key order.
pub enum ValueV {
    Mapping(Seq<(KeyV, ValueV)>),
    Sequence(Seq<ValueV>),
    Str(Seq<u8>),
    Null,
    NoValue,
    Uninitialized,
}

/// A key in the parsed querystring: an integer (an array index such as the
/// `0` of `items[0]`) or a decoded byte string (such as the `name` of `user[name]`).
#[derive(Debug, PartialEq, Eq)]
pub enum Key {
    Int(usize),
    String(Vec<u8>),
}

/// The intermediate representation of a parsed querystring.
///
/// `Mapping` holds nested objects such as `user[name]=John`, `Sequence`
/// arrays such as `ids[]=1&ids[]=2`, `String` leaf values; `Null` is a key
/// with an empty value (`key=`), `NoValue` a key without any value (`key`),
/// and `Uninitialized` a placeholder while parsing.
#[derive(Debug, PartialEq, Eq)]
pub enum ParsedValue {
    Mapping(ParsedMap),
    Sequence(Vec<ParsedValue>),
    String(Vec<u8>),
    Null,
    NoValue,
    Uninitialized,
}

/// A map from keys to parsed values, its entries kept in key order.
#[derive(Debug, PartialEq, Eq)]
pub struct ParsedMap {
    pub entries: Vec<(Key, ParsedValue)>,
}

impl View for Key {
    type V = KeyV;

    open spec fn view(&self) -> KeyV {
        match self {
            Key::Int(i) => KeyV::Int(*i),
            Key::String(s) => KeyV::Str(s@),
        }
    }
}

impl ParsedValue {
    pub open spec fn tree(&self) -> ValueV
        decreases self,
    {
        match self {
            ParsedValue::Mapping(m) => ValueV::Mapping(
                Seq::new(
                    m.entries@.len(),
                    |i: int|
                        if 0 <= i < m.entries@.len() {
                            (m.entries@[i].0@, m.entries@[i].1.tree())
                        } else {
                            (KeyV::Int(0), ValueV::Null)
                        },
                ),
            ),
            ParsedValue::Sequence(v) => ValueV::Sequence(
                Seq::new(
                    v@.len(),
                    |i: int|
                        if 0 <= i < v@.len() {
                            v@[i].tree()
                        } else {
                            ValueV::Null
                        },
                ),
            ),
            ParsedValue::String(s) => ValueV::Str(s@),
            ParsedValue::Null => ValueV::Null,
            ParsedValue::NoValue => ValueV::NoValue,
            ParsedValue::Uninitialized => ValueV::Uninitialized,
        }
    }
}

impl View for ParsedValue {
    type V = ValueV;

    open spec fn view(&self) -> ValueV {
        self.tree()
    }
}

/// The view of a sequence of parsed values.
pub open spec fn values_view(v: Seq<ParsedValue>) -> Seq<ValueV> {
    Seq::new(v.len(), |i: int| v[i]@)
}

/// The view of a sequence of entries.
pub open spec fn entries_view(e: Seq<(Key, ParsedValue)>) -> Seq<(KeyV, ValueV)> {
    Seq::new(e.len(), |i: int| (e[i].0@, e[i].1@))
}

impl View for ParsedMap {
    type V = Seq<(KeyV, ValueV)>;

    open spec fn view(&self) -> Seq<(KeyV, ValueV)> {
        entries_view(self.entries@)
    }
}

/// The view of a map value is the map's view.
pub proof fn lemma_mapping_view(m: ParsedMap)
    ensures
        ParsedValue::Mapping(m)@ == ValueV::Mapping(m@),
{
    assert(ParsedValue::Mapping(m)@->Mapping_0 =~= m@);
}

/// The view of a sequence value is its elements' views.
pub proof fn lemma_sequence_view(v: Vec<ParsedValue>)
    ensures
        ParsedValue::Sequence(v)@ == ValueV::Sequence(values_view(v@)),
{
    assert(ParsedValue::Sequence(v)@->Sequence_0 =~= values_view(v@));
}

/// The values of a mapping, in order.
pub open spec fn map_values(m: Seq<(KeyV, ValueV)>) -> Seq<ValueV> {
    Seq::new(m.len(), |i: int| m[i].1)
}

/// Lexicographic order on byte strings.
pub open spec fn bytes_lt(a: Seq<u8>, b: Seq<u8>) -> bool
    decreases a.len(),
{
    if a.len() == 0 {
        b.len() > 0
    } else if b.len() == 0 {
        false
    } else if a[0] != b[0] {
        a[0] < b[0]
    } else {
        bytes_lt(a.subrange(1, a.len() as int), b.subrange(1, b.len() as int))
    }
}

/// The order of keys: integers before strings, integers by value, strings
/// lexicographically.
pub open spec fn key_lt(a: KeyV, b: KeyV) -> bool {
    match (a, b) {
        (KeyV::Int(x), KeyV::Int(y)) => x < y,
        (KeyV::Int(_), KeyV::Str(_)) => true,
        (KeyV::Str(_), KeyV::Int(_)) => false,
        (KeyV::Str(x), KeyV::Str(y)) => bytes_lt(x, y),
    }
}

/// The index of the entry with key `k`, searching from the end.
pub open spec fn find_key(m: Seq<(KeyV, ValueV)>, k: KeyV) -> Option<int>
    decreases m.len(),
{
    if m.len() == 0 {
        None
    } else if m.last().0 == k {
        Some(m.len() - 1)
    } else {
        find_key(m.drop_last(), k)
    }
}

/// Where an entry with key `k` goes: after the last entry whose key is not
/// greater than `k`.
pub open spec fn insert_pos(m: Seq<(KeyV, ValueV)>, k: KeyV) -> int
    decreases m.len(),
{
    if m.len() == 0 {
        0
    } else if key_lt(k, m.last().0) {
        insert_pos(m.drop_last(), k)
    } else {
        m.len() as int
    }
}

/// The value at `k`, or `Uninitialized` where `k` is absent.
pub open spec fn get_or_uninit(m: Seq<(KeyV, ValueV)>, k: KeyV) -> ValueV {
    match find_key(m, k) {
        Some(j) => m[j].1,
        None => ValueV::Uninitialized,
    }
}

/// `m` with the value at `k` set to `v`, inserting the entry in key order
/// where `k` is absent.
pub open spec fn map_set(m: Seq<(KeyV, ValueV)>, k: KeyV, v: ValueV) -> Seq<(KeyV, ValueV)> {
    match find_key(m, k) {
        Some(j) => m.update(j, (k, v)),
        None => m.insert(insert_pos(m, k), (k, v)),
    }
}

/// A found key is at a valid index; an absent key is at none.
pub proof fn lemma_find_key_range(m: Seq<(KeyV, ValueV)>, k: KeyV)
    ensures
        find_key(m, k) matches Some(j) ==> 0 <= j < m.len() && m[j].0 == k,
        find_key(m, k) is None ==> forall|i: int| 0 <= i < m.len() ==> m[i].0 != k,
    decreases m.len(),
{
    if m.len() > 0 {
        lemma_find_key_range(m.drop_last(), k);
        if find_key(m, k) is None {
            assert forall|i: int| 0 <= i < m.len() implies m[i].0 != k by {
                if i < m.len() - 1 {
                    assert(m.drop_last()[i] == m[i]);
                }
            }
        }
    }
}

/// The insertion position lies within the map.
pub proof fn lemma_insert_pos_range(m: Seq<(KeyV, ValueV)>, k: KeyV)
    ensures
        0 <= insert_pos(m, k) <= m.len(),
    decreases m.len(),
{
    if m.len() > 0 {
        lemma_insert_pos_range(m.drop_last(), k);
    }
}

fn bytes_eq(a: &Vec<u8>, b: &Vec<u8>) -> (r: bool)
    ensures
        r == (a@ == b@),
{
    if a.len() != b.len() {
        return false;
    }
    let mut i: usize = 0;
    while i < a.len()
        invariant
            a@.len() == b@.len(),
            0 <= i <= a@.len(),
            forall|j: int| 0 <= j < i ==> a@[j] == b@[j],
        decreases a.len() - i,
    {
        if a[i] != b[i] {
            return false;
        }
        i = i + 1;
    }
    assert(a@ =~= b@);
    true
}

fn bytes_less(a: &Vec<u8>, b: &Vec<u8>) -> (r: bool)
    ensures
        r == bytes_lt(a@, b@),
{
    let mut i: usize = 0;
    assert(a@.subrange(0, a@.len() as int) =~= a@);
    assert(b@.subrange(0, b@.len() as int) =~= b@);
    while i < a.len() && i < b.len() && a[i] == b[i]
        invariant
            0 <= i <= a@.len(),
            i <= b@.len(),
            bytes_lt(a@, b@) == bytes_lt(
                a@.subrange(i as int, a@.len() as int),
                b@.subrange(i as int, b@.len() as int),
            ),
        decreases a.len() - i,
    {
        let ghost sa = a@.subrange(i as int, a@.len() as int);
        let ghost sb = b@.subrange(i as int, b@.len() as int);
        assert(sa.subrange(1, sa.len() as int) =~= a@.subrange(i + 1, a@.len() as int));
        assert(sb.subrange(1, sb.len() as int) =~= b@.subrange(i + 1, b@.len() as int));
        i = i + 1;
    }
    let ghost sa = a@.subrange(i as int, a@.len() as int);
    let ghost sb = b@.subrange(i as int, b@.len() as int);
    if i == a.len() {
        i < b.len()
    } else if i == b.len() {
        false
    } else {
        assert(sa[0] == a@[i as int] && sb[0] == b@[i as int]);
        a[i] < b[i]
    }
}

impl Key {
    /// A copy of the key.
    pub fn duplicate(&self) -> (r: Key)
        ensures
            r@ == self@,
    {
        match self {
            Key::Int(i) => Key::Int(*i),
            Key::String(s) => {
                let c = s.clone();
                assert(c@ =~= s@);
                Key::String(c)
            },
        }
    }

    /// Whether two keys are equal.
    pub fn same(&self, other: &Key) -> (r: bool)
        ensures
            r == (self@ == other@),
    {
        match (self, other) {
            (Key::Int(a), Key::Int(b)) => *a == *b,
            (Key::String(a), Key::String(b)) => bytes_eq(a, b),
            _ => false,
        }
    }

    /// Whether this key sorts before the other.
    pub fn less(&self, other: &Key) -> (r: bool)
        ensures
            r == key_lt(self@, other@),
    {
        match (self, other) {
            (Key::Int(a), Key::Int(b)) => *a < *b,
            (Key::Int(_), Key::String(_)) => true,
            (Key::String(_), Key::Int(_)) => false,
            (Key::String(a), Key::String(b)) => bytes_less(a, b),
        }
    }

    /// The empty string key, used for `=1` or `[a]=1`.
    pub fn empty_key() -> (r: Key)
        ensures
            r@ == KeyV::Str(Seq::empty()),
    {
        let v: Vec<u8> = Vec::new();
        Key::String(v)
    }
}

impl ParsedMap {
    /// An empty map.
    pub fn new() -> (r: ParsedMap)
        ensures
            r@ == Seq::<(KeyV, ValueV)>::empty(),
    {
        let r = ParsedMap { entries: Vec::new() };
        assert(r@ =~= Seq::<(KeyV, ValueV)>::empty());
        r
    }

    /// The number of entries.
    pub fn len(&self) -> (r: usize)
        ensures
            r == self@.len(),
    {
        self.entries.len()
    }

    /// Whether there is no entry.
    pub fn is_empty(&self) -> (r: bool)
        ensures
            r == (self@.len() == 0),
    {
        self.entries.len() == 0
    }

    /// The keys, in order.
    pub fn keys(&self) -> (r: Vec<Key>)
        ensures
            r@.len() == self@.len(),
            forall|i: int| 0 <= i < r@.len() ==> r@[i]@ == self@[i].0,
    {
        let mut r: Vec<Key> = Vec::new();
        let mut i: usize = 0;
        while i < self.entries.len()
            invariant
                0 <= i <= self.entries@.len(),
                r@.len() == i,
                forall|j: int| 0 <= j < i ==> r@[j]@ == self@[j].0,
            decreases self.entries.len() - i,
        {
            r.push(self.entries[i].0.duplicate());
            i = i + 1;
        }
        r
    }

    /// The index of the entry with key `k`.
    pub fn find(&self, k: &Key) -> (r: Option<usize>)
        ensures
            r matches Some(j) ==> find_key(self@, k@) == Some(j as int),
            r is None ==> find_key(self@, k@) is None,
    {
        let mut j: usize = self.entries.len();
        assert(self@.subrange(0, j as int) =~= self@);
        while j > 0
            invariant
                j <= self.entries@.len(),
                find_key(self@, k@) == find_key(self@.subrange(0, j as int), k@),
            decreases j,
        {
            let ghost sub = self@.subrange(0, j as int);
            assert(sub.last() == self@[j - 1]);
            if self.entries[j - 1].0.same(k) {
                return Some(j - 1);
            }
            assert(sub.drop_last() =~= self@.subrange(0, j - 1));
            j = j - 1;
        }
        None
    }

    /// Where an entry with key `k` goes in key order.
    pub fn position_for(&self, k: &Key) -> (r: usize)
        ensures
            r == insert_pos(self@, k@),
    {
        let mut j: usize = self.entries.len();
        assert(self@.subrange(0, j as int) =~= self@);
        while j > 0 && k.less(&self.entries[j - 1].0)
            invariant
                j <= self.entries@.len(),
                insert_pos(self@, k@) == insert_pos(self@.subrange(0, j as int), k@),
            decreases j,
        {
            let ghost sub = self@.subrange(0, j as int);
            assert(sub.last() == self@[j - 1]);
            assert(sub.drop_last() =~= self@.subrange(0, j - 1));
            j = j - 1;
        }
        proof {
            if j > 0 {
                let sub = self@.subrange(0, j as int);
                assert(sub.last() == self@[j - 1]);
            }
        }
        j
    }

    /// Removes and returns the value at `k`, or `Uninitialized` where `k`
    /// is absent; the second result is the index it was taken from.
    pub(crate) fn take(&mut self, k: &Key) -> (r: (ParsedValue, Option<usize>))
        ensures
            r.0@ == get_or_uninit(old(self)@, k@),
            r.1 matches Some(j) ==> find_key(old(self)@, k@) == Some(j as int),
            r.1 is None ==> find_key(old(self)@, k@) is None,
            r.1 matches Some(j) ==> final(self)@ == old(self)@.remove(j as int),
            r.1 is None ==> final(self)@ == old(self)@,
    {
        proof {
            lemma_find_key_range(self@, k@);
        }
        match self.find(k) {
            Some(j) => {
                let e = self.entries.remove(j);
                assert(self@ =~= old(self)@.remove(j as int));
                (e.1, Some(j))
            },
            None => (ParsedValue::Uninitialized, None),
        }
    }

    /// Removes the entry with key `k` and returns its value.
    pub fn remove(&mut self, k: &Key) -> (r: Option<ParsedValue>)
        ensures
            match find_key(old(self)@, k@) {
                Some(j) => r matches Some(v) && v@ == old(self)@[j].1 && final(self)@ == old(self)@.remove(j),
                None => r is None && final(self)@ == old(self)@,
            },
    {
        proof {
            lemma_find_key_range(self@, k@);
        }
        match self.find(k) {
            Some(j) => {
                let e = self.entries.remove(j);
                assert(self@ =~= old(self)@.remove(j as int));
                Some(e.1)
            },
            None => None,
        }
    }

    /// Removes and returns the first entry, the one with the least key.
    pub fn pop_first(&mut self) -> (r: Option<(Key, ParsedValue)>)
        ensures
            old(self)@.len() == 0 ==> r is None && final(self)@ == old(self)@,
            old(self)@.len() > 0 ==> (r matches Some(e) && (e.0@, e.1@) == old(self)@[0]
                && final(self)@ == old(self)@.drop_first()),
            crate::order::sorted(old(self)@) ==> (r matches Some(e) ==> forall|j: int|
                0 < j < old(self)@.len() ==> key_lt(e.0@, #[trigger] old(self)@[j].0)),
    {
        if self.entries.len() == 0 {
            return None;
        }
        let e = self.entries.remove(0);
        assert(self@ =~= old(self)@.drop_first());
        assert(crate::order::sorted(old(self)@) ==> forall|j: int|
            0 < j < old(self)@.len() ==> key_lt(e.0@, #[trigger] old(self)@[j].0)) by {
            if crate::order::sorted(old(self)@) {
                assert forall|j: int| 0 < j < old(self)@.len() implies key_lt(e.0@, #[trigger] old(self)@[j].0) by {
                    assert(old(self)@[0].0 == e.0@);
                    assert(key_lt(old(self)@[0].0, old(self)@[j].0));
                }
            }
        }
        Some(e)
    }

    /// The values, in key order.
    pub fn into_values(self) -> (r: Vec<ParsedValue>)
        ensures
            values_view(r@) == map_values(self@),
    {
        let mut entries = self.entries;
        let ghost all = entries_view(entries@);
        let mut r: Vec<ParsedValue> = Vec::new();
        let ghost n = entries@.len();
        while entries.len() > 0
            invariant
                entries@.len() + r@.len() == n,
                all.len() == n,
                forall|i: int| 0 <= i < r@.len() ==> r@[i]@ == all[i].1,
                forall|i: int| 0 <= i < entries@.len() ==> (entries@[i].0@, entries@[i].1@) == all[i + r@.len()],
            decreases entries.len(),
        {
            let e = entries.remove(0);
            r.push(e.1);
        }
        assert(values_view(r@) =~= map_values(all));
        r
    }

    /// Puts a value back under `k`: at index `j` where it was taken from,
    /// or in key order.
    pub(crate) fn put_back(&mut self, k: Key, v: ParsedValue, at: Option<usize>, Ghost(before): Ghost<Seq<(KeyV, ValueV)>>)
        requires
            at matches Some(j) ==> find_key(before, k@) == Some(j as int) && old(self)@ == before.remove(j as int),
            at is None ==> find_key(before, k@) is None && old(self)@ == before,
        ensures
            final(self)@ == map_set(before, k@, v@),
    {
        proof {
            lemma_find_key_range(before, k@);
            lemma_insert_pos_range(before, k@);
        }
        match at {
            Some(j) => {
                let ghost old_view = self@;
                self.entries.insert(j, (k, v));
                assert forall|i: int| 0 <= i < self@.len() implies self@[i] == map_set(before, k@, v@)[i] by {
                    if i < j {
                        assert(self@[i] == old_view[i]);
                    } else if i > j {
                        assert(self@[i] == old_view[i - 1]);
                    }
                }
                assert(self@ =~= map_set(before, k@, v@));
            },
            None => {
                let p = self.position_for(&k);
                self.entries.insert(p, (k, v));
                assert(self@ =~= map_set(before, k@, v@));
            },
        }
    }
}

} // verus!
