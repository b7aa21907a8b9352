use vstd::prelude::*;
use crate::config::Config;
use crate::decode::{decode, spec_decode};
use crate::value::{
    find_key, get_or_uninit, insert_pos, lemma_find_key_range, lemma_insert_pos_range,
    lemma_mapping_view, lemma_sequence_view, map_set, values_view, Key, KeyV, ParsedMap,
    ParsedValue, ValueV,
};

verus! {

/// What went wrong while parsing, as a value; the text of each is in
/// `crate::error`.
#[derive(Debug, PartialEq, Eq)]
pub enum Fault {
    /// The input ended right after an opening bracket.
    EndedEarly,
    /// The input ended inside a nested key.
    UnexpectedEnd,
    /// `key[]` after `key` held a value.
    ValueAndSequence,
    /// `key[]` after `key` held a map; the key and the map's keys.
    MapAndSequence(Key, Vec<Key>),
    /// `key[x]` after `key[]`.
    SequenceAndMap,
    /// `key[x]` after `key=value`.
    ValueAndMap,
    /// `key[x]` after `key` or `key=`.
    UnitAndMap,
    /// A second value for a key that cannot hold two.
    Multiple(Key),
    /// A value for a key whose value is still being parsed.
    Uninitialized(Key),
    /// `key[][x]`.
    NestedUnindexed,
    /// `key[]` followed by anything but `=`, `&` or the end.
    MixedSequence,
    /// A byte other than `&`, `=` or `[` after a closing bracket.
    UnexpectedChar(u8),
}

/// A parse fault and the position at which it was found.
#[derive(Debug, PartialEq, Eq)]
pub struct ParseFailure {
    pub fault: Fault,
    pub position: usize,
}

/// The mathematical value of a fault.
pub enum FaultV {
    EndedEarly,
    UnexpectedEnd,
    ValueAndSequence,
    MapAndSequence(KeyV, Seq<KeyV>),
    SequenceAndMap,
    ValueAndMap,
    UnitAndMap,
    Multiple(KeyV),
    Uninitialized(KeyV),
    NestedUnindexed,
    MixedSequence,
    UnexpectedChar(u8),
}

pub open spec fn keys_view(v: Seq<Key>) -> Seq<KeyV> {
    Seq::new(v.len(), |i: int| v[i]@)
}

impl View for Fault {
    type V = FaultV;

    open spec fn view(&self) -> FaultV {
        match self {
            Fault::EndedEarly => FaultV::EndedEarly,
            Fault::UnexpectedEnd => FaultV::UnexpectedEnd,
            Fault::ValueAndSequence => FaultV::ValueAndSequence,
            Fault::MapAndSequence(k, ks) => FaultV::MapAndSequence(k@, keys_view(ks@)),
            Fault::SequenceAndMap => FaultV::SequenceAndMap,
            Fault::ValueAndMap => FaultV::ValueAndMap,
            Fault::UnitAndMap => FaultV::UnitAndMap,
            Fault::Multiple(k) => FaultV::Multiple(k@),
            Fault::Uninitialized(k) => FaultV::Uninitialized(k@),
            Fault::NestedUnindexed => FaultV::NestedUnindexed,
            Fault::MixedSequence => FaultV::MixedSequence,
            Fault::UnexpectedChar(b) => FaultV::UnexpectedChar(*b),
        }
    }
}

pub type MapV = Seq<(KeyV, ValueV)>;

pub type Outcome<T> = Result<(T, int), (FaultV, int)>;

// ---------------------------------------------------------------------------
// Tokens: in form encoding `%5B`/`%5b` reads as `[` and `%5D`/`%5d` as `]`.

pub open spec fn is_escaped_bracket(s: Seq<u8>, i: int, close: bool) -> bool {
    &&& 0 <= i
    &&& i + 3 <= s.len()
    &&& s[i] == 0x25
    &&& s[i + 1] == 0x35
    &&& if close {
        s[i + 2] == 0x44 || s[i + 2] == 0x64
    } else {
        s[i + 2] == 0x42 || s[i + 2] == 0x62
    }
}

/// The byte that the token at `i` stands for.
pub open spec fn tok_byte(s: Seq<u8>, i: int, form: bool) -> u8 {
    if form && is_escaped_bracket(s, i, false) {
        0x5b
    } else if form && is_escaped_bracket(s, i, true) {
        0x5d
    } else {
        s[i]
    }
}

/// How many input bytes the token at `i` takes.
pub open spec fn tok_width(s: Seq<u8>, i: int, form: bool) -> int {
    if form && (is_escaped_bracket(s, i, false) || is_escaped_bracket(s, i, true)) {
        3
    } else {
        1
    }
}

/// Which tokens end a scan.
#[derive(Clone, Copy)]
pub enum Stop {
    /// `&`, `=`, `[`: a top-level key where nesting is allowed.
    Root,
    /// `&`, `=`: a key that does not nest.
    Flat,
    /// `]`: a nested key segment.
    Close,
    /// `&`: a value.
    Amp,
}

fn is_stop_exec(b: u8, stop: Stop) -> (r: bool)
    ensures
        r == is_stop(b, stop),
{
    match stop {
        Stop::Root => b == 0x26 || b == 0x3d || b == 0x5b,
        Stop::Flat => b == 0x26 || b == 0x3d,
        Stop::Close => b == 0x5d,
        Stop::Amp => b == 0x26,
    }
}

pub open spec fn is_stop(b: u8, stop: Stop) -> bool {
    match stop {
        Stop::Root => b == 0x26 || b == 0x3d || b == 0x5b,
        Stop::Flat => b == 0x26 || b == 0x3d,
        Stop::Close => b == 0x5d,
        Stop::Amp => b == 0x26,
    }
}

/// The start of the first token at or after `i` that stops the scan, or the
/// input's length where none does.
pub open spec fn scan(s: Seq<u8>, i: int, form: bool, stop: Stop) -> int
    decreases s.len() - i,
{
    if i >= s.len() || i < 0 {
        s.len() as int
    } else if is_stop(tok_byte(s, i, form), stop) {
        i
    } else {
        scan(s, i + tok_width(s, i, form), form, stop)
    }
}

/// A scan ends within the input, at a token that stops it or at the end.
pub proof fn lemma_scan(s: Seq<u8>, i: int, form: bool, stop: Stop)
    requires
        0 <= i <= s.len(),
    ensures
        i <= scan(s, i, form, stop) <= s.len(),
        scan(s, i, form, stop) < s.len() ==> is_stop(tok_byte(s, scan(s, i, form, stop), form), stop),
    decreases s.len() - i,
{
    if i < s.len() && !is_stop(tok_byte(s, i, form), stop) {
        lemma_scan(s, i + tok_width(s, i, form), form, stop);
    }
}

// ---------------------------------------------------------------------------
// Keys and values.

pub open spec fn is_digit(b: u8) -> bool {
    0x30 <= b <= 0x39
}

pub open spec fn all_digits(b: Seq<u8>) -> bool {
    forall|i: int| 0 <= i < b.len() ==> is_digit(#[trigger] b[i])
}

/// The value of a string of decimal digits.
pub open spec fn digits_value(b: Seq<u8>) -> nat
    decreases b.len(),
{
    if b.len() == 0 {
        0
    } else {
        digits_value(b.drop_last()) * 10 + (b.last() - 0x30) as nat
    }
}

/// A key read from raw bytes: a run of digits that fits a `usize` is an
/// integer key, anything else the decoded bytes.
pub open spec fn key_of(b: Seq<u8>) -> KeyV {
    if b.len() > 0 && all_digits(b) && digits_value(b) <= usize::MAX {
        KeyV::Int(digits_value(b) as usize)
    } else {
        KeyV::Str(spec_decode(b))
    }
}

/// A value read from raw bytes: empty is `Null`, anything else the decoded bytes.
pub open spec fn value_of(b: Seq<u8>) -> ValueV {
    if b.len() == 0 {
        ValueV::Null
    } else {
        ValueV::Str(spec_decode(b))
    }
}

/// Inserting a key's value: a new key is added in key order; a second value
/// for a string turns it into a sequence of both, a sequence takes one more
/// element, and anything else is refused.
pub open spec fn sp_insert(m: MapV, k: KeyV, v: ValueV) -> Result<MapV, FaultV> {
    match find_key(m, k) {
        None => Ok(m.insert(insert_pos(m, k), (k, v))),
        Some(j) => match m[j].1 {
            ValueV::Sequence(vs) => Ok(m.update(j, (k, ValueV::Sequence(vs.push(v))))),
            ValueV::Str(x) => Ok(m.update(j, (k, ValueV::Sequence(seq![ValueV::Str(x), v])))),
            ValueV::Uninitialized => Err(FaultV::Uninitialized(k)),
            _ => Err(FaultV::Multiple(k)),
        },
    }
}

/// The end of an entry whose key is complete, at the token at `t` (`&`,
/// `=` or the end of the input): the key gets no value, or the value up to
/// the next `&`. The position is that of the byte after what was read.
pub open spec fn sp_finish_entry(s: Seq<u8>, m: MapV, k: KeyV, t: int, form: bool) -> Outcome<MapV> {
    if t < s.len() && tok_byte(s, t, form) == 0x3d {
        let e = scan(s, t + 1, form, Stop::Amp);
        match sp_insert(m, k, value_of(s.subrange(t + 1, e))) {
            Ok(m2) => Ok((m2, e + 1)),
            Err(f) => Err((f, e + 1)),
        }
    } else {
        match sp_insert(m, k, ValueV::NoValue) {
            Ok(m2) => Ok((m2, t + 1)),
            Err(f) => Err((f, t + 1)),
        }
    }
}

/// The element after `key[]`: a value after `=`, none before `&` or the end.
pub open spec fn sp_seq_value(s: Seq<u8>, i: int, vs: Seq<ValueV>, form: bool) -> Outcome<Seq<ValueV>> {
    if i >= s.len() {
        Ok((vs.push(ValueV::NoValue), i + 1))
    } else if tok_byte(s, i, form) == 0x3d {
        let e = scan(s, i + 1, form, Stop::Amp);
        Ok((vs.push(value_of(s.subrange(i + 1, e))), e + 1))
    } else if tok_byte(s, i, form) == 0x26 {
        Ok((vs.push(ValueV::NoValue), i + 1))
    } else if tok_byte(s, i, form) == 0x5b {
        Err((FaultV::NestedUnindexed, i + tok_width(s, i, form)))
    } else {
        Err((FaultV::MixedSequence, i + tok_width(s, i, form)))
    }
}

pub open spec fn map_keys(m: MapV) -> Seq<KeyV> {
    Seq::new(m.len(), |i: int| m[i].0)
}

/// The rest of a nested key, starting at `i` just after an opening
/// bracket, for the node `node` found under `parent`. At `depth` not below
/// `max_depth` the rest of the key, from `kstart` on, is one flat key.
pub open spec fn sp_nested(
    s: Seq<u8>,
    i: int,
    kstart: int,
    node: ValueV,
    depth: nat,
    parent: KeyV,
    cfg: Config,
) -> Outcome<ValueV>
    decreases s.len() - i,
{
    let form = cfg.use_form_encoding;
    if i >= s.len() || i < 0 {
        Err((FaultV::EndedEarly, i + 1))
    } else {
        let i1 = i + tok_width(s, i, form);
        if tok_byte(s, i, form) == 0x5d {
            match node {
                ValueV::Sequence(vs) => match sp_seq_value(s, i1, vs, form) {
                    Ok((vs2, j)) => Ok((ValueV::Sequence(vs2), j)),
                    Err(e) => Err(e),
                },
                ValueV::Uninitialized => match sp_seq_value(s, i1, seq![], form) {
                    Ok((vs2, j)) => Ok((ValueV::Sequence(vs2), j)),
                    Err(e) => Err(e),
                },
                ValueV::Mapping(mm) => Err((FaultV::MapAndSequence(parent, map_keys(mm)), i1)),
                _ => Err((FaultV::ValueAndSequence, i1)),
            }
        } else {
            match node {
                ValueV::Sequence(_) => Err((FaultV::SequenceAndMap, i1)),
                ValueV::Str(_) => Err((FaultV::ValueAndMap, 0)),
                ValueV::Null => Err((FaultV::UnitAndMap, 0)),
                ValueV::NoValue => Err((FaultV::UnitAndMap, 0)),
                _ => {
                    let m = match node {
                        ValueV::Mapping(mm) => mm,
                        _ => Seq::empty(),
                    };
                    if depth >= cfg.max_depth {
                        let t = scan(s, i1, form, Stop::Flat);
                        match sp_finish_entry(s, m, key_of(s.subrange(kstart, t)), t, form) {
                            Ok((m2, p)) => Ok((ValueV::Mapping(m2), p)),
                            Err(e) => Err(e),
                        }
                    } else {
                        let t = scan(s, i1, form, Stop::Close);
                        if t >= s.len() {
                            Err((FaultV::UnexpectedEnd, t + 1))
                        } else {
                            let seg = key_of(s.subrange(i, t));
                            let j = t + tok_width(s, t, form);
                            if j < s.len() && tok_byte(s, j, form) == 0x5b {
                                proof {
                                    lemma_scan(s, i1, form, Stop::Close);
                                }
                                match sp_nested(
                                    s,
                                    j + tok_width(s, j, form),
                                    j,
                                    get_or_uninit(m, seg),
                                    depth + 1,
                                    seg,
                                    cfg,
                                ) {
                                    Ok((v, p)) => Ok((ValueV::Mapping(map_set(m, seg, v)), p)),
                                    Err(e) => Err(e),
                                }
                            } else if j < s.len() && tok_byte(s, j, form) != 0x26 && tok_byte(
                                s,
                                j,
                                form,
                            ) != 0x3d {
                                Err(
                                    (
                                        FaultV::UnexpectedChar(tok_byte(s, j, form)),
                                        j + tok_width(s, j, form),
                                    ),
                                )
                            } else {
                                match sp_finish_entry(s, m, seg, j, form) {
                                    Ok((m2, p)) => Ok((ValueV::Mapping(m2), p)),
                                    Err(e) => Err(e),
                                }
                            }
                        }
                    }
                },
            }
        }
    }
}

/// The top level: entries separated by `&`, from `i` on, added to `m`.
pub open spec fn sp_root(s: Seq<u8>, i: int, m: MapV, cfg: Config) -> Result<MapV, (FaultV, int)>
    decreases s.len() + 1 - i,
{
    let form = cfg.use_form_encoding;
    if i >= s.len() || i < 0 {
        Ok(m)
    } else {
        let stop = if cfg.max_depth == 0 {
            Stop::Flat
        } else {
            Stop::Root
        };
        let t = scan(s, i, form, stop);
        let key = if t == i {
            KeyV::Str(Seq::empty())
        } else {
            key_of(s.subrange(i, t))
        };
        if t < s.len() && tok_byte(s, t, form) == 0x5b {
            let w = tok_width(s, t, form);
            match sp_nested(s, t + w, t + w, get_or_uninit(m, key), 0, key, cfg) {
                Ok((v, p)) => {
                    proof {
                        lemma_scan(s, i, form, stop);
                        lemma_nested_pos(s, t + w, t + w, get_or_uninit(m, key), 0, key, cfg);
                        assert(p > i);
                    }
                    sp_root(s, p, map_set(m, key, v), cfg)
                },
                Err(e) => Err(e),
            }
        } else if t == i && t < s.len() && tok_byte(s, t, form) == 0x26 {
            sp_root(s, t + 1, m, cfg)
        } else {
            match sp_finish_entry(s, m, key, t, form) {
                Ok((m2, p)) => {
                    proof {
                        lemma_scan(s, i, form, stop);
                        lemma_finish_pos(s, m, key, t, form);
                        assert(p > i);
                    }
                    sp_root(s, p, m2, cfg)
                },
                Err(e) => Err(e),
            }
        }
    }
}

/// What parsing a whole querystring gives.
pub open spec fn spec_parse(s: Seq<u8>, cfg: Config) -> Result<MapV, (FaultV, int)> {
    sp_root(s, 0, Seq::empty(), cfg)
}

/// Finishing an entry moves past its key.
pub proof fn lemma_finish_pos(s: Seq<u8>, m: MapV, k: KeyV, t: int, form: bool)
    requires
        0 <= t <= s.len(),
    ensures
        sp_finish_entry(s, m, k, t, form) matches Ok((_, p)) ==> t < p <= s.len() + 1,
{
    if t < s.len() {
        lemma_scan(s, t + 1, form, Stop::Amp);
    }
}

/// Reading a nested key moves past its start.
pub proof fn lemma_nested_pos(
    s: Seq<u8>,
    i: int,
    kstart: int,
    node: ValueV,
    depth: nat,
    parent: KeyV,
    cfg: Config,
)
    ensures
        sp_nested(s, i, kstart, node, depth, parent, cfg) matches Ok((_, p)) ==> i < p <= s.len() + 1,
    decreases s.len() - i,
{
    let form = cfg.use_form_encoding;
    if 0 <= i < s.len() {
        let i1 = i + tok_width(s, i, form);
        assert(i1 <= s.len());
        if i1 < s.len() {
            lemma_scan(s, i1 + 1, form, Stop::Amp);
        }
        if i1 <= s.len() {
            lemma_scan(s, i1, form, Stop::Flat);
            lemma_scan(s, i1, form, Stop::Close);
            let tf = scan(s, i1, form, Stop::Flat);
            lemma_finish_pos(s, Seq::empty(), key_of(s.subrange(kstart, tf)), tf, form);
            match node {
                ValueV::Mapping(mm) => {
                    lemma_finish_pos(s, mm, key_of(s.subrange(kstart, tf)), tf, form);
                },
                _ => {},
            }
            let t = scan(s, i1, form, Stop::Close);
            if t < s.len() {
                let seg = key_of(s.subrange(i, t));
                let j = t + tok_width(s, t, form);
                let m = match node {
                    ValueV::Mapping(mm) => mm,
                    _ => Seq::empty(),
                };
                if j <= s.len() {
                    lemma_finish_pos(s, m, seg, j, form);
                }
                if j < s.len() && tok_byte(s, j, form) == 0x5b {
                    lemma_nested_pos(
                        s,
                        j + tok_width(s, j, form),
                        j,
                        get_or_uninit(m, seg),
                        depth + 1,
                        seg,
                        cfg,
                    );
                }
            }
        }
    }
}

/// A prefix of a run of digits is worth no more than the whole run.
pub proof fn lemma_digits_prefix(b: Seq<u8>, k: int)
    requires
        0 <= k <= b.len(),
    ensures
        digits_value(b.subrange(0, k)) <= digits_value(b),
    decreases b.len(),
{
    if k < b.len() {
        lemma_digits_prefix(b.drop_last(), k);
        assert(b.drop_last().subrange(0, k) =~= b.subrange(0, k));
    } else {
        assert(b.subrange(0, k) =~= b);
    }
}

/// A key read from raw bytes.
pub fn key_from_bytes(b: &[u8]) -> (r: Key)
    ensures
        r@ == key_of(b@),
{
    let n = b.len();
    if n > 0 {
        let mut i: usize = 0;
        let mut v: usize = 0;
        let mut fits = true;
        assert(b@.subrange(0, 0) =~= Seq::<u8>::empty());
        while i < n && fits
            invariant
                n == b@.len(),
                0 <= i <= n,
                fits ==> v as nat == digits_value(b@.subrange(0, i as int)),
                fits ==> all_digits(b@.subrange(0, i as int)),
                !fits ==> (!all_digits(b@) || digits_value(b@) > usize::MAX),
            decreases n - i + (if fits { 1int } else { 0int }),
        {
            let c: u8 = b[i];
            if c < 0x30 || c > 0x39 {
                fits = false;
                proof {
                    assert(!is_digit(b@[i as int]));
                }
            } else {
                let d: usize = (c - 0x30) as usize;
                proof {
                    let sub = b@.subrange(0, i + 1);
                    let pre = b@.subrange(0, i as int);
                    assert(sub.drop_last() =~= pre);
                    assert(sub.last() == c);
                    assert(all_digits(sub)) by {
                        assert forall|j: int| 0 <= j < sub.len() implies is_digit(#[trigger] sub[j]) by {
                            if j < i {
                                assert(sub[j] == pre[j]);
                                assert(is_digit(pre[j]));
                            } else {
                                assert(sub[j] == c);
                            }
                        }
                    }
                }
                if v > (usize::MAX - d) / 10 {
                    proof {
                        assert(v * 10 + d > usize::MAX) by (nonlinear_arith)
                            requires
                                v > (usize::MAX - d) / 10,
                                d <= 9,
                        ;
                        lemma_digits_prefix(b@, i + 1);
                    }
                    fits = false;
                } else {
                    proof {
                        assert(v * 10 + d <= usize::MAX) by (nonlinear_arith)
                            requires
                                v <= (usize::MAX - d) / 10,
                                d <= 9,
                        ;
                    }
                    v = v * 10 + d;
                    i = i + 1;
                }
            }
        }
        if fits {
            assert(b@.subrange(0, n as int) =~= b@);
            return Key::Int(v);
        }
    }
    Key::String(decode(b))
}

/// A value read from raw bytes.
pub fn value_from_bytes(b: &[u8]) -> (r: ParsedValue)
    ensures
        r@ == value_of(b@),
{
    if b.len() == 0 {
        ParsedValue::Null
    } else {
        ParsedValue::String(decode(b))
    }
}

pub open spec fn map_result(r: Result<ParsedMap, Fault>) -> Result<MapV, FaultV> {
    match r {
        Ok(m) => Ok(m@),
        Err(f) => Err(f@),
    }
}

/// Adds a key and its value, as `sp_insert` says.
pub fn insert_unique(m: ParsedMap, k: Key, v: ParsedValue) -> (r: Result<ParsedMap, Fault>)
    ensures
        map_result(r) == sp_insert(m@, k@, v@),
{
    let mut m = m;
    let ghost before = m@;
    proof {
        lemma_find_key_range(before, k@);
    }
    let (old_v, at) = m.take(&k);
    assert(at matches Some(j) ==> find_key(before, k@) == Some(j as int) && m@ == before.remove(j as int));
    match at {
        None => {
            m.put_back(k, v, None, Ghost(before));
            Ok(m)
        },
        Some(j) => {
            match old_v {
                ParsedValue::Sequence(vs) => {
                    let ghost vv = v@;
                    let mut vs = vs;
                    proof {
                        lemma_sequence_view(vs);
                    }
                    let ghost old_vs = values_view(vs@);
                    vs.push(v);
                    proof {
                        lemma_sequence_view(vs);
                        assert(values_view(vs@) =~= old_vs.push(vv));
                    }
                    let nv = ParsedValue::Sequence(vs);
                    m.put_back(k, nv, Some(j), Ghost(before));
                    Ok(m)
                },
                ParsedValue::String(x) => {
                    let ghost xv = x@;
                    let ghost vv = v@;
                    let mut vs: Vec<ParsedValue> = Vec::new();
                    vs.push(ParsedValue::String(x));
                    vs.push(v);
                    proof {
                        lemma_sequence_view(vs);
                        assert(values_view(vs@) =~= seq![ValueV::Str(xv), vv]);
                    }
                    let nv = ParsedValue::Sequence(vs);
                    m.put_back(k, nv, Some(j), Ghost(before));
                    Ok(m)
                },
                ParsedValue::Uninitialized => Err(Fault::Uninitialized(k)),
                _ => Err(Fault::Multiple(k)),
            }
        },
    }
}

/// A stateful querystring parser. It walks the input once, keeping the
/// range `acc` of the key or value being read.
pub struct Parser<'qs> {
    inner: &'qs [u8],
    index: usize,
    acc: (usize, usize),
    config: Config,
}

impl<'qs> Parser<'qs> {
    pub closed spec fn input(&self) -> Seq<u8> {
        self.inner@
    }

    pub closed spec fn position(&self) -> usize {
        self.index
    }

    pub closed spec fn accumulator(&self) -> (usize, usize) {
        self.acc
    }

    pub closed spec fn cfg(&self) -> Config {
        self.config
    }

    /// The input is short enough that positions past its end fit a `usize`.
    pub open spec fn fits(&self) -> bool {
        self.input().len() + 3 <= usize::MAX
    }

    pub fn new(encoded: &'qs [u8], config: Config) -> (r: Parser<'qs>)
        ensures
            r.input() == encoded@,
            r.position() == 0,
            r.accumulator() == (0usize, 0usize),
            r.cfg() == config,
    {
        Parser { inner: encoded, index: 0, acc: (0, 0), config }
    }

    /// Reads the next token: a byte, or in form encoding a bracket written
    /// as `%5B` or `%5D`.
    fn next(&mut self) -> (r: Option<u8>)
        requires
            old(self).fits(),
            old(self).index <= old(self).inner@.len() + 1,
        ensures
            final(self).inner == old(self).inner,
            final(self).config == old(self).config,
            final(self).acc == (old(self).acc.0, old(self).index),
            old(self).index < old(self).inner@.len() ==> r == Some(
                tok_byte(old(self).inner@, old(self).index as int, old(self).config.use_form_encoding),
            ) && final(self).index == old(self).index + tok_width(
                old(self).inner@,
                old(self).index as int,
                old(self).config.use_form_encoding,
            ),
            old(self).index >= old(self).inner@.len() ==> r is None && final(self).index
                == old(self).index + 1,
    {
        let idx = self.index;
        self.acc.1 = idx;
        if idx >= self.inner.len() {
            self.index = idx + 1;
            return None;
        }
        let b: u8 = self.inner[idx];
        self.index = idx + 1;
        if self.config.use_form_encoding && b == 0x25 && idx + 3 <= self.inner.len()
            && self.inner[idx + 1] == 0x35 {
            let c: u8 = self.inner[idx + 2];
            if c == 0x42 || c == 0x62 {
                self.index = idx + 3;
                return Some(0x5b);
            }
            if c == 0x44 || c == 0x64 {
                self.index = idx + 3;
                return Some(0x5d);
            }
        }
        Some(b)
    }

    /// Starts a new accumulator range at the current position.
    fn clear_acc(&mut self)
        ensures
            final(self).inner == old(self).inner,
            final(self).config == old(self).config,
            final(self).index == old(self).index,
            final(self).acc == (old(self).index, old(self).index),
    {
        self.acc = (self.index, self.index);
    }

    /// Reads tokens up to and including the first that stops the scan, or
    /// past the end of the input; returns that token.
    fn advance(&mut self, stop: Stop) -> (x: Option<u8>)
        requires
            old(self).fits(),
            old(self).index <= old(self).inner@.len(),
        ensures
            final(self).inner == old(self).inner,
            final(self).config == old(self).config,
            final(self).acc.0 == old(self).acc.0,
            ({
                let s = old(self).inner@;
                let form = old(self).config.use_form_encoding;
                let t = final(self).acc.1 as int;
                &&& t == scan(s, old(self).index as int, form, stop)
                &&& old(self).index <= t <= s.len()
                &&& t < s.len() ==> x == Some(tok_byte(s, t, form)) && final(self).index == t + tok_width(s, t, form)
                &&& t == s.len() ==> x is None && final(self).index == t + 1
                &&& x matches Some(b) ==> is_stop(b, stop)
            }),
    {
        let ghost s = self.inner@;
        let ghost form = self.config.use_form_encoding;
        let ghost cfg0 = self.config;
        let ghost inner0 = self.inner;
        let ghost acc0 = self.acc.0;
        let ghost start = self.index;
        let mut x: Option<u8> = None;
        loop
            invariant_except_break
                self.inner == inner0,
                self.inner@ == s,
                self.config == cfg0,
                self.config.use_form_encoding == form,
                self.fits(),
                self.acc.0 == acc0,
                start <= self.index <= s.len(),
                scan(s, start as int, form, stop) == scan(s, self.index as int, form, stop),
            ensures
                self.inner == inner0,
                self.config == cfg0,
                self.acc.0 == acc0,
                self.acc.1 == scan(s, start as int, form, stop),
                start <= self.acc.1 <= s.len(),
                self.acc.1 < s.len() ==> x == Some(tok_byte(s, self.acc.1 as int, form))
                    && self.index == self.acc.1 + tok_width(s, self.acc.1 as int, form),
                self.acc.1 == s.len() ==> x is None && self.index == self.acc.1 + 1,
                x matches Some(b) ==> is_stop(b, stop),
            decreases s.len() - self.index,
        {
            let y = self.next();
            x = y;
            match y {
                None => {
                    break;
                },
                Some(b) => {
                    if is_stop_exec(b, stop) {
                        break;
                    }
                },
            }
        }
        proof {
            lemma_scan(s, start as int, form, stop);
        }
        x
    }

    /// The key in the accumulator range, if it is not empty.
    fn collect_key(&mut self) -> (r: Option<Key>)
        requires
            old(self).acc.0 <= old(self).acc.1 <= old(self).inner@.len(),
        ensures
            final(self).inner == old(self).inner,
            final(self).config == old(self).config,
            final(self).index == old(self).index,
            final(self).acc == (old(self).index, old(self).index),
            old(self).acc.0 == old(self).acc.1 ==> r is None,
            old(self).acc.0 < old(self).acc.1 ==> (r matches Some(k) && k@ == key_of(
                old(self).inner@.subrange(old(self).acc.0 as int, old(self).acc.1 as int),
            )),
    {
        if self.acc.0 == self.acc.1 {
            self.clear_acc();
            return None;
        }
        let bytes = vstd::slice::slice_subrange(self.inner, self.acc.0, self.acc.1);
        let key = key_from_bytes(bytes);
        self.clear_acc();
        Some(key)
    }

    /// The value from the current position up to the next `&`.
    fn collect_value(&mut self) -> (r: ParsedValue)
        requires
            old(self).fits(),
            old(self).index <= old(self).inner@.len(),
        ensures
            ({
                let e = scan(
                    old(self).inner@,
                    old(self).index as int,
                    old(self).config.use_form_encoding,
                    Stop::Amp,
                );
                &&& r@ == value_of(old(self).inner@.subrange(old(self).index as int, e))
                &&& final(self).index == e + 1
                &&& final(self).acc == (final(self).index, final(self).index)
            }),
            final(self).inner == old(self).inner,
            final(self).config == old(self).config,
    {
        let ghost s = self.inner@;
        let ghost form = self.config.use_form_encoding;
        let ghost cfg0 = self.config;
        let ghost inner0 = self.inner;
        self.clear_acc();
        let start = self.index;
        let _ = self.advance(Stop::Amp);
        proof {
            lemma_scan(s, start as int, form, Stop::Amp);
        }
        let value = if self.acc.0 == self.acc.1 {
            ParsedValue::Null
        } else {
            value_from_bytes(vstd::slice::slice_subrange(self.inner, self.acc.0, self.acc.1))
        };
        self.clear_acc();
        value
    }

    /// Ends an entry whose key is complete, after reading the token `x`
    /// (`&`, `=` or the end of the input): inserts the key with no value,
    /// or with the value up to the next `&`.
    fn finish_entry(&mut self, m: ParsedMap, key: Key, x: Option<u8>, Ghost(t): Ghost<int>) -> (r: Result<ParsedMap, ParseFailure>)
        requires
            old(self).fits(),
            0 <= t <= old(self).inner@.len(),
            t < old(self).inner@.len() ==> x == Some(
                tok_byte(old(self).inner@, t, old(self).config.use_form_encoding),
            ) && old(self).index == t + tok_width(
                old(self).inner@,
                t,
                old(self).config.use_form_encoding,
            ),
            t == old(self).inner@.len() ==> x is None && old(self).index == t + 1,
            x matches Some(b) ==> b == 0x26 || b == 0x3d,
        ensures
            final(self).inner == old(self).inner,
            final(self).config == old(self).config,
            match sp_finish_entry(
                old(self).inner@,
                m@,
                key@,
                t,
                old(self).config.use_form_encoding,
            ) {
                Ok((m2, p)) => r matches Ok(rm) && rm@ == m2 && final(self).index == p,
                Err((f, p)) => r matches Err(e) && e.fault@ == f && e.position == p,
            },
    {
        match x {
            Some(b) => {
                if b == 0x3d {
                    let v = self.collect_value();
                    match insert_unique(m, key, v) {
                        Ok(m2) => Ok(m2),
                        Err(f) => Err(ParseFailure { fault: f, position: self.index }),
                    }
                } else {
                    match insert_unique(m, key, ParsedValue::NoValue) {
                        Ok(m2) => Ok(m2),
                        Err(f) => Err(ParseFailure { fault: f, position: self.index }),
                    }
                }
            },
            None => {
                match insert_unique(m, key, ParsedValue::NoValue) {
                    Ok(m2) => Ok(m2),
                    Err(f) => Err(ParseFailure { fault: f, position: self.index }),
                }
            },
        }
    }

    /// The element after `key[]`.
    fn parse_sequence_value(&mut self, vs: Vec<ParsedValue>) -> (r: Result<Vec<ParsedValue>, ParseFailure>)
        requires
            old(self).fits(),
            old(self).index <= old(self).inner@.len(),
        ensures
            final(self).inner == old(self).inner,
            final(self).config == old(self).config,
            match sp_seq_value(
                old(self).inner@,
                old(self).index as int,
                values_view(vs@),
                old(self).config.use_form_encoding,
            ) {
                Ok((vs2, p)) => r matches Ok(rv) && values_view(rv@) == vs2 && final(self).index == p,
                Err((f, p)) => r matches Err(e) && e.fault@ == f && e.position == p,
            },
    {
        let mut vs = vs;
        let ghost before = values_view(vs@);
        let x = self.next();
        match x {
            Some(b) => {
                if b == 0x3d {
                    let v = self.collect_value();
                    let ghost vv = v@;
                    vs.push(v);
                    assert(values_view(vs@) =~= before.push(vv));
                    Ok(vs)
                } else if b == 0x26 {
                    vs.push(ParsedValue::NoValue);
                    assert(values_view(vs@) =~= before.push(ValueV::NoValue));
                    Ok(vs)
                } else if b == 0x5b {
                    Err(ParseFailure { fault: Fault::NestedUnindexed, position: self.index })
                } else {
                    Err(ParseFailure { fault: Fault::MixedSequence, position: self.index })
                }
            },
            None => {
                vs.push(ParsedValue::NoValue);
                assert(values_view(vs@) =~= before.push(ValueV::NoValue));
                Ok(vs)
            },
        }
    }

    /// Parses the rest of a nested key, just after an opening bracket, into
    /// `node`, the value found under `parent`.
    fn parse_nested_key(&mut self, node: ParsedValue, depth: usize, parent: &Key) -> (r: Result<ParsedValue, ParseFailure>)
        requires
            old(self).fits(),
            old(self).index <= old(self).inner@.len(),
            old(self).acc.0 <= old(self).index,
            depth <= old(self).config.max_depth,
        ensures
            final(self).inner == old(self).inner,
            final(self).config == old(self).config,
            match sp_nested(
                old(self).inner@,
                old(self).index as int,
                old(self).acc.0 as int,
                node@,
                depth as nat,
                parent@,
                old(self).config,
            ) {
                Ok((v, p)) => r matches Ok(rv) && rv@ == v && final(self).index == p,
                Err((f, p)) => r matches Err(e) && e.fault@ == f && e.position == p,
            },
        decreases old(self).inner@.len() - old(self).index,
    {
        let ghost s = self.inner@;
        let ghost form = self.config.use_form_encoding;
        let ghost cfg0 = self.config;
        let ghost inner0 = self.inner;
        let ghost i = self.index;
        let ghost kstart = self.acc.0;
        let reached = depth >= self.config.max_depth;
        if !reached {
            self.clear_acc();
        }
        let first = self.next();
        let b0 = match first {
            None => {
                return Err(ParseFailure { fault: Fault::EndedEarly, position: self.index });
            },
            Some(b) => b,
        };
        let ghost i1 = self.index;
        if b0 == 0x5d {
            match node {
                ParsedValue::Sequence(vs) => {
                    proof {
                        lemma_sequence_view(vs);
                    }
                    match self.parse_sequence_value(vs) {
                        Ok(vs2) => {
                            proof {
                                lemma_sequence_view(vs2);
                            }
                            Ok(ParsedValue::Sequence(vs2))
                        },
                        Err(e) => Err(e),
                    }
                },
                ParsedValue::Uninitialized => {
                    let empty: Vec<ParsedValue> = Vec::new();
                    assert(values_view(empty@) =~= Seq::<ValueV>::empty());
                    match self.parse_sequence_value(empty) {
                        Ok(vs2) => {
                            proof {
                                lemma_sequence_view(vs2);
                            }
                            Ok(ParsedValue::Sequence(vs2))
                        },
                        Err(e) => Err(e),
                    }
                },
                ParsedValue::Mapping(m) => {
                    proof {
                        lemma_mapping_view(m);
                    }
                    let keys = m.keys();
                    assert(keys_view(keys@) =~= map_keys(m@));
                    Err(
                        ParseFailure {
                            fault: Fault::MapAndSequence(parent.duplicate(), keys),
                            position: self.index,
                        },
                    )
                },
                _ => Err(ParseFailure { fault: Fault::ValueAndSequence, position: self.index }),
            }
        } else {
            let m = match node {
                ParsedValue::Mapping(m) => {
                    proof {
                        lemma_mapping_view(m);
                    }
                    m
                },
                ParsedValue::Uninitialized => ParsedMap::new(),
                ParsedValue::Sequence(_) => {
                    return Err(ParseFailure { fault: Fault::SequenceAndMap, position: self.index });
                },
                ParsedValue::String(_) => {
                    return Err(ParseFailure { fault: Fault::ValueAndMap, position: 0 });
                },
                _ => {
                    return Err(ParseFailure { fault: Fault::UnitAndMap, position: 0 });
                },
            };
            if reached {
                let x = self.advance(Stop::Flat);
                proof {
                    lemma_scan(s, i1 as int, form, Stop::Flat);
                }
                let key = match self.collect_key() {
                    Some(k) => k,
                    None => {
                        assert(false);
                        Key::empty_key()
                    },
                };
                let ghost t = scan(s, i1 as int, form, Stop::Flat);
                match self.finish_entry(m, key, x, Ghost(t)) {
                    Ok(m2) => {
                        proof {
                            lemma_mapping_view(m2);
                        }
                        Ok(ParsedValue::Mapping(m2))
                    },
                    Err(e) => Err(e),
                }
            } else {
                let _ = self.advance(Stop::Close);
                if self.acc.1 >= self.inner.len() {
                    return Err(ParseFailure { fault: Fault::UnexpectedEnd, position: self.index });
                }
                proof {
                    lemma_scan(s, i1 as int, form, Stop::Close);
                }
                let seg = match self.collect_key() {
                    Some(k) => k,
                    None => {
                        assert(false);
                        Key::empty_key()
                    },
                };
                let ghost j = self.index;
                let x = self.next();
                match x {
                    Some(b) => {
                        if b == 0x5b {
                            let mut m = m;
                            let ghost before = m@;
                            let (child, at) = m.take(&seg);
                            let child2 = match self.parse_nested_key(child, depth + 1, &seg) {
                                Ok(c) => c,
                                Err(e) => {
                                    return Err(e);
                                },
                            };
                            m.put_back(seg, child2, at, Ghost(before));
                            proof {
                                lemma_mapping_view(m);
                            }
                            return Ok(ParsedValue::Mapping(m));
                        } else if b != 0x26 && b != 0x3d {
                            return Err(ParseFailure { fault: Fault::UnexpectedChar(b), position: self.index });
                        }
                    },
                    None => {},
                }
                match self.finish_entry(m, seg, x, Ghost(j as int)) {
                    Ok(m2) => {
                        proof {
                            lemma_mapping_view(m2);
                        }
                        Ok(ParsedValue::Mapping(m2))
                    },
                    Err(e) => Err(e),
                }
            }
        }
    }


    /// Parses the whole input into a map, entry by entry.
    pub fn parse(&mut self) -> (r: Result<ParsedMap, ParseFailure>)
        requires
            old(self).fits(),
            old(self).position() == 0,
            old(self).accumulator() == (0usize, 0usize),
        ensures
            parse_outcome(r, spec_parse(old(self).input(), old(self).cfg())),
    {
        let ghost s = self.inner@;
        let ghost cfg0 = self.config;
        let ghost inner0 = self.inner;
        let mut m = ParsedMap::new();
        if self.inner.len() == 0 {
            return Ok(m);
        }
        let stop = if self.config.max_depth == 0 {
            Stop::Flat
        } else {
            Stop::Root
        };
        loop
            invariant
                self.inner == inner0,
                self.inner@ == s,
                self.config == cfg0,
                self.fits(),
                self.acc.0 == self.index,
                self.index < s.len(),
                stop == (if cfg0.max_depth == 0 { Stop::Flat } else { Stop::Root }),
                s == old(self).input(),
                cfg0 == old(self).cfg(),
                sp_root(s, self.index as int, m@, cfg0) == spec_parse(s, cfg0),
            decreases s.len() - self.index,
        {
            let ghost i = self.index as int;
            let ghost before = m@;
            let x = self.advance(stop);
            let ghost t = self.acc.1 as int;
            let key_opt = self.collect_key();
            let is_open = match x {
                Some(b) => b == 0x5b,
                None => false,
            };
            let is_skip = match x {
                Some(b) => b == 0x26 && key_opt.is_none(),
                None => false,
            };
            if is_open {
                let root = match key_opt {
                    Some(k) => k,
                    None => Key::empty_key(),
                };
                let (node, at) = m.take(&root);
                let v = match self.parse_nested_key(node, 0, &root) {
                    Ok(v) => v,
                    Err(e) => {
                        return Err(e);
                    },
                };
                m.put_back(root, v, at, Ghost(before));
                proof {
                    lemma_nested_pos(s, t + tok_width(s, t, cfg0.use_form_encoding), t + tok_width(s, t, cfg0.use_form_encoding),
                        get_or_uninit(before, if t == i { KeyV::Str(Seq::empty()) } else { key_of(s.subrange(i, t)) }), 0,
                        if t == i { KeyV::Str(Seq::empty()) } else { key_of(s.subrange(i, t)) }, cfg0);
                }
            } else if is_skip {
            } else {
                let key = match key_opt {
                    Some(k) => k,
                    None => Key::empty_key(),
                };
                m = match self.finish_entry(m, key, x, Ghost(t)) {
                    Ok(m2) => m2,
                    Err(e) => {
                        return Err(e);
                    },
                };
                proof {
                    lemma_finish_pos(s, before, if t == i { KeyV::Str(Seq::empty()) } else { key_of(s.subrange(i, t)) }, t, cfg0.use_form_encoding);
                }
            }
            self.clear_acc();
            if self.index >= self.inner.len() {
                return Ok(m);
            }
        }
    }

}

/// Whether an exec parse result is the spec outcome.
pub open spec fn parse_outcome(r: Result<ParsedMap, ParseFailure>, o: Result<MapV, (FaultV, int)>) -> bool {
    match o {
        Ok(m) => r matches Ok(rm) && rm@ == m,
        Err((f, p)) => r matches Err(e) && e.fault@ == f && e.position == p,
    }
}

/// Parses a querystring into its tree of keys and values.
pub fn parse(encoded: &[u8], config: Config) -> (r: Result<ParsedMap, ParseFailure>)
    requires
        encoded@.len() + 3 <= usize::MAX,
    ensures
        parse_outcome(r, spec_parse(encoded@, config)),
{
    let mut parser = Parser::new(encoded, config);
    parser.parse()
}

} // verus!
