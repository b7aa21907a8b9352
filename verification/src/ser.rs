use vstd::prelude::*;
use vstd::string::StringSliceAdditionalSpecFns;
use crate::config::{ArrayFormat, Config};
use crate::encode::{encode, encode_into, spec_encode};
use crate::error::Error;
use crate::text::{all_ascii, ascii_chars, ascii_string, char_string, dec_int, dec_nat, fmt_i64, fmt_u64};
use vstd::utf8::encode_utf8;

verus! {

/// `[` as a key segment opens in the given encoding.
pub open spec fn open_bracket(form: bool) -> Seq<u8> {
    if form {
        seq![0x25u8, 0x35u8, 0x42u8]
    } else {
        seq![0x5bu8]
    }
}

/// `]` as a key segment closes in the given encoding.
pub open spec fn close_bracket(form: bool) -> Seq<u8> {
    if form {
        seq![0x25u8, 0x35u8, 0x44u8]
    } else {
        seq![0x5du8]
    }
}

/// The bytes of a key whose encoding is written: the key itself in
/// query-string encoding; in form encoding the key percent-encoded once
/// already, so that the key is written percent-encoded twice
/// (`{ a: { "[x]": 1 } }` is written `a%5B%255Bx%255D%5D=1`).
pub open spec fn key_bytes(k: Seq<u8>, form: bool) -> Seq<u8> {
    if form {
        spec_encode(k, true)
    } else {
        k
    }
}

/// A key segment: the first is the encoded key bytes, the later ones are
/// bracketed.
pub open spec fn key_segment(k: Seq<u8>, first: bool, form: bool) -> Seq<u8> {
    if first {
        spec_encode(key_bytes(k, form), form)
    } else {
        open_bracket(form) + spec_encode(key_bytes(k, form), form) + close_bracket(form)
    }
}

/// The bytes of a key whose encoding is written, as `key_bytes` says.
fn key_bytes_of(k: &[u8], form: bool) -> (r: Vec<u8>)
    ensures
        r@ == key_bytes(k@, form),
{
    if form {
        encode(k, true)
    } else {
        vstd::slice::slice_to_vec(k)
    }
}

/// The segments written one after another.
pub open spec fn concat_segments(ks: Seq<Seq<u8>>) -> Seq<u8>
    decreases ks.len(),
{
    if ks.len() == 0 {
        Seq::empty()
    } else {
        concat_segments(ks.drop_last()) + ks.last()
    }
}

/// The separator before a pair: none before the first.
pub open spec fn separator(first: bool) -> Seq<u8> {
    if first {
        Seq::empty()
    } else {
        seq![0x26u8]
    }
}

/// What writing the key stack adds: nothing for an empty stack, else the
/// separator and the full key.
pub open spec fn stack_text(ks: Seq<Seq<u8>>, first: bool) -> Seq<u8> {
    if ks.len() == 0 {
        Seq::empty()
    } else {
        separator(first) + concat_segments(ks)
    }
}

proof fn lemma_encode_ascii(s: Seq<u8>, f: bool)
    ensures
        all_ascii(spec_encode(s, f)),
    decreases s.len(),
{
    if s.len() > 0 {
        lemma_encode_ascii(s.drop_last(), f);
        let a = spec_encode(s.drop_last(), f);
        let b = crate::encode::encode_byte(s.last(), f);
        let c = s.last();
        assert(all_ascii(b)) by {
            assert((c / 16) < 16 && (c % 16) < 16);
        }
        assert(all_ascii(a + b)) by {
            assert forall|i: int| 0 <= i < (a + b).len() implies (a + b)[i] < 0x80 by {
                if i < a.len() {
                    assert((a + b)[i] == a[i]);
                } else {
                    assert((a + b)[i] == b[i - a.len()]);
                }
            }
        }
    }
}

proof fn lemma_ascii_concat(a: Seq<u8>, b: Seq<u8>)
    requires
        all_ascii(a),
        all_ascii(b),
    ensures
        all_ascii(a + b),
{
    assert forall|i: int| 0 <= i < (a + b).len() implies (a + b)[i] < 0x80 by {
        if i < a.len() {
            assert((a + b)[i] == a[i]);
        } else {
            assert((a + b)[i] == b[i - a.len()]);
        }
    }
}

proof fn lemma_concat_ascii(ks: Seq<Seq<u8>>)
    requires
        forall|i: int| 0 <= i < ks.len() ==> all_ascii(#[trigger] ks[i]),
    ensures
        all_ascii(concat_segments(ks)),
    decreases ks.len(),
{
    if ks.len() > 0 {
        lemma_concat_ascii(ks.drop_last());
        lemma_ascii_concat(concat_segments(ks.drop_last()), ks.last());
    }
}

/// A serializer for the querystring format.
///
/// It keeps a stack of key segments for nested structures: serializing
/// `{user: {name: "John"}}` pushes `user`, then writes `user[name]=John`.
pub struct QsSerializer {
    writer: Vec<u8>,
    first_kv: bool,
    key: Vec<Vec<u8>>,
    config: Config,
}

impl QsSerializer {
    /// What has been written.
    pub closed spec fn written(&self) -> Seq<u8> {
        self.writer@
    }

    /// Whether no pair has been written yet.
    pub closed spec fn at_first(&self) -> bool {
        self.first_kv
    }

    /// The key segments of the enclosing structures.
    pub closed spec fn key_stack(&self) -> Seq<Seq<u8>> {
        Seq::new(self.key@.len(), |i: int| self.key@[i]@)
    }

    pub closed spec fn cfg(&self) -> Config {
        self.config
    }

    /// What is written is ASCII, and so is every key segment.
    pub closed spec fn wf(&self) -> bool {
        &&& all_ascii(self.writer@)
        &&& forall|i: int| 0 <= i < self.key@.len() ==> all_ascii(#[trigger] self.key@[i]@)
    }

    /// Creates a serializer that writes into a buffer.
    pub fn new(config: Config) -> (r: QsSerializer)
        ensures
            r.wf(),
            r.written() == Seq::<u8>::empty(),
            r.at_first(),
            r.key_stack() == Seq::<Seq<u8>>::empty(),
            r.cfg() == config,
    {
        let r = QsSerializer { writer: Vec::new(), first_kv: true, key: Vec::new(), config };
        assert(r.key_stack() =~= Seq::<Seq<u8>>::empty());
        r
    }

    /// The text written, which is always ASCII.
    pub fn into_string(self) -> (r: String)
        requires
            self.wf(),
        ensures
            r@ == ascii_chars(self.written()),
    {
        ascii_string(&self.writer)
    }

    /// The bytes written.
    pub fn into_bytes(self) -> (r: Vec<u8>)
        ensures
            r@ == self.written(),
    {
        self.writer
    }

    /// Pushes a key segment for a nested structure: `user`, then `[name]`.
    /// A segment deeper than `max_depth` is refused.
    pub fn push_key(&mut self, newkey: &[u8]) -> (r: Result<(), Error>)
        requires
            old(self).wf(),
        ensures
            final(self).wf(),
            final(self).cfg() == old(self).cfg(),
            final(self).written() == old(self).written(),
            final(self).at_first() == old(self).at_first(),
            old(self).key_stack().len() > old(self).cfg().max_depth ==> (r matches Err(
                Error::MaxSerializationDepthExceeded(d),
            ) && d == old(self).cfg().max_depth && final(self).key_stack() == old(self).key_stack()),
            old(self).key_stack().len() <= old(self).cfg().max_depth ==> r is Ok && final(self).key_stack()
                == old(self).key_stack().push(
                key_segment(
                    newkey@,
                    old(self).key_stack().len() == 0,
                    old(self).cfg().use_form_encoding,
                ),
            ),
    {
        if self.key.len() > self.config.max_depth {
            return Err(Error::MaxSerializationDepthExceeded(self.config.max_depth));
        }
        let first_key_segment = self.key.len() == 0;
        let form = self.config.use_form_encoding;
        let mut segment: Vec<u8> = Vec::new();
        if !first_key_segment {
            if form {
                segment.push(0x25);
                segment.push(0x35);
                segment.push(0x42);
            } else {
                segment.push(0x5b);
            }
        }
        let ghost opening = segment@;
        let kb = key_bytes_of(newkey, form);
        encode_into(&mut segment, kb.as_slice(), form);
        let ghost with_key = segment@;
        if !first_key_segment {
            if form {
                segment.push(0x25);
                segment.push(0x35);
                segment.push(0x44);
            } else {
                segment.push(0x5d);
            }
        }
        proof {
            if first_key_segment {
                assert(segment@ =~= key_segment(newkey@, true, form));
            } else {
                assert(segment@ =~= key_segment(newkey@, false, form));
            }
            lemma_encode_ascii(kb@, form);
            let kseg = key_segment(newkey@, first_key_segment, form);
            if !first_key_segment {
                lemma_ascii_concat(open_bracket(form), spec_encode(kb@, form));
                lemma_ascii_concat(open_bracket(form) + spec_encode(kb@, form), close_bracket(form));
            }
        }
        let ghost before = self.key_stack();
        self.key.push(segment);
        assert(self.key_stack() =~= before.push(segment@));
        Ok(())
    }

    /// Pops the innermost key segment.
    pub fn pop_key(&mut self) -> (r: Result<(), Error>)
        requires
            old(self).wf(),
        ensures
            final(self).wf(),
            final(self).cfg() == old(self).cfg(),
            final(self).written() == old(self).written(),
            final(self).at_first() == old(self).at_first(),
            old(self).key_stack().len() == 0 ==> (r matches Err(Error::Custom(m)) && m@
                == "internal error: no key found"@ && final(self).key_stack() == old(self).key_stack()),
            old(self).key_stack().len() > 0 ==> r is Ok && final(self).key_stack()
                == old(self).key_stack().drop_last(),
    {
        if self.key.len() == 0 {
            return Err(Error::custom("internal error: no key found"));
        }
        let ghost before = self.key_stack();
        let _ = self.key.pop();
        assert(self.key_stack() =~= before.drop_last());
        Ok(())
    }

    /// Writes the separator unless this is the first pair.
    fn write_separator(&mut self)
        requires
            old(self).wf(),
        ensures
            final(self).wf(),
            final(self).key == old(self).key,
            final(self).config == old(self).config,
            !final(self).first_kv,
            final(self).writer@ == old(self).writer@ + separator(old(self).first_kv),
    {
        if self.first_kv {
            self.first_kv = false;
            assert(self.writer@ =~= old(self).writer@ + separator(true));
        } else {
            self.writer.push(0x26);
            assert(self.writer@ =~= old(self).writer@ + separator(false));
        }
    }

    /// Writes the full key of the stack, after the separator; nothing for
    /// an empty stack.
    pub fn write_key_stack(&mut self)
        requires
            old(self).wf(),
        ensures
            final(self).wf(),
            final(self).cfg() == old(self).cfg(),
            final(self).key_stack() == old(self).key_stack(),
            final(self).written() == old(self).written() + stack_text(old(self).key_stack(), old(self).at_first()),
            final(self).at_first() == (old(self).at_first() && old(self).key_stack().len() == 0),
    {
        if self.key.len() == 0 {
            assert(self.writer@ =~= old(self).writer@ + stack_text(old(self).key_stack(), old(self).first_kv));
            return;
        }
        self.write_separator();
        let ghost ks = self.key_stack();
        let ghost base = self.writer@;
        let mut i: usize = 0;
        assert(ks.subrange(0, 0) =~= Seq::<Seq<u8>>::empty());
        assert(base + concat_segments(ks.subrange(0, 0)) =~= base);
        while i < self.key.len()
            invariant
                0 <= i <= self.key@.len(),
                ks == self.key_stack(),
                self.key == old(self).key,
                self.config == old(self).config,
                !self.first_kv,
                base == old(self).writer@ + separator(old(self).first_kv),
                self.writer@ == base + concat_segments(ks.subrange(0, i as int)),
            decreases self.key.len() - i,
        {
            let ghost prev = self.writer@;
            let seg = &self.key[i];
            let mut j: usize = 0;
            while j < seg.len()
                invariant
                    0 <= j <= seg@.len(),
                    i < self.key@.len(),
                    self.key == old(self).key,
                    self.config == old(self).config,
                    !self.first_kv,
                    seg == &self.key@[i as int],
                    self.writer@ == prev + seg@.subrange(0, j as int),
                decreases seg.len() - j,
            {
                self.writer.push(seg[j]);
                j = j + 1;
                assert(self.writer@ =~= prev + seg@.subrange(0, j as int));
            }
            assert(seg@.subrange(0, seg@.len() as int) =~= seg@);
            let ghost sub = ks.subrange(0, i + 1);
            assert(sub.drop_last() =~= ks.subrange(0, i as int));
            assert(sub.last() == seg@);
            i = i + 1;
        }
        assert(ks.subrange(0, ks.len() as int) =~= ks);
        proof {
            lemma_concat_ascii(ks);
            lemma_ascii_concat(old(self).writer@, separator(old(self).first_kv));
            lemma_ascii_concat(base, concat_segments(ks));
        }
    }

    /// Writes a leaf key without pushing it (a unit variant): the full key
    /// with the new segment, and no `=`.
    pub fn write_key(&mut self, newkey: &[u8]) -> (r: Result<(), Error>)
        requires
            old(self).wf(),
        ensures
            final(self).wf(),
            final(self).cfg() == old(self).cfg(),
            final(self).key_stack() == old(self).key_stack(),
            old(self).key_stack().len() > old(self).cfg().max_depth ==> (r matches Err(
                Error::MaxSerializationDepthExceeded(d),
            ) && d == old(self).cfg().max_depth && final(self).written() == old(self).written()
                && final(self).at_first() == old(self).at_first()),
            old(self).key_stack().len() <= old(self).cfg().max_depth ==> r is Ok && !final(self).at_first()
                && final(self).written() == old(self).written() + separator(old(self).at_first())
                + concat_segments(old(self).key_stack()) + key_segment(
                newkey@,
                old(self).key_stack().len() == 0,
                old(self).cfg().use_form_encoding,
            ),
    {
        if self.key.len() > self.config.max_depth {
            return Err(Error::MaxSerializationDepthExceeded(self.config.max_depth));
        }
        let ghost ks = self.key_stack();
        let ghost first = self.first_kv;
        let ghost w0 = self.writer@;
        let form = self.config.use_form_encoding;
        let kb = key_bytes_of(newkey, form);
        if self.key.len() == 0 {
            self.write_separator();
            encode_into(&mut self.writer, kb.as_slice(), form);
            assert(concat_segments(ks) =~= Seq::<u8>::empty());
            assert(self.writer@ =~= w0 + separator(first) + concat_segments(ks) + key_segment(newkey@, true, form));
            proof {
                lemma_encode_ascii(kb@, form);
                lemma_ascii_concat(w0 + separator(first), spec_encode(kb@, form));
            }
        } else {
            self.write_key_stack();
            let ghost w1 = self.writer@;
            if form {
                self.writer.push(0x25);
                self.writer.push(0x35);
                self.writer.push(0x42);
            } else {
                self.writer.push(0x5b);
            }
            encode_into(&mut self.writer, kb.as_slice(), form);
            if form {
                self.writer.push(0x25);
                self.writer.push(0x35);
                self.writer.push(0x44);
            } else {
                self.writer.push(0x5d);
            }
            assert(self.writer@ =~= w1 + key_segment(newkey@, false, form));
            assert(self.writer@ =~= w0 + separator(first) + concat_segments(ks) + key_segment(newkey@, false, form));
            proof {
                lemma_encode_ascii(kb@, form);
                lemma_ascii_concat(open_bracket(form), spec_encode(kb@, form));
                lemma_ascii_concat(open_bracket(form) + spec_encode(kb@, form), close_bracket(form));
                lemma_ascii_concat(w1, key_segment(newkey@, false, form));
            }
        }
        Ok(())
    }

    /// Writes `key=value`, the value encoded.
    pub fn write_value(&mut self, value: &[u8])
        requires
            old(self).wf(),
        ensures
            final(self).wf(),
            final(self).cfg() == old(self).cfg(),
            final(self).key_stack() == old(self).key_stack(),
            final(self).written() == old(self).written() + stack_text(old(self).key_stack(), old(self).at_first())
                + seq![0x3du8] + spec_encode(value@, old(self).cfg().use_form_encoding),
            final(self).at_first() == (old(self).at_first() && old(self).key_stack().len() == 0),
    {
        self.write_key_stack();
        let ghost w1 = self.writer@;
        self.writer.push(0x3d);
        let form = self.config.use_form_encoding;
        encode_into(&mut self.writer, value, form);
        proof {
            lemma_encode_ascii(value@, form);
            lemma_ascii_concat(w1, seq![0x3du8]);
            lemma_ascii_concat(w1.push(0x3du8), spec_encode(value@, form));
            assert(w1.push(0x3du8) =~= w1 + seq![0x3du8]);
        }
    }

    /// Writes `key=` for a unit value.
    pub fn write_unit(&mut self)
        requires
            old(self).wf(),
        ensures
            final(self).wf(),
            final(self).cfg() == old(self).cfg(),
            final(self).key_stack() == old(self).key_stack(),
            final(self).written() == old(self).written() + stack_text(old(self).key_stack(), old(self).at_first())
                + seq![0x3du8],
            final(self).at_first() == (old(self).at_first() && old(self).key_stack().len() == 0),
    {
        self.write_key_stack();
        let ghost w1 = self.writer@;
        self.writer.push(0x3d);
        proof {
            lemma_ascii_concat(w1, seq![0x3du8]);
            assert(w1.push(0x3du8) =~= w1 + seq![0x3du8]);
        }
    }

    /// Writes the key alone, for an absent value.
    pub fn write_no_value(&mut self)
        requires
            old(self).wf(),
        ensures
            wrote_no_value(*old(self), *final(self)),
    {
        self.write_key_stack();
    }
}

/// What the serializer writes is ASCII at every step: bytes outside ASCII
/// are always percent-encoded.
pub proof fn lemma_written_ascii(qs: QsSerializer)
    requires
        qs.wf(),
    ensures
        all_ascii(qs.written()),
{
}

/// `post` is `pre` after writing `key=value` with the value's bytes encoded.
pub open spec fn wrote_value(pre: QsSerializer, post: QsSerializer, value: Seq<u8>) -> bool {
    &&& post.wf()
    &&& post.cfg() == pre.cfg()
    &&& post.key_stack() == pre.key_stack()
    &&& post.written() == pre.written() + stack_text(pre.key_stack(), pre.at_first()) + seq![0x3du8]
        + spec_encode(value, pre.cfg().use_form_encoding)
    &&& post.at_first() == (pre.at_first() && pre.key_stack().len() == 0)
}

/// `post` is `pre` after writing the stacked key without a value: the
/// key alone, with no `=`.
pub open spec fn wrote_no_value(pre: QsSerializer, post: QsSerializer) -> bool {
    &&& post.wf()
    &&& post.cfg() == pre.cfg()
    &&& post.key_stack() == pre.key_stack()
    &&& post.written() == pre.written() + stack_text(pre.key_stack(), pre.at_first())
    &&& post.at_first() == (pre.at_first() && pre.key_stack().len() == 0)
}

/// `post` is `pre` after pushing the key segment of `k`, or `r` is the
/// depth error and nothing changed.
pub open spec fn pushed_key(pre: QsSerializer, post: QsSerializer, k: Seq<u8>, r: Result<(), Error>) -> bool {
    &&& post.wf()
    &&& post.cfg() == pre.cfg()
    &&& post.written() == pre.written()
    &&& post.at_first() == pre.at_first()
    &&& pre.key_stack().len() > pre.cfg().max_depth ==> (r matches Err(Error::MaxSerializationDepthExceeded(d))
        && d == pre.cfg().max_depth && post.key_stack() == pre.key_stack())
    &&& pre.key_stack().len() <= pre.cfg().max_depth ==> (r is Ok && post.key_stack() == pre.key_stack().push(
        key_segment(k, pre.key_stack().len() == 0, pre.cfg().use_form_encoding),
    ))
}

/// The text of a boolean.
pub open spec fn bool_text(v: bool) -> Seq<u8> {
    if v {
        seq![0x74u8, 0x72u8, 0x75u8, 0x65u8]
    } else {
        seq![0x66u8, 0x61u8, 0x6cu8, 0x73u8, 0x65u8]
    }
}

fn bool_bytes(v: bool) -> (r: Vec<u8>)
    ensures
        r@ == bool_text(v),
{
    let r = if v {
        vec![0x74u8, 0x72u8, 0x75u8, 0x65u8]
    } else {
        vec![0x66u8, 0x61u8, 0x6cu8, 0x73u8, 0x65u8]
    };
    assert(r@ =~= bool_text(v));
    r
}

impl QsSerializer {
    /// An unsigned integer value, in decimal.
    pub fn serialize_u64(&mut self, v: u64)
        requires
            old(self).wf(),
        ensures
            wrote_value(*old(self), *final(self), dec_nat(v as nat)),
    {
        let digits = fmt_u64(v);
        self.write_value(digits.as_slice());
    }

    /// A signed integer value, in decimal.
    pub fn serialize_i64(&mut self, v: i64)
        requires
            old(self).wf(),
        ensures
            wrote_value(*old(self), *final(self), dec_int(v as int)),
    {
        let digits = fmt_i64(v);
        self.write_value(digits.as_slice());
    }

    /// A boolean value, as `true` or `false`.
    pub fn serialize_bool(&mut self, v: bool)
        requires
            old(self).wf(),
        ensures
            wrote_value(*old(self), *final(self), bool_text(v)),
    {
        let t = bool_bytes(v);
        self.write_value(t.as_slice());
    }

    /// A character value, by its UTF-8 bytes.
    pub fn serialize_char(&mut self, v: char)
        requires
            old(self).wf(),
        ensures
            wrote_value(*old(self), *final(self), encode_utf8(seq![v])),
    {
        let t = char_string(v);
        self.write_value(t.as_str().as_bytes());
    }

    /// A string value, by its UTF-8 bytes.
    pub fn serialize_str(&mut self, v: &str)
        requires
            old(self).wf(),
        ensures
            wrote_value(*old(self), *final(self), v.spec_bytes()),
    {
        self.write_value(v.as_bytes());
    }

    /// A unit variant: its name as a leaf key, without `=`.
    pub fn serialize_unit_variant(&mut self, variant: &str) -> (r: Result<(), Error>)
        requires
            old(self).wf(),
        ensures
            final(self).wf(),
            final(self).cfg() == old(self).cfg(),
            final(self).key_stack() == old(self).key_stack(),
            old(self).key_stack().len() > old(self).cfg().max_depth ==> (r is Err && final(self).written()
                == old(self).written()),
            old(self).key_stack().len() <= old(self).cfg().max_depth ==> (r is Ok && final(self).written()
                == old(self).written() + separator(old(self).at_first()) + concat_segments(
                old(self).key_stack(),
            ) + key_segment(
                variant.spec_bytes(),
                old(self).key_stack().len() == 0,
                old(self).cfg().use_form_encoding,
            )),
    {
        self.write_key(variant.as_bytes())
    }
}

/// The key of a sequence element under an array format: its index, an empty
/// key, or none.
pub open spec fn element_key(format: ArrayFormat, index: usize) -> Option<Seq<u8>> {
    match format {
        ArrayFormat::Indexed => Some(dec_nat(index as nat)),
        ArrayFormat::EmptyIndexed => Some(Seq::empty()),
        ArrayFormat::Unindexed => None,
    }
}

/// The state of a sequence being serialized: how many elements came.
pub struct QsSeq {
    counter: usize,
}

impl QsSeq {
    pub closed spec fn count(&self) -> usize {
        self.counter
    }

    /// A sequence with no element yet.
    pub fn new() -> (r: QsSeq)
        ensures
            r.count() == 0,
    {
        QsSeq { counter: 0 }
    }

    /// How many elements came.
    pub fn len(&self) -> (r: usize)
        ensures
            r == self.count(),
    {
        self.counter
    }

    /// Pushes the key of the next element, as the array format says.
    pub fn push_key(&mut self, qs: &mut QsSerializer) -> (r: Result<(), Error>)
        requires
            old(qs).wf(),
            old(self).count() < usize::MAX,
        ensures
            match element_key(old(qs).cfg().array_format, old(self).count()) {
                Some(k) => pushed_key(*old(qs), *final(qs), k, r),
                None => r is Ok && *final(qs) == *old(qs),
            },
            r is Ok ==> final(self).count() == old(self).count() + 1,
            r is Err ==> final(self).count() == old(self).count(),
    {
        match qs.config.array_format {
            ArrayFormat::Indexed => {
                let digits = fmt_u64(self.counter as u64);
                let r = qs.push_key(digits.as_slice());
                if r.is_err() {
                    return r;
                }
            },
            ArrayFormat::EmptyIndexed => {
                let empty: Vec<u8> = Vec::new();
                let r = qs.push_key(empty.as_slice());
                if r.is_err() {
                    return r;
                }
            },
            ArrayFormat::Unindexed => {},
        }
        self.counter = self.counter + 1;
        Ok(())
    }

    /// Pops the key of an element, where one was pushed.
    pub fn pop_key(&self, qs: &mut QsSerializer) -> (r: Result<(), Error>)
        requires
            old(qs).wf(),
        ensures
            final(qs).wf(),
            final(qs).cfg() == old(qs).cfg(),
            final(qs).written() == old(qs).written(),
            final(qs).at_first() == old(qs).at_first(),
            old(qs).cfg().array_format != ArrayFormat::Unindexed ==> (old(qs).key_stack().len() > 0 ==> r is Ok
                && final(qs).key_stack() == old(qs).key_stack().drop_last()) && (old(qs).key_stack().len()
                == 0 ==> r is Err && final(qs).key_stack() == old(qs).key_stack()),
            old(qs).cfg().array_format == ArrayFormat::Unindexed ==> r is Ok && final(qs).key_stack()
                == old(qs).key_stack(),
    {
        match qs.config.array_format {
            ArrayFormat::Unindexed => Ok(()),
            _ => qs.pop_key(),
        }
    }

    /// Ends a sequence, tuple or tuple struct: an empty one is written as a
    /// unit value, `key=`.
    pub fn end(self, qs: &mut QsSerializer)
        requires
            old(qs).wf(),
        ensures
            final(qs).wf(),
            final(qs).cfg() == old(qs).cfg(),
            final(qs).key_stack() == old(qs).key_stack(),
            self.count() == 0 ==> final(qs).written() == old(qs).written() + stack_text(
                old(qs).key_stack(),
                old(qs).at_first(),
            ) + seq![0x3du8] && final(qs).at_first() == (old(qs).at_first() && old(qs).key_stack().len()
                == 0),
            self.count() != 0 ==> *final(qs) == *old(qs),
    {
        if self.counter == 0 {
            qs.write_unit();
        }
    }

    /// Ends a tuple variant: pops the variant's key.
    pub fn end_variant(self, qs: &mut QsSerializer) -> (r: Result<(), Error>)
        requires
            old(qs).wf(),
        ensures
            final(qs).wf(),
            final(qs).written() == old(qs).written(),
            old(qs).key_stack().len() > 0 ==> (r is Ok && final(qs).key_stack() == old(qs).key_stack().drop_last()),
            old(qs).key_stack().len() == 0 ==> r is Err,
    {
        qs.pop_key()
    }
}

/// The state of a map being serialized: whether it is still empty.
pub struct QsMap {
    empty: bool,
}

impl QsMap {
    pub closed spec fn is_empty(&self) -> bool {
        self.empty
    }

    /// A map with no key yet.
    pub fn new() -> (r: QsMap)
        ensures
            r.is_empty(),
    {
        QsMap { empty: true }
    }

    /// Records that a key came.
    pub fn note_key(&mut self)
        ensures
            !final(self).is_empty(),
    {
        self.empty = false;
    }

    /// Ends a map: an empty one is written as a unit value, `key=`.
    pub fn end(self, qs: &mut QsSerializer)
        requires
            old(qs).wf(),
        ensures
            final(qs).wf(),
            final(qs).cfg() == old(qs).cfg(),
            final(qs).key_stack() == old(qs).key_stack(),
            self.is_empty() ==> final(qs).written() == old(qs).written() + stack_text(
                old(qs).key_stack(),
                old(qs).at_first(),
            ) + seq![0x3du8],
            !self.is_empty() ==> *final(qs) == *old(qs),
    {
        if self.empty {
            qs.write_unit();
        }
    }
}

/// Serializes map keys: integers, booleans, characters, strings, bytes and
/// unit variants become a pushed key segment; anything else is unsupported.
pub struct KeySerializer;

impl KeySerializer {
    /// The key serializer.
    pub fn new() -> (r: KeySerializer) {
        KeySerializer
    }

    /// Pushes a key's bytes as the next segment.
    pub fn push_key(&self, qs: &mut QsSerializer, key: &[u8]) -> (r: Result<(), Error>)
        requires
            old(qs).wf(),
        ensures
            pushed_key(*old(qs), *final(qs), key@, r),
    {
        qs.push_key(key)
    }

    /// An unsigned integer key, in decimal.
    pub fn serialize_u64(&self, qs: &mut QsSerializer, v: u64) -> (r: Result<(), Error>)
        requires
            old(qs).wf(),
        ensures
            pushed_key(*old(qs), *final(qs), dec_nat(v as nat), r),
    {
        let digits = fmt_u64(v);
        self.push_key(qs, digits.as_slice())
    }

    /// A signed integer key, in decimal.
    pub fn serialize_i64(&self, qs: &mut QsSerializer, v: i64) -> (r: Result<(), Error>)
        requires
            old(qs).wf(),
        ensures
            pushed_key(*old(qs), *final(qs), dec_int(v as int), r),
    {
        let digits = fmt_i64(v);
        self.push_key(qs, digits.as_slice())
    }

    /// A boolean key, as `true` or `false`.
    pub fn serialize_bool(&self, qs: &mut QsSerializer, v: bool) -> (r: Result<(), Error>)
        requires
            old(qs).wf(),
        ensures
            pushed_key(*old(qs), *final(qs), bool_text(v), r),
    {
        let t = bool_bytes(v);
        self.push_key(qs, t.as_slice())
    }

    /// A character key, by its UTF-8 bytes.
    pub fn serialize_char(&self, qs: &mut QsSerializer, v: char) -> (r: Result<(), Error>)
        requires
            old(qs).wf(),
        ensures
            pushed_key(*old(qs), *final(qs), encode_utf8(seq![v]), r),
    {
        let t = char_string(v);
        self.push_key(qs, t.as_str().as_bytes())
    }

    /// A string key (also a unit variant's name).
    pub fn serialize_str(&self, qs: &mut QsSerializer, v: &str) -> (r: Result<(), Error>)
        requires
            old(qs).wf(),
        ensures
            pushed_key(*old(qs), *final(qs), v.spec_bytes(), r),
    {
        self.push_key(qs, v.as_bytes())
    }

    /// The error for a key of any other kind.
    pub fn unsupported(&self) -> (r: Error)
        ensures
            r is Unsupported,
    {
        Error::Unsupported
    }
}

} // verus!
