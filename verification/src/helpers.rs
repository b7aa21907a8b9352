use vstd::prelude::*;
use crate::text::char_string;

verus! {

/// Pieces joined with a delimiter between each two.
pub open spec fn join_pieces(ps: Seq<Seq<char>>, d: char) -> Seq<char>
    decreases ps.len(),
{
    if ps.len() == 0 {
        Seq::empty()
    } else if ps.len() == 1 {
        ps[0]
    } else {
        join_pieces(ps.drop_last(), d) + seq![d] + ps.last()
    }
}

/// Whether no piece holds the delimiter.
pub open spec fn free_of(ps: Seq<Seq<char>>, d: char) -> bool {
    forall|i: int| 0 <= i < ps.len() ==> !(#[trigger] ps[i]).contains(d)
}

pub open spec fn strings_view(v: Seq<String>) -> Seq<Seq<char>> {
    Seq::new(v.len(), |i: int| v[i]@)
}

/// `str::split` on a character: the pieces between the occurrences of the
/// delimiter, at least one, none holding it, and joined with it they give
/// the string back.
#[verifier::external_body]
fn split_str(s: &str, delim: char) -> (r: Vec<String>)
    ensures
        r@.len() >= 1,
        join_pieces(strings_view(r@), delim) == s@,
        free_of(strings_view(r@), delim),
{
    s.split(delim).map(|p| p.to_string()).collect()
}

/// Joins strings with a delimiter: the serialized form of a delimited list.
pub fn join_delimited(items: &Vec<String>, delim: char) -> (r: String)
    ensures
        r@ == join_pieces(strings_view(items@), delim),
{
    let ghost ps = strings_view(items@);
    let sep = char_string(delim);
    let mut r = String::new();
    let mut i: usize = 0;
    assert(ps.subrange(0, 0) =~= Seq::<Seq<char>>::empty());
    while i < items.len()
        invariant
            0 <= i <= items@.len(),
            ps == strings_view(items@),
            sep@ == seq![delim],
            r@ == join_pieces(ps.subrange(0, i as int), delim),
        decreases items.len() - i,
    {
        let ghost sub = ps.subrange(0, i + 1);
        assert(sub.drop_last() =~= ps.subrange(0, i as int));
        assert(sub.last() == items@[i as int]@);
        if i == 0 {
            r = items[i].clone();
        } else {
            r = crate::text::concat_str(crate::text::concat_str(r, sep.as_str()), items[i].as_str());
        }
        i = i + 1;
    }
    assert(ps.subrange(0, items@.len() as int) =~= ps);
    r
}

/// Splits a delimited list: nothing for the empty string, else the pieces
/// between the delimiters.
pub fn split_delimited(s: &str, delim: char) -> (r: Vec<String>)
    ensures
        s@.len() == 0 ==> r@.len() == 0,
        s@.len() > 0 ==> r@.len() >= 1 && join_pieces(strings_view(r@), delim) == s@ && free_of(
            strings_view(r@),
            delim,
        ),
{
    if s.is_empty() {
        Vec::new()
    } else {
        split_str(s, delim)
    }
}

/// A delimited list has one decomposition into pieces free of the delimiter.
pub proof fn lemma_join_unique(ps: Seq<Seq<char>>, qs: Seq<Seq<char>>, d: char)
    requires
        ps.len() >= 1,
        qs.len() >= 1,
        free_of(ps, d),
        free_of(qs, d),
        join_pieces(ps, d) == join_pieces(qs, d),
    ensures
        ps == qs,
    decreases ps.len() + qs.len(),
{
    let j = join_pieces(ps, d);
    if ps.len() == 1 && qs.len() == 1 {
        assert(ps =~= qs);
    } else if ps.len() == 1 {
        let a = join_pieces(qs.drop_last(), d);
        assert(j[a.len() as int] == d);
        assert(ps[0].contains(d)) by {
            assert(ps[0][a.len() as int] == d);
        }
        assert(!ps[0].contains(d));
    } else if qs.len() == 1 {
        let a = join_pieces(ps.drop_last(), d);
        assert(j[a.len() as int] == d);
        assert(qs[0].contains(d)) by {
            assert(qs[0][a.len() as int] == d);
        }
        assert(!qs[0].contains(d));
    } else {
        let a = join_pieces(ps.drop_last(), d);
        let b = join_pieces(qs.drop_last(), d);
        let pl = ps.last();
        let ql = qs.last();
        assert(!pl.contains(d));
        assert(!ql.contains(d));
        assert(j == a + seq![d] + pl);
        assert(j == b + seq![d] + ql);
        assert(j.len() == a.len() + 1 + pl.len());
        assert(j.len() == b.len() + 1 + ql.len());
        if pl.len() < ql.len() {
            let x = a.len() as int;
            assert(j[x] == d);
            assert((b + seq![d] + ql)[x] == ql[x - b.len() - 1]);
            assert(ql[x - b.len() - 1] == j[x]);
            assert(ql.contains(d));
        } else if ql.len() < pl.len() {
            let x = b.len() as int;
            assert(j[x] == d);
            assert((a + seq![d] + pl)[x] == pl[x - a.len() - 1]);
            assert(pl[x - a.len() - 1] == j[x]);
            assert(pl.contains(d));
        } else {
            assert(a.len() == b.len());
            assert(a =~= j.subrange(0, a.len() as int));
            assert(b =~= j.subrange(0, b.len() as int));
            assert(pl =~= j.subrange(a.len() as int + 1, j.len() as int));
            assert(ql =~= j.subrange(b.len() as int + 1, j.len() as int));
            assert(free_of(ps.drop_last(), d)) by {
                assert forall|i: int| 0 <= i < ps.drop_last().len() implies !(#[trigger] ps.drop_last()[i]).contains(d) by {
                    assert(ps.drop_last()[i] == ps[i]);
                }
            }
            assert(free_of(qs.drop_last(), d)) by {
                assert forall|i: int| 0 <= i < qs.drop_last().len() implies !(#[trigger] qs.drop_last()[i]).contains(d) by {
                    assert(qs.drop_last()[i] == qs[i]);
                }
            }
            lemma_join_unique(ps.drop_last(), qs.drop_last(), d);
            assert(ps =~= ps.drop_last().push(pl));
            assert(qs =~= qs.drop_last().push(ql));
        }
    }
}

/// Splitting what joining wrote gives the list back, for pieces free of the
/// delimiter, except the list of one empty piece (written as nothing, read
/// back as no piece).
pub proof fn lemma_split_join(items: Seq<Seq<char>>, d: char, pieces: Seq<Seq<char>>)
    requires
        free_of(items, d),
        !(items.len() == 1 && items[0].len() == 0),
        join_pieces(items, d).len() == 0 ==> pieces.len() == 0,
        join_pieces(items, d).len() > 0 ==> pieces.len() >= 1 && join_pieces(pieces, d) == join_pieces(items, d)
            && free_of(pieces, d),
    ensures
        pieces == items,
{
    if items.len() == 0 {
        assert(pieces =~= items);
    } else if join_pieces(items, d).len() == 0 {
        if items.len() >= 2 {
            let a = join_pieces(items.drop_last(), d);
            assert((a + seq![d] + items.last()).len() >= 1);
        }
        assert(false);
    } else {
        lemma_join_unique(pieces, items, d);
    }
}

} // verus!
