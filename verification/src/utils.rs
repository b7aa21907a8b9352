use vstd::prelude::*;
use crate::helpers::{join_delimited, join_pieces, split_delimited, strings_view, free_of};

verus! {

/// The text with each space made a `+`.
pub open spec fn plus_for_space(s: Seq<char>) -> Seq<char> {
    s.map_values(|c: char| if c == ' ' { '+' } else { c })
}

proof fn lemma_plus_join(ps: Seq<Seq<char>>)
    requires
        free_of(ps, ' '),
    ensures
        join_pieces(ps, '+') == plus_for_space(join_pieces(ps, ' ')),
    decreases ps.len(),
{
    if ps.len() == 1 {
        assert(!ps[0].contains(' '));
        assert forall|i: int| 0 <= i < ps[0].len() implies ps[0][i] != ' ' by {
            if ps[0][i] == ' ' {
                assert(ps[0].contains(' '));
            }
        }
        assert(plus_for_space(ps[0]) =~= ps[0]);
    } else if ps.len() >= 2 {
        assert(free_of(ps.drop_last(), ' ')) by {
            assert forall|i: int| 0 <= i < ps.drop_last().len() implies !(#[trigger] ps.drop_last()[i]).contains(' ') by {
                assert(ps.drop_last()[i] == ps[i]);
            }
        }
        lemma_plus_join(ps.drop_last());
        let l = ps.last();
        assert(!l.contains(' '));
        assert forall|i: int| 0 <= i < l.len() implies l[i] != ' ' by {
            if l[i] == ' ' {
                assert(l.contains(' '));
            }
        }
        let a = join_pieces(ps.drop_last(), ' ');
        assert(plus_for_space(a + seq![' '] + l) =~= plus_for_space(a) + seq!['+'] + l);
    } else {
        assert(plus_for_space(Seq::<char>::empty()) =~= Seq::<char>::empty());
    }
}

/// Replaces each space with `+`.
pub fn replace_space(input: &str) -> (r: String)
    ensures
        r@ == plus_for_space(input@),
{
    let pieces = split_delimited(input, ' ');
    proof {
        if input@.len() > 0 {
            lemma_plus_join(strings_view(pieces@));
        } else {
            assert(plus_for_space(input@) =~= Seq::<char>::empty());
        }
    }
    join_delimited(&pieces, '+')
}

} // verus!
