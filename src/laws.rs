//! What splitting guarantees across inputs and calls.
use vstd::prelude::*;
use crate::delimiter::{Delimeter, lemma_literal_match_occurs};
use crate::split::split_tokens;

verus! {

/// The pieces of `s` between successive delimiter matches, empty ones
/// included: the unfiltered split.
pub open spec fn raw_pieces<D: Delimeter>(d: D, s: Seq<char>) -> Seq<Seq<char>>
    decreases s.len(),
{
    match d.next_match(s) {
        Some((a, b)) => if 0 <= a <= b <= s.len() && 0 < b {
            seq![s.subrange(0, a)] + raw_pieces(d, s.subrange(b, s.len() as int))
        } else {
            seq![s]
        },
        None => seq![s],
    }
}

/// `pieces` with `sep` between each two neighbours.
pub open spec fn join(pieces: Seq<Seq<char>>, sep: Seq<char>) -> Seq<char>
    decreases pieces.len(),
{
    if pieces.len() == 0 {
        Seq::empty()
    } else if pieces.len() == 1 {
        pieces[0]
    } else {
        pieces[0] + sep + join(pieces.drop_first(), sep)
    }
}

/// Whether a piece holds any text.
pub open spec fn non_empty() -> spec_fn(Seq<char>) -> bool {
    |p: Seq<char>| p.len() > 0
}

proof fn lemma_filter_single(t: Seq<char>)
    ensures
        seq![t].filter(non_empty()) == (if t.len() > 0 { seq![t] } else { Seq::<Seq<char>>::empty() }),
{
    reveal_with_fuel(Seq::filter, 2);
    assert(seq![t].drop_last() =~= Seq::<Seq<char>>::empty());
    assert(Seq::<Seq<char>>::empty().push(t) =~= seq![t]);
}

/// The tokens are exactly the raw pieces between delimiters with the empty
/// ones left out.
pub proof fn lemma_tokens_are_non_empty_pieces<D: Delimeter>(d: D, s: Seq<char>)
    ensures
        split_tokens(d, s) == raw_pieces(d, s).filter(non_empty()),
    decreases s.len(),
{
    d.lemma_next_match_in_bounds(s);
    match d.next_match(s) {
        Some((a, b)) => {
            let t = s.subrange(0, a);
            let rest = s.subrange(b, s.len() as int);
            lemma_tokens_are_non_empty_pieces(d, rest);
            lemma_filter_single(t);
            Seq::filter_distributes_over_add(seq![t], raw_pieces(d, rest), non_empty());
            if a == 0 {
                assert(seq![t].filter(non_empty()) + raw_pieces(d, rest).filter(non_empty())
                    =~= raw_pieces(d, rest).filter(non_empty()));
            }
        },
        None => {
            lemma_filter_single(s);
        },
    }
}

/// No token is empty, whatever delimiters lead, trail or repeat in `s`.
pub proof fn lemma_tokens_non_empty<D: Delimeter>(d: D, s: Seq<char>)
    ensures
        forall|i: int| 0 <= i < split_tokens(d, s).len() ==> #[trigger] split_tokens(d, s)[i].len() > 0,
{
    broadcast use vstd::seq_lib::group_filter_ensures;

    lemma_tokens_are_non_empty_pieces(d, s);
}

/// Joining the raw pieces with a non-empty literal delimiter gives back the
/// input.
#[verifier::rlimit(40)]
pub proof fn lemma_pieces_rejoin(l: &str, s: Seq<char>)
    requires
        l@.len() > 0,
    ensures
        join(raw_pieces(l, s), l@) == s,
    decreases s.len(),
{
    l.lemma_next_match_in_bounds(s);
    lemma_literal_match_occurs(s, l@);
    if let Some((a, b)) = l.next_match(s) {
        let t = s.subrange(0, a);
        let rest = s.subrange(b, s.len() as int);
        lemma_pieces_rejoin(l, rest);
        let ps = raw_pieces(l, s);
        assert(ps.drop_first() =~= raw_pieces(l, rest));
        assert(s =~= t + l@ + rest);
    }
}

/// Splitting on a non-empty literal and joining the tokens with it again
/// gives the input with its delimiter runs collapsed: the raw pieces, which
/// rejoin to the input, with the empty ones dropped. No token is empty.
pub proof fn lemma_rejoin_collapses(l: &str, s: Seq<char>)
    requires
        l@.len() > 0,
    ensures
        join(raw_pieces(l, s), l@) == s,
        join(split_tokens(l, s), l@) == join(raw_pieces(l, s).filter(non_empty()), l@),
        forall|i: int| 0 <= i < split_tokens(l, s).len() ==> #[trigger] split_tokens(l, s)[i].len() > 0,
{
    lemma_pieces_rejoin(l, s);
    lemma_tokens_are_non_empty_pieces(l, s);
    lemma_tokens_non_empty(l, s);
}

/// Splitting the empty text yields no token.
pub proof fn lemma_empty_input<D: Delimeter>(d: D)
    ensures
        split_tokens(d, Seq::<char>::empty()).len() == 0,
{
}

/// A non-empty text with no delimiter in it is one token, the whole text.
pub proof fn lemma_no_match_whole<D: Delimeter>(d: D, s: Seq<char>)
    requires
        s.len() > 0,
        d.next_match(s) is None,
    ensures
        split_tokens(d, s) == seq![s],
{
}

/// A token with no delimiter in it splits again into itself alone.
pub proof fn lemma_resplit_token<D: Delimeter>(d: D, s: Seq<char>, i: int)
    requires
        0 <= i < split_tokens(d, s).len(),
        d.next_match(split_tokens(d, s)[i]) is None,
    ensures
        split_tokens(d, split_tokens(d, s)[i]) == seq![split_tokens(d, s)[i]],
{
    lemma_tokens_non_empty(d, s);
    lemma_no_match_whole(d, split_tokens(d, s)[i]);
}

} // verus!
