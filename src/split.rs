//! The token splitter: a single-pass pull over the remaining text.
use vstd::prelude::*;
use vstd::string::*;
use crate::delimiter::{Delimeter, char_match, is_char_at, lemma_first_where};
use crate::utf8::split_at_codepoint;

verus! {

/// The tokens that splitting `s` on `d` yields, in order: the text before
/// each delimiter match, with empty pieces left out, and then the text after
/// the last match if it is not empty.
pub open spec fn split_tokens<D: Delimeter>(d: D, s: Seq<char>) -> Seq<Seq<char>>
    decreases s.len(),
{
    if s.len() == 0 {
        Seq::empty()
    } else {
        match d.next_match(s) {
            Some((a, b)) => if 0 <= a <= b <= s.len() && 0 < b {
                let rest = split_tokens(d, s.subrange(b, s.len() as int));
                if a == 0 {
                    rest
                } else {
                    seq![s.subrange(0, a)] + rest
                }
            } else {
                Seq::empty()
            },
            None => seq![s],
        }
    }
}

/// The text left after the next pull on `s`: the text after the match that
/// ended the next token, or `None` where no match ended one and the splitter
/// is exhausted.
pub open spec fn rest_after<D: Delimeter>(d: D, s: Seq<char>) -> Option<Seq<char>>
    decreases s.len(),
{
    if s.len() == 0 {
        None
    } else {
        match d.next_match(s) {
            Some((a, b)) => if 0 <= a <= b <= s.len() && 0 < b {
                let rest = s.subrange(b, s.len() as int);
                if a == 0 {
                    rest_after(d, rest)
                } else {
                    Some(rest)
                }
            } else {
                None
            },
            None => None,
        }
    }
}

/// A lazy splitter of a text into the non-empty pieces between delimiters.
#[derive(Debug)]
pub struct StrSplit<'haystack, D> {
    remainder: Option<&'haystack str>,
    delimiter: D,
}

impl<'haystack, D> StrSplit<'haystack, D> {
    /// The text not consumed yet, or `None` once the splitter is exhausted.
    pub closed spec fn rest(&self) -> Option<Seq<char>> {
        match self.remainder {
            Some(r) => Some(r@),
            None => None,
        }
    }

    /// The delimiter this splitter was made with.
    pub closed spec fn delim(&self) -> D {
        self.delimiter
    }

    /// A splitter over the whole of `haystack`.
    pub fn new(haystack: &'haystack str, delimiter: D) -> (r: Self)
        ensures
            r.rest() == Some(haystack@),
            r.delim() == delimiter,
    {
        Self { remainder: Some(haystack), delimiter }
    }
}

impl<'haystack, D: Delimeter> StrSplit<'haystack, D> {
    /// The tokens this splitter has still to yield.
    pub open spec fn pending(&self) -> Seq<Seq<char>> {
        match self.rest() {
            Some(r) => split_tokens(self.delim(), r),
            None => Seq::empty(),
        }
    }

    /// All the tokens this splitter has still to yield, in order.
    pub fn collect(self) -> (r: Vec<&'haystack str>)
        ensures
            r@.len() == self.pending().len(),
            forall|i: int| 0 <= i < r@.len() ==> #[trigger] r@[i]@ == self.pending()[i],
    {
        let mut it = self;
        let mut out: Vec<&'haystack str> = Vec::new();
        loop
            invariant
                out@.len() + it.pending().len() == self.pending().len(),
                forall|i: int| 0 <= i < out@.len() ==> #[trigger] out@[i]@ == self.pending()[i],
                forall|i: int| 0 <= i < it.pending().len()
                    ==> #[trigger] it.pending()[i] == self.pending()[out@.len() + i],
            ensures
                it.pending().len() == 0,
            decreases it.pending().len(),
        {
            match it.next() {
                Some(t) => out.push(t),
                None => break,
            }
        }
        out
    }

    /// The remainder that the next pull leaves behind.
    pub open spec fn rest_after_next(&self) -> Option<Seq<char>> {
        match self.rest() {
            Some(r) => rest_after(self.delim(), r),
            None => None,
        }
    }

    /// The next non-empty token, or `None` once the text is used up; after
    /// `None` the splitter stays exhausted.
    pub fn next(&mut self) -> (r: Option<&'haystack str>)
        ensures
            final(self).delim() == old(self).delim(),
            final(self).rest() == old(self).rest_after_next(),
            old(self).pending().len() == 0 ==> r is None,
            old(self).pending().len() > 0 ==> r is Some && r->0@ == old(self).pending()[0],
            final(self).pending() == old(self).pending().drop_first() || old(self).pending().len() == 0,
            r is None ==> final(self).rest() is None,
            old(self).rest() is None ==> final(self).rest() is None,
            final(self).rest() is Some ==> old(self).rest() is Some
                && final(self).rest()->0.len() < old(self).rest()->0.len()
                && final(self).rest()->0 == old(self).rest()->0.subrange(
                    old(self).rest()->0.len() - final(self).rest()->0.len(),
                    old(self).rest()->0.len() as int,
                ),
    {
        loop
            invariant
                self.delim() == old(self).delim(),
                self.pending() == old(self).pending(),
                self.rest_after_next() == old(self).rest_after_next(),
                old(self).rest() is None ==> self.rest() is None,
                self.rest() is Some ==> old(self).rest() is Some
                    && self.rest()->0.len() <= old(self).rest()->0.len()
                    && self.rest()->0 == old(self).rest()->0.subrange(
                        old(self).rest()->0.len() - self.rest()->0.len(),
                        old(self).rest()->0.len() as int,
                    ),
            decreases
                match self.remainder {
                    Some(rem) => rem@.len() + 1,
                    None => 0,
                },
        {
            let rem = match self.remainder {
                Some(rem) => rem,
                None => return None,
            };
            if rem.is_empty() {
                self.remainder = None;
                return None;
            }
            proof {
                self.delimiter.lemma_next_match_in_bounds(rem@);
            }
            match self.delimiter.find_next(rem) {
                Some((start, end)) => {
                    let ghost m = self.delimiter.next_match(rem@)->0;
                    let (token, _) = split_at_codepoint(rem, Ghost(m.0), start);
                    let (_, after) = split_at_codepoint(rem, Ghost(m.1), end);
                    self.remainder = Some(after);
                    if !token.is_empty() {
                        return Some(token);
                    }
                },
                None => {
                    self.remainder = None;
                    return Some(rem);
                },
            }
        }
    }
}

} // verus!

verus! {

/// Where `s` holds a codepoint other than `c`, splitting it on `c` yields a
/// token.
pub proof fn lemma_char_split_has_token(c: char, s: Seq<char>, w: int)
    requires
        0 <= w < s.len(),
        s[w] != c,
    ensures
        split_tokens(c, s).len() > 0,
    decreases s.len(),
{
    c.lemma_next_match_in_bounds(s);
    lemma_first_where(s.len() as int, is_char_at(s, c));
    if let Some((a, b)) = char_match(s, c) {
        if a == 0 {
            let rest = s.subrange(b, s.len() as int);
            assert(rest[w - 1] == s[w]);
            lemma_char_split_has_token(c, rest, w - 1);
        }
    }
}

/// The first token of `s` split on `c`: leading `c`s skipped, the text up to
/// the next `c` or the end.
pub fn until_char<'s>(s: &'s str, c: char) -> (r: &'s str)
    requires
        exists|i: int| 0 <= i < s@.len() && s@[i] != c,
    ensures
        r@ == split_tokens(c, s@)[0],
{
    proof {
        let i = choose|i: int| 0 <= i < s@.len() && s@[i] != c;
        lemma_char_split_has_token(c, s@, i);
    }
    StrSplit::new(s, c).next().expect("strSplit always gives at least one result")
}

} // verus!
