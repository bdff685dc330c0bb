//! The delimiter capability and its two built-in variants.
use vstd::prelude::*;
use vstd::string::*;
use crate::utf8::{first_char, lemma_split_point, lemma_step, utf8_len};

verus! {

/// The least index `i` in `0..n` with `p(i)`, if there is one.
pub open spec fn first_where(n: int, p: spec_fn(int) -> bool) -> Option<int> {
    if exists|i: int| 0 <= i < n && #[trigger] p(i) {
        Some(choose|i: int| 0 <= i < n && #[trigger] p(i) && forall|j: int| 0 <= j < i ==> !#[trigger] p(j))
    } else {
        None
    }
}

/// Where some index of `0..n` holds `p`, a least one does.
proof fn lemma_least_exists(n: int, p: spec_fn(int) -> bool, i: int)
    requires
        0 <= i < n,
        p(i),
    ensures
        exists|k: int| 0 <= k < n && #[trigger] p(k) && forall|j: int| 0 <= j < k ==> !#[trigger] p(j),
    decreases i,
{
    if exists|j: int| 0 <= j < i && #[trigger] p(j) {
        let j = choose|j: int| 0 <= j < i && #[trigger] p(j);
        lemma_least_exists(n, p, j);
    } else {
        assert(0 <= i < n && p(i) && forall|j: int| 0 <= j < i ==> !#[trigger] p(j));
    }
}

/// The first index, where there is one, lies in range, holds `p`, and has no
/// index before it that holds `p`.
pub proof fn lemma_first_where(n: int, p: spec_fn(int) -> bool)
    ensures
        match first_where(n, p) {
            Some(k) => 0 <= k < n && p(k) && forall|j: int| 0 <= j < k ==> !#[trigger] p(j),
            None => forall|j: int| 0 <= j < n ==> !#[trigger] p(j),
        },
{
    if exists|i: int| 0 <= i < n && #[trigger] p(i) {
        let i = choose|i: int| 0 <= i < n && #[trigger] p(i);
        lemma_least_exists(n, p, i);
    }
}

/// An index that holds `p`, with none before it, is the first one.
pub proof fn lemma_first_where_found(n: int, p: spec_fn(int) -> bool, i: int)
    requires
        0 <= i < n,
        p(i),
        forall|j: int| 0 <= j < i ==> !#[trigger] p(j),
    ensures
        first_where(n, p) == Some(i),
{
    lemma_first_where(n, p);
    let k = first_where(n, p)->0;
    if k < i {
        assert(!p(k));
    } else if k > i {
        assert(!p(i));
    }
}

/// Where no index of `0..n` holds `p`, there is no first one.
pub proof fn lemma_first_where_none(n: int, p: spec_fn(int) -> bool)
    requires
        forall|j: int| 0 <= j < n ==> !#[trigger] p(j),
    ensures
        first_where(n, p) is None,
{
}

/// A delimiter match `(start, end)` within a text of length `len`: a span
/// inside the text that ends after its first codepoint, so that consuming it
/// makes progress.
pub open spec fn match_in_bounds(m: Option<(int, int)>, len: int) -> bool {
    match m {
        Some((a, b)) => 0 <= a <= b <= len && 0 < b,
        None => true,
    }
}

/// A rule that locates the next delimiter in a text.
pub trait Delimeter {
    /// The leftmost delimiter occurrence in `s`, as codepoint positions
    /// `(start, end)`: `s[start..end]` is the delimiter text.
    spec fn next_match(&self, s: Seq<char>) -> Option<(int, int)>;

    /// Every match lies inside the text and ends past its start.
    proof fn lemma_next_match_in_bounds(&self, s: Seq<char>)
        ensures
            match_in_bounds(self.next_match(s), s.len() as int),
    ;

    /// Return (start, end) indices of next delimiter occurrence in `s`:
    /// the byte offsets of the match's codepoint positions.
    fn find_next(&self, s: &str) -> (r: Option<(usize, usize)>)
        ensures
            match (r, self.next_match(s@)) {
                (Some((x, y)), Some((a, b))) => x == utf8_len(s@.take(a)) && y == utf8_len(s@.take(b)),
                (None, None) => true,
                _ => false,
            },
    ;
}

/// Whether `c` is a whitespace codepoint, as `char::is_whitespace` decides.
pub uninterp spec fn white_space(c: char) -> bool;

/// Relies on `char::is_whitespace`: whether `c` has the Unicode
/// White_Space property, which depends on `c` alone.
#[verifier::external_body]
fn is_white(c: char) -> (r: bool)
    ensures
        r == white_space(c),
{
    c.is_whitespace()
}

/// `l` occurs in `s` starting at `i`.
pub open spec fn occurs_at(s: Seq<char>, l: Seq<char>, i: int) -> bool {
    0 <= i && i + l.len() <= s.len() && s.subrange(i, i + l.len()) == l
}

/// The positions at which `l` occurs in `s`.
pub open spec fn occurs_at_pred(s: Seq<char>, l: Seq<char>) -> spec_fn(int) -> bool {
    |i: int| occurs_at(s, l, i)
}

/// The positions of whitespace codepoints in `s`.
pub open spec fn is_white_at(s: Seq<char>) -> spec_fn(int) -> bool {
    |i: int| white_space(s[i])
}

/// The first occurrence of the literal `l` in `s`; for an empty `l`, the
/// first whitespace codepoint.
pub open spec fn literal_match(s: Seq<char>, l: Seq<char>) -> Option<(int, int)> {
    if l.len() == 0 {
        match first_where(s.len() as int, is_white_at(s)) {
            Some(i) => Some((i, i + 1)),
            None => None,
        }
    } else {
        match first_where(s.len() as int, occurs_at_pred(s, l)) {
            Some(i) => Some((i, i + l.len())),
            None => None,
        }
    }
}

/// A match of a non-empty literal is an occurrence of it.
pub proof fn lemma_literal_match_occurs(s: Seq<char>, l: Seq<char>)
    requires
        l.len() > 0,
    ensures
        match literal_match(s, l) {
            Some((a, b)) => b == a + l.len() && occurs_at(s, l, a),
            None => true,
        },
{
    lemma_first_where(s.len() as int, occurs_at_pred(s, l));
}

/// `l` occurs at `i` exactly where the text from `i` on begins with `l`.
proof fn lemma_occurs_iff_prefix(s: Seq<char>, l: Seq<char>, i: int)
    requires
        0 <= i <= s.len(),
    ensures
        occurs_at(s, l, i) == (l.len() <= s.skip(i).len() && s.skip(i).take(l.len() as int) == l),
{
    if l.len() <= s.skip(i).len() {
        assert(s.subrange(i, i + l.len()) =~= s.skip(i).take(l.len() as int));
    }
}

/// An occurrence of `l` at `i` spans the bytes of `l` from the byte offset
/// of `i`, inside the text.
proof fn lemma_occurrence_offsets(s: Seq<char>, l: Seq<char>, i: int)
    requires
        occurs_at(s, l, i),
    ensures
        utf8_len(s.take(i + l.len())) == utf8_len(s.take(i)) + utf8_len(l),
        utf8_len(s.take(i + l.len())) <= utf8_len(s),
{
    assert(s.take(i + l.len()) =~= s.take(i) + l);
    crate::utf8::lemma_encode_concat(s.take(i), l);
    lemma_split_point(s, i + l.len());
}

/// Whether `t` begins with `l`, compared codepoint by codepoint.
fn starts_with_chars(t: &str, l: &str) -> (r: bool)
    ensures
        r == (l@.len() <= t@.len() && t@.take(l@.len() as int) == l@),
{
    let mut a = t;
    let mut b = l;
    let ghost mut k: int = 0;
    while !b.is_empty()
        invariant
            0 <= k <= l@.len(),
            k <= t@.len(),
            a@ == t@.skip(k),
            b@ == l@.skip(k),
            forall|j: int| 0 <= j < k ==> t@[j] == l@[j],
        decreases b@.len(),
    {
        if a.is_empty() {
            return false;
        }
        let (ca, _, ta) = first_char(a);
        let (cb, _, tb) = first_char(b);
        if ca != cb {
            assert(a@[0] == t@[k] && b@[0] == l@[k]);
            assert(l@.len() <= t@.len() ==> t@.take(l@.len() as int)[k] != l@[k]);
            return false;
        }
        a = ta;
        b = tb;
        proof {
            assert(ta@ =~= t@.skip(k + 1));
            assert(tb@ =~= l@.skip(k + 1));
            k = k + 1;
        }
    }
    assert(t@.take(l@.len() as int) =~= l@);
    true
}

/// The first whitespace codepoint of `s`, by codepoint position and as
/// byte offsets.
fn first_white(s: &str) -> (r: Option<(usize, usize)>)
    ensures
        match (r, first_where(s@.len() as int, is_white_at(s@))) {
            (Some((x, y)), Some(i)) => x == utf8_len(s@.take(i)) && y == utf8_len(s@.take(i + 1)),
            (None, None) => true,
            _ => false,
        },
{
    let total = s.as_bytes().len();
    let mut rest = s;
    let mut pos: usize = 0;
    let ghost mut i: int = 0;
    while !rest.is_empty()
        invariant
            0 <= i <= s@.len(),
            rest@ == s@.skip(i),
            pos == utf8_len(s@.take(i)),
            total == utf8_len(s@),
            forall|j: int| 0 <= j < i ==> !white_space(#[trigger] s@[j]),
        decreases rest@.len(),
    {
        let (c, w, tail) = first_char(rest);
        proof {
            lemma_step(s@, i);
            lemma_split_point(s@, i + 1);
        }
        if is_white(c) {
            proof {
                lemma_first_where_found(s@.len() as int, is_white_at(s@), i);
            }
            return Some((pos, pos + w));
        }
        pos = pos + w;
        rest = tail;
        proof {
            assert(tail@ =~= s@.skip(i + 1));
            i = i + 1;
        }
    }
    proof {
        lemma_first_where_none(s@.len() as int, is_white_at(s@));
    }
    None
}

impl<'d> Delimeter for &'d str {
    open spec fn next_match(&self, s: Seq<char>) -> Option<(int, int)> {
        literal_match(s, self@)
    }

    proof fn lemma_next_match_in_bounds(&self, s: Seq<char>) {
        lemma_first_where(s.len() as int, is_white_at(s));
        lemma_first_where(s.len() as int, occurs_at_pred(s, self@));
    }

    fn find_next(&self, s: &str) -> (r: Option<(usize, usize)>) {
        if self.is_empty() {
            // An empty literal splits on whitespace, one codepoint at a time.
            return first_white(s);
        }
        let ghost l = self@;
        let total = s.as_bytes().len();
        let lw = self.as_bytes().len();
        let mut rest = s;
        let mut pos: usize = 0;
        let ghost mut i: int = 0;
        while !rest.is_empty()
            invariant
                l == self@,
                l.len() > 0,
                lw == utf8_len(l),
                0 <= i <= s@.len(),
                rest@ == s@.skip(i),
                pos == utf8_len(s@.take(i)),
                total == utf8_len(s@),
                forall|j: int| 0 <= j < i ==> !occurs_at(s@, l, j),
            decreases rest@.len(),
        {
            let found = starts_with_chars(rest, *self);
            proof {
                lemma_occurs_iff_prefix(s@, l, i);
            }
            if found {
                proof {
                    lemma_first_where_found(s@.len() as int, occurs_at_pred(s@, l), i);
                    lemma_occurrence_offsets(s@, l, i);
                }
                return Some((pos, pos + lw));
            }
            let (_, w, tail) = first_char(rest);
            proof {
                lemma_step(s@, i);
                lemma_split_point(s@, i + 1);
                assert(s@.skip(i).take(1) =~= rest@.take(1));
            }
            pos = pos + w;
            rest = tail;
            proof {
                assert(tail@ =~= s@.skip(i + 1));
                i = i + 1;
            }
        }
        proof {
            assert forall|j: int| 0 <= j < s@.len() implies !#[trigger] occurs_at_pred(s@, l)(j) by {
                assert(!occurs_at(s@, l, j));
            }
            lemma_first_where_none(s@.len() as int, occurs_at_pred(s@, l));
        }
        None
    }
}

/// The positions of `c` in `s`.
pub open spec fn is_char_at(s: Seq<char>, c: char) -> spec_fn(int) -> bool {
    |i: int| s[i] == c
}

/// The first position of `c` in `s`.
pub open spec fn char_match(s: Seq<char>, c: char) -> Option<(int, int)> {
    match first_where(s.len() as int, is_char_at(s, c)) {
        Some(i) => Some((i, i + 1)),
        None => None,
    }
}

impl Delimeter for char {
    open spec fn next_match(&self, s: Seq<char>) -> Option<(int, int)> {
        char_match(s, *self)
    }

    proof fn lemma_next_match_in_bounds(&self, s: Seq<char>) {
        lemma_first_where(s.len() as int, is_char_at(s, *self));
    }

    fn find_next(&self, s: &str) -> (r: Option<(usize, usize)>) {
        let total = s.as_bytes().len();
        let mut rest = s;
        let mut pos: usize = 0;
        let ghost mut i: int = 0;
        while !rest.is_empty()
            invariant
                0 <= i <= s@.len(),
                rest@ == s@.skip(i),
                pos == utf8_len(s@.take(i)),
                total == utf8_len(s@),
                forall|j: int| 0 <= j < i ==> s@[j] != *self,
            decreases rest@.len(),
        {
            let (c, w, tail) = first_char(rest);
            proof {
                lemma_step(s@, i);
                lemma_split_point(s@, i + 1);
                assert(s@.skip(i).take(1) =~= rest@.take(1));
            }
            if c == *self {
                proof {
                    lemma_first_where_found(s@.len() as int, is_char_at(s@, *self), i);
                }
                return Some((pos, pos + w));
            }
            pos = pos + w;
            rest = tail;
            proof {
                assert(tail@ =~= s@.skip(i + 1));
                i = i + 1;
            }
        }
        proof {
            lemma_first_where_none(s@.len() as int, is_char_at(s@, *self));
        }
        None
    }
}

} // verus!
