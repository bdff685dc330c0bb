//! Byte offsets of codepoint positions in UTF-8 text, and the slicing that
//! goes with them.
use vstd::prelude::*;
use vstd::string::*;
use vstd::utf8::*;

verus! {

/// The number of bytes that `s` takes in UTF-8.
pub open spec fn utf8_len(s: Seq<char>) -> int {
    encode_utf8(s).len() as int
}

/// Encoding a concatenation encodes each part in turn.
pub proof fn lemma_encode_concat(a: Seq<char>, b: Seq<char>)
    ensures
        encode_utf8(a + b) == encode_utf8(a) + encode_utf8(b),
    decreases a.len(),
{
    if a.len() == 0 {
        assert(a + b =~= b);
        assert(encode_utf8(a) =~= Seq::<u8>::empty());
        assert(encode_utf8(a) + encode_utf8(b) =~= encode_utf8(b));
    } else {
        lemma_encode_concat(a.drop_first(), b);
        assert((a + b).drop_first() =~= a.drop_first() + b);
        assert((a + b)[0] == a[0]);
        assert(encode_utf8(a + b) =~= encode_utf8(a) + encode_utf8(b));
    }
}

/// The end of the encoding of `a` is a codepoint boundary of the encoding of
/// `a + b`.
pub proof fn lemma_boundary(a: Seq<char>, b: Seq<char>)
    ensures
        is_char_boundary(encode_utf8(a + b), encode_utf8(a).len() as int),
    decreases a.len(),
{
    let ab = a + b;
    encode_utf8_valid_utf8(ab);
    if a.len() == 0 {
        assert(encode_utf8(a).len() == 0);
    } else {
        lemma_encode_concat(a, b);
        lemma_encode_concat(a.drop_first(), b);
        encode_utf8_first_scalar(ab);
        assert((a + b).drop_first() =~= a.drop_first() + b);
        assert(ab[0] == a[0]);
        let bytes = encode_utf8(ab);
        assert(pop_first_scalar(bytes) =~= encode_utf8(ab.drop_first()));
        lemma_boundary(a.drop_first(), b);
        assert(encode_scalar(a[0] as u32).len() > 0);
    }
}

/// Cutting the encoding of `s` after `i` codepoints falls on a boundary and
/// separates the encodings of the two parts.
pub proof fn lemma_split_point(s: Seq<char>, i: int)
    requires
        0 <= i <= s.len(),
    ensures
        is_char_boundary(encode_utf8(s), utf8_len(s.take(i))),
        encode_utf8(s) == encode_utf8(s.take(i)) + encode_utf8(s.skip(i)),
        0 <= utf8_len(s.take(i)) <= utf8_len(s),
{
    assert(s =~= s.take(i) + s.skip(i));
    lemma_encode_concat(s.take(i), s.skip(i));
    lemma_boundary(s.take(i), s.skip(i));
}

/// One more codepoint adds its own encoding to the byte offset.
pub proof fn lemma_step(s: Seq<char>, i: int)
    requires
        0 <= i < s.len(),
    ensures
        utf8_len(s.take(i + 1)) == utf8_len(s.take(i)) + utf8_len(s.skip(i).take(1)),
{
    assert(s.take(i + 1) =~= s.take(i) + s.skip(i).take(1));
    lemma_encode_concat(s.take(i), s.skip(i).take(1));
}

/// A text whose bytes encode `cs` holds the codepoints `cs`.
pub proof fn lemma_view_of_bytes(t: &str, cs: Seq<char>)
    requires
        t.spec_bytes() == encode_utf8(cs),
    ensures
        t@ == cs,
{
    encode_utf8_decode_utf8(t@);
    encode_utf8_decode_utf8(cs);
}

/// The number of bytes that `c` takes in UTF-8.
pub fn char_width(c: char) -> (w: usize)
    ensures
        w == utf8_len(seq![c]),
        1 <= w <= 4,
{
    proof {
        char_is_scalar(c);
        assert(seq![c].drop_first() =~= Seq::<char>::empty());
        assert(encode_utf8(Seq::<char>::empty()) =~= Seq::<u8>::empty());
        assert(encode_utf8(seq![c]) =~= encode_scalar(c as u32) + encode_utf8(Seq::<char>::empty()));
        assert(encode_utf8(seq![c]) =~= encode_scalar(c as u32));
    }
    let v = c as u32;
    if v <= 0x7f {
        1
    } else if v <= 0x7ff {
        2
    } else if v <= 0xffff {
        3
    } else {
        4
    }
}

/// `s` cut after `i` codepoints, where `mid` is the byte offset of that
/// point.
pub fn split_at_codepoint<'a>(s: &'a str, i: Ghost<int>, mid: usize) -> (r: (&'a str, &'a str))
    requires
        0 <= i@ <= s@.len(),
        mid == utf8_len(s@.take(i@)),
    ensures
        r.0@ == s@.take(i@),
        r.1@ == s@.skip(i@),
{
    proof {
        lemma_split_point(s@, i@);
    }
    let r = s.split_at(mid);
    proof {
        let bytes = encode_utf8(s@);
        assert(bytes.subrange(0, mid as int) =~= encode_utf8(s@.take(i@)));
        assert(bytes.subrange(mid as int, bytes.len() as int) =~= encode_utf8(s@.skip(i@)));
        lemma_view_of_bytes(r.0, s@.take(i@));
        lemma_view_of_bytes(r.1, s@.skip(i@));
    }
    r
}

/// The first codepoint of `s`, its width in bytes, and the text after it.
pub fn first_char<'a>(s: &'a str) -> (r: (char, usize, &'a str))
    requires
        s@.len() > 0,
    ensures
        r.0 == s@[0],
        r.1 == utf8_len(s@.take(1)),
        r.2@ == s@.skip(1),
{
    let c = s.get_char(0);
    let w = char_width(c);
    proof {
        assert(s@.take(1) =~= seq![c]);
    }
    let (_, tail) = split_at_codepoint(s, Ghost(1), w);
    (c, w, tail)
}

} // verus!
