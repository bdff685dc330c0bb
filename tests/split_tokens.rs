use strsplit::{until_char, Delimeter, StrSplit};

#[test]
fn until_char_test() {
    assert_eq!(until_char("hello world", 'o'), "hell");
}

#[test]
fn itworks() {
    let haystack = "a b c  d e";
    let letters: Vec<_> = StrSplit::new(haystack, " ").collect();
    println!("letters = {:?}", letters);
    assert_eq!(letters, vec!["a", "b", "c", "d", "e"]);
}

#[test]
fn tail() {
    let haystack = "a b c d ";
    let letters: Vec<_> = StrSplit::new(haystack, "").collect();
    assert_eq!(letters, vec!["a", "b", "c", "d"]);
}

#[test]
fn fruits_on_comma() {
    let fruits: Vec<_> = StrSplit::new("apple,banana,mango", ',').collect();
    assert_eq!(fruits, vec!["apple", "banana", "mango"]);
}

#[test]
fn empty_input_yields_nothing() {
    let mut by_str = StrSplit::new("", " ");
    assert_eq!(by_str.next(), None);
    let mut by_char = StrSplit::new("", ',');
    assert_eq!(by_char.next(), None);
    let mut by_white = StrSplit::new("", "");
    assert_eq!(by_white.next(), None);
}

#[test]
fn no_delimiter_yields_whole_input() {
    let tokens: Vec<_> = StrSplit::new("hello", ",").collect();
    assert_eq!(tokens, vec!["hello"]);
    let tokens: Vec<_> = StrSplit::new("hello", 'z').collect();
    assert_eq!(tokens, vec!["hello"]);
    let tokens: Vec<_> = StrSplit::new("hello", "").collect();
    assert_eq!(tokens, vec!["hello"]);
}

#[test]
fn resplitting_tokens_gives_each_back() {
    let tokens: Vec<_> = StrSplit::new(",,one,two,,three,", ',').collect();
    assert_eq!(tokens, vec!["one", "two", "three"]);
    for t in tokens {
        let again: Vec<_> = StrSplit::new(t, ',').collect();
        assert_eq!(again, vec![t]);
    }
}

#[test]
fn rejoin_collapses_delimiter_runs() {
    let s = "--a----b--c--";
    let tokens: Vec<_> = StrSplit::new(s, "--").collect();
    assert_eq!(tokens, vec!["a", "b", "c"]);
    assert_eq!(tokens.join("--"), "a--b--c");
    let odd: Vec<_> = StrSplit::new("xaaay", "aa").collect();
    assert_eq!(odd, vec!["x", "ay"]);
}

#[test]
fn exhausted_stays_exhausted() {
    let mut sp = StrSplit::new("a,b", ',');
    assert_eq!(sp.next(), Some("a"));
    assert_eq!(sp.next(), Some("b"));
    assert_eq!(sp.next(), None);
    assert_eq!(sp.next(), None);
    assert_eq!(sp.next(), None);
}

#[test]
fn only_delimiters_yield_nothing() {
    let tokens: Vec<_> = StrSplit::new(",,,", ',').collect();
    assert!(tokens.is_empty());
    let tokens: Vec<_> = StrSplit::new(" \t\n ", "").collect();
    assert!(tokens.is_empty());
}

#[test]
fn whitespace_mode_splits_on_any_whitespace() {
    let tokens: Vec<_> = StrSplit::new("one\ttwo\nthree\u{3000}four", "").collect();
    assert_eq!(tokens, vec!["one", "two", "three", "four"]);
}

#[test]
fn multibyte_text_and_delimiter() {
    let tokens: Vec<_> = StrSplit::new("héllo→wörld→", '→').collect();
    assert_eq!(tokens, vec!["héllo", "wörld"]);
    let tokens: Vec<_> = StrSplit::new("größe<>maß<>", "<>").collect();
    assert_eq!(tokens, vec!["größe", "maß"]);
}

#[test]
fn char_find_next_offsets() {
    assert_eq!(','.find_next("ab,cd"), Some((2, 3)));
    assert_eq!(','.find_next("abcd"), None);
    assert_eq!(','.find_next(""), None);
    assert_eq!('ö'.find_next("wörld"), Some((1, 3)));
    assert_eq!('\u{e9}'.find_next("caf\u{e9}!"), Some((3, 5)));
    assert_eq!(','.find_next("\u{e9},"), Some((2, 3)));
    assert_eq!(','.find_next("apple,banana,mango"), Some((5, 6)));
}

#[test]
fn literal_find_next_offsets() {
    assert_eq!("cd".find_next("abcdcd"), Some((2, 4)));
    assert_eq!("cd".find_next("abc"), None);
    assert_eq!("abcd".find_next("ab"), None);
    assert_eq!("".find_next("ab cd"), Some((2, 3)));
    assert_eq!("".find_next("abcd"), None);
    assert_eq!("".find_next(""), None);
    assert_eq!(",".find_next("\u{e9},"), Some((2, 3)));
    assert_eq!("<>".find_next("maß<>x"), Some((4, 6)));
    assert_eq!("".find_next("a\u{3000}b"), Some((1, 4)));
    assert_eq!("".find_next("\u{3000}"), Some((0, 3)));
    assert_eq!("".find_next("ab\tc"), Some((2, 3)));
}

#[test]
fn until_char_skips_leading_delimiters() {
    assert_eq!(until_char("ooh no", 'o'), "h n");
    assert_eq!(until_char("plain", 'x'), "plain");
}


#[test]
fn remainder_after_multibyte_match() {
    let mut sp = StrSplit::new("\u{e9}\u{3000}\u{e8} x", "");
    assert_eq!(sp.next(), Some("\u{e9}"));
    assert_eq!(sp.next(), Some("\u{e8}"));
    assert_eq!(sp.next(), Some("x"));
    assert_eq!(sp.next(), None);
}
