use irisnotes::chars::{
    contains, decimal, from_chars, is_space, join, matches_at, remove_char, replace_all, reversed,
    same_chars, same_text, split_words, to_chars,
};

fn chars(s: &str) -> Vec<char> {
    s.chars().collect()
}

#[test]
fn to_chars_and_back() {
    assert_eq!(to_chars("héllo"), vec!['h', 'é', 'l', 'l', 'o']);
    assert_eq!(from_chars(&vec!['h', 'é', 'l', 'l', 'o']), "héllo");
    assert_eq!(from_chars(&to_chars("")), "");
}

#[test]
fn same_text_compares_characters() {
    assert!(same_text("abc", "abc"));
    assert!(!same_text("abc", "abd"));
    assert!(!same_text("abc", "ab"));
    assert!(same_text("", ""));
    assert!(same_chars(&chars("xy"), &chars("xy")));
    assert!(!same_chars(&chars("xy"), &chars("yx")));
}

#[test]
fn is_space_agrees_with_the_standard_library() {
    let mut code: u32 = 0;
    while code <= 0x10FFFF {
        if let Some(c) = char::from_u32(code) {
            assert_eq!(is_space(c), c.is_whitespace(), "U+{code:04X}");
        }
        code += 1;
    }
}

#[test]
fn matches_at_positions() {
    let text = chars("hello world");
    assert!(matches_at(&text, 0, &chars("hello")));
    assert!(matches_at(&text, 6, &chars("world")));
    assert!(!matches_at(&text, 7, &chars("world")));
    assert!(!matches_at(&text, 1, &chars("hello")));
    assert!(matches_at(&text, 11, &chars("")));
    assert!(!matches_at(&text, 12, &chars("")));
}

#[test]
fn contains_finds_substrings() {
    let text = chars("hello world");
    assert!(contains(&text, &chars("lo wo")));
    assert!(contains(&text, &chars("")));
    assert!(contains(&text, &chars("hello world")));
    assert!(!contains(&text, &chars("hello world!")));
    assert!(!contains(&text, &chars("World")));
    assert!(contains(&chars(""), &chars("")));
    assert!(!contains(&chars(""), &chars("a")));
}

#[test]
fn contains_agrees_with_the_standard_library() {
    let texts = ["", "a", "aa", "ab", "aab", "abab", "ababa", "banana"];
    for t in texts {
        for p in texts {
            assert_eq!(contains(&chars(t), &chars(p)), t.contains(p), "{t:?} {p:?}");
        }
    }
}

#[test]
fn replace_all_agrees_with_the_standard_library() {
    let texts = ["", "a", "aaa", "aaaa", "abab", "xaax", "&amp;amp;", "banana"];
    let froms = ["a", "aa", "ab", "an", "&amp;", "x"];
    let tos = ["", "b", "aa", "&"];
    for t in texts {
        for f in froms {
            for r in tos {
                let got: String = replace_all(&chars(t), &chars(f), &chars(r)).into_iter().collect();
                assert_eq!(got, t.replace(f, r), "{t:?} {f:?} {r:?}");
            }
        }
    }
}

#[test]
fn replace_all_with_empty_pattern_changes_nothing() {
    assert_eq!(replace_all(&chars("abc"), &chars(""), &chars("x")), chars("abc"));
}

#[test]
fn split_words_agrees_with_the_standard_library() {
    let texts = ["", " ", "a", " a ", "a b", "  two   words  ", "tabs\tand\nlines", "\u{3000}wide\u{a0}gap"];
    for t in texts {
        let got: Vec<String> = split_words(&chars(t)).into_iter().map(|w| w.into_iter().collect()).collect();
        let want: Vec<String> = t.split_whitespace().map(|w| w.to_string()).collect();
        assert_eq!(got, want, "{t:?}");
    }
}

#[test]
fn remove_char_drops_every_occurrence() {
    assert_eq!(remove_char(&chars("\"a\"b\"\""), '"'), chars("ab"));
    assert_eq!(remove_char(&chars("abc"), '"'), chars("abc"));
    assert_eq!(remove_char(&chars(""), '"'), chars(""));
}

#[test]
fn join_puts_the_separator_between() {
    assert_eq!(join(&vec![chars("a"), chars("b"), chars("c")], &chars(" / ")), chars("a / b / c"));
    assert_eq!(join(&vec![chars("a")], &chars(" / ")), chars("a"));
    assert_eq!(join(&vec![], &chars(" / ")), chars(""));
    assert_eq!(join(&vec![chars(""), chars("")], &chars("-")), chars("-"));
}

#[test]
fn reversed_turns_the_order_round() {
    assert_eq!(reversed(vec![chars("a"), chars("b"), chars("c")]), vec![chars("c"), chars("b"), chars("a")]);
    assert_eq!(reversed(vec![]), Vec::<Vec<char>>::new());
}

#[test]
fn decimal_writes_numerals() {
    assert_eq!(decimal(0), chars("0"));
    assert_eq!(decimal(7), chars("7"));
    assert_eq!(decimal(10), chars("10"));
    assert_eq!(decimal(1234567890), chars("1234567890"));
    assert_eq!(decimal(usize::MAX), chars(&usize::MAX.to_string()));
}
