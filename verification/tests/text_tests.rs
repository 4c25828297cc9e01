use rns::web::text::{
    decimal_string, find_first, is_whitespace, skip_spaces_in, skip_token_in, to_chars, trim_bounds,
};

fn trimmed(s: &str, from: usize) -> String {
    let chars = to_chars(s);
    let (start, end) = trim_bounds(&chars, from);
    chars[start..end].iter().collect()
}

#[test]
fn whitespace_is_the_unicode_property() {
    for code in 0u32..=0x10FFFF {
        if let Some(c) = char::from_u32(code) {
            assert_eq!(is_whitespace(c), c.is_whitespace(), "U+{:04X}", code);
        }
    }
}

#[test]
fn decimal_string_matches_the_numeral() {
    assert_eq!(decimal_string(0), "0");
    assert_eq!(decimal_string(7), "7");
    assert_eq!(decimal_string(10), "10");
    assert_eq!(decimal_string(404), "404");
    assert_eq!(decimal_string(1234567890), "1234567890");
    assert_eq!(decimal_string(usize::MAX), usize::MAX.to_string());
}

#[test]
fn skipping_counts_characters_not_bytes() {
    let s = to_chars("\u{3000}\u{A0}ab\u{e9} \tz");
    assert_eq!(s.len(), 8);
    assert_eq!(skip_spaces_in(&s, 0), 2);
    assert_eq!(skip_token_in(&s, 2), 5);
    assert_eq!(skip_spaces_in(&s, 5), 7);
    assert_eq!(skip_token_in(&s, 7), 8);
    assert_eq!(skip_spaces_in(&s, 8), 8);
    assert_eq!(skip_token_in(&s, 8), 8);
}

#[test]
fn find_first_gives_the_length_when_absent() {
    assert_eq!(find_first(&to_chars("a:b:c"), ':'), 1);
    assert_eq!(find_first(&to_chars(":"), ':'), 0);
    assert_eq!(find_first(&to_chars("abc"), ':'), 3);
    assert_eq!(find_first(&to_chars(""), ':'), 0);
    assert_eq!(find_first(&to_chars("\u{e9}\u{e9}:"), ':'), 2);
}

#[test]
fn trimming_strips_both_ends_only() {
    assert_eq!(trimmed("k:  a b  ", 2), "a b");
    assert_eq!(trimmed("k:", 2), "");
    assert_eq!(trimmed("k: \t\u{2003} ", 2), "");
    assert_eq!(trimmed("abc", 0), "abc");
    assert_eq!(trimmed("\u{A0}x\u{3000}", 0), "x");
}
