use vidplay::text::{
    chars_of, is_whitespace, push_chars, push_str_chars,
    decimal_chars, format_clock, labelled_number, lex_le_chars, parse_u64_chars, replace_chars,
    split_first, string_of, trim_chars,
};

fn v(s: &str) -> Vec<char> {
    s.chars().collect()
}

fn s(v: &Vec<char>) -> String {
    v.iter().collect()
}

#[test]
fn trim_removes_unicode_whitespace_at_both_ends() {
    assert_eq!(s(&trim_chars(&v(" \t\u{3000}hi there\u{a0}\n"))), "hi there");
    assert_eq!(s(&trim_chars(&v("   "))), "");
    assert_eq!(s(&trim_chars(&v("x"))), "x");
}

#[test]
fn replace_is_left_to_right_and_non_overlapping() {
    assert_eq!(s(&replace_chars(&v("aaa"), &v("aa"), &v("b"))), "ba");
    assert_eq!(s(&replace_chars(&v("a\\Nb\\N"), &v("\\N"), &v("\n"))), "a\nb\n");
    assert_eq!(s(&replace_chars(&v("none"), &v("xyz"), &v("q"))), "none");
}

#[test]
fn decimal_digits() {
    assert_eq!(s(&decimal_chars(0)), "0");
    assert_eq!(s(&decimal_chars(1907)), "1907");
    assert_eq!(s(&decimal_chars(u64::MAX)), "18446744073709551615");
}

#[test]
fn parse_follows_std_rules() {
    assert_eq!(parse_u64_chars(&v("42")), Some(42));
    assert_eq!(parse_u64_chars(&v("+7")), Some(7));
    assert_eq!(parse_u64_chars(&v("007")), Some(7));
    assert_eq!(parse_u64_chars(&v("")), None);
    assert_eq!(parse_u64_chars(&v("+")), None);
    assert_eq!(parse_u64_chars(&v("-1")), None);
    assert_eq!(parse_u64_chars(&v("1a")), None);
    assert_eq!(parse_u64_chars(&v("18446744073709551615")), Some(u64::MAX));
    assert_eq!(parse_u64_chars(&v("18446744073709551616")), None);
    for n in [0u64, 5, 10, 99, 12345, u64::MAX] {
        assert_eq!(parse_u64_chars(&decimal_chars(n)), Some(n));
    }
}

#[test]
fn split_at_first_separator() {
    let (a, b) = split_first(&v("1:2:3"), ':');
    assert_eq!(s(&a), "1");
    assert_eq!(s(&b.unwrap()), "2:3");
    let (a, b) = split_first(&v("abc"), ':');
    assert_eq!(s(&a), "abc");
    assert!(b.is_none());
    let (a, b) = split_first(&v("x:"), ':');
    assert_eq!(s(&a), "x");
    assert_eq!(s(&b.unwrap()), "");
}

#[test]
fn lexicographic_order_matches_string_order() {
    let words = ["", "a", "ab", "b", "B", "é", "a b"];
    for x in words {
        for y in words {
            assert_eq!(lex_le_chars(&v(x), &v(y)), x <= y, "{x:?} {y:?}");
        }
    }
}

#[test]
fn clock_text_pads_seconds() {
    assert_eq!(format_clock(125, 3671), "2:05 / 61:11");
    assert_eq!(format_clock(0, 59), "0:00 / 0:59");
    assert_eq!(format_clock(600, 610), "10:00 / 10:10");
}

#[test]
fn labels_and_strings() {
    assert_eq!(labelled_number("Audio Track ", 3), "Audio Track 3");
    assert_eq!(string_of(&v("abc")), "abc");
}

#[test]
fn whitespace_is_unicode_white_space() {
    for c in ['\t', '\n', '\u{b}', '\u{c}', '\r', ' ', '\u{85}', '\u{a0}', '\u{1680}', '\u{2000}', '\u{200a}', '\u{2028}', '\u{2029}', '\u{202f}', '\u{205f}', '\u{3000}'] {
        assert!(is_whitespace(c), "{:?}", c);
    }
    for c in ['a', '\u{200b}', '\u{feff}', '_', '\u{0}'] {
        assert!(!is_whitespace(c), "{:?}", c);
    }
    for u in 0..0x3100u32 {
        if let Some(c) = char::from_u32(u) {
            assert_eq!(is_whitespace(c), c.is_whitespace(), "{:?}", c);
        }
    }
}

#[test]
fn characters_and_appending() {
    assert_eq!(chars_of("añb"), vec!['a', 'ñ', 'b']);
    let mut v = chars_of("ab");
    push_str_chars(&mut v, "cd");
    push_chars(&mut v, &vec!['e']);
    assert_eq!(s(&v), "abcde");
}
