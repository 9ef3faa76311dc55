use csvpeek::text::{
    find, has_prefix, has_suffix, is_space_char, is_word, less, lower_code, same, to_chars,
    to_string, trimmed,
};

#[test]
fn white_space_is_that_of_unicode() {
    for code in 0..=0x10FFFFu32 {
        if let Some(c) = char::from_u32(code) {
            assert_eq!(is_space_char(c), c.is_whitespace(), "U+{:04X}", code);
        }
    }
}

#[test]
fn lower_case_is_that_of_ascii() {
    for code in 0..=0x10FFFFu32 {
        if let Some(c) = char::from_u32(code) {
            assert_eq!(lower_code(c), c.to_ascii_lowercase() as u32, "U+{:04X}", code);
        }
    }
}

#[test]
fn trimming() {
    for text in ["", " ", "a", " a", "a ", "  a b  ", "\t\n x \r\n", "\u{3000}é\u{a0}", " \u{200b} "] {
        assert_eq!(to_string(trimmed(&to_chars(text))), text.trim(), "{:?}", text);
    }
}

#[test]
fn characters_and_strings() {
    for text in ["", "abc", "héllo wörld", "日本語", "a\u{10FFFF}b"] {
        let chars = to_chars(text);
        assert_eq!(chars, text.chars().collect::<Vec<char>>());
        assert_eq!(to_string(&chars), text);
    }
}

#[test]
fn comparisons_of_texts() {
    let words = ["", "a", "A", "ab", "abc", "b", "é", "z", "日", "\u{10FFFF}", " a", "a "];
    for x in words {
        for y in words {
            let (a, b) = (to_chars(x), to_chars(y));
            assert_eq!(less(&a, &b), x < y, "{:?} < {:?}", x, y);
            assert_eq!(same(&a, &b), x == y);
            assert_eq!(is_word(&a, y), x.eq_ignore_ascii_case(y));
            assert_eq!(has_prefix(&a, &b), x.starts_with(y));
            assert_eq!(has_suffix(&a, &b), x.ends_with(y));
        }
    }
}

#[test]
fn searching() {
    let cases = [
        ("", ""), ("abc", ""), ("abc", "a"), ("abc", "c"), ("abc", "bc"), ("abc", "abcd"),
        ("aaab", "aab"), ("héllo", "llo"), ("abcabc", "ca"), ("abc", "x"), ("", "x"),
    ];
    for (text, pattern) in cases {
        let expected = text.find(pattern).map(|at| text[..at].chars().count());
        assert_eq!(find(&to_chars(text), &to_chars(pattern)), expected, "{:?} in {:?}", pattern, text);
    }
}
