use dress::text::{
    chars_are, chars_of, contains_chars, find_from, parse_usize, push_decimal,
    repeat_str, string_of, strings_equal, trim_chars, utf8_len_capped,
};

fn cs(s: &str) -> Vec<char> {
    s.chars().collect()
}

#[test]
fn parse_usize_like_std() {
    assert_eq!(parse_usize(&cs("42")), Some(42));
    assert_eq!(parse_usize(&cs("+7")), Some(7));
    assert_eq!(parse_usize(&cs("007")), Some(7));
    assert_eq!(parse_usize(&cs("")), None);
    assert_eq!(parse_usize(&cs("+")), None);
    assert_eq!(parse_usize(&cs("-1")), None);
    assert_eq!(parse_usize(&cs("1a")), None);
    assert_eq!(parse_usize(&cs(&usize::MAX.to_string())), Some(usize::MAX));
    assert_eq!(parse_usize(&cs("99999999999999999999999999")), None);
    for s in ["0", "15", "+3", "x", "", "18446744073709551616"] {
        assert_eq!(parse_usize(&cs(s)), s.parse::<usize>().ok());
    }
}

#[test]
fn decimal_notation() {
    let mut s = String::from("n=");
    push_decimal(&mut s, 0);
    push_decimal(&mut s, 1234567890123);
    assert_eq!(s, "n=01234567890123");
}

#[test]
fn trimming_like_std() {
    for s in ["  a b  ", "\t\n x\u{3000}", "", "   ", "y"] {
        assert_eq!(string_of(&trim_chars(&cs(s))), s.trim());
    }
}

#[test]
fn repeat_and_compare() {
    assert_eq!(repeat_str("ab", 3), "ababab");
    assert_eq!(repeat_str("ab", 0), "");
    assert!(chars_are(&cs("heading"), "heading"));
    assert!(!chars_are(&cs("head"), "heading"));
    assert!(!chars_are(&cs("headings"), "heading"));
    assert!(strings_equal("x", "x"));
    assert!(!strings_equal("x", "y"));
    assert_eq!(chars_of("日本"), vec!['日', '本']);
}

#[test]
fn search_in_characters() {
    let hay = cs("abcabc");
    assert_eq!(find_from(&hay, &cs("bc"), 0), Some(1));
    assert_eq!(find_from(&hay, &cs("bc"), 2), Some(4));
    assert_eq!(find_from(&hay, &cs("bc"), 5), None);
    assert_eq!(find_from(&hay, &cs(""), 6), Some(6));
    assert!(contains_chars(&hay, &cs("ca")));
    assert!(!contains_chars(&hay, &cs("cc")));
}

#[test]
fn utf8_length_capped() {
    assert_eq!(utf8_len_capped("rust", 46), 4);
    assert_eq!(utf8_len_capped("日本", 46), 6);
    assert_eq!(utf8_len_capped(&"x".repeat(100), 46), 46);
    assert_eq!(utf8_len_capped("abc", 0), 0);
}
