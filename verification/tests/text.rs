use loli::text::{
    chars_of, decimal_digit, parse_u32, push_decimal, split_str, string_of, white_space,
};

#[test]
fn numbers_read_as_str_parse_does() {
    assert_eq!(parse_u32("0"), Some(0));
    assert_eq!(parse_u32("+17"), Some(17));
    assert_eq!(parse_u32("4294967295"), Some(4294967295));
    assert_eq!(parse_u32("4294967296"), None);
    assert_eq!(parse_u32(""), None);
    assert_eq!(parse_u32("+"), None);
    assert_eq!(parse_u32("-1"), None);
    assert_eq!(parse_u32("1 "), None);
    assert_eq!(parse_u32("007"), Some(7));
    assert_eq!(
        loli::cli::KakounePosition::from_str("18446744073709551615.0").unwrap().line,
        usize::MAX
    );
    for s in ["0", "+3", "12a", "", "+", "99999999999", "4294967295", "4294967296"] {
        assert_eq!(parse_u32(s), s.parse::<u32>().ok(), "{}", s);
    }
}

#[test]
fn numbers_written_in_decimal() {
    let mut s = String::from("n=");
    push_decimal(&mut s, 0);
    push_decimal(&mut s, 907);
    assert_eq!(s, "n=0907");
    let mut s = String::new();
    push_decimal(&mut s, u64::MAX);
    assert_eq!(s, u64::MAX.to_string());
}

#[test]
fn split_as_str_split_does() {
    for (s, p) in [("a' 'b", "' '"), ("", "' '"), ("' '", "' '"), ("xx", "x"), ("abc", "bc"), ("aaa", "aa")] {
        let expected: Vec<String> = s.split(p).map(|x| x.to_string()).collect();
        assert_eq!(split_str(s, p), expected, "{:?} {:?}", s, p);
    }
}

#[test]
fn characters_of_strings() {
    let v = chars_of("aé€");
    assert_eq!(v, vec!['a', 'é', '€']);
    assert_eq!(string_of(&v, 1, 3), "é€");
    for c in [' ', '\t', '\n', '\u{a0}', '\u{3000}', 'a', '_', '\u{200b}', '\u{2009}'] {
        assert_eq!(white_space(c), c.is_whitespace(), "{:?}", c);
    }
}

#[test]
fn decimal_digits_are_the_unicode_class() {
    for c in ['0', '9', '\u{663}', '\u{966}', '\u{ff10}', '\u{1d7ce}', '\u{1d7ff}', '\u{1fbf9}'] {
        assert!(decimal_digit(c), "{:?}", c);
    }
    for c in ['a', '.', ',', '|', ':', '/', '\u{b2}', '\u{bd}', '\u{65f}', '\u{66a}', '\u{1d7cd}', '\u{1d800}'] {
        assert!(!decimal_digit(c), "{:?}", c);
    }
    assert_eq!(parse_u32("\u{663}"), None);
}
