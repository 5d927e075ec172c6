use syntecnia_serve::numeral::{i64_to_string, parse_i64, parse_usize, u64_to_hex, u64_to_string};
use syntecnia_serve::order::{sort_pairs, sort_texts, stable_sort};
use syntecnia_serve::text::{
    chars_of, contains, ends_with, eq_ignore_ascii_case, find_char, is_whitespace, join, split, starts_with,
    str_eq, string_of, trim, trim_end, trim_start, Trim,
};

fn cs(s: &str) -> Vec<char> {
    s.chars().collect()
}

#[test]
fn white_space_is_unicodes() {
    for n in 0..=0x10ffffu32 {
        if let Some(c) = char::from_u32(n) {
            assert_eq!(is_whitespace(c), c.is_whitespace(), "{:x}", n);
        }
    }
}

#[test]
fn trimming() {
    for s in ["", " a b ", "\u{3000}x\u{2003}", "\t\n", "none"] {
        let v = cs(s);
        assert_eq!(string_of(trim(&v, Trim::Space)), s.trim());
        assert_eq!(string_of(trim_start(&v, Trim::Space)), s.trim_start());
        assert_eq!(string_of(trim_end(&v, Trim::Space)), s.trim_end());
    }
    assert_eq!(string_of(trim(&cs("//a/b/"), Trim::Slash)), "a/b");
    assert_eq!(string_of(trim_end(&cs("x \r\n\r"), Trim::LineEnd)), "x ");
}

#[test]
fn searching_and_splitting() {
    assert!(starts_with(&cs("abc"), &cs("ab")));
    assert!(!starts_with(&cs("a"), &cs("ab")));
    assert!(ends_with(&cs("abc"), &cs("bc")));
    assert!(contains(&cs("abcd"), &cs("bc")));
    assert!(contains(&cs("abcd"), &cs("")));
    assert!(!contains(&cs("abcd"), &cs("ca")));
    assert_eq!(find_char(&cs("a-b-c"), '-'), 1);
    assert_eq!(find_char(&cs("abc"), '-'), 3);
    assert_eq!(split(&cs("a,,b"), ','), vec![cs("a"), cs(""), cs("b")]);
    assert_eq!(split(&cs(""), ','), vec![cs("")]);
    assert_eq!(join(&vec!["a".to_string(), "b".to_string()], ", "), "a, b");
    assert_eq!(join(&vec![], ", "), "");
}

#[test]
fn comparing() {
    assert!(str_eq("añ", "añ"));
    assert!(!str_eq("a", "ab"));
    assert!(eq_ignore_ascii_case("CoNtEnT", "content"));
    assert!(!eq_ignore_ascii_case("É", "é"));
    assert_eq!(chars_of("añ€"), vec!['a', 'ñ', '€']);
}

#[test]
fn numerals_are_written() {
    for n in [0u64, 9, 10, 255, 4096, u64::MAX] {
        assert_eq!(u64_to_string(n), n.to_string());
        assert_eq!(u64_to_hex(n), format!("{:x}", n));
    }
    for n in [0i64, -1, 42, i64::MAX, i64::MIN] {
        assert_eq!(i64_to_string(n), n.to_string());
    }
}

#[test]
fn numerals_are_read() {
    for s in [
        "", "0", "7", "+7", "-7", "+", "-", "--1", "1a", " 1", "007", "9223372036854775807",
        "9223372036854775808", "-9223372036854775808", "-9223372036854775809", "99999999999999999999999",
    ] {
        assert_eq!(parse_i64(&cs(s)), s.parse::<i64>().ok(), "{}", s);
        assert_eq!(parse_usize(&cs(s), 10), s.parse::<usize>().ok(), "{}", s);
    }
    for s in ["0", "fF", "+1a", "g", "", "ffffffffffffffff", "10000000000000000"] {
        assert_eq!(parse_usize(&cs(s), 16), usize::from_str_radix(s, 16).ok(), "{}", s);
    }
}

#[test]
fn sorting() {
    let words = || vec!["b".to_string(), "a".to_string(), "é".to_string(), "b".to_string(), "".to_string()];
    assert_eq!(stable_sort(words()), vec!["", "a", "b", "b", "é"]);
    assert_eq!(sort_texts(words()), vec!["", "a", "b", "é"]);
    let p = |a: &str, b: &str| (a.to_string(), b.to_string());
    assert_eq!(
        sort_pairs(vec![p("PUT", "/a"), p("GET", "/b"), p("GET", "/a"), p("PUT", "/a")]),
        vec![p("GET", "/a"), p("PUT", "/a"), p("GET", "/b")]
    );
}

#[test]
fn numerals_are_read_back() {
    for n in [0u64, 9, 10, 15, 16, 255, 65_536, u32::MAX as u64] {
        assert_eq!(parse_usize(&cs(&u64_to_string(n)), 10), Some(n as usize));
        assert_eq!(parse_usize(&cs(&u64_to_hex(n)), 16), Some(n as usize));
    }
    for i in [0i64, 7, -7, i64::MAX, i64::MIN] {
        assert_eq!(parse_i64(&cs(&i64_to_string(i))), Some(i));
    }
}
