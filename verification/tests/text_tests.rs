use fpm::text::{
    chars_join, chars_lex_le, chars_of, chars_replace, chars_rsplit_once, chars_split,
    chars_split_once, chars_strip_prefix, chars_trim, chars_trim_end_matches,
    chars_trim_start_matches, decimal_of, parse_bool_of, parse_i32_of, parse_i64_of,
    parse_u128_of, parse_usize_of,
};

fn s(v: &[char]) -> String {
    v.iter().collect()
}

fn c(x: &str) -> Vec<char> {
    chars_of(x)
}

#[test]
fn replace_all_occurrences() {
    let r = chars_replace(&c("a.ftd/b.ftd"), &c(".ftd"), &c("/"));
    assert_eq!(s(&r), "a//b/");
    let r = chars_replace(&c("aaa"), &c("aa"), &c("b"));
    assert_eq!(s(&r), "ba");
    let r = chars_replace(&c("none"), &c(".ftd"), &c("x"));
    assert_eq!(s(&r), "none");
}

#[test]
fn trim_end_matches_repeats() {
    assert_eq!(s(&chars_trim_end_matches(&c("x.ftd.ftd"), &c(".ftd"))), "x");
    assert_eq!(s(&chars_trim_end_matches(&c("x.md"), &c(".ftd"))), "x.md");
    assert_eq!(s(&chars_trim_start_matches(&c("//a/"), &c("/"))), "a/");
}

#[test]
fn rsplit_once_takes_last() {
    let (a, b) = chars_rsplit_once(&c("a.b.c"), &c(".")).unwrap();
    assert_eq!((s(&a), s(&b)), ("a.b".to_string(), "c".to_string()));
    assert!(chars_rsplit_once(&c("abc"), &c(".")).is_none());
    let (a, b) = chars_split_once(&c("x<y<z"), '<').unwrap();
    assert_eq!((s(&a), s(&b)), ("x".to_string(), "y<z".to_string()));
    assert_eq!(s(&chars_strip_prefix(&c("pkg/a"), &c("pkg/")).unwrap()), "a");
    assert!(chars_strip_prefix(&c("pk"), &c("pkg/")).is_none());
}

#[test]
fn split_trim_join() {
    let parts = chars_split(&c("a, b ,,c"), ',');
    let got: Vec<String> = parts.iter().map(|p| s(p)).collect();
    assert_eq!(got, vec!["a", " b ", "", "c"]);
    assert_eq!(chars_split(&c(""), ',').len(), 1);
    assert_eq!(s(&chars_trim(&c("\t x y \u{3000}"))), "x y");
    let j = chars_join(&vec![c("a"), c("b"), c("c")], &c(", "));
    assert_eq!(s(&j), "a, b, c");
}

#[test]
fn lexicographic_order() {
    assert!(chars_lex_le(&c("a"), &c("b")));
    assert!(chars_lex_le(&c("a"), &c("ab")));
    assert!(!chars_lex_le(&c("b"), &c("ab")));
    assert!(chars_lex_le(&c(""), &c("")));
}

#[test]
fn decimal_text() {
    assert_eq!(s(&decimal_of(0)), "0");
    assert_eq!(s(&decimal_of(1234567890)), "1234567890");
    assert_eq!(s(&decimal_of(u128::MAX)), u128::MAX.to_string());
}

#[test]
fn parse_numbers_like_std() {
    for t in ["0", "+7", "42", "-1", "", "+", "1a", "340282366920938463463374607431768211455", "340282366920938463463374607431768211456"] {
        assert_eq!(parse_u128_of(&c(t)), t.parse::<u128>().ok(), "{}", t);
        assert_eq!(parse_usize_of(&c(t)), t.parse::<usize>().ok(), "{}", t);
        assert_eq!(parse_i32_of(&c(t)), t.parse::<i32>().ok(), "{}", t);
        assert_eq!(parse_i64_of(&c(t)), t.parse::<i64>().ok(), "{}", t);
    }
    for t in ["-2147483648", "2147483647", "2147483648", "-2147483649", "-", "--1", "-0"] {
        assert_eq!(parse_i32_of(&c(t)), t.parse::<i32>().ok(), "{}", t);
    }
    for t in ["-9223372036854775808", "9223372036854775807", "9223372036854775808"] {
        assert_eq!(parse_i64_of(&c(t)), t.parse::<i64>().ok(), "{}", t);
    }
    for t in ["true", "false", "True", "", "truee"] {
        assert_eq!(parse_bool_of(&c(t)), t.parse::<bool>().ok(), "{}", t);
    }
}
