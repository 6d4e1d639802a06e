use elmore::text::{
    append_decimal, chars_of, compare_text, every_word_occurs, find_text, is_whitespace, join_strings, same_text,
    trimmed, Order,
};

fn v(s: &str) -> Vec<char> {
    s.chars().collect()
}

#[test]
fn find_text_finds_substrings() {
    assert!(find_text(&v("blog.rust-lang.org"), &v("rust")));
    assert!(find_text(&v("abc"), &v("")));
    assert!(find_text(&v("abc"), &v("abc")));
    assert!(!find_text(&v("abc"), &v("abcd")));
    assert!(!find_text(&v("abc"), &v("ac")));
    assert!(find_text(&v("aaab"), &v("aab")));
}

#[test]
fn trimmed_drops_surrounding_whitespace_only() {
    assert_eq!(trimmed("  rust  blog \t\n"), "rust  blog");
    assert_eq!(trimmed("   "), "");
    assert_eq!(trimmed(""), "");
    assert_eq!(trimmed("\u{3000}x\u{3000}"), "x");
}

#[test]
fn every_word_must_occur() {
    let hay = v("rust blog https://blog.rust-lang.org/");
    assert!(every_word_occurs(&v("rust  blog"), &hay));
    assert!(every_word_occurs(&v("  "), &hay));
    assert!(every_word_occurs(&v(""), &hay));
    assert!(!every_word_occurs(&v("rust missing"), &hay));
    assert!(!every_word_occurs(&v("missing rust"), &hay));
}

#[test]
fn join_puts_separator_between_parts() {
    let parts = vec!["a".to_string(), "b".to_string(), "c".to_string()];
    assert_eq!(join_strings(&parts, ", "), "a, b, c");
    assert_eq!(join_strings(&vec!["x".to_string()], ", "), "x");
    assert_eq!(join_strings(&Vec::new(), ", "), "");
}

#[test]
fn compare_text_is_lexicographic() {
    assert_eq!(compare_text(&v("abc"), &v("abd")), Order::Less);
    assert_eq!(compare_text(&v("abc"), &v("ab")), Order::Greater);
    assert_eq!(compare_text(&v("ab"), &v("ab")), Order::Equal);
    assert_eq!(compare_text(&v("B"), &v("a")), Order::Less);
    assert_eq!(compare_text(&v(""), &v("a")), Order::Less);
    assert_eq!(compare_text(&v("é"), &v("z")), Order::Greater);
}

#[test]
fn chars_and_same_text() {
    assert_eq!(chars_of("héllo"), vec!['h', 'é', 'l', 'l', 'o']);
    assert!(same_text("value", "value"));
    assert!(!same_text("value", "values"));
    assert!(!same_text("Value", "value"));
}

#[test]
fn whitespace_classes() {
    assert!(is_whitespace(' '));
    assert!(is_whitespace('\t'));
    assert!(is_whitespace('\u{3000}'));
    assert!(!is_whitespace('a'));
    assert!(!is_whitespace('\u{180E}'));
    for c in ['\n', '\r', '\u{85}', '\u{A0}', '\u{2009}', '\u{2028}', '\u{205F}'] {
        assert_eq!(is_whitespace(c), c.is_whitespace());
    }
}

#[test]
fn decimal_numerals() {
    for n in [0usize, 7, 10, 99, 100, 1205, usize::MAX] {
        let mut s = String::from("#");
        append_decimal(&mut s, n);
        assert_eq!(s, format!("#{n}"));
    }
}
