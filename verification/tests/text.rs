use heap_analyzer::text::{
    chars_of, contains, join, push_left, push_repeated, push_right, remove_all, same_text,
    to_decimal,
};

fn left(s: &str, width: usize) -> String {
    let mut out = String::new();
    push_left(&mut out, s, width);
    out
}

fn right(s: &str, width: usize) -> String {
    let mut out = String::new();
    push_right(&mut out, s, width);
    out
}

#[test]
fn decimal_numerals() {
    for n in [0u128, 1, 9, 10, 99, 100, 1234567890, u64::MAX as u128, u128::MAX] {
        assert_eq!(to_decimal(n), n.to_string());
    }
}

#[test]
fn padding_counts_characters() {
    for s in ["", "a", "Count", "日本語", "a🦀", "exactly8", "longer than the column"] {
        assert_eq!(left(s, 8), format!("{:<8}", s));
        assert_eq!(right(s, 8), format!("{:>8}", s));
    }
}

#[test]
fn repeated_characters() {
    let mut out = String::from("x");
    push_repeated(&mut out, '-', 5);
    push_repeated(&mut out, '+', 0);
    assert_eq!(out, "x-----");
}

#[test]
fn equal_texts() {
    assert!(same_text("", ""));
    assert!(same_text("weak", "weak"));
    assert!(!same_text("weak", "wea"));
    assert!(!same_text("weak", "Weak"));
    assert!(!same_text("é", "e"));
}

#[test]
fn substrings() {
    let cases = [
        ("EventListener", "Listener", true),
        ("EventListener", "listener", false),
        ("aab", "ab", true),
        ("ab", "aab", false),
        ("", "", true),
        ("abc", "", true),
        ("", "a", false),
        ("日本語", "本", true),
        ("ababac", "abac", true),
    ];
    for (hay, needle, expected) in cases {
        assert_eq!(contains(&chars_of(hay), &chars_of(needle)), expected, "{needle} in {hay}");
        assert_eq!(hay.contains(needle), expected);
    }
}

#[test]
fn joining() {
    let none: Vec<String> = vec![];
    assert_eq!(join(&none, " ← "), "");
    assert_eq!(join(&vec!["a".to_string()], " ← "), "a");
    let three = vec!["a".to_string(), "".to_string(), "c".to_string()];
    assert_eq!(join(&three, " ← "), "a ←  ← c");
}

#[test]
fn removal_is_from_left_to_right() {
    for (s, pat) in [
        ("abcabc", "bc"),
        ("aaa", "aa"),
        ("aaaa", "aa"),
        ("", "x"),
        ("日x本x", "x"),
        ("no match", "zz"),
        (".heap.heapsnapshotsnapshot", ".heapsnapshot"),
    ] {
        assert_eq!(remove_all(s, pat), s.replace(pat, ""), "{s} without {pat}");
    }
}
