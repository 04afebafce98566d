use heap_analyzer::truncation::truncate;

#[test]
fn a_text_that_fits_is_left_alone() {
    assert_eq!(truncate("", 0), "");
    assert_eq!(truncate("abc", 3), "abc");
    assert_eq!(truncate("abc", 51), "abc");
    assert_eq!(truncate("héé", 5), "héé");
}

#[test]
fn ascii_is_cut_to_the_bytes() {
    assert_eq!(truncate("abcdef", 4), "abcd");
    assert_eq!(truncate("abcdef", 0), "");
}

#[test]
fn no_character_is_split() {
    assert_eq!(truncate("aé", 2), "a");
    assert_eq!(truncate("é", 1), "");
    assert_eq!(truncate("日本語", 7), "日本");
    assert_eq!(truncate("日本語", 8), "日本");
    assert_eq!(truncate("🦀🦀", 7), "🦀");
    assert_eq!(truncate("🦀", 3), "");
}

#[test]
fn the_longest_prefix_that_fits_is_kept() {
    let text = "a¢日🦀z—é←end";
    for max in 0..=text.len() + 2 {
        let r = truncate(text, max);
        assert!(text.starts_with(r));
        assert!(r.len() <= max);
        if r.len() < text.len() {
            let next = text[r.len()..].chars().next().unwrap();
            assert!(r.len() + next.len_utf8() > max);
        }
    }
}

#[test]
fn cutting_twice_changes_nothing() {
    let text = "日本語のテキスト";
    for max in 0..30 {
        assert_eq!(truncate(truncate(text, max), max), truncate(text, max));
    }
}

#[test]
fn cutting_twice_is_cutting_to_the_lesser() {
    assert_eq!(truncate(truncate("aé日🦀", 6), 5), "aé");
    let text = "aé日🦀b—c";
    for m in 0..=text.len() {
        for n in 0..=text.len() {
            assert_eq!(truncate(truncate(text, m), n), truncate(text, m.min(n)));
        }
    }
}

#[test]
fn a_smaller_limit_leaves_a_prefix() {
    let text = "日a🦀é本bc";
    for n in 0..=text.len() {
        for m in 0..=n {
            assert!(truncate(text, n).starts_with(truncate(text, m)));
        }
    }
}
