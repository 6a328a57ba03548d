use rusty_notes::text::{
    chars_equal, contains_chars, count_words, sanitize_chars, title_le_chars, trim_chars,
};

fn cv(s: &str) -> Vec<char> {
    s.chars().collect()
}

fn sv(v: &Vec<char>) -> String {
    v.iter().collect()
}

#[test]
fn sanitize_replaces_everything_outside_word_characters() {
    assert_eq!(sv(&sanitize_chars(&cv("my note!"))), "my_note_");
    assert_eq!(sv(&sanitize_chars(&cv("A-b.c 9_z"))), "A_b_c_9_z");
    assert_eq!(sv(&sanitize_chars(&cv(""))), "");
    assert_eq!(sv(&sanitize_chars(&cv("über"))), "_ber");
}

#[test]
fn title_order_ignores_case() {
    assert!(title_le_chars(&cv("apple"), &cv("BANANA")));
    assert!(title_le_chars(&cv("Apple"), &cv("apple")));
    assert!(title_le_chars(&cv("apple"), &cv("Apple")));
    assert!(!title_le_chars(&cv("banana"), &cv("APPLE")));
    assert!(title_le_chars(&cv("ab"), &cv("abc")));
    assert!(!title_le_chars(&cv("abc"), &cv("ab")));
    assert!(title_le_chars(&cv(""), &cv("a")));
}

#[test]
fn title_order_lowers_beyond_ascii() {
    // 'Ä' lowers to 'ä' (U+00E4), which sits above 'b' by code point.
    assert!(title_le_chars(&cv("b"), &cv("Ä")));
    assert!(!title_le_chars(&cv("Ä"), &cv("b")));
    assert!(title_le_chars(&cv("Ä"), &cv("ä")));
    assert!(title_le_chars(&cv("ä"), &cv("Ä")));
}

#[test]
fn substring_search_is_exact_and_accepts_empty_pattern() {
    assert!(contains_chars(&cv(""), &cv("anything")));
    assert!(contains_chars(&cv(""), &cv("")));
    assert!(contains_chars(&cv("pear"), &cv("apples and pears")));
    assert!(!contains_chars(&cv("PEAR"), &cv("apples and pears")));
    assert!(!contains_chars(&cv("plum"), &cv("apples and pears")));
    assert!(!contains_chars(&cv("longer than text"), &cv("short")));
}

#[test]
fn word_count_counts_maximal_runs() {
    assert_eq!(count_words(&cv("")), 0);
    assert_eq!(count_words(&cv("   ")), 0);
    assert_eq!(count_words(&cv("one")), 1);
    assert_eq!(count_words(&cv("  one\ttwo\nthree  ")), 3);
}

#[test]
fn word_count_splits_on_unicode_whitespace() {
    // U+00A0 (no-break space) and U+2003 (em space) separate words, as
    // split_whitespace does.
    assert_eq!(count_words(&cv("a\u{a0}b")), 2);
    assert_eq!(count_words(&cv("a\u{2003}b\u{2028}c")), 3);
    assert_eq!(count_words(&cv("a-b")), 1);
}

#[test]
fn trim_strips_unicode_whitespace_only_at_the_ends() {
    assert_eq!(sv(&trim_chars(&cv("  a b \t"))), "a b");
    assert_eq!(sv(&trim_chars(&cv("\t\r\n"))), "");
    assert_eq!(sv(&trim_chars(&cv("\u{a0}x\u{3000}"))), "x");
    assert_eq!(sv(&trim_chars(&cv("x"))), "x");
}

#[test]
fn chars_equal_is_exact() {
    assert!(chars_equal(&cv("abc"), &cv("abc")));
    assert!(!chars_equal(&cv("abc"), &cv("Abc")));
    assert!(!chars_equal(&cv("abc"), &cv("abcd")));
}
