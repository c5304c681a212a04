use pocket_core::text::{decimal_text, eq_ignoring_case, first_word_text, is_blank, slice};
use pocket_core::text::{text_contains, to_chars, trim_text};

#[test]
fn numbers_in_digits() {
    for n in [0, 7, 10, 105, 8192, u64::MAX] {
        assert_eq!(decimal_text(n), n.to_string());
    }
}

#[test]
fn searching() {
    assert!(text_contains("héllo", "llo"));
    assert!(text_contains("abc", ""));
    assert!(!text_contains("ab", "abc"));
    assert!(!text_contains("Hello", "hello"));
}

#[test]
fn white_space() {
    assert_eq!(trim_text("\u{2003} a b\u{85}"), "a b");
    assert_eq!(trim_text(" \n"), "");
    assert!(is_blank(" \u{a0}\t"));
    assert!(!is_blank(" . "));
    assert_eq!(first_word_text("  one two"), "one");
    assert_eq!(first_word_text("   "), "");
}

#[test]
fn case_of_ascii_letters() {
    assert!(eq_ignoring_case("ExIt", "exit"));
    assert!(!eq_ignoring_case("exit ", "exit"));
    assert!(!eq_ignoring_case("É", "é"));
    assert!(!eq_ignoring_case("@", "`"));
}

#[test]
fn characters_and_slices() {
    assert_eq!(to_chars("aé"), vec!['a', 'é']);
    assert_eq!(slice("aéb", 1, 3), "éb");
}

#[test]
fn white_space_characters() {
    let white: Vec<u32> = (0..=0x10ffff_u32)
        .filter(|n| char::from_u32(*n).is_some_and(|c| is_blank(&c.to_string())))
        .collect();
    let mut expected: Vec<u32> = vec![9, 10, 11, 12, 13, 0x20, 0x85, 0xa0, 0x1680];
    expected.extend(0x2000..=0x200a);
    expected.extend([0x2028, 0x2029, 0x202f, 0x205f, 0x3000]);
    assert_eq!(white, expected);
}
