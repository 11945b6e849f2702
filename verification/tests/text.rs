use lending_ledger::sorting::{sort_numbers, sort_places, sort_texts, Ranked, TextKey};
use lending_ledger::text::{chars_of, has_prefix, has_suffix, is_blank_char, join3, text_le, trim};

fn chars(text: &str) -> Vec<char> {
    text.chars().collect()
}

#[test]
fn characters_of_a_text() {
    assert_eq!(chars_of("a₾c"), vec!['a', '₾', 'c']);
    assert_eq!(chars_of(""), Vec::<char>::new());
}

#[test]
fn blanks_are_the_white_space_characters() {
    for code in 0..=0x10ffffu32 {
        if let Some(c) = char::from_u32(code) {
            assert_eq!(is_blank_char(c), c.is_whitespace(), "U+{:04X}", code);
        }
    }
}

#[test]
fn trim_removes_blanks_at_both_ends() {
    assert_eq!(trim("  a b \t"), "a b");
    assert_eq!(trim("a"), "a");
    assert_eq!(trim(""), "");
    assert_eq!(trim(" \n\t "), "");
    assert_eq!(trim("\u{3000}é \u{a0}x\u{2003}"), "é \u{a0}x");
    for text in ["", " ", "x ", " x", " x y ", "\u{85}₾\u{2028}", "no blanks"] {
        assert_eq!(trim(text), text.trim());
    }
}

#[test]
fn texts_are_ordered_like_strings() {
    let texts = ["", "a", "ab", "abc", "abd", "b", "B", "é", "₾", "z", "transactions_backup_2"];
    for a in texts {
        for b in texts {
            assert_eq!(text_le(&chars(a), &chars(b)), a <= b, "{:?} {:?}", a, b);
        }
    }
}

#[test]
fn prefixes_and_suffixes() {
    assert!(has_prefix(&chars("abc"), &chars("ab")));
    assert!(has_prefix(&chars("abc"), &chars("")));
    assert!(has_prefix(&chars("abc"), &chars("abc")));
    assert!(!has_prefix(&chars("abc"), &chars("abcd")));
    assert!(!has_prefix(&chars("abc"), &chars("bc")));
    assert!(has_suffix(&chars("abc"), &chars("bc")));
    assert!(has_suffix(&chars("abc"), &chars("")));
    assert!(has_suffix(&chars("abc"), &chars("abc")));
    assert!(!has_suffix(&chars("abc"), &chars("zabc")));
    assert!(!has_suffix(&chars("abc"), &chars("ab")));
}

#[test]
fn joined_texts() {
    assert_eq!(join3("a", "/", "b"), "a/b");
    assert_eq!(join3("", "", ""), "");
}

#[test]
fn sorting_is_stable() {
    assert_eq!(sort_numbers(&vec![5, 1, 5, 0, 1, 5]), vec![3, 1, 4, 0, 2, 5]);
    assert_eq!(sort_numbers(&vec![1, 2, 3]), vec![0, 1, 2]);
    assert_eq!(sort_numbers(&vec![3, 2, 1]), vec![2, 1, 0]);
    assert_eq!(sort_numbers(&vec![u128::MAX, 0]), vec![1, 0]);
    assert_eq!(sort_numbers(&Vec::new()), Vec::<usize>::new());
    assert_eq!(sort_places(&vec![2u128, 1, 2]), vec![1, 0, 2]);
}

#[test]
fn texts_are_sorted_as_in_a_dictionary() {
    let keys: Vec<TextKey> = ["ben", "Ana", "ana", "", "ben", "b", "é"]
        .iter()
        .map(|text| TextKey { chars: chars(text) })
        .collect();
    assert_eq!(sort_texts(&keys), vec![3, 1, 2, 5, 0, 4, 6]);
    assert!(keys[1].not_after(&keys[2]));
    assert!(!keys[2].not_after(&keys[1]));
    assert!(keys[0].not_after(&keys[4]) && keys[4].not_after(&keys[0]));
    assert!(3u128.not_after(&3) && 2u128.not_after(&3) && !3u128.not_after(&2));
}
