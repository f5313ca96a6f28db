use khmer_rs::clusters::{
    get_acronym_length_cps, get_khmer_cluster_length_cps, get_number_length_cps,
    is_acronym_start_cps,
};
use khmer_rs::constants::{
    is_coeng, is_consonant, is_currency_symbol, is_dependent_vowel, is_digit,
    is_independent_vowel, is_khmer_char, is_separator, is_sign, is_valid_single_word,
};

fn cps(s: &str) -> Vec<char> {
    s.chars().collect()
}

#[test]
fn khmer_blocks() {
    assert!(is_khmer_char('ក'));
    assert!(is_khmer_char('\u{17FF}'));
    assert!(is_khmer_char('\u{19E0}'));
    assert!(!is_khmer_char('a'));
    assert!(!is_khmer_char('\u{1800}'));
}

#[test]
fn letter_classes() {
    assert!(is_consonant('\u{17A2}'));
    assert!(!is_consonant('\u{17A3}'));
    assert!(is_independent_vowel('\u{17A3}'));
    assert!(is_independent_vowel('\u{17B3}'));
    assert!(!is_independent_vowel('\u{17B4}'));
    assert!(is_dependent_vowel('\u{17B6}'));
    assert!(is_dependent_vowel('\u{17C5}'));
    assert!(!is_dependent_vowel('\u{17C6}'));
    assert!(is_sign('\u{17C6}'));
    assert!(is_sign('\u{17D3}'));
    assert!(is_sign('\u{17DD}'));
    assert!(!is_sign('\u{17D2}'));
    assert!(is_coeng('\u{17D2}'));
    assert!(!is_coeng('\u{17D3}'));
}

#[test]
fn digits_currency_and_separators() {
    assert!(is_digit('7'));
    assert!(is_digit('\u{17E9}'));
    assert!(!is_digit('a'));
    for c in ['$', '€', '£', '¥', '\u{17DB}'] {
        assert!(is_currency_symbol(c));
    }
    assert!(!is_currency_symbol('%'));
    for c in ['។', '\u{17DA}', '\u{17DB}', '«', '»', '“', '”', '˝', ' ', '%', '$', '.'] {
        assert!(is_separator(c), "{:?}", c);
    }
    assert!(!is_separator('a'));
    assert!(!is_separator('\u{200B}'));
    assert!(!is_separator('\u{17DC}'));
}

#[test]
fn single_words() {
    for c in "កខគងចឆញដតទពរលសឡ".chars() {
        assert!(is_valid_single_word(c));
    }
    for c in "ឬឮឪឯឱឦឧឳ".chars() {
        assert!(is_valid_single_word(c));
    }
    assert!(!is_valid_single_word('ឃ'));
    assert!(!is_valid_single_word('ឫ'));
}

#[test]
fn cluster_lengths() {
    assert_eq!(get_khmer_cluster_length_cps(&cps("ក្មា"), 0), 4);
    assert_eq!(get_khmer_cluster_length_cps(&cps("ក្a"), 0), 1);
    assert_eq!(get_khmer_cluster_length_cps(&cps("កាំក"), 0), 3);
    assert_eq!(get_khmer_cluster_length_cps(&cps("ា"), 0), 1);
    assert_eq!(get_khmer_cluster_length_cps(&cps("ក"), 1), 0);
}

#[test]
fn number_lengths() {
    assert_eq!(get_number_length_cps(&cps("12,345"), 0), 6);
    assert_eq!(get_number_length_cps(&cps("12, 3"), 0), 2);
    assert_eq!(get_number_length_cps(&cps("1 2"), 0), 3);
    assert_eq!(get_number_length_cps(&cps("12."), 0), 2);
    assert_eq!(get_number_length_cps(&cps("១២៣"), 0), 3);
    assert_eq!(get_number_length_cps(&cps("$5"), 0), 0);
    assert_eq!(get_number_length_cps(&cps("a"), 0), 0);
}

#[test]
fn acronym_lengths() {
    let v = cps("ក.ខ.គ");
    assert!(is_acronym_start_cps(&v, 0));
    assert_eq!(get_acronym_length_cps(&v, 0), 4);
    assert!(!is_acronym_start_cps(&cps("ក"), 0));
    assert_eq!(get_acronym_length_cps(&cps("ក"), 0), 0);
    assert_eq!(get_acronym_length_cps(&cps("ក្ម.ខ"), 0), 4);
}
