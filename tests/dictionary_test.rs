use khmer_rs::dictionary::{Dictionary, DEFAULT_COST, UNKNOWN_COST};
use khmer_rs::frequency::{base_costs, effective_counts};
use khmer_rs::variants::generate_variants;
use khmer_rs::wordlist::load_words;

fn strings(v: &[&str]) -> Vec<String> {
    v.iter().map(|s| s.to_string()).collect()
}

fn sorted(mut v: Vec<String>) -> Vec<String> {
    v.sort();
    v
}

#[test]
fn ta_da_variant() {
    let word: Vec<char> = "ក្តា".chars().collect();
    let vars: Vec<String> = generate_variants(&word).iter().map(|v| v.iter().collect()).collect();
    assert_eq!(vars, vec!["ក\u{17D2}\u{178D}ា".to_string()]);
}

#[test]
fn ro_variants() {
    let word: Vec<char> = vec!['ស', '\u{17D2}', '\u{179A}', '\u{17D2}', '\u{178F}'];
    let vars: Vec<String> = generate_variants(&word).iter().map(|v| v.iter().collect()).collect();
    let expected = vec![
        ['ស', '\u{17D2}', '\u{179A}', '\u{17D2}', '\u{178D}'].iter().collect::<String>(),
        ['ស', '\u{17D2}', '\u{178D}', '\u{17D2}', '\u{179A}'].iter().collect::<String>(),
        ['ស', '\u{17D2}', '\u{178F}', '\u{17D2}', '\u{179A}'].iter().collect::<String>(),
    ];
    assert_eq!(sorted(vars), sorted(expected));
}

#[test]
fn no_variants() {
    let word: Vec<char> = "ការ".chars().collect();
    assert!(generate_variants(&word).is_empty());
}

#[test]
fn word_list_filters() {
    let lines = strings(&["  ក  ", "ឃ", "", "ក្តា", "ៗ", "្ក", "ខឬគ", "ខ", "គ", "ឬក", "កៗ"]);
    let words = sorted(load_words(&lines));
    assert_eq!(words, sorted(strings(&["ក", "ក្តា", "ក\u{17D2}\u{178D}ា", "ខ", "គ"])));
}

#[test]
fn ryy_compound_kept_when_a_part_is_unknown() {
    let lines = strings(&["ខឬឃ", "ខ"]);
    let words = sorted(load_words(&lines));
    assert_eq!(words, sorted(strings(&["ខ", "ខឬឃ"])));
}

#[test]
fn costs_first_pair_wins() {
    let words = strings(&["ក", "ខ"]);
    let costs = vec![("ក".to_string(), 7), ("ក".to_string(), 9), ("x".to_string(), 1)];
    let d = Dictionary::new(&words, &costs, 100, 300);
    assert_eq!(d.get_word_cost("ក"), 7);
    assert_eq!(d.get_word_cost("ខ"), 100);
    assert_eq!(d.get_word_cost("x"), 300);
    assert!(d.contains("ក"));
    assert!(!d.contains("x"));
    assert_eq!(d.max_word_length(), 1);
    assert_eq!(d.default_cost(), 100);
    assert_eq!(d.unknown_cost(), 300);
}

#[test]
fn lookup_by_codepoints() {
    let d = Dictionary::from_word_list(&strings(&["កម្ពុជា", "ការ"]));
    let text: Vec<char> = "xកម្ពុជាy".chars().collect();
    assert_eq!(d.lookup_codepoints(&text, 1, 8), Some(DEFAULT_COST));
    assert_eq!(d.lookup_codepoints(&text, 1, 7), None);
    assert_eq!(d.lookup_codepoints(&text, 0, 8), None);
    assert_eq!(d.max_word_length(), 7);
    assert_eq!(d.unknown_cost(), UNKNOWN_COST);
}

#[test]
fn empty_word_list() {
    let d = Dictionary::from_word_list(&Vec::new());
    assert_eq!(d.max_word_length(), 0);
    assert!(!d.contains(""));
}

#[test]
fn counts_are_floored_and_spread() {
    let freqs = vec![("ក្តា".to_string(), 3), ("ខ".to_string(), 10)];
    let (counts, total) = effective_counts(&freqs);
    assert_eq!(total, 15);
    let mut counts = counts;
    counts.sort();
    let mut expected = vec![("ក្តា".to_string(), 5), ("ក\u{17D2}\u{178D}ា".to_string(), 5), ("ខ".to_string(), 10)];
    expected.sort();
    assert_eq!(counts, expected);
}

#[test]
fn own_count_overrides_variant_count() {
    let freqs = vec![("ក\u{17D2}\u{178D}ា".to_string(), 8), ("ក្តា".to_string(), 3)];
    let (counts, total) = effective_counts(&freqs);
    assert_eq!(total, 13);
    let mut counts = counts;
    counts.sort();
    let mut expected = vec![("ក្តា".to_string(), 5), ("ក\u{17D2}\u{178D}ា".to_string(), 8)];
    expected.sort();
    assert_eq!(counts, expected);
}

#[test]
fn base_costs_with_and_without_counts() {
    assert_eq!(base_costs(0, 42), (DEFAULT_COST, UNKNOWN_COST));
    assert_eq!(base_costs(15, 42), (42, 5_000_042));
}

#[test]
fn ryy_compound_removed_when_any_case_holds() {
    let lines = strings(&["ក", "ឬកឬ", "កឬ", "ឬខ"]);
    let words = sorted(load_words(&lines));
    assert_eq!(words, sorted(strings(&["ក", "ឬខ"])));
}

#[test]
fn unicode_white_space_is_trimmed() {
    let lines = strings(&["\u{3000}ការ\t", "\u{A0}\u{2003}", "\u{200B}ក"]);
    let words = sorted(load_words(&lines));
    assert_eq!(words, sorted(strings(&["ការ", "\u{200B}ក"])));
}

#[test]
fn empty_range_is_no_word() {
    let d = Dictionary::from_word_list(&strings(&["ក"]));
    let text: Vec<char> = "ក".chars().collect();
    assert_eq!(d.lookup_codepoints(&text, 0, 0), None);
    assert_eq!(d.lookup_codepoints(&text, 1, 1), None);
    assert_eq!(d.lookup_codepoints(&text, 0, 1), Some(DEFAULT_COST));
}
