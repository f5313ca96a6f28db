use khmer_rs::dictionary::Dictionary;
use khmer_rs::heuristics::{
    apply_heuristics, apply_heuristics_string, char_count, first_char, get_chars_2, get_chars_3,
    post_process_unknowns, post_process_unknowns_string,
};
use std::borrow::Cow;

fn strings(v: &[&str]) -> Vec<String> {
    v.iter().map(|s| s.to_string()).collect()
}

#[test]
fn sign_joins_previous_token() {
    let d = Dictionary::from_word_list(&Vec::new());
    let out = apply_heuristics_string(strings(&["ក", "ស់", "ខ"]), &d);
    assert_eq!(out, strings(&["កស់", "ខ"]));
}

#[test]
fn three_codepoint_sign_joins_previous_token() {
    let d = Dictionary::from_word_list(&Vec::new());
    let out = apply_heuristics_string(strings(&["ក", "ទិ៍"]), &d);
    assert_eq!(out, strings(&["កទិ៍"]));
}

#[test]
fn sign_at_start_stays() {
    let d = Dictionary::from_word_list(&Vec::new());
    let out = apply_heuristics_string(strings(&["ស់", "ខ"]), &d);
    assert_eq!(out, strings(&["ស់", "ខ"]));
}

#[test]
fn forward_sign_joins_next_token() {
    let d = Dictionary::from_word_list(&Vec::new());
    let out = apply_heuristics_string(strings(&["ក័", "ខ", "គ"]), &d);
    assert_eq!(out, strings(&["ក័ខ", "គ"]));
    let last = apply_heuristics_string(strings(&["ខ", "ក័"]), &d);
    assert_eq!(last, strings(&["ខ", "ក័"]));
}

#[test]
fn known_word_is_not_merged() {
    let d = Dictionary::from_word_list(&strings(&["ស់"]));
    let out = apply_heuristics_string(strings(&["ក", "ស់"]), &d);
    assert_eq!(out, strings(&["ក", "ស់"]));
}

#[test]
fn unknown_runs_coalesce() {
    let d = Dictionary::from_word_list(&strings(&["ការ"]));
    let out = post_process_unknowns_string(
        strings(&["ឃ", "ឃ", "ង", "ឃឃ", "១", "ក.ខ", "ការ", "ឃ", "ឃ"]),
        &d,
    );
    assert_eq!(out, strings(&["ឃឃ", "ង", "ឃឃ", "១", "ក.ខ", "ការ", "ឃឃ"]));
}

#[test]
fn separators_and_single_words_are_known() {
    let d = Dictionary::from_word_list(&Vec::new());
    let out = post_process_unknowns_string(strings(&["ឃ", " ", "ឃ", ".", "ឃ"]), &d);
    assert_eq!(out, strings(&["ឃ", " ", "ឃ", ".", "ឃ"]));
    let empty = post_process_unknowns_string(Vec::new(), &d);
    assert!(empty.is_empty());
}

#[test]
fn char_helpers() {
    assert_eq!(first_char(""), ' ');
    assert_eq!(first_char("ក"), 'ក');
    assert_eq!(char_count("កខគ"), 3);
    assert_eq!(get_chars_2("ក"), ('ក', ' ', 1));
    assert_eq!(get_chars_3("កខគឃ"), ('ក', 'ខ', 'គ', 4));
}

#[test]
fn borrowed_tokens_pass_through() {
    let d = Dictionary::from_word_list(&strings(&["ការ"]));
    let input: Vec<Cow<str>> = vec![
        Cow::Borrowed("ក"),
        Cow::Borrowed("ស់"),
        Cow::Owned("ក័".to_string()),
        Cow::Borrowed("ខ"),
        Cow::Borrowed("ការ"),
    ];
    let out = apply_heuristics(input, &d);
    let texts: Vec<String> = out.iter().map(|c| c.to_string()).collect();
    assert_eq!(texts, strings(&["កស់", "ក័ខ", "ការ"]));
    assert!(matches!(out[2], Cow::Borrowed(_)));
}

#[test]
fn borrowed_unknown_runs_coalesce() {
    let d = Dictionary::from_word_list(&strings(&["ការ"]));
    let input: Vec<Cow<str>> = vec![Cow::Borrowed("ឃ"), Cow::Borrowed("ឃ"), Cow::Borrowed("ការ")];
    let out = post_process_unknowns(input, &d);
    let texts: Vec<String> = out.iter().map(|c| c.to_string()).collect();
    assert_eq!(texts, strings(&["ឃឃ", "ការ"]));
}
