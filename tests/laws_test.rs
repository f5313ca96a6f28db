use khmer_rs::dictionary::Dictionary;
use khmer_rs::segmenter::KhmerSegmenter;
use rayon::iter::{IntoParallelRefIterator, ParallelIterator};

fn segmenter() -> KhmerSegmenter {
    let lines: Vec<String> = ["សួស្តី", "កម្ពុជា", "ខ្ញុំ", "ស្រលាញ់", "បង", "ការ"]
        .iter()
        .map(|s| s.to_string())
        .collect();
    KhmerSegmenter::new(Dictionary::from_word_list(&lines))
}

fn inputs() -> Vec<String> {
    [
        "ខ្ញុំ\u{200B}ស្រលាញ់\u{200B}កម្ពុជា",
        "abc ក្ a.b. $12,500 ១២៣",
        "ា្ក្",
        "\u{200B}\u{200B}",
        "ក.ខ.ការ!?",
        "ឃឃ ឃ បង",
    ]
    .iter()
    .map(|s| s.to_string())
    .collect()
}

#[test]
fn tokens_cover_the_text_without_zero_width_spaces() {
    let s = segmenter();
    for text in inputs() {
        let tokens = s.segment(&text);
        assert_eq!(tokens.concat(), text.replace('\u{200B}', ""));
    }
}

#[test]
fn zero_width_spaces_make_no_difference() {
    let s = segmenter();
    for text in inputs() {
        assert_eq!(s.segment(&text), s.segment(&text.replace('\u{200B}', "")));
    }
    assert_eq!(
        s.segment("ខ្ញុំ\u{200B}ស្រលាញ់\u{200B}កម្ពុជា"),
        vec!["ខ្ញុំ", "ស្រលាញ់", "កម្ពុជា"]
    );
}

#[test]
fn no_token_is_empty() {
    let s = segmenter();
    for text in inputs() {
        assert!(s.segment(&text).iter().all(|t| !t.is_empty()));
    }
    assert!(s.segment("\u{200B}").is_empty());
}

#[test]
fn same_input_same_output() {
    let a = segmenter();
    let b = segmenter();
    for text in inputs() {
        assert_eq!(a.segment(&text), a.segment(&text));
        assert_eq!(a.segment(&text), b.segment(&text));
    }
}

#[test]
fn parallel_runs_match_sequential_runs() {
    let s = segmenter();
    let texts = inputs();
    let sequential: Vec<Vec<String>> = texts.iter().map(|t| s.segment(t)).collect();
    let parallel: Vec<Vec<String>> = texts.par_iter().map(|t| s.segment(t)).collect();
    assert_eq!(sequential, parallel);
}

#[test]
fn numbers_and_currency() {
    let s = segmenter();
    assert_eq!(s.segment("12,500"), vec!["12,500"]);
    assert_eq!(s.segment("$12"), vec!["$", "12"]);
}

#[test]
fn dependent_vowel_at_start() {
    let s = segmenter();
    assert_eq!(s.segment("ាការ"), vec!["ា", "ការ"]);
}

#[test]
fn subscript_former_before_a_space_ends_a_token() {
    let s = segmenter();
    assert_eq!(s.segment("ក\u{17D2} "), vec!["ក\u{17D2}", " "]);
    assert_eq!(s.segment(" ា"), vec![" ", "ា"]);
}
