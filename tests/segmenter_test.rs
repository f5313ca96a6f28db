use khmer_rs::dictionary::Dictionary;
use khmer_rs::segmenter::KhmerSegmenter;

struct TestCase {
    id: usize,
    input: &'static str,
    description: &'static str,
    expected: Vec<&'static str>,
}

fn setup() -> (KhmerSegmenter, Vec<TestCase>) {
    let lines: Vec<String> = ["សួស្តី", "កម្ពុជា", "ខ្ញុំ", "ស្រលាញ់", "បង", "ការ"]
        .iter()
        .map(|s| s.to_string())
        .collect();
    let dictionary = Dictionary::from_word_list(&lines);
    let segmenter = KhmerSegmenter::new(dictionary);
    let test_cases = vec![
        TestCase { id: 1, input: "សួស្តី", description: "single word", expected: vec!["សួស្តី"] },
        TestCase { id: 2, input: "កម្ពុជា", description: "single word", expected: vec!["កម្ពុជា"] },
        TestCase {
            id: 3,
            input: "ខ្ញុំស្រលាញ់កម្ពុជា",
            description: "three words",
            expected: vec!["ខ្ញុំ", "ស្រលាញ់", "កម្ពុជា"],
        },
        TestCase { id: 4, input: "សួស្តី បង", description: "space", expected: vec!["សួស្តី", " ", "បង"] },
        TestCase { id: 5, input: "១២៣៤៥", description: "khmer digits", expected: vec!["១២៣៤៥"] },
        TestCase { id: 6, input: "", description: "empty", expected: vec![] },
        TestCase {
            id: 7,
            input: "សម្រា ប់ការ",
            description: "sign after a space",
            expected: vec!["ស", "ម្រា ប់", "ការ"],
        },
        TestCase { id: 8, input: "សួស្តី។", description: "punctuation", expected: vec!["សួស្តី", "។"] },
    ];
    (segmenter, test_cases)
}

#[test]
fn test_all_cases_match_expected() {
    let (segmenter, test_cases) = setup();
    let mut failures = Vec::new();

    for tc in &test_cases {
        let result = segmenter.segment(tc.input);
        if result != tc.expected {
            failures.push(format!(
                "[{}] {}\n  Input: {}\n  Expected: {:?}\n  Actual: {:?}",
                tc.id, tc.description, tc.input, tc.expected, result
            ));
        }
    }

    if !failures.is_empty() {
        panic!("{}/{} test cases failed:\n{}", failures.len(), test_cases.len(), failures.join("\n"));
    }
}

#[test]
fn test_single_known_word() {
    let (segmenter, _) = setup();

    let result = segmenter.segment("សួស្តី");
    assert_eq!(result, vec!["សួស្តី"]);

    let result = segmenter.segment("កម្ពុជា");
    assert_eq!(result, vec!["កម្ពុជា"]);
}

#[test]
fn test_multiple_words() {
    let (segmenter, _) = setup();
    let result = segmenter.segment("ខ្ញុំស្រលាញ់កម្ពុជា");
    assert_eq!(result, vec!["ខ្ញុំ", "ស្រលាញ់", "កម្ពុជា"]);
}

#[test]
fn test_with_spaces() {
    let (segmenter, _) = setup();
    let result = segmenter.segment("សួស្តី បង");
    assert_eq!(result, vec!["សួស្តី", " ", "បង"]);
}

#[test]
fn test_numbers() {
    let (segmenter, _) = setup();
    let result = segmenter.segment("១២៣៤៥");
    assert_eq!(result, vec!["១២៣៤៥"]);
}

#[test]
fn test_empty_string() {
    let (segmenter, _) = setup();
    let result = segmenter.segment("");
    assert!(result.is_empty());
}

#[test]
fn test_space_before_sign_pattern() {
    let (segmenter, _) = setup();
    let result = segmenter.segment("សម្រា ប់ការ");
    assert_eq!(result, vec!["ស", "ម្រា ប់", "ការ"]);
}

#[test]
fn test_punctuation() {
    let (segmenter, _) = setup();
    let result = segmenter.segment("សួស្តី។");
    assert_eq!(result, vec!["សួស្តី", "។"]);
}
