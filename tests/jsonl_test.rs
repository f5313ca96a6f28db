use khmer_rs::jsonl::{append_int, build_json_record, escape_json_to};

#[test]
fn integers() {
    let mut out = String::from("n=");
    append_int(&mut out, 0);
    assert_eq!(out, "n=0");
    let mut out = String::new();
    append_int(&mut out, 1234);
    assert_eq!(out, "1234");
    let mut out = String::new();
    append_int(&mut out, usize::MAX);
    assert_eq!(out, usize::MAX.to_string());
}

#[test]
fn escapes() {
    let mut out = String::new();
    escape_json_to(&mut out, "a\"b\\c\nd\re\tf\u{1}\u{1f}ក");
    assert_eq!(out, "a\\\"b\\\\c\\nd\\re\\tf\\u0001\\u001fក");
}

#[test]
fn record() {
    let segments = vec!["x\n".to_string(), "y".to_string()];
    let r = build_json_record(3, "a\"b", &segments);
    assert_eq!(r, "{\"id\":3,\"input\":\"a\\\"b\",\"segments\":[\"x\\n\",\"y\"]}");
    let e = build_json_record(0, "", &[]);
    assert_eq!(e, "{\"id\":0,\"input\":\"\",\"segments\":[]}");
}
