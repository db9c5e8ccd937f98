use image_streamer::metadata::Metadata;

fn names(text: &str) -> Option<Vec<String>> {
    Metadata::parse(text.as_bytes()).ok().map(|m| {
        let mut names = m.file_names();
        names.sort();
        names
    })
}

#[test]
fn file_lists_are_read() {
    assert_eq!(names("{}"), Some(vec![]));
    assert_eq!(
        names(r#"{"b": 2, "a": 18446744073709551615, "é": 0}"#),
        Some(vec!["a".to_string(), "b".to_string(), "é".to_string()])
    );
}

#[test]
fn names_come_once() {
    assert_eq!(names(r#"{"a": 1, "a": 2}"#), Some(vec!["a".to_string()]));
}

#[test]
fn anything_else_is_refused() {
    for text in ["", "[]", "null", r#"{"a"}"#, r#"{"a": "1"}"#, r#"{"a": -1}"#, r#"{"a": 1.5}"#,
        r#"{"a": 18446744073709551616}"#, r#"{"a": 1} x"#, r#"{"a": 1"#]
    {
        assert_eq!(names(text), None, "{}", text);
    }
    assert!(Metadata::parse(&[b'{', b'"', 0xff, b'"', b':', b'1', b'}']).is_err());
}

#[test]
fn entries_make_up_a_list() {
    let m = Metadata::from_entries(vec![("x".to_string(), 1), ("y".to_string(), 2)]);
    assert_eq!(m.file_names(), vec!["x".to_string(), "y".to_string()]);
}

#[test]
fn a_refused_list_says_why() {
    for text in ["", "[]", r#"{"a": -1}"#, r#"{"a": 1} x"#] {
        let said = serde_json::from_str::<std::collections::HashMap<String, u64>>(text).unwrap_err();
        assert_eq!(Metadata::parse(text.as_bytes()).unwrap_err(), said.to_string());
        assert_ne!(said.to_string(), text);
    }
}
