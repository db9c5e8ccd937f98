use image_streamer::pattern::filter_files;

fn matches(name: &str, pattern: &str) -> bool {
    !filter_files(&vec![name.to_string()], pattern).is_empty()
}

#[test]
fn names_keep_their_order() {
    let names: Vec<String> = ["b", "ab", "a", "ba"].iter().map(|n| n.to_string()).collect();
    assert_eq!(filter_files(&names, "*b*"), vec!["b", "ab", "ba"]);
    assert_eq!(filter_files(&names, ""), names);
    assert_eq!(filter_files(&vec![], "*"), Vec::<String>::new());
}

#[test]
fn a_pattern_without_asterisks_matches_itself() {
    assert!(matches("core.img", "core.img"));
    assert!(!matches("core.img2", "core.img"));
    assert!(!matches("core-img", "core.img"));
    assert!(!matches("", "a"));
}

#[test]
fn asterisks_match_any_run() {
    assert!(matches("", "*"));
    assert!(matches("abc", "a*c"));
    assert!(matches("ac", "a*c"));
    assert!(matches("abcbc", "a*bc"));
    assert!(!matches("abcb", "a*c"));
    assert!(matches("aXbXc", "a*b*c"));
    assert!(!matches("ab", "*a"));
    assert!(matches("é-1", "é*"));
}
