use flatten_marker_output::chars::{from_chars, same_text, to_chars};

#[test]
fn characters_come_out_in_order() {
    assert_eq!(to_chars("abc"), vec!['a', 'b', 'c']);
    assert_eq!(to_chars(""), Vec::<char>::new());
    assert_eq!(to_chars("é\u{1F600}/"), vec!['é', '\u{1F600}', '/']);
}

#[test]
fn string_is_built_from_its_characters() {
    assert_eq!(from_chars(&vec!['a', 'b', 'c']), "abc");
    assert_eq!(from_chars(&Vec::new()), "");
    assert_eq!(from_chars(&to_chars("ünï\u{2003}cödé")), "ünï\u{2003}cödé");
}

#[test]
fn texts_are_compared_by_their_characters() {
    assert!(same_text("Page", "Page"));
    assert!(!same_text("Page", "page"));
    assert!(!same_text("Page", "PageHeader"));
    assert!(same_text("", ""));
}
