use git_impact::text::{blank, contains_white_space, join_strings, sorted_unique};

#[test]
fn white_space_agrees_with_the_standard_library_on_every_char() {
    for code in 0u32..=0x10FFFF {
        if let Some(c) = char::from_u32(code) {
            let one = c.to_string();
            assert_eq!(blank(&one), one.trim().is_empty(), "char {code:#x}");
            assert_eq!(contains_white_space(&one), c.is_whitespace(), "char {code:#x}");
        }
    }
}

#[test]
fn blank_means_only_white_space() {
    assert!(blank(""));
    assert!(blank(" \t\r\n\u{3000}"));
    assert!(!blank("  x "));
    assert!(contains_white_space("a b"));
    assert!(!contains_white_space("a-b"));
}

#[test]
fn joins_with_separator() {
    let items = vec!["a".to_owned(), "b".to_owned(), "c".to_owned()];
    assert_eq!(join_strings(&items, " -> "), "a -> b -> c");
    assert_eq!(join_strings(&Vec::new(), ", "), "");
}

#[test]
fn sorts_and_removes_repetitions() {
    let values = vec!["b".to_owned(), "a".to_owned(), "b".to_owned(), "B".to_owned()];
    assert_eq!(
        sorted_unique(values),
        vec!["B".to_owned(), "a".to_owned(), "b".to_owned()]
    );
}
