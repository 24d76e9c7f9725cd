use stacktoken::text::int_to_text;
use stacktoken::text::join_with_arrows;
use stacktoken::text::push_text;
use stacktoken::text::split_text;

#[test]
fn int_to_text_writes_decimal() {
    assert_eq!(int_to_text(0), "0");
    assert_eq!(int_to_text(9), "9");
    assert_eq!(int_to_text(10), "10");
    assert_eq!(int_to_text(123456789), "123456789");
    assert_eq!(int_to_text(-1), "-1");
    assert_eq!(int_to_text(-900), "-900");
    assert_eq!(int_to_text(i32::MIN), i32::MIN.to_string());
    assert_eq!(int_to_text(i32::MAX), i32::MAX.to_string());
}

#[test]
fn split_text_cuts_at_every_separator() {
    assert_eq!(split_text("g:a:1.0", ':'), vec!["g", "a", "1.0"]);
    assert_eq!(split_text("g:a", ':'), vec!["g", "a"]);
    assert_eq!(split_text("plain", ':'), vec!["plain"]);
    assert_eq!(split_text("", ':'), vec![""]);
    assert_eq!(split_text(":", ':'), vec!["", ""]);
    assert_eq!(split_text("a::b:", ':'), vec!["a", "", "b", ""]);
    assert_eq!(split_text(":x", ':'), vec!["", "x"]);
}

#[test]
fn split_text_agrees_with_the_standard_split() {
    for text in ["", "a", ":", "a:b", "::", "a:b:c:d", "é:ü", "x:"] {
        let expected: Vec<String> = text.split(':').map(|part| part.to_string()).collect();
        assert_eq!(split_text(text, ':'), expected);
    }
}

#[test]
fn join_with_arrows_links_the_parts() {
    let none: Vec<String> = Vec::new();
    assert_eq!(join_with_arrows(&none), "");
    assert_eq!(join_with_arrows(&vec!["a".to_string()]), "a");
    assert_eq!(
        join_with_arrows(&vec!["a".to_string(), "b".to_string(), "c".to_string()]),
        "a -> b -> c"
    );
    assert_eq!(
        join_with_arrows(&vec![String::new(), String::new()]),
        " -> "
    );
}

#[test]
fn push_text_appends() {
    let mut text = "ab".to_string();
    push_text(&mut text, "cd");
    push_text(&mut text, "");
    assert_eq!(text, "abcd");
}
