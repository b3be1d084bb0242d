use blocklist_merge::text::process_body;
use blocklist_merge::text::split_into_lines;
use blocklist_merge::text::line_is_kept;

#[test]
fn filtering_mixed_body() {
    let body = "  \n\t\n# comment\n  # indented comment\nexample.com  \nfoo\r\nbar\n\nbaz";
    let kept = process_body(body);
    assert_eq!(kept, vec![
        "example.com  ".to_string(),
        "foo".to_string(),
        "bar".to_string(),
        "baz".to_string(),
    ]);
}

#[test]
fn empty_body_keeps_nothing() {
    let kept = process_body("");
    assert!(kept.is_empty());
}

#[test]
fn comment_only_body_keeps_nothing() {
    let kept = process_body("# one\n   # two\n#three");
    assert!(kept.is_empty());
}

#[test]
fn kept_lines_stay_untrimmed() {
    let kept = process_body("  spaced entry  \n");
    assert_eq!(kept, vec!["  spaced entry  ".to_string()]);
}

#[test]
fn document_order_is_preserved() {
    let kept = process_body("zeta\nalpha\nmiddle");
    assert_eq!(kept, vec!["zeta".to_string(), "alpha".to_string(), "middle".to_string()]);
}

#[test]
fn split_handles_trailing_newline() {
    assert_eq!(split_into_lines("a\nb\n"), vec!["a".to_string(), "b".to_string()]);
    assert_eq!(split_into_lines("a\nb"), vec!["a".to_string(), "b".to_string()]);
}

#[test]
fn split_strips_carriage_return_before_newline() {
    assert_eq!(split_into_lines("a\r\nb\r\n"), vec!["a".to_string(), "b".to_string()]);
}

#[test]
fn split_keeps_lone_trailing_carriage_return() {
    assert_eq!(split_into_lines("a\r"), vec!["a\r".to_string()]);
}

#[test]
fn split_keeps_empty_middle_lines() {
    assert_eq!(
        split_into_lines("a\n\nb"),
        vec!["a".to_string(), "".to_string(), "b".to_string()]
    );
}

#[test]
fn split_empty_body_has_no_lines() {
    assert!(split_into_lines("").is_empty());
}

#[test]
fn unicode_whitespace_counts_as_blank() {
    assert!(!line_is_kept("\u{3000}\u{2028}\u{a0}"));
    assert!(!line_is_kept("\u{2002}# still a comment"));
    assert!(line_is_kept("\u{2002}entry"));
}

#[test]
fn hash_after_content_is_kept() {
    assert!(line_is_kept("entry # trailing note"));
    assert!(!line_is_kept("   # leading hash"));
}
