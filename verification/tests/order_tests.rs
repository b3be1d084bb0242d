use blocklist_merge::order::lex_le_exec;
use blocklist_merge::order::render_output;
use blocklist_merge::order::sort_lines;

#[test]
fn lex_compare_basic() {
    assert!(lex_le_exec("alpha", "beta"));
    assert!(!lex_le_exec("beta", "alpha"));
    assert!(lex_le_exec("same", "same"));
    assert!(lex_le_exec("ab", "abc"));
    assert!(!lex_le_exec("abc", "ab"));
    assert!(lex_le_exec("", "a"));
}

#[test]
fn capitals_sort_before_lowercase() {
    assert!(lex_le_exec("Blocklist", "alpha"));
    let sorted = sort_lines(vec![
        "b".to_string(),
        "A".to_string(),
        "a".to_string(),
        "B".to_string(),
    ]);
    assert_eq!(sorted, vec!["A".to_string(), "B".to_string(), "a".to_string(), "b".to_string()]);
}

#[test]
fn sort_is_a_permutation() {
    let sorted = sort_lines(vec![
        "c".to_string(),
        "a".to_string(),
        "c".to_string(),
        "b".to_string(),
    ]);
    assert_eq!(sorted, vec!["a".to_string(), "b".to_string(), "c".to_string(), "c".to_string()]);
}

#[test]
fn render_joins_with_newlines_no_trailing() {
    let text = render_output(&vec!["a".to_string(), "b".to_string(), "c".to_string()]);
    assert_eq!(text, "a\nb\nc");
}

#[test]
fn render_empty_is_empty() {
    let text = render_output(&Vec::new());
    assert_eq!(text, "");
}

#[test]
fn render_single_line_has_no_newline() {
    let text = render_output(&vec!["only".to_string()]);
    assert_eq!(text, "only");
}
