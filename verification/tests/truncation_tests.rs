use lib::build_logic::tokenizer::{tokenize, Token};
use lib::build_logic::truncation::apply_truncation;

fn static_text<'a>(tokens: &'a [Token<'a>], index: usize) -> &'a str {
    match &tokens[index] {
        Token::Static { text } => text,
        other => panic!("expected Static at index {index}, got {other:?}"),
    }
}

#[test]
fn truncation_tests_trim_left_truncates_preceding_static() {
    let src = "abc   {%- if x %}";
    let mut toks = tokenize(src);
    apply_truncation(&mut toks);
    assert_eq!(static_text(&toks, 0), "abc");
}

#[test]
fn truncation_tests_trim_right_truncates_following_static() {
    let src = "{% if x -%}   def";
    let mut toks = tokenize(src);
    apply_truncation(&mut toks);
    assert_eq!(static_text(&toks, 2), "def");
}

#[test]
fn truncation_tests_without_truncation_marker_nothing_changes() {
    let src = "abc   {% if x %}   def";
    let mut toks = tokenize(src);
    apply_truncation(&mut toks);
    assert_eq!(static_text(&toks, 0), "abc   ");
    assert_eq!(static_text(&toks, 2), "   def");
}

#[test]
fn truncation_tests_both_sides_are_independent_only_marked_side_is_touched() {
    // Tag 1 touches left, tag 2 touches right.
    let src = "abc   {%- if x %}   def   {% if y -%}   ghi";
    let mut toks = tokenize(src);
    apply_truncation(&mut toks);
    // "abc   " -> "abc" (before tag 1)
    assert_eq!(static_text(&toks, 0), "abc");
    // "   def   " stays identical (between tag 1 and 2, no marker points to it)
    assert_eq!(static_text(&toks, 2), "   def   ");
    // "   ghi" -> "ghi" (after tag 2)
    assert_eq!(static_text(&toks, 4), "ghi");
}

#[test]
fn truncation_tests_fully_blank_static_between_two_truncations_becomes_empty() {
    // trim_right of first tag + trim_left of second, both
    // targeting the SAME middle static, each on its end.
    let src = "{% a -%}   \t\n  {%- b %}";
    let mut toks = tokenize(src);
    apply_truncation(&mut toks);
    assert_eq!(static_text(&toks, 2), "");
}

#[test]
fn truncation_tests_unlimited_quantity_lots_of_whitespace_fully_removed() {
    let src = "text\n\n\t\t   \r\n   {%- if a %}";
    let mut toks = tokenize(src);
    apply_truncation(&mut toks);
    assert_eq!(static_text(&toks, 0), "text");
}

#[test]
fn truncation_tests_non_breaking_space_is_not_truncated() {
    let src = "text\u{00A0}\u{00A0}  {%- if a %}";
    let mut toks = tokenize(src);
    apply_truncation(&mut toks);
    // The two regular spaces drop, the two non-breaking spaces remain.
    assert_eq!(static_text(&toks, 0), "text\u{00A0}\u{00A0}");
}

#[test]
fn truncation_tests_first_tag_in_file_trim_left_empties_initial_static() {
    let src = "   {%- if a %}";
    let mut toks = tokenize(src);
    apply_truncation(&mut toks);
    assert_eq!(static_text(&toks, 0), "");
}

#[test]
fn truncation_tests_last_tag_in_file_trim_right_empties_final_static() {
    let src = "{% if a -%}   ";
    let mut toks = tokenize(src);
    apply_truncation(&mut toks);
    assert_eq!(static_text(&toks, 2), "");
}

#[test]
fn truncation_tests_tagged_tokens_are_never_modified() {
    let src = "a  {%- if x -%}  b  {%- endif -%}  c";
    let mut toks = tokenize(src);
    let tagged_before: Vec<Token> = toks
        .iter()
        .filter(|t| matches!(t, Token::Tagged { .. }))
        .cloned()
        .collect();
    apply_truncation(&mut toks);
    let tagged_after: Vec<Token> = toks
        .iter()
        .filter(|t| matches!(t, Token::Tagged { .. }))
        .cloned()
        .collect();
    assert_eq!(tagged_before, tagged_after);
}
