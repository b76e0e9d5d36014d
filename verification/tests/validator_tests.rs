use lib::build_logic::tokenizer::tokenize;
use lib::build_logic::validator::{validate_pairing, check_pairing};

#[test]
fn validator_tests_if_endif_simple_valid() {
    validate_pairing(&tokenize("{% if a %}x{% endif %}"));
}

#[test]
fn validator_tests_for_endfor_simple_valid() {
    validate_pairing(&tokenize("{% for x in list %}y{% endfor %}"));
    validate_pairing(&tokenize("{% for x in list { %}y{% } %}"));
}

#[test]
fn validator_tests_if_else_endif_valid() {
    validate_pairing(&tokenize("{% if a %}x{% else %}y{% endif %}"));
}

#[test]
fn validator_tests_if_else_if_else_endif_valid() {
    validate_pairing(&tokenize(
        "{% if a %}x{% else if b %}y{% else %}z{% endif %}",
    ));
}

#[test]
fn validator_tests_if_with_negation_valid_like_normal_if() {
    // Negation does not change the block structure: only code
    // generation cares about it.
    validate_pairing(&tokenize("{% if !a %}x{% endif %}"));
}

#[test]
fn validator_tests_nesting_for_in_if_and_if_in_for_without_depth_limit() {
    let src = "{% if a %}{% for x in l %}{% if b %}{% for y in m %}z{% endfor %}{% endif %}{% endfor %}{% endif %}";
    validate_pairing(&tokenize(src));
}

#[test]
fn validator_tests_comment_containing_block_keywords_is_ignored() {
    // The content of a comment ({# #}) is NEVER examined for
    // block structure, even if it contains "endif".
    validate_pairing(&tokenize(
        "{% if a %}{# endif endfor whatever #}{% endif %}",
    ));
}

#[test]
fn validator_tests_let_and_outputs_do_not_interfere_with_block_counting() {
    validate_pairing(&tokenize(
        "{% if a %}{% let x = 1; %}{%= x %}{%%= x %}{% endif %}",
    ));
}

#[test]
fn validator_tests_message_endfor_vs_if_is_verbatim_compliant_with_spec() {
    let mut src = String::new();
    for _ in 0..8 {
        src.push_str("filler_line\n");
    } // lines 1-8
    src.push_str("{% if x %}\n"); // line 9
    for _ in 0..7 {
        src.push_str("filler_line\n");
    } // lines 10-16
    src.push_str("{% endfor %}\n"); // line 17

    let err = check_pairing(&tokenize(&src)).unwrap_err();
    let msg = err.message();

    assert_eq!(
        msg,
        "tmplx build error line 17: '{% endfor %}' encountered while the block opened at line 9 is a 'if' (expected '{% endif %}')."
    );
}

#[test]
fn validator_tests_endif_facing_for_reports_wrong_type() {
    let err = check_pairing(&tokenize("{% for x in l %}y{% endif %}")).unwrap_err();
    let msg = err.message();
    assert!(msg.contains("'{% endif %}' encountered"));
    assert!(msg.contains("is a 'for'"));
    assert!(msg.contains("expected '{% endfor %}'"));
}

#[test]
fn validator_tests_else_facing_for_reports_wrong_type() {
    let err = check_pairing(&tokenize("{% for x in l %}{% else %}{% endfor %}")).unwrap_err();
    let msg = err.message();
    assert!(msg.contains("'{% else %}' encountered"));
    assert!(msg.contains("is a 'for'"));
}

#[test]
fn validator_tests_endif_without_any_open_block() {
    let err = check_pairing(&tokenize("{% endif %}")).unwrap_err();
    let msg = err.message();
    assert!(msg.contains("while no block is open"));
}

#[test]
fn validator_tests_endfor_without_any_open_block() {
    let err = check_pairing(&tokenize("{% endfor %}")).unwrap_err();
    let msg = err.message();
    assert!(msg.contains("while no block is open"));
}

#[test]
fn validator_tests_else_without_any_open_block() {
    let err = check_pairing(&tokenize("{% else %}")).unwrap_err();
    let msg = err.message();
    assert!(msg.contains("while no block is open"));
}

#[test]
fn validator_tests_message_block_never_closed_is_verbatim_compliant() {
    let mut src = String::new();
    for _ in 0..8 {
        src.push_str("filler_line\n");
    } // lines 1-8
    src.push_str("{% if x %}\n"); // line 9 — never closed

    let err = check_pairing(&tokenize(&src)).unwrap_err();
    let msg = err.message();

    assert_eq!(
        msg,
        "tmplx build error: block tag '{% if %}' opened at line 9 never closed."
    );
}

#[test]
fn validator_tests_multiple_blocks_unclosed_reports_innermost() {
    // if opened line 1, for opened line 1 too (same line, consecutive
    // tags) : for is pushed second, so reported.
    let src = "{% if a %}{% for x in l %}";
    let err = check_pairing(&tokenize(src)).unwrap_err();
    let msg = err.message();
    assert!(msg.contains("'{% for %}'"), "message obtained : {msg}");
}
