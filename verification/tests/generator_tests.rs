use lib::build_logic::generator::{generate, generate_named, static_bytes};
use lib::build_logic::tokenizer::{tokenize, Token};
use lib::build_logic::truncation::apply_truncation;
use lib::build_logic::validator::validate_pairing;

fn header(name_upper: &str, name: &str, path: &str, size: usize) -> String {
    let mut h = String::new();
    h.push_str("// AUTOMATICALLY GENERATED FILE BY build.rs -- DO NOT EDIT BY HAND.\n");
    h.push_str(&format!("// Source   : {path}\n"));
    h.push_str("\n");
    h.push_str("/// Exact sum, in bytes, of all static HTML segments from the mockup.\n");
    h.push_str("/// Does NOT cover the dynamic content injected at runtime (see the section\n");
    h.push_str("/// « memory capacity management of the buffer » in the tmplx documentation).\n");
    h.push_str(&format!("pub const TMPLX_STATIC_SIZE_{name_upper}: usize = {size};\n"));
    h.push_str("\n");
    h.push_str("#[macro_export]\n");
    h.push_str(&format!("macro_rules! {name} {{\n"));
    h.push_str("    ($output:expr, $view_data:expr) => {{\n");
    h.push_str("        let output: &mut String = $output;\n");
    h.push_str("        #[allow(unused_variables)]\n");
    h.push_str("        let view_data = $view_data;\n");
    h
}

#[test]
fn generate_escaped_output_exact_text() {
    let toks = tokenize("<p>{%%= name %}</p>");
    let code = generate(&toks, "render_hello", "t.html");
    let mut expected = header("RENDER_HELLO", "render_hello", "t.html", 7);
    expected.push_str("    output.push_str(\"<p>\");\n");
    expected.push_str(
        "    ::tmplx::tmplx_runtime::write_escaped(output, &(name)); // SOURCE_LINE:1\n",
    );
    expected.push_str("    output.push_str(\"</p>\");\n");
    expected.push_str("    }}\n}\n");
    assert_eq!(code, expected);
}

#[test]
fn generate_uppercases_the_constant_name() {
    let toks = tokenize("x");
    let code = generate(&toks, "render_mixed_Case", "p");
    assert!(code.contains("pub const TMPLX_STATIC_SIZE_RENDER_MIXED_CASE: usize = 1;\n"));
    assert!(code.contains("macro_rules! render_mixed_Case {\n"));
}

#[test]
fn static_size_counts_utf8_bytes() {
    // "é" takes two bytes, "€" three.
    let toks = tokenize("é{# c #}€");
    assert_eq!(static_bytes(&toks), Some(5));
    let code = generate(&toks, "render_x", "p");
    assert!(code.contains("usize = 5;\n"));
}

#[test]
fn statics_around_a_comment_each_get_their_push() {
    let toks = tokenize("ab{# note #}cd");
    let code = generate(&toks, "render_x", "p");
    assert!(code.contains("    output.push_str(\"ab\");\n    // (template comment, line 1 : 0 bytes in binary)\n    output.push_str(\"cd\");\n"));
    assert_eq!(code.matches("output.push_str(\"").count(), 2);
}

#[test]
fn comment_between_statics_ends_the_file_as_documented() {
    let toks = tokenize("a{# c #}b");
    let code = generate(&toks, "render_x", "x.html");
    assert!(code.ends_with("    output.push_str(\"a\");\n    // (template comment, line 1 : 0 bytes in binary)\n    output.push_str(\"b\");\n    }}\n}\n"));
}

#[test]
fn negated_identifier_is_parenthesised() {
    let code = generate(&tokenize("{% if !a %}x{% endif %}"), "render_x", "x.html");
    assert!(code.contains("    if !(a) { // SOURCE_LINE:1\n"));
    let code = generate(&tokenize("{% if !view_data.is_active %}x{% endif %}"), "render_x", "x.html");
    assert!(code.contains("    if !(view_data.is_active) { // SOURCE_LINE:1\n"));
    // Not a lone identifier: the expression is kept as written.
    let code = generate(&tokenize("{% if !a && b %}x{% endif %}"), "render_x", "x.html");
    assert!(code.contains("    if !a && b { // SOURCE_LINE:1\n"));
}

#[test]
fn generate_named_uses_the_given_constant_suffix() {
    let toks = tokenize("abc");
    let code = generate_named(&toks, "render_x", "CUSTOM", "x.html");
    assert!(code.contains("pub const TMPLX_STATIC_SIZE_CUSTOM: usize = 3;\n"));
    assert!(code.contains("macro_rules! render_x {\n"));
    assert_eq!(generate(&toks, "render_x", "x.html"), generate_named(&toks, "render_x", "RENDER_X", "x.html"));
}

#[test]
fn statics_are_escaped_as_rust_literals() {
    let toks = tokenize("a\"b\\c\n\td\r");
    let code = generate(&toks, "render_x", "p");
    assert!(code.contains("    output.push_str(\"a\\\"b\\\\c\\n\\td\\r\");\n"));
}

#[test]
fn generate_control_flow_and_loops() {
    let src = "{% if a %}A{% else if b %}B{% else %}C{% endif %}{% for x in xs %}{%= x %}{% endfor %}{% let y = 1; %}";
    let mut toks = tokenize(src);
    validate_pairing(&toks);
    apply_truncation(&mut toks);
    let code = generate(&toks, "render_cf", "cf.html");
    let body = code.split("let view_data = $view_data;\n").nth(1).unwrap();
    let expected_lines = [
        "    if a { // SOURCE_LINE:1",
        "    output.push_str(\"A\");",
        "    } else if b {",
        "    output.push_str(\"B\");",
        "    } else {",
        "    output.push_str(\"C\");",
        "    }",
        "    let _tmplx_iterable = &(xs);",
        "    let _tmplx_loop_len = _tmplx_iterable.len();",
        "    for (_tmplx_loop_index0, x) in _tmplx_iterable.into_iter().enumerate() { // SOURCE_LINE:1",
        "        let loop_index0 = _tmplx_loop_index0;",
        "        let loop_index = _tmplx_loop_index0 + 1;",
        "        let loop_first = _tmplx_loop_index0 == 0;",
        "        let loop_last = _tmplx_loop_index0 == _tmplx_loop_len - 1;",
        "        let loop_length = _tmplx_loop_len;",
        "    output.push_str(&(x)); // SOURCE_LINE:1",
        "    }",
        "    let y = 1; // SOURCE_LINE:1",
        "    }}",
        "}",
    ];
    let mut expected = String::new();
    for l in expected_lines {
        expected.push_str(l);
        expected.push('\n');
    }
    assert_eq!(body, expected);
}

#[test]
fn generate_js_url_and_lines() {
    let src = "l1\n{%js= a %}\n{%url= b %}";
    let toks = tokenize(src);
    let code = generate(&toks, "render_x", "p");
    assert!(code.contains("    ::tmplx::tmplx_runtime::write_escaped_js(output, &(a)); // SOURCE_LINE:2\n"));
    assert!(code.contains("    ::tmplx::tmplx_runtime::write_escaped_url(output, &(b)); // SOURCE_LINE:3\n"));
}

#[test]
fn generate_empty_template() {
    let toks = tokenize("");
    let code = generate(&toks, "render_e", "e.html");
    let mut expected = header("RENDER_E", "render_e", "e.html", 0);
    expected.push_str("    }}\n}\n");
    assert_eq!(code, expected);
}

fn unescape_literal(s: &str) -> String {
    let mut out = String::new();
    let mut chars = s.chars();
    while let Some(c) = chars.next() {
        if c == '\\' {
            match chars.next() {
                Some('n') => out.push('\n'),
                Some('r') => out.push('\r'),
                Some('t') => out.push('\t'),
                Some(other) => out.push(other),
                None => {}
            }
        } else {
            out.push(c);
        }
    }
    out
}

#[test]
fn static_pushes_write_exactly_the_static_text() {
    let src = "<p class=\"a\">\n\t{# c #}é\\{%%= x %}</p>{% if y %}€{% endif %}\r\n";
    let toks = tokenize(src);
    let code = generate(&toks, "render_s", "s.html");
    let mut pushed = String::new();
    for line in code.lines() {
        if let Some(rest) = line.strip_prefix("    output.push_str(\"") {
            let lit = rest.strip_suffix("\");").unwrap();
            assert!(!lit.is_empty());
            pushed.push_str(&unescape_literal(lit));
        }
    }
    let mut statics = String::new();
    for t in &toks {
        if let Token::Static { text } = t {
            statics.push_str(text);
        }
    }
    assert_eq!(pushed, "<p class=\"a\">\n\té\\</p>€\r\n");
    assert_eq!(pushed, statics);
    assert!(code.contains(&format!(
        "pub const TMPLX_STATIC_SIZE_RENDER_S: usize = {};\n",
        statics.len()
    )));
}
