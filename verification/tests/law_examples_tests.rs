use lib::build_logic::classifier::{check_tags_classify, first_segment};
use lib::build_logic::tokenizer::{tokenize, DelimiterType, Token};
use lib::build_logic::truncation::{apply_truncation, is_whitespace_rule9};
use lib::build_logic::validator::check_pairing;
use lib::tmplx_runtime::{write_escaped, write_escaped_js, write_escaped_url};

fn source_of(tokens: &[Token]) -> String {
    let mut out = String::new();
    for t in tokens {
        match t {
            Token::Static { text } => out.push_str(text),
            Token::Tagged { content, delimiter, trim_left, trim_right, .. } => {
                let (open, close) = match delimiter {
                    DelimiterType::Instruction => ("{%", "%}"),
                    DelimiterType::Comment => ("{#", "#}"),
                };
                out.push_str(open);
                if *trim_left {
                    out.push('-');
                }
                out.push_str(content);
                if *trim_right {
                    out.push('-');
                }
                out.push_str(close);
            }
        }
    }
    out
}

const SOURCES: [&str; 7] = [
    "",
    "plain text",
    "a {%- if x -%} b {% endif %}\n{# note #}",
    "{%--%}{%- %}{% -%}",
    "{% a %}{% b %}",
    "x\n{%= y %}\n\n{#- c #}z",
    "é {%%= n %} à",
];

#[test]
fn tokens_give_back_the_source() {
    for src in SOURCES {
        let toks = tokenize(src);
        assert_eq!(source_of(&toks), src);
    }
}

#[test]
fn statics_and_tags_alternate() {
    for src in SOURCES {
        let toks = tokenize(src);
        assert_eq!(toks.len() % 2, 1);
        for (i, t) in toks.iter().enumerate() {
            assert_eq!(matches!(t, Token::Static { .. }), i % 2 == 0);
            if let Token::Static { text } = t {
                assert!(!text.contains("{%") && !text.contains("{#"));
            }
        }
    }
}

#[test]
fn tag_line_counts_newlines_before_it() {
    let src = "a\nb\n{% x %}\n\n{# y\nz #}{% w %}";
    let toks = tokenize(src);
    let mut lines = Vec::new();
    for t in &toks {
        if let Token::Tagged { line, .. } = t {
            lines.push(*line);
        }
    }
    assert_eq!(lines, vec![3, 5, 6]);
}

#[test]
fn truncation_is_idempotent() {
    for src in SOURCES {
        let mut once = tokenize(src);
        apply_truncation(&mut once);
        let mut twice = once.clone();
        apply_truncation(&mut twice);
        assert_eq!(once, twice);
    }
}

#[test]
fn truncation_keeps_tags_and_clears_marked_sides() {
    let src = " \t a {%- if x -%}\n b \n{%- endif %} c ";
    let before = tokenize(src);
    let mut after = before.clone();
    apply_truncation(&mut after);
    assert_eq!(after.len(), before.len());
    for (b, a) in before.iter().zip(after.iter()) {
        if let Token::Tagged { .. } = b {
            assert_eq!(a, b);
        }
    }
    assert_eq!(after[0], Token::Static { text: " \t a" });
    assert_eq!(after[2], Token::Static { text: "b" });
    assert_eq!(after[4], Token::Static { text: " c " });
}

#[test]
fn truncation_whitespace_is_space_tab_cr_lf() {
    for c in [' ', '\t', '\r', '\n'] {
        assert!(is_whitespace_rule9(c));
    }
    for c in ['\u{00A0}', '\u{000B}', '\u{000C}', 'a'] {
        assert!(!is_whitespace_rule9(c));
    }
}

#[test]
fn truncation_does_not_change_validation() {
    let sources = [
        "a {%- if x -%} b {%- endif -%} c",
        "{%- for i in l -%}\n{%- endif %}",
        " {%- if a %}",
    ];
    for src in sources {
        let before = tokenize(src);
        let mut after = before.clone();
        apply_truncation(&mut after);
        assert_eq!(check_pairing(&before), check_pairing(&after));
    }
}

#[test]
fn comments_and_text_are_not_examined_by_validation() {
    let a = tokenize("text {# endif endfor } #}{% if a %}x{% endif %}");
    let b = tokenize("{% if a %}other words{% endif %}{# whatever #}");
    assert_eq!(check_pairing(&a), Ok(()));
    assert_eq!(check_pairing(&b), Ok(()));
}

#[test]
fn validated_templates_have_only_classifiable_tags() {
    let toks = tokenize("{% if a %}{% let x = 1; %}{%= x %}{% else %}{% endif %}");
    assert_eq!(check_pairing(&toks), Ok(()));
    assert_eq!(check_tags_classify(&toks), Ok(()));
}

#[test]
fn html_escaping_distributes_over_concatenation() {
    let parts = [("a<b", "&c\"'"), ("", ">"), ("plain", "")];
    for (x, y) in parts {
        let mut whole = String::new();
        write_escaped(&mut whole, &format!("{x}{y}"));
        let mut split = String::new();
        write_escaped(&mut split, x);
        write_escaped(&mut split, y);
        assert_eq!(whole, split);
    }
}

#[test]
fn escaped_html_has_no_special_characters_left() {
    let mut out = String::new();
    write_escaped(&mut out, "<a href=\"x\">'&'</a>");
    assert!(!out.contains('<') && !out.contains('>') && !out.contains('"') && !out.contains('\''));
    assert_eq!(out, "&lt;a href=&quot;x&quot;&gt;&#39;&amp;&#39;&lt;/a&gt;");
}

#[test]
fn escaped_js_has_no_raw_specials() {
    let mut out = String::new();
    write_escaped_js(&mut out, "</script>\r\t`\u{2028}");
    assert!(!out.contains('<') && !out.contains('>') && !out.contains('\r'));
    assert_eq!(out, "\\x3C/script\\x3E\\r\\t\\`\u{2028}");
}

#[test]
fn escaped_url_uses_only_safe_characters() {
    let mut out = String::new();
    write_escaped_url(&mut out, "é €/?");
    assert_eq!(out, "%C3%A9%20%E2%82%AC%2F%3F");
    for c in out.chars() {
        assert!(c.is_ascii_alphanumeric() || "-._~%".contains(c));
    }
}

#[test]
fn first_segment_cuts_at_the_first_dot() {
    assert_eq!(first_segment("item.name"), "item");
    assert_eq!(first_segment("a.b.c"), "a");
    assert_eq!(first_segment("plain"), "plain");
    assert_eq!(first_segment(".x"), "");
    assert_eq!(first_segment(""), "");
}

fn html_unescape(s: &str) -> String {
    s.replace("&lt;", "<")
        .replace("&gt;", ">")
        .replace("&quot;", "\"")
        .replace("&#39;", "'")
        .replace("&amp;", "&")
}

#[test]
fn html_escaping_can_be_undone() {
    for v in ["&amp;", "<a href='x'>\"q\"</a>", "&lt;&", "plain"] {
        let mut out = String::new();
        write_escaped(&mut out, v);
        assert_eq!(html_unescape(&out), v);
    }
}

#[test]
fn tag_contents_hold_no_closer_of_their_kind() {
    let toks = tokenize("{% a #} b %}{# c %} d #}");
    assert_eq!(
        toks[1],
        Token::Tagged {
            content: " a #} b ",
            line: 1,
            delimiter: DelimiterType::Instruction,
            trim_left: false,
            trim_right: false,
        }
    );
    assert_eq!(
        toks[3],
        Token::Tagged {
            content: " c %} d ",
            line: 1,
            delimiter: DelimiterType::Comment,
            trim_left: false,
            trim_right: false,
        }
    );
}

#[test]
fn validated_blocks_balance() {
    let toks = tokenize("{% if a { %}{% for x in l %}{% endfor %}{% } %}");
    assert_eq!(check_pairing(&toks), Ok(()));
    let unbalanced = tokenize("{% if a %}{% endif %}{% endif %}");
    assert!(check_pairing(&unbalanced).is_err());
}

#[test]
fn escaped_js_never_opens_an_interpolation() {
    let mut out = String::new();
    write_escaped_js(&mut out, "${alert(1)}");
    assert!(!out.contains("${"));
    assert_eq!(out, "\\x24{alert(1)}");
}
