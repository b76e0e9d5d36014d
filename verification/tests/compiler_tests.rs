use lib::build_logic::tokenizer::{tokenize, DelimiterType, Token};
use lib::compiler::{
    check_template_path, collect_child_blocks, comment_out, depth_allowed, find_extends, find_raw_output,
    finish_template, include_target, path_within, splice_includes, merge_with_parent, name_is_new, render_function_name,
    str_equal, strip_template_blocks, CompileLimits, LimitError, PathError, TemplateError,
    MAX_DEPTH,
};
use lib::build_logic::generator::generate;
use lib::build_logic::truncation::apply_truncation;
use lib::build_logic::validator::{BlockType, OpenBlock, ValidationError};

fn statics<'a>(tokens: &[Token<'a>]) -> Vec<&'a str> {
    let mut out = Vec::new();
    for t in tokens {
        if let Token::Static { text } = t {
            if !text.is_empty() {
                out.push(*text);
            }
        }
    }
    out
}

fn delimiters(tokens: &[Token]) -> Vec<DelimiterType> {
    let mut out = Vec::new();
    for t in tokens {
        if let Token::Tagged { delimiter, .. } = t {
            out.push(*delimiter);
        }
    }
    out
}

#[test]
fn depth_limit_is_ten() {
    assert_eq!(MAX_DEPTH, 10);
}

#[test]
fn include_target_gives_path_and_line() {
    let toks = tokenize("a\n{% include \"partials/h.html\" %}");
    assert_eq!(include_target(toks[1]), Some(("partials/h.html", 2)));
}

#[test]
fn include_target_is_none_for_other_tokens() {
    let toks = tokenize("a{% if x %}{# include \"h\" #}{% endif %}");
    for t in &toks {
        assert_eq!(include_target(*t), None);
    }
}

#[test]
fn comment_out_keeps_everything_but_the_delimiter() {
    let toks = tokenize("{%- block title -%}x");
    let c = comment_out(toks[1]);
    assert_eq!(
        c,
        Token::Tagged {
            content: " block title ",
            line: 1,
            delimiter: DelimiterType::Comment,
            trim_left: true,
            trim_right: true,
        }
    );
    assert_eq!(comment_out(toks[2]), toks[2]);
}

#[test]
fn strip_comments_block_markers_and_extends_only() {
    let src = "{% extends \"base.html\" %}{% block title %}T{% if a %}x{% endif %}{% endblock %}{% for i in l %}{% } %}";
    let toks = tokenize(src);
    let stripped = strip_template_blocks(toks.clone());
    assert_eq!(stripped.len(), toks.len());
    assert_eq!(
        delimiters(&stripped),
        vec![
            DelimiterType::Comment,
            DelimiterType::Comment,
            DelimiterType::Instruction,
            DelimiterType::Instruction,
            DelimiterType::Comment,
            DelimiterType::Instruction,
            DelimiterType::Instruction,
        ]
    );
}

#[test]
fn strip_treats_a_generic_close_as_a_closer() {
    let toks = tokenize("{% block b %}x{% } %}{% if a { %}y{% } %}");
    let stripped = strip_template_blocks(toks);
    assert_eq!(
        delimiters(&stripped),
        vec![
            DelimiterType::Comment,
            DelimiterType::Comment,
            DelimiterType::Instruction,
            DelimiterType::Instruction,
        ]
    );
}

#[test]
fn braces_close_blocks_inside_inherited_blocks() {
    let child = "{% extends \"base.html\" %}{% block c %}{% if a { %}X{% } %}{% endblock %}";
    let parent = "A{% block c %}D{% endblock %}B";
    let blocks = collect_child_blocks(&tokenize(child));
    assert_eq!(blocks.len(), 1);
    assert_eq!(blocks[0].name, "c");
    assert_eq!(statics(&blocks[0].tokens), vec!["X"]);
    assert_eq!(delimiters(&blocks[0].tokens).len(), 2);
    let merged = merge_with_parent(tokenize(parent), &blocks);
    assert_eq!(statics(&merged), vec!["A", "X", "B"]);
    let keyword_child = "{% extends \"base.html\" %}{% block c %}{% if a %}X{% endif %}{% endblock %}";
    let keyword_merged = merge_with_parent(tokenize(parent), &collect_child_blocks(&tokenize(keyword_child)));
    assert_eq!(statics(&keyword_merged), vec!["A", "X", "B"]);
}

#[test]
fn find_extends_gives_the_first_one() {
    let toks = tokenize("x\n\n{% extends \"a.html\" %}{% extends \"b.html\" %}");
    assert_eq!(find_extends(&toks), Some(("a.html", 3)));
    let none = tokenize("{# extends \"a.html\" #}{% include \"a\" %}");
    assert_eq!(find_extends(&none), None);
}

#[test]
fn find_raw_output_gives_the_line_of_the_first_one() {
    let toks = tokenize("{%%= a %}\n{%js= b %}\n{%= c %}{%= d %}");
    assert_eq!(find_raw_output(&toks), Some(3));
    let safe = tokenize("{%%= a %}{%url= b %}{# = c #}");
    assert_eq!(find_raw_output(&safe), None);
}

#[test]
fn render_function_name_replaces_dashes_and_dots() {
    assert_eq!(render_function_name("my-page.v2"), "render_my_page_v2");
    assert_eq!(render_function_name("index"), "render_index");
    assert_eq!(render_function_name(""), "render_");
}

#[test]
fn str_equal_compares_characters() {
    assert!(str_equal("abc", "abc"));
    assert!(!str_equal("abc", "abd"));
    assert!(!str_equal("abc", "ab"));
    assert!(str_equal("", ""));
}

#[test]
fn name_is_new_detects_a_duplicate() {
    let names = vec![String::from("render_a"), String::from("render_b")];
    assert!(name_is_new(&names, "render_c"));
    assert!(!name_is_new(&names, "render_b"));
    assert!(name_is_new(&Vec::new(), "render_a"));
}

#[test]
fn check_template_path_drops_quotes() {
    assert_eq!(check_template_path("\"partials/header.html\""), Ok("partials/header.html"));
    assert_eq!(check_template_path("'base.html'"), Ok("base.html"));
    assert_eq!(check_template_path("a/..b/c.html"), Ok("a/..b/c.html"));
    assert_eq!(check_template_path("a/b../c.html"), Ok("a/b../c.html"));
}

#[test]
fn check_template_path_refuses_absolute_paths() {
    assert_eq!(
        check_template_path("'/etc/passwd'"),
        Err(PathError::Absolute { path: "/etc/passwd" })
    );
}

#[test]
fn check_template_path_refuses_parent_components() {
    assert_eq!(
        check_template_path("\"../secret.html\""),
        Err(PathError::ParentTraversal { path: "../secret.html" })
    );
    assert_eq!(
        check_template_path("\"a/../b.html\""),
        Err(PathError::ParentTraversal { path: "a/../b.html" })
    );
    assert_eq!(
        check_template_path("a/.."),
        Err(PathError::ParentTraversal { path: "a/.." })
    );
}

#[test]
fn compile_limits_start_empty() {
    let l = CompileLimits::new();
    assert_eq!(l.included_files, 0);
    assert_eq!(l.max_included_files, 10_000);
    assert_eq!(l.total_template_size, 0);
    assert_eq!(l.max_template_size, 104_857_600);
}

#[test]
fn add_source_refuses_going_over_the_size_limit() {
    let mut l = CompileLimits::new();
    assert_eq!(l.add_source(104_857_000), Ok(()));
    assert_eq!(l.add_source(600), Ok(()));
    assert_eq!(l.total_template_size, 104_857_600);
    assert_eq!(l.add_source(1), Err(LimitError::TooLarge));
    assert_eq!(l.total_template_size, 104_857_600);
    assert_eq!(l.add_source(usize::MAX), Err(LimitError::TooLarge));
}

#[test]
fn add_inclusion_refuses_going_over_the_count_limit() {
    let mut l = CompileLimits {
        included_files: 0,
        max_included_files: 2,
        total_template_size: 0,
        max_template_size: 10,
    };
    assert_eq!(l.add_inclusion(), Ok(()));
    assert_eq!(l.add_inclusion(), Ok(()));
    assert_eq!(l.add_inclusion(), Err(LimitError::TooManyInclusions));
    assert_eq!(l.included_files, 2);
}

#[test]
fn limit_messages() {
    assert_eq!(
        LimitError::TooLarge.message(),
        "tmplx build error: total template source size exceeds maximum limit"
    );
    assert_eq!(
        LimitError::TooManyInclusions.message(),
        "tmplx build error: too many template inclusions"
    );
}

#[test]
fn collect_child_blocks_takes_outermost_blocks() {
    let child = "{% extends \"b\" %}{% block title %}Child{% endblock %}outside{% block body %}{% if a %}A{% endif %}{% block inner %}I{% endblock %}{% endblock %}";
    let toks = tokenize(child);
    let blocks = collect_child_blocks(&toks);
    assert_eq!(blocks.len(), 2);
    assert_eq!(blocks[0].name, "title");
    assert_eq!(statics(&blocks[0].tokens), vec!["Child"]);
    assert_eq!(blocks[0].tokens.len(), 1);
    assert_eq!(blocks[1].name, "body");
    assert_eq!(delimiters(&blocks[1].tokens).len(), 4);
    assert_eq!(statics(&blocks[1].tokens), vec!["A", "I"]);
}

#[test]
fn merge_replaces_overridden_blocks_only() {
    let child = "{% extends \"base\" %}{% block title %}Child{% endblock %}{% block body %}{% if a %}A{% endif %}{% endblock %}";
    let parent = "<t>{% block title %}Default{% endblock %}</t>{% block body %}B{% block nested %}N{% endblock %}{% endblock %}{% block foot %}F{% endblock %}";
    let ctoks = tokenize(child);
    let blocks = collect_child_blocks(&ctoks);
    let ptoks = tokenize(parent);
    let merged = merge_with_parent(ptoks, &blocks);
    assert_eq!(statics(&merged), vec!["<t>", "Child", "</t>", "A", "F"]);
    assert_eq!(delimiters(&merged).len(), 8);
}

#[test]
fn merge_takes_the_last_override_of_a_name() {
    let child = "{% block x %}one{% endblock %}{% block x %}two{% endblock %}";
    let blocks = collect_child_blocks(&tokenize(child));
    assert_eq!(blocks.len(), 2);
    let merged = merge_with_parent(tokenize("[{% block x %}p{% endblock %}]"), &blocks);
    assert_eq!(statics(&merged), vec!["[", "two", "]"]);
}

#[test]
fn merge_without_overrides_keeps_the_parent() {
    let parent = "a{% block x %}b{% if c %}d{% endif %}{% endblock %}e";
    let ptoks = tokenize(parent);
    let merged = merge_with_parent(ptoks.clone(), &Vec::new());
    assert_eq!(merged, ptoks);
}

#[test]
fn finish_template_truncates_then_generates() {
    let toks = tokenize("<ul>\n  {%- for x in xs -%}\n  <li>{%%= x %}</li>\n  {%- endfor -%}\n</ul>");
    let code = finish_template(toks.clone(), false, "render_list", "list.html").unwrap();
    let mut truncated = toks;
    apply_truncation(&mut truncated);
    assert_eq!(code, generate(&truncated, "render_list", "list.html"));
    assert!(code.contains("pub const TMPLX_STATIC_SIZE_RENDER_LIST: usize = 18;\n"));
}

#[test]
fn finish_template_reports_validation_errors() {
    let toks = tokenize("{% if a %}");
    let err = finish_template(toks, false, "render_x", "x.html").unwrap_err();
    assert_eq!(
        err,
        TemplateError::Validation(ValidationError::NeverClosed {
            open: OpenBlock { block_type: BlockType::If, line: 1 },
        })
    );
    assert_eq!(
        err.message(),
        "tmplx build error: block tag '{% if %}' opened at line 1 never closed."
    );
}

#[test]
fn strict_mode_refuses_raw_output() {
    let src = "a\n{%%= safe %}\n{%= raw %}";
    let err = finish_template(tokenize(src), true, "render_x", "x.html").unwrap_err();
    assert_eq!(err, TemplateError::RawOutputForbidden { line: 3 });
    assert_eq!(
        err.message(),
        "tmplx build error line 3: raw output ({%= %}) is forbidden in strict mode."
    );
    assert!(finish_template(tokenize(src), false, "render_x", "x.html").is_ok());
}

#[test]
fn validation_comes_before_strict_mode() {
    let toks = tokenize("{%= raw %}{% endif %}");
    let err = finish_template(toks, true, "render_x", "x.html").unwrap_err();
    assert_eq!(
        err,
        TemplateError::Validation(ValidationError::NoBlockOpen { line: 1, encountered: "endif" })
    );
}

#[test]
fn static_too_large_message() {
    assert_eq!(
        TemplateError::StaticTooLarge.message(),
        "tmplx build error: static template text exceeds the addressable size"
    );
}

#[test]
fn depth_is_allowed_up_to_ten() {
    assert!(depth_allowed(0));
    assert!(depth_allowed(10));
    assert!(!depth_allowed(11));
}

#[test]
fn child_block_replaces_parent_block_with_nested_if() {
    let child = "{% extends \"base.html\" %}\n{% block c %}{% if a %}X{% else %}Y{% endif %}{% endblock %}\n";
    let parent = "<h>{%%= t %}</h>{% block c %}{% for d in ds %}D{% endfor %}{% endblock %}<f>";
    let merged = merge_with_parent(tokenize(parent), &collect_child_blocks(&tokenize(child)));
    assert_eq!(statics(&merged), vec!["<h>", "</h>", "X", "Y", "<f>"]);
    // block, if, else, endif, endblock, plus the escaped output
    assert_eq!(delimiters(&merged).len(), 6);
}

#[test]
fn path_within_compares_components() {
    assert!(path_within("/tpl", "/tpl/partials/a.html"));
    assert!(path_within("/tpl", "/tpl"));
    assert!(path_within("/", "/etc/passwd"));
    assert!(!path_within("/tpl", "/tpl2/a.html"));
    assert!(!path_within("/tpl/partials", "/tpl/a.html"));
    assert!(!path_within("/tpl", "tpl/a.html"));
    assert!(path_within("/tpl/", "/tpl//a.html"));
}

#[test]
fn splice_includes_puts_each_expansion_after_its_comment() {
    let toks = tokenize("a{% include \"x\" %}b{% include \"y\" %}c");
    let x = tokenize("X");
    let y = tokenize("{% if q %}Y{% endif %}");
    let out = splice_includes(&toks, &vec![x.clone(), y.clone()]);
    assert_eq!(statics(&out), vec!["a", "X", "b", "Y", "c"]);
    assert_eq!(out[1], comment_out(toks[1]));
    assert_eq!(&out[2..2 + x.len()], &x[..]);
    assert_eq!(out.len(), toks.len() + x.len() + y.len());
}

#[test]
fn inheritance_with_several_blocks() {
    let parent = "<html>{% if dark %}D{% endif %}{% block head %}H{% endblock %}<body>{% block main %}M{% for i in l %}I{% endfor %}{% endblock %}{% block foot %}F{% endblock %}</html>";
    let child = "{% extends \"p\" %}{% block main %}{% if a { %}A{% } %}{% endblock %}{% block head %}h{% endblock %}";
    let merged = merge_with_parent(tokenize(parent), &collect_child_blocks(&tokenize(child)));
    assert_eq!(statics(&merged), vec!["<html>", "D", "h", "<body>", "A", "F", "</html>"]);
}
