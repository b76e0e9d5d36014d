//! Pass 4, code generation: turns a validated, truncated token stream into
//! the text of a Rust macro that renders the template.

use vstd::prelude::*;
use vstd::utf8::{encode_scalar, encode_utf8};
use crate::build_logic::classifier::{
    all_tags_classify, try_classify, spec_classify, ClassifiedTag, SpecClassifyError, SpecTag,
};
use crate::build_logic::tokenizer::{tokens_view, SpecToken, Token};
use crate::text::{chars_of, decimal, push_char, push_decimal};

verus! {

/// What a Rust string literal holds for one character of text.
pub open spec fn literal_escape_char(c: char) -> Seq<char> {
    if c == '\\' {
        "\\\\"@
    } else if c == '"' {
        "\\\""@
    } else if c == '\n' {
        "\\n"@
    } else if c == '\r' {
        "\\r"@
    } else if c == '\t' {
        "\\t"@
    } else {
        seq![c]
    }
}

/// `s` escaped for the inside of a Rust string literal: backslash, double
/// quote, line feed, carriage return and tab become backslash escapes.
pub open spec fn literal_escape(s: Seq<char>) -> Seq<char>
    decreases s.len(),
{
    if s.len() == 0 {
        Seq::empty()
    } else {
        literal_escape(s.drop_last()) + literal_escape_char(s.last())
    }
}

/// Escapes `s` for the inside of a Rust string literal. Each character is
/// handled once, so a backslash added by an escape is never escaped again.
fn escape_for_rust_literal(s: &str) -> (r: String)
    ensures
        r@ == literal_escape(s@),
{
    let mut out = String::new();
    assert(out@ =~= literal_escape(Seq::<char>::empty()));
    for c in it: s.chars()
        invariant
            it.seq() == s@,
            out@ == literal_escape(it.seq().take(it.index() as int)),
    {
        let ghost before = out@;
        if c == '\\' {
            out.append("\\\\");
        } else if c == '"' {
            out.append("\\\"");
        } else if c == '\n' {
            out.append("\\n");
        } else if c == '\r' {
            out.append("\\r");
        } else if c == '\t' {
            out.append("\\t");
        } else {
            push_char(&mut out, c);
            assert(before.push(c) =~= before + seq![c]);
        }
        let ghost k = it.index() as int;
        assert(s@.take(k + 1).drop_last() =~= s@.take(k));
    }
    assert(s@.take(s@.len() as int) =~= s@);
    out
}

/// `str::to_uppercase`: the upper-case mapping of each character, as the
/// Unicode tables of std define it.
pub uninterp spec fn uppercase(s: Seq<char>) -> Seq<char>;

/// Calls `str::to_uppercase`. The contract claims only that the result is
/// a function of the characters of `s`, named `uppercase`; the Unicode
/// case tables themselves are not stated.
#[verifier::external_body]
fn to_uppercase(s: &str) -> (r: String)
    ensures
        r@ == uppercase(s@),
{
    s.to_uppercase()
}

/// Sum, in bytes of UTF-8, of the static texts of `ts`.
pub open spec fn static_size(ts: Seq<SpecToken>) -> nat
    decreases ts.len(),
{
    if ts.len() == 0 {
        0
    } else {
        static_size(ts.drop_last()) + match ts.last() {
            SpecToken::Static { text } => encode_utf8(text).len(),
            _ => 0,
        }
    }
}

/// `out` followed by the `push_str` of the pending static text `buf`, if
/// any; the pending text is then empty.
pub open spec fn flushed(out: Seq<char>, buf: Seq<char>) -> Seq<char> {
    if buf.len() == 0 {
        out
    } else {
        out + "    output.push_str(\""@ + literal_escape(buf) + "\");\n"@
    }
}

/// ` // SOURCE_LINE:<line>` and the end of the line.
pub open spec fn source_line(line: nat) -> Seq<char> {
    " // SOURCE_LINE:"@ + decimal(line) + "\n"@
}

/// The fixed lines that a `for` emits, after its own line.
pub open spec fn loop_variables() -> Seq<char> {
    "        let loop_index0 = _tmplx_loop_index0;\n"@
        + "        let loop_index = _tmplx_loop_index0 + 1;\n"@
        + "        let loop_first = _tmplx_loop_index0 == 0;\n"@
        + "        let loop_last = _tmplx_loop_index0 == _tmplx_loop_len - 1;\n"@
        + "        let loop_length = _tmplx_loop_len;\n"@
}

/// A character of an identifier path: ASCII letter or digit, `_` or `.`.
pub open spec fn ident_char(c: char) -> bool {
    ('a' <= c && c <= 'z') || ('A' <= c && c <= 'Z') || ('0' <= c && c <= '9') || c == '_'
        || c == '.'
}

/// `expr` is `!` followed by an identifier path, such as `!view_data.active`:
/// the generated condition then puts the identifier in parentheses,
/// `!(view_data.active)`.
pub open spec fn negated_ident(expr: Seq<char>) -> bool {
    &&& expr.len() >= 2
    &&& expr[0] == '!'
    &&& forall|i: int| 1 <= i < expr.len() ==> ident_char(#[trigger] expr[i])
}

fn is_negated_ident(expr: &str) -> (r: bool)
    ensures
        r == negated_ident(expr@),
{
    let cs = chars_of(expr);
    if cs.len() < 2 || cs[0] != '!' {
        return false;
    }
    let mut i: usize = 1;
    while i < cs.len()
        invariant
            cs@ == expr@,
            1 <= i <= cs@.len(),
            forall|j: int| 1 <= j < i ==> ident_char(#[trigger] cs@[j]),
        decreases cs@.len() - i,
    {
        let c = cs[i];
        if !(('a' <= c && c <= 'z') || ('A' <= c && c <= 'Z') || ('0' <= c && c <= '9') || c == '_'
            || c == '.') {
            return false;
        }
        i += 1;
    }
    true
}

/// The code that a classified tag at `line` emits, when it first flushes
/// the pending static text.
pub open spec fn tag_code(tag: SpecTag, line: nat) -> Seq<char> {
    match tag {
        SpecTag::RawOutput { ident } => "    output.push_str(&("@ + ident + "))"@ + ";"@
            + source_line(line),
        SpecTag::EscapedOutput { ident } => "    ::tmplx::tmplx_runtime::write_escaped(output, &("@
            + ident + "));"@ + source_line(line),
        SpecTag::EscapedOutputJs { ident } =>
            "    ::tmplx::tmplx_runtime::write_escaped_js(output, &("@ + ident + "));"@
            + source_line(line),
        SpecTag::EscapedOutputUrl { ident } =>
            "    ::tmplx::tmplx_runtime::write_escaped_url(output, &("@ + ident + "));"@
            + source_line(line),
        SpecTag::If { expr } => if negated_ident(expr) {
            "    if !("@ + expr.drop_first() + ") {"@ + source_line(line)
        } else {
            "    if "@ + expr + " {"@ + source_line(line)
        },
        SpecTag::ElseIf { expr } => "    } else if "@ + expr + " {\n"@,
        SpecTag::Else => "    } else {\n"@,
        SpecTag::EndIf => "    }\n"@,
        SpecTag::For { item, iterable } => "    let _tmplx_iterable = &("@ + iterable + ");\n"@
            + "    let _tmplx_loop_len = _tmplx_iterable.len();\n"@
            + "    for (_tmplx_loop_index0, "@ + item
            + ") in _tmplx_iterable.into_iter().enumerate() {"@ + source_line(line)
            + loop_variables(),
        SpecTag::EndFor => "    }\n"@,
        SpecTag::GenericClose => "    }\n"@,
        SpecTag::Let { body, .. } => "    "@ + body + source_line(line),
        _ => Seq::empty(),
    }
}

/// Tags that emit only a comment line: `extends`, `include`, `block` and
/// comments. Like every tag, they first flush the pending static text, so
/// that each static text has its own `push_str`.
pub open spec fn emits_comment_line(tag: SpecTag) -> bool {
    tag is Extends || tag is Include || tag is Block || tag is Comment
}

/// The comment line emitted for a tag that emits no code.
pub open spec fn comment_code(line: nat) -> Seq<char> {
    "    // (template comment, line "@ + decimal(line) + " : 0 bytes in binary)\n"@
}

/// Effect of one token on the code emitted so far `out` and the pending
/// static text `buf`.
pub open spec fn gen_step(out: Seq<char>, buf: Seq<char>, tok: SpecToken) -> (Seq<char>, Seq<char>) {
    match tok {
        SpecToken::Static { text } => (out, buf + text),
        SpecToken::Tagged { content, line, delimiter, .. } => match spec_classify(
            content,
            delimiter,
            line,
        ) {
            Ok(tag) => if emits_comment_line(tag) {
                (flushed(out, buf) + comment_code(line), Seq::empty())
            } else {
                (flushed(out, buf) + tag_code(tag, line), Seq::empty())
            },
            Err(_) => (out, buf),
        },
    }
}

/// Code emitted and static text pending after the tokens `ts`.
pub open spec fn gen_body(ts: Seq<SpecToken>) -> (Seq<char>, Seq<char>)
    decreases ts.len(),
{
    if ts.len() == 0 {
        (Seq::empty(), Seq::empty())
    } else {
        let (out, buf) = gen_body(ts.drop_last());
        gen_step(out, buf, ts.last())
    }
}

/// The header of the generated file: source path, static size constant
/// `TMPLX_STATIC_SIZE_<const_suffix>`, and the head of the macro.
pub open spec fn gen_header(
    function_name: Seq<char>,
    const_suffix: Seq<char>,
    html_path: Seq<char>,
    size: nat,
) -> Seq<char> {
    "// AUTOMATICALLY GENERATED FILE BY build.rs -- DO NOT EDIT BY HAND.\n"@
        + "// Source   : "@ + html_path + "\n"@ + "\n"@
        + "/// Exact sum, in bytes, of all static HTML segments from the mockup.\n"@
        + "/// Does NOT cover the dynamic content injected at runtime (see the section\n"@
        + "/// « memory capacity management of the buffer » in the tmplx documentation).\n"@
        + "pub const "@ + "TMPLX_STATIC_SIZE_"@ + const_suffix + ": usize = "@
        + decimal(size) + ";\n"@ + "\n"@ + "#[macro_export]\nmacro_rules! "@ + function_name
        + " {\n    ($output:expr, $view_data:expr) => {{\n"@
        + "        let output: &mut String = $output;\n"@
        + "        #[allow(unused_variables)]\n"@ + "        let view_data = $view_data;\n"@
}

/// The whole generated file for the tokens `ts`, with the size constant
/// named after `const_suffix`.
pub open spec fn spec_generate_named(
    ts: Seq<SpecToken>,
    function_name: Seq<char>,
    const_suffix: Seq<char>,
    html_path: Seq<char>,
) -> Seq<char> {
    let (out, buf) = gen_body(ts);
    gen_header(function_name, const_suffix, html_path, static_size(ts)) + flushed(out, buf)
        + "    }}\n}\n"@
}

/// The whole generated file for the tokens `ts`: the size constant is
/// named after `function_name` in upper case.
pub open spec fn spec_generate(ts: Seq<SpecToken>, function_name: Seq<char>, html_path: Seq<char>) -> Seq<
    char,
> {
    spec_generate_named(ts, function_name, uppercase(function_name), html_path)
}

/// Appends the `push_str` of the pending static text, if any, and empties
/// it.
fn flush_static(out: &mut String, buff: &mut String)
    ensures
        final(out)@ == flushed(old(out)@, old(buff)@),
        final(buff)@ == Seq::<char>::empty(),
{
    if !buff.as_str().is_empty() {
        out.append("    output.push_str(\"");
        let e = escape_for_rust_literal(buff.as_str());
        out.append(e.as_str());
        out.append("\");\n");
    }
    *buff = String::new();
}

fn push_source_line(out: &mut String, line: usize)
    ensures
        final(out)@ == old(out)@ + source_line(line as nat),
{
    out.append(" // SOURCE_LINE:");
    push_decimal(out, line);
    out.append("\n");
}

/// Appends the code of an `if` tag.
fn push_if_code(out: &mut String, expr: &str, line: usize)
    ensures
        final(out)@ == old(out)@ + tag_code(SpecTag::If { expr: expr@ }, line as nat),
{
    let ghost start = out@;
    if is_negated_ident(expr) {
        let n = chars_of(expr).len();
        out.append("    if !(");
        let inner = expr.substring_char(1, n);
        assert(inner@ =~= expr@.drop_first());
        out.append(inner);
        out.append(") {");
    } else {
        out.append("    if ");
        out.append(expr);
        out.append(" {");
    }
    push_source_line(out, line);
    assert(out@ =~= start + tag_code(SpecTag::If { expr: expr@ }, line as nat));
}

/// Appends the code of a flushing tag.
fn push_tag_code(out: &mut String, tag: ClassifiedTag, line: usize)
    requires
        !emits_comment_line(tag@),
    ensures
        final(out)@ == old(out)@ + tag_code(tag@, line as nat),
{
    let ghost start = out@;
    match tag {
        ClassifiedTag::RawOutput { ident } => {
            out.append("    output.push_str(&(");
            out.append(ident);
            out.append("))");
            out.append(";");
            push_source_line(out, line);
        },
        ClassifiedTag::EscapedOutput { ident } => {
            out.append("    ::tmplx::tmplx_runtime::write_escaped(output, &(");
            out.append(ident);
            out.append("));");
            push_source_line(out, line);
        },
        ClassifiedTag::EscapedOutputJs { ident } => {
            out.append("    ::tmplx::tmplx_runtime::write_escaped_js(output, &(");
            out.append(ident);
            out.append("));");
            push_source_line(out, line);
        },
        ClassifiedTag::EscapedOutputUrl { ident } => {
            out.append("    ::tmplx::tmplx_runtime::write_escaped_url(output, &(");
            out.append(ident);
            out.append("));");
            push_source_line(out, line);
        },
        ClassifiedTag::If { expr } => {
            push_if_code(out, expr, line);
        },
        ClassifiedTag::ElseIf { expr } => {
            out.append("    } else if ");
            out.append(expr);
            out.append(" {\n");
        },
        ClassifiedTag::Else => {
            out.append("    } else {\n");
        },
        ClassifiedTag::EndIf => {
            out.append("    }\n");
        },
        ClassifiedTag::For { item, iterable } => {
            out.append("    let _tmplx_iterable = &(");
            out.append(iterable);
            out.append(");\n");
            out.append("    let _tmplx_loop_len = _tmplx_iterable.len();\n");
            out.append("    for (_tmplx_loop_index0, ");
            out.append(item);
            out.append(") in _tmplx_iterable.into_iter().enumerate() {");
            push_source_line(out, line);
            out.append("        let loop_index0 = _tmplx_loop_index0;\n");
            out.append("        let loop_index = _tmplx_loop_index0 + 1;\n");
            out.append("        let loop_first = _tmplx_loop_index0 == 0;\n");
            out.append("        let loop_last = _tmplx_loop_index0 == _tmplx_loop_len - 1;\n");
            out.append("        let loop_length = _tmplx_loop_len;\n");
        },
        ClassifiedTag::EndFor => {
            out.append("    }\n");
        },
        ClassifiedTag::GenericClose => {
            out.append("    }\n");
        },
        ClassifiedTag::EndBlock => {},
        ClassifiedTag::Let { body, .. } => {
            out.append("    ");
            out.append(body);
            push_source_line(out, line);
        },
        _ => {},
    }
    assert(out@ =~= start + tag_code(tag@, line as nat));
}


proof fn lemma_static_size_prefix(ts: Seq<SpecToken>, i: int)
    requires
        0 <= i <= ts.len(),
    ensures
        static_size(ts.take(i)) <= static_size(ts),
    decreases ts.len() - i,
{
    if i < ts.len() {
        lemma_static_size_prefix(ts, i + 1);
        assert(ts.take(i + 1).drop_last() =~= ts.take(i));
    } else {
        assert(ts.take(i) =~= ts);
    }
}

/// Total byte size of the static texts of `tokens`, or `None` when it does
/// not fit in a `usize`.
pub fn static_bytes(tokens: &[Token]) -> (r: Option<usize>)
    ensures
        match r {
            Some(k) => k == static_size(tokens_view(tokens@)),
            None => static_size(tokens_view(tokens@)) > usize::MAX,
        },
{
    let ghost ts = tokens_view(tokens@);
    let n = tokens.len();
    let mut size: usize = 0;
    let mut i: usize = 0;
    assert(ts.take(0) =~= Seq::<SpecToken>::empty());
    while i < n
        invariant
            n == tokens@.len() == ts.len(),
            ts == tokens_view(tokens@),
            i <= n,
            size == static_size(ts.take(i as int)),
        decreases n - i,
    {
        proof {
            assert(ts.take(i + 1).drop_last() =~= ts.take(i as int));
            assert(ts[i as int] == tokens@[i as int]@);
            lemma_static_size_prefix(ts, i + 1);
        }
        match tokens[i] {
            Token::Static { text } => {
                let len = text.as_bytes().len();
                match size.checked_add(len) {
                    Some(t) => {
                        size = t;
                    },
                    None => {
                        return None;
                    },
                }
            },
            _ => {},
        }
        i += 1;
    }
    assert(ts.take(n as int) =~= ts);
    Some(size)
}

/// Pass 4: the text of the Rust file that renders the tokens: a header
/// naming `html_path`, the constant `TMPLX_STATIC_SIZE_<NAME>` holding the
/// byte size of all static text, and the macro `function_name`. Each
/// non-empty static text is emitted by its own `push_str`, never merged
/// with a neighbour, even across a comment; each tag emits its line of
/// code. The tokens are expected to have passed validation: every tag
/// classifies.
pub fn generate(tokens: &[Token], function_name: &str, html_path: &str) -> (r: String)
    requires
        all_tags_classify(tokens_view(tokens@)),
        static_size(tokens_view(tokens@)) <= usize::MAX,
    ensures
        r@ == spec_generate(tokens_view(tokens@), function_name@, html_path@),
{
    let upper = to_uppercase(function_name);
    generate_named(tokens, function_name, upper.as_str(), html_path)
}

/// Pass 4 with the suffix of the size constant given: the file that
/// `generate` writes once it has `function_name` in upper case as
/// `const_suffix`.
pub fn generate_named(
    tokens: &[Token],
    function_name: &str,
    const_suffix: &str,
    html_path: &str,
) -> (r: String)
    requires
        all_tags_classify(tokens_view(tokens@)),
        static_size(tokens_view(tokens@)) <= usize::MAX,
    ensures
        r@ == spec_generate_named(tokens_view(tokens@), function_name@, const_suffix@, html_path@),
{
    let ghost ts = tokens_view(tokens@);
    let n = tokens.len();

    let size = match static_bytes(tokens) {
        Some(k) => k,
        None => {
            return String::new();
        },
    };

    let mut output = String::new();
    output.append("// AUTOMATICALLY GENERATED FILE BY build.rs -- DO NOT EDIT BY HAND.\n");
    output.append("// Source   : ");
    output.append(html_path);
    output.append("\n");
    output.append("\n");
    output.append("/// Exact sum, in bytes, of all static HTML segments from the mockup.\n");
    output.append("/// Does NOT cover the dynamic content injected at runtime (see the section\n");
    output.append("/// « memory capacity management of the buffer » in the tmplx documentation).\n");
    output.append("pub const ");
    output.append("TMPLX_STATIC_SIZE_");
    output.append(const_suffix);
    output.append(": usize = ");
    push_decimal(&mut output, size);
    output.append(";\n");
    output.append("\n");
    output.append("#[macro_export]\nmacro_rules! ");
    output.append(function_name);
    output.append(" {\n    ($output:expr, $view_data:expr) => {{\n");
    output.append("        let output: &mut String = $output;\n");
    output.append("        #[allow(unused_variables)]\n");
    output.append("        let view_data = $view_data;\n");
    let ghost header = output@;
    assert(header =~= gen_header(function_name@, const_suffix@, html_path@, static_size(ts)));

    let mut static_buffer = String::new();
    let mut i: usize = 0;
    assert(header + Seq::<char>::empty() =~= header);
    while i < n
        invariant
            n == tokens@.len() == ts.len(),
            ts == tokens_view(tokens@),
            i <= n,
            all_tags_classify(ts),
            output@ == header + gen_body(ts.take(i as int)).0,
            static_buffer@ == gen_body(ts.take(i as int)).1,
        decreases n - i,
    {
        proof {
            assert(ts.take(i + 1).drop_last() =~= ts.take(i as int));
            assert(ts[i as int] == tokens@[i as int]@);
        }
        let ghost out0 = gen_body(ts.take(i as int)).0;
        let ghost buf0 = gen_body(ts.take(i as int)).1;
        match tokens[i] {
            Token::Static { text } => {
                static_buffer.append(text);
            },
            Token::Tagged { content, line, delimiter, .. } => {
                let tag = match try_classify(content, delimiter, line) {
                    Ok(t) => t,
                    Err(_) => {
                        proof {
                            assert(false);
                        }
                        return output;
                    },
                };
                match tag {
                    ClassifiedTag::Extends { .. }
                    | ClassifiedTag::Include { .. }
                    | ClassifiedTag::Block { .. }
                    | ClassifiedTag::Comment => {
                        let ghost o1 = output@;
                        flush_static(&mut output, &mut static_buffer);
                        assert(output@ =~= header + flushed(out0, buf0)) by {
                            if buf0.len() != 0 {
                                assert(o1 + "    output.push_str(\""@ + literal_escape(buf0)
                                    + "\");\n"@ =~= header + (out0 + "    output.push_str(\""@
                                    + literal_escape(buf0) + "\");\n"@));
                            }
                        }
                        output.append("    // (template comment, line ");
                        push_decimal(&mut output, line);
                        output.append(" : 0 bytes in binary)\n");
                        assert(output@ =~= header + (flushed(out0, buf0) + comment_code(
                            line as nat,
                        )));
                    },
                    _ => {
                        let ghost o1 = output@;
                        flush_static(&mut output, &mut static_buffer);
                        assert(output@ =~= header + flushed(out0, buf0)) by {
                            if buf0.len() != 0 {
                                assert(o1 + "    output.push_str(\""@ + literal_escape(buf0)
                                    + "\");\n"@ =~= header + (out0 + "    output.push_str(\""@
                                    + literal_escape(buf0) + "\");\n"@));
                            }
                        }
                        push_tag_code(&mut output, tag, line);
                        assert(output@ =~= header + (flushed(out0, buf0) + tag_code(
                            tag@,
                            line as nat,
                        )));
                    },
                }
            },
        }
        i += 1;
    }
    assert(ts.take(n as int) =~= ts);
    let ghost out0 = gen_body(ts).0;
    let ghost buf0 = gen_body(ts).1;
    flush_static(&mut output, &mut static_buffer);
    output.append("    }}\n}\n");
    assert(output@ =~= spec_generate_named(ts, function_name@, const_suffix@, html_path@)) by {
        if buf0.len() != 0 {
            assert(header + out0 + "    output.push_str(\""@ + literal_escape(buf0) + "\");\n"@
                =~= header + (out0 + "    output.push_str(\""@ + literal_escape(buf0)
                + "\");\n"@));
        }
    }
    output
}


/// What Rust makes of the body of a string literal that holds only the
/// escapes `\\`, `\"`, `\n`, `\r` and `\t`.
pub open spec fn literal_unescape(s: Seq<char>) -> Seq<char>
    decreases s.len(),
{
    if s.len() == 0 {
        Seq::empty()
    } else if s[0] == '\\' && s.len() >= 2 {
        let c = if s[1] == 'n' {
            '\n'
        } else if s[1] == 'r' {
            '\r'
        } else if s[1] == 't' {
            '\t'
        } else {
            s[1]
        };
        seq![c] + literal_unescape(s.subrange(2, s.len() as int))
    } else {
        seq![s[0]] + literal_unescape(s.subrange(1, s.len() as int))
    }
}

proof fn lemma_literal_escape_concat(a: Seq<char>, b: Seq<char>)
    ensures
        literal_escape(a + b) == literal_escape(a) + literal_escape(b),
    decreases b.len(),
{
    if b.len() == 0 {
        assert(a + b =~= a);
        assert(literal_escape(a) + literal_escape(b) =~= literal_escape(a));
    } else {
        lemma_literal_escape_concat(a, b.drop_last());
        assert((a + b).drop_last() =~= a + b.drop_last());
        assert((a + b).last() == b.last());
        assert(literal_escape(a) + literal_escape(b.drop_last()) + literal_escape_char(b.last())
            =~= literal_escape(a) + (literal_escape(b.drop_last()) + literal_escape_char(
            b.last(),
        )));
    }
}

proof fn lemma_literal_unescape_char(c: char, rest: Seq<char>)
    ensures
        literal_unescape(literal_escape_char(c) + rest) == seq![c] + literal_unescape(rest),
{
    reveal_strlit("\\\\");
    reveal_strlit("\\\"");
    reveal_strlit("\\n");
    reveal_strlit("\\r");
    reveal_strlit("\\t");
    let e = literal_escape_char(c);
    let x = e + rest;
    if e.len() == 2 {
        assert(x[0] == '\\');
        assert(x.subrange(2, x.len() as int) =~= rest);
    } else {
        assert(e == seq![c]);
        assert(x[0] == c);
        assert(x.subrange(1, x.len() as int) =~= rest);
    }
}

/// Escaping a static text for a Rust string literal loses nothing: the
/// literal that the generated code holds denotes exactly the text.
pub proof fn law_literal_escape_round_trip(s: Seq<char>)
    ensures
        literal_unescape(literal_escape(s)) == s,
    decreases s.len(),
{
    if s.len() > 0 {
        let c = s[0];
        let rest = s.drop_first();
        assert(s =~= seq![c] + rest);
        lemma_literal_escape_concat(seq![c], rest);
        assert(seq![c].drop_last() =~= Seq::<char>::empty());
        assert(seq![c].last() == c);
        assert(literal_escape(Seq::<char>::empty()) == Seq::<char>::empty());
        assert(Seq::<char>::empty() + literal_escape_char(c) =~= literal_escape_char(c));
        assert(literal_escape(seq![c]) == literal_escape_char(c));
        lemma_literal_unescape_char(c, literal_escape(rest));
        law_literal_escape_round_trip(rest);
        assert(seq![c] + rest =~= s);
    }
}

/// The static texts of `ts`, one after the other.
pub open spec fn static_text(ts: Seq<SpecToken>) -> Seq<char>
    decreases ts.len(),
{
    if ts.len() == 0 {
        Seq::empty()
    } else {
        static_text(ts.drop_last()) + match ts.last() {
            SpecToken::Static { text } => text,
            _ => Seq::empty(),
        }
    }
}

proof fn lemma_encode_utf8_concat(a: Seq<char>, b: Seq<char>)
    ensures
        encode_utf8(a + b) == encode_utf8(a) + encode_utf8(b),
    decreases a.len(),
{
    if a.len() == 0 {
        assert(a + b =~= b);
        assert(encode_utf8(a) + encode_utf8(b) =~= encode_utf8(b));
    } else {
        lemma_encode_utf8_concat(a.drop_first(), b);
        assert((a + b).drop_first() =~= a.drop_first() + b);
        assert((a + b)[0] == a[0]);
        let e = encode_scalar(a[0] as u32);
        assert(e + (encode_utf8(a.drop_first()) + encode_utf8(b)) =~= (e + encode_utf8(
            a.drop_first(),
        )) + encode_utf8(b));
    }
}

/// The constant `TMPLX_STATIC_SIZE_<NAME>` that heads the generated code
/// is exactly the number of UTF-8 bytes of all the static text of the
/// template; tags and comments count for nothing. A buffer of that
/// capacity holds the static part of the page without growing.
pub proof fn law_static_size_is_static_bytes(ts: Seq<SpecToken>)
    ensures
        static_size(ts) == encode_utf8(static_text(ts)).len(),
    decreases ts.len(),
{
    if ts.len() > 0 {
        law_static_size_is_static_bytes(ts.drop_last());
        let t = match ts.last() {
            SpecToken::Static { text } => text,
            _ => Seq::empty(),
        };
        lemma_encode_utf8_concat(static_text(ts.drop_last()), t);
        if !(ts.last() is Static) {
            assert(encode_utf8(t) =~= Seq::<u8>::empty());
        }
    }
}

/// A piece of the body of the generated macro: the `push_str` of a static
/// text, or any other code.
pub enum CodeItem {
    PushStatic(Seq<char>),
    Code(Seq<char>),
}

/// The text of one piece of generated code.
pub open spec fn render_item(item: CodeItem) -> Seq<char> {
    match item {
        CodeItem::PushStatic(text) => "    output.push_str(\""@ + literal_escape(text) + "\");\n"@,
        CodeItem::Code(code) => code,
    }
}

/// The text of pieces of generated code, one after the other.
pub open spec fn render_items(items: Seq<CodeItem>) -> Seq<char>
    decreases items.len(),
{
    if items.len() == 0 {
        Seq::empty()
    } else {
        render_items(items.drop_last()) + render_item(items.last())
    }
}

/// The static texts that pieces of generated code push, one after the other.
pub open spec fn pushed_text(items: Seq<CodeItem>) -> Seq<char>
    decreases items.len(),
{
    if items.len() == 0 {
        Seq::empty()
    } else {
        pushed_text(items.drop_last()) + match items.last() {
            CodeItem::PushStatic(text) => text,
            CodeItem::Code(_) => Seq::empty(),
        }
    }
}

/// `items` followed by the push of the pending static text, if any.
pub open spec fn flush_items(items: Seq<CodeItem>, buf: Seq<char>) -> Seq<CodeItem> {
    if buf.len() == 0 {
        items
    } else {
        items.push(CodeItem::PushStatic(buf))
    }
}

/// Effect of one token on the pieces of code emitted so far and the
/// pending static text; the same choices as `gen_step`.
pub open spec fn item_step(items: Seq<CodeItem>, buf: Seq<char>, tok: SpecToken) -> (
    Seq<CodeItem>,
    Seq<char>,
) {
    match tok {
        SpecToken::Static { text } => (items, buf + text),
        SpecToken::Tagged { content, line, delimiter, .. } => match spec_classify(
            content,
            delimiter,
            line,
        ) {
            Ok(tag) => if emits_comment_line(tag) {
                (flush_items(items, buf).push(CodeItem::Code(comment_code(line))), Seq::empty())
            } else {
                (flush_items(items, buf).push(CodeItem::Code(tag_code(tag, line))), Seq::empty())
            },
            Err(_) => (items, buf),
        },
    }
}

/// Pieces of code emitted and static text pending after the tokens `ts`.
pub open spec fn item_run(ts: Seq<SpecToken>) -> (Seq<CodeItem>, Seq<char>)
    decreases ts.len(),
{
    if ts.len() == 0 {
        (Seq::empty(), Seq::empty())
    } else {
        let (items, buf) = item_run(ts.drop_last());
        item_step(items, buf, ts.last())
    }
}

/// All the pieces of the macro body generated for `ts`.
pub open spec fn code_items(ts: Seq<SpecToken>) -> Seq<CodeItem> {
    flush_items(item_run(ts).0, item_run(ts).1)
}

proof fn lemma_render_push(items: Seq<CodeItem>, x: CodeItem)
    ensures
        render_items(items.push(x)) == render_items(items) + render_item(x),
        pushed_text(items.push(x)) == pushed_text(items) + match x {
            CodeItem::PushStatic(text) => text,
            CodeItem::Code(_) => Seq::empty(),
        },
{
    assert(items.push(x).drop_last() =~= items);
}

proof fn lemma_items_track_body(ts: Seq<SpecToken>)
    ensures
        render_items(item_run(ts).0) == gen_body(ts).0,
        item_run(ts).1 == gen_body(ts).1,
        pushed_text(item_run(ts).0) + item_run(ts).1 == static_text(ts),
        forall|k: int|
            0 <= k < item_run(ts).0.len() ==> (#[trigger] item_run(ts).0[k] matches CodeItem::PushStatic(
                t,
            ) ==> t.len() > 0),
    decreases ts.len(),
{
    if ts.len() == 0 {
        assert(Seq::<char>::empty() + Seq::<char>::empty() =~= Seq::<char>::empty());
    } else {
        let init = ts.drop_last();
        lemma_items_track_body(init);
        let (items, buf) = item_run(init);
        let (out, _) = gen_body(init);
        let prev = static_text(init);
        match ts.last() {
            SpecToken::Static { text } => {
                assert(pushed_text(items) + (buf + text) =~= (pushed_text(items) + buf) + text);
            },
            SpecToken::Tagged { content, line, delimiter, .. } => {
                assert(static_text(ts) =~= prev);
                match spec_classify(content, delimiter, line) {
                    Ok(tag) => {
                        let code = if emits_comment_line(tag) {
                            comment_code(line)
                        } else {
                            tag_code(tag, line)
                        };
                        let f = flush_items(items, buf);
                        if buf.len() > 0 {
                            lemma_render_push(items, CodeItem::PushStatic(buf));
                        }
                        assert(render_items(f) == flushed(out, buf));
                        assert(pushed_text(f) == pushed_text(items) + buf) by {
                            if buf.len() == 0 {
                                assert(pushed_text(items) + buf =~= pushed_text(items));
                            }
                        }
                        lemma_render_push(f, CodeItem::Code(code));
                        assert(pushed_text(f.push(CodeItem::Code(code)))
                            + Seq::<char>::empty() =~= pushed_text(f));
                        assert forall|k: int|
                            0 <= k < f.len() implies (#[trigger] f[k] matches CodeItem::PushStatic(
                            t,
                        ) ==> t.len() > 0) by {
                            if k < items.len() {
                                assert(f[k] == items[k]);
                            }
                        }
                        let g = f.push(CodeItem::Code(code));
                        assert forall|k: int|
                            0 <= k < g.len() implies (#[trigger] g[k] matches CodeItem::PushStatic(
                            t,
                        ) ==> t.len() > 0) by {
                            if k < f.len() {
                                assert(g[k] == f[k]);
                            }
                        }
                    },
                    Err(_) => {},
                }
            },
        }
    }
}

/// The body of the generated macro is a series of pieces of code in which
/// each `push_str` of static text is non-empty, and these pushes, taken in
/// order, write exactly the static text of the template: nothing is lost,
/// repeated or moved, and tags and comments add none. Together with the
/// exactness of the escaping of literals and of the size constant, the
/// constant is the number of bytes that the static pushes write.
pub proof fn law_generated_pushes_static_text(
    ts: Seq<SpecToken>,
    function_name: Seq<char>,
    html_path: Seq<char>,
)
    ensures
        spec_generate(ts, function_name, html_path) == gen_header(
            function_name,
            uppercase(function_name),
            html_path,
            static_size(ts),
        ) + render_items(code_items(ts)) + "    }}\n}\n"@,
        pushed_text(code_items(ts)) == static_text(ts),
        forall|k: int|
            0 <= k < code_items(ts).len() ==> (#[trigger] code_items(ts)[k] matches CodeItem::PushStatic(
                t,
            ) ==> t.len() > 0),
{
    lemma_items_track_body(ts);
    let (items, buf) = item_run(ts);
    if buf.len() > 0 {
        lemma_render_push(items, CodeItem::PushStatic(buf));
        let g = items.push(CodeItem::PushStatic(buf));
        assert forall|k: int|
            0 <= k < g.len() implies (#[trigger] g[k] matches CodeItem::PushStatic(t) ==> t.len()
            > 0) by {
            if k < items.len() {
                assert(g[k] == items[k]);
            }
        }
    } else {
        assert(pushed_text(items) + buf =~= pushed_text(items));
    }
}

/// A character that never stands raw inside a generated string literal.
pub open spec fn literal_control(c: char) -> bool {
    c == '\n' || c == '\r' || c == '\t'
}

/// Escaping for a Rust string literal leaves no line feed, carriage return
/// nor tab in the literal: each generated `push_str` stays on one line.
pub proof fn law_literal_escape_no_controls(s: Seq<char>)
    ensures
        forall|i: int|
            0 <= i < literal_escape(s).len() ==> !literal_control(#[trigger] literal_escape(s)[i]),
    decreases s.len(),
{
    reveal_strlit("\\\\");
    reveal_strlit("\\\"");
    reveal_strlit("\\n");
    reveal_strlit("\\r");
    reveal_strlit("\\t");
    if s.len() > 0 {
        law_literal_escape_no_controls(s.drop_last());
        let a = literal_escape(s.drop_last());
        let b = literal_escape_char(s.last());
        assert forall|i: int| 0 <= i < (a + b).len() implies !literal_control(#[trigger] (a + b)[i]) by {
            if i >= a.len() {
                assert((a + b)[i] == b[i - a.len()]);
            }
        }
    }
}

/// No two static texts of `ts` are next to each other, as in every token
/// stream that tokenization gives.
pub open spec fn no_adjacent_statics(ts: Seq<SpecToken>) -> bool {
    forall|i: int| 0 <= i < ts.len() - 1 ==> !(#[trigger] ts[i] is Static && ts[i + 1] is Static)
}

/// The non-empty static texts of `ts`, in order.
pub open spec fn nonempty_statics(ts: Seq<SpecToken>) -> Seq<Seq<char>>
    decreases ts.len(),
{
    if ts.len() == 0 {
        Seq::empty()
    } else {
        nonempty_statics(ts.drop_last()) + match ts.last() {
            SpecToken::Static { text } => if text.len() > 0 {
                seq![text]
            } else {
                Seq::empty()
            },
            _ => Seq::empty(),
        }
    }
}

/// The texts of the `push_str` pieces, in order.
pub open spec fn pushes(items: Seq<CodeItem>) -> Seq<Seq<char>>
    decreases items.len(),
{
    if items.len() == 0 {
        Seq::empty()
    } else {
        pushes(items.drop_last()) + match items.last() {
            CodeItem::PushStatic(text) => seq![text],
            CodeItem::Code(_) => Seq::empty(),
        }
    }
}

/// The static text pending after `ts`: that of its last token if static.
pub open spec fn pending_text(ts: Seq<SpecToken>) -> Seq<char> {
    if ts.len() > 0 && ts.last() is Static {
        ts.last()->Static_text
    } else {
        Seq::empty()
    }
}

/// `[buf]` when `buf` is not empty, else nothing.
pub open spec fn opt_piece(buf: Seq<char>) -> Seq<Seq<char>> {
    if buf.len() > 0 {
        seq![buf]
    } else {
        Seq::empty()
    }
}

proof fn lemma_pushes_push(items: Seq<CodeItem>, x: CodeItem)
    ensures
        pushes(items.push(x)) == pushes(items) + match x {
            CodeItem::PushStatic(text) => seq![text],
            CodeItem::Code(_) => Seq::<Seq<char>>::empty(),
        },
{
    assert(items.push(x).drop_last() =~= items);
}

proof fn lemma_pushes_one_static_each(ts: Seq<SpecToken>)
    requires
        no_adjacent_statics(ts),
        all_tags_classify(ts),
    ensures
        item_run(ts).1 == pending_text(ts),
        pushes(item_run(ts).0) + opt_piece(item_run(ts).1) == nonempty_statics(ts),
    decreases ts.len(),
{
    if ts.len() == 0 {
        assert(Seq::<Seq<char>>::empty() + Seq::<Seq<char>>::empty() =~= Seq::<Seq<char>>::empty());
    } else {
        let init = ts.drop_last();
        assert(no_adjacent_statics(init)) by {
            assert forall|i: int| 0 <= i < init.len() - 1 implies !(#[trigger] init[i] is Static
                && init[i + 1] is Static) by {
                assert(init[i] == ts[i] && init[i + 1] == ts[i + 1]);
            }
        }
        assert(all_tags_classify(init)) by {
            assert forall|i: int| 0 <= i < init.len() implies match #[trigger] init[i] {
                SpecToken::Tagged { content, line, delimiter, .. } => spec_classify(
                    content,
                    delimiter,
                    line,
                ) is Ok,
                _ => true,
            } by {
                assert(init[i] == ts[i]);
            }
        }
        lemma_pushes_one_static_each(init);
        let (items, buf) = item_run(init);
        match ts.last() {
            SpecToken::Static { text } => {
                if init.len() > 0 {
                    assert(!(ts[init.len() - 1] is Static && ts[init.len() as int] is Static));
                    assert(init.last() == ts[init.len() - 1]);
                }
                assert(buf.len() == 0);
                assert(buf + text =~= text);
                assert(pushes(items) + Seq::<Seq<char>>::empty() =~= pushes(items));
            },
            SpecToken::Tagged { content, line, delimiter, .. } => {
                assert(ts[ts.len() - 1] == ts.last());
                let tag = spec_classify(content, delimiter, line)->Ok_0;
                let code = if emits_comment_line(tag) {
                    comment_code(line)
                } else {
                    tag_code(tag, line)
                };
                let f = flush_items(items, buf);
                if buf.len() > 0 {
                    lemma_pushes_push(items, CodeItem::PushStatic(buf));
                }
                lemma_pushes_push(f, CodeItem::Code(code));
                assert(pushes(f) == pushes(items) + opt_piece(buf));
                assert(pushes(f.push(CodeItem::Code(code))) + opt_piece(Seq::<char>::empty())
                    =~= pushes(f));
                assert(nonempty_statics(ts) =~= nonempty_statics(init));
            },
        }
    }
}

/// Each static text has its own `push_str`: in a token stream where no two
/// static texts are next to each other and every tag classifies, the
/// `push_str` pieces of the generated body are exactly the non-empty static
/// texts, one each, in order; no two are merged, even across a comment.
pub proof fn law_one_push_per_static_text(ts: Seq<SpecToken>)
    requires
        no_adjacent_statics(ts),
        all_tags_classify(ts),
    ensures
        pushes(code_items(ts)) == nonempty_statics(ts),
{
    lemma_pushes_one_static_each(ts);
    let (items, buf) = item_run(ts);
    if buf.len() > 0 {
        lemma_pushes_push(items, CodeItem::PushStatic(buf));
    } else {
        assert(pushes(items) + opt_piece(buf) =~= pushes(items));
    }
}

/// `t` is a tag that classifies as `tag`.
pub open spec fn classifies_as(t: SpecToken, tag: SpecTag) -> bool {
    match t {
        SpecToken::Tagged { content, line, delimiter, .. } => spec_classify(content, delimiter, line)
            == Ok::<SpecTag, SpecClassifyError>(tag),
        _ => false,
    }
}

proof fn lemma_gen_body_update(ts: Seq<SpecToken>, i: int, t2: SpecToken)
    requires
        0 <= i < ts.len(),
        forall|o: Seq<char>, b: Seq<char>| #[trigger] gen_step(o, b, ts[i]) == gen_step(o, b, t2),
        ts[i] is Tagged,
        t2 is Tagged,
    ensures
        gen_body(ts.update(i, t2)) == gen_body(ts),
        static_size(ts.update(i, t2)) == static_size(ts),
    decreases ts.len(),
{
    let u = ts.update(i, t2);
    if i == ts.len() - 1 {
        assert(u.drop_last() =~= ts.drop_last());
        let (o, b) = gen_body(ts.drop_last());
        assert(gen_step(o, b, ts[i]) == gen_step(o, b, t2));
    } else {
        lemma_gen_body_update(ts.drop_last(), i, t2);
        assert(u.drop_last() =~= ts.drop_last().update(i, t2));
        assert(u.last() == ts.last());
    }
}

/// A `{% } %}` tag generates the same code as the `endif` or `endfor` it
/// stands for: replacing one by the other anywhere in a template leaves the
/// generated file unchanged. Each closes exactly the brace that its `if`
/// or `for` opened, so the braces of the generated code match whichever
/// form the template uses: each of them writes exactly the line `    }`.
pub proof fn law_generic_close_generates_like_keyword(
    ts: Seq<SpecToken>,
    i: int,
    keyword: SpecToken,
    function_name: Seq<char>,
    html_path: Seq<char>,
)
    requires
        0 <= i < ts.len(),
        classifies_as(ts[i], SpecTag::GenericClose),
        classifies_as(keyword, SpecTag::EndIf) || classifies_as(keyword, SpecTag::EndFor),
    ensures
        spec_generate(ts.update(i, keyword), function_name, html_path) == spec_generate(
            ts,
            function_name,
            html_path,
        ),
        forall|l: nat|
            #![trigger tag_code(SpecTag::GenericClose, l)]
            tag_code(SpecTag::GenericClose, l) == "    }\n"@ && tag_code(SpecTag::EndIf, l)
                == "    }\n"@ && tag_code(SpecTag::EndFor, l) == "    }\n"@,
{
    assert forall|o: Seq<char>, b: Seq<char>| #[trigger] gen_step(o, b, ts[i]) == gen_step(
        o,
        b,
        keyword,
    ) by {}
    lemma_gen_body_update(ts, i, keyword);
}

} // verus!
