//! Classification of the content of a tag, and resolution of the first
//! segment of an identifier.

use vstd::prelude::*;
use crate::build_logic::tokenizer::{tokens_view, DelimiterType, SpecToken, Token};
use crate::text::{
    ascii_whitespace, chars_of, drop_suffix_char, equals_at, find_char, is_ascii_whitespace,
    lemma_find_char_is, push_decimal, decimal, skip_char, skip_char_back, skip_whitespace, starts_with, starts_with_at,
    trim, trim_bounds, trim_char, trim_start, trim_start_char, is_whitespace, trim_end,
};

verus! {

/// Only the first segment before a dot of an identifier is resolved
/// against the scope; the rest (`.name`) is copied as is.
pub open spec fn spec_first_segment(ident: Seq<char>) -> Seq<char> {
    match find_char(ident, '.') {
        Some(i) => ident.subrange(0, i),
        None => ident,
    }
}

/// The part of `ident` before its first dot, or all of it.
pub fn first_segment(ident: &str) -> (r: &str)
    ensures
        r@ == spec_first_segment(ident@),
{
    let cs = chars_of(ident);
    let mut i: usize = 0;
    while i < cs.len() && cs[i] != '.'
        invariant
            i <= cs@.len(),
            cs@ == ident@,
            forall|j: int| 0 <= j < i ==> cs@[j] != '.',
        decreases cs@.len() - i,
    {
        i += 1;
    }
    proof {
        lemma_find_char_is(ident@, '.', i as int);
    }
    if i < cs.len() {
        ident.substring_char(0, i)
    } else {
        ident
    }
}

/// Classification of the content of a `Tagged` token. A comment (`{# #}`)
/// is always `Comment`, whatever its content.
///
/// `RawOutput` (`{%= %}`) writes the value with no HTML escaping: it is
/// the shortest syntax, and `EscapedOutput` (`{%%= %}`) must be asked for
/// explicitly. Untrusted data must go through `{%%= %}`.
#[derive(Debug, Clone, Copy, PartialEq, Eq)]
pub enum ClassifiedTag<'a> {
    /// `{%= ident %}`: raw output, no escaping.
    RawOutput { ident: &'a str },
    /// `{%%= ident %}`: HTML escaping.
    EscapedOutput { ident: &'a str },
    /// `{%js= ident %}`: JavaScript escaping.
    EscapedOutputJs { ident: &'a str },
    /// `{%url= ident %}`: URL escaping.
    EscapedOutputUrl { ident: &'a str },
    /// `{% if expr %}`
    If { expr: &'a str },
    /// `{% else if expr %}`
    ElseIf { expr: &'a str },
    /// `{% extends "path" %}`
    Extends { path: &'a str },
    /// `{% include "path" %}`
    Include { path: &'a str },
    /// `{% block name %}`
    Block { name: &'a str },
    /// `{% else %}`
    Else,
    /// `{% endif %}`
    EndIf,
    /// `{% endblock %}`
    EndBlock,
    /// `{% for item in iterable %}`
    For { item: &'a str, iterable: &'a str },
    /// `{% endfor %}`
    EndFor,
    /// `{% } %}`: closes an `if` or a `for`.
    GenericClose,
    /// `{% let ident = expr_rust; %}`; `body` is the whole trimmed content,
    /// passed through as is by code generation.
    Let { ident: &'a str, body: &'a str },
    /// `{# ... #}`
    Comment,
}

/// The value of a classified tag: its texts as character sequences.
pub enum SpecTag {
    RawOutput { ident: Seq<char> },
    EscapedOutput { ident: Seq<char> },
    EscapedOutputJs { ident: Seq<char> },
    EscapedOutputUrl { ident: Seq<char> },
    If { expr: Seq<char> },
    ElseIf { expr: Seq<char> },
    Extends { path: Seq<char> },
    Include { path: Seq<char> },
    Block { name: Seq<char> },
    Else,
    EndIf,
    EndBlock,
    For { item: Seq<char>, iterable: Seq<char> },
    EndFor,
    GenericClose,
    Let { ident: Seq<char>, body: Seq<char> },
    Comment,
}

impl<'a> View for ClassifiedTag<'a> {
    type V = SpecTag;

    open spec fn view(&self) -> SpecTag {
        match *self {
            ClassifiedTag::RawOutput { ident } => SpecTag::RawOutput { ident: ident@ },
            ClassifiedTag::EscapedOutput { ident } => SpecTag::EscapedOutput { ident: ident@ },
            ClassifiedTag::EscapedOutputJs { ident } => SpecTag::EscapedOutputJs { ident: ident@ },
            ClassifiedTag::EscapedOutputUrl { ident } => SpecTag::EscapedOutputUrl { ident: ident@ },
            ClassifiedTag::If { expr } => SpecTag::If { expr: expr@ },
            ClassifiedTag::ElseIf { expr } => SpecTag::ElseIf { expr: expr@ },
            ClassifiedTag::Extends { path } => SpecTag::Extends { path: path@ },
            ClassifiedTag::Include { path } => SpecTag::Include { path: path@ },
            ClassifiedTag::Block { name } => SpecTag::Block { name: name@ },
            ClassifiedTag::Else => SpecTag::Else,
            ClassifiedTag::EndIf => SpecTag::EndIf,
            ClassifiedTag::EndBlock => SpecTag::EndBlock,
            ClassifiedTag::For { item, iterable } => SpecTag::For {
                item: item@,
                iterable: iterable@,
            },
            ClassifiedTag::EndFor => SpecTag::EndFor,
            ClassifiedTag::GenericClose => SpecTag::GenericClose,
            ClassifiedTag::Let { ident, body } => SpecTag::Let { ident: ident@, body: body@ },
            ClassifiedTag::Comment => SpecTag::Comment,
        }
    }
}

/// Why the content of an instruction tag could not be classified.
#[derive(Debug, Clone, Copy, PartialEq, Eq)]
pub enum ClassifyError<'a> {
    /// `{% for %}` without ` in ` between two non-empty parts.
    MalformedFor { line: usize },
    /// `{% let %}` without `=`.
    MalformedLet { line: usize },
    /// Content that matches none of the rules; `tag` is the trimmed content.
    Unrecognized { line: usize, tag: &'a str },
}

/// The value of a classification error.
pub enum SpecClassifyError {
    MalformedFor { line: nat },
    MalformedLet { line: nat },
    Unrecognized { line: nat, tag: Seq<char> },
}

impl<'a> View for ClassifyError<'a> {
    type V = SpecClassifyError;

    open spec fn view(&self) -> SpecClassifyError {
        match *self {
            ClassifyError::MalformedFor { line } => SpecClassifyError::MalformedFor {
                line: line as nat,
            },
            ClassifyError::MalformedLet { line } => SpecClassifyError::MalformedLet {
                line: line as nat,
            },
            ClassifyError::Unrecognized { line, tag } => SpecClassifyError::Unrecognized {
                line: line as nat,
                tag: tag@,
            },
        }
    }
}

/// Text of a classification error.
pub open spec fn classify_message(e: SpecClassifyError) -> Seq<char> {
    match e {
        SpecClassifyError::MalformedFor { line } => "tmplx build error line "@ + decimal(line)
            + ": '{% for %}' malformed, 'in' expected (syntax: '{% for item in list %}')."@,
        SpecClassifyError::MalformedLet { line } => "tmplx build error line "@ + decimal(line)
            + ": '{% let %}' malformed, '=' sign expected (syntax: '{% let ident = expr_rust; %}')."@,
        SpecClassifyError::Unrecognized { line, tag } => "tmplx build error line "@ + decimal(line)
            + ": tag '{% "@ + tag + " %}' unrecognized."@,
    }
}

impl<'a> ClassifyError<'a> {
    /// The build error reported for this tag.
    pub fn message(&self) -> (r: String)
        ensures
            r@ == classify_message(self@),
    {
        let mut out = String::new();
        out.append("tmplx build error line ");
        match *self {
            ClassifyError::MalformedFor { line } => {
                push_decimal(&mut out, line);
                out.append(": '{% for %}' malformed, 'in' expected (syntax: '{% for item in list %}').");
            },
            ClassifyError::MalformedLet { line } => {
                push_decimal(&mut out, line);
                out.append(": '{% let %}' malformed, '=' sign expected (syntax: '{% let ident = expr_rust; %}').");
            },
            ClassifyError::Unrecognized { line, tag } => {
                push_decimal(&mut out, line);
                out.append(": tag '{% ");
                out.append(tag);
                out.append(" %}' unrecognized.");
            },
        }
        out
    }
}

/// The value of what `try_classify` returns.
pub open spec fn classify_result_view<'a>(
    r: Result<ClassifiedTag<'a>, ClassifyError<'a>>,
) -> Result<SpecTag, SpecClassifyError> {
    match r {
        Ok(t) => Ok(t@),
        Err(e) => Err(e@),
    }
}

/// `t` without its first `n` characters.
pub open spec fn skip(t: Seq<char>, n: nat) -> Seq<char> {
    t.subrange(n as int, t.len() as int)
}

/// Expression of `else if expr` or `} else if expr {`.
pub open spec fn else_if_expr(t: Seq<char>) -> Seq<char> {
    let r0 = trim_start(trim_start_char(t, '}'));
    let r1 = if starts_with(r0, "else if"@) {
        trim_start(skip(r0, "else if"@.len()))
    } else {
        r0
    };
    trim(drop_suffix_char(r1, '{'))
}

/// Argument of `extends "path"` or `include "path"`: trimmed, then without
/// its double quotes, then without its single quotes.
pub open spec fn path_arg(t: Seq<char>, keyword_len: nat) -> Seq<char> {
    trim_char(trim_char(trim(skip(t, keyword_len)), '"'), '\'')
}

/// The argument after a keyword, trimmed, without an opening brace.
pub open spec fn brace_arg(t: Seq<char>, keyword_len: nat) -> Seq<char> {
    trim(drop_suffix_char(trim(skip(t, keyword_len)), '{'))
}

/// The keyword `in` stands at position `i` of `r`, with ASCII whitespace
/// on both sides.
pub open spec fn in_keyword_at(r: Seq<char>, i: int) -> bool {
    &&& 1 <= i
    &&& i + 2 < r.len()
    &&& r[i] == 'i'
    &&& r[i + 1] == 'n'
    &&& is_ascii_whitespace(r[i - 1])
    &&& is_ascii_whitespace(r[i + 2])
}

/// First position `i >= from` of the keyword `in` in `r`.
pub open spec fn find_in_keyword(r: Seq<char>, from: int) -> Option<int>
    decreases r.len() - from,
{
    if from + 2 >= r.len() {
        None
    } else if in_keyword_at(r, from) {
        Some(from)
    } else {
        find_in_keyword(r, from + 1)
    }
}

pub proof fn lemma_find_in_keyword(r: Seq<char>, from: int)
    ensures
        find_in_keyword(r, from) matches Some(i) ==> from <= i && in_keyword_at(r, i),
    decreases r.len() - from,
{
    if from + 2 < r.len() {
        lemma_find_in_keyword(r, from + 1);
    }
}

/// Item and iterable of `for item in iterable`, when both are present.
pub open spec fn for_parts(t: Seq<char>) -> Option<(Seq<char>, Seq<char>)> {
    let rest = brace_arg(t, "for"@.len());
    match find_in_keyword(rest, 1) {
        Some(pos) => {
            let item = trim(rest.subrange(0, pos));
            let iterable = trim(skip(rest, (pos + 2) as nat));
            if item.len() > 0 && iterable.len() > 0 {
                Some((item, iterable))
            } else {
                None
            }
        },
        None => None,
    }
}

/// Identifier of `let ident = expr;`, when there is an `=`.
pub open spec fn let_ident(t: Seq<char>) -> Option<Seq<char>> {
    let rest = trim(skip(t, "let"@.len()));
    match find_char(rest, '=') {
        Some(i) => Some(trim(rest.subrange(0, i))),
        None => None,
    }
}

/// The rules of the grammar, in order, on the trimmed content `t` of an
/// instruction tag, at line `line`.
pub open spec fn classify_trimmed(t: Seq<char>, line: nat) -> Result<SpecTag, SpecClassifyError> {
    if t == "else"@ || t == "} else {"@ || t == "else {"@ {
        Ok(SpecTag::Else)
    } else if starts_with(t, "else if"@) || starts_with(t, "} else if"@) {
        Ok(SpecTag::ElseIf { expr: else_if_expr(t) })
    } else if starts_with(t, "extends "@) {
        Ok(SpecTag::Extends { path: path_arg(t, "extends"@.len()) })
    } else if starts_with(t, "include "@) {
        Ok(SpecTag::Include { path: path_arg(t, "include"@.len()) })
    } else if starts_with(t, "block "@) {
        Ok(SpecTag::Block { name: brace_arg(t, "block"@.len()) })
    } else if t == "endblock"@ {
        Ok(SpecTag::EndBlock)
    } else if t == "}"@ {
        Ok(SpecTag::GenericClose)
    } else if t == "endif"@ {
        Ok(SpecTag::EndIf)
    } else if t == "endfor"@ {
        Ok(SpecTag::EndFor)
    } else if starts_with(t, "%="@) {
        Ok(SpecTag::EscapedOutput { ident: trim(skip(t, 2)) })
    } else if starts_with(t, "js="@) {
        Ok(SpecTag::EscapedOutputJs { ident: trim(skip(t, 3)) })
    } else if starts_with(t, "url="@) {
        Ok(SpecTag::EscapedOutputUrl { ident: trim(skip(t, 4)) })
    } else if starts_with(t, "="@) {
        Ok(SpecTag::RawOutput { ident: trim(skip(t, 1)) })
    } else if t == "if"@ || starts_with(t, "if "@) {
        Ok(SpecTag::If { expr: brace_arg(t, "if"@.len()) })
    } else if t == "for"@ || starts_with(t, "for "@) {
        match for_parts(t) {
            Some((item, iterable)) => Ok(SpecTag::For { item, iterable }),
            None => Err(SpecClassifyError::MalformedFor { line }),
        }
    } else if t == "let"@ || starts_with(t, "let "@) {
        match let_ident(t) {
            Some(ident) => Ok(SpecTag::Let { ident, body: t }),
            None => Err(SpecClassifyError::MalformedLet { line }),
        }
    } else {
        Err(SpecClassifyError::Unrecognized { line, tag: t })
    }
}

/// Classification of the content of a tag opened by `delimiter` at line
/// `line`.
pub open spec fn spec_classify(content: Seq<char>, delimiter: DelimiterType, line: nat) -> Result<
    SpecTag,
    SpecClassifyError,
> {
    if delimiter == DelimiterType::Comment {
        Ok(SpecTag::Comment)
    } else {
        classify_trimmed(trim(content), line)
    }
}


/// Bounds of `else_if_expr(cs[lo..hi])`.
fn else_if_bounds(cs: &Vec<char>, lo: usize, hi: usize) -> (r: (usize, usize))
    requires
        lo <= hi <= cs@.len(),
    ensures
        r.0 <= r.1 <= cs@.len(),
        cs@.subrange(r.0 as int, r.1 as int) == else_if_expr(cs@.subrange(lo as int, hi as int)),
{
    let a0 = skip_char(cs, lo, hi, '}');
    let mut a = skip_whitespace(cs, a0, hi);
    proof {
        reveal_strlit("else if");
    }
    if starts_with_at(cs, a, hi, "else if") {
        assert(skip(cs@.subrange(a as int, hi as int), 7) =~= cs@.subrange(a + 7, hi as int));
        a = skip_whitespace(cs, a + 7, hi);
    }
    let b = if a < hi && cs[hi - 1] == '{' {
        hi - 1
    } else {
        hi
    };
    assert(cs@.subrange(a as int, b as int) =~= drop_suffix_char(
        cs@.subrange(a as int, hi as int),
        '{',
    ));
    trim_bounds(cs, a, b)
}

/// Bounds of `path_arg(cs[lo..hi], klen)`.
fn path_bounds(cs: &Vec<char>, lo: usize, hi: usize, klen: usize) -> (r: (usize, usize))
    requires
        lo <= hi <= cs@.len(),
        klen <= hi - lo,
    ensures
        r.0 <= r.1 <= cs@.len(),
        cs@.subrange(r.0 as int, r.1 as int) == path_arg(
            cs@.subrange(lo as int, hi as int),
            klen as nat,
        ),
{
    assert(skip(cs@.subrange(lo as int, hi as int), klen as nat) =~= cs@.subrange(
        lo + klen,
        hi as int,
    ));
    let (a, b) = trim_bounds(cs, lo + klen, hi);
    let a1 = skip_char(cs, a, b, '"');
    let b1 = skip_char_back(cs, a1, b, '"');
    let a2 = skip_char(cs, a1, b1, '\'');
    let b2 = skip_char_back(cs, a2, b1, '\'');
    (a2, b2)
}

/// Bounds of `brace_arg(cs[lo..hi], klen)`.
fn brace_bounds(cs: &Vec<char>, lo: usize, hi: usize, klen: usize) -> (r: (usize, usize))
    requires
        lo <= hi <= cs@.len(),
        klen <= hi - lo,
    ensures
        r.0 <= r.1 <= cs@.len(),
        cs@.subrange(r.0 as int, r.1 as int) == brace_arg(
            cs@.subrange(lo as int, hi as int),
            klen as nat,
        ),
{
    assert(skip(cs@.subrange(lo as int, hi as int), klen as nat) =~= cs@.subrange(
        lo + klen,
        hi as int,
    ));
    let (a, b) = trim_bounds(cs, lo + klen, hi);
    let b1 = if a < b && cs[b - 1] == '{' {
        b - 1
    } else {
        b
    };
    assert(cs@.subrange(a as int, b1 as int) =~= drop_suffix_char(
        cs@.subrange(a as int, b as int),
        '{',
    ));
    trim_bounds(cs, a, b1)
}

/// Position in `cs` of the first keyword `in` of `cs[x..y]`, searched from
/// its second character.
fn find_in(cs: &Vec<char>, x: usize, y: usize) -> (r: Option<usize>)
    requires
        x <= y <= cs@.len(),
    ensures
        match r {
            Some(p) => x <= p && find_in_keyword(cs@.subrange(x as int, y as int), 1) == Some(
                p - x,
            ),
            None => find_in_keyword(cs@.subrange(x as int, y as int), 1) is None,
        },
{
    let ghost rest = cs@.subrange(x as int, y as int);
    if y - x <= 3 {
        return None;
    }
    let mut i: usize = x + 1;
    while i < y - 2
        invariant
            x + 3 < y <= cs@.len(),
            x + 1 <= i <= y - 2,
            rest == cs@.subrange(x as int, y as int),
            find_in_keyword(rest, 1) == find_in_keyword(rest, i - x),
        decreases y - i,
    {
        if cs[i] == 'i' && cs[i + 1] == 'n' && ascii_whitespace(cs[i - 1]) && ascii_whitespace(
            cs[i + 2],
        ) {
            return Some(i);
        }
        i += 1;
    }
    None
}

/// Bounds of item and iterable of `for_parts(cs[lo..hi])`.
fn for_bounds(cs: &Vec<char>, lo: usize, hi: usize) -> (r: Option<((usize, usize), (usize, usize))>)
    requires
        lo <= hi <= cs@.len(),
        3 <= hi - lo,
    ensures
        match r {
            Some(((a, b), (c, d))) => {
                &&& a <= b <= cs@.len()
                &&& c <= d <= cs@.len()
                &&& for_parts(cs@.subrange(lo as int, hi as int)) == Some(
                    (cs@.subrange(a as int, b as int), cs@.subrange(c as int, d as int)),
                )
            },
            None => for_parts(cs@.subrange(lo as int, hi as int)) is None,
        },
{
    proof {
        reveal_strlit("for");
    }
    let (x, y) = brace_bounds(cs, lo, hi, 3);
    let ghost rest = cs@.subrange(x as int, y as int);
    assert(rest == brace_arg(cs@.subrange(lo as int, hi as int), 3));
    proof {
        lemma_find_in_keyword(rest, 1);
    }
    match find_in(cs, x, y) {
        None => None,
        Some(p) => {
            let ghost pos = p - x;
            assert(rest.subrange(0, pos) =~= cs@.subrange(x as int, p as int));
            assert(skip(rest, (pos + 2) as nat) =~= cs@.subrange(p + 2, y as int));
            let (a, b) = trim_bounds(cs, x, p);
            let (c, d) = trim_bounds(cs, p + 2, y);
            if a < b && c < d {
                Some(((a, b), (c, d)))
            } else {
                None
            }
        },
    }
}

/// Bounds of `let_ident(cs[lo..hi])`.
fn let_bounds(cs: &Vec<char>, lo: usize, hi: usize) -> (r: Option<(usize, usize)>)
    requires
        lo <= hi <= cs@.len(),
        3 <= hi - lo,
    ensures
        match r {
            Some((a, b)) => {
                &&& a <= b <= cs@.len()
                &&& let_ident(cs@.subrange(lo as int, hi as int)) == Some(
                    cs@.subrange(a as int, b as int),
                )
            },
            None => let_ident(cs@.subrange(lo as int, hi as int)) is None,
        },
{
    proof {
        reveal_strlit("let");
    }
    assert(skip(cs@.subrange(lo as int, hi as int), 3) =~= cs@.subrange(lo + 3, hi as int));
    let (x, y) = trim_bounds(cs, lo + 3, hi);
    let ghost rest = cs@.subrange(x as int, y as int);
    let mut i = x;
    while i < y && cs[i] != '='
        invariant
            x <= i <= y <= cs@.len(),
            rest == cs@.subrange(x as int, y as int),
            forall|j: int| 0 <= j < i - x ==> rest[j] != '=',
        decreases y - i,
    {
        i += 1;
    }
    proof {
        lemma_find_char_is(rest, '=', i - x);
    }
    if i < y {
        assert(rest.subrange(0, i - x) =~= cs@.subrange(x as int, i as int));
        Some(trim_bounds(cs, x, i))
    } else {
        None
    }
}

/// Classifies the content of a `Tagged` token opened by `delimiter` at
/// line `line`. The content must follow the syntax of one of the rules:
/// the build fails on any other content (a `for` without ` in `, a `let`
/// without `=`, unrecognized content), and `try_classify` says which.
pub fn classify<'a>(content: &'a str, delimiter: DelimiterType, line: usize) -> (r: ClassifiedTag<'a>)
    requires
        spec_classify(content@, delimiter, line as nat) is Ok,
    ensures
        spec_classify(content@, delimiter, line as nat) == Ok::<SpecTag, SpecClassifyError>(r@),
{
    match try_classify(content, delimiter, line) {
        Ok(tag) => tag,
        Err(_) => ClassifiedTag::Comment,
    }
}

/// Classifies the content of a `Tagged` token opened by `delimiter` at
/// line `line`, or says why its syntax is not recognized: a `for` without
/// ` in `, a `let` without `=`, or content that matches no rule.
pub fn try_classify<'a>(content: &'a str, delimiter: DelimiterType, line: usize) -> (r: Result<
    ClassifiedTag<'a>,
    ClassifyError<'a>,
>)
    ensures
        classify_result_view(r) == spec_classify(content@, delimiter, line as nat),
{
    if delimiter == DelimiterType::Comment {
        return Ok(ClassifiedTag::Comment);
    }
    let cs = chars_of(content);
    let (lo, hi) = trim_bounds(&cs, 0, cs.len());
    assert(cs@.subrange(0, cs@.len() as int) =~= cs@);
    let ghost t = cs@.subrange(lo as int, hi as int);
    assert(t == trim(content@));
    proof {
        reveal_strlit("extends");
        reveal_strlit("include");
        reveal_strlit("block");
        reveal_strlit("if");
        reveal_strlit("for");
        reveal_strlit("let");
        reveal_strlit("extends ");
        reveal_strlit("include ");
        reveal_strlit("block ");
        reveal_strlit("if ");
        reveal_strlit("for ");
        reveal_strlit("let ");
        reveal_strlit("%=");
        reveal_strlit("js=");
        reveal_strlit("url=");
        reveal_strlit("=");
    }
    if equals_at(&cs, lo, hi, "else") || equals_at(&cs, lo, hi, "} else {") || equals_at(
        &cs,
        lo,
        hi,
        "else {",
    ) {
        return Ok(ClassifiedTag::Else);
    }
    if starts_with_at(&cs, lo, hi, "else if") || starts_with_at(&cs, lo, hi, "} else if") {
        let (a, b) = else_if_bounds(&cs, lo, hi);
        return Ok(ClassifiedTag::ElseIf { expr: content.substring_char(a, b) });
    }
    if starts_with_at(&cs, lo, hi, "extends ") {
        let (a, b) = path_bounds(&cs, lo, hi, 7);
        return Ok(ClassifiedTag::Extends { path: content.substring_char(a, b) });
    }
    if starts_with_at(&cs, lo, hi, "include ") {
        let (a, b) = path_bounds(&cs, lo, hi, 7);
        return Ok(ClassifiedTag::Include { path: content.substring_char(a, b) });
    }
    if starts_with_at(&cs, lo, hi, "block ") {
        let (a, b) = brace_bounds(&cs, lo, hi, 5);
        return Ok(ClassifiedTag::Block { name: content.substring_char(a, b) });
    }
    if equals_at(&cs, lo, hi, "endblock") {
        return Ok(ClassifiedTag::EndBlock);
    }
    if equals_at(&cs, lo, hi, "}") {
        return Ok(ClassifiedTag::GenericClose);
    }
    if equals_at(&cs, lo, hi, "endif") {
        return Ok(ClassifiedTag::EndIf);
    }
    if equals_at(&cs, lo, hi, "endfor") {
        return Ok(ClassifiedTag::EndFor);
    }
    if starts_with_at(&cs, lo, hi, "%=") {
        assert(skip(t, 2) =~= cs@.subrange(lo + 2, hi as int));
        let (a, b) = trim_bounds(&cs, lo + 2, hi);
        return Ok(ClassifiedTag::EscapedOutput { ident: content.substring_char(a, b) });
    }
    if starts_with_at(&cs, lo, hi, "js=") {
        assert(skip(t, 3) =~= cs@.subrange(lo + 3, hi as int));
        let (a, b) = trim_bounds(&cs, lo + 3, hi);
        return Ok(ClassifiedTag::EscapedOutputJs { ident: content.substring_char(a, b) });
    }
    if starts_with_at(&cs, lo, hi, "url=") {
        assert(skip(t, 4) =~= cs@.subrange(lo + 4, hi as int));
        let (a, b) = trim_bounds(&cs, lo + 4, hi);
        return Ok(ClassifiedTag::EscapedOutputUrl { ident: content.substring_char(a, b) });
    }
    if starts_with_at(&cs, lo, hi, "=") {
        assert(skip(t, 1) =~= cs@.subrange(lo + 1, hi as int));
        let (a, b) = trim_bounds(&cs, lo + 1, hi);
        return Ok(ClassifiedTag::RawOutput { ident: content.substring_char(a, b) });
    }
    if equals_at(&cs, lo, hi, "if") || starts_with_at(&cs, lo, hi, "if ") {
        let (a, b) = brace_bounds(&cs, lo, hi, 2);
        return Ok(ClassifiedTag::If { expr: content.substring_char(a, b) });
    }
    if equals_at(&cs, lo, hi, "for") || starts_with_at(&cs, lo, hi, "for ") {
        return match for_bounds(&cs, lo, hi) {
            Some(((a, b), (c, d))) => Ok(
                ClassifiedTag::For {
                    item: content.substring_char(a, b),
                    iterable: content.substring_char(c, d),
                },
            ),
            None => Err(ClassifyError::MalformedFor { line }),
        };
    }
    if equals_at(&cs, lo, hi, "let") || starts_with_at(&cs, lo, hi, "let ") {
        return match let_bounds(&cs, lo, hi) {
            Some((a, b)) => Ok(
                ClassifiedTag::Let {
                    ident: content.substring_char(a, b),
                    body: content.substring_char(lo, hi),
                },
            ),
            None => Err(ClassifyError::MalformedLet { line }),
        };
    }
    Err(ClassifyError::Unrecognized { line, tag: content.substring_char(lo, hi) })
}


/// Every tag of `ts` can be classified.
pub open spec fn all_tags_classify(ts: Seq<SpecToken>) -> bool {
    forall|i: int|
        0 <= i < ts.len() ==> match #[trigger] ts[i] {
            SpecToken::Tagged { content, line, delimiter, .. } => spec_classify(
                content,
                delimiter,
                line,
            ) is Ok,
            _ => true,
        }
}

/// The classification of a token opened by `{%`, if it is one and it
/// classifies.
pub open spec fn instruction_tag(t: SpecToken) -> Option<SpecTag> {
    match t {
        SpecToken::Tagged { content, line, delimiter: DelimiterType::Instruction, .. } => match spec_classify(
            content,
            DelimiterType::Instruction,
            line,
        ) {
            Ok(tag) => Some(tag),
            Err(_) => None,
        },
        _ => None,
    }
}


/// The first tag of `ts` that cannot be classified: the error its
/// classification gives.
pub open spec fn first_classify_error(ts: Seq<SpecToken>) -> Option<SpecClassifyError>
    decreases ts.len(),
{
    if ts.len() == 0 {
        None
    } else {
        match ts[0] {
            SpecToken::Tagged { content, line, delimiter, .. } => match spec_classify(
                content,
                delimiter,
                line,
            ) {
                Err(e) => Some(e),
                Ok(_) => first_classify_error(ts.drop_first()),
            },
            _ => first_classify_error(ts.drop_first()),
        }
    }
}

proof fn lemma_first_classify_error(ts: Seq<SpecToken>)
    ensures
        first_classify_error(ts) is None <==> all_tags_classify(ts),
    decreases ts.len(),
{
    if ts.len() > 0 {
        lemma_first_classify_error(ts.drop_first());
        if all_tags_classify(ts) {
            assert forall|i: int| 0 <= i < ts.drop_first().len() implies match #[trigger] ts.drop_first()[i] {
                SpecToken::Tagged { content, line, delimiter, .. } => spec_classify(
                    content,
                    delimiter,
                    line,
                ) is Ok,
                _ => true,
            } by {
                assert(ts.drop_first()[i] == ts[i + 1]);
            }
        }
        if first_classify_error(ts) is None {
            assert forall|i: int| 0 <= i < ts.len() implies match #[trigger] ts[i] {
                SpecToken::Tagged { content, line, delimiter, .. } => spec_classify(
                    content,
                    delimiter,
                    line,
                ) is Ok,
                _ => true,
            } by {
                if i > 0 {
                    assert(ts[i] == ts.drop_first()[i - 1]);
                }
            }
        }
    }
}

/// Checks that every tag of `tokens` classifies; otherwise the error of
/// the first one that does not.
pub fn check_tags_classify<'a>(tokens: &[Token<'a>]) -> (r: Result<(), ClassifyError<'a>>)
    ensures
        r is Ok <==> all_tags_classify(tokens_view(tokens@)),
        match r {
            Ok(_) => first_classify_error(tokens_view(tokens@)) is None,
            Err(e) => first_classify_error(tokens_view(tokens@)) == Some(e@),
        },
{
    let ghost ts = tokens_view(tokens@);
    let n = tokens.len();
    let mut i: usize = 0;
    proof {
        lemma_first_classify_error(ts);
    }
    assert(ts.subrange(0, n as int) =~= ts);
    while i < n
        invariant
            n == tokens@.len() == ts.len(),
            ts == tokens_view(tokens@),
            i <= n,
            first_classify_error(ts) == first_classify_error(ts.subrange(i as int, n as int)),
            first_classify_error(ts) is None <==> all_tags_classify(ts),
        decreases n - i,
    {
        let tok = tokens[i];
        let ghost rest = ts.subrange(i as int, n as int);
        assert(rest[0] == tok@);
        assert(rest.drop_first() =~= ts.subrange(i + 1, n as int));
        if let Token::Tagged { content, line, delimiter, .. } = tok {
            if let Err(e) = try_classify(content, delimiter, line) {
                return Err(e);
            }
        }
        i += 1;
    }
    Ok(())
}

proof fn lemma_not_starts(t: Seq<char>, p: Seq<char>, k: int)
    requires
        0 <= k < p.len(),
        k < t.len(),
        t[k] != p[k],
    ensures
        !starts_with(t, p),
        t != p,
{
    if starts_with(t, p) {
        assert(t.subrange(0, p.len() as int)[k] == t[k]);
    }
}

proof fn lemma_trim_keeps(s: Seq<char>)
    requires
        s.len() > 0,
        !is_whitespace(s[0]),
        !is_whitespace(s.last()),
    ensures
        trim(s) == s,
{
}

/// `if` tags of the keyword and of the brace form: `if e`, and `if e {` of
/// `{% if e { %} ... {% } %}`.
pub open spec fn if_keyword_form(e: Seq<char>) -> Seq<char> {
    seq!['i', 'f', ' '] + e
}

pub open spec fn if_brace_form(e: Seq<char>) -> Seq<char> {
    seq!['i', 'f', ' '] + e + seq![' ', '{']
}

/// The brace form of an `if` gives the same tag as the keyword form: the
/// expression `e` of `if e {` never keeps the opening brace, so the
/// generated condition opens exactly one brace whichever form the template
/// uses. (`e` is any expression without surrounding whitespace that does
/// not itself end with `{`.)
pub proof fn law_if_brace_form_is_keyword_form(e: Seq<char>, line: nat)
    requires
        e.len() > 0,
        !is_whitespace(e[0]),
        !is_whitespace(e.last()),
        e.last() != '{',
    ensures
        spec_classify(if_brace_form(e), DelimiterType::Instruction, line) == Ok::<
            SpecTag,
            SpecClassifyError,
        >(SpecTag::If { expr: e }),
        spec_classify(if_keyword_form(e), DelimiterType::Instruction, line) == Ok::<
            SpecTag,
            SpecClassifyError,
        >(SpecTag::If { expr: e }),
{
    reveal_strlit("else");
    reveal_strlit("} else {");
    reveal_strlit("else {");
    reveal_strlit("else if");
    reveal_strlit("} else if");
    reveal_strlit("extends ");
    reveal_strlit("include ");
    reveal_strlit("block ");
    reveal_strlit("endblock");
    reveal_strlit("}");
    reveal_strlit("endif");
    reveal_strlit("endfor");
    reveal_strlit("%=");
    reveal_strlit("js=");
    reveal_strlit("url=");
    reveal_strlit("=");
    reveal_strlit("if");
    reveal_strlit("if ");
    let t1 = if_brace_form(e);
    let t2 = if_keyword_form(e);
    assert(t1.last() == '{');
    assert(t2.last() == e.last());
    lemma_trim_keeps(t1);
    lemma_trim_keeps(t2);
    let ts = seq![t1, t2];
    assert forall|k: int| 0 <= k < 2 implies {
        let t = #[trigger] ts[k];
        &&& t[0] == 'i' && t[1] == 'f' && t[2] == ' ' && t.len() >= 4
        &&& !(t == "else"@ || t == "} else {"@ || t == "else {"@)
        &&& !(starts_with(t, "else if"@) || starts_with(t, "} else if"@))
        &&& !starts_with(t, "extends "@) && !starts_with(t, "include "@)
        &&& !starts_with(t, "block "@) && t != "endblock"@ && t != "}"@
        &&& t != "endif"@ && t != "endfor"@
        &&& !starts_with(t, "%="@) && !starts_with(t, "js="@) && !starts_with(t, "url="@)
        &&& !starts_with(t, "="@) && t != "if"@ && starts_with(t, "if "@)
    } by {
        let t = ts[k];
        assert(t[0] == 'i' && t[1] == 'f' && t[2] == ' ');
        lemma_not_starts(t, "else"@, 0);
        lemma_not_starts(t, "} else {"@, 0);
        lemma_not_starts(t, "else {"@, 0);
        lemma_not_starts(t, "else if"@, 0);
        lemma_not_starts(t, "} else if"@, 0);
        lemma_not_starts(t, "extends "@, 0);
        lemma_not_starts(t, "include "@, 1);
        lemma_not_starts(t, "block "@, 0);
        lemma_not_starts(t, "endblock"@, 0);
        lemma_not_starts(t, "}"@, 0);
        lemma_not_starts(t, "endif"@, 0);
        lemma_not_starts(t, "endfor"@, 0);
        lemma_not_starts(t, "%="@, 0);
        lemma_not_starts(t, "js="@, 0);
        lemma_not_starts(t, "url="@, 0);
        lemma_not_starts(t, "="@, 0);
        assert(t.subrange(0, 3) =~= "if "@);
    }
    assert(ts[0] == t1);
    assert(ts[1] == t2);
    // brace form: skip "if", trim, drop the brace, trim again
    let r1 = skip(t1, 2);
    assert(r1 =~= seq![' '] + (e + seq![' ', '{']));
    assert((seq![' '] + (e + seq![' ', '{'])).drop_first() =~= e + seq![' ', '{']);
    assert(trim_start(e + seq![' ', '{']) == e + seq![' ', '{']) by {
        assert((e + seq![' ', '{'])[0] == e[0]);
    }
    assert(trim_start(r1) == e + seq![' ', '{']);
    assert(trim(r1) == e + seq![' ', '{']);
    let d = drop_suffix_char(trim(r1), '{');
    assert(d =~= e + seq![' ']);
    assert(trim_start(d) == d) by {
        assert(d[0] == e[0]);
    }
    assert(d.drop_last() =~= e);
    assert(trim_end(d) == trim_end(e));
    assert(trim_end(e) == e);
    assert(trim_start(e) == e);
    assert(brace_arg(t1, 2) == e);
    // keyword form
    let r2 = skip(t2, 2);
    assert(r2 =~= seq![' '] + e);
    assert(r2.drop_first() =~= e);
    assert(trim(r2) == e);
    assert(drop_suffix_char(e, '{') == e);
    assert(brace_arg(t2, 2) == e);
}

} // verus!
