//! Decisions of the workspace compiler: template inheritance (`extends`
//! and `block`), inclusion bookkeeping, the checks on template paths, the
//! limits on what a build reads, and the names of generated macros. The
//! reading of files and the recursion through them stand outside, driven
//! by these functions.

use vstd::prelude::*;
use crate::build_logic::classifier::{
    all_tags_classify, try_classify, instruction_tag, ClassifiedTag, SpecTag,
};
use crate::build_logic::generator::{generate, spec_generate, static_bytes, static_size};
use crate::build_logic::tokenizer::{tokens_view, DelimiterType, SpecToken, Token};
use crate::build_logic::truncation::{apply_truncation, spec_truncate};
use crate::build_logic::validator::{
    law_truncation_preserves_validation, law_validated_tags_classify, spec_validate,
    check_pairing, validation_message, SpecValidationError, ValidationError,
};
use crate::text::{chars_of, decimal, push_char, push_decimal, trim_char};

verus! {

/// Deepest chain of `extends`, or of `include`, that a build follows.
pub const MAX_DEPTH: usize = 10;

/// A chain of `extends`, or of `include`, may be followed at `depth` (0 for
/// the template being built) only up to `MAX_DEPTH`; deeper, the build
/// fails.
pub fn depth_allowed(depth: usize) -> (r: bool)
    ensures
        r == (depth <= MAX_DEPTH),
{
    depth <= MAX_DEPTH
}

/// The classification of a token opened by `{%`, when it classifies.
fn instruction_classify<'a>(tok: Token<'a>) -> (r: Option<ClassifiedTag<'a>>)
    ensures
        match r {
            Some(t) => instruction_tag(tok@) == Some(t@),
            None => instruction_tag(tok@) is None,
        },
{
    match tok {
        Token::Tagged { content, line, delimiter, .. } => {
            if delimiter == DelimiterType::Instruction {
                match try_classify(content, DelimiterType::Instruction, line) {
                    Ok(t) => Some(t),
                    Err(_) => None,
                }
            } else {
                None
            }
        },
        Token::Static { .. } => None,
    }
}

/// The path and line of `tok` when it is an `{% include %}` tag.
pub fn include_target<'a>(tok: Token<'a>) -> (r: Option<(&'a str, usize)>)
    ensures
        match r {
            Some((p, l)) => {
                &&& instruction_tag(tok@) == Some(SpecTag::Include { path: p@ })
                &&& tok@ matches SpecToken::Tagged { line, .. } && line == l
            },
            None => !(instruction_tag(tok@) matches Some(SpecTag::Include { .. })),
        },
{
    if let Some(ClassifiedTag::Include { path }) = instruction_classify(tok) {
        if let Token::Tagged { line, .. } = tok {
            return Some((path, line));
        }
    }
    None
}

/// `t` with its delimiter turned into a comment; static text unchanged.
pub open spec fn as_comment(t: SpecToken) -> SpecToken {
    match t {
        SpecToken::Tagged { content, line, trim_left, trim_right, .. } => SpecToken::Tagged {
            content,
            line,
            delimiter: DelimiterType::Comment,
            trim_left,
            trim_right,
        },
        _ => t,
    }
}

/// The token `tok` turned into a comment: it then generates no code.
pub fn comment_out<'a>(tok: Token<'a>) -> (r: Token<'a>)
    ensures
        r@ == as_comment(tok@),
{
    match tok {
        Token::Tagged { content, line, trim_left, trim_right, .. } => Token::Tagged {
            content,
            line,
            delimiter: DelimiterType::Comment,
            trim_left,
            trim_right,
        },
        Token::Static { .. } => tok,
    }
}

/// `t` is an `{% include %}` tag.
pub open spec fn is_include(t: SpecToken) -> bool {
    instruction_tag(t) matches Some(SpecTag::Include { .. })
}

/// Number of `{% include %}` tags in `ts`.
pub open spec fn include_count(ts: Seq<SpecToken>) -> nat
    decreases ts.len(),
{
    if ts.len() == 0 {
        0
    } else {
        include_count(ts.drop_last()) + if is_include(ts.last()) {
            1nat
        } else {
            0nat
        }
    }
}

/// The tokens `ts` with each `{% include %}` tag turned into a comment and
/// followed by the tokens of the template it names: the `k`-th include
/// tag by `exps[k]`.
pub open spec fn splice_run(ts: Seq<SpecToken>, exps: Seq<Seq<SpecToken>>) -> Seq<SpecToken>
    decreases ts.len(),
{
    if ts.len() == 0 {
        Seq::empty()
    } else {
        let init = splice_run(ts.drop_last(), exps);
        if is_include(ts.last()) {
            init.push(as_comment(ts.last())) + exps[include_count(ts.drop_last()) as int]
        } else {
            init.push(ts.last())
        }
    }
}

/// The values of lists of tokens.
pub open spec fn expansions_view<'a>(e: Seq<Vec<Token<'a>>>) -> Seq<Seq<SpecToken>> {
    e.map_values(|v: Vec<Token<'a>>| tokens_view(v@))
}

proof fn lemma_include_count_prefix(ts: Seq<SpecToken>, k: int)
    requires
        0 <= k <= ts.len(),
    ensures
        include_count(ts.take(k)) <= include_count(ts),
        k < ts.len() && is_include(ts[k]) ==> include_count(ts.take(k)) + 1 <= include_count(ts),
    decreases ts.len() - k,
{
    if k < ts.len() {
        lemma_include_count_prefix(ts, k + 1);
        assert(ts.take(k + 1).drop_last() =~= ts.take(k));
        assert(ts.take(k + 1).last() == ts[k]);
    } else {
        assert(ts.take(k) =~= ts);
    }
}

/// Expands the `{% include %}` tags of `tokens`: each becomes a comment
/// followed by the tokens of the included template, the `k`-th include tag
/// by `expansions[k]` (already read and expanded by the caller).
pub fn splice_includes<'a>(tokens: &Vec<Token<'a>>, expansions: &Vec<Vec<Token<'a>>>) -> (r: Vec<
    Token<'a>,
>)
    requires
        include_count(tokens_view(tokens@)) == expansions@.len(),
    ensures
        tokens_view(r@) == splice_run(tokens_view(tokens@), expansions_view(expansions@)),
{
    let ghost ts = tokens_view(tokens@);
    let ghost es = expansions_view(expansions@);
    let mut out: Vec<Token<'a>> = Vec::new();
    let mut j: usize = 0;
    let n = tokens.len();
    let m = expansions.len();
    let mut i: usize = 0;
    assert(ts.take(0) =~= Seq::<SpecToken>::empty());
    assert(tokens_view(out@) =~= Seq::<SpecToken>::empty());
    while i < n
        invariant
            n == tokens@.len() == ts.len(),
            m == expansions@.len(),
            ts == tokens_view(tokens@),
            es == expansions_view(expansions@),
            include_count(ts) == expansions@.len(),
            i <= n,
            j == include_count(ts.take(i as int)),
            tokens_view(out@) == splice_run(ts.take(i as int), es),
        decreases n - i,
    {
        let tok = tokens[i];
        proof {
            assert(ts.take(i + 1).drop_last() =~= ts.take(i as int));
            assert(ts[i as int] == tok@);
            lemma_include_count_prefix(ts, i as int);
        }
        let ghost before = tokens_view(out@);
        match include_target(tok) {
            Some(_) => {
                assert(is_include(tok@));
                assert(j < m);
                out.push(comment_out(tok));
                assert(tokens_view(out@) =~= before.push(as_comment(tok@)));
                let ghost base = tokens_view(out@);
                let exp = &expansions[j];
                let mut q: usize = 0;
                assert(exp@.take(0) =~= Seq::<Token<'a>>::empty());
                assert(base + tokens_view(exp@.take(0)) =~= base);
                while q < exp.len()
                    invariant
                        q <= exp@.len(),
                        tokens_view(out@) == base + tokens_view(exp@.take(q as int)),
                    decreases exp@.len() - q,
                {
                    let t = exp[q];
                    let ghost ov = tokens_view(out@);
                    out.push(t);
                    assert(tokens_view(out@) =~= ov.push(t@));
                    assert(exp@.take(q + 1) =~= exp@.take(q as int).push(t));
                    assert(tokens_view(exp@.take(q + 1)) =~= tokens_view(exp@.take(q as int)).push(
                        t@,
                    ));
                    assert(tokens_view(out@) =~= base + tokens_view(exp@.take(q + 1)));
                    q += 1;
                }
                assert(exp@.take(exp@.len() as int) =~= exp@);
                assert(es[j as int] == tokens_view(exp@));
                j += 1;
            },
            None => {
                out.push(tok);
                assert(tokens_view(out@) =~= before.push(tok@));
            },
        }
        i += 1;
    }
    assert(ts.take(n as int) =~= ts);
    out
}

/// Effect of a token on the stack of open blocks kept while stripping
/// (`true` for a `block`, `false` for an `if` or a `for`), and whether the
/// token is turned into a comment: `block` tags, the closing tag
/// (`endblock`, `endif`, `endfor` or `}`) that closes them, and `extends`
/// tags.
pub open spec fn strip_step(stack: Seq<bool>, t: SpecToken) -> (Seq<bool>, bool) {
    match instruction_tag(t) {
        Some(SpecTag::Block { .. }) => (stack.push(true), true),
        Some(SpecTag::If { .. }) => (stack.push(false), false),
        Some(SpecTag::For { .. }) => (stack.push(false), false),
        Some(SpecTag::EndBlock) | Some(SpecTag::EndIf) | Some(SpecTag::EndFor) | Some(
            SpecTag::GenericClose,
        ) => if stack.len() > 0 {
            (stack.drop_last(), stack.last())
        } else {
            (stack, false)
        },
        Some(SpecTag::Extends { .. }) => (stack, true),
        _ => (stack, false),
    }
}

/// Tokens and stack after stripping the tokens `ts`.
pub open spec fn strip_run(ts: Seq<SpecToken>) -> (Seq<SpecToken>, Seq<bool>)
    decreases ts.len(),
{
    if ts.len() == 0 {
        (Seq::empty(), Seq::empty())
    } else {
        let (out, stack) = strip_run(ts.drop_last());
        let (next, skip) = strip_step(stack, ts.last());
        (out.push(if skip { as_comment(ts.last()) } else { ts.last() }), next)
    }
}

/// Turns the `block` / `endblock` markers and the `extends` tag of a
/// template into comments, keeping every other token.
pub fn strip_template_blocks<'a>(tokens: Vec<Token<'a>>) -> (r: Vec<Token<'a>>)
    requires
        all_tags_classify(tokens_view(tokens@)),
    ensures
        tokens_view(r@) == strip_run(tokens_view(tokens@)).0,
{
    let ghost ts = tokens_view(tokens@);
    let mut clean: Vec<Token<'a>> = Vec::new();
    let mut block_stack: Vec<bool> = Vec::new();
    let n = tokens.len();
    let mut i: usize = 0;
    assert(ts.take(0) =~= Seq::<SpecToken>::empty());
    assert(tokens_view(clean@) =~= Seq::<SpecToken>::empty());
    while i < n
        invariant
            n == tokens@.len() == ts.len(),
            ts == tokens_view(tokens@),
            i <= n,
            tokens_view(clean@) == strip_run(ts.take(i as int)).0,
            block_stack@ == strip_run(ts.take(i as int)).1,
        decreases n - i,
    {
        let tok = tokens[i];
        proof {
            assert(ts.take(i + 1).drop_last() =~= ts.take(i as int));
            assert(ts[i as int] == tok@);
        }
        let ghost old_clean = tokens_view(clean@);
        let mut skip = false;
        match instruction_classify(tok) {
            Some(ClassifiedTag::Block { .. }) => {
                block_stack.push(true);
                skip = true;
            },
            Some(ClassifiedTag::If { .. }) | Some(ClassifiedTag::For { .. }) => {
                block_stack.push(false);
            },
            Some(ClassifiedTag::EndBlock) | Some(ClassifiedTag::EndIf) | Some(
                ClassifiedTag::EndFor,
            ) | Some(ClassifiedTag::GenericClose) => {
                if let Some(b) = block_stack.pop() {
                    skip = b;
                }
            },
            Some(ClassifiedTag::Extends { .. }) => {
                skip = true;
            },
            _ => {},
        }
        if skip {
            clean.push(comment_out(tok));
        } else {
            clean.push(tok);
        }
        assert(tokens_view(clean@) =~= old_clean.push(tokens_view(clean@).last()));
        i += 1;
    }
    assert(ts.take(n as int) =~= ts);
    clean
}

/// The first `extends` tag of `ts`: its path and line.
pub open spec fn first_extends(ts: Seq<SpecToken>) -> Option<(Seq<char>, nat)>
    decreases ts.len(),
{
    if ts.len() == 0 {
        None
    } else {
        match instruction_tag(ts[0]) {
            Some(SpecTag::Extends { path }) => Some((path, ts[0]->Tagged_line)),
            _ => first_extends(ts.drop_first()),
        }
    }
}

/// The path and line of the first `{% extends %}` tag, if any.
pub fn find_extends<'a>(tokens: &Vec<Token<'a>>) -> (r: Option<(&'a str, usize)>)
    ensures
        match r {
            Some((p, l)) => first_extends(tokens_view(tokens@)) == Some((p@, l as nat)),
            None => first_extends(tokens_view(tokens@)) is None,
        },
{
    let ghost ts = tokens_view(tokens@);
    let n = tokens.len();
    let mut i: usize = 0;
    assert(ts.subrange(0, n as int) =~= ts);
    while i < n
        invariant
            n == tokens@.len() == ts.len(),
            ts == tokens_view(tokens@),
            i <= n,
            first_extends(ts) == first_extends(ts.subrange(i as int, n as int)),
        decreases n - i,
    {
        let tok = tokens[i];
        let ghost rest = ts.subrange(i as int, n as int);
        assert(rest[0] == tok@);
        assert(rest.drop_first() =~= ts.subrange(i + 1, n as int));
        if let Some(ClassifiedTag::Extends { path }) = instruction_classify(tok) {
            if let Token::Tagged { line, .. } = tok {
                return Some((path, line));
            }
        }
        i += 1;
    }
    None
}

/// The line of the first raw output tag (`{%= %}`) of `ts`.
pub open spec fn first_raw_output(ts: Seq<SpecToken>) -> Option<nat>
    decreases ts.len(),
{
    if ts.len() == 0 {
        None
    } else {
        match ts[0] {
            SpecToken::Tagged { content, line, delimiter, .. } => match crate::build_logic::classifier::spec_classify(
                content,
                delimiter,
                line,
            ) {
                Ok(SpecTag::RawOutput { .. }) => Some(line),
                _ => first_raw_output(ts.drop_first()),
            },
            _ => first_raw_output(ts.drop_first()),
        }
    }
}

/// Strict mode: the line of the first raw output tag (`{%= %}`), which
/// strict mode forbids, if any.
pub fn find_raw_output(tokens: &Vec<Token>) -> (r: Option<usize>)
    requires
        all_tags_classify(tokens_view(tokens@)),
    ensures
        match r {
            Some(l) => first_raw_output(tokens_view(tokens@)) == Some(l as nat),
            None => first_raw_output(tokens_view(tokens@)) is None,
        },
{
    let ghost ts = tokens_view(tokens@);
    let n = tokens.len();
    let mut i: usize = 0;
    assert(ts.subrange(0, n as int) =~= ts);
    while i < n
        invariant
            n == tokens@.len() == ts.len(),
            ts == tokens_view(tokens@),
            i <= n,
            first_raw_output(ts) == first_raw_output(ts.subrange(i as int, n as int)),
        decreases n - i,
    {
        let tok = tokens[i];
        let ghost rest = ts.subrange(i as int, n as int);
        assert(rest[0] == tok@);
        assert(rest.drop_first() =~= ts.subrange(i + 1, n as int));
        if let Token::Tagged { content, line, delimiter, .. } = tok {
            if let Ok(ClassifiedTag::RawOutput { .. }) = try_classify(content, delimiter, line) {
                return Some(line);
            }
        }
        i += 1;
    }
    None
}

/// A character of a file stem as it stands in a macro name: `-` and `.`
/// become `_`.
pub open spec fn name_char(c: char) -> char {
    if c == '-' || c == '.' {
        '_'
    } else {
        c
    }
}

/// Name of the macro generated for a template whose file stem is `stem`:
/// `render_` and the stem with `-` and `.` replaced by `_`.
pub open spec fn spec_function_name(stem: Seq<char>) -> Seq<char> {
    "render_"@ + name_chars(stem)
}

/// The characters of `stem`, each as `name_char` gives it.
pub open spec fn name_chars(stem: Seq<char>) -> Seq<char>
    decreases stem.len(),
{
    if stem.len() == 0 {
        Seq::empty()
    } else {
        name_chars(stem.drop_last()).push(name_char(stem.last()))
    }
}

/// The name of the macro generated for the template file stem `stem`.
pub fn render_function_name(stem: &str) -> (r: String)
    ensures
        r@ == spec_function_name(stem@),
{
    let mut out = String::new();
    out.append("render_");
    let ghost start = out@;
    assert(start + name_chars(stem@.take(0)) =~= start);
    for c in it: stem.chars()
        invariant
            it.seq() == stem@,
            out@ == start + name_chars(it.seq().take(it.index() as int)),
    {
        let ghost k = it.index() as int;
        let ghost before = out@;
        if c == '-' || c == '.' {
            push_char(&mut out, '_');
        } else {
            push_char(&mut out, c);
        }
        assert(stem@.take(k + 1).drop_last() =~= stem@.take(k));
        assert(out@ =~= start + name_chars(stem@.take(k + 1)));
    }
    assert(stem@.take(stem@.len() as int) =~= stem@);
    out
}

/// `a` and `b` hold the same characters.
pub fn str_equal(a: &str, b: &str) -> (r: bool)
    ensures
        r == (a@ == b@),
{
    let x = chars_of(a);
    let y = chars_of(b);
    if x.len() != y.len() {
        return false;
    }
    let mut i: usize = 0;
    while i < x.len()
        invariant
            x@ == a@,
            y@ == b@,
            x@.len() == y@.len(),
            i <= x@.len(),
            forall|j: int| 0 <= j < i ==> x@[j] == y@[j],
        decreases x@.len() - i,
    {
        if x[i] != y[i] {
            return false;
        }
        i += 1;
    }
    assert(x@ =~= y@);
    true
}

/// No macro of `names` is named `name` yet.
pub fn name_is_new(names: &Vec<String>, name: &str) -> (r: bool)
    ensures
        r == forall|k: int| 0 <= k < names@.len() ==> names@[k]@ != name@,
{
    let mut i: usize = 0;
    while i < names.len()
        invariant
            i <= names@.len(),
            forall|k: int| 0 <= k < i ==> names@[k]@ != name@,
        decreases names@.len() - i,
    {
        if str_equal(names[i].as_str(), name) {
            return false;
        }
        i += 1;
    }
    true
}


/// Why a path named by `extends` or `include` is refused before it is
/// looked up.
#[derive(Debug, Clone, Copy, PartialEq, Eq)]
pub enum PathError<'a> {
    /// The path (without its quotes) is absolute.
    Absolute { path: &'a str },
    /// A component of the path (without its quotes) is `..`.
    ParentTraversal { path: &'a str },
}

/// The kind of refusal of a template path, with the path refused.
pub enum SpecPathError {
    Absolute(Seq<char>),
    ParentTraversal(Seq<char>),
}

impl<'a> View for PathError<'a> {
    type V = SpecPathError;

    open spec fn view(&self) -> SpecPathError {
        match *self {
            PathError::Absolute { path } => SpecPathError::Absolute(path@),
            PathError::ParentTraversal { path } => SpecPathError::ParentTraversal(path@),
        }
    }
}

/// A `..` component starts at position `a` of the path `p`.
pub open spec fn parent_component_at(p: Seq<char>, a: int) -> bool {
    &&& 0 <= a
    &&& a + 2 <= p.len()
    &&& p[a] == '.'
    &&& p[a + 1] == '.'
    &&& (a == 0 || p[a - 1] == '/')
    &&& (a + 2 == p.len() || p[a + 2] == '/')
}

/// The path named by a tag, checked: quotes dropped, then refused when
/// absolute (it starts with `/`) or when a component is `..`.
pub open spec fn spec_check_template_path(raw: Seq<char>) -> Result<Seq<char>, SpecPathError> {
    let p = trim_char(trim_char(raw, '"'), '\'');
    if p.len() > 0 && p[0] == '/' {
        Err(SpecPathError::Absolute(p))
    } else if exists|a: int| parent_component_at(p, a) {
        Err(SpecPathError::ParentTraversal(p))
    } else {
        Ok(p)
    }
}

/// Checks a template path named by `extends` or `include` before it is
/// looked up: without its quotes, it must be relative and must not climb
/// out through a `..` component. Returns the path without quotes.
pub fn check_template_path<'a>(raw_path: &'a str) -> (r: Result<&'a str, PathError<'a>>)
    ensures
        match r {
            Ok(p) => spec_check_template_path(raw_path@) == Ok::<Seq<char>, SpecPathError>(p@),
            Err(e) => spec_check_template_path(raw_path@) == Err::<Seq<char>, SpecPathError>(e@),
        },
{
    let cs = chars_of(raw_path);
    let n = cs.len();
    let a1 = crate::text::skip_char(&cs, 0, n, '"');
    let b1 = crate::text::skip_char_back(&cs, a1, n, '"');
    let a2 = crate::text::skip_char(&cs, a1, b1, '\'');
    let b2 = crate::text::skip_char_back(&cs, a2, b1, '\'');
    assert(cs@.subrange(0, n as int) =~= cs@);
    let ghost p = cs@.subrange(a2 as int, b2 as int);
    assert(p == trim_char(trim_char(raw_path@, '"'), '\''));
    if a2 < b2 && cs[a2] == '/' {
        return Err(PathError::Absolute { path: raw_path.substring_char(a2, b2) });
    }
    assert(!(p.len() > 0 && p[0] == '/')) by {
        if p.len() > 0 {
            assert(p[0] == cs@[a2 as int]);
        }
    }
    let mut i = a2;
    while i < b2
        invariant
            a2 <= i <= b2 <= n == cs@.len(),
            cs@ == raw_path@,
            p == cs@.subrange(a2 as int, b2 as int),
            p == trim_char(trim_char(raw_path@, '"'), '\''),
            !(p.len() > 0 && p[0] == '/'),
            forall|a: int| 0 <= a < i - a2 ==> !#[trigger] parent_component_at(p, a),
        decreases b2 - i,
    {
        if b2 - i >= 2 && cs[i] == '.' && cs[i + 1] == '.' && (i == a2 || cs[i - 1] == '/') && (
        b2 - i == 2 || cs[i + 2] == '/') {
            let ghost a = i - a2;
            assert(p[a] == cs@[i as int]);
            assert(p[a + 1] == cs@[i + 1]);
            assert(a == 0 || p[a - 1] == cs@[i - 1]);
            assert(a + 2 == p.len() || p[a + 2] == cs@[i + 2]);
            assert(parent_component_at(p, a));
            return Err(PathError::ParentTraversal { path: raw_path.substring_char(a2, b2) });
        }
        i += 1;
    }
    assert forall|a: int| !#[trigger] parent_component_at(p, a) by {
        if 0 <= a < i - a2 {
        }
    }
    Ok(raw_path.substring_char(a2, b2))
}

/// Pieces of a path string and the piece being read: `/` ends a piece;
/// empty pieces (from `//` or a leading or trailing `/`) are dropped.
pub open spec fn piece_state(p: Seq<char>) -> (Seq<Seq<char>>, Seq<char>)
    decreases p.len(),
{
    if p.len() == 0 {
        (Seq::empty(), Seq::empty())
    } else {
        let (done, cur) = piece_state(p.drop_last());
        if p.last() == '/' {
            (if cur.len() > 0 {
                done.push(cur)
            } else {
                done
            }, Seq::empty())
        } else {
            (done, cur.push(p.last()))
        }
    }
}

/// The components of a path string: its non-empty pieces between `/`.
pub open spec fn path_pieces(p: Seq<char>) -> Seq<Seq<char>> {
    let (done, cur) = piece_state(p);
    if cur.len() > 0 {
        done.push(cur)
    } else {
        done
    }
}

/// The path starts at the root directory.
pub open spec fn is_absolute(p: Seq<char>) -> bool {
    p.len() > 0 && p[0] == '/'
}

/// `path` lies at or below `root`: both are absolute or both relative, and
/// the components of `root` begin the components of `path`. On paths as
/// `canonicalize` gives them (no `.` or `..` component), this is
/// `Path::starts_with`.
pub open spec fn within_root(root: Seq<char>, path: Seq<char>) -> bool {
    &&& is_absolute(root) == is_absolute(path)
    &&& path_pieces(root).len() <= path_pieces(path).len()
    &&& path_pieces(path).take(path_pieces(root).len() as int) == path_pieces(root)
}

/// The views of lists of characters.
pub open spec fn pieces_view(v: Seq<Vec<char>>) -> Seq<Seq<char>> {
    v.map_values(|x: Vec<char>| x@)
}

fn pieces_of(p: &str) -> (r: Vec<Vec<char>>)
    ensures
        pieces_view(r@) == path_pieces(p@),
{
    let mut done: Vec<Vec<char>> = Vec::new();
    let mut cur: Vec<char> = Vec::new();
    assert(pieces_view(done@) =~= Seq::<Seq<char>>::empty());
    assert(p@.take(0) =~= Seq::<char>::empty());
    for c in it: p.chars()
        invariant
            it.seq() == p@,
            (pieces_view(done@), cur@) == piece_state(p@.take(it.index() as int)),
    {
        let ghost k = it.index() as int;
        assert(p@.take(k + 1).drop_last() =~= p@.take(k));
        assert(p@.take(k + 1).last() == c);
        let ghost d0 = pieces_view(done@);
        let ghost c0 = cur@;
        if c == '/' {
            if cur.len() > 0 {
                let piece = cur;
                cur = Vec::new();
                done.push(piece);
                assert(pieces_view(done@) =~= d0.push(c0));
            } else {
                cur = Vec::new();
            }
            assert(cur@ =~= Seq::<char>::empty());
        } else {
            cur.push(c);
        }
    }
    assert(p@.take(p@.len() as int) =~= p@);
    if cur.len() > 0 {
        let ghost d0 = pieces_view(done@);
        let ghost c0 = cur@;
        done.push(cur);
        assert(pieces_view(done@) =~= d0.push(c0));
    }
    done
}

fn chars_equal(a: &Vec<char>, b: &Vec<char>) -> (r: bool)
    ensures
        r == (a@ == b@),
{
    if a.len() != b.len() {
        return false;
    }
    let mut i: usize = 0;
    while i < a.len()
        invariant
            a@.len() == b@.len(),
            i <= a@.len(),
            forall|j: int| 0 <= j < i ==> a@[j] == b@[j],
        decreases a@.len() - i,
    {
        if a[i] != b[i] {
            return false;
        }
        i += 1;
    }
    assert(a@ =~= b@);
    true
}

/// Whether the resolved path `path` stays inside the template root `root`
/// (both as `canonicalize` gives them): its components begin with those of
/// the root.
pub fn path_within(root: &str, path: &str) -> (r: bool)
    ensures
        r == within_root(root@, path@),
{
    let rc = chars_of(root);
    let pc = chars_of(path);
    let root_abs = rc.len() > 0 && rc[0] == '/';
    let path_abs = pc.len() > 0 && pc[0] == '/';
    assert(root_abs == is_absolute(root@));
    assert(path_abs == is_absolute(path@));
    if root_abs != path_abs {
        return false;
    }
    let rp = pieces_of(root);
    let pp = pieces_of(path);
    let ghost rv = pieces_view(rp@);
    let ghost pv = pieces_view(pp@);
    if rp.len() > pp.len() {
        return false;
    }
    let mut i: usize = 0;
    while i < rp.len()
        invariant
            rv == pieces_view(rp@),
            pv == pieces_view(pp@),
            rv == path_pieces(root@),
            pv == path_pieces(path@),
            is_absolute(root@) == is_absolute(path@),
            rp@.len() <= pp@.len(),
            i <= rp@.len(),
            forall|j: int| 0 <= j < i ==> pv[j] == rv[j],
        decreases rp@.len() - i,
    {
        if !chars_equal(&rp[i], &pp[i]) {
            assert(pv[i as int] == pp@[i as int]@);
            assert(rv[i as int] == rp@[i as int]@);
            assert(pv.take(rv.len() as int) != rv) by {
                if pv.take(rv.len() as int) == rv {
                    assert(pv.take(rv.len() as int)[i as int] == pv[i as int]);
                }
            }
            return false;
        }
        i += 1;
    }
    assert(pv.take(rv.len() as int) =~= rv);
    true
}

/// Why a build stops reading templates.
#[derive(Debug, Clone, Copy, PartialEq, Eq, Structural)]
pub enum LimitError {
    /// The sources read add up to more than the size limit.
    TooLarge,
    /// More templates were pulled in by `extends` / `include` than allowed.
    TooManyInclusions,
}

impl LimitError {
    /// The build error reported for this limit.
    pub fn message(&self) -> (r: &'static str)
        ensures
            r@ == (match *self {
                LimitError::TooLarge => "tmplx build error: total template source size exceeds maximum limit"@,
                LimitError::TooManyInclusions => "tmplx build error: too many template inclusions"@,
            }),
    {
        match self {
            LimitError::TooLarge => "tmplx build error: total template source size exceeds maximum limit",
            LimitError::TooManyInclusions => "tmplx build error: too many template inclusions",
        }
    }
}

/// What a build has read so far, against its limits.
pub struct CompileLimits {
    pub included_files: usize,
    pub max_included_files: usize,
    pub total_template_size: usize,
    pub max_template_size: usize,
}

impl CompileLimits {
    /// No file read yet; at most 10 000 inclusions and 100 MiB of sources.
    pub fn new() -> (r: CompileLimits)
        ensures
            r.included_files == 0,
            r.max_included_files == 10_000,
            r.total_template_size == 0,
            r.max_template_size == 104_857_600,
    {
        CompileLimits {
            included_files: 0,
            max_included_files: 10_000,
            total_template_size: 0,
            max_template_size: 104_857_600,
        }
    }

    /// Counts a source of `len` bytes; refused when the total goes over
    /// the size limit.
    pub fn add_source(&mut self, len: usize) -> (r: Result<(), LimitError>)
        ensures
            final(self).max_included_files == old(self).max_included_files,
            final(self).max_template_size == old(self).max_template_size,
            final(self).included_files == old(self).included_files,
            old(self).total_template_size + len <= old(self).max_template_size ==> {
                &&& r is Ok
                &&& final(self).total_template_size == old(self).total_template_size + len
            },
            old(self).total_template_size + len > old(self).max_template_size ==> {
                &&& r == Err::<(), LimitError>(LimitError::TooLarge)
                &&& final(self).total_template_size == old(self).total_template_size
            },
    {
        match self.total_template_size.checked_add(len) {
            Some(total) => {
                if total > self.max_template_size {
                    Err(LimitError::TooLarge)
                } else {
                    self.total_template_size = total;
                    Ok(())
                }
            },
            None => Err(LimitError::TooLarge),
        }
    }

    /// Counts one more template pulled in by `extends` or `include`;
    /// refused when the count goes over the limit.
    pub fn add_inclusion(&mut self) -> (r: Result<(), LimitError>)
        ensures
            final(self).max_included_files == old(self).max_included_files,
            final(self).max_template_size == old(self).max_template_size,
            final(self).total_template_size == old(self).total_template_size,
            old(self).included_files + 1 <= old(self).max_included_files ==> {
                &&& r is Ok
                &&& final(self).included_files == old(self).included_files + 1
            },
            old(self).included_files + 1 > old(self).max_included_files ==> {
                &&& r == Err::<(), LimitError>(LimitError::TooManyInclusions)
                &&& final(self).included_files == old(self).included_files
            },
    {
        if self.included_files >= self.max_included_files {
            Err(LimitError::TooManyInclusions)
        } else {
            self.included_files = self.included_files + 1;
            Ok(())
        }
    }
}


/// A `block` of a child template: its name and the tokens that replace the
/// parent's block of the same name.
#[derive(Debug, PartialEq, Eq)]
pub struct BlockOverride<'a> {
    pub name: &'a str,
    pub tokens: Vec<Token<'a>>,
}

impl<'a> View for BlockOverride<'a> {
    type V = (Seq<char>, Seq<SpecToken>);

    open spec fn view(&self) -> (Seq<char>, Seq<SpecToken>) {
        (self.name@, tokens_view(self.tokens@))
    }
}

/// The values of a list of block overrides.
pub open spec fn overrides_view<'a>(bs: Seq<BlockOverride<'a>>) -> Seq<(Seq<char>, Seq<SpecToken>)> {
    bs.map_values(|b: BlockOverride<'a>| b@)
}

/// Number of `block` markers (`true`) in a stack of open blocks.
pub open spec fn count_true(stack: Seq<bool>) -> nat
    decreases stack.len(),
{
    if stack.len() == 0 {
        0
    } else {
        count_true(stack.drop_last()) + if stack.last() { 1nat } else { 0nat }
    }
}

pub proof fn lemma_count_true_bound(stack: Seq<bool>)
    ensures
        count_true(stack) <= stack.len(),
    decreases stack.len(),
{
    if stack.len() > 0 {
        lemma_count_true_bound(stack.drop_last());
    }
}

/// State of the collection of a child's blocks: the blocks closed so far,
/// the name and tokens of the outermost block being read, and the stack of
/// open blocks (`true` for a `block`, `false` for an `if` or a `for`).
pub struct CollectState {
    pub blocks: Seq<(Seq<char>, Seq<SpecToken>)>,
    pub current: Option<Seq<char>>,
    pub current_tokens: Seq<SpecToken>,
    pub stack: Seq<bool>,
}

/// `t` added to the block being read, if any.
pub open spec fn keep_in_block(s: CollectState, t: SpecToken) -> CollectState {
    if s.current is Some {
        CollectState { current_tokens: s.current_tokens.push(t), ..s }
    } else {
        s
    }
}

/// Effect of one token of the child on the collection.
pub open spec fn collect_step(s: CollectState, t: SpecToken) -> CollectState {
    match instruction_tag(t) {
        Some(SpecTag::Block { name }) => {
            let st = CollectState { stack: s.stack.push(true), ..s };
            if count_true(st.stack) == 1 {
                CollectState { current: Some(name), current_tokens: Seq::empty(), ..st }
            } else {
                keep_in_block(st, t)
            }
        },
        Some(SpecTag::If { .. }) | Some(SpecTag::For { .. }) => keep_in_block(
            CollectState { stack: s.stack.push(false), ..s },
            t,
        ),
        Some(SpecTag::EndBlock) | Some(SpecTag::EndIf) | Some(SpecTag::EndFor) | Some(
            SpecTag::GenericClose,
        ) => {
            if s.stack.len() > 0 && s.stack.last() {
                let st = CollectState { stack: s.stack.drop_last(), ..s };
                if count_true(st.stack) == 0 {
                    match st.current {
                        Some(name) => CollectState {
                            blocks: st.blocks.push((name, st.current_tokens)),
                            current: None,
                            current_tokens: Seq::empty(),
                            ..st
                        },
                        None => st,
                    }
                } else {
                    keep_in_block(st, t)
                }
            } else if s.stack.len() > 0 {
                keep_in_block(CollectState { stack: s.stack.drop_last(), ..s }, t)
            } else {
                keep_in_block(s, t)
            }
        },
        _ => keep_in_block(s, t),
    }
}

/// State of the collection after the tokens `ts`.
pub open spec fn collect_run(ts: Seq<SpecToken>) -> CollectState
    decreases ts.len(),
{
    if ts.len() == 0 {
        CollectState {
            blocks: Seq::empty(),
            current: None,
            current_tokens: Seq::empty(),
            stack: Seq::empty(),
        }
    } else {
        collect_step(collect_run(ts.drop_last()), ts.last())
    }
}

/// Collects the outermost `block`s of a child template, in the order they
/// close, each with the tokens between its `block` and its closing tag.
/// When two blocks have the same name, the later one counts.
pub fn collect_child_blocks<'a>(tokens: &Vec<Token<'a>>) -> (r: Vec<BlockOverride<'a>>)
    ensures
        overrides_view(r@) == collect_run(tokens_view(tokens@)).blocks,
{
    let ghost ts = tokens_view(tokens@);
    let mut blocks: Vec<BlockOverride<'a>> = Vec::new();
    let mut current: Option<&'a str> = None;
    let mut current_tokens: Vec<Token<'a>> = Vec::new();
    let mut stack: Vec<bool> = Vec::new();
    let mut depth: usize = 0;
    let n = tokens.len();
    let mut i: usize = 0;
    assert(ts.take(0) =~= Seq::<SpecToken>::empty());
    assert(overrides_view(blocks@) =~= Seq::<(Seq<char>, Seq<SpecToken>)>::empty());
    assert(tokens_view(current_tokens@) =~= Seq::<SpecToken>::empty());
    while i < n
        invariant
            n == tokens@.len() == ts.len(),
            ts == tokens_view(tokens@),
            i <= n,
            stack@.len() <= i,
            depth == count_true(stack@),
            ({
                let st = collect_run(ts.take(i as int));
                &&& overrides_view(blocks@) == st.blocks
                &&& (match current {
                    Some(c) => st.current == Some(c@),
                    None => st.current is None,
                })
                &&& tokens_view(current_tokens@) == st.current_tokens
                &&& stack@ == st.stack
            }),
        decreases n - i,
    {
        let tok = tokens[i];
        proof {
            assert(ts.take(i + 1).drop_last() =~= ts.take(i as int));
            assert(ts[i as int] == tok@);
            lemma_count_true_bound(stack@);
        }
        let ghost s0 = collect_run(ts.take(i as int));
        let ghost ct0 = tokens_view(current_tokens@);
        let ghost bl0 = overrides_view(blocks@);
        let ghost st0 = stack@;
        let mut kept = true;
        match instruction_classify(tok) {
            Some(ClassifiedTag::Block { name }) => {
                stack.push(true);
                depth = depth + 1;
                assert(stack@.drop_last() =~= st0);
                if depth == 1 {
                    current = Some(name);
                    current_tokens = Vec::new();
                    assert(tokens_view(current_tokens@) =~= Seq::<SpecToken>::empty());
                    kept = false;
                }
            },
            Some(ClassifiedTag::If { .. }) | Some(ClassifiedTag::For { .. }) => {
                stack.push(false);
                assert(stack@.drop_last() =~= st0);
            },
            Some(ClassifiedTag::EndBlock) | Some(ClassifiedTag::EndIf) | Some(
                ClassifiedTag::EndFor,
            ) | Some(ClassifiedTag::GenericClose) => {
                if let Some(b) = stack.pop() {
                    if b {
                        depth = depth - 1;
                        if depth == 0 {
                            if let Some(name) = current {
                                let taken = current_tokens;
                                current_tokens = Vec::new();
                                blocks.push(BlockOverride { name, tokens: taken });
                                current = None;
                                assert(overrides_view(blocks@) =~= bl0.push((name@, ct0)));
                                assert(tokens_view(current_tokens@)
                                    =~= Seq::<SpecToken>::empty());
                            }
                            kept = false;
                        }
                    }
                }
            },
            _ => {},
        }
        if kept {
            if current.is_some() {
                let ghost ct1 = tokens_view(current_tokens@);
                current_tokens.push(tok);
                assert(tokens_view(current_tokens@) =~= ct1.push(tok@));
            }
        }
        assert(collect_run(ts.take(i + 1)) == collect_step(s0, tok@));
        i += 1;
    }
    assert(ts.take(n as int) =~= ts);
    blocks
}


/// The tokens of the last override named `name`, if any.
pub open spec fn lookup_block(bs: Seq<(Seq<char>, Seq<SpecToken>)>, name: Seq<char>) -> Option<
    Seq<SpecToken>,
>
    decreases bs.len(),
{
    if bs.len() == 0 {
        None
    } else if bs.last().0 == name {
        Some(bs.last().1)
    } else {
        lookup_block(bs.drop_last(), name)
    }
}

/// Index of the last override named `name`.
fn find_override(blocks: &Vec<BlockOverride>, name: &str) -> (r: Option<usize>)
    ensures
        match r {
            Some(k) => k < blocks@.len() && lookup_block(overrides_view(blocks@), name@) == Some(
                blocks@[k as int]@.1,
            ),
            None => lookup_block(overrides_view(blocks@), name@) is None,
        },
{
    let ghost bs = overrides_view(blocks@);
    let mut j = blocks.len();
    assert(bs.take(j as int) =~= bs);
    while j > 0
        invariant
            j <= blocks@.len(),
            bs == overrides_view(blocks@),
            lookup_block(bs, name@) == lookup_block(bs.take(j as int), name@),
        decreases j,
    {
        assert(bs.take(j as int).last() == blocks@[j - 1]@);
        assert(bs.take(j as int).drop_last() =~= bs.take(j - 1));
        if str_equal(blocks[j - 1].name, name) {
            return Some(j - 1);
        }
        j -= 1;
    }
    None
}

/// State of the merge of a child into its parent: the tokens kept so far,
/// how deep inside an overridden parent block the merge is (0 when
/// outside), and the stack of open blocks of the parent.
pub struct MergeState {
    pub out: Seq<SpecToken>,
    pub skip: nat,
    pub stack: Seq<bool>,
}

/// `t` kept when the merge is outside any overridden block.
pub open spec fn keep_outside(s: MergeState, t: SpecToken) -> MergeState {
    if s.skip == 0 {
        MergeState { out: s.out.push(t), ..s }
    } else {
        s
    }
}

/// Effect of one token of the parent on the merge: a `block` of the parent
/// is kept, followed by the child's override when there is one, and the
/// parent's content of an overridden block is dropped up to its closing
/// tag, which is kept.
pub open spec fn merge_step(s: MergeState, t: SpecToken, bs: Seq<(Seq<char>, Seq<SpecToken>)>) -> MergeState {
    match instruction_tag(t) {
        Some(SpecTag::Block { name }) => {
            let stack = s.stack.push(true);
            if s.skip == 0 {
                match lookup_block(bs, name) {
                    Some(ov) => MergeState { out: s.out.push(t) + ov, skip: 1, stack },
                    None => MergeState { out: s.out.push(t), skip: 0, stack },
                }
            } else {
                MergeState { out: s.out, skip: s.skip + 1, stack }
            }
        },
        Some(SpecTag::If { .. }) | Some(SpecTag::For { .. }) => keep_outside(
            MergeState {
                out: s.out,
                skip: if s.skip > 0 { s.skip + 1 } else { 0 },
                stack: s.stack.push(false),
            },
            t,
        ),
        Some(SpecTag::EndBlock) | Some(SpecTag::EndIf) | Some(SpecTag::EndFor) | Some(
            SpecTag::GenericClose,
        ) => {
            if s.stack.len() > 0 && s.stack.last() {
                let stack = s.stack.drop_last();
                let skip: nat = if count_true(stack) == 0 {
                    0
                } else if s.skip > 0 {
                    (s.skip - 1) as nat
                } else {
                    0
                };
                keep_outside(MergeState { out: s.out, skip, stack }, t)
            } else {
                let stack = if s.stack.len() > 0 {
                    s.stack.drop_last()
                } else {
                    s.stack
                };
                let skip: nat = if s.skip > 0 {
                    (s.skip - 1) as nat
                } else {
                    0
                };
                keep_outside(MergeState { out: s.out, skip, stack }, t)
            }
        },
        _ => keep_outside(s, t),
    }
}

/// State of the merge after the parent tokens `ts`.
pub open spec fn merge_run(ts: Seq<SpecToken>, bs: Seq<(Seq<char>, Seq<SpecToken>)>) -> MergeState
    decreases ts.len(),
{
    if ts.len() == 0 {
        MergeState { out: Seq::empty(), skip: 0, stack: Seq::empty() }
    } else {
        merge_step(merge_run(ts.drop_last(), bs), ts.last(), bs)
    }
}

/// Builds the tokens of a child template that extends `parent_tokens`:
/// the parent's tokens, where each parent `block` that the child
/// overrides has its content replaced by the child's.
pub fn merge_with_parent<'a>(parent_tokens: Vec<Token<'a>>, blocks: &Vec<BlockOverride<'a>>) -> (r: Vec<
    Token<'a>,
>)
    ensures
        tokens_view(r@) == merge_run(tokens_view(parent_tokens@), overrides_view(blocks@)).out,
{
    let ghost ts = tokens_view(parent_tokens@);
    let ghost bs = overrides_view(blocks@);
    let mut final_tokens: Vec<Token<'a>> = Vec::new();
    let mut skip_depth: usize = 0;
    let mut parent_stack: Vec<bool> = Vec::new();
    let mut parent_depth: usize = 0;
    let n = parent_tokens.len();
    let mut i: usize = 0;
    assert(ts.take(0) =~= Seq::<SpecToken>::empty());
    assert(tokens_view(final_tokens@) =~= Seq::<SpecToken>::empty());
    while i < n
        invariant
            n == parent_tokens@.len() == ts.len(),
            ts == tokens_view(parent_tokens@),
            bs == overrides_view(blocks@),
            i <= n,
            parent_stack@.len() <= i,
            skip_depth <= i,
            parent_depth == count_true(parent_stack@),
            ({
                let st = merge_run(ts.take(i as int), bs);
                &&& tokens_view(final_tokens@) == st.out
                &&& skip_depth == st.skip
                &&& parent_stack@ == st.stack
            }),
        decreases n - i,
    {
        let tok = parent_tokens[i];
        proof {
            assert(ts.take(i + 1).drop_last() =~= ts.take(i as int));
            assert(ts[i as int] == tok@);
            lemma_count_true_bound(parent_stack@);
        }
        let ghost s0 = merge_run(ts.take(i as int), bs);
        let ghost st0 = parent_stack@;
        let mut skip_this_token = false;
        match instruction_classify(tok) {
            Some(ClassifiedTag::Block { name }) => {
                parent_stack.push(true);
                parent_depth = parent_depth + 1;
                assert(parent_stack@.drop_last() =~= st0);
                if skip_depth == 0 {
                    let ghost out0 = tokens_view(final_tokens@);
                    final_tokens.push(tok);
                    assert(tokens_view(final_tokens@) =~= out0.push(tok@));
                    match find_override(blocks, name) {
                        Some(k) => {
                            let ov = &blocks[k].tokens;
                            let ghost base = tokens_view(final_tokens@);
                            let ghost ovs = tokens_view(ov@);
                            let mut j: usize = 0;
                            assert(base + ovs.take(0) =~= base);
                            while j < ov.len()
                                invariant
                                    j <= ov@.len(),
                                    ovs == tokens_view(ov@),
                                    tokens_view(final_tokens@) == base + ovs.take(j as int),
                                decreases ov@.len() - j,
                            {
                                let ghost before = tokens_view(final_tokens@);
                                final_tokens.push(ov[j]);
                                assert(tokens_view(final_tokens@) =~= before.push(ov@[j as int]@));
                                assert(ovs.take(j + 1) =~= ovs.take(j as int).push(ov@[j as int]@));
                                assert(tokens_view(final_tokens@) =~= base + ovs.take(j + 1));
                                j += 1;
                            }
                            assert(ovs.take(ov@.len() as int) =~= ovs);
                            skip_depth = 1;
                        },
                        None => {},
                    }
                    skip_this_token = true;
                } else {
                    skip_depth = skip_depth + 1;
                }
            },
            Some(ClassifiedTag::If { .. }) | Some(ClassifiedTag::For { .. }) => {
                parent_stack.push(false);
                assert(parent_stack@.drop_last() =~= st0);
                if skip_depth > 0 {
                    skip_depth = skip_depth + 1;
                }
            },
            Some(ClassifiedTag::EndBlock) | Some(ClassifiedTag::EndIf) | Some(
                ClassifiedTag::EndFor,
            ) | Some(ClassifiedTag::GenericClose) => {
                let popped = parent_stack.pop();
                if let Some(true) = popped {
                    parent_depth = parent_depth - 1;
                    if parent_depth == 0 {
                        if skip_depth > 0 {
                            skip_depth = 0;
                        }
                    } else if skip_depth > 0 {
                        skip_depth = skip_depth - 1;
                    }
                } else if skip_depth > 0 {
                    skip_depth = skip_depth - 1;
                }
            },
            _ => {},
        }
        if !skip_this_token && skip_depth == 0 {
            let ghost out1 = tokens_view(final_tokens@);
            final_tokens.push(tok);
            assert(tokens_view(final_tokens@) =~= out1.push(tok@));
        }
        assert(merge_run(ts.take(i + 1), bs) == merge_step(s0, tok@, bs));
        i += 1;
    }
    assert(ts.take(n as int) =~= ts);
    final_tokens
}


proof fn lemma_merge_without_overrides(ts: Seq<SpecToken>)
    ensures
        merge_run(ts, Seq::empty()).out == ts,
        merge_run(ts, Seq::empty()).skip == 0,
    decreases ts.len(),
{
    if ts.len() > 0 {
        lemma_merge_without_overrides(ts.drop_last());
        let bs = Seq::<(Seq<char>, Seq<SpecToken>)>::empty();
        if let Some(SpecTag::Block { name }) = instruction_tag(ts.last()) {
            assert(lookup_block(bs, name) is None);
        }
        assert(ts.drop_last().push(ts.last()) =~= ts);
    }
}

/// Why a template is refused once its `extends` and `include` tags are
/// resolved.
#[derive(Debug, Clone, Copy, PartialEq, Eq)]
pub enum TemplateError<'a> {
    /// The block structure is refused (pass 2).
    Validation(ValidationError<'a>),
    /// Strict mode: a raw output tag (`{%= %}`) stands at this line.
    RawOutputForbidden { line: usize },
    /// The static text adds up to more bytes than a `usize` counts.
    StaticTooLarge,
}

/// The value of a template error.
pub enum SpecTemplateError {
    Validation(SpecValidationError),
    RawOutputForbidden(nat),
    StaticTooLarge,
}

impl<'a> View for TemplateError<'a> {
    type V = SpecTemplateError;

    open spec fn view(&self) -> SpecTemplateError {
        match *self {
            TemplateError::Validation(e) => SpecTemplateError::Validation(e@),
            TemplateError::RawOutputForbidden { line } => SpecTemplateError::RawOutputForbidden(
                line as nat,
            ),
            TemplateError::StaticTooLarge => SpecTemplateError::StaticTooLarge,
        }
    }
}

/// Text of a template error.
pub open spec fn template_message(e: SpecTemplateError) -> Seq<char> {
    match e {
        SpecTemplateError::Validation(v) => validation_message(v),
        SpecTemplateError::RawOutputForbidden(line) => "tmplx build error line "@ + decimal(line)
            + ": raw output ({%= %}) is forbidden in strict mode."@,
        SpecTemplateError::StaticTooLarge => "tmplx build error: static template text exceeds the addressable size"@,
    }
}

impl<'a> TemplateError<'a> {
    /// The build error reported for this template.
    pub fn message(&self) -> (r: String)
        ensures
            r@ == template_message(self@),
    {
        match self {
            TemplateError::Validation(e) => e.message(),
            TemplateError::RawOutputForbidden { line } => {
                let mut out = String::new();
                out.append("tmplx build error line ");
                push_decimal(&mut out, *line);
                out.append(": raw output ({%= %}) is forbidden in strict mode.");
                out
            },
            TemplateError::StaticTooLarge => {
                let mut out = String::new();
                out.append("tmplx build error: static template text exceeds the addressable size");
                out
            },
        }
    }
}

/// What the last passes make of the tokens of a template whose `extends`
/// and `include` tags are resolved: validation, then truncation, then (in
/// strict mode) the refusal of raw output, then code generation.
pub open spec fn spec_finish(
    ts: Seq<SpecToken>,
    deny_raw_output: bool,
    function_name: Seq<char>,
    html_path: Seq<char>,
) -> Result<Seq<char>, SpecTemplateError> {
    match spec_validate(ts) {
        Err(e) => Err(SpecTemplateError::Validation(e)),
        Ok(()) => {
            let t = spec_truncate(ts);
            if deny_raw_output && first_raw_output(t) is Some {
                Err(SpecTemplateError::RawOutputForbidden(first_raw_output(t)->0))
            } else if static_size(t) > usize::MAX {
                Err(SpecTemplateError::StaticTooLarge)
            } else {
                Ok(spec_generate(t, function_name, html_path))
            }
        },
    }
}

/// The value of what `finish_template` returns.
pub open spec fn finish_result_view<'a>(r: Result<String, TemplateError<'a>>) -> Result<
    Seq<char>,
    SpecTemplateError,
> {
    match r {
        Ok(s) => Ok(s@),
        Err(e) => Err(e@),
    }
}

/// Passes 2 to 4 on the tokens of a template whose `extends` and `include`
/// tags are resolved: checks the block structure, applies truncation,
/// refuses raw output in strict mode (`deny_raw_output`), and generates the
/// macro `function_name` for the file `html_path`.
pub fn finish_template<'a>(
    tokens: Vec<Token<'a>>,
    deny_raw_output: bool,
    function_name: &str,
    html_path: &str,
) -> (r: Result<String, TemplateError<'a>>)
    ensures
        finish_result_view(r) == spec_finish(
            tokens_view(tokens@),
            deny_raw_output,
            function_name@,
            html_path@,
        ),
{
    let ghost ts = tokens_view(tokens@);
    if let Err(e) = check_pairing(tokens.as_slice()) {
        return Err(TemplateError::Validation(e));
    }
    let mut tokens = tokens;
    apply_truncation(tokens.as_mut_slice());
    proof {
        law_truncation_preserves_validation(ts);
        law_validated_tags_classify(spec_truncate(ts));
    }
    if deny_raw_output {
        if let Some(line) = find_raw_output(&tokens) {
            return Err(TemplateError::RawOutputForbidden { line });
        }
    }
    match static_bytes(tokens.as_slice()) {
        None => Err(TemplateError::StaticTooLarge),
        Some(_) => Ok(generate(tokens.as_slice(), function_name, html_path)),
    }
}

/// Change that a token makes to the nesting of blocks: one more for an
/// `if` or a `for`, one less for any closing tag (`endblock`, `endif`,
/// `endfor` or `}`), none otherwise.
pub open spec fn nest_delta(t: SpecToken) -> int {
    match instruction_tag(t) {
        Some(SpecTag::If { .. }) | Some(SpecTag::For { .. }) => 1,
        Some(SpecTag::EndBlock) | Some(SpecTag::EndIf) | Some(SpecTag::EndFor) | Some(
            SpecTag::GenericClose,
        ) => -1,
        _ => 0,
    }
}

/// Net nesting opened by the tokens `ts`.
pub open spec fn nest_depth(ts: Seq<SpecToken>) -> int
    decreases ts.len(),
{
    if ts.len() == 0 {
        0
    } else {
        nest_depth(ts.drop_last()) + nest_delta(ts.last())
    }
}

/// `t` is a `{% block %}` tag.
pub open spec fn is_block_open(t: SpecToken) -> bool {
    instruction_tag(t) matches Some(SpecTag::Block { .. })
}

/// `t` is a closing tag: `endblock`, `endif`, `endfor` or `}`.
pub open spec fn is_closer(t: SpecToken) -> bool {
    nest_delta(t) == -1
}

/// A piece of a template, as the inheritance laws see it: one token
/// outside any `block`, or a whole `block` (its tag, its content as pieces,
/// which may hold further blocks, and its closing tag).
pub enum Segment {
    Tok(SpecToken),
    Block { open: SpecToken, name: Seq<char>, body: Seq<Segment>, close: SpecToken },
}

/// The tokens of a segment.
pub open spec fn segment_tokens(g: Segment) -> Seq<SpecToken>
    decreases g, 1nat,
{
    match g {
        Segment::Tok(t) => seq![t],
        Segment::Block { open, body, close, .. } => seq![open] + flatten(body) + seq![close],
    }
}

/// The tokens of a sequence of segments.
pub open spec fn flatten(gs: Seq<Segment>) -> Seq<SpecToken>
    decreases gs, 0nat,
{
    if gs.len() == 0 {
        Seq::empty()
    } else {
        proof {
            assert(decreases_to!(gs => gs[gs.len() - 1]));
        }
        flatten(gs.subrange(0, gs.len() - 1)) + segment_tokens(gs[gs.len() - 1])
    }
}

/// Change that a segment makes to the nesting of `if` and `for` among its
/// siblings: that of a token; none for a whole block.
pub open spec fn segment_delta(g: Segment) -> int {
    match g {
        Segment::Tok(t) => nest_delta(t),
        Segment::Block { .. } => 0,
    }
}

/// Net nesting of `if` and `for` opened by the segments `gs`.
pub open spec fn segment_depth(gs: Seq<Segment>) -> int
    decreases gs.len(),
{
    if gs.len() == 0 {
        0
    } else {
        segment_depth(gs.drop_last()) + segment_delta(gs.last())
    }
}

/// The content of a block: every `if` and `for` opened among its pieces is
/// closed among them, in order.
pub open spec fn balanced_body(gs: Seq<Segment>) -> bool {
    &&& forall|k: int| 0 <= k <= gs.len() ==> segment_depth(#[trigger] gs.take(k)) >= 0
    &&& segment_depth(gs) == 0
}

/// A token piece is not a `block` tag; a block opens with the `block` tag
/// of its name, holds well-formed, balanced pieces, and ends with a
/// closing tag.
pub open spec fn segment_ok(g: Segment) -> bool
    decreases g, 1nat,
{
    match g {
        Segment::Tok(t) => !is_block_open(t),
        Segment::Block { open, name, body, close } => {
            &&& instruction_tag(open) == Some(SpecTag::Block { name })
            &&& is_closer(close)
            &&& balanced_body(body)
            &&& segments_ok(body)
        },
    }
}

/// Every segment of `gs` is well formed.
pub open spec fn segments_ok(gs: Seq<Segment>) -> bool
    decreases gs, 0nat,
{
    forall|i: int| 0 <= i < gs.len() ==> segment_ok(#[trigger] gs[i])
}

/// A segment of the parent after the merge: a block that the overrides
/// `bs` name holds their content; a block they do not name keeps its tags
/// and has its own pieces merged in turn.
pub open spec fn merged_segment(g: Segment, bs: Seq<(Seq<char>, Seq<SpecToken>)>) -> Seq<SpecToken>
    decreases g, 1nat,
{
    match g {
        Segment::Tok(t) => seq![t],
        Segment::Block { open, name, body, close } => seq![open] + match lookup_block(bs, name) {
            Some(ov) => ov,
            None => merged(body, bs),
        } + seq![close],
    }
}

/// Segments of the parent after the merge with `bs`.
pub open spec fn merged(gs: Seq<Segment>, bs: Seq<(Seq<char>, Seq<SpecToken>)>) -> Seq<SpecToken>
    decreases gs, 0nat,
{
    if gs.len() == 0 {
        Seq::empty()
    } else {
        proof {
            assert(decreases_to!(gs => gs[gs.len() - 1]));
        }
        merged(gs.subrange(0, gs.len() - 1), bs) + merged_segment(gs[gs.len() - 1], bs)
    }
}

/// The names and contents of the outermost blocks among the segments
/// `gs`, in order.
pub open spec fn block_contents(gs: Seq<Segment>) -> Seq<(Seq<char>, Seq<SpecToken>)>
    decreases gs.len(),
{
    if gs.len() == 0 {
        Seq::empty()
    } else {
        block_contents(gs.drop_last()) + match gs.last() {
            Segment::Block { name, body, .. } => seq![(name, flatten(body))],
            Segment::Tok(_) => Seq::empty(),
        }
    }
}

/// No `block` marker in a stack of open blocks.
pub open spec fn all_false(stack: Seq<bool>) -> bool {
    forall|i: int| 0 <= i < stack.len() ==> !#[trigger] stack[i]
}

/// `d` open `if` / `for` markers.
pub open spec fn falses(d: int) -> Seq<bool> {
    Seq::new(d as nat, |i: int| false)
}

proof fn lemma_count_push(st: Seq<bool>, b: bool)
    ensures
        st.push(b).drop_last() =~= st,
        st.push(b).last() == b,
        st.push(b).len() > 0,
        count_true(st.push(b)) == count_true(st) + if b {
            1int
        } else {
            0int
        },
{
    assert(st.push(b).drop_last() =~= st);
}

proof fn lemma_falses(st: Seq<bool>, d: int)
    requires
        d >= 0,
    ensures
        (st + falses(d)).push(false) =~= st + falses(d + 1),
        d > 0 ==> (st + falses(d)).len() > 0 && (st + falses(d)).last() == false,
        d > 0 ==> (st + falses(d)).drop_last() =~= st + falses(d - 1),
        st + falses(0) =~= st,
        count_true(st + falses(d)) == count_true(st),
    decreases d,
{
    assert(st + falses(0) =~= st);
    if d > 0 {
        lemma_falses(st, d - 1);
        assert((st + falses(d)).drop_last() =~= st + falses(d - 1));
        lemma_count_push(st + falses(d - 1), false);
        assert((st + falses(d - 1)).push(false) =~= st + falses(d));
    }
}

proof fn lemma_all_false_count(stack: Seq<bool>)
    requires
        all_false(stack),
    ensures
        count_true(stack) == 0,
        all_false(stack.push(false)),
        stack.len() > 0 ==> !stack.last() && all_false(stack.drop_last()),
    decreases stack.len(),
{
    assert(all_false(stack.push(false))) by {
        assert forall|i: int| 0 <= i < stack.push(false).len() implies !#[trigger] stack.push(
            false,
        )[i] by {
            if i < stack.len() {
                assert(stack.push(false)[i] == stack[i]);
            }
        }
    }
    if stack.len() > 0 {
        assert(all_false(stack.drop_last())) by {
            assert forall|i: int| 0 <= i < stack.drop_last().len() implies !#[trigger] stack.drop_last()[i] by {
                assert(stack.drop_last()[i] == stack[i]);
            }
        }
        lemma_all_false_count(stack.drop_last());
        assert(!stack[stack.len() - 1]);
    }
}

/// The prefixes of a list of segments grow one segment at a time.
proof fn lemma_segment_prefix(gs: Seq<Segment>, k: int, bs: Seq<(Seq<char>, Seq<SpecToken>)>)
    requires
        0 < k <= gs.len(),
    ensures
        flatten(gs.take(k)) == flatten(gs.take(k - 1)) + segment_tokens(gs[k - 1]),
        merged(gs.take(k), bs) == merged(gs.take(k - 1), bs) + merged_segment(gs[k - 1], bs),
        segment_depth(gs.take(k)) == segment_depth(gs.take(k - 1)) + segment_delta(gs[k - 1]),
{
    let p = gs.take(k);
    assert(p.subrange(0, p.len() - 1) =~= gs.take(k - 1));
    assert(p.drop_last() =~= gs.take(k - 1));
    assert(p[p.len() - 1] == gs[k - 1]);
}

proof fn lemma_take_all(gs: Seq<Segment>)
    ensures
        gs.take(gs.len() as int) == gs,
        gs.take(0) == Seq::<Segment>::empty(),
        flatten(Seq::<Segment>::empty()) == Seq::<SpecToken>::empty(),
{
    assert(gs.take(gs.len() as int) =~= gs);
    assert(gs.take(0) =~= Seq::<Segment>::empty());
}

/// Merge outside any overridden block, over the first `k` segments of a
/// block's content `gs`: the segments are kept, their blocks merged in
/// turn.
proof fn lemma_merge_kept_body(
    x: Seq<SpecToken>,
    gs: Seq<Segment>,
    bs: Seq<(Seq<char>, Seq<SpecToken>)>,
    k: int,
    h: Seq<SpecToken>,
    st: Seq<bool>,
)
    requires
        segments_ok(gs),
        balanced_body(gs),
        0 <= k <= gs.len(),
        merge_run(x, bs) == (MergeState { out: h, skip: 0, stack: st }),
    ensures
        merge_run(x + flatten(gs.take(k)), bs) == (MergeState {
            out: h + merged(gs.take(k), bs),
            skip: 0,
            stack: st + falses(segment_depth(gs.take(k))),
        }),
    decreases gs, 0nat, k,
{
    lemma_take_all(gs);
    lemma_falses(st, 0);
    if k == 0 {
        assert(x + flatten(gs.take(0)) =~= x);
        assert(h + merged(gs.take(0), bs) =~= h);
    } else {
        lemma_merge_kept_body(x, gs, bs, k - 1, h, st);
        lemma_segment_prefix(gs, k, bs);
        let g = gs[k - 1];
        assert(segment_ok(g));
        let d = segment_depth(gs.take(k - 1));
        assert(segment_depth(gs.take(k - 1)) >= 0);
        assert(segment_depth(gs.take(k)) >= 0);
        let y = x + flatten(gs.take(k - 1));
        let hy = h + merged(gs.take(k - 1), bs);
        assert(x + flatten(gs.take(k)) =~= y + segment_tokens(g));
        assert(h + merged(gs.take(k), bs) =~= hy + merged_segment(g, bs));
        lemma_falses(st, d);
        match g {
            Segment::Tok(t) => {
                assert(y + segment_tokens(g) =~= y.push(t));
                assert(y.push(t).drop_last() =~= y);
                assert(hy + merged_segment(g, bs) =~= hy.push(t));
            },
            Segment::Block { .. } => {
                assert(decreases_to!(gs => gs[k - 1]));
                lemma_merge_kept_segment(y, g, bs, hy, st + falses(d));
            },
        }
    }
}

/// Merge of a whole block met outside any overridden block.
proof fn lemma_merge_kept_segment(
    x: Seq<SpecToken>,
    g: Segment,
    bs: Seq<(Seq<char>, Seq<SpecToken>)>,
    o: Seq<SpecToken>,
    st: Seq<bool>,
)
    requires
        segment_ok(g),
        g is Block,
        merge_run(x, bs) == (MergeState { out: o, skip: 0, stack: st }),
    ensures
        merge_run(x + segment_tokens(g), bs) == (MergeState {
            out: o + merged_segment(g, bs),
            skip: 0,
            stack: st,
        }),
    decreases g, 1nat, 0nat,
{
    if let Segment::Block { open, name, body, close } = g {
        lemma_take_all(body);
        lemma_count_push(st, true);
        lemma_falses(st.push(true), 0);
        let x1 = x.push(open);
        assert(x1.drop_last() =~= x);
        let x2 = x1 + flatten(body);
        let x3 = x2.push(close);
        assert(x3.drop_last() =~= x2);
        assert(x + segment_tokens(g) =~= x3);
        match lookup_block(bs, name) {
            Some(ov) => {
                let h = o.push(open) + ov;
                lemma_merge_skipped_body(x1, body, bs, body.len() as int, h, 1, st.push(true));
                assert(h.push(close) =~= o + merged_segment(g, bs));
            },
            None => {
                lemma_merge_kept_body(x1, body, bs, body.len() as int, o.push(open), st.push(true));
                assert((o.push(open) + merged(body, bs)).push(close) =~= o + merged_segment(g, bs));
            },
        }
    }
}

/// Merge inside an overridden block, over the first `k` segments of a
/// content `gs`: nothing is kept.
proof fn lemma_merge_skipped_body(
    x: Seq<SpecToken>,
    gs: Seq<Segment>,
    bs: Seq<(Seq<char>, Seq<SpecToken>)>,
    k: int,
    h: Seq<SpecToken>,
    skip: nat,
    st: Seq<bool>,
)
    requires
        segments_ok(gs),
        balanced_body(gs),
        0 <= k <= gs.len(),
        skip >= 1,
        count_true(st) >= 1,
        merge_run(x, bs) == (MergeState { out: h, skip, stack: st }),
    ensures
        merge_run(x + flatten(gs.take(k)), bs) == (MergeState {
            out: h,
            skip: (skip + segment_depth(gs.take(k))) as nat,
            stack: st + falses(segment_depth(gs.take(k))),
        }),
    decreases gs, 0nat, k,
{
    lemma_take_all(gs);
    lemma_falses(st, 0);
    if k == 0 {
        assert(x + flatten(gs.take(0)) =~= x);
    } else {
        lemma_merge_skipped_body(x, gs, bs, k - 1, h, skip, st);
        lemma_segment_prefix(gs, k, bs);
        let g = gs[k - 1];
        assert(segment_ok(g));
        let d = segment_depth(gs.take(k - 1));
        assert(segment_depth(gs.take(k - 1)) >= 0);
        assert(segment_depth(gs.take(k)) >= 0);
        let y = x + flatten(gs.take(k - 1));
        assert(x + flatten(gs.take(k)) =~= y + segment_tokens(g));
        lemma_falses(st, d);
        match g {
            Segment::Tok(t) => {
                assert(y + segment_tokens(g) =~= y.push(t));
                assert(y.push(t).drop_last() =~= y);
            },
            Segment::Block { .. } => {
                assert(decreases_to!(gs => gs[k - 1]));
                lemma_merge_skipped_segment(y, g, bs, h, (skip + d) as nat, st + falses(d));
            },
        }
    }
}

/// A whole block met inside an overridden block leaves the merge as it
/// was.
proof fn lemma_merge_skipped_segment(
    x: Seq<SpecToken>,
    g: Segment,
    bs: Seq<(Seq<char>, Seq<SpecToken>)>,
    h: Seq<SpecToken>,
    skip: nat,
    st: Seq<bool>,
)
    requires
        segment_ok(g),
        g is Block,
        skip >= 1,
        count_true(st) >= 1,
        merge_run(x, bs) == (MergeState { out: h, skip, stack: st }),
    ensures
        merge_run(x + segment_tokens(g), bs) == (MergeState { out: h, skip, stack: st }),
    decreases g, 1nat, 0nat,
{
    if let Segment::Block { open, name, body, close } = g {
        lemma_take_all(body);
        lemma_count_push(st, true);
        lemma_falses(st.push(true), 0);
        let x1 = x.push(open);
        assert(x1.drop_last() =~= x);
        lemma_merge_skipped_body(x1, body, bs, body.len() as int, h, skip + 1, st.push(true));
        let x2 = x1 + flatten(body);
        let x3 = x2.push(close);
        assert(x3.drop_last() =~= x2);
        assert(x + segment_tokens(g) =~= x3);
    }
}

/// Merge of a token outside any block.
proof fn lemma_merge_tok(x: Seq<SpecToken>, t: SpecToken, bs: Seq<(Seq<char>, Seq<SpecToken>)>)
    requires
        !is_block_open(t),
        merge_run(x, bs).skip == 0,
        all_false(merge_run(x, bs).stack),
    ensures
        merge_run(x.push(t), bs).out == merge_run(x, bs).out.push(t),
        merge_run(x.push(t), bs).skip == 0,
        all_false(merge_run(x.push(t), bs).stack),
{
    lemma_all_false_count(merge_run(x, bs).stack);
    assert(x.push(t).drop_last() =~= x);
    assert(x.push(t).last() == t);
}

proof fn lemma_merge_segments(gs: Seq<Segment>, bs: Seq<(Seq<char>, Seq<SpecToken>)>)
    requires
        segments_ok(gs),
    ensures
        merge_run(flatten(gs), bs).out == merged(gs, bs),
        merge_run(flatten(gs), bs).skip == 0,
        all_false(merge_run(flatten(gs), bs).stack),
    decreases gs.len(),
{
    if gs.len() == 0 {
        assert(all_false(Seq::<bool>::empty()));
    } else {
        let init = gs.subrange(0, gs.len() - 1);
        assert(segments_ok(init)) by {
            assert forall|i: int| 0 <= i < init.len() implies segment_ok(#[trigger] init[i]) by {
                assert(init[i] == gs[i]);
            }
        }
        lemma_merge_segments(init, bs);
        let g = gs[gs.len() - 1];
        assert(segment_ok(g));
        let x = flatten(init);
        let s0 = merge_run(x, bs);
        match g {
            Segment::Tok(t) => {
                lemma_merge_tok(x, t, bs);
                assert(x + segment_tokens(g) =~= x.push(t));
                assert(merged(init, bs).push(t) =~= merged(init, bs) + merged_segment(g, bs));
            },
            Segment::Block { .. } => {
                lemma_merge_kept_segment(x, g, bs, s0.out, s0.stack);
            },
        }
    }
}

/// Collection inside the child's block `n`, over the first `k` segments
/// of a content `gs`: every token is kept in the block.
proof fn lemma_collect_body(
    x: Seq<SpecToken>,
    gs: Seq<Segment>,
    k: int,
    blocks: Seq<(Seq<char>, Seq<SpecToken>)>,
    n: Seq<char>,
    c: Seq<SpecToken>,
    st: Seq<bool>,
)
    requires
        segments_ok(gs),
        balanced_body(gs),
        0 <= k <= gs.len(),
        count_true(st) >= 1,
        collect_run(x) == (CollectState {
            blocks,
            current: Some(n),
            current_tokens: c,
            stack: st,
        }),
    ensures
        collect_run(x + flatten(gs.take(k))) == (CollectState {
            blocks,
            current: Some(n),
            current_tokens: c + flatten(gs.take(k)),
            stack: st + falses(segment_depth(gs.take(k))),
        }),
    decreases gs, 0nat, k,
{
    lemma_take_all(gs);
    lemma_falses(st, 0);
    if k == 0 {
        assert(x + flatten(gs.take(0)) =~= x);
        assert(c + flatten(gs.take(0)) =~= c);
    } else {
        lemma_collect_body(x, gs, k - 1, blocks, n, c, st);
        lemma_segment_prefix(gs, k, Seq::empty());
        let g = gs[k - 1];
        assert(segment_ok(g));
        let d = segment_depth(gs.take(k - 1));
        assert(segment_depth(gs.take(k - 1)) >= 0);
        assert(segment_depth(gs.take(k)) >= 0);
        let y = x + flatten(gs.take(k - 1));
        let cy = c + flatten(gs.take(k - 1));
        assert(x + flatten(gs.take(k)) =~= y + segment_tokens(g));
        assert(c + flatten(gs.take(k)) =~= cy + segment_tokens(g));
        lemma_falses(st, d);
        match g {
            Segment::Tok(t) => {
                assert(y + segment_tokens(g) =~= y.push(t));
                assert(y.push(t).drop_last() =~= y);
                assert(cy + segment_tokens(g) =~= cy.push(t));
            },
            Segment::Block { .. } => {
                assert(decreases_to!(gs => gs[k - 1]));
                lemma_collect_segment(y, g, blocks, n, cy, st + falses(d));
            },
        }
    }
}

/// A whole block inside the child's block `n` is kept in it.
proof fn lemma_collect_segment(
    x: Seq<SpecToken>,
    g: Segment,
    blocks: Seq<(Seq<char>, Seq<SpecToken>)>,
    n: Seq<char>,
    c: Seq<SpecToken>,
    st: Seq<bool>,
)
    requires
        segment_ok(g),
        g is Block,
        count_true(st) >= 1,
        collect_run(x) == (CollectState {
            blocks,
            current: Some(n),
            current_tokens: c,
            stack: st,
        }),
    ensures
        collect_run(x + segment_tokens(g)) == (CollectState {
            blocks,
            current: Some(n),
            current_tokens: c + segment_tokens(g),
            stack: st,
        }),
    decreases g, 1nat, 0nat,
{
    if let Segment::Block { open, name, body, close } = g {
        lemma_take_all(body);
        lemma_count_push(st, true);
        lemma_falses(st.push(true), 0);
        let x1 = x.push(open);
        assert(x1.drop_last() =~= x);
        lemma_collect_body(x1, body, body.len() as int, blocks, n, c.push(open), st.push(true));
        let x2 = x1 + flatten(body);
        let x3 = x2.push(close);
        assert(x3.drop_last() =~= x2);
        assert(x + segment_tokens(g) =~= x3);
        assert((c.push(open) + flatten(body)).push(close) =~= c + segment_tokens(g));
    }
}

/// Collection of a token outside any block.
proof fn lemma_collect_tok(x: Seq<SpecToken>, t: SpecToken)
    requires
        !is_block_open(t),
        collect_run(x).current is None,
        collect_run(x).current_tokens == Seq::<SpecToken>::empty(),
        all_false(collect_run(x).stack),
    ensures
        collect_run(x.push(t)).blocks == collect_run(x).blocks,
        collect_run(x.push(t)).current is None,
        collect_run(x.push(t)).current_tokens == Seq::<SpecToken>::empty(),
        all_false(collect_run(x.push(t)).stack),
{
    lemma_all_false_count(collect_run(x).stack);
    assert(x.push(t).drop_last() =~= x);
    assert(x.push(t).last() == t);
}

proof fn lemma_collect_segments(gs: Seq<Segment>)
    requires
        segments_ok(gs),
    ensures
        collect_run(flatten(gs)).blocks == block_contents(gs),
        collect_run(flatten(gs)).current is None,
        collect_run(flatten(gs)).current_tokens == Seq::<SpecToken>::empty(),
        all_false(collect_run(flatten(gs)).stack),
    decreases gs.len(),
{
    if gs.len() == 0 {
        assert(all_false(Seq::<bool>::empty()));
    } else {
        let init = gs.subrange(0, gs.len() - 1);
        assert(init =~= gs.drop_last());
        assert(segments_ok(init)) by {
            assert forall|i: int| 0 <= i < init.len() implies segment_ok(#[trigger] init[i]) by {
                assert(init[i] == gs[i]);
            }
        }
        lemma_collect_segments(init);
        let g = gs[gs.len() - 1];
        assert(g == gs.last());
        assert(segment_ok(g));
        let x = flatten(init);
        let s0 = collect_run(x);
        match g {
            Segment::Tok(t) => {
                lemma_collect_tok(x, t);
                assert(x + segment_tokens(g) =~= x.push(t));
                assert(block_contents(gs) =~= block_contents(init));
            },
            Segment::Block { open, name, body, close } => {
                let st = s0.stack;
                lemma_all_false_count(st);
                lemma_count_push(st, true);
                lemma_take_all(body);
                let x1 = x.push(open);
                assert(x1.drop_last() =~= x);
                lemma_collect_body(
                    x1,
                    body,
                    body.len() as int,
                    s0.blocks,
                    name,
                    Seq::empty(),
                    st.push(true),
                );
                lemma_falses(st.push(true), 0);
                assert(Seq::<SpecToken>::empty() + flatten(body) =~= flatten(body));
                let x2 = x1 + flatten(body);
                let x3 = x2.push(close);
                assert(x3.drop_last() =~= x2);
                assert(x + segment_tokens(g) =~= x3);
            },
        }
    }
}

/// Collecting the blocks of a child made of the segments `gs` gives the
/// name and whole content of each of its outermost blocks, in order; the
/// blocks nested in them stay inside that content. Braces (`}`) close an
/// `if` or a `for` as `endif` and `endfor` do.
pub proof fn law_collect_blocks(gs: Seq<Segment>)
    requires
        segments_ok(gs),
    ensures
        collect_run(flatten(gs)).blocks == block_contents(gs),
{
    lemma_collect_segments(gs);
}

/// Merging overrides `bs` into a parent made of the segments `gs`, blocks
/// nested at any depth: each parent block that `bs` names, and that is not
/// inside a block already replaced, gets the last override of that name
/// as its content; a block that `bs` does not name keeps its tags and has
/// the blocks inside it merged in the same way; every other token stays in
/// place.
pub proof fn law_merge_blocks(gs: Seq<Segment>, bs: Seq<(Seq<char>, Seq<SpecToken>)>)
    requires
        segments_ok(gs),
    ensures
        merge_run(flatten(gs), bs).out == merged(gs, bs),
{
    lemma_merge_segments(gs, bs);
}

/// Template inheritance: merging a child made of the segments `child`
/// into a parent made of the segments `parent` gives the parent in which
/// every block that the child also defines at its top level, at whatever
/// depth it stands in the parent and unless an enclosing block was
/// replaced, holds the child's content for it (the child's last block of
/// that name), every other token unchanged.
pub proof fn law_inheritance(child: Seq<Segment>, parent: Seq<Segment>)
    requires
        segments_ok(child),
        segments_ok(parent),
    ensures
        merge_run(flatten(parent), collect_run(flatten(child)).blocks).out == merged(
            parent,
            block_contents(child),
        ),
{
    law_collect_blocks(child);
    law_merge_blocks(parent, block_contents(child));
}

/// A child that overrides no block leaves its parent's tokens as they are.
pub proof fn law_merge_without_overrides(parent: Seq<SpecToken>)
    ensures
        merge_run(parent, Seq::empty()).out == parent,
{
    lemma_merge_without_overrides(parent);
}

/// The tags that stripping may turn into comments: `block` tags, the
/// closing tags (one of which may end a block), and `extends` tags.
pub open spec fn may_be_stripped(t: SpecToken) -> bool {
    match instruction_tag(t) {
        Some(SpecTag::Block { .. }) | Some(SpecTag::Extends { .. }) | Some(SpecTag::EndBlock) | Some(
            SpecTag::EndIf,
        ) | Some(SpecTag::EndFor) | Some(SpecTag::GenericClose) => true,
        _ => false,
    }
}

proof fn lemma_strip_shape(ts: Seq<SpecToken>)
    ensures
        strip_run(ts).0.len() == ts.len(),
        forall|i: int|
            0 <= i < ts.len() ==> (#[trigger] strip_run(ts).0[i] == ts[i] || (strip_run(ts).0[i]
                == as_comment(ts[i]) && may_be_stripped(ts[i]))),
        forall|i: int|
            0 <= i < ts.len() && (is_block_open(ts[i]) || instruction_tag(ts[i]) matches Some(
                SpecTag::Extends { .. },
            )) ==> #[trigger] strip_run(ts).0[i] == as_comment(ts[i]),
    decreases ts.len(),
{
    if ts.len() > 0 {
        lemma_strip_shape(ts.drop_last());
        let (out, stack) = strip_run(ts.drop_last());
        assert forall|i: int| 0 <= i < ts.len() implies (#[trigger] strip_run(ts).0[i] == ts[i]
            || (strip_run(ts).0[i] == as_comment(ts[i]) && may_be_stripped(ts[i]))) by {
            if i < ts.len() - 1 {
                assert(strip_run(ts).0[i] == out[i]);
                assert(ts[i] == ts.drop_last()[i]);
            } else {
                assert(ts[i] == ts.last());
            }
        }
    }
}

/// Stripping turns into comments only `block` tags, the closing tags of
/// blocks and `extends` tags: every other token, `include` tags among
/// them, stays as it is, so that the includes are expanded afterwards.
/// Every `block` tag and every `extends` tag does become a comment.
pub proof fn law_strip_touches_only_block_markers(ts: Seq<SpecToken>)
    ensures
        forall|i: int|
            0 <= i < ts.len() && (is_block_open(ts[i]) || instruction_tag(ts[i]) matches Some(
                SpecTag::Extends { .. },
            )) ==> #[trigger] strip_run(ts).0[i] == as_comment(ts[i]),
        forall|i: int|
            0 <= i < ts.len() && !may_be_stripped(ts[i]) ==> #[trigger] strip_run(ts).0[i] == ts[i],
        forall|i: int|
            0 <= i < ts.len() && is_include(ts[i]) ==> #[trigger] strip_run(ts).0[i] == ts[i],
{
    lemma_strip_shape(ts);
    assert forall|i: int| 0 <= i < ts.len() && is_include(ts[i]) implies #[trigger] strip_run(
        ts,
    ).0[i] == ts[i] by {
        assert(!may_be_stripped(ts[i]));
    }
}

/// Stripping template blocks keeps every token in place: static text and
/// the content, line and truncation markers of tags are unchanged; a tag
/// may only become a comment.
pub proof fn law_strip_keeps_tokens(ts: Seq<SpecToken>)
    ensures
        strip_run(ts).0.len() == ts.len(),
        forall|i: int|
            0 <= i < ts.len() && ts[i] is Static ==> #[trigger] strip_run(ts).0[i] == ts[i],
        forall|i: int|
            0 <= i < ts.len() && ts[i] is Tagged ==> #[trigger] strip_run(ts).0[i] == ts[i]
                || strip_run(ts).0[i] == as_comment(ts[i]),
{
    lemma_strip_shape(ts);
}

/// When strict mode finds no raw output, no tag of the template is a raw
/// output (`{%= %}`).
pub proof fn law_strict_mode_finds_every_raw_output(ts: Seq<SpecToken>)
    requires
        first_raw_output(ts) is None,
    ensures
        forall|i: int|
            0 <= i < ts.len() ==> !(match #[trigger] ts[i] {
                SpecToken::Tagged { content, line, delimiter, .. } => crate::build_logic::classifier::spec_classify(
                    content,
                    delimiter,
                    line,
                ) matches Ok(SpecTag::RawOutput { .. }),
                _ => false,
            }),
    decreases ts.len(),
{
    if ts.len() > 0 {
        law_strict_mode_finds_every_raw_output(ts.drop_first());
        assert forall|i: int| 0 < i < ts.len() implies ts[i] == ts.drop_first()[i - 1] by {}
    }
}

/// A path that passes the check is relative and has no `..` component: a
/// template can only name files at or below its own directory.
pub proof fn law_checked_paths_stay_below(raw: Seq<char>)
    ensures
        spec_check_template_path(raw) matches Ok(p) ==> {
            &&& !(p.len() > 0 && p[0] == '/')
            &&& forall|a: int| !#[trigger] parent_component_at(p, a)
        },
{
}

} // verus!
