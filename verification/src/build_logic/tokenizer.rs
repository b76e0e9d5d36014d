//! Pass 1: splits a template source into a flat sequence of `Static` and
//! `Tagged` tokens. Tokens borrow the source; no text is copied.

use vstd::prelude::*;
use crate::text::{chars_of, count_newlines, decimal, lemma_count_newlines_bound, push_decimal};

verus! {

/// The pair of delimiters that opened a `Tagged` token.
#[derive(Debug, Clone, Copy, PartialEq, Eq, Structural)]
pub enum DelimiterType {
    /// `{% ... %}`
    Instruction,
    /// `{# ... #}`
    Comment,
}

/// A token of pass 1. Borrows the source it was cut from.
#[derive(Debug, Clone, Copy, PartialEq, Eq)]
pub enum Token<'a> {
    Static { text: &'a str },
    Tagged {
        /// Raw content between the delimiters, truncation `-` markers
        /// excluded; neither trimmed nor classified.
        content: &'a str,
        /// 1-indexed line on which the opening delimiter begins.
        line: usize,
        delimiter: DelimiterType,
        /// `{%-` or `{#-`
        trim_left: bool,
        /// `-%}` or `-#}`
        trim_right: bool,
    },
}

/// The mathematical value of a token: its texts as character sequences.
pub enum SpecToken {
    Static { text: Seq<char> },
    Tagged {
        content: Seq<char>,
        line: nat,
        delimiter: DelimiterType,
        trim_left: bool,
        trim_right: bool,
    },
}

impl<'a> View for Token<'a> {
    type V = SpecToken;

    open spec fn view(&self) -> SpecToken {
        match *self {
            Token::Static { text } => SpecToken::Static { text: text@ },
            Token::Tagged { content, line, delimiter, trim_left, trim_right } => SpecToken::Tagged {
                content: content@,
                line: line as nat,
                delimiter,
                trim_left,
                trim_right,
            },
        }
    }
}

/// The values of a sequence of tokens.
pub open spec fn tokens_view<'a>(ts: Seq<Token<'a>>) -> Seq<SpecToken> {
    ts.map_values(|t: Token<'a>| t@)
}

/// Error of pass 1: an opening delimiter with no matching closing one.
#[derive(Debug, Clone, Copy, PartialEq, Eq, Structural)]
pub struct TokenizeError {
    /// Line of the opening delimiter that is never closed.
    pub line: usize,
    pub delimiter: DelimiterType,
}

/// Text of the error: the line and the delimiters of the tag left open.
pub open spec fn tokenize_message(line: nat, d: DelimiterType) -> Seq<char> {
    "tmplx build error line "@ + decimal(line) + ": opened tag '"@ + opener(d)
        + "' never closed (no matching '"@ + closer(d) + "' found)."@
}

impl TokenizeError {
    /// The build error reported for this tag.
    pub fn message(&self) -> (r: String)
        ensures
            r@ == tokenize_message(self.line as nat, self.delimiter),
    {
        let (opening, closing) = match self.delimiter {
            DelimiterType::Instruction => ("{%", "%}"),
            DelimiterType::Comment => ("{#", "#}"),
        };
        proof {
            reveal_strlit("{%");
            reveal_strlit("%}");
            reveal_strlit("{#");
            reveal_strlit("#}");
        }
        assert(opening@ == opener(self.delimiter));
        assert(closing@ == closer(self.delimiter));
        let mut out = String::new();
        out.append("tmplx build error line ");
        push_decimal(&mut out, self.line);
        out.append(": opened tag '");
        out.append(opening);
        out.append("' never closed (no matching '");
        out.append(closing);
        out.append("' found).");
        out
    }
}

/// The second character of a delimiter pair: `%` or `#`.
pub open spec fn delimiter_mark(d: DelimiterType) -> char {
    match d {
        DelimiterType::Instruction => '%',
        DelimiterType::Comment => '#',
    }
}

/// `{%` or `{#`.
pub open spec fn opener(d: DelimiterType) -> Seq<char> {
    seq!['{', delimiter_mark(d)]
}

/// `%}` or `#}`.
pub open spec fn closer(d: DelimiterType) -> Seq<char> {
    seq![delimiter_mark(d), '}']
}

/// An opening delimiter starts at position `j` of `s`.
pub open spec fn opener_at(s: Seq<char>, j: int) -> bool {
    &&& 0 <= j
    &&& j + 1 < s.len()
    &&& s[j] == '{'
    &&& (s[j + 1] == '%' || s[j + 1] == '#')
}

/// First position `i >= from` at which an opening delimiter starts, with
/// its kind.
pub open spec fn next_opener(s: Seq<char>, from: int) -> Option<(int, DelimiterType)>
    decreases s.len() - from,
{
    if from + 1 >= s.len() {
        None
    } else if s[from] == '{' && s[from + 1] == '%' {
        Some((from, DelimiterType::Instruction))
    } else if s[from] == '{' && s[from + 1] == '#' {
        Some((from, DelimiterType::Comment))
    } else {
        next_opener(s, from + 1)
    }
}

/// The two characters `a b` occur at position `j` of `s`.
pub open spec fn pair_at(s: Seq<char>, a: char, b: char, j: int) -> bool {
    0 <= j && j + 1 < s.len() && s[j] == a && s[j + 1] == b
}

/// First position `i >= from` at which the two characters `a b` occur.
pub open spec fn find_pair(s: Seq<char>, a: char, b: char, from: int) -> Option<int>
    decreases s.len() - from,
{
    if from + 1 >= s.len() {
        None
    } else if s[from] == a && s[from + 1] == b {
        Some(from)
    } else {
        find_pair(s, a, b, from + 1)
    }
}

pub proof fn lemma_next_opener(s: Seq<char>, from: int)
    requires
        0 <= from,
    ensures
        match next_opener(s, from) {
            Some((i, d)) => {
                &&& from <= i
                &&& i + 1 < s.len()
                &&& s.subrange(i, i + 2) == opener(d)
                &&& forall|j: int| from <= j < i ==> !#[trigger] opener_at(s, j)
            },
            None => forall|j: int| from <= j ==> !#[trigger] opener_at(s, j),
        },
    decreases s.len() - from,
{
    if from + 1 < s.len() {
        lemma_next_opener(s, from + 1);
        if let Some((i, d)) = next_opener(s, from) {
            assert(s.subrange(i, i + 2) =~= opener(d));
        }
    }
}

pub proof fn lemma_find_pair(s: Seq<char>, a: char, b: char, from: int)
    requires
        0 <= from,
    ensures
        match find_pair(s, a, b, from) {
            Some(i) => {
                &&& from <= i
                &&& i + 1 < s.len()
                &&& s[i] == a
                &&& s[i + 1] == b
                &&& forall|j: int| from <= j < i ==> !#[trigger] pair_at(s, a, b, j)
            },
            None => forall|j: int| from <= j ==> !#[trigger] pair_at(s, a, b, j),
        },
    decreases s.len() - from,
{
    if from + 1 < s.len() {
        lemma_find_pair(s, a, b, from + 1);
    }
}

/// Tokenization of `s` from position `pos`: the tokens of `s[pos..]`, or
/// the line and kind of the first opening delimiter that is never closed.
pub open spec fn tokenize_from(s: Seq<char>, pos: int) -> Result<Seq<SpecToken>, (nat, DelimiterType)>
    decreases s.len() - pos,
{
    if pos < 0 || pos > s.len() {
        Ok(Seq::empty())
    } else {
        match next_opener(s, pos) {
            None => Ok(seq![SpecToken::Static { text: s.subrange(pos, s.len() as int) }]),
            Some((start, d)) => {
                let line = 1 + count_newlines(s.subrange(0, start));
                let after = start + 2;
                let trim_left = after < s.len() && s[after] == '-';
                let cs = if trim_left { after + 1 } else { after };
                match find_pair(s, delimiter_mark(d), '}', cs) {
                    None => Err((line, d)),
                    Some(close) => {
                        proof {
                            lemma_next_opener(s, pos);
                            lemma_find_pair(s, delimiter_mark(d), '}', cs);
                        }
                        let trim_right = close > cs && s[close - 1] == '-';
                        let ce = if trim_right { close - 1 } else { close };
                        let tag = SpecToken::Tagged {
                            content: s.subrange(cs, ce),
                            line,
                            delimiter: d,
                            trim_left,
                            trim_right,
                        };
                        match tokenize_from(s, close + 2) {
                            Ok(rest) => Ok(
                                seq![SpecToken::Static { text: s.subrange(pos, start) }, tag] + rest,
                            ),
                            Err(e) => Err(e),
                        }
                    },
                }
            },
        }
    }
}

/// The tokens of a whole source.
pub open spec fn spec_tokenize(s: Seq<char>) -> Result<Seq<SpecToken>, (nat, DelimiterType)> {
    tokenize_from(s, 0)
}

/// `prefix` put in front of the tokens of a result; errors pass through.
pub open spec fn prepend_tokens(
    prefix: Seq<SpecToken>,
    r: Result<Seq<SpecToken>, (nat, DelimiterType)>,
) -> Result<Seq<SpecToken>, (nat, DelimiterType)> {
    match r {
        Ok(t) => Ok(prefix + t),
        Err(e) => Err(e),
    }
}

/// The value of what `try_tokenize` returns.
pub open spec fn tokenize_result_view<'a>(r: Result<Vec<Token<'a>>, TokenizeError>) -> Result<
    Seq<SpecToken>,
    (nat, DelimiterType),
> {
    match r {
        Ok(ts) => Ok(tokens_view(ts@)),
        Err(e) => Err((e.line as nat, e.delimiter)),
    }
}

/// First position `i >= start` at which an opening delimiter starts.
fn find_next_delimiter(s: &Vec<char>, start: usize) -> (r: Option<(usize, DelimiterType)>)
    ensures
        match r {
            None => next_opener(s@, start as int) is None,
            Some((i, d)) => next_opener(s@, start as int) == Some((i as int, d)),
        },
{
    let mut i = start;
    while i < s.len() && i + 1 < s.len()
        invariant
            start <= i,
            next_opener(s@, start as int) == next_opener(s@, i as int),
        decreases s@.len() - i,
    {
        if s[i] == '{' {
            if s[i + 1] == '%' {
                return Some((i, DelimiterType::Instruction));
            }
            if s[i + 1] == '#' {
                return Some((i, DelimiterType::Comment));
            }
        }
        i += 1;
    }
    None
}

/// First position `i >= from` at which the closing delimiter of kind `d`
/// starts.
fn find_closing(s: &Vec<char>, d: DelimiterType, from: usize) -> (r: Option<usize>)
    ensures
        match r {
            None => find_pair(s@, delimiter_mark(d), '}', from as int) is None,
            Some(i) => find_pair(s@, delimiter_mark(d), '}', from as int) == Some(i as int),
        },
{
    let mark = match d {
        DelimiterType::Instruction => '%',
        DelimiterType::Comment => '#',
    };
    let mut i = from;
    while i < s.len() && i + 1 < s.len()
        invariant
            from <= i,
            mark == delimiter_mark(d),
            find_pair(s@, mark, '}', from as int) == find_pair(s@, mark, '}', i as int),
        decreases s@.len() - i,
    {
        if s[i] == mark && s[i + 1] == '}' {
            return Some(i);
        }
        i += 1;
    }
    None
}

/// Pass 1: splits `source` into `Static` / `Tagged` tokens. Every opening
/// delimiter (`{%` or `{#`) must have its matching closing delimiter after
/// it: the build fails on any other source, and `try_tokenize` says which
/// opening is left unclosed.
pub fn tokenize(source: &str) -> (r: Vec<Token<'_>>)
    requires
        spec_tokenize(source@) is Ok,
    ensures
        spec_tokenize(source@) == Ok::<Seq<SpecToken>, (nat, DelimiterType)>(tokens_view(r@)),
{
    match try_tokenize(source) {
        Ok(tokens) => tokens,
        Err(_) => Vec::new(),
    }
}

/// Pass 1, reporting failure: splits `source` into `Static` / `Tagged`
/// tokens, or reports the first opening delimiter (`{%` or `{#`) that has
/// no matching closing delimiter before the end.
pub fn try_tokenize(source: &str) -> (res: Result<Vec<Token<'_>>, TokenizeError>)
    ensures
        tokenize_result_view(res) == spec_tokenize(source@),
{
    let s = chars_of(source);
    let n = s.len();
    let mut tokens: Vec<Token<'_>> = Vec::new();
    let mut pos: usize = 0;
    let mut line: usize = 1;
    let mut last_counted: usize = 0;

    assert(prepend_tokens(tokens_view(tokens@), tokenize_from(s@, 0)) == tokenize_from(s@, 0)) by {
        assert(tokens_view(tokens@) =~= Seq::<SpecToken>::empty());
        match tokenize_from(s@, 0) {
            Ok(t) => assert(Seq::<SpecToken>::empty() + t =~= t),
            Err(_) => {},
        }
    }

    loop
        invariant
            s@ == source@,
            n == s@.len(),
            pos <= n,
            last_counted <= pos,
            line == 1 + count_newlines(s@.subrange(0, last_counted as int)),
            tokenize_from(s@, 0) == prepend_tokens(tokens_view(tokens@), tokenize_from(s@, pos as int)),
        decreases n - pos,
    {
        proof {
            lemma_next_opener(s@, pos as int);
        }
        match find_next_delimiter(&s, pos) {
            None => {
                let ghost old_tokens = tokens@;
                tokens.push(Token::Static { text: source.substring_char(pos, n) });
                assert(tokens_view(tokens@) =~= tokens_view(old_tokens) + seq![
                    SpecToken::Static { text: s@.subrange(pos as int, n as int) },
                ]);
                return Ok(tokens);
            },
            Some((tag_start, delimiter)) => {
                while last_counted < tag_start
                    invariant
                        last_counted <= tag_start,
                        tag_start < n,
                        n == s@.len(),
                        line == 1 + count_newlines(s@.subrange(0, last_counted as int)),
                    decreases tag_start - last_counted,
                {
                    proof {
                        assert(s@.subrange(0, last_counted + 1).drop_last() =~= s@.subrange(
                            0,
                            last_counted as int,
                        ));
                        lemma_count_newlines_bound(s@.subrange(0, last_counted + 1));
                    }
                    if s[last_counted] == '\n' {
                        line += 1;
                    }
                    last_counted += 1;
                }
                let after = tag_start + 2;
                let trim_left = after < n && s[after] == '-';
                let content_start = if trim_left {
                    after + 1
                } else {
                    after
                };
                proof {
                    lemma_find_pair(s@, delimiter_mark(delimiter), '}', content_start as int);
                }
                let closing_start = match find_closing(&s, delimiter, content_start) {
                    None => {
                        return Err(TokenizeError { line, delimiter });
                    },
                    Some(c) => c,
                };
                let trim_right = closing_start > content_start && s[closing_start - 1] == '-';
                let content_end = if trim_right {
                    closing_start - 1
                } else {
                    closing_start
                };
                let ghost old_tokens = tokens@;
                let st = Token::Static { text: source.substring_char(pos, tag_start) };
                let tg = Token::Tagged {
                    content: source.substring_char(content_start, content_end),
                    line,
                    delimiter,
                    trim_left,
                    trim_right,
                };
                tokens.push(st);
                tokens.push(tg);
                assert(tokens_view(tokens@) =~= tokens_view(old_tokens) + seq![st@, tg@]);
                proof {
                    let rest = tokenize_from(s@, closing_start + 2);
                    match rest {
                        Ok(t) => {
                            assert(tokens_view(old_tokens) + (seq![st@, tg@] + t) =~= tokens_view(
                                old_tokens,
                            ) + seq![st@, tg@] + t);
                        },
                        Err(_) => {},
                    }
                }
                pos = closing_start + 2;
            },
        }
    }
}

} // verus!

verus! {

/// The source text that a token stands for: a static text as is, a tag
/// with its delimiters and truncation markers.
pub open spec fn token_source(t: SpecToken) -> Seq<char> {
    match t {
        SpecToken::Static { text } => text,
        SpecToken::Tagged { content, delimiter, trim_left, trim_right, .. } => opener(delimiter) + (
        if trim_left {
            seq!['-']
        } else {
            Seq::empty()
        }) + content + (if trim_right {
            seq!['-']
        } else {
            Seq::empty()
        }) + closer(delimiter),
    }
}

/// The source text that a sequence of tokens stands for.
pub open spec fn reconstruct(ts: Seq<SpecToken>) -> Seq<char>
    decreases ts.len(),
{
    if ts.len() == 0 {
        Seq::empty()
    } else {
        token_source(ts[0]) + reconstruct(ts.drop_first())
    }
}

/// Tokens alternate `Static`, `Tagged`, ..., `Static`: they start and end
/// with a static text.
pub open spec fn alternates(ts: Seq<SpecToken>) -> bool {
    &&& ts.len() % 2 == 1
    &&& forall|i: int| 0 <= i < ts.len() ==> ((#[trigger] ts[i] is Static) <==> i % 2 == 0)
}

/// No static text contains an opening delimiter.
pub open spec fn statics_free_of_openers(ts: Seq<SpecToken>) -> bool {
    forall|i: int, j: int|
        0 <= i < ts.len() && #[trigger] ts[i] is Static ==> !#[trigger] opener_at(
            ts[i]->Static_text,
            j,
        )
}

proof fn lemma_reconstruct_two(a: SpecToken, b: SpecToken, rest: Seq<SpecToken>)
    ensures
        reconstruct(seq![a, b] + rest) == token_source(a) + token_source(b) + reconstruct(rest),
{
    let ts = seq![a, b] + rest;
    let tail = seq![b] + rest;
    assert(ts.drop_first() =~= tail);
    assert(tail.drop_first() =~= rest);
    assert(ts[0] == a);
    assert(tail[0] == b);
    assert(reconstruct(tail) == token_source(b) + reconstruct(rest));
    assert(reconstruct(ts) == token_source(a) + reconstruct(tail));
    assert(token_source(a) + (token_source(b) + reconstruct(rest)) =~= token_source(a)
        + token_source(b) + reconstruct(rest));
}

proof fn lemma_reconstruct_one(a: SpecToken)
    ensures
        reconstruct(seq![a]) == token_source(a),
{
    let ts = seq![a];
    assert(ts.drop_first() =~= Seq::<SpecToken>::empty());
    assert(reconstruct(Seq::<SpecToken>::empty()) == Seq::<char>::empty());
    assert(token_source(a) + Seq::<char>::empty() =~= token_source(a));
}

/// The tag cut at `start .. close + 2` stands for exactly that part of `s`.
proof fn lemma_tag_source(s: Seq<char>, start: int, d: DelimiterType, close: int)
    requires
        0 <= start,
        start + 1 < s.len(),
        s.subrange(start, start + 2) == opener(d),
        start + 2 <= close,
        close + 1 < s.len(),
        s[close] == delimiter_mark(d),
        s[close + 1] == '}',
        ({
            let after = start + 2;
            let trim_left = after < s.len() && s[after] == '-';
            let cs = if trim_left { after + 1 } else { after };
            cs <= close
        }),
    ensures
        ({
            let after = start + 2;
            let trim_left = after < s.len() && s[after] == '-';
            let cs = if trim_left { after + 1 } else { after };
            let trim_right = close > cs && s[close - 1] == '-';
            let ce = if trim_right { close - 1 } else { close };
            token_source(
                SpecToken::Tagged {
                    content: s.subrange(cs, ce),
                    line: 0,
                    delimiter: d,
                    trim_left,
                    trim_right,
                },
            ) == s.subrange(start, close + 2)
        }),
{
    let after = start + 2;
    let trim_left = after < s.len() && s[after] == '-';
    let cs = if trim_left {
        after + 1
    } else {
        after
    };
    let trim_right = close > cs && s[close - 1] == '-';
    let ce = if trim_right {
        close - 1
    } else {
        close
    };
    let l: Seq<char> = if trim_left {
        seq!['-']
    } else {
        Seq::empty()
    };
    let r: Seq<char> = if trim_right {
        seq!['-']
    } else {
        Seq::empty()
    };
    assert(l =~= s.subrange(after, cs));
    assert(r =~= s.subrange(ce, close));
    assert(closer(d) =~= s.subrange(close, close + 2));
    assert(opener(d) + l + s.subrange(cs, ce) + r + closer(d) =~= s.subrange(start, close + 2));
}

/// One step of the tokenization: the laws carry over from the rest.
proof fn lemma_laws_step(
    s: Seq<char>,
    pos: int,
    start: int,
    close: int,
    st: SpecToken,
    tag: SpecToken,
    rest: Seq<SpecToken>,
)
    requires
        0 <= pos <= start,
        start + 2 <= close,
        close + 2 <= s.len(),
        st == (SpecToken::Static { text: s.subrange(pos, start) }),
        tag is Tagged,
        token_source(tag) == s.subrange(start, close + 2),
        forall|j: int| pos <= j < start ==> !#[trigger] opener_at(s, j),
        reconstruct(rest) == s.subrange(close + 2, s.len() as int),
        alternates(rest),
        statics_free_of_openers(rest),
    ensures
        ({
            let ts = seq![st, tag] + rest;
            &&& reconstruct(ts) == s.subrange(pos, s.len() as int)
            &&& alternates(ts)
            &&& statics_free_of_openers(ts)
        }),
{
    let ts = seq![st, tag] + rest;
    lemma_reconstruct_two(st, tag, rest);
    assert(reconstruct(ts) =~= s.subrange(pos, s.len() as int));
    assert forall|i: int| 0 <= i < ts.len() implies ((#[trigger] ts[i] is Static) <==> i % 2
        == 0) by {
        if i >= 2 {
            assert(ts[i] == rest[i - 2]);
        }
    }
    assert forall|i: int, j: int|
        0 <= i < ts.len() && #[trigger] ts[i] is Static implies !#[trigger] opener_at(
        ts[i]->Static_text,
        j,
    ) by {
        if i >= 2 {
            assert(ts[i] == rest[i - 2]);
        } else if i == 0 {
            if opener_at(s.subrange(pos, start), j) {
                assert(opener_at(s, pos + j));
            }
        }
    }
}

proof fn lemma_tokenize_from_laws(s: Seq<char>, pos: int)
    requires
        0 <= pos <= s.len(),
    ensures
        tokenize_from(s, pos) matches Ok(ts) ==> {
            &&& reconstruct(ts) == s.subrange(pos, s.len() as int)
            &&& alternates(ts)
            &&& statics_free_of_openers(ts)
        },
    decreases s.len() - pos,
{
    lemma_next_opener(s, pos);
    match next_opener(s, pos) {
        None => {
            let t = s.subrange(pos, s.len() as int);
            let ts = seq![SpecToken::Static { text: t }];
            lemma_reconstruct_one(ts[0]);
            assert forall|i: int, j: int|
                0 <= i < ts.len() && #[trigger] ts[i] is Static implies !#[trigger] opener_at(
                ts[i]->Static_text,
                j,
            ) by {
                if opener_at(t, j) {
                    assert(opener_at(s, pos + j));
                }
            }
        },
        Some((start, d)) => {
            let after = start + 2;
            let trim_left = after < s.len() && s[after] == '-';
            let cs = if trim_left {
                after + 1
            } else {
                after
            };
            lemma_find_pair(s, delimiter_mark(d), '}', cs);
            if let Some(close) = find_pair(s, delimiter_mark(d), '}', cs) {
                lemma_tokenize_from_laws(s, close + 2);
                if let Ok(rest) = tokenize_from(s, close + 2) {
                    let line = 1 + count_newlines(s.subrange(0, start));
                    let trim_right = close > cs && s[close - 1] == '-';
                    let ce = if trim_right {
                        close - 1
                    } else {
                        close
                    };
                    let st = SpecToken::Static { text: s.subrange(pos, start) };
                    let tag = SpecToken::Tagged {
                        content: s.subrange(cs, ce),
                        line,
                        delimiter: d,
                        trim_left,
                        trim_right,
                    };
                    lemma_tag_source(s, start, d, close);
                    assert(token_source(tag) == s.subrange(start, close + 2));
                    lemma_laws_step(s, pos, start, close, st, tag, rest);
                }
            }
        },
    }
}

/// A successful tokenization loses, adds and moves no character: the
/// tokens, written back with their delimiters and markers, give the
/// source. They alternate static text and tags, starting and ending with
/// static text, and no static text holds an opening delimiter.
pub proof fn law_tokenize_round_trip(s: Seq<char>)
    ensures
        spec_tokenize(s) matches Ok(ts) ==> {
            &&& reconstruct(ts) == s
            &&& alternates(ts)
            &&& statics_free_of_openers(ts)
        },
{
    lemma_tokenize_from_laws(s, 0);
    assert(s.subrange(0, s.len() as int) =~= s);
}


/// Each tag of `ts` records the line of `prefix + ts` on which it starts.
pub open spec fn lines_match(prefix: Seq<char>, ts: Seq<SpecToken>) -> bool {
    forall|i: int|
        0 <= i < ts.len() && #[trigger] ts[i] is Tagged ==> ts[i]->Tagged_line == 1
            + count_newlines(prefix + reconstruct(ts.take(i)))
}

proof fn lemma_tokenize_from_lines(s: Seq<char>, pos: int)
    requires
        0 <= pos <= s.len(),
    ensures
        tokenize_from(s, pos) matches Ok(ts) ==> lines_match(s.subrange(0, pos), ts),
    decreases s.len() - pos,
{
    lemma_next_opener(s, pos);
    match next_opener(s, pos) {
        None => {},
        Some((start, d)) => {
            let after = start + 2;
            let trim_left = after < s.len() && s[after] == '-';
            let cs = if trim_left {
                after + 1
            } else {
                after
            };
            lemma_find_pair(s, delimiter_mark(d), '}', cs);
            if let Some(close) = find_pair(s, delimiter_mark(d), '}', cs) {
                lemma_tokenize_from_lines(s, close + 2);
                lemma_tokenize_from_laws(s, close + 2);
                if let Ok(rest) = tokenize_from(s, close + 2) {
                    let line = 1 + count_newlines(s.subrange(0, start));
                    let trim_right = close > cs && s[close - 1] == '-';
                    let ce = if trim_right {
                        close - 1
                    } else {
                        close
                    };
                    let st = SpecToken::Static { text: s.subrange(pos, start) };
                    let tag = SpecToken::Tagged {
                        content: s.subrange(cs, ce),
                        line,
                        delimiter: d,
                        trim_left,
                        trim_right,
                    };
                    let ts = seq![st, tag] + rest;
                    lemma_tag_source(s, start, d, close);
                    assert forall|i: int| 0 <= i < ts.len() && #[trigger] ts[i] is Tagged implies ts[i]->Tagged_line
                        == 1 + count_newlines(s.subrange(0, pos) + reconstruct(ts.take(i))) by {
                        if i == 1 {
                            assert(ts.take(1) =~= seq![st]);
                            lemma_reconstruct_one(st);
                            assert(s.subrange(0, pos) + s.subrange(pos, start) =~= s.subrange(0, start));
                        } else {
                            assert(i >= 2);
                            assert(ts[i] == rest[i - 2]);
                            assert(ts.take(i) =~= seq![st, tag] + rest.take(i - 2));
                            lemma_reconstruct_two(st, tag, rest.take(i - 2));
                            assert(s.subrange(0, pos) + (token_source(st) + token_source(tag)
                                + reconstruct(rest.take(i - 2))) =~= s.subrange(0, close + 2)
                                + reconstruct(rest.take(i - 2)));
                        }
                    }
                }
            }
        },
    }
}

/// Every tag records the line on which its opening delimiter stands: one
/// more than the number of line feeds in the source before it.
pub proof fn law_tokenize_lines(s: Seq<char>)
    ensures
        spec_tokenize(s) matches Ok(ts) ==> lines_match(Seq::empty(), ts),
{
    lemma_tokenize_from_lines(s, 0);
    if let Ok(ts) = spec_tokenize(s) {
        assert(s.subrange(0, 0) =~= Seq::<char>::empty());
    }
}

/// A tag's content holds no closing delimiter of its own kind (`%}` in
/// `{% %}`, `#}` in `{# #}`): a tag ends at the first closer after it.
pub open spec fn holds_no_closer(t: SpecToken) -> bool {
    match t {
        SpecToken::Tagged { content, delimiter, .. } => forall|j: int|
            !#[trigger] pair_at(content, delimiter_mark(delimiter), '}', j),
        _ => true,
    }
}

proof fn lemma_tokenize_from_no_closer(s: Seq<char>, pos: int)
    requires
        0 <= pos <= s.len(),
    ensures
        tokenize_from(s, pos) matches Ok(ts) ==> forall|i: int|
            0 <= i < ts.len() ==> holds_no_closer(#[trigger] ts[i]),
    decreases s.len() - pos,
{
    lemma_next_opener(s, pos);
    if let Some((start, d)) = next_opener(s, pos) {
        let after = start + 2;
        let trim_left = after < s.len() && s[after] == '-';
        let cs = if trim_left {
            after + 1
        } else {
            after
        };
        let m = delimiter_mark(d);
        lemma_find_pair(s, m, '}', cs);
        if let Some(close) = find_pair(s, m, '}', cs) {
            lemma_tokenize_from_no_closer(s, close + 2);
            if let Ok(rest) = tokenize_from(s, close + 2) {
                let trim_right = close > cs && s[close - 1] == '-';
                let ce = if trim_right {
                    close - 1
                } else {
                    close
                };
                let content = s.subrange(cs, ce);
                assert forall|j: int| !#[trigger] pair_at(content, m, '}', j) by {
                    if pair_at(content, m, '}', j) {
                        assert(content[j] == s[cs + j]);
                        assert(content[j + 1] == s[cs + j + 1]);
                        assert(pair_at(s, m, '}', cs + j));
                    }
                }
                let ts = tokenize_from(s, pos)->Ok_0;
                let tag = SpecToken::Tagged {
                    content,
                    line: 1 + count_newlines(s.subrange(0, start)),
                    delimiter: d,
                    trim_left,
                    trim_right,
                };
                assert(ts == seq![SpecToken::Static { text: s.subrange(pos, start) }, tag] + rest);
                assert forall|i: int| 0 <= i < ts.len() implies holds_no_closer(#[trigger] ts[i]) by {
                    if i >= 2 {
                        assert(ts[i] == rest[i - 2]);
                    }
                }
            }
        }
    }
}

/// No tag produced by tokenization holds a closing delimiter of its own
/// kind: each tag stops at the first `%}` (or `#}`) after its opening.
pub proof fn law_tokenize_contents_hold_no_closer(s: Seq<char>)
    ensures
        spec_tokenize(s) matches Ok(ts) ==> forall|i: int|
            0 <= i < ts.len() ==> holds_no_closer(#[trigger] ts[i]),
{
    lemma_tokenize_from_no_closer(s, 0);
}

/// The truncation flags of a tag match its text: without `trim_left` the
/// content does not start with `-`, and without `trim_right` it does not
/// end with `-`. With the round trip, `trim_left` holds exactly when `-`
/// directly follows the opening delimiter, and `trim_right` exactly when a
/// `-` other than the left one directly precedes the closing delimiter.
pub open spec fn trim_flags_exact(t: SpecToken) -> bool {
    match t {
        SpecToken::Tagged { content, trim_left, trim_right, .. } => {
            &&& !trim_left ==> content.len() == 0 || content[0] != '-'
            &&& !trim_right ==> content.len() == 0 || content.last() != '-'
        },
        _ => true,
    }
}

proof fn lemma_tokenize_from_trim_flags(s: Seq<char>, pos: int)
    requires
        0 <= pos <= s.len(),
    ensures
        tokenize_from(s, pos) matches Ok(ts) ==> forall|i: int|
            0 <= i < ts.len() ==> trim_flags_exact(#[trigger] ts[i]),
    decreases s.len() - pos,
{
    lemma_next_opener(s, pos);
    if let Some((start, d)) = next_opener(s, pos) {
        let after = start + 2;
        let trim_left = after < s.len() && s[after] == '-';
        let cs = if trim_left {
            after + 1
        } else {
            after
        };
        let m = delimiter_mark(d);
        lemma_find_pair(s, m, '}', cs);
        if let Some(close) = find_pair(s, m, '}', cs) {
            lemma_tokenize_from_trim_flags(s, close + 2);
            if let Ok(rest) = tokenize_from(s, close + 2) {
                let trim_right = close > cs && s[close - 1] == '-';
                let ce = if trim_right {
                    close - 1
                } else {
                    close
                };
                let content = s.subrange(cs, ce);
                if content.len() > 0 {
                    assert(content[0] == s[cs]);
                    assert(content.last() == s[ce - 1]);
                }
                let ts = tokenize_from(s, pos)->Ok_0;
                let tag = SpecToken::Tagged {
                    content,
                    line: 1 + count_newlines(s.subrange(0, start)),
                    delimiter: d,
                    trim_left,
                    trim_right,
                };
                assert(trim_flags_exact(tag));
                assert(ts == seq![SpecToken::Static { text: s.subrange(pos, start) }, tag] + rest);
                assert forall|i: int| 0 <= i < ts.len() implies trim_flags_exact(#[trigger] ts[i]) by {
                    if i >= 2 {
                        assert(ts[i] == rest[i - 2]);
                    }
                }
            }
        }
    }
}

/// The truncation flags of every tag produced by tokenization match the
/// source: see `trim_flags_exact`.
pub proof fn law_tokenize_trim_flags(s: Seq<char>)
    ensures
        spec_tokenize(s) matches Ok(ts) ==> forall|i: int|
            0 <= i < ts.len() ==> trim_flags_exact(#[trigger] ts[i]),
{
    lemma_tokenize_from_trim_flags(s, 0);
}

} // verus!
