//! Pass 2: checks that `if` / `for` blocks are closed by the matching
//! `endif` / `endfor` (or by the generic `}`), over the whole token stream.

use vstd::prelude::*;
use crate::build_logic::classifier::{
    all_tags_classify, try_classify, spec_classify, ClassifiedTag, ClassifyError, SpecClassifyError, SpecTag,
};
use crate::build_logic::tokenizer::{tokens_view, DelimiterType, SpecToken, Token};
use crate::build_logic::truncation::{law_truncation_keeps_tags, spec_truncate};
use crate::text::{decimal, push_decimal};

verus! {

/// The kind of a block that stays open until closed.
#[derive(Debug, Clone, Copy, PartialEq, Eq, Structural)]
pub enum BlockType {
    If,
    For,
}

pub open spec fn spec_keyword(b: BlockType) -> Seq<char> {
    match b {
        BlockType::If => "if"@,
        BlockType::For => "for"@,
    }
}

pub open spec fn spec_closer(b: BlockType) -> Seq<char> {
    match b {
        BlockType::If => "endif"@,
        BlockType::For => "endfor"@,
    }
}

impl BlockType {
    /// The keyword that opens the block.
    pub fn keyword(self) -> (r: &'static str)
        ensures
            r@ == spec_keyword(self),
    {
        match self {
            BlockType::If => "if",
            BlockType::For => "for",
        }
    }

    /// The tag that closes the block.
    pub fn closer(self) -> (r: &'static str)
        ensures
            r@ == spec_closer(self),
    {
        match self {
            BlockType::If => "endif",
            BlockType::For => "endfor",
        }
    }
}

/// A block opened and not yet closed.
#[derive(Debug, Clone, Copy, PartialEq, Eq, Structural)]
pub struct OpenBlock {
    pub block_type: BlockType,
    /// Line of the opening tag.
    pub line: usize,
}

/// The value of an open block.
pub struct SpecOpenBlock {
    pub block_type: BlockType,
    pub line: nat,
}

impl View for OpenBlock {
    type V = SpecOpenBlock;

    open spec fn view(&self) -> SpecOpenBlock {
        SpecOpenBlock { block_type: self.block_type, line: self.line as nat }
    }
}

/// Why the block structure of a token stream is refused.
#[derive(Debug, Clone, Copy, PartialEq, Eq)]
pub enum ValidationError<'a> {
    /// The content of a tag could not be classified.
    Classify(ClassifyError<'a>),
    /// A closing tag (`encountered`) faces an open block of another kind.
    WrongType { line: usize, encountered: &'static str, open: OpenBlock },
    /// A closing tag (`encountered`) while no block is open.
    NoBlockOpen { line: usize, encountered: &'static str },
    /// A block is still open at the end; the most recently opened one.
    NeverClosed { open: OpenBlock },
}

/// The value of a validation error.
pub enum SpecValidationError {
    Classify(SpecClassifyError),
    WrongType { line: nat, encountered: Seq<char>, open: SpecOpenBlock },
    NoBlockOpen { line: nat, encountered: Seq<char> },
    NeverClosed { open: SpecOpenBlock },
}

impl<'a> View for ValidationError<'a> {
    type V = SpecValidationError;

    open spec fn view(&self) -> SpecValidationError {
        match *self {
            ValidationError::Classify(e) => SpecValidationError::Classify(e@),
            ValidationError::WrongType { line, encountered, open } => SpecValidationError::WrongType {
                line: line as nat,
                encountered: encountered@,
                open: open@,
            },
            ValidationError::NoBlockOpen { line, encountered } => SpecValidationError::NoBlockOpen {
                line: line as nat,
                encountered: encountered@,
            },
            ValidationError::NeverClosed { open } => SpecValidationError::NeverClosed {
                open: open@,
            },
        }
    }
}

/// A closing tag `encountered` at `line`: `Ok` with the open block it
/// closes (or leaves open) when the top of the stack is of kind `want`
/// (any kind when `want` is `None`), else the error.
pub open spec fn check_top(
    stack: Seq<SpecOpenBlock>,
    want: Option<BlockType>,
    line: nat,
    encountered: Seq<char>,
) -> Result<(), SpecValidationError> {
    if stack.len() == 0 {
        Err(SpecValidationError::NoBlockOpen { line, encountered })
    } else {
        match want {
            Some(k) => if stack.last().block_type == k {
                Ok(())
            } else {
                Err(SpecValidationError::WrongType { line, encountered, open: stack.last() })
            },
            None => Ok(()),
        }
    }
}

/// Effect of one classified tag at `line` on the stack of open blocks.
pub open spec fn validate_step(stack: Seq<SpecOpenBlock>, tag: SpecTag, line: nat) -> Result<
    Seq<SpecOpenBlock>,
    SpecValidationError,
> {
    match tag {
        SpecTag::If { .. } => Ok(stack.push(SpecOpenBlock { block_type: BlockType::If, line })),
        SpecTag::For { .. } => Ok(stack.push(SpecOpenBlock { block_type: BlockType::For, line })),
        SpecTag::Else => match check_top(stack, Some(BlockType::If), line, "else"@) {
            Ok(_) => Ok(stack),
            Err(e) => Err(e),
        },
        SpecTag::ElseIf { .. } => match check_top(stack, Some(BlockType::If), line, "else if"@) {
            Ok(_) => Ok(stack),
            Err(e) => Err(e),
        },
        SpecTag::EndIf => match check_top(stack, Some(BlockType::If), line, "endif"@) {
            Ok(_) => Ok(stack.drop_last()),
            Err(e) => Err(e),
        },
        SpecTag::EndFor => match check_top(stack, Some(BlockType::For), line, "endfor"@) {
            Ok(_) => Ok(stack.drop_last()),
            Err(e) => Err(e),
        },
        SpecTag::GenericClose => match check_top(stack, None, line, "}"@) {
            Ok(_) => Ok(stack.drop_last()),
            Err(e) => Err(e),
        },
        _ => Ok(stack),
    }
}

/// Validation of the tokens `ts[i..]` with `stack` open before them.
pub open spec fn validate_from(ts: Seq<SpecToken>, i: int, stack: Seq<SpecOpenBlock>) -> Result<
    (),
    SpecValidationError,
>
    decreases ts.len() - i,
{
    if i >= ts.len() {
        if stack.len() > 0 {
            Err(SpecValidationError::NeverClosed { open: stack.last() })
        } else {
            Ok(())
        }
    } else {
        match ts[i] {
            SpecToken::Static { .. } => validate_from(ts, i + 1, stack),
            SpecToken::Tagged { content, line, delimiter, .. } => match spec_classify(
                content,
                delimiter,
                line,
            ) {
                Err(e) => Err(SpecValidationError::Classify(e)),
                Ok(tag) => match validate_step(stack, tag, line) {
                    Err(e) => Err(e),
                    Ok(next) => validate_from(ts, i + 1, next),
                },
            },
        }
    }
}

/// Validation of a whole token stream.
pub open spec fn spec_validate(ts: Seq<SpecToken>) -> Result<(), SpecValidationError> {
    validate_from(ts, 0, Seq::empty())
}

/// The value of what `check_pairing` returns.
pub open spec fn validation_result_view<'a>(r: Result<(), ValidationError<'a>>) -> Result<
    (),
    SpecValidationError,
> {
    match r {
        Ok(()) => Ok(()),
        Err(e) => Err(e@),
    }
}

/// The values of a stack of open blocks.
pub open spec fn stack_view(s: Seq<OpenBlock>) -> Seq<SpecOpenBlock> {
    s.map_values(|b: OpenBlock| b@)
}

/// Text of a closing tag that faces an open block of another kind.
pub open spec fn wrong_type_message(line: nat, encountered: Seq<char>, open: SpecOpenBlock) -> Seq<
    char,
> {
    "tmplx build error line "@ + decimal(line) + ": '{% "@ + encountered
        + " %}' encountered while the block opened at line "@ + decimal(open.line) + " is a '"@
        + spec_keyword(open.block_type) + "' (expected '{% "@ + spec_closer(open.block_type)
        + " %}')."@
}

/// Text of a closing tag while no block is open.
pub open spec fn no_block_open_message(line: nat, encountered: Seq<char>) -> Seq<char> {
    "tmplx build error line "@ + decimal(line) + ": '{% "@ + encountered
        + " %}' encountered while no block is open."@
}

/// Text of a block left open at the end.
pub open spec fn never_closed_message(open: SpecOpenBlock) -> Seq<char> {
    "tmplx build error: block tag '{% "@ + spec_keyword(open.block_type) + " %}' opened at line "@
        + decimal(open.line) + " never closed."@
}

fn message_wrong_type(line_here: usize, tag_encountered: &str, open: &OpenBlock) -> (r: String)
    ensures
        r@ == wrong_type_message(line_here as nat, tag_encountered@, open@),
{
    let mut out = String::new();
    out.append("tmplx build error line ");
    push_decimal(&mut out, line_here);
    out.append(": '{% ");
    out.append(tag_encountered);
    out.append(" %}' encountered while the block opened at line ");
    push_decimal(&mut out, open.line);
    out.append(" is a '");
    out.append(open.block_type.keyword());
    out.append("' (expected '{% ");
    out.append(open.block_type.closer());
    out.append(" %}').");
    out
}

fn message_no_block_open(line_here: usize, tag_encountered: &str) -> (r: String)
    ensures
        r@ == no_block_open_message(line_here as nat, tag_encountered@),
{
    let mut out = String::new();
    out.append("tmplx build error line ");
    push_decimal(&mut out, line_here);
    out.append(": '{% ");
    out.append(tag_encountered);
    out.append(" %}' encountered while no block is open.");
    out
}

/// Text of a validation error.
pub open spec fn validation_message(e: SpecValidationError) -> Seq<char> {
    match e {
        SpecValidationError::Classify(c) => crate::build_logic::classifier::classify_message(c),
        SpecValidationError::WrongType { line, encountered, open } => wrong_type_message(
            line,
            encountered,
            open,
        ),
        SpecValidationError::NoBlockOpen { line, encountered } => no_block_open_message(
            line,
            encountered,
        ),
        SpecValidationError::NeverClosed { open } => never_closed_message(open),
    }
}

impl<'a> ValidationError<'a> {
    /// The build error reported for this token stream.
    pub fn message(&self) -> (r: String)
        ensures
            r@ == validation_message(self@),
    {
        match self {
            ValidationError::Classify(e) => e.message(),
            ValidationError::WrongType { line, encountered, open } => message_wrong_type(
                *line,
                encountered,
                open,
            ),
            ValidationError::NoBlockOpen { line, encountered } => message_no_block_open(
                *line,
                encountered,
            ),
            ValidationError::NeverClosed { open } => {
                let mut out = String::new();
                out.append("tmplx build error: block tag '{% ");
                out.append(open.block_type.keyword());
                out.append(" %}' opened at line ");
                push_decimal(&mut out, open.line);
                out.append(" never closed.");
                out
            },
        }
    }
}

/// Checks a closing tag against the top of `stack`.
fn check_top_exec(
    stack: &Vec<OpenBlock>,
    want: Option<BlockType>,
    line: usize,
    encountered: &'static str,
) -> (r: Result<(), ValidationError<'static>>)
    ensures
        validation_result_view(r) == check_top(stack_view(stack@), want, line as nat, encountered@),
{
    if stack.len() == 0 {
        return Err(ValidationError::NoBlockOpen { line, encountered });
    }
    let top = stack[stack.len() - 1];
    assert(stack_view(stack@).last() == top@);
    match want {
        Some(k) => {
            if top.block_type == k {
                Ok(())
            } else {
                Err(ValidationError::WrongType { line, encountered, open: top })
            }
        },
        None => Ok(()),
    }
}

/// Pass 2: checks that every tag of a token stream that must be valid
/// classifies and that `if` / `for` pair with `endif` / `endfor` (or `}`).
/// The build fails on any other stream; `check_pairing` says where.
pub fn validate_pairing<'a>(tokens: &[Token<'a>])
    requires
        spec_validate(tokens_view(tokens@)) is Ok,
{
    let _ = check_pairing(tokens);
}

/// Pass 2, reporting failure: checks the pairing of `if` / `for` with
/// `endif` / `endfor` (or `}`) over the whole token stream. Returns the
/// first mismatch met, an unclassifiable tag, or, when blocks remain open
/// at the end, the most recently opened one. No limit on the nesting depth.
pub fn check_pairing<'a>(tokens: &[Token<'a>]) -> (r: Result<(), ValidationError<'a>>)
    ensures
        validation_result_view(r) == spec_validate(tokens_view(tokens@)),
{
    let ghost ts = tokens_view(tokens@);
    let mut stack: Vec<OpenBlock> = Vec::new();
    let mut i: usize = 0;
    assert(stack_view(stack@) =~= Seq::<SpecOpenBlock>::empty());
    while i < tokens.len()
        invariant
            ts == tokens_view(tokens@),
            i <= tokens@.len(),
            spec_validate(ts) == validate_from(ts, i as int, stack_view(stack@)),
        decreases tokens@.len() - i,
    {
        let tok = tokens[i];
        assert(ts[i as int] == tok@);
        match tok {
            Token::Static { .. } => {},
            Token::Tagged { content, line, delimiter, .. } => {
                let ghost before = stack_view(stack@);
                let tag = match try_classify(content, delimiter, line) {
                    Ok(t) => t,
                    Err(e) => {
                        return Err(ValidationError::Classify(e));
                    },
                };
                match tag {
                    ClassifiedTag::If { .. } => {
                        stack.push(OpenBlock { block_type: BlockType::If, line });
                        assert(stack_view(stack@) =~= before.push(
                            SpecOpenBlock { block_type: BlockType::If, line: line as nat },
                        ));
                    },
                    ClassifiedTag::For { .. } => {
                        stack.push(OpenBlock { block_type: BlockType::For, line });
                        assert(stack_view(stack@) =~= before.push(
                            SpecOpenBlock { block_type: BlockType::For, line: line as nat },
                        ));
                    },
                    ClassifiedTag::Else => {
                        check_top_exec(&stack, Some(BlockType::If), line, "else")?;
                    },
                    ClassifiedTag::ElseIf { .. } => {
                        check_top_exec(&stack, Some(BlockType::If), line, "else if")?;
                    },
                    ClassifiedTag::EndIf => {
                        check_top_exec(&stack, Some(BlockType::If), line, "endif")?;
                        stack.pop();
                        assert(stack_view(stack@) =~= before.drop_last());
                    },
                    ClassifiedTag::EndFor => {
                        check_top_exec(&stack, Some(BlockType::For), line, "endfor")?;
                        stack.pop();
                        assert(stack_view(stack@) =~= before.drop_last());
                    },
                    ClassifiedTag::GenericClose => {
                        check_top_exec(&stack, None, line, "}")?;
                        stack.pop();
                        assert(stack_view(stack@) =~= before.drop_last());
                    },
                    _ => {},
                }
            },
        }
        i += 1;
    }
    if stack.len() > 0 {
        let top = stack[stack.len() - 1];
        assert(stack_view(stack@).last() == top@);
        return Err(ValidationError::NeverClosed { open: top });
    }
    Ok(())
}


/// Both tokens are comments (`{# #}`), whatever their content.
pub open spec fn both_comments(x: SpecToken, y: SpecToken) -> bool {
    &&& x matches SpecToken::Tagged { delimiter: DelimiterType::Comment, .. }
    &&& y matches SpecToken::Tagged { delimiter: DelimiterType::Comment, .. }
}

/// `a` and `b` differ at most in their static texts and in the contents of
/// their comments.
pub open spec fn same_structure(a: Seq<SpecToken>, b: Seq<SpecToken>) -> bool {
    &&& a.len() == b.len()
    &&& forall|k: int| 0 <= k < a.len() ==> (#[trigger] a[k] is Static <==> b[k] is Static)
    &&& forall|k: int|
        0 <= k < a.len() && a[k] is Tagged ==> #[trigger] a[k] == b[k] || both_comments(a[k], b[k])
}

/// Two token sequences of the same structure validate alike from the
/// same stack.
proof fn lemma_validate_ignores_statics(
    a: Seq<SpecToken>,
    b: Seq<SpecToken>,
    i: int,
    stack: Seq<SpecOpenBlock>,
)
    requires
        same_structure(a, b),
        0 <= i,
    ensures
        validate_from(a, i, stack) == validate_from(b, i, stack),
    decreases a.len() - i,
{
    if i < a.len() {
        if a[i] is Static {
            lemma_validate_ignores_statics(a, b, i + 1, stack);
        } else if both_comments(a[i], b[i]) {
            lemma_validate_ignores_statics(a, b, i + 1, stack);
        } else {
            assert(a[i] == b[i]);
            match a[i] {
                SpecToken::Tagged { content, line, delimiter, .. } => {
                    if let Ok(tag) = spec_classify(content, delimiter, line) {
                        if let Ok(next) = validate_step(stack, tag, line) {
                            lemma_validate_ignores_statics(a, b, i + 1, next);
                        }
                    }
                },
                _ => {},
            }
        }
    }
}

/// Whitespace truncation never changes the outcome of validation: it
/// touches only static texts, which validation does not read.
pub proof fn law_truncation_preserves_validation(ts: Seq<SpecToken>)
    ensures
        spec_validate(spec_truncate(ts)) == spec_validate(ts),
{
    law_truncation_keeps_tags(ts);
    lemma_validate_ignores_statics(spec_truncate(ts), ts, 0, Seq::empty());
}

/// Validation never reads static text nor the content of a comment
/// (`{# #}`): two token streams that differ only there validate alike,
/// even when a comment holds block keywords such as `endif`.
pub proof fn law_comments_and_text_not_examined(a: Seq<SpecToken>, b: Seq<SpecToken>)
    requires
        same_structure(a, b),
    ensures
        spec_validate(a) == spec_validate(b),
{
    lemma_validate_ignores_statics(a, b, 0, Seq::empty());
}


proof fn lemma_validated_tags_classify(ts: Seq<SpecToken>, i: int, stack: Seq<SpecOpenBlock>)
    requires
        0 <= i,
        validate_from(ts, i, stack) is Ok,
    ensures
        forall|k: int|
            i <= k < ts.len() ==> match #[trigger] ts[k] {
                SpecToken::Tagged { content, line, delimiter, .. } => spec_classify(
                    content,
                    delimiter,
                    line,
                ) is Ok,
                _ => true,
            },
    decreases ts.len() - i,
{
    if i < ts.len() {
        match ts[i] {
            SpecToken::Static { .. } => {
                lemma_validated_tags_classify(ts, i + 1, stack);
            },
            SpecToken::Tagged { content, line, delimiter, .. } => {
                if let Ok(tag) = spec_classify(content, delimiter, line) {
                    if let Ok(next) = validate_step(stack, tag, line) {
                        lemma_validated_tags_classify(ts, i + 1, next);
                    }
                }
            },
        }
    }
}

/// A token stream that passes validation has only tags that classify:
/// code generation and the other passes that classify tags never meet an
/// unclassifiable one after validation.
pub proof fn law_validated_tags_classify(ts: Seq<SpecToken>)
    requires
        spec_validate(ts) is Ok,
    ensures
        all_tags_classify(ts),
{
    lemma_validated_tags_classify(ts, 0, Seq::empty());
}

/// Change that a token makes to the number of open blocks: one more for an
/// `if` or a `for`, one less for `endif`, `endfor` or `}`, none otherwise.
pub open spec fn block_delta(t: SpecToken) -> int {
    match t {
        SpecToken::Tagged { content, line, delimiter, .. } => match spec_classify(
            content,
            delimiter,
            line,
        ) {
            Ok(SpecTag::If { .. }) | Ok(SpecTag::For { .. }) => 1,
            Ok(SpecTag::EndIf) | Ok(SpecTag::EndFor) | Ok(SpecTag::GenericClose) => -1,
            _ => 0,
        },
        _ => 0,
    }
}

/// Net number of blocks opened by the tokens `ts[i..j]`.
pub open spec fn block_depth(ts: Seq<SpecToken>, i: int, j: int) -> int
    decreases j - i,
{
    if j <= i {
        0
    } else {
        block_depth(ts, i, j - 1) + block_delta(ts[j - 1])
    }
}

proof fn lemma_block_depth_first(ts: Seq<SpecToken>, i: int, j: int)
    requires
        i < j,
    ensures
        block_depth(ts, i, j) == block_delta(ts[i]) + block_depth(ts, i + 1, j),
    decreases j - i,
{
    if j > i + 1 {
        lemma_block_depth_first(ts, i, j - 1);
        assert(block_depth(ts, i + 1, j) == block_depth(ts, i + 1, j - 1) + block_delta(ts[j - 1]));
    } else {
        assert(block_depth(ts, i, i) == 0);
        assert(block_depth(ts, i + 1, j) == 0);
    }
}

proof fn lemma_validated_depth(ts: Seq<SpecToken>, i: int, stack: Seq<SpecOpenBlock>)
    requires
        0 <= i <= ts.len(),
        validate_from(ts, i, stack) is Ok,
    ensures
        stack.len() + block_depth(ts, i, ts.len() as int) == 0,
        forall|k: int| i <= k <= ts.len() ==> stack.len() + #[trigger] block_depth(ts, i, k) >= 0,
    decreases ts.len() - i,
{
    if i < ts.len() {
        let next = match ts[i] {
            SpecToken::Static { .. } => stack,
            SpecToken::Tagged { content, line, delimiter, .. } => match spec_classify(
                content,
                delimiter,
                line,
            ) {
                Ok(tag) => validate_step(stack, tag, line)->Ok_0,
                Err(_) => stack,
            },
        };
        assert(validate_from(ts, i + 1, next) is Ok);
        assert(next.len() == stack.len() + block_delta(ts[i]));
        lemma_validated_depth(ts, i + 1, next);
        assert forall|k: int| i <= k <= ts.len() implies stack.len() + #[trigger] block_depth(
            ts,
            i,
            k,
        ) >= 0 by {
            if k > i {
                lemma_block_depth_first(ts, i, k);
                assert(next.len() + block_depth(ts, i + 1, k) >= 0);
            }
        }
        lemma_block_depth_first(ts, i, ts.len() as int);
    }
}

/// In a token stream that passes validation, every `if` and `for` is
/// closed and no closing tag comes without an open block: counting `+1`
/// for each opener and `-1` for each `endif`, `endfor` or `}`, the count
/// never goes below zero and ends at zero. The braces of the generated
/// code therefore match.
pub proof fn law_validated_blocks_balance(ts: Seq<SpecToken>)
    requires
        spec_validate(ts) is Ok,
    ensures
        block_depth(ts, 0, ts.len() as int) == 0,
        forall|k: int| 0 <= k <= ts.len() ==> #[trigger] block_depth(ts, 0, k) >= 0,
{
    lemma_validated_depth(ts, 0, Seq::empty());
}

} // verus!
