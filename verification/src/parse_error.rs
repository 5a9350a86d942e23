//! Recoverable syntax errors.

use std::ops::Range;

use vstd::prelude::*;
use vstd::utf8::*;

use crate::lexer::{kind_of, lex_from, token_is, Lexer, Token, TokenKind};
use crate::text::bytes_of;

verus! {

#[derive(Debug)]
pub struct ParseError<'input> {
    pub kind: ParseErrorKind,
    pub scope: Scope,
    pub expected: Expected,
    /// The tokens skipped while recovering.
    pub error_tokens: Vec<Token<'input>>,
    pub span: Range<usize>,
}

#[derive(Debug, Clone, Copy, PartialEq, Eq, Structural, Hash)]
pub enum Scope {
    Source,
    Statements,
    ImportStatement,
    ImportElement,
    ExportStatement,
    EnumDefine,
    EnumVariant,
    TypeDefine,
    Typedef,
    InterfaceDefine,
    ImplementsDefine,
    GenericParameters,
    WhereClause,
    UseDeclare,
    LetStatement,
    AssertStatement,
    MutationPolicy,
    AssignStatement,
    NestedAssignment,
    FunctionDefine,
    FunctionArguments,
    Block,
    Expression,
    IfExpression,
    MatchExpression,
    MatchArm,
    Pattern,
    ReturnExpression,
    ThrowExpression,
    ClosureExpression,
    ElvisExpression,
    Primary,
    SomeValue,
    Array,
    FunctionCall,
    TypeArguments,
    TypeInfo,
}

#[derive(Debug, Clone, Copy, PartialEq, Eq, Structural, Hash)]
pub enum Expected {
    Statement,
    StatementSeparator,
    ExportableDeclaration,
    ImportElement,
    EnumVariant,
    Typedef,
    UseElement,
    Method,
    GenericParameter,
    WherePredicate,
    FunctionArgument,
    ClosureParameter,
    NestedAssignment,
    Block,
    Expression,
    MatchArm,
    Pattern,
    Value,
    Literal,
    StringLiteral,
    TypeInfo,
    TypeArgument,
    IntegerLiteral,
    AccessMember,
    Token(TokenKind),
}

#[derive(Debug, Clone, Copy, PartialEq, Eq, Structural, Hash)]
pub enum ParseErrorKind {
    InvalidStatement,
    InvalidStatementSeparator,
    InvalidImportStatement,
    InvalidImportElement,
    InvalidExportStatement,
    InvalidEnumDefine,
    InvalidEnumVariant,
    InvalidTypedef,
    InvalidInterfaceDefine,
    InvalidImplementsDefine,
    InvalidGenericParameter,
    InvalidWhereClause,
    InvalidUseElement,
    InvalidLetStatement,
    InvalidAssertStatement,
    InvalidMutationPolicy,
    InvalidAssignStatement,
    InvalidNestedAssignment,
    InvalidFunctionDefine,
    InvalidFunctionArgument,
    InvalidClosureExpression,
    InvalidExpression,
    InvalidThrowExpression,
    InvalidMatchExpression,
    InvalidMatchArm,
    InvalidPattern,
    InvalidSomeValue,
    InvalidElvisExpression,
    InvalidPrimaryAccess,
    InvalidArrayElement,
    InvalidFunctionCallArgument,
    InvalidTypeArgument,
    InvalidTypeInfo,
    NonClosedBrace,
    NonClosedBracket,
    NonClosedParenthesis,
    NonClosedTypeParameter,
    UnexpectedToken,
    /// Syntax nested deeper than the parser follows.
    TooDeeplyNested,
}

/// The lexer after a parsing step: same text and flags, never behind.
pub open spec fn progressed<'input>(before: Lexer<'input>, after: Lexer<'input>) -> bool {
    &&& after.wf()
    &&& after.source_text() == before.source_text()
    &&& after.source_bytes() == before.source_bytes()
    &&& after.skips_whitespace() == before.skips_whitespace()
    &&& after.skips_comments() == before.skips_comments()
    &&& after.position() >= before.position()
}

/// The kind of the token after the current one.
pub open spec fn following_kind(lexer: Lexer<'_>) -> TokenKind {
    match lexer.step().token {
        Some((_, _, end)) => match lex_from(lexer.source_bytes(), end, lexer.skips_whitespace(), lexer.skips_comments()).token {
            Some((kind, _, _)) => kind,
            None => TokenKind::NoToken,
        },
        None => TokenKind::NoToken,
    }
}

/// A byte range of the text that starts and ends on character boundaries.
pub open spec fn span_ok(span: Range<usize>, bytes: Seq<u8>) -> bool {
    &&& span.start <= span.end <= bytes.len()
    &&& is_char_boundary(bytes, span.start as int)
    &&& is_char_boundary(bytes, span.end as int)
}

/// The kind of the token at the lexer's position.
pub fn current_kind(lexer: &mut Lexer<'_>) -> (kind: TokenKind)
    requires
        old(lexer).wf(),
    ensures
        progressed(*old(lexer), *final(lexer)),
        final(lexer).position() == old(lexer).position(),
        kind == old(lexer).current_kind(),
        kind == final(lexer).current_kind(),
        kind != TokenKind::NoToken ==> old(lexer).step().token.is_some(),
{
    lexer.peek_kind()
}

/// Consumes the token at the lexer's position.
pub fn advance<'input>(lexer: &mut Lexer<'input>) -> (token: Token<'input>)
    requires
        old(lexer).wf(),
        old(lexer).step().token.is_some(),
    ensures
        final(lexer).current_kind() == following_kind(*old(lexer)),
        progressed(*old(lexer), *final(lexer)),
        final(lexer).position() > old(lexer).position(),
        token_is(token, old(lexer).source_bytes(), old(lexer).step().token),
        token.kind == old(lexer).current_kind(),
        span_ok(token.span, old(lexer).source_bytes()),
        token.span.start >= old(lexer).position(),
        token.span.end == final(lexer).position(),
{
    proof {
        crate::lexer::lemma_lex_from_bounds(
            lexer.source_bytes(),
            lexer.position(),
            lexer.skips_whitespace(),
            lexer.skips_comments(),
        );
    }
    let token = lexer.next();
    token.unwrap()
}

/// Skips tokens up to (not including) one whose kind is in `until`, and
/// reports them as an error spanning what was skipped.
pub fn recover_until<'input>(
    kind: ParseErrorKind,
    lexer: &mut Lexer<'input>,
    until: &[TokenKind],
    expected: Expected,
    scope: Scope,
) -> (error: ParseError<'input>)
    requires
        old(lexer).wf(),
    ensures
        progressed(*old(lexer), *final(lexer)),
        final(lexer).current_kind() == TokenKind::NoToken || until@.contains(
            final(lexer).current_kind(),
        ),
        error.kind == kind,
        error.scope == scope,
        error.expected == expected,
        span_ok(error.span, old(lexer).source_bytes()),
        error.span.end >= error.span.start,
{
    let anchor = lexer.cast_anchor();
    let mut error_tokens: Vec<Token<'input>> = Vec::new();
    loop
        invariant
            progressed(*old(lexer), *lexer),
            lexer.anchor_ok(anchor),
        ensures
            progressed(*old(lexer), *lexer),
            lexer.anchor_ok(anchor),
            lexer.current_kind() == TokenKind::NoToken || until@.contains(lexer.current_kind()),
        decreases lexer.source_bytes().len() - lexer.position(),
    {
        let current = current_kind(lexer);
        if current == TokenKind::NoToken || contains_kind(until, current) {
            break;
        }
        let token = advance(lexer);
        error_tokens.push(token);
    }
    let span = anchor.elapsed(lexer);
    ParseError { kind, scope, expected, error_tokens, span }
}

/// Whether `kind` is one of `kinds`.
pub fn contains_kind(kinds: &[TokenKind], kind: TokenKind) -> (found: bool)
    ensures
        found == kinds@.contains(kind),
{
    let mut i: usize = 0;
    while i < kinds.len()
        invariant
            i <= kinds@.len(),
            forall|k: int| 0 <= k < i ==> kinds@[k] != kind,
        decreases kinds@.len() - i,
    {
        if kinds[i] == kind {
            return true;
        }
        i = i + 1;
    }
    false
}

/// An error at the current token (an empty span at its start), or at the
/// end of the text.
pub fn error_here<'input>(
    kind: ParseErrorKind,
    lexer: &mut Lexer<'input>,
    expected: Expected,
    scope: Scope,
) -> (error: ParseError<'input>)
    requires
        old(lexer).wf(),
    ensures
        progressed(*old(lexer), *final(lexer)),
        final(lexer).position() == old(lexer).position(),
        final(lexer).current_kind() == old(lexer).current_kind(),
        error.kind == kind,
        error.scope == scope,
        error.expected == expected,
        error.error_tokens@.len() == 0,
        span_ok(error.span, old(lexer).source_bytes()),
{
    let ghost before = *lexer;
    let token = lexer.current();
    let span = match token {
        Some(t) => {
            proof {
                crate::lexer::lemma_lex_from_bounds(
                    before.source_bytes(),
                    before.position(),
                    before.skips_whitespace(),
                    before.skips_comments(),
                );
            }
            Range { start: t.span.start, end: t.span.start }
        },
        None => {
            let anchor = lexer.cast_anchor();
            anchor.elapsed(lexer)
        },
    };
    ParseError { kind, scope, expected, error_tokens: Vec::new(), span }
}

} // verus!
