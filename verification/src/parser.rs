//! Recursive-descent parser with error recovery.
//!
//! Every parse function leaves the lexer well-formed and never moves it
//! backwards; a function that produces a node has consumed at least one
//! token, so the parser always terminates.  Errors are collected and
//! parsing resumes at the next separator or closing delimiter.

use std::ops::Range;

use vstd::prelude::*;

use crate::ast::{
    Array, AssertStatement, AssignStatement, AssignValue, Block, ClosureBody, ClosureExpression,
    ClosureParameter, ElseBranch, ElseBranchValue, ElvisExpression, EnumDefine, EnumVariant,
    EnumVariantPattern, ExplicitTypeArgument, ExplicitTypeArguments, Expression, FunctionArgument,
    FunctionArguments, FunctionAttribute, FunctionCall, FunctionDefine, GenericParameter,
    GenericParameters, IfBranch, IfExpression, ImplementsDefine, ImportElement, ImportKind,
    ImportStatement, InterfaceDefine, LetStatement, Literal, LiteralValue, MatchArm,
    MatchExpression, MutationPolicy, MutationPolicyKind, NestedAssignment, NestedAssignmentField,
    Pattern, Primary, PrimaryAccess, ReturnExpression, SomePattern, SomeValue, Source, Spanned,
    Statement, Statements, ThrowExpression, TypeDefine, TypeInfo, Typedef, TypedefBlock,
    TypedefValue, UnaryExpression, UnaryOperator, UseDeclare, Value, WhereClause, WherePredicate,
    BinaryExpression, BinaryOperator, AccessOperator, AST,
};
use crate::lexer::{lex_from, spelling, Lexer, Token, TokenKind};
use crate::parse_error::{
    following_kind,
    advance, contains_kind, current_kind, error_here, progressed, recover_until, span_ok,
    Expected, ParseError, ParseErrorKind, Scope,
};

verus! {

pub type ParseErrors<'input> = Vec<ParseError<'input>>;

/// The bytes still ahead of the lexer.
pub open spec fn remaining(lexer: Lexer<'_>) -> int {
    lexer.source_bytes().len() - lexer.position()
}

pub open spec fn statement_start(kind: TokenKind) -> bool {
    kind == TokenKind::Enum || kind == TokenKind::Type || kind == TokenKind::Use || kind
        == TokenKind::Let || kind == TokenKind::Inline || kind == TokenKind::Opaque || kind
        == TokenKind::If || kind == TokenKind::Return
}

/// Whether a token kind begins a statement that recovery must not swallow.
pub fn is_statement_start(kind: TokenKind) -> (start: bool)
    ensures
        start == statement_start(kind),
{
    matches!(
        kind,
        TokenKind::Enum | TokenKind::Type | TokenKind::Use | TokenKind::Let | TokenKind::Inline
            | TokenKind::Opaque | TokenKind::If | TokenKind::Return
    )
}

/// Skips line feeds and document comments.
pub fn skip_line_feed(lexer: &mut Lexer<'_>)
    requires
        old(lexer).wf(),
    ensures
        progressed(*old(lexer), *final(lexer)),
        final(lexer).current_kind() != TokenKind::LineFeed,
        final(lexer).current_kind() != TokenKind::Document,
        old(lexer).current_kind() != TokenKind::LineFeed && old(lexer).current_kind() != TokenKind::Document
            ==> final(lexer).position() == old(lexer).position() && final(lexer).current_kind() == old(
            lexer,
        ).current_kind(),
{
    let kind = current_kind(lexer);
    if kind != TokenKind::LineFeed && kind != TokenKind::Document {
        return;
    }
    loop
        invariant
            progressed(*old(lexer), *lexer),
        ensures
            progressed(*old(lexer), *lexer),
            lexer.current_kind() != TokenKind::LineFeed,
            lexer.current_kind() != TokenKind::Document,
        decreases remaining(*lexer),
    {
        let kind = current_kind(lexer);
        if kind == TokenKind::LineFeed || kind == TokenKind::Document {
            advance(lexer);
        } else {
            break;
        }
    }
}

/// A token that separates statements: a line feed, a semicolon or a
/// documentation comment.
pub open spec fn separator_kind(kind: TokenKind) -> bool {
    kind == TokenKind::LineFeed || kind == TokenKind::Semicolon || kind == TokenKind::Document
}

/// From byte `p` of `bytes` to the end of what can be lexed there are
/// only statement separators.
pub open spec fn separators_only(bytes: Seq<u8>, p: int, ignore_whitespace: bool, ignore_comment: bool) -> bool
    decreases bytes.len() - p,
{
    match lex_from(bytes, p, ignore_whitespace, ignore_comment).token {
        None => true,
        Some((kind, _, end)) => kind == TokenKind::NoToken || (separator_kind(kind) && p < end <= bytes.len()
            && separators_only(bytes, end, ignore_whitespace, ignore_comment)),
    }
}

/// The rest of the lexer's text holds statement separators only.
pub open spec fn rest_is_separators(lexer: Lexer<'_>) -> bool {
    separators_only(lexer.source_bytes(), lexer.position(), lexer.skips_whitespace(), lexer.skips_comments())
}

/// Skips statement separators; whether any was skipped.
pub fn skip_statement_separator(lexer: &mut Lexer<'_>) -> (skipped: bool)
    requires
        old(lexer).wf(),
    ensures
        progressed(*old(lexer), *final(lexer)),
        skipped <==> final(lexer).position() > old(lexer).position(),
        final(lexer).current_kind() != TokenKind::LineFeed,
        final(lexer).current_kind() != TokenKind::Semicolon,
        final(lexer).current_kind() != TokenKind::Document,
        rest_is_separators(*old(lexer)) <==> final(lexer).current_kind() == TokenKind::NoToken,
{
    let mut skipped = false;
    loop
        invariant
            progressed(*old(lexer), *lexer),
            skipped <==> lexer.position() > old(lexer).position(),
            rest_is_separators(*old(lexer)) <==> rest_is_separators(*lexer),
        ensures
            progressed(*old(lexer), *lexer),
            skipped <==> lexer.position() > old(lexer).position(),
            lexer.current_kind() != TokenKind::LineFeed,
            lexer.current_kind() != TokenKind::Semicolon,
            lexer.current_kind() != TokenKind::Document,
            rest_is_separators(*old(lexer)) <==> lexer.current_kind() == TokenKind::NoToken,
        decreases remaining(*lexer),
    {
        let kind = current_kind(lexer);
        if kind == TokenKind::LineFeed || kind == TokenKind::Semicolon || kind
            == TokenKind::Document {
            skipped = true;
            advance(lexer);
        } else {
            break;
        }
    }
    skipped
}

/// Skips list separators; whether any was skipped.
pub fn skip_list_separator(lexer: &mut Lexer<'_>) -> (skipped: bool)
    requires
        old(lexer).wf(),
    ensures
        progressed(*old(lexer), *final(lexer)),
        skipped <==> final(lexer).position() > old(lexer).position(),
        final(lexer).current_kind() != TokenKind::LineFeed,
        final(lexer).current_kind() != TokenKind::Comma,
        final(lexer).current_kind() != TokenKind::Document,
{
    let mut skipped = false;
    loop
        invariant
            progressed(*old(lexer), *lexer),
            skipped <==> lexer.position() > old(lexer).position(),
        ensures
            progressed(*old(lexer), *lexer),
            skipped <==> lexer.position() > old(lexer).position(),
            lexer.current_kind() != TokenKind::LineFeed,
            lexer.current_kind() != TokenKind::Comma,
            lexer.current_kind() != TokenKind::Document,
        decreases remaining(*lexer),
    {
        let kind = current_kind(lexer);
        if kind == TokenKind::LineFeed || kind == TokenKind::Comma || kind == TokenKind::Document {
            skipped = true;
            advance(lexer);
        } else {
            break;
        }
    }
    skipped
}

/// Consumes a literal token.
pub(crate) fn parse_literal<'input>(lexer: &mut Lexer<'input>) -> (literal: Option<Literal<'input>>)
    requires
        old(lexer).wf(),
    ensures
        progressed(*old(lexer), *final(lexer)),
        literal is Some <==> old(lexer).current_kind() == TokenKind::Literal,
        literal is Some ==> final(lexer).position() > old(lexer).position(),
        literal is None ==> final(lexer).position() == old(lexer).position(),
        match literal {
            Some(l) => span_ok(l.span, old(lexer).source_bytes()) && l.span.end == final(lexer).position(),
            None => true,
        },
{
    if current_kind(lexer) != TokenKind::Literal {
        return None;
    }
    let token = advance(lexer);
    Some(Spanned::new(token.text, token.span))
}

pub(crate) fn parse_export_modifier(lexer: &mut Lexer<'_>) -> (exported: bool)
    requires
        old(lexer).wf(),
    ensures
        exported ==> final(lexer).current_kind() == following_kind(*old(lexer)),
        progressed(*old(lexer), *final(lexer)),
        exported == (old(lexer).current_kind() == TokenKind::Export),
        exported ==> final(lexer).position() > old(lexer).position(),
        !exported ==> final(lexer).position() == old(lexer).position(),
{
    if current_kind(lexer) != TokenKind::Export {
        return false;
    }
    advance(lexer);
    true
}

/// The value of a `cost` literal: decimal digits, with `_` separators
/// ignored; `None` for any other character, for no digit, or when the value
/// exceeds `u64::MAX`.
pub open spec fn policy_cost_digits(text: Seq<u8>) -> int
    decreases text.len(),
{
    if text.len() == 0 {
        0
    } else {
        let prefix = policy_cost_digits(text.drop_last());
        if text.last() == 95u8 {
            prefix
        } else {
            prefix * 10 + (text.last() - 48u8)
        }
    }
}

pub open spec fn policy_cost_valid(text: Seq<u8>) -> bool {
    &&& forall|i: int|
        0 <= i < text.len() ==> (48u8 <= #[trigger] text[i] <= 57u8 || text[i] == 95u8)
    &&& exists|i: int| 0 <= i < text.len() && 48u8 <= #[trigger] text[i] <= 57u8
}

pub open spec fn policy_cost_of(text: Seq<u8>) -> Option<u64> {
    if policy_cost_valid(text) && policy_cost_digits(text) <= u64::MAX {
        Some(policy_cost_digits(text) as u64)
    } else {
        None
    }
}

proof fn lemma_policy_cost_monotone(text: Seq<u8>, i: int)
    requires
        0 <= i <= text.len(),
        forall|k: int| 0 <= k < text.len() ==> (48u8 <= #[trigger] text[k] <= 57u8 || text[k] == 95u8),
    ensures
        0 <= policy_cost_digits(text.subrange(0, i)) <= policy_cost_digits(text),
    decreases text.len() - i,
{
    if i < text.len() {
        lemma_policy_cost_monotone(text, i + 1);
        assert(text.subrange(0, i + 1).drop_last() == text.subrange(0, i));
        lemma_policy_cost_nonneg(text.subrange(0, i));
    } else {
        assert(text.subrange(0, i) == text);
        lemma_policy_cost_nonneg(text);
    }
}

proof fn lemma_policy_cost_nonneg(text: Seq<u8>)
    requires
        forall|k: int| 0 <= k < text.len() ==> (48u8 <= #[trigger] text[k] <= 57u8 || text[k] == 95u8),
    ensures
        policy_cost_digits(text) >= 0,
    decreases text.len(),
{
    if text.len() > 0 {
        lemma_policy_cost_nonneg(text.drop_last());
    }
}

/// Reads the cost of a `tunable(cost = N)` policy.
pub fn parse_policy_cost(text: &str) -> (cost: Option<u64>)
    ensures
        cost == policy_cost_of(crate::text::bytes_of(text)),
{
    let bytes = text.as_bytes();
    let ghost all = bytes@;
    let mut value: u64 = 0;
    let mut found_digit = false;
    let mut i: usize = 0;
    while i < bytes.len()
        invariant
            bytes@ == all,
            all == crate::text::bytes_of(text),
            i <= all.len(),
            value == policy_cost_digits(all.subrange(0, i as int)),
            forall|k: int| 0 <= k < i ==> (48u8 <= #[trigger] all[k] <= 57u8 || all[k] == 95u8),
            found_digit <==> exists|k: int| 0 <= k < i && 48u8 <= #[trigger] all[k] <= 57u8,
        decreases all.len() - i,
    {
        let byte = bytes[i];
        assert(all.subrange(0, i + 1).drop_last() == all.subrange(0, i as int));
        if byte == 95u8 {
            i = i + 1;
            continue;
        }
        if !(48u8 <= byte && byte <= 57u8) {
            assert(!(48u8 <= all[i as int] <= 57u8 || all[i as int] == 95u8));
            return None;
        }
        assert(policy_cost_digits(all.subrange(0, i + 1)) == value * 10 + (byte - 48u8));
        found_digit = true;
        let digit = (byte - 48u8) as u64;
        match value.checked_mul(10) {
            Some(times) => match times.checked_add(digit) {
                Some(next) => {
                    value = next;
                },
                None => {
                    proof {
                        if forall|k: int|
                            0 <= k < all.len() ==> (48u8 <= #[trigger] all[k] <= 57u8 || all[k]
                                == 95u8) {
                            lemma_policy_cost_monotone(all, i + 1);
                        }
                    }
                    return None;
                },
            },
            None => {
                proof {
                    if forall|k: int|
                        0 <= k < all.len() ==> (48u8 <= #[trigger] all[k] <= 57u8 || all[k] == 95u8) {
                        lemma_policy_cost_monotone(all, i + 1);
                    }
                }
                return None;
            },
        }
        i = i + 1;
    }
    assert(all.subrange(0, all.len() as int) == all);
    if found_digit {
        Some(value)
    } else {
        None
    }
}


/// Consumes `token`, recovering up to it on the same line when it is not
/// next; whether it was consumed.
pub(crate) fn recover_opening_token<'input>(
    lexer: &mut Lexer<'input>,
    errors: &mut ParseErrors<'input>,
    token: TokenKind,
    scope: Scope,
) -> (opened: bool)
    requires
        old(lexer).wf(),
        token != TokenKind::NoToken,
    ensures
        old(lexer).current_kind() == token ==> opened && final(errors)@ == old(errors)@,
        old(lexer).current_kind() != token ==> final(errors)@ == old(errors)@.push(final(errors)@.last()) && final(errors)@.last().kind == ParseErrorKind::UnexpectedToken,
        old(errors)@.len() <= final(errors)@.len(),
        progressed(*old(lexer), *final(lexer)),
        opened ==> final(lexer).position() > old(lexer).position(),
{
    if current_kind(lexer) == token {
        advance(lexer);
        return true;
    }
    let until = [token, TokenKind::LineFeed, TokenKind::Semicolon, TokenKind::NoToken];
    let error = recover_until(
        ParseErrorKind::UnexpectedToken,
        lexer,
        until.as_slice(),
        Expected::Token(token),
        scope,
    );
    errors.push(error);
    if current_kind(lexer) == token {
        advance(lexer);
        true
    } else {
        false
    }
}

/// Consumes a closing delimiter; when it is missing, reports it, skipping
/// up to it unless a new statement begins.
pub(crate) fn close_delimiter<'input>(
    lexer: &mut Lexer<'input>,
    errors: &mut ParseErrors<'input>,
    token: TokenKind,
    kind: ParseErrorKind,
    scope: Scope,
)
    requires
        old(lexer).wf(),
        token != TokenKind::NoToken,
    ensures
        old(lexer).current_kind() == token ==> final(errors)@ == old(errors)@ && final(lexer).position() > old(lexer).position(),
        old(lexer).current_kind() != token ==> final(errors)@ == old(errors)@.push(final(errors)@.last()) && final(errors)@.last().kind == kind,
        old(errors)@.len() <= final(errors)@.len(),
        progressed(*old(lexer), *final(lexer)),
{
    let current = current_kind(lexer);
    if current != token {
        let error = if is_statement_start(current) {
            error_here(kind, lexer, Expected::Token(token), scope)
        } else {
            let until = [token];
            recover_until(kind, lexer, until.as_slice(), Expected::Token(token), scope)
        };
        errors.push(error);
    }
    if current_kind(lexer) == token {
        advance(lexer);
    }
}

/// `Name`, `Name<A, B>`, each optionally followed by `?`.
pub fn parse_type_info<'input>(lexer: &mut Lexer<'input>, errors: &mut ParseErrors<'input>) -> (ty:
    Option<TypeInfo<'input>>)
    requires
        old(lexer).wf(),
    ensures
        old(errors)@.len() <= final(errors)@.len(),
        progressed(*old(lexer), *final(lexer)),
        ty is Some ==> final(lexer).position() > old(lexer).position(),
        ty is None ==> final(lexer).position() == old(lexer).position(),
        ty is Some <==> old(lexer).current_kind() == TokenKind::Literal,
    decreases remaining(*old(lexer)),
{
    let anchor = lexer.cast_anchor();
    let name = match parse_literal(lexer) {
        Some(name) => name,
        None => {
            return None;
        },
    };
    let mut parameters: Vec<TypeInfo<'input>> = Vec::new();
    if current_kind(lexer) == TokenKind::LessThan {
        advance(lexer);
        skip_line_feed(lexer);
        let mut at = lexer.offset();
        loop
            invariant
                old(errors)@.len() <= errors@.len(),
                progressed(*old(lexer), *lexer),
                lexer.position() > old(lexer).position(),
            decreases usize::MAX - at,
        {
            let current = current_kind(lexer);
            if current == TokenKind::GreaterThan || current == TokenKind::NoToken {
                break;
            }
            match parse_type_info(lexer, errors) {
                Some(parameter) => {
                    parameters.push(parameter);
                },
                None => {
                    let until = [TokenKind::LineFeed, TokenKind::Comma, TokenKind::GreaterThan];
                    let error = recover_until(
                        ParseErrorKind::InvalidTypeInfo,
                        lexer,
                        until.as_slice(),
                        Expected::TypeInfo,
                        Scope::TypeInfo,
                    );
                    errors.push(error);
                },
            }
            if current_kind(lexer) == TokenKind::GreaterThan {
                break;
            }
            if !skip_list_separator(lexer) {
                let until = [TokenKind::LineFeed, TokenKind::Comma, TokenKind::GreaterThan];
                let error = recover_until(
                    ParseErrorKind::InvalidTypeInfo,
                    lexer,
                    until.as_slice(),
                    Expected::Token(TokenKind::Comma),
                    Scope::TypeInfo,
                );
                errors.push(error);
                skip_list_separator(lexer);
            }
            // A pass that consumed nothing ends the list.
            let now = lexer.offset();
            if now <= at {
                break;
            }
            at = now;
        }
        if parameters.len() == 0 {
            errors.push(
                error_here(
                    ParseErrorKind::InvalidTypeInfo,
                    lexer,
                    Expected::TypeInfo,
                    Scope::TypeInfo,
                ),
            );
        }
        if current_kind(lexer) != TokenKind::GreaterThan {
            let until = [
                TokenKind::GreaterThan,
                TokenKind::LineFeed,
                TokenKind::Comma,
                TokenKind::BraceRight,
                TokenKind::ParenthesisRight,
            ];
            let error = recover_until(
                ParseErrorKind::NonClosedTypeParameter,
                lexer,
                until.as_slice(),
                Expected::Token(TokenKind::GreaterThan),
                Scope::TypeInfo,
            );
            errors.push(error);
        }
        if current_kind(lexer) == TokenKind::GreaterThan {
            advance(lexer);
        }
    }
    let optional = if current_kind(lexer) == TokenKind::Question {
        advance(lexer);
        true
    } else {
        false
    };
    if optional && current_kind(lexer) == TokenKind::Question {
        let until = [
            TokenKind::GreaterThan,
            TokenKind::Equal,
            TokenKind::LineFeed,
            TokenKind::Comma,
            TokenKind::BraceRight,
            TokenKind::ParenthesisRight,
        ];
        let error = recover_until(
            ParseErrorKind::InvalidTypeInfo,
            lexer,
            until.as_slice(),
            Expected::TypeInfo,
            Scope::TypeInfo,
        );
        errors.push(error);
    }
    let span = anchor.elapsed(lexer);
    Some(TypeInfo { name, parameters, optional, span })
}

/// `Bound + Bound + ...`
pub(crate) fn parse_type_bounds<'input>(
    lexer: &mut Lexer<'input>,
    errors: &mut ParseErrors<'input>,
    scope: Scope,
    error_kind: ParseErrorKind,
) -> (bounds: Vec<TypeInfo<'input>>)
    requires
        old(lexer).wf(),
    ensures
        bounds@.len() > 0 || old(errors)@.len() < final(errors)@.len(),
        old(errors)@.len() <= final(errors)@.len(),
        progressed(*old(lexer), *final(lexer)),
{
    let mut bounds: Vec<TypeInfo<'input>> = Vec::new();
    let mut at = lexer.offset();
    loop
        invariant
            old(errors)@.len() <= errors@.len(),
            progressed(*old(lexer), *lexer),
        ensures
            bounds@.len() > 0 || old(errors)@.len() < errors@.len(),
        decreases usize::MAX - at,
    {
        match parse_type_info(lexer, errors) {
            Some(bound) => {
                bounds.push(bound);
            },
            None => {
                errors.push(error_here(error_kind, lexer, Expected::TypeInfo, scope));
                break;
            },
        }
        if current_kind(lexer) != TokenKind::Plus {
            break;
        }
        advance(lexer);
        skip_line_feed(lexer);
        let now = lexer.offset();
        if now <= at {
            break;
        }
        at = now;
    }
    bounds
}

/// `<T, U: Bound + Bound>`
pub(crate) fn parse_generic_parameters<'input>(
    lexer: &mut Lexer<'input>,
    errors: &mut ParseErrors<'input>,
) -> (parameters: Option<Box<GenericParameters<'input>>>)
    requires
        old(lexer).wf(),
    ensures
        parameters is Some <==> old(lexer).current_kind() == TokenKind::LessThan,
        old(lexer).current_kind() != TokenKind::LessThan ==> final(lexer).position() == old(lexer).position(),
        old(errors)@.len() <= final(errors)@.len(),
        progressed(*old(lexer), *final(lexer)),
{
    if current_kind(lexer) != TokenKind::LessThan {
        return None;
    }
    let anchor = lexer.cast_anchor();
    advance(lexer);
    skip_line_feed(lexer);
    let mut parameters: Vec<GenericParameter<'input>> = Vec::new();
    let mut at = lexer.offset();
    loop
        invariant
            old(errors)@.len() <= errors@.len(),
            progressed(*old(lexer), *lexer),
            lexer.anchor_ok(anchor),
        decreases usize::MAX - at,
    {
        let current = current_kind(lexer);
        if current == TokenKind::GreaterThan || current == TokenKind::NoToken {
            break;
        }
        let parameter_anchor = lexer.cast_anchor();
        match parse_literal(lexer) {
            Some(name) => {
                let bounds = if current_kind(lexer) == TokenKind::Colon {
                    advance(lexer);
                    parse_type_bounds(
                        lexer,
                        errors,
                        Scope::GenericParameters,
                        ParseErrorKind::InvalidGenericParameter,
                    )
                } else {
                    Vec::new()
                };
                let span = parameter_anchor.elapsed(lexer);
                parameters.push(GenericParameter { name, bounds, span });
                if current_kind(lexer) == TokenKind::GreaterThan {
                    break;
                }
                if !skip_list_separator(lexer) {
                    let until = [TokenKind::LineFeed, TokenKind::Comma, TokenKind::GreaterThan];
                    let error = recover_until(
                        ParseErrorKind::InvalidGenericParameter,
                        lexer,
                        until.as_slice(),
                        Expected::Token(TokenKind::Comma),
                        Scope::GenericParameters,
                    );
                    errors.push(error);
                    skip_list_separator(lexer);
                }
            },
            None => {
                let until = [TokenKind::LineFeed, TokenKind::Comma, TokenKind::GreaterThan];
                let error = recover_until(
                    ParseErrorKind::InvalidGenericParameter,
                    lexer,
                    until.as_slice(),
                    Expected::GenericParameter,
                    Scope::GenericParameters,
                );
                errors.push(error);
                if current_kind(lexer) == TokenKind::GreaterThan {
                    break;
                }
                skip_list_separator(lexer);
            },
        }
        // A pass that consumed nothing ends the list.
        let now = lexer.offset();
        if now <= at {
            break;
        }
        at = now;
    }
    if parameters.len() == 0 {
        errors.push(
            error_here(
                ParseErrorKind::InvalidGenericParameter,
                lexer,
                Expected::GenericParameter,
                Scope::GenericParameters,
            ),
        );
    }
    close_delimiter(
        lexer,
        errors,
        TokenKind::GreaterThan,
        ParseErrorKind::NonClosedTypeParameter,
        Scope::GenericParameters,
    );
    let span = anchor.elapsed(lexer);
    Some(Box::new(GenericParameters { parameters, span }))
}

/// `where T: Bound, U: Bound + Bound`
pub(crate) fn parse_where_clause<'input>(lexer: &mut Lexer<'input>, errors: &mut ParseErrors<'input>) -> (clause:
    Option<Box<WhereClause<'input>>>)
    requires
        old(lexer).wf(),
    ensures
        clause is Some <==> old(lexer).current_kind() == TokenKind::Where,
        old(lexer).current_kind() != TokenKind::Where ==> final(lexer).position() == old(lexer).position(),
        old(errors)@.len() <= final(errors)@.len(),
        progressed(*old(lexer), *final(lexer)),
{
    if current_kind(lexer) != TokenKind::Where {
        return None;
    }
    let anchor = lexer.cast_anchor();
    advance(lexer);
    skip_line_feed(lexer);
    let mut predicates: Vec<WherePredicate<'input>> = Vec::new();
    let mut at = lexer.offset();
    loop
        invariant
            old(errors)@.len() <= errors@.len(),
            progressed(*old(lexer), *lexer),
            lexer.anchor_ok(anchor),
        decreases usize::MAX - at,
    {
        let current = current_kind(lexer);
        if current == TokenKind::BraceLeft || current == TokenKind::NoToken || is_statement_start(
            current,
        ) {
            break;
        }
        let predicate_anchor = lexer.cast_anchor();
        match parse_type_info(lexer, errors) {
            Some(ty) => {
                if current_kind(lexer) != TokenKind::Colon {
                    let until = [
                        TokenKind::Colon,
                        TokenKind::LineFeed,
                        TokenKind::Comma,
                        TokenKind::BraceLeft,
                    ];
                    let error = recover_until(
                        ParseErrorKind::InvalidWhereClause,
                        lexer,
                        until.as_slice(),
                        Expected::Token(TokenKind::Colon),
                        Scope::WhereClause,
                    );
                    errors.push(error);
                }
                let bounds = if current_kind(lexer) == TokenKind::Colon {
                    advance(lexer);
                    parse_type_bounds(
                        lexer,
                        errors,
                        Scope::WhereClause,
                        ParseErrorKind::InvalidWhereClause,
                    )
                } else {
                    Vec::new()
                };
                let span = predicate_anchor.elapsed(lexer);
                predicates.push(WherePredicate { ty: Box::new(ty), bounds, span });
                if current_kind(lexer) == TokenKind::BraceLeft {
                    break;
                }
                if !skip_list_separator(lexer) {
                    let until = [TokenKind::LineFeed, TokenKind::Comma, TokenKind::BraceLeft];
                    let error = recover_until(
                        ParseErrorKind::InvalidWhereClause,
                        lexer,
                        until.as_slice(),
                        Expected::Token(TokenKind::Comma),
                        Scope::WhereClause,
                    );
                    errors.push(error);
                    skip_list_separator(lexer);
                }
            },
            None => {
                let until = [TokenKind::LineFeed, TokenKind::Comma, TokenKind::BraceLeft];
                let error = recover_until(
                    ParseErrorKind::InvalidWhereClause,
                    lexer,
                    until.as_slice(),
                    Expected::WherePredicate,
                    Scope::WhereClause,
                );
                errors.push(error);
                if current_kind(lexer) == TokenKind::BraceLeft {
                    break;
                }
                skip_list_separator(lexer);
            },
        }
        // A pass that consumed nothing ends the list.
        let now = lexer.offset();
        if now <= at {
            break;
        }
        at = now;
    }
    if predicates.len() == 0 {
        errors.push(
            error_here(
                ParseErrorKind::InvalidWhereClause,
                lexer,
                Expected::WherePredicate,
                Scope::WhereClause,
            ),
        );
    }
    let span = anchor.elapsed(lexer);
    Some(Box::new(WhereClause { predicates, span }))
}

/// `readonly`, `tunable` or `tunable(cost = N)`.
pub(crate) fn parse_mutation_policy<'input>(lexer: &mut Lexer<'input>, errors: &mut ParseErrors<'input>) -> (policy:
    Option<MutationPolicy>)
    requires
        old(lexer).wf(),
    ensures
        policy is Some <==> (old(lexer).current_kind() == TokenKind::Readonly || old(lexer).current_kind() == TokenKind::Tunable),
        policy matches Some(policy) ==> (policy.kind is Readonly <==> old(lexer).current_kind() == TokenKind::Readonly),
        old(lexer).current_kind() == TokenKind::Tunable && following_kind(*old(lexer)) != TokenKind::ParenthesisLeft
            ==> (policy matches Some(policy) && policy.kind == (MutationPolicyKind::Tunable { cost: None })),
        old(errors)@.len() <= final(errors)@.len(),
        progressed(*old(lexer), *final(lexer)),
        policy is None ==> final(lexer).position() == old(lexer).position(),
{
    let anchor = lexer.cast_anchor();
    if current_kind(lexer) == TokenKind::Readonly {
        advance(lexer);
        let span = anchor.elapsed(lexer);
        return Some(MutationPolicy { kind: MutationPolicyKind::Readonly, span });
    }
    if current_kind(lexer) != TokenKind::Tunable {
        return None;
    }
    advance(lexer);
    let mut cost: Option<Spanned<u64>> = None;
    if current_kind(lexer) == TokenKind::ParenthesisLeft {
        advance(lexer);
        if current_kind(lexer) != TokenKind::Cost {
            let until = [
                TokenKind::Cost,
                TokenKind::Equal,
                TokenKind::NumericLiteral,
                TokenKind::ParenthesisRight,
            ];
            let error = recover_until(
                ParseErrorKind::InvalidMutationPolicy,
                lexer,
                until.as_slice(),
                Expected::Token(TokenKind::Cost),
                Scope::MutationPolicy,
            );
            errors.push(error);
        }
        if current_kind(lexer) == TokenKind::Cost {
            advance(lexer);
        }
        if current_kind(lexer) != TokenKind::Equal {
            let until = [TokenKind::Equal, TokenKind::NumericLiteral, TokenKind::ParenthesisRight];
            let error = recover_until(
                ParseErrorKind::InvalidMutationPolicy,
                lexer,
                until.as_slice(),
                Expected::Token(TokenKind::Equal),
                Scope::MutationPolicy,
            );
            errors.push(error);
        }
        if current_kind(lexer) == TokenKind::Equal {
            advance(lexer);
        }
        if current_kind(lexer) == TokenKind::NumericLiteral {
            let token = lexer.current();
            let value = match token {
                Some(token) => parse_policy_cost(token.text),
                None => None,
            };
            match value {
                Some(value) => {
                    let token = advance(lexer);
                    cost = Some(Spanned::new(value, token.span));
                },
                None => {
                    let until = [
                        TokenKind::ParenthesisRight,
                        TokenKind::Literal,
                        TokenKind::LineFeed,
                        TokenKind::Comma,
                        TokenKind::BraceRight,
                    ];
                    let error = recover_until(
                        ParseErrorKind::InvalidMutationPolicy,
                        lexer,
                        until.as_slice(),
                        Expected::IntegerLiteral,
                        Scope::MutationPolicy,
                    );
                    errors.push(error);
                },
            }
        } else {
            errors.push(
                error_here(
                    ParseErrorKind::InvalidMutationPolicy,
                    lexer,
                    Expected::IntegerLiteral,
                    Scope::MutationPolicy,
                ),
            );
        }
        if current_kind(lexer) != TokenKind::ParenthesisRight {
            let until = [
                TokenKind::ParenthesisRight,
                TokenKind::Literal,
                TokenKind::LineFeed,
                TokenKind::Comma,
                TokenKind::BraceRight,
            ];
            let error = recover_until(
                ParseErrorKind::NonClosedParenthesis,
                lexer,
                until.as_slice(),
                Expected::Token(TokenKind::ParenthesisRight),
                Scope::MutationPolicy,
            );
            errors.push(error);
        }
        if current_kind(lexer) == TokenKind::ParenthesisRight {
            advance(lexer);
        }
    }
    let span = anchor.elapsed(lexer);
    Some(MutationPolicy { kind: MutationPolicyKind::Tunable { cost }, span })
}

/// `:<T, _>` after a name; the lexer is left untouched when no `:<` follows.
pub(crate) fn parse_type_arguments<'input>(lexer: &mut Lexer<'input>, errors: &mut ParseErrors<'input>) -> (arguments:
    Option<Box<ExplicitTypeArguments<'input>>>)
    requires
        old(lexer).wf(),
    ensures
        arguments is Some ==> old(lexer).current_kind() == TokenKind::Colon,
        old(lexer).current_kind() != TokenKind::Colon ==> arguments is None && final(lexer).position() == old(lexer).position(),
        old(errors)@.len() <= final(errors)@.len(),
        progressed(*old(lexer), *final(lexer)),
{
    if current_kind(lexer) != TokenKind::Colon {
        return None;
    }
    let anchor = lexer.cast_anchor();
    advance(lexer);
    if current_kind(lexer) != TokenKind::LessThan {
        lexer.back_to_anchor(anchor);
        return None;
    }
    advance(lexer);
    skip_line_feed(lexer);
    let mut arguments: Vec<ExplicitTypeArgument<'input>> = Vec::new();
    let mut at = lexer.offset();
    loop
        invariant
            old(errors)@.len() <= errors@.len(),
            progressed(*old(lexer), *lexer),
            lexer.anchor_ok(anchor),
        decreases usize::MAX - at,
    {
        let current = current_kind(lexer);
        if current == TokenKind::GreaterThan || current == TokenKind::NoToken {
            break;
        }
        let token = lexer.current();
        let infer = match &token {
            Some(token) => crate::text::str_equal(token.text, "_"),
            None => false,
        };
        if infer {
            let token = advance(lexer);
            arguments.push(ExplicitTypeArgument::Infer(Spanned::new((), token.span)));
        } else {
            match parse_type_info(lexer, errors) {
                Some(ty) => {
                    arguments.push(ExplicitTypeArgument::Type(Box::new(ty)));
                },
                None => {
                    let until = [TokenKind::LineFeed, TokenKind::Comma, TokenKind::GreaterThan];
                    let error = recover_until(
                        ParseErrorKind::InvalidTypeArgument,
                        lexer,
                        until.as_slice(),
                        Expected::TypeArgument,
                        Scope::TypeArguments,
                    );
                    errors.push(error);
                },
            }
        }
        if current_kind(lexer) == TokenKind::GreaterThan {
            break;
        }
        if !skip_list_separator(lexer) {
            let until = [TokenKind::LineFeed, TokenKind::Comma, TokenKind::GreaterThan];
            let error = recover_until(
                ParseErrorKind::InvalidTypeArgument,
                lexer,
                until.as_slice(),
                Expected::Token(TokenKind::Comma),
                Scope::TypeArguments,
            );
            errors.push(error);
            skip_list_separator(lexer);
        }
        // A pass that consumed nothing ends the list.
        let now = lexer.offset();
        if now <= at {
            break;
        }
        at = now;
    }
    if arguments.len() == 0 {
        errors.push(
            error_here(
                ParseErrorKind::InvalidTypeArgument,
                lexer,
                Expected::TypeArgument,
                Scope::TypeArguments,
            ),
        );
    }
    close_delimiter(
        lexer,
        errors,
        TokenKind::GreaterThan,
        ParseErrorKind::NonClosedTypeParameter,
        Scope::TypeArguments,
    );
    let span = anchor.elapsed(lexer);
    Some(Box::new(ExplicitTypeArguments { arguments, span }))
}

/// `some(pattern)`, `null`, `_`, `name` or `Enum::Variant`.
pub(crate) fn parse_pattern<'input>(lexer: &mut Lexer<'input>, errors: &mut ParseErrors<'input>) -> (pattern:
    Option<Pattern<'input>>)
    requires
        old(lexer).wf(),
    ensures
        old(lexer).current_kind() == TokenKind::Null ==> pattern is Some,
        pattern is None && (old(lexer).current_kind() == TokenKind::SomeKeyword || old(lexer).current_kind() == TokenKind::Literal) ==> old(errors)@.len() < final(errors)@.len(),
        pattern is Some ==> (old(lexer).current_kind() == TokenKind::SomeKeyword || old(lexer).current_kind() == TokenKind::Null || old(lexer).current_kind() == TokenKind::Literal || old(lexer).current_kind() == TokenKind::NumericLiteral),
        old(errors)@.len() <= final(errors)@.len(),
        progressed(*old(lexer), *final(lexer)),
    decreases remaining(*old(lexer)),
{
    let anchor = lexer.cast_anchor();
    let kind = current_kind(lexer);
    if kind == TokenKind::SomeKeyword {
        advance(lexer);
        if current_kind(lexer) != TokenKind::ParenthesisLeft {
            errors.push(
                error_here(
                    ParseErrorKind::InvalidPattern,
                    lexer,
                    Expected::Token(TokenKind::ParenthesisLeft),
                    Scope::Pattern,
                ),
            );
            return None;
        }
        advance(lexer);
        let inner = match parse_pattern(lexer, errors) {
            Some(inner) => inner,
            None => {
                errors.push(
                    error_here(ParseErrorKind::InvalidPattern, lexer, Expected::Pattern, Scope::Pattern),
                );
                return None;
            },
        };
        close_delimiter(
            lexer,
            errors,
            TokenKind::ParenthesisRight,
            ParseErrorKind::NonClosedParenthesis,
            Scope::Pattern,
        );
        let span = anchor.elapsed(lexer);
        return Some(Pattern::SomePattern(Box::new(SomePattern { pattern: Box::new(inner), span })));
    }
    if kind == TokenKind::Null {
        let token = advance(lexer);
        return Some(Pattern::Null(Spanned::new((), token.span)));
    }
    if kind != TokenKind::Literal && kind != TokenKind::NumericLiteral {
        return None;
    }
    let token = advance(lexer);
    if crate::text::str_equal(token.text, "_") {
        return Some(Pattern::Wildcard(Spanned::new((), token.span)));
    }
    if kind == TokenKind::NumericLiteral {
        lexer.back_to_anchor(anchor);
        return None;
    }
    let name: Literal<'input> = Spanned::new(token.text, token.span);
    if current_kind(lexer) != TokenKind::DoubleColon {
        return Some(Pattern::Binding(name));
    }
    advance(lexer);
    match parse_literal(lexer) {
        Some(variant) => {
            let span = anchor.elapsed(lexer);
            Some(
                Pattern::EnumVariant(
                    Box::new(EnumVariantPattern { enum_name: name, variant, span }),
                ),
            )
        },
        None => {
            errors.push(
                error_here(ParseErrorKind::InvalidPattern, lexer, Expected::Literal, Scope::Pattern),
            );
            None
        },
    }
}


/// `{ [policy] name: Type | { ... }, ... }`, the body of a type definition.
pub(crate) fn parse_typedef_block<'input>(lexer: &mut Lexer<'input>, errors: &mut ParseErrors<'input>) -> (block:
    Option<Box<TypedefBlock<'input>>>)
    requires
        old(lexer).wf(),
    ensures
        block is None ==> old(errors)@.len() < final(errors)@.len(),
        block is Some <==> old(lexer).current_kind() == TokenKind::BraceLeft,
        old(errors)@.len() <= final(errors)@.len(),
        progressed(*old(lexer), *final(lexer)),
        match block {
            Some(b) => span_ok(b.span, old(lexer).source_bytes()),
            None => true,
        },
    decreases remaining(*old(lexer)),
{
    if current_kind(lexer) != TokenKind::BraceLeft {
        errors.push(
            error_here(
                ParseErrorKind::InvalidTypedef,
                lexer,
                Expected::Token(TokenKind::BraceLeft),
                Scope::Typedef,
            ),
        );
        return None;
    }
    let anchor = lexer.cast_anchor();
    advance(lexer);
    skip_line_feed(lexer);
    let mut fields: Vec<Typedef<'input>> = Vec::new();
    let mut at = lexer.offset();
    loop
        invariant
            old(errors)@.len() <= errors@.len(),
            progressed(*old(lexer), *lexer),
            lexer.position() > old(lexer).position(),
            lexer.anchor_ok(anchor),
        decreases usize::MAX - at,
    {
        let current = current_kind(lexer);
        if current == TokenKind::BraceRight || current == TokenKind::NoToken || is_statement_start(
            current,
        ) {
            break;
        }
        let field_anchor = lexer.cast_anchor();
        let policy = parse_mutation_policy(lexer, errors);
        let until = [TokenKind::LineFeed, TokenKind::Comma, TokenKind::BraceRight];
        match parse_literal(lexer) {
            Some(name) => {
                if current_kind(lexer) != TokenKind::Colon {
                    let error = recover_until(
                        ParseErrorKind::InvalidTypedef,
                        lexer,
                        until.as_slice(),
                        Expected::Token(TokenKind::Colon),
                        Scope::Typedef,
                    );
                    errors.push(error);
                    skip_list_separator(lexer);
                } else {
                    advance(lexer);
                    let value = if current_kind(lexer) == TokenKind::BraceLeft {
                        match parse_typedef_block(lexer, errors) {
                            Some(block) => Some(TypedefValue::Block(block)),
                            None => None,
                        }
                    } else {
                        match parse_type_info(lexer, errors) {
                            Some(ty) => Some(TypedefValue::TypeInfo(Box::new(ty))),
                            None => None,
                        }
                    };
                    match value {
                        Some(value) => {
                            let span = field_anchor.elapsed(lexer);
                            fields.push(Typedef { policy, name, value, span });
                            if current_kind(lexer) == TokenKind::BraceRight {
                                break;
                            }
                            if !skip_list_separator(lexer) {
                                let error = recover_until(
                                    ParseErrorKind::InvalidTypedef,
                                    lexer,
                                    until.as_slice(),
                                    Expected::Token(TokenKind::Comma),
                                    Scope::Typedef,
                                );
                                errors.push(error);
                                skip_list_separator(lexer);
                            }
                        },
                        None => {
                            let error = recover_until(
                                ParseErrorKind::InvalidTypedef,
                                lexer,
                                until.as_slice(),
                                Expected::TypeInfo,
                                Scope::Typedef,
                            );
                            errors.push(error);
                            skip_list_separator(lexer);
                        },
                    }
                }
            },
            None => {
                let error = recover_until(
                    ParseErrorKind::InvalidTypedef,
                    lexer,
                    until.as_slice(),
                    Expected::Typedef,
                    Scope::Typedef,
                );
                errors.push(error);
                if current_kind(lexer) == TokenKind::BraceRight {
                    break;
                }
                skip_list_separator(lexer);
            },
        }
        // A pass that consumed nothing ends the list.
        let now = lexer.offset();
        if now <= at {
            break;
        }
        at = now;
    }
    close_delimiter(
        lexer,
        errors,
        TokenKind::BraceRight,
        ParseErrorKind::NonClosedBrace,
        Scope::Typedef,
    );
    let span = anchor.elapsed(lexer);
    Some(Box::new(TypedefBlock { fields, span }))
}

/// `use [a, b, c]`
pub(crate) fn parse_use_declare<'input>(lexer: &mut Lexer<'input>, errors: &mut ParseErrors<'input>) -> (declare:
    Option<Box<UseDeclare<'input>>>)
    requires
        old(lexer).wf(),
    ensures
        declare is None && old(lexer).current_kind() == TokenKind::Use ==> old(errors)@.len() < final(errors)@.len(),
        declare is Some ==> old(lexer).current_kind() == TokenKind::Use,
        old(errors)@.len() <= final(errors)@.len(),
        progressed(*old(lexer), *final(lexer)),
        match declare {
            Some(d) => span_ok(d.span, old(lexer).source_bytes()),
            None => true,
        },
{
    if current_kind(lexer) != TokenKind::Use {
        return None;
    }
    let anchor = lexer.cast_anchor();
    advance(lexer);
    if !recover_opening_token(lexer, errors, TokenKind::BracketLeft, Scope::UseDeclare) {
        return None;
    }
    skip_line_feed(lexer);
    let mut names: Vec<Literal<'input>> = Vec::new();
    let until = [TokenKind::LineFeed, TokenKind::Comma, TokenKind::BracketRight];
    let mut at = lexer.offset();
    loop
        invariant
            old(errors)@.len() <= errors@.len(),
            progressed(*old(lexer), *lexer),
            lexer.anchor_ok(anchor),
        decreases usize::MAX - at,
    {
        let current = current_kind(lexer);
        if current == TokenKind::BracketRight || current == TokenKind::NoToken
            || is_statement_start(current) {
            break;
        }
        match parse_literal(lexer) {
            Some(name) => {
                names.push(name);
            },
            None => {
                let error = recover_until(
                    ParseErrorKind::InvalidUseElement,
                    lexer,
                    until.as_slice(),
                    Expected::UseElement,
                    Scope::UseDeclare,
                );
                errors.push(error);
            },
        }
        if current_kind(lexer) == TokenKind::BracketRight {
            break;
        }
        if !skip_list_separator(lexer) {
            let error = recover_until(
                ParseErrorKind::InvalidUseElement,
                lexer,
                until.as_slice(),
                Expected::Token(TokenKind::Comma),
                Scope::UseDeclare,
            );
            errors.push(error);
            skip_list_separator(lexer);
        }
        // A pass that consumed nothing ends the list.
        let now = lexer.offset();
        if now <= at {
            break;
        }
        at = now;
    }
    close_delimiter(
        lexer,
        errors,
        TokenKind::BracketRight,
        ParseErrorKind::NonClosedBracket,
        Scope::UseDeclare,
    );
    let span = anchor.elapsed(lexer);
    Some(Box::new(UseDeclare { names, span }))
}

/// `import "path"`, `import { a, b as c } from "path"` or
/// `import * as name from "path"`.
pub(crate) fn parse_import_statement<'input>(lexer: &mut Lexer<'input>, errors: &mut ParseErrors<'input>) -> (statement:
    Option<Box<ImportStatement<'input>>>)
    requires
        old(lexer).wf(),
    ensures
        statement is None && old(lexer).current_kind() == TokenKind::Import ==> old(errors)@.len() < final(errors)@.len(),
        statement is Some ==> old(lexer).current_kind() == TokenKind::Import,
        old(errors)@.len() <= final(errors)@.len(),
        progressed(*old(lexer), *final(lexer)),
        match statement {
            Some(s) => span_ok(s.span, old(lexer).source_bytes()),
            None => true,
        },
{
    if current_kind(lexer) != TokenKind::Import {
        return None;
    }
    let anchor = lexer.cast_anchor();
    advance(lexer);
    let current = current_kind(lexer);
    if current == TokenKind::StringLiteral {
        let token = advance(lexer);
        let path = Spanned::new(token.text, token.span);
        let span = anchor.elapsed(lexer);
        return Some(Box::new(ImportStatement { kind: ImportKind::SideEffect, path, span }));
    }
    let kind = if current == TokenKind::BraceLeft {
        ImportKind::Named(parse_import_elements(lexer, errors))
    } else if current == TokenKind::Asterisk {
        advance(lexer);
        if current_kind(lexer) != TokenKind::As {
            errors.push(
                error_here(
                    ParseErrorKind::InvalidImportStatement,
                    lexer,
                    Expected::Token(TokenKind::As),
                    Scope::ImportStatement,
                ),
            );
            return None;
        }
        advance(lexer);
        match parse_literal(lexer) {
            Some(alias) => ImportKind::Namespace { alias },
            None => {
                errors.push(
                    error_here(
                        ParseErrorKind::InvalidImportStatement,
                        lexer,
                        Expected::Literal,
                        Scope::ImportStatement,
                    ),
                );
                return None;
            },
        }
    } else {
        let until = [TokenKind::LineFeed, TokenKind::Semicolon, TokenKind::BraceRight];
        let error = recover_until(
            ParseErrorKind::InvalidImportStatement,
            lexer,
            until.as_slice(),
            Expected::StringLiteral,
            Scope::ImportStatement,
        );
        errors.push(error);
        return None;
    };
    if current_kind(lexer) != TokenKind::From {
        errors.push(
            error_here(
                ParseErrorKind::InvalidImportStatement,
                lexer,
                Expected::Token(TokenKind::From),
                Scope::ImportStatement,
            ),
        );
        if current_kind(lexer) != TokenKind::StringLiteral {
            return None;
        }
    } else {
        advance(lexer);
    }
    if current_kind(lexer) != TokenKind::StringLiteral {
        errors.push(
            error_here(
                ParseErrorKind::InvalidImportStatement,
                lexer,
                Expected::StringLiteral,
                Scope::ImportStatement,
            ),
        );
        return None;
    }
    let token = advance(lexer);
    let path = Spanned::new(token.text, token.span);
    let span = anchor.elapsed(lexer);
    Some(Box::new(ImportStatement { kind, path, span }))
}

/// `{ a, b as c }` of a named import; the lexer stands at `{`.
fn parse_import_elements<'input>(lexer: &mut Lexer<'input>, errors: &mut ParseErrors<'input>) -> (elements:
    Vec<ImportElement<'input>>)
    requires
        old(lexer).wf(),
        old(lexer).current_kind() == TokenKind::BraceLeft,
    ensures
        final(lexer).position() > old(lexer).position(),
        old(errors)@.len() <= final(errors)@.len(),
        progressed(*old(lexer), *final(lexer)),
{
    advance(lexer);
    skip_line_feed(lexer);
    let mut elements: Vec<ImportElement<'input>> = Vec::new();
    let until = [TokenKind::LineFeed, TokenKind::Comma, TokenKind::BraceRight, TokenKind::From];
    let mut at = lexer.offset();
    loop
        invariant
            lexer.position() > old(lexer).position(),
            old(errors)@.len() <= errors@.len(),
            progressed(*old(lexer), *lexer),
        decreases usize::MAX - at,
    {
        let current = current_kind(lexer);
        if current == TokenKind::BraceRight || current == TokenKind::From || current
            == TokenKind::NoToken || is_statement_start(current) {
            break;
        }
        let element_anchor = lexer.cast_anchor();
        match parse_literal(lexer) {
            Some(name) => {
                let alias = if current_kind(lexer) == TokenKind::As {
                    advance(lexer);
                    let alias = parse_literal(lexer);
                    if alias.is_none() {
                        errors.push(
                            error_here(
                                ParseErrorKind::InvalidImportElement,
                                lexer,
                                Expected::Literal,
                                Scope::ImportElement,
                            ),
                        );
                    }
                    alias
                } else {
                    None
                };
                let span = element_anchor.elapsed(lexer);
                elements.push(ImportElement { name, alias, span });
                let current = current_kind(lexer);
                if current == TokenKind::BraceRight || current == TokenKind::From {
                    break;
                }
                if !skip_list_separator(lexer) {
                    let error = recover_until(
                        ParseErrorKind::InvalidImportElement,
                        lexer,
                        until.as_slice(),
                        Expected::Token(TokenKind::Comma),
                        Scope::ImportElement,
                    );
                    errors.push(error);
                    skip_list_separator(lexer);
                }
            },
            None => {
                let error = recover_until(
                    ParseErrorKind::InvalidImportElement,
                    lexer,
                    until.as_slice(),
                    Expected::ImportElement,
                    Scope::ImportElement,
                );
                errors.push(error);
                let current = current_kind(lexer);
                if current == TokenKind::BraceRight || current == TokenKind::From {
                    break;
                }
                skip_list_separator(lexer);
            },
        }
        // A pass that consumed nothing ends the list.
        let now = lexer.offset();
        if now <= at {
            break;
        }
        at = now;
    }
    if current_kind(lexer) != TokenKind::BraceRight {
        errors.push(
            error_here(
                ParseErrorKind::NonClosedBrace,
                lexer,
                Expected::Token(TokenKind::BraceRight),
                Scope::ImportStatement,
            ),
        );
    } else {
        advance(lexer);
    }
    elements
}

/// `(this, name: Type, ...)` of a function definition.
pub(crate) fn parse_function_arguments<'input>(
    lexer: &mut Lexer<'input>,
    errors: &mut ParseErrors<'input>,
) -> (arguments: Option<FunctionArguments<'input>>)
    requires
        old(lexer).wf(),
    ensures
        arguments is None ==> old(errors)@.len() < final(errors)@.len(),
        arguments is Some <==> old(lexer).current_kind() == TokenKind::ParenthesisLeft,
        old(errors)@.len() <= final(errors)@.len(),
        progressed(*old(lexer), *final(lexer)),
{
    if current_kind(lexer) != TokenKind::ParenthesisLeft {
        errors.push(
            error_here(
                ParseErrorKind::InvalidFunctionDefine,
                lexer,
                Expected::Token(TokenKind::ParenthesisLeft),
                Scope::FunctionArguments,
            ),
        );
        return None;
    }
    let anchor = lexer.cast_anchor();
    advance(lexer);
    skip_line_feed(lexer);
    let receiver = if current_kind(lexer) == TokenKind::This {
        let token = advance(lexer);
        if current_kind(lexer) != TokenKind::ParenthesisRight && !skip_list_separator(lexer) {
            errors.push(
                error_here(
                    ParseErrorKind::InvalidFunctionArgument,
                    lexer,
                    Expected::Token(TokenKind::Comma),
                    Scope::FunctionArguments,
                ),
            );
        }
        Some(Spanned::new(token.text, token.span))
    } else {
        None
    };
    let mut arguments: Vec<FunctionArgument<'input>> = Vec::new();
    let until = [TokenKind::LineFeed, TokenKind::Comma, TokenKind::ParenthesisRight];
    let mut at = lexer.offset();
    loop
        invariant
            old(errors)@.len() <= errors@.len(),
            progressed(*old(lexer), *lexer),
            lexer.anchor_ok(anchor),
        decreases usize::MAX - at,
    {
        let current = current_kind(lexer);
        if current == TokenKind::ParenthesisRight || current == TokenKind::NoToken
            || is_statement_start(current) {
            break;
        }
        let argument_anchor = lexer.cast_anchor();
        match parse_literal(lexer) {
            Some(name) => {
                if current_kind(lexer) != TokenKind::Colon {
                    let error = recover_until(
                        ParseErrorKind::InvalidFunctionArgument,
                        lexer,
                        until.as_slice(),
                        Expected::Token(TokenKind::Colon),
                        Scope::FunctionArguments,
                    );
                    errors.push(error);
                    skip_list_separator(lexer);
                } else {
                    advance(lexer);
                    match parse_type_info(lexer, errors) {
                        Some(type_info) => {
                            let span = argument_anchor.elapsed(lexer);
                            arguments.push(
                                FunctionArgument { name, type_info: Box::new(type_info), span },
                            );
                            if current_kind(lexer) == TokenKind::ParenthesisRight {
                                break;
                            }
                            if !skip_list_separator(lexer) {
                                let error = recover_until(
                                    ParseErrorKind::InvalidFunctionArgument,
                                    lexer,
                                    until.as_slice(),
                                    Expected::Token(TokenKind::Comma),
                                    Scope::FunctionArguments,
                                );
                                errors.push(error);
                                skip_list_separator(lexer);
                            }
                        },
                        None => {
                            let error = recover_until(
                                ParseErrorKind::InvalidFunctionArgument,
                                lexer,
                                until.as_slice(),
                                Expected::TypeInfo,
                                Scope::FunctionArguments,
                            );
                            errors.push(error);
                            skip_list_separator(lexer);
                        },
                    }
                }
            },
            None => {
                let error = recover_until(
                    ParseErrorKind::InvalidFunctionArgument,
                    lexer,
                    until.as_slice(),
                    Expected::FunctionArgument,
                    Scope::FunctionArguments,
                );
                errors.push(error);
                if current_kind(lexer) == TokenKind::ParenthesisRight {
                    break;
                }
                skip_list_separator(lexer);
            },
        }
        // A pass that consumed nothing ends the list.
        let now = lexer.offset();
        if now <= at {
            break;
        }
        at = now;
    }
    close_delimiter(
        lexer,
        errors,
        TokenKind::ParenthesisRight,
        ParseErrorKind::NonClosedParenthesis,
        Scope::FunctionArguments,
    );
    let span = anchor.elapsed(lexer);
    Some(FunctionArguments { receiver, arguments, span })
}

/// `-> Type` after the arguments of a function.
pub(crate) fn parse_function_return_type<'input>(
    lexer: &mut Lexer<'input>,
    errors: &mut ParseErrors<'input>,
) -> (return_type: Option<Box<TypeInfo<'input>>>)
    requires
        old(lexer).wf(),
    ensures
        old(lexer).current_kind() != TokenKind::ThinArrow ==> return_type is None && final(lexer).position() == old(lexer).position(),
        return_type is None && old(lexer).current_kind() == TokenKind::ThinArrow ==> old(errors)@.len() < final(errors)@.len(),
        return_type is Some ==> old(lexer).current_kind() == TokenKind::ThinArrow,
        old(errors)@.len() <= final(errors)@.len(),
        progressed(*old(lexer), *final(lexer)),
{
    if current_kind(lexer) != TokenKind::ThinArrow {
        return None;
    }
    advance(lexer);
    match parse_type_info(lexer, errors) {
        Some(ty) => Some(Box::new(ty)),
        None => {
            let until = [TokenKind::BraceLeft, TokenKind::LineFeed];
            let error = recover_until(
                ParseErrorKind::InvalidFunctionDefine,
                lexer,
                until.as_slice(),
                Expected::TypeInfo,
                Scope::FunctionDefine,
            );
            errors.push(error);
            None
        },
    }
}

/// The binary operator a token spells, with its precedence (higher binds
/// tighter).
pub fn binary_operator(kind: TokenKind) -> (operator: Option<(BinaryOperator, u8)>)
    ensures
        operator == binary_operator_of(kind),
{
    match kind {
        TokenKind::Or => Some((BinaryOperator::Or, 1)),
        TokenKind::And => Some((BinaryOperator::And, 2)),
        TokenKind::DoubleEquals => Some((BinaryOperator::Equal, 3)),
        TokenKind::NotEquals => Some((BinaryOperator::NotEqual, 3)),
        TokenKind::LessThan => Some((BinaryOperator::LessThan, 4)),
        TokenKind::GreaterThan => Some((BinaryOperator::GreaterThan, 4)),
        TokenKind::LessThanOrEqual => Some((BinaryOperator::LessThanOrEqual, 4)),
        TokenKind::GreaterThanOrEqual => Some((BinaryOperator::GreaterThanOrEqual, 4)),
        TokenKind::Plus => Some((BinaryOperator::Add, 5)),
        TokenKind::Minus => Some((BinaryOperator::Subtract, 5)),
        TokenKind::Asterisk => Some((BinaryOperator::Multiply, 6)),
        TokenKind::Slash => Some((BinaryOperator::Divide, 6)),
        _ => None,
    }
}

pub open spec fn binary_operator_of(kind: TokenKind) -> Option<(BinaryOperator, u8)> {
    match kind {
        TokenKind::Or => Some((BinaryOperator::Or, 1u8)),
        TokenKind::And => Some((BinaryOperator::And, 2u8)),
        TokenKind::DoubleEquals => Some((BinaryOperator::Equal, 3u8)),
        TokenKind::NotEquals => Some((BinaryOperator::NotEqual, 3u8)),
        TokenKind::LessThan => Some((BinaryOperator::LessThan, 4u8)),
        TokenKind::GreaterThan => Some((BinaryOperator::GreaterThan, 4u8)),
        TokenKind::LessThanOrEqual => Some((BinaryOperator::LessThanOrEqual, 4u8)),
        TokenKind::GreaterThanOrEqual => Some((BinaryOperator::GreaterThanOrEqual, 4u8)),
        TokenKind::Plus => Some((BinaryOperator::Add, 5u8)),
        TokenKind::Minus => Some((BinaryOperator::Subtract, 5u8)),
        TokenKind::Asterisk => Some((BinaryOperator::Multiply, 6u8)),
        TokenKind::Slash => Some((BinaryOperator::Divide, 6u8)),
        _ => None,
    }
}

/// How the grammar spells a binary operator.
pub open spec fn operator_text(operator: BinaryOperator) -> Seq<char> {
    match operator {
        BinaryOperator::Or => "or"@,
        BinaryOperator::And => "and"@,
        BinaryOperator::Equal => "=="@,
        BinaryOperator::NotEqual => "!="@,
        BinaryOperator::LessThan => "<"@,
        BinaryOperator::GreaterThan => ">"@,
        BinaryOperator::LessThanOrEqual => "<="@,
        BinaryOperator::GreaterThanOrEqual => ">="@,
        BinaryOperator::Add => "+"@,
        BinaryOperator::Subtract => "-"@,
        BinaryOperator::Multiply => "*"@,
        BinaryOperator::Divide => "/"@,
    }
}

/// How deeply the grammar nests the rule that combines an operator:
/// `or_expr` over `and_expr` over `equ_or_ine_expr` over `les_or_gre_expr`
/// over `add_or_sub_expr` over `mul_or_div_expr`; a deeper rule binds
/// tighter.
pub open spec fn grammar_depth(operator: BinaryOperator) -> int {
    match operator {
        BinaryOperator::Or => 0,
        BinaryOperator::And => 1,
        BinaryOperator::Equal | BinaryOperator::NotEqual => 2,
        BinaryOperator::LessThan | BinaryOperator::GreaterThan | BinaryOperator::LessThanOrEqual
        | BinaryOperator::GreaterThanOrEqual => 3,
        BinaryOperator::Add | BinaryOperator::Subtract => 4,
        BinaryOperator::Multiply | BinaryOperator::Divide => 5,
    }
}

/// The operator a token yields is the one the token spells, and of two
/// operator tokens the one whose grammar rule lies deeper has the higher
/// precedence (binds tighter), while operators of one rule share their
/// precedence: `and` binds tighter than `or`, comparisons than `and`,
/// `+` and `-` than comparisons, `*` and `/` than `+` and `-`.
pub proof fn lemma_binary_operators_follow_grammar(first: TokenKind, second: TokenKind)
    ensures
        binary_operator_of(first) matches Some((operator, _)) ==> spelling(first) == Some(operator_text(operator)),
        binary_operator_of(first) is Some && binary_operator_of(second) is Some ==> {
            let (a, p) = binary_operator_of(first).unwrap();
            let (b, q) = binary_operator_of(second).unwrap();
            &&& (p < q <==> grammar_depth(a) < grammar_depth(b))
            &&& (p == q <==> grammar_depth(a) == grammar_depth(b))
        },
        binary_operator_of(TokenKind::Or).unwrap().1 < binary_operator_of(TokenKind::And).unwrap().1,
        binary_operator_of(TokenKind::And).unwrap().1 < binary_operator_of(TokenKind::DoubleEquals).unwrap().1,
        binary_operator_of(TokenKind::DoubleEquals).unwrap().1 < binary_operator_of(TokenKind::LessThan).unwrap().1,
        binary_operator_of(TokenKind::LessThan).unwrap().1 < binary_operator_of(TokenKind::Plus).unwrap().1,
        binary_operator_of(TokenKind::Plus).unwrap().1 < binary_operator_of(TokenKind::Asterisk).unwrap().1,
{
}

/// The tokens at which an expression ends, for error recovery.
pub fn expression_end_tokens() -> (tokens: [TokenKind; 8])
    ensures
        tokens@ == seq![
            TokenKind::LineFeed,
            TokenKind::Semicolon,
            TokenKind::Comma,
            TokenKind::Equal,
            TokenKind::BraceLeft,
            TokenKind::BraceRight,
            TokenKind::BracketRight,
            TokenKind::ParenthesisRight,
        ],
{
    [
        TokenKind::LineFeed,
        TokenKind::Semicolon,
        TokenKind::Comma,
        TokenKind::Equal,
        TokenKind::BraceLeft,
        TokenKind::BraceRight,
        TokenKind::BracketRight,
        TokenKind::ParenthesisRight,
    ]
}

} // verus!
