//! Statements and expressions: the recursive part of the grammar.
//!
//! Every function here leaves the lexer well-formed over the same text and
//! never moves it backwards, and every node it returns spans a range of the
//! text that starts and ends on character boundaries.  Recursion is bounded
//! by a nesting budget, so the parser's stack stays bounded too: syntax
//! nested deeper than [`NESTING_LIMIT`] is reported as an error.

use std::ops::Range;

use vstd::prelude::*;

use crate::ast::{
    AccessOperator, Array, AssertStatement, AssignStatement, AssignValue, BinaryExpression, Block,
    ClosureBody, ClosureExpression, ClosureParameter, ElseBranch, ElseBranchValue,
    ElvisExpression, EnumDefine, EnumVariant, Expression, FunctionAttribute, FunctionCall,
    FunctionDefine, IfBranch, IfExpression, ImplementsDefine, InterfaceDefine, LetStatement,
    LiteralValue, MatchArm, MatchExpression, NestedAssignment, NestedAssignmentField, Primary,
    PrimaryAccess, ReturnExpression, SomeValue, Source, Spanned, Statement, Statements,
    ThrowExpression, TypeDefine, UnaryExpression, UnaryOperator, Value, AST,
};
use crate::lexer::{lex_from, Lexer, TokenKind};
use crate::parse_error::{
    advance, current_kind, error_here, following_kind, progressed, recover_until, span_ok, Expected,
    ParseErrorKind, Scope,
};
use crate::parser::{
    binary_operator, binary_operator_of, grammar_depth, close_delimiter, expression_end_tokens, is_statement_start,
    parse_export_modifier, parse_function_arguments, parse_function_return_type,
    parse_generic_parameters, parse_import_statement, parse_literal, parse_mutation_policy,
    parse_pattern, parse_type_arguments, parse_type_info, parse_typedef_block, parse_use_declare,
    parse_where_clause, recover_opening_token, skip_line_feed, skip_list_separator,
    rest_is_separators, skip_statement_separator, ParseErrors,
};

verus! {

/// How deeply the parser follows nested syntax (each nested construct
/// takes a few levels).
pub const NESTING_LIMIT: usize = 1024;

/// A statement whose span, and for an assignment also its target's span,
/// lies on character boundaries of the text.
pub open spec fn statement_ok(statement: Statement<'_>, bytes: Seq<u8>) -> bool {
    &&& span_ok(statement.span_value(), bytes)
    &&& match statement {
        Statement::AssignStatement(node) => span_ok(node.target.span_value(), bytes),
        _ => true,
    }
}

pub open spec fn statements_ok(statements: Seq<Statement<'_>>, bytes: Seq<u8>) -> bool {
    forall|i: int| 0 <= i < statements.len() ==> statement_ok(#[trigger] statements[i], bytes)
}

/// The kind of the token that the text holds at byte `p`, reading past
/// white space and comments as a lexer with these settings does.
pub open spec fn kind_at(bytes: Seq<u8>, p: int, skip_whitespace: bool, skip_comments: bool) -> TokenKind {
    match lex_from(bytes, p, skip_whitespace, skip_comments).token {
        Some((kind, _, _)) => kind,
        None => TokenKind::NoToken,
    }
}

/// What a statement parsed without error shows of its text: a binding
/// without a type is not followed by `:` after its name (a `:` there that
/// no type follows is an error).
pub open spec fn statement_clean(statement: Statement<'_>, bytes: Seq<u8>, skip_whitespace: bool, skip_comments: bool) -> bool {
    match statement {
        Statement::LetStatement(node) => node.type_info is None ==> kind_at(
            bytes,
            node.name.span.end as int,
            skip_whitespace,
            skip_comments,
        ) != TokenKind::Colon,
        _ => true,
    }
}

/// An operator tree grouped as the grammar's precedence requires, with
/// every operator binding at least `minimum` (an operator's binding is one
/// more than the depth of its grammar rule): the left operand of an
/// operator is combined by operators that bind at least as tightly, and
/// the right operand by operators that bind strictly more tightly, so that
/// `a or b and c` groups as `a or (b and c)` and `a - b - c` as
/// `(a - b) - c`.
pub open spec fn binds_by_precedence(expression: Expression<'_>, minimum: int) -> bool
    decreases expression,
{
    match expression {
        Expression::Binary(node) => {
            let level = grammar_depth(node.operator.value) + 1;
            &&& level >= minimum
            &&& binds_by_precedence(*node.left, level)
            &&& binds_by_precedence(*node.right, level + 1)
        },
        _ => true,
    }
}

/// The operator a token is, where it binds at least `minimum`.
pub open spec fn operator_at_least(kind: TokenKind, minimum: int) -> bool {
    match binary_operator_of(kind) {
        Some((_, precedence)) => precedence >= minimum,
        None => false,
    }
}

proof fn lemma_binds_weaker(expression: Expression<'_>, minimum: int, weaker: int)
    requires
        binds_by_precedence(expression, minimum),
        expression matches Expression::Binary(node) ==> grammar_depth(node.operator.value) + 1 >= weaker,
    ensures
        binds_by_precedence(expression, weaker),
{
}

/// An optional expression that spans whole characters of the text.
pub open spec fn expression_ok(expression: Option<Box<Expression<'_>>>, bytes: Seq<u8>) -> bool {
    match expression {
        Some(e) => span_ok(e.span_value(), bytes),
        None => true,
    }
}

/// A token that starts a value: an array, a name, `some(...)`, a number, a
/// string, `true`, `false` or `null`.
pub open spec fn starts_value(kind: TokenKind) -> bool {
    ||| kind == TokenKind::BracketLeft
    ||| kind == TokenKind::Literal
    ||| kind == TokenKind::SomeKeyword
    ||| kind == TokenKind::NumericLiteral
    ||| kind == TokenKind::StringLiteral
    ||| kind == TokenKind::True
    ||| kind == TokenKind::False
    ||| kind == TokenKind::Null
}

/// A token that starts an operand: a value, or `+` or `-` before one.
pub open spec fn starts_factor(kind: TokenKind) -> bool {
    starts_value(kind) || kind == TokenKind::Plus || kind == TokenKind::Minus
}

/// A token that starts an expression: an operand, `if`, `match`,
/// `return`, `throw`, or a closure's `inline` or `opaque`.
pub open spec fn starts_expression(kind: TokenKind) -> bool {
    ||| starts_factor(kind)
    ||| kind == TokenKind::If
    ||| kind == TokenKind::Match
    ||| kind == TokenKind::Return
    ||| kind == TokenKind::Throw
    ||| kind == TokenKind::Inline
    ||| kind == TokenKind::Opaque
}

/// A token that starts a statement of its own kind (not an assignment or
/// an expression).
pub open spec fn starts_statement(kind: TokenKind) -> bool {
    ||| kind == TokenKind::Import
    ||| kind == TokenKind::Export
    ||| kind == TokenKind::Enum
    ||| kind == TokenKind::Type
    ||| kind == TokenKind::Interface
    ||| kind == TokenKind::Implements
    ||| kind == TokenKind::Use
    ||| kind == TokenKind::Let
    ||| kind == TokenKind::Declare
    ||| kind == TokenKind::Assert
    ||| kind == TokenKind::Inline
    ||| kind == TokenKind::Opaque
}

/// The kind of value a token starts.
pub open spec fn value_of_kind(value: Value<'_>, kind: TokenKind) -> bool {
    match value {
        Value::Array(_) => kind == TokenKind::BracketLeft,
        Value::Literal(_) => kind == TokenKind::Literal,
        Value::SomeValue(_) => kind == TokenKind::SomeKeyword,
        Value::Numeric(_) => kind == TokenKind::NumericLiteral,
        Value::String(_) => kind == TokenKind::StringLiteral,
        Value::Boolean(_) => kind == TokenKind::True || kind == TokenKind::False,
        Value::Null(_) => kind == TokenKind::Null,
    }
}

/// Reports that the nesting budget is spent.
fn too_deep<'input>(lexer: &mut Lexer<'input>, errors: &mut ParseErrors<'input>, expected: Expected, scope: Scope)
    requires
        old(lexer).wf(),
    ensures
        final(errors)@ == old(errors)@.push(final(errors)@.last()),
        final(errors)@.last().kind == ParseErrorKind::TooDeeplyNested,
        final(errors)@.last().expected == expected,
        final(errors)@.last().scope == scope,
        old(errors)@.len() <= final(errors)@.len(),
        progressed(*old(lexer), *final(lexer)),
        final(lexer).position() == old(lexer).position(),
        final(lexer).current_kind() == old(lexer).current_kind(),
{
    errors.push(error_here(ParseErrorKind::TooDeeplyNested, lexer, expected, scope));
}

/// Parses a whole source text.  The lexer ends at the end of the text;
/// the errors found on the way are appended to `errors`.
pub fn parse_source<'input>(lexer: &mut Lexer<'input>, errors: &mut ParseErrors<'input>) -> (source:
    Source<'input>)
    requires
        old(lexer).wf(),
    ensures
        old(errors)@.len() <= final(errors)@.len(),
        progressed(*old(lexer), *final(lexer)),
        final(lexer).current_kind() == TokenKind::NoToken,
        span_ok(source.span, old(lexer).source_bytes()),
        statements_ok(source.statements@, old(lexer).source_bytes()),
        !rest_is_separators(*old(lexer)) ==> source.statements@.len() > 0
            || old(errors)@.len() < final(errors)@.len(),
        rest_is_separators(*old(lexer)) ==> source.statements@.len() == 0 && final(errors)@ == old(errors)@,
        final(errors)@.len() == old(errors)@.len() ==> forall|k: int|
            0 <= k < source.statements@.len() ==> statement_clean(
                #[trigger] source.statements@[k],
                old(lexer).source_bytes(),
                old(lexer).skips_whitespace(),
                old(lexer).skips_comments(),
            ),
{
    parse_statements(lexer, errors, false, NESTING_LIMIT)
}

/// Statements separated by line feeds or semicolons, up to the end of the
/// text, or up to a `}` when `stop_at_brace`.
fn parse_statements<'input>(
    lexer: &mut Lexer<'input>,
    errors: &mut ParseErrors<'input>,
    stop_at_brace: bool,
    depth: usize,
) -> (statements: Statements<'input>)
    requires
        old(lexer).wf(),
        depth > 0,
    ensures
        old(errors)@.len() <= final(errors)@.len(),
        progressed(*old(lexer), *final(lexer)),
        !stop_at_brace ==> final(lexer).current_kind() == TokenKind::NoToken,
        span_ok(statements.span, old(lexer).source_bytes()),
        statements_ok(statements.statements@, old(lexer).source_bytes()),
        !stop_at_brace && !rest_is_separators(*old(lexer)) ==> statements.statements@.len() > 0
            || old(errors)@.len() < final(errors)@.len(),
        !stop_at_brace && rest_is_separators(*old(lexer)) ==> statements.statements@.len() == 0 && final(errors)@
            == old(errors)@,
        final(errors)@.len() == old(errors)@.len() ==> forall|k: int|
            0 <= k < statements.statements@.len() ==> statement_clean(
                #[trigger] statements.statements@[k],
                old(lexer).source_bytes(),
                old(lexer).skips_whitespace(),
                old(lexer).skips_comments(),
            ),
    decreases depth,
{
    let ghost bytes = lexer.source_bytes();
    let anchor = lexer.cast_anchor();
    let mut statements: Vec<Statement<'input>> = Vec::new();
    let until = [TokenKind::LineFeed, TokenKind::Semicolon, TokenKind::BraceRight];
    skip_statement_separator(lexer);
    let ghost separators = rest_is_separators(*old(lexer));
    let mut at = lexer.offset();
    loop
        invariant
            old(errors)@.len() <= errors@.len(),
            progressed(*old(lexer), *lexer),
            lexer.source_bytes() == bytes,
            lexer.anchor_ok(anchor),
            at <= lexer.position(),
            depth > 0,
            statements_ok(statements@, bytes),
            separators == rest_is_separators(*old(lexer)),
            !stop_at_brace && !separators ==> statements@.len() > 0 || old(errors)@.len() < errors@.len()
                || lexer.current_kind() != TokenKind::NoToken,
            !stop_at_brace && separators ==> statements@.len() == 0 && errors@ == old(errors)@
                && lexer.current_kind() == TokenKind::NoToken,
            errors@.len() == old(errors)@.len() ==> forall|k: int|
                0 <= k < statements@.len() ==> statement_clean(
                    #[trigger] statements@[k],
                    bytes,
                    old(lexer).skips_whitespace(),
                    old(lexer).skips_comments(),
                ),
        ensures
            progressed(*old(lexer), *lexer),
            lexer.anchor_ok(anchor),
            !stop_at_brace ==> lexer.current_kind() == TokenKind::NoToken,
            statements_ok(statements@, bytes),
            !stop_at_brace && !separators ==> statements@.len() > 0 || old(errors)@.len() < errors@.len(),
            !stop_at_brace && separators ==> statements@.len() == 0 && errors@ == old(errors)@,
            errors@.len() == old(errors)@.len() ==> forall|k: int|
                0 <= k < statements@.len() ==> statement_clean(
                    #[trigger] statements@[k],
                    bytes,
                    old(lexer).skips_whitespace(),
                    old(lexer).skips_comments(),
                ),
        decreases usize::MAX - at,
    {
        let kind = current_kind(lexer);
        if kind == TokenKind::NoToken || (stop_at_brace && kind == TokenKind::BraceRight) {
            break;
        }
        let error_count = errors.len();
        match parse_statement(lexer, errors, depth - 1) {
            Some(statement) => {
                statements.push(statement);
                if !skip_statement_separator(lexer) {
                    let kind = current_kind(lexer);
                    if kind == TokenKind::NoToken || (stop_at_brace && kind == TokenKind::BraceRight) {
                    } else if is_statement_start(kind) {
                        errors.push(
                            error_here(
                                ParseErrorKind::InvalidStatementSeparator,
                                lexer,
                                Expected::StatementSeparator,
                                Scope::Statements,
                            ),
                        );
                    } else {
                        let error = recover_until(
                            ParseErrorKind::InvalidStatementSeparator,
                            lexer,
                            until.as_slice(),
                            Expected::StatementSeparator,
                            Scope::Statements,
                        );
                        errors.push(error);
                        skip_statement_separator(lexer);
                    }
                }
            },
            None => {
                let kind = current_kind(lexer);
                let resumable = errors.len() > error_count && (is_statement_start(kind) || kind
                    == TokenKind::LineFeed || kind == TokenKind::Semicolon || kind
                    == TokenKind::BraceRight || kind == TokenKind::NoToken);
                if !resumable {
                    let error = recover_until(
                        ParseErrorKind::InvalidStatement,
                        lexer,
                        until.as_slice(),
                        Expected::Statement,
                        Scope::Statements,
                    );
                    errors.push(error);
                }
                let kind = current_kind(lexer);
                if stop_at_brace && kind == TokenKind::BraceRight {
                    break;
                }
                if !stop_at_brace && kind == TokenKind::BraceRight {
                    advance(lexer);
                }
                skip_statement_separator(lexer);
            },
        }
        let now = lexer.offset();
        if now <= at {
            // Nothing was consumed: inside a block the block ends here; at
            // the top level the token is reported and skipped.
            let kind = current_kind(lexer);
            if stop_at_brace || kind == TokenKind::NoToken {
                break;
            }
            errors.push(
                error_here(
                    ParseErrorKind::InvalidStatement,
                    lexer,
                    Expected::Statement,
                    Scope::Statements,
                ),
            );
            advance(lexer);
            let after = lexer.offset();
            if after <= at {
                break;
            }
            at = after;
        } else {
            at = now;
        }
    }
    let span = anchor.elapsed(lexer);
    Statements { statements, span }
}

/// One statement, chosen by its first token.
fn parse_statement<'input>(lexer: &mut Lexer<'input>, errors: &mut ParseErrors<'input>, depth: usize) -> (statement:
    Option<Statement<'input>>)
    requires
        old(lexer).wf(),
    ensures
        statement is None && (depth == 0 || starts_statement(old(lexer).current_kind())) ==> old(errors)@.len() < final(errors)@.len(),
        old(errors)@.len() <= final(errors)@.len(),
        progressed(*old(lexer), *final(lexer)),
        match statement {
            Some(s) => statement_ok(s, old(lexer).source_bytes()),
            None => true,
        },
        final(errors)@.len() == old(errors)@.len() ==> (statement matches Some(s) ==> statement_clean(
            s,
            old(lexer).source_bytes(),
            old(lexer).skips_whitespace(),
            old(lexer).skips_comments(),
        )),
    decreases depth,
{
    if depth == 0 {
        too_deep(lexer, errors, Expected::Statement, Scope::Statements);
        return None;
    }
    let kind = current_kind(lexer);
    if kind == TokenKind::Import {
        match parse_import_statement(lexer, errors) {
            Some(node) => Some(Statement::ImportStatement(node)),
            None => None,
        }
    } else if kind == TokenKind::Export {
        parse_exported_statement(lexer, errors, depth - 1)
    } else if kind == TokenKind::Enum {
        match parse_enum_define(lexer, errors, depth - 1) {
            Some(node) => Some(Statement::EnumDefine(node)),
            None => None,
        }
    } else if kind == TokenKind::Type {
        match parse_type_define(lexer, errors) {
            Some(node) => Some(Statement::TypeDefine(node)),
            None => None,
        }
    } else if kind == TokenKind::Interface {
        match parse_interface_define(lexer, errors, depth - 1) {
            Some(node) => Some(Statement::InterfaceDefine(node)),
            None => None,
        }
    } else if kind == TokenKind::Implements {
        match parse_implements_define(lexer, errors, depth - 1) {
            Some(node) => Some(Statement::ImplementsDefine(node)),
            None => None,
        }
    } else if kind == TokenKind::Use {
        match parse_use_declare(lexer, errors) {
            Some(node) => Some(Statement::UseDeclare(node)),
            None => None,
        }
    } else if kind == TokenKind::Let || kind == TokenKind::Declare {
        match parse_let_statement(lexer, errors, depth - 1) {
            Some(node) => Some(Statement::LetStatement(node)),
            None => None,
        }
    } else if kind == TokenKind::Assert {
        match parse_assert_statement(lexer, errors, depth - 1) {
            Some(node) => Some(Statement::AssertStatement(node)),
            None => None,
        }
    } else if kind == TokenKind::Inline || kind == TokenKind::Opaque {
        match parse_function_define(lexer, errors, depth - 1) {
            Some(node) => Some(Statement::FunctionDefine(node)),
            None => None,
        }
    } else {
        parse_assign_or_expression_statement(lexer, errors, depth - 1)
    }
}

/// A declaration after `export`.
fn parse_exported_statement<'input>(lexer: &mut Lexer<'input>, errors: &mut ParseErrors<'input>, depth: usize) -> (statement:
    Option<Statement<'input>>)
    requires
        old(lexer).wf(),
    ensures
        statement is None && (depth == 0 || old(lexer).current_kind() == TokenKind::Export) ==> old(errors)@.len() < final(errors)@.len(),
        statement is Some ==> old(lexer).current_kind() == TokenKind::Export,
        old(errors)@.len() <= final(errors)@.len(),
        progressed(*old(lexer), *final(lexer)),
        match statement {
            Some(s) => statement_ok(s, old(lexer).source_bytes()),
            None => true,
        },
        final(errors)@.len() == old(errors)@.len() ==> (statement matches Some(s) ==> statement_clean(
            s,
            old(lexer).source_bytes(),
            old(lexer).skips_whitespace(),
            old(lexer).skips_comments(),
        )),
    decreases depth,
{
    if depth == 0 {
        too_deep(lexer, errors, Expected::ExportableDeclaration, Scope::ExportStatement);
        return None;
    }
    if current_kind(lexer) != TokenKind::Export {
        return None;
    }
    let anchor = lexer.cast_anchor();
    advance(lexer);
    let declaration = current_kind(lexer);
    lexer.back_to_anchor(anchor);
    if declaration == TokenKind::Enum {
        match parse_enum_define(lexer, errors, depth - 1) {
            Some(node) => Some(Statement::EnumDefine(node)),
            None => None,
        }
    } else if declaration == TokenKind::Type {
        match parse_type_define(lexer, errors) {
            Some(node) => Some(Statement::TypeDefine(node)),
            None => None,
        }
    } else if declaration == TokenKind::Interface {
        match parse_interface_define(lexer, errors, depth - 1) {
            Some(node) => Some(Statement::InterfaceDefine(node)),
            None => None,
        }
    } else if declaration == TokenKind::Declare || declaration == TokenKind::Let {
        match parse_let_statement(lexer, errors, depth - 1) {
            Some(node) => Some(Statement::LetStatement(node)),
            None => None,
        }
    } else if declaration == TokenKind::Inline || declaration == TokenKind::Opaque {
        match parse_function_define(lexer, errors, depth - 1) {
            Some(node) => Some(Statement::FunctionDefine(node)),
            None => None,
        }
    } else {
        advance(lexer);
        let until = [TokenKind::LineFeed, TokenKind::Semicolon, TokenKind::BraceRight];
        let error = recover_until(
            ParseErrorKind::InvalidExportStatement,
            lexer,
            until.as_slice(),
            Expected::ExportableDeclaration,
            Scope::ExportStatement,
        );
        errors.push(error);
        None
    }
}

/// `[export] enum Name [: Type] { Variant [= value], ... }`
fn parse_enum_define<'input>(lexer: &mut Lexer<'input>, errors: &mut ParseErrors<'input>, depth: usize) -> (define:
    Option<Box<EnumDefine<'input>>>)
    requires
        old(lexer).wf(),
    ensures
        define is None && (depth == 0 || old(lexer).current_kind() == TokenKind::Enum || (old(lexer).current_kind() == TokenKind::Export && following_kind(*old(lexer)) == TokenKind::Enum)) ==> old(errors)@.len() < final(errors)@.len(),
        define is Some ==> (old(lexer).current_kind() == TokenKind::Enum || old(lexer).current_kind() == TokenKind::Export),
        old(errors)@.len() <= final(errors)@.len(),
        progressed(*old(lexer), *final(lexer)),
        match define {
            Some(d) => span_ok(d.span, old(lexer).source_bytes()),
            None => true,
        },
    decreases depth,
{
    if depth == 0 {
        too_deep(lexer, errors, Expected::EnumVariant, Scope::EnumDefine);
        return None;
    }
    let first = current_kind(lexer);
    if first != TokenKind::Export && first != TokenKind::Enum {
        return None;
    }
    let anchor = lexer.cast_anchor();
    let exported = parse_export_modifier(lexer);
    if current_kind(lexer) != TokenKind::Enum {
        return None;
    }
    advance(lexer);
    let name = match parse_literal(lexer) {
        Some(name) => name,
        None => {
            errors.push(
                error_here(
                    ParseErrorKind::InvalidEnumDefine,
                    lexer,
                    Expected::Literal,
                    Scope::EnumDefine,
                ),
            );
            return None;
        },
    };
    let represented = current_kind(lexer) == TokenKind::Colon;
    let representation_type = if represented {
        advance(lexer);
        match parse_type_info(lexer, errors) {
            Some(ty) => Some(Box::new(ty)),
            None => {
                errors.push(
                    error_here(
                        ParseErrorKind::InvalidEnumDefine,
                        lexer,
                        Expected::TypeInfo,
                        Scope::EnumDefine,
                    ),
                );
                None
            },
        }
    } else {
        None
    };
    if !recover_opening_token(lexer, errors, TokenKind::BraceLeft, Scope::EnumDefine) {
        return None;
    }
    skip_line_feed(lexer);
    let mut variants: Vec<EnumVariant<'input>> = Vec::new();
    let until = [TokenKind::LineFeed, TokenKind::Comma, TokenKind::BraceRight];
    let mut at = lexer.offset();
    loop
        invariant
            old(errors)@.len() <= errors@.len(),
            progressed(*old(lexer), *lexer),
            lexer.anchor_ok(anchor),
            depth > 0,
        decreases usize::MAX - at,
    {
        let current = current_kind(lexer);
        if current == TokenKind::BraceRight || current == TokenKind::NoToken || is_statement_start(
            current,
        ) {
            break;
        }
        let variant_anchor = lexer.cast_anchor();
        match parse_literal(lexer) {
            Some(name) => {
                let value = if represented {
                    if current_kind(lexer) != TokenKind::Equal {
                        let error = recover_until(
                            ParseErrorKind::InvalidEnumVariant,
                            lexer,
                            until.as_slice(),
                            Expected::Token(TokenKind::Equal),
                            Scope::EnumVariant,
                        );
                        errors.push(error);
                        None
                    } else {
                        advance(lexer);
                        let value = parse_expression(lexer, errors, depth - 1);
                        if value.is_none() {
                            let error = recover_until(
                                ParseErrorKind::InvalidEnumVariant,
                                lexer,
                                until.as_slice(),
                                Expected::Expression,
                                Scope::EnumVariant,
                            );
                            errors.push(error);
                        }
                        value
                    }
                } else {
                    None
                };
                let span = variant_anchor.elapsed(lexer);
                variants.push(EnumVariant { name, value, span });
                if current_kind(lexer) == TokenKind::BraceRight {
                    break;
                }
                if !skip_list_separator(lexer) {
                    let error = recover_until(
                        ParseErrorKind::InvalidEnumVariant,
                        lexer,
                        until.as_slice(),
                        Expected::Token(TokenKind::Comma),
                        Scope::EnumVariant,
                    );
                    errors.push(error);
                    skip_list_separator(lexer);
                }
            },
            None => {
                let error = recover_until(
                    ParseErrorKind::InvalidEnumVariant,
                    lexer,
                    until.as_slice(),
                    Expected::EnumVariant,
                    Scope::EnumVariant,
                );
                errors.push(error);
                if current_kind(lexer) == TokenKind::BraceRight {
                    break;
                }
                skip_list_separator(lexer);
            },
        }
        // A pass that consumed nothing ends the list.
        let now = lexer.offset();
        if now <= at {
            break;
        }
        at = now;
    }
    close_delimiter(
        lexer,
        errors,
        TokenKind::BraceRight,
        ParseErrorKind::NonClosedBrace,
        Scope::EnumDefine,
    );
    let span = anchor.elapsed(lexer);
    Some(Box::new(EnumDefine { exported, name, representation_type, variants, span }))
}

/// `[export] type Name [<T>] [where ...] { fields }`
fn parse_type_define<'input>(lexer: &mut Lexer<'input>, errors: &mut ParseErrors<'input>) -> (define:
    Option<Box<TypeDefine<'input>>>)
    requires
        old(lexer).wf(),
    ensures
        define is None && (old(lexer).current_kind() == TokenKind::Type || (old(lexer).current_kind() == TokenKind::Export && following_kind(*old(lexer)) == TokenKind::Type)) ==> old(errors)@.len() < final(errors)@.len(),
        define is Some ==> (old(lexer).current_kind() == TokenKind::Type || old(lexer).current_kind() == TokenKind::Export),
        old(errors)@.len() <= final(errors)@.len(),
        progressed(*old(lexer), *final(lexer)),
        match define {
            Some(d) => span_ok(d.span, old(lexer).source_bytes()),
            None => true,
        },
{
    let first = current_kind(lexer);
    if first != TokenKind::Export && first != TokenKind::Type {
        return None;
    }
    let anchor = lexer.cast_anchor();
    let exported = parse_export_modifier(lexer);
    if current_kind(lexer) != TokenKind::Type {
        return None;
    }
    advance(lexer);
    let name = match parse_literal(lexer) {
        Some(name) => name,
        None => {
            errors.push(
                error_here(ParseErrorKind::InvalidTypedef, lexer, Expected::Literal, Scope::TypeDefine),
            );
            return None;
        },
    };
    let generic_parameters = parse_generic_parameters(lexer, errors);
    skip_line_feed(lexer);
    let where_clause = parse_where_clause(lexer, errors);
    let body = match parse_typedef_block(lexer, errors) {
        Some(body) => body,
        None => {
            return None;
        },
    };
    let span = anchor.elapsed(lexer);
    Some(Box::new(TypeDefine { exported, name, generic_parameters, where_clause, body, span }))
}

/// `[export] interface Name [<T>] [where ...] { methods }`
fn parse_interface_define<'input>(lexer: &mut Lexer<'input>, errors: &mut ParseErrors<'input>, depth: usize) -> (define:
    Option<Box<InterfaceDefine<'input>>>)
    requires
        old(lexer).wf(),
    ensures
        define is None && (depth == 0 || old(lexer).current_kind() == TokenKind::Interface || (old(lexer).current_kind() == TokenKind::Export && following_kind(*old(lexer)) == TokenKind::Interface)) ==> old(errors)@.len() < final(errors)@.len(),
        define is Some ==> (old(lexer).current_kind() == TokenKind::Interface || old(lexer).current_kind() == TokenKind::Export),
        old(errors)@.len() <= final(errors)@.len(),
        progressed(*old(lexer), *final(lexer)),
        match define {
            Some(d) => span_ok(d.span, old(lexer).source_bytes()),
            None => true,
        },
    decreases depth,
{
    if depth == 0 {
        too_deep(lexer, errors, Expected::Method, Scope::InterfaceDefine);
        return None;
    }
    let first = current_kind(lexer);
    if first != TokenKind::Export && first != TokenKind::Interface {
        return None;
    }
    let anchor = lexer.cast_anchor();
    let exported = parse_export_modifier(lexer);
    if current_kind(lexer) != TokenKind::Interface {
        return None;
    }
    advance(lexer);
    let name = match parse_literal(lexer) {
        Some(name) => name,
        None => {
            errors.push(
                error_here(
                    ParseErrorKind::InvalidInterfaceDefine,
                    lexer,
                    Expected::Literal,
                    Scope::InterfaceDefine,
                ),
            );
            return None;
        },
    };
    let generic_parameters = parse_generic_parameters(lexer, errors);
    skip_line_feed(lexer);
    let where_clause = parse_where_clause(lexer, errors);
    let methods = match parse_methods_block(
        lexer,
        errors,
        ParseErrorKind::InvalidInterfaceDefine,
        Scope::InterfaceDefine,
        depth - 1,
    ) {
        Some(methods) => methods,
        None => {
            return None;
        },
    };
    let span = anchor.elapsed(lexer);
    Some(Box::new(InterfaceDefine { exported, name, generic_parameters, where_clause, methods, span }))
}

/// `implements [<T>] Interface for Type [where ...] { methods }`
fn parse_implements_define<'input>(lexer: &mut Lexer<'input>, errors: &mut ParseErrors<'input>, depth: usize) -> (define:
    Option<Box<ImplementsDefine<'input>>>)
    requires
        old(lexer).wf(),
    ensures
        define is None && (depth == 0 || old(lexer).current_kind() == TokenKind::Implements) ==> old(errors)@.len() < final(errors)@.len(),
        define is Some ==> old(lexer).current_kind() == TokenKind::Implements,
        old(errors)@.len() <= final(errors)@.len(),
        progressed(*old(lexer), *final(lexer)),
        match define {
            Some(d) => span_ok(d.span, old(lexer).source_bytes()),
            None => true,
        },
    decreases depth,
{
    if depth == 0 {
        too_deep(lexer, errors, Expected::Method, Scope::ImplementsDefine);
        return None;
    }
    if current_kind(lexer) != TokenKind::Implements {
        return None;
    }
    let anchor = lexer.cast_anchor();
    advance(lexer);
    let generic_parameters = parse_generic_parameters(lexer, errors);
    let interface = match parse_type_info(lexer, errors) {
        Some(ty) => Box::new(ty),
        None => {
            errors.push(
                error_here(
                    ParseErrorKind::InvalidImplementsDefine,
                    lexer,
                    Expected::TypeInfo,
                    Scope::ImplementsDefine,
                ),
            );
            return None;
        },
    };
    if current_kind(lexer) != TokenKind::For {
        let until = [TokenKind::For, TokenKind::BraceLeft, TokenKind::LineFeed];
        let error = recover_until(
            ParseErrorKind::InvalidImplementsDefine,
            lexer,
            until.as_slice(),
            Expected::Token(TokenKind::For),
            Scope::ImplementsDefine,
        );
        errors.push(error);
    }
    if current_kind(lexer) != TokenKind::For {
        return None;
    }
    advance(lexer);
    let target = match parse_type_info(lexer, errors) {
        Some(ty) => Box::new(ty),
        None => {
            errors.push(
                error_here(
                    ParseErrorKind::InvalidImplementsDefine,
                    lexer,
                    Expected::TypeInfo,
                    Scope::ImplementsDefine,
                ),
            );
            return None;
        },
    };
    skip_line_feed(lexer);
    let where_clause = parse_where_clause(lexer, errors);
    let methods = match parse_methods_block(
        lexer,
        errors,
        ParseErrorKind::InvalidImplementsDefine,
        Scope::ImplementsDefine,
        depth - 1,
    ) {
        Some(methods) => methods,
        None => {
            return None;
        },
    };
    let span = anchor.elapsed(lexer);
    Some(Box::new(ImplementsDefine { generic_parameters, interface, target, where_clause, methods, span }))
}

/// `{ method; method }` of an interface or an implementation.
fn parse_methods_block<'input>(
    lexer: &mut Lexer<'input>,
    errors: &mut ParseErrors<'input>,
    invalid_kind: ParseErrorKind,
    scope: Scope,
    depth: usize,
) -> (methods: Option<Vec<FunctionDefine<'input>>>)
    requires
        old(lexer).wf(),
    ensures
        methods is None ==> old(errors)@.len() < final(errors)@.len(),
        methods is Some <==> depth > 0 && old(lexer).current_kind() == TokenKind::BraceLeft,
        old(errors)@.len() <= final(errors)@.len(),
        progressed(*old(lexer), *final(lexer)),
    decreases depth,
{
    if depth == 0 {
        too_deep(lexer, errors, Expected::Method, scope);
        return None;
    }
    if current_kind(lexer) != TokenKind::BraceLeft {
        errors.push(error_here(invalid_kind, lexer, Expected::Token(TokenKind::BraceLeft), scope));
        return None;
    }
    advance(lexer);
    skip_statement_separator(lexer);
    let mut methods: Vec<FunctionDefine<'input>> = Vec::new();
    let until = [TokenKind::LineFeed, TokenKind::Semicolon, TokenKind::BraceRight];
    let mut at = lexer.offset();
    loop
        invariant
            old(errors)@.len() <= errors@.len(),
            progressed(*old(lexer), *lexer),
            depth > 0,
        decreases usize::MAX - at,
    {
        let current = current_kind(lexer);
        if current == TokenKind::BraceRight || current == TokenKind::NoToken {
            break;
        }
        if current == TokenKind::Inline || current == TokenKind::Opaque {
            match parse_function_define(lexer, errors, depth - 1) {
                Some(method) => {
                    methods.push(*method);
                },
                None => {},
            }
        } else {
            let error = recover_until(invalid_kind, lexer, until.as_slice(), Expected::Method, scope);
            errors.push(error);
        }
        if current_kind(lexer) == TokenKind::BraceRight {
            break;
        }
        if !skip_statement_separator(lexer) {
            let error = recover_until(
                ParseErrorKind::InvalidStatementSeparator,
                lexer,
                until.as_slice(),
                Expected::StatementSeparator,
                scope,
            );
            errors.push(error);
            skip_statement_separator(lexer);
        }
        // A pass that consumed nothing ends the block.
        let now = lexer.offset();
        if now <= at {
            break;
        }
        at = now;
    }
    close_delimiter(lexer, errors, TokenKind::BraceRight, ParseErrorKind::NonClosedBrace, scope);
    Some(methods)
}

/// `[export] [declare] let [policy] name [: Type] [= value]`
fn parse_let_statement<'input>(lexer: &mut Lexer<'input>, errors: &mut ParseErrors<'input>, depth: usize) -> (statement:
    Option<Box<LetStatement<'input>>>)
    requires
        old(lexer).wf(),
    ensures
        statement is None && (depth == 0 || old(lexer).current_kind() == TokenKind::Let || old(lexer).current_kind() == TokenKind::Declare || (old(lexer).current_kind() == TokenKind::Export && (following_kind(*old(lexer)) == TokenKind::Let || following_kind(*old(lexer)) == TokenKind::Declare))) ==> old(errors)@.len() < final(errors)@.len(),
        statement is Some ==> (old(lexer).current_kind() == TokenKind::Let || old(lexer).current_kind() == TokenKind::Declare || old(lexer).current_kind() == TokenKind::Export),
        old(errors)@.len() <= final(errors)@.len(),
        progressed(*old(lexer), *final(lexer)),
        match statement {
            Some(s) => span_ok(s.span, old(lexer).source_bytes()),
            None => true,
        },
        final(errors)@.len() == old(errors)@.len() ==> (statement matches Some(s) ==> statement_clean(
            Statement::LetStatement(s),
            old(lexer).source_bytes(),
            old(lexer).skips_whitespace(),
            old(lexer).skips_comments(),
        )),
    decreases depth,
{
    if depth == 0 {
        too_deep(lexer, errors, Expected::Expression, Scope::LetStatement);
        return None;
    }
    let first = current_kind(lexer);
    if first != TokenKind::Export && first != TokenKind::Declare && first != TokenKind::Let {
        return None;
    }
    let anchor = lexer.cast_anchor();
    let exported = parse_export_modifier(lexer);
    let declare = if current_kind(lexer) == TokenKind::Declare {
        advance(lexer);
        true
    } else {
        false
    };
    if current_kind(lexer) != TokenKind::Let {
        errors.push(
            error_here(
                ParseErrorKind::InvalidLetStatement,
                lexer,
                Expected::Token(TokenKind::Let),
                Scope::LetStatement,
            ),
        );
        return None;
    }
    advance(lexer);
    let policy = parse_mutation_policy(lexer, errors);
    let name = match parse_literal(lexer) {
        Some(name) => name,
        None => {
            errors.push(
                error_here(
                    ParseErrorKind::InvalidLetStatement,
                    lexer,
                    Expected::Literal,
                    Scope::LetStatement,
                ),
            );
            return None;
        },
    };
    let type_info = if current_kind(lexer) == TokenKind::Colon {
        advance(lexer);
        match parse_type_info(lexer, errors) {
            Some(ty) => Some(Box::new(ty)),
            None => {
                let until = [
                    TokenKind::Equal,
                    TokenKind::LineFeed,
                    TokenKind::Semicolon,
                    TokenKind::BraceRight,
                ];
                let error = recover_until(
                    ParseErrorKind::InvalidLetStatement,
                    lexer,
                    until.as_slice(),
                    Expected::TypeInfo,
                    Scope::LetStatement,
                );
                errors.push(error);
                None
            },
        }
    } else {
        None
    };
    let value = if current_kind(lexer) == TokenKind::Equal {
        advance(lexer);
        skip_line_feed(lexer);
        let value = parse_expression(lexer, errors, depth - 1);
        if value.is_none() {
            errors.push(
                error_here(
                    ParseErrorKind::InvalidLetStatement,
                    lexer,
                    Expected::Expression,
                    Scope::LetStatement,
                ),
            );
        }
        value
    } else {
        None
    };
    let span = anchor.elapsed(lexer);
    Some(Box::new(LetStatement { exported, declare, policy, name, type_info, value, span }))
}

/// `assert condition, message`
fn parse_assert_statement<'input>(lexer: &mut Lexer<'input>, errors: &mut ParseErrors<'input>, depth: usize) -> (statement:
    Option<Box<AssertStatement<'input>>>)
    requires
        old(lexer).wf(),
    ensures
        statement is None && (depth == 0 || old(lexer).current_kind() == TokenKind::Assert) ==> old(errors)@.len() < final(errors)@.len(),
        statement is Some ==> old(lexer).current_kind() == TokenKind::Assert,
        old(errors)@.len() <= final(errors)@.len(),
        progressed(*old(lexer), *final(lexer)),
        match statement {
            Some(s) => span_ok(s.span, old(lexer).source_bytes()),
            None => true,
        },
    decreases depth,
{
    if depth == 0 {
        too_deep(lexer, errors, Expected::Expression, Scope::AssertStatement);
        return None;
    }
    if current_kind(lexer) != TokenKind::Assert {
        return None;
    }
    let anchor = lexer.cast_anchor();
    advance(lexer);
    let until = [TokenKind::LineFeed, TokenKind::Semicolon, TokenKind::BraceRight];
    let condition = match parse_expression(lexer, errors, depth - 1) {
        Some(condition) => condition,
        None => {
            let error = recover_until(
                ParseErrorKind::InvalidAssertStatement,
                lexer,
                until.as_slice(),
                Expected::Expression,
                Scope::AssertStatement,
            );
            errors.push(error);
            return None;
        },
    };
    if current_kind(lexer) != TokenKind::Comma {
        let until = [
            TokenKind::Comma,
            TokenKind::LineFeed,
            TokenKind::Semicolon,
            TokenKind::BraceRight,
        ];
        let error = recover_until(
            ParseErrorKind::InvalidAssertStatement,
            lexer,
            until.as_slice(),
            Expected::Token(TokenKind::Comma),
            Scope::AssertStatement,
        );
        errors.push(error);
    }
    if current_kind(lexer) != TokenKind::Comma {
        let span = anchor.elapsed(lexer);
        return Some(Box::new(AssertStatement { condition, message: None, span }));
    }
    advance(lexer);
    let message_anchor = lexer.cast_anchor();
    let separated = current_kind(lexer);
    let message_follows_separator = separated == TokenKind::LineFeed || separated
        == TokenKind::Document;
    skip_line_feed(lexer);
    let message = parse_expression(lexer, errors, depth - 1);
    if message.is_none() {
        if message_follows_separator && is_statement_start(current_kind(lexer)) {
            lexer.back_to_anchor(message_anchor);
        }
        errors.push(
            error_here(
                ParseErrorKind::InvalidAssertStatement,
                lexer,
                Expected::Expression,
                Scope::AssertStatement,
            ),
        );
    }
    let span = anchor.elapsed(lexer);
    Some(Box::new(AssertStatement { condition, message, span }))
}

/// `target = value` or an expression used as a statement (`if`, `match`,
/// `return`, `throw`).
fn parse_assign_or_expression_statement<'input>(
    lexer: &mut Lexer<'input>,
    errors: &mut ParseErrors<'input>,
    depth: usize,
) -> (statement: Option<Statement<'input>>)
    requires
        old(lexer).wf(),
    ensures
        statement is None && (depth <= 1 || (old(lexer).current_kind() == TokenKind::If || old(lexer).current_kind() == TokenKind::Match || old(lexer).current_kind() == TokenKind::Return || old(lexer).current_kind() == TokenKind::Throw)) ==> old(errors)@.len() < final(errors)@.len(),
        old(errors)@.len() <= final(errors)@.len(),
        progressed(*old(lexer), *final(lexer)),
        match statement {
            Some(s) => statement_ok(s, old(lexer).source_bytes()),
            None => true,
        },
        statement matches Some(s) ==> s is AssignStatement || s is Expression,
    decreases depth,
{
    if depth == 0 {
        too_deep(lexer, errors, Expected::Statement, Scope::AssignStatement);
        return None;
    }
    let anchor = lexer.cast_anchor();
    let target = match parse_expression(lexer, errors, depth - 1) {
        Some(target) => target,
        None => {
            return None;
        },
    };
    if current_kind(lexer) != TokenKind::Equal {
        let statement_like = match &*target {
            Expression::If(_) | Expression::Match(_) | Expression::Return(_) | Expression::Throw(
                _,
            ) => true,
            _ => false,
        };
        if statement_like {
            return Some(Statement::Expression(target));
        }
        lexer.back_to_anchor(anchor);
        return None;
    }
    advance(lexer);
    skip_line_feed(lexer);
    let value = match parse_assign_value(lexer, errors, depth - 1) {
        Some(value) => value,
        None => {
            errors.push(
                error_here(
                    ParseErrorKind::InvalidAssignStatement,
                    lexer,
                    Expected::Expression,
                    Scope::AssignStatement,
                ),
            );
            return None;
        },
    };
    let span = anchor.elapsed(lexer);
    Some(Statement::AssignStatement(Box::new(AssignStatement { target, value, span })))
}

/// The value of an assignment: an expression or `{ field = value, ... }`.
fn parse_assign_value<'input>(lexer: &mut Lexer<'input>, errors: &mut ParseErrors<'input>, depth: usize) -> (value:
    Option<AssignValue<'input>>)
    requires
        old(lexer).wf(),
    ensures
        value is None && (depth <= 6 || old(lexer).current_kind() == TokenKind::BraceLeft || starts_expression(old(lexer).current_kind())) ==> old(errors)@.len() < final(errors)@.len(),
        value matches Some(AssignValue::Nested(_)) ==> old(lexer).current_kind() == TokenKind::BraceLeft,
        old(errors)@.len() <= final(errors)@.len(),
        progressed(*old(lexer), *final(lexer)),
    decreases depth,
{
    if depth == 0 {
        too_deep(lexer, errors, Expected::Expression, Scope::AssignStatement);
        return None;
    }
    if current_kind(lexer) == TokenKind::BraceLeft {
        match parse_nested_assignment(lexer, errors, depth - 1) {
            Some(nested) => Some(AssignValue::Nested(nested)),
            None => None,
        }
    } else {
        match parse_expression(lexer, errors, depth - 1) {
            Some(expression) => Some(AssignValue::Expression(expression)),
            None => None,
        }
    }
}

/// `{ field = value, ... }`
fn parse_nested_assignment<'input>(lexer: &mut Lexer<'input>, errors: &mut ParseErrors<'input>, depth: usize) -> (nested:
    Option<Box<NestedAssignment<'input>>>)
    requires
        old(lexer).wf(),
    ensures
        nested is None && (depth == 0 || old(lexer).current_kind() == TokenKind::BraceLeft) ==> old(errors)@.len() < final(errors)@.len(),
        nested is Some ==> old(lexer).current_kind() == TokenKind::BraceLeft,
        old(errors)@.len() <= final(errors)@.len(),
        progressed(*old(lexer), *final(lexer)),
    decreases depth,
{
    if depth == 0 {
        too_deep(lexer, errors, Expected::NestedAssignment, Scope::NestedAssignment);
        return None;
    }
    if current_kind(lexer) != TokenKind::BraceLeft {
        return None;
    }
    let anchor = lexer.cast_anchor();
    advance(lexer);
    skip_line_feed(lexer);
    let mut fields: Vec<NestedAssignmentField<'input>> = Vec::new();
    let until = [TokenKind::LineFeed, TokenKind::Comma, TokenKind::BraceRight];
    let mut at = lexer.offset();
    loop
        invariant
            old(errors)@.len() <= errors@.len(),
            progressed(*old(lexer), *lexer),
            lexer.anchor_ok(anchor),
            depth > 0,
        decreases usize::MAX - at,
    {
        let current = current_kind(lexer);
        if current == TokenKind::BraceRight || current == TokenKind::NoToken {
            break;
        }
        let field_anchor = lexer.cast_anchor();
        match parse_literal(lexer) {
            Some(name) => {
                if current_kind(lexer) != TokenKind::Equal {
                    let error = recover_until(
                        ParseErrorKind::InvalidNestedAssignment,
                        lexer,
                        until.as_slice(),
                        Expected::Token(TokenKind::Equal),
                        Scope::NestedAssignment,
                    );
                    errors.push(error);
                } else {
                    advance(lexer);
                    skip_line_feed(lexer);
                    match parse_assign_value(lexer, errors, depth - 1) {
                        Some(value) => {
                            let span = field_anchor.elapsed(lexer);
                            fields.push(NestedAssignmentField { name, value, span });
                        },
                        None => {
                            let error = recover_until(
                                ParseErrorKind::InvalidNestedAssignment,
                                lexer,
                                until.as_slice(),
                                Expected::Expression,
                                Scope::NestedAssignment,
                            );
                            errors.push(error);
                        },
                    }
                }
            },
            None => {
                let error = recover_until(
                    ParseErrorKind::InvalidNestedAssignment,
                    lexer,
                    until.as_slice(),
                    Expected::NestedAssignment,
                    Scope::NestedAssignment,
                );
                errors.push(error);
            },
        }
        if current_kind(lexer) == TokenKind::BraceRight {
            break;
        }
        if !skip_list_separator(lexer) {
            let error = recover_until(
                ParseErrorKind::InvalidNestedAssignment,
                lexer,
                until.as_slice(),
                Expected::Token(TokenKind::Comma),
                Scope::NestedAssignment,
            );
            errors.push(error);
            skip_list_separator(lexer);
        }
        // A pass that consumed nothing ends the list.
        let now = lexer.offset();
        if now <= at {
            break;
        }
        at = now;
    }
    close_delimiter(
        lexer,
        errors,
        TokenKind::BraceRight,
        ParseErrorKind::NonClosedBrace,
        Scope::NestedAssignment,
    );
    let span = anchor.elapsed(lexer);
    Some(Box::new(NestedAssignment { fields, span }))
}

/// `[export] inline|opaque function name [<T>] (arguments) [-> Type] [where ...] { body }`
fn parse_function_define<'input>(lexer: &mut Lexer<'input>, errors: &mut ParseErrors<'input>, depth: usize) -> (define:
    Option<Box<FunctionDefine<'input>>>)
    requires
        old(lexer).wf(),
    ensures
        define is None && (depth == 0 || old(lexer).current_kind() == TokenKind::Inline || old(lexer).current_kind() == TokenKind::Opaque || (old(lexer).current_kind() == TokenKind::Export && (following_kind(*old(lexer)) == TokenKind::Inline || following_kind(*old(lexer)) == TokenKind::Opaque))) ==> old(errors)@.len() < final(errors)@.len(),
        define is Some ==> (old(lexer).current_kind() == TokenKind::Inline || old(lexer).current_kind() == TokenKind::Opaque || old(lexer).current_kind() == TokenKind::Export),
        old(errors)@.len() <= final(errors)@.len(),
        progressed(*old(lexer), *final(lexer)),
        match define {
            Some(d) => span_ok(d.span, old(lexer).source_bytes()),
            None => true,
        },
    decreases depth,
{
    if depth == 0 {
        too_deep(lexer, errors, Expected::Block, Scope::FunctionDefine);
        return None;
    }
    let first = current_kind(lexer);
    if first != TokenKind::Export && first != TokenKind::Inline && first != TokenKind::Opaque {
        return None;
    }
    let anchor = lexer.cast_anchor();
    let exported = parse_export_modifier(lexer);
    let attribute_kind = current_kind(lexer);
    let attribute = if attribute_kind == TokenKind::Inline {
        FunctionAttribute::Inline
    } else if attribute_kind == TokenKind::Opaque {
        FunctionAttribute::Opaque
    } else {
        return None;
    };
    let attribute_token = advance(lexer);
    let attribute = Spanned::new(attribute, attribute_token.span);
    if current_kind(lexer) != TokenKind::Function {
        errors.push(
            error_here(
                ParseErrorKind::InvalidFunctionDefine,
                lexer,
                Expected::Token(TokenKind::Function),
                Scope::FunctionDefine,
            ),
        );
        return None;
    }
    advance(lexer);
    let name = match parse_literal(lexer) {
        Some(name) => name,
        None => {
            errors.push(
                error_here(
                    ParseErrorKind::InvalidFunctionDefine,
                    lexer,
                    Expected::Literal,
                    Scope::FunctionDefine,
                ),
            );
            return None;
        },
    };
    let generic_parameters = parse_generic_parameters(lexer, errors);
    let arguments = match parse_function_arguments(lexer, errors) {
        Some(arguments) => arguments,
        None => {
            return None;
        },
    };
    let return_type = parse_function_return_type(lexer, errors);
    skip_line_feed(lexer);
    let where_clause = parse_where_clause(lexer, errors);
    let body = match parse_block(lexer, errors, depth - 1) {
        Some(body) => body,
        None => {
            errors.push(
                error_here(
                    ParseErrorKind::InvalidFunctionDefine,
                    lexer,
                    Expected::Block,
                    Scope::FunctionDefine,
                ),
            );
            return None;
        },
    };
    let span = anchor.elapsed(lexer);
    Some(
        Box::new(
            FunctionDefine {
                exported,
                attribute,
                name,
                generic_parameters,
                arguments,
                return_type,
                where_clause,
                body,
                span,
            },
        ),
    )
}

/// `{ statements }`
fn parse_block<'input>(lexer: &mut Lexer<'input>, errors: &mut ParseErrors<'input>, depth: usize) -> (block:
    Option<Box<Block<'input>>>)
    requires
        old(lexer).wf(),
    ensures
        block is None && (depth == 0 || old(lexer).current_kind() == TokenKind::BraceLeft) ==> old(errors)@.len() < final(errors)@.len(),
        old(errors)@.len() <= final(errors)@.len(),
        progressed(*old(lexer), *final(lexer)),
        match block {
            Some(b) => span_ok(b.span, old(lexer).source_bytes()),
            None => true,
        },
    decreases depth,
{
    if depth < 2 {
        too_deep(lexer, errors, Expected::Block, Scope::Block);
        return None;
    }
    if current_kind(lexer) != TokenKind::BraceLeft {
        return None;
    }
    let anchor = lexer.cast_anchor();
    advance(lexer);
    let statements = parse_statements(lexer, errors, true, depth - 1);
    close_delimiter(lexer, errors, TokenKind::BraceRight, ParseErrorKind::NonClosedBrace, Scope::Block);
    let span = anchor.elapsed(lexer);
    Some(Box::new(Block { statements, span }))
}

/// An expression: `if`, `match`, `return`, `throw`, a closure, or an
/// operator expression with an optional `?:` fallback.
fn parse_expression<'input>(lexer: &mut Lexer<'input>, errors: &mut ParseErrors<'input>, depth: usize) -> (expression:
    Option<Box<Expression<'input>>>)
    requires
        old(lexer).wf(),
    ensures
        expression is None && (depth <= 5 || starts_expression(old(lexer).current_kind())) ==> old(errors)@.len() < final(errors)@.len(),
        expression is Some ==> depth > 0 && starts_expression(old(lexer).current_kind()),
        old(lexer).current_kind() == TokenKind::If ==> (expression matches Some(e) ==> *e is If),
        old(lexer).current_kind() == TokenKind::Match ==> (expression matches Some(e) ==> *e is Match),
        old(lexer).current_kind() == TokenKind::Return ==> (expression matches Some(e) ==> *e is Return),
        old(lexer).current_kind() == TokenKind::Throw ==> (expression matches Some(e) ==> *e is Throw),
        old(errors)@.len() <= final(errors)@.len(),
        progressed(*old(lexer), *final(lexer)),
        expression_ok(expression, old(lexer).source_bytes()),
    decreases depth,
{
    if depth == 0 {
        too_deep(lexer, errors, Expected::Expression, Scope::Expression);
        return None;
    }
    let kind = current_kind(lexer);
    if kind == TokenKind::If {
        match parse_if_expression(lexer, errors, depth - 1) {
            Some(node) => Some(Box::new(Expression::If(node))),
            None => None,
        }
    } else if kind == TokenKind::Match {
        match parse_match_expression(lexer, errors, depth - 1) {
            Some(node) => Some(Box::new(Expression::Match(node))),
            None => None,
        }
    } else if kind == TokenKind::Return {
        match parse_return_expression(lexer, errors, depth - 1) {
            Some(node) => Some(Box::new(Expression::Return(node))),
            None => None,
        }
    } else if kind == TokenKind::Throw {
        match parse_throw_expression(lexer, errors, depth - 1) {
            Some(node) => Some(Box::new(Expression::Throw(node))),
            None => None,
        }
    } else if kind == TokenKind::Inline || kind == TokenKind::Opaque {
        match parse_closure_expression(lexer, errors, depth - 1) {
            Some(node) => Some(Box::new(Expression::Closure(node))),
            None => None,
        }
    } else {
        parse_elvis_expression(lexer, errors, depth - 1)
    }
}

/// `left ?: fallback`, grouping to the right.
fn parse_elvis_expression<'input>(lexer: &mut Lexer<'input>, errors: &mut ParseErrors<'input>, depth: usize) -> (expression:
    Option<Box<Expression<'input>>>)
    requires
        old(lexer).wf(),
    ensures
        expression is None && (depth <= 4 || starts_factor(old(lexer).current_kind())) ==> old(errors)@.len() < final(errors)@.len(),
        expression is Some ==> starts_factor(old(lexer).current_kind()),
        old(errors)@.len() <= final(errors)@.len(),
        progressed(*old(lexer), *final(lexer)),
        expression_ok(expression, old(lexer).source_bytes()),
    decreases depth,
{
    if depth == 0 {
        too_deep(lexer, errors, Expected::Expression, Scope::ElvisExpression);
        return None;
    }
    let anchor = lexer.cast_anchor();
    let optional = match parse_binary_expression(lexer, errors, 1, depth - 1) {
        Some(optional) => optional,
        None => {
            return None;
        },
    };
    if current_kind(lexer) != TokenKind::Elvis {
        return Some(optional);
    }
    advance(lexer);
    skip_line_feed(lexer);
    match parse_expression(lexer, errors, depth - 1) {
        Some(fallback) => {
            let span = anchor.elapsed(lexer);
            Some(Box::new(Expression::Elvis(Box::new(ElvisExpression { optional, fallback, span }))))
        },
        None => {
            errors.push(
                error_here(
                    ParseErrorKind::InvalidElvisExpression,
                    lexer,
                    Expected::Expression,
                    Scope::ElvisExpression,
                ),
            );
            Some(optional)
        },
    }
}

/// Operators of at least `minimum_precedence`, grouping to the left.
fn parse_binary_expression<'input>(
    lexer: &mut Lexer<'input>,
    errors: &mut ParseErrors<'input>,
    minimum_precedence: u8,
    depth: usize,
) -> (expression: Option<Box<Expression<'input>>>)
    requires
        old(lexer).wf(),
    ensures
        expression is None && (depth <= 3 || starts_factor(old(lexer).current_kind())) ==> old(errors)@.len() < final(errors)@.len(),
        expression is Some ==> starts_factor(old(lexer).current_kind()),
        old(errors)@.len() <= final(errors)@.len(),
        progressed(*old(lexer), *final(lexer)),
        expression_ok(expression, old(lexer).source_bytes()),
        final(errors)@.len() == old(errors)@.len() ==> (expression matches Some(e) ==> binds_by_precedence(
            *e,
            minimum_precedence as int,
        ) && !operator_at_least(final(lexer).current_kind(), minimum_precedence as int)),
    decreases depth,
{
    if depth == 0 {
        too_deep(lexer, errors, Expected::Expression, Scope::Expression);
        return None;
    }
    let anchor = lexer.cast_anchor();
    let mut left = match parse_factor(lexer, errors, depth - 1) {
        Some(left) => left,
        None => {
            return None;
        },
    };
    let mut at = lexer.offset();
    loop
        invariant
            old(errors)@.len() <= errors@.len(),
            progressed(*old(lexer), *lexer),
            lexer.anchor_ok(anchor),
            depth > 0,
            span_ok(left.span_value(), old(lexer).source_bytes()),
            at <= lexer.position(),
            errors@.len() == old(errors)@.len() ==> binds_by_precedence(*left, minimum_precedence as int),
            errors@.len() == old(errors)@.len() ==> (*left matches Expression::Binary(node) ==> !operator_at_least(
                lexer.current_kind(),
                grammar_depth(node.operator.value) + 2,
            )),
        ensures
            progressed(*old(lexer), *lexer),
            lexer.anchor_ok(anchor),
            span_ok(left.span_value(), old(lexer).source_bytes()),
            old(errors)@.len() <= errors@.len(),
            errors@.len() == old(errors)@.len() ==> binds_by_precedence(*left, minimum_precedence as int)
                && !operator_at_least(lexer.current_kind(), minimum_precedence as int),
        decreases usize::MAX - at,
    {
        let ghost head_errors = errors@.len();
        let ghost head_kind = lexer.current_kind();
        let (operator, precedence) = match binary_operator(current_kind(lexer)) {
            Some(found) => found,
            None => {
                break;
            },
        };
        if precedence < minimum_precedence || precedence == u8::MAX {
            break;
        }
        proof {
            assert(precedence == grammar_depth(operator) + 1);
            if errors@.len() == old(errors)@.len() {
                lemma_binds_weaker(*left, minimum_precedence as int, precedence as int);
            }
        }
        let operator_token = advance(lexer);
        let operator = Spanned::new(operator, operator_token.span);
        skip_line_feed(lexer);
        let right = match parse_binary_expression(lexer, errors, precedence + 1, depth - 1) {
            Some(right) => right,
            None => {
                errors.push(
                    error_here(
                        ParseErrorKind::InvalidExpression,
                        lexer,
                        Expected::Expression,
                        Scope::Expression,
                    ),
                );
                break;
            },
        };
        let span = anchor.elapsed(lexer);
        left = Box::new(Expression::Binary(Box::new(BinaryExpression { left, operator, right, span })));
        let now = lexer.offset();
        if now <= at {
            break;
        }
        at = now;
    }
    Some(left)
}

/// `+x`, `-x` or a primary expression.
fn parse_factor<'input>(lexer: &mut Lexer<'input>, errors: &mut ParseErrors<'input>, depth: usize) -> (expression:
    Option<Box<Expression<'input>>>)
    requires
        old(lexer).wf(),
    ensures
        expression is None && (depth <= 2 || starts_factor(old(lexer).current_kind())) ==> old(errors)@.len() < final(errors)@.len(),
        expression is Some ==> starts_factor(old(lexer).current_kind()),
        old(errors)@.len() <= final(errors)@.len(),
        progressed(*old(lexer), *final(lexer)),
        expression_ok(expression, old(lexer).source_bytes()),
        expression matches Some(e) ==> !(*e is Binary),
    decreases depth,
{
    if depth == 0 {
        too_deep(lexer, errors, Expected::Value, Scope::Expression);
        return None;
    }
    let kind = current_kind(lexer);
    let operator = if kind == TokenKind::Plus {
        UnaryOperator::Positive
    } else if kind == TokenKind::Minus {
        UnaryOperator::Negate
    } else {
        return match parse_primary(lexer, errors, depth - 1) {
            Some(primary) => Some(Box::new(Expression::Primary(primary))),
            None => None,
        };
    };
    let anchor = lexer.cast_anchor();
    let operator_token = advance(lexer);
    let operator = Spanned::new(operator, operator_token.span);
    match parse_primary(lexer, errors, depth - 1) {
        Some(primary) => {
            let operand = Box::new(Expression::Primary(primary));
            let span = anchor.elapsed(lexer);
            Some(Box::new(Expression::Unary(Box::new(UnaryExpression { operator, operand, span }))))
        },
        None => {
            errors.push(
                error_here(ParseErrorKind::InvalidExpression, lexer, Expected::Value, Scope::Expression),
            );
            None
        },
    }
}

/// A value followed by member accesses: `value.member`, `value?.member`,
/// `Type::member`, each with optional type arguments and call.
fn parse_primary<'input>(lexer: &mut Lexer<'input>, errors: &mut ParseErrors<'input>, depth: usize) -> (primary:
    Option<Box<Primary<'input>>>)
    requires
        old(lexer).wf(),
    ensures
        primary is None && (depth <= 1 || starts_value(old(lexer).current_kind())) ==> old(errors)@.len() < final(errors)@.len(),
        primary is Some ==> starts_value(old(lexer).current_kind()),
        old(errors)@.len() <= final(errors)@.len(),
        progressed(*old(lexer), *final(lexer)),
        match primary {
            Some(p) => span_ok(p.span, old(lexer).source_bytes()),
            None => true,
        },
    decreases depth,
{
    if depth == 0 {
        too_deep(lexer, errors, Expected::Value, Scope::Primary);
        return None;
    }
    let anchor = lexer.cast_anchor();
    let value = match parse_value(lexer, errors, depth - 1) {
        Some(value) => value,
        None => {
            return None;
        },
    };
    let mut accesses: Vec<PrimaryAccess<'input>> = Vec::new();
    let mut at = lexer.offset();
    loop
        invariant
            old(errors)@.len() <= errors@.len(),
            progressed(*old(lexer), *lexer),
            lexer.anchor_ok(anchor),
            depth > 0,
        decreases usize::MAX - at,
    {
        let kind = current_kind(lexer);
        let operator = if kind == TokenKind::Dot {
            AccessOperator::Dot
        } else if kind == TokenKind::SafeDot {
            AccessOperator::SafeDot
        } else if kind == TokenKind::DoubleColon {
            AccessOperator::DoubleColon
        } else {
            break;
        };
        let access_anchor = lexer.cast_anchor();
        let operator_token = advance(lexer);
        let operator = Spanned::new(operator, operator_token.span);
        skip_line_feed(lexer);
        let member = match parse_literal(lexer) {
            Some(member) => member,
            None => {
                let until = expression_end_tokens();
                let error = recover_until(
                    ParseErrorKind::InvalidPrimaryAccess,
                    lexer,
                    until.as_slice(),
                    Expected::AccessMember,
                    Scope::Primary,
                );
                errors.push(error);
                break;
            },
        };
        let type_arguments = parse_type_arguments(lexer, errors);
        let call = parse_function_call(lexer, errors, depth - 1);
        let span = access_anchor.elapsed(lexer);
        accesses.push(PrimaryAccess { operator, member, type_arguments, call, span });
        let now = lexer.offset();
        if now <= at {
            break;
        }
        at = now;
    }
    let span = anchor.elapsed(lexer);
    Some(Box::new(Primary { value, accesses, span }))
}

/// An array, a name with optional type arguments and call, `some(...)`, a
/// number, a string, `true`, `false` or `null`.
fn parse_value<'input>(lexer: &mut Lexer<'input>, errors: &mut ParseErrors<'input>, depth: usize) -> (value:
    Option<Value<'input>>)
    requires
        old(lexer).wf(),
    ensures
        value is None && (depth == 0 || starts_value(old(lexer).current_kind())) ==> old(errors)@.len() < final(errors)@.len(),
        value is Some ==> depth > 0 && starts_value(old(lexer).current_kind()),
        depth > 0 && (old(lexer).current_kind() == TokenKind::Literal || old(lexer).current_kind() == TokenKind::NumericLiteral || old(lexer).current_kind() == TokenKind::StringLiteral || old(lexer).current_kind() == TokenKind::True || old(lexer).current_kind() == TokenKind::False || old(lexer).current_kind() == TokenKind::Null) ==> value is Some,
        value matches Some(v) ==> value_of_kind(v, old(lexer).current_kind()),
        old(errors)@.len() <= final(errors)@.len(),
        progressed(*old(lexer), *final(lexer)),
    decreases depth,
{
    if depth == 0 {
        too_deep(lexer, errors, Expected::Value, Scope::Primary);
        return None;
    }
    let kind = current_kind(lexer);
    if kind == TokenKind::BracketLeft {
        match parse_array(lexer, errors, depth - 1) {
            Some(array) => Some(Value::Array(array)),
            None => None,
        }
    } else if kind == TokenKind::Literal {
        let anchor = lexer.cast_anchor();
        let token = advance(lexer);
        let literal = Spanned::new(token.text, token.span);
        let type_arguments = parse_type_arguments(lexer, errors);
        let call = parse_function_call(lexer, errors, depth - 1);
        let span = anchor.elapsed(lexer);
        Some(Value::Literal(LiteralValue { literal, type_arguments, call, span }))
    } else if kind == TokenKind::SomeKeyword {
        match parse_some_value(lexer, errors, depth - 1) {
            Some(value) => Some(Value::SomeValue(value)),
            None => None,
        }
    } else if kind == TokenKind::NumericLiteral {
        let token = advance(lexer);
        Some(Value::Numeric(Spanned::new(token.text, token.span)))
    } else if kind == TokenKind::StringLiteral {
        let token = advance(lexer);
        Some(Value::String(Spanned::new(token.text, token.span)))
    } else if kind == TokenKind::True || kind == TokenKind::False {
        let token = advance(lexer);
        Some(Value::Boolean(Spanned::new(kind == TokenKind::True, token.span)))
    } else if kind == TokenKind::Null {
        let token = advance(lexer);
        Some(Value::Null(Spanned::new((), token.span)))
    } else {
        None
    }
}

/// `[value, value]`
fn parse_array<'input>(lexer: &mut Lexer<'input>, errors: &mut ParseErrors<'input>, depth: usize) -> (array:
    Option<Box<Array<'input>>>)
    requires
        old(lexer).wf(),
    ensures
        array is None && depth == 0 ==> old(errors)@.len() < final(errors)@.len(),
        old(errors)@.len() <= final(errors)@.len(),
        progressed(*old(lexer), *final(lexer)),
        array is Some <==> depth > 0 && old(lexer).current_kind() == TokenKind::BracketLeft,
        old(lexer).current_kind() != TokenKind::BracketLeft ==> final(lexer).position() == old(lexer).position(),
        array matches Some(a) ==> span_ok(a.span, old(lexer).source_bytes()),
        array matches Some(a) ==> (starts_value(following_kind(*old(lexer))) ==> a.values@.len() > 0 || old(
            errors,
        )@.len() < final(errors)@.len()),
        depth > 0 && old(lexer).current_kind() == TokenKind::BracketLeft && following_kind(*old(lexer))
            == TokenKind::BracketRight ==> (array matches Some(a) && a.values@.len() == 0 && final(errors)@ == old(
            errors,
        )@),
    decreases depth,
{
    if depth == 0 {
        too_deep(lexer, errors, Expected::Value, Scope::Array);
        return None;
    }
    if current_kind(lexer) != TokenKind::BracketLeft {
        return None;
    }
    let anchor = lexer.cast_anchor();
    advance(lexer);
    let ghost first = lexer.current_kind();
    skip_line_feed(lexer);
    let mut values: Vec<Value<'input>> = Vec::new();
    let until = [TokenKind::LineFeed, TokenKind::Comma, TokenKind::BracketRight];
    let mut at = lexer.offset();
    loop
        invariant
            old(errors)@.len() <= errors@.len(),
            progressed(*old(lexer), *lexer),
            lexer.anchor_ok(anchor),
            depth > 0,
            first == following_kind(*old(lexer)),
            starts_value(first) && values@.len() == 0 && old(errors)@.len() == errors@.len() ==> lexer.current_kind()
                == first,
            first == TokenKind::BracketRight ==> values@.len() == 0 && errors@ == old(errors)@
                && lexer.current_kind() == first,
        decreases usize::MAX - at,
    {
        let current = current_kind(lexer);
        if current == TokenKind::BracketRight || current == TokenKind::NoToken
            || is_statement_start(current) {
            break;
        }
        match parse_value(lexer, errors, depth - 1) {
            Some(value) => {
                values.push(value);
                if current_kind(lexer) == TokenKind::BracketRight {
                    break;
                }
                if !skip_list_separator(lexer) {
                    let error = recover_until(
                        ParseErrorKind::InvalidArrayElement,
                        lexer,
                        until.as_slice(),
                        Expected::Token(TokenKind::Comma),
                        Scope::Array,
                    );
                    errors.push(error);
                    skip_list_separator(lexer);
                }
            },
            None => {
                let error = recover_until(
                    ParseErrorKind::InvalidArrayElement,
                    lexer,
                    until.as_slice(),
                    Expected::Value,
                    Scope::Array,
                );
                errors.push(error);
                if current_kind(lexer) == TokenKind::BracketRight {
                    break;
                }
                skip_list_separator(lexer);
            },
        }
        // A pass that consumed nothing ends the list.
        let now = lexer.offset();
        if now <= at {
            break;
        }
        at = now;
    }
    close_delimiter(
        lexer,
        errors,
        TokenKind::BracketRight,
        ParseErrorKind::NonClosedBracket,
        Scope::Array,
    );
    let span = anchor.elapsed(lexer);
    Some(Box::new(Array { values, span }))
}

/// `some(expression)`
fn parse_some_value<'input>(lexer: &mut Lexer<'input>, errors: &mut ParseErrors<'input>, depth: usize) -> (value:
    Option<Box<SomeValue<'input>>>)
    requires
        old(lexer).wf(),
    ensures
        value is None && (depth == 0 || old(lexer).current_kind() == TokenKind::SomeKeyword) ==> old(errors)@.len() < final(errors)@.len(),
        value is Some ==> old(lexer).current_kind() == TokenKind::SomeKeyword,
        old(errors)@.len() <= final(errors)@.len(),
        progressed(*old(lexer), *final(lexer)),
    decreases depth,
{
    if depth == 0 {
        too_deep(lexer, errors, Expected::Expression, Scope::SomeValue);
        return None;
    }
    if current_kind(lexer) != TokenKind::SomeKeyword {
        return None;
    }
    let anchor = lexer.cast_anchor();
    advance(lexer);
    if current_kind(lexer) != TokenKind::ParenthesisLeft {
        errors.push(
            error_here(
                ParseErrorKind::InvalidSomeValue,
                lexer,
                Expected::Token(TokenKind::ParenthesisLeft),
                Scope::SomeValue,
            ),
        );
        return None;
    }
    advance(lexer);
    skip_line_feed(lexer);
    let value = parse_expression(lexer, errors, depth - 1);
    if value.is_none() {
        errors.push(
            error_here(
                ParseErrorKind::InvalidSomeValue,
                lexer,
                Expected::Expression,
                Scope::SomeValue,
            ),
        );
    }
    skip_line_feed(lexer);
    close_delimiter(
        lexer,
        errors,
        TokenKind::ParenthesisRight,
        ParseErrorKind::NonClosedParenthesis,
        Scope::SomeValue,
    );
    let span = anchor.elapsed(lexer);
    Some(Box::new(SomeValue { value, span }))
}

/// Whether the `inline` or `opaque` at the lexer starts a closure (`|`
/// follows) rather than a function definition; the lexer is left where it
/// was.
fn starts_closure(lexer: &mut Lexer<'_>) -> (closure: bool)
    requires
        old(lexer).wf(),
        old(lexer).current_kind() != TokenKind::NoToken,
    ensures
        closure == (following_kind(*old(lexer)) == TokenKind::VerticalLine),
        progressed(*old(lexer), *final(lexer)),
        final(lexer).position() == old(lexer).position(),
{
    let anchor = lexer.cast_anchor();
    advance(lexer);
    let closure = current_kind(lexer) == TokenKind::VerticalLine;
    lexer.back_to_anchor(anchor);
    closure
}

/// `(argument, argument)` after a name.
fn parse_function_call<'input>(lexer: &mut Lexer<'input>, errors: &mut ParseErrors<'input>, depth: usize) -> (call:
    Option<Box<FunctionCall<'input>>>)
    requires
        old(lexer).wf(),
    ensures
        call is None && depth == 0 ==> old(errors)@.len() < final(errors)@.len(),
        old(errors)@.len() <= final(errors)@.len(),
        progressed(*old(lexer), *final(lexer)),
        call is Some <==> depth > 0 && old(lexer).current_kind() == TokenKind::ParenthesisLeft,
        old(lexer).current_kind() != TokenKind::ParenthesisLeft ==> final(lexer).position() == old(lexer).position(),
        call matches Some(c) ==> span_ok(c.span, old(lexer).source_bytes()),
        call matches Some(c) ==> (starts_factor(following_kind(*old(lexer))) ==> c.arguments@.len() > 0 || old(
            errors,
        )@.len() < final(errors)@.len()),
        depth > 0 && old(lexer).current_kind() == TokenKind::ParenthesisLeft && following_kind(*old(lexer))
            == TokenKind::ParenthesisRight ==> (call matches Some(c) && c.arguments@.len() == 0 && final(errors)@
            == old(errors)@),
    decreases depth,
{
    if depth == 0 {
        too_deep(lexer, errors, Expected::Expression, Scope::FunctionCall);
        return None;
    }
    if current_kind(lexer) != TokenKind::ParenthesisLeft {
        return None;
    }
    let anchor = lexer.cast_anchor();
    advance(lexer);
    let ghost first = lexer.current_kind();
    skip_line_feed(lexer);
    let mut arguments: Vec<Expression<'input>> = Vec::new();
    let until = [TokenKind::LineFeed, TokenKind::Comma, TokenKind::ParenthesisRight];
    let mut at = lexer.offset();
    loop
        invariant
            old(errors)@.len() <= errors@.len(),
            progressed(*old(lexer), *lexer),
            lexer.anchor_ok(anchor),
            depth > 0,
            first == following_kind(*old(lexer)),
            starts_factor(first) && arguments@.len() == 0 && old(errors)@.len() == errors@.len() ==> lexer.current_kind()
                == first,
            first == TokenKind::ParenthesisRight ==> arguments@.len() == 0 && errors@ == old(errors)@
                && lexer.current_kind() == first,
        decreases usize::MAX - at,
    {
        let current = current_kind(lexer);
        let closure = (current == TokenKind::Inline || current == TokenKind::Opaque) && starts_closure(lexer);
        if current == TokenKind::ParenthesisRight || current == TokenKind::NoToken || (
        is_statement_start(current) && current != TokenKind::If && current != TokenKind::Return && !closure) {
            break;
        }
        match parse_expression(lexer, errors, depth - 1) {
            Some(argument) => {
                arguments.push(*argument);
                if current_kind(lexer) == TokenKind::ParenthesisRight {
                    break;
                }
                if !skip_list_separator(lexer) {
                    let error = recover_until(
                        ParseErrorKind::InvalidFunctionCallArgument,
                        lexer,
                        until.as_slice(),
                        Expected::Token(TokenKind::Comma),
                        Scope::FunctionCall,
                    );
                    errors.push(error);
                    skip_list_separator(lexer);
                }
            },
            None => {
                let error = recover_until(
                    ParseErrorKind::InvalidFunctionCallArgument,
                    lexer,
                    until.as_slice(),
                    Expected::Expression,
                    Scope::FunctionCall,
                );
                errors.push(error);
                if current_kind(lexer) == TokenKind::ParenthesisRight {
                    break;
                }
                skip_list_separator(lexer);
            },
        }
        // A pass that consumed nothing ends the list.
        let now = lexer.offset();
        if now <= at {
            break;
        }
        at = now;
    }
    close_delimiter(
        lexer,
        errors,
        TokenKind::ParenthesisRight,
        ParseErrorKind::NonClosedParenthesis,
        Scope::FunctionCall,
    );
    let span = anchor.elapsed(lexer);
    Some(Box::new(FunctionCall { arguments, span }))
}

/// `if condition { ... } else if condition { ... } else { ... }`
fn parse_if_expression<'input>(lexer: &mut Lexer<'input>, errors: &mut ParseErrors<'input>, depth: usize) -> (expression:
    Option<Box<IfExpression<'input>>>)
    requires
        old(lexer).wf(),
    ensures
        expression is None && (depth == 0 || old(lexer).current_kind() == TokenKind::If) ==> old(errors)@.len() < final(errors)@.len(),
        expression is Some ==> old(lexer).current_kind() == TokenKind::If,
        old(errors)@.len() <= final(errors)@.len(),
        progressed(*old(lexer), *final(lexer)),
        match expression {
            Some(e) => span_ok(e.span, old(lexer).source_bytes()),
            None => true,
        },
    decreases depth,
{
    if depth == 0 {
        too_deep(lexer, errors, Expected::Block, Scope::IfExpression);
        return None;
    }
    let anchor = lexer.cast_anchor();
    let branch = match parse_if_branch(lexer, errors, depth - 1) {
        Some(branch) => branch,
        None => {
            return None;
        },
    };
    let mut else_branches: Vec<ElseBranch<'input>> = Vec::new();
    let until = [TokenKind::LineFeed, TokenKind::Semicolon, TokenKind::BraceRight];
    let mut at = lexer.offset();
    loop
        invariant
            old(errors)@.len() <= errors@.len(),
            progressed(*old(lexer), *lexer),
            lexer.anchor_ok(anchor),
            depth > 0,
        decreases usize::MAX - at,
    {
        let else_anchor = lexer.cast_anchor();
        skip_line_feed(lexer);
        if current_kind(lexer) != TokenKind::Else {
            lexer.back_to_anchor(else_anchor);
            break;
        }
        advance(lexer);
        let value = if current_kind(lexer) == TokenKind::If {
            match parse_if_branch(lexer, errors, depth - 1) {
                Some(branch) => Some(ElseBranchValue::If(branch)),
                None => None,
            }
        } else {
            match parse_block(lexer, errors, depth - 1) {
                Some(block) => Some(ElseBranchValue::Block(block)),
                None => None,
            }
        };
        match value {
            Some(value) => {
                let span = else_anchor.elapsed(lexer);
                else_branches.push(ElseBranch { value, span });
            },
            None => {
                let error = recover_until(
                    ParseErrorKind::InvalidExpression,
                    lexer,
                    until.as_slice(),
                    Expected::Block,
                    Scope::IfExpression,
                );
                errors.push(error);
                break;
            },
        }
        let now = lexer.offset();
        if now <= at {
            break;
        }
        at = now;
    }
    let span = anchor.elapsed(lexer);
    Some(Box::new(IfExpression { branch, else_branches, span }))
}

/// `if condition { ... }`
fn parse_if_branch<'input>(lexer: &mut Lexer<'input>, errors: &mut ParseErrors<'input>, depth: usize) -> (branch:
    Option<Box<IfBranch<'input>>>)
    requires
        old(lexer).wf(),
    ensures
        branch is None && (depth == 0 || old(lexer).current_kind() == TokenKind::If) ==> old(errors)@.len() < final(errors)@.len(),
        branch is Some ==> old(lexer).current_kind() == TokenKind::If,
        old(errors)@.len() <= final(errors)@.len(),
        progressed(*old(lexer), *final(lexer)),
    decreases depth,
{
    if depth == 0 {
        too_deep(lexer, errors, Expected::Expression, Scope::IfExpression);
        return None;
    }
    if current_kind(lexer) != TokenKind::If {
        return None;
    }
    let anchor = lexer.cast_anchor();
    advance(lexer);
    let condition = match parse_expression(lexer, errors, depth - 1) {
        Some(condition) => condition,
        None => {
            let until = [TokenKind::BraceLeft, TokenKind::LineFeed];
            let error = recover_until(
                ParseErrorKind::InvalidExpression,
                lexer,
                until.as_slice(),
                Expected::Expression,
                Scope::IfExpression,
            );
            errors.push(error);
            return None;
        },
    };
    let body = match parse_block(lexer, errors, depth - 1) {
        Some(body) => body,
        None => {
            errors.push(
                error_here(
                    ParseErrorKind::InvalidExpression,
                    lexer,
                    Expected::Token(TokenKind::BraceLeft),
                    Scope::IfExpression,
                ),
            );
            return None;
        },
    };
    let span = anchor.elapsed(lexer);
    Some(Box::new(IfBranch { condition, body, span }))
}

/// `match value { pattern => value, ... }`
fn parse_match_expression<'input>(lexer: &mut Lexer<'input>, errors: &mut ParseErrors<'input>, depth: usize) -> (expression:
    Option<Box<MatchExpression<'input>>>)
    requires
        old(lexer).wf(),
    ensures
        expression is None && (depth == 0 || old(lexer).current_kind() == TokenKind::Match) ==> old(errors)@.len() < final(errors)@.len(),
        expression is Some ==> old(lexer).current_kind() == TokenKind::Match,
        old(errors)@.len() <= final(errors)@.len(),
        progressed(*old(lexer), *final(lexer)),
        match expression {
            Some(e) => span_ok(e.span, old(lexer).source_bytes()),
            None => true,
        },
    decreases depth,
{
    if depth == 0 {
        too_deep(lexer, errors, Expected::MatchArm, Scope::MatchExpression);
        return None;
    }
    if current_kind(lexer) != TokenKind::Match {
        return None;
    }
    let anchor = lexer.cast_anchor();
    advance(lexer);
    let value = match parse_expression(lexer, errors, depth - 1) {
        Some(value) => value,
        None => {
            let until = [TokenKind::BraceLeft, TokenKind::LineFeed];
            let error = recover_until(
                ParseErrorKind::InvalidMatchExpression,
                lexer,
                until.as_slice(),
                Expected::Expression,
                Scope::MatchExpression,
            );
            errors.push(error);
            return None;
        },
    };
    if current_kind(lexer) != TokenKind::BraceLeft {
        errors.push(
            error_here(
                ParseErrorKind::InvalidMatchExpression,
                lexer,
                Expected::Token(TokenKind::BraceLeft),
                Scope::MatchExpression,
            ),
        );
        return None;
    }
    advance(lexer);
    skip_line_feed(lexer);
    let mut arms: Vec<MatchArm<'input>> = Vec::new();
    let until = [TokenKind::LineFeed, TokenKind::Comma, TokenKind::BraceRight];
    let mut at = lexer.offset();
    loop
        invariant
            old(errors)@.len() <= errors@.len(),
            progressed(*old(lexer), *lexer),
            lexer.anchor_ok(anchor),
            depth > 0,
        decreases usize::MAX - at,
    {
        let current = current_kind(lexer);
        if current == TokenKind::BraceRight || current == TokenKind::NoToken || is_statement_start(
            current,
        ) {
            break;
        }
        let arm_anchor = lexer.cast_anchor();
        match parse_pattern(lexer, errors) {
            Some(pattern) => {
                if current_kind(lexer) != TokenKind::FatArrow {
                    let error = recover_until(
                        ParseErrorKind::InvalidMatchArm,
                        lexer,
                        until.as_slice(),
                        Expected::Token(TokenKind::FatArrow),
                        Scope::MatchArm,
                    );
                    errors.push(error);
                } else {
                    advance(lexer);
                    skip_line_feed(lexer);
                    match parse_expression(lexer, errors, depth - 1) {
                        Some(value) => {
                            let span = arm_anchor.elapsed(lexer);
                            arms.push(MatchArm { pattern, value, span });
                        },
                        None => {
                            let error = recover_until(
                                ParseErrorKind::InvalidMatchArm,
                                lexer,
                                until.as_slice(),
                                Expected::Expression,
                                Scope::MatchArm,
                            );
                            errors.push(error);
                        },
                    }
                }
            },
            None => {
                let error = recover_until(
                    ParseErrorKind::InvalidMatchArm,
                    lexer,
                    until.as_slice(),
                    Expected::Pattern,
                    Scope::MatchArm,
                );
                errors.push(error);
            },
        }
        if current_kind(lexer) == TokenKind::BraceRight {
            break;
        }
        if !skip_list_separator(lexer) {
            let error = recover_until(
                ParseErrorKind::InvalidMatchArm,
                lexer,
                until.as_slice(),
                Expected::Token(TokenKind::Comma),
                Scope::MatchArm,
            );
            errors.push(error);
            skip_list_separator(lexer);
        }
        // A pass that consumed nothing ends the list.
        let now = lexer.offset();
        if now <= at {
            break;
        }
        at = now;
    }
    close_delimiter(
        lexer,
        errors,
        TokenKind::BraceRight,
        ParseErrorKind::NonClosedBrace,
        Scope::MatchExpression,
    );
    let span = anchor.elapsed(lexer);
    Some(Box::new(MatchExpression { value, arms, span }))
}

/// Whether a token ends an expression that may be left out (after
/// `return`).
fn ends_expression(kind: TokenKind) -> (ends: bool)
    ensures
        ends == (kind == TokenKind::LineFeed || kind == TokenKind::Semicolon || kind
            == TokenKind::Comma || kind == TokenKind::BraceRight || kind == TokenKind::BracketRight
            || kind == TokenKind::ParenthesisRight || kind == TokenKind::NoToken),
{
    kind == TokenKind::LineFeed || kind == TokenKind::Semicolon || kind == TokenKind::Comma || kind
        == TokenKind::BraceRight || kind == TokenKind::BracketRight || kind
        == TokenKind::ParenthesisRight || kind == TokenKind::NoToken
}

/// `return [value]`
fn parse_return_expression<'input>(lexer: &mut Lexer<'input>, errors: &mut ParseErrors<'input>, depth: usize) -> (expression:
    Option<Box<ReturnExpression<'input>>>)
    requires
        old(lexer).wf(),
    ensures
        expression is None && (depth == 0 || old(lexer).current_kind() == TokenKind::Return) ==> old(errors)@.len() < final(errors)@.len(),
        expression is Some ==> old(lexer).current_kind() == TokenKind::Return,
        old(errors)@.len() <= final(errors)@.len(),
        progressed(*old(lexer), *final(lexer)),
        match expression {
            Some(e) => span_ok(e.span, old(lexer).source_bytes()),
            None => true,
        },
    decreases depth,
{
    if depth == 0 {
        too_deep(lexer, errors, Expected::Expression, Scope::ReturnExpression);
        return None;
    }
    if current_kind(lexer) != TokenKind::Return {
        return None;
    }
    let anchor = lexer.cast_anchor();
    advance(lexer);
    let value = if ends_expression(current_kind(lexer)) {
        None
    } else {
        let value = parse_expression(lexer, errors, depth - 1);
        if value.is_none() {
            errors.push(
                error_here(
                    ParseErrorKind::InvalidExpression,
                    lexer,
                    Expected::Expression,
                    Scope::ReturnExpression,
                ),
            );
        }
        value
    };
    let span = anchor.elapsed(lexer);
    Some(Box::new(ReturnExpression { value, span }))
}

/// `throw message`
fn parse_throw_expression<'input>(lexer: &mut Lexer<'input>, errors: &mut ParseErrors<'input>, depth: usize) -> (expression:
    Option<Box<ThrowExpression<'input>>>)
    requires
        old(lexer).wf(),
    ensures
        expression is None && (depth == 0 || old(lexer).current_kind() == TokenKind::Throw) ==> old(errors)@.len() < final(errors)@.len(),
        expression is Some ==> old(lexer).current_kind() == TokenKind::Throw,
        old(errors)@.len() <= final(errors)@.len(),
        progressed(*old(lexer), *final(lexer)),
        match expression {
            Some(e) => span_ok(e.span, old(lexer).source_bytes()),
            None => true,
        },
    decreases depth,
{
    if depth == 0 {
        too_deep(lexer, errors, Expected::Expression, Scope::ThrowExpression);
        return None;
    }
    if current_kind(lexer) != TokenKind::Throw {
        return None;
    }
    let anchor = lexer.cast_anchor();
    advance(lexer);
    let message = if ends_expression(current_kind(lexer)) {
        errors.push(
            error_here(
                ParseErrorKind::InvalidThrowExpression,
                lexer,
                Expected::Expression,
                Scope::ThrowExpression,
            ),
        );
        None
    } else {
        let message = parse_expression(lexer, errors, depth - 1);
        if message.is_none() {
            let until = expression_end_tokens();
            let error = recover_until(
                ParseErrorKind::InvalidThrowExpression,
                lexer,
                until.as_slice(),
                Expected::Expression,
                Scope::ThrowExpression,
            );
            errors.push(error);
        }
        message
    };
    let span = anchor.elapsed(lexer);
    Some(Box::new(ThrowExpression { message, span }))
}

/// `inline|opaque |parameter[: Type], ...| [-> Type] => body`
fn parse_closure_expression<'input>(lexer: &mut Lexer<'input>, errors: &mut ParseErrors<'input>, depth: usize) -> (expression:
    Option<Box<ClosureExpression<'input>>>)
    requires
        old(lexer).wf(),
    ensures
        expression is None && (depth == 0 || (old(lexer).current_kind() == TokenKind::Inline || old(lexer).current_kind() == TokenKind::Opaque)) ==> old(errors)@.len() < final(errors)@.len(),
        expression is Some ==> (old(lexer).current_kind() == TokenKind::Inline || old(lexer).current_kind() == TokenKind::Opaque),
        old(errors)@.len() <= final(errors)@.len(),
        progressed(*old(lexer), *final(lexer)),
        match expression {
            Some(e) => span_ok(e.span, old(lexer).source_bytes()),
            None => true,
        },
    decreases depth,
{
    if depth == 0 {
        too_deep(lexer, errors, Expected::Expression, Scope::ClosureExpression);
        return None;
    }
    let kind = current_kind(lexer);
    let attribute = if kind == TokenKind::Inline {
        FunctionAttribute::Inline
    } else if kind == TokenKind::Opaque {
        FunctionAttribute::Opaque
    } else {
        return None;
    };
    let anchor = lexer.cast_anchor();
    let attribute_token = advance(lexer);
    let attribute = Spanned::new(attribute, attribute_token.span);
    if current_kind(lexer) != TokenKind::VerticalLine {
        errors.push(
            error_here(
                ParseErrorKind::InvalidClosureExpression,
                lexer,
                Expected::Token(TokenKind::VerticalLine),
                Scope::ClosureExpression,
            ),
        );
        return None;
    }
    advance(lexer);
    skip_line_feed(lexer);
    let mut parameters: Vec<ClosureParameter<'input>> = Vec::new();
    let until = [TokenKind::LineFeed, TokenKind::Comma, TokenKind::VerticalLine];
    let mut at = lexer.offset();
    loop
        invariant
            old(errors)@.len() <= errors@.len(),
            progressed(*old(lexer), *lexer),
            lexer.anchor_ok(anchor),
        decreases usize::MAX - at,
    {
        let current = current_kind(lexer);
        if current == TokenKind::VerticalLine || current == TokenKind::NoToken {
            break;
        }
        let parameter_anchor = lexer.cast_anchor();
        match parse_literal(lexer) {
            Some(name) => {
                let type_info = if current_kind(lexer) == TokenKind::Colon {
                    advance(lexer);
                    match parse_type_info(lexer, errors) {
                        Some(ty) => Some(Box::new(ty)),
                        None => {
                            let error = recover_until(
                                ParseErrorKind::InvalidClosureExpression,
                                lexer,
                                until.as_slice(),
                                Expected::TypeInfo,
                                Scope::ClosureExpression,
                            );
                            errors.push(error);
                            None
                        },
                    }
                } else {
                    None
                };
                let span = parameter_anchor.elapsed(lexer);
                parameters.push(ClosureParameter { name, type_info, span });
            },
            None => {
                let error = recover_until(
                    ParseErrorKind::InvalidClosureExpression,
                    lexer,
                    until.as_slice(),
                    Expected::ClosureParameter,
                    Scope::ClosureExpression,
                );
                errors.push(error);
            },
        }
        if current_kind(lexer) == TokenKind::VerticalLine {
            break;
        }
        skip_list_separator(lexer);
        // A pass that consumed nothing ends the list.
        let now = lexer.offset();
        if now <= at {
            break;
        }
        at = now;
    }
    if current_kind(lexer) != TokenKind::VerticalLine {
        errors.push(
            error_here(
                ParseErrorKind::InvalidClosureExpression,
                lexer,
                Expected::Token(TokenKind::VerticalLine),
                Scope::ClosureExpression,
            ),
        );
        return None;
    }
    advance(lexer);
    let return_type = if current_kind(lexer) == TokenKind::ThinArrow {
        advance(lexer);
        match parse_type_info(lexer, errors) {
            Some(ty) => Some(Box::new(ty)),
            None => {
                errors.push(
                    error_here(
                        ParseErrorKind::InvalidClosureExpression,
                        lexer,
                        Expected::TypeInfo,
                        Scope::ClosureExpression,
                    ),
                );
                None
            },
        }
    } else {
        None
    };
    skip_line_feed(lexer);
    if current_kind(lexer) != TokenKind::FatArrow {
        errors.push(
            error_here(
                ParseErrorKind::InvalidClosureExpression,
                lexer,
                Expected::Token(TokenKind::FatArrow),
                Scope::ClosureExpression,
            ),
        );
        return None;
    }
    advance(lexer);
    skip_line_feed(lexer);
    let body = if current_kind(lexer) == TokenKind::BraceLeft {
        match parse_block(lexer, errors, depth - 1) {
            Some(block) => ClosureBody::Block(block),
            None => {
                return None;
            },
        }
    } else {
        match parse_expression(lexer, errors, depth - 1) {
            Some(expression) => ClosureBody::Expression(expression),
            None => {
                errors.push(
                    error_here(
                        ParseErrorKind::InvalidClosureExpression,
                        lexer,
                        Expected::Expression,
                        Scope::ClosureExpression,
                    ),
                );
                return None;
            },
        }
    };
    let span = anchor.elapsed(lexer);
    Some(Box::new(ClosureExpression { attribute, parameters, return_type, body, span }))
}

} // verus!
