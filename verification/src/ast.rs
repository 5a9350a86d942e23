//! The syntax tree.  Every node records the byte range it occupies in the
//! source; names and literals are slices of the source text.

use std::ops::Range;

use vstd::prelude::*;

use crate::lexer::Token;

verus! {

/// A node that occupies a byte range of the source.
pub trait AST {
    spec fn span_value(&self) -> Range<usize>;

    fn span(&self) -> (span: Range<usize>)
        ensures
            span == self.span_value(),
    ;
}

/// A value together with its byte range in the source.
#[derive(Debug, Clone, PartialEq, Eq, Hash)]
pub struct Spanned<T> {
    pub value: T,
    pub span: Range<usize>,
}

impl<T> Spanned<T> {
    pub fn new(value: T, span: Range<usize>) -> (spanned: Self)
        ensures
            spanned.value == value,
            spanned.span == span,
    {
        Spanned { value, span }
    }

    pub fn span(&self) -> (span: Range<usize>)
        ensures
            span == self.span,
    {
        Range { start: self.span.start, end: self.span.end }
    }

    pub fn map<N, F: FnOnce(T) -> N>(self, f: F) -> (mapped: Spanned<N>)
        requires
            f.requires((self.value,)),
        ensures
            f.ensures((self.value,), mapped.value),
            mapped.span == self.span,
    {
        let value = f(self.value);
        Spanned { value, span: self.span }
    }

    pub fn as_ref(&self) -> (spanned: Spanned<&T>)
        ensures
            *spanned.value == self.value,
            spanned.span == self.span,
    {
        Spanned { value: &self.value, span: Range { start: self.span.start, end: self.span.end } }
    }
}

impl<T> AST for Spanned<T> {
    open spec fn span_value(&self) -> Range<usize> {
        self.span
    }

    fn span(&self) -> (span: Range<usize>) {
        Range { start: self.span.start, end: self.span.end }
    }
}

/// A slice of the source text with its range.
pub type SpannedStr<'input> = Spanned<&'input str>;

pub type Literal<'input> = SpannedStr<'input>;

pub type NumericLiteral<'input> = SpannedStr<'input>;

pub type StringLiteral<'input> = SpannedStr<'input>;

/// The literal spelled by a token.
pub fn into_literal<'input>(token: Token<'input>) -> (literal: Literal<'input>)
    ensures
        literal.value == token.text,
        literal.span == token.span,
{
    Spanned { value: token.text, span: token.span }
}

/// The root of a source file.
pub type Source<'input> = Statements<'input>;

#[derive(Debug)]
pub struct Statements<'input> {
    pub statements: Vec<Statement<'input>>,
    pub span: Range<usize>,
}

#[derive(Debug)]
pub enum Statement<'input> {
    ImportStatement(Box<ImportStatement<'input>>),
    EnumDefine(Box<EnumDefine<'input>>),
    TypeDefine(Box<TypeDefine<'input>>),
    InterfaceDefine(Box<InterfaceDefine<'input>>),
    ImplementsDefine(Box<ImplementsDefine<'input>>),
    UseDeclare(Box<UseDeclare<'input>>),
    LetStatement(Box<LetStatement<'input>>),
    AssertStatement(Box<AssertStatement<'input>>),
    AssignStatement(Box<AssignStatement<'input>>),
    FunctionDefine(Box<FunctionDefine<'input>>),
    Expression(Box<Expression<'input>>),
}

#[derive(Debug)]
pub struct ImportStatement<'input> {
    pub kind: ImportKind<'input>,
    pub path: StringLiteral<'input>,
    pub span: Range<usize>,
}

#[derive(Debug)]
pub enum ImportKind<'input> {
    SideEffect,
    Named(Vec<ImportElement<'input>>),
    Namespace { alias: Literal<'input> },
}

#[derive(Debug)]
pub struct ImportElement<'input> {
    pub name: Literal<'input>,
    pub alias: Option<Literal<'input>>,
    pub span: Range<usize>,
}

#[derive(Debug)]
pub struct EnumDefine<'input> {
    pub exported: bool,
    pub name: Literal<'input>,
    pub representation_type: Option<Box<TypeInfo<'input>>>,
    pub variants: Vec<EnumVariant<'input>>,
    pub span: Range<usize>,
}

#[derive(Debug)]
pub struct EnumVariant<'input> {
    pub name: Literal<'input>,
    pub value: Option<Box<Expression<'input>>>,
    pub span: Range<usize>,
}

#[derive(Debug)]
pub struct TypeDefine<'input> {
    pub exported: bool,
    pub name: Literal<'input>,
    pub generic_parameters: Option<Box<GenericParameters<'input>>>,
    pub where_clause: Option<Box<WhereClause<'input>>>,
    pub body: Box<TypedefBlock<'input>>,
    pub span: Range<usize>,
}

#[derive(Debug)]
pub struct InterfaceDefine<'input> {
    pub exported: bool,
    pub name: Literal<'input>,
    pub generic_parameters: Option<Box<GenericParameters<'input>>>,
    pub where_clause: Option<Box<WhereClause<'input>>>,
    pub methods: Vec<FunctionDefine<'input>>,
    pub span: Range<usize>,
}

#[derive(Debug)]
pub struct ImplementsDefine<'input> {
    pub generic_parameters: Option<Box<GenericParameters<'input>>>,
    pub interface: Box<TypeInfo<'input>>,
    pub target: Box<TypeInfo<'input>>,
    pub where_clause: Option<Box<WhereClause<'input>>>,
    pub methods: Vec<FunctionDefine<'input>>,
    pub span: Range<usize>,
}

#[derive(Debug)]
pub struct TypedefBlock<'input> {
    pub fields: Vec<Typedef<'input>>,
    pub span: Range<usize>,
}

#[derive(Debug)]
pub struct Typedef<'input> {
    pub policy: Option<MutationPolicy>,
    pub name: Literal<'input>,
    pub value: TypedefValue<'input>,
    pub span: Range<usize>,
}

#[derive(Debug)]
pub enum TypedefValue<'input> {
    Block(Box<TypedefBlock<'input>>),
    TypeInfo(Box<TypeInfo<'input>>),
}

#[derive(Debug)]
pub struct UseDeclare<'input> {
    pub names: Vec<Literal<'input>>,
    pub span: Range<usize>,
}

#[derive(Debug)]
pub struct LetStatement<'input> {
    pub exported: bool,
    pub declare: bool,
    pub policy: Option<MutationPolicy>,
    pub name: Literal<'input>,
    pub type_info: Option<Box<TypeInfo<'input>>>,
    pub value: Option<Box<Expression<'input>>>,
    pub span: Range<usize>,
}

#[derive(Debug)]
pub struct AssertStatement<'input> {
    pub condition: Box<Expression<'input>>,
    pub message: Option<Box<Expression<'input>>>,
    pub span: Range<usize>,
}

#[derive(Debug, Clone, PartialEq, Eq, Hash)]
pub struct MutationPolicy {
    pub kind: MutationPolicyKind,
    pub span: Range<usize>,
}

#[derive(Debug, Clone, PartialEq, Eq, Hash)]
pub enum MutationPolicyKind {
    Readonly,
    Tunable { cost: Option<Spanned<u64>> },
}

#[derive(Debug)]
pub struct AssignStatement<'input> {
    pub target: Box<Expression<'input>>,
    pub value: AssignValue<'input>,
    pub span: Range<usize>,
}

/// The right-hand side of an option claim: a value, or a block of nested
/// claims about the fields below the target.
#[derive(Debug)]
pub enum AssignValue<'input> {
    Expression(Box<Expression<'input>>),
    Nested(Box<NestedAssignment<'input>>),
}

#[derive(Debug)]
pub struct NestedAssignment<'input> {
    pub fields: Vec<NestedAssignmentField<'input>>,
    pub span: Range<usize>,
}

#[derive(Debug)]
pub struct NestedAssignmentField<'input> {
    pub name: Literal<'input>,
    pub value: AssignValue<'input>,
    pub span: Range<usize>,
}

#[derive(Debug)]
pub struct FunctionDefine<'input> {
    pub exported: bool,
    pub attribute: Spanned<FunctionAttribute>,
    pub name: Literal<'input>,
    pub generic_parameters: Option<Box<GenericParameters<'input>>>,
    pub arguments: FunctionArguments<'input>,
    pub return_type: Option<Box<TypeInfo<'input>>>,
    pub where_clause: Option<Box<WhereClause<'input>>>,
    pub body: Box<Block<'input>>,
    pub span: Range<usize>,
}

#[derive(Debug, Clone, Copy, PartialEq, Eq, Structural, Hash)]
pub enum FunctionAttribute {
    Inline,
    Opaque,
}

#[derive(Debug)]
pub struct FunctionArguments<'input> {
    pub receiver: Option<Literal<'input>>,
    pub arguments: Vec<FunctionArgument<'input>>,
    pub span: Range<usize>,
}

#[derive(Debug)]
pub struct FunctionArgument<'input> {
    pub name: Literal<'input>,
    pub type_info: Box<TypeInfo<'input>>,
    pub span: Range<usize>,
}

#[derive(Debug)]
pub struct GenericParameters<'input> {
    pub parameters: Vec<GenericParameter<'input>>,
    pub span: Range<usize>,
}

#[derive(Debug)]
pub struct GenericParameter<'input> {
    pub name: Literal<'input>,
    pub bounds: Vec<TypeInfo<'input>>,
    pub span: Range<usize>,
}

#[derive(Debug)]
pub struct WhereClause<'input> {
    pub predicates: Vec<WherePredicate<'input>>,
    pub span: Range<usize>,
}

#[derive(Debug)]
pub struct WherePredicate<'input> {
    pub ty: Box<TypeInfo<'input>>,
    pub bounds: Vec<TypeInfo<'input>>,
    pub span: Range<usize>,
}

#[derive(Debug)]
pub struct Block<'input> {
    pub statements: Statements<'input>,
    pub span: Range<usize>,
}

/// Expression precedence is resolved by the parser and normalized into this tree.
#[derive(Debug)]
pub enum Expression<'input> {
    If(Box<IfExpression<'input>>),
    Match(Box<MatchExpression<'input>>),
    Return(Box<ReturnExpression<'input>>),
    Throw(Box<ThrowExpression<'input>>),
    Closure(Box<ClosureExpression<'input>>),
    Elvis(Box<ElvisExpression<'input>>),
    Binary(Box<BinaryExpression<'input>>),
    Unary(Box<UnaryExpression<'input>>),
    Primary(Box<Primary<'input>>),
}

#[derive(Debug)]
pub struct IfExpression<'input> {
    pub branch: Box<IfBranch<'input>>,
    pub else_branches: Vec<ElseBranch<'input>>,
    pub span: Range<usize>,
}

#[derive(Debug)]
pub struct IfBranch<'input> {
    pub condition: Box<Expression<'input>>,
    pub body: Box<Block<'input>>,
    pub span: Range<usize>,
}

/// One `else if ...` or `else { ... }` part, including the `else` in its span.
#[derive(Debug)]
pub struct ElseBranch<'input> {
    pub value: ElseBranchValue<'input>,
    pub span: Range<usize>,
}

#[derive(Debug)]
pub enum ElseBranchValue<'input> {
    If(Box<IfBranch<'input>>),
    Block(Box<Block<'input>>),
}

#[derive(Debug)]
pub struct MatchExpression<'input> {
    pub value: Box<Expression<'input>>,
    pub arms: Vec<MatchArm<'input>>,
    pub span: Range<usize>,
}

#[derive(Debug)]
pub struct MatchArm<'input> {
    pub pattern: Pattern<'input>,
    pub value: Box<Expression<'input>>,
    pub span: Range<usize>,
}

#[derive(Debug)]
pub enum Pattern<'input> {
    SomePattern(Box<SomePattern<'input>>),
    Null(Spanned<()>),
    Wildcard(Spanned<()>),
    Binding(Literal<'input>),
    EnumVariant(Box<EnumVariantPattern<'input>>),
}

#[derive(Debug)]
pub struct SomePattern<'input> {
    pub pattern: Box<Pattern<'input>>,
    pub span: Range<usize>,
}

#[derive(Debug)]
pub struct EnumVariantPattern<'input> {
    pub enum_name: Literal<'input>,
    pub variant: Literal<'input>,
    pub span: Range<usize>,
}

#[derive(Debug)]
pub struct ReturnExpression<'input> {
    pub value: Option<Box<Expression<'input>>>,
    pub span: Range<usize>,
}

#[derive(Debug)]
pub struct ThrowExpression<'input> {
    pub message: Option<Box<Expression<'input>>>,
    pub span: Range<usize>,
}

/// `inline |a, b: T| -> R => body` or the `opaque` form.
#[derive(Debug)]
pub struct ClosureExpression<'input> {
    pub attribute: Spanned<FunctionAttribute>,
    pub parameters: Vec<ClosureParameter<'input>>,
    pub return_type: Option<Box<TypeInfo<'input>>>,
    pub body: ClosureBody<'input>,
    pub span: Range<usize>,
}

#[derive(Debug)]
pub struct ClosureParameter<'input> {
    pub name: Literal<'input>,
    pub type_info: Option<Box<TypeInfo<'input>>>,
    pub span: Range<usize>,
}

#[derive(Debug)]
pub enum ClosureBody<'input> {
    Expression(Box<Expression<'input>>),
    Block(Box<Block<'input>>),
}

#[derive(Debug)]
pub struct ElvisExpression<'input> {
    pub optional: Box<Expression<'input>>,
    pub fallback: Box<Expression<'input>>,
    pub span: Range<usize>,
}

#[derive(Debug)]
pub struct BinaryExpression<'input> {
    pub left: Box<Expression<'input>>,
    pub operator: Spanned<BinaryOperator>,
    pub right: Box<Expression<'input>>,
    pub span: Range<usize>,
}

#[derive(Debug, Clone, Copy, PartialEq, Eq, Structural, Hash)]
pub enum BinaryOperator {
    Or,
    And,
    Equal,
    NotEqual,
    LessThan,
    GreaterThan,
    LessThanOrEqual,
    GreaterThanOrEqual,
    Add,
    Subtract,
    Multiply,
    Divide,
}

#[derive(Debug)]
pub struct UnaryExpression<'input> {
    pub operator: Spanned<UnaryOperator>,
    pub operand: Box<Expression<'input>>,
    pub span: Range<usize>,
}

#[derive(Debug, Clone, Copy, PartialEq, Eq, Structural, Hash)]
pub enum UnaryOperator {
    Positive,
    Negate,
}

#[derive(Debug)]
pub struct Primary<'input> {
    pub value: Value<'input>,
    pub accesses: Vec<PrimaryAccess<'input>>,
    pub span: Range<usize>,
}

#[derive(Debug)]
pub struct PrimaryAccess<'input> {
    pub operator: Spanned<AccessOperator>,
    pub member: Literal<'input>,
    pub type_arguments: Option<Box<ExplicitTypeArguments<'input>>>,
    pub call: Option<Box<FunctionCall<'input>>>,
    pub span: Range<usize>,
}

#[derive(Debug, Clone, Copy, PartialEq, Eq, Structural, Hash)]
pub enum AccessOperator {
    Dot,
    SafeDot,
    DoubleColon,
}

#[derive(Debug)]
pub enum Value<'input> {
    Array(Box<Array<'input>>),
    Literal(LiteralValue<'input>),
    SomeValue(Box<SomeValue<'input>>),
    Numeric(NumericLiteral<'input>),
    String(StringLiteral<'input>),
    Boolean(Spanned<bool>),
    Null(Spanned<()>),
}

#[derive(Debug)]
pub struct LiteralValue<'input> {
    pub literal: Literal<'input>,
    pub type_arguments: Option<Box<ExplicitTypeArguments<'input>>>,
    pub call: Option<Box<FunctionCall<'input>>>,
    pub span: Range<usize>,
}

#[derive(Debug)]
pub struct SomeValue<'input> {
    pub value: Option<Box<Expression<'input>>>,
    pub span: Range<usize>,
}

#[derive(Debug)]
pub struct Array<'input> {
    pub values: Vec<Value<'input>>,
    pub span: Range<usize>,
}

#[derive(Debug)]
pub struct FunctionCall<'input> {
    pub arguments: Vec<Expression<'input>>,
    pub span: Range<usize>,
}

#[derive(Debug)]
pub struct ExplicitTypeArguments<'input> {
    pub arguments: Vec<ExplicitTypeArgument<'input>>,
    pub span: Range<usize>,
}

#[derive(Debug)]
pub enum ExplicitTypeArgument<'input> {
    Type(Box<TypeInfo<'input>>),
    Infer(Spanned<()>),
}

#[derive(Debug)]
pub struct TypeInfo<'input> {
    pub name: Literal<'input>,
    pub parameters: Vec<TypeInfo<'input>>,
    pub optional: bool,
    pub span: Range<usize>,
}

impl<'input> AST for Statements<'input> {
    open spec fn span_value(&self) -> Range<usize> {
        self.span
    }

    fn span(&self) -> (span: Range<usize>) {
        Range { start: self.span.start, end: self.span.end }
    }
}

impl<'input> AST for ImportStatement<'input> {
    open spec fn span_value(&self) -> Range<usize> {
        self.span
    }

    fn span(&self) -> (span: Range<usize>) {
        Range { start: self.span.start, end: self.span.end }
    }
}

impl<'input> AST for ImportElement<'input> {
    open spec fn span_value(&self) -> Range<usize> {
        self.span
    }

    fn span(&self) -> (span: Range<usize>) {
        Range { start: self.span.start, end: self.span.end }
    }
}

impl<'input> AST for EnumDefine<'input> {
    open spec fn span_value(&self) -> Range<usize> {
        self.span
    }

    fn span(&self) -> (span: Range<usize>) {
        Range { start: self.span.start, end: self.span.end }
    }
}

impl<'input> AST for EnumVariant<'input> {
    open spec fn span_value(&self) -> Range<usize> {
        self.span
    }

    fn span(&self) -> (span: Range<usize>) {
        Range { start: self.span.start, end: self.span.end }
    }
}

impl<'input> AST for TypeDefine<'input> {
    open spec fn span_value(&self) -> Range<usize> {
        self.span
    }

    fn span(&self) -> (span: Range<usize>) {
        Range { start: self.span.start, end: self.span.end }
    }
}

impl<'input> AST for InterfaceDefine<'input> {
    open spec fn span_value(&self) -> Range<usize> {
        self.span
    }

    fn span(&self) -> (span: Range<usize>) {
        Range { start: self.span.start, end: self.span.end }
    }
}

impl<'input> AST for ImplementsDefine<'input> {
    open spec fn span_value(&self) -> Range<usize> {
        self.span
    }

    fn span(&self) -> (span: Range<usize>) {
        Range { start: self.span.start, end: self.span.end }
    }
}

impl<'input> AST for TypedefBlock<'input> {
    open spec fn span_value(&self) -> Range<usize> {
        self.span
    }

    fn span(&self) -> (span: Range<usize>) {
        Range { start: self.span.start, end: self.span.end }
    }
}

impl<'input> AST for Typedef<'input> {
    open spec fn span_value(&self) -> Range<usize> {
        self.span
    }

    fn span(&self) -> (span: Range<usize>) {
        Range { start: self.span.start, end: self.span.end }
    }
}

impl<'input> AST for UseDeclare<'input> {
    open spec fn span_value(&self) -> Range<usize> {
        self.span
    }

    fn span(&self) -> (span: Range<usize>) {
        Range { start: self.span.start, end: self.span.end }
    }
}

impl<'input> AST for LetStatement<'input> {
    open spec fn span_value(&self) -> Range<usize> {
        self.span
    }

    fn span(&self) -> (span: Range<usize>) {
        Range { start: self.span.start, end: self.span.end }
    }
}

impl<'input> AST for AssertStatement<'input> {
    open spec fn span_value(&self) -> Range<usize> {
        self.span
    }

    fn span(&self) -> (span: Range<usize>) {
        Range { start: self.span.start, end: self.span.end }
    }
}

impl<'input> AST for AssignStatement<'input> {
    open spec fn span_value(&self) -> Range<usize> {
        self.span
    }

    fn span(&self) -> (span: Range<usize>) {
        Range { start: self.span.start, end: self.span.end }
    }
}

impl<'input> AST for NestedAssignment<'input> {
    open spec fn span_value(&self) -> Range<usize> {
        self.span
    }

    fn span(&self) -> (span: Range<usize>) {
        Range { start: self.span.start, end: self.span.end }
    }
}

impl<'input> AST for NestedAssignmentField<'input> {
    open spec fn span_value(&self) -> Range<usize> {
        self.span
    }

    fn span(&self) -> (span: Range<usize>) {
        Range { start: self.span.start, end: self.span.end }
    }
}

impl<'input> AST for FunctionDefine<'input> {
    open spec fn span_value(&self) -> Range<usize> {
        self.span
    }

    fn span(&self) -> (span: Range<usize>) {
        Range { start: self.span.start, end: self.span.end }
    }
}

impl<'input> AST for FunctionArguments<'input> {
    open spec fn span_value(&self) -> Range<usize> {
        self.span
    }

    fn span(&self) -> (span: Range<usize>) {
        Range { start: self.span.start, end: self.span.end }
    }
}

impl<'input> AST for FunctionArgument<'input> {
    open spec fn span_value(&self) -> Range<usize> {
        self.span
    }

    fn span(&self) -> (span: Range<usize>) {
        Range { start: self.span.start, end: self.span.end }
    }
}

impl<'input> AST for GenericParameters<'input> {
    open spec fn span_value(&self) -> Range<usize> {
        self.span
    }

    fn span(&self) -> (span: Range<usize>) {
        Range { start: self.span.start, end: self.span.end }
    }
}

impl<'input> AST for GenericParameter<'input> {
    open spec fn span_value(&self) -> Range<usize> {
        self.span
    }

    fn span(&self) -> (span: Range<usize>) {
        Range { start: self.span.start, end: self.span.end }
    }
}

impl<'input> AST for WhereClause<'input> {
    open spec fn span_value(&self) -> Range<usize> {
        self.span
    }

    fn span(&self) -> (span: Range<usize>) {
        Range { start: self.span.start, end: self.span.end }
    }
}

impl<'input> AST for WherePredicate<'input> {
    open spec fn span_value(&self) -> Range<usize> {
        self.span
    }

    fn span(&self) -> (span: Range<usize>) {
        Range { start: self.span.start, end: self.span.end }
    }
}

impl<'input> AST for Block<'input> {
    open spec fn span_value(&self) -> Range<usize> {
        self.span
    }

    fn span(&self) -> (span: Range<usize>) {
        Range { start: self.span.start, end: self.span.end }
    }
}

impl<'input> AST for IfExpression<'input> {
    open spec fn span_value(&self) -> Range<usize> {
        self.span
    }

    fn span(&self) -> (span: Range<usize>) {
        Range { start: self.span.start, end: self.span.end }
    }
}

impl<'input> AST for IfBranch<'input> {
    open spec fn span_value(&self) -> Range<usize> {
        self.span
    }

    fn span(&self) -> (span: Range<usize>) {
        Range { start: self.span.start, end: self.span.end }
    }
}

impl<'input> AST for ElseBranch<'input> {
    open spec fn span_value(&self) -> Range<usize> {
        self.span
    }

    fn span(&self) -> (span: Range<usize>) {
        Range { start: self.span.start, end: self.span.end }
    }
}

impl<'input> AST for MatchExpression<'input> {
    open spec fn span_value(&self) -> Range<usize> {
        self.span
    }

    fn span(&self) -> (span: Range<usize>) {
        Range { start: self.span.start, end: self.span.end }
    }
}

impl<'input> AST for MatchArm<'input> {
    open spec fn span_value(&self) -> Range<usize> {
        self.span
    }

    fn span(&self) -> (span: Range<usize>) {
        Range { start: self.span.start, end: self.span.end }
    }
}

impl<'input> AST for SomePattern<'input> {
    open spec fn span_value(&self) -> Range<usize> {
        self.span
    }

    fn span(&self) -> (span: Range<usize>) {
        Range { start: self.span.start, end: self.span.end }
    }
}

impl<'input> AST for EnumVariantPattern<'input> {
    open spec fn span_value(&self) -> Range<usize> {
        self.span
    }

    fn span(&self) -> (span: Range<usize>) {
        Range { start: self.span.start, end: self.span.end }
    }
}

impl<'input> AST for ReturnExpression<'input> {
    open spec fn span_value(&self) -> Range<usize> {
        self.span
    }

    fn span(&self) -> (span: Range<usize>) {
        Range { start: self.span.start, end: self.span.end }
    }
}

impl<'input> AST for ThrowExpression<'input> {
    open spec fn span_value(&self) -> Range<usize> {
        self.span
    }

    fn span(&self) -> (span: Range<usize>) {
        Range { start: self.span.start, end: self.span.end }
    }
}

impl<'input> AST for ClosureExpression<'input> {
    open spec fn span_value(&self) -> Range<usize> {
        self.span
    }

    fn span(&self) -> (span: Range<usize>) {
        Range { start: self.span.start, end: self.span.end }
    }
}

impl<'input> AST for ClosureParameter<'input> {
    open spec fn span_value(&self) -> Range<usize> {
        self.span
    }

    fn span(&self) -> (span: Range<usize>) {
        Range { start: self.span.start, end: self.span.end }
    }
}

impl<'input> AST for ElvisExpression<'input> {
    open spec fn span_value(&self) -> Range<usize> {
        self.span
    }

    fn span(&self) -> (span: Range<usize>) {
        Range { start: self.span.start, end: self.span.end }
    }
}

impl<'input> AST for BinaryExpression<'input> {
    open spec fn span_value(&self) -> Range<usize> {
        self.span
    }

    fn span(&self) -> (span: Range<usize>) {
        Range { start: self.span.start, end: self.span.end }
    }
}

impl<'input> AST for UnaryExpression<'input> {
    open spec fn span_value(&self) -> Range<usize> {
        self.span
    }

    fn span(&self) -> (span: Range<usize>) {
        Range { start: self.span.start, end: self.span.end }
    }
}

impl<'input> AST for Primary<'input> {
    open spec fn span_value(&self) -> Range<usize> {
        self.span
    }

    fn span(&self) -> (span: Range<usize>) {
        Range { start: self.span.start, end: self.span.end }
    }
}

impl<'input> AST for PrimaryAccess<'input> {
    open spec fn span_value(&self) -> Range<usize> {
        self.span
    }

    fn span(&self) -> (span: Range<usize>) {
        Range { start: self.span.start, end: self.span.end }
    }
}

impl<'input> AST for LiteralValue<'input> {
    open spec fn span_value(&self) -> Range<usize> {
        self.span
    }

    fn span(&self) -> (span: Range<usize>) {
        Range { start: self.span.start, end: self.span.end }
    }
}

impl<'input> AST for SomeValue<'input> {
    open spec fn span_value(&self) -> Range<usize> {
        self.span
    }

    fn span(&self) -> (span: Range<usize>) {
        Range { start: self.span.start, end: self.span.end }
    }
}

impl<'input> AST for Array<'input> {
    open spec fn span_value(&self) -> Range<usize> {
        self.span
    }

    fn span(&self) -> (span: Range<usize>) {
        Range { start: self.span.start, end: self.span.end }
    }
}

impl<'input> AST for FunctionCall<'input> {
    open spec fn span_value(&self) -> Range<usize> {
        self.span
    }

    fn span(&self) -> (span: Range<usize>) {
        Range { start: self.span.start, end: self.span.end }
    }
}

impl<'input> AST for ExplicitTypeArguments<'input> {
    open spec fn span_value(&self) -> Range<usize> {
        self.span
    }

    fn span(&self) -> (span: Range<usize>) {
        Range { start: self.span.start, end: self.span.end }
    }
}

impl<'input> AST for TypeInfo<'input> {
    open spec fn span_value(&self) -> Range<usize> {
        self.span
    }

    fn span(&self) -> (span: Range<usize>) {
        Range { start: self.span.start, end: self.span.end }
    }
}

impl AST for MutationPolicy {
    open spec fn span_value(&self) -> Range<usize> {
        self.span
    }

    fn span(&self) -> (span: Range<usize>) {
        Range { start: self.span.start, end: self.span.end }
    }
}

impl<'input> AST for Statement<'input> {
    open spec fn span_value(&self) -> Range<usize> {
        match self {
            Statement::ImportStatement(node) => node.span_value(),
            Statement::EnumDefine(node) => node.span_value(),
            Statement::TypeDefine(node) => node.span_value(),
            Statement::InterfaceDefine(node) => node.span_value(),
            Statement::ImplementsDefine(node) => node.span_value(),
            Statement::UseDeclare(node) => node.span_value(),
            Statement::LetStatement(node) => node.span_value(),
            Statement::AssertStatement(node) => node.span_value(),
            Statement::AssignStatement(node) => node.span_value(),
            Statement::FunctionDefine(node) => node.span_value(),
            Statement::Expression(node) => node.span_value(),
        }
    }

    fn span(&self) -> (span: Range<usize>) {
        match self {
            Statement::ImportStatement(node) => node.span(),
            Statement::EnumDefine(node) => node.span(),
            Statement::TypeDefine(node) => node.span(),
            Statement::InterfaceDefine(node) => node.span(),
            Statement::ImplementsDefine(node) => node.span(),
            Statement::UseDeclare(node) => node.span(),
            Statement::LetStatement(node) => node.span(),
            Statement::AssertStatement(node) => node.span(),
            Statement::AssignStatement(node) => node.span(),
            Statement::FunctionDefine(node) => node.span(),
            Statement::Expression(node) => node.span(),
        }
    }
}

impl<'input> AST for TypedefValue<'input> {
    open spec fn span_value(&self) -> Range<usize> {
        match self {
            TypedefValue::Block(node) => node.span_value(),
            TypedefValue::TypeInfo(node) => node.span_value(),
        }
    }

    fn span(&self) -> (span: Range<usize>) {
        match self {
            TypedefValue::Block(node) => node.span(),
            TypedefValue::TypeInfo(node) => node.span(),
        }
    }
}

impl<'input> AST for AssignValue<'input> {
    open spec fn span_value(&self) -> Range<usize> {
        match self {
            AssignValue::Expression(node) => node.span_value(),
            AssignValue::Nested(node) => node.span_value(),
        }
    }

    fn span(&self) -> (span: Range<usize>) {
        match self {
            AssignValue::Expression(node) => node.span(),
            AssignValue::Nested(node) => node.span(),
        }
    }
}

impl<'input> AST for Expression<'input> {
    open spec fn span_value(&self) -> Range<usize> {
        match self {
            Expression::If(node) => node.span_value(),
            Expression::Match(node) => node.span_value(),
            Expression::Return(node) => node.span_value(),
            Expression::Throw(node) => node.span_value(),
            Expression::Closure(node) => node.span_value(),
            Expression::Elvis(node) => node.span_value(),
            Expression::Binary(node) => node.span_value(),
            Expression::Unary(node) => node.span_value(),
            Expression::Primary(node) => node.span_value(),
        }
    }

    fn span(&self) -> (span: Range<usize>) {
        match self {
            Expression::If(node) => node.span(),
            Expression::Match(node) => node.span(),
            Expression::Return(node) => node.span(),
            Expression::Throw(node) => node.span(),
            Expression::Closure(node) => node.span(),
            Expression::Elvis(node) => node.span(),
            Expression::Binary(node) => node.span(),
            Expression::Unary(node) => node.span(),
            Expression::Primary(node) => node.span(),
        }
    }
}

impl<'input> AST for ElseBranchValue<'input> {
    open spec fn span_value(&self) -> Range<usize> {
        match self {
            ElseBranchValue::If(node) => node.span_value(),
            ElseBranchValue::Block(node) => node.span_value(),
        }
    }

    fn span(&self) -> (span: Range<usize>) {
        match self {
            ElseBranchValue::If(node) => node.span(),
            ElseBranchValue::Block(node) => node.span(),
        }
    }
}

impl<'input> AST for Pattern<'input> {
    open spec fn span_value(&self) -> Range<usize> {
        match self {
            Pattern::SomePattern(node) => node.span_value(),
            Pattern::Null(node) => node.span_value(),
            Pattern::Wildcard(node) => node.span_value(),
            Pattern::Binding(node) => node.span_value(),
            Pattern::EnumVariant(node) => node.span_value(),
        }
    }

    fn span(&self) -> (span: Range<usize>) {
        match self {
            Pattern::SomePattern(node) => node.span(),
            Pattern::Null(node) => node.span(),
            Pattern::Wildcard(node) => node.span(),
            Pattern::Binding(node) => node.span(),
            Pattern::EnumVariant(node) => node.span(),
        }
    }
}

impl<'input> AST for ClosureBody<'input> {
    open spec fn span_value(&self) -> Range<usize> {
        match self {
            ClosureBody::Expression(node) => node.span_value(),
            ClosureBody::Block(node) => node.span_value(),
        }
    }

    fn span(&self) -> (span: Range<usize>) {
        match self {
            ClosureBody::Expression(node) => node.span(),
            ClosureBody::Block(node) => node.span(),
        }
    }
}

impl<'input> AST for Value<'input> {
    open spec fn span_value(&self) -> Range<usize> {
        match self {
            Value::Array(node) => node.span_value(),
            Value::Literal(node) => node.span_value(),
            Value::SomeValue(node) => node.span_value(),
            Value::Numeric(node) => node.span_value(),
            Value::String(node) => node.span_value(),
            Value::Boolean(node) => node.span_value(),
            Value::Null(node) => node.span_value(),
        }
    }

    fn span(&self) -> (span: Range<usize>) {
        match self {
            Value::Array(node) => node.span(),
            Value::Literal(node) => node.span(),
            Value::SomeValue(node) => node.span(),
            Value::Numeric(node) => node.span(),
            Value::String(node) => node.span(),
            Value::Boolean(node) => node.span(),
            Value::Null(node) => node.span(),
        }
    }
}

impl<'input> AST for ExplicitTypeArgument<'input> {
    open spec fn span_value(&self) -> Range<usize> {
        match self {
            ExplicitTypeArgument::Type(node) => node.span_value(),
            ExplicitTypeArgument::Infer(node) => node.span_value(),
        }
    }

    fn span(&self) -> (span: Range<usize>) {
        match self {
            ExplicitTypeArgument::Type(node) => node.span(),
            ExplicitTypeArgument::Infer(node) => node.span(),
        }
    }
}

} // verus!
