//! The solver-independent vocabulary of the typed constraint model: ids,
//! source origins, output paths, constraints, objectives and output cases,
//! and how surface syntax maps onto it.

use std::ops::Range;

use vstd::prelude::*;

use crate::ast::{BinaryOperator, MutationPolicyKind};
use crate::names::{FieldId, ModuleId, SymbolId};

verus! {

#[derive(Debug, Clone, Copy, PartialEq, Eq, Structural, Hash, PartialOrd, Ord)]
pub struct VariableId(pub u32);

#[derive(Debug, Clone, Copy, PartialEq, Eq, Structural, Hash, PartialOrd, Ord)]
pub struct ExpressionId(pub u32);

#[derive(Debug, Clone, Copy, PartialEq, Eq, Structural, Hash, PartialOrd, Ord)]
pub struct ConstraintId(pub u32);

#[derive(Debug, Clone, Copy, PartialEq, Eq, Structural, Hash, PartialOrd, Ord)]
pub struct ObjectiveId(pub u32);

/// Where a model element comes from.
#[derive(Debug, PartialEq, Eq)]
pub struct SourceOrigin {
    pub module: ModuleId,
    pub span: Range<usize>,
}

impl SourceOrigin {
    pub fn new(module: ModuleId, span: Range<usize>) -> (origin: Self)
        ensures
            origin.module == module,
            origin.span == span,
    {
        SourceOrigin { module, span }
    }

    pub fn module(&self) -> (module: ModuleId)
        ensures
            module == self.module,
    {
        self.module
    }

    pub fn span(&self) -> (span: Range<usize>)
        ensures
            span == self.span,
    {
        Range { start: self.span.start, end: self.span.end }
    }

    pub fn duplicate(&self) -> (copy: Self)
        ensures
            copy == *self,
    {
        SourceOrigin { module: self.module, span: self.span() }
    }
}

impl Clone for SourceOrigin {
    fn clone(&self) -> (copy: Self)
        ensures
            copy == *self,
    {
        self.duplicate()
    }
}

/// A configuration output: a root binding and a chain of fields below it.
#[derive(Debug, PartialEq, Eq, Hash, PartialOrd, Ord)]
pub struct OutputPath {
    pub root: SymbolId,
    pub fields: Vec<FieldId>,
}

impl OutputPath {
    /// The path of a root binding itself.
    pub fn root(root: SymbolId) -> (path: Self)
        ensures
            path.root == root,
            path.fields@ == Seq::<FieldId>::empty(),
    {
        OutputPath { root, fields: Vec::new() }
    }

    /// The path one field further down.
    pub fn field(self, field: FieldId) -> (path: Self)
        ensures
            path.root == self.root,
            path.fields@ == self.fields@.push(field),
    {
        let mut path = self;
        path.fields.push(field);
        path
    }

    pub fn root_symbol(&self) -> (root: SymbolId)
        ensures
            root == self.root,
    {
        self.root
    }

    pub fn fields(&self) -> (fields: &[FieldId])
        ensures
            fields@ == self.fields@,
    {
        self.fields.as_slice()
    }

    pub fn duplicate(&self) -> (copy: Self)
        ensures
            copy.root == self.root,
            copy.fields@ == self.fields@,
    {
        let mut fields: Vec<FieldId> = Vec::new();
        let mut i: usize = 0;
        while i < self.fields.len()
            invariant
                i <= self.fields@.len(),
                fields@ == self.fields@.subrange(0, i as int),
            decreases self.fields@.len() - i,
        {
            fields.push(self.fields[i]);
            i = i + 1;
        }
        OutputPath { root: self.root, fields }
    }
}

impl Clone for OutputPath {
    fn clone(&self) -> (copy: Self)
        ensures
            copy.root == self.root,
            copy.fields@ == self.fields@,
    {
        self.duplicate()
    }
}

/// How a solver may change a value.
#[derive(Debug, Clone, Copy, PartialEq, Eq, Structural, Hash)]
#[non_exhaustive]
pub enum MutationPolicy {
    Readonly,
    Tunable { cost: u64 },
}

/// The default change cost of a `tunable` without an explicit cost.
pub const DEFAULT_TUNABLE_COST: u64 = 1;

/// The model policy of a surface policy: `readonly` stays read-only, and a
/// `tunable` costs its written cost, or one when none is written.
pub open spec fn mutation_policy_of(policy: MutationPolicyKind) -> MutationPolicy {
    match policy {
        MutationPolicyKind::Readonly => MutationPolicy::Readonly,
        MutationPolicyKind::Tunable { cost } => MutationPolicy::Tunable {
            cost: match cost {
                Some(cost) => cost.value,
                None => DEFAULT_TUNABLE_COST,
            },
        },
    }
}

pub fn mutation_policy(policy: &MutationPolicyKind) -> (result: MutationPolicy)
    ensures
        result == mutation_policy_of(*policy),
{
    match policy {
        MutationPolicyKind::Readonly => MutationPolicy::Readonly,
        MutationPolicyKind::Tunable { cost } => MutationPolicy::Tunable {
            cost: match cost {
                Some(cost) => cost.value,
                None => DEFAULT_TUNABLE_COST,
            },
        },
    }
}

#[derive(Debug, PartialEq, Eq, Hash)]
#[non_exhaustive]
pub enum VariableSource {
    Symbol(SymbolId),
    Output(OutputPath),
    Synthetic(String),
}

#[derive(Debug, Clone, Copy, PartialEq, Eq, Structural, Hash)]
#[non_exhaustive]
pub enum VariableKind {
    Input,
    Tunable { cost: u64 },
}

#[derive(Debug, Clone, Copy, PartialEq, Eq, Structural, Hash)]
#[non_exhaustive]
pub enum UnaryOperation {
    Positive,
    Negate,
    Not,
    IsNull,
}

#[derive(Debug, Clone, Copy, PartialEq, Eq, Structural, Hash)]
#[non_exhaustive]
pub enum BinaryOperation {
    Or,
    And,
    Equal,
    NotEqual,
    LessThan,
    GreaterThan,
    LessThanOrEqual,
    GreaterThanOrEqual,
    Add,
    Subtract,
    Multiply,
    Divide,
}

/// Each surface binary operator denotes the model operation of the same name.
pub open spec fn binary_operation_of(operator: BinaryOperator) -> BinaryOperation {
    match operator {
        BinaryOperator::Or => BinaryOperation::Or,
        BinaryOperator::And => BinaryOperation::And,
        BinaryOperator::Equal => BinaryOperation::Equal,
        BinaryOperator::NotEqual => BinaryOperation::NotEqual,
        BinaryOperator::LessThan => BinaryOperation::LessThan,
        BinaryOperator::GreaterThan => BinaryOperation::GreaterThan,
        BinaryOperator::LessThanOrEqual => BinaryOperation::LessThanOrEqual,
        BinaryOperator::GreaterThanOrEqual => BinaryOperation::GreaterThanOrEqual,
        BinaryOperator::Add => BinaryOperation::Add,
        BinaryOperator::Subtract => BinaryOperation::Subtract,
        BinaryOperator::Multiply => BinaryOperation::Multiply,
        BinaryOperator::Divide => BinaryOperation::Divide,
    }
}

pub fn binary_operation(operator: BinaryOperator) -> (operation: BinaryOperation)
    ensures
        operation == binary_operation_of(operator),
{
    match operator {
        BinaryOperator::Or => BinaryOperation::Or,
        BinaryOperator::And => BinaryOperation::And,
        BinaryOperator::Equal => BinaryOperation::Equal,
        BinaryOperator::NotEqual => BinaryOperation::NotEqual,
        BinaryOperator::LessThan => BinaryOperation::LessThan,
        BinaryOperator::GreaterThan => BinaryOperation::GreaterThan,
        BinaryOperator::LessThanOrEqual => BinaryOperation::LessThanOrEqual,
        BinaryOperator::GreaterThanOrEqual => BinaryOperation::GreaterThanOrEqual,
        BinaryOperator::Add => BinaryOperation::Add,
        BinaryOperator::Subtract => BinaryOperation::Subtract,
        BinaryOperator::Multiply => BinaryOperation::Multiply,
        BinaryOperator::Divide => BinaryOperation::Divide,
    }
}

#[derive(Debug, Clone, Copy, PartialEq, Eq, Structural, Hash)]
#[non_exhaustive]
pub enum ConstraintKind {
    Assert,
    Target,
    Validity,
}

#[derive(Debug, Clone, PartialEq)]
pub struct Constraint {
    id: ConstraintId,
    condition: ExpressionId,
    kind: ConstraintKind,
    origin: Option<SourceOrigin>,
}

impl Constraint {
    pub closed spec fn id_of(&self) -> ConstraintId {
        self.id
    }

    pub closed spec fn condition_of(&self) -> ExpressionId {
        self.condition
    }

    pub closed spec fn kind_of(&self) -> ConstraintKind {
        self.kind
    }

    pub closed spec fn origin_of(&self) -> Option<SourceOrigin> {
        self.origin
    }

    pub fn id(&self) -> (id: ConstraintId)
        ensures
            id == self.id_of(),
    {
        self.id
    }

    pub fn condition(&self) -> (condition: ExpressionId)
        ensures
            condition == self.condition_of(),
    {
        self.condition
    }

    pub fn kind(&self) -> (kind: ConstraintKind)
        ensures
            kind == self.kind_of(),
    {
        self.kind
    }

    pub fn origin(&self) -> (origin: Option<&SourceOrigin>)
        ensures
            match origin {
                Some(o) => self.origin_of() == Some(*o),
                None => self.origin_of().is_none(),
            },
    {
        self.origin.as_ref()
    }
}

/// A variable together with the cost of changing it.
#[derive(Debug, Clone, Copy, PartialEq, Eq, Structural, Hash)]
pub struct WeightedVariable {
    variable: VariableId,
    cost: u64,
}

impl WeightedVariable {
    pub closed spec fn variable_of(self) -> VariableId {
        self.variable
    }

    pub closed spec fn cost_of(self) -> u64 {
        self.cost
    }

    pub fn new(variable: VariableId, cost: u64) -> (weighted: Self)
        ensures
            weighted.variable_of() == variable,
            weighted.cost_of() == cost,
    {
        WeightedVariable { variable, cost }
    }

    pub fn variable(self) -> (variable: VariableId)
        ensures
            variable == self.variable_of(),
    {
        self.variable
    }

    pub fn cost(self) -> (cost: u64)
        ensures
            cost == self.cost_of(),
    {
        self.cost
    }
}

#[derive(Debug, Clone, PartialEq)]
#[non_exhaustive]
pub enum ObjectiveKind {
    Minimize(ExpressionId),
    MinimizeChanges(Vec<WeightedVariable>),
}

#[derive(Debug, Clone, PartialEq)]
pub struct Objective {
    id: ObjectiveId,
    kind: ObjectiveKind,
    origin: Option<SourceOrigin>,
}

impl Objective {
    pub closed spec fn id_of(&self) -> ObjectiveId {
        self.id
    }

    pub closed spec fn kind_of(&self) -> ObjectiveKind {
        self.kind
    }

    pub closed spec fn origin_of(&self) -> Option<SourceOrigin> {
        self.origin
    }

    pub fn id(&self) -> (id: ObjectiveId)
        ensures
            id == self.id_of(),
    {
        self.id
    }

    pub fn kind(&self) -> (kind: &ObjectiveKind)
        ensures
            *kind == self.kind_of(),
    {
        &self.kind
    }

    pub fn origin(&self) -> (origin: Option<&SourceOrigin>)
        ensures
            match origin {
                Some(o) => self.origin_of() == Some(*o),
                None => self.origin_of().is_none(),
            },
    {
        self.origin.as_ref()
    }
}

/// One guarded assignment to an output.
#[derive(Debug, Clone, PartialEq)]
pub struct OutputCase {
    guard: ExpressionId,
    value: ExpressionId,
    origin: SourceOrigin,
}

impl OutputCase {
    pub closed spec fn guard_of(&self) -> ExpressionId {
        self.guard
    }

    pub closed spec fn value_of(&self) -> ExpressionId {
        self.value
    }

    pub closed spec fn origin_of(&self) -> SourceOrigin {
        self.origin
    }

    pub fn guard(&self) -> (guard: ExpressionId)
        ensures
            guard == self.guard_of(),
    {
        self.guard
    }

    pub fn value(&self) -> (value: ExpressionId)
        ensures
            value == self.value_of(),
    {
        self.value
    }

    pub fn origin(&self) -> (origin: &SourceOrigin)
        ensures
            *origin == self.origin_of(),
    {
        &self.origin
    }
}

/// A constraint of the model.
pub fn constraint(
    id: ConstraintId,
    condition: ExpressionId,
    kind: ConstraintKind,
    origin: Option<SourceOrigin>,
) -> (constraint: Constraint)
    ensures
        constraint.id_of() == id,
        constraint.condition_of() == condition,
        constraint.kind_of() == kind,
        constraint.origin_of() == origin,
{
    Constraint { id, condition, kind, origin }
}

/// An objective of the model.
pub fn objective(id: ObjectiveId, kind: ObjectiveKind, origin: Option<SourceOrigin>) -> (objective: Objective)
    ensures
        objective.id_of() == id,
        objective.kind_of() == kind,
        objective.origin_of() == origin,
{
    Objective { id, kind, origin }
}

/// One guarded assignment to an output.
pub fn output_case(guard: ExpressionId, value: ExpressionId, origin: SourceOrigin) -> (case: OutputCase)
    ensures
        case.guard_of() == guard,
        case.value_of() == value,
        case.origin_of() == origin,
{
    OutputCase { guard, value, origin }
}

} // verus!
