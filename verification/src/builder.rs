//! Building the value dependency graph of a module from its resolved names.

use std::ops::Range;

use vstd::prelude::*;

use crate::ast::{
    Array, AssignValue, ClosureBody, ElseBranchValue, Expression, FunctionCall, FunctionDefine,
    Literal, MatchArm, Pattern, Primary, Source, Statement, Statements, Value, AST,
};
use crate::graph::{
    defines, external_node, insert_node_result, lemma_insert_edge_defines, lemma_insert_node_defines,
    DependencyEdge, DependencyNode, DependencyEdgeKind, DependencyGraph, DependencyNodeId, DependencyNodeKind, StatementId,
};
use crate::names::{latest, AstId, AstKind, Declaration, ModuleId, Res, SymbolId, SymbolKind, VariantId};
use crate::resolver::{copy_range, NameResolution, Symbol};

verus! {

/// The kind of the first symbol of the table with the id `symbol`.
pub open spec fn kind_of_symbol(symbols: Seq<Symbol>, symbol: SymbolId) -> Option<SymbolKind>
    decreases symbols.len(),
{
    if symbols.len() == 0 {
        None
    } else if symbols[0].id == symbol {
        Some(symbols[0].kind)
    } else {
        kind_of_symbol(symbols.drop_first(), symbol)
    }
}

/// Whether using `symbol` is a dependency: a binding or a function is, a
/// parameter or a pattern binding is not, and a symbol the table does not
/// hold (one of another module) is.
pub open spec fn dependency_symbol(symbols: Seq<Symbol>, symbol: SymbolId) -> bool {
    match kind_of_symbol(symbols, symbol) {
        Some(kind) => kind == SymbolKind::Let || kind == SymbolKind::Function,
        None => true,
    }
}

/// An edge points at a dependency: a binding, a function or an enum
/// variant, never at a parameter, a pattern binding or a statement.
pub open spec fn edge_to_dependency(symbols: Seq<Symbol>, edge: DependencyEdge) -> bool {
    match edge.target {
        DependencyNodeId::Symbol(symbol) => dependency_symbol(symbols, symbol),
        DependencyNodeId::Variant(_) => true,
        DependencyNodeId::Statement(_) => false,
    }
}

/// A statement that is a node of its own at module level: an assertion,
/// an assignment or an expression.
pub open spec fn numbered(statement: Statement<'_>) -> bool {
    statement is AssertStatement || statement is AssignStatement || statement is Expression
}

/// How many of the first `count` statements are numbered.
pub open spec fn numbered_before(statements: Seq<Statement<'_>>, count: int) -> int
    decreases count,
{
    if count <= 0 {
        0
    } else {
        numbered_before(statements, count - 1) + if numbered(statements[count - 1]) {
            1int
        } else {
            0int
        }
    }
}

/// The id of a literal as a node of the syntax tree.
pub open spec fn literal_id(literal: Literal<'_>) -> AstId {
    AstId { start: literal.span.start, end: literal.span.end, kind: AstKind::Literal }
}

/// The symbol a literal declares, as the resolution recorded it.
pub open spec fn declared_symbol(resolution: NameResolution, literal: Literal<'_>) -> Option<SymbolId> {
    match latest(resolution.declaration_log(), literal_id(literal)) {
        Some(Declaration::Symbol(symbol)) => Some(symbol),
        _ => None,
    }
}

/// The enum variant a literal declares, as the resolution recorded it.
pub open spec fn declared_variant(resolution: NameResolution, literal: Literal<'_>) -> Option<VariantId> {
    match latest(resolution.declaration_log(), literal_id(literal)) {
        Some(Declaration::EnumVariant(variant)) => Some(variant),
        _ => None,
    }
}

/// The symbol a function declares is a defined node of `nodes`.
pub open spec fn function_defined(resolution: NameResolution, nodes: Seq<DependencyNode>, function: FunctionDefine<'_>) -> bool {
    declared_symbol(resolution, function.name) matches Some(symbol) ==> defines(nodes, DependencyNodeId::Symbol(symbol))
}

/// What a module-level statement declares is a defined node of `nodes`:
/// its binding, its function, its enum variants, its methods, or, for a
/// statement of its own numbered `number`, that statement.
pub open spec fn statement_defined(
    resolution: NameResolution,
    nodes: Seq<DependencyNode>,
    statement: Statement<'_>,
    number: int,
) -> bool {
    match statement {
        Statement::LetStatement(node) => declared_symbol(resolution, node.name) matches Some(symbol) ==> defines(
            nodes,
            DependencyNodeId::Symbol(symbol),
        ),
        Statement::FunctionDefine(node) => function_defined(resolution, nodes, *node),
        Statement::EnumDefine(node) => forall|k: int|
            0 <= k < node.variants@.len() ==> (declared_variant(resolution, (#[trigger] node.variants@[k]).name) matches Some(
                variant,
            ) ==> defines(nodes, DependencyNodeId::Variant(variant))),
        Statement::InterfaceDefine(node) => forall|k: int|
            0 <= k < node.methods@.len() ==> function_defined(resolution, nodes, #[trigger] node.methods@[k]),
        Statement::ImplementsDefine(node) => forall|k: int|
            0 <= k < node.methods@.len() ==> function_defined(resolution, nodes, #[trigger] node.methods@[k]),
        Statement::AssertStatement(_) | Statement::AssignStatement(_) | Statement::Expression(_) => 0 <= number
            < u32::MAX ==> defines(
            nodes,
            DependencyNodeId::Statement(StatementId { module: resolution.module_id(), index: number as u32 }),
        ),
        _ => true,
    }
}

/// What a statement declares stays defined as nodes are added.
proof fn lemma_statement_defined_grows(
    resolution: NameResolution,
    before: Seq<DependencyNode>,
    after: Seq<DependencyNode>,
    statement: Statement<'_>,
    number: int,
)
    requires
        statement_defined(resolution, before, statement, number),
        forall|id: DependencyNodeId| #[trigger] defines(before, id) ==> defines(after, id),
    ensures
        statement_defined(resolution, after, statement, number),
{
    match statement {
        Statement::EnumDefine(node) => {
            assert forall|k: int| 0 <= k < node.variants@.len() implies (declared_variant(
                resolution,
                (#[trigger] node.variants@[k]).name,
            ) matches Some(variant) ==> defines(after, DependencyNodeId::Variant(variant))) by {
                if let Some(variant) = declared_variant(resolution, node.variants@[k].name) {
                    assert(defines(before, DependencyNodeId::Variant(variant)));
                }
            }
        },
        Statement::InterfaceDefine(node) => {
            assert forall|k: int| 0 <= k < node.methods@.len() implies function_defined(
                resolution,
                after,
                #[trigger] node.methods@[k],
            ) by {
                assert(function_defined(resolution, before, node.methods@[k]));
            }
        },
        Statement::ImplementsDefine(node) => {
            assert forall|k: int| 0 <= k < node.methods@.len() implies function_defined(
                resolution,
                after,
                #[trigger] node.methods@[k],
            ) by {
                assert(function_defined(resolution, before, node.methods@[k]));
            }
        },
        _ => {},
    }
}

/// The kind of a use: a call where a call follows, else a reference.
pub open spec fn use_kind(called: bool) -> DependencyEdgeKind {
    if called {
        DependencyEdgeKind::Call
    } else {
        DependencyEdgeKind::Reference
    }
}

/// The use by `owner` of what `literal` resolves to is one of `edges`,
/// where it is a dependency: a binding, a function or an enum variant.
pub open spec fn use_recorded(
    resolution: NameResolution,
    edges: Seq<DependencyEdge>,
    owner: Option<DependencyNodeId>,
    literal: Literal<'_>,
    kind: DependencyEdgeKind,
) -> bool {
    match owner {
        None => true,
        Some(source) => match latest(resolution.reference_log(), literal_id(literal)) {
            Some(Res::Symbol(symbol)) => dependency_symbol(resolution.symbol_table(), symbol) ==> edges.contains(
                DependencyEdge { source, target: DependencyNodeId::Symbol(symbol), kind, span: literal.span },
            ),
            Some(Res::EnumVariant(variant)) => edges.contains(
                DependencyEdge { source, target: DependencyNodeId::Variant(variant), kind, span: literal.span },
            ),
            _ => true,
        },
    }
}

/// The use a named value makes.
pub open spec fn value_uses_recorded(
    resolution: NameResolution,
    edges: Seq<DependencyEdge>,
    owner: Option<DependencyNodeId>,
    value: Value<'_>,
) -> bool {
    value matches Value::Literal(named) ==> use_recorded(resolution, edges, owner, named.literal, use_kind(named.call is Some))
}

/// The uses a primary makes directly: its named value and its members.
pub open spec fn primary_uses_recorded(
    resolution: NameResolution,
    edges: Seq<DependencyEdge>,
    owner: Option<DependencyNodeId>,
    primary: Primary<'_>,
) -> bool {
    &&& value_uses_recorded(resolution, edges, owner, primary.value)
    &&& forall|k: int|
        0 <= k < primary.accesses@.len() ==> use_recorded(
            resolution,
            edges,
            owner,
            (#[trigger] primary.accesses@[k]).member,
            use_kind(primary.accesses@[k].call is Some),
        )
}

/// The uses of the primaries an expression combines with operators, and
/// of the value a `return`, a `throw` or a closure's expression body
/// gives.
pub open spec fn expression_uses_recorded(
    resolution: NameResolution,
    edges: Seq<DependencyEdge>,
    owner: Option<DependencyNodeId>,
    expression: Expression<'_>,
) -> bool
    decreases expression,
{
    match expression {
        Expression::Primary(primary) => primary_uses_recorded(resolution, edges, owner, *primary),
        Expression::Unary(node) => expression_uses_recorded(resolution, edges, owner, *node.operand),
        Expression::Binary(node) => expression_uses_recorded(resolution, edges, owner, *node.left)
            && expression_uses_recorded(resolution, edges, owner, *node.right),
        Expression::Elvis(node) => expression_uses_recorded(resolution, edges, owner, *node.optional)
            && expression_uses_recorded(resolution, edges, owner, *node.fallback),
        Expression::Return(node) => node.value matches Some(value) ==> expression_uses_recorded(
            resolution,
            edges,
            owner,
            *value,
        ),
        Expression::Throw(node) => node.message matches Some(message) ==> expression_uses_recorded(
            resolution,
            edges,
            owner,
            *message,
        ),
        Expression::Closure(node) => node.body matches ClosureBody::Expression(body) ==> expression_uses_recorded(
            resolution,
            edges,
            owner,
            *body,
        ),
        Expression::Match(node) => {
            &&& expression_uses_recorded(resolution, edges, owner, *node.value)
            &&& forall|k: int|
                0 <= k < node.arms@.len() ==> {
                    &&& pattern_uses_recorded(resolution, edges, owner, (#[trigger] node.arms@[k]).pattern)
                    &&& expression_uses_recorded(resolution, edges, owner, *node.arms@[k].value)
                }
        },
        Expression::If(node) => {
            &&& expression_uses_recorded(resolution, edges, owner, *node.branch.condition)
            &&& forall|k: int|
                0 <= k < node.else_branches@.len() ==> ((#[trigger] node.else_branches@[k]).value matches ElseBranchValue::If(
                    branch,
                ) ==> expression_uses_recorded(resolution, edges, owner, *branch.condition))
        },
    }
}

/// The enum variants a pattern matches are used.
pub open spec fn pattern_uses_recorded(
    resolution: NameResolution,
    edges: Seq<DependencyEdge>,
    owner: Option<DependencyNodeId>,
    pattern: Pattern<'_>,
) -> bool
    decreases pattern,
{
    match pattern {
        Pattern::EnumVariant(node) => use_recorded(resolution, edges, owner, node.variant, DependencyEdgeKind::Reference),
        Pattern::SomePattern(node) => pattern_uses_recorded(resolution, edges, owner, *node.pattern),
        _ => true,
    }
}

/// The uses a statement's values make are edges from their owner: a
/// binding's value from the binding it declares, the values of an
/// assertion, an assignment or an expression statement from `owner`.
pub open spec fn statement_uses_recorded(
    resolution: NameResolution,
    edges: Seq<DependencyEdge>,
    owner: Option<DependencyNodeId>,
    statement: Statement<'_>,
) -> bool {
    match statement {
        Statement::LetStatement(node) => match declared_symbol(resolution, node.name) {
            Some(symbol) => node.value matches Some(value) ==> expression_uses_recorded(
                resolution,
                edges,
                Some(DependencyNodeId::Symbol(symbol)),
                *value,
            ),
            None => true,
        },
        Statement::AssertStatement(node) => {
            &&& expression_uses_recorded(resolution, edges, owner, *node.condition)
            &&& (node.message matches Some(message) ==> expression_uses_recorded(resolution, edges, owner, *message))
        },
        Statement::AssignStatement(node) => {
            &&& expression_uses_recorded(resolution, edges, owner, *node.target)
            &&& (node.value matches AssignValue::Expression(value) ==> expression_uses_recorded(
                resolution,
                edges,
                owner,
                *value,
            ))
        },
        Statement::Expression(expression) => expression_uses_recorded(resolution, edges, owner, *expression),
        _ => true,
    }
}

/// The node that owns the values of a statement at module level that is
/// numbered `number`: its own statement node, or none once 32-bit numbers
/// run out.
pub open spec fn module_statement_owner(module: ModuleId, number: int) -> Option<DependencyNodeId> {
    if number < u32::MAX {
        Some(DependencyNodeId::Statement(StatementId { module, index: number as u32 }))
    } else {
        None
    }
}

/// Builds the dependency graph of a module: a node for every binding,
/// function and enum variant it declares and for every root statement, and
/// an edge from each of them to every binding, function or enum variant its
/// value uses.  Parameters and pattern bindings are local and are no
/// dependencies.  Every declaration and numbered statement at module level
/// is a defined node of the result, and every edge points at a dependency.
/// Every use that a module-level statement's value makes of a binding, a
/// function or an enum variant is an edge from the binding the statement
/// declares, or else from the statement's own node.
pub fn build_dependency_graph(source: &Source<'_>, resolution: &NameResolution) -> (graph: DependencyGraph)
    ensures
        graph.wf(),
        forall|e: int|
            0 <= e < graph.edge_seq().len() ==> edge_to_dependency(resolution.symbol_table(), #[trigger] graph.edge_seq()[e]),
        forall|i: int|
            0 <= i < source.statements@.len() ==> statement_defined(
                *resolution,
                graph.node_seq(),
                #[trigger] source.statements@[i],
                numbered_before(source.statements@, i),
            ),
        graph.edge_seq().len() < usize::MAX ==> forall|i: int|
            0 <= i < source.statements@.len() ==> statement_uses_recorded(
                *resolution,
                graph.edge_seq(),
                module_statement_owner(resolution.module_id(), numbered_before(source.statements@, i)),
                #[trigger] source.statements@[i],
            ),
{
    let mut builder = Builder { resolution, graph: DependencyGraph::new(), owner: None, next_statement: 0 };
    builder.visit_statements(source, true);
    builder.graph
}

struct Builder<'r> {
    resolution: &'r NameResolution,
    graph: DependencyGraph,
    /// The node whose value is being visited.
    owner: Option<DependencyNodeId>,
    /// The number of the next root statement.
    next_statement: u32,
}

impl<'r> Builder<'r> {
    /// Every node `before` defined is still defined.
    spec fn keeps_defined(&self, before: &Self) -> bool {
        forall|id: DependencyNodeId| #[trigger] defines(before.graph.node_seq(), id) ==> defines(self.graph.node_seq(), id)
    }

    /// The edges of `before` are still the first edges.
    spec fn edge_kept(&self, before: &Self) -> bool {
        &&& before.graph.edge_seq().len() <= self.graph.edge_seq().len()
        &&& forall|i: int|
            0 <= i < before.graph.edge_seq().len() ==> #[trigger] before.graph.edge_seq()[i] == self.graph.edge_seq()[i]
    }

    /// The graph holds `edge`.
    spec fn has_edge(&self, edge: DependencyEdge) -> bool {
        self.graph.edge_seq().contains(edge)
    }

    /// [`use_recorded`] over the graph built so far.
    spec fn records_by(&self, owner: Option<DependencyNodeId>, literal: Literal<'_>, kind: DependencyEdgeKind) -> bool {
        use_recorded(*self.resolution, self.graph.edge_seq(), owner, literal, kind)
    }

    /// [`value_uses_recorded`] over the graph built so far.
    spec fn value_recorded_by(&self, owner: Option<DependencyNodeId>, value: Value<'_>) -> bool {
        value_uses_recorded(*self.resolution, self.graph.edge_seq(), owner, value)
    }

    /// [`primary_uses_recorded`] over the graph built so far.
    spec fn primary_recorded_by(&self, owner: Option<DependencyNodeId>, primary: Primary<'_>) -> bool {
        primary_uses_recorded(*self.resolution, self.graph.edge_seq(), owner, primary)
    }

    /// [`expression_uses_recorded`] over the graph built so far.
    spec fn expression_recorded_by(&self, owner: Option<DependencyNodeId>, expression: Expression<'_>) -> bool {
        expression_uses_recorded(*self.resolution, self.graph.edge_seq(), owner, expression)
    }

    /// [`pattern_uses_recorded`] over the graph built so far.
    spec fn pattern_recorded_by(&self, owner: Option<DependencyNodeId>, pattern: Pattern<'_>) -> bool {
        pattern_uses_recorded(*self.resolution, self.graph.edge_seq(), owner, pattern)
    }

    /// [`Self::records_by`] for the current owner.
    spec fn records(&self, literal: Literal<'_>, kind: DependencyEdgeKind) -> bool {
        self.records_by(self.owner, literal, kind)
    }

    /// [`Self::value_recorded_by`] for the current owner.
    spec fn value_recorded(&self, value: Value<'_>) -> bool {
        self.value_recorded_by(self.owner, value)
    }

    /// [`Self::primary_recorded_by`] for the current owner.
    spec fn primary_recorded(&self, primary: Primary<'_>) -> bool {
        self.primary_recorded_by(self.owner, primary)
    }

    /// [`Self::expression_recorded_by`] for the current owner.
    spec fn expression_recorded(&self, expression: Expression<'_>) -> bool {
        self.expression_recorded_by(self.owner, expression)
    }

    /// [`Self::pattern_recorded_by`] for the current owner.
    spec fn pattern_recorded(&self, pattern: Pattern<'_>) -> bool {
        self.pattern_recorded_by(self.owner, pattern)
    }

    /// Edges are only added, by the same resolution.
    spec fn same_use(&self, before: &Self) -> bool {
        &&& self.edge_kept(before)
        &&& self.resolution == before.resolution
    }

    proof fn lemma_records_kept(before: &Self, after: &Self, owner: Option<DependencyNodeId>, literal: Literal<'_>, kind: DependencyEdgeKind)
        requires
            after.same_use(before),
            before.records_by(owner, literal, kind),
        ensures
            after.records_by(owner, literal, kind),
    {
        if let Some(source) = owner {
            match latest(before.resolution.reference_log(), literal_id(literal)) {
                Some(Res::Symbol(symbol)) => {
                    let edge = DependencyEdge { source, target: DependencyNodeId::Symbol(symbol), kind, span: literal.span };
                    if before.has_edge(edge) {
                        let i = choose|i: int| 0 <= i < before.graph.edge_seq().len() && before.graph.edge_seq()[i] == edge;
                        assert(after.graph.edge_seq()[i] == edge);
                    }
                },
                Some(Res::EnumVariant(variant)) => {
                    let edge = DependencyEdge { source, target: DependencyNodeId::Variant(variant), kind, span: literal.span };
                    let i = choose|i: int| 0 <= i < before.graph.edge_seq().len() && before.graph.edge_seq()[i] == edge;
                    assert(after.graph.edge_seq()[i] == edge);
                },
                _ => {},
            }
        }
    }

    proof fn lemma_value_recorded_kept(before: &Self, after: &Self, owner: Option<DependencyNodeId>, value: Value<'_>)
        requires
            after.same_use(before),
            before.value_recorded_by(owner, value),
        ensures
            after.value_recorded_by(owner, value),
    {
        if let Value::Literal(named) = value {
            Self::lemma_records_kept(before, after, owner, named.literal, use_kind(named.call is Some));
        }
    }

    proof fn lemma_primary_recorded_kept(before: &Self, after: &Self, owner: Option<DependencyNodeId>, primary: Primary<'_>)
        requires
            after.same_use(before),
            before.primary_recorded_by(owner, primary),
        ensures
            after.primary_recorded_by(owner, primary),
    {
        Self::lemma_value_recorded_kept(before, after, owner, primary.value);
        assert forall|k: int| 0 <= k < primary.accesses@.len() implies after.records_by(owner, 
            (#[trigger] primary.accesses@[k]).member,
            use_kind(primary.accesses@[k].call is Some),
        ) by {
            Self::lemma_records_kept(before, after, owner,
                primary.accesses@[k].member,
                use_kind(primary.accesses@[k].call is Some),
            );
        }
    }

    proof fn lemma_expression_recorded_kept(before: &Self, after: &Self, owner: Option<DependencyNodeId>, expression: Expression<'_>)
        requires
            after.same_use(before),
            before.expression_recorded_by(owner, expression),
        ensures
            after.expression_recorded_by(owner, expression),
        decreases expression,
    {
        match expression {
            Expression::Primary(primary) => Self::lemma_primary_recorded_kept(before, after, owner, *primary),
            Expression::Unary(node) => Self::lemma_expression_recorded_kept(before, after, owner, *node.operand),
            Expression::Binary(node) => {
                Self::lemma_expression_recorded_kept(before, after, owner, *node.left);
                Self::lemma_expression_recorded_kept(before, after, owner, *node.right);
            },
            Expression::Elvis(node) => {
                Self::lemma_expression_recorded_kept(before, after, owner, *node.optional);
                Self::lemma_expression_recorded_kept(before, after, owner, *node.fallback);
            },
            Expression::Return(node) => {
                if let Some(value) = node.value {
                    Self::lemma_expression_recorded_kept(before, after, owner, *value);
                }
            },
            Expression::Throw(node) => {
                if let Some(message) = node.message {
                    Self::lemma_expression_recorded_kept(before, after, owner, *message);
                }
            },
            Expression::Closure(node) => {
                if let ClosureBody::Expression(body) = node.body {
                    Self::lemma_expression_recorded_kept(before, after, owner, *body);
                }
            },
            Expression::Match(node) => {
                assert(expression_uses_recorded(*before.resolution, before.graph.edge_seq(), owner, expression));
                Self::lemma_expression_recorded_kept(before, after, owner, *node.value);
                assert forall|k: int| 0 <= k < node.arms@.len() implies pattern_uses_recorded(
                    *after.resolution,
                    after.graph.edge_seq(),
                    owner,
                    (#[trigger] node.arms@[k]).pattern,
                ) && expression_uses_recorded(*after.resolution, after.graph.edge_seq(), owner, *node.arms@[k].value) by {
                    assert(decreases_to!(expression => node));
                    assert(decreases_to!(node => node.arms@[k]));
                    Self::lemma_pattern_recorded_kept(before, after, owner, node.arms@[k].pattern);
                    Self::lemma_expression_recorded_kept(before, after, owner, *node.arms@[k].value);
                }
            },
            Expression::If(node) => {
                assert(expression_uses_recorded(*before.resolution, before.graph.edge_seq(), owner, expression));
                Self::lemma_expression_recorded_kept(before, after, owner, *node.branch.condition);
                assert forall|k: int| 0 <= k < node.else_branches@.len() implies ((#[trigger] node.else_branches@[k]).value matches ElseBranchValue::If(
                    branch,
                ) ==> expression_uses_recorded(*after.resolution, after.graph.edge_seq(), owner, *branch.condition)) by {
                    assert(decreases_to!(expression => node));
                    assert(decreases_to!(node => node.else_branches@[k]));
                    if let ElseBranchValue::If(branch) = node.else_branches@[k].value {
                        Self::lemma_expression_recorded_kept(before, after, owner, *branch.condition);
                    }
                }
            },
        }
    }

    proof fn lemma_pattern_recorded_kept(before: &Self, after: &Self, owner: Option<DependencyNodeId>, pattern: Pattern<'_>)
        requires
            after.same_use(before),
            before.pattern_recorded_by(owner, pattern),
        ensures
            after.pattern_recorded_by(owner, pattern),
        decreases pattern,
    {
        match pattern {
            Pattern::EnumVariant(node) => Self::lemma_records_kept(before, after, owner, node.variant, DependencyEdgeKind::Reference),
            Pattern::SomePattern(node) => Self::lemma_pattern_recorded_kept(before, after, owner, *node.pattern),
            _ => {},
        }
    }

    proof fn lemma_statement_recorded_kept(
        before: &Self,
        after: &Self,
        owner: Option<DependencyNodeId>,
        statement: Statement<'_>,
    )
        requires
            after.same_use(before),
            statement_uses_recorded(*before.resolution, before.graph.edge_seq(), owner, statement),
        ensures
            statement_uses_recorded(*after.resolution, after.graph.edge_seq(), owner, statement),
    {
        match statement {
            Statement::LetStatement(node) => {
                if let Some(symbol) = declared_symbol(*before.resolution, node.name) {
                    if let Some(value) = node.value {
                        Self::lemma_expression_recorded_kept(
                            before,
                            after,
                            Some(DependencyNodeId::Symbol(symbol)),
                            *value,
                        );
                    }
                }
            },
            Statement::AssertStatement(node) => {
                Self::lemma_expression_recorded_kept(before, after, owner, *node.condition);
                if let Some(message) = node.message {
                    Self::lemma_expression_recorded_kept(before, after, owner, *message);
                }
            },
            Statement::AssignStatement(node) => {
                Self::lemma_expression_recorded_kept(before, after, owner, *node.target);
                if let AssignValue::Expression(value) = node.value {
                    Self::lemma_expression_recorded_kept(before, after, owner, *value);
                }
            },
            Statement::Expression(expression) => Self::lemma_expression_recorded_kept(before, after, owner, *expression),
            _ => {},
        }
    }

    proof fn lemma_keeps_trans(a: &Self, b: &Self, c: &Self)
        requires
            b.keeps_defined(a),
            c.keeps_defined(b),
            b.edge_kept(a),
            c.edge_kept(b),
        ensures
            c.keeps_defined(a),
            c.edge_kept(a),
    {
        assert forall|id: DependencyNodeId| #[trigger] defines(a.graph.node_seq(), id) implies defines(
            c.graph.node_seq(),
            id,
        ) by {
            assert(defines(b.graph.node_seq(), id));
        }
    }

    spec fn wf(&self) -> bool {
        &&& self.graph.wf()
        &&& forall|e: int|
            0 <= e < self.graph.edge_seq().len() ==> edge_to_dependency(
                self.resolution.symbol_table(),
                #[trigger] self.graph.edge_seq()[e],
            )
    }

    /// Whether uses of the symbol are dependencies: bindings and functions
    /// are, parameters and pattern bindings are not; a symbol of another
    /// module is.
    fn is_dependency_symbol(&self, symbol: SymbolId) -> (dependency: bool)
        ensures
            dependency == dependency_symbol(self.resolution.symbol_table(), symbol),
    {
        let symbols = self.resolution.symbols();
        let mut index: usize = 0;
        proof {
            assert(symbols@.subrange(0, symbols@.len() as int) =~= symbols@);
        }
        while index < symbols.len()
            invariant
                index <= symbols@.len(),
                symbols@ == self.resolution.symbol_table(),
                kind_of_symbol(symbols@, symbol) == kind_of_symbol(
                    symbols@.subrange(index as int, symbols@.len() as int),
                    symbol,
                ),
            decreases symbols.len() - index,
        {
            proof {
                assert(symbols@.subrange(index as int, symbols@.len() as int).drop_first() =~= symbols@.subrange(
                    index + 1,
                    symbols@.len() as int,
                ));
            }
            if symbols[index].id == symbol {
                return match symbols[index].kind {
                    SymbolKind::Let | SymbolKind::Function => true,
                    SymbolKind::Parameter | SymbolKind::PatternBinding => false,
                };
            }
            index += 1;
        }
        proof {
            assert(symbols@.subrange(index as int, symbols@.len() as int).len() == 0);
        }
        true
    }

    /// Records that the current owner uses what `literal` refers to, where
    /// that is a dependency.
    fn record_literal(&mut self, literal: &Literal<'_>, kind: DependencyEdgeKind)
        requires
            old(self).wf(),
        ensures
            final(self).graph.edge_seq().len() < usize::MAX ==> final(self).records(*literal, kind),
            final(self).wf(),
            final(self).owner == old(self).owner,
            final(self).resolution == old(self).resolution,
            final(self).keeps_defined(&*old(self)),
            final(self).edge_kept(&*old(self)),
            final(self).next_statement == old(self).next_statement,
    {
        let source = match self.owner {
            Some(source) => source,
            None => {
                return;
            },
        };
        let target = match self.resolution.resolve_literal(literal) {
            Some(Res::Symbol(symbol)) => {
                if !self.is_dependency_symbol(symbol) {
                    return;
                }
                DependencyNodeId::Symbol(symbol)
            },
            Some(Res::EnumVariant(variant)) => DependencyNodeId::Variant(variant),
            _ => {
                return;
            },
        };
        if self.graph.edges().len() < usize::MAX {
            let ghost before = self.graph.edge_seq();
            let ghost before_nodes = self.graph.node_seq();
            let edge_span = copy_range(&literal.span);
            self.graph.add_edge(source, target, kind, edge_span);
            proof {
                let edge = DependencyEdge { source, target, kind, span: edge_span };
                lemma_insert_node_defines(before_nodes, external_node(target));
                lemma_insert_edge_defines(insert_node_result(before_nodes, external_node(target)), edge);
                assert(edge_to_dependency(self.resolution.symbol_table(), edge));
                if !before.contains(edge) {
                    assert(self.graph.edge_seq()[before.len() as int] == edge);
                }
                assert(self.has_edge(edge));
                assert forall|e: int| 0 <= e < self.graph.edge_seq().len() implies edge_to_dependency(
                    self.resolution.symbol_table(),
                    #[trigger] self.graph.edge_seq()[e],
                ) by {
                    if !before.contains(edge) && e == before.len() {
                        assert(self.graph.edge_seq()[e] == edge);
                    } else {
                        assert(self.graph.edge_seq()[e] == before[e]);
                    }
                }
            }
        }
    }

    /// The owner of a statement: below the module level the enclosing
    /// owner, at it a new statement node (none once 32-bit numbers run out).
    fn statement_owner(&mut self, module_scope: bool, kind: DependencyNodeKind, span: Range<usize>) -> (owner:
        Option<DependencyNodeId>)
        requires
            old(self).wf(),
            kind != DependencyNodeKind::External,
        ensures
            final(self).wf(),
            final(self).owner == old(self).owner,
            final(self).resolution == old(self).resolution,
            final(self).keeps_defined(&*old(self)),
            final(self).edge_kept(&*old(self)),
            !module_scope ==> owner == old(self).owner && final(self).next_statement == old(self).next_statement,
            module_scope && old(self).next_statement < u32::MAX ==> final(self).next_statement
                == old(self).next_statement + 1 && defines(
                final(self).graph.node_seq(),
                DependencyNodeId::Statement(
                    StatementId { module: old(self).resolution.module_id(), index: old(self).next_statement },
                ),
            ),
            module_scope && old(self).next_statement == u32::MAX ==> final(self).next_statement
                == old(self).next_statement,
            module_scope ==> owner == module_statement_owner(
                old(self).resolution.module_id(),
                old(self).next_statement as int,
            ),
    {
        if !module_scope {
            return self.owner;
        }
        if self.next_statement == u32::MAX {
            return None;
        }
        let id = DependencyNodeId::Statement(StatementId { module: self.resolution.module(), index: self.next_statement });
        self.next_statement = self.next_statement + 1;
        let ghost before_nodes = self.graph.node_seq();
        self.graph.define_node(id, kind, span);
        proof {
            lemma_insert_node_defines(before_nodes, DependencyNode { id, kind, span: Some(span) });
        }
        Some(id)
    }

    #[verifier::rlimit(50)]
    fn visit_statements(&mut self, statements: &Statements<'_>, module_scope: bool)
        requires
            old(self).wf(),
        ensures
            final(self).wf(),
            final(self).owner == old(self).owner,
            final(self).resolution == old(self).resolution,
            final(self).keeps_defined(&*old(self)),
            final(self).edge_kept(&*old(self)),
            !module_scope ==> final(self).next_statement == old(self).next_statement,
            module_scope ==> forall|i: int|
                0 <= i < statements.statements@.len() ==> statement_defined(
                    *final(self).resolution,
                    final(self).graph.node_seq(),
                    #[trigger] statements.statements@[i],
                    old(self).next_statement + numbered_before(statements.statements@, i),
                ),
            final(self).graph.edge_seq().len() < usize::MAX ==> forall|i: int|
                0 <= i < statements.statements@.len() ==> statement_uses_recorded(
                    *final(self).resolution,
                    final(self).graph.edge_seq(),
                    if module_scope {
                        module_statement_owner(
                            old(self).resolution.module_id(),
                            old(self).next_statement + numbered_before(statements.statements@, i),
                        )
                    } else {
                        old(self).owner
                    },
                    #[trigger] statements.statements@[i],
                ),
        decreases statements,
    {
        let ghost resolution = *self.resolution;
        let ghost list = statements.statements@;
        let ghost first = old(self).next_statement as int;
        let mut index: usize = 0;
        while index < statements.statements.len()
            invariant
                self.wf(),
                self.owner == old(self).owner,
                self.resolution == old(self).resolution,
                self.keeps_defined(&*old(self)),
                self.edge_kept(&*old(self)),
                resolution == *self.resolution,
                list == statements.statements@,
                first == old(self).next_statement,
                index <= list.len(),
                !module_scope ==> self.next_statement == old(self).next_statement,
                module_scope ==> self.next_statement == if first + numbered_before(list, index as int) < u32::MAX {
                    first + numbered_before(list, index as int)
                } else {
                    u32::MAX as int
                },
                module_scope ==> forall|i: int|
                    0 <= i < index ==> statement_defined(
                        resolution,
                        self.graph.node_seq(),
                        #[trigger] list[i],
                        first + numbered_before(list, i),
                    ),
                self.graph.edge_seq().len() < usize::MAX ==> forall|i: int|
                    0 <= i < index ==> statement_uses_recorded(
                        resolution,
                        self.graph.edge_seq(),
                        if module_scope {
                            module_statement_owner(resolution.module_id(), first + numbered_before(list, i))
                        } else {
                            old(self).owner
                        },
                        #[trigger] list[i],
                    ),
            decreases statements.statements@.len() - index,
        {
            proof {
                assert(decreases_to!(statements => statements.statements@[index as int]));
            }
            let ghost before = *self;
            self.visit_statement(&statements.statements[index], module_scope);
            proof {
                Self::lemma_keeps_trans(&*old(self), &before, &*self);
                if self.graph.edge_seq().len() < usize::MAX {
                    if module_scope {
                        assert(module_statement_owner(resolution.module_id(), before.next_statement as int)
                            == module_statement_owner(resolution.module_id(), first + numbered_before(list, index as int)));
                    }
                    assert forall|i: int| 0 <= i < index + 1 implies statement_uses_recorded(
                        resolution,
                        self.graph.edge_seq(),
                        if module_scope {
                            module_statement_owner(resolution.module_id(), first + numbered_before(list, i))
                        } else {
                            old(self).owner
                        },
                        #[trigger] list[i],
                    ) by {
                        if i < index {
                            Self::lemma_statement_recorded_kept(
                                &before,
                                &*self,
                                if module_scope {
                                    module_statement_owner(resolution.module_id(), first + numbered_before(list, i))
                                } else {
                                    old(self).owner
                                },
                                list[i],
                            );
                        }
                    }
                }
                if module_scope {
                    let count = numbered_before(list, index as int);
                    assert(numbered_before(list, index + 1) == count + if numbered(list[index as int]) {
                        1int
                    } else {
                        0int
                    });
                    assert forall|i: int| 0 <= i < index + 1 implies statement_defined(
                        resolution,
                        self.graph.node_seq(),
                        #[trigger] list[i],
                        first + numbered_before(list, i),
                    ) by {
                        if i < index {
                            lemma_statement_defined_grows(
                                resolution,
                                before.graph.node_seq(),
                                self.graph.node_seq(),
                                list[i],
                                first + numbered_before(list, i),
                            );
                        } else {
                            assert(statement_defined(
                                resolution,
                                self.graph.node_seq(),
                                list[i],
                                before.next_statement as int,
                            ));
                            if first + count >= u32::MAX {
                                assert(before.next_statement == u32::MAX);
                            }
                        }
                    }
                }
            }
            index += 1;
        }
    }

    fn visit_statement(&mut self, statement: &Statement<'_>, module_scope: bool)
        requires
            old(self).wf(),
        ensures
            final(self).wf(),
            final(self).owner == old(self).owner,
            final(self).resolution == old(self).resolution,
            final(self).keeps_defined(&*old(self)),
            final(self).edge_kept(&*old(self)),
            !module_scope || !numbered(*statement) ==> final(self).next_statement == old(self).next_statement,
            module_scope && numbered(*statement) ==> final(self).next_statement == if old(self).next_statement
                < u32::MAX {
                old(self).next_statement + 1
            } else {
                old(self).next_statement as int
            },
            module_scope ==> statement_defined(
                *final(self).resolution,
                final(self).graph.node_seq(),
                *statement,
                old(self).next_statement as int,
            ),
            final(self).graph.edge_seq().len() < usize::MAX ==> statement_uses_recorded(
                *final(self).resolution,
                final(self).graph.edge_seq(),
                if module_scope {
                    module_statement_owner(old(self).resolution.module_id(), old(self).next_statement as int)
                } else {
                    old(self).owner
                },
                *statement,
            ),
        decreases statement,
    {
        let previous = self.owner;
        let ghost resolution = *self.resolution;
        match statement {
            Statement::ImportStatement(_) | Statement::TypeDefine(_) | Statement::UseDeclare(_) => {},
            Statement::EnumDefine(node) => {
                let mut index: usize = 0;
                while index < node.variants.len()
                    invariant
                        self.wf(),
                        self.owner == previous,
                        self.resolution == old(self).resolution,
                        self.keeps_defined(&*old(self)),
                        self.edge_kept(&*old(self)),
                        self.next_statement == old(self).next_statement,
                        *statement == Statement::EnumDefine(*node),
                        resolution == *self.resolution,
                        index <= node.variants@.len(),
                        forall|k: int|
                            0 <= k < index ==> (declared_variant(resolution, (#[trigger] node.variants@[k]).name) matches Some(
                                variant,
                            ) ==> defines(self.graph.node_seq(), DependencyNodeId::Variant(variant))),
                    decreases node.variants@.len() - index,
                {
                    proof {
                        assert(decreases_to!(*statement => statement->EnumDefine_0));
                        assert(decreases_to!(**node => node.variants@[index as int]));
                    }
                    let ghost before = *self;
                    let variant = &node.variants[index];
                    if let Some(Declaration::EnumVariant(id)) = self.resolution.declaration_of_literal(&variant.name) {
                        let id = DependencyNodeId::Variant(id);
                        let span = copy_range(&variant.span);
                        self.graph.define_node(id, DependencyNodeKind::EnumVariant, span);
                        proof {
                            lemma_insert_node_defines(
                                before.graph.node_seq(),
                                DependencyNode { id, kind: DependencyNodeKind::EnumVariant, span: Some(span) },
                            );
                        }
                        let ghost defined = *self;
                        if let Some(value) = &variant.value {
                            self.owner = Some(id);
                            let ghost owned = *self;
                            self.visit_expression(value);
                            proof {
                                Self::lemma_keeps_trans(&defined, &owned, &*self);
                            }
                            self.owner = previous;
                        }
                        proof {
                            Self::lemma_keeps_trans(&before, &defined, &*self);
                            assert(defines(defined.graph.node_seq(), id));
                            assert(declared_variant(resolution, node.variants@[index as int].name) == Some(id->Variant_0));
                        }
                    }
                    proof {
                        assert forall|k: int| 0 <= k < index + 1 implies (declared_variant(
                            resolution,
                            (#[trigger] node.variants@[k]).name,
                        ) matches Some(variant) ==> defines(self.graph.node_seq(), DependencyNodeId::Variant(variant))) by {
                            if k < index {
                                if let Some(variant) = declared_variant(resolution, node.variants@[k].name) {
                                    assert(defines(before.graph.node_seq(), DependencyNodeId::Variant(variant)));
                                }
                            }
                        }
                    }
                    index += 1;
                }
            },
            Statement::InterfaceDefine(node) => {
                let mut index: usize = 0;
                while index < node.methods.len()
                    invariant
                        self.wf(),
                        self.owner == previous,
                        self.resolution == old(self).resolution,
                        self.keeps_defined(&*old(self)),
                        self.edge_kept(&*old(self)),
                        self.next_statement == old(self).next_statement,
                        *statement == Statement::InterfaceDefine(*node),
                        resolution == *self.resolution,
                        index <= node.methods@.len(),
                        forall|k: int|
                            0 <= k < index ==> function_defined(resolution, self.graph.node_seq(), #[trigger] node.methods@[k]),
                    decreases node.methods@.len() - index,
                {
                    proof {
                        assert(decreases_to!(*statement => statement->InterfaceDefine_0));
                        assert(decreases_to!(**node => node.methods@[index as int]));
                    }
                    let ghost before = *self;
                    self.visit_function(&node.methods[index]);
                    proof {
                        assert forall|k: int| 0 <= k < index + 1 implies function_defined(
                            resolution,
                            self.graph.node_seq(),
                            #[trigger] node.methods@[k],
                        ) by {
                            if k < index {
                                assert(function_defined(resolution, before.graph.node_seq(), node.methods@[k]));
                                if let Some(symbol) = declared_symbol(resolution, node.methods@[k].name) {
                                    assert(defines(before.graph.node_seq(), DependencyNodeId::Symbol(symbol)));
                                }
                            }
                        }
                    }
                    index += 1;
                }
            },
            Statement::ImplementsDefine(node) => {
                let mut index: usize = 0;
                while index < node.methods.len()
                    invariant
                        self.wf(),
                        self.owner == previous,
                        self.resolution == old(self).resolution,
                        self.keeps_defined(&*old(self)),
                        self.edge_kept(&*old(self)),
                        self.next_statement == old(self).next_statement,
                        *statement == Statement::ImplementsDefine(*node),
                        resolution == *self.resolution,
                        index <= node.methods@.len(),
                        forall|k: int|
                            0 <= k < index ==> function_defined(resolution, self.graph.node_seq(), #[trigger] node.methods@[k]),
                    decreases node.methods@.len() - index,
                {
                    proof {
                        assert(decreases_to!(*statement => statement->ImplementsDefine_0));
                        assert(decreases_to!(**node => node.methods@[index as int]));
                    }
                    let ghost before = *self;
                    self.visit_function(&node.methods[index]);
                    proof {
                        assert forall|k: int| 0 <= k < index + 1 implies function_defined(
                            resolution,
                            self.graph.node_seq(),
                            #[trigger] node.methods@[k],
                        ) by {
                            if k < index {
                                assert(function_defined(resolution, before.graph.node_seq(), node.methods@[k]));
                                if let Some(symbol) = declared_symbol(resolution, node.methods@[k].name) {
                                    assert(defines(before.graph.node_seq(), DependencyNodeId::Symbol(symbol)));
                                }
                            }
                        }
                    }
                    index += 1;
                }
            },
            Statement::LetStatement(node) => {
                if let Some(Declaration::Symbol(symbol)) = self.resolution.declaration_of_literal(&node.name) {
                    let id = DependencyNodeId::Symbol(symbol);
                    let ghost before_nodes = self.graph.node_seq();
                    let span = copy_range(&node.span);
                    self.graph.define_node(id, DependencyNodeKind::Let, span);
                    proof {
                        lemma_insert_node_defines(
                            before_nodes,
                            DependencyNode { id, kind: DependencyNodeKind::Let, span: Some(span) },
                        );
                    }
                    let ghost defined = *self;
                    if let Some(value) = &node.value {
                        self.owner = Some(id);
                        let ghost owned = *self;
                        self.visit_expression(value);
                        proof {
                            Self::lemma_keeps_trans(&defined, &owned, &*self);
                        }
                        self.owner = previous;
                    }
                    proof {
                        Self::lemma_keeps_trans(&*old(self), &defined, &*self);
                        assert(defines(defined.graph.node_seq(), id));
                    }
                }
            },
            Statement::AssertStatement(node) => {
                let owner = self.statement_owner(module_scope, DependencyNodeKind::Assert, copy_range(&node.span));
                let ghost numbered_state = *self;
                self.owner = owner;
                let ghost s1 = *self;
                self.visit_expression(&node.condition);
                proof {
                    Self::lemma_keeps_trans(&numbered_state, &s1, &*self);
                }
                if let Some(message) = &node.message {
                    let ghost s2 = *self;
                    self.visit_expression(message);
                    proof {
                        Self::lemma_keeps_trans(&numbered_state, &s2, &*self);
                        if self.graph.edge_seq().len() < usize::MAX {
                            Self::lemma_expression_recorded_kept(&s2, &*self, s2.owner, *node.condition);
                        }
                    }
                }
                self.owner = previous;
                proof {
                    Self::lemma_keeps_trans(&*old(self), &numbered_state, &*self);
                }
            },
            Statement::AssignStatement(node) => {
                let owner = self.statement_owner(
                    module_scope,
                    DependencyNodeKind::Assignment,
                    copy_range(&node.span),
                );
                let ghost numbered_state = *self;
                self.owner = owner;
                let ghost s1 = *self;
                self.visit_expression(&node.target);
                proof {
                    Self::lemma_keeps_trans(&numbered_state, &s1, &*self);
                }
                let ghost s2 = *self;
                self.visit_assign_value(&node.value);
                proof {
                    Self::lemma_keeps_trans(&numbered_state, &s2, &*self);
                    if self.graph.edge_seq().len() < usize::MAX {
                        Self::lemma_expression_recorded_kept(&s2, &*self, s2.owner, *node.target);
                    }
                }
                self.owner = previous;
                proof {
                    Self::lemma_keeps_trans(&*old(self), &numbered_state, &*self);
                }
            },
            Statement::FunctionDefine(node) => self.visit_function(node),
            Statement::Expression(expression) => {
                let owner = self.statement_owner(module_scope, DependencyNodeKind::Expression, expression.span());
                let ghost numbered_state = *self;
                self.owner = owner;
                let ghost s1 = *self;
                self.visit_expression(expression);
                proof {
                    Self::lemma_keeps_trans(&numbered_state, &s1, &*self);
                }
                self.owner = previous;
                proof {
                    Self::lemma_keeps_trans(&*old(self), &numbered_state, &*self);
                }
            },
        }
    }

    fn visit_assign_value(&mut self, value: &AssignValue<'_>)
        requires
            old(self).wf(),
        ensures
            final(self).graph.edge_seq().len() < usize::MAX ==> (value matches AssignValue::Expression(e) ==> final(self).expression_recorded(**e)),
            final(self).wf(),
            final(self).owner == old(self).owner,
            final(self).resolution == old(self).resolution,
            final(self).keeps_defined(&*old(self)),
            final(self).edge_kept(&*old(self)),
            final(self).next_statement == old(self).next_statement,
        decreases value,
    {
        match value {
            AssignValue::Expression(expression) => self.visit_expression(expression),
            AssignValue::Nested(nested) => {
                let mut index: usize = 0;
                while index < nested.fields.len()
                    invariant
                        self.wf(),
                        self.owner == old(self).owner,
                        self.resolution == old(self).resolution,
                        self.keeps_defined(&*old(self)),
                        self.edge_kept(&*old(self)),
                        self.next_statement == old(self).next_statement,
                        *value == AssignValue::Nested(*nested),
                    decreases nested.fields@.len() - index,
                {
                    proof {
                        assert(decreases_to!(*value => value->Nested_0));
                        assert(decreases_to!(**nested => nested.fields@[index as int]));
                    }
                    self.visit_assign_value(&nested.fields[index].value);
                    index += 1;
                }
            },
        }
    }

    /// A function is a node of its own; its body's uses are its
    /// dependencies.
    fn visit_function(&mut self, function: &FunctionDefine<'_>)
        requires
            old(self).wf(),
        ensures
            final(self).wf(),
            final(self).owner == old(self).owner,
            final(self).resolution == old(self).resolution,
            final(self).keeps_defined(&*old(self)),
            final(self).edge_kept(&*old(self)),
            final(self).next_statement == old(self).next_statement,
            function_defined(*final(self).resolution, final(self).graph.node_seq(), *function),
        decreases function,
    {
        if let Some(Declaration::Symbol(symbol)) = self.resolution.declaration_of_literal(&function.name) {
            let id = DependencyNodeId::Symbol(symbol);
            let ghost before_nodes = self.graph.node_seq();
            let span = copy_range(&function.span);
            self.graph.define_node(id, DependencyNodeKind::Function, span);
            proof {
                lemma_insert_node_defines(
                    before_nodes,
                    DependencyNode { id, kind: DependencyNodeKind::Function, span: Some(span) },
                );
            }
            let previous = self.owner;
            self.owner = Some(id);
            self.visit_statements(&function.body.statements, false);
            self.owner = previous;
        }
    }

    fn visit_expression(&mut self, expression: &Expression<'_>)
        requires
            old(self).wf(),
        ensures
            final(self).graph.edge_seq().len() < usize::MAX ==> final(self).expression_recorded(*expression),
            final(self).wf(),
            final(self).owner == old(self).owner,
            final(self).resolution == old(self).resolution,
            final(self).keeps_defined(&*old(self)),
            final(self).edge_kept(&*old(self)),
            final(self).next_statement == old(self).next_statement,
        decreases expression,
    {
        match expression {
            Expression::If(node) => {
                self.visit_expression(&node.branch.condition);
                let ghost conditioned = *self;
                self.visit_statements(&node.branch.body.statements, false);
                proof {
                    if self.graph.edge_seq().len() < usize::MAX {
                        Self::lemma_expression_recorded_kept(&conditioned, &*self, self.owner, *node.branch.condition);
                    }
                }
                let mut index: usize = 0;
                while index < node.else_branches.len()
                    invariant
                        self.wf(),
                        self.owner == old(self).owner,
                        self.resolution == old(self).resolution,
                        self.keeps_defined(&*old(self)),
                        self.edge_kept(&*old(self)),
                        self.next_statement == old(self).next_statement,
                        *expression == Expression::If(*node),
                        index <= node.else_branches@.len(),
                        self.graph.edge_seq().len() < usize::MAX ==> self.expression_recorded(*node.branch.condition),
                        self.graph.edge_seq().len() < usize::MAX ==> forall|k: int|
                            0 <= k < index ==> ((#[trigger] node.else_branches@[k]).value matches ElseBranchValue::If(
                                branch,
                            ) ==> self.expression_recorded(*branch.condition)),
                    decreases node.else_branches@.len() - index,
                {
                    proof {
                        assert(decreases_to!(*expression => expression->If_0));
                        assert(decreases_to!(**node => node.else_branches@[index as int]));
                    }
                    let ghost before = *self;
                    match &node.else_branches[index].value {
                        ElseBranchValue::If(branch) => {
                            self.visit_expression(&branch.condition);
                            let ghost mid = *self;
                            self.visit_statements(&branch.body.statements, false);
                            proof {
                                if self.graph.edge_seq().len() < usize::MAX {
                                    Self::lemma_expression_recorded_kept(&mid, &*self, self.owner, *branch.condition);
                                }
                            }
                        },
                        ElseBranchValue::Block(block) => {
                            self.visit_statements(&block.statements, false);
                        },
                    }
                    proof {
                        if self.graph.edge_seq().len() < usize::MAX {
                            Self::lemma_keeps_trans(&*old(self), &before, &*self);
                            Self::lemma_expression_recorded_kept(&before, &*self, self.owner, *node.branch.condition);
                            assert forall|k: int| 0 <= k < index + 1 implies ((#[trigger] node.else_branches@[k]).value matches ElseBranchValue::If(
                                branch,
                            ) ==> self.expression_recorded(*branch.condition)) by {
                                if k < index {
                                    if let ElseBranchValue::If(branch) = node.else_branches@[k].value {
                                        Self::lemma_expression_recorded_kept(&before, &*self, self.owner, *branch.condition);
                                    }
                                }
                            }
                        }
                    }
                    index += 1;
                }
                proof {
                    if self.graph.edge_seq().len() < usize::MAX {
                        assert(expression_uses_recorded(*self.resolution, self.graph.edge_seq(), self.owner, *expression));
                    }
                }
            },
            Expression::Match(node) => {
                self.visit_expression(&node.value);
                let mut index: usize = 0;
                while index < node.arms.len()
                    invariant
                        self.wf(),
                        self.owner == old(self).owner,
                        self.resolution == old(self).resolution,
                        self.keeps_defined(&*old(self)),
                        self.edge_kept(&*old(self)),
                        self.next_statement == old(self).next_statement,
                        *expression == Expression::Match(*node),
                        index <= node.arms@.len(),
                        self.graph.edge_seq().len() < usize::MAX ==> self.expression_recorded(*node.value),
                        self.graph.edge_seq().len() < usize::MAX ==> forall|k: int|
                            0 <= k < index ==> self.pattern_recorded((#[trigger] node.arms@[k]).pattern)
                                && self.expression_recorded(*node.arms@[k].value),
                    decreases node.arms@.len() - index,
                {
                    proof {
                        assert(decreases_to!(*expression => expression->Match_0));
                        assert(decreases_to!(**node => node.arms@[index as int]));
                    }
                    let ghost before = *self;
                    self.visit_match_arm(&node.arms[index]);
                    proof {
                        if self.graph.edge_seq().len() < usize::MAX {
                            Self::lemma_expression_recorded_kept(&before, &*self, self.owner, *node.value);
                            assert forall|k: int| 0 <= k < index + 1 implies self.pattern_recorded(
                                (#[trigger] node.arms@[k]).pattern,
                            ) && self.expression_recorded(*node.arms@[k].value) by {
                                if k < index {
                                    Self::lemma_pattern_recorded_kept(&before, &*self, self.owner, node.arms@[k].pattern);
                                    Self::lemma_expression_recorded_kept(&before, &*self, self.owner, *node.arms@[k].value);
                                } else {
                                    assert(node.arms@[k] == node.arms@[index as int]);
                                }
                            }
                        }
                    }
                    index += 1;
                }
            },
            Expression::Return(node) => {
                if let Some(value) = &node.value {
                    self.visit_expression(value);
                }
            },
            Expression::Throw(node) => {
                if let Some(message) = &node.message {
                    self.visit_expression(message);
                }
            },
            Expression::Closure(node) => match &node.body {
                ClosureBody::Expression(body) => self.visit_expression(body),
                ClosureBody::Block(block) => self.visit_statements(&block.statements, false),
            },
            Expression::Elvis(node) => {
                self.visit_expression(&node.optional);
                let ghost mid = *self;
                self.visit_expression(&node.fallback);
                proof {
                    if self.graph.edge_seq().len() < usize::MAX {
                        Self::lemma_expression_recorded_kept(&mid, &*self, mid.owner, *node.optional);
                    }
                }
            },
            Expression::Binary(node) => {
                self.visit_expression(&node.left);
                let ghost mid = *self;
                self.visit_expression(&node.right);
                proof {
                    if self.graph.edge_seq().len() < usize::MAX {
                        Self::lemma_expression_recorded_kept(&mid, &*self, mid.owner, *node.left);
                    }
                }
            },
            Expression::Unary(node) => self.visit_expression(&node.operand),
            Expression::Primary(primary) => self.visit_primary(primary),
        }
    }

    fn visit_match_arm(&mut self, arm: &MatchArm<'_>)
        requires
            old(self).wf(),
        ensures
            final(self).graph.edge_seq().len() < usize::MAX ==> final(self).pattern_recorded(arm.pattern) && final(self).expression_recorded(*arm.value),
            final(self).wf(),
            final(self).owner == old(self).owner,
            final(self).resolution == old(self).resolution,
            final(self).keeps_defined(&*old(self)),
            final(self).edge_kept(&*old(self)),
            final(self).next_statement == old(self).next_statement,
        decreases arm,
    {
        self.visit_pattern(&arm.pattern);
        let ghost mid = *self;
        self.visit_expression(&arm.value);
        proof {
            if self.graph.edge_seq().len() < usize::MAX {
                Self::lemma_pattern_recorded_kept(&mid, &*self, mid.owner, arm.pattern);
            }
        }
    }

    /// An enum variant a pattern matches is a dependency.
    fn visit_pattern(&mut self, pattern: &Pattern<'_>)
        requires
            old(self).wf(),
        ensures
            final(self).graph.edge_seq().len() < usize::MAX ==> final(self).pattern_recorded(*pattern),
            final(self).wf(),
            final(self).owner == old(self).owner,
            final(self).resolution == old(self).resolution,
            final(self).keeps_defined(&*old(self)),
            final(self).edge_kept(&*old(self)),
            final(self).next_statement == old(self).next_statement,
        decreases pattern,
    {
        match pattern {
            Pattern::SomePattern(node) => self.visit_pattern(&node.pattern),
            Pattern::EnumVariant(node) => self.record_literal(&node.variant, DependencyEdgeKind::Reference),
            Pattern::Null(_) | Pattern::Wildcard(_) | Pattern::Binding(_) => {},
        }
    }

    fn visit_primary(&mut self, primary: &Primary<'_>)
        requires
            old(self).wf(),
        ensures
            final(self).graph.edge_seq().len() < usize::MAX ==> final(self).primary_recorded(*primary),
            final(self).wf(),
            final(self).owner == old(self).owner,
            final(self).resolution == old(self).resolution,
            final(self).keeps_defined(&*old(self)),
            final(self).edge_kept(&*old(self)),
            final(self).next_statement == old(self).next_statement,
        decreases primary,
    {
        self.visit_value(&primary.value);
        let mut index: usize = 0;
        while index < primary.accesses.len()
            invariant
                self.wf(),
                self.owner == old(self).owner,
                self.resolution == old(self).resolution,
                self.keeps_defined(&*old(self)),
                self.edge_kept(&*old(self)),
                self.next_statement == old(self).next_statement,
                index <= primary.accesses@.len(),
                self.graph.edge_seq().len() < usize::MAX ==> self.value_recorded(primary.value),
                self.graph.edge_seq().len() < usize::MAX ==> forall|k: int|
                    0 <= k < index ==> self.records(
                        (#[trigger] primary.accesses@[k]).member,
                        use_kind(primary.accesses@[k].call is Some),
                    ),
            decreases primary.accesses@.len() - index,
        {
            proof {
                assert(decreases_to!(primary => primary.accesses@[index as int]));
            }
            let ghost start = *self;
            let access = &primary.accesses[index];
            let kind = if access.call.is_some() {
                DependencyEdgeKind::Call
            } else {
                DependencyEdgeKind::Reference
            };
            self.record_literal(&access.member, kind);
            let ghost mid = *self;
            if let Some(call) = &access.call {
                self.visit_call(call);
            }
            proof {
                Self::lemma_keeps_trans(&start, &mid, &*self);
                if self.graph.edge_seq().len() < usize::MAX {
                    Self::lemma_value_recorded_kept(&start, &*self, start.owner, primary.value);
                    Self::lemma_records_kept(&mid, &*self, mid.owner, access.member, kind);
                    assert forall|k: int| 0 <= k < index + 1 implies self.records(
                        (#[trigger] primary.accesses@[k]).member,
                        use_kind(primary.accesses@[k].call is Some),
                    ) by {
                        if k < index {
                            Self::lemma_records_kept(&start, &*self, start.owner,
                                primary.accesses@[k].member,
                                use_kind(primary.accesses@[k].call is Some),
                            );
                        }
                    }
                }
            }
            index += 1;
        }
    }

    fn visit_value(&mut self, value: &Value<'_>)
        requires
            old(self).wf(),
        ensures
            final(self).graph.edge_seq().len() < usize::MAX ==> final(self).value_recorded(*value),
            final(self).wf(),
            final(self).owner == old(self).owner,
            final(self).resolution == old(self).resolution,
            final(self).keeps_defined(&*old(self)),
            final(self).edge_kept(&*old(self)),
            final(self).next_statement == old(self).next_statement,
        decreases value,
    {
        match value {
            Value::Array(array) => self.visit_array(array),
            Value::Literal(literal) => {
                let kind = if literal.call.is_some() {
                    DependencyEdgeKind::Call
                } else {
                    DependencyEdgeKind::Reference
                };
                self.record_literal(&literal.literal, kind);
                let ghost mid = *self;
                if let Some(call) = &literal.call {
                    self.visit_call(call);
                }
                proof {
                    if self.graph.edge_seq().len() < usize::MAX {
                        Self::lemma_records_kept(&mid, &*self, mid.owner, literal.literal, kind);
                    }
                }
            },
            Value::SomeValue(node) => {
                if let Some(inner) = &node.value {
                    self.visit_expression(inner);
                }
            },
            Value::Numeric(_) | Value::String(_) | Value::Boolean(_) | Value::Null(_) => {},
        }
    }

    fn visit_array(&mut self, array: &Array<'_>)
        requires
            old(self).wf(),
        ensures
            final(self).graph.edge_seq().len() < usize::MAX ==> forall|k: int| 0 <= k < array.values@.len() ==> final(self).value_recorded(#[trigger] array.values@[k]),
            final(self).wf(),
            final(self).owner == old(self).owner,
            final(self).resolution == old(self).resolution,
            final(self).keeps_defined(&*old(self)),
            final(self).edge_kept(&*old(self)),
            final(self).next_statement == old(self).next_statement,
        decreases array,
    {
        let mut index: usize = 0;
        while index < array.values.len()
            invariant
                self.wf(),
                self.owner == old(self).owner,
                self.resolution == old(self).resolution,
                self.keeps_defined(&*old(self)),
                self.edge_kept(&*old(self)),
                self.next_statement == old(self).next_statement,
                index <= array.values@.len(),
                self.graph.edge_seq().len() < usize::MAX ==> forall|k: int|
                    0 <= k < index ==> self.value_recorded(#[trigger] array.values@[k]),
            decreases array.values@.len() - index,
        {
            proof {
                assert(decreases_to!(array => array.values@[index as int]));
            }
            let ghost start = *self;
            self.visit_value(&array.values[index]);
            proof {
                if self.graph.edge_seq().len() < usize::MAX {
                    assert forall|k: int| 0 <= k < index + 1 implies self.value_recorded(
                        #[trigger] array.values@[k],
                    ) by {
                        if k < index {
                            Self::lemma_value_recorded_kept(&start, &*self, start.owner, array.values@[k]);
                        }
                    }
                }
            }
            index += 1;
        }
    }

    fn visit_call(&mut self, call: &FunctionCall<'_>)
        requires
            old(self).wf(),
        ensures
            final(self).graph.edge_seq().len() < usize::MAX ==> forall|k: int| 0 <= k < call.arguments@.len() ==> final(self).expression_recorded(#[trigger] call.arguments@[k]),
            final(self).wf(),
            final(self).owner == old(self).owner,
            final(self).resolution == old(self).resolution,
            final(self).keeps_defined(&*old(self)),
            final(self).edge_kept(&*old(self)),
            final(self).next_statement == old(self).next_statement,
        decreases call,
    {
        let mut index: usize = 0;
        while index < call.arguments.len()
            invariant
                self.wf(),
                self.owner == old(self).owner,
                self.resolution == old(self).resolution,
                self.keeps_defined(&*old(self)),
                self.edge_kept(&*old(self)),
                self.next_statement == old(self).next_statement,
                index <= call.arguments@.len(),
                self.graph.edge_seq().len() < usize::MAX ==> forall|k: int|
                    0 <= k < index ==> self.expression_recorded(#[trigger] call.arguments@[k]),
            decreases call.arguments@.len() - index,
        {
            proof {
                assert(decreases_to!(call => call.arguments@[index as int]));
            }
            let ghost start = *self;
            self.visit_expression(&call.arguments[index]);
            proof {
                if self.graph.edge_seq().len() < usize::MAX {
                    assert forall|k: int| 0 <= k < index + 1 implies self.expression_recorded(
                        #[trigger] call.arguments@[k],
                    ) by {
                        if k < index {
                            Self::lemma_expression_recorded_kept(&start, &*self, start.owner, call.arguments@[k]);
                        }
                    }
                }
            }
            index += 1;
        }
    }
}

} // verus!
