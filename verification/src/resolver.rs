//! Name resolution of one module: collecting its declarations, then
//! resolving every name it uses.

use std::ops::Range;

use vstd::prelude::*;

use crate::ast::{
    AccessOperator, Array, AssignValue, Block, ClosureBody, ClosureExpression, ElseBranchValue, Expression,
    FunctionArgument, FunctionCall, ImplementsDefine, MatchArm, Primary, Value,
    EnumDefine, ExplicitTypeArgument, ExplicitTypeArguments, FunctionDefine, GenericParameters, ImportElement, ImportKind, ImportStatement, InterfaceDefine, LetStatement, Literal, Source, Statement, Statements,
    Pattern, TypeDefine, TypeInfo, TypedefBlock, TypedefValue, WhereClause, AST,
};
use crate::names::{
    earliest, latest, position_of_node, AstId, AstKind, BuiltinType, Declaration, FieldId, GenericParameterId, ModuleId,
    NameId, NameResolveError, NameResolveErrorKind, Namespace, Res, ScopeId, ScopeKind,
    SymbolId, SymbolKind, TypeDefId, TypeDefKind, VariantId,
};
use crate::scope::{
    copy_span, keyed_by_text, Binding, ExportedBinding, ImportEnvironment, ModuleInterface, NameInterner, Scope,
};

verus! {

/// A value-level declaration.
#[derive(Debug)]
pub struct Symbol {
    pub id: SymbolId,
    pub name: NameId,
    pub kind: SymbolKind,
    pub declaration: AstId,
    pub span: Range<usize>,
    pub exported: bool,
}

/// A record, enum or interface declaration; anonymous for a nested record.
#[derive(Debug)]
pub struct TypeDef {
    pub id: TypeDefId,
    pub name: Option<NameId>,
    pub kind: TypeDefKind,
    pub declaration: AstId,
    pub span: Range<usize>,
    pub fields: Vec<FieldId>,
    pub variants: Vec<VariantId>,
    pub exported: bool,
}

#[derive(Debug)]
pub struct Field {
    pub id: FieldId,
    pub owner: TypeDefId,
    pub name: NameId,
    pub declaration: AstId,
    pub span: Range<usize>,
    pub nested_type: Option<TypeDefId>,
}

#[derive(Debug)]
pub struct Variant {
    pub id: VariantId,
    pub owner: TypeDefId,
    pub name: NameId,
    pub declaration: AstId,
    pub span: Range<usize>,
}

#[derive(Debug)]
pub struct GenericParameter {
    pub id: GenericParameterId,
    pub name: NameId,
    pub declaration: AstId,
    pub span: Range<usize>,
}

/// The number of entries a declaration table holds at most: every index
/// below it fits in 32 bits, and `u32::MAX` itself numbers nothing.
pub const TABLE_CAPACITY: usize = 0xffff_ffff;

/// A table index as the 32-bit number that identifiers carry.
pub fn index_u32(index: usize) -> (number: u32)
    requires
        index <= u32::MAX,
    ensures
        number == index,
{
    index as u32
}

/// What `name` resolves to from `scope`: the binding of the nearest scope
/// on the chain of enclosing scopes that binds it.
pub open spec fn lookup_from(scopes: Seq<Scope>, scope: int, namespace: Namespace, name: NameId) -> Option<Res>
    decreases scope,
{
    if !(0 <= scope < scopes.len()) {
        None
    } else {
        match scopes[scope].resolution_of(namespace, name) {
            Some(resolution) => Some(resolution),
            None => match scopes[scope].parent {
                Some(parent) => if parent.0 < scope {
                    lookup_from(scopes, parent.0 as int, namespace, name)
                } else {
                    None
                },
                None => None,
            },
        }
    }
}

/// The scopes are numbered by position, each nested in an earlier one.
pub open spec fn scopes_wf(scopes: Seq<Scope>) -> bool {
    &&& 0 < scopes.len() <= TABLE_CAPACITY
    &&& forall|i: int|
        0 <= i < scopes.len() ==> #[trigger] scopes[i].id == ScopeId(i as u32) && match scopes[i].parent {
            Some(parent) => parent.0 < i,
            None => true,
        }
}

/// No name is bound twice in one namespace of a scope: every later entry
/// for a name already bound is `Res::Error`.
pub open spec fn entries_settled(entries: Seq<(NameId, Binding)>) -> bool {
    forall|k: int, j: int|
        0 <= k < j < entries.len() && (#[trigger] entries[k]).0 == (#[trigger] entries[j]).0
            ==> entries[j].1.resolution == Res::Error
}

/// Every namespace of every scope is settled.
pub open spec fn scopes_settled(scopes: Seq<Scope>) -> bool {
    forall|i: int, namespace: Namespace| 0 <= i < scopes.len() ==> entries_settled(#[trigger] scopes[i].entries(namespace))
}

/// A resolution names nothing that is missing: an id of `module` lies
/// within its table (`lens` are the table lengths: symbols, types, fields,
/// variants, generic parameters).
pub open spec fn names_existing(res: Res, module: ModuleId, lens: (nat, nat, nat, nat, nat)) -> bool {
    match res {
        Res::Symbol(id) => id.module != module || id.index < lens.0,
        Res::Type(id) => id.module != module || id.index < lens.1,
        Res::Field(id) => id.module != module || id.index < lens.2,
        Res::EnumVariant(id) => id.module != module || id.index < lens.3,
        Res::GenericParameter(id) => id.module != module || id.index < lens.4,
        _ => true,
    }
}

/// Every import of the environment comes from another module: what its
/// interfaces export are declarations of other modules than `module`.
pub open spec fn imports_foreign(imports: ImportEnvironment, module: ModuleId) -> bool {
    &&& forall|i: int| 0 <= i < imports.by_path@.len() ==> foreign_interface(#[trigger] imports.by_path@[i].1, module)
    &&& forall|i: int| 0 <= i < imports.by_id@.len() ==> foreign_interface(#[trigger] imports.by_id@[i].1, module)
}

/// What an interface exports are declarations of other modules than
/// `module`.
pub open spec fn foreign_interface(interface: ModuleInterface, module: ModuleId) -> bool {
    forall|k: int|
        0 <= k < interface.export_entries().len() ==> {
            &&& (#[trigger] interface.export_entries()[k]).1.value matches Some(id) ==> id.module != module
            &&& interface.export_entries()[k].1.ty matches Some(id) ==> id.module != module
        }
}

/// An export of an interface that exports only other modules' declarations
/// is one of those.
proof fn lemma_foreign_export(interface: ModuleInterface, module: ModuleId, name: Seq<char>)
    requires
        foreign_interface(interface, module),
    ensures
        interface.export_of(name) matches Some(export) ==> {
            &&& export.value matches Some(id) ==> id.module != module
            &&& export.ty matches Some(id) ==> id.module != module
        },
{
    crate::names::lemma_latest_in(interface.export_entries(), name);
    if let Some(export) = interface.export_of(name) {
        let k = choose|k: int| 0 <= k < interface.export_entries().len() && #[trigger] interface.export_entries()[k] == (name, export);
        assert(interface.export_entries()[k].1 == export);
    }
}

/// The interface an environment of foreign imports gives for a path is
/// foreign.
proof fn lemma_foreign_by_path(imports: ImportEnvironment, module: ModuleId, path: Seq<char>)
    requires
        imports_foreign(imports, module),
    ensures
        imports.interface_at_path(path) matches Some(interface) ==> foreign_interface(interface, module),
{
    crate::names::lemma_latest_in(keyed_by_text(imports.by_path@), path);
    if let Some(interface) = imports.interface_at_path(path) {
        let k = choose|k: int|
            0 <= k < keyed_by_text(imports.by_path@).len() && #[trigger] keyed_by_text(imports.by_path@)[k] == (path, interface);
        assert(keyed_by_text(imports.by_path@)[k].1 == imports.by_path@[k].1);
        assert(foreign_interface(imports.by_path@[k].1, module));
    }
}

/// The interface an environment of foreign imports gives for a module is
/// foreign.
proof fn lemma_foreign_by_id(imports: ImportEnvironment, module: ModuleId, id: ModuleId)
    requires
        imports_foreign(imports, module),
    ensures
        imports.interface_of(id) matches Some(interface) ==> foreign_interface(interface, module),
{
    crate::names::lemma_latest_in(imports.by_id@, id);
    if let Some(interface) = imports.interface_of(id) {
        let k = choose|k: int| 0 <= k < imports.by_id@.len() && #[trigger] imports.by_id@[k] == (id, interface);
        assert(foreign_interface(imports.by_id@[k].1, module));
    }
}

/// `errors` report what is wrong with an import statement: an unknown
/// module at the span of its path, and each name a known module does not
/// export at the span of that name, with the module.
pub open spec fn import_reported(imports: ImportEnvironment, errors: Seq<NameResolveError>, statement: Statement<'_>) -> bool {
    match statement {
        Statement::ImportStatement(import) => match imports.interface_at_path(import.path.value@) {
            None => errors.contains(NameResolveError { kind: NameResolveErrorKind::UnknownModule, span: import.path.span }),
            Some(interface) => match import.kind {
                ImportKind::Named(elements) => forall|k: int|
                    0 <= k < elements@.len() && interface.export_of((#[trigger] elements@[k]).name.value@) is None
                        ==> export_reported(errors, interface.module, elements@[k].name.span),
                _ => true,
            },
        },
        _ => true,
    }
}

/// `errors` report that `module` exports no name at `span`.
pub open spec fn export_reported(errors: Seq<NameResolveError>, module: ModuleId, span: Range<usize>) -> bool {
    exists|e: int| 0 <= e < errors.len() && reports_unknown_export(#[trigger] errors[e], module, span)
}

/// `error` reports that `module` exports no name at `span`.
pub open spec fn reports_unknown_export(error: NameResolveError, module: ModuleId, span: Range<usize>) -> bool {
    &&& error.span == span
    &&& match error.kind {
        NameResolveErrorKind::UnknownExport { module: reported, .. } => reported == module,
        _ => false,
    }
}

/// What an error list reports stays reported as errors are appended.
proof fn lemma_import_reported_grows(
    imports: ImportEnvironment,
    before: Seq<NameResolveError>,
    after: Seq<NameResolveError>,
    statement: Statement<'_>,
)
    requires
        import_reported(imports, before, statement),
        before.len() <= after.len(),
        forall|i: int| 0 <= i < before.len() ==> #[trigger] after[i] == before[i],
    ensures
        import_reported(imports, after, statement),
{
    if let Statement::ImportStatement(import) = statement {
        match imports.interface_at_path(import.path.value@) {
            None => {
                let error = NameResolveError { kind: NameResolveErrorKind::UnknownModule, span: import.path.span };
                let i = choose|i: int| 0 <= i < before.len() && before[i] == error;
                assert(after[i] == error);
            },
            Some(interface) => {
                if let ImportKind::Named(elements) = import.kind {
                    assert forall|k: int|
                        0 <= k < elements@.len() && interface.export_of((#[trigger] elements@[k]).name.value@) is None
                            implies export_reported(after, interface.module, elements@[k].name.span) by {
                        let e = choose|e: int|
                            0 <= e < before.len() && reports_unknown_export(
                                #[trigger] before[e],
                                interface.module,
                                elements@[k].name.span,
                            );
                        assert(after[e] == before[e]);
                    }
                }
            },
        }
    }
}

/// What a record of the declaration log says agrees with the tables: the
/// entry it names exists and was declared by the recorded node.
pub open spec fn declaration_agrees(
    module: ModuleId,
    symbols: Seq<Symbol>,
    types: Seq<TypeDef>,
    fields: Seq<Field>,
    variants: Seq<Variant>,
    generic_parameters: Seq<GenericParameter>,
    entry: (AstId, Declaration),
) -> bool {
    match entry.1 {
        Declaration::Symbol(id) => id.module == module && id.index < symbols.len()
            && symbols[id.index as int].declaration == entry.0,
        Declaration::Type(id) => id.module == module && id.index < types.len() && types[id.index as int].declaration
            == entry.0,
        Declaration::Field(id) => id.module == module && id.index < fields.len()
            && fields[id.index as int].declaration == entry.0,
        Declaration::EnumVariant(id) => id.module == module && id.index < variants.len()
            && variants[id.index as int].declaration == entry.0,
        Declaration::GenericParameter(id) => id.module == module && id.index < generic_parameters.len()
            && generic_parameters[id.index as int].declaration == entry.0,
        Declaration::Module(_) | Declaration::Import { .. } => true,
    }
}

/// How many of `statements` bind a name in the value namespace ahead of
/// the rest: functions, and bindings where `with_bindings` holds.
pub open spec fn value_headers(statements: Seq<Statement<'_>>, with_bindings: bool) -> nat
    decreases statements.len(),
{
    if statements.len() == 0 {
        0
    } else {
        value_headers(statements.drop_last(), with_bindings) + match statements.last() {
            Statement::LetStatement(_) => if with_bindings {
                1nat
            } else {
                0nat
            },
            Statement::FunctionDefine(_) => 1nat,
            _ => 0nat,
        }
    }
}

/// How many of `statements` declare a type: enums, records and interfaces.
pub open spec fn type_headers(statements: Seq<Statement<'_>>) -> nat
    decreases statements.len(),
{
    if statements.len() == 0 {
        0
    } else {
        type_headers(statements.drop_last()) + match statements.last() {
            Statement::EnumDefine(_) | Statement::TypeDefine(_) | Statement::InterfaceDefine(_) => 1nat,
            _ => 0nat,
        }
    }
}

/// The node under which the reference of a literal is recorded.
pub open spec fn reference_id(literal: Literal<'_>) -> AstId {
    AstId { start: literal.span.start, end: literal.span.end, kind: AstKind::Literal }
}

/// What `literal` refers to is recorded in the log.
pub open spec fn literal_recorded_in(log: Seq<(AstId, Res)>, literal: Literal<'_>) -> bool {
    exists|k: int| 0 <= k < log.len() && (#[trigger] log[k]).0 == reference_id(literal)
}

/// A named value's name is recorded in the log.
pub open spec fn value_recorded_in(log: Seq<(AstId, Res)>, value: Value<'_>) -> bool {
    value matches Value::Literal(named) ==> literal_recorded_in(log, named.literal)
}

/// The names a primary writes directly are recorded in the log: its named value
/// and each member it accesses.
pub open spec fn primary_recorded_in(log: Seq<(AstId, Res)>, primary: Primary<'_>) -> bool {
    &&& value_recorded_in(log, primary.value)
    &&& forall|k: int| 0 <= k < primary.accesses@.len() ==> literal_recorded_in(log, (#[trigger] primary.accesses@[k]).member)
}

/// The names of the primaries an expression combines with operators,
/// and of the value a `return`, a `throw` or a closure's expression body
/// gives, are recorded in the log.
pub open spec fn expression_recorded_in(log: Seq<(AstId, Res)>, expression: Expression<'_>) -> bool
    decreases expression,
{
    match expression {
        Expression::Primary(primary) => primary_recorded_in(log, *primary),
        Expression::Unary(node) => expression_recorded_in(log, *node.operand),
        Expression::Binary(node) => expression_recorded_in(log, *node.left) && expression_recorded_in(log, *node.right),
        Expression::Elvis(node) => expression_recorded_in(log, *node.optional) && expression_recorded_in(
            log,
            *node.fallback,
        ),
        Expression::Return(node) => node.value matches Some(value) ==> expression_recorded_in(log, *value),
        Expression::Throw(node) => node.message matches Some(message) ==> expression_recorded_in(log, *message),
        Expression::Closure(node) => node.body matches ClosureBody::Expression(body) ==> expression_recorded_in(log, *body),
        _ => true,
    }
}

/// The field types of a record body are recorded in the log.
pub open spec fn fields_recorded_in(log: Seq<(AstId, Res)>, block: TypedefBlock<'_>) -> bool {
    forall|k: int|
        0 <= k < block.fields@.len() ==> ((#[trigger] block.fields@[k]).value matches TypedefValue::TypeInfo(
            type_info,
        ) ==> literal_recorded_in(log, type_info.name))
}

/// The names a statement writes at its own level are recorded in the log: the
/// type and the expressions of a binding, an assertion's condition and
/// message, an assignment's target, an expression, a record's field
/// types.
pub open spec fn statement_recorded_in(log: Seq<(AstId, Res)>, statement: Statement<'_>) -> bool {
    match statement {
        Statement::LetStatement(node) => {
            &&& (node.type_info matches Some(type_info) ==> literal_recorded_in(log, type_info.name))
            &&& (node.value matches Some(value) ==> expression_recorded_in(log, *value))
        },
        Statement::AssertStatement(node) => {
            &&& expression_recorded_in(log, *node.condition)
            &&& (node.message matches Some(message) ==> expression_recorded_in(log, *message))
        },
        Statement::AssignStatement(node) => expression_recorded_in(log, *node.target),
        Statement::Expression(expression) => expression_recorded_in(log, *expression),
        Statement::TypeDefine(node) => fields_recorded_in(log, *node.body),
        _ => true,
    }
}

/// Every statement of a list is recorded in the log.
pub open spec fn statements_recorded_in(log: Seq<(AstId, Res)>, statements: Seq<Statement<'_>>) -> bool {
    forall|k: int| 0 <= k < statements.len() ==> statement_recorded_in(log, #[trigger] statements[k])
}

/// The name of the built-in type numbered `t`, in the order the module
/// scope binds them.
pub open spec fn builtin_type_name(t: int) -> Seq<char> {
    if t == 0 {
        "Bool"@
    } else if t == 1 {
        "bool"@
    } else if t == 2 {
        "Int"@
    } else if t == 3 {
        "int"@
    } else if t == 4 {
        "Float"@
    } else if t == 5 {
        "float"@
    } else if t == 6 {
        "String"@
    } else if t == 7 {
        "string"@
    } else if t == 8 {
        "List"@
    } else {
        "Set"@
    }
}

/// The built-in type numbered `t`.
pub open spec fn builtin_type_of(t: int) -> BuiltinType {
    if t <= 1 {
        BuiltinType::Bool
    } else if t <= 3 {
        BuiltinType::Int
    } else if t <= 5 {
        BuiltinType::Float
    } else if t <= 7 {
        BuiltinType::String
    } else if t == 8 {
        BuiltinType::List
    } else {
        BuiltinType::SetType
    }
}

/// Entry `t` of the type namespace of `scope` binds the name of built-in
/// type `t` to that type.
pub open spec fn builtin_bound_at(scope: Scope, names: Seq<Seq<char>>, t: int) -> bool {
    &&& 0 <= t < scope.entries(Namespace::Type).len()
    &&& {
        let entry = scope.entries(Namespace::Type)[t];
        &&& entry.1.resolution == Res::BuiltinType(builtin_type_of(t))
        &&& entry.0.0 < names.len()
        &&& names[entry.0.0 as int] == builtin_type_name(t)
    }
}

proof fn lemma_builtin_names_distinct()
    ensures
        forall|s: int, t: int| 0 <= s < t < 10 ==> builtin_type_name(s) != builtin_type_name(t),
{
    reveal_strlit("Bool");
    reveal_strlit("bool");
    reveal_strlit("Int");
    reveal_strlit("int");
    reveal_strlit("Float");
    reveal_strlit("float");
    reveal_strlit("String");
    reveal_strlit("string");
    reveal_strlit("List");
    reveal_strlit("Set");
    assert forall|s: int, t: int| 0 <= s < t < 10 implies builtin_type_name(s) != builtin_type_name(t) by {
        if builtin_type_name(s) == builtin_type_name(t) {
            assert(builtin_type_name(s)[0] == builtin_type_name(t)[0]);
            assert(builtin_type_name(s).len() == builtin_type_name(t).len());
        }
    }
}

/// A module whose declarations are collected and whose names are not
/// resolved yet.
pub struct CollectedModule<'a, 'input> {
    source: &'a Source<'input>,
    module: ModuleId,
    names: NameInterner,
    symbols: Vec<Symbol>,
    types: Vec<TypeDef>,
    fields: Vec<Field>,
    variants: Vec<Variant>,
    generic_parameters: Vec<GenericParameter>,
    declarations: Vec<(AstId, Declaration)>,
    references: Vec<(AstId, Res)>,
    scopes: Vec<Scope>,
    root_scope: ScopeId,
    errors: Vec<NameResolveError>,
    interface: ModuleInterface,
}

impl<'a, 'input> CollectedModule<'a, 'input> {
    pub closed spec fn module_id(&self) -> ModuleId {
        self.module
    }

    pub closed spec fn error_list(&self) -> Seq<NameResolveError> {
        self.errors@
    }

    pub closed spec fn exported(&self) -> ModuleInterface {
        self.interface
    }

    /// The statements of the module's source.
    pub closed spec fn statements(&self) -> Seq<Statement<'input>> {
        self.source.statements@
    }

    /// Every table numbers its entries by position, within 32 bits; the
    /// scopes nest; every variant an enum lists exists.
    pub closed spec fn wf(&self) -> bool {
        &&& self.names.wf()
        &&& self.names.view().len() <= TABLE_CAPACITY
        &&& self.symbols@.len() <= TABLE_CAPACITY
        &&& self.types@.len() <= TABLE_CAPACITY
        &&& self.fields@.len() <= TABLE_CAPACITY
        &&& self.variants@.len() <= TABLE_CAPACITY
        &&& self.generic_parameters@.len() <= TABLE_CAPACITY
        &&& forall|i: int|
            0 <= i < self.symbols@.len() ==> (#[trigger] self.symbols@[i]).id == SymbolId {
                module: self.module,
                index: i as u32,
            }
        &&& forall|i: int|
            0 <= i < self.types@.len() ==> (#[trigger] self.types@[i]).id == TypeDefId {
                module: self.module,
                index: i as u32,
            }
        &&& forall|i: int|
            0 <= i < self.fields@.len() ==> (#[trigger] self.fields@[i]).id == FieldId {
                module: self.module,
                index: i as u32,
            }
        &&& forall|i: int|
            0 <= i < self.variants@.len() ==> (#[trigger] self.variants@[i]).id == VariantId {
                module: self.module,
                index: i as u32,
            }
        &&& forall|i: int|
            0 <= i < self.generic_parameters@.len() ==> (#[trigger] self.generic_parameters@[i]).id
                == GenericParameterId { module: self.module, index: i as u32 }
        &&& forall|i: int, j: int|
            0 <= i < self.types@.len() && 0 <= j < self.types@[i].variants@.len() ==> (
            #[trigger] self.types@[i].variants@[j]).index < self.variants@.len()
        &&& scopes_wf(self.scopes@)
        &&& scopes_settled(self.scopes@)
        &&& self.root_scope == ScopeId(0)
        &&& self.interface.wf()
        &&& self.interface.module == self.module
        &&& self.declarations_agree()
    }

    /// Every record of the declaration log agrees with the tables.
    pub closed spec fn declarations_agree(&self) -> bool {
        forall|i: int|
            0 <= i < self.declarations@.len() ==> declaration_agrees(
                self.module,
                self.symbols@,
                self.types@,
                self.fields@,
                self.variants@,
                self.generic_parameters@,
                #[trigger] self.declarations@[i],
            )
    }

    /// `self` is `before` with tables that only grew: the same module, the
    /// same source, every earlier scope and error kept.
    pub closed spec fn extends(&self, before: &Self) -> bool {
        &&& self.module == before.module
        &&& self.source == before.source
        &&& self.root_scope == before.root_scope
        &&& before.scopes@.len() <= self.scopes@.len()
        &&& before.errors@.len() <= self.errors@.len()
        &&& forall|i: int| 0 <= i < before.errors@.len() ==> #[trigger] self.errors@[i] == before.errors@[i]
        &&& before.symbols@.len() <= self.symbols@.len()
        &&& before.types@.len() <= self.types@.len()
        &&& before.fields@.len() <= self.fields@.len()
        &&& before.variants@.len() <= self.variants@.len()
        &&& before.generic_parameters@.len() <= self.generic_parameters@.len()
        &&& self.interface == before.interface
        &&& before.references@.len() <= self.references@.len()
        &&& forall|k: int| 0 <= k < before.references@.len() ==> #[trigger] self.references@[k] == before.references@[k]
        &&& before.declarations@.len() <= self.declarations@.len()
        &&& forall|k: int|
            0 <= k < before.declarations@.len() ==> #[trigger] self.declarations@[k] == before.declarations@[k]
    }

    /// What `literal` refers to is recorded.
    pub closed spec fn resolved(&self, literal: Literal<'_>) -> bool {
        exists|k: int| 0 <= k < self.references@.len() && (#[trigger] self.references@[k]).0 == reference_id(literal)
    }

    /// A named value's name is resolved.
    pub closed spec fn value_resolved(&self, value: Value<'_>) -> bool {
        value matches Value::Literal(named) ==> self.resolved(named.literal)
    }

    /// The names a primary writes directly are resolved: its named value
    /// and each member it accesses.
    pub closed spec fn primary_resolved(&self, primary: Primary<'_>) -> bool {
        &&& self.value_resolved(primary.value)
        &&& forall|k: int| 0 <= k < primary.accesses@.len() ==> self.resolved((#[trigger] primary.accesses@[k]).member)
    }

    /// The names of the primaries an expression combines with operators,
    /// and of the value a `return`, a `throw` or a closure's expression body
    /// gives, are resolved.
    pub closed spec fn expression_resolved(&self, expression: Expression<'_>) -> bool
        decreases expression,
    {
        match expression {
            Expression::Primary(primary) => self.primary_resolved(*primary),
            Expression::Unary(node) => self.expression_resolved(*node.operand),
            Expression::Binary(node) => self.expression_resolved(*node.left) && self.expression_resolved(*node.right),
            Expression::Elvis(node) => self.expression_resolved(*node.optional) && self.expression_resolved(
                *node.fallback,
            ),
            Expression::Return(node) => node.value matches Some(value) ==> self.expression_resolved(*value),
            Expression::Throw(node) => node.message matches Some(message) ==> self.expression_resolved(*message),
            Expression::Closure(node) => node.body matches ClosureBody::Expression(body) ==> self.expression_resolved(*body),
            _ => true,
        }
    }

    /// The enum and variant names a pattern matches are resolved.
    pub closed spec fn pattern_resolved(&self, pattern: Pattern<'_>) -> bool
        decreases pattern,
    {
        match pattern {
            Pattern::EnumVariant(node) => self.resolved(node.enum_name) && self.resolved(node.variant),
            Pattern::SomePattern(node) => self.pattern_resolved(*node.pattern),
            _ => true,
        }
    }

    /// The field types of a record body are resolved.
    pub closed spec fn fields_resolved(&self, block: TypedefBlock<'_>) -> bool {
        forall|k: int|
            0 <= k < block.fields@.len() ==> ((#[trigger] block.fields@[k]).value matches TypedefValue::TypeInfo(
                type_info,
            ) ==> self.resolved(type_info.name))
    }

    /// The names a statement writes at its own level are resolved: the
    /// type and the expressions of a binding, an assertion's condition and
    /// message, an assignment's target, an expression, a record's field
    /// types.
    pub closed spec fn statement_resolved(&self, statement: Statement<'_>) -> bool {
        match statement {
            Statement::LetStatement(node) => {
                &&& (node.type_info matches Some(type_info) ==> self.resolved(type_info.name))
                &&& (node.value matches Some(value) ==> self.expression_resolved(*value))
            },
            Statement::AssertStatement(node) => {
                &&& self.expression_resolved(*node.condition)
                &&& (node.message matches Some(message) ==> self.expression_resolved(*message))
            },
            Statement::AssignStatement(node) => self.expression_resolved(*node.target),
            Statement::Expression(expression) => self.expression_resolved(*expression),
            Statement::TypeDefine(node) => self.fields_resolved(*node.body),
            _ => true,
        }
    }

    /// Every statement of a list is resolved.
    pub closed spec fn statements_resolved(&self, statements: Seq<Statement<'_>>) -> bool {
        forall|k: int| 0 <= k < statements.len() ==> self.statement_resolved(#[trigger] statements[k])
    }

    /// The argument types, the return type and the body of a function are
    /// resolved.
    pub closed spec fn function_resolved(&self, function: FunctionDefine<'_>) -> bool {
        &&& forall|k: int|
            0 <= k < function.arguments.arguments@.len() ==> self.resolved(
                (#[trigger] function.arguments.arguments@[k]).type_info.name,
            )
        &&& (function.return_type matches Some(return_type) ==> self.resolved(return_type.name))
        &&& self.statements_resolved(function.body.statements.statements@)
    }

    proof fn lemma_resolved_kept(before: &Self, after: &Self)
        requires
            after.extends(before),
        ensures
            forall|literal: Literal<'_>| before.resolved(literal) ==> #[trigger] after.resolved(literal),
    {
        assert forall|literal: Literal<'_>| before.resolved(literal) implies #[trigger] after.resolved(literal) by {
            let k = choose|k: int| 0 <= k < before.references@.len() && (#[trigger] before.references@[k]).0 == reference_id(literal);
            assert(after.references@[k] == before.references@[k]);
        }
    }

    proof fn lemma_expression_resolved_kept(before: &Self, after: &Self, expression: Expression<'_>)
        requires
            after.extends(before),
            before.expression_resolved(expression),
        ensures
            after.expression_resolved(expression),
        decreases expression,
    {
        Self::lemma_resolved_kept(before, after);
        match expression {
            Expression::Unary(node) => Self::lemma_expression_resolved_kept(before, after, *node.operand),
            Expression::Binary(node) => {
                Self::lemma_expression_resolved_kept(before, after, *node.left);
                Self::lemma_expression_resolved_kept(before, after, *node.right);
            },
            Expression::Elvis(node) => {
                Self::lemma_expression_resolved_kept(before, after, *node.optional);
                Self::lemma_expression_resolved_kept(before, after, *node.fallback);
            },
            Expression::Return(node) => {
                if let Some(value) = node.value {
                    Self::lemma_expression_resolved_kept(before, after, *value);
                }
            },
            Expression::Throw(node) => {
                if let Some(message) = node.message {
                    Self::lemma_expression_resolved_kept(before, after, *message);
                }
            },
            Expression::Closure(node) => {
                if let ClosureBody::Expression(body) = node.body {
                    Self::lemma_expression_resolved_kept(before, after, *body);
                }
            },
            _ => {},
        }
    }

    proof fn lemma_pattern_resolved_kept(before: &Self, after: &Self, pattern: Pattern<'_>)
        requires
            after.extends(before),
            before.pattern_resolved(pattern),
        ensures
            after.pattern_resolved(pattern),
        decreases pattern,
    {
        Self::lemma_resolved_kept(before, after);
        if let Pattern::SomePattern(node) = pattern {
            Self::lemma_pattern_resolved_kept(before, after, *node.pattern);
        }
    }

    proof fn lemma_statements_resolved_kept(before: &Self, after: &Self, statements: Seq<Statement<'_>>)
        requires
            after.extends(before),
            before.statements_resolved(statements),
        ensures
            after.statements_resolved(statements),
    {
        assert forall|k: int| 0 <= k < statements.len() implies after.statement_resolved(#[trigger] statements[k]) by {
            Self::lemma_statement_resolved_kept(before, after, statements[k]);
        }
    }

    proof fn lemma_statement_resolved_kept(before: &Self, after: &Self, statement: Statement<'_>)
        requires
            after.extends(before),
            before.statement_resolved(statement),
        ensures
            after.statement_resolved(statement),
    {
        Self::lemma_resolved_kept(before, after);
        {
            match statement {
                Statement::LetStatement(node) => {
                    if let Some(value) = node.value {
                        Self::lemma_expression_resolved_kept(before, after, *value);
                    }
                },
                Statement::AssertStatement(node) => {
                    Self::lemma_expression_resolved_kept(before, after, *node.condition);
                    if let Some(message) = node.message {
                        Self::lemma_expression_resolved_kept(before, after, *message);
                    }
                },
                Statement::AssignStatement(node) => Self::lemma_expression_resolved_kept(before, after, *node.target),
                Statement::Expression(expression) => Self::lemma_expression_resolved_kept(before, after, *expression),
                _ => {},
            }
        }
    }

    proof fn lemma_function_resolved_kept(before: &Self, after: &Self, function: FunctionDefine<'_>)
        requires
            after.extends(before),
            before.function_resolved(function),
        ensures
            after.function_resolved(function),
    {
        Self::lemma_resolved_kept(before, after);
        Self::lemma_statements_resolved_kept(before, after, function.body.statements.statements@);
    }

    proof fn lemma_expression_in_log(&self, expression: Expression<'_>)
        requires
            self.expression_resolved(expression),
        ensures
            expression_recorded_in(self.references@, expression),
        decreases expression,
    {
        match expression {
            Expression::Unary(node) => self.lemma_expression_in_log(*node.operand),
            Expression::Binary(node) => {
                self.lemma_expression_in_log(*node.left);
                self.lemma_expression_in_log(*node.right);
            },
            Expression::Elvis(node) => {
                self.lemma_expression_in_log(*node.optional);
                self.lemma_expression_in_log(*node.fallback);
            },
            Expression::Return(node) => {
                if let Some(value) = node.value {
                    self.lemma_expression_in_log(*value);
                }
            },
            Expression::Throw(node) => {
                if let Some(message) = node.message {
                    self.lemma_expression_in_log(*message);
                }
            },
            Expression::Closure(node) => {
                if let ClosureBody::Expression(body) = node.body {
                    self.lemma_expression_in_log(*body);
                }
            },
            _ => {},
        }
    }

    proof fn lemma_statements_in_log(&self, statements: Seq<Statement<'_>>)
        requires
            self.statements_resolved(statements),
        ensures
            statements_recorded_in(self.references@, statements),
    {
        assert forall|k: int| 0 <= k < statements.len() implies statement_recorded_in(
            self.references@,
            #[trigger] statements[k],
        ) by {
            assert(self.statement_resolved(statements[k]));
            match statements[k] {
                Statement::LetStatement(node) => {
                    if let Some(value) = node.value {
                        self.lemma_expression_in_log(*value);
                    }
                },
                Statement::AssertStatement(node) => {
                    self.lemma_expression_in_log(*node.condition);
                    if let Some(message) = node.message {
                        self.lemma_expression_in_log(*message);
                    }
                },
                Statement::AssignStatement(node) => self.lemma_expression_in_log(*node.target),
                Statement::Expression(expression) => self.lemma_expression_in_log(*expression),
                _ => {},
            }
        }
    }

    /// The name table of `before` is a prefix of that of `self`.
    pub closed spec fn names_grew(&self, before: &Self) -> bool {
        &&& before.names.view().len() <= self.names.view().len()
        &&& forall|i: int| 0 <= i < before.names.view().len() ==> #[trigger] self.names.view()[i] == before.names.view()[i]
    }

    /// `scope` binds one name more in `namespace`, the last one bound, and
    /// its text is `text` unless the name table was full; every other
    /// binding of every scope stays.
    pub closed spec fn binds_next(&self, before: &Self, scope: ScopeId, namespace: Namespace, text: Seq<char>) -> bool {
        let entries = self.scopes@[scope.0 as int].entries(namespace);
        let name = entries.last().0;
        &&& scope.0 < before.scopes@.len()
        &&& self.scopes@.len() == before.scopes@.len()
        &&& forall|i: int| 0 <= i < before.scopes@.len() && i != scope.0 ==> #[trigger] self.scopes@[i] == before.scopes@[i]
        &&& forall|other: Namespace|
            other != namespace ==> #[trigger] self.scopes@[scope.0 as int].entries(other) == before.scopes@[scope.0 as int].entries(
                other,
            )
        &&& entries.len() == before.scopes@[scope.0 as int].entries(namespace).len() + 1
        &&& entries.drop_last() == before.scopes@[scope.0 as int].entries(namespace)
        &&& name.0 < TABLE_CAPACITY ==> name.0 < self.names.view().len() && self.names.view()[name.0 as int] == text
    }

    proof fn lemma_binds_next_kept(
        before: &Self,
        middle: &Self,
        after: &Self,
        scope: ScopeId,
        namespace: Namespace,
        text: Seq<char>,
    )
        requires
            middle.binds_next(before, scope, namespace, text),
            after.scopes@ == middle.scopes@,
            after.names_grew(middle),
        ensures
            after.binds_next(before, scope, namespace, text),
    {
        let name = middle.scopes@[scope.0 as int].entries(namespace).last().0;
        if name.0 < TABLE_CAPACITY {
            assert(after.names.view()[name.0 as int] == middle.names.view()[name.0 as int]);
        }
    }

    /// The bindings of the module scope of `before` are still its first
    /// bindings, in every namespace.
    pub closed spec fn root_grew(&self, before: &Self) -> bool {
        &&& 0 < before.scopes@.len() <= self.scopes@.len()
        &&& forall|namespace: Namespace|
            #![trigger self.scopes@[0].entries(namespace)]
            before.scopes@[0].entries(namespace).len() <= self.scopes@[0].entries(namespace).len()
        &&& forall|namespace: Namespace, j: int|
            0 <= j < before.scopes@[0].entries(namespace).len() ==> #[trigger] self.scopes@[0].entries(namespace)[j]
                == before.scopes@[0].entries(namespace)[j]
    }

    /// The module scope binds `text` in `namespace` to `resolution`, or to
    /// `Res::Error` where the name was bound there already (a duplicate).
    pub closed spec fn root_binds(&self, namespace: Namespace, text: Seq<char>, resolution: Res) -> bool {
        exists|j: int|
            0 <= j < self.scopes@[0].entries(namespace).len() && {
                let entry = #[trigger] self.scopes@[0].entries(namespace)[j];
                &&& (entry.1.resolution == resolution || entry.1.resolution == Res::Error)
                &&& (entry.0.0 < TABLE_CAPACITY ==> entry.0.0 < self.names.view().len()
                    && self.names.view()[entry.0.0 as int] == text)
            }
    }

    proof fn lemma_grew_trans(a: &Self, b: &Self, c: &Self)
        requires
            b.root_grew(a),
            c.root_grew(b),
            b.names_grew(a),
            c.names_grew(b),
        ensures
            c.root_grew(a),
            c.names_grew(a),
    {
        assert forall|namespace: Namespace, j: int|
            0 <= j < a.scopes@[0].entries(namespace).len() implies #[trigger] c.scopes@[0].entries(namespace)[j]
                == a.scopes@[0].entries(namespace)[j] by {
            assert(b.scopes@[0].entries(namespace)[j] == a.scopes@[0].entries(namespace)[j]);
        }
        assert forall|namespace: Namespace| #![trigger c.scopes@[0].entries(namespace)]
            a.scopes@[0].entries(namespace).len() <= c.scopes@[0].entries(namespace).len() by {
            assert(a.scopes@[0].entries(namespace).len() <= b.scopes@[0].entries(namespace).len());
        }
        assert forall|i: int| 0 <= i < a.names.view().len() implies #[trigger] c.names.view()[i] == a.names.view()[i] by {
            assert(b.names.view()[i] == a.names.view()[i]);
        }
    }

    proof fn lemma_grew_same(a: &Self, b: &Self)
        requires
            b.scopes@ == a.scopes@,
            0 < a.scopes@.len(),
        ensures
            b.root_grew(a),
    {
    }

    /// The module scope binds a name whose text is `text` in `namespace`
    /// (where the name table had room for it).
    pub open spec fn root_names(&self, namespace: Namespace, text: Seq<char>) -> bool {
        exists|j: int|
            0 <= j < self.module_scope().entries(namespace).len() && {
                let name = (#[trigger] self.module_scope().entries(namespace)[j]).0;
                name.0 < TABLE_CAPACITY ==> name.0 < self.collected_names().len() && self.collected_names()[name.0 as int]
                    == text
            }
    }

    /// `literal` is recorded as declaring an entry of the symbol table, or
    /// of the type table.
    pub open spec fn declares(&self, literal: Literal<'_>, symbol: bool) -> bool {
        exists|k: int|
            0 <= k < self.collected_declarations().len() && (#[trigger] self.collected_declarations()[k]).0
                == reference_id(literal) && if symbol {
                self.collected_declarations()[k].1 is Symbol
            } else {
                self.collected_declarations()[k].1 is Type
            }
    }

    /// The module scope binds the built-in type names first, in order, each
    /// to its built-in type.
    pub open spec fn builtins_bound(&self) -> bool {
        &&& 10 <= self.module_scope().entries(Namespace::Type).len()
        &&& forall|t: int| 0 <= t < 10 ==> #[trigger] builtin_bound_at(self.module_scope(), self.collected_names(), t)
    }

    proof fn lemma_builtins_kept(before: &Self, after: &Self)
        requires
            before.builtins_bound(),
            before.wf(),
            after.wf(),
            after.root_grew(before),
            after.names_grew(before),
        ensures
            after.builtins_bound(),
    {
        assert forall|t: int| 0 <= t < 10 implies #[trigger] builtin_bound_at(after.module_scope(), after.collected_names(), t) by {
            assert(builtin_bound_at(before.module_scope(), before.collected_names(), t));
            let entry = before.scopes@[0].entries(Namespace::Type)[t];
            assert(after.scopes@[0].entries(Namespace::Type)[t] == entry);
            assert(after.names.view()[entry.0.0 as int] == before.names.view()[entry.0.0 as int]);
        }
    }

    /// `literal` is recorded as declaring a symbol of `kind`.
    spec fn declares_kind(&self, literal: Literal<'_>, kind: SymbolKind) -> bool {
        exists|k: int|
            0 <= k < self.declarations@.len() && (#[trigger] self.declarations@[k]).0 == reference_id(literal) && match self.declarations@[k].1 {
                Declaration::Symbol(id) => id.index < self.symbols@.len() && self.symbols@[id.index as int].kind == kind,
                _ => false,
            }
    }

    /// What a module-level statement declares has an entry in its table,
    /// declared by its name's literal (unless that table is full), and the
    /// module scope binds the name.
    pub open spec fn header_collected(&self, statement: Statement<'_>) -> bool {
        match statement {
            Statement::LetStatement(node) => {
                &&& self.root_names(Namespace::Value, node.name.value@)
                &&& (self.declares(node.name, true) || self.collected_symbols().len() == TABLE_CAPACITY)
            },
            Statement::FunctionDefine(node) => {
                &&& self.root_names(Namespace::Value, node.name.value@)
                &&& (self.declares(node.name, true) || self.collected_symbols().len() == TABLE_CAPACITY)
            },
            Statement::EnumDefine(node) => {
                &&& self.root_names(Namespace::Type, node.name.value@)
                &&& (self.declares(node.name, false) || self.collected_types().len() == TABLE_CAPACITY)
            },
            Statement::TypeDefine(node) => {
                &&& self.root_names(Namespace::Type, node.name.value@)
                &&& (self.declares(node.name, false) || self.collected_types().len() == TABLE_CAPACITY)
            },
            Statement::InterfaceDefine(node) => {
                &&& self.root_names(Namespace::Type, node.name.value@)
                &&& (self.declares(node.name, false) || self.collected_types().len() == TABLE_CAPACITY)
            },
            _ => true,
        }
    }

    proof fn lemma_header_collected_kept(before: &Self, after: &Self, statement: Statement<'_>)
        requires
            before.header_collected(statement),
            after.extends(before),
            after.root_grew(before),
            after.names_grew(before),
            after.wf(),
        ensures
            after.header_collected(statement),
    {
        assert forall|namespace: Namespace, text: Seq<char>| before.root_names(namespace, text) implies after.root_names(
            namespace,
            text,
        ) by {
            let j = choose|j: int|
                0 <= j < before.scopes@[0].entries(namespace).len() && {
                    let name = (#[trigger] before.scopes@[0].entries(namespace)[j]).0;
                    name.0 < TABLE_CAPACITY ==> name.0 < before.names.view().len() && before.names.view()[name.0 as int]
                        == text
                };
            let name = before.scopes@[0].entries(namespace)[j].0;
            assert(after.scopes@[0].entries(namespace)[j] == before.scopes@[0].entries(namespace)[j]);
            if name.0 < TABLE_CAPACITY {
                assert(after.names.view()[name.0 as int] == before.names.view()[name.0 as int]);
            }
        }
        assert forall|literal: Literal<'_>, symbol: bool| before.declares(literal, symbol) implies after.declares(
            literal,
            symbol,
        ) by {
            let k = choose|k: int|
                0 <= k < before.declarations@.len() && (#[trigger] before.declarations@[k]).0 == reference_id(literal)
                    && if symbol {
                    before.declarations@[k].1 is Symbol
                } else {
                    before.declarations@[k].1 is Type
                };
            assert(after.declarations@[k] == before.declarations@[k]);
        }
    }

    proof fn lemma_declares_kept(before: &Self, after: &Self, literal: Literal<'_>, symbol: bool)
        requires
            before.declares(literal, symbol),
            after.extends(before),
        ensures
            after.declares(literal, symbol),
    {
        let k = choose|k: int|
            0 <= k < before.declarations@.len() && (#[trigger] before.declarations@[k]).0 == reference_id(literal)
                && if symbol {
                before.declarations@[k].1 is Symbol
            } else {
                before.declarations@[k].1 is Type
            };
        assert(after.declarations@[k] == before.declarations@[k]);
    }

    /// A binding made last in the module scope names `text` there.
    proof fn lemma_binds_next_root_names(before: &Self, after: &Self, namespace: Namespace, text: Seq<char>)
        requires
            after.binds_next(before, ScopeId(0), namespace, text),
            after.wf(),
        ensures
            after.root_names(namespace, text),
            after.root_grew(before),
    {
        let entries = after.scopes@[0].entries(namespace);
        assert(entries[entries.len() - 1] == entries.last());
        assert forall|other: Namespace, j: int|
            0 <= j < before.scopes@[0].entries(other).len() implies #[trigger] after.scopes@[0].entries(other)[j]
                == before.scopes@[0].entries(other)[j] by {
            if other == namespace {
                assert(entries.drop_last()[j] == entries[j]);
            }
        }
    }

    /// A symbol the log declared under `key` is recorded as declared there.
    proof fn lemma_declared_recorded(&self, literal: Literal<'_>, symbol: bool, declaration: Declaration)
        requires
            latest(self.declarations@, reference_id(literal)) == Some(declaration),
            symbol ==> declaration is Symbol,
            !symbol ==> declaration is Type,
        ensures
            self.declares(literal, symbol),
    {
        crate::names::lemma_latest_last(self.declarations@, reference_id(literal));
        let j = choose|j: int|
            0 <= j < self.declarations@.len() && #[trigger] self.declarations@[j] == (reference_id(literal), declaration)
                && forall|m: int| j < m < self.declarations@.len() ==> self.declarations@[m].0 != reference_id(literal);
        assert(self.declarations@[j].0 == reference_id(literal));
    }

    proof fn lemma_root_binds_kept(before: &Self, after: &Self, namespace: Namespace, text: Seq<char>, resolution: Res)
        requires
            before.root_binds(namespace, text, resolution),
            after.root_grew(before),
            after.names_grew(before),
        ensures
            after.root_binds(namespace, text, resolution),
    {
        let j = choose|j: int|
            0 <= j < before.scopes@[0].entries(namespace).len() && {
                let entry = #[trigger] before.scopes@[0].entries(namespace)[j];
                &&& (entry.1.resolution == resolution || entry.1.resolution == Res::Error)
                &&& (entry.0.0 < TABLE_CAPACITY ==> entry.0.0 < before.names.view().len()
                    && before.names.view()[entry.0.0 as int] == text)
            };
        let entry = before.scopes@[0].entries(namespace)[j];
        assert(after.scopes@[0].entries(namespace)[j] == entry);
        if entry.0.0 < TABLE_CAPACITY {
            assert(after.names.view()[entry.0.0 as int] == before.names.view()[entry.0.0 as int]);
        }
    }

    /// An imported element is bound in the module scope, under its local
    /// name, to what the interface exports under its name.
    pub closed spec fn element_bound(&self, interface: ModuleInterface, element: ImportElement<'_>) -> bool {
        let local = match element.alias {
            Some(alias) => alias.value@,
            None => element.name.value@,
        };
        match interface.export_of(element.name.value@) {
            Some(export) => {
                &&& (export.value matches Some(symbol) ==> self.root_binds(Namespace::Value, local, Res::Symbol(symbol)))
                &&& (export.ty matches Some(ty) ==> self.root_binds(Namespace::Type, local, Res::Type(ty)))
            },
            None => true,
        }
    }

    /// What an import from a known module binds is bound: a namespace
    /// import binds its alias to the module, a named import each element.
    pub closed spec fn import_bound(&self, import: ImportStatement<'_>, interface: ModuleInterface) -> bool {
        match import.kind {
            ImportKind::Namespace { alias } => self.root_binds(Namespace::Module, alias.value@, Res::Module(interface.module)),
            ImportKind::Named(elements) => forall|k: int|
                0 <= k < elements@.len() ==> self.element_bound(interface, #[trigger] elements@[k]),
            ImportKind::SideEffect => true,
        }
    }

    /// Each import statement of a known module has its names bound.
    pub closed spec fn imports_bound(&self, imports: ImportEnvironment, statement: Statement<'_>) -> bool {
        match statement {
            Statement::ImportStatement(import) => match imports.interface_at_path(import.path.value@) {
                Some(interface) => self.import_bound(*import, interface),
                None => true,
            },
            _ => true,
        }
    }

    proof fn lemma_import_bound_kept(before: &Self, after: &Self, import: ImportStatement<'_>, interface: ModuleInterface)
        requires
            before.import_bound(import, interface),
            after.root_grew(before),
            after.names_grew(before),
        ensures
            after.import_bound(import, interface),
    {
        match import.kind {
            ImportKind::Namespace { alias } => Self::lemma_root_binds_kept(
                before,
                after,
                Namespace::Module,
                alias.value@,
                Res::Module(interface.module),
            ),
            ImportKind::Named(elements) => {
                assert forall|k: int| 0 <= k < elements@.len() implies after.element_bound(
                    interface,
                    #[trigger] elements@[k],
                ) by {
                    Self::lemma_element_bound_kept(before, after, interface, elements@[k]);
                }
            },
            ImportKind::SideEffect => {},
        }
    }

    proof fn lemma_imports_bound_kept(before: &Self, after: &Self, imports: ImportEnvironment, statement: Statement<'_>)
        requires
            before.imports_bound(imports, statement),
            after.root_grew(before),
            after.names_grew(before),
        ensures
            after.imports_bound(imports, statement),
    {
        if let Statement::ImportStatement(import) = statement {
            if let Some(interface) = imports.interface_at_path(import.path.value@) {
                Self::lemma_import_bound_kept(before, after, *import, interface);
            }
        }
    }

    proof fn lemma_element_bound_kept(before: &Self, after: &Self, interface: ModuleInterface, element: ImportElement<'_>)
        requires
            before.element_bound(interface, element),
            after.root_grew(before),
            after.names_grew(before),
        ensures
            after.element_bound(interface, element),
    {
        let local = match element.alias {
            Some(alias) => alias.value@,
            None => element.name.value@,
        };
        if let Some(export) = interface.export_of(element.name.value@) {
            if let Some(symbol) = export.value {
                Self::lemma_root_binds_kept(before, after, Namespace::Value, local, Res::Symbol(symbol));
            }
            if let Some(ty) = export.ty {
                Self::lemma_root_binds_kept(before, after, Namespace::Type, local, Res::Type(ty));
            }
        }
    }

    /// The table lengths.
    pub closed spec fn lens(&self) -> (nat, nat, nat, nat, nat) {
        (
            self.symbols@.len(),
            self.types@.len(),
            self.fields@.len(),
            self.variants@.len(),
            self.generic_parameters@.len(),
        )
    }

    /// The resolution names nothing missing.
    pub closed spec fn res_ok(&self, res: Res) -> bool {
        names_existing(res, self.module, self.lens())
    }

    /// Every binding of every scope, and every recorded reference, names
    /// nothing missing.
    pub closed spec fn sound(&self) -> bool {
        &&& forall|i: int, namespace: Namespace, k: int|
            0 <= i < self.scopes@.len() && 0 <= k < self.scopes@[i].entries(namespace).len() ==> self.res_ok(
                (#[trigger] self.scopes@[i].entries(namespace)[k]).1.resolution,
            )
        &&& forall|k: int| 0 <= k < self.references@.len() ==> self.res_ok((#[trigger] self.references@[k]).1)
    }

    /// Where `assumed` holds, soundness of `before` carries over to `self`.
    pub closed spec fn keeps_sound(&self, before: &Self, assumed: bool) -> bool {
        assumed && before.sound() ==> self.sound()
    }

    /// In a sound module, what a name resolves to from any scope names
    /// nothing missing.
    proof fn lemma_lookup_ok(&self, scope: int, namespace: Namespace, name: NameId)
        requires
            self.sound(),
            scopes_wf(self.scopes@),
        ensures
            lookup_from(self.scopes@, scope, namespace, name) matches Some(found) ==> self.res_ok(found),
        decreases scope,
    {
        if 0 <= scope < self.scopes@.len() {
            let entries = self.scopes@[scope].entries(namespace);
            crate::names::lemma_latest_in(entries, name);
            if let Some(binding) = latest(entries, name) {
                let k = choose|k: int| 0 <= k < entries.len() && #[trigger] entries[k] == (name, binding);
                assert(self.res_ok(self.scopes@[scope].entries(namespace)[k].1.resolution));
            } else {
                if let Some(parent) = self.scopes@[scope].parent {
                    if parent.0 < scope {
                        self.lemma_lookup_ok(parent.0 as int, namespace, name);
                    }
                }
            }
        }
    }

    /// The declaration tables of `self` and `before` are alike.
    pub closed spec fn same_tables(&self, before: &Self) -> bool {
        &&& self.symbols@ == before.symbols@
        &&& self.types@ == before.types@
        &&& self.fields@ == before.fields@
        &&& self.variants@ == before.variants@
        &&& self.generic_parameters@ == before.generic_parameters@
        &&& self.interface == before.interface
    }

    /// What `name` resolves to from `scope`.
    pub closed spec fn lookup_spec(&self, scope: ScopeId, namespace: Namespace, name: NameId) -> Option<Res> {
        lookup_from(self.scopes@, scope.0 as int, namespace, name)
    }

    /// The declaration log still agrees with tables that only grew, their
    /// earlier entries declared by the same nodes.
    proof fn lemma_agree_after_growth(
        &self,
        symbols: Seq<Symbol>,
        types: Seq<TypeDef>,
        fields: Seq<Field>,
        variants: Seq<Variant>,
        generic_parameters: Seq<GenericParameter>,
    )
        requires
            forall|i: int|
                0 <= i < self.declarations@.len() ==> declaration_agrees(
                    self.module,
                    symbols,
                    types,
                    fields,
                    variants,
                    generic_parameters,
                    #[trigger] self.declarations@[i],
                ),
            symbols.len() <= self.symbols@.len(),
            forall|j: int| 0 <= j < symbols.len() ==> #[trigger] self.symbols@[j].declaration == symbols[j].declaration,
            types.len() <= self.types@.len(),
            forall|j: int| 0 <= j < types.len() ==> #[trigger] self.types@[j].declaration == types[j].declaration,
            fields.len() <= self.fields@.len(),
            forall|j: int| 0 <= j < fields.len() ==> #[trigger] self.fields@[j].declaration == fields[j].declaration,
            variants.len() <= self.variants@.len(),
            forall|j: int| 0 <= j < variants.len() ==> #[trigger] self.variants@[j].declaration == variants[j].declaration,
            generic_parameters.len() <= self.generic_parameters@.len(),
            forall|j: int|
                0 <= j < generic_parameters.len() ==> #[trigger] self.generic_parameters@[j].declaration
                    == generic_parameters[j].declaration,
        ensures
            self.declarations_agree(),
    {
        assert forall|i: int| 0 <= i < self.declarations@.len() implies declaration_agrees(
            self.module,
            self.symbols@,
            self.types@,
            self.fields@,
            self.variants@,
            self.generic_parameters@,
            #[trigger] self.declarations@[i],
        ) by {
            assert(declaration_agrees(self.module, symbols, types, fields, variants, generic_parameters, self.declarations@[i]));
            match self.declarations@[i].1 {
                Declaration::Symbol(id) => assert(self.symbols@[id.index as int].declaration == symbols[id.index as int].declaration),
                Declaration::Type(id) => assert(self.types@[id.index as int].declaration == types[id.index as int].declaration),
                Declaration::Field(id) => assert(self.fields@[id.index as int].declaration == fields[id.index as int].declaration),
                Declaration::EnumVariant(id) => assert(self.variants@[id.index as int].declaration == variants[id.index as int].declaration),
                Declaration::GenericParameter(id) => assert(
                    self.generic_parameters@[id.index as int].declaration == generic_parameters[id.index as int].declaration
                ),
                _ => {},
            }
        }
    }

    /// Records a declaration table that is full.
    fn table_full(&mut self, span: &Range<usize>)
        requires
            old(self).wf(),
        ensures
            final(self).wf(),
            final(self).extends(&*old(self)),
            final(self).keeps_sound(&*old(self), true),
            final(self).errors@ == old(self).errors@.push(
                NameResolveError { kind: NameResolveErrorKind::TooManyDeclarations, span: *span },
            ),
            final(self).scopes@ == old(self).scopes@,
            final(self).same_tables(&*old(self)),
            final(self).names == old(self).names,
            final(self).declarations@ == old(self).declarations@,
            final(self).references@ == old(self).references@,
    {
        self.errors.push(
            NameResolveError {
                kind: NameResolveErrorKind::TooManyDeclarations,
                span: Range { start: span.start, end: span.end },
            },
        );
    }

    /// The number of the identifier `text`; `NameId(u32::MAX)`, which
    /// numbers no identifier, once the name table is full.
    fn intern(&mut self, text: &str, span: &Range<usize>) -> (name: NameId)
        requires
            old(self).wf(),
        ensures
            final(self).wf(),
            final(self).extends(&*old(self)),
            final(self).keeps_sound(&*old(self), true),
            final(self).scopes@ == old(self).scopes@,
            name.0 < final(self).names.view().len() ==> final(self).names.view()[name.0 as int] == text@,
            name.0 < TABLE_CAPACITY ==> name.0 < final(self).names.view().len(),
            old(self).names.view().len() < TABLE_CAPACITY ==> name.0 < final(self).names.view().len(),
            final(self).names.view().len() <= old(self).names.view().len() + 1,
            final(self).names_grew(&*old(self)),
            final(self).same_tables(&*old(self)),
            final(self).declarations@ == old(self).declarations@,
            final(self).references@ == old(self).references@,
    {
        match self.names.find(text) {
            Some(id) => id,
            None => {
                if self.names.names.len() < TABLE_CAPACITY {
                    self.names.intern(text)
                } else {
                    self.table_full(span);
                    NameId(0xffff_ffff)
                }
            },
        }
    }

    /// Records what the node `id` declares; a later record replaces it.
    fn declare(&mut self, id: AstId, declaration: Declaration)
        requires
            old(self).wf(),
            declaration_agrees(
                old(self).module,
                old(self).symbols@,
                old(self).types@,
                old(self).fields@,
                old(self).variants@,
                old(self).generic_parameters@,
                (id, declaration),
            ),
        ensures
            final(self).declarations@ == old(self).declarations@.push((id, declaration)),
            final(self).references@ == old(self).references@,
            final(self).wf(),
            final(self).extends(&*old(self)),
            final(self).keeps_sound(&*old(self), true),
            final(self).scopes@ == old(self).scopes@,
            final(self).same_tables(&*old(self)),
            final(self).names == old(self).names,
            final(self).errors@ == old(self).errors@,
    {
        let ghost before = self.declarations@;
        self.declarations.push((id, declaration));
        proof {
            assert forall|i: int| 0 <= i < self.declarations@.len() implies declaration_agrees(
                self.module,
                self.symbols@,
                self.types@,
                self.fields@,
                self.variants@,
                self.generic_parameters@,
                #[trigger] self.declarations@[i],
            ) by {
                if i < before.len() {
                    assert(self.declarations@[i] == before[i]);
                }
            }
        }
    }

    /// Records what the literal refers to; a later record replaces it.
    fn record_reference(&mut self, literal: &Literal<'input>, resolution: Res)
        ensures
            old(self).sound() && old(self).res_ok(resolution) ==> final(self).sound(),
            final(self).references@ == old(self).references@.push(
                (AstId { start: literal.span.start, end: literal.span.end, kind: AstKind::Literal }, resolution),
            ),
            final(self).declarations@ == old(self).declarations@,
            final(self).wf() == old(self).wf(),
            final(self).extends(&*old(self)),
            final(self).scopes@ == old(self).scopes@,
            final(self).same_tables(&*old(self)),
            final(self).names == old(self).names,
            final(self).errors@ == old(self).errors@,
    {
        self.references.push((AstId::new(literal, AstKind::Literal), resolution));
    }

    /// A new symbol declared by `declaration`; `Res::Error` once the symbol
    /// table is full.
    fn allocate_symbol(
        &mut self,
        name: NameId,
        kind: SymbolKind,
        declaration: &Literal<'input>,
        span: Range<usize>,
        exported: bool,
    ) -> (resolution: Res)
        requires
            old(self).wf(),
        ensures
            final(self).res_ok(resolution),
            final(self).wf(),
            final(self).extends(&*old(self)),
            final(self).keeps_sound(&*old(self), true),
            final(self).scopes@ == old(self).scopes@,
            final(self).names == old(self).names,
            match resolution {
                Res::Symbol(id) => id.module == final(self).module && id.index == old(self).symbols@.len()
                    && final(self).symbols@.len() == id.index + 1 && final(self).symbols@[id.index as int].kind == kind
                    && latest(
                    final(self).declarations@,
                    AstId { start: declaration.span.start, end: declaration.span.end, kind: AstKind::Literal },
                ) == Some(Declaration::Symbol(id)),
                Res::Error => old(self).symbols@.len() == TABLE_CAPACITY,
                _ => false,
            },
    {
        if self.symbols.len() >= TABLE_CAPACITY {
            self.table_full(&declaration.span);
            return Res::Error;
        }
        let id = SymbolId { module: self.module, index: index_u32(self.symbols.len()) };
        let declaration_id = AstId::new(declaration, AstKind::Literal);
        let ghost before = self.symbols@;
        self.symbols.push(Symbol { id, name, kind, declaration: declaration_id, span, exported });
        proof {
            assert forall|i: int| 0 <= i < self.symbols@.len() implies (#[trigger] self.symbols@[i]).id == SymbolId {
                module: self.module,
                index: i as u32,
            } by {
                if i < before.len() {
                    assert(self.symbols@[i] == before[i]);
                }
            }
            self.lemma_agree_after_growth(before, self.types@, self.fields@, self.variants@, self.generic_parameters@);
        }
        self.declare(declaration_id, Declaration::Symbol(id));
        Res::Symbol(id)
    }

    /// A new type declared by `declaration`; `None` once the type table is
    /// full.
    #[verifier::spinoff_prover]
    fn allocate_type(
        &mut self,
        name: Option<NameId>,
        kind: TypeDefKind,
        declaration: AstId,
        span: Range<usize>,
        exported: bool,
    ) -> (id: Option<TypeDefId>)
        requires
            old(self).wf(),
        ensures
            id matches Some(id) ==> final(self).res_ok(Res::Type(id)),
            final(self).wf(),
            final(self).extends(&*old(self)),
            final(self).keeps_sound(&*old(self), true),
            final(self).scopes@ == old(self).scopes@,
            final(self).names == old(self).names,
            match id {
                Some(id) => id.module == final(self).module && id.index == old(self).types@.len()
                    && final(self).types@.len() == id.index + 1 && latest(final(self).declarations@, declaration)
                    == Some(Declaration::Type(id)),
                None => old(self).types@.len() == TABLE_CAPACITY,
            },
    {
        if self.types.len() >= TABLE_CAPACITY {
            self.table_full(&span);
            return None;
        }
        let id = TypeDefId { module: self.module, index: index_u32(self.types.len()) };
        let ghost before = self.types@;
        self.types.push(
            TypeDef {
                id,
                name,
                kind,
                declaration,
                span,
                fields: Vec::new(),
                variants: Vec::new(),
                exported,
            },
        );
        proof {
            assert forall|i: int| 0 <= i < self.types@.len() implies (#[trigger] self.types@[i]).id == TypeDefId {
                module: self.module,
                index: i as u32,
            } by {
                if i < before.len() {
                    assert(self.types@[i] == before[i]);
                }
            }
            assert forall|i: int, j: int|
                0 <= i < self.types@.len() && 0 <= j < self.types@[i].variants@.len() implies (
                #[trigger] self.types@[i].variants@[j]).index < self.variants@.len() by {
                if i < before.len() {
                    assert(self.types@[i] == before[i]);
                }
            }
            self.lemma_agree_after_growth(self.symbols@, before, self.fields@, self.variants@, self.generic_parameters@);
        }
        self.declare(declaration, Declaration::Type(id));
        Some(id)
    }

    /// A new generic parameter declared by `declaration`; `Res::Error` once
    /// the table is full.
    fn allocate_generic_parameter(&mut self, name: NameId, declaration: AstId, span: Range<usize>) -> (resolution: Res)
        requires
            old(self).wf(),
        ensures
            final(self).res_ok(resolution),
            final(self).wf(),
            final(self).extends(&*old(self)),
            final(self).keeps_sound(&*old(self), true),
            final(self).scopes@ == old(self).scopes@,
            final(self).names == old(self).names,
            match resolution {
                Res::GenericParameter(id) => id.module == final(self).module && latest(
                    final(self).declarations@,
                    declaration,
                ) == Some(Declaration::GenericParameter(id)),
                Res::Error => true,
                _ => false,
            },
    {
        if self.generic_parameters.len() >= TABLE_CAPACITY {
            self.table_full(&span);
            return Res::Error;
        }
        let id = GenericParameterId { module: self.module, index: index_u32(self.generic_parameters.len()) };
        let ghost before = self.generic_parameters@;
        self.generic_parameters.push(GenericParameter { id, name, declaration, span });
        proof {
            assert forall|i: int| 0 <= i < self.generic_parameters@.len() implies (
            #[trigger] self.generic_parameters@[i]).id == GenericParameterId { module: self.module, index: i as u32 } by {
                if i < before.len() {
                    assert(self.generic_parameters@[i] == before[i]);
                }
            }
            self.lemma_agree_after_growth(self.symbols@, self.types@, self.fields@, self.variants@, before);
        }
        self.declare(declaration, Declaration::GenericParameter(id));
        Res::GenericParameter(id)
    }

    /// Binds `name` in one namespace of `scope`.  A name bound there already
    /// is reported as a duplicate and its binding becomes `Res::Error`, kept
    /// at the first binding's range.
    fn define(
        &mut self,
        scope: ScopeId,
        namespace: Namespace,
        name: NameId,
        resolution: Res,
        span: Option<Range<usize>>,
        error_span: Range<usize>,
    )
        requires
            old(self).wf(),
            scope.0 < old(self).scopes@.len(),
        ensures
            old(self).sound() && old(self).res_ok(resolution) ==> final(self).sound(),
            final(self).wf(),
            final(self).extends(&*old(self)),
            final(self).scopes@.len() == old(self).scopes@.len(),
            final(self).names == old(self).names,
            final(self).same_tables(&*old(self)),
            final(self).declarations@ == old(self).declarations@,
            final(self).root_grew(&*old(self)),
            forall|i: int| 0 <= i < old(self).scopes@.len() && i != scope.0 ==> #[trigger] final(self).scopes@[i] == old(self).scopes@[i],
            forall|other: Namespace| other != namespace ==> #[trigger] final(self).scopes@[scope.0 as int].entries(other)
                == old(self).scopes@[scope.0 as int].entries(other),
            final(self).scopes@[scope.0 as int].parent == old(self).scopes@[scope.0 as int].parent,
            final(self).scopes@[scope.0 as int].entries(namespace).len() == old(self).scopes@[scope.0 as int].entries(
                namespace,
            ).len() + 1,
            final(self).scopes@[scope.0 as int].entries(namespace).last().0 == name,
            final(self).scopes@[scope.0 as int].entries(namespace).drop_last() == old(self).scopes@[scope.0 as int].entries(
                namespace,
            ),
            match old(self).scopes@[scope.0 as int].binding_of(namespace, name) {
                Some(first) => {
                    &&& final(self).scopes@[scope.0 as int].entries(namespace) == old(self).scopes@[scope.0 as int].entries(namespace).push(
                        (name, Binding { resolution: Res::Error, span: first.span }),
                    )
                    &&& final(self).errors@ == old(self).errors@.push(
                        NameResolveError {
                            kind: NameResolveErrorKind::DuplicateBinding { name, namespace, first: first.span },
                            span: error_span,
                        },
                    )
                },
                None => {
                    &&& final(self).scopes@[scope.0 as int].entries(namespace) == old(self).scopes@[scope.0 as int].entries(namespace).push(
                        (name, Binding { resolution, span }),
                    )
                    &&& final(self).errors@ == old(self).errors@
                },
            },
    {
        let index = scope.0 as usize;
        let position = crate::names::position_of_name(self.scopes[index].bindings(namespace), name);
        let binding = match position {
            Some(at) => {
                let first = copy_span(&self.scopes[index].bindings(namespace)[at].1.span);
                let reported = copy_span(&first);
                self.errors.push(
                    NameResolveError {
                        kind: NameResolveErrorKind::DuplicateBinding { name, namespace, first: reported },
                        span: error_span,
                    },
                );
                Binding { resolution: Res::Error, span: first }
            },
            None => Binding { resolution, span },
        };
        let ghost before = *self;
        self.scopes[index].bindings_mut(namespace).push((name, binding));
        proof {
            assert forall|i: int| 0 <= i < self.scopes@.len() implies #[trigger] self.scopes@[i].id == ScopeId(i as u32)
                && match self.scopes@[i].parent {
                Some(parent) => parent.0 < i,
                None => true,
            } by {
                assert(before.scopes@[i].id == ScopeId(i as u32));
            }
            assert(self.declarations@ == before.declarations@);
            assert(self.symbols@ == before.symbols@);
            assert(self.types@ == before.types@);
            assert(self.fields@ == before.fields@);
            assert(self.variants@ == before.variants@);
            assert(self.generic_parameters@ == before.generic_parameters@);
            assert(scopes_wf(self.scopes@));
            assert forall|i: int, other: Namespace| 0 <= i < self.scopes@.len() implies entries_settled(
                #[trigger] self.scopes@[i].entries(other),
            ) by {
                assert(entries_settled(before.scopes@[i].entries(other)));
                if i == index as int && other == namespace {
                    let old_entries = before.scopes@[i].entries(other);
                    let new_entries = self.scopes@[i].entries(other);
                    assert(new_entries == old_entries.push((name, binding)));
                    assert forall|k: int, j: int|
                        0 <= k < j < new_entries.len() && (#[trigger] new_entries[k]).0 == (#[trigger] new_entries[j]).0
                            implies new_entries[j].1.resolution == Res::Error by {
                        if j == old_entries.len() {
                            assert(new_entries[k] == old_entries[k]);
                            crate::names::lemma_latest_some(old_entries, name, k);
                        } else {
                            assert(new_entries[k] == old_entries[k]);
                            assert(new_entries[j] == old_entries[j]);
                        }
                    }
                }
            }
            assert(self.scopes@[index as int].entries(namespace) == before.scopes@[index as int].entries(namespace).push(
                (name, binding),
            ));
            assert(self.scopes@[index as int].entries(namespace).drop_last() =~= before.scopes@[index as int].entries(
                namespace,
            ));
            assert forall|other: Namespace, j: int|
                0 <= j < before.scopes@[0].entries(other).len() implies #[trigger] self.scopes@[0].entries(other)[j]
                    == before.scopes@[0].entries(other)[j] by {
                if index == 0 && other == namespace {
                    assert(self.scopes@[0].entries(other).drop_last()[j] == before.scopes@[0].entries(other)[j]);
                }
            }
            assert(self.declarations_agree());
            assert(self.names.wf());
            assert(self.interface.wf());
            assert(self.root_scope == ScopeId(0));
            assert(self.wf());
        }
    }
}

/// The first of `ids` whose variant is named `name`.
pub open spec fn first_variant_named(ids: Seq<VariantId>, variants: Seq<Variant>, name: NameId) -> Option<VariantId>
    decreases ids.len(),
{
    if ids.len() == 0 {
        None
    } else if 0 <= ids[0].index < variants.len() && variants[ids[0].index as int].name == name {
        Some(ids[0])
    } else {
        first_variant_named(ids.drop_first(), variants, name)
    }
}

/// What a module member resolves to from what the module exports under
/// its name: the type first where a `::` follows, else the value first.
pub open spec fn member_resolution(export: ExportedBinding, prefer_type: bool) -> Res {
    if prefer_type {
        match export.ty {
            Some(ty) => Res::Type(ty),
            None => match export.value {
                Some(symbol) => Res::Symbol(symbol),
                None => Res::Error,
            },
        }
    } else {
        match export.value {
            Some(symbol) => Res::Symbol(symbol),
            None => match export.ty {
                Some(ty) => Res::Type(ty),
                None => Res::Error,
            },
        }
    }
}

impl<'a, 'input> CollectedModule<'a, 'input> {
    /// What `name` resolves to from `scope`, walking out through the
    /// enclosing scopes.
    fn lookup(&self, scope: ScopeId, namespace: Namespace, name: NameId) -> (resolution: Option<Res>)
        requires
            self.wf(),
            scope.0 < self.scopes@.len(),
        ensures
            self.sound() ==> (resolution matches Some(found) ==> self.res_ok(found)),
            resolution == self.lookup_spec(scope, namespace, name),
    {
        proof {
            if self.sound() {
                self.lemma_lookup_ok(scope.0 as int, namespace, name);
            }
        }
        let mut current = scope;
        loop
            invariant
                self.wf(),
                current.0 < self.scopes@.len(),
                lookup_from(self.scopes@, scope.0 as int, namespace, name) == lookup_from(
                    self.scopes@,
                    current.0 as int,
                    namespace,
                    name,
                ),
                self.sound() ==> (lookup_from(self.scopes@, scope.0 as int, namespace, name) matches Some(
                    found,
                ) ==> self.res_ok(found)),
            decreases current.0,
        {
            let here = &self.scopes[current.0 as usize];
            assert(self.scopes@[current.0 as int].id == ScopeId(current.0));
            if let Some(resolution) = here.get(namespace, name) {
                return Some(resolution);
            }
            match here.parent {
                Some(parent) => {
                    current = parent;
                },
                None => {
                    return None;
                },
            }
        }
    }

    /// The variant named `name` of the enum `owner` of this module.
    fn find_variant(&self, owner: TypeDefId, name: NameId) -> (variant: Option<VariantId>)
        requires
            self.wf(),
        ensures
            variant matches Some(id) ==> self.res_ok(Res::EnumVariant(id)),
            variant == (if owner.module == self.module && owner.index < self.types@.len() {
                first_variant_named(self.types@[owner.index as int].variants@, self.variants@, name)
            } else {
                None
            }),
    {
        if owner.module != self.module || owner.index as usize >= self.types.len() {
            return None;
        }
        let ids = &self.types[owner.index as usize].variants;
        let mut index: usize = 0;
        assert(ids@.subrange(0, ids@.len() as int) =~= ids@);
        while index < ids.len()
            invariant
                self.wf(),
                owner.module == self.module,
                owner.index < self.types@.len(),
                *ids == self.types@[owner.index as int].variants,
                index <= ids@.len(),
                first_variant_named(ids@, self.variants@, name) == first_variant_named(
                    ids@.subrange(index as int, ids@.len() as int),
                    self.variants@,
                    name,
                ),
            decreases ids@.len() - index,
        {
            let id = ids[index];
            assert(self.types@[owner.index as int].variants@[index as int].index < self.variants@.len());
            assert(ids@.subrange(index as int, ids@.len() as int)[0] == id);
            assert(ids@.subrange(index as int, ids@.len() as int).drop_first() =~= ids@.subrange(
                index + 1,
                ids@.len() as int,
            ));
            if self.variants[id.index as usize].name == name {
                assert(first_variant_named(ids@.subrange(index as int, ids@.len() as int), self.variants@, name)
                    == Some(id));
                return Some(id);
            }
            index += 1;
        }
        None
    }

    /// Reports `name` as unresolved.
    fn unresolved(&mut self, name: NameId, namespace: Namespace, span: Range<usize>) -> (resolution: Res)
        requires
            old(self).wf(),
        ensures
            final(self).wf(),
            final(self).extends(&*old(self)),
            final(self).keeps_sound(&*old(self), true),
            final(self).scopes@ == old(self).scopes@,
            final(self).errors@ == old(self).errors@.push(
                NameResolveError { kind: NameResolveErrorKind::UnresolvedName { name, namespace }, span },
            ),
            resolution == Res::Error,
    {
        self.errors.push(NameResolveError { kind: NameResolveErrorKind::UnresolvedName { name, namespace }, span });
        Res::Error
    }

    /// What `name` resolves to in `namespace` from `scope`; unresolved
    /// names are reported and resolve to `Res::Error`.
    fn resolve_name(&mut self, scope: ScopeId, name: NameId, namespace: Namespace, span: Range<usize>) -> (resolution: Res)
        requires
            old(self).wf(),
            scope.0 < old(self).scopes@.len(),
        ensures
            old(self).sound() ==> final(self).res_ok(resolution),
            final(self).wf(),
            final(self).extends(&*old(self)),
            final(self).keeps_sound(&*old(self), true),
            final(self).scopes@ == old(self).scopes@,
            match old(self).lookup_spec(scope, namespace, name) {
                Some(found) => resolution == found && final(self).errors@ == old(self).errors@,
                None => resolution == Res::Error && final(self).errors@ == old(self).errors@.push(
                    NameResolveError { kind: NameResolveErrorKind::UnresolvedName { name, namespace }, span },
                ),
            },
    {
        match self.lookup(scope, namespace, name) {
            Some(resolution) => resolution,
            None => self.unresolved(name, namespace, span),
        }
    }

    /// The root of a path followed by `::`: a type, else a module, else a
    /// value.
    fn resolve_static_root(&mut self, scope: ScopeId, name: NameId, span: Range<usize>) -> (resolution: Res)
        requires
            old(self).wf(),
            scope.0 < old(self).scopes@.len(),
        ensures
            old(self).sound() ==> final(self).res_ok(resolution),
            final(self).wf(),
            final(self).extends(&*old(self)),
            final(self).keeps_sound(&*old(self), true),
            final(self).scopes@ == old(self).scopes@,
            resolution == match old(self).lookup_spec(scope, Namespace::Type, name) {
                Some(found) => found,
                None => match old(self).lookup_spec(scope, Namespace::Module, name) {
                    Some(found) => found,
                    None => match old(self).lookup_spec(scope, Namespace::Value, name) {
                        Some(found) => found,
                        None => Res::Error,
                    },
                },
            },
            final(self).errors@ == if old(self).lookup_spec(scope, Namespace::Type, name) is None
                && old(self).lookup_spec(scope, Namespace::Module, name) is None && old(self).lookup_spec(
                scope,
                Namespace::Value,
                name,
            ) is None {
                old(self).errors@.push(
                    NameResolveError {
                        kind: NameResolveErrorKind::UnresolvedName { name, namespace: Namespace::Type },
                        span,
                    },
                )
            } else {
                old(self).errors@
            },
    {
        if let Some(resolution) = self.lookup(scope, Namespace::Type, name) {
            return resolution;
        }
        if let Some(resolution) = self.lookup(scope, Namespace::Module, name) {
            return resolution;
        }
        if let Some(resolution) = self.lookup(scope, Namespace::Value, name) {
            return resolution;
        }
        self.unresolved(name, Namespace::Type, span)
    }

    /// The root of a value path: a value, else a module.
    fn resolve_value_root(&mut self, scope: ScopeId, name: NameId, span: Range<usize>) -> (resolution: Res)
        requires
            old(self).wf(),
            scope.0 < old(self).scopes@.len(),
        ensures
            old(self).sound() ==> final(self).res_ok(resolution),
            final(self).wf(),
            final(self).extends(&*old(self)),
            final(self).keeps_sound(&*old(self), true),
            final(self).scopes@ == old(self).scopes@,
            resolution == match old(self).lookup_spec(scope, Namespace::Value, name) {
                Some(found) => found,
                None => match old(self).lookup_spec(scope, Namespace::Module, name) {
                    Some(found) => found,
                    None => Res::Error,
                },
            },
            final(self).errors@ == if old(self).lookup_spec(scope, Namespace::Value, name) is None
                && old(self).lookup_spec(scope, Namespace::Module, name) is None {
                old(self).errors@.push(
                    NameResolveError {
                        kind: NameResolveErrorKind::UnresolvedName { name, namespace: Namespace::Value },
                        span,
                    },
                )
            } else {
                old(self).errors@
            },
    {
        if let Some(resolution) = self.lookup(scope, Namespace::Value, name) {
            return resolution;
        }
        if let Some(resolution) = self.lookup(scope, Namespace::Module, name) {
            return resolution;
        }
        self.unresolved(name, Namespace::Value, span)
    }

    /// A member of an imported module, looked up in its interface.
    fn resolve_module_member(
        &mut self,
        module: ModuleId,
        name: NameId,
        prefer_type: bool,
        imports: &ImportEnvironment,
        span: Range<usize>,
    ) -> (resolution: Res)
        requires
            old(self).wf(),
        ensures
            imports_foreign(*imports, old(self).module) ==> final(self).res_ok(resolution),
            final(self).wf(),
            final(self).extends(&*old(self)),
            final(self).keeps_sound(&*old(self), imports_foreign(*imports, old(self).module)),
            final(self).scopes@ == old(self).scopes@,
            match imports.interface_of(module) {
                None => resolution == Res::Member(name) && final(self).errors@ == old(self).errors@,
                Some(interface) => if name.0 < old(self).names.view().len() {
                    match interface.export_of(old(self).names.view()[name.0 as int]) {
                        Some(export) => resolution == member_resolution(export, prefer_type)
                            && final(self).errors@ == old(self).errors@,
                        None => resolution == Res::Error && final(self).errors@ == old(self).errors@.push(
                            NameResolveError { kind: NameResolveErrorKind::UnknownExport { module, name }, span },
                        ),
                    }
                } else {
                    resolution == Res::Error && final(self).errors@ == old(self).errors@
                },
            },
    {
        let interface = match imports.get_by_id(module) {
            Some(interface) => interface,
            None => {
                return Res::Member(name);
            },
        };
        if name.0 as usize >= self.names.names.len() {
            return Res::Error;
        }
        proof {
            if imports_foreign(*imports, self.module) {
                lemma_foreign_by_id(*imports, self.module, module);
                lemma_foreign_export(*interface, self.module, self.names.view()[name.0 as int]);
            }
        }
        let exported = match interface.get(self.names.get(name)) {
            Some(exported) => exported,
            None => {
                self.errors.push(
                    NameResolveError { kind: NameResolveErrorKind::UnknownExport { module, name }, span },
                );
                return Res::Error;
            },
        };
        if prefer_type {
            match exported.ty {
                Some(ty) => Res::Type(ty),
                None => match exported.value {
                    Some(symbol) => Res::Symbol(symbol),
                    None => Res::Error,
                },
            }
        } else {
            match exported.value {
                Some(symbol) => Res::Symbol(symbol),
                None => match exported.ty {
                    Some(ty) => Res::Type(ty),
                    None => Res::Error,
                },
            }
        }
    }

    /// A new scope nested in `parent`; once the scope table is full, the
    /// table-full error is reported and `parent` (or the module scope) is
    /// used in its place.
    fn new_scope(&mut self, parent: Option<ScopeId>, kind: ScopeKind, span: &Range<usize>) -> (scope: ScopeId)
        requires
            old(self).wf(),
            match parent {
                Some(parent) => parent.0 < old(self).scopes@.len(),
                None => true,
            },
        ensures
            final(self).wf(),
            final(self).extends(&*old(self)),
            final(self).keeps_sound(&*old(self), true),
            scope.0 < final(self).scopes@.len(),
            forall|i: int| 0 <= i < old(self).scopes@.len() ==> #[trigger] final(self).scopes@[i] == old(self).scopes@[i],
            final(self).scopes@.len() == old(self).scopes@.len() + 1 ==> {
                &&& scope.0 == old(self).scopes@.len()
                &&& final(self).scopes@[scope.0 as int].parent == parent
                &&& final(self).scopes@[scope.0 as int].kind == kind
                &&& forall|namespace: Namespace| #[trigger] final(self).scopes@[scope.0 as int].entries(namespace).len() == 0
            },
            final(self).scopes@.len() == old(self).scopes@.len() ==> scope == match parent {
                Some(parent) => parent,
                None => old(self).root_scope,
            },
    {
        if self.scopes.len() >= TABLE_CAPACITY {
            self.table_full(span);
            return match parent {
                Some(parent) => parent,
                None => self.root_scope,
            };
        }
        let id = ScopeId(index_u32(self.scopes.len()));
        let ghost before = self.scopes@;
        self.scopes.push(Scope::new(id, parent, kind));
        proof {
            assert forall|i: int| 0 <= i < self.scopes@.len() implies #[trigger] self.scopes@[i].id == ScopeId(i as u32)
                && match self.scopes@[i].parent {
                Some(parent) => parent.0 < i,
                None => true,
            } by {
                if i < before.len() {
                    assert(self.scopes@[i] == before[i]);
                }
            }
        }
        id
    }

    /// Reports an `export` below the module level.
    fn check_nested_export(&mut self, exported: bool, module_scope: bool, span: Range<usize>)
        requires
            old(self).wf(),
        ensures
            final(self).wf(),
            final(self).extends(&*old(self)),
            final(self).keeps_sound(&*old(self), true),
            final(self).scopes@ == old(self).scopes@,
            final(self).errors@ == if exported && !module_scope {
                old(self).errors@.push(NameResolveError { kind: NameResolveErrorKind::ExportNotAtModuleScope, span })
            } else {
                old(self).errors@
            },
    {
        if exported && !module_scope {
            self.errors.push(NameResolveError { kind: NameResolveErrorKind::ExportNotAtModuleScope, span });
        }
    }

    /// Binds the implicit `This` type of an interface or implementation.
    fn define_this_parameter(&mut self, scope: ScopeId, declaration: AstId, span: Range<usize>)
        requires
            old(self).wf(),
            scope.0 < old(self).scopes@.len(),
        ensures
            final(self).wf(),
            final(self).extends(&*old(self)),
            final(self).keeps_sound(&*old(self), true),
            final(self).scopes@.len() == old(self).scopes@.len(),
            final(self).binds_next(&*old(self), scope, Namespace::Type, "This"@),
            final(self).names_grew(&*old(self)),
    {
        let name = self.intern("This", &span);
        let resolution = self.allocate_generic_parameter(name, declaration, copy_range(&span));
        self.define(scope, Namespace::Type, name, resolution, None, span);
    }

    /// Binds an imported name whose import failed to `Res::Error` in both
    /// namespaces, so that its uses report nothing more.
    fn define_import_error(&mut self, name: NameId, span: Range<usize>)
        requires
            old(self).wf(),
        ensures
            final(self).wf(),
            final(self).extends(&*old(self)),
            final(self).keeps_sound(&*old(self), true),
            final(self).scopes@.len() == old(self).scopes@.len(),
            forall|i: int| 1 <= i < old(self).scopes@.len() ==> #[trigger] final(self).scopes@[i] == old(self).scopes@[i],
            final(self).scopes@[0].resolution_of(Namespace::Value, name) == Some(Res::Error),
            final(self).scopes@[0].resolution_of(Namespace::Type, name) == Some(Res::Error),
            final(self).scopes@[0].entries(Namespace::Value).len() == old(self).scopes@[0].entries(Namespace::Value).len() + 1,
            final(self).scopes@[0].entries(Namespace::Type).len() == old(self).scopes@[0].entries(Namespace::Type).len() + 1,
            final(self).scopes@[0].entries(Namespace::Module) == old(self).scopes@[0].entries(Namespace::Module),
            final(self).names == old(self).names,
            final(self).root_grew(&*old(self)),
    {
        let root = self.root_scope;
        self.define(root, Namespace::Value, name, Res::Error, Some(copy_range(&span)), copy_range(&span));
        let ghost valued = *self;
        self.define(root, Namespace::Type, name, Res::Error, Some(copy_range(&span)), span);
        proof {
            Self::lemma_grew_trans(&*old(self), &valued, &*self);
        }
    }
}

impl<'a, 'input> CollectedModule<'a, 'input> {
    fn collect_let(&mut self, node: &LetStatement<'input>, scope: ScopeId)
        requires
            old(self).wf(),
            scope.0 < old(self).scopes@.len(),
        ensures
            final(self).wf(),
            final(self).extends(&*old(self)),
            final(self).keeps_sound(&*old(self), true),
            final(self).scopes@.len() == old(self).scopes@.len(),
            final(self).binds_next(&*old(self), scope, Namespace::Value, node.name.value@),
            final(self).names_grew(&*old(self)),
            final(self).declares(node.name, true) || old(self).symbols@.len() == TABLE_CAPACITY,
    {
        let name = self.intern(node.name.value, &node.name.span);
        let resolution = self.allocate_symbol(name, SymbolKind::Let, &node.name, copy_range(&node.span), node.exported);
        let ghost allocated = *self;
        proof {
            if let Res::Symbol(id) = resolution {
                allocated.lemma_declared_recorded(node.name, true, Declaration::Symbol(id));
            }
        }
        self.define(
            scope,
            Namespace::Value,
            name,
            resolution,
            Some(copy_range(&node.name.span)),
            copy_range(&node.name.span),
        );
        proof {
            if resolution is Symbol {
                Self::lemma_declares_kept(&allocated, &*self, node.name, true);
            }
        }
    }

    fn collect_function(&mut self, node: &FunctionDefine<'input>, scope: ScopeId)
        requires
            old(self).wf(),
            scope.0 < old(self).scopes@.len(),
        ensures
            final(self).wf(),
            final(self).extends(&*old(self)),
            final(self).keeps_sound(&*old(self), true),
            final(self).scopes@.len() == old(self).scopes@.len(),
            final(self).binds_next(&*old(self), scope, Namespace::Value, node.name.value@),
            final(self).names_grew(&*old(self)),
            final(self).declares(node.name, true) || old(self).symbols@.len() == TABLE_CAPACITY,
    {
        let name = self.intern(node.name.value, &node.name.span);
        let resolution = self.allocate_symbol(
            name,
            SymbolKind::Function,
            &node.name,
            copy_range(&node.span),
            node.exported,
        );
        let ghost allocated = *self;
        proof {
            if let Res::Symbol(id) = resolution {
                allocated.lemma_declared_recorded(node.name, true, Declaration::Symbol(id));
            }
        }
        self.define(
            scope,
            Namespace::Value,
            name,
            resolution,
            Some(copy_range(&node.name.span)),
            copy_range(&node.name.span),
        );
        proof {
            if resolution is Symbol {
                Self::lemma_declares_kept(&allocated, &*self, node.name, true);
            }
        }
    }

    /// Declares an enum and its variants; a variant named twice is reported
    /// and declared again.
    #[verifier::spinoff_prover]
    fn collect_enum(&mut self, node: &EnumDefine<'input>, scope: ScopeId)
        requires
            old(self).wf(),
            scope.0 < old(self).scopes@.len(),
        ensures
            final(self).wf(),
            final(self).extends(&*old(self)),
            final(self).keeps_sound(&*old(self), true),
            final(self).scopes@.len() == old(self).scopes@.len(),
            final(self).binds_next(&*old(self), scope, Namespace::Type, node.name.value@),
            final(self).names_grew(&*old(self)),
            final(self).declares(node.name, false) || old(self).types@.len() == TABLE_CAPACITY,
    {
        let ghost entry = *self;
        let name = self.intern(node.name.value, &node.name.span);
        let allocated = self.allocate_type(
            Some(name),
            TypeDefKind::Enum,
            AstId::new(&node.name, AstKind::Literal),
            copy_range(&node.span),
            node.exported,
        );
        let ghost after_allocation = *self;
        proof {
            if let Some(id) = allocated {
                after_allocation.lemma_declared_recorded(node.name, false, Declaration::Type(id));
            }
        }
        let id = match allocated {
            Some(id) => id,
            None => {
                self.define(
                    scope,
                    Namespace::Type,
                    name,
                    Res::Error,
                    Some(copy_range(&node.name.span)),
                    copy_range(&node.name.span),
                );
                return;
            },
        };
        self.define(
            scope,
            Namespace::Type,
            name,
            Res::Type(id),
            Some(copy_range(&node.name.span)),
            copy_range(&node.name.span),
        );
        let ghost start = *self;
        let mut known: Vec<(NameId, Range<usize>)> = Vec::new();
        let mut variants: Vec<VariantId> = Vec::new();
        let mut index: usize = 0;
        while index < node.variants.len()
            invariant
                self.wf(),
                self.extends(&start),
                self.keeps_sound(&start, true),
                self.scopes@.len() == start.scopes@.len(),
                self.scopes@ == start.scopes@,
                self.names_grew(&start),
                id.index < self.types@.len(),
                index <= node.variants@.len(),
                forall|j: int| 0 <= j < variants@.len() ==> (#[trigger] variants@[j]).index < self.variants@.len(),
            decreases node.variants@.len() - index,
        {
            let variant = &node.variants[index];
            let variant_name = self.intern(variant.name.value, &variant.name.span);
            match crate::names::position_of_name(&known, variant_name) {
                Some(at) => {
                    let first = copy_range(&known[at].1);
                    self.errors.push(
                        NameResolveError {
                            kind: NameResolveErrorKind::DuplicateVariant { name: variant_name, first },
                            span: copy_range(&variant.name.span),
                        },
                    );
                },
                None => {
                    known.push((variant_name, copy_range(&variant.name.span)));
                },
            }
            if self.variants.len() >= TABLE_CAPACITY {
                self.table_full(&variant.name.span);
            } else {
                let variant_id = VariantId { module: self.module, index: index_u32(self.variants.len()) };
                let declaration = AstId::new(&variant.name, AstKind::Literal);
                let ghost before = self.variants@;
                self.variants.push(
                    Variant {
                        id: variant_id,
                        owner: id,
                        name: variant_name,
                        declaration,
                        span: copy_range(&variant.span),
                    },
                );
                proof {
                    assert forall|i: int| 0 <= i < self.variants@.len() implies (#[trigger] self.variants@[i]).id
                        == VariantId { module: self.module, index: i as u32 } by {
                        if i < before.len() {
                            assert(self.variants@[i] == before[i]);
                        }
                    }
                    self.lemma_agree_after_growth(self.symbols@, self.types@, self.fields@, before, self.generic_parameters@);
                }
                self.declare(declaration, Declaration::EnumVariant(variant_id));
                variants.push(variant_id);
            }
            index += 1;
        }
        let ghost before = self.types@;
        self.types[id.index as usize].variants = variants;
        proof {
            assert forall|i: int| 0 <= i < self.types@.len() implies (#[trigger] self.types@[i]).id == TypeDefId {
                module: self.module,
                index: i as u32,
            } by {
                assert(self.types@[i].id == before[i].id);
            }
            assert forall|i: int, j: int|
                0 <= i < self.types@.len() && 0 <= j < self.types@[i].variants@.len() implies (
                #[trigger] self.types@[i].variants@[j]).index < self.variants@.len() by {
                if i != id.index {
                    assert(self.types@[i] == before[i]);
                }
            }
            self.lemma_agree_after_growth(self.symbols@, before, self.fields@, self.variants@, self.generic_parameters@);
            Self::lemma_binds_next_kept(&entry, &start, &*self, scope, Namespace::Type, node.name.value@);
            Self::lemma_declares_kept(&after_allocation, &*self, node.name, false);
        }
    }

    fn collect_named_record(&mut self, node: &TypeDefine<'input>, scope: ScopeId)
        requires
            old(self).wf(),
            scope.0 < old(self).scopes@.len(),
        ensures
            final(self).wf(),
            final(self).extends(&*old(self)),
            final(self).keeps_sound(&*old(self), true),
            final(self).scopes@.len() == old(self).scopes@.len(),
            final(self).binds_next(&*old(self), scope, Namespace::Type, node.name.value@),
            final(self).names_grew(&*old(self)),
            final(self).declares(node.name, false) || old(self).types@.len() == TABLE_CAPACITY,
    {
        let ghost entry = *self;
        let name = self.intern(node.name.value, &node.name.span);
        let allocated = self.allocate_type(
            Some(name),
            TypeDefKind::Record,
            AstId::new(&node.name, AstKind::Literal),
            copy_range(&node.span),
            node.exported,
        );
        let ghost after_allocation = *self;
        proof {
            if let Some(id) = allocated {
                after_allocation.lemma_declared_recorded(node.name, false, Declaration::Type(id));
            }
        }
        let resolution = match allocated {
            Some(id) => Res::Type(id),
            None => Res::Error,
        };
        self.define(
            scope,
            Namespace::Type,
            name,
            resolution,
            Some(copy_range(&node.name.span)),
            copy_range(&node.name.span),
        );
        let ghost bound = *self;
        if let Some(id) = allocated {
            self.collect_record_fields(&node.body, id);
        }
        proof {
            Self::lemma_binds_next_kept(&entry, &bound, &*self, scope, Namespace::Type, node.name.value@);
            if allocated is Some {
                Self::lemma_declares_kept(&after_allocation, &*self, node.name, false);
            }
        }
    }

    fn collect_interface(&mut self, node: &InterfaceDefine<'input>, scope: ScopeId)
        requires
            old(self).wf(),
            scope.0 < old(self).scopes@.len(),
        ensures
            final(self).wf(),
            final(self).extends(&*old(self)),
            final(self).keeps_sound(&*old(self), true),
            final(self).scopes@.len() == old(self).scopes@.len(),
            final(self).binds_next(&*old(self), scope, Namespace::Type, node.name.value@),
            final(self).names_grew(&*old(self)),
            final(self).declares(node.name, false) || old(self).types@.len() == TABLE_CAPACITY,
    {
        let name = self.intern(node.name.value, &node.name.span);
        let allocated = self.allocate_type(
            Some(name),
            TypeDefKind::Interface,
            AstId::new(&node.name, AstKind::Literal),
            copy_range(&node.span),
            node.exported,
        );
        let ghost after_allocation = *self;
        proof {
            if let Some(id) = allocated {
                after_allocation.lemma_declared_recorded(node.name, false, Declaration::Type(id));
            }
        }
        let resolution = match allocated {
            Some(id) => Res::Type(id),
            None => Res::Error,
        };
        self.define(
            scope,
            Namespace::Type,
            name,
            resolution,
            Some(copy_range(&node.name.span)),
            copy_range(&node.name.span),
        );
        proof {
            if allocated is Some {
                Self::lemma_declares_kept(&after_allocation, &*self, node.name, false);
            }
        }
    }

    /// Declares a nested record type, which has no name.
    fn collect_anonymous_record(&mut self, block: &TypedefBlock<'input>) -> (id: Option<TypeDefId>)
        requires
            old(self).wf(),
        ensures
            final(self).wf(),
            final(self).extends(&*old(self)),
            final(self).keeps_sound(&*old(self), true),
            final(self).scopes@.len() == old(self).scopes@.len(),
            match id {
                Some(id) => id.module == final(self).module && id.index < final(self).types@.len(),
                None => true,
            },
            id == if old(self).types@.len() < TABLE_CAPACITY {
                Some(TypeDefId { module: old(self).module, index: old(self).types@.len() as u32 })
            } else {
                None::<TypeDefId>
            },
            final(self).scopes@ == old(self).scopes@,
            final(self).names_grew(&*old(self)),
        decreases block, 1nat,
    {
        let allocated = self.allocate_type(
            None,
            TypeDefKind::Record,
            AstId::new(block, AstKind::TypeBlock),
            copy_range(&block.span),
            false,
        );
        if let Some(id) = allocated {
            self.collect_record_fields(block, id);
        }
        allocated
    }

    /// Declares the fields of a record; a field named twice is reported and
    /// declared again.
    fn collect_record_fields(&mut self, block: &TypedefBlock<'input>, owner: TypeDefId)
        requires
            old(self).wf(),
            owner.index < old(self).types@.len(),
        ensures
            final(self).wf(),
            final(self).extends(&*old(self)),
            final(self).keeps_sound(&*old(self), true),
            final(self).scopes@.len() == old(self).scopes@.len(),
            final(self).scopes@ == old(self).scopes@,
            final(self).names_grew(&*old(self)),
            final(self).fields@.len() < TABLE_CAPACITY ==> final(self).types@[owner.index as int].fields@.len()
                == block.fields@.len(),
        decreases block, 0nat,
    {
        let ghost start = *self;
        let mut known: Vec<(NameId, Range<usize>)> = Vec::new();
        let mut fields: Vec<FieldId> = Vec::new();
        let mut index: usize = 0;
        while index < block.fields.len()
            invariant
                self.wf(),
                self.extends(&start),
                self.keeps_sound(&start, true),
                self.scopes@.len() == start.scopes@.len(),
                owner.index < self.types@.len(),
                index <= block.fields@.len(),
                self.scopes@ == start.scopes@,
                self.names_grew(&start),
                self.fields@.len() < TABLE_CAPACITY ==> fields@.len() == index,
            decreases block.fields@.len() - index,
        {
            let field = &block.fields[index];
            let name = self.intern(field.name.value, &field.name.span);
            match crate::names::position_of_name(&known, name) {
                Some(at) => {
                    let first = copy_range(&known[at].1);
                    self.errors.push(
                        NameResolveError {
                            kind: NameResolveErrorKind::DuplicateField { name, first },
                            span: copy_range(&field.name.span),
                        },
                    );
                },
                None => {
                    known.push((name, copy_range(&field.name.span)));
                },
            }
            proof {
                assert(decreases_to!(block => block.fields@[index as int]));
            }
            let nested_type = match &field.value {
                TypedefValue::Block(nested) => self.collect_anonymous_record(nested),
                TypedefValue::TypeInfo(_) => None,
            };
            if self.fields.len() >= TABLE_CAPACITY {
                self.table_full(&field.name.span);
            } else {
                let id = FieldId { module: self.module, index: index_u32(self.fields.len()) };
                let declaration = AstId::new(&field.name, AstKind::Literal);
                let ghost before = self.fields@;
                self.fields.push(
                    Field { id, owner, name, declaration, span: copy_range(&field.span), nested_type },
                );
                proof {
                    assert forall|i: int| 0 <= i < self.fields@.len() implies (#[trigger] self.fields@[i]).id
                        == FieldId { module: self.module, index: i as u32 } by {
                        if i < before.len() {
                            assert(self.fields@[i] == before[i]);
                        }
                    }
                    self.lemma_agree_after_growth(self.symbols@, self.types@, before, self.variants@, self.generic_parameters@);
                }
                self.declare(declaration, Declaration::Field(id));
                fields.push(id);
            }
            index += 1;
        }
        let ghost before = self.types@;
        self.types[owner.index as usize].fields = fields;
        proof {
            assert forall|i: int| 0 <= i < self.types@.len() implies (#[trigger] self.types@[i]).id == TypeDefId {
                module: self.module,
                index: i as u32,
            } by {
                assert(self.types@[i].id == before[i].id);
            }
            assert forall|i: int, j: int|
                0 <= i < self.types@.len() && 0 <= j < self.types@[i].variants@.len() implies (
                #[trigger] self.types@[i].variants@[j]).index < self.variants@.len() by {
                assert(self.types@[i].variants == before[i].variants);
            }
            self.lemma_agree_after_growth(self.symbols@, before, self.fields@, self.variants@, self.generic_parameters@);
        }
    }

    /// Declares the built-in types in the module scope.
    fn define_builtin_types(&mut self)
        requires
            old(self).wf(),
            old(self).names.view().len() == 0,
            old(self).scopes@[0].entries(Namespace::Type).len() == 0,
        ensures
            final(self).wf(),
            final(self).extends(&*old(self)),
            final(self).keeps_sound(&*old(self), true),
            final(self).root_grew(&*old(self)),
            final(self).scopes@.len() == old(self).scopes@.len(),
            final(self).scopes@[0].entries(Namespace::Type).len() == 10,
            final(self).scopes@[0].entries(Namespace::Value) == old(self).scopes@[0].entries(Namespace::Value),
            final(self).scopes@[0].entries(Namespace::Module) == old(self).scopes@[0].entries(Namespace::Module),
            final(self).builtins_bound(),
    {
        let builtins: [(&str, BuiltinType); 10] = [
            ("Bool", BuiltinType::Bool),
            ("bool", BuiltinType::Bool),
            ("Int", BuiltinType::Int),
            ("int", BuiltinType::Int),
            ("Float", BuiltinType::Float),
            ("float", BuiltinType::Float),
            ("String", BuiltinType::String),
            ("string", BuiltinType::String),
            ("List", BuiltinType::List),
            ("Set", BuiltinType::SetType),
        ];
        proof {
            lemma_builtin_names_distinct();
        }
        let ghost start = *self;
        let mut index: usize = 0;
        while index < 10
            invariant
                self.wf(),
                self.extends(&start),
                self.keeps_sound(&start, true),
                self.root_grew(&start),
                self.names_grew(&start),
                self.scopes@.len() == start.scopes@.len(),
                index <= 10,
                self.names.view().len() <= index,
                builtins@ == seq![
                    ("Bool", BuiltinType::Bool),
                    ("bool", BuiltinType::Bool),
                    ("Int", BuiltinType::Int),
                    ("int", BuiltinType::Int),
                    ("Float", BuiltinType::Float),
                    ("float", BuiltinType::Float),
                    ("String", BuiltinType::String),
                    ("string", BuiltinType::String),
                    ("List", BuiltinType::List),
                    ("Set", BuiltinType::SetType),
                ],
                forall|s: int, t: int| 0 <= s < t < 10 ==> builtin_type_name(s) != builtin_type_name(t),
                self.scopes@[0].entries(Namespace::Type).len() == index,
                self.scopes@[0].entries(Namespace::Value) == start.scopes@[0].entries(Namespace::Value),
                self.scopes@[0].entries(Namespace::Module) == start.scopes@[0].entries(Namespace::Module),
                forall|t: int| 0 <= t < index ==> #[trigger] builtin_bound_at(self.scopes@[0], self.names.view(), t),
            decreases 10 - index,
        {
            let (text, builtin) = builtins[index];
            proof {
                assert(text@ == builtin_type_name(index as int) && builtin == builtin_type_of(index as int)) by {
                    reveal_strlit("Bool");
                    reveal_strlit("bool");
                    reveal_strlit("Int");
                    reveal_strlit("int");
                    reveal_strlit("Float");
                    reveal_strlit("float");
                    reveal_strlit("String");
                    reveal_strlit("string");
                    reveal_strlit("List");
                    reveal_strlit("Set");
                }
            }
            let nowhere = Range { start: 0, end: 0 };
            let ghost before = *self;
            let name = self.intern(text, &nowhere);
            let ghost interned = *self;
            let root = self.root_scope;
            proof {
                let entries = interned.scopes@[0].entries(Namespace::Type);
                assert(entries == before.scopes@[0].entries(Namespace::Type));
                crate::names::lemma_latest_in(entries, name);
                if let Some(found) = latest(entries, name) {
                    let j = choose|j: int| 0 <= j < entries.len() && #[trigger] entries[j] == (name, found);
                    assert(builtin_bound_at(before.scopes@[0], before.names.view(), j));
                    assert(interned.names.view()[name.0 as int] == before.names.view()[name.0 as int]);
                    assert(false);
                }
            }
            self.define(root, Namespace::Type, name, Res::BuiltinType(builtin), None, nowhere);
            proof {
                Self::lemma_grew_trans(&start, &before, &*self);
                assert forall|t: int| 0 <= t < index + 1 implies #[trigger] builtin_bound_at(self.scopes@[0], self.names.view(), t) by {
                    if t < index {
                        assert(builtin_bound_at(before.scopes@[0], before.names.view(), t));
                        let n = before.scopes@[0].entries(Namespace::Type)[t].0;
                        assert(self.names.view()[n.0 as int] == before.names.view()[n.0 as int]);
                    }
                }
            }
            index += 1;
        }
    }

    /// Declares what the statements of a module declare at its level.
    fn collect_module_headers(&mut self, statements: &Statements<'input>)
        requires
            old(self).wf(),
        ensures
            final(self).wf(),
            final(self).extends(&*old(self)),
            final(self).keeps_sound(&*old(self), true),
            final(self).scopes@.len() == old(self).scopes@.len(),
            final(self).scopes@[0].entries(Namespace::Value).len() == old(self).scopes@[0].entries(Namespace::Value).len()
                + value_headers(statements.statements@, true),
            final(self).scopes@[0].entries(Namespace::Type).len() == old(self).scopes@[0].entries(Namespace::Type).len()
                + type_headers(statements.statements@),
            forall|i: int|
                0 <= i < statements.statements@.len() ==> final(self).header_collected(#[trigger] statements.statements@[i]),
            final(self).root_grew(&*old(self)),
            final(self).names_grew(&*old(self)),
    {
        let ghost start = *self;
        let mut index: usize = 0;
        while index < statements.statements.len()
            invariant
                self.wf(),
                self.extends(&start),
                self.root_grew(&start),
                self.names_grew(&start),
                self.keeps_sound(&start, true),
                self.scopes@.len() == start.scopes@.len(),
                index <= statements.statements@.len(),
                self.scopes@[0].entries(Namespace::Value).len() == start.scopes@[0].entries(Namespace::Value).len()
                    + value_headers(statements.statements@.subrange(0, index as int), true),
                self.scopes@[0].entries(Namespace::Type).len() == start.scopes@[0].entries(Namespace::Type).len()
                    + type_headers(statements.statements@.subrange(0, index as int)),
                forall|i: int| 0 <= i < index ==> self.header_collected(#[trigger] statements.statements@[i]),
            decreases statements.statements@.len() - index,
        {
            proof {
                let list = statements.statements@;
                assert(list.subrange(0, index + 1).drop_last() =~= list.subrange(0, index as int));
                assert(list.subrange(0, index + 1).last() == list[index as int]);
            }
            let ghost before = *self;
            let root = self.root_scope;
            match &statements.statements[index] {
                Statement::EnumDefine(node) => {
                    self.collect_enum(node, root);
                    proof {
                        Self::lemma_binds_next_root_names(&before, &*self, Namespace::Type, node.name.value@);
                    }
                },
                Statement::TypeDefine(node) => {
                    self.collect_named_record(node, root);
                    proof {
                        Self::lemma_binds_next_root_names(&before, &*self, Namespace::Type, node.name.value@);
                    }
                },
                Statement::InterfaceDefine(node) => {
                    self.collect_interface(node, root);
                    proof {
                        Self::lemma_binds_next_root_names(&before, &*self, Namespace::Type, node.name.value@);
                    }
                },
                Statement::LetStatement(node) => {
                    self.collect_let(node, root);
                    proof {
                        Self::lemma_binds_next_root_names(&before, &*self, Namespace::Value, node.name.value@);
                    }
                },
                Statement::FunctionDefine(node) => {
                    self.collect_function(node, root);
                    proof {
                        Self::lemma_binds_next_root_names(&before, &*self, Namespace::Value, node.name.value@);
                    }
                },
                _ => {
                    proof {
                        Self::lemma_grew_same(&before, &*self);
                    }
                },
            }
            proof {
                Self::lemma_grew_trans(&start, &before, &*self);
                assert(self.header_collected(statements.statements@[index as int]));
                assert forall|i: int| 0 <= i < index + 1 implies self.header_collected(
                    #[trigger] statements.statements@[i],
                ) by {
                    if i < index {
                        Self::lemma_header_collected_kept(&before, &*self, statements.statements@[i]);
                    }
                }
            }
            index += 1;
        }
        proof {
            assert(statements.statements@.subrange(0, index as int) =~= statements.statements@);
        }
    }

    /// Declares the types and functions of a block ahead of its statements;
    /// its bindings are declared as they come.
    fn collect_block_headers(&mut self, statements: &Statements<'input>, scope: ScopeId)
        requires
            old(self).wf(),
            scope.0 < old(self).scopes@.len(),
        ensures
            final(self).wf(),
            final(self).extends(&*old(self)),
            final(self).keeps_sound(&*old(self), true),
            final(self).scopes@.len() == old(self).scopes@.len(),
            final(self).scopes@[scope.0 as int].entries(Namespace::Value).len() == old(self).scopes@[scope.0 as int].entries(
                Namespace::Value,
            ).len() + value_headers(statements.statements@, false),
            final(self).scopes@[scope.0 as int].entries(Namespace::Type).len() == old(self).scopes@[scope.0 as int].entries(
                Namespace::Type,
            ).len() + type_headers(statements.statements@),
    {
        let ghost start = *self;
        let mut index: usize = 0;
        while index < statements.statements.len()
            invariant
                self.wf(),
                self.extends(&start),
                self.keeps_sound(&start, true),
                self.scopes@.len() == start.scopes@.len(),
                scope.0 < self.scopes@.len(),
                index <= statements.statements@.len(),
                self.scopes@[scope.0 as int].entries(Namespace::Value).len() == start.scopes@[scope.0 as int].entries(
                    Namespace::Value,
                ).len() + value_headers(statements.statements@.subrange(0, index as int), false),
                self.scopes@[scope.0 as int].entries(Namespace::Type).len() == start.scopes@[scope.0 as int].entries(
                    Namespace::Type,
                ).len() + type_headers(statements.statements@.subrange(0, index as int)),
            decreases statements.statements@.len() - index,
        {
            proof {
                let list = statements.statements@;
                assert(list.subrange(0, index + 1).drop_last() =~= list.subrange(0, index as int));
                assert(list.subrange(0, index + 1).last() == list[index as int]);
            }
            match &statements.statements[index] {
                Statement::EnumDefine(node) => self.collect_enum(node, scope),
                Statement::TypeDefine(node) => self.collect_named_record(node, scope),
                Statement::InterfaceDefine(node) => self.collect_interface(node, scope),
                Statement::FunctionDefine(node) => self.collect_function(node, scope),
                _ => {},
            }
            index += 1;
        }
        proof {
            assert(statements.statements@.subrange(0, index as int) =~= statements.statements@);
        }
    }
}

/// A symbol that its module exports: marked `export`, and what the module
/// scope binds its name to.
pub open spec fn value_exported(symbol: Symbol, root: Scope, names: Seq<Seq<char>>) -> bool {
    &&& symbol.exported
    &&& symbol.name.0 < names.len()
    &&& root.resolution_of(Namespace::Value, symbol.name) == Some(Res::Symbol(symbol.id))
}

/// A named type that its module exports: marked `export`, and what the
/// module scope binds its name to.
pub open spec fn type_exported(ty: TypeDef, root: Scope, names: Seq<Seq<char>>) -> bool {
    &&& ty.exported
    &&& match ty.name {
        Some(name) => name.0 < names.len() && root.resolution_of(Namespace::Type, name) == Some(Res::Type(ty.id)),
        None => false,
    }
}

/// The interface exports, under its name, every exported symbol and type
/// of the tables, and nothing else.
pub open spec fn lists_exports(
    interface: ModuleInterface,
    symbols: Seq<Symbol>,
    types: Seq<TypeDef>,
    root: Scope,
    names: Seq<Seq<char>>,
) -> bool {
    &&& forall|i: int|
        0 <= i < symbols.len() && value_exported(#[trigger] symbols[i], root, names) ==> match interface.export_of(
            names[symbols[i].name.0 as int],
        ) {
            Some(export) => export.value == Some(symbols[i].id),
            None => false,
        }
    &&& forall|i: int|
        0 <= i < types.len() && type_exported(#[trigger] types[i], root, names) ==> match interface.export_of(
            names[types[i].name.unwrap().0 as int],
        ) {
            Some(export) => export.ty == Some(types[i].id),
            None => false,
        }
    &&& forall|text: Seq<char>|
        #![trigger interface.export_of(text)]
        match interface.export_of(text) {
            Some(export) => {
                &&& export.value is Some || export.ty is Some
                &&& export.value matches Some(id) ==> exists|i: int|
                    0 <= i < symbols.len() && #[trigger] symbols[i].id == id && value_exported(symbols[i], root, names)
                        && names[symbols[i].name.0 as int] == text
                &&& export.ty matches Some(id) ==> exists|i: int|
                    0 <= i < types.len() && #[trigger] types[i].id == id && type_exported(types[i], root, names)
                        && names[types[i].name.unwrap().0 as int] == text
            },
            None => true,
        }
}

impl<'a, 'input> CollectedModule<'a, 'input> {
    /// The collected symbols, numbered by position.
    pub closed spec fn collected_symbols(&self) -> Seq<Symbol> {
        self.symbols@
    }

    /// The collected types, numbered by position.
    pub closed spec fn collected_types(&self) -> Seq<TypeDef> {
        self.types@
    }

    /// The bindings of the module scope.
    pub closed spec fn module_scope(&self) -> Scope {
        self.scopes@[self.root_scope.0 as int]
    }

    /// What each declaring node declares, in the order recorded.
    pub closed spec fn collected_declarations(&self) -> Seq<(AstId, Declaration)> {
        self.declarations@
    }

    /// The identifier texts, numbered by position.
    pub closed spec fn collected_names(&self) -> Seq<Seq<char>> {
        self.names.view()
    }

    /// The interface of the module lists exactly its exports: every
    /// exported symbol and type that the module scope binds under its name,
    /// and nothing else.
    pub open spec fn interface_complete(&self) -> bool {
        lists_exports(
            self.exported(),
            self.collected_symbols(),
            self.collected_types(),
            self.module_scope(),
            self.collected_names(),
        )
    }

    /// Builds the interface of the module from its module-level
    /// declarations.
    #[verifier::spinoff_prover]
    fn build_interface(&mut self)
        requires
            old(self).wf(),
        ensures
            final(self).wf(),
            final(self).module == old(self).module,
            final(self).scopes@ == old(self).scopes@,
            final(self).symbols@ == old(self).symbols@,
            final(self).types@ == old(self).types@,
            final(self).names == old(self).names,
            final(self).fields@ == old(self).fields@,
            final(self).variants@ == old(self).variants@,
            final(self).generic_parameters@ == old(self).generic_parameters@,
            final(self).references@ == old(self).references@,
            final(self).declarations@ == old(self).declarations@,
            final(self).source == old(self).source,
            final(self).interface_complete(),
    {
        let ghost symbols = self.symbols@;
        let ghost types = self.types@;
        let ghost names = self.names.view();
        let ghost root = self.scopes@[0];
        let mut interface = ModuleInterface::new(self.module);
        let mut index: usize = 0;
        while index < self.symbols.len()
            invariant
                self.wf(),
                symbols == self.symbols@,
                names == self.names.view(),
                root == self.scopes@[0],
                interface.wf(),
                interface.module == self.module,
                index <= symbols.len(),
                forall|i: int|
                    0 <= i < index && value_exported(#[trigger] symbols[i], root, names) ==> match interface.export_of(
                        names[symbols[i].name.0 as int],
                    ) {
                        Some(export) => export.value == Some(symbols[i].id),
                        None => false,
                    },
                forall|text: Seq<char>|
                    #![trigger interface.export_of(text)]
                    match interface.export_of(text) {
                        Some(export) => {
                            &&& export.value is Some
                            &&& export.ty is None
                            &&& export.value matches Some(id) ==> exists|i: int|
                                0 <= i < symbols.len() && #[trigger] symbols[i].id == id && value_exported(
                                    symbols[i],
                                    root,
                                    names,
                                ) && names[symbols[i].name.0 as int] == text
                        },
                        None => true,
                    },
            decreases symbols.len() - index,
        {
            let symbol = &self.symbols[index];
            let bound = match self.scopes[0].get(Namespace::Value, symbol.name) {
                Some(Res::Symbol(id)) => id == symbol.id,
                _ => false,
            };
            if symbol.exported && bound && (symbol.name.0 as usize) < self.names.names.len() {
                let ghost before = interface;
                let text = self.names.get(symbol.name);
                interface.export_value(text, symbol.id);
                proof {
                    assert(value_exported(symbols[index as int], root, names));
                    assert forall|i: int|
                        0 <= i < index + 1 && value_exported(#[trigger] symbols[i], root, names) implies match interface.export_of(
                            names[symbols[i].name.0 as int],
                        ) {
                            Some(export) => export.value == Some(symbols[i].id),
                            None => false,
                        } by {
                        if i < index && names[symbols[i].name.0 as int] == text@ {
                            assert(symbols[i].name == symbol.name);
                            assert(symbols[i].id == symbol.id);
                        }
                    }
                    assert forall|t: Seq<char>| #![trigger interface.export_of(t)]
                        match interface.export_of(t) {
                            Some(export) => {
                                &&& export.value is Some
                                &&& export.ty is None
                                &&& export.value matches Some(id) ==> exists|i: int|
                                    0 <= i < symbols.len() && #[trigger] symbols[i].id == id && value_exported(
                                        symbols[i],
                                        root,
                                        names,
                                    ) && names[symbols[i].name.0 as int] == t
                            },
                            None => true,
                        } by {
                        if t == text@ {
                            assert(symbols[index as int].id == symbol.id);
                        } else {
                            assert(interface.export_of(t) == before.export_of(t));
                        }
                    }
                }
            }
            index += 1;
        }
        let mut index: usize = 0;
        while index < self.types.len()
            invariant
                self.wf(),
                symbols == self.symbols@,
                types == self.types@,
                names == self.names.view(),
                root == self.scopes@[0],
                interface.wf(),
                interface.module == self.module,
                index <= types.len(),
                forall|i: int|
                    0 <= i < symbols.len() && value_exported(#[trigger] symbols[i], root, names) ==> match interface.export_of(
                        names[symbols[i].name.0 as int],
                    ) {
                        Some(export) => export.value == Some(symbols[i].id),
                        None => false,
                    },
                forall|i: int|
                    0 <= i < index && type_exported(#[trigger] types[i], root, names) ==> match interface.export_of(
                        names[types[i].name.unwrap().0 as int],
                    ) {
                        Some(export) => export.ty == Some(types[i].id),
                        None => false,
                    },
                forall|text: Seq<char>|
                    #![trigger interface.export_of(text)]
                    match interface.export_of(text) {
                        Some(export) => {
                            &&& export.value is Some || export.ty is Some
                            &&& export.value matches Some(id) ==> exists|i: int|
                                0 <= i < symbols.len() && #[trigger] symbols[i].id == id && value_exported(
                                    symbols[i],
                                    root,
                                    names,
                                ) && names[symbols[i].name.0 as int] == text
                            &&& export.ty matches Some(id) ==> exists|i: int|
                                0 <= i < types.len() && #[trigger] types[i].id == id && type_exported(types[i], root, names)
                                    && names[types[i].name.unwrap().0 as int] == text
                        },
                        None => true,
                    },
            decreases types.len() - index,
        {
            let ty = &self.types[index];
            if let Some(name) = ty.name {
                let bound = match self.scopes[0].get(Namespace::Type, name) {
                    Some(Res::Type(id)) => id == ty.id,
                    _ => false,
                };
                if ty.exported && bound && (name.0 as usize) < self.names.names.len() {
                    let ghost before = interface;
                    let text = self.names.get(name);
                    interface.export_type(text, ty.id);
                    proof {
                        assert(type_exported(types[index as int], root, names));
                        assert forall|i: int|
                            0 <= i < symbols.len() && value_exported(#[trigger] symbols[i], root, names) implies match interface.export_of(
                                names[symbols[i].name.0 as int],
                            ) {
                                Some(export) => export.value == Some(symbols[i].id),
                                None => false,
                            } by {
                            if names[symbols[i].name.0 as int] != text@ {
                                assert(interface.export_of(names[symbols[i].name.0 as int]) == before.export_of(
                                    names[symbols[i].name.0 as int],
                                ));
                            }
                        }
                        assert forall|i: int|
                            0 <= i < index + 1 && type_exported(#[trigger] types[i], root, names) implies match interface.export_of(
                                names[types[i].name.unwrap().0 as int],
                            ) {
                                Some(export) => export.ty == Some(types[i].id),
                                None => false,
                            } by {
                            if i < index && names[types[i].name.unwrap().0 as int] == text@ {
                                assert(types[i].name.unwrap() == name);
                                assert(types[i].id == ty.id);
                            }
                        }
                        assert forall|t: Seq<char>| #![trigger interface.export_of(t)]
                            match interface.export_of(t) {
                                Some(export) => {
                                    &&& export.value is Some || export.ty is Some
                                    &&& export.value matches Some(id) ==> exists|i: int|
                                        0 <= i < symbols.len() && #[trigger] symbols[i].id == id && value_exported(
                                            symbols[i],
                                            root,
                                            names,
                                        ) && names[symbols[i].name.0 as int] == t
                                    &&& export.ty matches Some(id) ==> exists|i: int|
                                        0 <= i < types.len() && #[trigger] types[i].id == id && type_exported(
                                            types[i],
                                            root,
                                            names,
                                        ) && names[types[i].name.unwrap().0 as int] == t
                                },
                                None => true,
                            } by {
                            if t == text@ {
                                assert(types[index as int].id == ty.id);
                                assert(before.export_of(t) == before.export_of(text@));
                            } else {
                                assert(interface.export_of(t) == before.export_of(t));
                            }
                        }
                    }
                }
            }
            index += 1;
        }
        self.interface = interface;
    }
}

/// Collects the declarations of a module: the built-in types, then every
/// module-level declaration (each gets its table entry, declared by its
/// name's literal, and a binding of its name in the module scope), then
/// the interface the module exports.
pub fn collect_module<'a, 'input>(source: &'a Source<'input>, module: ModuleId) -> (collected: CollectedModule<'a, 'input>)
    ensures
        collected.wf(),
        collected.module_id() == module,
        collected.interface_complete(),
        collected.exported().module == module,
        collected.sound(),
        collected.statements() == source.statements@,
        forall|i: int| 0 <= i < source.statements@.len() ==> collected.header_collected(#[trigger] source.statements@[i]),
        collected.builtins_bound(),
{
    let root_scope = ScopeId(0);
    let first = Scope::new(root_scope, None, ScopeKind::Module);
    let mut collected = CollectedModule {
        source,
        module,
        names: NameInterner::new(),
        symbols: Vec::new(),
        types: Vec::new(),
        fields: Vec::new(),
        variants: Vec::new(),
        generic_parameters: Vec::new(),
        declarations: Vec::new(),
        references: Vec::new(),
        scopes: vec![first],
        root_scope,
        errors: Vec::new(),
        interface: ModuleInterface::new(module),
    };
    proof {
        assert(collected.scopes@[0].id == ScopeId(0));
        assert(scopes_wf(collected.scopes@));
        assert(collected.scopes@[0] == first);
        assert(collected.sound());
    }
    collected.define_builtin_types();
    let ghost built = collected;
    collected.collect_module_headers(source);
    let ghost headed = collected;
    collected.build_interface();
    proof {
        CollectedModule::lemma_builtins_kept(&built, &headed);
        assert(collected.module_scope() == headed.module_scope());
        assert(collected.collected_names() == headed.collected_names());
        assert forall|i: int| 0 <= i < source.statements@.len() implies collected.header_collected(
            #[trigger] source.statements@[i],
        ) by {
            assert(headed.header_collected(source.statements@[i]));
        }
    }
    collected
}

impl<'a, 'input> CollectedModule<'a, 'input> {
    pub fn module(&self) -> (module: ModuleId)
        ensures
            module == self.module_id(),
    {
        self.module
    }

    pub fn interface(&self) -> (interface: &ModuleInterface)
        ensures
            *interface == self.exported(),
    {
        &self.interface
    }

    pub fn errors(&self) -> (errors: &[NameResolveError])
        ensures
            errors@ == self.error_list(),
    {
        self.errors.as_slice()
    }

    /// Binds the names each import statement brings in at the module
    /// level.  An import from a path the environment does not know is
    /// reported, and the names it would bind resolve to `Res::Error`.
    fn resolve_imports(&mut self, imports: &ImportEnvironment)
        requires
            old(self).wf(),
        ensures
            final(self).wf(),
            final(self).extends(&*old(self)),
            final(self).keeps_sound(&*old(self), imports_foreign(*imports, old(self).module)),
            forall|i: int|
                0 <= i < old(self).statements().len() ==> import_reported(
                    *imports,
                    final(self).errors@,
                    #[trigger] old(self).statements()[i],
                ),
            forall|i: int|
                0 <= i < old(self).statements().len() ==> final(self).imports_bound(
                    *imports,
                    #[trigger] old(self).statements()[i],
                ),
    {
        let ghost start = *self;
        let source = self.source;
        let mut index: usize = 0;
        while index < source.statements.len()
            invariant
                self.wf(),
                self.extends(&start),
                self.keeps_sound(&start, imports_foreign(*imports, self.module)),
                self.source == source,
                start.source == source,
                index <= source.statements@.len(),
                forall|i: int|
                    0 <= i < index ==> import_reported(*imports, self.errors@, #[trigger] source.statements@[i]),
                forall|i: int| 0 <= i < index ==> self.imports_bound(*imports, #[trigger] source.statements@[i]),
            decreases source.statements@.len() - index,
        {
            let ghost round = *self;
            if let Statement::ImportStatement(import) = &source.statements[index] {
                match imports.get_by_path(import.path.value) {
                    None => {
                        self.errors.push(
                            NameResolveError {
                                kind: NameResolveErrorKind::UnknownModule,
                                span: copy_range(&import.path.span),
                            },
                        );
                        let ghost reported = *self;
                        self.poison_unknown_import(import);
                        proof {
                            Self::lemma_grew_same(&round, &reported);
                            Self::lemma_grew_trans(&round, &reported, &*self);
                            let e = reported.errors@.len() - 1;
                            assert(self.errors@[e] == reported.errors@[e]);
                            assert(self.errors@.contains(
                                NameResolveError { kind: NameResolveErrorKind::UnknownModule, span: import.path.span },
                            ));
                            assert(import_reported(*imports, self.errors@, source.statements@[index as int]));
                        }
                    },
                    Some(interface) => {
                        proof {
                            if imports_foreign(*imports, self.module) {
                                lemma_foreign_by_path(*imports, self.module, import.path.value@);
                            }
                        }
                        self.import_from(import, interface);
                        proof {
                            assert(import_reported(*imports, self.errors@, source.statements@[index as int]));
                        }
                    },
                }
            }
            proof {
                assert forall|i: int| 0 <= i < index + 1 implies self.imports_bound(
                    *imports,
                    #[trigger] source.statements@[i],
                ) by {
                    if i < index {
                        Self::lemma_imports_bound_kept(&round, &*self, *imports, source.statements@[i]);
                    }
                }
                assert forall|i: int| 0 <= i < index + 1 implies import_reported(
                    *imports,
                    self.errors@,
                    #[trigger] source.statements@[i],
                ) by {
                    if i < index {
                        lemma_import_reported_grows(*imports, round.errors@, self.errors@, source.statements@[i]);
                    }
                }
            }
            index += 1;
        }
    }

    /// Binds what one import statement imports from a known module.
    fn import_from(&mut self, import: &ImportStatement<'input>, interface: &ModuleInterface)
        requires
            old(self).wf(),
        ensures
            final(self).wf(),
            final(self).extends(&*old(self)),
            final(self).keeps_sound(&*old(self), foreign_interface(*interface, old(self).module)),
            import.kind matches ImportKind::Named(elements) ==> forall|k: int|
                0 <= k < elements@.len() && interface.export_of((#[trigger] elements@[k]).name.value@) is None
                    ==> export_reported(final(self).errors@, interface.module, elements@[k].name.span),
            final(self).root_grew(&*old(self)),
            final(self).names_grew(&*old(self)),
            final(self).import_bound(*import, *interface),
    {
        let root = self.root_scope;
        match &import.kind {
            ImportKind::SideEffect => {},
            ImportKind::Namespace { alias } => {
                let name = self.intern(alias.value, &alias.span);
                self.define(
                    root,
                    Namespace::Module,
                    name,
                    Res::Module(interface.module),
                    Some(copy_range(&alias.span)),
                    copy_range(&alias.span),
                );
                proof {
                    let entries = self.scopes@[0].entries(Namespace::Module);
                    let j = entries.len() - 1;
                    assert(entries[j] == entries.last());
                    assert(self.root_binds(Namespace::Module, alias.value@, Res::Module(interface.module)));
                }
                self.declare(AstId::new(alias, AstKind::Literal), Declaration::Module(interface.module));
            },
            ImportKind::Named(elements) => {
                let ghost start = *self;
                let mut index: usize = 0;
                while index < elements.len()
                    invariant
                        self.wf(),
                        self.extends(&start),
                        self.keeps_sound(&start, foreign_interface(*interface, self.module)),
                        root == self.root_scope,
                        import.kind == ImportKind::Named(*elements),
                        index <= elements@.len(),
                        forall|k: int|
                            0 <= k < index && interface.export_of((#[trigger] elements@[k]).name.value@) is None
                                ==> export_reported(self.errors@, interface.module, elements@[k].name.span),
                        self.root_grew(&start),
                        self.names_grew(&start),
                        start.root_grew(&*old(self)),
                        start.names_grew(&*old(self)),
                        forall|k: int| 0 <= k < index ==> self.element_bound(*interface, #[trigger] elements@[k]),
                    decreases elements@.len() - index,
                {
                    let ghost round = *self;
                    let element = &elements[index];
                    let local = match &element.alias {
                        Some(alias) => alias,
                        None => &element.name,
                    };
                    let local_name = self.intern(local.value, &local.span);
                    let ghost first_interned = *self;
                    let imported_name = self.intern(element.name.value, &element.name.span);
                    let ghost interned = *self;
                    proof {
                        Self::lemma_grew_trans(&round, &first_interned, &*self);
                        if foreign_interface(*interface, self.module) {
                            lemma_foreign_export(*interface, self.module, element.name.value@);
                        }
                    }
                    match interface.get(element.name.value) {
                        None => {
                            self.errors.push(
                                NameResolveError {
                                    kind: NameResolveErrorKind::UnknownExport {
                                        module: interface.module,
                                        name: imported_name,
                                    },
                                    span: copy_range(&element.name.span),
                                },
                            );
                            let ghost reported = *self;
                            self.define_import_error(local_name, copy_range(&local.span));
                            proof {
                                Self::lemma_grew_trans(&interned, &reported, &*self);
                                let e = reported.errors@.len() - 1;
                                assert(self.errors@[e] == reported.errors@[e]);
                                assert(reports_unknown_export(self.errors@[e], interface.module, elements@[index as int].name.span));
                                assert(export_reported(self.errors@, interface.module, elements@[index as int].name.span));
                            }
                        },
                        Some(exported) => {
                            let ghost named = *self;
                            if let Some(symbol) = exported.value {
                                self.define(
                                    root,
                                    Namespace::Value,
                                    local_name,
                                    Res::Symbol(symbol),
                                    Some(copy_range(&local.span)),
                                    copy_range(&local.span),
                                );
                                proof {
                                    let entries = self.scopes@[0].entries(Namespace::Value);
                                    assert(entries[entries.len() - 1] == entries.last());
                                    assert(self.root_binds(Namespace::Value, local.value@, Res::Symbol(symbol)));
                                }
                            }
                            let ghost valued = *self;
                            if let Some(ty) = exported.ty {
                                self.define(
                                    root,
                                    Namespace::Type,
                                    local_name,
                                    Res::Type(ty),
                                    Some(copy_range(&local.span)),
                                    copy_range(&local.span),
                                );
                                proof {
                                    let entries = self.scopes@[0].entries(Namespace::Type);
                                    assert(entries[entries.len() - 1] == entries.last());
                                    assert(self.root_binds(Namespace::Type, local.value@, Res::Type(ty)));
                                    if let Some(symbol) = exported.value {
                                        Self::lemma_root_binds_kept(
                                            &valued,
                                            &*self,
                                            Namespace::Value,
                                            local.value@,
                                            Res::Symbol(symbol),
                                        );
                                    }
                                }
                            }
                            let ghost typed = *self;
                            self.declare(
                                AstId::new(local, AstKind::Literal),
                                Declaration::Import { module: interface.module, value: exported.value, ty: exported.ty },
                            );
                            proof {
                                Self::lemma_grew_trans(&named, &valued, &typed);
                                Self::lemma_grew_trans(&named, &typed, &*self);
                                Self::lemma_grew_trans(&interned, &named, &*self);
                            }
                        },
                    }
                    proof {
                        Self::lemma_grew_trans(&round, &interned, &*self);
                        Self::lemma_grew_trans(&start, &round, &*self);
                        assert forall|k: int| 0 <= k < index + 1 implies self.element_bound(
                            *interface,
                            #[trigger] elements@[k],
                        ) by {
                            if k < index {
                                Self::lemma_element_bound_kept(&round, &*self, *interface, elements@[k]);
                            }
                        }
                        assert forall|k: int|
                            0 <= k < index + 1 && interface.export_of((#[trigger] elements@[k]).name.value@) is None
                                implies export_reported(self.errors@, interface.module, elements@[k].name.span) by {
                            if k < index {
                                let e = choose|e: int|
                                    0 <= e < round.errors@.len() && reports_unknown_export(
                                        #[trigger] round.errors@[e],
                                        interface.module,
                                        elements@[k].name.span,
                                    );
                                assert(self.errors@[e] == round.errors@[e]);
                            }
                        }
                    }
                    index += 1;
                }
            },
        }
    }

    /// Binds the names of an import from an unknown module to `Res::Error`.
    fn poison_unknown_import(&mut self, import: &ImportStatement<'input>)
        requires
            old(self).wf(),
        ensures
            final(self).wf(),
            final(self).extends(&*old(self)),
            final(self).keeps_sound(&*old(self), true),
            final(self).scopes@.len() == old(self).scopes@.len(),
            import.kind is SideEffect ==> final(self).scopes@ == old(self).scopes@,
            final(self).root_grew(&*old(self)),
            final(self).names_grew(&*old(self)),
            import.kind is Namespace ==> final(self).scopes@[0].entries(Namespace::Module).len() == old(
                self,
            ).scopes@[0].entries(Namespace::Module).len() + 1,
            import.kind matches ImportKind::Named(elements) ==> {
                &&& final(self).scopes@[0].entries(Namespace::Value).len() == old(self).scopes@[0].entries(
                    Namespace::Value,
                ).len() + elements@.len()
                &&& final(self).scopes@[0].entries(Namespace::Type).len() == old(self).scopes@[0].entries(
                    Namespace::Type,
                ).len() + elements@.len()
            },
    {
        let root = self.root_scope;
        let ghost entry = *self;
        proof {
            Self::lemma_grew_same(&entry, &entry);
        }
        match &import.kind {
            ImportKind::SideEffect => {},
            ImportKind::Namespace { alias } => {
                let name = self.intern(alias.value, &alias.span);
                let ghost interned = *self;
                self.define(
                    root,
                    Namespace::Module,
                    name,
                    Res::Error,
                    Some(copy_range(&alias.span)),
                    copy_range(&alias.span),
                );
                proof {
                    Self::lemma_grew_same(&entry, &interned);
                    Self::lemma_grew_trans(&entry, &interned, &*self);
                }
            },
            ImportKind::Named(elements) => {
                let ghost start = *self;
                let mut index: usize = 0;
                while index < elements.len()
                    invariant
                        self.wf(),
                        self.extends(&start),
                        self.keeps_sound(&start, true),
                        self.scopes@.len() == start.scopes@.len(),
                        index <= elements@.len(),
                        self.scopes@[0].entries(Namespace::Value).len() == start.scopes@[0].entries(Namespace::Value).len()
                            + index,
                        self.scopes@[0].entries(Namespace::Type).len() == start.scopes@[0].entries(Namespace::Type).len()
                            + index,
                        self.root_grew(&start),
                        self.names_grew(&start),
                        start == entry,
                    decreases elements@.len() - index,
                {
                    let ghost round = *self;
                    let element = &elements[index];
                    let local = match &element.alias {
                        Some(alias) => alias,
                        None => &element.name,
                    };
                    let name = self.intern(local.value, &local.span);
                    let ghost interned = *self;
                    self.define_import_error(name, copy_range(&local.span));
                    proof {
                        Self::lemma_grew_same(&round, &interned);
                        Self::lemma_grew_trans(&round, &interned, &*self);
                        Self::lemma_grew_trans(&start, &round, &*self);
                    }
                    index += 1;
                }
            },
        }
    }
}

impl<'a, 'input> CollectedModule<'a, 'input> {
    /// Resolves a type and its type parameters in the type namespace.
    fn resolve_type_info(&mut self, type_info: &TypeInfo<'input>, scope: ScopeId)
        requires
            old(self).wf(),
            scope.0 < old(self).scopes@.len(),
        ensures
            final(self).wf(),
            final(self).extends(&*old(self)),
            final(self).keeps_sound(&*old(self), true),
            final(self).resolved(type_info.name),
            final(self).scopes@ == old(self).scopes@,
        decreases type_info,
    {
        let name = self.intern(type_info.name.value, &type_info.name.span);
        let resolution = self.resolve_name(scope, name, Namespace::Type, copy_range(&type_info.name.span));
        self.record_reference(&type_info.name, resolution);
        proof {
            let k = self.references@.len() - 1;
            assert(self.references@[k].0 == reference_id(type_info.name));
        }
        let ghost start = *self;
        let mut index: usize = 0;
        while index < type_info.parameters.len()
            invariant
                self.wf(),
                self.extends(&start),
                self.keeps_sound(&start, true),
                scope.0 < self.scopes@.len(),
                self.resolved(type_info.name),
                self.scopes@ == start.scopes@,
            decreases type_info.parameters@.len() - index,
        {
            proof {
                assert(decreases_to!(type_info => type_info.parameters@[index as int]));
            }
            let ghost before = *self;
            self.resolve_type_info(&type_info.parameters[index], scope);
            proof {
                Self::lemma_resolved_kept(&before, &*self);
            }
            index += 1;
        }
    }

    /// Resolves the field types of a record body and of the records nested
    /// in it.
    fn resolve_typedef_block(&mut self, block: &TypedefBlock<'input>, scope: ScopeId)
        requires
            old(self).wf(),
            scope.0 < old(self).scopes@.len(),
        ensures
            final(self).wf(),
            final(self).extends(&*old(self)),
            final(self).keeps_sound(&*old(self), true),
            final(self).fields_resolved(*block),
            final(self).scopes@ == old(self).scopes@,
        decreases block,
    {
        let ghost start = *self;
        let mut index: usize = 0;
        while index < block.fields.len()
            invariant
                self.wf(),
                self.extends(&start),
                self.keeps_sound(&start, true),
                scope.0 < self.scopes@.len(),
                index <= block.fields@.len(),
                self.scopes@ == start.scopes@,
                forall|k: int|
                    0 <= k < index ==> ((#[trigger] block.fields@[k]).value matches TypedefValue::TypeInfo(type_info)
                        ==> self.resolved(type_info.name)),
            decreases block.fields@.len() - index,
        {
            proof {
                assert(decreases_to!(block => block.fields@[index as int]));
            }
            let ghost before = *self;
            match &block.fields[index].value {
                TypedefValue::Block(nested) => self.resolve_typedef_block(nested, scope),
                TypedefValue::TypeInfo(type_info) => self.resolve_type_info(type_info, scope),
            }
            proof {
                Self::lemma_resolved_kept(&before, &*self);
                assert forall|k: int|
                    0 <= k < index + 1 implies ((#[trigger] block.fields@[k]).value matches TypedefValue::TypeInfo(
                        type_info,
                    ) ==> self.resolved(type_info.name)) by {
                    if k < index {
                        if let TypedefValue::TypeInfo(type_info) = block.fields@[k].value {
                            assert(before.resolved(type_info.name));
                        }
                    }
                }
            }
            index += 1;
        }
    }

    /// Declares generic parameters in `scope`, then resolves their bounds,
    /// so that a bound may name any parameter of the list.
    fn resolve_generic_parameters(&mut self, parameters: &Option<Box<GenericParameters<'input>>>, scope: ScopeId)
        requires
            old(self).wf(),
            scope.0 < old(self).scopes@.len(),
        ensures
            final(self).wf(),
            final(self).extends(&*old(self)),
            final(self).keeps_sound(&*old(self), true),
            final(self).scopes@.len() == old(self).scopes@.len(),
            parameters is None ==> final(self).scopes@ == old(self).scopes@,
            parameters matches Some(parameters) ==> {
                &&& final(self).scopes@[scope.0 as int].entries(Namespace::Type).len() == old(self).scopes@[scope.0 as int].entries(
                    Namespace::Type,
                ).len() + parameters.parameters@.len()
                &&& forall|k: int, b: int|
                    0 <= k < parameters.parameters@.len() && 0 <= b < parameters.parameters@[k].bounds@.len()
                        ==> final(self).resolved((#[trigger] parameters.parameters@[k].bounds@[b]).name)
            },
    {
        let parameters = match parameters {
            Some(parameters) => parameters,
            None => {
                return;
            },
        };
        let ghost start = *self;
        let mut index: usize = 0;
        while index < parameters.parameters.len()
            invariant
                self.wf(),
                self.extends(&start),
                self.keeps_sound(&start, true),
                scope.0 < self.scopes@.len(),
                index <= parameters.parameters@.len(),
                self.scopes@.len() == start.scopes@.len(),
                self.scopes@[scope.0 as int].entries(Namespace::Type).len() == start.scopes@[scope.0 as int].entries(
                    Namespace::Type,
                ).len() + index,
            decreases parameters.parameters@.len() - index,
        {
            let parameter = &parameters.parameters[index];
            let name = self.intern(parameter.name.value, &parameter.name.span);
            let resolution = self.allocate_generic_parameter(
                name,
                AstId::new(&parameter.name, AstKind::Literal),
                copy_range(&parameter.span),
            );
            self.define(
                scope,
                Namespace::Type,
                name,
                resolution,
                Some(copy_range(&parameter.name.span)),
                copy_range(&parameter.name.span),
            );
            index += 1;
        }
        let ghost middle = *self;
        let mut index: usize = 0;
        while index < parameters.parameters.len()
            invariant
                self.wf(),
                self.extends(&start),
                self.keeps_sound(&start, true),
                scope.0 < self.scopes@.len(),
                index <= parameters.parameters@.len(),
                self.scopes@ == middle.scopes@,
                forall|k: int, b: int|
                    0 <= k < index && 0 <= b < parameters.parameters@[k].bounds@.len() ==> self.resolved(
                        (#[trigger] parameters.parameters@[k].bounds@[b]).name,
                    ),
            decreases parameters.parameters@.len() - index,
        {
            let ghost outer = *self;
            let bounds = &parameters.parameters[index].bounds;
            let mut bound: usize = 0;
            while bound < bounds.len()
                invariant
                    self.wf(),
                    self.extends(&start),
                    self.extends(&outer),
                    self.keeps_sound(&start, true),
                    scope.0 < self.scopes@.len(),
                    bound <= bounds@.len(),
                    self.scopes@ == middle.scopes@,
                    forall|b: int| 0 <= b < bound ==> self.resolved((#[trigger] bounds@[b]).name),
                decreases bounds@.len() - bound,
            {
                let ghost before = *self;
                self.resolve_type_info(&bounds[bound], scope);
                proof {
                    Self::lemma_resolved_kept(&before, &*self);
                    assert forall|b: int| 0 <= b < bound + 1 implies self.resolved((#[trigger] bounds@[b]).name) by {
                        if b < bound {
                            assert(before.resolved(bounds@[b].name));
                        }
                    }
                }
                bound += 1;
            }
            proof {
                Self::lemma_resolved_kept(&outer, &*self);
                assert forall|k: int, b: int|
                    0 <= k < index + 1 && 0 <= b < parameters.parameters@[k].bounds@.len() implies self.resolved(
                        (#[trigger] parameters.parameters@[k].bounds@[b]).name,
                    ) by {
                    if k < index {
                        assert(outer.resolved(parameters.parameters@[k].bounds@[b].name));
                    } else {
                        assert(parameters.parameters@[k].bounds@ == bounds@);
                    }
                }
            }
            index += 1;
        }
    }

    /// Resolves the constrained types and the bounds of a where clause.
    fn resolve_where_clause(&mut self, where_clause: &Option<Box<WhereClause<'input>>>, scope: ScopeId)
        requires
            old(self).wf(),
            scope.0 < old(self).scopes@.len(),
        ensures
            final(self).wf(),
            final(self).extends(&*old(self)),
            final(self).keeps_sound(&*old(self), true),
            final(self).scopes@ == old(self).scopes@,
            where_clause matches Some(where_clause) ==> forall|k: int|
                0 <= k < where_clause.predicates@.len() ==> {
                    &&& final(self).resolved((#[trigger] where_clause.predicates@[k]).ty.name)
                    &&& forall|b: int|
                        0 <= b < where_clause.predicates@[k].bounds@.len() ==> final(self).resolved(
                            (#[trigger] where_clause.predicates@[k].bounds@[b]).name,
                        )
                },
    {
        let where_clause = match where_clause {
            Some(where_clause) => where_clause,
            None => {
                return;
            },
        };
        let ghost start = *self;
        let mut index: usize = 0;
        while index < where_clause.predicates.len()
            invariant
                self.wf(),
                self.extends(&start),
                self.keeps_sound(&start, true),
                scope.0 < self.scopes@.len(),
                index <= where_clause.predicates@.len(),
                self.scopes@ == start.scopes@,
                forall|k: int|
                    0 <= k < index ==> {
                        &&& self.resolved((#[trigger] where_clause.predicates@[k]).ty.name)
                        &&& forall|b: int|
                            0 <= b < where_clause.predicates@[k].bounds@.len() ==> self.resolved(
                                (#[trigger] where_clause.predicates@[k].bounds@[b]).name,
                            )
                    },
            decreases where_clause.predicates@.len() - index,
        {
            let ghost outer = *self;
            let predicate = &where_clause.predicates[index];
            self.resolve_type_info(&predicate.ty, scope);
            let mut bound: usize = 0;
            while bound < predicate.bounds.len()
                invariant
                    self.wf(),
                    self.extends(&start),
                    self.extends(&outer),
                    self.keeps_sound(&start, true),
                    scope.0 < self.scopes@.len(),
                    bound <= predicate.bounds@.len(),
                    self.scopes@ == start.scopes@,
                    self.resolved(predicate.ty.name),
                    forall|b: int| 0 <= b < bound ==> self.resolved((#[trigger] predicate.bounds@[b]).name),
                decreases predicate.bounds@.len() - bound,
            {
                let ghost before = *self;
                self.resolve_type_info(&predicate.bounds[bound], scope);
                proof {
                    Self::lemma_resolved_kept(&before, &*self);
                    assert forall|b: int| 0 <= b < bound + 1 implies self.resolved((#[trigger] predicate.bounds@[b]).name) by {
                        if b < bound {
                            assert(before.resolved(predicate.bounds@[b].name));
                        }
                    }
                }
                bound += 1;
            }
            proof {
                Self::lemma_resolved_kept(&outer, &*self);
                assert forall|k: int| 0 <= k < index + 1 implies {
                    &&& self.resolved((#[trigger] where_clause.predicates@[k]).ty.name)
                    &&& forall|b: int|
                        0 <= b < where_clause.predicates@[k].bounds@.len() ==> self.resolved(
                            (#[trigger] where_clause.predicates@[k].bounds@[b]).name,
                        )
                } by {
                    if k < index {
                        assert(outer.resolved(where_clause.predicates@[k].ty.name));
                        assert forall|b: int| 0 <= b < where_clause.predicates@[k].bounds@.len() implies self.resolved(
                            (#[trigger] where_clause.predicates@[k].bounds@[b]).name,
                        ) by {
                            assert(outer.resolved(where_clause.predicates@[k].bounds@[b].name));
                        }
                    }
                }
            }
            index += 1;
        }
    }

    /// Resolves a record declaration in a scope of its own, where its
    /// generic parameters are bound.
    fn resolve_type_define(&mut self, node: &TypeDefine<'input>, parent: ScopeId)
        requires
            old(self).wf(),
            parent.0 < old(self).scopes@.len(),
        ensures
            final(self).wf(),
            final(self).extends(&*old(self)),
            final(self).keeps_sound(&*old(self), true),
            final(self).fields_resolved(*node.body),
    {
        let scope = self.new_scope(Some(parent), ScopeKind::TypeDefinition, &node.span);
        self.resolve_generic_parameters(&node.generic_parameters, scope);
        self.resolve_where_clause(&node.where_clause, scope);
        self.resolve_typedef_block(&node.body, scope);
    }

    /// Resolves the type arguments written after a name.
    fn resolve_explicit_type_arguments(&mut self, arguments: &Option<Box<ExplicitTypeArguments<'input>>>, scope: ScopeId)
        requires
            old(self).wf(),
            scope.0 < old(self).scopes@.len(),
        ensures
            final(self).wf(),
            final(self).extends(&*old(self)),
            final(self).keeps_sound(&*old(self), true),
            final(self).scopes@ == old(self).scopes@,
            arguments matches Some(arguments) ==> forall|k: int|
                0 <= k < arguments.arguments@.len() ==> ((#[trigger] arguments.arguments@[k]) matches ExplicitTypeArgument::Type(
                    type_info,
                ) ==> final(self).resolved(type_info.name)),
    {
        let arguments = match arguments {
            Some(arguments) => arguments,
            None => {
                return;
            },
        };
        let ghost start = *self;
        let mut index: usize = 0;
        while index < arguments.arguments.len()
            invariant
                self.wf(),
                self.extends(&start),
                self.keeps_sound(&start, true),
                scope.0 < self.scopes@.len(),
                index <= arguments.arguments@.len(),
                self.scopes@ == start.scopes@,
                forall|k: int|
                    0 <= k < index ==> ((#[trigger] arguments.arguments@[k]) matches ExplicitTypeArgument::Type(type_info)
                        ==> self.resolved(type_info.name)),
            decreases arguments.arguments@.len() - index,
        {
            let ghost before = *self;
            if let ExplicitTypeArgument::Type(ty) = &arguments.arguments[index] {
                self.resolve_type_info(ty, scope);
            }
            proof {
                Self::lemma_resolved_kept(&before, &*self);
                assert forall|k: int|
                    0 <= k < index + 1 implies ((#[trigger] arguments.arguments@[k]) matches ExplicitTypeArgument::Type(
                        type_info,
                    ) ==> self.resolved(type_info.name)) by {
                    if k < index {
                        if let ExplicitTypeArgument::Type(type_info) = arguments.arguments@[k] {
                            assert(before.resolved(type_info.name));
                        }
                    }
                }
            }
            index += 1;
        }
    }

    /// Binds the names a pattern binds in `scope` and resolves the enum
    /// variants it names.
    fn resolve_pattern(&mut self, pattern: &Pattern<'input>, scope: ScopeId)
        requires
            old(self).wf(),
            scope.0 < old(self).scopes@.len(),
        ensures
            final(self).wf(),
            final(self).extends(&*old(self)),
            final(self).keeps_sound(&*old(self), true),
            final(self).pattern_resolved(*pattern),
            pattern is Binding ==> final(self).scopes@[scope.0 as int].entries(Namespace::Value).len() == old(
                self,
            ).scopes@[scope.0 as int].entries(Namespace::Value).len() + 1,
        decreases pattern,
    {
        match pattern {
            Pattern::SomePattern(node) => self.resolve_pattern(&node.pattern, scope),
            Pattern::Null(_) | Pattern::Wildcard(_) => {},
            Pattern::Binding(binding) => {
                let name = self.intern(binding.value, &binding.span);
                let resolution = self.allocate_symbol(
                    name,
                    SymbolKind::PatternBinding,
                    binding,
                    copy_range(&binding.span),
                    false,
                );
                self.define(
                    scope,
                    Namespace::Value,
                    name,
                    resolution,
                    Some(copy_range(&binding.span)),
                    copy_range(&binding.span),
                );
            },
            Pattern::EnumVariant(variant) => {
                let name = self.intern(variant.enum_name.value, &variant.enum_name.span);
                let owner = self.resolve_name(scope, name, Namespace::Type, copy_range(&variant.enum_name.span));
                self.record_reference(&variant.enum_name, owner);
                let ghost named = *self;
                proof {
                    assert(self.references@[self.references@.len() - 1].0 == reference_id(variant.enum_name));
                }
                let variant_name = self.intern(variant.variant.value, &variant.variant.span);
                let resolution = match owner {
                    Res::Type(owner) => match self.find_variant(owner, variant_name) {
                        Some(id) => Res::EnumVariant(id),
                        None => Res::Member(variant_name),
                    },
                    Res::Error => Res::Error,
                    _ => Res::Member(variant_name),
                };
                self.record_reference(&variant.variant, resolution);
                proof {
                    Self::lemma_resolved_kept(&named, &*self);
                    assert(self.references@[self.references@.len() - 1].0 == reference_id(variant.variant));
                }
            },
        }
    }
}

impl<'a, 'input> CollectedModule<'a, 'input> {
    /// Resolves a list of statements in `scope`.  Below the module level
    /// the types and functions of the list are declared first, and each
    /// binding from its statement on.
    fn resolve_statements(
        &mut self,
        statements: &Statements<'input>,
        scope: ScopeId,
        module_scope: bool,
        imports: &ImportEnvironment,
    )
        requires
            old(self).wf(),
            scope.0 < old(self).scopes@.len(),
        ensures
            final(self).wf(),
            final(self).extends(&*old(self)),
            final(self).keeps_sound(&*old(self), imports_foreign(*imports, old(self).module)),
            final(self).statements_resolved(statements.statements@),
        decreases statements,
    {
        if !module_scope {
            self.collect_block_headers(statements, scope);
        }
        let ghost start = *self;
        let mut index: usize = 0;
        while index < statements.statements.len()
            invariant
                self.wf(),
                self.extends(&start),
                self.keeps_sound(&start, imports_foreign(*imports, self.module)),
                scope.0 < self.scopes@.len(),
                index <= statements.statements@.len(),
                forall|k: int| 0 <= k < index ==> self.statement_resolved(#[trigger] statements.statements@[k]),
            decreases statements.statements@.len() - index,
        {
            proof {
                assert(decreases_to!(statements => statements.statements@[index as int]));
            }
            let ghost before = *self;
            self.resolve_statement(&statements.statements[index], scope, module_scope, imports);
            proof {
                assert forall|k: int| 0 <= k < index + 1 implies self.statement_resolved(
                    #[trigger] statements.statements@[k],
                ) by {
                    if k < index {
                        Self::lemma_statement_resolved_kept(&before, &*self, statements.statements@[k]);
                    }
                }
            }
            index += 1;
        }
    }

    fn resolve_statement(
        &mut self,
        statement: &Statement<'input>,
        scope: ScopeId,
        module_scope: bool,
        imports: &ImportEnvironment,
    )
        requires
            old(self).wf(),
            scope.0 < old(self).scopes@.len(),
        ensures
            final(self).wf(),
            final(self).extends(&*old(self)),
            final(self).keeps_sound(&*old(self), imports_foreign(*imports, old(self).module)),
            final(self).statement_resolved(*statement),
        decreases statement,
    {
        match statement {
            Statement::ImportStatement(import) => {
                if !module_scope {
                    self.errors.push(
                        NameResolveError {
                            kind: NameResolveErrorKind::ImportNotAtModuleScope,
                            span: copy_range(&import.span),
                        },
                    );
                }
            },
            Statement::EnumDefine(node) => {
                self.check_nested_export(node.exported, module_scope, copy_range(&node.span));
                if let Some(representation) = &node.representation_type {
                    self.resolve_type_info(representation, scope);
                }
                let ghost start = *self;
                let mut index: usize = 0;
                while index < node.variants.len()
                    invariant
                        self.wf(),
                        self.extends(&start),
                        self.keeps_sound(&start, imports_foreign(*imports, self.module)),
                        scope.0 < self.scopes@.len(),
                        *statement == Statement::EnumDefine(*node),
                    decreases node.variants@.len() - index,
                {
                    proof {
                        assert(decreases_to!(*statement => statement->EnumDefine_0));
                        assert(decreases_to!(**node => node.variants@[index as int]));
                        assert(decreases_to!(statement => node.variants@[index as int]));
                    }
                    if let Some(value) = &node.variants[index].value {
                        self.resolve_expression(value, scope, imports);
                    }
                    index += 1;
                }
            },
            Statement::TypeDefine(node) => {
                self.check_nested_export(node.exported, module_scope, copy_range(&node.span));
                self.resolve_type_define(node, scope);
            },
            Statement::InterfaceDefine(node) => {
                self.check_nested_export(node.exported, module_scope, copy_range(&node.span));
                self.resolve_interface(node, scope, imports);
            },
            Statement::ImplementsDefine(node) => {
                self.resolve_implements(node, scope, imports);
            },
            Statement::UseDeclare(_) => {},
            Statement::LetStatement(node) => {
                self.check_nested_export(node.exported, module_scope, copy_range(&node.span));
                let ghost checked = *self;
                if let Some(type_info) = &node.type_info {
                    self.resolve_type_info(type_info, scope);
                }
                let ghost typed = *self;
                if let Some(value) = &node.value {
                    self.resolve_expression(value, scope, imports);
                }
                let ghost valued = *self;
                if !module_scope {
                    self.collect_let(node, scope);
                }
                proof {
                    Self::lemma_resolved_kept(&typed, &*self);
                    if let Some(value) = &node.value {
                        Self::lemma_expression_resolved_kept(&valued, &*self, **value);
                    }
                }
            },
            Statement::AssertStatement(node) => {
                self.resolve_expression(&node.condition, scope, imports);
                let ghost conditioned = *self;
                if let Some(message) = &node.message {
                    self.resolve_expression(message, scope, imports);
                }
                proof {
                    Self::lemma_expression_resolved_kept(&conditioned, &*self, *node.condition);
                }
            },
            Statement::AssignStatement(node) => {
                self.resolve_expression(&node.target, scope, imports);
                let ghost targeted = *self;
                self.resolve_assign_value(&node.value, scope, imports);
                proof {
                    Self::lemma_expression_resolved_kept(&targeted, &*self, *node.target);
                }
            },
            Statement::FunctionDefine(node) => {
                self.check_nested_export(node.exported, module_scope, copy_range(&node.span));
                self.resolve_function(node, scope, imports);
            },
            Statement::Expression(expression) => {
                self.resolve_expression(expression, scope, imports);
            },
        }
    }

    /// Resolves the values of an assignment; the field names of a nested
    /// assignment are members, which typing resolves.
    fn resolve_assign_value(&mut self, value: &AssignValue<'input>, scope: ScopeId, imports: &ImportEnvironment)
        requires
            old(self).wf(),
            scope.0 < old(self).scopes@.len(),
        ensures
            final(self).wf(),
            final(self).extends(&*old(self)),
            final(self).keeps_sound(&*old(self), imports_foreign(*imports, old(self).module)),
            *value matches AssignValue::Expression(expression) ==> final(self).expression_resolved(*expression),
        decreases value,
    {
        match value {
            AssignValue::Expression(expression) => self.resolve_expression(expression, scope, imports),
            AssignValue::Nested(nested) => {
                let ghost start = *self;
                let mut index: usize = 0;
                while index < nested.fields.len()
                    invariant
                        self.wf(),
                        self.extends(&start),
                        self.keeps_sound(&start, imports_foreign(*imports, self.module)),
                        scope.0 < self.scopes@.len(),
                        *value == AssignValue::Nested(*nested),
                    decreases nested.fields@.len() - index,
                {
                    proof {
                        assert(decreases_to!(*value => value->Nested_0));
                        assert(decreases_to!(**nested => nested.fields@[index as int]));
                        assert(decreases_to!(value => nested.fields@[index as int]));
                    }
                    self.resolve_assign_value(&nested.fields[index].value, scope, imports);
                    index += 1;
                }
            },
        }
    }

    /// Resolves an interface in a scope of its own, where `This`, its
    /// generic parameters and its methods are bound.
    fn resolve_interface(&mut self, interface: &InterfaceDefine<'input>, parent: ScopeId, imports: &ImportEnvironment)
        requires
            old(self).wf(),
            parent.0 < old(self).scopes@.len(),
        ensures
            final(self).wf(),
            final(self).extends(&*old(self)),
            final(self).keeps_sound(&*old(self), imports_foreign(*imports, old(self).module)),
            forall|k: int|
                0 <= k < interface.methods@.len() ==> final(self).function_resolved(#[trigger] interface.methods@[k]),
        decreases interface,
    {
        let scope = self.new_scope(Some(parent), ScopeKind::Interface, &interface.span);
        self.define_this_parameter(
            scope,
            AstId::new(interface, AstKind::InterfaceDefine),
            copy_range(&interface.name.span),
        );
        self.resolve_generic_parameters(&interface.generic_parameters, scope);
        self.resolve_where_clause(&interface.where_clause, scope);
        self.resolve_methods(&interface.methods, scope, imports);
    }

    /// Resolves an implementation in a scope of its own, where `This`, its
    /// generic parameters and its methods are bound.
    fn resolve_implements(&mut self, implements: &ImplementsDefine<'input>, parent: ScopeId, imports: &ImportEnvironment)
        requires
            old(self).wf(),
            parent.0 < old(self).scopes@.len(),
        ensures
            final(self).wf(),
            final(self).extends(&*old(self)),
            final(self).keeps_sound(&*old(self), imports_foreign(*imports, old(self).module)),
            final(self).resolved(implements.interface.name),
            final(self).resolved(implements.target.name),
            forall|k: int|
                0 <= k < implements.methods@.len() ==> final(self).function_resolved(#[trigger] implements.methods@[k]),
        decreases implements,
    {
        let scope = self.new_scope(Some(parent), ScopeKind::Implements, &implements.span);
        self.define_this_parameter(
            scope,
            AstId::new(implements, AstKind::ImplementsDefine),
            copy_range(&implements.target.span),
        );
        self.resolve_generic_parameters(&implements.generic_parameters, scope);
        self.resolve_type_info(&implements.interface, scope);
        let ghost interface_named = *self;
        self.resolve_type_info(&implements.target, scope);
        proof {
            Self::lemma_resolved_kept(&interface_named, &*self);
        }
        let ghost named = *self;
        self.resolve_where_clause(&implements.where_clause, scope);
        self.resolve_methods(&implements.methods, scope, imports);
        proof {
            Self::lemma_resolved_kept(&named, &*self);
        }
    }

    /// Declares methods in `scope`, then resolves each of them.
    fn resolve_methods(&mut self, methods: &Vec<FunctionDefine<'input>>, scope: ScopeId, imports: &ImportEnvironment)
        requires
            old(self).wf(),
            scope.0 < old(self).scopes@.len(),
        ensures
            final(self).wf(),
            final(self).extends(&*old(self)),
            final(self).keeps_sound(&*old(self), imports_foreign(*imports, old(self).module)),
            forall|k: int| 0 <= k < methods@.len() ==> final(self).function_resolved(#[trigger] methods@[k]),
        decreases methods,
    {
        let ghost start = *self;
        let mut index: usize = 0;
        while index < methods.len()
            invariant
                self.wf(),
                self.extends(&start),
                self.keeps_sound(&start, imports_foreign(*imports, self.module)),
                scope.0 < self.scopes@.len(),
            decreases methods@.len() - index,
        {
            self.collect_function(&methods[index], scope);
            index += 1;
        }
        let mut index: usize = 0;
        while index < methods.len()
            invariant
                self.wf(),
                self.extends(&start),
                self.keeps_sound(&start, imports_foreign(*imports, self.module)),
                scope.0 < self.scopes@.len(),
                index <= methods@.len(),
                forall|k: int| 0 <= k < index ==> self.function_resolved(#[trigger] methods@[k]),
            decreases methods@.len() - index,
        {
            proof {
                assert(decreases_to!(methods => methods@[index as int]));
            }
            let ghost before = *self;
            self.resolve_function(&methods[index], scope, imports);
            proof {
                assert forall|k: int| 0 <= k < index + 1 implies self.function_resolved(#[trigger] methods@[k]) by {
                    if k < index {
                        Self::lemma_function_resolved_kept(&before, &*self, methods@[k]);
                    }
                }
            }
            index += 1;
        }
    }

    /// Resolves a function in a scope of its own, where its generic
    /// parameters, its receiver and its arguments are bound.
    fn resolve_function(&mut self, function: &FunctionDefine<'input>, parent: ScopeId, imports: &ImportEnvironment)
        requires
            old(self).wf(),
            parent.0 < old(self).scopes@.len(),
        ensures
            final(self).wf(),
            final(self).extends(&*old(self)),
            final(self).keeps_sound(&*old(self), imports_foreign(*imports, old(self).module)),
            final(self).function_resolved(*function),
            forall|k: int|
                0 <= k < function.arguments.arguments@.len() ==> final(self).declares(
                    (#[trigger] function.arguments.arguments@[k]).name,
                    true,
                ) || final(self).symbols@.len() == TABLE_CAPACITY,
            function.arguments.receiver matches Some(receiver) ==> final(self).declares(receiver, true)
                || final(self).symbols@.len() == TABLE_CAPACITY,
        decreases function,
    {
        let scope = self.new_scope(Some(parent), ScopeKind::Function, &function.span);
        self.resolve_generic_parameters(&function.generic_parameters, scope);
        let arguments = &function.arguments.arguments;
        let ghost start = *self;
        let mut index: usize = 0;
        while index < arguments.len()
            invariant
                self.wf(),
                self.extends(&start),
                self.keeps_sound(&start, imports_foreign(*imports, self.module)),
                scope.0 < self.scopes@.len(),
                index <= arguments@.len(),
                forall|k: int| 0 <= k < index ==> self.resolved((#[trigger] arguments@[k]).type_info.name),
            decreases arguments@.len() - index,
        {
            let ghost before = *self;
            self.resolve_type_info(&arguments[index].type_info, scope);
            proof {
                Self::lemma_resolved_kept(&before, &*self);
                assert forall|k: int| 0 <= k < index + 1 implies self.resolved((#[trigger] arguments@[k]).type_info.name) by {
                    if k < index {
                        assert(before.resolved(arguments@[k].type_info.name));
                    }
                }
            }
            index += 1;
        }
        let ghost typed = *self;
        if let Some(receiver) = &function.arguments.receiver {
            let name = self.intern(receiver.value, &receiver.span);
            let resolution = self.allocate_symbol(name, SymbolKind::Parameter, receiver, copy_range(&receiver.span), false);
            let ghost allocated = *self;
            proof {
                if let Res::Symbol(id) = resolution {
                    allocated.lemma_declared_recorded(*receiver, true, Declaration::Symbol(id));
                }
            }
            self.define(
                scope,
                Namespace::Value,
                name,
                resolution,
                Some(copy_range(&receiver.span)),
                copy_range(&receiver.span),
            );
            proof {
                if resolution is Symbol {
                    Self::lemma_declares_kept(&allocated, &*self, *receiver, true);
                }
            }
        }
        let ghost received = *self;
        let mut index: usize = 0;
        while index < arguments.len()
            invariant
                self.wf(),
                self.extends(&start),
                self.extends(&typed),
                self.extends(&received),
                self.keeps_sound(&start, imports_foreign(*imports, self.module)),
                scope.0 < self.scopes@.len(),
                index <= arguments@.len(),
                forall|k: int|
                    0 <= k < index ==> self.declares((#[trigger] arguments@[k]).name, true) || self.symbols@.len()
                        == TABLE_CAPACITY,
            decreases arguments@.len() - index,
        {
            let ghost before = *self;
            self.define_parameter(&arguments[index], scope);
            proof {
                assert forall|k: int| 0 <= k < index + 1 implies self.declares((#[trigger] arguments@[k]).name, true)
                    || self.symbols@.len() == TABLE_CAPACITY by {
                    if k < index {
                        if before.declares(arguments@[k].name, true) {
                            Self::lemma_declares_kept(&before, &*self, arguments@[k].name, true);
                        }
                    }
                }
            }
            index += 1;
        }
        let ghost bound = *self;
        if let Some(return_type) = &function.return_type {
            self.resolve_type_info(return_type, scope);
        }
        let ghost returned = *self;
        self.resolve_where_clause(&function.where_clause, scope);
        self.resolve_block(&function.body, scope, imports);
        proof {
            Self::lemma_resolved_kept(&typed, &*self);
            Self::lemma_resolved_kept(&returned, &*self);
            assert forall|k: int| 0 <= k < arguments@.len() implies self.resolved((#[trigger] arguments@[k]).type_info.name) by {
                assert(typed.resolved(arguments@[k].type_info.name));
            }
            assert forall|k: int| 0 <= k < arguments@.len() implies self.declares((#[trigger] arguments@[k]).name, true)
                || self.symbols@.len() == TABLE_CAPACITY by {
                if bound.declares(arguments@[k].name, true) {
                    Self::lemma_declares_kept(&bound, &*self, arguments@[k].name, true);
                }
            }
            if function.arguments.receiver is Some {
                let receiver = function.arguments.receiver.unwrap();
                if received.declares(receiver, true) {
                    Self::lemma_declares_kept(&received, &*self, receiver, true);
                }
            }
        }
    }

    /// Declares a function parameter: a new `Parameter` symbol declared by
    /// the parameter's name (unless the symbol table is full), bound under
    /// that name as the next binding of the function's scope.
    fn define_parameter(&mut self, argument: &FunctionArgument<'input>, scope: ScopeId)
        requires
            old(self).wf(),
            scope.0 < old(self).scopes@.len(),
        ensures
            final(self).wf(),
            final(self).extends(&*old(self)),
            final(self).keeps_sound(&*old(self), true),
            final(self).scopes@.len() == old(self).scopes@.len(),
            final(self).binds_next(&*old(self), scope, Namespace::Value, argument.name.value@),
            final(self).names_grew(&*old(self)),
            final(self).declares(argument.name, true) || old(self).symbols@.len() == TABLE_CAPACITY,
            final(self).declares_kind(argument.name, SymbolKind::Parameter) || old(self).symbols@.len() == TABLE_CAPACITY,
    {
        let name = self.intern(argument.name.value, &argument.name.span);
        let resolution = self.allocate_symbol(
            name,
            SymbolKind::Parameter,
            &argument.name,
            copy_range(&argument.span),
            false,
        );
        let ghost allocated = *self;
        proof {
            if let Res::Symbol(id) = resolution {
                allocated.lemma_declared_recorded(argument.name, true, Declaration::Symbol(id));
            }
        }
        self.define(
            scope,
            Namespace::Value,
            name,
            resolution,
            Some(copy_range(&argument.name.span)),
            copy_range(&argument.name.span),
        );
        proof {
            if let Res::Symbol(id) = resolution {
                Self::lemma_declares_kept(&allocated, &*self, argument.name, true);
                crate::names::lemma_latest_in(self.declarations@, reference_id(argument.name));
                let k = choose|k: int|
                    0 <= k < self.declarations@.len() && #[trigger] self.declarations@[k] == (
                        reference_id(argument.name),
                        Declaration::Symbol(id),
                    );
                assert(self.declarations@[k].0 == reference_id(argument.name));
            }
        }
    }

    /// Resolves a block in a scope of its own.
    fn resolve_block(&mut self, block: &Block<'input>, parent: ScopeId, imports: &ImportEnvironment)
        requires
            old(self).wf(),
            parent.0 < old(self).scopes@.len(),
        ensures
            final(self).wf(),
            final(self).extends(&*old(self)),
            final(self).keeps_sound(&*old(self), imports_foreign(*imports, old(self).module)),
            final(self).statements_resolved(block.statements.statements@),
        decreases block,
    {
        let scope = self.new_scope(Some(parent), ScopeKind::Block, &block.span);
        self.resolve_statements(&block.statements, scope, false, imports);
    }

    fn resolve_expression(&mut self, expression: &Expression<'input>, scope: ScopeId, imports: &ImportEnvironment)
        requires
            old(self).wf(),
            scope.0 < old(self).scopes@.len(),
        ensures
            final(self).wf(),
            final(self).extends(&*old(self)),
            final(self).keeps_sound(&*old(self), imports_foreign(*imports, old(self).module)),
            final(self).expression_resolved(*expression),
        decreases expression,
    {
        match expression {
            Expression::If(node) => {
                self.resolve_expression(&node.branch.condition, scope, imports);
                self.resolve_block(&node.branch.body, scope, imports);
                let ghost start = *self;
                let mut index: usize = 0;
                while index < node.else_branches.len()
                    invariant
                        self.wf(),
                        self.extends(&start),
                        self.keeps_sound(&start, imports_foreign(*imports, self.module)),
                        scope.0 < self.scopes@.len(),
                        *expression == Expression::If(*node),
                    decreases node.else_branches@.len() - index,
                {
                    proof {
                        assert(decreases_to!(*expression => expression->If_0));
                        assert(decreases_to!(**node => node.else_branches@[index as int]));
                        assert(decreases_to!(expression => node.else_branches@[index as int]));
                    }
                    match &node.else_branches[index].value {
                        ElseBranchValue::If(branch) => {
                            self.resolve_expression(&branch.condition, scope, imports);
                            self.resolve_block(&branch.body, scope, imports);
                        },
                        ElseBranchValue::Block(block) => {
                            self.resolve_block(block, scope, imports);
                        },
                    }
                    index += 1;
                }
            },
            Expression::Match(node) => {
                self.resolve_expression(&node.value, scope, imports);
                let ghost start = *self;
                let mut index: usize = 0;
                while index < node.arms.len()
                    invariant
                        self.wf(),
                        self.extends(&start),
                        self.keeps_sound(&start, imports_foreign(*imports, self.module)),
                        scope.0 < self.scopes@.len(),
                        *expression == Expression::Match(*node),
                    decreases node.arms@.len() - index,
                {
                    proof {
                        assert(decreases_to!(*expression => expression->Match_0));
                        assert(decreases_to!(**node => node.arms@[index as int]));
                        assert(decreases_to!(expression => node.arms@[index as int]));
                    }
                    self.resolve_match_arm(&node.arms[index], scope, imports);
                    index += 1;
                }
            },
            Expression::Return(node) => {
                if let Some(value) = &node.value {
                    self.resolve_expression(value, scope, imports);
                }
            },
            Expression::Throw(node) => {
                if let Some(message) = &node.message {
                    self.resolve_expression(message, scope, imports);
                }
            },
            Expression::Closure(node) => self.resolve_closure(node, scope, imports),
            Expression::Elvis(node) => {
                self.resolve_expression(&node.optional, scope, imports);
                let ghost mid = *self;
                self.resolve_expression(&node.fallback, scope, imports);
                proof {
                    Self::lemma_expression_resolved_kept(&mid, &*self, *node.optional);
                }
            },
            Expression::Binary(node) => {
                self.resolve_expression(&node.left, scope, imports);
                let ghost mid = *self;
                self.resolve_expression(&node.right, scope, imports);
                proof {
                    Self::lemma_expression_resolved_kept(&mid, &*self, *node.left);
                }
            },
            Expression::Unary(node) => {
                self.resolve_expression(&node.operand, scope, imports);
            },
            Expression::Primary(node) => self.resolve_primary(node, scope, imports),
        }
    }

    /// Resolves a closure in a scope of its own, where its parameters are
    /// bound.
    fn resolve_closure(&mut self, closure: &ClosureExpression<'input>, parent: ScopeId, imports: &ImportEnvironment)
        requires
            old(self).wf(),
            parent.0 < old(self).scopes@.len(),
        ensures
            final(self).wf(),
            final(self).extends(&*old(self)),
            final(self).keeps_sound(&*old(self), imports_foreign(*imports, old(self).module)),
            closure.return_type matches Some(return_type) ==> final(self).resolved(return_type.name),
            closure.body matches ClosureBody::Expression(body) ==> final(self).expression_resolved(*body),
            closure.body matches ClosureBody::Block(body) ==> final(self).statements_resolved(body.statements.statements@),
        decreases closure,
    {
        let scope = self.new_scope(Some(parent), ScopeKind::Closure, &closure.span);
        let ghost start = *self;
        let mut index: usize = 0;
        while index < closure.parameters.len()
            invariant
                self.wf(),
                self.extends(&start),
                self.keeps_sound(&start, imports_foreign(*imports, self.module)),
                scope.0 < self.scopes@.len(),
            decreases closure.parameters@.len() - index,
        {
            let parameter = &closure.parameters[index];
            if let Some(type_info) = &parameter.type_info {
                self.resolve_type_info(type_info, scope);
            }
            let name = self.intern(parameter.name.value, &parameter.name.span);
            let resolution = self.allocate_symbol(
                name,
                SymbolKind::Parameter,
                &parameter.name,
                copy_range(&parameter.span),
                false,
            );
            self.define(
                scope,
                Namespace::Value,
                name,
                resolution,
                Some(copy_range(&parameter.name.span)),
                copy_range(&parameter.name.span),
            );
            index += 1;
        }
        if let Some(return_type) = &closure.return_type {
            self.resolve_type_info(return_type, scope);
        }
        let ghost returned = *self;
        match &closure.body {
            ClosureBody::Expression(expression) => self.resolve_expression(expression, scope, imports),
            ClosureBody::Block(block) => self.resolve_block(block, scope, imports),
        }
        proof {
            Self::lemma_resolved_kept(&returned, &*self);
        }
    }

    /// Resolves a match arm in a scope of its own, where its pattern binds.
    fn resolve_match_arm(&mut self, arm: &MatchArm<'input>, parent: ScopeId, imports: &ImportEnvironment)
        requires
            old(self).wf(),
            parent.0 < old(self).scopes@.len(),
        ensures
            final(self).wf(),
            final(self).extends(&*old(self)),
            final(self).keeps_sound(&*old(self), imports_foreign(*imports, old(self).module)),
            final(self).pattern_resolved(arm.pattern),
            final(self).expression_resolved(*arm.value),
        decreases arm,
    {
        let scope = self.new_scope(Some(parent), ScopeKind::MatchArm, &arm.span);
        self.resolve_pattern(&arm.pattern, scope);
        let ghost mid = *self;
        self.resolve_expression(&arm.value, scope, imports);
        proof {
            Self::lemma_pattern_resolved_kept(&mid, &*self, arm.pattern);
        }
    }

    /// Resolves the root of a primary expression, then each member access
    /// from the previous resolution: a module member from the module's
    /// interface, a variant after `::` on an enum, and any other member as
    /// left to typing.
    fn resolve_primary(&mut self, primary: &Primary<'input>, scope: ScopeId, imports: &ImportEnvironment)
        requires
            old(self).wf(),
            scope.0 < old(self).scopes@.len(),
        ensures
            final(self).wf(),
            final(self).extends(&*old(self)),
            final(self).keeps_sound(&*old(self), imports_foreign(*imports, old(self).module)),
            final(self).primary_resolved(*primary),
        decreases primary,
    {
        let mut current = match &primary.value {
            Value::Literal(literal) => {
                let has_static_access = primary.accesses.len() > 0 && primary.accesses[0].operator.value
                    == AccessOperator::DoubleColon;
                let name = self.intern(literal.literal.value, &literal.literal.span);
                let resolution = if has_static_access {
                    self.resolve_static_root(scope, name, copy_range(&literal.literal.span))
                } else {
                    self.resolve_value_root(scope, name, copy_range(&literal.literal.span))
                };
                self.record_reference(&literal.literal, resolution);
                let ghost named = *self;
                proof {
                    assert(self.references@[self.references@.len() - 1].0 == reference_id(literal.literal));
                }
                self.resolve_explicit_type_arguments(&literal.type_arguments, scope);
                if let Some(call) = &literal.call {
                    self.resolve_call(call, scope, imports);
                }
                proof {
                    Self::lemma_resolved_kept(&named, &*self);
                }
                resolution
            },
            value => {
                self.resolve_value(value, scope, imports);
                Res::Error
            },
        };
        let accesses = &primary.accesses;
        let ghost start = *self;
        let mut index: usize = 0;
        while index < accesses.len()
            invariant
                self.wf(),
                self.extends(&start),
                self.keeps_sound(&start, imports_foreign(*imports, self.module)),
                scope.0 < self.scopes@.len(),
                *accesses == primary.accesses,
                index <= accesses@.len(),
                self.value_resolved(primary.value),
                forall|k: int| 0 <= k < index ==> self.resolved((#[trigger] accesses@[k]).member),
            decreases accesses@.len() - index,
        {
            let ghost before = *self;
            let access = &accesses[index];
            let name = self.intern(access.member.value, &access.member.span);
            let next_is_static = index + 1 < accesses.len() && accesses[index + 1].operator.value
                == AccessOperator::DoubleColon;
            current = match current {
                Res::Module(module) => self.resolve_module_member(
                    module,
                    name,
                    next_is_static,
                    imports,
                    copy_range(&access.member.span),
                ),
                Res::Type(owner) => if access.operator.value == AccessOperator::DoubleColon {
                    match self.find_variant(owner, name) {
                        Some(id) => Res::EnumVariant(id),
                        None => Res::Member(name),
                    }
                } else {
                    Res::Member(name)
                },
                Res::Error => Res::Error,
                _ => Res::Member(name),
            };
            self.record_reference(&access.member, current);
            proof {
                assert(self.references@[self.references@.len() - 1].0 == reference_id(access.member));
            }
            let ghost named = *self;
            self.resolve_explicit_type_arguments(&access.type_arguments, scope);
            proof {
                assert(decreases_to!(primary => primary.accesses@[index as int]));
            }
            if let Some(call) = &access.call {
                self.resolve_call(call, scope, imports);
            }
            proof {
                Self::lemma_resolved_kept(&before, &*self);
                Self::lemma_resolved_kept(&named, &*self);
                assert forall|k: int| 0 <= k < index + 1 implies self.resolved((#[trigger] accesses@[k]).member) by {
                    if k < index {
                        assert(before.resolved(accesses@[k].member));
                    }
                }
            }
            index += 1;
        }
    }

    fn resolve_value(&mut self, value: &Value<'input>, scope: ScopeId, imports: &ImportEnvironment)
        requires
            old(self).wf(),
            scope.0 < old(self).scopes@.len(),
        ensures
            final(self).wf(),
            final(self).extends(&*old(self)),
            final(self).keeps_sound(&*old(self), imports_foreign(*imports, old(self).module)),
            final(self).value_resolved(*value),
        decreases value,
    {
        match value {
            Value::Array(array) => self.resolve_array(array, scope, imports),
            Value::Literal(literal) => {
                let name = self.intern(literal.literal.value, &literal.literal.span);
                let resolution = self.resolve_value_root(scope, name, copy_range(&literal.literal.span));
                self.record_reference(&literal.literal, resolution);
                let ghost named = *self;
                proof {
                    assert(self.references@[self.references@.len() - 1].0 == reference_id(literal.literal));
                }
                self.resolve_explicit_type_arguments(&literal.type_arguments, scope);
                if let Some(call) = &literal.call {
                    self.resolve_call(call, scope, imports);
                }
                proof {
                    Self::lemma_resolved_kept(&named, &*self);
                }
            },
            Value::SomeValue(node) => {
                if let Some(value) = &node.value {
                    self.resolve_expression(value, scope, imports);
                }
            },
            Value::Numeric(_) | Value::String(_) | Value::Boolean(_) | Value::Null(_) => {},
        }
    }

    fn resolve_array(&mut self, array: &Array<'input>, scope: ScopeId, imports: &ImportEnvironment)
        requires
            old(self).wf(),
            scope.0 < old(self).scopes@.len(),
        ensures
            final(self).wf(),
            final(self).extends(&*old(self)),
            final(self).keeps_sound(&*old(self), imports_foreign(*imports, old(self).module)),
            forall|k: int| 0 <= k < array.values@.len() ==> final(self).value_resolved(#[trigger] array.values@[k]),
        decreases array,
    {
        let ghost start = *self;
        let mut index: usize = 0;
        while index < array.values.len()
            invariant
                self.wf(),
                self.extends(&start),
                self.keeps_sound(&start, imports_foreign(*imports, self.module)),
                scope.0 < self.scopes@.len(),
                index <= array.values@.len(),
                forall|k: int| 0 <= k < index ==> self.value_resolved(#[trigger] array.values@[k]),
            decreases array.values@.len() - index,
        {
            proof {
                assert(decreases_to!(array => array.values@[index as int]));
            }
            let ghost before = *self;
            self.resolve_value(&array.values[index], scope, imports);
            proof {
                Self::lemma_resolved_kept(&before, &*self);
                assert forall|k: int| 0 <= k < index + 1 implies self.value_resolved(#[trigger] array.values@[k]) by {
                    if k < index {
                        assert(before.value_resolved(array.values@[k]));
                    }
                }
            }
            index += 1;
        }
    }

    fn resolve_call(&mut self, call: &FunctionCall<'input>, scope: ScopeId, imports: &ImportEnvironment)
        requires
            old(self).wf(),
            scope.0 < old(self).scopes@.len(),
        ensures
            final(self).wf(),
            final(self).extends(&*old(self)),
            final(self).keeps_sound(&*old(self), imports_foreign(*imports, old(self).module)),
            forall|k: int|
                0 <= k < call.arguments@.len() ==> final(self).expression_resolved(#[trigger] call.arguments@[k]),
        decreases call,
    {
        let ghost start = *self;
        let mut index: usize = 0;
        while index < call.arguments.len()
            invariant
                self.wf(),
                self.extends(&start),
                self.keeps_sound(&start, imports_foreign(*imports, self.module)),
                scope.0 < self.scopes@.len(),
                index <= call.arguments@.len(),
                forall|k: int| 0 <= k < index ==> self.expression_resolved(#[trigger] call.arguments@[k]),
            decreases call.arguments@.len() - index,
        {
            proof {
                assert(decreases_to!(call => call.arguments@[index as int]));
            }
            let ghost before = *self;
            self.resolve_expression(&call.arguments[index], scope, imports);
            proof {
                assert forall|k: int| 0 <= k < index + 1 implies self.expression_resolved(#[trigger] call.arguments@[k]) by {
                    if k < index {
                        Self::lemma_expression_resolved_kept(&before, &*self, call.arguments@[k]);
                    }
                }
            }
            index += 1;
        }
    }
}

/// The names of a module resolved: its declaration tables, its scopes, what
/// each declaring literal declares and what each name refers to.
pub struct NameResolution {
    module: ModuleId,
    names: NameInterner,
    symbols: Vec<Symbol>,
    types: Vec<TypeDef>,
    fields: Vec<Field>,
    variants: Vec<Variant>,
    generic_parameters: Vec<GenericParameter>,
    declarations: Vec<(AstId, Declaration)>,
    references: Vec<(AstId, Res)>,
    scopes: Vec<Scope>,
    root_scope: ScopeId,
    errors: Vec<NameResolveError>,
    interface: ModuleInterface,
}

impl<'a, 'input> CollectedModule<'a, 'input> {
    /// Resolves every name the module uses: the imports first, then the
    /// statements, in the scopes the declarations were collected in.
    pub fn resolve(self, imports: &ImportEnvironment) -> (resolution: NameResolution)
        requires
            self.wf(),
        ensures
            resolution.wf(),
            resolution.module_id() == self.module_id(),
            resolution.exported() == self.exported(),
            self.error_list().len() <= resolution.error_list().len(),
            forall|i: int| 0 <= i < self.error_list().len() ==> #[trigger] resolution.error_list()[i] == self.error_list()[i],
            self.sound() && imports_foreign(*imports, self.module_id()) ==> resolution.refers_to_existing(),
            forall|i: int|
                0 <= i < self.statements().len() ==> import_reported(
                    *imports,
                    resolution.error_list(),
                    #[trigger] self.statements()[i],
                ),
            statements_recorded_in(resolution.reference_log(), self.statements()),
    {
        let mut this = self;
        this.resolve_imports(imports);
        let ghost imported = this;
        let source = this.source;
        let root = this.root_scope;
        this.resolve_statements(source, root, true, imports);
        proof {
            assert forall|i: int| 0 <= i < self.statements().len() implies import_reported(
                *imports,
                this.errors@,
                #[trigger] self.statements()[i],
            ) by {
                assert(import_reported(*imports, imported.errors@, self.statements()[i]));
                lemma_import_reported_grows(*imports, imported.errors@, this.errors@, self.statements()[i]);
            }
            this.lemma_statements_in_log(source.statements@);
        }
        NameResolution {
            module: this.module,
            names: this.names,
            symbols: this.symbols,
            types: this.types,
            fields: this.fields,
            variants: this.variants,
            generic_parameters: this.generic_parameters,
            declarations: this.declarations,
            references: this.references,
            scopes: this.scopes,
            root_scope: this.root_scope,
            errors: this.errors,
            interface: this.interface,
        }
    }
}

impl NameResolution {
    pub closed spec fn wf(&self) -> bool {
        &&& self.names.wf()
        &&& self.names.view().len() <= TABLE_CAPACITY
        &&& scopes_wf(self.scopes@)
        &&& scopes_settled(self.scopes@)
        &&& self.root_scope == ScopeId(0)
        &&& forall|i: int|
            0 <= i < self.declarations@.len() ==> declaration_agrees(
                self.module,
                self.symbols@,
                self.types@,
                self.fields@,
                self.variants@,
                self.generic_parameters@,
                #[trigger] self.declarations@[i],
            )
        &&& forall|i: int|
            0 <= i < self.symbols@.len() ==> (#[trigger] self.symbols@[i]).id == SymbolId {
                module: self.module,
                index: i as u32,
            }
        &&& forall|i: int|
            0 <= i < self.types@.len() ==> (#[trigger] self.types@[i]).id == TypeDefId {
                module: self.module,
                index: i as u32,
            }
        &&& forall|i: int|
            0 <= i < self.fields@.len() ==> (#[trigger] self.fields@[i]).id == FieldId {
                module: self.module,
                index: i as u32,
            }
        &&& forall|i: int|
            0 <= i < self.variants@.len() ==> (#[trigger] self.variants@[i]).id == VariantId {
                module: self.module,
                index: i as u32,
            }
        &&& forall|i: int|
            0 <= i < self.generic_parameters@.len() ==> (#[trigger] self.generic_parameters@[i]).id
                == GenericParameterId { module: self.module, index: i as u32 }
    }

    pub closed spec fn module_id(&self) -> ModuleId {
        self.module
    }

    pub closed spec fn name_table(&self) -> Seq<Seq<char>> {
        self.names.view()
    }

    pub closed spec fn symbol_table(&self) -> Seq<Symbol> {
        self.symbols@
    }

    pub closed spec fn type_table(&self) -> Seq<TypeDef> {
        self.types@
    }

    pub closed spec fn field_table(&self) -> Seq<Field> {
        self.fields@
    }

    pub closed spec fn variant_table(&self) -> Seq<Variant> {
        self.variants@
    }

    pub closed spec fn generic_parameter_table(&self) -> Seq<GenericParameter> {
        self.generic_parameters@
    }

    pub closed spec fn declaration_log(&self) -> Seq<(AstId, Declaration)> {
        self.declarations@
    }

    pub closed spec fn reference_log(&self) -> Seq<(AstId, Res)> {
        self.references@
    }

    pub closed spec fn scope_table(&self) -> Seq<Scope> {
        self.scopes@
    }

    pub closed spec fn root(&self) -> ScopeId {
        self.root_scope
    }

    pub closed spec fn error_list(&self) -> Seq<NameResolveError> {
        self.errors@
    }

    pub closed spec fn exported(&self) -> ModuleInterface {
        self.interface
    }

    /// The lengths of the declaration tables: symbols, types, fields,
    /// variants, generic parameters.
    pub open spec fn table_lens(&self) -> (nat, nat, nat, nat, nat) {
        (
            self.symbol_table().len(),
            self.type_table().len(),
            self.field_table().len(),
            self.variant_table().len(),
            self.generic_parameter_table().len(),
        )
    }

    /// Every recorded reference and every binding of every scope names a
    /// declaration that exists: an id of this module lies within its table.
    pub open spec fn refers_to_existing(&self) -> bool {
        &&& forall|k: int|
            0 <= k < self.reference_log().len() ==> names_existing(
                (#[trigger] self.reference_log()[k]).1,
                self.module_id(),
                self.table_lens(),
            )
        &&& forall|i: int, namespace: Namespace, k: int|
            0 <= i < self.scope_table().len() && 0 <= k < self.scope_table()[i].entries(namespace).len()
                ==> names_existing(
                (#[trigger] self.scope_table()[i].entries(namespace)[k]).1.resolution,
                self.module_id(),
                self.table_lens(),
            )
    }

    pub fn module(&self) -> (module: ModuleId)
        ensures
            module == self.module_id(),
    {
        self.module
    }

    /// The text of an identifier of the module.
    pub fn name(&self, id: NameId) -> (name: &str)
        requires
            id.0 < self.name_table().len(),
        ensures
            name@ == self.name_table()[id.0 as int],
    {
        self.names.get(id)
    }

    /// What `name` is bound to in the module scope.
    pub fn resolve_root_name(&self, namespace: Namespace, name: &str) -> (resolution: Option<Res>)
        requires
            self.wf(),
        ensures
            !self.name_table().contains(name@) ==> resolution is None,
            forall|i: int|
                0 <= i < self.name_table().len() && self.name_table()[i] == name@ ==> resolution
                    == self.scope_table()[self.root().0 as int].resolution_of(namespace, NameId(i as u32)),
    {
        let id = match self.names.find(name) {
            Some(id) => id,
            None => {
                return None;
            },
        };
        proof {
            assert forall|i: int|
                0 <= i < self.name_table().len() && self.name_table()[i] == name@ implies i == id.0 by {
                if i != id.0 {
                    assert(self.names.view()[i] != self.names.view()[id.0 as int]);
                }
            }
        }
        self.scopes[self.root_scope.0 as usize].get(namespace, id)
    }

    pub fn symbols(&self) -> (symbols: &[Symbol])
        ensures
            symbols@ == self.symbol_table(),
    {
        self.symbols.as_slice()
    }

    pub fn types(&self) -> (types: &[TypeDef])
        ensures
            types@ == self.type_table(),
    {
        self.types.as_slice()
    }

    pub fn fields(&self) -> (fields: &[Field])
        ensures
            fields@ == self.field_table(),
    {
        self.fields.as_slice()
    }

    pub fn variants(&self) -> (variants: &[Variant])
        ensures
            variants@ == self.variant_table(),
    {
        self.variants.as_slice()
    }

    pub fn generic_parameters(&self) -> (parameters: &[GenericParameter])
        ensures
            parameters@ == self.generic_parameter_table(),
    {
        self.generic_parameters.as_slice()
    }

    pub fn scopes(&self) -> (scopes: &[Scope])
        ensures
            scopes@ == self.scope_table(),
    {
        self.scopes.as_slice()
    }

    pub fn root_scope(&self) -> (scope: ScopeId)
        ensures
            scope == self.root(),
    {
        self.root_scope
    }

    pub fn errors(&self) -> (errors: &[NameResolveError])
        ensures
            errors@ == self.error_list(),
    {
        self.errors.as_slice()
    }

    pub fn interface(&self) -> (interface: &ModuleInterface)
        ensures
            *interface == self.exported(),
    {
        &self.interface
    }

    /// What the name written by `literal` refers to.
    pub fn resolve_literal(&self, literal: &Literal<'_>) -> (resolution: Option<Res>)
        ensures
            resolution == latest(
                self.reference_log(),
                AstId { start: literal.span.start, end: literal.span.end, kind: AstKind::Literal },
            ),
    {
        match position_of_node(&self.references, AstId::new(literal, AstKind::Literal)) {
            Some(index) => Some(self.references[index].1),
            None => None,
        }
    }

    /// What `literal` declares, where it names a declaration.
    pub fn declaration_of_literal(&self, literal: &Literal<'_>) -> (declaration: Option<Declaration>)
        ensures
            declaration == latest(
                self.declaration_log(),
                AstId { start: literal.span.start, end: literal.span.end, kind: AstKind::Literal },
            ),
    {
        match position_of_node(&self.declarations, AstId::new(literal, AstKind::Literal)) {
            Some(index) => Some(self.declarations[index].1),
            None => None,
        }
    }
}

/// What a literal is recorded to declare is a table entry of the module
/// that this literal declared: a read of the declaration log gives back
/// what the collection wrote.
pub proof fn lemma_declaration_of_literal(resolution: &NameResolution, literal: AstId)
    requires
        resolution.wf(),
    ensures
        match latest(resolution.declaration_log(), literal) {
            Some(Declaration::Symbol(id)) => id.module == resolution.module_id() && id.index
                < resolution.symbol_table().len() && resolution.symbol_table()[id.index as int].declaration == literal,
            Some(Declaration::Type(id)) => id.module == resolution.module_id() && id.index < resolution.type_table().len()
                && resolution.type_table()[id.index as int].declaration == literal,
            Some(Declaration::Field(id)) => id.module == resolution.module_id() && id.index < resolution.field_table().len()
                && resolution.field_table()[id.index as int].declaration == literal,
            Some(Declaration::EnumVariant(id)) => id.module == resolution.module_id() && id.index
                < resolution.variant_table().len() && resolution.variant_table()[id.index as int].declaration == literal,
            Some(Declaration::GenericParameter(id)) => id.module == resolution.module_id() && id.index
                < resolution.generic_parameter_table().len()
                && resolution.generic_parameter_table()[id.index as int].declaration == literal,
            _ => true,
        },
{
    crate::names::lemma_latest_in(resolution.declarations@, literal);
    if let Some(declaration) = latest(resolution.declarations@, literal) {
        let i = choose|i: int|
            0 <= i < resolution.declarations@.len() && #[trigger] resolution.declarations@[i] == (literal, declaration);
        assert(declaration_agrees(
            resolution.module,
            resolution.symbols@,
            resolution.types@,
            resolution.fields@,
            resolution.variants@,
            resolution.generic_parameters@,
            resolution.declarations@[i],
        ));
    }
}

/// A name the resolution refers to exists: where every recorded reference
/// names an existing declaration, what a literal resolves to lies within
/// its table.
pub proof fn lemma_resolved_literal_exists(resolution: &NameResolution, literal: AstId)
    requires
        resolution.refers_to_existing(),
    ensures
        latest(resolution.reference_log(), literal) matches Some(res) ==> names_existing(
            res,
            resolution.module_id(),
            resolution.table_lens(),
        ),
{
    crate::names::lemma_latest_in(resolution.reference_log(), literal);
    if let Some(res) = latest(resolution.reference_log(), literal) {
        let k = choose|k: int|
            0 <= k < resolution.reference_log().len() && #[trigger] resolution.reference_log()[k] == (literal, res);
        assert(names_existing(resolution.reference_log()[k].1, resolution.module_id(), resolution.table_lens()));
    }
}

/// What a name is bound to in any scope of such a resolution exists too.
pub proof fn lemma_bound_name_exists(resolution: &NameResolution, scope: int, namespace: Namespace, name: NameId)
    requires
        resolution.refers_to_existing(),
        0 <= scope < resolution.scope_table().len(),
    ensures
        resolution.scope_table()[scope].resolution_of(namespace, name) matches Some(res) ==> names_existing(
            res,
            resolution.module_id(),
            resolution.table_lens(),
        ),
{
    let entries = resolution.scope_table()[scope].entries(namespace);
    crate::names::lemma_latest_in(entries, name);
    if let Some(binding) = latest(entries, name) {
        let k = choose|k: int| 0 <= k < entries.len() && #[trigger] entries[k] == (name, binding);
        assert(names_existing(
            resolution.scope_table()[scope].entries(namespace)[k].1.resolution,
            resolution.module_id(),
            resolution.table_lens(),
        ));
    }
}

/// A name is never bound anew: what it is bound to in a namespace of a
/// scope is what it was first bound to there, or `Res::Error` once it was
/// bound twice.
pub proof fn lemma_binding_first_or_error(resolution: &NameResolution, scope: int, namespace: Namespace, name: NameId)
    requires
        resolution.wf(),
        0 <= scope < resolution.scope_table().len(),
    ensures
        resolution.scope_table()[scope].binding_of(namespace, name) matches Some(binding) ==> binding.resolution
            == Res::Error || Some(binding) == earliest(resolution.scope_table()[scope].entries(namespace), name),
{
    let entries = resolution.scope_table()[scope].entries(namespace);
    crate::names::lemma_latest_last(entries, name);
    if let Some(binding) = latest(entries, name) {
        let j = choose|j: int|
            0 <= j < entries.len() && #[trigger] entries[j] == (name, binding) && forall|m: int|
                j < m < entries.len() ==> entries[m].0 != name;
        assert(entries_settled(resolution.scopes@[scope].entries(namespace)));
        if forall|k: int| 0 <= k < j ==> entries[k].0 != name {
            crate::names::lemma_earliest_at(entries, name, j);
        } else {
            let k = choose|k: int| 0 <= k < j && entries[k].0 == name;
            assert(entries[k].0 == entries[j].0);
        }
    }
}

/// Ids are dense: the entry at position `i` of each declaration table has
/// index `i` in the resolved module.
pub proof fn lemma_dense_ids(resolution: &NameResolution)
    requires
        resolution.wf(),
    ensures
        forall|i: int|
            0 <= i < resolution.symbol_table().len() ==> (#[trigger] resolution.symbol_table()[i]).id == (SymbolId {
                module: resolution.module_id(),
                index: i as u32,
            }),
        forall|i: int|
            0 <= i < resolution.type_table().len() ==> (#[trigger] resolution.type_table()[i]).id == (TypeDefId {
                module: resolution.module_id(),
                index: i as u32,
            }),
        forall|i: int|
            0 <= i < resolution.field_table().len() ==> (#[trigger] resolution.field_table()[i]).id == (FieldId {
                module: resolution.module_id(),
                index: i as u32,
            }),
        forall|i: int|
            0 <= i < resolution.variant_table().len() ==> (#[trigger] resolution.variant_table()[i]).id == (VariantId {
                module: resolution.module_id(),
                index: i as u32,
            }),
        forall|i: int|
            0 <= i < resolution.generic_parameter_table().len() ==> (#[trigger] resolution.generic_parameter_table()[i]).id
                == (GenericParameterId { module: resolution.module_id(), index: i as u32 }),
{
}

/// A copy of a range.
pub fn copy_range(range: &Range<usize>) -> (copy: Range<usize>)
    ensures
        copy == *range,
{
    Range { start: range.start, end: range.end }
}

} // verus!
