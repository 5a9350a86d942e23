//! Identities handed out by name resolution, and what names resolve to.

use std::ops::Range;

use vstd::prelude::*;

use crate::ast::AST;

verus! {

/// A module of a workspace.
#[derive(Debug, Clone, Copy, PartialEq, Eq, Structural, Hash, PartialOrd, Ord)]
pub struct ModuleId(pub u32);

/// An interned identifier.
#[derive(Debug, Clone, Copy, PartialEq, Eq, Structural, Hash, PartialOrd, Ord)]
pub struct NameId(pub u32);

/// A lexical scope of one module.
#[derive(Debug, Clone, Copy, PartialEq, Eq, Structural, Hash, PartialOrd, Ord)]
pub struct ScopeId(pub u32);

/// A value-level declaration (binding, function, parameter or pattern binding).
#[derive(Debug, Clone, Copy, PartialEq, Eq, Structural, Hash, PartialOrd, Ord)]
pub struct SymbolId {
    pub module: ModuleId,
    pub index: u32,
}

/// A record, enum or interface declaration.
#[derive(Debug, Clone, Copy, PartialEq, Eq, Structural, Hash, PartialOrd, Ord)]
pub struct TypeDefId {
    pub module: ModuleId,
    pub index: u32,
}

/// A field of a record declaration.
#[derive(Debug, Clone, Copy, PartialEq, Eq, Structural, Hash, PartialOrd, Ord)]
pub struct FieldId {
    pub module: ModuleId,
    pub index: u32,
}

/// A variant of an enum declaration.
#[derive(Debug, Clone, Copy, PartialEq, Eq, Structural, Hash, PartialOrd, Ord)]
pub struct VariantId {
    pub module: ModuleId,
    pub index: u32,
}

/// A generic parameter of a type, interface, implementation or function.
#[derive(Debug, Clone, Copy, PartialEq, Eq, Structural, Hash, PartialOrd, Ord)]
pub struct GenericParameterId {
    pub module: ModuleId,
    pub index: u32,
}

/// The three separate namespaces of a scope.
#[derive(Debug, Clone, Copy, PartialEq, Eq, Structural, Hash)]
pub enum Namespace {
    Value,
    Type,
    Module,
}

/// A type that every module knows without declaring it.
#[derive(Debug, Clone, Copy, PartialEq, Eq, Structural, Hash)]
pub enum BuiltinType {
    Bool,
    Int,
    Float,
    String,
    List,
    SetType,
}

/// What a name refers to.
#[derive(Debug, Clone, Copy, PartialEq, Eq, Structural, Hash)]
pub enum Res {
    Symbol(SymbolId),
    Type(TypeDefId),
    Field(FieldId),
    EnumVariant(VariantId),
    Module(ModuleId),
    BuiltinType(BuiltinType),
    GenericParameter(GenericParameterId),
    /// A field, method, or compiler-provided static member resolved after typing.
    Member(NameId),
    Error,
}

/// What a declaring literal declares.
#[derive(Debug, Clone, Copy, PartialEq, Eq, Structural, Hash)]
pub enum Declaration {
    Symbol(SymbolId),
    Type(TypeDefId),
    Field(FieldId),
    EnumVariant(VariantId),
    GenericParameter(GenericParameterId),
    Module(ModuleId),
    Import { module: ModuleId, value: Option<SymbolId>, ty: Option<TypeDefId> },
}

#[derive(Debug, Clone, Copy, PartialEq, Eq, Structural, Hash)]
pub enum SymbolKind {
    Let,
    Function,
    Parameter,
    PatternBinding,
}

#[derive(Debug, Clone, Copy, PartialEq, Eq, Structural, Hash)]
pub enum TypeDefKind {
    Record,
    Enum,
    Interface,
}

#[derive(Debug, Clone, Copy, PartialEq, Eq, Structural, Hash)]
pub enum ScopeKind {
    Module,
    Block,
    TypeDefinition,
    Function,
    Closure,
    MatchArm,
    Interface,
    Implements,
}

/// The syntactic category of a node that side tables are keyed by.
#[derive(Debug, Clone, Copy, PartialEq, Eq, Structural, Hash)]
pub enum AstKind {
    Literal,
    Import,
    EnumDefine,
    EnumVariant,
    TypeDefine,
    InterfaceDefine,
    ImplementsDefine,
    TypeBlock,
    Field,
    LetStatement,
    FunctionDefine,
    FunctionArgument,
    GenericParameter,
    Pattern,
    Expression,
    TypeInfo,
}

/// The identity of a syntax node of one parse: its byte range and its
/// category.  Two nodes of one category never cover the same range, so the
/// pair tells nodes apart; it is not stable across reparses.
#[derive(Debug, Clone, Copy, PartialEq, Eq, Structural, Hash)]
pub struct AstId {
    pub start: usize,
    pub end: usize,
    pub kind: AstKind,
}

impl AstId {
    pub fn new<T: AST>(value: &T, kind: AstKind) -> (id: AstId)
        ensures
            id.start == value.span_value().start,
            id.end == value.span_value().end,
            id.kind == kind,
    {
        let span = value.span();
        AstId { start: span.start, end: span.end, kind }
    }

    pub fn kind(self) -> (kind: AstKind)
        ensures
            kind == self.kind,
    {
        self.kind
    }
}

/// A name resolution problem, at the range of the offending name.
#[derive(Debug, Clone, PartialEq, Eq)]
pub struct NameResolveError {
    pub kind: NameResolveErrorKind,
    pub span: Range<usize>,
}

#[derive(Debug, Clone, PartialEq, Eq)]
pub enum NameResolveErrorKind {
    UnresolvedName { name: NameId, namespace: Namespace },
    DuplicateBinding { name: NameId, namespace: Namespace, first: Option<Range<usize>> },
    UnknownModule,
    UnknownExport { module: ModuleId, name: NameId },
    ImportNotAtModuleScope,
    ExportNotAtModuleScope,
    DuplicateField { name: NameId, first: Range<usize> },
    DuplicateVariant { name: NameId, first: Range<usize> },
    /// A declaration table of the module already holds as many entries as
    /// its 32-bit indices can number; the declaration was not recorded.
    TooManyDeclarations,
}

/// The value a log of `(key, value)` entries holds for `key`: the latest
/// entry for it wins.
pub open spec fn latest<K, V>(entries: Seq<(K, V)>, key: K) -> Option<V>
    decreases entries.len(),
{
    if entries.len() == 0 {
        None
    } else if entries.last().0 == key {
        Some(entries.last().1)
    } else {
        latest(entries.drop_last(), key)
    }
}

/// Recording `value` for `key` in a log is what a later lookup of `key`
/// gives back; the other keys keep what they held.
pub proof fn lemma_latest_after_record<K, V>(entries: Seq<(K, V)>, key: K, value: V)
    ensures
        latest(entries.push((key, value)), key) == Some(value),
        forall|other: K| other != key ==> #[trigger] latest(entries.push((key, value)), other) == latest(entries, other),
{
    assert(entries.push((key, value)).drop_last() =~= entries);
}

/// What a log holds for a key comes from an entry of the log.
pub proof fn lemma_latest_in<K, V>(entries: Seq<(K, V)>, key: K)
    ensures
        latest(entries, key) matches Some(value) ==> exists|i: int| 0 <= i < entries.len() && #[trigger] entries[i] == (key, value),
    decreases entries.len(),
{
    if entries.len() > 0 && entries.last().0 != key {
        lemma_latest_in(entries.drop_last(), key);
        if let Some(value) = latest(entries, key) {
            let i = choose|i: int| 0 <= i < entries.drop_last().len() && #[trigger] entries.drop_last()[i] == (key, value);
            assert(entries[i] == (key, value));
        }
    } else if entries.len() > 0 {
        assert(entries[entries.len() - 1] == entries.last());
    }
}

/// The value the first entry of a log for `key` holds.
pub open spec fn earliest<K, V>(entries: Seq<(K, V)>, key: K) -> Option<V>
    decreases entries.len(),
{
    if entries.len() == 0 {
        None
    } else if entries[0].0 == key {
        Some(entries[0].1)
    } else {
        earliest(entries.drop_first(), key)
    }
}

/// A log with an entry for `key` holds a value for it.
pub proof fn lemma_latest_some<K, V>(entries: Seq<(K, V)>, key: K, i: int)
    requires
        0 <= i < entries.len(),
        entries[i].0 == key,
    ensures
        latest(entries, key) is Some,
    decreases entries.len(),
{
    if entries.last().0 != key {
        assert(i < entries.len() - 1);
        assert(entries.drop_last()[i] == entries[i]);
        lemma_latest_some(entries.drop_last(), key, i);
    }
}

/// What a log holds for `key` is its entry at some position `j` after which
/// no entry is for `key`.
pub proof fn lemma_latest_last<K, V>(entries: Seq<(K, V)>, key: K)
    ensures
        latest(entries, key) matches Some(value) ==> exists|j: int|
            0 <= j < entries.len() && #[trigger] entries[j] == (key, value) && forall|m: int|
                j < m < entries.len() ==> entries[m].0 != key,
    decreases entries.len(),
{
    if entries.len() > 0 {
        if entries.last().0 == key {
            assert(entries[entries.len() - 1] == entries.last());
        } else {
            lemma_latest_last(entries.drop_last(), key);
            if let Some(value) = latest(entries, key) {
                let j = choose|j: int|
                    0 <= j < entries.drop_last().len() && #[trigger] entries.drop_last()[j] == (key, value)
                        && forall|m: int| j < m < entries.drop_last().len() ==> entries.drop_last()[m].0 != key;
                assert(entries[j] == (key, value));
                assert forall|m: int| j < m < entries.len() implies entries[m].0 != key by {
                    if m < entries.len() - 1 {
                        assert(entries[m] == entries.drop_last()[m]);
                    }
                }
            }
        }
    }
}

/// The entry at `j` is the first for `key`: the log's first value for it.
pub proof fn lemma_earliest_at<K, V>(entries: Seq<(K, V)>, key: K, j: int)
    requires
        0 <= j < entries.len(),
        entries[j].0 == key,
        forall|k: int| 0 <= k < j ==> entries[k].0 != key,
    ensures
        earliest(entries, key) == Some(entries[j].1),
    decreases j,
{
    if j > 0 {
        let rest = entries.drop_first();
        assert forall|k: int| 0 <= k < j - 1 implies rest[k].0 != key by {
            assert(rest[k] == entries[k + 1]);
        }
        assert(entries[0].0 != key);
        lemma_earliest_at(rest, key, j - 1);
        assert(rest[j - 1] == entries[j]);
    }
}

/// Where the latest entry for a node stands in a log of entries.
pub fn position_of_node<V>(entries: &Vec<(AstId, V)>, key: AstId) -> (found: Option<usize>)
    ensures
        match found {
            Some(index) => index < entries@.len() && entries@[index as int].0 == key && latest(entries@, key)
                == Some(entries@[index as int].1),
            None => latest(entries@, key) is None,
        },
{
    let mut index = entries.len();
    proof {
        assert(entries@.subrange(0, index as int) =~= entries@);
    }
    while index > 0
        invariant
            index <= entries.len(),
            latest(entries@, key) == latest(entries@.subrange(0, index as int), key),
        decreases index,
    {
        proof {
            assert(entries@.subrange(0, index as int).drop_last() =~= entries@.subrange(0, index - 1));
        }
        if entries[index - 1].0 == key {
            return Some(index - 1);
        }
        index -= 1;
    }
    proof {
        assert(entries@.subrange(0, 0) =~= Seq::<(AstId, V)>::empty());
    }
    None
}

/// Where the latest entry for a name stands in a log of entries.
pub fn position_of_name<V>(entries: &Vec<(NameId, V)>, key: NameId) -> (found: Option<usize>)
    ensures
        match found {
            Some(index) => index < entries@.len() && entries@[index as int].0 == key && latest(entries@, key)
                == Some(entries@[index as int].1),
            None => latest(entries@, key) is None,
        },
{
    let mut index = entries.len();
    proof {
        assert(entries@.subrange(0, index as int) =~= entries@);
    }
    while index > 0
        invariant
            index <= entries.len(),
            latest(entries@, key) == latest(entries@.subrange(0, index as int), key),
        decreases index,
    {
        proof {
            assert(entries@.subrange(0, index as int).drop_last() =~= entries@.subrange(0, index - 1));
        }
        if entries[index - 1].0 == key {
            return Some(index - 1);
        }
        index -= 1;
    }
    proof {
        assert(entries@.subrange(0, 0) =~= Seq::<(NameId, V)>::empty());
    }
    None
}

} // verus!
