//! Scopes, module interfaces and the name table of name resolution.

use std::ops::Range;

use vstd::prelude::*;

use crate::names::{
    latest, position_of_name, ModuleId, NameId, Namespace, Res, ScopeId, ScopeKind, SymbolId,
    TypeDefId,
};
use crate::text::str_equal;

verus! {

/// What a name is bound to in a scope, and where it was bound (`None` for
/// the built-in types and the implicit `This`).
#[derive(Debug, Clone)]
pub struct Binding {
    pub resolution: Res,
    pub span: Option<Range<usize>>,
}

/// A copy of an optional range.
pub fn copy_span(span: &Option<Range<usize>>) -> (copy: Option<Range<usize>>)
    ensures
        copy == *span,
{
    match span {
        Some(range) => Some(Range { start: range.start, end: range.end }),
        None => None,
    }
}

/// A lexical scope: three namespaces of bindings and the enclosing scope.
#[derive(Debug)]
pub struct Scope {
    pub id: ScopeId,
    pub parent: Option<ScopeId>,
    pub kind: ScopeKind,
    pub values: Vec<(NameId, Binding)>,
    pub types: Vec<(NameId, Binding)>,
    pub modules: Vec<(NameId, Binding)>,
}

impl Scope {
    /// The bindings of one namespace, in the order they were made; a later
    /// binding of a name replaces an earlier one.
    pub open spec fn entries(&self, namespace: Namespace) -> Seq<(NameId, Binding)> {
        match namespace {
            Namespace::Value => self.values@,
            Namespace::Type => self.types@,
            Namespace::Module => self.modules@,
        }
    }

    /// The binding of `name` in `namespace`, if any.
    pub open spec fn binding_of(&self, namespace: Namespace, name: NameId) -> Option<Binding> {
        latest(self.entries(namespace), name)
    }

    /// What `name` resolves to in this scope alone.
    pub open spec fn resolution_of(&self, namespace: Namespace, name: NameId) -> Option<Res> {
        match self.binding_of(namespace, name) {
            Some(binding) => Some(binding.resolution),
            None => None,
        }
    }

    /// An empty scope.
    pub fn new(id: ScopeId, parent: Option<ScopeId>, kind: ScopeKind) -> (scope: Scope)
        ensures
            scope.id == id,
            scope.parent == parent,
            scope.kind == kind,
            forall|namespace: Namespace| #[trigger] scope.entries(namespace).len() == 0,
    {
        Scope { id, parent, kind, values: Vec::new(), types: Vec::new(), modules: Vec::new() }
    }

    pub fn get(&self, namespace: Namespace, name: NameId) -> (resolution: Option<Res>)
        ensures
            resolution == self.resolution_of(namespace, name),
    {
        let bindings = self.bindings(namespace);
        match position_of_name(bindings, name) {
            Some(index) => Some(bindings[index].1.resolution),
            None => None,
        }
    }

    pub fn bindings(&self, namespace: Namespace) -> (bindings: &Vec<(NameId, Binding)>)
        ensures
            bindings@ == self.entries(namespace),
    {
        match namespace {
            Namespace::Value => &self.values,
            Namespace::Type => &self.types,
            Namespace::Module => &self.modules,
        }
    }

    pub fn bindings_mut(&mut self, namespace: Namespace) -> (bindings: &mut Vec<(NameId, Binding)>)
        ensures
            bindings@ == old(self).entries(namespace),
            final(self).entries(namespace) == final(bindings)@,
            final(self).id == old(self).id,
            final(self).parent == old(self).parent,
            final(self).kind == old(self).kind,
            forall|other: Namespace| other != namespace ==> #[trigger] final(self).entries(other) == old(
                self,
            ).entries(other),
    {
        match namespace {
            Namespace::Value => &mut self.values,
            Namespace::Type => &mut self.types,
            Namespace::Module => &mut self.modules,
        }
    }
}

/// What a module exports under one name: a value, a type, or both.
#[derive(Debug, Clone, Copy, PartialEq, Eq, Structural)]
pub struct ExportedBinding {
    pub value: Option<SymbolId>,
    pub ty: Option<TypeDefId>,
}

/// The names a module exports, as other modules import them.
#[derive(Debug, Clone)]
pub struct ModuleInterface {
    pub module: ModuleId,
    pub exports: Vec<(String, ExportedBinding)>,
}

/// The text of each name of a table of entries keyed by strings.
pub open spec fn keyed_by_text<V>(entries: Seq<(String, V)>) -> Seq<(Seq<char>, V)> {
    entries.map_values(|entry: (String, V)| (entry.0@, entry.1))
}

/// Where the latest entry for `key` stands in a table keyed by strings.
fn position_of_text<V>(entries: &Vec<(String, V)>, key: &str) -> (found: Option<usize>)
    ensures
        match found {
            Some(index) => index < entries@.len() && entries@[index as int].0@ == key@ && latest(
                keyed_by_text(entries@),
                key@,
            ) == Some(entries@[index as int].1),
            None => latest(keyed_by_text(entries@), key@) is None,
        },
{
    let mut index = entries.len();
    proof {
        assert(keyed_by_text(entries@).subrange(0, index as int) =~= keyed_by_text(entries@));
    }
    while index > 0
        invariant
            index <= entries.len(),
            latest(keyed_by_text(entries@), key@) == latest(
                keyed_by_text(entries@).subrange(0, index as int),
                key@,
            ),
        decreases index,
    {
        proof {
            assert(keyed_by_text(entries@).subrange(0, index as int).drop_last() =~= keyed_by_text(
                entries@,
            ).subrange(0, index - 1));
        }
        if str_equal(entries[index - 1].0.as_str(), key) {
            return Some(index - 1);
        }
        index -= 1;
    }
    proof {
        assert(keyed_by_text(entries@).subrange(0, 0) =~= Seq::<(Seq<char>, V)>::empty());
    }
    None
}

impl ModuleInterface {
    /// The exports, each name with what it exports.
    pub open spec fn export_entries(&self) -> Seq<(Seq<char>, ExportedBinding)> {
        keyed_by_text(self.exports@)
    }

    /// What the module exports under `name`.
    pub open spec fn export_of(&self, name: Seq<char>) -> Option<ExportedBinding> {
        latest(self.export_entries(), name)
    }

    /// No name is listed twice.
    pub open spec fn wf(&self) -> bool {
        forall|i: int, j: int|
            0 <= i < j < self.export_entries().len() ==> #[trigger] self.export_entries()[i].0
                != #[trigger] self.export_entries()[j].0
    }

    /// An interface of `module` that exports nothing.
    pub fn new(module: ModuleId) -> (interface: ModuleInterface)
        ensures
            interface.module == module,
            interface.export_entries().len() == 0,
            interface.wf(),
    {
        let interface = ModuleInterface { module, exports: Vec::new() };
        proof {
            assert(interface.export_entries() =~= Seq::<(Seq<char>, ExportedBinding)>::empty());
        }
        interface
    }

    pub fn get(&self, name: &str) -> (exported: Option<ExportedBinding>)
        ensures
            exported == self.export_of(name@),
    {
        match position_of_text(&self.exports, name) {
            Some(index) => Some(self.exports[index].1),
            None => None,
        }
    }

    /// Every export, in the order the names were first exported.
    pub fn exports(&self) -> (exports: Vec<(&str, ExportedBinding)>)
        ensures
            exports@.len() == self.export_entries().len(),
            forall|i: int|
                0 <= i < exports@.len() ==> (#[trigger] exports@[i]).0@ == self.export_entries()[i].0
                    && exports@[i].1 == self.export_entries()[i].1,
    {
        let mut exports: Vec<(&str, ExportedBinding)> = Vec::new();
        let mut index: usize = 0;
        while index < self.exports.len()
            invariant
                index <= self.exports@.len(),
                exports@.len() == index,
                forall|i: int|
                    0 <= i < index ==> (#[trigger] exports@[i]).0@ == self.export_entries()[i].0
                        && exports@[i].1 == self.export_entries()[i].1,
            decreases self.exports@.len() - index,
        {
            exports.push((self.exports[index].0.as_str(), self.exports[index].1));
            index += 1;
        }
        exports
    }

    /// Exports `symbol` under `name`, next to a type exported under it.
    pub(crate) fn export_value(&mut self, name: &str, symbol: SymbolId)
        requires
            old(self).wf(),
        ensures
            final(self).wf(),
            final(self).module == old(self).module,
            forall|other: Seq<char>|
                other != name@ ==> #[trigger] final(self).export_of(other) == old(self).export_of(other),
            final(self).export_of(name@) == Some(
                ExportedBinding {
                    value: Some(symbol),
                    ty: match old(self).export_of(name@) {
                        Some(export) => export.ty,
                        None => None,
                    },
                },
            ),
    {
        let (value, ty) = match self.get(name) {
            Some(export) => (Some(symbol), export.ty),
            None => (Some(symbol), None),
        };
        self.set_export(name, ExportedBinding { value, ty });
    }

    /// Exports `ty` under `name`, next to a value exported under it.
    pub(crate) fn export_type(&mut self, name: &str, ty: TypeDefId)
        requires
            old(self).wf(),
        ensures
            final(self).wf(),
            final(self).module == old(self).module,
            forall|other: Seq<char>|
                other != name@ ==> #[trigger] final(self).export_of(other) == old(self).export_of(other),
            final(self).export_of(name@) == Some(
                ExportedBinding {
                    value: match old(self).export_of(name@) {
                        Some(export) => export.value,
                        None => None,
                    },
                    ty: Some(ty),
                },
            ),
    {
        let value = match self.get(name) {
            Some(export) => export.value,
            None => None,
        };
        self.set_export(name, ExportedBinding { value, ty: Some(ty) });
    }

    /// Sets what `name` exports, in place when it is listed already.
    fn set_export(&mut self, name: &str, export: ExportedBinding)
        requires
            old(self).wf(),
        ensures
            final(self).wf(),
            final(self).module == old(self).module,
            forall|other: Seq<char>|
                other != name@ ==> #[trigger] final(self).export_of(other) == old(self).export_of(other),
            final(self).export_of(name@) == Some(export),
    {
        let ghost before = self.export_entries();
        match position_of_text(&self.exports, name) {
            Some(index) => {
                let key = self.exports[index].0.clone();
                self.exports.set(index, (key, export));
                proof {
                    let after = self.export_entries();
                    assert(after =~= before.update(index as int, (name@, export)));
                    lemma_latest_update_unique(before, index as int, name@, export);
                }
            },
            None => {
                self.exports.push((name.to_owned(), export));
                proof {
                    let after = self.export_entries();
                    assert(after =~= before.push((name@, export)));
                    assert(after.drop_last() =~= before);
                    assert forall|i: int, j: int|
                        0 <= i < j < after.len() implies #[trigger] after[i].0 != #[trigger] after[j].0 by {
                        if j == after.len() - 1 {
                            lemma_latest_absent(before, name@, i);
                        }
                    }
                }
            },
        }
    }
}

/// Two interfaces of one module that export the same names alike.
pub open spec fn same_interface(a: ModuleInterface, b: ModuleInterface) -> bool {
    a.module == b.module && a.export_entries() == b.export_entries()
}

impl ModuleInterface {
    /// A copy of the interface.
    pub fn duplicate(&self) -> (copy: ModuleInterface)
        ensures
            same_interface(copy, *self),
            copy.wf() == self.wf(),
    {
        let mut exports: Vec<(String, ExportedBinding)> = Vec::new();
        let mut index: usize = 0;
        while index < self.exports.len()
            invariant
                index <= self.exports@.len(),
                exports@ =~= self.exports@.subrange(0, index as int),
            decreases self.exports@.len() - index,
        {
            let name = self.exports[index].0.clone();
            exports.push((name, self.exports[index].1));
            index += 1;
        }
        let copy = ModuleInterface { module: self.module, exports };
        proof {
            assert(copy.exports@ =~= self.exports@);
            assert(copy.export_entries() =~= self.export_entries());
        }
        copy
    }
}

/// The interfaces of the modules a module may import, by import path and
/// by module.
#[derive(Debug)]
pub struct ImportEnvironment {
    pub by_path: Vec<(String, ModuleInterface)>,
    pub by_id: Vec<(ModuleId, ModuleInterface)>,
}

impl Default for ImportEnvironment {
    fn default() -> (environment: Self)
        ensures
            environment.by_path@.len() == 0,
            environment.by_id@.len() == 0,
    {
        ImportEnvironment { by_path: Vec::new(), by_id: Vec::new() }
    }
}

impl ImportEnvironment {
    /// The interface imported by the path spelled `path`, quotes included.
    pub open spec fn interface_at_path(&self, path: Seq<char>) -> Option<ModuleInterface> {
        latest(keyed_by_text(self.by_path@), path)
    }

    /// The interface of `module`.
    pub open spec fn interface_of(&self, module: ModuleId) -> Option<ModuleInterface> {
        latest(self.by_id@, module)
    }

    /// Makes `interface` importable by the path spelled `path` (the source
    /// spelling of the string literal, quotes included) and by its module.
    pub fn insert(&mut self, path: &str, interface: ModuleInterface)
        ensures
            final(self).interface_at_path(path@) == Some(interface),
            forall|other: Seq<char>|
                other != path@ ==> #[trigger] final(self).interface_at_path(other) == old(
                    self,
                ).interface_at_path(other),
            match final(self).interface_of(interface.module) {
                Some(copy) => same_interface(copy, interface),
                None => false,
            },
            forall|other: ModuleId|
                other != interface.module ==> #[trigger] final(self).interface_of(other) == old(
                    self,
                ).interface_of(other),
    {
        let ghost before_path = keyed_by_text(self.by_path@);
        let ghost before_id = self.by_id@;
        let copy = interface.duplicate();
        self.by_id.push((interface.module, copy));
        self.by_path.push((path.to_owned(), interface));
        proof {
            assert(keyed_by_text(self.by_path@).drop_last() =~= before_path);
            assert(self.by_id@.drop_last() =~= before_id);
        }
    }

    pub fn get_by_path(&self, path: &str) -> (interface: Option<&ModuleInterface>)
        ensures
            match interface {
                Some(interface) => self.interface_at_path(path@) == Some(*interface),
                None => self.interface_at_path(path@) is None,
            },
    {
        match position_of_text(&self.by_path, path) {
            Some(index) => Some(&self.by_path[index].1),
            None => None,
        }
    }

    pub fn get_by_id(&self, module: ModuleId) -> (interface: Option<&ModuleInterface>)
        ensures
            match interface {
                Some(interface) => self.interface_of(module) == Some(*interface),
                None => self.interface_of(module) is None,
            },
    {
        let mut index = self.by_id.len();
        proof {
            assert(self.by_id@.subrange(0, index as int) =~= self.by_id@);
        }
        while index > 0
            invariant
                index <= self.by_id@.len(),
                latest(self.by_id@, module) == latest(self.by_id@.subrange(0, index as int), module),
            decreases index,
        {
            proof {
                assert(self.by_id@.subrange(0, index as int).drop_last() =~= self.by_id@.subrange(0, index - 1));
            }
            if self.by_id[index - 1].0 == module {
                return Some(&self.by_id[index - 1].1);
            }
            index -= 1;
        }
        proof {
            assert(self.by_id@.subrange(0, 0) =~= Seq::<(ModuleId, ModuleInterface)>::empty());
        }
        None
    }
}

/// The identifiers of a module, each numbered once.
#[derive(Debug)]
pub struct NameInterner {
    pub names: Vec<String>,
}

impl NameInterner {
    /// The identifier numbered `i` is the `i`-th of the sequence.
    pub open spec fn view(&self) -> Seq<Seq<char>> {
        self.names@.map_values(|name: String| name@)
    }

    /// No identifier is numbered twice.
    pub open spec fn wf(&self) -> bool {
        forall|i: int, j: int| 0 <= i < j < self.view().len() ==> #[trigger] self.view()[i] != #[trigger] self.view()[j]
    }

    pub fn new() -> (interner: NameInterner)
        ensures
            interner.view().len() == 0,
            interner.wf(),
    {
        let interner = NameInterner { names: Vec::new() };
        proof {
            assert(interner.view() =~= Seq::<Seq<char>>::empty());
        }
        interner
    }

    /// The number of `name`, if it has one.
    pub fn find(&self, name: &str) -> (id: Option<NameId>)
        requires
            self.view().len() <= u32::MAX + 1,
        ensures
            match id {
                Some(id) => id.0 < self.view().len() && self.view()[id.0 as int] == name@,
                None => !self.view().contains(name@),
            },
    {
        let mut index: usize = 0;
        while index < self.names.len()
            invariant
                index <= self.names@.len(),
                self.view().len() == self.names@.len(),
                self.view().len() <= u32::MAX + 1,
                forall|i: int| 0 <= i < index ==> self.view()[i] != name@,
            decreases self.names@.len() - index,
        {
            if str_equal(self.names[index].as_str(), name) {
                return Some(NameId(index as u32));
            }
            index += 1;
        }
        None
    }

    /// The number of `name`, numbering it first if it has none.
    pub fn intern(&mut self, name: &str) -> (id: NameId)
        requires
            old(self).wf(),
            old(self).view().len() <= u32::MAX,
        ensures
            final(self).wf(),
            id.0 < final(self).view().len(),
            final(self).view()[id.0 as int] == name@,
            old(self).view().contains(name@) ==> final(self).view() == old(self).view(),
            !old(self).view().contains(name@) ==> final(self).view() == old(self).view().push(name@),
    {
        if let Some(id) = self.find(name) {
            return id;
        }
        let id = NameId(self.names.len() as u32);
        let ghost before = self.view();
        self.names.push(name.to_owned());
        proof {
            assert(self.view() =~= before.push(name@));
        }
        id
    }

    pub fn get(&self, id: NameId) -> (name: &str)
        requires
            id.0 < self.view().len(),
        ensures
            name@ == self.view()[id.0 as int],
    {
        self.names[id.0 as usize].as_str()
    }
}

/// A key with no entry in a log occurs at no position of it.
proof fn lemma_latest_absent<K, V>(entries: Seq<(K, V)>, key: K, i: int)
    requires
        latest(entries, key) is None,
        0 <= i < entries.len(),
    ensures
        entries[i].0 != key,
    decreases entries.len(),
{
    if i < entries.len() - 1 {
        lemma_latest_absent(entries.drop_last(), key, i);
    }
}

/// In a log whose keys are distinct, replacing the value of an entry changes
/// what its key holds and nothing else.
proof fn lemma_latest_update_unique<K, V>(entries: Seq<(K, V)>, index: int, key: K, value: V)
    requires
        0 <= index < entries.len(),
        entries[index].0 == key,
        forall|i: int, j: int| 0 <= i < j < entries.len() ==> #[trigger] entries[i].0 != #[trigger] entries[j].0,
    ensures
        latest(entries.update(index, (key, value)), key) == Some(value),
        forall|other: K| other != key ==> #[trigger] latest(entries.update(index, (key, value)), other) == latest(entries, other),
        forall|i: int, j: int|
            0 <= i < j < entries.len() ==> #[trigger] entries.update(index, (key, value))[i].0
                != #[trigger] entries.update(index, (key, value))[j].0,
    decreases entries.len(),
{
    let updated = entries.update(index, (key, value));
    if index == entries.len() - 1 {
        assert(updated.drop_last() =~= entries.drop_last());
    } else {
        assert(updated.drop_last() =~= entries.drop_last().update(index, (key, value)));
        lemma_latest_update_unique(entries.drop_last(), index, key, value);
        assert(updated.last() == entries.last());
    }
    assert forall|other: K| other != key implies #[trigger] latest(updated, other) == latest(entries, other) by {
        if index < entries.len() - 1 {
            assert(updated.drop_last() =~= entries.drop_last().update(index, (key, value)));
            assert(latest(entries.drop_last().update(index, (key, value)), other) == latest(entries.drop_last(), other));
        } else {
            assert(updated.drop_last() =~= entries.drop_last());
        }
    }
}

} // verus!
