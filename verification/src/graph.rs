//! Value-level dependency graphs.
//!
//! Nodes are declarations (bindings, functions, enum variants) or root
//! statements; an edge points from a node to a value it uses.  A node id
//! occurs at most once; an edge occurs at most once.

use std::ops::Range;

use vstd::prelude::*;

use crate::names::{ModuleId, SymbolId, VariantId};

verus! {

/// A root statement of a module, numbered in source order.
#[derive(Debug, Clone, Copy, PartialEq, Eq, Structural, Hash, PartialOrd, Ord)]
pub struct StatementId {
    pub module: ModuleId,
    pub index: u32,
}

#[derive(Debug, Clone, Copy, PartialEq, Eq, Structural, Hash, PartialOrd, Ord)]
pub enum DependencyNodeId {
    Symbol(SymbolId),
    Variant(VariantId),
    Statement(StatementId),
}

impl DependencyNodeId {
    /// The module a node id belongs to.
    pub open spec fn module_of(self) -> ModuleId {
        match self {
            DependencyNodeId::Symbol(id) => id.module,
            DependencyNodeId::Variant(id) => id.module,
            DependencyNodeId::Statement(id) => id.module,
        }
    }

    pub fn module(self) -> (module: ModuleId)
        ensures
            module == self.module_of(),
    {
        match self {
            DependencyNodeId::Symbol(id) => id.module,
            DependencyNodeId::Variant(id) => id.module,
            DependencyNodeId::Statement(id) => id.module,
        }
    }
}

/// The sort key of a node id: variant rank, module, index.  Node ids are
/// ordered lexicographically by this key.
pub open spec fn node_key(id: DependencyNodeId) -> (int, int, int) {
    match id {
        DependencyNodeId::Symbol(s) => (0, s.module.0 as int, s.index as int),
        DependencyNodeId::Variant(v) => (1, v.module.0 as int, v.index as int),
        DependencyNodeId::Statement(s) => (2, s.module.0 as int, s.index as int),
    }
}

/// Strict order on node ids.
pub open spec fn node_id_lt(a: DependencyNodeId, b: DependencyNodeId) -> bool {
    let (a0, a1, a2) = node_key(a);
    let (b0, b1, b2) = node_key(b);
    a0 < b0 || (a0 == b0 && (a1 < b1 || (a1 == b1 && a2 < b2)))
}

pub proof fn lemma_node_key_injective(a: DependencyNodeId, b: DependencyNodeId)
    ensures
        node_key(a) == node_key(b) ==> a == b,
        a != b ==> (node_id_lt(a, b) || node_id_lt(b, a)),
        !(node_id_lt(a, b) && node_id_lt(b, a)),
        !node_id_lt(a, a),
{
}

fn node_key_of(id: DependencyNodeId) -> (key: (u8, u32, u32))
    ensures
        key.0 as int == node_key(id).0,
        key.1 as int == node_key(id).1,
        key.2 as int == node_key(id).2,
{
    match id {
        DependencyNodeId::Symbol(s) => (0, s.module.0, s.index),
        DependencyNodeId::Variant(v) => (1, v.module.0, v.index),
        DependencyNodeId::Statement(s) => (2, s.module.0, s.index),
    }
}

/// Whether `a` sorts strictly before `b`.
pub fn node_id_less(a: DependencyNodeId, b: DependencyNodeId) -> (less: bool)
    ensures
        less == node_id_lt(a, b),
{
    let (a0, a1, a2) = node_key_of(a);
    let (b0, b1, b2) = node_key_of(b);
    a0 < b0 || (a0 == b0 && (a1 < b1 || (a1 == b1 && a2 < b2)))
}

#[derive(Debug, Clone, Copy, PartialEq, Eq, Structural, Hash)]
pub enum DependencyNodeKind {
    Let,
    Function,
    EnumVariant,
    Assert,
    Assignment,
    Expression,
    External,
}

#[derive(Debug, PartialEq, Eq)]
pub struct DependencyNode {
    pub id: DependencyNodeId,
    pub kind: DependencyNodeKind,
    pub span: Option<Range<usize>>,
}

#[derive(Debug, Clone, Copy, PartialEq, Eq, Structural, Hash)]
pub enum DependencyEdgeKind {
    Reference,
    Call,
    InterfaceDispatch,
}

#[derive(Debug, PartialEq, Eq)]
pub struct DependencyEdge {
    pub source: DependencyNodeId,
    pub target: DependencyNodeId,
    pub kind: DependencyEdgeKind,
    pub span: Range<usize>,
}

#[derive(Debug, PartialEq, Eq)]
pub struct DependencyCycle {
    pub nodes: Vec<DependencyNodeId>,
    pub edges: Vec<DependencyEdge>,
}

pub fn copy_span(span: &Range<usize>) -> (copy: Range<usize>)
    ensures
        copy == *span,
{
    Range { start: span.start, end: span.end }
}

impl DependencyNode {
    pub fn duplicate(&self) -> (copy: Self)
        ensures
            copy == *self,
    {
        let span = match &self.span {
            Some(span) => Some(copy_span(span)),
            None => None,
        };
        DependencyNode { id: self.id, kind: self.kind, span }
    }
}

impl Clone for DependencyNode {
    fn clone(&self) -> (copy: Self)
        ensures
            copy == *self,
    {
        self.duplicate()
    }
}

impl Clone for DependencyEdge {
    fn clone(&self) -> (copy: Self)
        ensures
            copy == *self,
    {
        self.duplicate()
    }
}

impl DependencyEdge {
    pub fn duplicate(&self) -> (copy: Self)
        ensures
            copy == *self,
    {
        DependencyEdge {
            source: self.source,
            target: self.target,
            kind: self.kind,
            span: copy_span(&self.span),
        }
    }

    /// Field-wise equality.
    pub fn same_as(&self, other: &Self) -> (same: bool)
        ensures
            same == (*self == *other),
    {
        self.source == other.source && self.target == other.target && self.kind == other.kind
            && self.span.start == other.span.start && self.span.end == other.span.end
    }
}

/* ---------------------------------------------------------------------------------------------
 * Mathematical model of the graph operations.
 * ------------------------------------------------------------------------------------------ */

/// The position of the last node with the given id, or -1.
pub open spec fn find_id(nodes: Seq<DependencyNode>, id: DependencyNodeId) -> int
    decreases nodes.len(),
{
    if nodes.len() == 0 {
        -1
    } else if nodes.last().id == id {
        nodes.len() - 1
    } else {
        find_id(nodes.drop_last(), id)
    }
}

pub open spec fn contains_id(nodes: Seq<DependencyNode>, id: DependencyNodeId) -> bool {
    exists|i: int| 0 <= i < nodes.len() && #[trigger] nodes[i].id == id
}

pub open spec fn ids_distinct(nodes: Seq<DependencyNode>) -> bool {
    forall|i: int, j: int|
        0 <= i < nodes.len() && 0 <= j < nodes.len() && i != j ==> #[trigger] nodes[i].id
            != #[trigger] nodes[j].id
}

/// The placeholder node for an id that is referenced but not defined.
pub open spec fn external_node(id: DependencyNodeId) -> DependencyNode {
    DependencyNode { id, kind: DependencyNodeKind::External, span: None }
}

/// Inserting a node: a new id is appended; a known id keeps its node, except
/// that an external placeholder is replaced by a definition.
pub open spec fn insert_node_result(nodes: Seq<DependencyNode>, node: DependencyNode) -> Seq<
    DependencyNode,
> {
    let i = find_id(nodes, node.id);
    if i >= 0 {
        if nodes[i].kind == DependencyNodeKind::External && node.kind
            != DependencyNodeKind::External {
            nodes.update(i, node)
        } else {
            nodes
        }
    } else {
        nodes.push(node)
    }
}

/// `id` is a node of `nodes` that was defined, not only referenced.
pub open spec fn defines(nodes: Seq<DependencyNode>, id: DependencyNodeId) -> bool {
    exists|i: int| 0 <= i < nodes.len() && #[trigger] nodes[i].id == id && nodes[i].kind != DependencyNodeKind::External
}

/// Inserting a node keeps every definition, and a defining node defines
/// its id.
pub proof fn lemma_insert_node_defines(nodes: Seq<DependencyNode>, node: DependencyNode)
    ensures
        forall|id: DependencyNodeId| #[trigger] defines(nodes, id) ==> defines(insert_node_result(nodes, node), id),
        node.kind != DependencyNodeKind::External ==> defines(insert_node_result(nodes, node), node.id),
{
    lemma_find_id(nodes, node.id);
    let after = insert_node_result(nodes, node);
    let i = find_id(nodes, node.id);
    assert forall|id: DependencyNodeId| #[trigger] defines(nodes, id) implies defines(after, id) by {
        let j = choose|j: int| 0 <= j < nodes.len() && #[trigger] nodes[j].id == id && nodes[j].kind != DependencyNodeKind::External;
        if i >= 0 && j == i && nodes[i].kind == DependencyNodeKind::External {
        } else if i < 0 {
            assert(after[j] == nodes[j]);
        } else {
            assert(after[j] == nodes[j]);
        }
    }
    if node.kind != DependencyNodeKind::External {
        if i >= 0 {
            assert(after[i].id == node.id);
        } else {
            assert(after[nodes.len() as int] == node);
        }
    }
}

/// Inserting an edge keeps every definition.
pub proof fn lemma_insert_edge_defines(nodes: Seq<DependencyNode>, edge: DependencyEdge)
    ensures
        forall|id: DependencyNodeId| #[trigger] defines(nodes, id) ==> defines(insert_edge_nodes(nodes, edge), id),
{
    lemma_insert_node_defines(nodes, external_node(edge.source));
    lemma_insert_node_defines(insert_node_result(nodes, external_node(edge.source)), external_node(edge.target));
}

/// The nodes after inserting an edge: both endpoints become known.
pub open spec fn insert_edge_nodes(nodes: Seq<DependencyNode>, edge: DependencyEdge) -> Seq<
    DependencyNode,
> {
    insert_node_result(
        insert_node_result(nodes, external_node(edge.source)),
        external_node(edge.target),
    )
}

/// The edges after inserting an edge: appended unless already present.
pub open spec fn insert_edge_edges(edges: Seq<DependencyEdge>, edge: DependencyEdge) -> Seq<
    DependencyEdge,
> {
    if edges.contains(edge) {
        edges
    } else {
        edges.push(edge)
    }
}

/// Indices of the edges (in order) whose source (or target) is `id`.
pub open spec fn edge_indices(edges: Seq<DependencyEdge>, id: DependencyNodeId, by_source: bool) -> Seq<
    usize,
>
    decreases edges.len(),
{
    if edges.len() == 0 {
        Seq::empty()
    } else {
        let rest = edge_indices(edges.drop_last(), id, by_source);
        let endpoint = if by_source {
            edges.last().source
        } else {
            edges.last().target
        };
        if endpoint == id {
            rest.push((edges.len() - 1) as usize)
        } else {
            rest
        }
    }
}

/// The edges (in order) whose source (or target) is `id`.
pub open spec fn edges_touching(edges: Seq<DependencyEdge>, id: DependencyNodeId, by_source: bool) -> Seq<
    DependencyEdge,
>
    decreases edges.len(),
{
    if edges.len() == 0 {
        Seq::empty()
    } else {
        let rest = edges_touching(edges.drop_last(), id, by_source);
        let endpoint = if by_source {
            edges.last().source
        } else {
            edges.last().target
        };
        if endpoint == id {
            rest.push(edges.last())
        } else {
            rest
        }
    }
}

/// The sequence without later repetitions, first occurrences kept in order.
pub open spec fn dedup_first(s: Seq<DependencyNodeId>) -> Seq<DependencyNodeId>
    decreases s.len(),
{
    if s.len() == 0 {
        Seq::empty()
    } else {
        let rest = dedup_first(s.drop_last());
        if rest.contains(s.last()) {
            rest
        } else {
            rest.push(s.last())
        }
    }
}

proof fn lemma_find_id(nodes: Seq<DependencyNode>, id: DependencyNodeId)
    ensures
        -1 <= find_id(nodes, id) < nodes.len(),
        find_id(nodes, id) >= 0 ==> nodes[find_id(nodes, id)].id == id,
        find_id(nodes, id) < 0 <==> !contains_id(nodes, id),
        ids_distinct(nodes) ==> forall|i: int|
            0 <= i < nodes.len() && #[trigger] nodes[i].id == id ==> i == find_id(nodes, id),
    decreases nodes.len(),
{
    if nodes.len() > 0 {
        lemma_find_id(nodes.drop_last(), id);
        if nodes.last().id != id {
            if contains_id(nodes, id) {
                let i = choose|i: int| 0 <= i < nodes.len() && #[trigger] nodes[i].id == id;
                assert(nodes.drop_last()[i].id == id);
            }
        }
    }
}

proof fn lemma_insert_node(nodes: Seq<DependencyNode>, node: DependencyNode)
    requires
        ids_distinct(nodes),
    ensures
        ids_distinct(insert_node_result(nodes, node)),
        contains_id(insert_node_result(nodes, node), node.id),
        forall|id: DependencyNodeId|
            #![trigger contains_id(insert_node_result(nodes, node), id)]
            contains_id(insert_node_result(nodes, node), id) <==> (contains_id(nodes, id) || id
                == node.id),
        insert_node_result(nodes, node).len() >= nodes.len(),
        forall|i: int|
            0 <= i < nodes.len() ==> #[trigger] insert_node_result(nodes, node)[i].id
                == nodes[i].id,
{
    lemma_find_id(nodes, node.id);
    let r = insert_node_result(nodes, node);
    let i = find_id(nodes, node.id);
    assert forall|id: DependencyNodeId|
        contains_id(r, id) <==> (contains_id(nodes, id) || id == node.id) by {
        if contains_id(nodes, id) {
            let k = choose|k: int| 0 <= k < nodes.len() && #[trigger] nodes[k].id == id;
            assert(r[k].id == id);
        }
        if id == node.id {
            if i >= 0 {
                assert(r[i].id == id);
            } else {
                assert(r[nodes.len() as int].id == id);
            }
        }
        if contains_id(r, id) {
            let k = choose|k: int| 0 <= k < r.len() && #[trigger] r[k].id == id;
            if k < nodes.len() {
                assert(nodes[k].id == id);
            }
        }
    }
}

proof fn lemma_edge_indices_push(
    edges: Seq<DependencyEdge>,
    edge: DependencyEdge,
    id: DependencyNodeId,
    by_source: bool,
)
    ensures
        edge_indices(edges.push(edge), id, by_source) == (if (if by_source {
            edge.source
        } else {
            edge.target
        }) == id {
            edge_indices(edges, id, by_source).push(edges.len() as usize)
        } else {
            edge_indices(edges, id, by_source)
        }),
        edges_touching(edges.push(edge), id, by_source) == (if (if by_source {
            edge.source
        } else {
            edge.target
        }) == id {
            edges_touching(edges, id, by_source).push(edge)
        } else {
            edges_touching(edges, id, by_source)
        }),
{
    assert(edges.push(edge).drop_last() == edges);
}

/// The indices and the edges they select agree.
proof fn lemma_edge_indices_select(edges: Seq<DependencyEdge>, id: DependencyNodeId, by_source: bool)
    requires
        edges.len() <= usize::MAX,
    ensures
        edge_indices(edges, id, by_source).len() == edges_touching(edges, id, by_source).len(),
        forall|k: int|
            0 <= k < edge_indices(edges, id, by_source).len() ==> {
                &&& 0 <= #[trigger] edge_indices(edges, id, by_source)[k] < edges.len()
                &&& edges[edge_indices(edges, id, by_source)[k] as int] == edges_touching(
                    edges,
                    id,
                    by_source,
                )[k]
            },
    decreases edges.len(),
{
    if edges.len() > 0 {
        let rest = edges.drop_last();
        lemma_edge_indices_select(rest, id, by_source);
        let idx = edge_indices(edges, id, by_source);
        let ridx = edge_indices(rest, id, by_source);
        let tch = edges_touching(edges, id, by_source);
        let rtch = edges_touching(rest, id, by_source);
        assert forall|k: int| 0 <= k < idx.len() implies {
            &&& 0 <= #[trigger] idx[k] < edges.len()
            &&& edges[idx[k] as int] == tch[k]
        } by {
            if k < ridx.len() {
                assert(idx[k] == ridx[k]);
                assert(tch[k] == rtch[k]);
                assert(edges[ridx[k] as int] == rest[ridx[k] as int]);
            }
        }
    }
}

/* ---------------------------------------------------------------------------------------------
 * The graph.
 * ------------------------------------------------------------------------------------------ */

#[derive(Debug)]
pub struct DependencyGraph {
    nodes: Vec<DependencyNode>,
    edges: Vec<DependencyEdge>,
    outgoing: Vec<Vec<usize>>,
    incoming: Vec<Vec<usize>>,
}

impl Default for DependencyGraph {
    fn default() -> (graph: Self)
        ensures
            graph.wf(),
            graph.node_seq() == Seq::<DependencyNode>::empty(),
            graph.edge_seq() == Seq::<DependencyEdge>::empty(),
    {
        DependencyGraph::new()
    }
}

impl DependencyGraph {
    /// The nodes, in insertion order.
    pub closed spec fn node_seq(&self) -> Seq<DependencyNode> {
        self.nodes@
    }

    /// The edges, in insertion order.
    pub closed spec fn edge_seq(&self) -> Seq<DependencyEdge> {
        self.edges@
    }

    /// Node ids are unique, edges are unique and join known nodes, and the
    /// per-node edge lists index exactly the edges leaving / entering a node.
    pub closed spec fn wf(&self) -> bool {
        &&& ids_distinct(self.nodes@)
        &&& self.edges@.no_duplicates()
        &&& self.outgoing@.len() == self.nodes@.len()
        &&& self.incoming@.len() == self.nodes@.len()
        &&& forall|e: int|
            0 <= e < self.edges@.len() ==> contains_id(self.nodes@, #[trigger] self.edges@[e].source)
                && contains_id(self.nodes@, self.edges@[e].target)
        &&& forall|i: int|
            0 <= i < self.nodes@.len() ==> #[trigger] self.outgoing@[i]@ == edge_indices(
                self.edges@,
                self.nodes@[i].id,
                true,
            )
        &&& forall|i: int|
            0 <= i < self.nodes@.len() ==> #[trigger] self.incoming@[i]@ == edge_indices(
                self.edges@,
                self.nodes@[i].id,
                false,
            )
    }

    /// Well-formedness as seen from outside.
    pub broadcast proof fn lemma_wf(&self)
        requires
            #[trigger] self.wf(),
        ensures
            ids_distinct(self.node_seq()),
            self.edge_seq().no_duplicates(),
            forall|e: int|
                0 <= e < self.edge_seq().len() ==> contains_id(
                    self.node_seq(),
                    #[trigger] self.edge_seq()[e].source,
                ) && contains_id(self.node_seq(), self.edge_seq()[e].target),
    {
    }

    pub fn new() -> (graph: Self)
        ensures
            graph.wf(),
            graph.node_seq() == Seq::<DependencyNode>::empty(),
            graph.edge_seq() == Seq::<DependencyEdge>::empty(),
    {
        DependencyGraph {
            nodes: Vec::new(),
            edges: Vec::new(),
            outgoing: Vec::new(),
            incoming: Vec::new(),
        }
    }

    fn index_of(&self, id: DependencyNodeId) -> (index: Option<usize>)
        requires
            self.wf(),
        ensures
            match index {
                Some(i) => i as int == find_id(self.nodes@, id) && i < self.nodes@.len(),
                None => find_id(self.nodes@, id) < 0,
            },
    {
        proof {
            lemma_find_id(self.nodes@, id);
        }
        let mut i: usize = 0;
        while i < self.nodes.len()
            invariant
                i <= self.nodes@.len(),
                ids_distinct(self.nodes@),
                forall|k: int| 0 <= k < i ==> #[trigger] self.nodes@[k].id != id,
            decreases self.nodes@.len() - i,
        {
            if self.nodes[i].id == id {
                proof {
                    lemma_find_id(self.nodes@, id);
                }
                return Some(i);
            }
            i = i + 1;
        }
        proof {
            lemma_find_id(self.nodes@, id);
            if find_id(self.nodes@, id) >= 0 {
                let k = find_id(self.nodes@, id);
                assert(self.nodes@[k].id == id);
            }
        }
        None
    }

    /// The node with the given id.
    pub fn node(&self, id: DependencyNodeId) -> (node: Option<&DependencyNode>)
        requires
            self.wf(),
        ensures
            match node {
                Some(n) => contains_id(self.node_seq(), id) && *n == self.node_seq()[find_id(
                    self.node_seq(),
                    id,
                )],
                None => !contains_id(self.node_seq(), id),
            },
    {
        proof {
            lemma_find_id(self.nodes@, id);
        }
        match self.index_of(id) {
            Some(i) => Some(&self.nodes[i]),
            None => None,
        }
    }

    /// All nodes, in insertion order.
    pub fn nodes(&self) -> (nodes: &[DependencyNode])
        ensures
            nodes@ == self.node_seq(),
    {
        self.nodes.as_slice()
    }

    /// All edges, in insertion order.
    pub fn edges(&self) -> (edges: &[DependencyEdge])
        ensures
            edges@ == self.edge_seq(),
    {
        self.edges.as_slice()
    }

    fn collect_edges(&self, indices: &Vec<usize>, id: DependencyNodeId, by_source: bool) -> (result:
        Vec<DependencyEdge>)
        requires
            indices@ == edge_indices(self.edges@, id, by_source),
        ensures
            result@ == edges_touching(self.edges@, id, by_source),
    {
        proof {
            assert(self.edges@.len() == self.edges.len());
            lemma_edge_indices_select(self.edges@, id, by_source);
        }
        let mut result: Vec<DependencyEdge> = Vec::new();
        let mut k: usize = 0;
        while k < indices.len()
            invariant
                k <= indices@.len(),
                indices@ == edge_indices(self.edges@, id, by_source),
                edge_indices(self.edges@, id, by_source).len() == edges_touching(
                    self.edges@,
                    id,
                    by_source,
                ).len(),
                forall|j: int|
                    0 <= j < indices@.len() ==> {
                        &&& 0 <= #[trigger] edge_indices(self.edges@, id, by_source)[j]
                            < self.edges@.len()
                        &&& self.edges@[edge_indices(self.edges@, id, by_source)[j] as int]
                            == edges_touching(self.edges@, id, by_source)[j]
                    },
                result@ == edges_touching(self.edges@, id, by_source).subrange(0, k as int),
            decreases indices@.len() - k,
        {
            let e = indices[k];
            assert(edge_indices(self.edges@, id, by_source)[k as int] == e);
            result.push(self.edges[e].duplicate());
            k = k + 1;
            assert(result@ == edges_touching(self.edges@, id, by_source).subrange(0, k as int));
        }
        assert(result@ == edges_touching(self.edges@, id, by_source));
        result
    }

    /// The edges leaving a node, in insertion order.
    pub fn edges_from(&self, id: DependencyNodeId) -> (edges: Vec<DependencyEdge>)
        requires
            self.wf(),
        ensures
            edges@ == edges_touching(self.edge_seq(), id, true),
    {
        proof {
            lemma_find_id(self.nodes@, id);
        }
        match self.index_of(id) {
            Some(i) => self.collect_edges(&self.outgoing[i], id, true),
            None => {
                proof {
                    self.lemma_no_edges_of_unknown(id);
                }
                Vec::new()
            },
        }
    }

    /// The edges entering a node, in insertion order.
    pub fn edges_to(&self, id: DependencyNodeId) -> (edges: Vec<DependencyEdge>)
        requires
            self.wf(),
        ensures
            edges@ == edges_touching(self.edge_seq(), id, false),
    {
        proof {
            lemma_find_id(self.nodes@, id);
        }
        match self.index_of(id) {
            Some(i) => self.collect_edges(&self.incoming[i], id, false),
            None => {
                proof {
                    self.lemma_no_edges_of_unknown(id);
                }
                Vec::new()
            },
        }
    }

    proof fn lemma_no_edges_of_unknown(&self, id: DependencyNodeId)
        requires
            self.wf(),
            find_id(self.nodes@, id) < 0,
        ensures
            edges_touching(self.edges@, id, true) == Seq::<DependencyEdge>::empty(),
            edges_touching(self.edges@, id, false) == Seq::<DependencyEdge>::empty(),
    {
        lemma_find_id(self.nodes@, id);
        lemma_no_edges_touching(self.edges@, self.nodes@, id);
    }
}

proof fn lemma_no_edges_touching(
    edges: Seq<DependencyEdge>,
    nodes: Seq<DependencyNode>,
    id: DependencyNodeId,
)
    requires
        !contains_id(nodes, id),
        forall|e: int|
            0 <= e < edges.len() ==> contains_id(nodes, #[trigger] edges[e].source)
                && contains_id(nodes, edges[e].target),
    ensures
        edges_touching(edges, id, true) == Seq::<DependencyEdge>::empty(),
        edges_touching(edges, id, false) == Seq::<DependencyEdge>::empty(),
        edge_indices(edges, id, true) == Seq::<usize>::empty(),
        edge_indices(edges, id, false) == Seq::<usize>::empty(),
    decreases edges.len(),
{
    if edges.len() > 0 {
        let last = edges.len() - 1;
        assert(contains_id(nodes, edges[last].source));
        lemma_no_edges_touching(edges.drop_last(), nodes, id);
    }
}


/// An index is listed for `id` exactly when that edge touches `id`.
proof fn lemma_edge_indices_members(edges: Seq<DependencyEdge>, id: DependencyNodeId, by_source: bool)
    requires
        edges.len() <= usize::MAX,
    ensures
        forall|j: int|
            0 <= j < edges.len() ==> (edge_indices(edges, id, by_source).contains(j as usize) <==> (
            if by_source {
                edges[j].source
            } else {
                edges[j].target
            }) == id),
        forall|k: int|
            0 <= k < edge_indices(edges, id, by_source).len() ==> #[trigger] edge_indices(
                edges,
                id,
                by_source,
            )[k] < edges.len(),
    decreases edges.len(),
{
    if edges.len() > 0 {
        let rest = edges.drop_last();
        lemma_edge_indices_members(rest, id, by_source);
        let idx = edge_indices(edges, id, by_source);
        let ridx = edge_indices(rest, id, by_source);
        assert forall|j: int| 0 <= j < edges.len() implies (idx.contains(j as usize) <==> (
        if by_source {
            edges[j].source
        } else {
            edges[j].target
        }) == id) by {
            if j < rest.len() {
                assert(edges[j] == rest[j]);
                if idx.contains(j as usize) {
                    let k = choose|k: int| 0 <= k < idx.len() && idx[k] == j as usize;
                    if k < ridx.len() {
                        assert(ridx[k] == j as usize);
                    }
                }
                if ridx.contains(j as usize) {
                    let k = choose|k: int| 0 <= k < ridx.len() && ridx[k] == j as usize;
                    assert(idx[k] == j as usize);
                }
            } else {
                if idx.contains(j as usize) {
                    let k = choose|k: int| 0 <= k < idx.len() && idx[k] == j as usize;
                    if k < ridx.len() {
                        assert(ridx[k] < rest.len());
                    }
                }
                if (if by_source {
                    edges[j].source
                } else {
                    edges[j].target
                }) == id {
                    assert(idx[ridx.len() as int] == j as usize);
                }
            }
        }
    }
}

/// Inserting every node of `added`, in order.
pub open spec fn insert_nodes_result(nodes: Seq<DependencyNode>, added: Seq<DependencyNode>) -> Seq<
    DependencyNode,
>
    decreases added.len(),
{
    if added.len() == 0 {
        nodes
    } else {
        insert_node_result(insert_nodes_result(nodes, added.drop_last()), added.last())
    }
}

/// The nodes after inserting every edge of `added`, in order.
pub open spec fn insert_edges_nodes(nodes: Seq<DependencyNode>, added: Seq<DependencyEdge>) -> Seq<
    DependencyNode,
>
    decreases added.len(),
{
    if added.len() == 0 {
        nodes
    } else {
        insert_edge_nodes(insert_edges_nodes(nodes, added.drop_last()), added.last())
    }
}

/// The edges after inserting every edge of `added`, in order.
pub open spec fn insert_edges_edges(edges: Seq<DependencyEdge>, added: Seq<DependencyEdge>) -> Seq<
    DependencyEdge,
>
    decreases added.len(),
{
    if added.len() == 0 {
        edges
    } else {
        insert_edge_edges(insert_edges_edges(edges, added.drop_last()), added.last())
    }
}

/// Distinct targets of the edges leaving `id`, in order of first use.
pub open spec fn dependencies_of(edges: Seq<DependencyEdge>, id: DependencyNodeId) -> Seq<
    DependencyNodeId,
> {
    dedup_first(edges_touching(edges, id, true).map_values(|e: DependencyEdge| e.target))
}

/// Distinct sources of the edges entering `id`, in order of first use.
pub open spec fn dependents_of(edges: Seq<DependencyEdge>, id: DependencyNodeId) -> Seq<
    DependencyNodeId,
> {
    dedup_first(edges_touching(edges, id, false).map_values(|e: DependencyEdge| e.source))
}

fn id_list_contains(list: &Vec<DependencyNodeId>, id: DependencyNodeId) -> (found: bool)
    ensures
        found == list@.contains(id),
{
    let mut i: usize = 0;
    while i < list.len()
        invariant
            i <= list@.len(),
            forall|k: int| 0 <= k < i ==> list@[k] != id,
        decreases list@.len() - i,
    {
        if list[i] == id {
            return true;
        }
        i = i + 1;
    }
    false
}

/// The ids of a sequence, first occurrences only.
fn dedup_ids(ids: Vec<DependencyNodeId>) -> (result: Vec<DependencyNodeId>)
    ensures
        result@ == dedup_first(ids@),
{
    let mut result: Vec<DependencyNodeId> = Vec::new();
    let mut i: usize = 0;
    while i < ids.len()
        invariant
            i <= ids@.len(),
            result@ == dedup_first(ids@.subrange(0, i as int)),
        decreases ids@.len() - i,
    {
        let id = ids[i];
        assert(ids@.subrange(0, i + 1).drop_last() == ids@.subrange(0, i as int));
        if !id_list_contains(&result, id) {
            result.push(id);
        }
        i = i + 1;
    }
    assert(ids@.subrange(0, ids@.len() as int) == ids@);
    result
}

impl DependencyGraph {
    fn insert_node(&mut self, node: DependencyNode)
        requires
            old(self).wf(),
        ensures
            final(self).wf(),
            final(self).nodes@ == insert_node_result(old(self).nodes@, node),
            final(self).edges@ == old(self).edges@,
    {
        proof {
            lemma_find_id(self.nodes@, node.id);
            lemma_insert_node(self.nodes@, node);
        }
        match self.index_of(node.id) {
            Some(i) => {
                if self.nodes[i].kind == DependencyNodeKind::External && node.kind
                    != DependencyNodeKind::External {
                    self.nodes.set(i, node);
                }
            },
            None => {
                proof {
                    lemma_no_edges_touching(self.edges@, self.nodes@, node.id);
                }
                self.nodes.push(node);
                self.outgoing.push(Vec::new());
                self.incoming.push(Vec::new());
            },
        }
        proof {
            let r = insert_node_result(old(self).nodes@, node);
            assert(self.nodes@ == r);
            assert forall|e: int| 0 <= e < self.edges@.len() implies contains_id(
                self.nodes@,
                #[trigger] self.edges@[e].source,
            ) && contains_id(self.nodes@, self.edges@[e].target) by {
                assert(contains_id(old(self).nodes@, self.edges@[e].source));
                assert(contains_id(old(self).nodes@, self.edges@[e].target));
            }
        }
    }

    fn ensure_external(&mut self, id: DependencyNodeId)
        requires
            old(self).wf(),
        ensures
            final(self).wf(),
            final(self).nodes@ == insert_node_result(old(self).nodes@, external_node(id)),
            final(self).edges@ == old(self).edges@,
    {
        proof {
            lemma_find_id(self.nodes@, id);
        }
        if self.index_of(id).is_none() {
            self.insert_node(DependencyNode { id, kind: DependencyNodeKind::External, span: None });
        }
    }

    fn insert_edge(&mut self, edge: DependencyEdge)
        requires
            old(self).wf(),
            old(self).edges@.len() < usize::MAX,
        ensures
            final(self).wf(),
            final(self).nodes@ == insert_edge_nodes(old(self).nodes@, edge),
            final(self).edges@ == insert_edge_edges(old(self).edges@, edge),
    {
        self.ensure_external(edge.source);
        self.ensure_external(edge.target);
        proof {
            lemma_insert_node(old(self).nodes@, external_node(edge.source));
            lemma_insert_node(
                insert_node_result(old(self).nodes@, external_node(edge.source)),
                external_node(edge.target),
            );
            lemma_find_id(self.nodes@, edge.source);
            lemma_find_id(self.nodes@, edge.target);
            assert(self.edges@.len() == self.edges.len());
            lemma_edge_indices_members(self.edges@, edge.source, true);
        }
        let source = match self.index_of(edge.source) {
            Some(i) => i,
            None => {
                return ;
            },
        };
        let target = match self.index_of(edge.target) {
            Some(i) => i,
            None => {
                return ;
            },
        };
        let mut k: usize = 0;
        while k < self.outgoing[source].len()
            invariant
                self.wf(),
                self.nodes@ == insert_edge_nodes(old(self).nodes@, edge),
                self.edges@ == old(self).edges@,
                source < self.nodes@.len(),
                self.nodes@[source as int].id == edge.source,
                k <= self.outgoing@[source as int]@.len(),
                forall|j: int|
                    0 <= j < k ==> self.edges@[#[trigger] self.outgoing@[source as int]@[j] as int]
                        != edge,
                forall|j: int|
                    0 <= j < self.outgoing@[source as int]@.len() ==> #[trigger] self.outgoing@[source as int]@[j]
                        < self.edges@.len(),
            decreases self.outgoing@[source as int]@.len() - k,
        {
            let existing = self.outgoing[source][k];
            if self.edges[existing].same_as(&edge) {
                assert(self.edges@.contains(edge));
                return ;
            }
            k = k + 1;
        }
        proof {
            if self.edges@.contains(edge) {
                let j = choose|j: int| 0 <= j < self.edges@.len() && self.edges@[j] == edge;
                assert(edge_indices(self.edges@, edge.source, true).contains(j as usize));
                let m = choose|m: int|
                    0 <= m < self.outgoing@[source as int]@.len() && self.outgoing@[source as int]@[m]
                        == j as usize;
                assert(self.edges@[self.outgoing@[source as int]@[m] as int] == edge);
            }
        }
        let ghost old_edges = self.edges@;
        let ghost old_nodes = self.nodes@;
        let ghost old_outgoing = self.outgoing@;
        let ghost old_incoming = self.incoming@;
        let edge_index = self.edges.len();
        let edge_source = edge.source;
        let edge_target = edge.target;
        self.edges.push(edge);
        self.outgoing[source].push(edge_index);
        self.incoming[target].push(edge_index);
        proof {
            assert forall|i: int| 0 <= i < self.nodes@.len() implies #[trigger] self.outgoing@[i]@
                == edge_indices(self.edges@, self.nodes@[i].id, true) by {
                lemma_edge_indices_push(old_edges, edge, self.nodes@[i].id, true);
                if i != source {
                    assert(self.nodes@[i].id != edge_source);
                }
            }
            assert forall|i: int| 0 <= i < self.nodes@.len() implies #[trigger] self.incoming@[i]@
                == edge_indices(self.edges@, self.nodes@[i].id, false) by {
                lemma_edge_indices_push(old_edges, edge, self.nodes@[i].id, false);
                if i != target {
                    assert(self.nodes@[i].id != edge_target);
                }
            }
            assert forall|e: int| 0 <= e < self.edges@.len() implies contains_id(
                self.nodes@,
                #[trigger] self.edges@[e].source,
            ) && contains_id(self.nodes@, self.edges@[e].target) by {
                if e == old_edges.len() {
                    assert(self.nodes@[source as int].id == edge_source);
                    assert(self.nodes@[target as int].id == edge_target);
                } else {
                    assert(self.edges@[e] == old_edges[e]);
                }
            }
        }
    }

    /// Records a declaration node, replacing an external placeholder.
    pub fn define_node(&mut self, id: DependencyNodeId, kind: DependencyNodeKind, span: Range<usize>)
        requires
            old(self).wf(),
        ensures
            final(self).wf(),
            final(self).node_seq() == insert_node_result(
                old(self).node_seq(),
                DependencyNode { id, kind, span: Some(span) },
            ),
            final(self).edge_seq() == old(self).edge_seq(),
    {
        self.insert_node(DependencyNode { id, kind, span: Some(span) });
    }

    /// Records that `source` uses `target`; an unknown target becomes an
    /// external node.
    pub fn add_edge(
        &mut self,
        source: DependencyNodeId,
        target: DependencyNodeId,
        kind: DependencyEdgeKind,
        span: Range<usize>,
    )
        requires
            old(self).wf(),
            old(self).edge_seq().len() < usize::MAX,
        ensures
            final(self).wf(),
            final(self).node_seq() == insert_edge_nodes(
                insert_node_result(old(self).node_seq(), external_node(target)),
                DependencyEdge { source, target, kind, span },
            ),
            final(self).edge_seq() == insert_edge_edges(
                old(self).edge_seq(),
                DependencyEdge { source, target, kind, span },
            ),
    {
        self.ensure_external(target);
        self.insert_edge(DependencyEdge { source, target, kind, span });
    }

    /// The distinct ids this node uses, in order of first use.
    pub fn dependencies(&self, id: DependencyNodeId) -> (ids: Vec<DependencyNodeId>)
        requires
            self.wf(),
        ensures
            ids@ == dependencies_of(self.edge_seq(), id),
    {
        let edges = self.edges_from(id);
        let mut targets: Vec<DependencyNodeId> = Vec::new();
        let mut i: usize = 0;
        while i < edges.len()
            invariant
                i <= edges@.len(),
                targets@ == edges@.subrange(0, i as int).map_values(|e: DependencyEdge| e.target),
            decreases edges@.len() - i,
        {
            targets.push(edges[i].target);
            i = i + 1;
            assert(targets@ == edges@.subrange(0, i as int).map_values(|e: DependencyEdge| e.target));
        }
        assert(edges@.subrange(0, edges@.len() as int) == edges@);
        dedup_ids(targets)
    }

    /// The distinct ids that use this node, in order of first use.
    pub fn dependents(&self, id: DependencyNodeId) -> (ids: Vec<DependencyNodeId>)
        requires
            self.wf(),
        ensures
            ids@ == dependents_of(self.edge_seq(), id),
    {
        let edges = self.edges_to(id);
        let mut sources: Vec<DependencyNodeId> = Vec::new();
        let mut i: usize = 0;
        while i < edges.len()
            invariant
                i <= edges@.len(),
                sources@ == edges@.subrange(0, i as int).map_values(|e: DependencyEdge| e.source),
            decreases edges@.len() - i,
        {
            sources.push(edges[i].source);
            i = i + 1;
            assert(sources@ == edges@.subrange(0, i as int).map_values(|e: DependencyEdge| e.source));
        }
        assert(edges@.subrange(0, edges@.len() as int) == edges@);
        dedup_ids(sources)
    }

    /// Merges another graph into this one: its nodes, then its edges, are
    /// inserted in order.
    pub fn extend(&mut self, other: &Self)
        requires
            old(self).wf(),
            old(self).edge_seq().len() + other.edge_seq().len() < usize::MAX,
        ensures
            final(self).wf(),
            final(self).node_seq() == insert_edges_nodes(
                insert_nodes_result(old(self).node_seq(), other.node_seq()),
                other.edge_seq(),
            ),
            final(self).edge_seq() == insert_edges_edges(old(self).edge_seq(), other.edge_seq()),
    {
        let mut i: usize = 0;
        while i < other.nodes.len()
            invariant
                self.wf(),
                i <= other.nodes@.len(),
                self.nodes@ == insert_nodes_result(old(self).nodes@, other.nodes@.subrange(0, i as int)),
                self.edges@ == old(self).edges@,
            decreases other.nodes@.len() - i,
        {
            assert(other.nodes@.subrange(0, i + 1).drop_last() == other.nodes@.subrange(0, i as int));
            self.insert_node(other.nodes[i].duplicate());
            i = i + 1;
        }
        assert(other.nodes@.subrange(0, other.nodes@.len() as int) == other.nodes@);
        let ghost base_nodes = self.nodes@;
        let mut j: usize = 0;
        while j < other.edges.len()
            invariant
                self.wf(),
                j <= other.edges@.len(),
                self.nodes@ == insert_edges_nodes(base_nodes, other.edges@.subrange(0, j as int)),
                self.edges@ == insert_edges_edges(old(self).edges@, other.edges@.subrange(0, j as int)),
                self.edges@.len() <= old(self).edges@.len() + j,
                old(self).edges@.len() + other.edges@.len() < usize::MAX,
            decreases other.edges@.len() - j,
        {
            assert(other.edges@.subrange(0, j + 1).drop_last() == other.edges@.subrange(0, j as int));
            self.insert_edge(other.edges[j].duplicate());
            j = j + 1;
        }
        assert(other.edges@.subrange(0, other.edges@.len() as int) == other.edges@);
    }
}


/// Node `i` depends on node `j`: some edge leads from the one to the other.
pub open spec fn depends_on(nodes: Seq<DependencyNode>, edges: Seq<DependencyEdge>, i: int, j: int) -> bool {
    exists|e: int|
        0 <= e < edges.len() && (#[trigger] edges[e]).source == nodes[i].id && edges[e].target
            == nodes[j].id
}

/// The adjacency lists of a graph with `n` nodes: each strictly increasing,
/// listing exactly the nodes that node depends on.
pub open spec fn adjacency_of(
    nodes: Seq<DependencyNode>,
    edges: Seq<DependencyEdge>,
    adjacency: Seq<Vec<usize>>,
) -> bool {
    &&& adjacency.len() == nodes.len()
    &&& forall|i: int, k: int|
        0 <= i < adjacency.len() && 0 <= k < adjacency[i]@.len() ==> (#[trigger] adjacency[i]@[k])
            < nodes.len()
    &&& forall|i: int, a: int, b: int|
        0 <= i < adjacency.len() && 0 <= a < b < adjacency[i]@.len() ==> (#[trigger] adjacency[i]@[a])
            < (#[trigger] adjacency[i]@[b])
    &&& forall|i: int, j: int|
        0 <= i < nodes.len() && 0 <= j < nodes.len() ==> (#[trigger] adjacency[i]@.contains(j as usize)
            <==> depends_on(nodes, edges, i, j))
}

/// Inserts `x` into a strictly increasing list unless it is there already.
fn insert_sorted(row: &mut Vec<usize>, x: usize)
    requires
        forall|a: int, b: int| 0 <= a < b < old(row)@.len() ==> old(row)@[a] < old(row)@[b],
    ensures
        forall|a: int, b: int| 0 <= a < b < final(row)@.len() ==> final(row)@[a] < final(row)@[b],
        forall|y: usize| final(row)@.contains(y) <==> (old(row)@.contains(y) || y == x),
{
    let mut p: usize = 0;
    while p < row.len() && row[p] < x
        invariant
            row@ == old(row)@,
            p <= row@.len(),
            forall|k: int| 0 <= k < p ==> row@[k] < x,
        decreases row@.len() - p,
    {
        p = p + 1;
    }
    if p < row.len() && row[p] == x {
        proof {
            assert(row@[p as int] == x);
            assert(row@.contains(x));
            assert(forall|y: usize| row@.contains(y) <==> (old(row)@.contains(y) || y == x));
        }
        return;
    }
    let ghost before = row@;
    row.insert(p, x);
    proof {
        assert forall|y: usize| row@.contains(y) <==> (before.contains(y) || y == x) by {
            if row@.contains(y) {
                let k = choose|k: int| 0 <= k < row@.len() && row@[k] == y;
                if k < p {
                    assert(before[k] == y);
                } else if k > p {
                    assert(before[k - 1] == y);
                }
            }
            if before.contains(y) {
                let k = choose|k: int| 0 <= k < before.len() && before[k] == y;
                if k < p {
                    assert(row@[k] == y);
                } else {
                    assert(row@[k + 1] == y);
                }
            }
            if y == x {
                assert(row@[p as int] == x);
            }
        }
        assert(before == old(row)@);
        assert(forall|y: usize| row@.contains(y) <==> (old(row)@.contains(y) || y == x));
    }
}

impl DependencyGraph {
    /// For each node (by position), the positions of the nodes it depends
    /// on, increasing and without repetition.
    pub(crate) fn adjacency(&self) -> (adjacency: Vec<Vec<usize>>)
        requires
            self.wf(),
        ensures
            adjacency_of(self.node_seq(), self.edge_seq(), adjacency@),
    {
        let n = self.nodes.len();
        let mut adjacency: Vec<Vec<usize>> = Vec::new();
        let mut i: usize = 0;
        while i < n
            invariant
                n == self.nodes@.len(),
                i <= n,
                adjacency@.len() == i,
                forall|k: int| 0 <= k < i ==> (#[trigger] adjacency@[k])@.len() == 0,
            decreases n - i,
        {
            adjacency.push(Vec::new());
            i = i + 1;
        }
        let mut e: usize = 0;
        while e < self.edges.len()
            invariant
                self.wf(),
                n == self.nodes@.len(),
                e <= self.edges@.len(),
                adjacency@.len() == n,
                forall|i: int, k: int|
                    0 <= i < n && 0 <= k < adjacency@[i]@.len() ==> (#[trigger] adjacency@[i]@[k]) < n,
                forall|i: int, a: int, b: int|
                    0 <= i < n && 0 <= a < b < adjacency@[i]@.len() ==> (#[trigger] adjacency@[i]@[a])
                        < (#[trigger] adjacency@[i]@[b]),
                forall|i: int, j: int|
                    0 <= i < n && 0 <= j < n ==> (#[trigger] adjacency@[i]@.contains(j as usize) <==> exists|
                        f: int,
                    |
                        0 <= f < e && (#[trigger] self.edges@[f]).source == self.nodes@[i].id
                            && self.edges@[f].target == self.nodes@[j].id),
            decreases self.edges@.len() - e,
        {
            let edge = &self.edges[e];
            proof {
                lemma_find_id(self.nodes@, edge.source);
                lemma_find_id(self.nodes@, edge.target);
            }
            let source = match self.index_of(edge.source) {
                Some(index) => index,
                None => {
                    proof {
                        assert(contains_id(self.nodes@, self.edges@[e as int].source));
                    }
                    e = e + 1;
                    continue;
                },
            };
            let target = match self.index_of(edge.target) {
                Some(index) => index,
                None => {
                    proof {
                        assert(contains_id(self.nodes@, self.edges@[e as int].target));
                    }
                    e = e + 1;
                    continue;
                },
            };
            let ghost before = adjacency@;
            insert_sorted(&mut adjacency[source], target);
            proof {
                assert forall|i: int, k: int|
                    0 <= i < n && 0 <= k < adjacency@[i]@.len() implies (#[trigger] adjacency@[i]@[k]) < n by {
                    if i == source {
                        assert(adjacency@[i]@.contains(adjacency@[i]@[k]));
                        if before[i]@.contains(adjacency@[i]@[k]) {
                            let m = choose|m: int| 0 <= m < before[i]@.len() && before[i]@[m] == adjacency@[i]@[k];
                            assert(before[i]@[m] < n);
                        }
                    } else {
                        assert(adjacency@[i] == before[i]);
                    }
                }
                assert forall|i: int, j: int| 0 <= i < n && 0 <= j < n implies (#[trigger] adjacency@[i]@.contains(
                    j as usize,
                ) <==> exists|f: int|
                    0 <= f < e + 1 && (#[trigger] self.edges@[f]).source == self.nodes@[i].id
                        && self.edges@[f].target == self.nodes@[j].id) by {
                    if i == source {
                        if j == target {
                            assert(self.edges@[e as int].source == self.nodes@[i].id);
                        }
                        if exists|f: int|
                            0 <= f < e + 1 && (#[trigger] self.edges@[f]).source == self.nodes@[i].id
                                && self.edges@[f].target == self.nodes@[j].id {
                            let f = choose|f: int|
                                0 <= f < e + 1 && (#[trigger] self.edges@[f]).source
                                    == self.nodes@[i].id && self.edges@[f].target == self.nodes@[j].id;
                            if f == e {
                                assert(self.nodes@[j].id == self.nodes@[target as int].id);
                            }
                        }
                    } else {
                        assert(adjacency@[i] == before[i]);
                        if exists|f: int|
                            0 <= f < e + 1 && (#[trigger] self.edges@[f]).source == self.nodes@[i].id
                                && self.edges@[f].target == self.nodes@[j].id {
                            let f = choose|f: int|
                                0 <= f < e + 1 && (#[trigger] self.edges@[f]).source
                                    == self.nodes@[i].id && self.edges@[f].target == self.nodes@[j].id;
                            if f == e {
                                assert(self.nodes@[i].id == self.nodes@[source as int].id);
                            }
                        }
                    }
                }
            }
            e = e + 1;
        }
        adjacency
    }
}


proof fn lemma_dedup_first_contains(s: Seq<DependencyNodeId>, x: DependencyNodeId)
    ensures
        dedup_first(s).contains(x) <==> s.contains(x),
    decreases s.len(),
{
    if s.len() > 0 {
        let rest = dedup_first(s.drop_last());
        let last = s.last();
        lemma_dedup_first_contains(s.drop_last(), x);
        if s.drop_last().contains(x) {
            let k = choose|k: int| 0 <= k < s.drop_last().len() && s.drop_last()[k] == x;
            assert(s[k] == x);
        }
        if s.contains(x) && x != last {
            let k = choose|k: int| 0 <= k < s.len() && s[k] == x;
            assert(s.drop_last()[k] == x);
        }
        if x == last {
            assert(s[s.len() - 1] == x);
        }
        if !rest.contains(last) {
            let pushed = rest.push(last);
            assert(pushed[rest.len() as int] == last);
            if rest.contains(x) {
                let k = choose|k: int| 0 <= k < rest.len() && rest[k] == x;
                assert(pushed[k] == x);
            }
            if pushed.contains(x) {
                let k = choose|k: int| 0 <= k < pushed.len() && pushed[k] == x;
                if k < rest.len() {
                    assert(rest[k] == x);
                }
            }
        } else {
            lemma_dedup_first_contains(s.drop_last(), last);
        }
    }
}

proof fn lemma_touching_contains(edges: Seq<DependencyEdge>, id: DependencyNodeId, by_source: bool, edge: DependencyEdge)
    ensures
        edges_touching(edges, id, by_source).contains(edge) <==> edges.contains(edge) && (if by_source {
            edge.source
        } else {
            edge.target
        }) == id,
    decreases edges.len(),
{
    if edges.len() > 0 {
        let rest = edges_touching(edges.drop_last(), id, by_source);
        lemma_touching_contains(edges.drop_last(), id, by_source, edge);
        if edges.drop_last().contains(edge) {
            let k = choose|k: int| 0 <= k < edges.drop_last().len() && edges.drop_last()[k] == edge;
            assert(edges[k] == edge);
        }
        if edges.contains(edge) && edge != edges.last() {
            let k = choose|k: int| 0 <= k < edges.len() && edges[k] == edge;
            assert(edges.drop_last()[k] == edge);
        }
        if edge == edges.last() {
            assert(edges[edges.len() - 1] == edge);
        }
        if rest.contains(edge) {
            let k = choose|k: int| 0 <= k < rest.len() && rest[k] == edge;
            assert(rest.push(edges.last())[k] == edge);
        }
        assert(rest.push(edges.last())[rest.len() as int] == edges.last());
    }
}

/// `b` is among the dependencies of `a` exactly when `a` is among the
/// dependents of `b`: both say that an edge leads from `a` to `b`.
pub proof fn lemma_dependencies_dependents_symmetric(edges: Seq<DependencyEdge>, a: DependencyNodeId, b: DependencyNodeId)
    ensures
        dependencies_of(edges, a).contains(b) <==> dependents_of(edges, b).contains(a),
        dependencies_of(edges, a).contains(b) <==> exists|e: int|
            0 <= e < edges.len() && (#[trigger] edges[e]).source == a && edges[e].target == b,
{
    let out = edges_touching(edges, a, true);
    let into = edges_touching(edges, b, false);
    let targets = out.map_values(|e: DependencyEdge| e.target);
    let sources = into.map_values(|e: DependencyEdge| e.source);
    lemma_dedup_first_contains(targets, b);
    lemma_dedup_first_contains(sources, a);
    if targets.contains(b) {
        let k = choose|k: int| 0 <= k < targets.len() && targets[k] == b;
        lemma_touching_contains(edges, a, true, out[k]);
        assert(out.contains(out[k]));
        let e = choose|e: int| 0 <= e < edges.len() && edges[e] == out[k];
        lemma_touching_contains(edges, b, false, edges[e]);
        assert(edges.contains(edges[e]));
        let j = choose|j: int| 0 <= j < into.len() && into[j] == edges[e];
        assert(sources[j] == a);
    }
    if sources.contains(a) {
        let k = choose|k: int| 0 <= k < sources.len() && sources[k] == a;
        lemma_touching_contains(edges, b, false, into[k]);
        assert(into.contains(into[k]));
        let e = choose|e: int| 0 <= e < edges.len() && edges[e] == into[k];
        lemma_touching_contains(edges, a, true, edges[e]);
        assert(edges.contains(edges[e]));
        let j = choose|j: int| 0 <= j < out.len() && out[j] == edges[e];
        assert(targets[j] == b);
    }
    if exists|e: int| 0 <= e < edges.len() && (#[trigger] edges[e]).source == a && edges[e].target == b {
        let e = choose|e: int| 0 <= e < edges.len() && (#[trigger] edges[e]).source == a && edges[e].target == b;
        assert(edges.contains(edges[e]));
        lemma_touching_contains(edges, a, true, edges[e]);
        let j = choose|j: int| 0 <= j < out.len() && out[j] == edges[e];
        assert(targets[j] == b);
    }
}

proof fn lemma_insert_edges_contains(edges: Seq<DependencyEdge>, added: Seq<DependencyEdge>, edge: DependencyEdge)
    ensures
        insert_edges_edges(edges, added).contains(edge) <==> edges.contains(edge) || added.contains(edge),
    decreases added.len(),
{
    if added.len() > 0 {
        let rest = added.drop_last();
        let last = added.last();
        let middle = insert_edges_edges(edges, rest);
        lemma_insert_edges_contains(edges, rest, edge);
        if rest.contains(edge) {
            let k = choose|k: int| 0 <= k < rest.len() && rest[k] == edge;
            assert(added[k] == edge);
        }
        if added.contains(edge) && edge != last {
            let k = choose|k: int| 0 <= k < added.len() && added[k] == edge;
            assert(rest[k] == edge);
        }
        if edge == last {
            assert(added[added.len() - 1] == edge);
        }
        if !middle.contains(last) {
            let pushed = middle.push(last);
            assert(pushed[middle.len() as int] == last);
            if middle.contains(edge) {
                let k = choose|k: int| 0 <= k < middle.len() && middle[k] == edge;
                assert(pushed[k] == edge);
            }
            if pushed.contains(edge) {
                let k = choose|k: int| 0 <= k < pushed.len() && pushed[k] == edge;
                if k < middle.len() {
                    assert(middle[k] == edge);
                }
            }
        }
    }
}

proof fn lemma_insert_edges_idempotent(edges: Seq<DependencyEdge>, added: Seq<DependencyEdge>)
    requires
        forall|k: int| 0 <= k < added.len() ==> edges.contains(#[trigger] added[k]),
    ensures
        insert_edges_edges(edges, added) == edges,
    decreases added.len(),
{
    if added.len() > 0 {
        let rest = added.drop_last();
        assert forall|k: int| 0 <= k < rest.len() implies edges.contains(#[trigger] rest[k]) by {
            assert(rest[k] == added[k]);
        }
        lemma_insert_edges_idempotent(edges, rest);
        assert(edges.contains(added[added.len() - 1]));
    }
}

proof fn lemma_insert_nodes_defines(nodes: Seq<DependencyNode>, added: Seq<DependencyNode>)
    ensures
        forall|id: DependencyNodeId|
            defines(nodes, id) || defines(added, id) ==> #[trigger] defines(insert_nodes_result(nodes, added), id),
    decreases added.len(),
{
    if added.len() > 0 {
        let rest = added.drop_last();
        let last = added.last();
        lemma_insert_nodes_defines(nodes, rest);
        let middle = insert_nodes_result(nodes, rest);
        lemma_insert_node_defines(middle, last);
        assert forall|id: DependencyNodeId| defines(nodes, id) || defines(added, id) implies #[trigger] defines(
            insert_nodes_result(nodes, added),
            id,
        ) by {
            if defines(added, id) && !defines(nodes, id) {
                let j = choose|j: int| 0 <= j < added.len() && #[trigger] added[j].id == id && added[j].kind
                    != DependencyNodeKind::External;
                if j < rest.len() {
                    assert(rest[j] == added[j]);
                    assert(defines(rest, id));
                    assert(defines(middle, id));
                } else {
                    assert(last == added[j]);
                }
            } else {
                assert(defines(middle, id));
            }
        }
    }
}

proof fn lemma_insert_edges_nodes_defines(nodes: Seq<DependencyNode>, added: Seq<DependencyEdge>)
    ensures
        forall|id: DependencyNodeId| defines(nodes, id) ==> #[trigger] defines(insert_edges_nodes(nodes, added), id),
    decreases added.len(),
{
    if added.len() > 0 {
        let middle = insert_edges_nodes(nodes, added.drop_last());
        lemma_insert_edges_nodes_defines(nodes, added.drop_last());
        lemma_insert_edge_defines(middle, added.last());
        assert forall|id: DependencyNodeId| defines(nodes, id) implies #[trigger] defines(
            insert_edges_nodes(nodes, added),
            id,
        ) by {
            assert(defines(middle, id));
        }
    }
}

/// Extending a graph by another unites them: every node that either one
/// defines stays defined, the edges are exactly those of either, and
/// extending by edges that are all there already leaves the edges as they
/// were.
pub proof fn lemma_extend_union(
    nodes: Seq<DependencyNode>,
    edges: Seq<DependencyEdge>,
    other_nodes: Seq<DependencyNode>,
    other_edges: Seq<DependencyEdge>,
)
    ensures
        forall|id: DependencyNodeId|
            defines(nodes, id) || defines(other_nodes, id) ==> #[trigger] defines(
                insert_edges_nodes(insert_nodes_result(nodes, other_nodes), other_edges),
                id,
            ),
        forall|edge: DependencyEdge|
            #[trigger] insert_edges_edges(edges, other_edges).contains(edge) <==> edges.contains(edge)
                || other_edges.contains(edge),
        (forall|k: int| 0 <= k < other_edges.len() ==> edges.contains(#[trigger] other_edges[k]))
            ==> insert_edges_edges(edges, other_edges) == edges,
{
    lemma_insert_nodes_defines(nodes, other_nodes);
    lemma_insert_edges_nodes_defines(insert_nodes_result(nodes, other_nodes), other_edges);
    assert forall|edge: DependencyEdge|
        #[trigger] insert_edges_edges(edges, other_edges).contains(edge) <==> edges.contains(edge)
            || other_edges.contains(edge) by {
        lemma_insert_edges_contains(edges, other_edges, edge);
    }
    if forall|k: int| 0 <= k < other_edges.len() ==> edges.contains(#[trigger] other_edges[k]) {
        lemma_insert_edges_idempotent(edges, other_edges);
    }
}

/// `nodes` already holds `node`: its id is there, defined where `node`
/// defines it, so inserting `node` changes nothing.
pub open spec fn holds_node(nodes: Seq<DependencyNode>, node: DependencyNode) -> bool {
    let i = find_id(nodes, node.id);
    i >= 0 && (node.kind == DependencyNodeKind::External || nodes[i].kind != DependencyNodeKind::External)
}

proof fn lemma_find_id_update(nodes: Seq<DependencyNode>, i: int, node: DependencyNode, id: DependencyNodeId)
    requires
        0 <= i < nodes.len(),
        node.id == nodes[i].id,
    ensures
        find_id(nodes.update(i, node), id) == find_id(nodes, id),
    decreases nodes.len(),
{
    let updated = nodes.update(i, node);
    if i < nodes.len() - 1 {
        assert(updated.drop_last() =~= nodes.drop_last().update(i, node));
        lemma_find_id_update(nodes.drop_last(), i, node, id);
    } else {
        assert(updated.drop_last() =~= nodes.drop_last());
    }
}

proof fn lemma_find_id_push(nodes: Seq<DependencyNode>, node: DependencyNode, id: DependencyNodeId)
    ensures
        find_id(nodes.push(node), id) == if node.id == id {
            nodes.len() as int
        } else {
            find_id(nodes, id)
        },
{
    assert(nodes.push(node).drop_last() =~= nodes);
}

proof fn lemma_holds_inserted(nodes: Seq<DependencyNode>, node: DependencyNode)
    ensures
        holds_node(insert_node_result(nodes, node), node),
{
    lemma_find_id(nodes, node.id);
    let i = find_id(nodes, node.id);
    if i >= 0 {
        if nodes[i].kind == DependencyNodeKind::External && node.kind != DependencyNodeKind::External {
            lemma_find_id_update(nodes, i, node, node.id);
        }
    } else {
        lemma_find_id_push(nodes, node, node.id);
    }
}

proof fn lemma_holds_kept(nodes: Seq<DependencyNode>, held: DependencyNode, node: DependencyNode)
    requires
        holds_node(nodes, held),
    ensures
        holds_node(insert_node_result(nodes, node), held),
{
    lemma_find_id(nodes, node.id);
    lemma_find_id(nodes, held.id);
    let i = find_id(nodes, node.id);
    if i >= 0 {
        if nodes[i].kind == DependencyNodeKind::External && node.kind != DependencyNodeKind::External {
            lemma_find_id_update(nodes, i, node, held.id);
        }
    } else {
        lemma_find_id_push(nodes, node, held.id);
    }
}

proof fn lemma_holds_kept_edges(nodes: Seq<DependencyNode>, held: DependencyNode, added: Seq<DependencyEdge>)
    requires
        holds_node(nodes, held),
    ensures
        holds_node(insert_edges_nodes(nodes, added), held),
    decreases added.len(),
{
    if added.len() > 0 {
        lemma_holds_kept_edges(nodes, held, added.drop_last());
        let before = insert_edges_nodes(nodes, added.drop_last());
        lemma_holds_kept(before, held, external_node(added.last().source));
        lemma_holds_kept(
            insert_node_result(before, external_node(added.last().source)),
            held,
            external_node(added.last().target),
        );
    }
}

proof fn lemma_holds_nodes(nodes: Seq<DependencyNode>, added: Seq<DependencyNode>)
    ensures
        forall|k: int| 0 <= k < added.len() ==> holds_node(insert_nodes_result(nodes, added), #[trigger] added[k]),
    decreases added.len(),
{
    if added.len() > 0 {
        lemma_holds_nodes(nodes, added.drop_last());
        let before = insert_nodes_result(nodes, added.drop_last());
        assert forall|k: int| 0 <= k < added.len() implies holds_node(
            insert_nodes_result(nodes, added),
            #[trigger] added[k],
        ) by {
            if k < added.len() - 1 {
                assert(added.drop_last()[k] == added[k]);
                lemma_holds_kept(before, added[k], added.last());
            } else {
                lemma_holds_inserted(before, added.last());
            }
        }
    }
}

proof fn lemma_holds_edge_ends(nodes: Seq<DependencyNode>, added: Seq<DependencyEdge>)
    ensures
        forall|k: int|
            0 <= k < added.len() ==> holds_node(insert_edges_nodes(nodes, added), external_node(#[trigger] added[k].source))
                && holds_node(insert_edges_nodes(nodes, added), external_node(added[k].target)),
    decreases added.len(),
{
    if added.len() > 0 {
        lemma_holds_edge_ends(nodes, added.drop_last());
        let before = insert_edges_nodes(nodes, added.drop_last());
        let edge = added.last();
        let middle = insert_node_result(before, external_node(edge.source));
        assert forall|k: int| 0 <= k < added.len() implies holds_node(
            insert_edges_nodes(nodes, added),
            external_node(#[trigger] added[k].source),
        ) && holds_node(insert_edges_nodes(nodes, added), external_node(added[k].target)) by {
            if k < added.len() - 1 {
                assert(added.drop_last()[k] == added[k]);
                lemma_holds_kept(before, external_node(added[k].source), external_node(edge.source));
                lemma_holds_kept(middle, external_node(added[k].source), external_node(edge.target));
                lemma_holds_kept(before, external_node(added[k].target), external_node(edge.source));
                lemma_holds_kept(middle, external_node(added[k].target), external_node(edge.target));
            } else {
                lemma_holds_inserted(before, external_node(edge.source));
                lemma_holds_kept(middle, external_node(edge.source), external_node(edge.target));
                lemma_holds_inserted(middle, external_node(edge.target));
            }
        }
    }
}

proof fn lemma_nodes_noop(nodes: Seq<DependencyNode>, added: Seq<DependencyNode>)
    requires
        forall|k: int| 0 <= k < added.len() ==> holds_node(nodes, #[trigger] added[k]),
    ensures
        insert_nodes_result(nodes, added) == nodes,
    decreases added.len(),
{
    if added.len() > 0 {
        assert forall|k: int| 0 <= k < added.drop_last().len() implies holds_node(nodes, #[trigger] added.drop_last()[k]) by {
            assert(added.drop_last()[k] == added[k]);
        }
        lemma_nodes_noop(nodes, added.drop_last());
        assert(holds_node(nodes, added[added.len() - 1]));
    }
}

proof fn lemma_edge_nodes_noop(nodes: Seq<DependencyNode>, added: Seq<DependencyEdge>)
    requires
        forall|k: int|
            0 <= k < added.len() ==> holds_node(nodes, external_node(#[trigger] added[k].source)) && holds_node(
                nodes,
                external_node(added[k].target),
            ),
    ensures
        insert_edges_nodes(nodes, added) == nodes,
    decreases added.len(),
{
    if added.len() > 0 {
        assert forall|k: int| 0 <= k < added.drop_last().len() implies holds_node(
            nodes,
            external_node(#[trigger] added.drop_last()[k].source),
        ) && holds_node(nodes, external_node(added.drop_last()[k].target)) by {
            assert(added.drop_last()[k] == added[k]);
        }
        lemma_edge_nodes_noop(nodes, added.drop_last());
        let edge = added[added.len() - 1];
        assert(holds_node(nodes, external_node(edge.source)));
        assert(holds_node(nodes, external_node(edge.target)));
    }
}

/// Extending a graph a second time by the same graph changes nothing: the
/// nodes and the edges after the second extension are those after the
/// first.
pub proof fn lemma_extend_twice(
    nodes: Seq<DependencyNode>,
    edges: Seq<DependencyEdge>,
    other_nodes: Seq<DependencyNode>,
    other_edges: Seq<DependencyEdge>,
)
    ensures
        ({
            let once = insert_edges_nodes(insert_nodes_result(nodes, other_nodes), other_edges);
            insert_edges_nodes(insert_nodes_result(once, other_nodes), other_edges) == once
        }),
        insert_edges_edges(insert_edges_edges(edges, other_edges), other_edges) == insert_edges_edges(
            edges,
            other_edges,
        ),
{
    let first = insert_nodes_result(nodes, other_nodes);
    let once = insert_edges_nodes(first, other_edges);
    lemma_holds_nodes(nodes, other_nodes);
    assert forall|k: int| 0 <= k < other_nodes.len() implies holds_node(once, #[trigger] other_nodes[k]) by {
        lemma_holds_kept_edges(first, other_nodes[k], other_edges);
    }
    lemma_nodes_noop(once, other_nodes);
    lemma_holds_edge_ends(first, other_edges);
    lemma_edge_nodes_noop(once, other_edges);
    let joined = insert_edges_edges(edges, other_edges);
    lemma_extend_union(nodes, edges, other_nodes, other_edges);
    assert forall|k: int| 0 <= k < other_edges.len() implies joined.contains(#[trigger] other_edges[k]) by {
        assert(other_edges.contains(other_edges[k]));
    }
    lemma_extend_union(nodes, joined, other_nodes, other_edges);
}

} // verus!
