//! Strongly connected components, cycles and the evaluation order of a
//! dependency graph.

use std::ops::Range;

use vstd::prelude::*;

use crate::graph::{
    adjacency_of, contains_id, copy_span, depends_on, ids_distinct, node_id_less, node_id_lt,
    DependencyCycle, DependencyEdge, DependencyGraph, DependencyNode, DependencyNodeId,
};
use crate::names::ModuleId;

verus! {

/* ---------------------------------------------------------------------------------------------
 * Errors.
 * ------------------------------------------------------------------------------------------ */

#[derive(Debug, PartialEq, Eq)]
pub struct DependencyGraphError {
    pub kind: DependencyGraphErrorKind,
    pub locations: Vec<DependencyLocation>,
}

#[derive(Debug, PartialEq, Eq)]
pub enum DependencyGraphErrorKind {
    Cycle { nodes: Vec<DependencyNodeId> },
}

/// Where a dependency of a cycle is written.
#[derive(Debug, PartialEq, Eq)]
pub struct DependencyLocation {
    pub module: ModuleId,
    pub span: Range<usize>,
}

/// The graph has cycles, so no evaluation order exists.
#[derive(Debug, PartialEq, Eq)]
pub struct EvaluationOrderError {
    pub cycles: Vec<DependencyCycle>,
}

/// The location of the edge of a cycle: the module of its source and its
/// span.
pub open spec fn location_of(edge: DependencyEdge) -> (ModuleId, Range<usize>) {
    (edge.source.module_of(), edge.span)
}

impl<'a> From<&'a DependencyCycle> for DependencyGraphError {
    /// The error that reports a cycle: its nodes, and the location of each
    /// of its edges.
    fn from(cycle: &'a DependencyCycle) -> (error: Self)
        ensures
            match error.kind {
                DependencyGraphErrorKind::Cycle { nodes } => nodes@ == cycle.nodes@,
            },
            error.locations@.len() == cycle.edges@.len(),
            forall|k: int|
                0 <= k < cycle.edges@.len() ==> ((#[trigger] error.locations@[k]).module,
                error.locations@[k].span) == location_of(cycle.edges@[k]),
    {
        let mut nodes: Vec<DependencyNodeId> = Vec::new();
        let mut i: usize = 0;
        while i < cycle.nodes.len()
            invariant
                i <= cycle.nodes@.len(),
                nodes@ == cycle.nodes@.take(i as int),
            decreases cycle.nodes@.len() - i,
        {
            nodes.push(cycle.nodes[i]);
            assert(nodes@ =~= cycle.nodes@.take(i + 1));
            i = i + 1;
        }
        assert(cycle.nodes@.take(cycle.nodes@.len() as int) =~= cycle.nodes@);
        let mut locations: Vec<DependencyLocation> = Vec::new();
        let mut k: usize = 0;
        while k < cycle.edges.len()
            invariant
                k <= cycle.edges@.len(),
                locations@.len() == k,
                forall|m: int|
                    0 <= m < k ==> ((#[trigger] locations@[m]).module, locations@[m].span)
                        == location_of(cycle.edges@[m]),
            decreases cycle.edges@.len() - k,
        {
            let edge = &cycle.edges[k];
            locations.push(DependencyLocation { module: edge.source.module(), span: copy_span(&edge.span) });
            k = k + 1;
        }
        DependencyGraphError { kind: DependencyGraphErrorKind::Cycle { nodes }, locations }
    }
}

impl<'a> vstd::std_specs::convert::FromSpecImpl<&'a DependencyCycle> for DependencyGraphError {
    /// The conversion is stated by the `ensures` of `from` itself.
    open spec fn obeys_from_spec() -> bool {
        false
    }

    open spec fn from_spec(cycle: &'a DependencyCycle) -> Self {
        choose|error: Self| reports(error, *cycle)
    }
}

/* ---------------------------------------------------------------------------------------------
 * Reachability.
 * ------------------------------------------------------------------------------------------ */

/// The node at step `k` of `path` depends on the node at step `k + 1`.
pub open spec fn path_link(nodes: Seq<DependencyNode>, edges: Seq<DependencyEdge>, path: Seq<int>, k: int) -> bool {
    depends_on(nodes, edges, path[k], path[k + 1])
}

/// `path` is a non-empty sequence of node positions, each depending on the
/// next.
pub open spec fn is_dependency_path(nodes: Seq<DependencyNode>, edges: Seq<DependencyEdge>, path: Seq<int>) -> bool {
    &&& path.len() > 0
    &&& forall|k: int| 0 <= k < path.len() ==> 0 <= #[trigger] path[k] < nodes.len()
    &&& forall|k: int| 0 <= k < path.len() - 1 ==> #[trigger] path_link(nodes, edges, path, k)
}

/// Node `i` depends on node `j`, directly or through other nodes, or is it.
pub open spec fn reaches(nodes: Seq<DependencyNode>, edges: Seq<DependencyEdge>, i: int, j: int) -> bool {
    exists|path: Seq<int>| #[trigger] is_dependency_path(nodes, edges, path) && path[0] == i && path.last() == j
}

/// Every node reaches itself.
pub proof fn lemma_reaches_self(nodes: Seq<DependencyNode>, edges: Seq<DependencyEdge>, i: int)
    requires
        0 <= i < nodes.len(),
    ensures
        reaches(nodes, edges, i, i),
{
    let path = seq![i];
    assert(is_dependency_path(nodes, edges, path));
}

/// A node reaches what it depends on.
pub proof fn lemma_reaches_step(nodes: Seq<DependencyNode>, edges: Seq<DependencyEdge>, i: int, j: int)
    requires
        0 <= i < nodes.len(),
        0 <= j < nodes.len(),
        depends_on(nodes, edges, i, j),
    ensures
        reaches(nodes, edges, i, j),
{
    let path = seq![i, j];
    assert(path_link(nodes, edges, path, 0));
    assert(is_dependency_path(nodes, edges, path));
}

/// Reaching is transitive.
pub proof fn lemma_reaches_trans(nodes: Seq<DependencyNode>, edges: Seq<DependencyEdge>, i: int, j: int, k: int)
    requires
        reaches(nodes, edges, i, j),
        reaches(nodes, edges, j, k),
    ensures
        reaches(nodes, edges, i, k),
{
    let first = choose|path: Seq<int>| #[trigger] is_dependency_path(nodes, edges, path) && path[0] == i && path.last() == j;
    let second = choose|path: Seq<int>| #[trigger] is_dependency_path(nodes, edges, path) && path[0] == j && path.last() == k;
    let path = first + second.subrange(1, second.len() as int);
    assert forall|m: int| 0 <= m < path.len() implies 0 <= #[trigger] path[m] < nodes.len() by {
        if m < first.len() {
            assert(path[m] == first[m]);
        } else {
            assert(path[m] == second[m - first.len() + 1]);
        }
    }
    assert forall|m: int| 0 <= m < path.len() - 1 implies #[trigger] path_link(nodes, edges, path, m) by {
        if m < first.len() - 1 {
            assert(path_link(nodes, edges, first, m));
            assert(path[m] == first[m] && path[m + 1] == first[m + 1]);
        } else if m == first.len() - 1 {
            assert(path_link(nodes, edges, second, 0));
            assert(path[m] == first[m] && path[m + 1] == second[1]);
        } else {
            let t = m - first.len() + 1;
            assert(path_link(nodes, edges, second, t));
            assert(path[m] == second[t] && path[m + 1] == second[t + 1]);
        }
    }
    assert(is_dependency_path(nodes, edges, path));
    if second.len() == 1 {
        assert(path =~= first);
    } else {
        assert(path.last() == second.last());
    }
}

/* ---------------------------------------------------------------------------------------------
 * Tarjan's algorithm on node positions.
 * ------------------------------------------------------------------------------------------ */

/// The number of visited entries.
pub open spec fn count_visited(indices: Seq<Option<usize>>) -> nat
    decreases indices.len(),
{
    if indices.len() == 0 {
        0
    } else {
        count_visited(indices.drop_last()) + if indices.last() is Some {
            1nat
        } else {
            0nat
        }
    }
}

proof fn lemma_count_visited_bound(indices: Seq<Option<usize>>)
    ensures
        count_visited(indices) <= indices.len(),
        (exists|i: int| 0 <= i < indices.len() && indices[i] is None) ==> count_visited(indices)
            < indices.len(),
    decreases indices.len(),
{
    if indices.len() > 0 {
        lemma_count_visited_bound(indices.drop_last());
        if exists|i: int| 0 <= i < indices.len() && indices[i] is None {
            let i = choose|i: int| 0 <= i < indices.len() && indices[i] is None;
            if i < indices.len() - 1 {
                assert(indices.drop_last()[i] is None);
            }
        }
    }
}

proof fn lemma_count_visited_update(indices: Seq<Option<usize>>, i: int, value: Option<usize>)
    requires
        0 <= i < indices.len(),
    ensures
        count_visited(indices.update(i, value)) == count_visited(indices) - (if indices[i] is Some {
            1int
        } else {
            0int
        }) + (if value is Some {
            1int
        } else {
            0int
        }),
    decreases indices.len(),
{
    if i < indices.len() - 1 {
        lemma_count_visited_update(indices.drop_last(), i, value);
        assert(indices.update(i, value).drop_last() =~= indices.drop_last().update(i, value));
    } else {
        assert(indices.update(i, value).drop_last() =~= indices.drop_last());
    }
}

/// The positions collected into components so far, in order.
pub open spec fn members(components: Seq<Vec<usize>>) -> Seq<usize>
    decreases components.len(),
{
    if components.len() == 0 {
        Seq::empty()
    } else {
        members(components.drop_last()) + components.last()@
    }
}

struct Tarjan<'graph> {
    adjacency: &'graph [Vec<usize>],
    graph_nodes: Ghost<Seq<DependencyNode>>,
    graph_edges: Ghost<Seq<DependencyEdge>>,
    next_index: usize,
    indices: Vec<Option<usize>>,
    low_links: Vec<usize>,
    stack: Vec<usize>,
    on_stack: Vec<bool>,
    components: Vec<Vec<usize>>,
}

impl<'graph> Tarjan<'graph> {
    spec fn size(&self) -> int {
        self.adjacency@.len() as int
    }

    /// Every visited node is on the stack or in exactly one component; the
    /// stack holds visited nodes once each, in visiting order.
    spec fn wf(&self) -> bool {
        let n = self.size();
        &&& self.indices@.len() == n
        &&& self.low_links@.len() == n
        &&& self.on_stack@.len() == n
        &&& forall|i: int, k: int|
            0 <= i < n && 0 <= k < self.adjacency@[i]@.len() ==> (#[trigger] self.adjacency@[i]@[k]) < n
        &&& self.next_index == count_visited(self.indices@)
        &&& forall|v: int| 0 <= v < n && (#[trigger] self.indices@[v]) is Some ==> self.indices@[v]->0 < self.next_index
        &&& self.stack@.no_duplicates()
        &&& forall|k: int|
            0 <= k < self.stack@.len() ==> (#[trigger] self.stack@[k]) < n && self.on_stack@[self.stack@[k] as int]
                && self.indices@[self.stack@[k] as int] is Some
        &&& forall|v: int| 0 <= v < n && #[trigger] self.on_stack@[v] ==> self.stack@.contains(v as usize)
        &&& members(self.components@).no_duplicates()
        &&& forall|k: int|
            0 <= k < members(self.components@).len() ==> (#[trigger] members(self.components@)[k]) < n
                && !self.on_stack@[members(self.components@)[k] as int] && self.indices@[members(
                self.components@,
            )[k] as int] is Some
        &&& forall|v: int|
            0 <= v < n && (#[trigger] self.indices@[v]) is Some ==> (self.on_stack@[v] || members(
                self.components@,
            ).contains(v as usize))
        &&& forall|c: int| 0 <= c < self.components@.len() ==> (#[trigger] self.components@[c])@.len() > 0
    }

    /// `w` is among the nodes node `v` depends on.
    spec fn succ(&self, v: int, w: usize) -> bool {
        self.adjacency@[v]@.contains(w)
    }

    /// `v` was not visited in `before` and is visited in `self`.
    spec fn newly(&self, before: &Self, v: int) -> bool {
        before.indices@[v] is None && self.indices@[v] is Some
    }

    /// Some node at or below position `p` of the stack has the low link of
    /// the node at `p` as its index and is reached from it.
    spec fn reaches_low(&self, p: int) -> bool {
        exists|q: int|
            0 <= q <= p && self.indices@[(#[trigger] self.stack@[q]) as int]->0 == self.low_links@[self.stack@[p] as int]
                && reaches(self.graph_nodes@, self.graph_edges@, self.stack@[p] as int, self.stack@[q] as int)
    }

    /// Some component at or before `c` holds `w`.
    spec fn placed_by(&self, c: int, w: usize) -> bool {
        exists|d: int| 0 <= d <= c && (#[trigger] self.components@[d])@.contains(w)
    }

    /// What the search knows of the graph: the adjacency lists are those of
    /// the graph; the stack is ordered by index; each node on it reaches
    /// the node below it whose index is its low link; the members of a
    /// component reach each other; and what a member depends on lies in
    /// that component or an earlier one.
    spec fn tracks(&self) -> bool {
        let n = self.size();
        let nodes = self.graph_nodes@;
        let edges = self.graph_edges@;
        &&& adjacency_of(nodes, edges, self.adjacency@)
        &&& forall|a: int, b: int|
            0 <= a < b < self.stack@.len() ==> self.indices@[(#[trigger] self.stack@[a]) as int]->0 < self.indices@[(
            #[trigger] self.stack@[b]) as int]->0
        &&& forall|v: int| 0 <= v < n && (#[trigger] self.indices@[v]) is Some ==> self.low_links@[v] <= self.indices@[v]->0
        &&& forall|p: int| 0 <= p < self.stack@.len() ==> #[trigger] self.reaches_low(p)
        &&& forall|c: int, a: int, b: int|
            0 <= c < self.components@.len() && 0 <= a < self.components@[c]@.len() && 0 <= b
                < self.components@[c]@.len() ==> reaches(
                nodes,
                edges,
                (#[trigger] self.components@[c]@[a]) as int,
                (#[trigger] self.components@[c]@[b]) as int,
            )
        &&& forall|c: int, a: int, w: usize|
            0 <= c < self.components@.len() && 0 <= a < self.components@[c]@.len() && #[trigger] self.succ(
                self.components@[c]@[a] as int,
                w,
            ) ==> self.placed_by(c, w)
    }

    /// The low links of the nodes visited since `base` do not reach below
    /// it, and the stack above `depth` holds only such nodes.
    spec fn since(&self, base: int) -> bool {
        &&& forall|v: int|
            0 <= v < self.size() && (#[trigger] self.indices@[v]) is Some && self.indices@[v]->0 >= base
                ==> self.low_links@[v] >= base
        &&& forall|k: int|
            0 <= k < self.stack@.len() ==> self.indices@[(#[trigger] self.stack@[k]) as int]->0 >= base
    }

    fn new(
        adjacency: &'graph [Vec<usize>],
        Ghost(nodes): Ghost<Seq<DependencyNode>>,
        Ghost(edges): Ghost<Seq<DependencyEdge>>,
    ) -> (tarjan: Self)
        requires
            adjacency_of(nodes, edges, adjacency@),
        ensures
            tarjan.wf(),
            tarjan.tracks(),
            tarjan.graph_nodes@ == nodes,
            tarjan.graph_edges@ == edges,
            tarjan.adjacency == adjacency,
            tarjan.stack@.len() == 0,
            tarjan.components@.len() == 0,
            forall|v: int| 0 <= v < adjacency@.len() ==> (#[trigger] tarjan.indices@[v]) is None,
    {
        let n = adjacency.len();
        let mut indices: Vec<Option<usize>> = Vec::new();
        let mut low_links: Vec<usize> = Vec::new();
        let mut on_stack: Vec<bool> = Vec::new();
        let mut i: usize = 0;
        while i < n
            invariant
                i <= n,
                indices@.len() == i,
                low_links@.len() == i,
                on_stack@.len() == i,
                forall|v: int| 0 <= v < i ==> (#[trigger] indices@[v]) is None,
                forall|v: int| 0 <= v < i ==> !(#[trigger] on_stack@[v]),
                count_visited(indices@) == 0,
            decreases n - i,
        {
            proof {
                assert(indices@.push(None).drop_last() =~= indices@);
            }
            indices.push(None);
            low_links.push(0);
            on_stack.push(false);
            i = i + 1;
        }
        let tarjan = Tarjan {
            adjacency,
            graph_nodes: Ghost(nodes),
            graph_edges: Ghost(edges),
            next_index: 0,
            indices,
            low_links,
            stack: Vec::new(),
            on_stack,
            components: Vec::new(),
        };
        proof {
            assert(members(tarjan.components@) =~= Seq::<usize>::empty());
        }
        tarjan
    }

    /// What `before` knew of the graph still holds: the same graph, no node
    /// visited then back on the stack, the earlier components unchanged.
    spec fn keeps(&self, before: &Self) -> bool {
        &&& self.adjacency == before.adjacency
        &&& self.graph_nodes == before.graph_nodes
        &&& self.graph_edges == before.graph_edges
        &&& forall|v: int|
            0 <= v < before.size() && before.indices@[v] is Some && #[trigger] self.on_stack@[v] ==> before.on_stack@[v]
        &&& self.components@.len() >= before.components@.len()
        &&& forall|c: int| 0 <= c < before.components@.len() ==> #[trigger] self.components@[c] == before.components@[c]
    }

    /// The nodes visited since `before` were reached from `node`, have low
    /// links no lower than its own, and those on the stack besides `node`
    /// have a low link below their index.
    spec fn descends(&self, before: &Self, node: int) -> bool {
        forall|v: int|
            0 <= v < before.size() && #[trigger] self.newly(before, v) ==> {
                &&& self.indices@[v]->0 >= before.next_index
                &&& reaches(self.graph_nodes@, self.graph_edges@, node, v)
                &&& self.low_links@[v] >= self.low_links@[node]
                &&& (v != node && self.on_stack@[v] ==> self.low_links@[v] < self.indices@[v]->0)
            }
    }

    /// `w` is visited and, if on the stack, has an index no lower than the
    /// low link of `node`.
    spec fn settled(&self, w: usize, node: int) -> bool {
        &&& self.indices@[w as int] is Some
        &&& (self.on_stack@[w as int] ==> self.indices@[w as int]->0 >= self.low_links@[node])
    }

    /// What the nodes visited since `before`, other than `node`, depend on is
    /// settled.
    spec fn settled_after(&self, before: &Self, node: int) -> bool {
        forall|v: int, w: usize|
            0 <= v < before.size() && self.newly(before, v) && v != node && #[trigger] self.succ(v, w)
                ==> self.settled(w, node)
    }

    /// After the search returns from `child`, a node `node` depends on, and
    /// lowers the low link of `node` to that of `child`, what the search
    /// knew of `node` and the nodes visited since `entry` still holds.
    proof fn lemma_after_child(
        &self,
        entry: &Self,
        before: &Self,
        mid: &Self,
        node: int,
        child: usize,
        k: int,
        depth: int,
    )
        requires
            entry.wf(),
            before.wf(),
            before.tracks(),
            before.keeps(entry),
            before.descends(entry, node),
            before.settled_after(entry, node),
            forall|j: int| 0 <= j < k ==> before.settled(#[trigger] before.adjacency@[node]@[j], node),
            0 <= k < before.adjacency@[node]@.len(),
            before.adjacency@[node]@[k] == child,
            0 <= node < before.size(),
            before.size() <= usize::MAX,
            entry.size() == before.size(),
            entry.indices@[node] is None,
            before.indices@[node] == Some(entry.next_index),
            before.low_links@[node] <= entry.next_index,
            0 <= depth < before.stack@.len(),
            before.stack@[depth] == node,
            forall|v: int|
                0 <= v < entry.size() && (#[trigger] entry.indices@[v]) is Some ==> before.indices@[v]
                    == entry.indices@[v],
            before.indices@[child as int] is None,
            mid.wf(),
            mid.tracks(),
            mid.keeps(before),
            mid.descends(before, child as int),
            mid.settled_after(before, child as int),
            forall|w: usize| #[trigger] mid.succ(child as int, w) ==> mid.settled(w, child as int),
            mid.on_stack@[child as int] <==> mid.low_links@[child as int] < mid.indices@[child as int]->0,
            mid.indices@[child as int] == Some(before.next_index),
            forall|v: int|
                0 <= v < before.size() && (#[trigger] before.indices@[v]) is Some ==> mid.indices@[v]
                    == before.indices@[v] && mid.low_links@[v] == before.low_links@[v],
            mid.stack@.subrange(0, before.stack@.len() as int) == before.stack@,
            mid.stack@.len() >= before.stack@.len(),
            self.adjacency == mid.adjacency,
            self.graph_nodes == mid.graph_nodes,
            self.graph_edges == mid.graph_edges,
            self.indices@ == mid.indices@,
            self.on_stack@ == mid.on_stack@,
            self.stack@ == mid.stack@,
            self.components@ == mid.components@,
            self.next_index == mid.next_index,
            self.low_links@ == mid.low_links@.update(
                node,
                if mid.low_links@[child as int] < mid.low_links@[node] {
                    mid.low_links@[child as int]
                } else {
                    mid.low_links@[node]
                },
            ),
        ensures
            self.tracks(),
            self.keeps(entry),
            self.descends(entry, node),
            self.settled_after(entry, node),
            forall|j: int| 0 <= j <= k ==> self.settled(#[trigger] self.adjacency@[node]@[j], node),
    {
        let nodes = self.graph_nodes@;
        let edges = self.graph_edges@;
        let n = before.size();
        let d = child as int;
        let low = self.low_links@[node];
        assert(before.adjacency@[node]@.contains(child));
        assert(depends_on(nodes, edges, node, d));
        lemma_reaches_step(nodes, edges, node, d);
        assert(mid.stack@[depth] == node) by {
            assert(mid.stack@[depth] == mid.stack@.subrange(0, before.stack@.len() as int)[depth]);
        }
        assert(before.next_index > entry.next_index);
        // What the search knows of the graph.
        assert forall|a: int, b: int| 0 <= a < b < self.stack@.len() implies self.indices@[(
        #[trigger] self.stack@[a]) as int]->0 < self.indices@[(#[trigger] self.stack@[b]) as int]->0 by {
            assert(mid.indices@[mid.stack@[a] as int]->0 < mid.indices@[mid.stack@[b] as int]->0);
        }
        assert forall|v: int| 0 <= v < n && (#[trigger] self.indices@[v]) is Some implies self.low_links@[v]
            <= self.indices@[v]->0 by {
            assert(mid.indices@[v] is Some);
        }
        assert forall|p: int| 0 <= p < self.stack@.len() implies #[trigger] self.reaches_low(p) by {
            assert(mid.reaches_low(p));
            let q = choose|q: int|
                0 <= q <= p && mid.indices@[(#[trigger] mid.stack@[q]) as int]->0 == mid.low_links@[mid.stack@[p] as int]
                    && reaches(nodes, edges, mid.stack@[p] as int, mid.stack@[q] as int);
            if mid.stack@[p] as int != node || low == mid.low_links@[node] {
                assert(self.indices@[(self.stack@[q]) as int]->0 == self.low_links@[self.stack@[p] as int]);
            } else {
                assert(p == depth) by {
                    if p != depth {
                        assert(mid.stack@[p] == mid.stack@[depth]);
                    }
                }
                assert(mid.low_links@[d] < mid.indices@[d]->0);
                assert(mid.on_stack@[d]);
                assert(mid.stack@.contains(child));
                let pd = choose|pd: int| 0 <= pd < mid.stack@.len() && mid.stack@[pd] == child;
                assert(mid.reaches_low(pd));
                let qd = choose|qd: int|
                    0 <= qd <= pd && mid.indices@[(#[trigger] mid.stack@[qd]) as int]->0 == mid.low_links@[mid.stack@[pd] as int]
                        && reaches(nodes, edges, mid.stack@[pd] as int, mid.stack@[qd] as int);
                if qd > depth {
                    assert(mid.indices@[mid.stack@[depth] as int]->0 < mid.indices@[mid.stack@[qd] as int]->0);
                }
                assert(qd < depth);
                lemma_reaches_trans(nodes, edges, node, d, mid.stack@[qd] as int);
                assert(self.indices@[(self.stack@[qd]) as int]->0 == self.low_links@[self.stack@[p] as int]);
            }
        }
        assert forall|c: int, a: int, w: usize|
            0 <= c < self.components@.len() && 0 <= a < self.components@[c]@.len() && #[trigger] self.succ(
                self.components@[c]@[a] as int,
                w,
            ) implies self.placed_by(c, w) by {
            assert(mid.succ(mid.components@[c]@[a] as int, w));
            assert(mid.placed_by(c, w));
        }
        assert(self.tracks());
        // What was kept since the entry.
        assert forall|v: int|
            0 <= v < entry.size() && entry.indices@[v] is Some && #[trigger] self.on_stack@[v] implies entry.on_stack@[v] by {
            assert(before.indices@[v] is Some);
            assert(mid.on_stack@[v]);
        }
        assert forall|c: int| 0 <= c < entry.components@.len() implies #[trigger] self.components@[c]
            == entry.components@[c] by {
            assert(mid.components@[c] == before.components@[c]);
        }
        // The nodes visited since the entry.
        assert forall|v: int| 0 <= v < n && #[trigger] self.newly(entry, v) implies {
            &&& self.indices@[v]->0 >= entry.next_index
            &&& reaches(nodes, edges, node, v)
            &&& self.low_links@[v] >= self.low_links@[node]
            &&& (v != node && self.on_stack@[v] ==> self.low_links@[v] < self.indices@[v]->0)
        } by {
            if before.indices@[v] is None {
                assert(mid.newly(before, v));
                assert(v != node);
                lemma_reaches_trans(nodes, edges, node, d, v);
                if v != d && self.on_stack@[v] {
                    assert(mid.low_links@[v] < mid.indices@[v]->0);
                }
            } else {
                assert(before.newly(entry, v));
                if v != node && self.on_stack@[v] {
                    assert(before.on_stack@[v]);
                }
            }
        }
        // What they depend on.
        assert forall|v: int, w: usize|
            0 <= v < n && self.newly(entry, v) && v != node && #[trigger] self.succ(v, w) implies self.settled(
                w,
                node,
            ) by {
            if before.indices@[v] is None {
                assert(mid.newly(before, v));
                assert(mid.succ(v, w));
                if v != d {
                    assert(mid.settled(w, d));
                } else {
                    assert(mid.settled(w, d));
                }
            } else {
                assert(before.newly(entry, v));
                assert(before.succ(v, w));
                assert(before.settled(w, node));
                assert((w as int) < n) by {
                    assert(before.adjacency@[v]@.contains(w));
                }
                if self.on_stack@[w as int] {
                    assert(before.on_stack@[w as int]);
                }
            }
        }
        assert forall|j: int| 0 <= j <= k implies self.settled(#[trigger] self.adjacency@[node]@[j], node) by {
            let w = self.adjacency@[node]@[j];
            assert((w as int) < n);
            if j < k {
                assert(before.settled(before.adjacency@[node]@[j], node));
                if self.on_stack@[w as int] {
                    assert(before.on_stack@[w as int]);
                }
            }
        }
    }

    /// After the search lowers the low link of `node` to the index of
    /// `target`, a node on the stack that `node` depends on, what it knew of
    /// `node` and the nodes visited since `entry` still holds.
    proof fn lemma_after_back_edge(&self, entry: &Self, mid: &Self, node: int, target: usize, k: int, depth: int)
        requires
            mid.wf(),
            mid.tracks(),
            mid.keeps(entry),
            mid.descends(entry, node),
            mid.settled_after(entry, node),
            forall|j: int| 0 <= j < k ==> mid.settled(#[trigger] mid.adjacency@[node]@[j], node),
            0 <= k < mid.adjacency@[node]@.len(),
            mid.adjacency@[node]@[k] == target,
            0 <= node < mid.size(),
            mid.size() <= usize::MAX,
            entry.size() == mid.size(),
            mid.indices@[node] is Some,
            mid.low_links@[node] <= mid.indices@[node]->0,
            0 <= depth < mid.stack@.len(),
            mid.stack@[depth] == node,
            mid.on_stack@[target as int],
            self.adjacency == mid.adjacency,
            self.graph_nodes == mid.graph_nodes,
            self.graph_edges == mid.graph_edges,
            self.indices@ == mid.indices@,
            self.on_stack@ == mid.on_stack@,
            self.stack@ == mid.stack@,
            self.components@ == mid.components@,
            self.next_index == mid.next_index,
            self.low_links@ == mid.low_links@.update(
                node,
                if mid.indices@[target as int]->0 < mid.low_links@[node] {
                    mid.indices@[target as int]->0
                } else {
                    mid.low_links@[node]
                },
            ),
        ensures
            self.tracks(),
            self.keeps(entry),
            self.descends(entry, node),
            self.settled_after(entry, node),
            forall|j: int| 0 <= j <= k ==> self.settled(#[trigger] self.adjacency@[node]@[j], node),
    {
        let nodes = self.graph_nodes@;
        let edges = self.graph_edges@;
        let n = mid.size();
        let t = target as int;
        let low = self.low_links@[node];
        assert(mid.adjacency@[node]@.contains(target));
        assert(depends_on(nodes, edges, node, t));
        lemma_reaches_step(nodes, edges, node, t);
        assert forall|a: int, b: int| 0 <= a < b < self.stack@.len() implies self.indices@[(
        #[trigger] self.stack@[a]) as int]->0 < self.indices@[(#[trigger] self.stack@[b]) as int]->0 by {
            assert(mid.indices@[mid.stack@[a] as int]->0 < mid.indices@[mid.stack@[b] as int]->0);
        }
        assert forall|v: int| 0 <= v < n && (#[trigger] self.indices@[v]) is Some implies self.low_links@[v]
            <= self.indices@[v]->0 by {
            assert(mid.indices@[v] is Some);
        }
        assert forall|p: int| 0 <= p < self.stack@.len() implies #[trigger] self.reaches_low(p) by {
            assert(mid.reaches_low(p));
            let q = choose|q: int|
                0 <= q <= p && mid.indices@[(#[trigger] mid.stack@[q]) as int]->0 == mid.low_links@[mid.stack@[p] as int]
                    && reaches(nodes, edges, mid.stack@[p] as int, mid.stack@[q] as int);
            if mid.stack@[p] as int != node || low == mid.low_links@[node] {
                assert(self.indices@[(self.stack@[q]) as int]->0 == self.low_links@[self.stack@[p] as int]);
            } else {
                assert(p == depth) by {
                    if p != depth {
                        assert(mid.stack@[p] == mid.stack@[depth]);
                    }
                }
                assert(mid.stack@.contains(target));
                let pt = choose|pt: int| 0 <= pt < mid.stack@.len() && mid.stack@[pt] == target;
                if pt >= depth {
                    if pt > depth {
                        assert(mid.indices@[mid.stack@[depth] as int]->0 < mid.indices@[mid.stack@[pt] as int]->0);
                    }
                }
                assert(pt < depth);
                assert(self.indices@[(self.stack@[pt]) as int]->0 == self.low_links@[self.stack@[p] as int]);
            }
        }
        assert forall|c: int, a: int, w: usize|
            0 <= c < self.components@.len() && 0 <= a < self.components@[c]@.len() && #[trigger] self.succ(
                self.components@[c]@[a] as int,
                w,
            ) implies self.placed_by(c, w) by {
            assert(mid.succ(mid.components@[c]@[a] as int, w));
            assert(mid.placed_by(c, w));
        }
        assert(self.tracks());
        assert forall|v: int| 0 <= v < n && #[trigger] self.newly(entry, v) implies {
            &&& self.indices@[v]->0 >= entry.next_index
            &&& reaches(nodes, edges, node, v)
            &&& self.low_links@[v] >= self.low_links@[node]
            &&& (v != node && self.on_stack@[v] ==> self.low_links@[v] < self.indices@[v]->0)
        } by {
            assert(mid.newly(entry, v));
        }
        assert forall|v: int, w: usize|
            0 <= v < n && self.newly(entry, v) && v != node && #[trigger] self.succ(v, w) implies self.settled(
                w,
                node,
            ) by {
            assert(mid.newly(entry, v));
            assert(mid.succ(v, w));
            assert(mid.settled(w, node));
        }
        assert forall|j: int| 0 <= j <= k implies self.settled(#[trigger] self.adjacency@[node]@[j], node) by {
            if j < k {
                assert(mid.settled(mid.adjacency@[node]@[j], node));
            }
        }
    }

    /// Every node on the stack at or above `depth` reaches the node at
    /// `depth`, where each above it has a low link below its own index and
    /// none has a low link below the index of the node at `depth`.
    proof fn lemma_reaches_root(&self, depth: int, p: int)
        requires
            self.wf(),
            self.tracks(),
            0 <= depth <= p < self.stack@.len(),
            forall|q: int|
                depth < q < self.stack@.len() ==> self.low_links@[(#[trigger] self.stack@[q]) as int]
                    < self.indices@[self.stack@[q] as int]->0,
            forall|q: int|
                depth <= q < self.stack@.len() ==> self.low_links@[(#[trigger] self.stack@[q]) as int]
                    >= self.indices@[self.stack@[depth] as int]->0,
        ensures
            reaches(self.graph_nodes@, self.graph_edges@, self.stack@[p] as int, self.stack@[depth] as int),
        decreases p,
    {
        let nodes = self.graph_nodes@;
        let edges = self.graph_edges@;
        if p == depth {
            lemma_reaches_self(nodes, edges, self.stack@[p] as int);
        } else {
            assert(self.reaches_low(p));
            let q = choose|q: int|
                0 <= q <= p && self.indices@[(#[trigger] self.stack@[q]) as int]->0 == self.low_links@[self.stack@[p] as int]
                    && reaches(nodes, edges, self.stack@[p] as int, self.stack@[q] as int);
            assert(q != p);
            if q < depth {
                assert(self.indices@[self.stack@[q] as int]->0 < self.indices@[self.stack@[depth] as int]->0);
            }
            self.lemma_reaches_root(depth, q);
            lemma_reaches_trans(nodes, edges, self.stack@[p] as int, self.stack@[q] as int, self.stack@[depth] as int);
        }
    }

    /// Popping the stack down to `depth` into a new component keeps what
    /// the search knows, where the node at `depth` is the root of that
    /// component: it reaches every node above it, none of which has a low
    /// link below its index, and what those nodes depend on is visited and,
    /// if still on the stack, not below it.
    proof fn lemma_complete(start: &Self, fin: &Self, depth: int, component: Seq<usize>)
        requires
            start.wf(),
            start.tracks(),
            start.size() <= usize::MAX,
            fin.adjacency == start.adjacency,
            fin.graph_nodes == start.graph_nodes,
            fin.graph_edges == start.graph_edges,
            fin.indices@ == start.indices@,
            fin.low_links@ == start.low_links@,
            fin.on_stack@.len() == start.on_stack@.len(),
            0 <= depth < start.stack@.len(),
            fin.stack@ == start.stack@.subrange(0, depth),
            component.len() == start.stack@.len() - depth,
            forall|i: int| 0 <= i < component.len() ==> #[trigger] component[i] == start.stack@[start.stack@.len() - 1 - i],
            fin.components@.len() == start.components@.len() + 1,
            forall|c: int| 0 <= c < start.components@.len() ==> #[trigger] fin.components@[c] == start.components@[c],
            fin.components@[start.components@.len() as int]@ == component,
            forall|v: int|
                0 <= v < start.size() ==> #[trigger] fin.on_stack@[v] == (start.on_stack@[v] && !component.contains(
                    v as usize,
                )),
            forall|q: int|
                depth < q < start.stack@.len() ==> start.low_links@[(#[trigger] start.stack@[q]) as int]
                    < start.indices@[start.stack@[q] as int]->0,
            forall|q: int|
                depth <= q < start.stack@.len() ==> start.low_links@[(#[trigger] start.stack@[q]) as int]
                    >= start.indices@[start.stack@[depth] as int]->0,
            forall|q: int|
                depth <= q < start.stack@.len() ==> reaches(
                    start.graph_nodes@,
                    start.graph_edges@,
                    start.stack@[depth] as int,
                    (#[trigger] start.stack@[q]) as int,
                ),
            forall|q: int, w: usize|
                depth <= q < start.stack@.len() && #[trigger] start.succ((#[trigger] start.stack@[q]) as int, w)
                    ==> start.indices@[w as int] is Some && (start.on_stack@[w as int] ==> start.indices@[w as int]->0
                    >= start.indices@[start.stack@[depth] as int]->0),
        ensures
            fin.tracks(),
            forall|v: int|
                0 <= v < start.size() && #[trigger] fin.on_stack@[v] ==> fin.indices@[v]->0
                    < start.indices@[start.stack@[depth] as int]->0,
    {
        let nodes = start.graph_nodes@;
        let edges = start.graph_edges@;
        let n = start.size();
        let top = start.stack@.len() as int;
        let last = start.components@.len() as int;
        let root = start.stack@[depth];
        assert forall|v: int| 0 <= v < n && #[trigger] fin.on_stack@[v] implies fin.indices@[v]->0
            < start.indices@[root as int]->0 by {
            assert(start.on_stack@[v]);
            assert(!component.contains(v as usize));
            assert(start.stack@.contains(v as usize));
            let pv = choose|pv: int| 0 <= pv < top && start.stack@[pv] == v as usize;
            if pv >= depth {
                assert(component[top - 1 - pv] == v as usize);
                assert(component.contains(v as usize));
            } else {
                assert(start.indices@[start.stack@[pv] as int]->0 < start.indices@[start.stack@[depth] as int]->0);
                assert(start.stack@[pv] as int == v);
            }
        }
        assert forall|p: int| 0 <= p < fin.stack@.len() implies #[trigger] fin.reaches_low(p) by {
            assert(start.reaches_low(p));
            let q = choose|q: int|
                0 <= q <= p && start.indices@[(#[trigger] start.stack@[q]) as int]->0 == start.low_links@[start.stack@[p] as int]
                    && reaches(nodes, edges, start.stack@[p] as int, start.stack@[q] as int);
            assert(fin.stack@[q] == start.stack@[q]);
            assert(fin.stack@[p] == start.stack@[p]);
        }
        assert forall|a: int, b: int| 0 <= a < b < fin.stack@.len() implies fin.indices@[(
        #[trigger] fin.stack@[a]) as int]->0 < fin.indices@[(#[trigger] fin.stack@[b]) as int]->0 by {
            assert(fin.stack@[a] == start.stack@[a]);
            assert(fin.stack@[b] == start.stack@[b]);
        }
        assert forall|c: int, a: int, b: int|
            0 <= c < fin.components@.len() && 0 <= a < fin.components@[c]@.len() && 0 <= b < fin.components@[c]@.len()
                implies reaches(
                nodes,
                edges,
                (#[trigger] fin.components@[c]@[a]) as int,
                (#[trigger] fin.components@[c]@[b]) as int,
            ) by {
            if c < last {
                assert(fin.components@[c] == start.components@[c]);
            } else {
                let pa = top - 1 - a;
                let pb = top - 1 - b;
                assert(component[a] == start.stack@[pa]);
                assert(component[b] == start.stack@[pb]);
                start.lemma_reaches_root(depth, pa);
                assert(reaches(nodes, edges, root as int, start.stack@[pb] as int));
                lemma_reaches_trans(nodes, edges, start.stack@[pa] as int, root as int, start.stack@[pb] as int);
            }
        }
        lemma_members(start.components@);
        assert forall|c: int, a: int, w: usize|
            0 <= c < fin.components@.len() && 0 <= a < fin.components@[c]@.len() && #[trigger] fin.succ(
                fin.components@[c]@[a] as int,
                w,
            ) implies fin.placed_by(c, w) by {
            if c < last {
                assert(fin.components@[c] == start.components@[c]);
                assert(start.succ(start.components@[c]@[a] as int, w));
                assert(start.placed_by(c, w));
                let d = choose|d: int| 0 <= d <= c && (#[trigger] start.components@[d])@.contains(w);
                assert(fin.components@[d] == start.components@[d]);
            } else {
                let pa = top - 1 - a;
                assert(component[a] == start.stack@[pa]);
                assert(start.succ(start.stack@[pa] as int, w));
                assert(start.indices@[w as int] is Some);
                assert((w as int) < n) by {
                    assert(start.adjacency@[start.stack@[pa] as int]@.contains(w));
                }
                if start.on_stack@[w as int] {
                    assert(start.stack@.contains(w));
                    let pw = choose|pw: int| 0 <= pw < top && start.stack@[pw] == w;
                    if pw < depth {
                        assert(start.indices@[start.stack@[pw] as int]->0 < start.indices@[start.stack@[depth] as int]->0);
                    }
                    assert(component[top - 1 - pw] == w);
                    assert(fin.components@[c]@.contains(w));
                } else {
                    assert(members(start.components@).contains(w));
                    let d = choose|d: int| 0 <= d < start.components@.len() && (#[trigger] start.components@[d])@.contains(w);
                    assert(fin.components@[d] == start.components@[d]);
                }
            }
        }
    }

    /// Visits `node` and, depth first, the unvisited nodes it depends on;
    /// completes the component of every visited node whose low link is its
    /// own index.
    fn visit(&mut self, node: usize, Ghost(base): Ghost<int>)
        requires
            old(self).wf(),
            node < old(self).size(),
            old(self).indices@[node as int] is None,
            old(self).since(base),
            base <= old(self).next_index,
            old(self).tracks(),
        ensures
            final(self).wf(),
            final(self).tracks(),
            final(self).keeps(&*old(self)),
            final(self).descends(&*old(self), node as int),
            final(self).settled_after(&*old(self), node as int),
            forall|w: usize| #[trigger] final(self).succ(node as int, w) ==> final(self).settled(w, node as int),
            final(self).on_stack@[node as int] <==> final(self).low_links@[node as int]
                < final(self).indices@[node as int]->0,
            final(self).adjacency == old(self).adjacency,
            final(self).indices@[node as int] is Some,
            count_visited(final(self).indices@) > count_visited(old(self).indices@),
            forall|v: int|
                0 <= v < old(self).size() && (#[trigger] old(self).indices@[v]) is Some
                    ==> final(self).indices@[v] == old(self).indices@[v] && final(self).low_links@[v]
                    == old(self).low_links@[v],
            final(self).stack@.len() >= old(self).stack@.len(),
            final(self).stack@.subrange(0, old(self).stack@.len() as int) == old(self).stack@,
            final(self).since(base),
            final(self).low_links@[node as int] <= final(self).indices@[node as int]->0,
            final(self).low_links@[node as int] == final(self).indices@[node as int]->0
                ==> final(self).stack@.len() == old(self).stack@.len(),
            final(self).indices@[node as int] == Some(old(self).next_index),
        decreases old(self).size() - count_visited(old(self).indices@),
    {
        let ghost n = self.size();
        let ghost depth = self.stack@.len() as int;
        let ghost old_stack = self.stack@;
        let size = self.adjacency.len();
        proof {
            assert(self.indices@[node as int] is None);
            lemma_count_visited_bound(self.indices@);
            lemma_count_visited_update(self.indices@, node as int, Some(self.next_index));
        }
        let index = self.next_index;
        self.next_index = self.next_index + 1;
        self.indices.set(node, Some(index));
        self.low_links.set(node, index);
        self.stack.push(node);
        self.on_stack.set(node, true);
        proof {
            assert forall|k: int| 0 <= k < self.stack@.len() implies (#[trigger] self.stack@[k]) < n
                && self.on_stack@[self.stack@[k] as int] && self.indices@[self.stack@[k] as int] is Some by {
                if k < depth {
                    assert(self.stack@[k] == old_stack[k]);
                }
            }
            assert(self.stack@.no_duplicates()) by {
                assert(!old_stack.contains(node)) by {
                    if old_stack.contains(node) {
                        let k = choose|k: int| 0 <= k < old_stack.len() && old_stack[k] == node;
                        assert(old(self).indices@[node as int] is Some);
                    }
                }
            }
            assert forall|v: int| 0 <= v < n && #[trigger] self.on_stack@[v] implies self.stack@.contains(
                v as usize,
            ) by {
                if v != node {
                    assert(old(self).on_stack@[v]);
                    let k = choose|k: int| 0 <= k < old_stack.len() && old_stack[k] == v as usize;
                    assert(self.stack@[k] == v as usize);
                } else {
                    assert(self.stack@[depth] == node);
                }
            }
            assert forall|k: int| 0 <= k < members(self.components@).len() implies (#[trigger] members(
                self.components@,
            )[k]) < n && !self.on_stack@[members(self.components@)[k] as int] && self.indices@[members(
                self.components@,
            )[k] as int] is Some by {
                let m = members(self.components@)[k];
                assert(m != node) by {
                    if m == node {
                        assert(old(self).indices@[node as int] is Some);
                    }
                }
            }
            assert forall|k: int| 0 <= k < self.stack@.len() implies self.indices@[(
            #[trigger] self.stack@[k]) as int]->0 >= base by {
                if k < depth {
                    assert(self.stack@[k] == old_stack[k]);
                } else {
                    assert(self.stack@[k] == node);
                }
            }
            let nodes = self.graph_nodes@;
            let edges = self.graph_edges@;
            assert forall|a: int, b: int| 0 <= a < b < self.stack@.len() implies self.indices@[(
            #[trigger] self.stack@[a]) as int]->0 < self.indices@[(#[trigger] self.stack@[b]) as int]->0 by {
                assert(self.stack@[a] == old_stack[a]);
                assert(old(self).indices@[old_stack[a] as int] is Some);
                if b < depth {
                    assert(self.stack@[b] == old_stack[b]);
                    assert(old(self).indices@[old_stack[b] as int] is Some);
                } else {
                    assert(self.stack@[b] == node);
                }
            }
            assert forall|p: int| 0 <= p < self.stack@.len() implies #[trigger] self.reaches_low(p) by {
                if p < depth {
                    assert(old(self).reaches_low(p));
                    let q = choose|q: int|
                        0 <= q <= p && old(self).indices@[(#[trigger] old(self).stack@[q]) as int]->0
                            == old(self).low_links@[old(self).stack@[p] as int] && reaches(
                            nodes,
                            edges,
                            old(self).stack@[p] as int,
                            old(self).stack@[q] as int,
                        );
                    assert(self.stack@[q] == old_stack[q]);
                    assert(self.stack@[p] == old_stack[p]);
                    assert(old(self).indices@[old_stack[q] as int] is Some);
                    assert(old(self).indices@[old_stack[p] as int] is Some);
                } else {
                    assert(self.stack@[p] == node);
                    lemma_reaches_self(nodes, edges, node as int);
                }
            }
            assert(adjacency_of(nodes, edges, self.adjacency@));
            assert forall|v: int| 0 <= v < n && (#[trigger] self.indices@[v]) is Some implies self.low_links@[v]
                <= self.indices@[v]->0 by {
                if v != node {
                    assert(old(self).indices@[v] is Some);
                }
            }
            assert(self.components@ == old(self).components@);
            assert forall|c: int, a: int, w: usize|
                0 <= c < self.components@.len() && 0 <= a < self.components@[c]@.len() && #[trigger] self.succ(
                    self.components@[c]@[a] as int,
                    w,
                ) implies self.placed_by(c, w) by {
                assert(old(self).succ(old(self).components@[c]@[a] as int, w));
                assert(old(self).placed_by(c, w));
            }
            assert(self.tracks());
            assert forall|v: int| 0 <= v < n && #[trigger] self.newly(&*old(self), v) implies v == node by {}
            lemma_reaches_self(nodes, edges, node as int);
        }
        let mut k: usize = 0;
        while k < self.adjacency[node].len()
            invariant
                self.wf(),
                self.adjacency == old(self).adjacency,
                n == self.size(),
                n <= usize::MAX,
                node < n,
                self.indices@[node as int] == Some(index),
                index == old(self).next_index,
                index == count_visited(old(self).indices@),
                old(self).indices@.len() == n,
                old(self).indices@[node as int] is None,
                self.low_links@[node as int] <= index,
                count_visited(self.indices@) > count_visited(old(self).indices@),
                forall|v: int|
                    0 <= v < n && (#[trigger] old(self).indices@[v]) is Some ==> self.indices@[v]
                        == old(self).indices@[v] && self.low_links@[v] == old(self).low_links@[v],
                self.stack@.len() > depth,
                self.stack@.subrange(0, depth) == old_stack,
                self.stack@[depth] == node,
                old_stack == old(self).stack@,
                depth == old(self).stack@.len(),
                self.since(base),
                base <= index,
                old(self).wf(),
                self.tracks(),
                self.keeps(&*old(self)),
                self.descends(&*old(self), node as int),
                self.settled_after(&*old(self), node as int),
                k <= self.adjacency@[node as int]@.len(),
                forall|j: int| 0 <= j < k ==> self.settled(#[trigger] self.adjacency@[node as int]@[j], node as int),
            decreases self.adjacency@[node as int]@.len() - k,
        {
            let dependency = self.adjacency[node][k];
            if self.indices[dependency].is_none() {
                let ghost before = *self;
                proof {
                    assert(self.since(base));
                    lemma_count_visited_bound(self.indices@);
                }
                self.visit(dependency, Ghost(base));
                proof {
                    assert(self.stack@.subrange(0, before.stack@.len() as int) == before.stack@);
                    assert(self.stack@.subrange(0, depth) =~= before.stack@.subrange(0, depth));
                    assert(self.stack@[depth] == before.stack@[depth]);
                    assert(self.indices@[dependency as int]->0 >= base);
                    assert(self.low_links@[dependency as int] >= base);
                    assert(self.low_links@[node as int] == before.low_links@[node as int]);
                }
                let ghost mid = *self;
                let low = if self.low_links[dependency] < self.low_links[node] {
                    self.low_links[dependency]
                } else {
                    self.low_links[node]
                };
                self.low_links.set(node, low);
                proof {
                    self.lemma_after_child(&*old(self), &before, &mid, node as int, dependency, k as int, depth);
                }
            } else if self.on_stack[dependency] {
                let visited_index = match self.indices[dependency] {
                    Some(visited_index) => visited_index,
                    None => index,
                };
                proof {
                    let position = choose|p: int| 0 <= p < self.stack@.len() && self.stack@[p] == dependency;
                    assert(self.indices@[self.stack@[position] as int]->0 >= base);
                }
                let ghost mid = *self;
                let low = if visited_index < self.low_links[node] {
                    visited_index
                } else {
                    self.low_links[node]
                };
                self.low_links.set(node, low);
                proof {
                    self.lemma_after_back_edge(&*old(self), &mid, node as int, dependency, k as int, depth);
                }
            }
            k = k + 1;
        }
        if self.low_links[node] != index {
            return;
        }
        let ghost start = *self;
        let mut component: Vec<usize> = Vec::new();
        loop
            invariant_except_break
                self.stack@.len() > depth,
                self.stack@.subrange(0, depth) == old_stack,
                self.stack@[depth] == node,
            invariant
                n <= usize::MAX,
                self.adjacency == old(self).adjacency,
                n == self.size(),
                self.indices@.len() == n,
                self.low_links@.len() == n,
                self.on_stack@.len() == n,
                forall|i: int, m: int|
                    0 <= i < n && 0 <= m < self.adjacency@[i]@.len() ==> (#[trigger] self.adjacency@[i]@[m]) < n,
                self.next_index == count_visited(self.indices@),
                forall|v: int| 0 <= v < n && (#[trigger] self.indices@[v]) is Some ==> self.indices@[v]->0 < self.next_index,
                self.stack@.no_duplicates(),
                forall|m: int|
                    0 <= m < self.stack@.len() ==> (#[trigger] self.stack@[m]) < n && self.on_stack@[self.stack@[m] as int]
                        && self.indices@[self.stack@[m] as int] is Some,
                forall|v: int| 0 <= v < n && #[trigger] self.on_stack@[v] ==> self.stack@.contains(v as usize),
                (members(self.components@) + component@).no_duplicates(),
                forall|m: int|
                    0 <= m < (members(self.components@) + component@).len() ==> (#[trigger] (members(
                        self.components@,
                    ) + component@)[m]) < n && !self.on_stack@[(members(self.components@) + component@)[m] as int]
                        && self.indices@[(members(self.components@) + component@)[m] as int] is Some,
                forall|v: int|
                    0 <= v < n && (#[trigger] self.indices@[v]) is Some ==> (self.on_stack@[v] || (members(
                        self.components@,
                    ) + component@).contains(v as usize)),
                forall|c: int| 0 <= c < self.components@.len() ==> (#[trigger] self.components@[c])@.len() > 0,
                self.indices@[node as int] == Some(index),
                self.low_links@[node as int] == index,
                self.since(base),
                count_visited(self.indices@) > count_visited(old(self).indices@),
                forall|v: int|
                    0 <= v < n && (#[trigger] old(self).indices@[v]) is Some ==> self.indices@[v]
                        == old(self).indices@[v] && self.low_links@[v] == old(self).low_links@[v],
                old_stack == old(self).stack@,
                depth == old(self).stack@.len(),
                self.indices@ == start.indices@,
                self.low_links@ == start.low_links@,
                self.components@ == start.components@,
                self.graph_nodes == start.graph_nodes,
                self.graph_edges == start.graph_edges,
                self.stack@.len() + component@.len() == start.stack@.len(),
                self.stack@ == start.stack@.subrange(0, self.stack@.len() as int),
                forall|i: int|
                    0 <= i < component@.len() ==> #[trigger] component@[i] == start.stack@[start.stack@.len() - 1 - i],
                forall|v: int|
                    0 <= v < n ==> #[trigger] self.on_stack@[v] == (start.on_stack@[v] && !component@.contains(v as usize)),
            ensures
                self.indices@ == start.indices@,
                self.low_links@ == start.low_links@,
                self.components@ == start.components@,
                self.graph_nodes == start.graph_nodes,
                self.graph_edges == start.graph_edges,
                self.stack@.len() + component@.len() == start.stack@.len(),
                self.stack@ == start.stack@.subrange(0, self.stack@.len() as int),
                forall|i: int|
                    0 <= i < component@.len() ==> #[trigger] component@[i] == start.stack@[start.stack@.len() - 1 - i],
                forall|v: int|
                    0 <= v < n ==> #[trigger] self.on_stack@[v] == (start.on_stack@[v] && !component@.contains(v as usize)),
                self.stack@.len() == depth,
                self.stack@ == old_stack,
                component@.len() > 0,
                self.adjacency == old(self).adjacency,
                n == self.size(),
                self.indices@.len() == n,
                self.low_links@.len() == n,
                self.on_stack@.len() == n,
                forall|i: int, m: int|
                    0 <= i < n && 0 <= m < self.adjacency@[i]@.len() ==> (#[trigger] self.adjacency@[i]@[m]) < n,
                self.next_index == count_visited(self.indices@),
                forall|v: int| 0 <= v < n && (#[trigger] self.indices@[v]) is Some ==> self.indices@[v]->0 < self.next_index,
                self.stack@.no_duplicates(),
                forall|m: int|
                    0 <= m < self.stack@.len() ==> (#[trigger] self.stack@[m]) < n && self.on_stack@[self.stack@[m] as int]
                        && self.indices@[self.stack@[m] as int] is Some,
                forall|v: int| 0 <= v < n && #[trigger] self.on_stack@[v] ==> self.stack@.contains(v as usize),
                (members(self.components@) + component@).no_duplicates(),
                forall|m: int|
                    0 <= m < (members(self.components@) + component@).len() ==> (#[trigger] (members(
                        self.components@,
                    ) + component@)[m]) < n && !self.on_stack@[(members(self.components@) + component@)[m] as int]
                        && self.indices@[(members(self.components@) + component@)[m] as int] is Some,
                forall|v: int|
                    0 <= v < n && (#[trigger] self.indices@[v]) is Some ==> (self.on_stack@[v] || (members(
                        self.components@,
                    ) + component@).contains(v as usize)),
                forall|c: int| 0 <= c < self.components@.len() ==> (#[trigger] self.components@[c])@.len() > 0,
                self.indices@[node as int] == Some(index),
                self.low_links@[node as int] == index,
                self.since(base),
                count_visited(self.indices@) > count_visited(old(self).indices@),
                forall|v: int|
                    0 <= v < n && (#[trigger] old(self).indices@[v]) is Some ==> self.indices@[v]
                        == old(self).indices@[v] && self.low_links@[v] == old(self).low_links@[v],
            decreases self.stack@.len(),
        {
            let ghost before_stack = self.stack@;
            let ghost before_on = self.on_stack@;
            let ghost before_members = members(self.components@) + component@;
            let ghost before_component = component@;
            let member = match self.stack.pop() {
                Some(member) => member,
                None => {
                    break;
                },
            };
            self.on_stack.set(member, false);
            component.push(member);
            proof {
                assert forall|v: int| 0 <= v < n implies #[trigger] self.on_stack@[v] == (start.on_stack@[v]
                    && !component@.contains(v as usize)) by {
                    if v != member as int {
                        assert(before_on[v] == (start.on_stack@[v] && !before_component.contains(v as usize)));
                        assert(component@.contains(v as usize) == before_component.contains(v as usize)) by {
                            if component@.contains(v as usize) {
                                let i = choose|i: int| 0 <= i < component@.len() && component@[i] == v as usize;
                                assert(i < before_component.len());
                                assert(before_component[i] == v as usize);
                            }
                            if before_component.contains(v as usize) {
                                let i = choose|i: int| 0 <= i < before_component.len() && before_component[i] == v as usize;
                                assert(component@[i] == v as usize);
                            }
                        }
                    } else {
                        assert(component@[component@.len() - 1] == member);
                    }
                }
                assert(self.stack@ =~= start.stack@.subrange(0, self.stack@.len() as int));
                let all = members(self.components@) + component@;
                assert(all =~= before_members.push(member));
                assert(self.stack@ =~= before_stack.drop_last());
                assert(!self.stack@.contains(member)) by {
                    if self.stack@.contains(member) {
                        let p = choose|p: int| 0 <= p < self.stack@.len() && self.stack@[p] == member;
                        assert(before_stack[p] == member);
                        assert(before_stack[before_stack.len() - 1] == member);
                    }
                }
                assert(before_on[member as int]) by {
                    assert(before_stack[before_stack.len() - 1] == member);
                }
                assert(!before_members.contains(member)) by {
                    if before_members.contains(member) {
                        let p = choose|p: int| 0 <= p < before_members.len() && before_members[p] == member;
                        assert(!before_on[before_members[p] as int]);
                    }
                }
                assert forall|m: int| 0 <= m < self.stack@.len() implies (#[trigger] self.stack@[m]) < n
                    && self.on_stack@[self.stack@[m] as int] && self.indices@[self.stack@[m] as int] is Some by {
                    assert(self.stack@[m] == before_stack[m]);
                    assert(self.stack@[m] != member) by {
                        assert(before_stack[before_stack.len() - 1] == member);
                    }
                }
                assert forall|v: int| 0 <= v < n && #[trigger] self.on_stack@[v] implies self.stack@.contains(
                    v as usize,
                ) by {
                    assert(v != member);
                    assert(before_on[v]);
                    let p = choose|p: int| 0 <= p < before_stack.len() && before_stack[p] == v as usize;
                    assert(p != before_stack.len() - 1) by {
                        if p == before_stack.len() - 1 {
                            assert(before_stack[p] == member);
                            assert(before_stack[p] == v as usize);
                            assert(self.on_stack@[member as int] == false);
                        }
                    }
                    assert(self.stack@[p] == v as usize);
                }
                assert forall|m: int| 0 <= m < all.len() implies (#[trigger] all[m]) < n && !self.on_stack@[all[m] as int]
                    && self.indices@[all[m] as int] is Some by {
                    if m < before_members.len() {
                        assert(all[m] == before_members[m]);
                    }
                }
                assert forall|v: int| 0 <= v < n && (#[trigger] self.indices@[v]) is Some implies (
                self.on_stack@[v] || all.contains(v as usize)) by {
                    if v == member {
                        assert(all[all.len() - 1] == member);
                    } else if !self.on_stack@[v] && before_members.contains(v as usize) {
                        let p = choose|p: int| 0 <= p < before_members.len() && before_members[p] == v as usize;
                        assert(all[p] == v as usize);
                    }
                }
                if member != node {
                    assert(before_stack.len() - 1 > depth) by {
                        if before_stack.len() - 1 == depth {
                            assert(before_stack[depth] == node);
                        }
                    }
                    assert(self.stack@.subrange(0, depth) =~= before_stack.subrange(0, depth));
                    assert(self.stack@[depth] == before_stack[depth]);
                } else {
                    assert(before_stack.len() - 1 == depth) by {
                        if before_stack.len() - 1 > depth {
                            assert(before_stack[depth] == node);
                            assert(before_stack[before_stack.len() - 1] == node);
                        }
                    }
                    assert(self.stack@ =~= old_stack);
                }
                assert forall|m: int| 0 <= m < self.stack@.len() implies self.indices@[(
                #[trigger] self.stack@[m]) as int]->0 >= base by {
                    assert(self.stack@[m] == before_stack[m]);
                }
            }
            if member == node {
                break;
            }
        }
        let ghost before_components = self.components@;
        self.components.push(component);
        proof {
            assert(self.components@.drop_last() =~= before_components);
            assert(members(self.components@) =~= members(before_components) + self.components@.last()@);
            let top = start.stack@.len() as int;
            assert(start.stack@[depth] == node);
            assert forall|q: int| depth <= q < top implies #[trigger] start.newly(&*old(self), start.stack@[q] as int) by {
                if q > depth {
                    assert(start.indices@[start.stack@[depth] as int]->0 < start.indices@[start.stack@[q] as int]->0);
                }
                if old(self).indices@[start.stack@[q] as int] is Some {
                    assert(old(self).indices@[start.stack@[q] as int]->0 < old(self).next_index);
                }
            }
            assert forall|q: int| depth < q < top implies start.low_links@[(#[trigger] start.stack@[q]) as int]
                < start.indices@[start.stack@[q] as int]->0 by {
                assert(start.newly(&*old(self), start.stack@[q] as int));
                assert(start.stack@[q] != node) by {
                    assert(start.stack@[q] != start.stack@[depth]);
                }
            }
            assert forall|q: int| depth <= q < top implies start.low_links@[(#[trigger] start.stack@[q]) as int]
                >= start.indices@[start.stack@[depth] as int]->0 by {
                assert(start.newly(&*old(self), start.stack@[q] as int));
            }
            assert forall|q: int| depth <= q < top implies reaches(
                start.graph_nodes@,
                start.graph_edges@,
                start.stack@[depth] as int,
                (#[trigger] start.stack@[q]) as int,
            ) by {
                assert(start.newly(&*old(self), start.stack@[q] as int));
            }
            assert forall|q: int, w: usize|
                depth <= q < top && #[trigger] start.succ((#[trigger] start.stack@[q]) as int, w) implies start.indices@[w
                    as int] is Some && (start.on_stack@[w as int] ==> start.indices@[w as int]->0
                    >= start.indices@[start.stack@[depth] as int]->0) by {
                let v = start.stack@[q] as int;
                assert(start.newly(&*old(self), v));
                if v != node as int {
                    assert(start.settled(w, node as int));
                } else {
                    let j = choose|j: int| 0 <= j < start.adjacency@[node as int]@.len() && start.adjacency@[node as int]@[j] == w;
                    assert(start.settled(start.adjacency@[node as int]@[j], node as int));
                }
            }
            Self::lemma_complete(&start, &*self, depth, component@);
            assert(component@[top - 1 - depth] == node);
            assert(!self.on_stack@[node as int]);
            assert forall|v: int|
                0 <= v < n && old(self).indices@[v] is Some && #[trigger] self.on_stack@[v] implies old(self).on_stack@[v] by {
                assert(start.on_stack@[v]);
            }
            assert forall|c: int| 0 <= c < old(self).components@.len() implies #[trigger] self.components@[c]
                == old(self).components@[c] by {
                assert(self.components@[c] == start.components@[c]);
            }
            assert forall|v: int| 0 <= v < n && #[trigger] self.newly(&*old(self), v) implies {
                &&& self.indices@[v]->0 >= old(self).next_index
                &&& reaches(self.graph_nodes@, self.graph_edges@, node as int, v)
                &&& self.low_links@[v] >= self.low_links@[node as int]
                &&& (v != node && self.on_stack@[v] ==> self.low_links@[v] < self.indices@[v]->0)
            } by {
                assert(start.newly(&*old(self), v));
            }
            assert forall|v: int, w: usize|
                0 <= v < n && self.newly(&*old(self), v) && v != node && #[trigger] self.succ(v, w) implies self.settled(
                    w,
                    node as int,
                ) by {
                assert(start.newly(&*old(self), v));
                assert(start.succ(v, w));
                assert(start.settled(w, node as int));
                assert((w as int) < n) by {
                    assert(start.adjacency@[v]@.contains(w));
                }
            }
            assert forall|w: usize| #[trigger] self.succ(node as int, w) implies self.settled(w, node as int) by {
                let j = choose|j: int| 0 <= j < start.adjacency@[node as int]@.len() && start.adjacency@[node as int]@[j] == w;
                assert(start.settled(start.adjacency@[node as int]@[j], node as int));
                assert((w as int) < n);
            }
        }
    }
}

/* ---------------------------------------------------------------------------------------------
 * Components, cycles, order.
 * ------------------------------------------------------------------------------------------ */

/// Strictly increasing by node id.
pub open spec fn ids_increasing(ids: Seq<DependencyNodeId>) -> bool {
    forall|a: int, b: int| 0 <= a < b < ids.len() ==> node_id_lt(#[trigger] ids[a], #[trigger] ids[b])
}

/// `components` split the node ids of `nodes`: each is non-empty and
/// increasing, holds ids of nodes, and each node id is in exactly one.
pub open spec fn partitions_nodes(nodes: Seq<DependencyNode>, components: Seq<Vec<DependencyNodeId>>) -> bool {
    &&& forall|c: int| 0 <= c < components.len() ==> (#[trigger] components[c])@.len() > 0 && ids_increasing(
        components[c]@,
    )
    &&& forall|c: int, k: int|
        0 <= c < components.len() && 0 <= k < components[c]@.len() ==> contains_id(
            nodes,
            #[trigger] components[c]@[k],
        )
    &&& forall|i: int|
        0 <= i < nodes.len() ==> exists|c: int|
            0 <= c < components.len() && (#[trigger] components[c])@.contains(#[trigger] nodes[i].id)
    &&& forall|c: int, d: int, x: DependencyNodeId|
        0 <= c < components.len() && 0 <= d < components.len() && c != d && #[trigger] components[c]@.contains(
            x,
        ) ==> !#[trigger] components[d]@.contains(x)
}

/// The nodes of each component reach each other.
pub open spec fn components_connected(
    nodes: Seq<DependencyNode>,
    edges: Seq<DependencyEdge>,
    components: Seq<Vec<DependencyNodeId>>,
) -> bool {
    forall|c: int, a: int, b: int|
        0 <= c < components.len() && 0 <= a < nodes.len() && 0 <= b < nodes.len() && #[trigger] components[c]@.contains(
            nodes[a].id,
        ) && #[trigger] components[c]@.contains(nodes[b].id) ==> reaches(nodes, edges, a, b)
}

/// What a node of a component depends on lies in that component or an
/// earlier one: dependencies come before their dependents.
pub open spec fn dependencies_first(
    nodes: Seq<DependencyNode>,
    edges: Seq<DependencyEdge>,
    components: Seq<Vec<DependencyNodeId>>,
) -> bool {
    forall|c: int, a: int, b: int|
        0 <= c < components.len() && 0 <= a < nodes.len() && 0 <= b < nodes.len() && #[trigger] components[c]@.contains(
            nodes[a].id,
        ) && #[trigger] depends_on(nodes, edges, a, b) ==> exists|d: int|
            0 <= d <= c && #[trigger] components[d]@.contains(nodes[b].id)
}

/// Along a path, dependencies first keeps each node in the component of
/// the path's start or an earlier one.
proof fn lemma_path_stays_earlier(
    nodes: Seq<DependencyNode>,
    edges: Seq<DependencyEdge>,
    components: Seq<Vec<DependencyNodeId>>,
    path: Seq<int>,
    c: int,
)
    requires
        dependencies_first(nodes, edges, components),
        is_dependency_path(nodes, edges, path),
        0 <= c < components.len(),
        components[c]@.contains(nodes[path[0]].id),
    ensures
        exists|d: int| 0 <= d <= c && #[trigger] components[d]@.contains(nodes[path.last()].id),
    decreases path.len(),
{
    if path.len() == 1 {
        assert(components[c]@.contains(nodes[path.last()].id));
    } else {
        assert(path_link(nodes, edges, path, 0));
        assert(0 <= path[0] < nodes.len() && 0 <= path[1] < nodes.len());
        let d = choose|d: int| 0 <= d <= c && #[trigger] components[d]@.contains(nodes[path[1]].id);
        let rest = path.subrange(1, path.len() as int);
        assert forall|k: int| 0 <= k < rest.len() - 1 implies #[trigger] path_link(nodes, edges, rest, k) by {
            assert(path_link(nodes, edges, path, k + 1));
            assert(rest[k] == path[k + 1] && rest[k + 1] == path[k + 2]);
        }
        assert forall|k: int| 0 <= k < rest.len() implies 0 <= #[trigger] rest[k] < nodes.len() by {
            assert(rest[k] == path[k + 1]);
        }
        assert(is_dependency_path(nodes, edges, rest));
        lemma_path_stays_earlier(nodes, edges, components, rest, d);
        assert(rest.last() == path.last());
    }
}

/// The components are maximal: nodes that reach each other lie in the
/// same component.
pub proof fn lemma_components_maximal(
    nodes: Seq<DependencyNode>,
    edges: Seq<DependencyEdge>,
    components: Seq<Vec<DependencyNodeId>>,
    a: int,
    b: int,
)
    requires
        partitions_nodes(nodes, components),
        dependencies_first(nodes, edges, components),
        0 <= a < nodes.len(),
        0 <= b < nodes.len(),
        reaches(nodes, edges, a, b),
        reaches(nodes, edges, b, a),
    ensures
        forall|c: int|
            0 <= c < components.len() ==> (#[trigger] components[c]@.contains(nodes[a].id) <==> components[c]@.contains(
                nodes[b].id,
            )),
{
    let ca = choose|c: int| 0 <= c < components.len() && (#[trigger] components[c])@.contains(nodes[a].id);
    let cb = choose|c: int| 0 <= c < components.len() && (#[trigger] components[c])@.contains(nodes[b].id);
    let forward = choose|path: Seq<int>| #[trigger] is_dependency_path(nodes, edges, path) && path[0] == a && path.last() == b;
    let backward = choose|path: Seq<int>| #[trigger] is_dependency_path(nodes, edges, path) && path[0] == b && path.last() == a;
    lemma_path_stays_earlier(nodes, edges, components, forward, ca);
    lemma_path_stays_earlier(nodes, edges, components, backward, cb);
    let d = choose|d: int| 0 <= d <= ca && #[trigger] components[d]@.contains(nodes[b].id);
    let e = choose|e: int| 0 <= e <= cb && #[trigger] components[e]@.contains(nodes[a].id);
    if d != cb {
        assert(!components[d]@.contains(nodes[b].id));
    }
    if e != ca {
        assert(!components[e]@.contains(nodes[a].id));
    }
    assert(ca == cb);
    assert forall|c: int| 0 <= c < components.len() implies (#[trigger] components[c]@.contains(nodes[a].id)
        <==> components[c]@.contains(nodes[b].id)) by {
        if c != ca {
            if components[c]@.contains(nodes[a].id) {
                assert(!components[ca]@.contains(nodes[a].id));
            }
            if components[c]@.contains(nodes[b].id) {
                assert(!components[ca]@.contains(nodes[b].id));
            }
        }
    }
}

/// Sorts node ids by id.
fn sort_ids(ids: Vec<DependencyNodeId>) -> (sorted: Vec<DependencyNodeId>)
    requires
        ids@.no_duplicates(),
    ensures
        ids_increasing(sorted@),
        sorted@.len() == ids@.len(),
        forall|x: DependencyNodeId| sorted@.contains(x) <==> ids@.contains(x),
{
    let mut sorted: Vec<DependencyNodeId> = Vec::new();
    let mut i: usize = 0;
    while i < ids.len()
        invariant
            i <= ids@.len(),
            ids@.no_duplicates(),
            ids_increasing(sorted@),
            sorted@.len() == i,
            forall|x: DependencyNodeId| sorted@.contains(x) <==> ids@.take(i as int).contains(x),
        decreases ids@.len() - i,
    {
        let x = ids[i];
        let mut p: usize = 0;
        while p < sorted.len() && node_id_less(sorted[p], x)
            invariant
                p <= sorted@.len(),
                forall|k: int| 0 <= k < p ==> node_id_lt(#[trigger] sorted@[k], x),
            decreases sorted@.len() - p,
        {
            p = p + 1;
        }
        let ghost before = sorted@;
        proof {
            assert(!before.contains(x)) by {
                if before.contains(x) {
                    let taken = ids@.take(i as int);
                    let k = choose|k: int| 0 <= k < taken.len() && taken[k] == x;
                    assert(ids@[k] == x);
                }
            }
            if p < before.len() {
                crate::graph::lemma_node_key_injective(before[p as int], x);
            }
        }
        sorted.insert(p, x);
        proof {
            assert(ids@.take(i + 1) =~= ids@.take(i as int).push(x));
            assert forall|a: int, b: int| 0 <= a < b < sorted@.len() implies node_id_lt(
                #[trigger] sorted@[a],
                #[trigger] sorted@[b],
            ) by {
                if b < p {
                } else if a < p && b == p {
                } else if a < p {
                    assert(sorted@[b] == before[b - 1]);
                    crate::graph::lemma_node_key_injective(sorted@[a], x);
                } else if a == p {
                    assert(sorted@[b] == before[b - 1]);
                    if b - 1 > p {
                        assert(node_id_lt(before[p as int], before[b - 1]));
                    }
                } else {
                    assert(sorted@[a] == before[a - 1] && sorted@[b] == before[b - 1]);
                }
            }
            let taken = ids@.take(i as int);
            assert(ids@.take(i + 1) =~= taken.push(x));
            assert forall|y: DependencyNodeId| sorted@.contains(y) <==> (before.contains(y) || y == x) by {
                if sorted@.contains(y) {
                    let k = choose|k: int| 0 <= k < sorted@.len() && sorted@[k] == y;
                    if k < p {
                        assert(before[k] == y);
                    } else if k > p {
                        assert(before[k - 1] == y);
                    }
                }
                if before.contains(y) {
                    let k = choose|k: int| 0 <= k < before.len() && before[k] == y;
                    if k < p {
                        assert(sorted@[k] == y);
                    } else {
                        assert(sorted@[k + 1] == y);
                    }
                }
                if y == x {
                    assert(sorted@[p as int] == x);
                }
            }
            assert forall|y: DependencyNodeId| taken.push(x).contains(y) <==> (taken.contains(y) || y == x) by {
                if taken.push(x).contains(y) {
                    let k = choose|k: int| 0 <= k < taken.push(x).len() && taken.push(x)[k] == y;
                    if k < taken.len() {
                        assert(taken[k] == y);
                    }
                }
                if taken.contains(y) {
                    let k = choose|k: int| 0 <= k < taken.len() && taken[k] == y;
                    assert(taken.push(x)[k] == y);
                }
                if y == x {
                    assert(taken.push(x)[taken.len() as int] == x);
                }
            }
            assert forall|y: DependencyNodeId| sorted@.contains(y) <==> ids@.take(i + 1).contains(y) by {
                assert(before.contains(y) <==> taken.contains(y));
            }
        }
        i = i + 1;
    }
    assert(ids@.take(ids@.len() as int) =~= ids@);
    sorted
}


proof fn lemma_members(components: Seq<Vec<usize>>)
    ensures
        forall|x: usize| members(components).contains(x) <==> exists|c: int|
            0 <= c < components.len() && (#[trigger] components[c])@.contains(x),
        members(components).no_duplicates() ==> forall|c: int, d: int, x: usize|
            0 <= c < components.len() && 0 <= d < components.len() && c != d && #[trigger] components[c]@.contains(x)
                ==> !#[trigger] components[d]@.contains(x),
        members(components).no_duplicates() ==> forall|c: int|
            0 <= c < components.len() ==> (#[trigger] components[c])@.no_duplicates(),
    decreases components.len(),
{
    if components.len() > 0 {
        let rest = components.drop_last();
        let last = components.last()@;
        lemma_members(rest);
        let all = members(components);
        assert(all == members(rest) + last);
        assert forall|x: usize| all.contains(x) <==> exists|c: int|
            0 <= c < components.len() && (#[trigger] components[c])@.contains(x) by {
            if all.contains(x) {
                let k = choose|k: int| 0 <= k < all.len() && all[k] == x;
                if k < members(rest).len() {
                    assert(members(rest)[k] == x);
                    assert(members(rest).contains(x));
                    let c = choose|c: int| 0 <= c < rest.len() && (#[trigger] rest[c])@.contains(x);
                    assert(components[c] == rest[c]);
                } else {
                    assert(last[k - members(rest).len()] == x);
                    assert(components[components.len() - 1]@.contains(x));
                }
            }
            if exists|c: int| 0 <= c < components.len() && (#[trigger] components[c])@.contains(x) {
                let c = choose|c: int| 0 <= c < components.len() && (#[trigger] components[c])@.contains(x);
                if c < rest.len() {
                    assert(rest[c] == components[c]);
                    assert(members(rest).contains(x));
                    let k = choose|k: int| 0 <= k < members(rest).len() && members(rest)[k] == x;
                    assert(all[k] == x);
                } else {
                    let k = choose|k: int| 0 <= k < last.len() && last[k] == x;
                    assert(all[members(rest).len() + k] == x);
                }
            }
        }
        if all.no_duplicates() {
            assert(members(rest).no_duplicates()) by {
                assert forall|a: int, b: int| 0 <= a < b < members(rest).len() implies members(rest)[a]
                    != members(rest)[b] by {
                    assert(all[a] == members(rest)[a] && all[b] == members(rest)[b]);
                }
            }
            assert(last.no_duplicates()) by {
                assert forall|a: int, b: int| 0 <= a < b < last.len() implies last[a] != last[b] by {
                    let o = members(rest).len();
                    assert(all[o + a] == last[a] && all[o + b] == last[b]);
                }
            }
            assert forall|c: int, d: int, x: usize|
                0 <= c < components.len() && 0 <= d < components.len() && c != d && #[trigger] components[c]@.contains(x)
                    implies !#[trigger] components[d]@.contains(x) by {
                if c < rest.len() && d < rest.len() {
                    assert(components[c] == rest[c] && components[d] == rest[d]);
                } else if components[d]@.contains(x) {
                    let (inner, outer) = if c < rest.len() {
                        (c, d)
                    } else {
                        (d, c)
                    };
                    assert(outer == components.len() - 1);
                    assert(components[inner] == rest[inner]);
                    assert(members(rest).contains(x));
                    let k = choose|k: int| 0 <= k < members(rest).len() && members(rest)[k] == x;
                    let m = choose|m: int| 0 <= m < last.len() && last[m] == x;
                    assert(all[k] == x && all[members(rest).len() + m] == x);
                }
            }
            assert forall|c: int| 0 <= c < components.len() implies (#[trigger] components[c])@.no_duplicates() by {
                if c < rest.len() {
                    assert(components[c] == rest[c]);
                }
            }
        }
    }
}

impl DependencyGraph {
    /// The strongly connected components of the graph, found with Tarjan's
    /// algorithm (dependencies before dependents), each listed by node id.
    pub fn strongly_connected_components(&self) -> (components: Vec<Vec<DependencyNodeId>>)
        requires
            self.wf(),
        ensures
            partitions_nodes(self.node_seq(), components@),
            components_connected(self.node_seq(), self.edge_seq(), components@),
            dependencies_first(self.node_seq(), self.edge_seq(), components@),
    {
        proof {
            self.lemma_wf();
        }
        let adjacency = self.adjacency();
        let nodes = self.nodes();
        let n = nodes.len();
        let mut tarjan = Tarjan::new(adjacency.as_slice(), Ghost(self.node_seq()), Ghost(self.edge_seq()));
        let mut node: usize = 0;
        while node < n
            invariant
                n == nodes@.len(),
                nodes@ == self.node_seq(),
                tarjan.wf(),
                tarjan.tracks(),
                tarjan.graph_nodes@ == self.node_seq(),
                tarjan.graph_edges@ == self.edge_seq(),
                tarjan.size() == n,
                tarjan.stack@.len() == 0,
                node <= n,
                forall|v: int| 0 <= v < node ==> (#[trigger] tarjan.indices@[v]) is Some,
            decreases n - node,
        {
            if tarjan.indices[node].is_none() {
                let ghost base = tarjan.next_index as int;
                proof {
                    assert forall|v: int|
                        0 <= v < tarjan.size() && (#[trigger] tarjan.indices@[v]) is Some && tarjan.indices@[v]->0
                            >= base implies tarjan.low_links@[v] >= base by {}
                }
                let ghost before = tarjan;
                tarjan.visit(node, Ghost(base));
                proof {
                    assert forall|v: int| 0 <= v < node + 1 implies (#[trigger] tarjan.indices@[v]) is Some by {
                        if v < node {
                            assert(before.indices@[v] is Some);
                        }
                    }
                }
            }
            node = node + 1;
        }
        proof {
            lemma_members(tarjan.components@);
            assert forall|x: usize| x < n implies #[trigger] members(tarjan.components@).contains(x) by {
                assert(tarjan.indices@[x as int] is Some);
                if tarjan.on_stack@[x as int] {
                    assert(tarjan.stack@.contains(x));
                }
            }
        }
        let mut components: Vec<Vec<DependencyNodeId>> = Vec::new();
        let mut c: usize = 0;
        while c < tarjan.components.len()
            invariant
                n == nodes@.len(),
                nodes@ == self.node_seq(),
                ids_distinct(nodes@),
                tarjan.wf(),
                tarjan.tracks(),
                tarjan.graph_nodes@ == self.node_seq(),
                tarjan.graph_edges@ == self.edge_seq(),
                tarjan.size() == n,
                members(tarjan.components@).no_duplicates(),
                forall|x: usize| members(tarjan.components@).contains(x) <==> exists|d: int|
                    0 <= d < tarjan.components@.len() && (#[trigger] tarjan.components@[d])@.contains(x),
                forall|d: int, e: int, x: usize|
                    0 <= d < tarjan.components@.len() && 0 <= e < tarjan.components@.len() && d != e
                        && #[trigger] tarjan.components@[d]@.contains(x) ==> !#[trigger] tarjan.components@[e]@.contains(x),
                forall|d: int| 0 <= d < tarjan.components@.len() ==> (#[trigger] tarjan.components@[d])@.no_duplicates(),
                c <= tarjan.components@.len(),
                components@.len() == c,
                forall|d: int| 0 <= d < c ==> (#[trigger] components@[d])@.len() > 0 && ids_increasing(
                    components@[d]@,
                ),
                forall|d: int, x: DependencyNodeId|
                    0 <= d < c ==> (#[trigger] components@[d]@.contains(x) <==> exists|k: int|
                        0 <= k < tarjan.components@[d]@.len() && x == nodes@[(#[trigger] tarjan.components@[d]@[k]) as int].id),
            decreases tarjan.components@.len() - c,
        {
            let component = &tarjan.components[c];
            proof {
                assert forall|m: int| 0 <= m < component@.len() implies (#[trigger] component@[m]) < n by {
                    assert(members(tarjan.components@).contains(component@[m])) by {
                        assert(tarjan.components@[c as int]@.contains(component@[m]));
                    }
                    let q = choose|q: int| 0 <= q < members(tarjan.components@).len() && members(tarjan.components@)[q] == component@[m];
                }
            }
            let mut ids: Vec<DependencyNodeId> = Vec::new();
            let mut k: usize = 0;
            while k < component.len()
                invariant
                    n == nodes@.len(),
                    ids_distinct(nodes@),
                    component@.no_duplicates(),
                    forall|m: int| 0 <= m < component@.len() ==> (#[trigger] component@[m]) < n,
                    k <= component@.len(),
                    ids@.len() == k,
                    forall|m: int| 0 <= m < k ==> (#[trigger] ids@[m]) == nodes@[component@[m] as int].id,
                    ids@.no_duplicates(),
                decreases component@.len() - k,
            {
                let id = nodes[component[k]].id;
                proof {
                    assert forall|m: int| 0 <= m < k implies ids@[m] != id by {
                        assert(component@[m] != component@[k as int]);
                    }
                }
                ids.push(id);
                k = k + 1;
            }
            let sorted = sort_ids(ids);
            proof {
                assert forall|x: DependencyNodeId| sorted@.contains(x) <==> exists|k: int|
                    0 <= k < tarjan.components@[c as int]@.len() && x == nodes@[(#[trigger] tarjan.components@[c as int]@[k]) as int].id by {
                    if ids@.contains(x) {
                        let m = choose|m: int| 0 <= m < ids@.len() && ids@[m] == x;
                        assert(x == nodes@[(tarjan.components@[c as int]@[m]) as int].id);
                    }
                    if exists|k: int| 0 <= k < tarjan.components@[c as int]@.len() && x == nodes@[(#[trigger] tarjan.components@[c as int]@[k]) as int].id {
                        let k = choose|k: int| 0 <= k < tarjan.components@[c as int]@.len() && x == nodes@[(#[trigger] tarjan.components@[c as int]@[k]) as int].id;
                        assert(ids@[k] == x);
                    }
                }
            }
            components.push(sorted);
            c = c + 1;
        }
        proof {
            let result = components@;
            let parts = tarjan.components@;
            assert forall|d: int, k: int| 0 <= d < result.len() && 0 <= k < result[d]@.len() implies contains_id(
                nodes@,
                #[trigger] result[d]@[k],
            ) by {
                assert(result[d]@.contains(result[d]@[k]));
                let m = choose|m: int| 0 <= m < parts[d]@.len() && result[d]@[k] == nodes@[(#[trigger] parts[d]@[m]) as int].id;
                assert(members(parts).contains(parts[d]@[m])) by {
                    assert(parts[d]@.contains(parts[d]@[m]));
                }
                let q = choose|q: int| 0 <= q < members(parts).len() && members(parts)[q] == parts[d]@[m];
                assert(nodes@[parts[d]@[m] as int].id == result[d]@[k]);
            }
            assert forall|i: int| 0 <= i < nodes@.len() implies exists|d: int|
                0 <= d < result.len() && (#[trigger] result[d])@.contains(#[trigger] nodes@[i].id) by {
                assert(members(parts).contains(i as usize));
                let d = choose|d: int| 0 <= d < parts.len() && (#[trigger] parts[d])@.contains(i as usize);
                let m = choose|m: int| 0 <= m < parts[d]@.len() && parts[d]@[m] == i as usize;
                assert(result[d]@.contains(nodes@[i].id));
            }
            assert forall|d: int, e: int, x: DependencyNodeId|
                0 <= d < result.len() && 0 <= e < result.len() && d != e && #[trigger] result[d]@.contains(x)
                    implies !#[trigger] result[e]@.contains(x) by {
                if result[e]@.contains(x) {
                    let m = choose|m: int| 0 <= m < parts[d]@.len() && x == nodes@[(#[trigger] parts[d]@[m]) as int].id;
                    let q = choose|q: int| 0 <= q < parts[e]@.len() && x == nodes@[(#[trigger] parts[e]@[q]) as int].id;
                    assert(members(parts).contains(parts[d]@[m])) by {
                        assert(parts[d]@.contains(parts[d]@[m]));
                    }
                    assert(members(parts).contains(parts[e]@[q])) by {
                        assert(parts[e]@.contains(parts[e]@[q]));
                    }
                    let a = choose|a: int| 0 <= a < members(parts).len() && members(parts)[a] == parts[d]@[m];
                    let b = choose|b: int| 0 <= b < members(parts).len() && members(parts)[b] == parts[e]@[q];
                    assert(parts[d]@[m] == parts[e]@[q]);
                    assert(parts[d]@.contains(parts[d]@[m]));
                    assert(parts[e]@.contains(parts[d]@[m]));
                }
            }
            let graph_nodes = self.node_seq();
            let graph_edges = self.edge_seq();
            assert forall|c: int, a: int, b: int|
                0 <= c < result.len() && 0 <= a < graph_nodes.len() && 0 <= b < graph_nodes.len()
                    && #[trigger] result[c]@.contains(graph_nodes[a].id) && #[trigger] depends_on(
                    graph_nodes,
                    graph_edges,
                    a,
                    b,
                ) implies exists|d: int| 0 <= d <= c && #[trigger] result[d]@.contains(graph_nodes[b].id) by {
                let m = choose|m: int| 0 <= m < parts[c]@.len() && graph_nodes[a].id == nodes@[(#[trigger] parts[c]@[m]) as int].id;
                assert(members(parts).contains(parts[c]@[m])) by {
                    assert(parts[c]@.contains(parts[c]@[m]));
                }
                let q = choose|q: int| 0 <= q < members(parts).len() && members(parts)[q] == parts[c]@[m];
                assert(parts[c]@[m] as int == a);
                assert(adjacency@[a]@.contains(b as usize));
                assert(tarjan.succ(parts[c]@[m] as int, b as usize));
                assert(tarjan.placed_by(c, b as usize));
                let d = choose|d: int| 0 <= d <= c && (#[trigger] parts[d])@.contains(b as usize);
                let k = choose|k: int| 0 <= k < parts[d]@.len() && parts[d]@[k] == b as usize;
                assert(result[d]@.contains(graph_nodes[b].id));
            }
        }
        components
    }
}


/// The edges (in order) whose both ends are among `members`.
pub open spec fn edges_within(edges: Seq<DependencyEdge>, members: Seq<DependencyNodeId>) -> Seq<DependencyEdge>
    decreases edges.len(),
{
    if edges.len() == 0 {
        Seq::empty()
    } else {
        let rest = edges_within(edges.drop_last(), members);
        if members.contains(edges.last().source) && members.contains(edges.last().target) {
            rest.push(edges.last())
        } else {
            rest
        }
    }
}

/// An edge is among the edges within `members` exactly when both its ends
/// are members.
proof fn lemma_edges_within(edges: Seq<DependencyEdge>, members: Seq<DependencyNodeId>)
    ensures
        forall|k: int|
            0 <= k < edges_within(edges, members).len() ==> members.contains(
                (#[trigger] edges_within(edges, members)[k]).source,
            ) && members.contains(edges_within(edges, members)[k].target),
        forall|e: int|
            0 <= e < edges.len() && members.contains((#[trigger] edges[e]).source) && members.contains(edges[e].target)
                ==> edges_within(edges, members).contains(edges[e]),
    decreases edges.len(),
{
    if edges.len() > 0 {
        let rest = edges.drop_last();
        lemma_edges_within(rest, members);
        let within = edges_within(edges, members);
        let before = edges_within(rest, members);
        assert forall|k: int| 0 <= k < within.len() implies members.contains((#[trigger] within[k]).source)
            && members.contains(within[k].target) by {
            if k < before.len() {
                assert(within[k] == before[k]);
            }
        }
        assert forall|e: int|
            0 <= e < edges.len() && members.contains((#[trigger] edges[e]).source) && members.contains(edges[e].target)
                implies within.contains(edges[e]) by {
            if e < edges.len() - 1 {
                assert(rest[e] == edges[e]);
                assert(before.contains(edges[e]));
                let k = choose|k: int| 0 <= k < before.len() && before[k] == edges[e];
                assert(within[k] == before[k]);
            } else {
                assert(within[within.len() - 1] == edges[e]);
            }
        }
    }
}

/// Node `i` lies on a cycle: a path of at least one dependency leads from
/// it back to it.
pub open spec fn on_cycle(nodes: Seq<DependencyNode>, edges: Seq<DependencyEdge>, i: int) -> bool {
    exists|path: Seq<int>|
        #[trigger] is_dependency_path(nodes, edges, path) && path.len() > 1 && path[0] == i && path.last() == i
}

/// The reported cycles hold exactly the nodes that lie on a cycle, the
/// nodes of each reach each other, and each holds every node that reaches
/// its nodes and is reached by them: a cycle is a whole strongly connected
/// component.
pub open spec fn cycles_exact(nodes: Seq<DependencyNode>, edges: Seq<DependencyEdge>, cycles: Seq<DependencyCycle>) -> bool {
    &&& forall|i: int|
        0 <= i < nodes.len() ==> (on_cycle(nodes, edges, i) <==> exists|k: int|
            0 <= k < cycles.len() && #[trigger] cycles[k].nodes@.contains(nodes[i].id))
    &&& forall|k: int, a: int, b: int|
        0 <= k < cycles.len() && 0 <= a < nodes.len() && 0 <= b < nodes.len() && #[trigger] cycles[k].nodes@.contains(
            nodes[a].id,
        ) && #[trigger] cycles[k].nodes@.contains(nodes[b].id) ==> reaches(nodes, edges, a, b)
    &&& forall|k: int, a: int, b: int|
        0 <= k < cycles.len() && 0 <= a < nodes.len() && 0 <= b < nodes.len() && #[trigger] cycles[k].nodes@.contains(
            nodes[a].id,
        ) && reaches(nodes, edges, a, b) && #[trigger] reaches(nodes, edges, b, a) ==> cycles[k].nodes@.contains(
            nodes[b].id,
        )
}

/// Two increasing id sequences with the same members are equal.
proof fn lemma_increasing_same_members(s: Seq<DependencyNodeId>, t: Seq<DependencyNodeId>)
    requires
        ids_increasing(s),
        ids_increasing(t),
        forall|x: DependencyNodeId| s.contains(x) <==> t.contains(x),
    ensures
        s == t,
    decreases s.len(),
{
    if s.len() == 0 {
        if t.len() > 0 {
            assert(t.contains(t[0]));
        }
        assert(s =~= t);
    } else {
        assert(s.contains(s[0]));
        let j = choose|j: int| 0 <= j < t.len() && t[j] == s[0];
        assert(t.contains(t[0]));
        let i = choose|i: int| 0 <= i < s.len() && s[i] == t[0];
        crate::graph::lemma_node_key_injective(s[0], t[0]);
        if s[0] != t[0] {
            assert(i > 0 && j > 0);
            assert(node_id_lt(s[0], s[i]));
            assert(node_id_lt(t[0], t[j]));
        }
        let s1 = s.drop_first();
        let t1 = t.drop_first();
        assert forall|x: DependencyNodeId| s1.contains(x) <==> t1.contains(x) by {
            if s1.contains(x) {
                let k = choose|k: int| 0 <= k < s1.len() && s1[k] == x;
                assert(s[k + 1] == x);
                assert(node_id_lt(s[0], s[k + 1]));
                crate::graph::lemma_node_key_injective(s[0], x);
                assert(s.contains(x));
                let m = choose|m: int| 0 <= m < t.len() && t[m] == x;
                assert(m != 0);
                assert(t1[m - 1] == x);
            }
            if t1.contains(x) {
                let k = choose|k: int| 0 <= k < t1.len() && t1[k] == x;
                assert(t[k + 1] == x);
                assert(node_id_lt(t[0], t[k + 1]));
                crate::graph::lemma_node_key_injective(t[0], x);
                assert(t.contains(x));
                let m = choose|m: int| 0 <= m < s.len() && s[m] == x;
                assert(m != 0);
                assert(s1[m - 1] == x);
            }
        }
        assert forall|a: int, b: int| 0 <= a < b < s1.len() implies node_id_lt(#[trigger] s1[a], #[trigger] s1[b]) by {
            assert(s1[a] == s[a + 1] && s1[b] == s[b + 1]);
        }
        assert forall|a: int, b: int| 0 <= a < b < t1.len() implies node_id_lt(#[trigger] t1[a], #[trigger] t1[b]) by {
            assert(t1[a] == t[a + 1] && t1[b] == t[b + 1]);
        }
        lemma_increasing_same_members(s1, t1);
        assert(s =~= t) by {
            assert forall|k: int| 0 <= k < s.len() implies s[k] == t[k] by {
                if k > 0 {
                    assert(s[k] == s1[k - 1] && t[k] == t1[k - 1]);
                }
            }
        }
    }
}

/// A cycle of one exact list has the same nodes as some cycle of another.
proof fn lemma_cycle_matched(
    nodes: Seq<DependencyNode>,
    edges: Seq<DependencyEdge>,
    first: Seq<DependencyCycle>,
    second: Seq<DependencyCycle>,
    k: int,
) -> (m: int)
    requires
        cycles_ok(nodes, edges, first),
        cycles_exact(nodes, edges, first),
        cycles_ok(nodes, edges, second),
        cycles_exact(nodes, edges, second),
        0 <= k < first.len(),
    ensures
        0 <= m < second.len(),
        second[m].nodes@ == first[k].nodes@,
{
    let cycle = first[k];
    assert(cycle_ok(nodes, edges, cycle));
    let x = cycle.nodes@[0];
    assert(contains_id(nodes, x));
    let a = choose|a: int| 0 <= a < nodes.len() && #[trigger] nodes[a].id == x;
    assert(first[k].nodes@.contains(nodes[a].id));
    assert(on_cycle(nodes, edges, a));
    let m = choose|m: int| 0 <= m < second.len() && #[trigger] second[m].nodes@.contains(nodes[a].id);
    assert(cycle_ok(nodes, edges, second[m]));
    assert forall|y: DependencyNodeId| first[k].nodes@.contains(y) <==> second[m].nodes@.contains(y) by {
        if first[k].nodes@.contains(y) {
            let q = choose|q: int| 0 <= q < first[k].nodes@.len() && first[k].nodes@[q] == y;
            assert(contains_id(nodes, first[k].nodes@[q]));
            let b = choose|b: int| 0 <= b < nodes.len() && #[trigger] nodes[b].id == y;
            assert(first[k].nodes@.contains(nodes[b].id));
            assert(reaches(nodes, edges, a, b));
            assert(reaches(nodes, edges, b, a));
            assert(second[m].nodes@.contains(nodes[b].id));
        }
        if second[m].nodes@.contains(y) {
            let q = choose|q: int| 0 <= q < second[m].nodes@.len() && second[m].nodes@[q] == y;
            assert(contains_id(nodes, second[m].nodes@[q]));
            let b = choose|b: int| 0 <= b < nodes.len() && #[trigger] nodes[b].id == y;
            assert(second[m].nodes@.contains(nodes[b].id));
            assert(reaches(nodes, edges, a, b));
            assert(reaches(nodes, edges, b, a));
            assert(first[k].nodes@.contains(nodes[b].id));
        }
    }
    lemma_increasing_same_members(second[m].nodes@, first[k].nodes@);
    m
}

/// The first node of each cycle of a list, in order.
pub open spec fn first_nodes(cycles: Seq<DependencyCycle>) -> Seq<DependencyNodeId> {
    Seq::new(cycles.len(), |k: int| cycles[k].nodes@[0])
}

/// Cycles are determined by the graph: two lists that each meet the
/// contract of [`DependencyGraph::cycles`] hold the same cycles in the same
/// order, so the cycles an evaluation order reports are those of
/// [`DependencyGraph::cycles`].
pub proof fn lemma_cycle_lists_equal(
    nodes: Seq<DependencyNode>,
    edges: Seq<DependencyEdge>,
    first: Seq<DependencyCycle>,
    second: Seq<DependencyCycle>,
)
    requires
        cycles_ok(nodes, edges, first),
        cycles_exact(nodes, edges, first),
        cycles_ok(nodes, edges, second),
        cycles_exact(nodes, edges, second),
    ensures
        first.len() == second.len(),
        forall|k: int|
            0 <= k < first.len() ==> (#[trigger] first[k]).nodes@ == second[k].nodes@ && first[k].edges@
                == second[k].edges@,
{
    let f1 = first_nodes(first);
    let f2 = first_nodes(second);
    assert forall|a: int, b: int| 0 <= a < b < f1.len() implies node_id_lt(#[trigger] f1[a], #[trigger] f1[b]) by {
        assert(node_id_lt(first[a].nodes@[0], first[b].nodes@[0]));
    }
    assert forall|a: int, b: int| 0 <= a < b < f2.len() implies node_id_lt(#[trigger] f2[a], #[trigger] f2[b]) by {
        assert(node_id_lt(second[a].nodes@[0], second[b].nodes@[0]));
    }
    assert forall|x: DependencyNodeId| f1.contains(x) <==> f2.contains(x) by {
        if f1.contains(x) {
            let k = choose|k: int| 0 <= k < f1.len() && f1[k] == x;
            let m = lemma_cycle_matched(nodes, edges, first, second, k);
            assert(f2[m] == x);
        }
        if f2.contains(x) {
            let k = choose|k: int| 0 <= k < f2.len() && f2[k] == x;
            let m = lemma_cycle_matched(nodes, edges, second, first, k);
            assert(f1[m] == x);
        }
    }
    lemma_increasing_same_members(f1, f2);
    assert forall|k: int| 0 <= k < first.len() implies (#[trigger] first[k]).nodes@ == second[k].nodes@
        && first[k].edges@ == second[k].edges@ by {
        let m = lemma_cycle_matched(nodes, edges, first, second, k);
        assert(f2[m] == f1[k]);
        assert(f2[k] == f1[k]);
        if m != k {
            if m < k {
                assert(node_id_lt(f2[m], f2[k]));
            } else {
                assert(node_id_lt(f2[k], f2[m]));
            }
            crate::graph::lemma_node_key_injective(f2[k], f2[k]);
        }
        assert(cycle_ok(nodes, edges, first[k]));
        assert(cycle_ok(nodes, edges, second[k]));
    }
}

/// Two distinct nodes that reach each other lie on a cycle.
proof fn lemma_on_cycle_through(nodes: Seq<DependencyNode>, edges: Seq<DependencyEdge>, i: int, j: int)
    requires
        reaches(nodes, edges, i, j),
        reaches(nodes, edges, j, i),
        i != j,
    ensures
        on_cycle(nodes, edges, i),
{
    let first = choose|path: Seq<int>| #[trigger] is_dependency_path(nodes, edges, path) && path[0] == i && path.last() == j;
    let second = choose|path: Seq<int>| #[trigger] is_dependency_path(nodes, edges, path) && path[0] == j && path.last() == i;
    let path = first + second.subrange(1, second.len() as int);
    assert(first.len() > 1);
    assert forall|m: int| 0 <= m < path.len() implies 0 <= #[trigger] path[m] < nodes.len() by {
        if m < first.len() {
            assert(path[m] == first[m]);
        } else {
            assert(path[m] == second[m - first.len() + 1]);
        }
    }
    assert forall|m: int| 0 <= m < path.len() - 1 implies #[trigger] path_link(nodes, edges, path, m) by {
        if m < first.len() - 1 {
            assert(path_link(nodes, edges, first, m));
            assert(path[m] == first[m] && path[m + 1] == first[m + 1]);
        } else if m == first.len() - 1 {
            assert(path_link(nodes, edges, second, 0));
            assert(path[m] == first[m] && path[m + 1] == second[1]);
        } else {
            let t = m - first.len() + 1;
            assert(path_link(nodes, edges, second, t));
            assert(path[m] == second[t] && path[m + 1] == second[t + 1]);
        }
    }
    assert(is_dependency_path(nodes, edges, path));
    assert(second.len() > 1);
    assert(path.last() == second.last());
    assert(path[0] == i);
}

/// A component is reported as a cycle: it has more than one node or an
/// edge from its node to itself.
pub open spec fn is_cyclic(edges: Seq<DependencyEdge>, component: Seq<DependencyNodeId>) -> bool {
    component.len() > 1 || exists|k: int|
        0 <= k < edges_within(edges, component).len() && (#[trigger] edges_within(edges, component)[k]).source
            == edges_within(edges, component)[k].target
}

/// Where the components are the strongly connected ones, the nodes of
/// the cyclic components are exactly those that lie on a cycle.
proof fn lemma_cycles_exact(
    nodes: Seq<DependencyNode>,
    edges: Seq<DependencyEdge>,
    components: Seq<Vec<DependencyNodeId>>,
    cycles: Seq<DependencyCycle>,
    sources: Seq<int>,
)
    requires
        ids_distinct(nodes),
        partitions_nodes(nodes, components),
        components_connected(nodes, edges, components),
        dependencies_first(nodes, edges, components),
        sources.len() == cycles.len(),
        forall|k: int| 0 <= k < sources.len() ==> 0 <= #[trigger] sources[k] < components.len(),
        forall|k: int| 0 <= k < cycles.len() ==> (#[trigger] cycles[k]).nodes@ == components[sources[k]]@,
        forall|k: int| 0 <= k < cycles.len() ==> is_cyclic(edges, (#[trigger] cycles[k]).nodes@),
        forall|d: int|
            0 <= d < components.len() && is_cyclic(edges, (#[trigger] components[d])@) ==> exists|k: int|
                0 <= k < sources.len() && #[trigger] sources[k] == d,
    ensures
        cycles_exact(nodes, edges, cycles),
{
    assert forall|k: int, a: int, b: int|
        0 <= k < cycles.len() && 0 <= a < nodes.len() && 0 <= b < nodes.len() && #[trigger] cycles[k].nodes@.contains(
            nodes[a].id,
        ) && reaches(nodes, edges, a, b) && #[trigger] reaches(nodes, edges, b, a) implies cycles[k].nodes@.contains(
            nodes[b].id,
        ) by {
        lemma_components_maximal(nodes, edges, components, a, b);
        assert(components[sources[k]]@.contains(nodes[a].id));
    }
    assert forall|i: int| 0 <= i < nodes.len() implies (on_cycle(nodes, edges, i) <==> exists|k: int|
        0 <= k < cycles.len() && #[trigger] cycles[k].nodes@.contains(nodes[i].id)) by {
        let c = choose|c: int| 0 <= c < components.len() && (#[trigger] components[c])@.contains(nodes[i].id);
        let comp = components[c]@;
        if on_cycle(nodes, edges, i) {
            let path = choose|path: Seq<int>|
                #[trigger] is_dependency_path(nodes, edges, path) && path.len() > 1 && path[0] == i && path.last() == i;
            let u = path[1];
            assert(path_link(nodes, edges, path, 0));
            assert(0 <= u < nodes.len());
            lemma_reaches_step(nodes, edges, i, u);
            let rest = path.subrange(1, path.len() as int);
            assert forall|k: int| 0 <= k < rest.len() - 1 implies #[trigger] path_link(nodes, edges, rest, k) by {
                assert(path_link(nodes, edges, path, k + 1));
                assert(rest[k] == path[k + 1] && rest[k + 1] == path[k + 2]);
            }
            assert forall|k: int| 0 <= k < rest.len() implies 0 <= #[trigger] rest[k] < nodes.len() by {
                assert(rest[k] == path[k + 1]);
            }
            assert(is_dependency_path(nodes, edges, rest));
            assert(rest.last() == i);
            lemma_components_maximal(nodes, edges, components, i, u);
            assert(comp.contains(nodes[u].id));
            if u != i {
                assert(nodes[u].id != nodes[i].id);
                assert(comp.len() > 1) by {
                    if comp.len() <= 1 {
                        let a = choose|a: int| 0 <= a < comp.len() && comp[a] == nodes[u].id;
                        let b = choose|b: int| 0 <= b < comp.len() && comp[b] == nodes[i].id;
                    }
                }
            } else {
                let e = choose|e: int|
                    0 <= e < edges.len() && (#[trigger] edges[e]).source == nodes[i].id && edges[e].target == nodes[i].id;
                lemma_edges_within(edges, comp);
                assert(edges_within(edges, comp).contains(edges[e]));
                let k = choose|k: int| 0 <= k < edges_within(edges, comp).len() && edges_within(edges, comp)[k] == edges[e];
                assert((edges_within(edges, comp)[k]).source == edges_within(edges, comp)[k].target);
            }
            assert(is_cyclic(edges, components[c]@));
            let k = choose|k: int| 0 <= k < sources.len() && #[trigger] sources[k] == c;
            assert(cycles[k].nodes@.contains(nodes[i].id));
        }
        if exists|k: int| 0 <= k < cycles.len() && #[trigger] cycles[k].nodes@.contains(nodes[i].id) {
            let k = choose|k: int| 0 <= k < cycles.len() && #[trigger] cycles[k].nodes@.contains(nodes[i].id);
            let d = sources[k];
            let members = components[d]@;
            assert(is_cyclic(edges, cycles[k].nodes@));
            if members.len() > 1 {
                let other = if members[0] != nodes[i].id {
                    members[0]
                } else {
                    members[1]
                };
                assert(members[0] != members[1]) by {
                    assert(node_id_lt(members[0], members[1]));
                    crate::graph::lemma_node_key_injective(members[0], members[1]);
                }
                assert(members.contains(other));
                assert(contains_id(nodes, other));
                let j = choose|j: int| 0 <= j < nodes.len() && #[trigger] nodes[j].id == other;
                assert(components[d]@.contains(nodes[j].id));
                assert(reaches(nodes, edges, i, j));
                assert(reaches(nodes, edges, j, i));
                lemma_on_cycle_through(nodes, edges, i, j);
            } else {
                let within = edges_within(edges, members);
                let m = choose|m: int| 0 <= m < within.len() && (#[trigger] within[m]).source == within[m].target;
                lemma_edges_within(edges, members);
                assert(members.contains(within[m].source));
                assert(members[0] == nodes[i].id);
                assert(within[m].source == nodes[i].id);
                assert(within.contains(within[m]));
                assert(exists|e: int| 0 <= e < edges.len() && edges[e] == within[m]) by {
                    lemma_edges_within_from(edges, members, m);
                }
                let e = choose|e: int| 0 <= e < edges.len() && edges[e] == within[m];
                assert(depends_on(nodes, edges, i, i));
                let path = seq![i, i];
                assert(path_link(nodes, edges, path, 0));
                assert(is_dependency_path(nodes, edges, path));
            }
        }
    }
}

/// Each edge within `members` is one of `edges`.
proof fn lemma_edges_within_from(edges: Seq<DependencyEdge>, members: Seq<DependencyNodeId>, m: int)
    requires
        0 <= m < edges_within(edges, members).len(),
    ensures
        exists|e: int| 0 <= e < edges.len() && edges[e] == edges_within(edges, members)[m],
    decreases edges.len(),
{
    let rest = edges.drop_last();
    let before = edges_within(rest, members);
    if m < before.len() {
        lemma_edges_within_from(rest, members, m);
        let e = choose|e: int| 0 <= e < rest.len() && rest[e] == before[m];
        assert(edges[e] == rest[e]);
    } else {
        assert(edges[edges.len() - 1] == edges_within(edges, members)[m]);
    }
}

/// A reported cycle: the increasing ids of graph nodes, the edges among
/// them, and more than one node or an edge from the node to itself.
pub open spec fn cycle_ok(nodes: Seq<DependencyNode>, edges: Seq<DependencyEdge>, cycle: DependencyCycle) -> bool {
    &&& cycle.nodes@.len() > 0
    &&& ids_increasing(cycle.nodes@)
    &&& forall|k: int| 0 <= k < cycle.nodes@.len() ==> contains_id(nodes, #[trigger] cycle.nodes@[k])
    &&& cycle.edges@ == edges_within(edges, cycle.nodes@)
    &&& (cycle.nodes@.len() > 1 || exists|k: int|
        0 <= k < cycle.edges@.len() && (#[trigger] cycle.edges@[k]).source == cycle.edges@[k].target)
}

/// Reported cycles: each well formed, no node in two of them, ordered by
/// their first node.
pub open spec fn cycles_ok(nodes: Seq<DependencyNode>, edges: Seq<DependencyEdge>, cycles: Seq<DependencyCycle>) -> bool {
    &&& forall|c: int| 0 <= c < cycles.len() ==> cycle_ok(nodes, edges, #[trigger] cycles[c])
    &&& forall|c: int, d: int, x: DependencyNodeId|
        0 <= c < cycles.len() && 0 <= d < cycles.len() && c != d && #[trigger] cycles[c].nodes@.contains(x)
            ==> !#[trigger] cycles[d].nodes@.contains(x)
    &&& forall|c: int, d: int|
        0 <= c < d < cycles.len() ==> node_id_lt(#[trigger] cycles[c].nodes@[0], #[trigger] cycles[d].nodes@[0])
}

/// The error reports `cycle`.
pub open spec fn reports(error: DependencyGraphError, cycle: DependencyCycle) -> bool {
    &&& match error.kind {
        DependencyGraphErrorKind::Cycle { nodes } => nodes@ == cycle.nodes@,
    }
    &&& error.locations@.len() == cycle.edges@.len()
    &&& forall|k: int|
        0 <= k < cycle.edges@.len() ==> ((#[trigger] error.locations@[k]).module, error.locations@[k].span)
            == location_of(cycle.edges@[k])
}

fn contains_node(ids: &Vec<DependencyNodeId>, id: DependencyNodeId) -> (found: bool)
    ensures
        found == ids@.contains(id),
{
    let mut i: usize = 0;
    while i < ids.len()
        invariant
            i <= ids@.len(),
            forall|k: int| 0 <= k < i ==> ids@[k] != id,
        decreases ids@.len() - i,
    {
        if ids[i] == id {
            return true;
        }
        i = i + 1;
    }
    false
}

/// The cycle made of one component, if it is one.
fn cycle_of_component(edges: &[DependencyEdge], nodes: Vec<DependencyNodeId>) -> (cycle: Option<DependencyCycle>)
    ensures
        match cycle {
            Some(c) => c.nodes@ == nodes@ && c.edges@ == edges_within(edges@, nodes@) && (nodes@.len() > 1
                || exists|k: int|
                0 <= k < c.edges@.len() && (#[trigger] c.edges@[k]).source == c.edges@[k].target),
            None => nodes@.len() <= 1 && forall|k: int|
                0 <= k < edges_within(edges@, nodes@).len() ==> (#[trigger] edges_within(edges@, nodes@)[k]).source
                    != edges_within(edges@, nodes@)[k].target,
        },
{
    let mut within: Vec<DependencyEdge> = Vec::new();
    let mut self_loop = false;
    let mut e: usize = 0;
    while e < edges.len()
        invariant
            e <= edges@.len(),
            within@ == edges_within(edges@.take(e as int), nodes@),
            self_loop <==> exists|k: int| 0 <= k < within@.len() && (#[trigger] within@[k]).source == within@[k].target,
        decreases edges@.len() - e,
    {
        let edge = &edges[e];
        assert(edges@.take(e + 1).drop_last() =~= edges@.take(e as int));
        if contains_node(&nodes, edge.source) && contains_node(&nodes, edge.target) {
            let ghost before = within@;
            within.push(edge.duplicate());
            if edge.source == edge.target {
                self_loop = true;
                assert(within@[before.len() as int].source == within@[before.len() as int].target);
            }
            proof {
                if exists|k: int| 0 <= k < within@.len() && (#[trigger] within@[k]).source == within@[k].target {
                    let k = choose|k: int| 0 <= k < within@.len() && (#[trigger] within@[k]).source == within@[k].target;
                    if k < before.len() {
                        assert(before[k] == within@[k]);
                    }
                }
                if exists|k: int| 0 <= k < before.len() && (#[trigger] before[k]).source == before[k].target {
                    let k = choose|k: int| 0 <= k < before.len() && (#[trigger] before[k]).source == before[k].target;
                    assert(within@[k] == before[k]);
                }
            }
        }
        e = e + 1;
    }
    assert(edges@.take(edges@.len() as int) =~= edges@);
    if nodes.len() > 1 || self_loop {
        Some(DependencyCycle { nodes, edges: within })
    } else {
        None
    }
}

impl DependencyGraph {
    /// The cycles of the graph: its strongly connected components with
    /// more than one node or with an edge from their node to itself, each
    /// with the edges among its nodes, ordered by their first node.
    pub fn cycles(&self) -> (cycles: Vec<DependencyCycle>)
        requires
            self.wf(),
        ensures
            cycles_ok(self.node_seq(), self.edge_seq(), cycles@),
            cycles_exact(self.node_seq(), self.edge_seq(), cycles@),
    {
        proof {
            self.lemma_wf();
        }
        let components = self.strongly_connected_components();
        let edges = self.edges();
        let mut cycles: Vec<DependencyCycle> = Vec::new();
        let ghost mut sources: Seq<int> = Seq::empty();
        let mut c: usize = 0;
        while c < components.len()
            invariant
                edges@ == self.edge_seq(),
                partitions_nodes(self.node_seq(), components@),
                c <= components@.len(),
                sources.len() == cycles@.len(),
                forall|k: int| 0 <= k < sources.len() ==> 0 <= #[trigger] sources[k] < c,
                forall|k: int| 0 <= k < cycles@.len() ==> (#[trigger] cycles@[k]).nodes@ == components@[sources[k]]@,
                forall|a: int, b: int| 0 <= a < b < sources.len() ==> #[trigger] sources[a] != #[trigger] sources[b],
                cycles_ok(self.node_seq(), self.edge_seq(), cycles@),
                forall|k: int| 0 <= k < cycles@.len() ==> is_cyclic(edges@, (#[trigger] cycles@[k]).nodes@),
                forall|d: int|
                    0 <= d < c && is_cyclic(edges@, (#[trigger] components@[d])@) ==> exists|k: int|
                        0 <= k < sources.len() && #[trigger] sources[k] == d,
            decreases components@.len() - c,
        {
            let nodes = components[c].clone();
            proof {
                assert(nodes@ == components@[c as int]@) by {
                    assert forall|k: int| 0 <= k < nodes@.len() implies nodes@[k] == components@[c as int]@[k] by {}
                    assert(nodes@ =~= components@[c as int]@);
                }
            }
            match cycle_of_component(edges, nodes) {
                Some(cycle) => {
                    let first = cycle.nodes[0];
                    let mut p: usize = 0;
                    while p < cycles.len() && node_id_less(cycles[p].nodes[0], first)
                        invariant
                            p <= cycles@.len(),
                            forall|k: int| 0 <= k < cycles@.len() ==> (#[trigger] cycles@[k]).nodes@.len() > 0,
                            forall|k: int| 0 <= k < p ==> node_id_lt((#[trigger] cycles@[k]).nodes@[0], first),
                        decreases cycles@.len() - p,
                    {
                        p = p + 1;
                    }
                    let ghost before = cycles@;
                    let ghost before_sources = sources;
                    proof {
                        sources = sources.insert(p as int, c as int);
                        if p < before.len() {
                            let other = before[p as int].nodes@[0];
                            crate::graph::lemma_node_key_injective(other, first);
                            assert(other != first) by {
                                let d = before_sources[p as int];
                                assert(components@[d]@.contains(other));
                                assert(components@[c as int]@.contains(first));
                            }
                        }
                    }
                    cycles.insert(p, cycle);
                    proof {
                        let nodes_all = self.node_seq();
                        let edges_all = self.edge_seq();
                        assert forall|k: int| 0 <= k < cycles@.len() implies cycle_ok(nodes_all, edges_all, #[trigger] cycles@[k]) by {
                            if k < p {
                                assert(cycles@[k] == before[k]);
                            } else if k > p {
                                assert(cycles@[k] == before[k - 1]);
                            } else {
                                let comp = components@[c as int]@;
                                assert forall|m: int| 0 <= m < comp.len() implies contains_id(nodes_all, #[trigger] comp[m]) by {}
                            }
                        }
                        assert forall|k: int| 0 <= k < cycles@.len() implies (#[trigger] cycles@[k]).nodes@ == components@[sources[k]]@ by {
                            if k < p {
                                assert(cycles@[k] == before[k] && sources[k] == before_sources[k]);
                            } else if k > p {
                                assert(cycles@[k] == before[k - 1] && sources[k] == before_sources[k - 1]);
                            }
                        }
                        assert forall|a: int, b: int| 0 <= a < b < sources.len() implies #[trigger] sources[a] != #[trigger] sources[b] by {
                            if a < p && b < p {
                            } else if a < p && b == p {
                                assert(sources[a] == before_sources[a]);
                            } else if a < p {
                                assert(sources[a] == before_sources[a] && sources[b] == before_sources[b - 1]);
                            } else if a == p {
                                assert(sources[b] == before_sources[b - 1]);
                            } else {
                                assert(sources[a] == before_sources[a - 1] && sources[b] == before_sources[b - 1]);
                            }
                        }
                        assert forall|a: int, b: int, x: DependencyNodeId|
                            0 <= a < cycles@.len() && 0 <= b < cycles@.len() && a != b && #[trigger] cycles@[a].nodes@.contains(x)
                                implies !#[trigger] cycles@[b].nodes@.contains(x) by {
                            assert(sources[a] != sources[b]) by {
                                if a < b {
                                    assert(sources[a] != sources[b]);
                                } else {
                                    assert(sources[b] != sources[a]);
                                }
                            }
                            assert(components@[sources[a]]@.contains(x));
                        }
                        assert forall|a: int, b: int| 0 <= a < b < cycles@.len() implies node_id_lt(
                            #[trigger] cycles@[a].nodes@[0],
                            #[trigger] cycles@[b].nodes@[0],
                        ) by {
                            if b < p {
                                assert(cycles@[a] == before[a] && cycles@[b] == before[b]);
                            } else if a < p && b == p {
                                assert(cycles@[a] == before[a]);
                            } else if a < p {
                                assert(cycles@[a] == before[a] && cycles@[b] == before[b - 1]);
                                crate::graph::lemma_node_key_injective(before[a].nodes@[0], first);
                            } else if a == p {
                                assert(cycles@[b] == before[b - 1]);
                                if b - 1 > p {
                                    assert(node_id_lt(before[p as int].nodes@[0], before[b - 1].nodes@[0]));
                                }
                            } else {
                                assert(cycles@[a] == before[a - 1] && cycles@[b] == before[b - 1]);
                            }
                        }
                        assert forall|k: int| 0 <= k < cycles@.len() implies is_cyclic(
                            edges@,
                            (#[trigger] cycles@[k]).nodes@,
                        ) by {
                            if k < p {
                                assert(cycles@[k] == before[k]);
                            } else if k > p {
                                assert(cycles@[k] == before[k - 1]);
                            }
                        }
                        assert forall|d: int|
                            0 <= d < c + 1 && is_cyclic(edges@, (#[trigger] components@[d])@) implies exists|k: int|
                                0 <= k < sources.len() && #[trigger] sources[k] == d by {
                            if d < c {
                                let k = choose|k: int| 0 <= k < before_sources.len() && #[trigger] before_sources[k] == d;
                                if k < p {
                                    assert(sources[k] == d);
                                } else {
                                    assert(sources[k + 1] == d);
                                }
                            } else {
                                assert(sources[p as int] == d);
                            }
                        }
                    }
                },
                None => {},
            }
            c = c + 1;
        }
        proof {
            lemma_cycles_exact(self.node_seq(), self.edge_seq(), components@, cycles@, sources);
        }
        cycles
    }

    /// One error per cycle, in the order of [`DependencyGraph::cycles`].
    pub fn errors(&self) -> (errors: Vec<DependencyGraphError>)
        requires
            self.wf(),
        ensures
            exists|cycles: Seq<DependencyCycle>|
                cycles_ok(self.node_seq(), self.edge_seq(), cycles) && cycles_exact(self.node_seq(), self.edge_seq(), cycles)
                    && errors@.len() == cycles.len() && forall|k: int| 0 <= k < cycles.len() ==> reports(
                    #[trigger] errors@[k],
                    cycles[k],
                ),
    {
        let cycles = self.cycles();
        let mut errors: Vec<DependencyGraphError> = Vec::new();
        let mut k: usize = 0;
        while k < cycles.len()
            invariant
                k <= cycles@.len(),
                errors@.len() == k,
                forall|m: int| 0 <= m < k ==> reports(#[trigger] errors@[m], cycles@[m]),
            decreases cycles@.len() - k,
        {
            errors.push(DependencyGraphError::from(&cycles[k]));
            k = k + 1;
        }
        errors
    }
}


/// Some nodes can never be evaluated: each node of a non-empty set depends
/// on a node of the set (the graph has a cycle).
pub open spec fn has_cycle(nodes: Seq<DependencyNode>, edges: Seq<DependencyEdge>) -> bool {
    exists|blocked: Seq<int>| #[trigger] blocks(nodes, edges, blocked)
}

/// `blocked` is a non-empty set of node positions each of which depends on
/// one of them.
#[verifier::opaque]
pub open spec fn blocks(nodes: Seq<DependencyNode>, edges: Seq<DependencyEdge>, blocked: Seq<int>) -> bool {
    &&& blocked.len() > 0
    &&& forall|k: int| 0 <= k < blocked.len() ==> 0 <= #[trigger] blocked[k] < nodes.len()
    &&& forall|k: int| 0 <= k < blocked.len() ==> #[trigger] depends_within(nodes, edges, blocked, k)
}

/// The node at position `k` of `blocked` depends on a node of `blocked`.
pub open spec fn depends_within(nodes: Seq<DependencyNode>, edges: Seq<DependencyEdge>, blocked: Seq<int>, k: int) -> bool {
    exists|m: int| 0 <= m < blocked.len() && depends_on(nodes, edges, blocked[k], #[trigger] blocked[m])
}

/// Node `i` can be evaluated after the nodes of `done`: it is not among
/// them and every node it depends on is.
pub open spec fn ready(nodes: Seq<DependencyNode>, edges: Seq<DependencyEdge>, done: Seq<DependencyNodeId>, i: int) -> bool {
    &&& !done.contains(nodes[i].id)
    &&& forall|j: int| 0 <= j < nodes.len() && depends_on(nodes, edges, i, j) ==> done.contains(#[trigger] nodes[j].id)
}

/// The node evaluated at step `a` is ready then.
#[verifier::opaque]
pub open spec fn evaluated_when_ready(
    nodes: Seq<DependencyNode>,
    edges: Seq<DependencyEdge>,
    order: Seq<DependencyNodeId>,
    a: int,
) -> bool {
    exists|i: int| 0 <= i < nodes.len() && #[trigger] nodes[i].id == order[a] && ready(nodes, edges, order.take(a), i)
}

/// `order` evaluates every node once, each after all it depends on, and at
/// each step the ready node with the least id.
pub open spec fn evaluation_order_of(nodes: Seq<DependencyNode>, edges: Seq<DependencyEdge>, order: Seq<DependencyNodeId>) -> bool {
    &&& order.len() == nodes.len()
    &&& order.no_duplicates()
    &&& forall|i: int| 0 <= i < nodes.len() ==> order.contains(#[trigger] nodes[i].id)
    &&& forall|a: int| 0 <= a < order.len() ==> #[trigger] evaluated_when_ready(nodes, edges, order, a)
    &&& forall|a: int, i: int|
        0 <= a < order.len() && 0 <= i < nodes.len() && ready(nodes, edges, order.take(a), i) ==> #[trigger] order[a]
            == #[trigger] nodes[i].id || node_id_lt(order[a], nodes[i].id)
}

/// Whether every node that node `i` depends on is done.
fn dependencies_done(adjacency: &Vec<usize>, done: &Vec<bool>) -> (all: bool)
    requires
        forall|k: int| 0 <= k < adjacency@.len() ==> (#[trigger] adjacency@[k]) < done@.len(),
    ensures
        all == forall|k: int| 0 <= k < adjacency@.len() ==> done@[(#[trigger] adjacency@[k]) as int],
{
    let mut k: usize = 0;
    while k < adjacency.len()
        invariant
            k <= adjacency@.len(),
            forall|m: int| 0 <= m < adjacency@.len() ==> (#[trigger] adjacency@[m]) < done@.len(),
            forall|m: int| 0 <= m < k ==> done@[(#[trigger] adjacency@[m]) as int],
        decreases adjacency@.len() - k,
    {
        if !done[adjacency[k]] {
            return false;
        }
        k = k + 1;
    }
    true
}

/// The number of entries set.
pub open spec fn count_true(flags: Seq<bool>) -> nat
    decreases flags.len(),
{
    if flags.len() == 0 {
        0
    } else {
        count_true(flags.drop_last()) + if flags.last() {
            1nat
        } else {
            0nat
        }
    }
}

proof fn lemma_count_true(flags: Seq<bool>, i: int)
    requires
        0 <= i < flags.len(),
        !flags[i],
    ensures
        count_true(flags.update(i, true)) == count_true(flags) + 1,
        count_true(flags) < flags.len(),
    decreases flags.len(),
{
    if i < flags.len() - 1 {
        lemma_count_true(flags.drop_last(), i);
        assert(flags.update(i, true).drop_last() =~= flags.drop_last().update(i, true));
    } else {
        assert(flags.update(i, true).drop_last() =~= flags.drop_last());
        lemma_count_true_bound(flags.drop_last());
    }
}

proof fn lemma_count_true_bound(flags: Seq<bool>)
    ensures
        count_true(flags) <= flags.len(),
    decreases flags.len(),
{
    if flags.len() > 0 {
        lemma_count_true_bound(flags.drop_last());
    }
}

impl DependencyGraph {
    /// Returns dependencies before the nodes that use them: at each step the
    /// node with the least id among those whose dependencies are all
    /// evaluated.  When some nodes can never be evaluated, the graph's
    /// cycles are reported instead: by [`lemma_cycle_lists_equal`], the
    /// same list that [`DependencyGraph::cycles`] gives.
    pub fn evaluation_order(&self) -> (result: Result<Vec<DependencyNodeId>, EvaluationOrderError>)
        requires
            self.wf(),
        ensures
            result is Ok <==> !has_cycle(self.node_seq(), self.edge_seq()),
            match result {
                Ok(order) => evaluation_order_of(self.node_seq(), self.edge_seq(), order@),
                Err(error) => cycles_ok(self.node_seq(), self.edge_seq(), error.cycles@) && cycles_exact(
                    self.node_seq(),
                    self.edge_seq(),
                    error.cycles@,
                ),
            },
    {
        proof {
            self.lemma_wf();
        }
        let ghost nodes_spec = self.node_seq();
        let ghost edges_spec = self.edge_seq();
        let adjacency = self.adjacency();
        let nodes = self.nodes();
        let n = nodes.len();
        let mut done: Vec<bool> = Vec::new();
        let mut i: usize = 0;
        while i < n
            invariant
                i <= n,
                done@.len() == i,
                forall|k: int| 0 <= k < i ==> !(#[trigger] done@[k]),
                count_true(done@) == 0,
            decreases n - i,
        {
            proof {
                assert(done@.push(false).drop_last() =~= done@);
            }
            done.push(false);
            i = i + 1;
        }
        let mut order: Vec<DependencyNodeId> = Vec::new();
        let ghost mut positions: Seq<int> = Seq::empty();
        loop
            invariant
                n == nodes@.len(),
                nodes@ == nodes_spec,
                nodes_spec == self.node_seq(),
                edges_spec == self.edge_seq(),
                ids_distinct(nodes_spec),
                adjacency_of(nodes_spec, edges_spec, adjacency@),
                done@.len() == n,
                count_true(done@) == order@.len(),
                order@.no_duplicates(),
                positions.len() == order@.len(),
                forall|k: int| 0 <= k < n ==> (#[trigger] done@[k] <==> order@.contains(nodes_spec[k].id)),
                forall|a: int|
                    0 <= a < order@.len() ==> 0 <= #[trigger] positions[a] < n && nodes_spec[positions[a]].id
                        == order@[a] && ready(nodes_spec, edges_spec, order@.take(a), positions[a]),
                forall|a: int, k: int|
                    0 <= a < order@.len() && 0 <= k < n && ready(nodes_spec, edges_spec, order@.take(a), k) ==> #[trigger] order@[a]
                        == #[trigger] nodes_spec[k].id || node_id_lt(order@[a], nodes_spec[k].id),
            ensures
                n == nodes@.len(),
                done@.len() == n,
                count_true(done@) == order@.len(),
                order@.no_duplicates(),
                positions.len() == order@.len(),
                forall|k: int| 0 <= k < n ==> (#[trigger] done@[k] <==> order@.contains(nodes_spec[k].id)),
                forall|a: int|
                    0 <= a < order@.len() ==> 0 <= #[trigger] positions[a] < n && nodes_spec[positions[a]].id
                        == order@[a] && ready(nodes_spec, edges_spec, order@.take(a), positions[a]),
                forall|a: int, k: int|
                    0 <= a < order@.len() && 0 <= k < n && ready(nodes_spec, edges_spec, order@.take(a), k) ==> #[trigger] order@[a]
                        == #[trigger] nodes_spec[k].id || node_id_lt(order@[a], nodes_spec[k].id),
                forall|k: int| 0 <= k < n && !(#[trigger] done@[k]) ==> !ready(nodes_spec, edges_spec, order@, k),
            decreases n - count_true(done@),
        {
            let mut best: Option<usize> = None;
            let mut k: usize = 0;
            while k < n
                invariant
                    n == nodes@.len(),
                    nodes@ == nodes_spec,
                    ids_distinct(nodes_spec),
                    adjacency_of(nodes_spec, edges_spec, adjacency@),
                    done@.len() == n,
                    forall|m: int| 0 <= m < n ==> (#[trigger] done@[m] <==> order@.contains(nodes_spec[m].id)),
                    k <= n,
                    match best {
                        Some(b) => b < k && ready(nodes_spec, edges_spec, order@, b as int) && forall|m: int|
                            0 <= m < k && ready(nodes_spec, edges_spec, order@, m) ==> m == b || node_id_lt(
                                nodes_spec[b as int].id,
                                #[trigger] nodes_spec[m].id,
                            ),
                        None => forall|m: int| 0 <= m < k ==> !ready(nodes_spec, edges_spec, order@, m),
                    },
                decreases n - k,
            {
                proof {
                    assert forall|m: int| 0 <= m < adjacency@[k as int]@.len() implies (#[trigger] adjacency@[k as int]@[m]) < done@.len() by {}
                }
                let all_done = dependencies_done(&adjacency[k], &done);
                let is_ready = !done[k] && all_done;
                proof {
                    assert(is_ready == ready(nodes_spec, edges_spec, order@, k as int)) by {
                        if is_ready {
                            assert forall|j: int| 0 <= j < nodes_spec.len() && depends_on(nodes_spec, edges_spec, k as int, j)
                                implies order@.contains(#[trigger] nodes_spec[j].id) by {
                                assert(adjacency@[k as int]@.contains(j as usize));
                                let m = choose|m: int| 0 <= m < adjacency@[k as int]@.len() && adjacency@[k as int]@[m] == j as usize;
                                assert(done@[adjacency@[k as int]@[m] as int]);
                            }
                        }
                        if ready(nodes_spec, edges_spec, order@, k as int) {
                            assert forall|m: int| 0 <= m < adjacency@[k as int]@.len() implies done@[(#[trigger] adjacency@[k as int]@[m]) as int] by {
                                let j = adjacency@[k as int]@[m] as int;
                                assert(adjacency@[k as int]@.contains(j as usize));
                                assert(depends_on(nodes_spec, edges_spec, k as int, j));
                                assert(order@.contains(nodes_spec[j].id));
                            }
                        }
                    }
                }
                if is_ready {
                    let better = match best {
                        None => true,
                        Some(b) => node_id_less(nodes[k].id, nodes[b].id),
                    };
                    if better {
                        proof {
                            match best {
                                Some(b) => {
                                    assert forall|m: int| 0 <= m < k + 1 && ready(nodes_spec, edges_spec, order@, m) implies m == k
                                        || node_id_lt(nodes_spec[k as int].id, #[trigger] nodes_spec[m].id) by {
                                        if m < k && m != b {
                                            assert(node_id_lt(nodes_spec[b as int].id, nodes_spec[m].id));
                                        }
                                    }
                                },
                                None => {},
                            }
                        }
                        best = Some(k);
                    } else {
                        proof {
                            match best {
                                Some(b) => {
                                    crate::graph::lemma_node_key_injective(nodes_spec[k as int].id, nodes_spec[b as int].id);
                                    assert(nodes_spec[k as int].id != nodes_spec[b as int].id);
                                },
                                None => {},
                            }
                        }
                    }
                }
                k = k + 1;
            }
            match best {
                None => {
                    break;
                },
                Some(b) => {
                    let ghost before = order@;
                    let id = nodes[b].id;
                    proof {
                        lemma_count_true(done@, b as int);
                    }
                    done.set(b, true);
                    order.push(id);
                    proof {
                        positions = positions.push(b as int);
                        assert(order@.take(before.len() as int) =~= before);
                        assert(!before.contains(id));
                        assert forall|m: int| 0 <= m < n implies (#[trigger] done@[m] <==> order@.contains(nodes_spec[m].id)) by {
                            if m == b {
                                assert(order@[before.len() as int] == id);
                            } else {
                                assert(nodes_spec[m].id != id);
                                if order@.contains(nodes_spec[m].id) {
                                    let q = choose|q: int| 0 <= q < order@.len() && order@[q] == nodes_spec[m].id;
                                    assert(before[q] == nodes_spec[m].id);
                                }
                                if before.contains(nodes_spec[m].id) {
                                    let q = choose|q: int| 0 <= q < before.len() && before[q] == nodes_spec[m].id;
                                    assert(order@[q] == nodes_spec[m].id);
                                }
                            }
                        }
                        assert forall|a: int|
                            0 <= a < order@.len() implies 0 <= #[trigger] positions[a] < n && nodes_spec[positions[a]].id
                                == order@[a] && ready(nodes_spec, edges_spec, order@.take(a), positions[a]) by {
                            if a < before.len() {
                                assert(order@[a] == before[a]);
                                assert(order@.take(a) =~= before.take(a));
                            } else {
                                assert(order@.take(a) =~= before);
                            }
                        }
                        assert forall|a: int, k: int|
                            0 <= a < order@.len() && 0 <= k < n && ready(nodes_spec, edges_spec, order@.take(a), k) implies #[trigger] order@[a]
                                == #[trigger] nodes_spec[k].id || node_id_lt(order@[a], nodes_spec[k].id) by {
                            if a < before.len() {
                                assert(order@[a] == before[a]);
                                assert(order@.take(a) =~= before.take(a));
                            } else {
                                assert(order@.take(a) =~= before);
                            }
                        }
                    }
                },
            }
        }
        if order.len() == n {
            proof {
                assert(order@.len() == nodes_spec.len());
                assert forall|i: int| 0 <= i < nodes_spec.len() implies order@.contains(#[trigger] nodes_spec[i].id) by {
                    if !done@[i] {
                        lemma_count_true_flags(done@, i);
                    }
                }
                assert forall|a: int| 0 <= a < order@.len() implies #[trigger] evaluated_when_ready(nodes_spec, edges_spec, order@, a) by {
                    reveal(evaluated_when_ready);
                    let i = positions[a];
                    assert(0 <= i < nodes_spec.len() && nodes_spec[i].id == order@[a] && ready(nodes_spec, edges_spec, order@.take(a), i));
                }
                assert(order@.no_duplicates());
                assert(forall|a: int, k: int|
                    0 <= a < order@.len() && 0 <= k < nodes_spec.len() && ready(nodes_spec, edges_spec, order@.take(a), k) ==> #[trigger] order@[a]
                        == #[trigger] nodes_spec[k].id || node_id_lt(order@[a], nodes_spec[k].id));
                assert(evaluation_order_of(nodes_spec, edges_spec, order@));
                lemma_order_excludes_cycles(nodes_spec, edges_spec, order@);
            }
            Ok(order)
        } else {
            proof {
                assert(exists|k: int| 0 <= k < n && !done@[k]) by {
                    if forall|k: int| 0 <= k < n ==> done@[k] {
                        lemma_all_counted(done@);
                    }
                }
                let left = choose|k: int| 0 <= k < n && !done@[k];
                lemma_stuck_is_cycle(nodes_spec, edges_spec, done@, order@, left);
            }
            let cycles = self.cycles();
            Err(EvaluationOrderError { cycles })
        }
    }
}

/// When every flag is set, all are counted.
proof fn lemma_all_counted(flags: Seq<bool>)
    requires
        forall|k: int| 0 <= k < flags.len() ==> flags[k],
    ensures
        count_true(flags) == flags.len(),
    decreases flags.len(),
{
    if flags.len() > 0 {
        lemma_all_counted(flags.drop_last());
    }
}

/// When every flag is counted, every flag is set.
proof fn lemma_count_true_flags(flags: Seq<bool>, i: int)
    requires
        0 <= i < flags.len(),
        !flags[i],
    ensures
        count_true(flags) < flags.len(),
{
    lemma_count_true(flags, i);
}

/// The positions below `len` whose flag is not set.
pub open spec fn unset_positions(flags: Seq<bool>, len: int) -> Seq<int>
    decreases len,
{
    if len <= 0 {
        Seq::empty()
    } else if !flags[len - 1] {
        unset_positions(flags, len - 1).push(len - 1)
    } else {
        unset_positions(flags, len - 1)
    }
}

proof fn lemma_unset_positions(flags: Seq<bool>, len: int)
    requires
        0 <= len <= flags.len(),
    ensures
        forall|k: int| 0 <= k < unset_positions(flags, len).len() ==> 0 <= #[trigger] unset_positions(flags, len)[k]
            < len && !flags[unset_positions(flags, len)[k]],
        forall|x: int| 0 <= x < len && !flags[x] ==> #[trigger] unset_positions(flags, len).contains(x),
    decreases len,
{
    if len > 0 {
        lemma_unset_positions(flags, len - 1);
        let rest = unset_positions(flags, len - 1);
        let all = unset_positions(flags, len);
        assert forall|x: int| 0 <= x < len && !flags[x] implies #[trigger] all.contains(x) by {
            if x < len - 1 {
                assert(rest.contains(x));
                let k = choose|k: int| 0 <= k < rest.len() && rest[k] == x;
                assert(all[k] == x);
            } else {
                assert(all[all.len() - 1] == x);
            }
        }
        assert forall|k: int| 0 <= k < all.len() implies 0 <= #[trigger] all[k] < len && !flags[all[k]] by {
            if k < rest.len() {
                assert(all[k] == rest[k]);
            }
        }
    }
}

/// When the nodes left unevaluated are none of them ready, they witness a
/// cycle.
proof fn lemma_stuck_is_cycle(
    nodes: Seq<DependencyNode>,
    edges: Seq<DependencyEdge>,
    done: Seq<bool>,
    order: Seq<DependencyNodeId>,
    left: int,
)
    requires
        done.len() == nodes.len(),
        0 <= left < nodes.len(),
        !done[left],
        forall|k: int| 0 <= k < nodes.len() ==> (#[trigger] done[k] <==> order.contains(nodes[k].id)),
        forall|k: int| 0 <= k < nodes.len() && !(#[trigger] done[k]) ==> !ready(nodes, edges, order, k),
    ensures
        has_cycle(nodes, edges),
{
    let n = nodes.len() as int;
    lemma_unset_positions(done, n);
    let blocked = unset_positions(done, n);
    assert(blocked.contains(left));
    assert forall|k: int| 0 <= k < blocked.len() implies #[trigger] depends_within(nodes, edges, blocked, k) by {
        let x = blocked[k];
        assert(!done[x]);
        assert(!ready(nodes, edges, order, x));
        assert(!order.contains(nodes[x].id));
        let j = choose|j: int| 0 <= j < nodes.len() && depends_on(nodes, edges, x, j) && !order.contains(#[trigger] nodes[j].id);
        assert(!done[j]);
        assert(blocked.contains(j));
        let m = choose|m: int| 0 <= m < blocked.len() && blocked[m] == j;
        assert(depends_on(nodes, edges, blocked[k], blocked[m]));
    }
    assert(blocks(nodes, edges, blocked)) by {
        reveal(blocks);
    }
}

/// An order that evaluates every node after its dependencies leaves no
/// cycle in the graph.
#[verifier::spinoff_prover]
proof fn lemma_order_excludes_cycles(nodes: Seq<DependencyNode>, edges: Seq<DependencyEdge>, order: Seq<DependencyNodeId>)
    requires
        ids_distinct(nodes),
        order.no_duplicates(),
        forall|i: int| 0 <= i < nodes.len() ==> order.contains(#[trigger] nodes[i].id),
        forall|a: int| 0 <= a < order.len() ==> #[trigger] evaluated_when_ready(nodes, edges, order, a),
    ensures
        !has_cycle(nodes, edges),
{
    if has_cycle(nodes, edges) {
        let blocked = choose|blocked: Seq<int>| #[trigger] blocks(nodes, edges, blocked);
        lemma_blocks_range(nodes, edges, blocked);
        let first = lemma_first_evaluated(nodes, order, blocked, blocked.len() as int);
        let a = first.1;
        let x = blocked[first.0];
        let m = lemma_blocks_step(nodes, edges, blocked, first.0);
        let y = blocked[m];
        lemma_evaluated_after_dependencies(nodes, edges, order, a, x, y);
        let q = choose|q: int| 0 <= q < a && order[q] == nodes[y].id;
        assert(order[q] == nodes[blocked[m]].id);
        assert(a <= q);
    }
}

/// A walk of `len` steps through the blocked nodes, each step to a node
/// the previous one depends on, as positions into `blocked`.
proof fn lemma_blocked_walk(nodes: Seq<DependencyNode>, edges: Seq<DependencyEdge>, blocked: Seq<int>, len: nat) -> (walk: Seq<int>)
    requires
        blocks(nodes, edges, blocked),
    ensures
        walk.len() == len + 1,
        forall|i: int| 0 <= i < walk.len() ==> 0 <= #[trigger] walk[i] < blocked.len(),
        forall|i: int| 0 <= i < len ==> depends_on(nodes, edges, blocked[#[trigger] walk[i]], blocked[walk[i + 1]]),
    decreases len,
{
    lemma_blocks_range(nodes, edges, blocked);
    if len == 0 {
        seq![0int]
    } else {
        let before = lemma_blocked_walk(nodes, edges, blocked, (len - 1) as nat);
        let m = lemma_blocks_step(nodes, edges, blocked, before.last());
        let walk = before.push(m);
        assert forall|i: int| 0 <= i < len implies depends_on(
            nodes,
            edges,
            blocked[#[trigger] walk[i]],
            blocked[walk[i + 1]],
        ) by {
            if i < len - 1 {
                assert(walk[i] == before[i] && walk[i + 1] == before[i + 1]);
            } else {
                assert(walk[i] == before.last());
            }
        }
        assert forall|i: int| 0 <= i < walk.len() implies 0 <= #[trigger] walk[i] < blocked.len() by {
            if i < before.len() {
                assert(walk[i] == before[i]);
            }
        }
        walk
    }
}

/// `len + 1` values below `len` repeat one.
proof fn lemma_pigeonhole(values: Seq<int>, len: nat) -> (pair: (int, int))
    requires
        values.len() == len + 1,
        forall|i: int| 0 <= i < values.len() ==> 0 <= #[trigger] values[i] < len,
    ensures
        0 <= pair.0 < pair.1 < values.len(),
        values[pair.0] == values[pair.1],
{
    broadcast use vstd::set::group_set_axioms;

    if values.no_duplicates() {
        values.unique_seq_to_set();
        vstd::set_lib::lemma_int_range(0, len as int);
        assert(values.to_set().subset_of(vstd::set_lib::set_int_range(0, len as int))) by {
            assert forall|x: int| values.to_set().contains(x) implies vstd::set_lib::set_int_range(0, len as int).contains(
                x,
            ) by {
                let i = choose|i: int| 0 <= i < values.len() && values[i] == x;
                assert(0 <= values[i] < len);
            }
        }
        vstd::set_lib::lemma_len_subset(values.to_set(), vstd::set_lib::set_int_range(0, len as int));
        assert(false);
    }
    let (i, j) = choose|i: int, j: int| 0 <= i < values.len() && 0 <= j < values.len() && i != j && values[i] == values[j];
    if i < j {
        (i, j)
    } else {
        (j, i)
    }
}

/// Nodes that block each other include a node on a cycle.
proof fn lemma_blocked_on_cycle(nodes: Seq<DependencyNode>, edges: Seq<DependencyEdge>, blocked: Seq<int>) -> (a: int)
    requires
        blocks(nodes, edges, blocked),
    ensures
        0 <= a < nodes.len(),
        on_cycle(nodes, edges, a),
{
    lemma_blocks_range(nodes, edges, blocked);
    let n = nodes.len();
    let walk = lemma_blocked_walk(nodes, edges, blocked, n);
    let values = Seq::new(n + 1, |i: int| blocked[walk[i]]);
    assert forall|i: int| 0 <= i < values.len() implies 0 <= #[trigger] values[i] < n by {
        assert(0 <= walk[i] < blocked.len());
    }
    let (i, j) = lemma_pigeonhole(values, n);
    let path = values.subrange(i, j + 1);
    assert forall|k: int| 0 <= k < path.len() - 1 implies #[trigger] path_link(nodes, edges, path, k) by {
        assert(path[k] == values[i + k] && path[k + 1] == values[i + k + 1]);
        assert(depends_on(nodes, edges, blocked[walk[i + k]], blocked[walk[i + k + 1]]));
    }
    assert forall|k: int| 0 <= k < path.len() implies 0 <= #[trigger] path[k] < nodes.len() by {
        assert(path[k] == values[i + k]);
    }
    assert(is_dependency_path(nodes, edges, path));
    assert(path[0] == values[i] && path.last() == values[j]);
    values[i]
}

/// A node on a cycle blocks itself: the cycle without its last step is a
/// set of nodes each of which depends on one of them.
proof fn lemma_cycle_blocks(nodes: Seq<DependencyNode>, edges: Seq<DependencyEdge>, i: int)
    requires
        on_cycle(nodes, edges, i),
    ensures
        has_cycle(nodes, edges),
{
    let path = choose|path: Seq<int>|
        #[trigger] is_dependency_path(nodes, edges, path) && path.len() > 1 && path[0] == i && path.last() == i;
    let blocked = path.drop_last();
    assert forall|k: int| 0 <= k < blocked.len() implies 0 <= #[trigger] blocked[k] < nodes.len() by {
        assert(blocked[k] == path[k]);
    }
    assert forall|k: int| 0 <= k < blocked.len() implies #[trigger] depends_within(nodes, edges, blocked, k) by {
        assert(path_link(nodes, edges, path, k));
        let m = if k + 1 < blocked.len() {
            k + 1
        } else {
            0
        };
        assert(blocked[k] == path[k]);
        assert(path.last() == path[path.len() - 1]);
        assert(blocked[m] == path[k + 1]);
        assert(depends_on(nodes, edges, blocked[k], blocked[m]));
    }
    assert(blocks(nodes, edges, blocked)) by {
        reveal(blocks);
    }
}

/// A graph has a cycle (some nodes block one another, as an evaluation
/// order that cannot finish shows) exactly when a list meeting the contract
/// of [`DependencyGraph::cycles`] is not empty, and it is not empty exactly
/// when some node lies on a cycle.
pub proof fn lemma_cyclic_iff_cycles(
    nodes: Seq<DependencyNode>,
    edges: Seq<DependencyEdge>,
    cycles: Seq<DependencyCycle>,
)
    requires
        cycles_ok(nodes, edges, cycles),
        cycles_exact(nodes, edges, cycles),
    ensures
        has_cycle(nodes, edges) <==> cycles.len() > 0,
        cycles.len() > 0 <==> exists|i: int| 0 <= i < nodes.len() && #[trigger] on_cycle(nodes, edges, i),
{
    if cycles.len() > 0 {
        assert(cycle_ok(nodes, edges, cycles[0]));
        let x = cycles[0].nodes@[0];
        assert(contains_id(nodes, x));
        let a = choose|a: int| 0 <= a < nodes.len() && #[trigger] nodes[a].id == x;
        assert(cycles[0].nodes@.contains(nodes[a].id));
        assert(on_cycle(nodes, edges, a));
        lemma_cycle_blocks(nodes, edges, a);
    }
    if exists|i: int| 0 <= i < nodes.len() && #[trigger] on_cycle(nodes, edges, i) {
        let a = choose|i: int| 0 <= i < nodes.len() && #[trigger] on_cycle(nodes, edges, i);
        let k = choose|k: int| 0 <= k < cycles.len() && #[trigger] cycles[k].nodes@.contains(nodes[a].id);
    }
    if has_cycle(nodes, edges) {
        let blocked = choose|blocked: Seq<int>| #[trigger] blocks(nodes, edges, blocked);
        let a = lemma_blocked_on_cycle(nodes, edges, blocked);
        let k = choose|k: int| 0 <= k < cycles.len() && #[trigger] cycles[k].nodes@.contains(nodes[a].id);
    }
}

proof fn lemma_blocks_range(nodes: Seq<DependencyNode>, edges: Seq<DependencyEdge>, blocked: Seq<int>)
    requires
        blocks(nodes, edges, blocked),
    ensures
        blocked.len() > 0,
        forall|k: int| 0 <= k < blocked.len() ==> 0 <= #[trigger] blocked[k] < nodes.len(),
{
    reveal(blocks);
}

/// The node a blocked node depends on among the blocked ones.
proof fn lemma_blocks_step(nodes: Seq<DependencyNode>, edges: Seq<DependencyEdge>, blocked: Seq<int>, k: int) -> (m: int)
    requires
        blocks(nodes, edges, blocked),
        0 <= k < blocked.len(),
    ensures
        0 <= m < blocked.len(),
        depends_on(nodes, edges, blocked[k], blocked[m]),
{
    reveal(blocks);
    assert(depends_within(nodes, edges, blocked, k));
    choose|m: int| 0 <= m < blocked.len() && depends_on(nodes, edges, blocked[k], #[trigger] blocked[m])
}

/// A node evaluated at step `a` comes after each node it depends on.
proof fn lemma_evaluated_after_dependencies(
    nodes: Seq<DependencyNode>,
    edges: Seq<DependencyEdge>,
    order: Seq<DependencyNodeId>,
    a: int,
    x: int,
    y: int,
)
    requires
        ids_distinct(nodes),
        forall|a: int| 0 <= a < order.len() ==> #[trigger] evaluated_when_ready(nodes, edges, order, a),
        0 <= a < order.len(),
        0 <= x < nodes.len(),
        0 <= y < nodes.len(),
        order[a] == nodes[x].id,
        depends_on(nodes, edges, x, y),
    ensures
        exists|q: int| 0 <= q < a && order[q] == nodes[y].id,
{
    assert(evaluated_when_ready(nodes, edges, order, a));
    reveal(evaluated_when_ready);
    let i = choose|i: int| 0 <= i < nodes.len() && #[trigger] nodes[i].id == order[a] && ready(nodes, edges, order.take(a), i);
    assert(i == x);
    assert(order.take(a).contains(nodes[y].id));
    let q = choose|q: int| 0 <= q < order.take(a).len() && order.take(a)[q] == nodes[y].id;
    assert(order[q] == nodes[y].id);
}

/// Among the first `len` blocked nodes, one evaluated before the others:
/// its place in `blocked` and its position in `order`.
proof fn lemma_first_evaluated(nodes: Seq<DependencyNode>, order: Seq<DependencyNodeId>, blocked: Seq<int>, len: int) -> (first: (int, int))
    requires
        0 < len <= blocked.len(),
        order.no_duplicates(),
        forall|k: int| 0 <= k < blocked.len() ==> 0 <= #[trigger] blocked[k] < nodes.len(),
        forall|i: int| 0 <= i < nodes.len() ==> order.contains(#[trigger] nodes[i].id),
    ensures
        0 <= first.0 < len,
        0 <= first.1 < order.len(),
        order[first.1] == nodes[blocked[first.0]].id,
        forall|k: int, p: int|
            0 <= k < len && 0 <= p < order.len() && #[trigger] order[p] == nodes[#[trigger] blocked[k]].id ==> first.1 <= p,
    decreases len,
{
    let x = blocked[len - 1];
    assert(order.contains(nodes[x].id));
    let p = choose|p: int| 0 <= p < order.len() && order[p] == nodes[x].id;
    if len == 1 {
        (0, p)
    } else {
        let rest = lemma_first_evaluated(nodes, order, blocked, len - 1);
        if rest.1 <= p {
            rest
        } else {
            (len - 1, p)
        }
    }
}

} // verus!
