//! Directed graphs over an element type, and the contracts under which the
//! `toposort_scc` graph is used for the cycle check.

use vstd::prelude::*;
use toposort_scc::IndexGraph;

verus! {

/// `p` walks along edges: it has at least two vertices and every step from
/// one vertex to the next is an edge.
pub open spec fn is_walk<T>(edges: Set<(T, T)>, p: Seq<T>) -> bool {
    &&& p.len() >= 2
    &&& forall|k: int| #![trigger p[k]] 0 <= k < p.len() - 1 ==> edges.contains((p[k], p[k + 1]))
}

/// The graph has a cycle: some walk returns to where it started. A self-loop
/// is a cycle of one step.
pub open spec fn has_cycle<T>(edges: Set<(T, T)>) -> bool {
    exists|p: Seq<T>| #[trigger] is_walk(edges, p) && p.first() == p.last()
}

/// `order` lists each of the vertices `0..n` and no edge leads from a listed
/// vertex to itself or to one listed earlier.
pub open spec fn is_topological_order(order: Seq<usize>, n: nat, edges: Set<(usize, usize)>) -> bool {
    &&& order.len() == n
    &&& forall|v: usize| v < n ==> order.contains(v)
    &&& forall|i: int, j: int|
        #![trigger order[i], order[j]]
        0 <= i <= j < order.len() ==> !edges.contains((order[j], order[i]))
}

/// `toposort_scc::IndexGraph`, a graph over the vertices `0..n` held as
/// adjacency lists; its inside is not looked into here.
#[verifier::external_type_specification]
#[verifier::external_body]
pub struct ExIndexGraph(IndexGraph);

/// The number of vertices of the graph.
pub uninterp spec fn graph_vertices(g: IndexGraph) -> nat;

/// The edges of the graph, as pairs `(from, to)`.
pub uninterp spec fn graph_edges(g: IndexGraph) -> Set<(usize, usize)>;

/// `IndexGraph::with_vertices` makes a graph of `len` vertices and no edges.
/// It reserves room for `len` vertex records of eight machine words each, 64
/// bytes at most, which must fit the allocator's limit.
pub assume_specification[ IndexGraph::with_vertices ](len: usize) -> (g: IndexGraph)
    requires
        len * 64 <= isize::MAX,
    ensures
        graph_vertices(g) == len,
        graph_edges(g) == Set::<(usize, usize)>::empty(),
;

/// `IndexGraph::add_edge` records the edge `from -> to` (duplicates are kept,
/// which does not change the set of edges) and leaves the vertices as they
/// are. Both ends must be vertices of the graph: it indexes them.
pub assume_specification[ IndexGraph::add_edge ](g: &mut IndexGraph, from: usize, to: usize)
    requires
        from < graph_vertices(*old(g)),
        to < graph_vertices(*old(g)),
    ensures
        graph_vertices(*final(g)) == graph_vertices(*old(g)),
        graph_edges(*final(g)) == graph_edges(*old(g)).insert((from, to)),
;

/// `IndexGraph::toposort` runs Kahn's algorithm: it returns `None` exactly
/// when the graph has a cycle, and otherwise a topological order of all the
/// vertices.
pub assume_specification[ IndexGraph::toposort ](g: IndexGraph) -> (r: Option<Vec<usize>>)
    ensures
        r is None <==> has_cycle(graph_edges(g)),
        r matches Some(order) ==> is_topological_order(order@, graph_vertices(g), graph_edges(g)),
;

} // verus!
