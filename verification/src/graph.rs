//! The graphs of `petgraph` that the search is built on, modelled by their
//! node weights and their edges in the order they were added.

use petgraph::algo::all_simple_paths;
use petgraph::dot::{Config, Dot};
use petgraph::graph::{EdgeIndex, Graph, NodeIndex};
use petgraph::{Directed, Undirected};
use vstd::prelude::*;

verus! {

#[verifier::external_type_specification]
#[verifier::external_body]
#[verifier::reject_recursive_types(N)]
#[verifier::reject_recursive_types(E)]
#[verifier::reject_recursive_types(Ty)]
#[verifier::reject_recursive_types(Ix)]
pub struct ExGraph<N, E, Ty, Ix>(Graph<N, E, Ty, Ix>);

#[verifier::external_type_specification]
#[verifier::external_body]
#[verifier::reject_recursive_types(Ix)]
pub struct ExNodeIndex<Ix>(NodeIndex<Ix>);

#[verifier::external_type_specification]
#[verifier::external_body]
pub struct ExDirected(Directed);

#[verifier::external_type_specification]
#[verifier::external_body]
pub struct ExUndirected(Undirected);

/// A directed graph whose nodes carry revisions.
pub type RevisionDiGraph = Graph<usize, (), Directed, u32>;

/// An undirected graph whose nodes carry revisions.
pub type RevisionUnGraph = Graph<usize, (), Undirected, u32>;

/// The number of nodes a graph with `u32` indices can hold.
pub const MAX_GRAPH_INDEX: usize = 0xffff_ffff;

/// The node weights of a directed graph, by node index.
pub uninterp spec fn digraph_nodes(g: Graph<usize, (), Directed, u32>) -> Seq<usize>;

/// The edges of a directed graph, as (source, target) node indices, in the order they were added.
pub uninterp spec fn digraph_edges(g: Graph<usize, (), Directed, u32>) -> Seq<(usize, usize)>;

/// The node weights of an undirected graph, by node index.
pub uninterp spec fn ungraph_nodes(g: Graph<usize, (), Undirected, u32>) -> Seq<usize>;

/// The edges of an undirected graph, as node index pairs, in the order they were added.
pub uninterp spec fn ungraph_edges(g: Graph<usize, (), Undirected, u32>) -> Seq<(usize, usize)>;

/// The paths that `all_simple_paths` lists, in its order, for a directed graph
/// of `node_count` nodes with these edges.
pub uninterp spec fn simple_paths(node_count: nat, edges: Seq<(usize, usize)>, from: usize, to: usize) -> Seq<Seq<usize>>;

/// The Graphviz text that `Dot` with node index labels writes for a graph.
pub uninterp spec fn dot_text(directed: bool, node_count: nat, edges: Seq<(usize, usize)>) -> Seq<char>;

/// `(a, b)` is one of the edges.
pub open spec fn is_edge(edges: Seq<(usize, usize)>, a: usize, b: usize) -> bool {
    exists|e: int| 0 <= e < edges.len() && edges[e] == (a, b)
}

/// Each node of `p` has an edge to the next one.
pub open spec fn is_walk(edges: Seq<(usize, usize)>, p: Seq<usize>) -> bool {
    forall|i: int| 0 <= i < p.len() - 1 ==> #[trigger] is_edge(edges, p[i], p[i + 1])
}

/// `p` goes from `from` to `to` along edges and visits no node twice.
pub open spec fn is_simple_path(edges: Seq<(usize, usize)>, p: Seq<usize>, from: usize, to: usize) -> bool {
    &&& p.len() >= 2
    &&& p[0] == from
    &&& p.last() == to
    &&& is_walk(edges, p)
    &&& p.no_duplicates()
}

/// A walk along edges leads from `a` to `b` (possibly without a step).
pub open spec fn reaches(edges: Seq<(usize, usize)>, a: usize, b: usize) -> bool {
    exists|p: Seq<usize>| p.len() >= 1 && p[0] == a && p.last() == b && #[trigger] is_walk(edges, p)
}

/// An empty directed graph (`Graph::new`).
#[verifier::external_body]
pub(crate) fn digraph_new() -> (g: RevisionDiGraph)
    ensures
        digraph_nodes(g) == Seq::<usize>::empty(),
        digraph_edges(g) == Seq::<(usize, usize)>::empty(),
{
    Graph::new()
}

/// An empty undirected graph (`Graph::new_undirected`).
#[verifier::external_body]
pub(crate) fn ungraph_new() -> (g: RevisionUnGraph)
    ensures
        ungraph_nodes(g) == Seq::<usize>::empty(),
        ungraph_edges(g) == Seq::<(usize, usize)>::empty(),
{
    Graph::new_undirected()
}

/// `Graph::add_node` on a directed graph: the node gets the next index.
#[verifier::external_body]
pub(crate) fn digraph_add_node(g: &mut RevisionDiGraph, weight: usize) -> (r: usize)
    requires
        digraph_nodes(*old(g)).len() < MAX_GRAPH_INDEX,
    ensures
        r == digraph_nodes(*old(g)).len(),
        digraph_nodes(*final(g)) == digraph_nodes(*old(g)).push(weight),
        digraph_edges(*final(g)) == digraph_edges(*old(g)),
{
    g.add_node(weight).index()
}

/// `Graph::add_node` on an undirected graph: the node gets the next index.
#[verifier::external_body]
pub(crate) fn ungraph_add_node(g: &mut RevisionUnGraph, weight: usize) -> (r: usize)
    requires
        ungraph_nodes(*old(g)).len() < MAX_GRAPH_INDEX,
    ensures
        r == ungraph_nodes(*old(g)).len(),
        ungraph_nodes(*final(g)) == ungraph_nodes(*old(g)).push(weight),
        ungraph_edges(*final(g)) == ungraph_edges(*old(g)),
{
    g.add_node(weight).index()
}

/// `Graph::add_edge` on a directed graph: the edge is added last.
#[verifier::external_body]
pub(crate) fn digraph_add_edge(g: &mut RevisionDiGraph, a: usize, b: usize)
    requires
        a < digraph_nodes(*old(g)).len(),
        b < digraph_nodes(*old(g)).len(),
        digraph_edges(*old(g)).len() < MAX_GRAPH_INDEX,
    ensures
        digraph_nodes(*final(g)) == digraph_nodes(*old(g)),
        digraph_edges(*final(g)) == digraph_edges(*old(g)).push((a, b)),
{
    g.add_edge(NodeIndex::new(a), NodeIndex::new(b), ());
}

/// `Graph::add_edge` on an undirected graph: the edge is added last.
#[verifier::external_body]
pub(crate) fn ungraph_add_edge(g: &mut RevisionUnGraph, a: usize, b: usize)
    requires
        a < ungraph_nodes(*old(g)).len(),
        b < ungraph_nodes(*old(g)).len(),
        ungraph_edges(*old(g)).len() < MAX_GRAPH_INDEX,
    ensures
        ungraph_nodes(*final(g)) == ungraph_nodes(*old(g)),
        ungraph_edges(*final(g)) == ungraph_edges(*old(g)).push((a, b)),
{
    g.add_edge(NodeIndex::new(a), NodeIndex::new(b), ());
}

/// The weight of a node (indexing a `Graph`).
#[verifier::external_body]
pub(crate) fn digraph_weight(g: &RevisionDiGraph, index: usize) -> (r: usize)
    requires
        index < digraph_nodes(*g).len(),
    ensures
        r == digraph_nodes(*g)[index as int],
{
    g[NodeIndex::new(index)]
}

/// `all_simple_paths` from `from` to `to`, with no bound on the number of
/// intermediate nodes, each path as node indices.  Each path starts at
/// `from`, ends at `to` and follows edges between nodes of the graph; when
/// `from` and `to` differ, the paths are the simple paths, all of them are
/// listed, and without repeated edges each is listed once.  The order of the
/// paths, and how often a path is listed when edges repeat, are left to the
/// name.
#[verifier::external_body]
pub(crate) fn digraph_simple_paths(g: &RevisionDiGraph, from: usize, to: usize) -> (r: Vec<Vec<usize>>)
    requires
        from < digraph_nodes(*g).len(),
        to <= MAX_GRAPH_INDEX,
    ensures
        r.deep_view() == simple_paths(digraph_nodes(*g).len(), digraph_edges(*g), from, to),
        forall|i: int| #![trigger r.deep_view()[i]] 0 <= i < r.len() ==> {
            let p = r.deep_view()[i];
            &&& p.len() >= 2
            &&& p[0] == from
            &&& p.last() == to
            &&& is_walk(digraph_edges(*g), p)
            &&& forall|j: int| 0 <= j < p.len() ==> #[trigger] p[j] < digraph_nodes(*g).len()
        },
        from != to ==> forall|i: int| 0 <= i < r.len() ==> (#[trigger] r.deep_view()[i]).no_duplicates(),
        from != to ==> forall|p: Seq<usize>| #[trigger] is_simple_path(digraph_edges(*g), p, from, to) ==> r.deep_view().contains(p),
        from != to && digraph_edges(*g).no_duplicates() ==> r.deep_view().no_duplicates(),
{
    all_simple_paths::<Vec<NodeIndex<u32>>, _>(g, NodeIndex::new(from), NodeIndex::new(to), 0, None)
        .map(|path| path.into_iter().map(|n| n.index()).collect::<Vec<usize>>())
        .collect()
}

/// The number of nodes (`Graph::node_count`).
#[verifier::external_body]
pub(crate) fn digraph_node_count(g: &RevisionDiGraph) -> (r: usize)
    ensures
        r == digraph_nodes(*g).len(),
{
    g.node_count()
}

/// The number of edges (`Graph::edge_count`).
#[verifier::external_body]
pub(crate) fn digraph_edge_count(g: &RevisionDiGraph) -> (r: usize)
    ensures
        r == digraph_edges(*g).len(),
{
    g.edge_count()
}

/// The source and target of an edge (`Graph::edge_endpoints`): `None` past
/// the last edge.
#[verifier::external_body]
pub(crate) fn digraph_edge_endpoints(g: &RevisionDiGraph, e: usize) -> (r: Option<(usize, usize)>)
    requires
        e <= MAX_GRAPH_INDEX,
    ensures
        e < digraph_edges(*g).len() ==> r == Some(digraph_edges(*g)[e as int]),
        e >= digraph_edges(*g).len() ==> r is None,
{
    g.edge_endpoints(EdgeIndex::new(e)).map(|(a, b)| (a.index(), b.index()))
}

/// The Graphviz text of a directed graph (`Dot` with node index labels, as `Debug`).
#[verifier::external_body]
pub(crate) fn digraph_dot(g: &RevisionDiGraph) -> (r: String)
    ensures
        r@ == dot_text(true, digraph_nodes(*g).len(), digraph_edges(*g)),
{
    format!("{:?}", Dot::with_config(g, &[Config::NodeIndexLabel]))
}

/// The Graphviz text of an undirected graph (`Dot` with node index labels, as `Debug`).
#[verifier::external_body]
pub(crate) fn ungraph_dot(g: &RevisionUnGraph) -> (r: String)
    ensures
        r@ == dot_text(false, ungraph_nodes(*g).len(), ungraph_edges(*g)),
{
    format!("{:?}", Dot::with_config(g, &[Config::NodeIndexLabel]))
}

} // verus!
