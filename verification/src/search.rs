//! The revision graph: each revision is a node with an edge to each of its
//! parents, kept both directed (for ancestry) and undirected (for the common
//! ancestor of two forks).

use std::collections::HashMap;
use vstd::prelude::*;
use vstd::string::StringExecFns;
use crate::graph::{
    RevisionDiGraph, RevisionUnGraph, MAX_GRAPH_INDEX, digraph_nodes, digraph_edges, ungraph_nodes,
    ungraph_edges, simple_paths, dot_text, is_edge, is_walk, is_simple_path, reaches, digraph_new,
    ungraph_new, digraph_add_node, ungraph_add_node, digraph_add_edge, ungraph_add_edge,
    digraph_dot, ungraph_dot, digraph_simple_paths, digraph_node_count, digraph_edge_count,
    digraph_edge_endpoints,
};

verus! {

broadcast use vstd::std_specs::hash::group_hash_axioms;

/// The revision graph with the node index of each revision.
pub struct Search {
    pub graph: RevisionDiGraph,
    pub undirected_graph: RevisionUnGraph,
    pub node_index_map: HashMap<usize, usize>,
}

/// The edges from node `index` to each of `parents`.
pub open spec fn parent_edges(index: usize, parents: Option<Vec<usize>>) -> Seq<(usize, usize)> {
    match parents {
        Some(ps) => ps@.map_values(|p: usize| (index, p)),
        None => Seq::empty(),
    }
}

/// There is a path along directed edges from `child` to `ancestor` that
/// visits no node twice.
pub open spec fn has_simple_path(edges: Seq<(usize, usize)>, child: usize, ancestor: usize) -> bool {
    exists|p: Seq<usize>| is_simple_path(edges, p, child, ancestor)
}

/// `x` can be reached from both `a` and `b`: a common ancestor.
pub open spec fn is_common_ancestor(edges: Seq<(usize, usize)>, a: usize, b: usize, x: usize) -> bool {
    reaches(edges, a, x) && reaches(edges, b, x)
}

/// The greatest node below `m` that is a common ancestor of `a` and `b`.
pub open spec fn last_common_ancestor(edges: Seq<(usize, usize)>, a: usize, b: usize, m: nat) -> Option<usize>
    decreases m,
{
    if m == 0 {
        None
    } else if is_common_ancestor(edges, a, b, (m - 1) as usize) {
        Some((m - 1) as usize)
    } else {
        last_common_ancestor(edges, a, b, (m - 1) as nat)
    }
}

/// What `Search::find_common_ancestor` answers: the common ancestor of
/// `root` and `second` added last to a graph of `node_count` nodes.
pub open spec fn common_ancestor(node_count: nat, edges: Seq<(usize, usize)>, root: usize, second: usize) -> Option<usize> {
    last_common_ancestor(edges, root, second, node_count)
}

/// Every edge leads from a node of the graph to a node added no later.
pub open spec fn edges_point_back(edges: Seq<(usize, usize)>, node_count: nat) -> bool {
    forall|e: int| 0 <= e < edges.len() ==> (#[trigger] edges[e]).0 < node_count && edges[e].1 <= edges[e].0
}

/// Along edges that point back, a walk never goes up.
pub proof fn lemma_walk_goes_back(edges: Seq<(usize, usize)>, node_count: nat, p: Seq<usize>)
    requires
        edges_point_back(edges, node_count),
        p.len() >= 1,
        is_walk(edges, p),
    ensures
        p.last() <= p[0],
        p.len() >= 2 ==> p[0] < node_count,
    decreases p.len(),
{
    if p.len() >= 2 {
        let q = p.drop_last();
        assert forall|i: int| 0 <= i < q.len() - 1 implies #[trigger] is_edge(edges, q[i], q[i + 1]) by {
            assert(is_edge(edges, p[i], p[i + 1]));
        }
        lemma_walk_goes_back(edges, node_count, q);
        let k = p.len() - 2;
        assert(is_edge(edges, p[k], p[k + 1]));
        let e = choose|e: int| 0 <= e < edges.len() && edges[e] == (p[k], p[k + 1]);
        assert(edges[e].1 <= edges[e].0);
        if p.len() == 2 {
            assert(edges[e].0 < node_count);
        }
    }
}

/// What `last_common_ancestor` finds: a common ancestor with none above it
/// below `m`, or none at all below `m`.
pub proof fn lemma_last_common_ancestor(edges: Seq<(usize, usize)>, a: usize, b: usize, m: nat)
    requires
        m <= usize::MAX + 1,
    ensures
        last_common_ancestor(edges, a, b, m) matches Some(c) ==> {
            &&& c < m
            &&& is_common_ancestor(edges, a, b, c)
            &&& forall|y: usize| c < y < m ==> !is_common_ancestor(edges, a, b, y)
        },
        last_common_ancestor(edges, a, b, m) is None ==> forall|y: usize| y < m ==> !is_common_ancestor(edges, a, b, y),
    decreases m,
{
    if m > 0 {
        lemma_last_common_ancestor(edges, a, b, (m - 1) as nat);
    }
}

/// A set of nodes that holds `node` and is closed under edges holds every
/// node that can be reached from `node`.
pub proof fn lemma_closed_holds_reached(edges: Seq<(usize, usize)>, marks: Seq<bool>, node: usize, p: Seq<usize>)
    requires
        node < marks.len(),
        marks[node as int],
        forall|e: int| 0 <= e < edges.len() && (#[trigger] edges[e]).0 < marks.len() && marks[edges[e].0 as int] ==> edges[e].1
            < marks.len() && marks[edges[e].1 as int],
        p.len() >= 1,
        p[0] == node,
        is_walk(edges, p),
    ensures
        p.last() < marks.len(),
        marks[p.last() as int],
    decreases p.len(),
{
    if p.len() >= 2 {
        let q = p.drop_last();
        assert forall|i: int| 0 <= i < q.len() - 1 implies #[trigger] is_edge(edges, q[i], q[i + 1]) by {
            assert(is_edge(edges, p[i], p[i + 1]));
        }
        lemma_closed_holds_reached(edges, marks, node, q);
        let k = p.len() - 2;
        assert(is_edge(edges, p[k], p[k + 1]));
        let e = choose|e: int| 0 <= e < edges.len() && edges[e] == (p[k], p[k + 1]);
        assert(edges[e].0 == q.last());
    }
}

/// The text that `Search::print` gives for graphs with this many nodes and these edges.
pub open spec fn search_text(node_count: nat, edges: Seq<(usize, usize)>) -> Seq<char> {
    "Directed: "@ + dot_text(true, node_count, edges) + "\n\nUndirected: "@ + dot_text(false, node_count, edges) + "\n\n"@
}

/// Common ancestors of a node and any other lie in the graph, none is
/// reached from another one, and `last_common_ancestor` finds the last.
pub proof fn lemma_common_ancestor_facts(edges: Seq<(usize, usize)>, nn: nat, root: usize, second: usize)
    requires
        edges_point_back(edges, nn),
        root < nn,
        nn <= MAX_GRAPH_INDEX,
    ensures
        last_common_ancestor(edges, root, second, nn) matches Some(c) ==> {
            &&& c < nn
            &&& is_common_ancestor(edges, root, second, c)
            &&& forall|y: usize| c < y < nn ==> !is_common_ancestor(edges, root, second, y)
        },
        last_common_ancestor(edges, root, second, nn) is None ==> forall|y: usize| y < nn ==> !is_common_ancestor(edges, root, second, y),
        forall|x: usize| #[trigger] is_common_ancestor(edges, root, second, x) ==> x < nn && (x == second || second < nn),
        forall|x: usize, c: usize|
            x != c && #[trigger] is_common_ancestor(edges, root, second, x) && #[trigger] reaches(edges, x, c) ==> c < x,
{
    lemma_last_common_ancestor(edges, root, second, nn);
    // a common ancestor is reached from `root`, so it is a node
    assert forall|x: usize| #[trigger] is_common_ancestor(edges, root, second, x) implies x < nn && (x == second || second < nn) by {
        let p = choose|p: Seq<usize>| p.len() >= 1 && p[0] == root && p.last() == x && #[trigger] is_walk(edges, p);
        lemma_walk_goes_back(edges, nn, p);
        let q = choose|q: Seq<usize>| q.len() >= 1 && q[0] == second && q.last() == x && #[trigger] is_walk(edges, q);
        lemma_walk_goes_back(edges, nn, q);
    }
    // none is reached from a later one other than itself
    assert forall|x: usize, c: usize|
        x != c && #[trigger] is_common_ancestor(edges, root, second, x) && #[trigger] reaches(edges, x, c) implies c < x by {
        let p = choose|p: Seq<usize>| p.len() >= 1 && p[0] == x && p.last() == c && #[trigger] is_walk(edges, p);
        lemma_walk_goes_back(edges, nn, p);
    }
}

/// A revision's recorded index stays through the addition of a node for
/// another revision; a revision never added has no index.
pub proof fn lemma_index_survives(before: Search, after: Search, diff: usize, index: usize, k: usize)
    requires
        after.node_index_map@ == before.node_index_map@.insert(diff, index),
        k != diff,
    ensures
        after.node_index_map@.contains_key(k) == before.node_index_map@.contains_key(k),
        before.node_index_map@.contains_key(k) ==> after.node_index_map@[k] == before.node_index_map@[k],
{
}

impl Search {
    /// The revision held by each node.
    pub open spec fn nodes(&self) -> Seq<usize> {
        digraph_nodes(self.graph)
    }

    /// The edges, each from a child to a parent.
    pub open spec fn edges(&self) -> Seq<(usize, usize)> {
        digraph_edges(self.graph)
    }

    /// Both graphs hold the same nodes and edges, every edge leads back to a
    /// node added no later, and the index map only points at nodes that hold
    /// the revision it is looked up by.
    pub open spec fn wf(&self) -> bool {
        &&& ungraph_nodes(self.undirected_graph) == self.nodes()
        &&& ungraph_edges(self.undirected_graph) == self.edges()
        &&& self.nodes().len() <= MAX_GRAPH_INDEX
        &&& self.edges().len() <= MAX_GRAPH_INDEX
        &&& edges_point_back(self.edges(), self.nodes().len())
        &&& forall|k: usize| #[trigger] self.node_index_map@.contains_key(k) ==> {
            &&& self.node_index_map@[k] < self.nodes().len()
            &&& self.nodes()[self.node_index_map@[k] as int] == k
        }
    }

    /// An empty search.
    pub fn new() -> (s: Search)
        ensures
            s.wf(),
            s.nodes() == Seq::<usize>::empty(),
            s.edges() == Seq::<(usize, usize)>::empty(),
            s.node_index_map@ == Map::<usize, usize>::empty(),
    {
        Search { graph: digraph_new(), undirected_graph: ungraph_new(), node_index_map: HashMap::new() }
    }

    /// Adds a node for revision `diff` with an edge to each parent node, and
    /// records its index, which it returns.
    pub fn add_node(&mut self, parents: Option<Vec<usize>>, diff: usize) -> (r: usize)
        requires
            old(self).wf(),
            old(self).nodes().len() < MAX_GRAPH_INDEX,
            parents matches Some(ps) ==> {
                &&& forall|i: int| 0 <= i < ps.len() ==> #[trigger] ps[i] <= old(self).nodes().len()
                &&& old(self).edges().len() + ps.len() < MAX_GRAPH_INDEX
            },
        ensures
            final(self).wf(),
            r == old(self).nodes().len(),
            final(self).nodes() == old(self).nodes().push(diff),
            final(self).edges() == old(self).edges() + parent_edges(r, parents),
            final(self).node_index_map@ == old(self).node_index_map@.insert(diff, r),
    {
        let index = digraph_add_node(&mut self.graph, diff);
        let _ = ungraph_add_node(&mut self.undirected_graph, diff);
        self.node_index_map.insert(diff, index);
        let ghost edges0 = old(self).edges();
        if let Some(ps) = parents {
            let mut i: usize = 0;
            while i < ps.len()
                invariant
                    i <= ps.len(),
                    index == old(self).nodes().len(),
                    self.nodes() == old(self).nodes().push(diff),
                    self.node_index_map@ == old(self).node_index_map@.insert(diff, index),
                    old(self).wf(),
                    old(self).nodes().len() < MAX_GRAPH_INDEX,
                    ungraph_nodes(self.undirected_graph) == self.nodes(),
                    ungraph_edges(self.undirected_graph) == self.edges(),
                    self.edges() == edges0 + ps@.take(i as int).map_values(|p: usize| (index, p)),
                    edges0.len() + ps.len() < MAX_GRAPH_INDEX,
                    forall|j: int| 0 <= j < ps.len() ==> #[trigger] ps[j] <= old(self).nodes().len(),
                decreases ps.len() - i,
            {
                digraph_add_edge(&mut self.graph, index, ps[i]);
                ungraph_add_edge(&mut self.undirected_graph, index, ps[i]);
                i = i + 1;
                assert(ps@.take(i as int).map_values(|p: usize| (index, p)) =~= ps@.take(i - 1).map_values(
                    |p: usize| (index, p),
                ).push((index, ps@[i - 1])));
            }
            assert(ps@.take(ps.len() as int) =~= ps@);
        } else {
            assert(self.edges() =~= edges0 + Seq::<(usize, usize)>::empty());
        }
        index
    }

    /// The node index recorded for revision `node`.
    pub fn get_node_index(&self, node: &usize) -> (r: Option<&usize>)
        ensures
            r == (if self.node_index_map@.contains_key(*node) {
                Some(&self.node_index_map@[*node])
            } else {
                None
            }),
    {
        self.node_index_map.get(node)
    }

    /// The text that shows the search: the Graphviz text of the directed
    /// and of the undirected graph, each after a heading.
    pub fn print(&self) -> (r: String)
        requires
            self.wf(),
        ensures
            r@ == search_text(self.nodes().len(), self.edges()),
    {
        let mut text = String::from_str("Directed: ");
        text.append(digraph_dot(&self.graph).as_str());
        text.append("\n\nUndirected: ");
        text.append(ungraph_dot(&self.undirected_graph).as_str());
        text.append("\n\n");
        text
    }

    /// All simple paths from `child` to `ancestor`, in the order
    /// `all_simple_paths` lists them.  For distinct nodes the listed paths
    /// are exactly the simple paths (each once when no edge repeats), so
    /// there is one exactly when `ancestor` is reachable from `child`.
    pub fn get_paths(&self, child: usize, ancestor: usize) -> (r: Vec<Vec<usize>>)
        requires
            self.wf(),
            child < self.nodes().len(),
            ancestor <= MAX_GRAPH_INDEX,
        ensures
            r.deep_view() == simple_paths(self.nodes().len(), self.edges(), child, ancestor),
            forall|i: int| #![trigger r.deep_view()[i]] 0 <= i < r.len() ==> {
                let p = r.deep_view()[i];
                &&& p.len() >= 2
                &&& p[0] == child
                &&& p.last() == ancestor
                &&& is_walk(self.edges(), p)
                &&& forall|j: int| 0 <= j < p.len() ==> #[trigger] p[j] < self.nodes().len()
            },
            child != ancestor ==> forall|i: int| 0 <= i < r.len() ==> is_simple_path(self.edges(), #[trigger] r.deep_view()[i], child, ancestor),
            child != ancestor ==> forall|p: Seq<usize>| #[trigger] is_simple_path(self.edges(), p, child, ancestor) ==> r.deep_view().contains(p),
            child != ancestor && self.edges().no_duplicates() ==> r.deep_view().no_duplicates(),
            child != ancestor ==> (r.len() > 0 <==> has_simple_path(self.edges(), child, ancestor)),
    {
        let r = digraph_simple_paths(&self.graph, child, ancestor);
        proof {
            if child != ancestor {
                if r.len() > 0 {
                    assert(r.deep_view()[0].no_duplicates());
                    assert(is_simple_path(self.edges(), r.deep_view()[0], child, ancestor));
                }
                if has_simple_path(self.edges(), child, ancestor) {
                    let p = choose|p: Seq<usize>| is_simple_path(self.edges(), p, child, ancestor);
                    assert(r.deep_view().contains(p));
                }
            }
        }
        r
    }

    /// Marks the nodes that can be reached from `node` along edges, its
    /// ancestors (`node` included).
    fn ancestors(&self, node: usize) -> (r: Vec<bool>)
        requires
            self.wf(),
            node < self.nodes().len(),
        ensures
            r.len() == self.nodes().len(),
            forall|x: usize| x < self.nodes().len() ==> (r@[x as int] <==> reaches(self.edges(), node, x)),
    {
        let ghost edges = self.edges();
        let n = digraph_node_count(&self.graph);
        let m = digraph_edge_count(&self.graph);
        let mut marks: Vec<bool> = Vec::new();
        let mut k: usize = 0;
        while k < n
            invariant
                k <= n,
                marks.len() == k,
                forall|x: int| 0 <= x < k ==> !marks@[x],
            decreases n - k,
        {
            marks.push(false);
            k = k + 1;
        }
        marks.set(node, true);
        proof {
            let p = seq![node];
            assert(is_walk(edges, p));
            assert(reaches(edges, node, node));
        }
        let mut i: usize = n;
        while i > 0
            invariant
                edges == self.edges(),
                self.wf(),
                n == self.nodes().len(),
                m == edges.len(),
                node < n,
                i <= n,
                marks.len() == n,
                marks@[node as int],
                forall|x: usize| x < n && #[trigger] marks@[x as int] ==> reaches(edges, node, x),
                forall|e: int| 0 <= e < m && (#[trigger] edges[e]).0 >= i && marks@[edges[e].0 as int] ==> marks@[edges[e].1 as int],
            decreases i,
        {
            i = i - 1;
            if marks[i] {
                let ghost before = marks@;
                let mut e: usize = 0;
                while e < m
                    invariant
                        edges == self.edges(),
                        self.wf(),
                        n == self.nodes().len(),
                        m == edges.len(),
                        node < n,
                        i < n,
                        e <= m,
                        marks.len() == n,
                        marks@[i as int],
                        marks@[node as int],
                        forall|x: int| 0 <= x < n && x > i ==> marks@[x] == before[x],
                        forall|x: int| 0 <= x < n && before[x] ==> marks@[x],
                        forall|x: usize| x < n && #[trigger] marks@[x as int] ==> reaches(edges, node, x),
                        forall|f: int| 0 <= f < e && (#[trigger] edges[f]).0 == i ==> marks@[edges[f].1 as int],
                    decreases m - e,
                {
                    let (a, b) = digraph_edge_endpoints(&self.graph, e).unwrap();
                    assert(edges[e as int] == (a, b));
                    if a == i {
                        proof {
                            assert(reaches(edges, node, i));
                            let p = choose|p: Seq<usize>| p.len() >= 1 && p[0] == node && p.last() == i && #[trigger] is_walk(edges, p);
                            let q = p.push(b);
                            assert(is_edge(edges, i, b));
                            assert forall|j: int| 0 <= j < q.len() - 1 implies #[trigger] is_edge(edges, q[j], q[j + 1]) by {
                                if j < p.len() - 1 {
                                    assert(is_edge(edges, p[j], p[j + 1]));
                                }
                            }
                            assert(is_walk(edges, q));
                        }
                        marks.set(b, true);
                    }
                    e = e + 1;
                }
                assert forall|f: int| 0 <= f < m && (#[trigger] edges[f]).0 >= i && marks@[edges[f].0 as int] implies marks@[edges[f].1 as int] by {
                    if edges[f].0 > i {
                        assert(marks@[edges[f].0 as int] == before[edges[f].0 as int]);
                    }
                }
            } else {
                assert forall|f: int| 0 <= f < m && (#[trigger] edges[f]).0 >= i && marks@[edges[f].0 as int] implies marks@[edges[f].1 as int] by {
                    if edges[f].0 == i {
                        assert(false);
                    }
                }
            }
        }
        proof {
            assert forall|x: usize| x < n && reaches(edges, node, x) implies marks@[x as int] by {
                let p = choose|p: Seq<usize>| p.len() >= 1 && p[0] == node && p.last() == x && #[trigger] is_walk(edges, p);
                lemma_closed_holds_reached(edges, marks@, node, p);
            }
        }
        marks
    }

    /// The nearest common ancestor of `root` and `second`: the node that
    /// both reach along child-to-parent edges (themselves included) and
    /// that was added last.  No other common ancestor lies below it; `None`
    /// when the two have no common ancestor.
    pub fn find_common_ancestor(&self, root: usize, second: usize) -> (r: Option<usize>)
        requires
            self.wf(),
            root < self.nodes().len(),
        ensures
            r == common_ancestor(self.nodes().len(), self.edges(), root, second),
            r matches Some(c) ==> {
                &&& c < self.nodes().len()
                &&& is_common_ancestor(self.edges(), root, second, c)
                &&& forall|x: usize| x != c && is_common_ancestor(self.edges(), root, second, x) ==> !reaches(self.edges(), x, c)
            },
            r is None <==> !exists|x: usize| is_common_ancestor(self.edges(), root, second, x),
    {
        let ghost edges = self.edges();
        let ghost nn = self.nodes().len();
        let n = digraph_node_count(&self.graph);
        proof {
            lemma_common_ancestor_facts(edges, nn, root, second);
        }
        if second >= n {
            assert(!exists|x: usize| is_common_ancestor(edges, root, second, x));
            return None;
        }
        let ra = self.ancestors(root);
        let rb = self.ancestors(second);
        let mut k: usize = n;
        while k > 0
            invariant
                edges == self.edges(),
                nn == n,
                k <= n,
                ra.len() == n,
                rb.len() == n,
                forall|x: usize| x < n ==> (ra@[x as int] <==> reaches(edges, root, x)),
                forall|x: usize| x < n ==> (rb@[x as int] <==> reaches(edges, second, x)),
                last_common_ancestor(edges, root, second, nn) == last_common_ancestor(edges, root, second, k as nat),
                nn == self.nodes().len(),
                edges_point_back(edges, nn),
                root < nn,
                nn <= MAX_GRAPH_INDEX,
            decreases k,
        {
            if ra[k - 1] && rb[k - 1] {
                assert(is_common_ancestor(edges, root, second, (k - 1) as usize));
                assert(last_common_ancestor(edges, root, second, k as nat) == Some((k - 1) as usize));
                proof {
                    lemma_common_ancestor_facts(edges, nn, root, second);
                }
                return Some(k - 1);
            }
            assert(last_common_ancestor(edges, root, second, k as nat) == last_common_ancestor(edges, root, second, (k - 1) as nat));
            k = k - 1;
        }
        None
    }
}

} // verus!
