//! Committing diffs to the chain and pulling the changes between the local
//! revision and the latest one.

use vstd::prelude::*;
use crate::chain::{
    Chain, chain_entries, chain_new, chain_len, chain_get_index, chain_last, chain_insert, chain_get,
    has_key, key_position, entry_of, last_key, unique_keys, lemma_find_key, lemma_find_key_push,
};
use crate::graph::{simple_paths, digraph_weight, is_edge, is_walk, is_simple_path, reaches, MAX_GRAPH_INDEX};
use crate::paths::{
    all_below, on_some_path, strictly_increasing, fast_forward_order, fork_order, fast_forward_nodes,
    fork_nodes, lemma_fast_forward_order, lemma_fast_forward_ends_with, lemma_fork_below, without,
    first_path_through,
};
use crate::search::{
    Search, common_ancestor, search_text, has_simple_path, is_common_ancestor,
    lemma_last_common_ancestor,
};
use crate::utils::{
    populate_search, searchable, parents_first, chain_nodes, chain_edges, all_chain_edges,
    entry_edges, lemma_chain_edges_grow,
};
use crate::{PerspectiveDiff, PerspectiveDiffEntry, LinkExpression, DiffView, EntryView, empty_diff, concat_diff};

verus! {

/// The state of a perspective: the chain of diffs, the revision the local
/// state is at, and the last revision number handed out.
pub struct SyncState {
    pub chain: Chain,
    pub current_revision: usize,
    pub inc: usize,
}

impl SyncState {
    /// The pairs of revision and entry in the chain, in chain order.
    pub open spec fn entries(&self) -> Seq<(usize, PerspectiveDiffEntry)> {
        chain_entries(self.chain)
    }

    /// Revisions occur once each in the chain, and none is above the last
    /// revision number handed out.
    pub open spec fn wf(&self) -> bool {
        &&& unique_keys(self.entries())
        &&& forall|i: int| 0 <= i < self.entries().len() ==> #[trigger] self.entries()[i].0 <= self.inc
    }

    /// The last revision number handed out is the latest revision, and it
    /// is 0 exactly when the chain is empty.
    pub open spec fn counted(&self) -> bool {
        &&& last_key(self.entries()) == self.inc
        &&& (self.entries().len() == 0 <==> self.inc == 0)
    }

    /// An empty chain, at revision 0, with no revision number handed out.
    pub fn new() -> (s: SyncState)
        ensures
            s.wf(),
            s.counted(),
            s.entries() == Seq::<(usize, PerspectiveDiffEntry)>::empty(),
            s.current_revision == 0,
            s.inc == 0,
    {
        SyncState { chain: chain_new(), current_revision: 0, inc: 0 }
    }

    /// The revisions of the chain, in chain order.
    pub fn revisions(&self) -> (r: Vec<usize>)
        ensures
            r@ == chain_nodes(self.entries()),
    {
        let n = chain_len(&self.chain);
        let mut r: Vec<usize> = Vec::new();
        let mut i: usize = 0;
        while i < n
            invariant
                n == self.entries().len(),
                i <= n,
                r@ == chain_nodes(self.entries()).take(i as int),
            decreases n - i,
        {
            let (key, _) = chain_get_index(&self.chain, i).unwrap();
            r.push(*key);
            i = i + 1;
            assert(r@ =~= chain_nodes(self.entries()).take(i as int));
        }
        assert(chain_nodes(self.entries()).take(n as int) =~= chain_nodes(self.entries()));
        r
    }

    /// The entry at a position of the chain, `None` past its end.
    pub fn entry_at(&self, index: usize) -> (r: Option<&PerspectiveDiffEntry>)
        ensures
            index < self.entries().len() ==> r == Some(&self.entries()[index as int].1),
            index >= self.entries().len() ==> r is None,
    {
        match chain_get_index(&self.chain, index) {
            Some((_, entry)) => Some(entry),
            None => None,
        }
    }
}

/// The weights of the given nodes: for a loaded search, their revisions.
pub open spec fn weights_of(weights: Seq<usize>, nodes: Seq<usize>) -> Seq<usize> {
    nodes.map_values(|d: usize| weights[d as int])
}

/// The diffs of the given revisions joined in order.
pub open spec fn gathered(es: Seq<(usize, PerspectiveDiffEntry)>, keys: Seq<usize>) -> DiffView
    decreases keys.len(),
{
    if keys.len() == 0 {
        empty_diff()
    } else {
        concat_diff(gathered(es, keys.drop_last()), entry_of(es, keys.last()).diff@)
    }
}

/// The latest revision of the chain differs from the local one.
pub open spec fn out_of_sync(s: SyncState) -> bool {
    last_key(s.entries()) != s.current_revision
}

/// The node of the local revision in the loaded search.
pub open spec fn local_node(s: SyncState) -> usize {
    key_position(s.entries(), s.current_revision) as usize
}

/// The node of the latest revision in the loaded search.
pub open spec fn latest_node(s: SyncState) -> usize {
    key_position(s.entries(), last_key(s.entries())) as usize
}

/// The paths from the latest revision back to the local one.
pub open spec fn fast_forward_paths(s: SyncState) -> Seq<Seq<usize>> {
    simple_paths(s.entries().len(), all_chain_edges(s.entries()), latest_node(s), local_node(s))
}

/// Where the local and the latest revision meet when they are on a fork:
/// their nearest common ancestor (see `Search::find_common_ancestor`).
pub open spec fn fork_point(s: SyncState) -> Option<usize> {
    common_ancestor(s.entries().len(), all_chain_edges(s.entries()), local_node(s), latest_node(s))
}

/// The paths from the local revision back to the fork point `common`.
pub open spec fn fork_paths(s: SyncState, common: usize) -> Seq<Seq<usize>> {
    simple_paths(s.entries().len(), all_chain_edges(s.entries()), local_node(s), common)
}

/// A pull can be made: when out of sync, the chain loads into a search, the
/// local revision is in it, and if no path leads from the latest revision to
/// the local one, the two have a common ancestor and a merge revision can be
/// numbered.
pub open spec fn pull_ready(s: SyncState) -> bool {
    out_of_sync(s) ==> {
        &&& searchable(s.entries())
        &&& has_key(s.entries(), s.current_revision)
        &&& fast_forward_paths(s).len() == 0 ==> {
            &&& fork_point(s) is Some
            &&& s.inc < usize::MAX
        }
    }
}

/// What a pull from state `old` returns (`r`) and leaves (`new`).
/// In sync: nothing, and nothing changes.  When paths lead from the latest
/// revision back to the local one (a fast-forward): the diffs of the
/// revisions on those paths other than the local one, each once, in chain
/// order; the chain stays as it is and the local revision becomes the
/// latest.  Otherwise (a fork): the diffs on the first path from the local
/// revision back to the fork point, oldest first, without the fork point;
/// they are recorded as a merge revision, with the latest and the local
/// revision as parents, appended to the chain and made the local revision.
pub open spec fn pulled(old: SyncState, r: DiffView, new: SyncState) -> bool {
    let es = old.entries();
    if !out_of_sync(old) {
        &&& r == empty_diff()
        &&& new.entries() == es
        &&& new.current_revision == old.current_revision
        &&& new.inc == old.inc
    } else if fast_forward_paths(old).len() > 0 {
        let keys = weights_of(chain_nodes(es), fast_forward_order(fast_forward_paths(old), local_node(old), es.len()));
        &&& r == gathered(es, keys)
        &&& new.entries() == es
        &&& new.current_revision == last_key(es)
        &&& new.inc == old.inc
    } else {
        let common = fork_point(old).unwrap();
        let keys = weights_of(chain_nodes(es), fork_order(fork_paths(old, common), local_node(old), common));
        let merged = gathered(es, keys);
        let k = (old.inc + 1) as usize;
        &&& r == merged
        &&& new.inc == k
        &&& new.current_revision == k
        &&& new.entries().len() == es.len() + 1
        &&& new.entries().drop_last() == es
        &&& new.entries().last().0 == k
        &&& new.entries().last().1@ == EntryView { parents: seq![last_key(es), old.current_revision], diff: merged }
    }
}

/// The chain has room for one more entry with `extra_edges` edges.
pub open spec fn has_room(es: Seq<(usize, PerspectiveDiffEntry)>, extra_edges: nat) -> bool {
    &&& es.len() + 1 < MAX_GRAPH_INDEX
    &&& all_chain_edges(es).len() + extra_edges < MAX_GRAPH_INDEX
}

/// What a pull keeps: the state stays well-formed and ends in sync, the
/// counter stays the latest revision, parents stay before their children,
/// and a chain that loads still loads when it had room for a merge entry.
pub open spec fn pull_keeps(old: SyncState, new: SyncState) -> bool {
    &&& new.wf()
    &&& last_key(new.entries()) == new.current_revision
    &&& old.counted() ==> new.counted()
    &&& parents_first(old.entries()) ==> parents_first(new.entries())
    &&& searchable(old.entries()) && has_room(old.entries(), 2) ==> searchable(new.entries())
}

/// Revision `child` names `parent` as one of its parents (with a first
/// parent other than the root).
pub open spec fn names_parent(es: Seq<(usize, PerspectiveDiffEntry)>, child: usize, parent: usize) -> bool {
    &&& entry_of(es, child).parents@[0] != 0
    &&& entry_of(es, child).parents@.contains(parent)
}

/// No revision of `keys` comes before one of its parents in `keys`.
pub open spec fn parents_before_children(es: Seq<(usize, PerspectiveDiffEntry)>, keys: Seq<usize>) -> bool {
    forall|a: int, b: int| 0 <= a < b < keys.len() ==> !names_parent(es, #[trigger] keys[a], #[trigger] keys[b])
}

/// The choice and the replay order of a pull from `old`: a fast-forward is
/// made exactly when a simple path leads from the latest revision back to
/// the local one; it replays each revision on such paths other than the
/// local one once, in chain order, so parents before children and the
/// latest revision last.
pub open spec fn pull_replays(old: SyncState) -> bool {
    let es = old.entries();
    out_of_sync(old) ==> {
        &&& fast_forward_paths(old).len() > 0 <==> has_simple_path(all_chain_edges(es), latest_node(old), local_node(old))
        &&& fast_forward_paths(old).len() > 0 ==> {
            let nodes = fast_forward_order(fast_forward_paths(old), local_node(old), es.len());
            let keys = weights_of(chain_nodes(es), nodes);
            &&& strictly_increasing(nodes)
            &&& forall|d: usize| #[trigger] nodes.contains(d) <==> (d < es.len() && d != local_node(old) && on_some_path(fast_forward_paths(old), d))
            &&& nodes.len() > 0
            &&& nodes.last() == latest_node(old)
            &&& keys.no_duplicates()
            &&& keys.last() == last_key(es)
            &&& parents_before_children(es, keys)
        }
    }
}

/// The additions of the given revisions' diffs, in order.
pub open spec fn additions_of(es: Seq<(usize, PerspectiveDiffEntry)>, keys: Seq<usize>) -> Seq<Seq<LinkExpression>> {
    keys.map_values(|k: usize| entry_of(es, k).diff@.additions)
}

/// The removals of the given revisions' diffs, in order.
pub open spec fn removals_of(es: Seq<(usize, PerspectiveDiffEntry)>, keys: Seq<usize>) -> Seq<Seq<LinkExpression>> {
    keys.map_values(|k: usize| entry_of(es, k).diff@.removals)
}

/// `r` holds the diffs of the given revisions joined in order: its
/// additions are all their additions, its removals all their removals,
/// each revision's in full and in the order of `keys`.
pub open spec fn delivers(es: Seq<(usize, PerspectiveDiffEntry)>, keys: Seq<usize>, r: DiffView) -> bool {
    &&& r.additions == additions_of(es, keys).flatten_alt()
    &&& r.removals == removals_of(es, keys).flatten_alt()
}

/// Joining the diffs of revisions keeps every addition and every removal
/// of each of them, in order.
pub proof fn lemma_gathered_delivers(es: Seq<(usize, PerspectiveDiffEntry)>, keys: Seq<usize>)
    ensures
        delivers(es, keys, gathered(es, keys)),
    decreases keys.len(),
{
    if keys.len() > 0 {
        lemma_gathered_delivers(es, keys.drop_last());
        assert(additions_of(es, keys.drop_last()) =~= additions_of(es, keys).drop_last());
        assert(removals_of(es, keys.drop_last()) =~= removals_of(es, keys).drop_last());
    }
}

/// Every edge leads back to an earlier node.
pub open spec fn edges_strictly_back(edges: Seq<(usize, usize)>) -> bool {
    forall|e: int| 0 <= e < edges.len() ==> (#[trigger] edges[e]).1 < edges[e].0
}

/// The edges of a chain whose parents come first lead from an entry to an
/// earlier one.
pub proof fn lemma_chain_edges_back(es: Seq<(usize, PerspectiveDiffEntry)>, m: int)
    requires
        parents_first(es),
        es.len() <= MAX_GRAPH_INDEX,
        0 <= m <= es.len(),
    ensures
        edges_strictly_back(chain_edges(es, m)),
        forall|e: int| 0 <= e < chain_edges(es, m).len() ==> (#[trigger] chain_edges(es, m)[e]).0 < m,
    decreases m,
{
    if m > 0 {
        lemma_chain_edges_back(es, m - 1);
        let i = m - 1;
        let prev = chain_edges(es, i);
        let ee = entry_edges(es, i);
        let all = chain_edges(es, m);
        assert(all == prev + ee);
        assert forall|j: int| 0 <= j < ee.len() implies (#[trigger] ee[j]).1 < ee[j].0 && ee[j].0 == i by {
            let ps = es[i].1.parents@;
            assert(ps[0] != 0);
            let p = ps[j];
            assert(ee[j] == (i as usize, key_position(es, p) as usize));
            assert(has_key(es.take(i), p));
            let q = choose|q: int| 0 <= q < es.take(i).len() && es.take(i)[q].0 == p;
            assert(es[q].0 == p);
            lemma_find_key(es, p);
            assert(key_position(es, p) == q);
        }
        assert forall|e: int| 0 <= e < all.len() implies (#[trigger] all[e]).1 < all[e].0 && all[e].0 < m by {
            if e < prev.len() {
                assert(all[e] == prev[e]);
            } else {
                assert(all[e] == ee[e - prev.len()]);
            }
        }
    }
}

/// Along edges that lead back, a walk descends: later nodes are earlier ones.
pub proof fn lemma_walk_descends(edges: Seq<(usize, usize)>, p: Seq<usize>)
    requires
        edges_strictly_back(edges),
        is_walk(edges, p),
    ensures
        forall|i: int, j: int| 0 <= i < j < p.len() ==> p[j] < p[i],
    decreases p.len(),
{
    if p.len() >= 2 {
        let q = p.drop_last();
        assert forall|i: int| 0 <= i < q.len() - 1 implies #[trigger] is_edge(edges, q[i], q[i + 1]) by {
            assert(is_edge(edges, p[i], p[i + 1]));
        }
        lemma_walk_descends(edges, q);
        let k = p.len() - 2;
        assert(is_edge(edges, p[k], p[k + 1]));
        let e = choose|e: int| 0 <= e < edges.len() && edges[e] == (p[k], p[k + 1]);
        assert(edges[e].1 < edges[e].0);
        assert forall|i: int, j: int| 0 <= i < j < p.len() implies p[j] < p[i] by {
            if j < p.len() - 1 {
                assert(p[j] == q[j] && p[i] == q[i]);
            } else if i < k {
                assert(q[k] < q[i]);
            }
        }
    }
}

/// A walk up to one of its nodes reaches that node.
pub proof fn lemma_walk_prefix_reaches(edges: Seq<(usize, usize)>, p: Seq<usize>, k: int)
    requires
        is_walk(edges, p),
        0 <= k < p.len(),
    ensures
        reaches(edges, p[0], p[k]),
{
    let q = p.take(k + 1);
    assert forall|i: int| 0 <= i < q.len() - 1 implies #[trigger] is_edge(edges, q[i], q[i + 1]) by {
        assert(is_edge(edges, p[i], p[i + 1]));
    }
    assert(is_walk(edges, q));
}

/// Along edges that lead back, a node reached from another one comes
/// before it, and a simple path leads there.
pub proof fn lemma_reach_descends(edges: Seq<(usize, usize)>, a: usize, b: usize)
    requires
        edges_strictly_back(edges),
        reaches(edges, a, b),
        a != b,
    ensures
        b < a,
        exists|p: Seq<usize>| #[trigger] is_simple_path(edges, p, a, b),
{
    let p = choose|p: Seq<usize>| p.len() >= 1 && p[0] == a && p.last() == b && #[trigger] is_walk(edges, p);
    lemma_walk_descends(edges, p);
    assert(p.len() >= 2);
    assert(p.no_duplicates()) by {
        assert forall|i: int, j: int| 0 <= i < p.len() && 0 <= j < p.len() && i != j implies p[i] != p[j] by {
            if i < j {
                assert(p[j] < p[i]);
            } else {
                assert(p[i] < p[j]);
            }
        }
    }
    assert(is_simple_path(edges, p, a, b));
}

/// Leaving out the first element of a strictly increasing sequence.
pub proof fn lemma_without_first(s: Seq<usize>, x: usize)
    requires
        strictly_increasing(s),
        s.len() > 0,
        s[0] == x,
    ensures
        without(s, x) == s.drop_first(),
    decreases s.len(),
{
    let d = s.drop_last();
    if s.len() == 1 {
        assert(without(d, x) == d);
        assert(s.last() == x);
        assert(without(s, x) == without(d, x));
        assert(s.drop_first() =~= d);
    } else {
        assert(strictly_increasing(d));
        lemma_without_first(d, x);
        assert(s[0] < s[s.len() - 1]);
        assert(s.last() != x);
        assert(without(s, x) == without(d, x).push(s.last()));
        assert(d.drop_first().push(s.last()) =~= s.drop_first());
    }
}

/// What a pull delivers, stated over the revisions it replays.  A
/// fast-forward replays the revisions the latest revision has and the local
/// one lacks, every one of them between the two, none before an ancestor of
/// it, and returns their diffs in full.
/// A merge starts at the nearest common ancestor of the local and the
/// latest revision: it replays a line of revisions from a child of that
/// ancestor up to the local revision, each a child of the one before, none
/// of which the latest revision has; it returns their diffs in full, oldest
/// first, and records the same diff in a merge revision appended to the
/// chain, with the latest and the local revision as parents, numbered after
/// the latest and made the local revision.
pub open spec fn pull_delivers(old: SyncState, r: DiffView, new: SyncState) -> bool {
    let es = old.entries();
    let edges = all_chain_edges(es);
    let li = latest_node(old);
    let ci = local_node(old);
    out_of_sync(old) ==> if fast_forward_paths(old).len() > 0 {
        let nodes = fast_forward_order(fast_forward_paths(old), ci, es.len());
        &&& delivers(es, weights_of(chain_nodes(es), nodes), r)
        &&& forall|k: int| 0 <= k < nodes.len() ==> reaches(edges, li, #[trigger] nodes[k]) && !reaches(edges, ci, nodes[k])
        &&& forall|a: int, b: int| 0 <= a < b < nodes.len() ==> !reaches(edges, #[trigger] nodes[a], #[trigger] nodes[b])
        &&& forall|d: usize| reaches(edges, li, d) && #[trigger] reaches(edges, d, ci) && d != ci ==> nodes.contains(d)
        &&& new.entries() == es
        &&& new.current_revision == last_key(es)
    } else {
        match fork_point(old) {
            Some(c) => {
                let line = fork_order(fork_paths(old, c), ci, c);
                &&& nearest_common_ancestor(edges, ci, li, c)
                &&& merge_line(edges, line, c, ci, li)
                &&& delivers(es, weights_of(chain_nodes(es), line), r)
                &&& new.entries().drop_last() == es
                &&& new.entries().len() == es.len() + 1
                &&& new.entries().last().1@ == (EntryView { parents: seq![last_key(es), old.current_revision], diff: r })
                &&& new.current_revision == new.entries().last().0
                &&& new.current_revision > last_key(es)
            },
            None => false,
        }
    }
}

/// `c` is a common ancestor of `a` and `b`, and no common ancestor of
/// theirs comes after it.
pub open spec fn nearest_common_ancestor(edges: Seq<(usize, usize)>, a: usize, b: usize, c: usize) -> bool {
    &&& is_common_ancestor(edges, a, b, c)
    &&& forall|x: usize| #[trigger] is_common_ancestor(edges, a, b, x) ==> x <= c
}

/// `line` leads from a child of `c` up to `local`, each node a child of the
/// one before; every node is an ancestor of `local` (or `local` itself) and
/// none is one of `latest` or of `c`; no node is an ancestor of one before it.
pub open spec fn merge_line(edges: Seq<(usize, usize)>, line: Seq<usize>, c: usize, local: usize, latest: usize) -> bool {
    &&& line.len() > 0
    &&& line.last() == local
    &&& is_edge(edges, line[0], c)
    &&& forall|k: int| 0 <= k < line.len() - 1 ==> is_edge(edges, #[trigger] line[k + 1], line[k])
    &&& forall|k: int| 0 <= k < line.len() ==> {
        &&& reaches(edges, local, #[trigger] line[k])
        &&& !reaches(edges, latest, line[k])
        &&& !reaches(edges, c, line[k])
    }
    &&& forall|a: int, b: int| 0 <= a < b < line.len() ==> !reaches(edges, #[trigger] line[a], #[trigger] line[b])
}

/// The revisions a fast-forward replays are ancestors of the latest
/// revision (or the latest itself) and not of the local one, none after a
/// revision it is an ancestor of.
proof fn lemma_fast_forward_line(old: SyncState)
    requires
        searchable(old.entries()),
        latest_node(old) < old.entries().len(),
        local_node(old) < old.entries().len(),
        forall|i: int| #![trigger fast_forward_paths(old)[i]] 0 <= i < fast_forward_paths(old).len() ==> {
            let p = fast_forward_paths(old)[i];
            &&& p.len() >= 2
            &&& p[0] == latest_node(old)
            &&& p.last() == local_node(old)
            &&& is_walk(all_chain_edges(old.entries()), p)
        },
        latest_node(old) != local_node(old),
        forall|p: Seq<usize>| #[trigger] is_simple_path(all_chain_edges(old.entries()), p, latest_node(old), local_node(old))
            ==> fast_forward_paths(old).contains(p),
    ensures
        ({
            let es = old.entries();
            let edges = all_chain_edges(es);
            let nodes = fast_forward_order(fast_forward_paths(old), local_node(old), es.len());
            &&& forall|k: int| 0 <= k < nodes.len() ==> reaches(edges, latest_node(old), #[trigger] nodes[k])
                && !reaches(edges, local_node(old), nodes[k])
            &&& forall|a: int, b: int| 0 <= a < b < nodes.len() ==> !reaches(edges, #[trigger] nodes[a], #[trigger] nodes[b])
            &&& forall|d: usize| reaches(edges, latest_node(old), d) && #[trigger] reaches(edges, d, local_node(old))
                && d != local_node(old) ==> nodes.contains(d)
        }),
{
    let es = old.entries();
    let edges = all_chain_edges(es);
    let paths = fast_forward_paths(old);
    let ci = local_node(old);
    let li = latest_node(old);
    let nodes = fast_forward_order(paths, ci, es.len());
    lemma_chain_edges_back(es, es.len() as int);
    lemma_fast_forward_order(paths, ci, es.len());
    assert forall|k: int| 0 <= k < nodes.len() implies reaches(edges, li, #[trigger] nodes[k]) && !reaches(edges, ci, nodes[k]) by {
        let d = nodes[k];
        assert(nodes.contains(d));
        let i = choose|i: int| 0 <= i < paths.len() && paths[i].contains(d);
        let p = paths[i];
        let j = choose|j: int| 0 <= j < p.len() && p[j] == d;
        lemma_walk_prefix_reaches(edges, p, j);
        lemma_walk_descends(edges, p);
        assert(j != p.len() - 1);
        assert(ci < d);
        if reaches(edges, ci, d) {
            lemma_reach_descends(edges, ci, d);
        }
    }
    assert forall|a: int, b: int| 0 <= a < b < nodes.len() implies !reaches(edges, #[trigger] nodes[a], #[trigger] nodes[b]) by {
        if reaches(edges, nodes[a], nodes[b]) {
            lemma_reach_descends(edges, nodes[a], nodes[b]);
        }
    }
    assert forall|d: usize| reaches(edges, li, d) && #[trigger] reaches(edges, d, ci) && d != ci implies nodes.contains(d) by {
        lemma_path_through(edges, li, d, ci);
        let w = choose|w: Seq<usize>| #[trigger] is_simple_path(edges, w, li, ci) && w.contains(d);
        assert(paths.contains(w));
        let i = choose|i: int| 0 <= i < paths.len() && paths[i] == w;
        assert(on_some_path(paths, d));
        if d != li {
            lemma_reach_descends(edges, li, d);
        }
    }
}

/// Along edges that lead back, a walk from `a` through `d` to another node
/// `b` makes a simple path from `a` to `b` through `d`.
proof fn lemma_path_through(edges: Seq<(usize, usize)>, a: usize, d: usize, b: usize)
    requires
        edges_strictly_back(edges),
        reaches(edges, a, d),
        reaches(edges, d, b),
        a != b,
    ensures
        exists|w: Seq<usize>| #[trigger] is_simple_path(edges, w, a, b) && w.contains(d),
{
    let p = choose|p: Seq<usize>| p.len() >= 1 && p[0] == a && p.last() == d && #[trigger] is_walk(edges, p);
    let q = choose|q: Seq<usize>| q.len() >= 1 && q[0] == d && q.last() == b && #[trigger] is_walk(edges, q);
    let w = p + q.drop_first();
    assert forall|i: int| 0 <= i < w.len() - 1 implies #[trigger] is_edge(edges, w[i], w[i + 1]) by {
        if i < p.len() - 1 {
            assert(is_edge(edges, p[i], p[i + 1]));
        } else {
            let t = i - p.len() + 1;
            assert(w[i] == q[t] && w[i + 1] == q[t + 1]);
            assert(is_edge(edges, q[t], q[t + 1]));
        }
    }
    if q.len() == 1 {
        assert(w =~= p);
    }
    assert(w.last() == b);
    assert(w[p.len() - 1] == d);
    lemma_walk_descends(edges, w);
    assert(w.no_duplicates()) by {
        assert forall|i: int, j: int| 0 <= i < w.len() && 0 <= j < w.len() && i != j implies w[i] != w[j] by {
            if i < j {
                assert(w[j] < w[i]);
            } else {
                assert(w[i] < w[j]);
            }
        }
    }
    assert(w.len() >= 2);
    assert(is_simple_path(edges, w, a, b) && w.contains(d));
}

/// A merge starts at the nearest common ancestor of the local and the
/// latest revision and replays a line from a child of it up to the local
/// revision, none of which the latest revision has.
proof fn lemma_merge_line(old: SyncState, c: usize)
    requires
        searchable(old.entries()),
        latest_node(old) < old.entries().len(),
        local_node(old) < old.entries().len(),
        latest_node(old) != local_node(old),
        !has_simple_path(all_chain_edges(old.entries()), latest_node(old), local_node(old)),
        fork_point(old) == Some(c),
        forall|i: int| #![trigger fork_paths(old, c)[i]] 0 <= i < fork_paths(old, c).len() ==> {
            let p = fork_paths(old, c)[i];
            &&& p.len() >= 2
            &&& p[0] == local_node(old)
            &&& p.last() == c
            &&& is_walk(all_chain_edges(old.entries()), p)
        },
        local_node(old) != c ==> forall|p: Seq<usize>| #[trigger] is_simple_path(all_chain_edges(old.entries()), p, local_node(old), c)
            ==> fork_paths(old, c).contains(p),
    ensures
        nearest_common_ancestor(all_chain_edges(old.entries()), local_node(old), latest_node(old), c),
        merge_line(
            all_chain_edges(old.entries()),
            fork_order(fork_paths(old, c), local_node(old), c),
            c,
            local_node(old),
            latest_node(old),
        ),
{
    let es = old.entries();
    let n = es.len();
    let edges = all_chain_edges(es);
    let ci = local_node(old);
    let li = latest_node(old);
    let fork = fork_paths(old, c);
    lemma_chain_edges_back(es, n as int);
    lemma_last_common_ancestor(edges, ci, li, n);
    assert(is_common_ancestor(edges, ci, li, c));
    assert forall|x: usize| #[trigger] is_common_ancestor(edges, ci, li, x) implies x <= c by {
        if x != ci {
            lemma_reach_descends(edges, ci, x);
        }
        assert(x < n);
    }
    assert(ci != c) by {
        if ci == c {
            lemma_reach_descends(edges, li, ci);
        }
    }
    lemma_reach_descends(edges, ci, c);
    let sp = choose|sp: Seq<usize>| #[trigger] is_simple_path(edges, sp, ci, c);
    assert(fork.contains(sp));
    assert(fork.len() > 0);
    let p = fork[0];
    assert(p[0] == ci);
    assert(p.contains(ci));
    assert(first_path_through(fork, ci) == Some(p));
    let len = p.len() as int;
    lemma_walk_descends(edges, p);
    let rev = p.reverse();
    assert(strictly_increasing(rev)) by {
        assert forall|a: int, b: int| 0 <= a < b < rev.len() implies rev[a] < rev[b] by {
            assert(rev[a] == p[len - 1 - a] && rev[b] == p[len - 1 - b]);
        }
    }
    assert(rev[0] == c);
    lemma_without_first(rev, c);
    let line = fork_order(fork, ci, c);
    assert(line == rev.drop_first());
    assert(line.len() == len - 1);
    assert forall|k: int| 0 <= k < line.len() implies #[trigger] line[k] == p[len - 2 - k] by {}
    assert(line.last() == ci);
    assert(is_edge(edges, line[0], c)) by {
        assert(is_edge(edges, p[len - 2], p[len - 1]));
    }
    assert forall|k: int| 0 <= k < line.len() - 1 implies is_edge(edges, #[trigger] line[k + 1], line[k]) by {
        assert(line[k + 1] == p[len - 3 - k] && line[k] == p[len - 2 - k]);
        assert(is_edge(edges, p[len - 3 - k], p[len - 3 - k + 1]));
    }
    assert forall|k: int| 0 <= k < line.len() implies {
        &&& reaches(edges, ci, #[trigger] line[k])
        &&& !reaches(edges, li, line[k])
        &&& !reaches(edges, c, line[k])
    } by {
        let j = len - 2 - k;
        assert(line[k] == p[j]);
        lemma_walk_prefix_reaches(edges, p, j);
        assert(c < p[j]);
        if reaches(edges, li, p[j]) {
            assert(is_common_ancestor(edges, ci, li, p[j]));
        }
        if reaches(edges, c, p[j]) {
            lemma_reach_descends(edges, c, p[j]);
        }
    }
    assert forall|a: int, b: int| 0 <= a < b < line.len() implies !reaches(edges, #[trigger] line[a], #[trigger] line[b]) by {
        assert(line[a] == rev[a + 1] && line[b] == rev[b + 1]);
        if reaches(edges, line[a], line[b]) {
            lemma_reach_descends(edges, line[a], line[b]);
        }
    }
}

/// The parents a commit records: the injected ones, or else the latest revision.
pub open spec fn committed_parents(es: Seq<(usize, PerspectiveDiffEntry)>, inject_parent: Option<Vec<usize>>) -> Seq<usize> {
    match inject_parent {
        Some(ps) => ps@,
        None => seq![last_key(es)],
    }
}

/// There is a first parent, and after a first parent other than the root
/// every parent is a revision of the chain.
pub open spec fn parents_known(es: Seq<(usize, PerspectiveDiffEntry)>, parents: Seq<usize>) -> bool {
    &&& parents.len() > 0
    &&& parents[0] != 0 ==> forall|j: int| 0 <= j < parents.len() ==> has_key(es, #[trigger] parents[j])
}

/// The parents are known and the graphs have room for the new entry.
pub open spec fn can_commit_onto(es: Seq<(usize, PerspectiveDiffEntry)>, parents: Seq<usize>) -> bool {
    &&& parents_known(es, parents)
    &&& has_room(es, parents.len())
}

/// The latest revision: the one the chain ends with, or 0 for an empty chain.
pub fn latest_revision(state: &SyncState) -> (r: usize)
    ensures
        r == last_key(state.entries()),
{
    match chain_last(&state.chain) {
        Some((key, _)) => *key,
        None => 0,
    }
}

/// The revision the local state is at.
pub fn current_revision(state: &SyncState) -> (r: usize)
    ensures
        r == state.current_revision,
{
    state.current_revision
}

/// The text that shows the search of the chain (see `Search::print`).
pub fn render(state: &SyncState) -> (r: String)
    requires
        searchable(state.entries()),
    ensures
        r@ == search_text(state.entries().len(), all_chain_edges(state.entries())),
{
    let search = populate_search(&state.chain);
    search.print()
}

/// Whether the chain can be loaded into a search.
pub fn loadable(state: &SyncState) -> (r: bool)
    requires
        state.wf(),
    ensures
        r == searchable(state.entries()),
{
    let ghost es = state.entries();
    let n = chain_len(&state.chain);
    if n >= MAX_GRAPH_INDEX {
        return false;
    }
    let mut edges: usize = 0;
    let mut i: usize = 0;
    while i < n
        invariant
            es == state.entries(),
            unique_keys(es),
            n == es.len(),
            n < MAX_GRAPH_INDEX,
            i <= n,
            edges == chain_edges(es, i as int).len(),
            edges < MAX_GRAPH_INDEX,
            forall|k: int| 0 <= k < i ==> (#[trigger] es[k]).1.parents@.len() > 0,
            forall|k: int, j: int|
                0 <= k < i && es[k].1.parents@[0] != 0 && 0 <= j < es[k].1.parents@.len() ==> has_key(
                    es.take(k),
                    #[trigger] es[k].1.parents@[j],
                ),
        decreases n - i,
    {
        let (_, entry) = chain_get_index(&state.chain, i).unwrap();
        if entry.parents.len() == 0 {
            assert(!parents_first(es));
            return false;
        }
        if entry.parents[0] != 0 {
            let mut j: usize = 0;
            while j < entry.parents.len()
                invariant
                    es == state.entries(),
                    i < n,
                    n == es.len(),
                    *entry == es[i as int].1,
                    es[i as int].1.parents@[0] != 0,
                    j <= entry.parents.len(),
                    forall|jj: int| 0 <= jj < j ==> has_key(es.take(i as int), #[trigger] es[i as int].1.parents@[jj]),
                decreases entry.parents.len() - j,
            {
                let p = entry.parents[j];
                let mut found = false;
                let mut q: usize = 0;
                while q < i
                    invariant
                        es == state.entries(),
                        i < n,
                        n == es.len(),
                        q <= i,
                        found <==> exists|qq: int| 0 <= qq < q && es[qq].0 == p,
                    decreases i - q,
                {
                    let (k, _) = chain_get_index(&state.chain, q).unwrap();
                    if *k == p {
                        found = true;
                    }
                    q = q + 1;
                }
                if !found {
                    assert(!has_key(es.take(i as int), p)) by {
                        if has_key(es.take(i as int), p) {
                            let qq = choose|qq: int| 0 <= qq < i && es.take(i as int)[qq].0 == p;
                            assert(es[qq].0 == p);
                        }
                    }
                    proof {
                        assert(es[i as int].1.parents@[j as int] == p);
                        if parents_first(es) {
                            assert(has_key(es.take(i as int), es[i as int].1.parents@[j as int]));
                        }
                    }
                    return false;
                }
                proof {
                    let qq = choose|qq: int| 0 <= qq < i && es[qq].0 == p;
                    assert(es.take(i as int)[qq].0 == p);
                }
                j = j + 1;
            }
            if entry.parents.len() >= MAX_GRAPH_INDEX - edges {
                proof {
                    assert(chain_edges(es, i + 1).len() == edges + entry.parents.len());
                    lemma_chain_edges_grow(es, i + 1, n as int);
                }
                return false;
            }
            edges = edges + entry.parents.len();
        }
        assert(chain_edges(es, i + 1) == chain_edges(es, i as int) + entry_edges(es, i as int));
        i = i + 1;
    }
    true
}

/// Appending an entry under a new revision leaves the edges of the entries before it.
proof fn lemma_chain_edges_push(es: Seq<(usize, PerspectiveDiffEntry)>, pair: (usize, PerspectiveDiffEntry), m: int)
    requires
        parents_first(es),
        0 <= m <= es.len(),
        !has_key(es, pair.0),
    ensures
        chain_edges(es.push(pair), m) == chain_edges(es, m),
    decreases m,
{
    if m > 0 {
        lemma_chain_edges_push(es, pair, m - 1);
        let i = m - 1;
        let es2 = es.push(pair);
        assert(es2[i] == es[i]);
        if es[i].1.parents@[0] != 0 {
            assert forall|j: int| 0 <= j < es[i].1.parents@.len() implies key_position(es2, #[trigger] es[i].1.parents@[j])
                == key_position(es, es[i].1.parents@[j]) by {
                let p = es[i].1.parents@[j];
                assert(has_key(es.take(i), p));
                let q = choose|q: int| 0 <= q < es.take(i).len() && es.take(i)[q].0 == p;
                assert(es[q].0 == p);
                lemma_find_key_push(es, pair, p);
            }
            assert(entry_edges(es2, i) =~= entry_edges(es, i));
        }
    }
}

/// Records `diff` under the next revision number with the given parents,
/// last in the chain, and makes it the local revision.
fn record(state: &mut SyncState, parents: Vec<usize>, diff: PerspectiveDiff) -> (r: usize)
    requires
        old(state).wf(),
        old(state).inc < usize::MAX,
    ensures
        r == old(state).inc + 1,
        final(state).inc == r,
        final(state).current_revision == r,
        final(state).entries().len() == old(state).entries().len() + 1,
        final(state).entries().drop_last() == old(state).entries(),
        final(state).entries().last().0 == r,
        final(state).entries().last().1@ == (EntryView { parents: parents@, diff: diff@ }),
        final(state).wf(),
        final(state).counted(),
        parents_first(old(state).entries()) && parents_known(old(state).entries(), parents@) ==> parents_first(
            final(state).entries(),
        ),
        parents_first(old(state).entries()) ==> all_chain_edges(final(state).entries()).len()
            <= all_chain_edges(old(state).entries()).len() + parents@.len(),
{
    let ghost es = state.entries();
    let ghost ps = parents@;
    state.inc = state.inc + 1;
    let key = state.inc;
    let entry = PerspectiveDiffEntry { parents, diff };
    let ghost pair = (key, entry);
    proof {
        if has_key(es, key) {
            let q = choose|q: int| 0 <= q < es.len() && es[q].0 == key;
            assert(es[q].0 <= old(state).inc);
        }
        lemma_find_key(es, key);
    }
    let _ = chain_insert(&mut state.chain, key, entry);
    state.current_revision = key;
    proof {
        let es2 = state.entries();
        assert(es2 == es.push(pair));
        assert(es2.drop_last() =~= es);
        assert forall|i: int, j: int| 0 <= i < es2.len() && 0 <= j < es2.len() && i != j implies es2[i].0 != es2[j].0 by {
            if i < es.len() && j < es.len() {
                assert(es2[i] == es[i] && es2[j] == es[j]);
            } else if i < es.len() {
                assert(es2[i] == es[i]);
                assert(es[i].0 <= old(state).inc);
            } else {
                assert(es2[j] == es[j]);
                assert(es[j].0 <= old(state).inc);
            }
        }
        assert forall|i: int| 0 <= i < es2.len() implies #[trigger] es2[i].0 <= state.inc by {
            if i < es.len() {
                assert(es2[i] == es[i]);
            }
        }
        if parents_first(es) {
            let n = es.len() as int;
            lemma_chain_edges_push(es, pair, n);
            assert(chain_edges(es2, n + 1) == chain_edges(es2, n) + entry_edges(es2, n));
            assert(es2[n] == pair);
            if parents_known(es, ps) {
                assert(es2.take(n) =~= es);
                assert forall|i: int| 0 <= i < es2.len() implies (#[trigger] es2[i]).1.parents@.len() > 0 by {
                    if i < n {
                        assert(es2[i] == es[i]);
                    }
                }
                assert forall|i: int, j: int|
                    0 <= i < es2.len() && es2[i].1.parents@[0] != 0 && 0 <= j < es2[i].1.parents@.len() implies has_key(
                    es2.take(i),
                    #[trigger] es2[i].1.parents@[j],
                ) by {
                    if i < n {
                        assert(es2[i] == es[i]);
                        assert(es2.take(i) =~= es.take(i));
                    }
                }
            }
        }
    }
    key
}

/// A commit from `old` recorded `diff` with these parents under revision
/// `r`, the next number: appended last, and made the local and the latest
/// revision.
pub open spec fn committed(old: SyncState, parents: Seq<usize>, diff: DiffView, r: usize, new: SyncState) -> bool {
    &&& r == old.inc + 1
    &&& new.inc == r
    &&& new.current_revision == r
    &&& new.entries().len() == old.entries().len() + 1
    &&& new.entries().drop_last() == old.entries()
    &&& new.entries().last().0 == r
    &&& new.entries().last().1@ == (EntryView { parents, diff })
    &&& last_key(new.entries()) == r
}

/// Two commits in a row, the second without injected parents: the second
/// gets the next number and has the first as its only parent.
pub proof fn lemma_commits_in_a_row(
    s0: SyncState,
    p1: Seq<usize>,
    d1: DiffView,
    k1: usize,
    s1: SyncState,
    d2: DiffView,
    k2: usize,
    s2: SyncState,
)
    requires
        committed(s0, p1, d1, k1, s1),
        committed(s1, committed_parents(s1.entries(), None), d2, k2, s2),
    ensures
        k2 == k1 + 1,
        s2.entries().last().1@.parents == seq![k1],
        s2.entries().drop_last().drop_last() == s0.entries(),
{
}

/// Records `diff` under the next revision number, with the injected parents
/// or else the latest revision as parent, and makes it the local revision.
/// Returns the new revision, which is then the latest.
pub fn commit(state: &mut SyncState, diff: PerspectiveDiff, inject_parent: Option<Vec<usize>>) -> (r: usize)
    requires
        old(state).wf(),
        old(state).inc < usize::MAX,
    ensures
        committed(*old(state), committed_parents(old(state).entries(), inject_parent), diff@, r, *final(state)),
        final(state).wf(),
        final(state).counted(),
        parents_first(old(state).entries()) && parents_known(
            old(state).entries(),
            committed_parents(old(state).entries(), inject_parent),
        ) ==> parents_first(final(state).entries()),
        parents_first(old(state).entries()) ==> all_chain_edges(final(state).entries()).len()
            <= all_chain_edges(old(state).entries()).len() + committed_parents(old(state).entries(), inject_parent).len(),
        searchable(old(state).entries()) && can_commit_onto(
            old(state).entries(),
            committed_parents(old(state).entries(), inject_parent),
        ) ==> searchable(final(state).entries()),
{
    let ghost parents_spec = committed_parents(state.entries(), inject_parent);
    let parent = match inject_parent {
        None => vec![latest_revision(state)],
        Some(ps) => ps,
    };
    assert(parent@ =~= parents_spec);
    record(state, parent, diff)
}

/// The diffs of the given nodes' revisions, joined in order, read from the
/// chain without changing it: every addition and every removal of each of
/// them, in the order of the nodes.
pub fn collect_diffs(chain: &Chain, search: &Search, nodes: &Vec<usize>) -> (out: PerspectiveDiff)
    requires
        unique_keys(chain_entries(*chain)),
        all_below(nodes@, search.nodes().len()),
        forall|d: int| 0 <= d < search.nodes().len() ==> has_key(chain_entries(*chain), #[trigger] search.nodes()[d]),
    ensures
        out@ == gathered(chain_entries(*chain), weights_of(search.nodes(), nodes@)),
        delivers(chain_entries(*chain), weights_of(search.nodes(), nodes@), out@),
{
    let ghost es = chain_entries(*chain);
    let mut out = PerspectiveDiff::empty();
    let mut i: usize = 0;
    while i < nodes.len()
        invariant
            es == chain_entries(*chain),
            unique_keys(es),
            all_below(nodes@, search.nodes().len()),
            forall|d: int| 0 <= d < search.nodes().len() ==> has_key(es, #[trigger] search.nodes()[d]),
            i <= nodes.len(),
            out@ == gathered(es, weights_of(search.nodes(), nodes@.take(i as int))),
        decreases nodes.len() - i,
    {
        let key = digraph_weight(&search.graph, nodes[i]);
        assert(search.nodes()[nodes@[i as int] as int] == key);
        proof {
            lemma_find_key(es, key);
        }
        match chain_get(chain, key) {
            Some(entry) => {
                out.extend_with(&entry.diff);
            },
            None => {},
        }
        proof {
            let keys1 = weights_of(search.nodes(), nodes@.take(i + 1));
            assert(keys1.drop_last() =~= weights_of(search.nodes(), nodes@.take(i as int)));
            assert(keys1.last() == key);
        }
        i = i + 1;
    }
    assert(nodes@.take(i as int) =~= nodes@);
    proof {
        lemma_gathered_delivers(es, weights_of(search.nodes(), nodes@));
    }
    out
}

/// The search of an out-of-sync state, with the nodes of its latest and of
/// its local revision.
fn load(state: &SyncState) -> (r: (Search, usize, usize))
    requires
        state.wf(),
        out_of_sync(*state),
        searchable(state.entries()),
        has_key(state.entries(), state.current_revision),
    ensures
        r.0.wf(),
        r.0.nodes() == chain_nodes(state.entries()),
        r.0.edges() == all_chain_edges(state.entries()),
        r.1 == latest_node(*state),
        r.2 == local_node(*state),
        r.1 == state.entries().len() - 1,
        r.2 < state.entries().len(),
        state.entries()[r.2 as int].0 == state.current_revision,
        r.1 != r.2,
{
    let ghost es = state.entries();
    let latest = latest_revision(state);
    let current = current_revision(state);
    let search = populate_search(&state.chain);
    proof {
        lemma_find_key(es, current);
        assert(has_key(es, latest) && es[es.len() - 1].0 == latest);
        lemma_find_key(es, latest);
    }
    let current_index = *search.get_node_index(&current).unwrap();
    let latest_index = *search.get_node_index(&latest).unwrap();
    (search, latest_index, current_index)
}

/// A pull from an out-of-sync state, given its search, the nodes of its
/// latest and local revision, and the paths from the one to the other.
fn pull_loaded(
    state: &mut SyncState,
    search: &Search,
    latest_index: usize,
    current_index: usize,
    ancestor_status: Vec<Vec<usize>>,
) -> (r: PerspectiveDiff)
    requires
        old(state).wf(),
        pull_ready(*old(state)),
        out_of_sync(*old(state)),
        search.wf(),
        search.nodes() == chain_nodes(old(state).entries()),
        search.edges() == all_chain_edges(old(state).entries()),
        latest_index == latest_node(*old(state)),
        current_index == local_node(*old(state)),
        latest_index == old(state).entries().len() - 1,
        current_index < old(state).entries().len(),
        old(state).entries()[current_index as int].0 == old(state).current_revision,
        latest_index != current_index,
        ancestor_status.deep_view() == fast_forward_paths(*old(state)),
        forall|i: int| #![trigger ancestor_status.deep_view()[i]] 0 <= i < ancestor_status.len() ==> {
            let p = ancestor_status.deep_view()[i];
            &&& p.len() >= 2
            &&& p[0] == latest_index
            &&& p.last() == current_index
            &&& is_walk(search.edges(), p)
            &&& forall|j: int| 0 <= j < p.len() ==> #[trigger] p[j] < search.nodes().len()
        },
        ancestor_status.len() > 0 <==> has_simple_path(search.edges(), latest_index, current_index),
        forall|p: Seq<usize>| #[trigger] is_simple_path(search.edges(), p, latest_index, current_index)
            ==> ancestor_status.deep_view().contains(p),
    ensures
        pulled(*old(state), r@, *final(state)),
        pull_keeps(*old(state), *final(state)),
        pull_replays(*old(state)),
        pull_delivers(*old(state), r@, *final(state)),
{
    let ghost s0 = *state;
    let ghost es = state.entries();
    let latest = latest_revision(state);
    let current = current_revision(state);
    proof {
        assert forall|d: int| 0 <= d < search.nodes().len() implies has_key(es, #[trigger] search.nodes()[d]) by {
            assert(es[d].0 == search.nodes()[d]);
        }
    }
    if ancestor_status.len() > 0 {
        let n = chain_len(&state.chain);
        let diffs = fast_forward_nodes(&ancestor_status, current_index, n);
        let ghost paths = ancestor_status.deep_view();
        let ghost keys = weights_of(search.nodes(), diffs@);
        proof {
            lemma_fast_forward_order(paths, current_index, n as nat);
            assert(paths[0][0] == latest_index);
            assert(paths[0].contains(latest_index));
            assert(on_some_path(paths, latest_index));
            lemma_fast_forward_ends_with(paths, current_index, n as nat);
            assert(keys.last() == es[latest_index as int].0);
            assert(keys.no_duplicates()) by {
                assert forall|a: int, b: int| 0 <= a < keys.len() && 0 <= b < keys.len() && a != b implies keys[a] != keys[b] by {
                    let (x, y) = (diffs@[a], diffs@[b]);
                    if a < b {
                        assert(x < y);
                    } else {
                        assert(y < x);
                    }
                    assert(keys[a] == es[x as int].0 && keys[b] == es[y as int].0);
                }
            }
            assert(parents_before_children(es, keys)) by {
                assert forall|a: int, b: int| 0 <= a < b < keys.len() implies !names_parent(es, #[trigger] keys[a], #[trigger] keys[b]) by {
                    let (x, y) = (diffs@[a] as int, diffs@[b] as int);
                    assert(x < y);
                    lemma_find_key(es, keys[a]);
                    assert(key_position(es, keys[a]) == x);
                    if names_parent(es, keys[a], keys[b]) {
                        let j = choose|j: int| 0 <= j < es[x].1.parents@.len() && es[x].1.parents@[j] == keys[b];
                        assert(has_key(es.take(x), es[x].1.parents@[j]));
                        let q = choose|q: int| 0 <= q < es.take(x).len() && es.take(x)[q].0 == keys[b];
                        assert(es[q].0 == es[y].0);
                    }
                }
            }
        }
        let out = collect_diffs(&state.chain, search, &diffs);
        proof {
            assert forall|i: int| #![trigger fast_forward_paths(s0)[i]] 0 <= i < fast_forward_paths(s0).len() implies {
                let p = fast_forward_paths(s0)[i];
                &&& p.len() >= 2
                &&& p[0] == latest_node(s0)
                &&& p.last() == local_node(s0)
                &&& is_walk(all_chain_edges(es), p)
            } by {
                assert(paths[i] == ancestor_status.deep_view()[i]);
            }
            lemma_fast_forward_line(s0);
            lemma_gathered_delivers(es, keys);
        }
        state.current_revision = latest;
        out
    } else {
        let common = search.find_common_ancestor(current_index, latest_index).unwrap();
        let paths = search.get_paths(current_index, common);
        let ghost fork = paths.deep_view();
        proof {
            assert forall|i: int| 0 <= i < fork.len() implies all_below(#[trigger] fork[i], es.len()) by {
                let p = fork[i];
                assert forall|j: int| 0 <= j < p.len() implies #[trigger] p[j] < es.len() by {
                    assert(p[j] < search.nodes().len());
                }
            }
            lemma_fork_below(fork, current_index, common, es.len());
        }
        proof {
            assert forall|i: int| #![trigger fork_paths(s0, common)[i]] 0 <= i < fork_paths(s0, common).len() implies {
                let p = fork_paths(s0, common)[i];
                &&& p.len() >= 2
                &&& p[0] == local_node(s0)
                &&& p.last() == common
                &&& is_walk(all_chain_edges(es), p)
            } by {
                assert(fork[i] == paths.deep_view()[i]);
            }
            lemma_merge_line(s0, common);
        }
        let diffs = fork_nodes(paths, current_index, common);
        let merge_entry = collect_diffs(&state.chain, search, &diffs);
        proof {
            lemma_gathered_delivers(es, weights_of(search.nodes(), diffs@));
        }
        proof {
            assert(has_key(es, latest) && es[es.len() - 1].0 == latest);
            assert(has_key(es, current) && es[current_index as int].0 == current);
            let ps = seq![latest, current];
            assert(parents_known(es, ps)) by {
                assert forall|j: int| 0 <= j < ps.len() implies has_key(es, #[trigger] ps[j]) by {}
            }
        }
        let parents = vec![latest, current];
        assert(parents@ =~= seq![latest, current]);
        let _ = record(state, parents, merge_entry.duplicate());
        merge_entry
    }
}

/// Brings the local state up to the latest revision and returns the diff
/// that takes it there.  When the latest revision descends from the local
/// one, the diffs of the revisions in between are returned, each once and
/// in chain order, and the local revision becomes the latest (a
/// fast-forward); when they are on a fork, the diffs from the fork point to
/// the local revision are recorded in a merge revision that becomes the
/// local one.  Either way the chain afterwards ends with the local revision
/// and keeps its earlier entries in their order.
pub fn pull(state: &mut SyncState) -> (r: PerspectiveDiff)
    requires
        old(state).wf(),
        pull_ready(*old(state)),
    ensures
        pulled(*old(state), r@, *final(state)),
        pull_keeps(*old(state), *final(state)),
        pull_replays(*old(state)),
        pull_delivers(*old(state), r@, *final(state)),
{
    if latest_revision(state) != current_revision(state) {
        let (search, latest_index, current_index) = load(state);
        let ancestor_status = search.get_paths(latest_index, current_index);
        pull_loaded(state, &search, latest_index, current_index, ancestor_status)
    } else {
        PerspectiveDiff::empty()
    }
}

/// `pull` where it can be made; where the local and the latest revision are
/// on a fork without a common ancestor, nothing is pulled and the state stays.
pub fn try_pull(state: &mut SyncState) -> (r: Option<PerspectiveDiff>)
    requires
        old(state).wf(),
        out_of_sync(*old(state)) ==> {
            &&& searchable(old(state).entries())
            &&& has_key(old(state).entries(), old(state).current_revision)
            &&& old(state).inc < usize::MAX
        },
    ensures
        match r {
            Some(d) => {
                &&& pull_ready(*old(state))
                &&& pulled(*old(state), d@, *final(state))
                &&& pull_keeps(*old(state), *final(state))
                &&& pull_replays(*old(state))
                &&& pull_delivers(*old(state), d@, *final(state))
            },
            None => {
                &&& !pull_ready(*old(state))
                &&& *final(state) == *old(state)
            },
        },
{
    if latest_revision(state) != current_revision(state) {
        let (search, latest_index, current_index) = load(state);
        let ancestor_status = search.get_paths(latest_index, current_index);
        if ancestor_status.len() == 0 && search.find_common_ancestor(current_index, latest_index).is_none() {
            return None;
        }
        Some(pull_loaded(state, &search, latest_index, current_index, ancestor_status))
    } else {
        Some(PerspectiveDiff::empty())
    }
}

/// Pulling from a state that is in sync brings nothing and changes
/// nothing.  As every pull and every commit leaves the state in sync, a pull
/// right after either brings nothing.
pub proof fn lemma_pull_in_sync(s: SyncState, r: DiffView, t: SyncState)
    requires
        last_key(s.entries()) == s.current_revision,
        pulled(s, r, t),
    ensures
        r == empty_diff(),
        t.entries() == s.entries(),
        t.current_revision == s.current_revision,
        t.inc == s.inc,
{
}

} // verus!
