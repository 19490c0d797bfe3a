//! The order in which a pull replays revisions, derived from the paths
//! between the local and the latest revision.

use vstd::prelude::*;

verus! {

/// `s` without the elements equal to `x`.
pub open spec fn without(s: Seq<usize>, x: usize) -> Seq<usize>
    decreases s.len(),
{
    if s.len() == 0 {
        s
    } else if s.last() == x {
        without(s.drop_last(), x)
    } else {
        without(s.drop_last(), x).push(s.last())
    }
}

/// Node `d` lies on one of the paths.
pub open spec fn on_some_path(paths: Seq<Seq<usize>>, d: usize) -> bool {
    exists|i: int| 0 <= i < paths.len() && paths[i].contains(d)
}

/// The nodes of a fast-forward, in replay order: every node below `m` that
/// lies on one of the paths, except the local node, each once, in
/// increasing order.
pub open spec fn fast_forward_order(paths: Seq<Seq<usize>>, current_index: usize, m: nat) -> Seq<usize>
    decreases m,
{
    if m == 0 {
        Seq::empty()
    } else {
        let d = (m - 1) as usize;
        let before = fast_forward_order(paths, current_index, (m - 1) as nat);
        if on_some_path(paths, d) && d != current_index {
            before.push(d)
        } else {
            before
        }
    }
}

/// The elements increase strictly.
pub open spec fn strictly_increasing(s: Seq<usize>) -> bool {
    forall|a: int, b: int| 0 <= a < b < s.len() ==> s[a] < s[b]
}

/// The first path that passes through `node`, if any.
pub open spec fn first_path_through(paths: Seq<Seq<usize>>, node: usize) -> Option<Seq<usize>>
    decreases paths.len(),
{
    if paths.len() == 0 {
        None
    } else if paths[0].contains(node) {
        Some(paths[0])
    } else {
        first_path_through(paths.drop_first(), node)
    }
}

/// The nodes of a fork, in replay order: the first path through the local
/// node, reversed, without the common ancestor; nothing if no path passes.
pub open spec fn fork_order(paths: Seq<Seq<usize>>, current_index: usize, common: usize) -> Seq<usize> {
    match first_path_through(paths, current_index) {
        Some(p) => without(p.reverse(), common),
        None => Seq::empty(),
    }
}

/// Every element is below `n`.
pub open spec fn all_below(s: Seq<usize>, n: nat) -> bool {
    forall|i: int| 0 <= i < s.len() ==> #[trigger] s[i] < n
}

/// The replay order of a fast-forward holds exactly the nodes below `m` on
/// a path other than the local one, each once, in increasing order.
pub proof fn lemma_fast_forward_order(paths: Seq<Seq<usize>>, current_index: usize, m: nat)
    requires
        m <= usize::MAX + 1,
    ensures
        strictly_increasing(fast_forward_order(paths, current_index, m)),
        forall|d: usize| #[trigger] fast_forward_order(paths, current_index, m).contains(d) <==> (d < m
            && d != current_index && on_some_path(paths, d)),
        all_below(fast_forward_order(paths, current_index, m), m),
    decreases m,
{
    if m > 0 {
        let d = (m - 1) as usize;
        let before = fast_forward_order(paths, current_index, (m - 1) as nat);
        lemma_fast_forward_order(paths, current_index, (m - 1) as nat);
        let r = fast_forward_order(paths, current_index, m);
        assert forall|x: usize| #[trigger] r.contains(x) <==> (x < m && x != current_index && on_some_path(paths, x)) by {
            if r.contains(x) {
                let k = choose|k: int| 0 <= k < r.len() && r[k] == x;
                if k < before.len() {
                    assert(before[k] == x);
                    assert(before.contains(x));
                }
            }
            if x < m && x != current_index && on_some_path(paths, x) {
                if x == d {
                    assert(r[r.len() - 1] == x);
                } else {
                    assert(before.contains(x));
                    let k = choose|k: int| 0 <= k < before.len() && before[k] == x;
                    assert(r[k] == x);
                }
            }
        }
    }
}

/// The replay order of a fast-forward ends with the greatest node below `m`
/// when that node lies on a path and is not the local node.
pub proof fn lemma_fast_forward_ends_with(paths: Seq<Seq<usize>>, current_index: usize, m: nat)
    requires
        0 < m <= usize::MAX + 1,
        on_some_path(paths, (m - 1) as usize),
        (m - 1) as usize != current_index,
    ensures
        fast_forward_order(paths, current_index, m).len() > 0,
        fast_forward_order(paths, current_index, m).last() == (m - 1) as usize,
{
}

pub proof fn lemma_without_below(s: Seq<usize>, x: usize, n: nat)
    requires
        all_below(s, n),
    ensures
        all_below(without(s, x), n),
    decreases s.len(),
{
    if s.len() > 0 {
        lemma_without_below(s.drop_last(), x, n);
    }
}

pub proof fn lemma_first_path_through(paths: Seq<Seq<usize>>, node: usize)
    ensures
        first_path_through(paths, node) matches Some(p) ==> exists|i: int| 0 <= i < paths.len() && paths[i] == p,
    decreases paths.len(),
{
    if paths.len() > 0 && !paths[0].contains(node) {
        lemma_first_path_through(paths.drop_first(), node);
        if first_path_through(paths, node) is Some {
            let p = first_path_through(paths, node).unwrap();
            let i = choose|i: int| 0 <= i < paths.drop_first().len() && paths.drop_first()[i] == p;
            assert(paths[i + 1] == p);
        }
    }
}

/// The replay order of a fork only holds nodes of the paths' graph.
pub proof fn lemma_fork_below(paths: Seq<Seq<usize>>, current_index: usize, common: usize, n: nat)
    requires
        forall|i: int| 0 <= i < paths.len() ==> all_below(#[trigger] paths[i], n),
    ensures
        all_below(fork_order(paths, current_index, common), n),
{
    lemma_first_path_through(paths, current_index);
    if let Some(p) = first_path_through(paths, current_index) {
        let i = choose|i: int| 0 <= i < paths.len() && paths[i] == p;
        assert(all_below(paths[i], n));
        assert(all_below(p.reverse(), n));
        lemma_without_below(p.reverse(), common, n);
    }
}

/// The elements in reverse order (`Vec::reverse`).
pub fn reverse_nodes(v: &Vec<usize>) -> (r: Vec<usize>)
    ensures
        r@ == v@.reverse(),
{
    let mut r: Vec<usize> = Vec::new();
    let mut i: usize = v.len();
    while i > 0
        invariant
            i <= v.len(),
            r@.len() == v.len() - i,
            forall|j: int| 0 <= j < r@.len() ==> r@[j] == v@[v.len() - 1 - j],
        decreases i,
    {
        i = i - 1;
        r.push(v[i]);
    }
    assert(r@ =~= v@.reverse());
    r
}

/// The elements other than `x`, in order (`Vec::retain`).
pub fn nodes_without(v: &Vec<usize>, x: usize) -> (r: Vec<usize>)
    ensures
        r@ == without(v@, x),
{
    let mut r: Vec<usize> = Vec::new();
    let mut i: usize = 0;
    while i < v.len()
        invariant
            i <= v.len(),
            r@ == without(v@.take(i as int), x),
        decreases v.len() - i,
    {
        assert(v@.take(i + 1).drop_last() =~= v@.take(i as int));
        if v[i] != x {
            r.push(v[i]);
        }
        i = i + 1;
    }
    assert(v@.take(i as int) =~= v@);
    r
}

/// Whether `node` occurs in `path`.
pub fn path_contains(path: &Vec<usize>, node: usize) -> (r: bool)
    ensures
        r == path@.contains(node),
{
    let mut i: usize = 0;
    while i < path.len()
        invariant
            i <= path.len(),
            forall|j: int| 0 <= j < i ==> path@[j] != node,
        decreases path.len() - i,
    {
        if path[i] == node {
            return true;
        }
        i = i + 1;
    }
    false
}

/// Whether `node` lies on one of the paths.
pub fn on_any_path(paths: &Vec<Vec<usize>>, node: usize) -> (r: bool)
    ensures
        r == on_some_path(paths.deep_view(), node),
{
    let mut i: usize = 0;
    while i < paths.len()
        invariant
            i <= paths.len(),
            forall|j: int| 0 <= j < i ==> !(#[trigger] paths.deep_view()[j]).contains(node),
        decreases paths.len() - i,
    {
        assert(paths.deep_view()[i as int] =~= paths[i as int]@);
        if path_contains(&paths[i], node) {
            return true;
        }
        i = i + 1;
    }
    false
}

/// The nodes that a fast-forward replays, in order, given the paths from
/// the latest node to the local one in a graph of `node_count` nodes: each
/// node on a path other than the local one, once, in increasing order.
pub fn fast_forward_nodes(paths: &Vec<Vec<usize>>, current_index: usize, node_count: usize) -> (r: Vec<usize>)
    ensures
        r@ == fast_forward_order(paths.deep_view(), current_index, node_count as nat),
{
    let mut r: Vec<usize> = Vec::new();
    let mut d: usize = 0;
    while d < node_count
        invariant
            d <= node_count,
            r@ == fast_forward_order(paths.deep_view(), current_index, d as nat),
        decreases node_count - d,
    {
        if d != current_index && on_any_path(paths, d) {
            r.push(d);
        }
        d = d + 1;
    }
    r
}

/// The first path that passes through `node`, taken out of `paths`.
pub fn first_path_containing(paths: Vec<Vec<usize>>, node: usize) -> (r: Option<Vec<usize>>)
    ensures
        r.deep_view() == first_path_through(paths.deep_view(), node),
{
    let ghost all = paths.deep_view();
    let mut rest = paths;
    let mut i: usize = 0;
    assert(all.skip(0) =~= all);
    while i < rest.len()
        invariant
            rest.deep_view() == all,
            all == paths.deep_view(),
            i <= rest.len(),
            first_path_through(all, node) == first_path_through(all.skip(i as int), node),
        decreases rest.len() - i,
    {
        assert(all.skip(i as int)[0] == all[i as int]);
        assert(all[i as int] =~= rest[i as int]@);
        if path_contains(&rest[i], node) {
            assert(first_path_through(all.skip(i as int), node) == Some(all[i as int]));
            let path = rest.swap_remove(i);
            assert(path.deep_view() =~= path@);
            return Some(path);
        }
        assert(all.skip(i as int).drop_first() =~= all.skip(i + 1));
        i = i + 1;
    }
    assert(all.skip(i as int).len() == 0);
    None
}

/// The nodes that a merge replays, in order, given the paths from the local
/// node to the common ancestor.
pub fn fork_nodes(paths: Vec<Vec<usize>>, current_index: usize, common: usize) -> (r: Vec<usize>)
    ensures
        r@ == fork_order(paths.deep_view(), current_index, common),
{
    match first_path_containing(paths, current_index) {
        Some(path) => {
            assert(path.deep_view() =~= path@);
            let reversed = reverse_nodes(&path);
            nodes_without(&reversed, common)
        },
        None => Vec::new(),
    }
}

} // verus!
