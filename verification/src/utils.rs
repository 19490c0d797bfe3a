//! Loading the chain into a search, and the hash that names a diff.

use vstd::prelude::*;
use crate::chain::{
    Chain, chain_entries, chain_get_index, chain_len, has_key, key_position, unique_keys,
    lemma_find_key,
};
use crate::graph::MAX_GRAPH_INDEX;
use crate::hashing::{base64_encode, base64_encoding, sha256, sha256_digest};
use crate::search::Search;
use crate::PerspectiveDiffEntry;

verus! {

/// The revisions of the chain, in its order: node `i` of a loaded search.
pub open spec fn chain_nodes(es: Seq<(usize, PerspectiveDiffEntry)>) -> Seq<usize> {
    es.map_values(|e: (usize, PerspectiveDiffEntry)| e.0)
}

/// The edges that entry `i` gets when loaded: none when its first parent is
/// the root revision 0, else one to the node of each parent, in order.
pub open spec fn entry_edges(es: Seq<(usize, PerspectiveDiffEntry)>, i: int) -> Seq<(usize, usize)> {
    let ps = es[i].1.parents@;
    if ps[0] == 0 {
        Seq::empty()
    } else {
        ps.map_values(|p: usize| (i as usize, key_position(es, p) as usize))
    }
}

/// The edges of the first `n` entries, entry by entry.
pub open spec fn chain_edges(es: Seq<(usize, PerspectiveDiffEntry)>, n: int) -> Seq<(usize, usize)>
    decreases n,
{
    if n <= 0 {
        Seq::empty()
    } else {
        chain_edges(es, n - 1) + entry_edges(es, n - 1)
    }
}

/// The edges of the whole chain.
pub open spec fn all_chain_edges(es: Seq<(usize, PerspectiveDiffEntry)>) -> Seq<(usize, usize)> {
    chain_edges(es, es.len() as int)
}

/// Every entry has a first parent, and an entry whose first parent is not
/// the root revision 0 only names revisions that come before it; revisions
/// occur once each.
pub open spec fn parents_first(es: Seq<(usize, PerspectiveDiffEntry)>) -> bool {
    &&& unique_keys(es)
    &&& forall|i: int| 0 <= i < es.len() ==> (#[trigger] es[i]).1.parents@.len() > 0
    &&& forall|i: int, j: int|
        0 <= i < es.len() && es[i].1.parents@[0] != 0 && 0 <= j < es[i].1.parents@.len() ==> has_key(
            es.take(i),
            #[trigger] es[i].1.parents@[j],
        )
}

/// The search of the chain stays within the index range of its graphs.
pub open spec fn fits_graph(es: Seq<(usize, PerspectiveDiffEntry)>) -> bool {
    &&& es.len() < MAX_GRAPH_INDEX
    &&& all_chain_edges(es).len() < MAX_GRAPH_INDEX
}

/// The chain can be loaded into a search: parents come first, and the
/// graphs have room for it.
pub open spec fn searchable(es: Seq<(usize, PerspectiveDiffEntry)>) -> bool {
    parents_first(es) && fits_graph(es)
}

/// The edges of a prefix are at most those of a longer prefix.
pub proof fn lemma_chain_edges_grow(es: Seq<(usize, PerspectiveDiffEntry)>, m: int, n: int)
    requires
        0 <= m <= n,
    ensures
        chain_edges(es, m).len() <= chain_edges(es, n).len(),
    decreases n - m,
{
    if m < n {
        lemma_chain_edges_grow(es, m, n - 1);
    }
}

/// Builds the search of the chain: a node for each entry in chain order, and
/// for an entry whose first parent is not the root, an edge to each parent.
pub fn populate_search(chain: &Chain) -> (s: Search)
    requires
        searchable(chain_entries(*chain)),
    ensures
        s.wf(),
        s.nodes() == chain_nodes(chain_entries(*chain)),
        s.edges() == all_chain_edges(chain_entries(*chain)),
        forall|k: usize| s.node_index_map@.contains_key(k) <==> has_key(chain_entries(*chain), k),
        forall|k: usize| #[trigger] has_key(chain_entries(*chain), k) ==> s.node_index_map@[k] == key_position(chain_entries(*chain), k),
{
    let ghost es = chain_entries(*chain);
    let mut search = Search::new();
    let n = chain_len(chain);
    let mut i: usize = 0;
    while i < n
        invariant
            es == chain_entries(*chain),
            n == es.len(),
            searchable(es),
            i <= n,
            search.wf(),
            search.nodes() == chain_nodes(es).take(i as int),
            search.edges() == chain_edges(es, i as int),
            forall|k: usize| search.node_index_map@.contains_key(k) <==> has_key(es.take(i as int), k),
            forall|k: usize| #[trigger] has_key(es.take(i as int), k) ==> search.node_index_map@[k] == key_position(es, k),
        decreases n - i,
    {
        let (key, entry) = chain_get_index(chain, i).unwrap();
        let key = *key;
        proof {
            lemma_chain_edges_grow(es, i + 1, n as int);
            assert(es[i as int].1.parents@.len() > 0);
        }
        if entry.parents[0] != 0 {
            let mut parents: Vec<usize> = Vec::new();
            let mut j: usize = 0;
            while j < entry.parents.len()
                invariant
                    es == chain_entries(*chain),
                    searchable(es),
                    i < n,
                    n == es.len(),
                    *entry == es[i as int].1,
                    entry.parents@[0] != 0,
                    j <= entry.parents.len(),
                    search.wf(),
                    search.nodes() == chain_nodes(es).take(i as int),
                    forall|k: usize| search.node_index_map@.contains_key(k) <==> has_key(es.take(i as int), k),
                    forall|k: usize| #[trigger] has_key(es.take(i as int), k) ==> search.node_index_map@[k] == key_position(es, k),
                    parents@ == entry.parents@.take(j as int).map_values(|p: usize| key_position(es, p) as usize),
                    forall|m: int| 0 <= m < j ==> #[trigger] parents@[m] < i,
                decreases entry.parents.len() - j,
            {
                let p = entry.parents[j];
                assert(has_key(es.take(i as int), p));
                let index = *search.get_node_index(&p).unwrap();
                proof {
                    let t = es.take(i as int);
                    lemma_find_key(es, p);
                    let q = choose|q: int| 0 <= q < t.len() && t[q].0 == p;
                    assert(es[q].0 == p);
                }
                parents.push(index);
                j = j + 1;
                assert(parents@ =~= entry.parents@.take(j as int).map_values(|p: usize| key_position(es, p) as usize));
            }
            assert(entry.parents@.take(j as int) =~= entry.parents@);
            let _ = search.add_node(Some(parents), key);
            assert(search.edges() =~= chain_edges(es, i + 1));
        } else {
            let _ = search.add_node(None, key);
            assert(search.edges() =~= chain_edges(es, i + 1));
        }
        proof {
            lemma_find_key(es, key);
            let t1 = es.take(i + 1);
            assert forall|k: usize| search.node_index_map@.contains_key(k) <==> has_key(t1, k) by {
                if has_key(es.take(i as int), k) {
                    let q = choose|q: int| 0 <= q < i && es.take(i as int)[q].0 == k;
                    assert(t1[q].0 == k);
                }
                if has_key(t1, k) && k != key {
                    let q = choose|q: int| 0 <= q < i + 1 && t1[q].0 == k;
                    assert(es.take(i as int)[q].0 == k);
                }
                assert(t1[i as int].0 == key);
            }
        }
        i = i + 1;
        assert(search.nodes() =~= chain_nodes(es).take(i as int));
    }
    assert(chain_nodes(es).take(n as int) =~= chain_nodes(es));
    assert(es.take(n as int) =~= es);
    search
}

/// The hash that names a diff: the standard Base64 text of the SHA-256
/// digest of the diff's encoding, 44 characters long.
pub fn generate_diff_hash(encoded_diff: &[u8]) -> (r: String)
    ensures
        r@ == base64_encoding(sha256(encoded_diff@)),
        r@.len() == 44,
{
    let hash = sha256_digest(encoded_diff);
    base64_encode(hash.as_slice())
}

} // verus!
