//! The chain of diffs: an insertion-ordered map from revision to entry,
//! held in an `indexmap::IndexMap` and modelled as a sequence of pairs.

use std::collections::hash_map::RandomState;
use indexmap::IndexMap;
use vstd::prelude::*;
use crate::PerspectiveDiffEntry;

verus! {

#[verifier::external_type_specification]
#[verifier::external_body]
#[verifier::reject_recursive_types(K)]
#[verifier::reject_recursive_types(V)]
#[verifier::reject_recursive_types(S)]
pub struct ExIndexMap<K, V, S>(IndexMap<K, V, S>);

/// The chain: revisions and their entries, in insertion order.
pub type Chain = IndexMap<usize, PerspectiveDiffEntry, RandomState>;

/// The pairs that a chain holds, in its order.
pub uninterp spec fn chain_entries(m: IndexMap<usize, PerspectiveDiffEntry, RandomState>) -> Seq<(usize, PerspectiveDiffEntry)>;

/// The position of the last pair with key `k`, if there is one.
pub open spec fn find_key(es: Seq<(usize, PerspectiveDiffEntry)>, k: usize) -> Option<int>
    decreases es.len(),
{
    if es.len() == 0 {
        None
    } else if es.last().0 == k {
        Some(es.len() - 1)
    } else {
        find_key(es.drop_last(), k)
    }
}

/// No key occurs twice.
pub open spec fn unique_keys(es: Seq<(usize, PerspectiveDiffEntry)>) -> bool {
    forall|i: int, j: int| 0 <= i < es.len() && 0 <= j < es.len() && i != j ==> es[i].0 != es[j].0
}

/// `k` is the key of some pair.
pub open spec fn has_key(es: Seq<(usize, PerspectiveDiffEntry)>, k: usize) -> bool {
    exists|i: int| 0 <= i < es.len() && es[i].0 == k
}

/// The position of key `k` (meaningful when `has_key(es, k)`).
pub open spec fn key_position(es: Seq<(usize, PerspectiveDiffEntry)>, k: usize) -> int {
    find_key(es, k).unwrap()
}

/// The entry stored under key `k` (meaningful when `has_key(es, k)`).
pub open spec fn entry_of(es: Seq<(usize, PerspectiveDiffEntry)>, k: usize) -> PerspectiveDiffEntry {
    es[key_position(es, k)].1
}

/// The key of the last pair, or 0 for the empty chain.
pub open spec fn last_key(es: Seq<(usize, PerspectiveDiffEntry)>) -> usize {
    if es.len() == 0 { 0 } else { es.last().0 }
}

/// `find_key` finds exactly the keys that occur, at a position holding them,
/// and with unique keys at the only such position.
pub proof fn lemma_find_key(es: Seq<(usize, PerspectiveDiffEntry)>, k: usize)
    ensures
        find_key(es, k) is Some <==> has_key(es, k),
        find_key(es, k) matches Some(i) ==> 0 <= i < es.len() && es[i].0 == k,
        unique_keys(es) ==> forall|j: int| 0 <= j < es.len() && es[j].0 == k ==> find_key(es, k) == Some(j),
    decreases es.len(),
{
    if es.len() > 0 {
        let d = es.drop_last();
        lemma_find_key(d, k);
        if es.last().0 != k {
            if has_key(es, k) {
                let j = choose|j: int| 0 <= j < es.len() && es[j].0 == k;
                assert(d[j].0 == k);
            }
            if has_key(d, k) {
                let j = choose|j: int| 0 <= j < d.len() && d[j].0 == k;
                assert(es[j].0 == k);
            }
        }
    }
}

/// Appending a pair with another key leaves where a key is found.
pub proof fn lemma_find_key_push(es: Seq<(usize, PerspectiveDiffEntry)>, pair: (usize, PerspectiveDiffEntry), k: usize)
    requires
        pair.0 != k,
    ensures
        find_key(es.push(pair), k) == find_key(es, k),
{
    assert(es.push(pair).drop_last() =~= es);
}

/// An empty chain (`IndexMap::new`).
#[verifier::external_body]
pub(crate) fn chain_new() -> (m: Chain)
    ensures
        chain_entries(m) == Seq::<(usize, PerspectiveDiffEntry)>::empty(),
{
    IndexMap::new()
}

/// The number of pairs (`IndexMap::len`).
#[verifier::external_body]
pub(crate) fn chain_len(m: &Chain) -> (n: usize)
    ensures
        n == chain_entries(*m).len(),
{
    m.len()
}

/// The pair at a position (`IndexMap::get_index`): `None` past the end.
#[verifier::external_body]
pub(crate) fn chain_get_index(m: &Chain, index: usize) -> (r: Option<(&usize, &PerspectiveDiffEntry)>)
    ensures
        index < chain_entries(*m).len() ==> r == Some((&chain_entries(*m)[index as int].0, &chain_entries(*m)[index as int].1)),
        index >= chain_entries(*m).len() ==> r is None,
{
    m.get_index(index)
}

/// The last pair (`IndexMap::last`): `None` for an empty chain.
#[verifier::external_body]
pub(crate) fn chain_last(m: &Chain) -> (r: Option<(&usize, &PerspectiveDiffEntry)>)
    ensures
        chain_entries(*m).len() == 0 ==> r is None,
        chain_entries(*m).len() > 0 ==> r == Some((&chain_entries(*m).last().0, &chain_entries(*m).last().1)),
{
    m.last()
}

/// `IndexMap::insert`: an existing key keeps its place and gets the new
/// entry, the old one being returned; a new key goes last.
#[verifier::external_body]
pub(crate) fn chain_insert(m: &mut Chain, key: usize, entry: PerspectiveDiffEntry) -> (r: Option<PerspectiveDiffEntry>)
    requires
        unique_keys(chain_entries(*old(m))),
    ensures
        match find_key(chain_entries(*old(m)), key) {
            Some(i) => {
                &&& chain_entries(*final(m)) == chain_entries(*old(m)).update(i, (key, entry))
                &&& r == Some(chain_entries(*old(m))[i].1)
            },
            None => {
                &&& chain_entries(*final(m)) == chain_entries(*old(m)).push((key, entry))
                &&& r is None
            },
        },
{
    m.insert(key, entry)
}

/// The entry under a key (`IndexMap::get`): `None` when the key is absent.
#[verifier::external_body]
pub(crate) fn chain_get(m: &Chain, key: usize) -> (r: Option<&PerspectiveDiffEntry>)
    requires
        unique_keys(chain_entries(*m)),
    ensures
        match find_key(chain_entries(*m), key) {
            Some(i) => r == Some(&chain_entries(*m)[i].1),
            None => r is None,
        },
{
    m.get(&key)
}

} // verus!
