# perspective_diff_sync

A perspective is a set of links that changes by diffs. Each commit stores a
diff in a chain under a new revision number, with the revisions it follows as
parents. Pulling brings the local revision up to the latest one: by a
fast-forward when the latest revision descends from the local one, by a merge
revision when the two are on a fork.

Layout:

- `src/lib.rs`: the link and diff types and their views.
- `src/chain.rs`: the chain, an `indexmap::IndexMap` modelled as a sequence of
  (revision, entry) pairs.
- `src/graph.rs`: the `petgraph` graphs, algorithms and Graphviz output used
  by the search.
- `src/search.rs`: the revision graph (`Search`).
- `src/paths.rs`: the order in which a pull replays revisions.
- `src/hashing.rs`, `src/utils.rs`: the diff hash, and loading the chain into
  a search.
- `src/methods.rs`: the synchronisation state, `commit` and `pull`.
- `app/`: the program, and the bincode encoding of diffs for hashing.
