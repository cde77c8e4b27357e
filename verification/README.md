# graph_dominators

Closest common dominators in directed graphs, verified with [Verus](https://github.com/verus-lang/verus).

A node dominates another if every walk from the entry of the graph to the other goes through it. The
closest common dominator of some nodes is the choke point in front of them: the node that dominates
all of them and that every other such node dominates.

- `src/` is the library. `dominance.rs` and `tree.rs` define dominance, immediate dominators and the
  dominator tree, and prove their laws. `finder.rs` searches a graph; that it finds the closest
  common dominator is proved with `search.rs` (depth-first search), `forest.rs` and `iteration.rs`
  (the iteration to a fixpoint), and `numbering.rs` and `relabel.rs` (numbering the nodes). `graph.rs`, `flow.rs`,
  `trim.rs` and `value.rs` hold the graph types, and the `*_laws.rs` files what holds of them.
- `src/ordered.rs` holds what is trusted: the calls into `indexmap`, each with the contract that the
  proofs rest on.
- `app/` offers the library behind iterators, `indexmap` collections and errors of std.
- `tests/` runs the library.

The types of nodes and values have to satisfy `keys::key_model`: hash and `==` agree with identity of
values, and so does `clone`. Integers do; `keys::lemma_integers_are_keys` says so.
