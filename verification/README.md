# incremental_tree_set_union

Gabow and Tarjan's linear-time tree set union, verified with Verus.

A tree set union structure keeps a rooted tree whose nodes start out as set
names. `link(v)` removes `v` as a set name, merging its set into its parent's;
`find(v)` returns the set name of `v`: its nearest ancestor (itself included)
that has not been linked. The structure splits the tree into microsets of
fewer than `b` nodes, answers queries inside a microset from a precomputed
answer table, and joins microsets through a union-find over their roots (the
macroset).

## Layout

- `src/answer_table.rs`: the parameter `b`, the forest encoding of a microset,
  and the table of nearest set names inside every microset shape.
- `src/macroset.rs`: union-find with levels, whose `top` is the highest node of
  a set.
- `src/microset.rs`: node records and the constant-time query in a microset.
- `src/tree.rs`: parent arrays, set names and their laws.
- `src/static_tree.rs` (with `src/construct.rs`): the structure on a tree given
  at once.
- `src/incremental.rs` (with `src/preorder.rs`, `src/local_tree.rs`): the
  structure on a tree that grows one leaf at a time, splitting a microset
  that reaches `b` nodes.
- `src/oracle.rs`: a plain union-find with set names and a naive walk, proved
  to give the same answers.
- `src/shapes.rs`: tree shapes for exercising the structures.
- `tests/`: the tests, run against the compiled library.
- `app/`: a fuzzing harness (libFuzzer entry point, `arbitrary` inputs) that
  runs the structures and the oracles side by side.

Every public function states its result in terms of `set_name` on the
structure's parent array and linked flags, and Verus proves all of `src/`
against those statements.
