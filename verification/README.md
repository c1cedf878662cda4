# tree_search

A Monte Carlo search tree for the game of Go, verified with Verus.

Each node holds, for each of its 362 moves (the points of a 19 by 19 board and the pass), the
number of visits, the number of virtual losses, the average value, and the sub-tree. A node
starts sparse, with room for eight moves, and becomes dense when a ninth one is touched. A
search walks down the tree (`probe`), adding a virtual loss to each edge so that several
searches can be under way at the same time. The position that it arrives at is evaluated
elsewhere, and the result is put into the tree and backed up along the way (`insert`).

- `src/model.rs` is the mathematical model: `Tree`, `Kids` and `Edge`. The contracts speak of
  these.
- `src/children.rs` and `src/node.rs` hold the data structures.
- `src/score.rs`, `src/select.rs`, `src/search.rs` and `src/insert.rs` are the search.
- `src/moves.rs`, `src/best.rs`, `src/rank.rs` and `src/percentile.rs` pick moves.
- `src/sgf.rs`, `src/pretty.rs` and `src/text.rs` write a tree as a game record, and for
  humans.
- `src/laws.rs`, `src/series.rs` and `src/invariants.rs` state what holds of the search as a
  whole.
- `app/` does the floating point arithmetic, and displays trees.

The library holds floating point numbers as bit patterns, which it compares and never computes
with. Where a number has to be computed, it calls a function that its caller hands in, and its
contracts say with which arguments, and what becomes of the result.
