# combigen

Combinatorial enumerators and backtracking solvers, verified with Verus.

## Layout

- `src/order.rs` — the orders the enumerators follow (lexicographic,
  short-lex, reverse lexicographic), the `Cursor` of an enumerator, the
  one-step contract `advances` shared by every `next`, and the laws that turn
  a run of `next` calls into a complete, duplicate-free, ordered listing.
- `src/combinatorics.rs` — permutations, combinations (with and without
  replacement), power set, cartesian product, integer partitions and set
  partitions, each as a lazy enumerator.
- `src/backtracking.rs` — n-queens and its count, board and sudoku
  formatting, sudoku parsing, a sudoku solver and the simple paths through a
  grid; the solvers are lazy enumerators too.
- `src/search.rs` — a generic depth-first search as a step machine: it
  decides which of the caller's operations (check, expand, apply, undo,
  emit) comes next; `perform_step` runs that operation with the caller's
  closures, and `undo_applied` takes back a move still applied when the
  caller stops early.
- `app/` — the demo program, and `backtrack`, which repeats `perform_step`
  until a solution comes out and hands solutions out lazily.
- `tests/` — the test suite.

Every enumerator's `next` is specified by `advances`: it hands out the least
valid tuple after the previous one, or reports exhaustion. The searches
behind the recursive enumerators resume from the last result, so a call does
only the work up to the next one. A tuple is the
list of positions (or digits, or moves) that make up a result, so the order
is stated over integers, independently of the item type.
