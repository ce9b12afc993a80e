# bee_search

A Hive engine (Universal Hive Protocol) whose logic is verified with Verus.

- `src/` is the verified library: tiles and pieces, the board with play and
  undo, move generation, the cut-vertex search, perft, the transposition
  table, move ordering, the alpha-beta and quiescence searches (with the
  clock, the table, the evaluation and the root vote passed in as closures),
  the feature vectors and their canonical forms, the token graphs, the
  UHP text formats, and the training-data readers (evaluation records and
  positions replayed from results files).
- `tests/` holds the tests, run against the compiled library.
- `app/` is the program around it: the UHP command loop, the threads and
  the clock of the search, the floating-point network evaluation, and the
  file reading of the training-data tools.

Each public function of `src/` states its result in its `ensures`; the
search functions state their results relationally (`qs_result`,
`ab_result`) over what the closures may answer, together with what they
hand the table and the root vote (`stores_made`).
