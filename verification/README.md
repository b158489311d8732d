# polycover2

A verified library for covering a polyomino-shaped stain with non-overlapping
identical polyomino stickers: given a problem polyomino Q and a candidate P, it
decides whether copies of P (rotated or reflected) can cover Q without
overlapping, and it holds the data structures that a search for such P builds
on.

Layout:

- `src/data/`: polyominoes and the structures over them: vectors and the
  symmetries of the square, bit sets of 512 bits ordered as numbers,
  polyominoes on a board
  (`BitPoly`), tight polyominoes (`TightPoly`) with parsing, printing, holes,
  connectivity and their distinct images under the symmetries (1, 2, 4 or 8 of
  them), trees of cells grown leaf by leaf (`TreePoly`), sparse grids of
  flags and their queries, the counters and masks of placements, and the
  incremental queries of placements that cover the problem with one or two
  copies (`Cover1Queries`, `Cover2Queries`), the analysis of symmetric boards,
  the asymmetry of a polyomino, and the table of how the rim of a small grid
  connects (`Surroundings`, `Connections`), and the board of the search
  (`Board`): a tree of cells kept together with its one-copy and two-copy
  queries, flipped cell by cell.
- `src/check/`: the check of an answer against a problem: the placements of the
  answer's images, the counts of covers by one or two copies, and the search for
  covers by three or more.
- `src/solver.rs`: the flip and zip steps of the random search: which drawn cell
  may be flipped or zipped.
- `src/hardness.rs`: the search for covers of a region by two or more
  non-overlapping copies of a polyomino's orientations, with a node budget (its
  answer and node count are those of a stated depth-first search), the covers
  of a region by a single copy, and the check of all regions of a candidate.
- `tests/`: tests on concrete values.
- `app/`: a command-line front end that reads polyomino files and runs the check;
  it also finds the surroundings of the grids of the connection table on all
  threads.

Every function in `src/` carries a contract that Verus proves. The few calls
into the standard library that Verus has no specification for, and the calls
into petgraph's union-find structure, go through small wrappers whose contracts
are stated next to them and are trusted.
