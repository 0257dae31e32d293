# lib: a verified two-phase Rubik's cube solver

A two-phase (DR, then finish) Rubik's cube solver whose library is written in Verus:
every function in `src/` carries a contract that Verus proves, except the reading of the
clock (`elapsed_nanos`, which calls the standard library's `Instant::elapsed` and is
trusted, with no promise about its result).

Coordinates (with their classes under the symmetries that keep the U/D axis):

- CO: corner orientation of 7 corners, 2187 values, 291 classes (non-mirroring symmetries)
- EO: edge orientation of 11 edges, 2048 values, 336 classes
- ESlice: locations of the E-slice edges, 495 values
- CP: corner permutation, 40320 values, 2768 classes
- EP: permutation of the 8 edges outside the E slice, 40320 values, 2768 classes
- ESliceEP: permutation of the E-slice edges, 24 values

Pruning: phase 1 uses the larger of CO with ESlice and EO with ESlice; phase 2 the larger
of CP with ESliceEP and EP with ESliceEP.

Layout:

- `src/`: the verified library (permutations, cube states and moves, symmetries,
  coordinates and their symmetry tables, pruning tables, the search, the move and net
  parsers), with its laws as public proof functions.
- `tests/`: tests run against the compiled library.
- `app/`: the command-line program (clock, standard input, printing).
