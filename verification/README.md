# genetic

Verified building blocks for two genetic algorithms, written in Verus:

* the eight-queens puzzle, with boards held as 8x8 matrices of cells;
* the minimisation of a ten-variable real function (sphere or Rastrigin),
  with binary-coded or real-coded individuals.

Layout:

* `src/ordering.rs` – stable ranking of items by integer keys.
* `src/board.rs` – the model of a board: queens, attacking pairs, column
  counts, and the laws about them.
* `src/mirror.rs` – the attack count is kept by turning a board upside down
  or reading its rows from right to left.
* `src/queens.rs` – eight-queens individuals: creation, attack counting,
  crossover, mutation, repair, ranking.
* `src/evolution.rs` – one generation of the eight-queens algorithm
  (tournaments, offspring, elitist replacement).
* `src/binary.rs` – binary-coded individuals: creation, one-point crossover,
  bit flips, decoding to integers (as 64-bit digits), ranking, elitist
  replacement.
* `src/trio.rs` – parent selection of the real-coded algorithm.
* `src/rng.rs` – the calls into `rand`.
* `app/` – the command-line programs: I/O and every computation on
  floating-point values.

Probabilities of the eight-queens algorithm are fractions (`1/10`,
`9/10`); `rand` draws with `gen_ratio` exactly what it draws with `gen_bool`
for the same value.
