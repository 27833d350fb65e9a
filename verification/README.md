# goban

Rules and move generation for the game of go, with the board logic verified by Verus.

- `src/pieces`: the goban (stones grouped in chains with their liberties, a Zobrist hash
  of the position), coordinates, neighbor tables and territories.
- `src/rules`: games (turns, captures, prisoners, ko and superko, suicide, scoring), the
  game builder, games read from SGF, and what random playouts need.
- `src/sgf`: SGF properties, nodes, game trees and the parser.
- `src/goban.rs`: board index arithmetic.
- `app/`: a C interface, printing, and dead-stone estimation by Monte Carlo tree search among the chains that `Game::get_floating_stones` (in `src/`) finds without two eyes.

Komi and scores are counted in tenths of a point.
