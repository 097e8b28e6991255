# hexsix

A player of six-in-a-row on a hexagonal board (each side plays two stones per
turn), written in Verus: the board, the threat counts that measure a position,
the candidate moves and the alpha-beta search carry contracts that Verus
proves.

Layout:

- `src/map/`: the board as a growing quad tree of 8x8 chunks packed two bits a
  tile (`chunk`, `quad_node`, `quad_root`), the game position with its move
  list, hash and measure (`game_map`), the threat measure (`heurs`) and the
  view of a chunk with its eight neighbours (`neighbours`).
- `src/search/`: the candidate moves (`candidates`) and the engine
  (`engine`): transposition table, move ordering and alpha-beta search.
- `src/heurs/`: a measure counted chunk by chunk over `Neighbours`.
- `src/game_map.rs`, `src/game_threats.rs`: a board of 4x4 chunks whose
  nodes count their children, with a line checker that walks its lines.
- `app/main.rs`: the program that lets the engine play against itself and
  prints each position in colour.
- `tests/`: tests on concrete positions.
