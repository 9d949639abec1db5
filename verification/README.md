# checkers

A checkers engine on 32-bit bitboards, with an alpha-beta AI, verified with Verus.

Bit `i` of a bitboard is one playable square; the board is drawn as

```
   11  05  31  25
 10  04  30  24
   03  29  23  17
 02  28  22  16
   27  21  15  09
 26  20  14  08
   19  13  07  01
 18  12  06  00
```

Rotating a bitboard left by 7 steps every piece up-left, by 1 up-right; right by 1
down-left, by 7 down-right.

- `src/bits.rs`: bit-level facts, a verified population count and rotation.
- `src/components.rs`: the game types, move generation (`Board::get_legal_moves`), moves
  (`Board::step`), evaluation, and the interface state `App`.
- `src/logic.rs`: `update`, which applies the interface's messages, and `minimax`, the AI.
- `src/search.rs`: the alpha-beta search and the proof that it finds the minimax move.
- `src/laws.rs`: properties of the rules: compulsory captures, consistency of positions,
  multi-jumps, and agreement of the bitboard directions with the drawn board.
- `app/`: the macroquad/egui program that draws the board and runs the game loop.
