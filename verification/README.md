# tetris_lib

A falling-block puzzle game whose rules are verified with Verus.

- `src/mino.rs`: the piece kinds, their shapes, sizes and colours, the four
  facing directions and the wall-kick tables.
- `src/block.rs`: one cell of the board.
- `src/piece.rs`: the falling piece: where it fits, moving, turning with
  wall kicks.
- `src/board.rs`: the board as the contracts see it: walls and floor,
  complete rows, their removal, pieces written into the board, drop distance.
- `src/generator.rs`: the seven-piece randomiser (each kind once per round of
  seven), drawing on `rand`.
- `src/game.rs`: the game state and the per-frame step (`Game::clock`), whose
  contract is the step as a function of the previous state, the keys and the
  kind dealt.
- `app/main.rs`: the window, input and drawing (piston_window).
- `tests/`: tests of the library on concrete values.
