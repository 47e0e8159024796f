# smartasbrain

Rules engines and computer opponents for ten two-player board games —
connect four, mancala, dots and boxes, checkers, nine men's morris,
backgammon, chess, go, battleship and dominoes — written in Verus and
proved against their contracts.

- `src/` is the verified library: one module per game (`engine`, `ai`,
  and for go, battleship and dominoes also `score` or `snapshot`), plus
  `game_core` (difficulty presets, layout geometry, byte-level text helpers)
  and `random` (the only trusted code: thin wrappers over `rand` for uniform
  draws and shuffles, on the thread-local or a seeded `StdRng`).
- `tests/` exercises the library, including concrete instances of the
  proved laws.
- `app/` holds the terminal front ends (ratatui/crossterm): key and mouse
  handling, drawing, file persistence and go's half-point komi.
