# ciris-game-engine-core

The deterministic rules of CIRISGame, written in Verus and proved against their
contracts.

Four stewards take turns placing one cell each on a rhombic-dodecahedral (FCC)
lattice — twelve face-neighbours per cell. Same-colour face-adjacent cells form
a *mesh*. A mesh that reaches seven cells collapses: it smoulders for one turn,
then disperses into live pairs of its steward's colour plus perma-dead spacer
cells. Score is the perma-dead a steward created; lowest wins, and every
steward at zero is the cooperative ending. There is no capture: a cell dies only
when its own steward grows its mesh to seven.

## Layout

- `src/` — the verified library.
  - `lattice`, `board`, `neighbor_list`: coordinates, Morton codes, FCC
    adjacency, the board and its index.
  - `mesh`: flood fill and meshes (connected components per steward).
  - `dispersal`: the count table, Algorithm A and its separation guard, and validation of a chosen
    wreckage layout.
  - `crossing`: the no-crossing rule (which can never fire on this lattice).
  - `engine`: moves, collapse, rebuild, scoring, turn order, end of game, and
    the laws that tie them together (no capture, score at dispersal, and
    replay: two games built alike and fed the same moves end in the same state,
    and the layout recorded for an auto rebuild, offered back, rebuilds alike).
  - `hash`: the SHA-256 state fingerprint.
  - `daily_seed`: the date-keyed daily puzzle.
  - `temperature`: mesh temperature and resonance, in exact integers.
  - `board_view`: the snapshot sent to players and its ASCII symbol grid.
  - `agent_image`: the layered PNG raster for agents.
  - `session`: seat and view configuration, the endgame classification, and the
    screensaver's Easy move policy.
  - `report`: text-mode helpers (cell symbols, turn events, winners).
  - `scene`: what the 3-D scene redraws after a move (changed cells, atari
    flags, bonds, mist phases).
  - `wizard`: the setup wizard's state machine and its message keys.
- `tests/` — integration tests.
- `app/` — the `ciris-play` command-line driver, the JSON wire types, and the
  display-normalised (floating-point) temperature.
