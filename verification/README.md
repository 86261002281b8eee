# hex_tactics

A turn-based tactics game on a hexagonal board. The player moves one hex at a time;
enemies (grunts, archers, warlocks and bombers) chase, line up shots or throw bombs;
every turn can be undone and redone.

- `src/` is the rules of the game, verified with Verus: cube coordinates and their
  laws (`hex`, `hex_laws`), the board storage (`hex_grid`), shortest walks
  (`pathfinding`), tiles and ranges (`grid`), combat and bombs (`combat`), the turn
  cycle (`turn`), enemy decisions and the enemy turn (`enemy`), the player's moves
  (`player`), levels and board building (`level`, `tiles`), undo and redo (`undo`),
  and color codes (`util`). Randomness comes from `rand` (`random`).
- `app/` is the Bevy application that draws the board, animates moves and calls the
  library from the engine's systems.
- `tests/` runs the library on concrete boards.
