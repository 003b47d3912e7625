# one_luck

A small gacha game. Fruits are drawn from a weighted pool into an inventory
that holds a limited number of copies of each fruit; an accepted DLC code
raises that limit, and the game state is kept in a plain-text save file.

The library under `src/` is verified with Verus:

- `gacha` — rarities, fruits, the duplicate-limit state and the results of
  storing and drawing.
- `inventory` — the player's inventory, kept in ascending order of names,
  viewed as a map from name to count.
- `draw` — the weighted draw: which fruit each roll selects, and a draw from
  the `rand` crate's `StdRng`.
- `data` — the save file format (writing and reading, with the round trip
  proved), the default pool, DLC code lists and the save location.
- `command` — reading the commands typed at the prompt.
- `text` — trimming, line splitting, decimal numbers and text order.

`app/main.rs` is the interactive program: terminal, files and environment.
