# honeycomb

The rules of a turn-based strategy game played on a map of hexagons: armies
move, regroup, capture tiles and fight; cities train new men each turn; a
computer player ranks its possible moves; a map editor paints terrain,
localities and owners. Every rule is a Verus-verified function with a
contract over a mathematical model of the map (`Map<u64, Tile>`, keyed by the
cube coordinates of each tile).

Layout:

- `src/cubic.rs` – cube coordinates, neighbours, rings, discs and distance.
- `src/world/` – tiles, armies and the world with its ownership and airport
  indexes (`mod.rs`); army arithmetic (`army.rs`, `morale.rs`); the four
  orders and their dispatch (`orders.rs`); reach and legal moves
  (`movement.rs`); end-of-turn rules (`turn.rs`, `growth.rs`); map
  generation (`gen.rs`).
- `src/ai.rs` – scoring and ranking of moves for computer players.
- `src/game.rs` – whose turn it is, clicks, and the game loop step.
- `src/fog.rs` – what each player can see.
- `src/editor.rs` – the map editor's brush.
- `src/notation.rs`, `src/text.rs` – cubes and other values as text.
- `src/river.rs`, `src/rules.rs`, `src/network.rs`, `src/cli.rs` – river
  edges, match settings, observed commands, and the command line.
- `src/rng.rs` – the random draws, taken from the `rand` crate.
- `src/laws.rs` – properties that relate several operations.
- `app/` – the window, input, drawing, pixel geometry, saved games and map
  files (macroquad, serde_json, shapefile, csv, clap).
- `tests/` – scenarios on concrete values.
