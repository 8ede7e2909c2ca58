# Resource Collection Simulation

Autonomous scouts and collectors on a generated map: scouts explore and report,
collectors fetch units of energy and crystals, and a base keeps the books. The
rules of the simulation are a Verus library; a terminal program with Ratatui
runs it.

```
[preset] [visual-theme] [seed|reveal|nofog] [reveal|nofog]
```

Presets are `default`, `cavern`, `forest`, `archipelago`, `plains` and `compact`;
themes are `default`, `retro`, `symbols` and `emoji`. Without a seed the map is
random. Any key exits.

## Layout

| Place | What it holds |
|-------|---------------|
| `src/world.rs` | Cells, resources, generation of a world from a terrain |
| `src/simulation.rs` | Resource stocks, base inventory, fog of war |
| `src/occupancy.rs` | Reservation of cells, collision resolution |
| `src/search.rs`, `src/open_set.rs` | A* for shortest paths over walkable cells |
| `src/wave.rs` | Breadth-first search for the first step of a shortest walk |
| `src/nearest.rs` | Stable order of targets by distance |
| `src/collector.rs`, `src/scout.rs` | The robots |
| `src/ledger.rs` | Conservation of units |
| `src/mission.rs` | What holds of a whole mission, in whatever order robots and base act |
| `src/app.rs`, `src/ui.rs` | The base's part of a tick, and what is drawn |
| `src/map.rs`, `src/cli.rs` | Presets, themes, the command line |
| `src/grid.rs`, `src/tally.rs` | Geometry of the map, counting |
| `src/rng.rs`, `src/channel.rs` | Contracts of `rand` and of `tokio` channels |
| `app/` | Terrain noise, angles, tasks, drawing, keys |

## Conventions

- Every type has a view, a structure of mathematical values; contracts speak of
  views, and `wf` says what is true of every value.
- Proof functions named `law_*` state what holds across calls.
- Fractions are integers in millionths. Whatever needs floating point, that is
  noise, angles and blended colors, is computed in `app/` and handed to the
  library as plain values.
- A generator is known by its state: draws are named functions of the state, so
  equal seeds give equal worlds and equal robots.
