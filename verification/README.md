# sandstone

A small game engine for the Nintendo DS and the editor that builds games for
it, with the engine's scene logic and the editor's graph editing proved
correct with Verus.

## Layout

- `src/` — the verified library.
  - `pool.rs`: generational object pool; handles stay valid until their
    item is removed, and a removed handle never becomes valid again.
  - `tree.rs`: trees stored as first child, next sibling and parent links,
    and the lemmas that moving, grafting, adding and deleting keep them trees.
  - `editor.rs`, `inspector.rs`, `world_editor.rs`: the editor's node graphs
    (add, move, delete, save and load), the inspector's edits, and what the
    world view draws.
  - `hierarchy.rs`, `node.rs`, `rect_collider.rs`, `camera.rs`, `sprite.rs`:
    the engine's running scene: spawning graphs, destroying subtrees, global
    positions, collisions, cameras and sprite attributes.
  - `saved.rs`, `game_data.rs`, `text.rs`: saved forms of graphs and
    graphics, and number formatting.
  - `random.rs`, `fixed_math.rs`: the PCG generator and the fixed-point
    operations the scripts use.
  - `scripts.rs`, `pong.rs`: the scripts of the test scene and of the two
    demo games, as decisions from state and input to new state and actions.
  - `project_loader.rs`, `project_builder.rs`: the project dialog's state,
    and the scripts found in rustdoc's description of the user's code.
  - `image.rs`: decoding the PNG files of the assets and naming assets by
    their files.
  - `spawn_check.rs`: deciding whether a saved graph forms a tree and can
    be spawned.
- `tests/` — tests of the library.
- `app/` — the editor's windows, file and build handling, and the game's
  main loop with the console's hardware behind traits.

## Numbers

Positions, sizes, rotations and velocities are fixed-point numbers with 12
fractional bits, held as their raw `i32` bits: `v` is held as `v * 4096`.
