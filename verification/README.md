# claimlands

The rules, level format and match flow of Claim Lands, a territory game played on a hex
sphere, as a library verified with Verus.

- `src/` is the verified library: factions, tiles and world snapshots; boards (graph and
  triangle-mesh adjacency); territories as connected same-owner components; the rules that
  apply commands (building, recruiting, upgrading, end of turn with income and turn order);
  the level line (parser, validator, writer, and the proof that writing then reading gives the
  level back); sessions with undo and replay; the integer side of world generation (coast
  smoothing, the `mulberry32` generator, the lattice hash); cover zones; and small view helpers.
- `tests/` runs the library on concrete values.
- `app/` holds what the library leaves to ordinary Rust: the floating-point geometry of the
  sphere and the continent and cover generators, `Display`/`Error` and serde copies of the
  library's types, and the glue that starts and replays matches.
