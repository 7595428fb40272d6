# rts_game

World generation and front-end logic for a cylinder-shaped strategy map,
written in Verus: the integer side of the generator (grids that wrap in X,
landmass search, breadth-first floods, strait planning, Poisson-style
scattering, nation placement, terrain classification, image bytes, mesh
indices, menu steppers, player rosters, pause-menu and key-capture
decisions) lives in `src/` with its contracts and proofs.

- `src/` is the verified library. Each module states its model with spec
  functions; the public proof functions (`lemma_*`) are the laws the
  library keeps across calls.
- `tests/` runs the library on concrete inputs.
- `app/` is the unverified shell: the command-line generator, the
  floating-point noise, climate, hydrology and shading, settings files and
  the other I/O. It calls into the library for every decision that can be
  made on integers.

Outside code the library relies on (the `image` crate's RGB buffer and
Bevy's `KeyCode`) is reached through a handful of trusted items in
`src/rgb_image.rs` and `src/keybinds.rs`, each with a doc comment saying
what it assumes.
