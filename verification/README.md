# nomai_engine

A deterministic 2D game-engine core whose logic is verified with Verus.

## Layout

- `src/` — the verified library.
  - `entity`, `identity`, `component`, `value`, `bundle`, `archetype`,
    `world`, `query`: the entity component system. Entities have
    generational ids; components are stored per archetype in their JSON
    form, plus the built-in identity component of tiered entities.
  - `command`: the command buffer and its FIFO application, with causality
    metadata, per-command outcomes and conflict counting.
  - `snapshot`: world capture and validated restore.
  - `digest`: BLAKE3 state hashes of serialized engine state.
  - `tick`: input frames, tick diagnostics and the system schedule.
  - `replay`: the replay recorder and the validated replay plan.
  - `physics`: collision ordering and the commands that write physics
    results back.
  - `annotation`, `text`, `palette`, `scene`, `json`, `strings`: asset-path
    annotations, the 5x7 glyph table, palette selection, scene helpers, JSON
    accessors and string utilities.
- `tests/` — scenario tests of the library.
- `app/` — the runtime around it: the tick loop, typed components,
  engine snapshots, the replay driver, floating-point drawing, the rapier2d
  physics backend and the wgpu/winit debug renderer.
