# blackhole_sim

A real-time N-body black hole simulator (gravity with 2.5PN radiation
reaction, mergers, tidal disruption, horizon absorption, body collisions,
tendex-line visualisation, trajectory preview), rendered with wgpu and
controlled through an egui panel.

The crate is split in two:

- `src/` is a library verified with Verus. It holds every decision of the
  simulator that is not floating-point arithmetic: which black holes merge,
  which bodies collide (the greedy collision scan), which bodies are torn
  apart or swallowed and in which order they leave the lists, the spawn
  checks and the per-step decision of the safe-position search (the search
  loop itself, with its float geometry, runs in `app/`), the population limits, the layout of
  the tendex grid and its central planes, the sphere and ring index buffers,
  the per-frame uniform and draw plan, the trajectory sampling and trail
  markers, the keyboard commands and the touch tracking. `src/laws.rs` states
  and proves the properties that hold across these operations.
- `app/` is the program: the floating-point physics (integration, radiation
  reaction, tidal tensors, debris disks), the camera, the renderer and its
  shaders, the UI and the event loop. It computes the geometric facts (who is
  close to whom) and hands them to the library, which decides what happens.

Modules of the library:

| module        | contents |
|---------------|----------|
| `population`  | limits of the object lists, capped appends |
| `removal`     | order-preserving removal by marks or targets |
| `capture`     | horizon verdicts and absorption, Roche victims, swallowed debris |
| `encounters`  | merging pair, collision scan, collision outcomes, removal of colliding bodies |
| `simulation`  | the object lists with their limits, spawn checks, safe-position steps, status phase |
| `grid`        | tendex grid offsets and central planes |
| `mesh`        | sphere and ring index lists |
| `draw`        | uniform blocks and draw calls of a frame |
| `trails`      | trajectory sampling and trail markers |
| `input`       | key commands and touch tracking |
| `laws`        | proved properties |
