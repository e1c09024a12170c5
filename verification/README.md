# gp_track

Procedural track generation for a grid racing game, and the pure state and
formatting logic of its screens, proved with Verus.

## Layout

- `src/` — the verified library.
  - `geom`, `corridor`, `points`, `order` — points, sides, the fine-grid
    corridor and ordered point sets.
  - `flood`, `components` — 4-connected flood fill, component counting and
    bounded-hole counting.
  - `random` — the seeded Xoshiro256++ stream and its draws.
  - `skeleton`, `fallback`, `widening` — the coarse ring skeleton: infield
    growth, hole filling, dilation, outward widening, the acceptance checks
    and the rectangular fallback.
  - `raster` — rasterization to the fine corridor: block expansion, the
    1-Lipschitz wall taper and pocket absorption.
  - `topology` — connectivity: a skeleton's ring and infield are each
    connected, and the rasterized corridor is one 4-connected component
    around exactly one hole.
  - `track`, `checks`, `kinematics`, `repair`, `arms`, `centerline`,
    `pipeline` — the start/finish line and start grid, static checks,
    braking and run-out arithmetic, the repair pass (dispatch order,
    routing, edits) and the four repair arms that stand on the corridor
    alone, centerline geometry, and the pipeline: the opening of a seed attempt
    (Ф1–Ф3), its decisions, its seed and repair loops and the attempt state
    carried between iterations.
  - `reach` — the passability searches: a breadth-first flood over car
    states within a velocity ceiling, and the search for a move that closes
    a lap; the legal moves are reported to them state by state.
  - `params`, `decimal`, `screens` — generation parameters, decimal
    formatting and the screens' router, tables and labels.
- `tests/` — executable tests against the compiled library.
- `app/` — the parts that hold floating point, the error type's
  `std::error::Error` impl, and the loops that drive the generator, the
  searches and the repair pass with the caller's phases, move rule and
  oracle-fed arms.
