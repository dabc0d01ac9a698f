# lau_vibe_field

A vibe field is a scalar `f64` field over a 2D grid of cells, stored row by
row in a flat buffer, with energy bookkeeping, diffusion, advection,
gradients, local extrema and statistics.

The crate is split in two:

- `src/` is verified with Verus. It holds everything about the field that is
  not floating-point arithmetic: the row-major layout and cell access
  (`grid`), an integer rank for every binary64 value that orders values as
  IEEE 754 `>` does (`ranks`), when a deposit or a withdrawal goes ahead
  (`ledger`), local maxima and minima over the eight
  neighbours (`extrema`), the cells within a Euclidean radius
  (`neighborhood`), the sample points of central differences, Laplacians and
  divergences (`stencil`), the registry of named fields of an engine
  (`registry`) and the readers that sample a field (`agents`).
- `app/` holds the `f64` side: `VibeField`, `VibeSnapshot`, `VibeFieldPair`,
  `VibeFieldEngine` and the statistics, which do their arithmetic on floats
  and call the library for the rest, and the serde copies of the types.

Tests of the library are under `tests/`.
