# flip

A two-dimensional FLIP/APIC fluid simulation on a staggered (MAC) grid, split into a verified
library and a thin program around it.

The library (`src/`, verified with Verus) holds everything the simulation decides with integers:

- `bitset`: cell flags packed 64 to a word; setting, reading, clearing and listing them in order.
- `morton`: bit spreading and Z-order (Morton) codes of cell coordinates, with injectivity.
- `grid`: face indexing with clamping, wall borders, seed cells, checkerboard colouring, padding of
  cell lists to chunks of eight, multigrid level sizes and the fine/coarse cell maps.
- `multigrid`: a multigrid level (fluid flags, listed and coloured fluid cells, integer Laplacian
  stencil) and its rebuild from the level above it.
- `spatial`: particle keys sorted with `rdst`, the cell-to-range lookup over them and the reordering
  of per-particle lanes.
- `noise`: the per-particle hash behind the transfer jitter.
- `faces`: which faces feel gravity, how the pressure gradient treats a face, and the growth of the
  valid-velocity flags during extrapolation.
- `flip`, `apic`: the integer grid state of the two solvers, with their constructors and the steps
  that mark fluid cells, rebuild the hierarchy and rebuild the spatial lookup.

The program (`app/`) holds the floating-point fields and kernels (`wide`/`ultraviolet` SIMD,
`rayon` for the particle advection) and the `macroquad` window; it calls the library for every
index, flag and ordering question.

`tests/` exercises the library on concrete grids.
