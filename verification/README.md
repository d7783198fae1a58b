# bph_gpu

Boltzmann Particle Hydrodynamics (BPH): particles carry velocity and internal
energy, live in the cells of a grid, and in each step the particles of a cell
relax towards equilibrium while keeping the cell's momentum and energy.

- `src/` is the verified library: the per-cell algorithms (counting the
  particles of each cell, reducing per-cell values, stable sorting by cell key,
  moving values between particle and cell columns), the linear cell index, the
  integer part of relaxation, and the element-operation traits they apply.
- `app/` is the program around it: the `f32` element operations, the BPH step
  (average velocity, relaxation), and the shock tube, Sjogreen and Noh
  benchmarks with their command line.
- `tests/` runs the library on concrete inputs.
