# mbc_mom

A thin-wire Method of Moments solver using Multiradius Bridge-Currents.

- `src/` is the verified library: the mesh (nodes, segments, ground plane),
  the construction of dipole basis functions from the wire topology, the
  pieces and reference directions of each dipole's current, the row-major
  layouts and the reciprocal completion of the impedance matrix, the choice of
  ground model, and the cell lookup of the Sommerfeld table. Real numbers are
  carried as binary64 bit patterns (`src/binary64.rs` says how they are read).
- `app/` holds the Python bindings (PyO3), the parallel loops (rayon) and all
  floating-point physics: mutual impedances, incident-field integration, near
  and far fields, Sommerfeld integrals and the exponential integral.
- `tests/` exercises the library on concrete meshes.
