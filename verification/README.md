# persistent_paths

Planning on occupancy grids with path signatures.  A probability grid is
thresholded into free and blocked cells; connected groups of blocked cells are
obstacles, each represented by its smallest cell; every move between neighbouring
free cells carries a 0/1 signature (which obstacle cuts it crosses); A* finds a
shortest path that reaches the goal with a requested signature.

Layout:

- `src/grid.rs` – grids, coordinates, neighbourhoods (verified).
- `src/space.rs` – obstacles by flood fill, edge signatures, rendering (verified).
- `src/search.rs` – the signature-aware A* search and path signatures (verified).
- `app/` – probability maps, thresholding and the persistence barcode, which work
  on floating-point values, and the program's `main`.
