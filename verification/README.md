# sheaf_cohomology

Cellular sheaves on cell complexes. The library (`src/`) holds the combinatorial
core, verified with Verus:

- `cell`, `complex`: cells and cell complexes (adding cells with coface
  registration, lookup by identifier, cells of a dimension, Euler characteristic).
- `connectivity`: connectivity of the 1-skeleton by a depth-first walk.
- `boundary`: incidence signs and the integer boundary / coboundary matrices.
- `homology`: Betti numbers from the ranks of the boundary maps, and the
  Euler–Poincaré identity.
- `chain`: ordered simplicial complexes, and the identity ∂∂ = 0 on them.
- `spaces`: the triangle, the tetrahedron (S²) and the n-cycle (S¹), each an
  ordered simplicial complex.
- `sheaf`: stalk dimensions, cochain dimensions, the block layout of the sheaf
  coboundary, and the chains of faces on which restrictions must compose.

The program in `app/` adds what works with real numbers: sparse and dense
matrices, ranks and kernels by Gaussian elimination, restriction maps, sheaf
Laplacians, eigenvalues and cohomology by Hodge theory, and serialisation.
