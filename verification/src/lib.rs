//! Cellular sheaves on cell complexes: the combinatorial core (cells, complexes,
//! incidence signs, boundary matrices, connectivity, Betti numbers from ranks,
//! stalk bookkeeping and the block layout of sheaf coboundaries), verified.

pub mod seqs;
pub mod cell;
pub mod complex;
pub mod connectivity;
pub mod boundary;
pub mod homology;
pub mod spaces;
pub mod sheaf;
pub mod chain;

pub use cell::{Cell, CellView};
pub use complex::CellComplex;
pub use boundary::IncidenceMatrix;
pub use sheaf::{CellularSheaf, CoboundaryBlock};
pub use spaces::{circle_complex, tetrahedron_complex, triangle_complex};
