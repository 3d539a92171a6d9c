use vstd::prelude::*;

verus! {

/// The mathematical content of a [`Cell`]: its identifier, its dimension, the
/// vertex labels it spans, the identifiers of its faces and those of its cofaces.
pub struct CellView {
    pub id: usize,
    pub dimension: usize,
    pub vertices: Seq<usize>,
    pub faces: Seq<usize>,
    pub cofaces: Seq<usize>,
}

/// A cell in a cell complex.
#[derive(Clone, Debug)]
pub struct Cell {
    pub id: usize,
    pub dimension: usize,
    pub vertices: Vec<usize>,
    pub faces: Vec<usize>,
    pub cofaces: Vec<usize>,
}

impl View for Cell {
    type V = CellView;

    open spec fn view(&self) -> CellView {
        CellView {
            id: self.id,
            dimension: self.dimension,
            vertices: self.vertices@,
            faces: self.faces@,
            cofaces: self.cofaces@,
        }
    }
}

impl Cell {
    /// A cell with the given identifier, dimension and vertices, with no faces
    /// and no cofaces registered yet.
    pub fn new(id: usize, dimension: usize, vertices: Vec<usize>) -> (c: Self)
        ensures
            c@ == (CellView {
                id,
                dimension,
                vertices: vertices@,
                faces: Seq::empty(),
                cofaces: Seq::empty(),
            }),
    {
        Cell { id, dimension, vertices, faces: Vec::new(), cofaces: Vec::new() }
    }
}

} // verus!
