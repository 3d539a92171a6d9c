use vstd::prelude::*;
use crate::cell::{Cell, CellView};
use crate::seqs::{count, first_pos, lemma_first_pos, lemma_first_pos_at, lemma_take_push, repeat};

verus! {

/// The views of a sequence of cells.
pub open spec fn views(cells: Seq<Cell>) -> Seq<CellView> {
    cells.map_values(|c: Cell| c@)
}

/// The identifiers of a sequence of cells, in order.
pub open spec fn ids(cells: Seq<CellView>) -> Seq<usize> {
    cells.map_values(|c: CellView| c.id)
}

/// Position of the first cell carrying identifier `id`, or -1 when there is none.
/// Every lookup by identifier in a complex goes to this cell.
pub open spec fn cell_index(cells: Seq<CellView>, id: usize) -> int {
    first_pos(ids(cells), id)
}

/// The cells of dimension `k`, in the order in which they stand.
pub open spec fn of_dim(cells: Seq<CellView>, k: int) -> Seq<CellView>
    decreases cells.len(),
{
    if cells.len() == 0 {
        Seq::empty()
    } else {
        let rest = of_dim(cells.drop_last(), k);
        if cells.last().dimension == k {
            rest.push(cells.last())
        } else {
            rest
        }
    }
}

/// Number of cells of dimension `k`.
pub open spec fn n_cells(cells: Seq<CellView>, k: int) -> int {
    of_dim(cells, k).len() as int
}

/// Σ_{k=0}^{top} (-1)^k · |C_k|.
pub open spec fn alternating_count(cells: Seq<CellView>, top: nat) -> int
    decreases top,
{
    let term = if top % 2 == 0 { n_cells(cells, top as int) } else { -n_cells(cells, top as int) };
    if top == 0 {
        term
    } else {
        alternating_count(cells, (top - 1) as nat) + term
    }
}

/// Σ_{k=0}^{top} |C_k|.
pub open spec fn count_up_to(cells: Seq<CellView>, top: nat) -> int
    decreases top,
{
    if top == 0 {
        n_cells(cells, 0)
    } else {
        count_up_to(cells, (top - 1) as nat) + n_cells(cells, top as int)
    }
}

/// How many times the cell at position `i` is named as a face in `faces`, counted
/// only when it is the first cell with its identifier (the one a lookup finds).
pub open spec fn cofaces_gained(cells: Seq<CellView>, i: int, faces: Seq<usize>) -> nat {
    if cell_index(cells, cells[i].id) == i {
        count(faces, cells[i].id)
    } else {
        0
    }
}

/// The cells at the positions they had, with the new cell's identifier appended to
/// the cofaces of each cell that `faces` names.
pub open spec fn register_cofaces(cells: Seq<CellView>, id: usize, faces: Seq<usize>) -> Seq<CellView> {
    Seq::new(
        cells.len(),
        |i: int|
            CellView {
                id: cells[i].id,
                dimension: cells[i].dimension,
                vertices: cells[i].vertices,
                faces: cells[i].faces,
                cofaces: cells[i].cofaces + repeat(id, cofaces_gained(cells, i, faces)),
            },
    )
}

/// The cells after `add_cell(id, dimension, vertices, faces)`.
pub open spec fn cells_after_add(
    cells: Seq<CellView>,
    id: usize,
    dimension: usize,
    vertices: Seq<usize>,
    faces: Seq<usize>,
) -> Seq<CellView> {
    register_cofaces(cells, id, faces).push(
        CellView { id, dimension, vertices, faces, cofaces: Seq::empty() },
    )
}

/// A cell complex: the underlying topological space.
#[derive(Clone, Debug)]
pub struct CellComplex {
    pub cells: Vec<Cell>,
    pub dimension: usize,
}

impl View for CellComplex {
    type V = Seq<CellView>;

    open spec fn view(&self) -> Seq<CellView> {
        views(self.cells@)
    }
}

/// Looks up the first cell with identifier `id`.
pub fn find_index(cells: &Vec<Cell>, id: usize) -> (r: Option<usize>)
    ensures
        match r {
            Some(i) => i < cells@.len() && cells@[i as int].id == id && i == cell_index(views(cells@), id),
            None => cell_index(views(cells@), id) == -1,
        },
{
    let ghost s = ids(views(cells@));
    let mut i: usize = 0;
    while i < cells.len()
        invariant
            i <= cells@.len(),
            s == ids(views(cells@)),
            s.len() == cells@.len(),
            forall|j: int| 0 <= j < i ==> s[j] != id,
        decreases cells@.len() - i,
    {
        if cells[i].id == id {
            proof {
                lemma_first_pos_at(s, id, i as int);
            }
            return Some(i);
        }
        i += 1;
    }
    proof {
        lemma_first_pos(s, id);
        if first_pos(s, id) >= 0 {
            assert(s[first_pos(s, id)] == id);
        }
    }
    None
}

impl CellComplex {
    /// Well-formedness kept by every operation of the complex: the recorded
    /// dimension bounds the dimension of every cell, and every coface names a
    /// cell of the complex.
    pub open spec fn wf(&self) -> bool {
        &&& forall|i: int| 0 <= i < self@.len() ==> #[trigger] self@[i].dimension <= self.dimension
        &&& forall|i: int, j: int|
            0 <= i < self@.len() && 0 <= j < self@[i].cofaces.len() ==> ids(self@).contains(
                #[trigger] self@[i].cofaces[j],
            )
    }

    /// The empty complex.
    pub fn new() -> (cx: Self)
        ensures
            cx@ == Seq::<CellView>::empty(),
            cx.dimension == 0,
            cx.wf(),
    {
        CellComplex { cells: Vec::new(), dimension: 0 }
    }

    /// Adds a cell with the given faces and registers it as a coface of each of
    /// them (of the first cell carrying each face identifier, once per mention).
    pub fn add_cell(&mut self, id: usize, dimension: usize, vertices: Vec<usize>, faces: Vec<usize>)
        ensures
            final(self)@ == cells_after_add(old(self)@, id, dimension, vertices@, faces@),
            final(self).dimension == if dimension > old(self).dimension {
                dimension
            } else {
                old(self).dimension
            },
            old(self).wf() ==> final(self).wf(),
    {
        let ghost old_cells = self@;
        let mut cell = Cell::new(id, dimension, vertices);
        cell.faces = faces;
        let ghost fs = cell.faces@;
        let mut j: usize = 0;
        while j < cell.faces.len()
            invariant
                j <= fs.len(),
                cell.faces@ == fs,
                self.dimension == old(self).dimension,
                self.cells@.len() == old_cells.len(),
                cell@ == (CellView { id, dimension, vertices: vertices@, faces: fs, cofaces: Seq::empty() }),
                self@ == register_cofaces(old_cells, id, fs.take(j as int)),
            decreases fs.len() - j,
        {
            let face_id = cell.faces[j];
            let ghost before = self@;
            let ghost before_cells = self.cells@;
            proof {
                lemma_take_push(fs, j as int);
                assert(ids(self@) =~= ids(old_cells));
            }
            let found = find_index(&self.cells, face_id);
            let ghost fidx: int = match found {
                Some(f) => f as int,
                None => -1,
            };
            match found {
                Some(i) => {
                    self.cells[i].cofaces.push(id);
                },
                None => {},
            }
            proof {
                assert(cell_index(before, face_id) == cell_index(old_cells, face_id));
                assert(fidx == cell_index(old_cells, face_id));
                let next = register_cofaces(old_cells, id, fs.take(j + 1));
                assert forall|i: int| 0 <= i < old_cells.len() implies #[trigger] self@[i] == next[i] by {
                    let g0 = cofaces_gained(old_cells, i, fs.take(j as int));
                    let g1 = cofaces_gained(old_cells, i, fs.take(j + 1));
                    assert(ids(old_cells)[i] == old_cells[i].id);
                    assert(ids(before)[i] == before[i].id);
                    if cell_index(old_cells, old_cells[i].id) == i && old_cells[i].id == face_id {
                        assert(fidx == i);
                        assert(g1 == g0 + 1);
                        assert(repeat(id, g1) =~= repeat(id, g0).push(id));
                        assert(self@[i].cofaces =~= next[i].cofaces);
                    } else {
                        assert(g1 == g0);
                        assert(fidx != i);
                        assert(self.cells@[i] == before_cells[i]);
                        assert(self@[i] == before[i]);
                    }
                }
                assert(self@ =~= next);
            }
            j += 1;
        }
        proof {
            assert(fs.take(fs.len() as int) =~= fs);
        }
        self.cells.push(cell);
        if dimension > self.dimension {
            self.dimension = dimension;
        }
        proof {
            assert(self@ =~= cells_after_add(old_cells, id, dimension, vertices@, fs));
            if old(self).wf() {
                let n = old_cells.len();
                assert(ids(self@)[n as int] == id);
                assert forall|i: int, k: int|
                    0 <= i < self@.len() && 0 <= k < self@[i].cofaces.len() implies ids(self@).contains(
                    #[trigger] self@[i].cofaces[k],
                ) by {
                    if i < n {
                        let oc = old_cells[i].cofaces;
                        if k < oc.len() {
                            let c = oc[k];
                            assert(old(self)@[i].cofaces[k] == c);
                            assert(ids(old_cells).contains(c));
                            let p = choose|p: int| 0 <= p < ids(old_cells).len() && ids(old_cells)[p] == c;
                            assert(ids(self@)[p] == c);
                        } else {
                            assert(self@[i].cofaces[k] == id);
                        }
                    }
                }
                assert forall|i: int| 0 <= i < self@.len() implies #[trigger] self@[i].dimension
                    <= self.dimension by {
                    if i < n {
                        assert(old(self)@[i].dimension <= old(self).dimension);
                    }
                }
            }
        }
    }
}


/// Prefix-wise view of `of_dim`: one more cell extends the list of cells of its
/// dimension and leaves the others alone.
pub proof fn lemma_of_dim_push(cells: Seq<CellView>, c: CellView, k: int)
    ensures
        of_dim(cells.push(c), k) == if c.dimension == k { of_dim(cells, k).push(c) } else { of_dim(cells, k) },
{
    assert(cells.push(c).drop_last() =~= cells);
}

proof fn lemma_count_up_to_push(cells: Seq<CellView>, c: CellView, top: nat)
    ensures
        count_up_to(cells.push(c), top) == count_up_to(cells, top) + if c.dimension <= top { 1int } else { 0int },
    decreases top,
{
    lemma_of_dim_push(cells, c, top as int);
    if top > 0 {
        lemma_count_up_to_push(cells, c, (top - 1) as nat);
    }
}

/// The number of cells of dimension at most `top` is at most the number of cells.
pub proof fn lemma_count_up_to_bounded(cells: Seq<CellView>, top: nat)
    ensures
        0 <= count_up_to(cells, top) <= cells.len(),
    decreases cells.len(),
{
    if cells.len() == 0 {
        lemma_count_up_to_empty(cells, top);
    } else {
        let s = cells.drop_last();
        lemma_count_up_to_bounded(s, top);
        assert(s.push(cells.last()) =~= cells);
        lemma_count_up_to_push(s, cells.last(), top);
    }
}

proof fn lemma_count_up_to_empty(cells: Seq<CellView>, top: nat)
    requires
        cells.len() == 0,
    ensures
        count_up_to(cells, top) == 0,
    decreases top,
{
    if top > 0 {
        lemma_count_up_to_empty(cells, (top - 1) as nat);
    }
}

/// The alternating count is bounded by the plain count.
pub proof fn lemma_alternating_bounded(cells: Seq<CellView>, top: nat)
    ensures
        -count_up_to(cells, top) <= alternating_count(cells, top) <= count_up_to(cells, top),
    decreases top,
{
    if top > 0 {
        lemma_alternating_bounded(cells, (top - 1) as nat);
    }
}

impl Default for CellComplex {
    fn default() -> (cx: Self)
        ensures
            cx@ == Seq::<CellView>::empty(),
            cx.dimension == 0,
    {
        Self::new()
    }
}

impl CellComplex {
    /// The first cell with identifier `id`, if any.
    pub fn cell(&self, id: usize) -> (r: Option<&Cell>)
        ensures
            match r {
                Some(c) => 0 <= cell_index(self@, id) && c@ == self@[cell_index(self@, id)],
                None => cell_index(self@, id) == -1,
            },
    {
        match find_index(&self.cells, id) {
            Some(i) => Some(&self.cells[i]),
            None => None,
        }
    }

    /// The first cell with identifier `id`, if any, for modification; the
    /// modification lands in that cell and nowhere else.
    pub fn cell_mut(&mut self, id: usize) -> (r: Option<&mut Cell>)
        ensures
            final(self).dimension == old(self).dimension,
            r is Some ==> {
                let i = cell_index(old(self)@, id);
                &&& 0 <= i < old(self).cells@.len()
                &&& *r->0 == old(self).cells@[i]
                &&& final(self).cells@ == old(self).cells@.update(i, *final(r->0))
            },
            r is None ==> cell_index(old(self)@, id) == -1 && final(self).cells@ == old(self).cells@,
    {
        match find_index(&self.cells, id) {
            Some(i) => Some(&mut self.cells[i]),
            None => None,
        }
    }

    /// The cells of dimension `k`, in order.
    pub fn cells_of_dimension(&self, k: usize) -> (r: Vec<&Cell>)
        ensures
            r@.len() == of_dim(self@, k as int).len(),
            forall|j: int| 0 <= j < r@.len() ==> #[trigger] r@[j]@ == of_dim(self@, k as int)[j],
    {
        let mut r: Vec<&Cell> = Vec::new();
        let mut i: usize = 0;
        while i < self.cells.len()
            invariant
                i <= self.cells@.len(),
                r@.len() == of_dim(self@.take(i as int), k as int).len(),
                forall|j: int| 0 <= j < r@.len() ==> #[trigger] r@[j]@ == of_dim(self@.take(i as int), k as int)[j],
            decreases self.cells@.len() - i,
        {
            proof {
                lemma_take_push(self@, i as int);
                lemma_of_dim_push(self@.take(i as int), self@[i as int], k as int);
            }
            if self.cells[i].dimension == k {
                r.push(&self.cells[i]);
            }
            i += 1;
        }
        proof {
            assert(self@.take(self@.len() as int) =~= self@);
        }
        r
    }

    /// Number of cells of dimension `k`.
    pub fn num_cells(&self, k: usize) -> (n: usize)
        ensures
            n == of_dim(self@, k as int).len(),
    {
        let mut n: usize = 0;
        let mut i: usize = 0;
        while i < self.cells.len()
            invariant
                i <= self.cells@.len(),
                n == of_dim(self@.take(i as int), k as int).len(),
                n <= i,
            decreases self.cells@.len() - i,
        {
            proof {
                lemma_take_push(self@, i as int);
                lemma_of_dim_push(self@.take(i as int), self@[i as int], k as int);
            }
            if self.cells[i].dimension == k {
                n += 1;
            }
            i += 1;
        }
        proof {
            assert(self@.take(self@.len() as int) =~= self@);
        }
        n
    }

    /// Euler characteristic χ = Σ_{k=0}^{dimension} (-1)^k |C_k|.
    pub fn euler_characteristic(&self) -> (chi: i32)
        requires
            self.cells@.len() <= i32::MAX,
        ensures
            chi == alternating_count(self@, self.dimension as nat),
    {
        let mut chi: i32 = 0;
        let mut k: usize = 0;
        loop
            invariant_except_break
                k == 0 ==> chi == 0,
                k > 0 ==> chi == alternating_count(self@, (k - 1) as nat),
            invariant
                k <= self.dimension,
                self.cells@.len() <= i32::MAX,
            ensures
                chi == alternating_count(self@, self.dimension as nat),
            decreases self.dimension - k,
        {
            let count = self.num_cells(k);
            proof {
                lemma_count_up_to_bounded(self@, k as nat);
                lemma_alternating_bounded(self@, k as nat);
                if k > 0 {
                    lemma_alternating_bounded(self@, (k - 1) as nat);
                    lemma_count_up_to_bounded(self@, (k - 1) as nat);
                }
                assert(n_cells(self@, k as int) == count);
            }
            if k % 2 == 0 {
                chi += count as i32;
            } else {
                chi -= count as i32;
            }
            if k == self.dimension {
                break;
            }
            k += 1;
        }
        chi
    }
}

/// Adding a cell registers it as a coface of each of its faces that the complex
/// already holds (of the cell that a lookup by the face's identifier finds).
pub proof fn add_cell_registers_cofaces(
    cells: Seq<CellView>,
    id: usize,
    dimension: usize,
    vertices: Seq<usize>,
    faces: Seq<usize>,
    f: usize,
)
    requires
        faces.contains(f),
        cell_index(cells, f) >= 0,
    ensures
        cells_after_add(cells, id, dimension, vertices, faces)[cell_index(cells, f)].cofaces.contains(id),
{
    let i = cell_index(cells, f);
    lemma_first_pos(ids(cells), f);
    assert(cells[i].id == ids(cells)[i]);
    lemma_count_positive(faces, f);
    let after = cells_after_add(cells, id, dimension, vertices, faces);
    let g = cofaces_gained(cells, i, faces);
    assert(g > 0);
    assert(after[i].cofaces[cells[i].cofaces.len() as int] == id);
}

proof fn lemma_count_positive(s: Seq<usize>, x: usize)
    requires
        s.contains(x),
    ensures
        count(s, x) > 0,
    decreases s.len(),
{
    if s.last() != x {
        let p = choose|p: int| 0 <= p < s.len() && s[p] == x;
        assert(s.drop_last()[p] == x);
        lemma_count_positive(s.drop_last(), x);
    }
}
} // verus!
