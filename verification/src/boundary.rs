use vstd::prelude::*;
use crate::cell::{Cell, CellView};
use crate::complex::{CellComplex, cell_index, ids, of_dim};
use crate::seqs::{
    first_pos, last_pos, missing, lemma_first_pos, lemma_first_pos_at, lemma_last_pos,
    lemma_last_pos_at, lemma_take_push,
};

verus! {

/// The incidence sign of the face with identifier `face_id` in `cell`: the face
/// is the first cell of the complex with that identifier; when exactly one vertex
/// label of `cell` is absent from the face, the sign is (-1)^i for the position i
/// of that label in `cell`'s vertex list; in every other case it is +1.
pub open spec fn incidence_sign_of(cx: Seq<CellView>, cell: CellView, face_id: usize) -> int {
    let fi = cell_index(cx, face_id);
    if fi < 0 {
        1
    } else {
        let m = missing(cell.vertices, cx[fi].vertices);
        if m.len() == 1 {
            let p = first_pos(cell.vertices, m[0]);
            if p >= 0 && p % 2 == 1 {
                -1
            } else {
                1
            }
        } else {
            1
        }
    }
}

/// Entry (i, j) of the boundary matrix ∂_k: column j is the j-th k-cell, row i the
/// i-th (k-1)-cell. The entry is the incidence sign when the (k-1)-cell's
/// identifier is among the column cell's faces and that row is the last
/// (k-1)-cell carrying the identifier (a face identifier names one row, the
/// last one); otherwise 0.
pub open spec fn boundary_entry(cx: Seq<CellView>, k: int, i: int, j: int) -> int {
    let rows = of_dim(cx, k - 1);
    let cell = of_dim(cx, k)[j];
    let fid = rows[i].id;
    if cell.faces.contains(fid) && last_pos(ids(rows), fid) == i {
        incidence_sign_of(cx, cell, fid)
    } else {
        0
    }
}

/// A dense matrix with small integer entries, stored row by row.
#[derive(Clone, Debug)]
pub struct IncidenceMatrix {
    pub rows: usize,
    pub cols: usize,
    pub data: Vec<Vec<i8>>,
}

impl IncidenceMatrix {
    /// The entries, row by row.
    pub open spec fn entries(&self) -> Seq<Seq<i8>> {
        self.data@.map_values(|r: Vec<i8>| r@)
    }

    /// `rows` rows of `cols` entries each.
    pub open spec fn shaped(&self) -> bool {
        &&& self.data@.len() == self.rows
        &&& forall|i: int| 0 <= i < self.rows ==> #[trigger] self.data@[i]@.len() == self.cols
    }

    /// The zero matrix of the given shape.
    pub fn zeros(rows: usize, cols: usize) -> (m: Self)
        ensures
            m.rows == rows,
            m.cols == cols,
            m.shaped(),
            forall|i: int, j: int| 0 <= i < rows && 0 <= j < cols ==> #[trigger] m.data@[i]@[j] == 0,
    {
        let mut data: Vec<Vec<i8>> = Vec::new();
        let mut i: usize = 0;
        while i < rows
            invariant
                i <= rows,
                data@.len() == i,
                forall|a: int| 0 <= a < i ==> #[trigger] data@[a]@.len() == cols,
                forall|a: int, b: int| 0 <= a < i && 0 <= b < cols ==> #[trigger] data@[a]@[b] == 0,
            decreases rows - i,
        {
            let mut row: Vec<i8> = Vec::new();
            let mut j: usize = 0;
            while j < cols
                invariant
                    j <= cols,
                    row@.len() == j,
                    forall|b: int| 0 <= b < j ==> #[trigger] row@[b] == 0,
                decreases cols - j,
            {
                row.push(0);
                j += 1;
            }
            data.push(row);
            i += 1;
        }
        IncidenceMatrix { rows, cols, data }
    }

    /// Entry (i, j).
    pub fn get(&self, i: usize, j: usize) -> (v: i8)
        requires
            self.shaped(),
            i < self.rows,
            j < self.cols,
        ensures
            v == self.data@[i as int]@[j as int],
    {
        self.data[i][j]
    }

    /// The transpose.
    pub fn transpose(&self) -> (t: Self)
        requires
            self.shaped(),
        ensures
            t.rows == self.cols,
            t.cols == self.rows,
            t.shaped(),
            forall|i: int, j: int|
                0 <= i < self.cols && 0 <= j < self.rows ==> #[trigger] t.data@[i]@[j] == self.data@[j]@[i],
    {
        let mut data: Vec<Vec<i8>> = Vec::new();
        let mut i: usize = 0;
        while i < self.cols
            invariant
                self.shaped(),
                i <= self.cols,
                data@.len() == i,
                forall|a: int| 0 <= a < i ==> #[trigger] data@[a]@.len() == self.rows,
                forall|a: int, b: int|
                    0 <= a < i && 0 <= b < self.rows ==> #[trigger] data@[a]@[b] == self.data@[b]@[a],
            decreases self.cols - i,
        {
            let mut row: Vec<i8> = Vec::new();
            let mut j: usize = 0;
            while j < self.rows
                invariant
                    self.shaped(),
                    i < self.cols,
                    j <= self.rows,
                    row@.len() == j,
                    forall|b: int| 0 <= b < j ==> #[trigger] row@[b] == self.data@[b]@[i as int],
                decreases self.rows - j,
            {
                row.push(self.data[j][i]);
                j += 1;
            }
            data.push(row);
            i += 1;
        }
        IncidenceMatrix { rows: self.cols, cols: self.rows, data }
    }
}

/// Whether `x` occurs in `v`.
fn contains(v: &Vec<usize>, x: usize) -> (r: bool)
    ensures
        r == v@.contains(x),
{
    let mut i: usize = 0;
    while i < v.len()
        invariant
            i <= v@.len(),
            forall|j: int| 0 <= j < i ==> v@[j] != x,
        decreases v@.len() - i,
    {
        if v[i] == x {
            assert(v@[i as int] == x);
            return true;
        }
        i += 1;
    }
    false
}

/// Last position of `x` in `v`.
pub(crate) fn last_position(v: &Vec<usize>, x: usize) -> (r: Option<usize>)
    ensures
        match r {
            Some(i) => i < v@.len() && i == last_pos(v@, x),
            None => last_pos(v@, x) == -1,
        },
{
    let mut i: usize = v.len();
    while i > 0
        invariant
            i <= v@.len(),
            forall|j: int| i <= j < v@.len() ==> v@[j] != x,
        decreases i,
    {
        if v[i - 1] == x {
            proof {
                lemma_last_pos_at(v@, x, i - 1);
            }
            return Some(i - 1);
        }
        i -= 1;
    }
    proof {
        lemma_last_pos(v@, x);
        if last_pos(v@, x) >= 0 {
            assert(v@[last_pos(v@, x)] == x);
        }
    }
    None
}

/// First position of `x` in `v`.
fn first_position(v: &Vec<usize>, x: usize) -> (r: Option<usize>)
    ensures
        match r {
            Some(i) => i < v@.len() && i == first_pos(v@, x),
            None => first_pos(v@, x) == -1,
        },
{
    let mut i: usize = 0;
    while i < v.len()
        invariant
            i <= v@.len(),
            forall|j: int| 0 <= j < i ==> v@[j] != x,
        decreases v@.len() - i,
    {
        if v[i] == x {
            proof {
                lemma_first_pos_at(v@, x, i as int);
            }
            return Some(i);
        }
        i += 1;
    }
    proof {
        lemma_first_pos(v@, x);
        if first_pos(v@, x) >= 0 {
            assert(v@[first_pos(v@, x)] == x);
        }
    }
    None
}

impl CellComplex {
    /// The incidence sign of the face `face_id` in `cell` (see [`incidence_sign_of`]).
    pub fn incidence_sign(&self, cell: &Cell, face_id: usize) -> (s: i8)
        ensures
            s == incidence_sign_of(self@, cell@, face_id),
    {
        let face = match self.cell(face_id) {
            Some(f) => f,
            None => {
                return 1;
            },
        };
        let mut miss: Vec<usize> = Vec::new();
        let mut i: usize = 0;
        while i < cell.vertices.len()
            invariant
                i <= cell.vertices@.len(),
                miss@ == missing(cell.vertices@.take(i as int), face.vertices@),
            decreases cell.vertices@.len() - i,
        {
            proof {
                lemma_take_push(cell.vertices@, i as int);
            }
            let v = cell.vertices[i];
            if !contains(&face.vertices, v) {
                miss.push(v);
            }
            i += 1;
        }
        proof {
            assert(cell.vertices@.take(cell.vertices@.len() as int) =~= cell.vertices@);
        }
        if miss.len() == 1 {
            match first_position(&cell.vertices, miss[0]) {
                Some(idx) => {
                    if idx % 2 == 0 {
                        1
                    } else {
                        -1
                    }
                },
                None => 1,
            }
        } else {
            1
        }
    }

    /// The boundary matrix ∂_k : C_k → C_{k-1}, with one column per k-cell and one
    /// row per (k-1)-cell, in the order in which the cells stand; ∂_0 has no rows.
    pub fn boundary_matrix(&self, k: usize) -> (m: IncidenceMatrix)
        ensures
            m.shaped(),
            m.cols == of_dim(self@, k as int).len(),
            k == 0 ==> m.rows == 0,
            k > 0 ==> m.rows == of_dim(self@, k - 1).len(),
            forall|i: int, j: int|
                0 <= i < m.rows && 0 <= j < m.cols ==> #[trigger] m.data@[i]@[j] == boundary_entry(self@, k as int, i, j),
    {
        if k == 0 {
            let n = self.num_cells(0);
            return IncidenceMatrix::zeros(0, n);
        }
        let k_cells = self.cells_of_dimension(k);
        let km1_cells = self.cells_of_dimension(k - 1);
        let ncols = k_cells.len();
        let nrows = km1_cells.len();
        let ghost cx = self@;
        let ghost rows_seq = of_dim(cx, k - 1);
        let ghost cols_seq = of_dim(cx, k as int);
        let mut row_ids: Vec<usize> = Vec::new();
        let mut r: usize = 0;
        while r < nrows
            invariant
                r <= nrows,
                nrows == km1_cells@.len(),
                km1_cells@.len() == rows_seq.len(),
                forall|j: int| 0 <= j < km1_cells@.len() ==> #[trigger] km1_cells@[j]@ == rows_seq[j],
                row_ids@.len() == r,
                forall|j: int| 0 <= j < r ==> row_ids@[j] == #[trigger] rows_seq[j].id,
            decreases nrows - r,
        {
            assert(km1_cells@[r as int]@ == rows_seq[r as int]);
            row_ids.push(km1_cells[r].id);
            r += 1;
        }
        assert(row_ids@ =~= ids(rows_seq));
        let mut mat = IncidenceMatrix::zeros(nrows, ncols);
        let mut col: usize = 0;
        while col < ncols
            invariant
                self@ == cx,
                k > 0,
                rows_seq == of_dim(cx, k - 1),
                cols_seq == of_dim(cx, k as int),
                row_ids@ == ids(rows_seq),
                ncols == k_cells@.len(),
                k_cells@.len() == cols_seq.len(),
                forall|j: int| 0 <= j < k_cells@.len() ==> #[trigger] k_cells@[j]@ == cols_seq[j],
                nrows == rows_seq.len(),
                mat.rows == nrows,
                mat.cols == ncols,
                mat.shaped(),
                col <= ncols,
                forall|i: int, j: int|
                    0 <= i < nrows && 0 <= j < col ==> #[trigger] mat.data@[i]@[j] == boundary_entry(cx, k as int, i, j),
                forall|i: int, j: int| 0 <= i < nrows && col <= j < ncols ==> #[trigger] mat.data@[i]@[j] == 0,
            decreases ncols - col,
        {
            let cell = k_cells[col];
            assert(k_cells@[col as int]@ == cols_seq[col as int]);
            let mut f: usize = 0;
            while f < cell.faces.len()
                invariant
                    self@ == cx,
                    k > 0,
                    rows_seq == of_dim(cx, k - 1),
                    cols_seq == of_dim(cx, k as int),
                    row_ids@ == ids(rows_seq),
                    cell@ == cols_seq[col as int],
                    col < ncols,
                    ncols == cols_seq.len(),
                    nrows == rows_seq.len(),
                    mat.rows == nrows,
                    mat.cols == ncols,
                    mat.shaped(),
                    f <= cell.faces@.len(),
                    forall|i: int, j: int|
                        0 <= i < nrows && 0 <= j < col ==> #[trigger] mat.data@[i]@[j] == boundary_entry(cx, k as int, i, j),
                    forall|i: int, j: int| 0 <= i < nrows && col < j < ncols ==> #[trigger] mat.data@[i]@[j] == 0,
                    forall|i: int|
                        0 <= i < nrows ==> #[trigger] mat.data@[i]@[col as int] == if cell.faces@.take(f as int).contains(rows_seq[i].id)
                            && last_pos(ids(rows_seq), rows_seq[i].id) == i {
                            incidence_sign_of(cx, cell@, rows_seq[i].id)
                        } else {
                            0
                        },
                decreases cell.faces@.len() - f,
            {
                let face_id = cell.faces[f];
                proof {
                    lemma_take_push(cell.faces@, f as int);
                }
                let ghost before = mat.data@;
                match last_position(&row_ids, face_id) {
                    Some(row) => {
                        let sign = self.incidence_sign(cell, face_id);
                        mat.data[row].set(col, sign);
                        proof {
                            lemma_last_pos(ids(rows_seq), face_id);
                            assert(ids(rows_seq)[row as int] == face_id);
                            assert(rows_seq[row as int].id == face_id);
                        }
                    },
                    None => {},
                }
                proof {
                    lemma_last_pos(ids(rows_seq), face_id);
                    assert forall|i: int| 0 <= i < nrows implies #[trigger] mat.data@[i]@[col as int] == if cell.faces@.take(f + 1).contains(rows_seq[i].id)
                        && last_pos(ids(rows_seq), rows_seq[i].id) == i {
                        incidence_sign_of(cx, cell@, rows_seq[i].id)
                    } else {
                        0
                    } by {
                        let t0 = cell.faces@.take(f as int);
                        let t1 = cell.faces@.take(f + 1);
                        assert(t1 == t0.push(face_id));
                        assert(t1.contains(rows_seq[i].id) == (t0.contains(rows_seq[i].id) || face_id == rows_seq[i].id)) by {
                            if t1.contains(rows_seq[i].id) && !t0.contains(rows_seq[i].id) {
                                let p = choose|p: int| 0 <= p < t1.len() && t1[p] == rows_seq[i].id;
                                if p < t0.len() {
                                    assert(t0[p] == t1[p]);
                                }
                            }
                            if t0.contains(rows_seq[i].id) {
                                let p = choose|p: int| 0 <= p < t0.len() && t0[p] == rows_seq[i].id;
                                assert(t1[p] == t0[p]);
                            }
                            if face_id == rows_seq[i].id {
                                assert(t1[t0.len() as int] == face_id);
                            }
                        }
                        assert(ids(rows_seq)[i] == rows_seq[i].id);
                        if i != last_pos(ids(rows_seq), face_id) {
                            assert(mat.data@[i] == before[i]);
                        }
                    }
                    assert forall|i: int, j: int| 0 <= i < nrows && 0 <= j < ncols && j != col implies #[trigger] mat.data@[i]@[j] == before[i]@[j] by {
                        if i != last_pos(ids(rows_seq), face_id) {
                            assert(mat.data@[i] == before[i]);
                        }
                    }
                }
                f += 1;
            }
            proof {
                assert(cell.faces@.take(cell.faces@.len() as int) =~= cell.faces@);
            }
            col += 1;
        }
        mat
    }

    /// The coboundary matrix δ_k = ∂_{k+1}ᵀ : C^k → C^{k+1}.
    pub fn coboundary_matrix(&self, k: usize) -> (m: IncidenceMatrix)
        requires
            k < usize::MAX,
        ensures
            m.shaped(),
            m.rows == of_dim(self@, k + 1).len(),
            m.cols == of_dim(self@, k as int).len(),
            forall|i: int, j: int|
                0 <= i < m.rows && 0 <= j < m.cols ==> #[trigger] m.data@[i]@[j] == boundary_entry(self@, k + 1, j, i),
    {
        let b = self.boundary_matrix(k + 1);
        b.transpose()
    }
}


/// The incidences (face identifier, cell identifier, incidence sign) of the first
/// `n` cells, cell by cell and face by face in the order of the face lists.
pub open spec fn incidences_of(cx: Seq<CellView>, n: int) -> Seq<(usize, usize, i8)>
    decreases n,
{
    if n <= 0 {
        Seq::empty()
    } else {
        let c = cx[n - 1];
        incidences_of(cx, n - 1) + Seq::new(
            c.faces.len(),
            |r: int| (c.faces[r], c.id, incidence_sign_of(cx, c, c.faces[r]) as i8),
        )
    }
}

impl CellComplex {
    /// Every face relation of the complex with its incidence sign, as
    /// (face identifier, cell identifier, sign), cell by cell.
    pub fn incidences(&self) -> (r: Vec<(usize, usize, i8)>)
        ensures
            r@ == incidences_of(self@, self@.len() as int),
    {
        let ghost cx = self@;
        let mut out: Vec<(usize, usize, i8)> = Vec::new();
        let mut i: usize = 0;
        while i < self.cells.len()
            invariant
                cx == self@,
                i <= self.cells@.len(),
                out@ == incidences_of(cx, i as int),
            decreases self.cells@.len() - i,
        {
            let c = &self.cells[i];
            assert(c@ == cx[i as int]);
            let ghost before = out@;
            let mut f: usize = 0;
            while f < c.faces.len()
                invariant
                    cx == self@,
                    c@ == cx[i as int],
                    f <= c.faces@.len(),
                    out@ == before + Seq::new(
                        f as nat,
                        |r: int| (c@.faces[r], c@.id, incidence_sign_of(cx, c@, c@.faces[r]) as i8),
                    ),
                decreases c.faces@.len() - f,
            {
                let sign = self.incidence_sign(c, c.faces[f]);
                out.push((c.faces[f], c.id, sign));
                proof {
                    assert(out@ =~= before + Seq::new(
                        (f + 1) as nat,
                        |r: int| (c@.faces[r], c@.id, incidence_sign_of(cx, c@, c@.faces[r]) as i8),
                    ));
                }
                f += 1;
            }
            proof {
                assert(out@ =~= incidences_of(cx, i + 1));
            }
            i += 1;
        }
        out
    }
}
/// Number of face relations of the first `n` cells: Σ |faces|.
pub open spec fn face_count(cx: Seq<CellView>, n: int) -> nat
    decreases n,
{
    if n <= 0 {
        0
    } else {
        face_count(cx, n - 1) + cx[n - 1].faces.len()
    }
}

proof fn lemma_incidences_props(cx: Seq<CellView>, n: int)
    requires
        0 <= n <= cx.len(),
    ensures
        incidences_of(cx, n).len() == face_count(cx, n),
        forall|p: int, r: int| 0 <= p < n && 0 <= r < cx[p].faces.len() ==> incidences_of(cx, n).contains(
            (#[trigger] cx[p].faces[r], cx[p].id, incidence_sign_of(cx, cx[p], cx[p].faces[r]) as i8),
        ),
    decreases n,
{
    if n > 0 {
        lemma_incidences_props(cx, n - 1);
        let c = cx[n - 1];
        let rest = incidences_of(cx, n - 1);
        let tail = Seq::new(c.faces.len(), |r: int| (c.faces[r], c.id, incidence_sign_of(cx, c, c.faces[r]) as i8));
        let all = incidences_of(cx, n);
        assert(all == rest + tail);
        assert forall|p: int, r: int| 0 <= p < n && 0 <= r < cx[p].faces.len() implies all.contains(
            (#[trigger] cx[p].faces[r], cx[p].id, incidence_sign_of(cx, cx[p], cx[p].faces[r]) as i8),
        ) by {
            let t = (cx[p].faces[r], cx[p].id, incidence_sign_of(cx, cx[p], cx[p].faces[r]) as i8);
            if p < n - 1 {
                assert(rest.contains(t));
                let m = choose|m: int| 0 <= m < rest.len() && rest[m] == t;
                assert(all[m] == t);
            } else {
                assert(all[rest.len() + r] == t);
            }
        }
    }
}

/// The incidences list every face relation of every cell: each (face, cell,
/// incidence sign) occurs, and there are Σ |faces| entries, one per mention of a
/// face in a face list.
pub proof fn incidences_list_every_face(cx: Seq<CellView>)
    ensures
        incidences_of(cx, cx.len() as int).len() == face_count(cx, cx.len() as int),
        forall|p: int, r: int| 0 <= p < cx.len() && 0 <= r < cx[p].faces.len() ==> incidences_of(cx, cx.len() as int).contains(
            (#[trigger] cx[p].faces[r], cx[p].id, incidence_sign_of(cx, cx[p], cx[p].faces[r]) as i8),
        ),
{
    lemma_incidences_props(cx, cx.len() as int);
}

} // verus!
