use vstd::prelude::*;
use std::collections::HashMap;
use crate::cell::{Cell, CellView};
use crate::complex::{CellComplex, of_dim, ids, cell_index, lemma_of_dim_push};
use crate::boundary::incidence_sign_of;
use crate::seqs::{last_pos, lemma_last_pos, lemma_take_push, lemma_first_pos};

verus! {

broadcast use vstd::std_specs::hash::group_hash_axioms;

/// Dimension of the stalk over cell `id`: the recorded one, 0 when none is recorded.
pub open spec fn stalk_of(stalks: Map<usize, usize>, id: usize) -> nat {
    if stalks.contains_key(id) { stalks[id] as nat } else { 0 }
}

/// Σ of the stalk dimensions over `cells` (a cell counted once per occurrence).
pub open spec fn stalk_sum(stalks: Map<usize, usize>, cells: Seq<CellView>) -> nat
    decreases cells.len(),
{
    if cells.len() == 0 {
        0
    } else {
        stalk_sum(stalks, cells.drop_last()) + stalk_of(stalks, cells.last().id)
    }
}

/// Position in the cochain space ⊕_{σ ∈ cells} F(σ) at which the stalk of the
/// cell carrying `id` starts; a repeated identifier goes to its last cell.
pub open spec fn offset_of(stalks: Map<usize, usize>, cells: Seq<CellView>, id: usize) -> nat {
    stalk_sum(stalks, cells.take(last_pos(ids(cells), id)))
}

/// A block of the sheaf coboundary δ_k: the restriction F(σ⪯τ) for the face σ
/// (identifier `sigma`) of the (k+1)-cell τ (identifier `tau`) enters, transposed
/// and multiplied by `sign`, at rows `row_offset .. row_offset + rows` and columns
/// `col_offset .. col_offset + cols`.
#[derive(Clone, Copy, PartialEq, Eq, Debug)]
pub struct CoboundaryBlock {
    pub sigma: usize,
    pub tau: usize,
    pub row_offset: usize,
    pub col_offset: usize,
    pub rows: usize,
    pub cols: usize,
    pub sign: i8,
}

/// The blocks contributed by the (k+1)-cell `tau` through its first `nfaces`
/// faces: one per face identifier whose cell (the first with that identifier)
/// exists and has dimension k.
pub open spec fn tau_blocks(
    cx: Seq<CellView>,
    stalks: Map<usize, usize>,
    k: int,
    tau: CellView,
    nfaces: int,
) -> Seq<CoboundaryBlock>
    decreases nfaces,
{
    if nfaces <= 0 {
        Seq::empty()
    } else {
        let rest = tau_blocks(cx, stalks, k, tau, nfaces - 1);
        let sid = tau.faces[nfaces - 1];
        let si = cell_index(cx, sid);
        if si >= 0 && cx[si].dimension == k {
            rest.push(
                CoboundaryBlock {
                    sigma: sid,
                    tau: tau.id,
                    row_offset: offset_of(stalks, of_dim(cx, k + 1), tau.id) as usize,
                    col_offset: offset_of(stalks, of_dim(cx, k), sid) as usize,
                    rows: stalk_of(stalks, tau.id) as usize,
                    cols: stalk_of(stalks, sid) as usize,
                    sign: incidence_sign_of(cx, tau, sid) as i8,
                },
            )
        } else {
            rest
        }
    }
}

/// The blocks of δ_k contributed by the first `ntau` cells of dimension k + 1, in order.
pub open spec fn coboundary_layout(cx: Seq<CellView>, stalks: Map<usize, usize>, k: int, ntau: int) -> Seq<CoboundaryBlock>
    decreases ntau,
{
    if ntau <= 0 {
        Seq::empty()
    } else {
        let tau = of_dim(cx, k + 1)[ntau - 1];
        coboundary_layout(cx, stalks, k, ntau - 1) + tau_blocks(cx, stalks, k, tau, tau.faces.len() as int)
    }
}

/// The part of a cellular sheaf that is combinatorial: the cell complex and the
/// dimension of the stalk over each cell.
#[derive(Clone, Debug)]
pub struct CellularSheaf {
    pub complex: CellComplex,
    pub stalks: HashMap<usize, usize>,
}

proof fn lemma_stalk_sum_prefix(stalks: Map<usize, usize>, cells: Seq<CellView>, i: int)
    requires
        0 <= i <= cells.len(),
    ensures
        stalk_sum(stalks, cells.take(i)) <= stalk_sum(stalks, cells),
    decreases cells.len() - i,
{
    if i < cells.len() {
        lemma_take_push(cells, i);
        lemma_stalk_sum_prefix(stalks, cells, i + 1);
    } else {
        assert(cells.take(i) =~= cells);
    }
}

impl CellularSheaf {
    /// The sheaf over `complex` with no stalk recorded (every stalk is 0).
    pub fn new(complex: CellComplex) -> (s: Self)
        ensures
            s.complex == complex,
            s.stalks@ == Map::<usize, usize>::empty(),
    {
        CellularSheaf { complex, stalks: HashMap::new() }
    }

    /// The sheaf over `complex` whose stalk over every cell has dimension `dim`.
    pub fn with_uniform_stalks(complex: CellComplex, dim: usize) -> (s: Self)
        ensures
            s.complex == complex,
            forall|id: usize| #[trigger] s.stalks@.contains_key(id) == ids(complex@).contains(id),
            forall|id: usize| s.stalks@.contains_key(id) ==> #[trigger] s.stalks@[id] == dim,
    {
        let mut s = CellularSheaf::new(complex);
        let mut i: usize = 0;
        while i < s.complex.cells.len()
            invariant
                s.complex == complex,
                i <= complex.cells@.len(),
                forall|id: usize| #[trigger] s.stalks@.contains_key(id) == ids(complex@).take(i as int).contains(id),
                forall|id: usize| s.stalks@.contains_key(id) ==> #[trigger] s.stalks@[id] == dim,
            decreases complex.cells@.len() - i,
        {
            let id = s.complex.cells[i].id;
            proof {
                lemma_take_push(ids(complex@), i as int);
                assert(ids(complex@)[i as int] == id);
                assert forall|x: usize| ids(complex@).take(i + 1).contains(x) == (ids(complex@).take(i as int).contains(x) || x == id) by {
                    let t0 = ids(complex@).take(i as int);
                    let t1 = ids(complex@).take(i + 1);
                    if t1.contains(x) && x != id {
                        let p = choose|p: int| 0 <= p < t1.len() && t1[p] == x;
                        assert(t0[p] == x);
                    }
                    if t0.contains(x) {
                        let p = choose|p: int| 0 <= p < t0.len() && t0[p] == x;
                        assert(t1[p] == x);
                    }
                    if x == id {
                        assert(t1[i as int] == x);
                    }
                }
            }
            s.set_stalk(id, dim);
            i += 1;
        }
        proof {
            assert(ids(complex@).take(complex@.len() as int) =~= ids(complex@));
        }
        s
    }

    /// Records the stalk dimension over a cell, replacing any earlier one.
    pub fn set_stalk(&mut self, cell_id: usize, dim: usize)
        ensures
            final(self).complex == old(self).complex,
            final(self).stalks@ == old(self).stalks@.insert(cell_id, dim),
    {
        self.stalks.insert(cell_id, dim);
    }

    /// Dimension of the stalk over the cell `cell_id` (0 when none is recorded).
    pub fn stalk_dimension(&self, cell_id: usize) -> (d: usize)
        ensures
            d == stalk_of(self.stalks@, cell_id),
            self.stalks@.contains_key(cell_id) ==> d == self.stalks@[cell_id],
            !self.stalks@.contains_key(cell_id) ==> d == 0,
    {
        match self.stalks.get(&cell_id) {
            Some(d) => *d,
            None => 0,
        }
    }

    /// Total stalk dimension over the k-cells: the dimension of the cochain space Cᵏ(F).
    pub fn total_stalk_dimension(&self, k: usize) -> (t: usize)
        requires
            stalk_sum(self.stalks@, of_dim(self.complex@, k as int)) <= usize::MAX,
        ensures
            t == stalk_sum(self.stalks@, of_dim(self.complex@, k as int)),
    {
        let cells = self.complex.cells_of_dimension(k);
        let ghost s = of_dim(self.complex@, k as int);
        let mut total: usize = 0;
        let mut i: usize = 0;
        while i < cells.len()
            invariant
                s == of_dim(self.complex@, k as int),
                cells@.len() == s.len(),
                forall|j: int| 0 <= j < cells@.len() ==> #[trigger] cells@[j]@ == s[j],
                stalk_sum(self.stalks@, s) <= usize::MAX,
                i <= cells@.len(),
                total == stalk_sum(self.stalks@, s.take(i as int)),
            decreases cells@.len() - i,
        {
            proof {
                lemma_take_push(s, i as int);
                lemma_stalk_sum_prefix(self.stalks@, s, i + 1);
                assert(cells@[i as int]@ == s[i as int]);
            }
            total = total + self.stalk_dimension(cells[i].id);
            i += 1;
        }
        proof {
            assert(s.take(s.len() as int) =~= s);
        }
        total
    }
}


/// A k-cell of the complex stands among the k-cells.
proof fn lemma_in_of_dim(cx: Seq<CellView>, p: int)
    requires
        0 <= p < cx.len(),
    ensures
        ids(of_dim(cx, cx[p].dimension as int)).contains(cx[p].id),
    decreases cx.len(),
{
    let k = cx[p].dimension as int;
    let s = cx.drop_last();
    assert(s.push(cx.last()) =~= cx);
    lemma_of_dim_push(s, cx.last(), k);
    if p == cx.len() - 1 {
        let o = of_dim(cx, k);
        assert(ids(o)[o.len() - 1] == cx[p].id);
    } else {
        assert(cx[p] == s[p]);
        lemma_in_of_dim(s, p);
        let q = choose|q: int| 0 <= q < ids(of_dim(s, k)).len() && ids(of_dim(s, k))[q] == cx[p].id;
        assert(ids(of_dim(cx, k))[q] == ids(of_dim(s, k))[q]);
    }
}

impl CellularSheaf {
    /// Identifiers of `cells` and, for each position, where its stalk starts in
    /// the cochain space ⊕ F(σ).
    fn cochain_layout(&self, cells: &Vec<&Cell>, s: Ghost<Seq<CellView>>) -> (r: (Vec<usize>, Vec<usize>))
        requires
            cells@.len() == s@.len(),
            forall|j: int| 0 <= j < cells@.len() ==> #[trigger] cells@[j]@ == s@[j],
            stalk_sum(self.stalks@, s@) <= usize::MAX,
        ensures
            r.0@ == ids(s@),
            r.1@.len() == s@.len(),
            forall|j: int| 0 <= j < s@.len() ==> #[trigger] r.1@[j] == stalk_sum(self.stalks@, s@.take(j)),
    {
        let mut id_list: Vec<usize> = Vec::new();
        let mut offsets: Vec<usize> = Vec::new();
        let mut off: usize = 0;
        let mut i: usize = 0;
        while i < cells.len()
            invariant
                cells@.len() == s@.len(),
                forall|j: int| 0 <= j < cells@.len() ==> #[trigger] cells@[j]@ == s@[j],
                stalk_sum(self.stalks@, s@) <= usize::MAX,
                i <= cells@.len(),
                off == stalk_sum(self.stalks@, s@.take(i as int)),
                id_list@.len() == i,
                offsets@.len() == i,
                forall|j: int| 0 <= j < i ==> id_list@[j] == #[trigger] s@[j].id,
                forall|j: int| 0 <= j < i ==> #[trigger] offsets@[j] == stalk_sum(self.stalks@, s@.take(j)),
            decreases cells@.len() - i,
        {
            proof {
                lemma_take_push(s@, i as int);
                lemma_stalk_sum_prefix(self.stalks@, s@, i + 1);
                assert(cells@[i as int]@ == s@[i as int]);
            }
            id_list.push(cells[i].id);
            offsets.push(off);
            off = off + self.stalk_dimension(cells[i].id);
            i += 1;
        }
        assert(id_list@ =~= ids(s@));
        (id_list, offsets)
    }

    /// The layout of the sheaf coboundary δ_k : Cᵏ(F) → Cᵏ⁺¹(F): for each
    /// (k+1)-cell τ in order, and each face identifier of τ (in order) whose
    /// cell has dimension k, the block where the transposed restriction
    /// F(σ⪯τ), times the incidence sign of σ in τ, enters.
    pub fn coboundary_blocks(&self, k: usize) -> (b: Vec<CoboundaryBlock>)
        requires
            k < usize::MAX,
            stalk_sum(self.stalks@, of_dim(self.complex@, k as int)) <= usize::MAX,
            stalk_sum(self.stalks@, of_dim(self.complex@, k + 1)) <= usize::MAX,
        ensures
            b@ == coboundary_layout(self.complex@, self.stalks@, k as int, of_dim(self.complex@, k + 1).len() as int),
    {
        let ghost cx = self.complex@;
        let ghost st = self.stalks@;
        let ghost sk = of_dim(cx, k as int);
        let ghost sk1 = of_dim(cx, k + 1);
        let k_cells = self.complex.cells_of_dimension(k);
        let k1_cells = self.complex.cells_of_dimension(k + 1);
        let (k_ids, k_offs) = self.cochain_layout(&k_cells, Ghost(sk));
        let (k1_ids, k1_offs) = self.cochain_layout(&k1_cells, Ghost(sk1));
        let mut blocks: Vec<CoboundaryBlock> = Vec::new();
        let mut t: usize = 0;
        while t < k1_cells.len()
            invariant
                cx == self.complex@,
                st == self.stalks@,
                sk == of_dim(cx, k as int),
                sk1 == of_dim(cx, k + 1),
                k < usize::MAX,
                stalk_sum(st, sk) <= usize::MAX,
                stalk_sum(st, sk1) <= usize::MAX,
                k1_cells@.len() == sk1.len(),
                forall|j: int| 0 <= j < k1_cells@.len() ==> #[trigger] k1_cells@[j]@ == sk1[j],
                k_ids@ == ids(sk),
                k_offs@.len() == sk.len(),
                forall|j: int| 0 <= j < sk.len() ==> #[trigger] k_offs@[j] == stalk_sum(st, sk.take(j)),
                k1_ids@ == ids(sk1),
                k1_offs@.len() == sk1.len(),
                forall|j: int| 0 <= j < sk1.len() ==> #[trigger] k1_offs@[j] == stalk_sum(st, sk1.take(j)),
                t <= k1_cells@.len(),
                blocks@ == coboundary_layout(cx, st, k as int, t as int),
            decreases k1_cells@.len() - t,
        {
            let tau = k1_cells[t];
            assert(k1_cells@[t as int]@ == sk1[t as int]);
            let tau_pos = match crate::boundary::last_position(&k1_ids, tau.id) {
                Some(p) => p,
                None => {
                    proof {
                        assert(k1_ids@[t as int] == tau.id);
                        lemma_last_pos(k1_ids@, tau.id);
                    }
                    unreached()
                },
            };
            proof {
                lemma_last_pos(k1_ids@, tau.id);
                lemma_stalk_sum_prefix(st, sk1, tau_pos as int);
            }
            let tau_offset = k1_offs[tau_pos];
            let tau_dim = self.stalk_dimension(tau.id);
            let mut f: usize = 0;
            while f < tau.faces.len()
                invariant
                    cx == self.complex@,
                    st == self.stalks@,
                    sk == of_dim(cx, k as int),
                    sk1 == of_dim(cx, k + 1),
                    k < usize::MAX,
                    stalk_sum(st, sk) <= usize::MAX,
                    t < sk1.len(),
                    tau@ == sk1[t as int],
                    k_ids@ == ids(sk),
                    k_offs@.len() == sk.len(),
                    forall|j: int| 0 <= j < sk.len() ==> #[trigger] k_offs@[j] == stalk_sum(st, sk.take(j)),
                    tau_offset == offset_of(st, sk1, tau.id),
                    tau_dim == stalk_of(st, tau.id),
                    f <= tau.faces@.len(),
                    blocks@ == coboundary_layout(cx, st, k as int, t as int) + tau_blocks(cx, st, k as int, tau@, f as int),
                decreases tau.faces@.len() - f,
            {
                let sid = tau.faces[f];
                let ghost before = blocks@;
                match self.complex.cell(sid) {
                    Some(sigma) => {
                        if sigma.dimension == k {
                            proof {
                                lemma_first_pos(ids(cx), sid);
                                lemma_in_of_dim(cx, cell_index(cx, sid));
                                assert(ids(cx)[cell_index(cx, sid)] == sid);
                            }
                            let sp = match crate::boundary::last_position(&k_ids, sid) {
                                Some(p) => p,
                                None => {
                                    proof {
                                        lemma_last_pos(k_ids@, sid);
                                    }
                                    unreached()
                                },
                            };
                            proof {
                                lemma_last_pos(k_ids@, sid);
                                lemma_stalk_sum_prefix(st, sk, sp as int);
                            }
                            let sigma_offset = k_offs[sp];
                            let sigma_dim = self.stalk_dimension(sid);
                            let sign = self.complex.incidence_sign(tau, sid);
                            blocks.push(
                                CoboundaryBlock {
                                    sigma: sid,
                                    tau: tau.id,
                                    row_offset: tau_offset,
                                    col_offset: sigma_offset,
                                    rows: tau_dim,
                                    cols: sigma_dim,
                                    sign,
                                },
                            );
                        }
                    },
                    None => {},
                }
                proof {
                    assert(blocks@ =~= coboundary_layout(cx, st, k as int, t as int) + tau_blocks(cx, st, k as int, tau@, f + 1));
                }
                f += 1;
            }
            t += 1;
        }
        blocks
    }
}

/// The chains (σ, τ, ρ) of face relations that start at `sigma` and pass through
/// its first `nfaces` faces τ (each looked up as the first cell with its
/// identifier, skipped when there is none), with ρ running over the faces of τ.
pub open spec fn chains_from(cx: Seq<CellView>, sigma: CellView, nfaces: int) -> Seq<(usize, usize, usize)>
    decreases nfaces,
{
    if nfaces <= 0 {
        Seq::empty()
    } else {
        let rest = chains_from(cx, sigma, nfaces - 1);
        let tau_id = sigma.faces[nfaces - 1];
        let ti = cell_index(cx, tau_id);
        if ti >= 0 {
            rest + Seq::new(cx[ti].faces.len(), |r: int| (sigma.id, tau_id, cx[ti].faces[r]))
        } else {
            rest
        }
    }
}

/// The chains of face relations starting at the first `n` cells, in order.
pub open spec fn face_chains_of(cx: Seq<CellView>, n: int) -> Seq<(usize, usize, usize)>
    decreases n,
{
    if n <= 0 {
        Seq::empty()
    } else {
        face_chains_of(cx, n - 1) + chains_from(cx, cx[n - 1], cx[n - 1].faces.len() as int)
    }
}

impl CellComplex {
    /// Every chain of face relations σ → τ → ρ (τ a face of σ, ρ a face of τ),
    /// as identifiers, in the order of the cells and of their face lists; these
    /// are the triples on which a sheaf's restrictions must compose.
    pub fn face_chains(&self) -> (r: Vec<(usize, usize, usize)>)
        ensures
            r@ == face_chains_of(self@, self@.len() as int),
    {
        let ghost cx = self@;
        let mut out: Vec<(usize, usize, usize)> = Vec::new();
        let mut i: usize = 0;
        while i < self.cells.len()
            invariant
                cx == self@,
                i <= self.cells@.len(),
                out@ == face_chains_of(cx, i as int),
            decreases self.cells@.len() - i,
        {
            let sigma = &self.cells[i];
            assert(sigma@ == cx[i as int]);
            let mut f: usize = 0;
            while f < sigma.faces.len()
                invariant
                    cx == self@,
                    i < self.cells@.len(),
                    sigma@ == cx[i as int],
                    f <= sigma.faces@.len(),
                    out@ == face_chains_of(cx, i as int) + chains_from(cx, sigma@, f as int),
                decreases sigma.faces@.len() - f,
            {
                let tau_id = sigma.faces[f];
                let ghost before = out@;
                match self.cell(tau_id) {
                    Some(tau) => {
                        let mut g: usize = 0;
                        while g < tau.faces.len()
                            invariant
                                cx == self@,
                                tau@ == cx[cell_index(cx, tau_id)],
                                g <= tau.faces@.len(),
                                out@ == before + Seq::new(g as nat, |r: int| (sigma.id, tau_id, tau@.faces[r])),
                            decreases tau.faces@.len() - g,
                        {
                            out.push((sigma.id, tau_id, tau.faces[g]));
                            proof {
                                assert(out@ =~= before + Seq::new((g + 1) as nat, |r: int| (sigma.id, tau_id, tau@.faces[r])));
                            }
                            g += 1;
                        }
                    },
                    None => {},
                }
                proof {
                    assert(out@ =~= face_chains_of(cx, i as int) + chains_from(cx, sigma@, f + 1));
                }
                f += 1;
            }
            i += 1;
        }
        out
    }
}

proof fn lemma_tau_block(cx: Seq<CellView>, st: Map<usize, usize>, k: int, tau: CellView, nf: int, m: int) -> (f: int)
    requires
        0 <= nf <= tau.faces.len(),
        0 <= m < tau_blocks(cx, st, k, tau, nf).len(),
    ensures
        0 <= f < nf,
        cell_index(cx, tau.faces[f]) >= 0,
        cx[cell_index(cx, tau.faces[f])].dimension == k,
        tau_blocks(cx, st, k, tau, nf)[m] == (CoboundaryBlock {
            sigma: tau.faces[f],
            tau: tau.id,
            row_offset: offset_of(st, of_dim(cx, k + 1), tau.id) as usize,
            col_offset: offset_of(st, of_dim(cx, k), tau.faces[f]) as usize,
            rows: stalk_of(st, tau.id) as usize,
            cols: stalk_of(st, tau.faces[f]) as usize,
            sign: incidence_sign_of(cx, tau, tau.faces[f]) as i8,
        }),
    decreases nf,
{
    let rest = tau_blocks(cx, st, k, tau, nf - 1);
    if m < rest.len() {
        lemma_tau_block(cx, st, k, tau, nf - 1, m)
    } else {
        nf - 1
    }
}

proof fn lemma_layout_block(cx: Seq<CellView>, st: Map<usize, usize>, k: int, ntau: int, m: int) -> (uf: (int, int))
    requires
        0 <= ntau <= of_dim(cx, k + 1).len(),
        0 <= m < coboundary_layout(cx, st, k, ntau).len(),
    ensures
        0 <= uf.0 < ntau,
        0 <= uf.1 < of_dim(cx, k + 1)[uf.0].faces.len(),
        cell_index(cx, of_dim(cx, k + 1)[uf.0].faces[uf.1]) >= 0,
        cx[cell_index(cx, of_dim(cx, k + 1)[uf.0].faces[uf.1])].dimension == k,
        coboundary_layout(cx, st, k, ntau)[m] == (CoboundaryBlock {
            sigma: of_dim(cx, k + 1)[uf.0].faces[uf.1],
            tau: of_dim(cx, k + 1)[uf.0].id,
            row_offset: offset_of(st, of_dim(cx, k + 1), of_dim(cx, k + 1)[uf.0].id) as usize,
            col_offset: offset_of(st, of_dim(cx, k), of_dim(cx, k + 1)[uf.0].faces[uf.1]) as usize,
            rows: stalk_of(st, of_dim(cx, k + 1)[uf.0].id) as usize,
            cols: stalk_of(st, of_dim(cx, k + 1)[uf.0].faces[uf.1]) as usize,
            sign: incidence_sign_of(cx, of_dim(cx, k + 1)[uf.0], of_dim(cx, k + 1)[uf.0].faces[uf.1]) as i8,
        }),
    decreases ntau,
{
    let tau = of_dim(cx, k + 1)[ntau - 1];
    let rest = coboundary_layout(cx, st, k, ntau - 1);
    let tb = tau_blocks(cx, st, k, tau, tau.faces.len() as int);
    assert(coboundary_layout(cx, st, k, ntau) == rest + tb);
    if m < rest.len() {
        lemma_layout_block(cx, st, k, ntau - 1, m)
    } else {
        let f = lemma_tau_block(cx, st, k, tau, tau.faces.len() as int, m - rest.len());
        (ntau - 1, f)
    }
}

/// A prefix of a list of cells is no larger, in cochain dimension, than a longer prefix.
proof fn lemma_stalk_sum_mono(st: Map<usize, usize>, cells: Seq<CellView>, a: int, b: int)
    requires
        0 <= a <= b <= cells.len(),
    ensures
        stalk_sum(st, cells.take(a)) <= stalk_sum(st, cells.take(b)),
{
    lemma_stalk_sum_prefix(st, cells.take(b), a);
    assert(cells.take(b).take(a) =~= cells.take(a));
}

/// Where each block of δ_k lands. Its τ is a (k+1)-cell (the one at the returned
/// position) whose face list names σ, a cell of dimension k; its sign is the
/// incidence sign of σ in τ. Its rows start after the stalks of the (k+1)-cells
/// standing before τ (the last cell carrying τ's identifier) and number the stalk
/// dimension recorded over τ; its columns start after the stalks of the k-cells
/// standing before σ and number the stalk dimension recorded over σ.
pub proof fn coboundary_block_placement(cx: Seq<CellView>, st: Map<usize, usize>, k: int, m: int) -> (u: int)
    requires
        stalk_sum(st, of_dim(cx, k)) <= usize::MAX,
        stalk_sum(st, of_dim(cx, k + 1)) <= usize::MAX,
        0 <= m < coboundary_layout(cx, st, k, of_dim(cx, k + 1).len() as int).len(),
    ensures
        ({
            let b = coboundary_layout(cx, st, k, of_dim(cx, k + 1).len() as int)[m];
            let sk = of_dim(cx, k);
            let sk1 = of_dim(cx, k + 1);
            let t = last_pos(ids(sk1), b.tau);
            let s = last_pos(ids(sk), b.sigma);
            &&& 0 <= u < sk1.len()
            &&& sk1[u].id == b.tau
            &&& sk1[u].faces.contains(b.sigma)
            &&& b.sign == incidence_sign_of(cx, sk1[u], b.sigma)
            &&& cell_index(cx, b.sigma) >= 0
            &&& cx[cell_index(cx, b.sigma)].dimension == k
            &&& 0 <= t < sk1.len()
            &&& b.row_offset == stalk_sum(st, sk1.take(t))
            &&& b.rows == if st.contains_key(b.tau) { st[b.tau] } else { 0 }
            &&& 0 <= s < sk.len()
            &&& b.col_offset == stalk_sum(st, sk.take(s))
            &&& b.cols == if st.contains_key(b.sigma) { st[b.sigma] } else { 0 }
        }),
{
    let sk = of_dim(cx, k);
    let sk1 = of_dim(cx, k + 1);
    let (u, f) = lemma_layout_block(cx, st, k, sk1.len() as int, m);
    let b = coboundary_layout(cx, st, k, sk1.len() as int)[m];
    let tau = sk1[u];
    let sid = tau.faces[f];
    assert(tau.faces.contains(sid));
    assert(ids(sk1)[u] == tau.id);
    lemma_last_pos(ids(sk1), tau.id);
    let t = last_pos(ids(sk1), tau.id);
    lemma_stalk_sum_mono(st, sk1, t, sk1.len() as int);
    assert(sk1.take(sk1.len() as int) =~= sk1);
    let ci = cell_index(cx, sid);
    lemma_first_pos(ids(cx), sid);
    assert(cx[ci].id == sid) by {
        assert(ids(cx)[ci] == cx[ci].id);
    }
    lemma_in_of_dim(cx, ci);
    lemma_last_pos(ids(sk), sid);
    let sp = last_pos(ids(sk), sid);
    lemma_stalk_sum_mono(st, sk, sp, sk.len() as int);
    assert(sk.take(sk.len() as int) =~= sk);
    let sg = incidence_sign_of(cx, tau, sid);
    assert(sg == 1 || sg == -1);
    u
}

/// Blocks of δ_k for different (k+1)-cells τ occupy disjoint row ranges
/// `row_offset .. row_offset + rows`, all within `0 .. dim Cᵏ⁺¹(F)`, when no two
/// (k+1)-cells carry the same identifier.
pub proof fn coboundary_row_ranges_disjoint(cx: Seq<CellView>, st: Map<usize, usize>, k: int, m1: int, m2: int)
    requires
        ids(of_dim(cx, k + 1)).no_duplicates(),
        stalk_sum(st, of_dim(cx, k)) <= usize::MAX,
        stalk_sum(st, of_dim(cx, k + 1)) <= usize::MAX,
        0 <= m1 < coboundary_layout(cx, st, k, of_dim(cx, k + 1).len() as int).len(),
        0 <= m2 < coboundary_layout(cx, st, k, of_dim(cx, k + 1).len() as int).len(),
    ensures
        ({
            let b1 = coboundary_layout(cx, st, k, of_dim(cx, k + 1).len() as int)[m1];
            let b2 = coboundary_layout(cx, st, k, of_dim(cx, k + 1).len() as int)[m2];
            &&& b1.row_offset + b1.rows <= stalk_sum(st, of_dim(cx, k + 1))
            &&& b1.tau != b2.tau ==> (b1.row_offset + b1.rows <= b2.row_offset || b2.row_offset + b2.rows <= b1.row_offset)
        }),
{
    let sk1 = of_dim(cx, k + 1);
    let l = coboundary_layout(cx, st, k, sk1.len() as int);
    let b1 = l[m1];
    let b2 = l[m2];
    coboundary_block_placement(cx, st, k, m1);
    coboundary_block_placement(cx, st, k, m2);
    let t1 = last_pos(ids(sk1), b1.tau);
    let t2 = last_pos(ids(sk1), b2.tau);
    lemma_last_pos(ids(sk1), b1.tau);
    lemma_last_pos(ids(sk1), b2.tau);
    assert(sk1[t1].id == b1.tau) by {
        assert(ids(sk1)[t1] == sk1[t1].id);
    }
    assert(sk1[t2].id == b2.tau) by {
        assert(ids(sk1)[t2] == sk1[t2].id);
    }
    lemma_take_push(sk1, t1);
    assert(b1.row_offset + b1.rows == stalk_sum(st, sk1.take(t1 + 1)));
    lemma_stalk_sum_mono(st, sk1, t1 + 1, sk1.len() as int);
    assert(sk1.take(sk1.len() as int) =~= sk1);
    lemma_take_push(sk1, t2);
    assert(b2.row_offset + b2.rows == stalk_sum(st, sk1.take(t2 + 1)));
    if t1 < t2 {
        lemma_stalk_sum_mono(st, sk1, t1 + 1, t2);
    } else if t2 < t1 {
        lemma_stalk_sum_mono(st, sk1, t2 + 1, t1);
    }
}

/// Number of chains through the first `nfaces` faces of `sigma`: for each face
/// identifier naming a cell, the number of faces of that cell.
pub open spec fn chain_count_from(cx: Seq<CellView>, sigma: CellView, nfaces: int) -> nat
    decreases nfaces,
{
    if nfaces <= 0 {
        0
    } else {
        let ti = cell_index(cx, sigma.faces[nfaces - 1]);
        chain_count_from(cx, sigma, nfaces - 1) + if ti >= 0 { cx[ti].faces.len() } else { 0 }
    }
}

/// Σ over the first `n` cells σ, Σ over the faces τ of σ naming a cell, of |faces(τ)|.
pub open spec fn chain_count(cx: Seq<CellView>, n: int) -> nat
    decreases n,
{
    if n <= 0 {
        0
    } else {
        chain_count(cx, n - 1) + chain_count_from(cx, cx[n - 1], cx[n - 1].faces.len() as int)
    }
}

/// A chain σ → τ → ρ, as identifiers: τ is the `f`-th face of the cell at `p`,
/// it names a cell (the first with that identifier), and ρ is that cell's `r`-th face.
pub open spec fn is_face_chain(cx: Seq<CellView>, t: (usize, usize, usize), p: int, f: int, r: int) -> bool {
    &&& 0 <= p < cx.len()
    &&& 0 <= f < cx[p].faces.len()
    &&& cell_index(cx, cx[p].faces[f]) >= 0
    &&& 0 <= r < cx[cell_index(cx, cx[p].faces[f])].faces.len()
    &&& t == (cx[p].id, cx[p].faces[f], cx[cell_index(cx, cx[p].faces[f])].faces[r])
}

proof fn lemma_chains_from_props(cx: Seq<CellView>, p: int, nf: int)
    requires
        0 <= p < cx.len(),
        0 <= nf <= cx[p].faces.len(),
    ensures
        chains_from(cx, cx[p], nf).len() == chain_count_from(cx, cx[p], nf),
        forall|f: int, r: int| 0 <= f < nf && #[trigger] is_face_chain(cx, (cx[p].id, cx[p].faces[f], cx[cell_index(cx, cx[p].faces[f])].faces[r]), p, f, r)
            ==> chains_from(cx, cx[p], nf).contains((cx[p].id, cx[p].faces[f], cx[cell_index(cx, cx[p].faces[f])].faces[r])),
    decreases nf,
{
    if nf > 0 {
        lemma_chains_from_props(cx, p, nf - 1);
        let rest = chains_from(cx, cx[p], nf - 1);
        let sigma = cx[p];
        let tau_id = sigma.faces[nf - 1];
        let ti = cell_index(cx, tau_id);
        let all = chains_from(cx, sigma, nf);
        if ti >= 0 {
            let tail = Seq::new(cx[ti].faces.len(), |r: int| (sigma.id, tau_id, cx[ti].faces[r]));
            assert(all == rest + tail);
            assert forall|f: int, r: int| 0 <= f < nf && #[trigger] is_face_chain(cx, (cx[p].id, cx[p].faces[f], cx[cell_index(cx, cx[p].faces[f])].faces[r]), p, f, r)
                implies all.contains((cx[p].id, cx[p].faces[f], cx[cell_index(cx, cx[p].faces[f])].faces[r])) by {
                let t = (cx[p].id, cx[p].faces[f], cx[cell_index(cx, cx[p].faces[f])].faces[r]);
                if f < nf - 1 {
                    let m = choose|m: int| 0 <= m < rest.len() && rest[m] == t;
                    assert(all[m] == t);
                } else {
                    assert(all[rest.len() + r] == t);
                }
            }
        } else {
            assert forall|f: int, r: int| 0 <= f < nf && #[trigger] is_face_chain(cx, (cx[p].id, cx[p].faces[f], cx[cell_index(cx, cx[p].faces[f])].faces[r]), p, f, r)
                implies all.contains((cx[p].id, cx[p].faces[f], cx[cell_index(cx, cx[p].faces[f])].faces[r])) by {
                assert(f < nf - 1);
            }
        }
    }
}

proof fn lemma_chains_from_sound(cx: Seq<CellView>, p: int, nf: int, m: int) -> (w: (int, int))
    requires
        0 <= p < cx.len(),
        0 <= nf <= cx[p].faces.len(),
        0 <= m < chains_from(cx, cx[p], nf).len(),
    ensures
        w.0 < nf,
        is_face_chain(cx, chains_from(cx, cx[p], nf)[m], p, w.0, w.1),
    decreases nf,
{
    let rest = chains_from(cx, cx[p], nf - 1);
    let sigma = cx[p];
    let tau_id = sigma.faces[nf - 1];
    let ti = cell_index(cx, tau_id);
    let all = chains_from(cx, sigma, nf);
    if ti >= 0 {
        let tail = Seq::new(cx[ti].faces.len(), |r: int| (sigma.id, tau_id, cx[ti].faces[r]));
        assert(all == rest + tail);
        if m < rest.len() {
            assert(all[m] == rest[m]);
            lemma_chains_from_sound(cx, p, nf - 1, m)
        } else {
            let r = m - rest.len();
            assert(all[m] == tail[r]);
            (nf - 1, r)
        }
    } else {
        lemma_chains_from_sound(cx, p, nf - 1, m)
    }
}

proof fn lemma_face_chains_props(cx: Seq<CellView>, n: int)
    requires
        0 <= n <= cx.len(),
    ensures
        face_chains_of(cx, n).len() == chain_count(cx, n),
        forall|p: int, f: int, r: int| 0 <= p < n && #[trigger] is_face_chain(cx, (cx[p].id, cx[p].faces[f], cx[cell_index(cx, cx[p].faces[f])].faces[r]), p, f, r)
            ==> face_chains_of(cx, n).contains((cx[p].id, cx[p].faces[f], cx[cell_index(cx, cx[p].faces[f])].faces[r])),
    decreases n,
{
    if n > 0 {
        lemma_face_chains_props(cx, n - 1);
        let q = n - 1;
        lemma_chains_from_props(cx, q, cx[q].faces.len() as int);
        let rest = face_chains_of(cx, n - 1);
        let tail = chains_from(cx, cx[q], cx[q].faces.len() as int);
        let all = face_chains_of(cx, n);
        assert(all == rest + tail);
        assert forall|p: int, f: int, r: int| 0 <= p < n && #[trigger] is_face_chain(cx, (cx[p].id, cx[p].faces[f], cx[cell_index(cx, cx[p].faces[f])].faces[r]), p, f, r)
            implies all.contains((cx[p].id, cx[p].faces[f], cx[cell_index(cx, cx[p].faces[f])].faces[r])) by {
            let t = (cx[p].id, cx[p].faces[f], cx[cell_index(cx, cx[p].faces[f])].faces[r]);
            if p < n - 1 {
                let m = choose|m: int| 0 <= m < rest.len() && rest[m] == t;
                assert(all[m] == t);
            } else {
                assert(tail.contains(t));
                let m = choose|m: int| 0 <= m < tail.len() && tail[m] == t;
                assert(all[rest.len() + m] == t);
            }
        }
    }
}

proof fn lemma_face_chains_sound(cx: Seq<CellView>, n: int, m: int) -> (w: (int, int, int))
    requires
        0 <= n <= cx.len(),
        0 <= m < face_chains_of(cx, n).len(),
    ensures
        w.0 < n,
        is_face_chain(cx, face_chains_of(cx, n)[m], w.0, w.1, w.2),
    decreases n,
{
    let q = n - 1;
    let rest = face_chains_of(cx, n - 1);
    let tail = chains_from(cx, cx[q], cx[q].faces.len() as int);
    let all = face_chains_of(cx, n);
    assert(all == rest + tail);
    if m < rest.len() {
        assert(all[m] == rest[m]);
        lemma_face_chains_sound(cx, n - 1, m)
    } else {
        assert(all[m] == tail[m - rest.len()]);
        let (f, r) = lemma_chains_from_sound(cx, q, cx[q].faces.len() as int, m - rest.len());
        (q, f, r)
    }
}

/// The face chains of a complex hold every chain σ → τ → ρ (τ a face identifier
/// of the cell σ that names a cell, ρ a face of that cell), and there are
/// Σ_σ Σ_τ |faces(τ)| of them.
pub proof fn face_chains_are_all_chains(cx: Seq<CellView>)
    ensures
        face_chains_of(cx, cx.len() as int).len() == chain_count(cx, cx.len() as int),
        forall|p: int, f: int, r: int| #[trigger] is_face_chain(cx, (cx[p].id, cx[p].faces[f], cx[cell_index(cx, cx[p].faces[f])].faces[r]), p, f, r)
            ==> face_chains_of(cx, cx.len() as int).contains((cx[p].id, cx[p].faces[f], cx[cell_index(cx, cx[p].faces[f])].faces[r])),
{
    lemma_face_chains_props(cx, cx.len() as int);
}

/// Every entry of the face chains is a chain σ → τ → ρ of the complex; the
/// result names where it comes from: the cell σ, the face τ and the face ρ.
pub proof fn face_chain_entry_is_chain(cx: Seq<CellView>, m: int) -> (w: (int, int, int))
    requires
        0 <= m < face_chains_of(cx, cx.len() as int).len(),
    ensures
        is_face_chain(cx, face_chains_of(cx, cx.len() as int)[m], w.0, w.1, w.2),
{
    lemma_face_chains_sound(cx, cx.len() as int, m)
}

/// The stalk dimension over a cell is the one recorded for it, whatever its
/// value, and 0 when none is recorded; recording `d` and reading back gives `d`.
pub proof fn stalk_reads_record(stalks: Map<usize, usize>, id: usize, d: usize)
    ensures
        stalks.contains_key(id) ==> stalk_of(stalks, id) == stalks[id],
        !stalks.contains_key(id) ==> stalk_of(stalks, id) == 0,
        stalk_of(stalks.insert(id, d), id) == d,
{
}

/// The cochain dimension over a list of cells grows, with each further cell, by
/// the stalk dimension recorded for that cell (0 when none is recorded).
pub proof fn stalk_sum_adds_recorded(stalks: Map<usize, usize>, cells: Seq<CellView>, c: CellView)
    ensures
        stalk_sum(stalks, cells.push(c)) == stalk_sum(stalks, cells) + if stalks.contains_key(c.id) {
            stalks[c.id] as int
        } else {
            0
        },
{
    assert(cells.push(c).drop_last() =~= cells);
}

/// With the stalk `d` recorded over every cell of a list, the cochain space over
/// the list has dimension `d` times its length.
pub proof fn stalk_sum_of_uniform_stalks(stalks: Map<usize, usize>, cells: Seq<CellView>, d: usize)
    requires
        forall|j: int| 0 <= j < cells.len() ==> #[trigger] stalks.contains_key(cells[j].id) && stalks[cells[j].id] == d,
    ensures
        stalk_sum(stalks, cells) == cells.len() * d,
    decreases cells.len(),
{
    if cells.len() > 0 {
        let r = cells.drop_last();
        assert forall|j: int| 0 <= j < r.len() implies #[trigger] stalks.contains_key(r[j].id) && stalks[r[j].id] == d by {
            assert(r[j] == cells[j]);
        }
        stalk_sum_of_uniform_stalks(stalks, r, d);
        assert(stalks.contains_key(cells[cells.len() - 1].id));
        assert(stalk_sum(stalks, cells) == r.len() * d + d);
        assert(r.len() * d + d == cells.len() * d) by (nonlinear_arith)
            requires
                r.len() + 1 == cells.len(),
        ;
    }
}

/// With a one-dimensional stalk over every cell, the cochain space over a list
/// of cells has one coordinate per cell.
pub proof fn stalk_sum_of_unit_stalks(stalks: Map<usize, usize>, cells: Seq<CellView>)
    requires
        forall|j: int| 0 <= j < cells.len() ==> stalk_of(stalks, #[trigger] cells[j].id) == 1,
    ensures
        stalk_sum(stalks, cells) == cells.len(),
    decreases cells.len(),
{
    if cells.len() > 0 {
        let d = cells.drop_last();
        assert forall|j: int| 0 <= j < d.len() implies stalk_of(stalks, #[trigger] d[j].id) == 1 by {
            assert(d[j] == cells[j]);
        }
        stalk_sum_of_unit_stalks(stalks, d);
        assert(stalk_of(stalks, cells[cells.len() - 1].id) == 1);
    }
}
} // verus!
