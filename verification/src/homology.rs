use vstd::prelude::*;
use crate::cell::CellView;
use crate::complex::{CellComplex, of_dim, n_cells, alternating_count, lemma_of_dim_push};

verus! {

/// β_k = (|C_k| ⊖ r_k) ⊖ r_{k+1}, where r_k is the rank of ∂_k and ⊖ is
/// subtraction cut off at zero: the dimension of the kernel of ∂_k less the
/// dimension of the image of ∂_{k+1}.
pub open spec fn betti_of(cx: Seq<CellView>, ranks: Seq<usize>, k: int) -> int {
    let nullity = if n_cells(cx, k) >= ranks[k] { n_cells(cx, k) - ranks[k] } else { 0 };
    if nullity >= ranks[k + 1] { nullity - ranks[k + 1] } else { 0 }
}

/// Σ_{k=0}^{top} (-1)^k β_k.
pub open spec fn alternating_betti(cx: Seq<CellView>, ranks: Seq<usize>, top: nat) -> int
    decreases top,
{
    let term = if top % 2 == 0 { betti_of(cx, ranks, top as int) } else { -betti_of(cx, ranks, top as int) };
    if top == 0 {
        term
    } else {
        alternating_betti(cx, ranks, (top - 1) as nat) + term
    }
}

/// The ranks r_0, …, r_{d+1} of the boundary maps of a chain complex over the
/// cells `cx`: a rank is at most the number of columns, ∂_0 has no rows, and the
/// image of ∂_{k+1} lies in the kernel of ∂_k.
pub open spec fn chain_ranks(cx: Seq<CellView>, ranks: Seq<usize>, d: nat) -> bool {
    &&& ranks.len() == d + 2
    &&& ranks[0] == 0
    &&& forall|k: int| 0 <= k <= d + 1 ==> #[trigger] ranks[k] <= n_cells(cx, k)
    &&& forall|k: int| 0 <= k <= d ==> #[trigger] ranks[k] + ranks[k + 1] <= n_cells(cx, k)
}

impl CellComplex {
    /// Betti numbers β_0, …, β_dimension, from the ranks of the boundary
    /// matrices: `ranks[k]` is the rank of `boundary_matrix(k)`, for k from 0 to
    /// dimension + 1.
    pub fn betti_numbers(&self, ranks: &Vec<usize>) -> (b: Vec<usize>)
        requires
            ranks@.len() == self.dimension + 2,
        ensures
            b@.len() == self.dimension + 1,
            forall|k: int| 0 <= k <= self.dimension ==> #[trigger] b@[k] == betti_of(self@, ranks@, k),
    {
        let nr = ranks.len();
        let mut betti: Vec<usize> = Vec::new();
        let mut k: usize = 0;
        loop
            invariant_except_break
                betti@.len() == k,
            invariant
                k <= self.dimension,
                ranks@.len() == self.dimension + 2,
                nr == ranks@.len(),
                forall|j: int| 0 <= j < betti@.len() ==> #[trigger] betti@[j] == betti_of(self@, ranks@, j),
            ensures
                betti@.len() == self.dimension + 1,
            decreases self.dimension - k,
        {
            let n = self.num_cells(k);
            let ker = n.saturating_sub(ranks[k]);
            let im = ranks[k + 1];
            betti.push(ker.saturating_sub(im));
            if k == self.dimension {
                break;
            }
            k += 1;
        }
        betti
    }
}

proof fn lemma_of_dim_has_cell(cells: Seq<CellView>, k: int)
    requires
        of_dim(cells, k).len() > 0,
    ensures
        exists|p: int| 0 <= p < cells.len() && #[trigger] cells[p].dimension == k,
    decreases cells.len(),
{
    let s = cells.drop_last();
    assert(s.push(cells.last()) =~= cells);
    lemma_of_dim_push(s, cells.last(), k);
    if cells.last().dimension == k {
        assert(cells[cells.len() - 1].dimension == k);
    } else {
        lemma_of_dim_has_cell(s, k);
        let p = choose|p: int| 0 <= p < s.len() && #[trigger] s[p].dimension == k;
        assert(cells[p] == s[p]);
    }
}

/// In a well-formed complex no cell lies above the recorded dimension.
pub proof fn lemma_nothing_above(cx: &CellComplex, k: int)
    requires
        cx.wf(),
        k > cx.dimension,
    ensures
        n_cells(cx@, k) == 0,
{
    if of_dim(cx@, k).len() > 0 {
        lemma_of_dim_has_cell(cx@, k);
        let p = choose|p: int| 0 <= p < cx@.len() && #[trigger] cx@[p].dimension == k;
        assert(cx@[p].dimension <= cx.dimension);
    }
}

proof fn lemma_telescope(cx: Seq<CellView>, ranks: Seq<usize>, d: nat, t: nat)
    requires
        chain_ranks(cx, ranks, d),
        t <= d,
    ensures
        alternating_betti(cx, ranks, t)
            == alternating_count(cx, t) - ranks[0] - if t % 2 == 0 { ranks[t + 1int] as int } else { -(ranks[t + 1int] as int) },
    decreases t,
{
    assert(ranks[t as int] + ranks[t + 1int] <= n_cells(cx, t as int));
    assert(ranks[t as int] <= n_cells(cx, t as int));
    assert(betti_of(cx, ranks, t as int) == n_cells(cx, t as int) - ranks[t as int] - ranks[t + 1int]);
    if t > 0 {
        lemma_telescope(cx, ranks, d, (t - 1) as nat);
    }
}

/// Euler–Poincaré: for the ranks of the boundary maps of a chain complex on a
/// well-formed cell complex, the Euler characteristic equals the alternating sum
/// of the Betti numbers, χ = Σ_k (-1)^k β_k.
pub proof fn euler_characteristic_is_alternating_betti_sum(cx: &CellComplex, ranks: Seq<usize>)
    requires
        cx.wf(),
        chain_ranks(cx@, ranks, cx.dimension as nat),
    ensures
        alternating_count(cx@, cx.dimension as nat) == alternating_betti(cx@, ranks, cx.dimension as nat),
{
    let d = cx.dimension as nat;
    lemma_nothing_above(cx, d + 1int);
    assert(ranks[d + 1int] <= n_cells(cx@, d + 1int));
    lemma_telescope(cx@, ranks, d, d);
}

/// Rank–nullity for Betti numbers: when the ranks come from a chain complex,
/// β_k = |C_k| − r_k − r_{k+1}, the dimension of the kernel of ∂_k less that of
/// the image of ∂_{k+1}, with no cut-off.
pub proof fn betti_is_kernel_less_image(cx: Seq<CellView>, ranks: Seq<usize>, d: nat, k: int)
    requires
        chain_ranks(cx, ranks, d),
        0 <= k <= d,
    ensures
        betti_of(cx, ranks, k) == of_dim(cx, k).len() - ranks[k] - ranks[k + 1],
        betti_of(cx, ranks, k) >= 0,
{
    assert(ranks[k] + ranks[k + 1] <= n_cells(cx, k));
    assert(ranks[k] <= n_cells(cx, k));
}

} // verus!
