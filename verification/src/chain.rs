use vstd::prelude::*;
use crate::cell::CellView;
use crate::complex::{of_dim, ids, cell_index, lemma_of_dim_push};
use crate::boundary::{boundary_entry, incidence_sign_of};
use crate::seqs::{first_pos, last_pos, missing, lemma_first_pos_at, lemma_last_pos_at};

verus! {

/// Removing the entry at `x` from a sequence without repeated entries leaves
/// exactly that entry missing.
proof fn lemma_missing_removed(s: Seq<usize>, x: int, m: int)
    requires
        s.no_duplicates(),
        0 <= x < s.len(),
        0 <= m <= s.len(),
    ensures
        missing(s.take(m), s.remove(x)) == if m <= x { Seq::<usize>::empty() } else { seq![s[x]] },
    decreases m,
{
    s.remove_ensures(x);
    let t = s.remove(x);
    if m > 0 {
        lemma_missing_removed(s, x, m - 1);
        assert(s.take(m).drop_last() =~= s.take(m - 1));
        let e = s[m - 1];
        assert(s.take(m).last() == e);
        if m - 1 == x {
            assert(!t.contains(e)) by {
                if t.contains(e) {
                    let q = choose|q: int| 0 <= q < t.len() && t[q] == e;
                    if q < x {
                        assert(s[q] == e);
                    } else {
                        assert(s[q + 1] == e);
                    }
                }
            }
        } else if m - 1 < x {
            assert(t[m - 1] == e);
        } else {
            assert(t[m - 2] == e);
        }
    } else {
        assert(s.take(0) =~= Seq::<usize>::empty());
    }
}

/// In a sequence without repeated entries, the first occurrence of `s[x]` is at `x`.
proof fn lemma_first_pos_distinct(s: Seq<usize>, x: int)
    requires
        s.no_duplicates(),
        0 <= x < s.len(),
    ensures
        first_pos(s, s[x]) == x,
{
    lemma_first_pos_at(s, s[x], x);
}

/// Removing `y` and then `x < y` is removing `x` and then `y - 1`.
proof fn lemma_remove_twice(s: Seq<usize>, x: int, y: int)
    requires
        0 <= x < y < s.len(),
    ensures
        s.remove(y).remove(x) == s.remove(x).remove(y - 1),
{
    s.remove_ensures(y);
    s.remove(y).remove_ensures(x);
    s.remove_ensures(x);
    s.remove(x).remove_ensures(y - 1);
    assert(s.remove(y).remove(x) =~= s.remove(x).remove(y - 1));
}

/// Which entries survive the removal of positions `x < y`.
proof fn lemma_remove_twice_contains(s: Seq<usize>, x: int, y: int, q: int)
    requires
        s.no_duplicates(),
        0 <= x < y < s.len(),
        0 <= q < s.len(),
    ensures
        s.remove(x).remove(y - 1).contains(s[q]) <==> (q != x && q != y),
{
    s.remove_ensures(x);
    s.remove(x).remove_ensures(y - 1);
    let r = s.remove(x).remove(y - 1);
    if q < x {
        assert(r[q] == s[q]);
    } else if x < q < y {
        assert(r[q - 1] == s[q]);
    } else if q > y {
        assert(r[q - 2] == s[q]);
    } else {
        if r.contains(s[q]) {
            let p = choose|p: int| 0 <= p < r.len() && r[p] == s[q];
            if p < x {
                assert(s[p] == s[q]);
            } else if p < y - 1 {
                assert(s[p + 1] == s[q]);
            } else {
                assert(s[p + 2] == s[q]);
            }
        }
    }
}


/// Some cell carries the identifier `fid`, lies one dimension below the cell at
/// `p`, and has that cell's vertex list with one entry removed.
pub open spec fn face_cell_exists(cx: Seq<CellView>, p: int, fid: usize) -> bool {
    exists|q: int, x: int|
        0 <= q < cx.len() && cx[q].id == fid && cx[q].dimension + 1 == cx[p].dimension
            && 0 <= x < cx[p].vertices.len() && cx[q].vertices == cx[p].vertices.remove(x)
}

/// The cells form an ordered simplicial complex: identifiers and vertex lists are
/// never repeated, no vertex is repeated within a cell, each face of a cell is a
/// cell one dimension lower whose vertex list is the cell's with one entry
/// removed, and every cell of dimension at least 1 has among its faces, for each
/// of its vertices, the cell whose vertex list omits that vertex.
#[verifier::opaque]
pub open spec fn simplicial(cx: Seq<CellView>) -> bool {
    &&& ids(cx).no_duplicates()
    &&& forall|p: int, q: int|
        0 <= p < cx.len() && 0 <= q < cx.len() && p != q ==> #[trigger] cx[p].vertices != #[trigger] cx[q].vertices
    &&& forall|p: int| 0 <= p < cx.len() ==> (#[trigger] cx[p]).vertices.no_duplicates()
    &&& forall|p: int, f: int|
        0 <= p < cx.len() && 0 <= f < cx[p].faces.len() ==> face_cell_exists(cx, p, #[trigger] cx[p].faces[f])
    &&& forall|p: int, x: int|
        0 <= p < cx.len() && cx[p].dimension >= 1 && 0 <= x < cx[p].vertices.len() ==> exists|q: int|
            0 <= q < cx.len() && cx[q].vertices == #[trigger] cx[p].vertices.remove(x) && cx[p].faces.contains(
                cx[q].id,
            )
}

/// Identifiers are never repeated, and no cell repeats a vertex.
proof fn lemma_simplicial_distinct(cx: Seq<CellView>, p: int)
    requires
        simplicial(cx),
        0 <= p < cx.len(),
    ensures
        ids(cx).no_duplicates(),
        cx[p].vertices.no_duplicates(),
{
    reveal(simplicial);
    assert(cx[p].vertices.no_duplicates());
}

/// A vertex list belongs to one cell only.
proof fn lemma_vertices_determine(cx: Seq<CellView>, p: int, q: int)
    requires
        simplicial(cx),
        0 <= p < cx.len(),
        0 <= q < cx.len(),
        cx[p].vertices == cx[q].vertices,
    ensures
        p == q,
{
    reveal(simplicial);
    if p != q {
        assert(cx[p].vertices != cx[q].vertices);
    }
}

/// The face of the cell at `p` that omits its vertex at position `x`.
proof fn lemma_complete(cx: Seq<CellView>, p: int, x: int) -> (q: int)
    requires
        simplicial(cx),
        0 <= p < cx.len(),
        cx[p].dimension >= 1,
        0 <= x < cx[p].vertices.len(),
    ensures
        0 <= q < cx.len(),
        cx[q].vertices == cx[p].vertices.remove(x),
        cx[p].faces.contains(cx[q].id),
{
    reveal(simplicial);
    choose|q: int| 0 <= q < cx.len() && cx[q].vertices == #[trigger] cx[p].vertices.remove(x) && cx[p].faces.contains(cx[q].id)
}

/// The cells of dimension k are cells of the complex, and every cell of
/// dimension k is among them.
proof fn lemma_of_dim_elements(cx: Seq<CellView>, k: int)
    ensures
        forall|j: int| 0 <= j < of_dim(cx, k).len() ==> exists|q: int| 0 <= q < cx.len() && cx[q] == #[trigger] of_dim(cx, k)[j],
        forall|j: int| 0 <= j < of_dim(cx, k).len() ==> (#[trigger] of_dim(cx, k)[j]).dimension == k,
        forall|q: int| 0 <= q < cx.len() && (#[trigger] cx[q]).dimension == k ==> exists|j: int| 0 <= j < of_dim(cx, k).len() && of_dim(cx, k)[j] == cx[q],
    decreases cx.len(),
{
    if cx.len() > 0 {
        let s = cx.drop_last();
        let c = cx.last();
        assert(s.push(c) =~= cx);
        lemma_of_dim_push(s, c, k);
        lemma_of_dim_elements(s, k);
        let r = of_dim(s, k);
        let r1 = of_dim(cx, k);
        assert forall|j: int| 0 <= j < r1.len() implies exists|q: int| 0 <= q < cx.len() && cx[q] == #[trigger] r1[j] by {
            if j < r.len() {
                let q = choose|q: int| 0 <= q < s.len() && s[q] == r[j];
                assert(cx[q] == s[q]);
                assert(r1[j] == r[j]);
            } else {
                assert(cx[cx.len() - 1] == r1[j]);
            }
        }
        assert forall|j: int| 0 <= j < r1.len() implies (#[trigger] r1[j]).dimension == k by {
            if j < r.len() {
                assert(r1[j] == r[j]);
            }
        }
        assert forall|q: int| 0 <= q < cx.len() && (#[trigger] cx[q]).dimension == k implies exists|j: int| 0 <= j < r1.len() && r1[j] == cx[q] by {
            if q < s.len() {
                assert(s[q] == cx[q]);
                let j = choose|j: int| 0 <= j < r.len() && r[j] == s[q];
                assert(r1[j] == r[j]);
            } else {
                assert(r1[r1.len() - 1] == cx[q]);
            }
        }
    }
}

/// Identifiers that are never repeated in the complex are never repeated among
/// the cells of one dimension.
proof fn lemma_of_dim_unique_ids(cx: Seq<CellView>, k: int)
    requires
        ids(cx).no_duplicates(),
    ensures
        ids(of_dim(cx, k)).no_duplicates(),
    decreases cx.len(),
{
    if cx.len() > 0 {
        let s = cx.drop_last();
        let c = cx.last();
        assert(s.push(c) =~= cx);
        lemma_of_dim_push(s, c, k);
        assert forall|a: int, b: int| 0 <= a < ids(s).len() && 0 <= b < ids(s).len() && a != b implies ids(s)[a] != ids(s)[b] by {
            assert(ids(s)[a] == ids(cx)[a] && ids(s)[b] == ids(cx)[b]);
        }
        lemma_of_dim_unique_ids(s, k);
        if c.dimension == k {
            lemma_of_dim_elements(s, k);
            let r = of_dim(s, k);
            let r1 = of_dim(cx, k);
            assert forall|a: int, b: int| 0 <= a < ids(r1).len() && 0 <= b < ids(r1).len() && a != b implies ids(r1)[a] != ids(r1)[b] by {
                if a < r.len() && b < r.len() {
                    assert(ids(r1)[a] == ids(r)[a] && ids(r1)[b] == ids(r)[b]);
                } else {
                    let o = if a < r.len() { a } else { b };
                    assert(o < r.len());
                    let q = choose|q: int| 0 <= q < s.len() && s[q] == #[trigger] r[o];
                    assert(ids(cx)[q] == s[q].id);
                    assert(ids(cx)[cx.len() - 1] == c.id);
                    assert(ids(r1)[o] == r[o].id);
                    assert(ids(r1)[r1.len() - 1] == c.id);
                }
            }
        }
    }
}

/// The incidence sign of a face that omits the vertex at position `x` is (-1)^x.
proof fn lemma_face_sign(cx: Seq<CellView>, sigma: CellView, q: int, x: int)
    requires
        ids(cx).no_duplicates(),
        0 <= q < cx.len(),
        sigma.vertices.no_duplicates(),
        0 <= x < sigma.vertices.len(),
        cx[q].vertices == sigma.vertices.remove(x),
    ensures
        incidence_sign_of(cx, sigma, cx[q].id) == if x % 2 == 0 { 1int } else { -1int },
{
    let v = sigma.vertices;
    assert forall|j: int| 0 <= j < q implies ids(cx)[j] != cx[q].id by {
        assert(ids(cx)[q] == cx[q].id);
    }
    lemma_first_pos_at(ids(cx), cx[q].id, q);
    lemma_missing_removed(v, x, v.len() as int);
    assert(v.take(v.len() as int) =~= v);
    lemma_first_pos_distinct(v, x);
}

/// Entry (i, j) of ∂_{k-1} times entry (j, l) of ∂_k.
pub open spec fn boundary_product_term(cx: Seq<CellView>, k: int, i: int, l: int, j: int) -> int {
    boundary_entry(cx, k - 1, i, j) * boundary_entry(cx, k, j, l)
}

/// Σ_{j<m} ∂_{k-1}[i, j] · ∂_k[j, l].
pub open spec fn boundary_product_sum(cx: Seq<CellView>, k: int, i: int, l: int, m: int) -> int
    decreases m,
{
    if m <= 0 {
        0
    } else {
        boundary_product_sum(cx, k, i, l, m - 1) + boundary_product_term(cx, k, i, l, m - 1)
    }
}

proof fn lemma_sum_zero(cx: Seq<CellView>, k: int, i: int, l: int, m: int)
    requires
        forall|j: int| 0 <= j < m ==> #[trigger] boundary_product_term(cx, k, i, l, j) == 0,
    ensures
        boundary_product_sum(cx, k, i, l, m) == 0,
    decreases m,
{
    if m > 0 {
        lemma_sum_zero(cx, k, i, l, m - 1);
    }
}

proof fn lemma_sum_two(cx: Seq<CellView>, k: int, i: int, l: int, m: int, a: int, b: int)
    requires
        0 <= a < b,
        forall|j: int| 0 <= j < m && j != a && j != b ==> #[trigger] boundary_product_term(cx, k, i, l, j) == 0,
    ensures
        boundary_product_sum(cx, k, i, l, m) == (if a < m { boundary_product_term(cx, k, i, l, a) } else { 0 }) + (
        if b < m { boundary_product_term(cx, k, i, l, b) } else { 0 }),
    decreases m,
{
    if m > 0 {
        lemma_sum_two(cx, k, i, l, m - 1, a, b);
    }
}

/// The sign (-1)^x.
pub open spec fn parity_sign(x: int) -> int {
    if x % 2 == 0 { 1 } else { -1 }
}

/// Position in the complex of a cell of dimension `k`.
proof fn lemma_position_of(cx: Seq<CellView>, k: int, j: int) -> (q: int)
    requires
        0 <= j < of_dim(cx, k).len(),
    ensures
        0 <= q < cx.len(),
        cx[q] == of_dim(cx, k)[j],
        cx[q].dimension == k,
{
    lemma_of_dim_elements(cx, k);
    let q = choose|q: int| 0 <= q < cx.len() && cx[q] == #[trigger] of_dim(cx, k)[j];
    assert(of_dim(cx, k)[j].dimension == k);
    q
}

/// Cells with the same identifier are the same cell.
proof fn lemma_same_id(cx: Seq<CellView>, a: int, b: int)
    requires
        ids(cx).no_duplicates(),
        0 <= a < cx.len(),
        0 <= b < cx.len(),
        cx[a].id == cx[b].id,
    ensures
        a == b,
{
    assert(ids(cx)[a] == cx[a].id && ids(cx)[b] == cx[b].id);
}

/// A face `fid` of the cell at position `p`: the cell carrying that identifier
/// omits one vertex of the cell at `p`.
proof fn lemma_face_shape(cx: Seq<CellView>, p: int, q: int) -> (x: int)
    requires
        simplicial(cx),
        0 <= p < cx.len(),
        0 <= q < cx.len(),
        cx[p].faces.contains(cx[q].id),
    ensures
        0 <= x < cx[p].vertices.len(),
        cx[q].vertices == cx[p].vertices.remove(x),
        cx[q].dimension + 1 == cx[p].dimension,
{
    reveal(simplicial);
    let f = choose|f: int| 0 <= f < cx[p].faces.len() && cx[p].faces[f] == cx[q].id;
    assert(cx[p].faces[f] == cx[q].id);
    assert(face_cell_exists(cx, p, cx[p].faces[f]));
    let (q2, x) = choose|q2: int, x: int|
        0 <= q2 < cx.len() && cx[q2].id == cx[p].faces[f] && cx[q2].dimension + 1 == cx[p].dimension
            && 0 <= x < cx[p].vertices.len() && cx[q2].vertices == cx[p].vertices.remove(x);
    lemma_same_id(cx, q, q2);
    x
}

/// The value of a term whose column cell, row cell and middle cell are nested faces.
proof fn lemma_term_value(cx: Seq<CellView>, k: int, i: int, l: int, j: int, x: int, p: int)
    requires
        simplicial(cx),
        0 <= i < of_dim(cx, k - 2).len(),
        0 <= j < of_dim(cx, k - 1).len(),
        0 <= l < of_dim(cx, k).len(),
        of_dim(cx, k)[l].faces.contains(of_dim(cx, k - 1)[j].id),
        of_dim(cx, k - 1)[j].faces.contains(of_dim(cx, k - 2)[i].id),
        0 <= x < of_dim(cx, k)[l].vertices.len(),
        of_dim(cx, k - 1)[j].vertices == of_dim(cx, k)[l].vertices.remove(x),
        0 <= p < of_dim(cx, k - 1)[j].vertices.len(),
        of_dim(cx, k - 2)[i].vertices == of_dim(cx, k - 1)[j].vertices.remove(p),
    ensures
        boundary_product_term(cx, k, i, l, j) == parity_sign(x) * parity_sign(p),
{
    let rs = of_dim(cx, k - 1);
    let ps = of_dim(cx, k - 2);
    let ql = lemma_position_of(cx, k, l);
    let qj = lemma_position_of(cx, k - 1, j);
    let qi = lemma_position_of(cx, k - 2, i);
    lemma_simplicial_distinct(cx, ql);
    lemma_simplicial_distinct(cx, qj);
    lemma_of_dim_unique_ids(cx, k - 1);
    lemma_of_dim_unique_ids(cx, k - 2);
    assert forall|a: int| j < a < rs.len() implies ids(rs)[a] != rs[j].id by {
        assert(ids(rs)[j] == rs[j].id);
    }
    lemma_last_pos_at(ids(rs), rs[j].id, j);
    assert forall|a: int| i < a < ps.len() implies ids(ps)[a] != ps[i].id by {
        assert(ids(ps)[i] == ps[i].id);
    }
    lemma_last_pos_at(ids(ps), ps[i].id, i);
    lemma_face_sign(cx, cx[ql], qj, x);
    lemma_face_sign(cx, cx[qj], qi, p);
    assert(boundary_entry(cx, k, j, l) == parity_sign(x));
    assert(boundary_entry(cx, k - 1, i, j) == parity_sign(p));
    assert(parity_sign(p) * parity_sign(x) == parity_sign(x) * parity_sign(p)) by (nonlinear_arith);
}

/// A nonzero term comes from nested faces.
proof fn lemma_term_shape(cx: Seq<CellView>, k: int, i: int, l: int, j: int) -> (r: (int, int))
    requires
        simplicial(cx),
        0 <= i < of_dim(cx, k - 2).len(),
        0 <= j < of_dim(cx, k - 1).len(),
        0 <= l < of_dim(cx, k).len(),
        boundary_product_term(cx, k, i, l, j) != 0,
    ensures
        of_dim(cx, k)[l].faces.contains(of_dim(cx, k - 1)[j].id),
        of_dim(cx, k - 1)[j].faces.contains(of_dim(cx, k - 2)[i].id),
        0 <= r.0 < of_dim(cx, k)[l].vertices.len(),
        of_dim(cx, k - 1)[j].vertices == of_dim(cx, k)[l].vertices.remove(r.0),
        0 <= r.1 < of_dim(cx, k - 1)[j].vertices.len(),
        of_dim(cx, k - 2)[i].vertices == of_dim(cx, k - 1)[j].vertices.remove(r.1),
{
    let ql = lemma_position_of(cx, k, l);
    let qj = lemma_position_of(cx, k - 1, j);
    let qi = lemma_position_of(cx, k - 2, i);
    let x = lemma_face_shape(cx, ql, qj);
    let p = lemma_face_shape(cx, qj, qi);
    (x, p)
}

/// After removing position `a` (and then anything else), the entry `s[a]` is gone.
proof fn lemma_removed_absent(s: Seq<usize>, a: int, b: int)
    requires
        s.no_duplicates(),
        0 <= a < s.len(),
        0 <= b < s.len() - 1,
    ensures
        !s.remove(a).remove(b).contains(s[a]),
        !s.remove(a).contains(s[a]),
{
    s.remove_ensures(a);
    s.remove(a).remove_ensures(b);
    let t = s.remove(a);
    if t.contains(s[a]) {
        let q = choose|q: int| 0 <= q < t.len() && t[q] == s[a];
        if q < a {
            assert(s[q] == s[a]);
        } else {
            assert(s[q + 1] == s[a]);
        }
    }
    let r = t.remove(b);
    if r.contains(s[a]) {
        let q = choose|q: int| 0 <= q < r.len() && r[q] == s[a];
        if q < b {
            assert(t[q] == s[a]);
        } else {
            assert(t[q + 1] == s[a]);
        }
    }
}

/// The face of σ that omits its vertex at position `x`, when ρ omits in turn the
/// vertex at position `w` of that face: its term is (-1)^x (-1)^w.
proof fn lemma_face_through(cx: Seq<CellView>, k: int, i: int, l: int, x: int, w: int) -> (j: int)
    requires
        simplicial(cx),
        k >= 2,
        0 <= i < of_dim(cx, k - 2).len(),
        0 <= l < of_dim(cx, k).len(),
        0 <= x < of_dim(cx, k)[l].vertices.len(),
        0 <= w < of_dim(cx, k)[l].vertices.len() - 1,
        of_dim(cx, k - 2)[i].vertices == of_dim(cx, k)[l].vertices.remove(x).remove(w),
    ensures
        0 <= j < of_dim(cx, k - 1).len(),
        of_dim(cx, k - 1)[j].vertices == of_dim(cx, k)[l].vertices.remove(x),
        boundary_product_term(cx, k, i, l, j) == parity_sign(x) * parity_sign(w),
{
    let rs = of_dim(cx, k - 1);
    let sv = of_dim(cx, k)[l].vertices;
    let ql = lemma_position_of(cx, k, l);
    let qi = lemma_position_of(cx, k - 2, i);
    assert(cx[ql].vertices == sv);
    let qx = lemma_complete(cx, ql, x);
    lemma_face_shape(cx, ql, qx);
    lemma_of_dim_elements(cx, k - 1);
    assert(cx[qx].dimension == k - 1);
    let j = choose|j: int| 0 <= j < rs.len() && rs[j] == cx[qx];
    sv.remove_ensures(x);
    assert(cx[qx].vertices.remove(w) == cx[qi].vertices);
    let q2 = lemma_complete(cx, qx, w);
    lemma_vertices_determine(cx, q2, qi);
    lemma_term_value(cx, k, i, l, j, x, w);
    j
}

/// The two faces of σ that contain ρ, when ρ omits the vertices at positions
/// `x < y` of σ: their terms are (-1)^x (-1)^(y-1) and (-1)^y (-1)^x.
proof fn lemma_two_faces(cx: Seq<CellView>, k: int, i: int, l: int, x: int, y: int) -> (r: (int, int))
    requires
        simplicial(cx),
        k >= 2,
        0 <= i < of_dim(cx, k - 2).len(),
        0 <= l < of_dim(cx, k).len(),
        0 <= x < y < of_dim(cx, k)[l].vertices.len(),
        of_dim(cx, k - 2)[i].vertices == of_dim(cx, k)[l].vertices.remove(x).remove(y - 1),
    ensures
        0 <= r.0 < of_dim(cx, k - 1).len(),
        0 <= r.1 < of_dim(cx, k - 1).len(),
        r.0 != r.1,
        of_dim(cx, k - 1)[r.0].vertices == of_dim(cx, k)[l].vertices.remove(x),
        of_dim(cx, k - 1)[r.1].vertices == of_dim(cx, k)[l].vertices.remove(y),
        boundary_product_term(cx, k, i, l, r.0) == parity_sign(x) * parity_sign(y - 1),
        boundary_product_term(cx, k, i, l, r.1) == parity_sign(y) * parity_sign(x),
{
    let sv = of_dim(cx, k)[l].vertices;
    lemma_remove_twice(sv, x, y);
    let jx = lemma_face_through(cx, k, i, l, x, y - 1);
    let jy = lemma_face_through(cx, k, i, l, y, x);
    let ql = lemma_position_of(cx, k, l);
    lemma_simplicial_distinct(cx, ql);
    lemma_removed_absent(sv, x, 0);
    sv.remove_ensures(y);
    assert(sv.remove(y)[x] == sv[x]);
    (jx, jy)
}

/// Any nonzero term comes from one of the two faces of `lemma_two_faces`.
proof fn lemma_only_two(cx: Seq<CellView>, k: int, i: int, l: int, x: int, y: int, jx: int, jy: int, j: int)
    requires
        simplicial(cx),
        k >= 2,
        0 <= i < of_dim(cx, k - 2).len(),
        0 <= l < of_dim(cx, k).len(),
        0 <= x < y < of_dim(cx, k)[l].vertices.len(),
        of_dim(cx, k - 2)[i].vertices == of_dim(cx, k)[l].vertices.remove(x).remove(y - 1),
        0 <= jx < of_dim(cx, k - 1).len(),
        0 <= jy < of_dim(cx, k - 1).len(),
        of_dim(cx, k - 1)[jx].vertices == of_dim(cx, k)[l].vertices.remove(x),
        of_dim(cx, k - 1)[jy].vertices == of_dim(cx, k)[l].vertices.remove(y),
        0 <= j < of_dim(cx, k - 1).len(),
        j != jx,
        j != jy,
    ensures
        boundary_product_term(cx, k, i, l, j) == 0,
{
    let rs = of_dim(cx, k - 1);
    let sv = of_dim(cx, k)[l].vertices;
    if boundary_product_term(cx, k, i, l, j) != 0 {
        let ql = lemma_position_of(cx, k, l);
        let (x1, p1) = lemma_term_shape(cx, k, i, l, j);
        lemma_simplicial_distinct(cx, ql);
        sv.remove_ensures(x1);
        lemma_removed_absent(sv, x1, p1);
        lemma_remove_twice_contains(sv, x, y, x1);
        lemma_of_dim_unique_ids(cx, k - 1);
        let qj = lemma_position_of(cx, k - 1, j);
        let qx = lemma_position_of(cx, k - 1, jx);
        let qy = lemma_position_of(cx, k - 1, jy);
        lemma_simplicial_distinct(cx, ql);
        if x1 == x {
            lemma_vertices_determine(cx, qj, qx);
            assert(ids(rs)[j] == ids(rs)[jx]);
        } else {
            assert(x1 == y);
            lemma_vertices_determine(cx, qj, qy);
            assert(ids(rs)[j] == ids(rs)[jy]);
        }
    }
}

/// ∂∘∂ = 0: on an ordered simplicial complex, the product of the boundary
/// matrices ∂_{k-1} and ∂_k vanishes, entry by entry (for k = 1 the product is
/// empty, as ∂_0 has no rows).
pub proof fn boundary_of_boundary_is_zero(cx: Seq<CellView>, k: int, i: int, l: int)
    requires
        simplicial(cx),
        k >= 2,
        0 <= i < of_dim(cx, k - 2).len(),
        0 <= l < of_dim(cx, k).len(),
    ensures
        boundary_product_sum(cx, k, i, l, of_dim(cx, k - 1).len() as int) == 0,
{
    let m = of_dim(cx, k - 1).len() as int;
    if forall|j: int| 0 <= j < m ==> #[trigger] boundary_product_term(cx, k, i, l, j) == 0 {
        lemma_sum_zero(cx, k, i, l, m);
    } else {
        let j0 = choose|j: int| 0 <= j < m && #[trigger] boundary_product_term(cx, k, i, l, j) != 0;
        let (x0, p0) = lemma_term_shape(cx, k, i, l, j0);
        let sv = of_dim(cx, k)[l].vertices;
        sv.remove_ensures(x0);
        let x: int = if p0 < x0 { p0 } else { x0 };
        let y: int = if p0 < x0 { x0 } else { p0 + 1 };
        if p0 < x0 {
            lemma_remove_twice(sv, p0, x0);
        }
        let (jx, jy) = lemma_two_faces(cx, k, i, l, x, y);
        assert forall|j: int| 0 <= j < m && j != jx && j != jy implies #[trigger] boundary_product_term(cx, k, i, l, j) == 0 by {
            lemma_only_two(cx, k, i, l, x, y, jx, jy, j);
        }
        if jx < jy {
            lemma_sum_two(cx, k, i, l, m, jx, jy);
        } else {
            lemma_sum_two(cx, k, i, l, m, jy, jx);
        }
    }
}

/// Each column of ∂_k holds the signed faces of its cell: in a complex without
/// repeated identifiers, when the (k-1)-cell of row `i` is named among the faces
/// of the k-cell of column `j` and its vertex list is that cell's (which repeats
/// no vertex) with the entry at position `x` removed, the entry is (-1)^x.
pub proof fn boundary_entry_of_face(cx: Seq<CellView>, k: int, i: int, j: int, x: int)
    requires
        ids(cx).no_duplicates(),
        0 <= i < of_dim(cx, k - 1).len(),
        0 <= j < of_dim(cx, k).len(),
        of_dim(cx, k)[j].faces.contains(of_dim(cx, k - 1)[i].id),
        of_dim(cx, k)[j].vertices.no_duplicates(),
        0 <= x < of_dim(cx, k)[j].vertices.len(),
        of_dim(cx, k - 1)[i].vertices == of_dim(cx, k)[j].vertices.remove(x),
    ensures
        boundary_entry(cx, k, i, j) == if x % 2 == 0 { 1int } else { -1int },
{
    let rows = of_dim(cx, k - 1);
    lemma_of_dim_unique_ids(cx, k - 1);
    assert forall|m: int| i < m < ids(rows).len() implies ids(rows)[m] != rows[i].id by {
        assert(ids(rows)[i] == rows[i].id);
    }
    lemma_last_pos_at(ids(rows), rows[i].id, i);
    let q = lemma_position_of(cx, k - 1, i);
    lemma_face_sign(cx, of_dim(cx, k)[j], q, x);
}

/// A (k-1)-cell that the k-cell of column `j` does not name among its faces has
/// entry 0 in that column.
pub proof fn boundary_entry_off_faces(cx: Seq<CellView>, k: int, i: int, j: int)
    requires
        0 <= i < of_dim(cx, k - 1).len(),
        0 <= j < of_dim(cx, k).len(),
        !of_dim(cx, k)[j].faces.contains(of_dim(cx, k - 1)[i].id),
    ensures
        boundary_entry(cx, k, i, j) == 0,
{
}

/// The k-cells, in the order the complex lists them, are exactly the cells of
/// dimension k: each listed cell is a cell of the complex of dimension k, and each
/// cell of dimension k is listed.
pub proof fn k_cells_are_cells_of_dimension_k(cx: Seq<CellView>, k: int)
    ensures
        forall|j: int| 0 <= j < of_dim(cx, k).len() ==> exists|q: int| 0 <= q < cx.len() && cx[q] == #[trigger] of_dim(cx, k)[j],
        forall|j: int| 0 <= j < of_dim(cx, k).len() ==> (#[trigger] of_dim(cx, k)[j]).dimension == k,
        forall|q: int| 0 <= q < cx.len() && (#[trigger] cx[q]).dimension == k ==> exists|j: int| 0 <= j < of_dim(cx, k).len() && of_dim(cx, k)[j] == cx[q],
{
    lemma_of_dim_elements(cx, k);
}

/// The incidence sign of a face whose vertex list is the cell's (which repeats
/// no vertex) with the entry at position `x` removed is (-1)^x, in a complex
/// without repeated identifiers.
pub proof fn incidence_sign_of_removed_vertex(cx: Seq<CellView>, sigma: CellView, q: int, x: int)
    requires
        ids(cx).no_duplicates(),
        0 <= q < cx.len(),
        sigma.vertices.no_duplicates(),
        0 <= x < sigma.vertices.len(),
        cx[q].vertices == sigma.vertices.remove(x),
    ensures
        incidence_sign_of(cx, sigma, cx[q].id) == if x % 2 == 0 { 1int } else { -1int },
{
    lemma_face_sign(cx, sigma, q, x);
}

} // verus!
