use vstd::prelude::*;
use crate::cell::CellView;
use crate::complex::{CellComplex, cell_index, ids, cells_after_add, cofaces_gained, of_dim, n_cells, alternating_count, lemma_of_dim_push};
use crate::seqs::{count, repeat, lemma_first_pos_at};
use crate::connectivity::{connected, vertex_ids, lookup, neighbour, step, is_walk, reachable};
use crate::chain::{face_cell_exists, simplicial};

verus! {

/// Every cell's identifier is its position.
pub open spec fn ids_are_positions(cells: Seq<CellView>) -> bool {
    forall|p: int| 0 <= p < cells.len() ==> #[trigger] cells[p].id == p
}

/// Adding the cell whose identifier is the next position to a complex whose
/// identifiers are positions: each cell gains one coface per mention in `faces`.
pub proof fn lemma_add_next(cells: Seq<CellView>, dimension: usize, vertices: Seq<usize>, faces: Seq<usize>)
    requires
        ids_are_positions(cells),
        cells.len() < usize::MAX,
    ensures
        ({
            let r = cells_after_add(cells, cells.len() as usize, dimension, vertices, faces);
            &&& r.len() == cells.len() + 1
            &&& ids_are_positions(r)
            &&& forall|p: int| 0 <= p < cells.len() ==> #[trigger] r[p] == (CellView {
                cofaces: cells[p].cofaces + repeat(cells.len() as usize, count(faces, p as usize)),
                ..cells[p]
            })
            &&& r[cells.len() as int] == (CellView {
                id: cells.len() as usize,
                dimension,
                vertices,
                faces,
                cofaces: Seq::empty(),
            })
        }),
{
    let r = cells_after_add(cells, cells.len() as usize, dimension, vertices, faces);
    assert forall|p: int| 0 <= p < cells.len() implies cell_index(cells, cells[p].id) == p by {
        assert forall|j: int| 0 <= j < p implies ids(cells)[j] != cells[p].id by {}
        lemma_first_pos_at(ids(cells), cells[p].id, p);
    }
    assert forall|p: int| 0 <= p < cells.len() implies #[trigger] r[p] == (CellView {
        cofaces: cells[p].cofaces + repeat(cells.len() as usize, count(faces, p as usize)),
        ..cells[p]
    }) by {
        assert(cofaces_gained(cells, p, faces) == count(faces, p as usize));
    }
}

/// Cofaces of vertex `j` of the n-cycle after its first `added` edges: edge i
/// (identifier n + i) joins vertices i and (i + 1) mod n.
pub open spec fn cycle_vertex_cofaces(n: nat, added: nat, j: nat) -> Seq<usize> {
    if j == 0 {
        (if added > 0 { seq![n as usize] } else { Seq::empty() }) + (if added == n { seq![(2 * n - 1) as usize] } else { Seq::empty() })
    } else {
        (if j - 1 < added { seq![(n + j - 1) as usize] } else { Seq::empty() }) + (if j < added { seq![(n + j) as usize] } else { Seq::empty() })
    }
}

/// Vertex `j` of the n-cycle.
pub open spec fn cycle_vertex(n: nat, added: nat, j: nat) -> CellView {
    CellView {
        id: j as usize,
        dimension: 0,
        vertices: seq![j as usize],
        faces: Seq::empty(),
        cofaces: cycle_vertex_cofaces(n, added, j),
    }
}

/// Edge `i` of the n-cycle.
pub open spec fn cycle_edge(n: nat, i: nat) -> CellView {
    CellView {
        id: (n + i) as usize,
        dimension: 1,
        vertices: seq![i as usize, ((i + 1) % n) as usize],
        faces: seq![i as usize, ((i + 1) % n) as usize],
        cofaces: Seq::empty(),
    }
}

proof fn lemma_count_pair(a: usize, b: usize, x: usize)
    ensures
        count(seq![a, b], x) == (if a == x { 1nat } else { 0nat }) + (if b == x { 1nat } else { 0nat }),
{
    assert(seq![a, b].drop_last() =~= seq![a]);
    assert(seq![a].drop_last() =~= Seq::<usize>::empty());
    assert(count(Seq::<usize>::empty(), x) == 0);
    assert(seq![a].last() == a);
    assert(count(seq![a], x) == (if a == x { 1nat } else { 0nat }));
}

proof fn lemma_next_mod(i: nat, n: nat)
    requires
        i < n,
    ensures
        (i + 1) % n == if i + 1 < n { i + 1 } else { 0 },
{
    if i + 1 < n {
        vstd::arithmetic::div_mod::lemma_small_mod((i + 1) as nat, n);
    } else {
        vstd::arithmetic::div_mod::lemma_mod_self_0(n as int);
    }
}

proof fn lemma_cycle_counts(s: Seq<CellView>, n: nat, m: int)
    requires
        s.len() == 2 * n,
        0 <= m <= 2 * n,
        forall|j: int| 0 <= j < n ==> #[trigger] s[j].dimension == 0,
        forall|j: int| n <= j < 2 * n ==> #[trigger] s[j].dimension == 1,
    ensures
        of_dim(s.take(m), 0).len() == if m < n { m } else { n as int },
        of_dim(s.take(m), 1).len() == if m < n { 0 } else { m - n },
    decreases m,
{
    if m > 0 {
        lemma_cycle_counts(s, n, m - 1);
        assert(s.take(m) =~= s.take(m - 1).push(s[m - 1]));
        lemma_of_dim_push(s.take(m - 1), s[m - 1], 0);
        lemma_of_dim_push(s.take(m - 1), s[m - 1], 1);
    }
}

proof fn lemma_cycle_vertices(s: Seq<CellView>, n: nat, m: int)
    requires
        s.len() == 2 * n,
        0 <= m <= 2 * n,
        forall|j: int| 0 <= j < n ==> #[trigger] s[j].dimension == 0,
        forall|j: int| n <= j < 2 * n ==> #[trigger] s[j].dimension == 1,
    ensures
        of_dim(s.take(m), 0) == s.take(if m < n { m } else { n as int }),
    decreases m,
{
    if m > 0 {
        lemma_cycle_vertices(s, n, m - 1);
        assert(s.take(m) =~= s.take(m - 1).push(s[m - 1]));
        lemma_of_dim_push(s.take(m - 1), s[m - 1], 0);
        if m <= n {
            assert(s.take(m - 1).push(s[m - 1]) =~= s.take(m));
        }
    } else {
        assert(s.take(0) =~= Seq::<CellView>::empty());
    }
}

/// Every vertex of the n-cycle is reached from vertex 0 by walking along edges.
proof fn lemma_cycle_connected(cx: Seq<CellView>, n: nat)
    requires
        n >= 3,
        n <= usize::MAX / 2,
        cx.len() == 2 * n,
        ids_are_positions(cx),
        forall|j: int| 0 <= j < n ==> #[trigger] cx[j] == cycle_vertex(n, n, j as nat),
        forall|i: int| 0 <= i < n ==> #[trigger] cx[n + i] == cycle_edge(n, i as nat),
    ensures
        connected(cx),
{
    assert forall|j: int| 0 <= j < n implies #[trigger] cx[j].dimension == 0 by {
        assert(cx[j] == cycle_vertex(n, n, j as nat));
    }
    assert forall|j: int| n <= j < 2 * n implies #[trigger] cx[j].dimension == 1 by {
        assert(cx[n + (j - n)] == cycle_edge(n, (j - n) as nat));
    }
    lemma_cycle_vertices(cx, n, 2 * n as int);
    assert(cx.take(2 * n as int) =~= cx);
    let vids = vertex_ids(cx);
    assert(vids.len() == n);
    assert forall|j: int| 0 <= j < n implies #[trigger] vids[j] == j by {
        assert(cx.take(n as int)[j] == cx[j]);
    }
    assert forall|x: int| 0 <= x < 2 * n implies #[trigger] cell_index(cx, x as usize) == x by {
        assert forall|q: int| 0 <= q < x implies ids(cx)[q] != x as usize by {}
        lemma_first_pos_at(ids(cx), x as usize, x);
    }
    assert forall|j: int| 0 <= j < n implies #[trigger] crate::seqs::first_pos(vids, j as usize) == j by {
        assert forall|q: int| 0 <= q < j implies vids[q] != j as usize by {}
        lemma_first_pos_at(vids, j as usize, j);
    }
    assert forall|a: int| 0 <= a < n - 1 implies #[trigger] step(cx, a, a + 1) by {
        let e: int = if a == 0 { 0 } else { 1 };
        let v = lookup(cx, vids[a]);
        assert(cell_index(cx, a as usize) == a);
        assert(v == cx[a]);
        assert(v.cofaces[e] == (n + a) as usize);
        assert(cell_index(cx, (n + a) as usize) == n + a);
        let edge = lookup(cx, v.cofaces[e]);
        assert(edge == cx[n + a]);
        lemma_next_mod(a as nat, n);
        assert(edge.vertices[1] == (a + 1) as usize);
        assert(neighbour(cx, a, e, 1) == a + 1);
    }
    assert forall|b: int| 0 <= b < n implies #[trigger] reachable(cx, b) by {
        let p = Seq::new((b + 1) as nat, |t: int| t);
        assert forall|i: int| 0 <= i < p.len() - 1 implies #[trigger] step(cx, p[i], p[i + 1]) by {
            assert(step(cx, i, i + 1));
        }
        assert(is_walk(cx, p));
        assert(p.last() == b);
    }
}

/// The n-cycle is an ordered simplicial complex.
proof fn lemma_cycle_simplicial(cx: Seq<CellView>, n: nat)
    requires
        n >= 3,
        n <= usize::MAX / 2,
        cx.len() == 2 * n,
        ids_are_positions(cx),
        forall|j: int| 0 <= j < n ==> #[trigger] cx[j] == cycle_vertex(n, n, j as nat),
        forall|i: int| 0 <= i < n ==> #[trigger] cx[n + i] == cycle_edge(n, i as nat),
    ensures
        simplicial(cx),
{
    reveal(simplicial);
    assert forall|a: int, b: int| 0 <= a < ids(cx).len() && 0 <= b < ids(cx).len() && a != b implies ids(cx)[a] != ids(cx)[b] by {
        assert(ids(cx)[a] == cx[a].id && ids(cx)[b] == cx[b].id);
    }
    assert forall|p: int| 0 <= p < cx.len() implies (#[trigger] cx[p]).vertices.no_duplicates() by {
        if p >= n {
            let i = p - n;
            assert(cx[n + i] == cycle_edge(n, i as nat));
            lemma_next_mod(i as nat, n);
        }
    }
    assert forall|p: int, q: int| 0 <= p < cx.len() && 0 <= q < cx.len() && p != q implies #[trigger] cx[p].vertices != #[trigger] cx[q].vertices by {
        if p < n {
            assert(cx[p] == cycle_vertex(n, n, p as nat));
        } else {
            assert(cx[n + (p - n)] == cycle_edge(n, (p - n) as nat));
        }
        if q < n {
            assert(cx[q] == cycle_vertex(n, n, q as nat));
        } else {
            assert(cx[n + (q - n)] == cycle_edge(n, (q - n) as nat));
        }
        assert(cx[p].vertices[0] != cx[q].vertices[0] || cx[p].vertices.len() != cx[q].vertices.len());
    }
    assert forall|p: int, f: int| 0 <= p < cx.len() && 0 <= f < cx[p].faces.len() implies face_cell_exists(cx, p, #[trigger] cx[p].faces[f]) by {
        if p < n {
            assert(cx[p] == cycle_vertex(n, n, p as nat));
        } else {
            let i = p - n;
            assert(cx[n + i] == cycle_edge(n, i as nat));
            lemma_next_mod(i as nat, n);
            let nx = (i + 1) % (n as int);
            let v = cx[p].vertices;
            if f == 0 {
                assert(cx[i] == cycle_vertex(n, n, i as nat));
                assert(cx[i].vertices =~= v.remove(1));
                assert(cx[i].id == cx[p].faces[f] && cx[i].dimension + 1 == cx[p].dimension);
                assert(0 <= i < cx.len() && 0 <= 1 < v.len());
            } else {
                assert(cx[nx] == cycle_vertex(n, n, nx as nat));
                assert(cx[nx].vertices =~= v.remove(0));
                assert(cx[nx].id == cx[p].faces[f] && cx[nx].dimension + 1 == cx[p].dimension);
                assert(0 <= nx < cx.len() && 0 <= 0 < v.len());
            }
        }
    }
    assert forall|p: int, x: int| 0 <= p < cx.len() && cx[p].dimension >= 1 && 0 <= x < cx[p].vertices.len() implies exists|q: int|
        0 <= q < cx.len() && cx[q].vertices == #[trigger] cx[p].vertices.remove(x) && cx[p].faces.contains(cx[q].id) by {
        if p < n {
            assert(cx[p] == cycle_vertex(n, n, p as nat));
        } else {
            let i = p - n;
            assert(cx[n + i] == cycle_edge(n, i as nat));
            lemma_next_mod(i as nat, n);
            let nx = (i + 1) % (n as int);
            let v = cx[p].vertices;
            if x == 1 {
                assert(cx[i] == cycle_vertex(n, n, i as nat));
                assert(cx[i].vertices =~= v.remove(1));
                assert(cx[p].faces[0] == cx[i].id);
            } else {
                assert(cx[nx] == cycle_vertex(n, n, nx as nat));
                assert(cx[nx].vertices =~= v.remove(0));
                assert(cx[p].faces[1] == cx[nx].id);
            }
        }
    }
}

/// The circle S¹ as a cycle: `n` vertices 0..n-1 and `n` edges n..2n-1, edge n + i
/// joining vertices i and (i + 1) mod n.
pub fn circle_complex(n: usize) -> (cx: CellComplex)
    requires
        n >= 3,
        n <= usize::MAX / 2,
    ensures
        cx.wf(),
        cx.dimension == 1,
        cx@.len() == 2 * n,
        forall|j: int| 0 <= j < n ==> #[trigger] cx@[j] == cycle_vertex(n as nat, n as nat, j as nat),
        forall|i: int| 0 <= i < n ==> #[trigger] cx@[n + i] == cycle_edge(n as nat, i as nat),
        n_cells(cx@, 0) == n,
        n_cells(cx@, 1) == n,
        alternating_count(cx@, 1) == 0,
        connected(cx@),
        simplicial(cx@),
{
    let mut cx = CellComplex::new();
    let mut i: usize = 0;
    while i < n
        invariant
            3 <= n <= usize::MAX / 2,
            i <= n,
            cx.wf(),
            cx.dimension == 0,
            cx@.len() == i,
            ids_are_positions(cx@),
            forall|j: int| 0 <= j < i ==> #[trigger] cx@[j] == cycle_vertex(n as nat, 0, j as nat),
        decreases n - i,
    {
        proof {
            lemma_add_next(cx@, 0, seq![i], Seq::empty());
            assert forall|p: int| 0 <= p < i implies #[trigger] count(Seq::<usize>::empty(), p as usize) == 0 by {}
        }
        let ghost prev = cx@;
        cx.add_cell(i, 0, vec![i], vec![]);
        proof {
            assert forall|j: int| 0 <= j < i + 1 implies #[trigger] cx@[j] == cycle_vertex(n as nat, 0, j as nat) by {
                if j < i {
                    assert(cx@[j].cofaces =~= prev[j].cofaces);
                } else {
                    assert(cx@[j].vertices =~= seq![i]);
                    assert(cycle_vertex_cofaces(n as nat, 0, j as nat) =~= Seq::<usize>::empty());
                }
            }
        }
        i += 1;
    }
    let mut i: usize = 0;
    while i < n
        invariant
            3 <= n <= usize::MAX / 2,
            i <= n,
            cx.wf(),
            cx.dimension == 1 || (i == 0 && cx.dimension == 0),
            cx@.len() == n + i,
            ids_are_positions(cx@),
            forall|j: int| 0 <= j < n ==> #[trigger] cx@[j] == cycle_vertex(n as nat, i as nat, j as nat),
            forall|q: int| 0 <= q < i ==> #[trigger] cx@[n + q] == cycle_edge(n as nat, q as nat),
        decreases n - i,
    {
        let next = (i + 1) % n;
        let edge_id = n + i;
        let ghost prev = cx@;
        let ghost fs = seq![i, next];
        proof {
            lemma_next_mod(i as nat, n as nat);
            lemma_add_next(cx@, 1, fs, fs);
        }
        cx.add_cell(edge_id, 1, vec![i, next], vec![i, next]);
        proof {
            assert(cx@ == cells_after_add(prev, prev.len() as usize, 1, fs, fs));
            assert forall|j: int| 0 <= j < n implies #[trigger] cx@[j] == cycle_vertex(n as nat, (i + 1) as nat, j as nat) by {
                lemma_count_pair(i, next, j as usize);
                let old_c = cycle_vertex_cofaces(n as nat, i as nat, j as nat);
                let new_c = cycle_vertex_cofaces(n as nat, (i + 1) as nat, j as nat);
                if j == i {
                    assert(next != i);
                    assert(new_c =~= old_c.push(edge_id));
                    assert(repeat(edge_id, 1) =~= seq![edge_id]);
                    assert(cx@[j].cofaces =~= new_c);
                } else if j == next {
                    assert(new_c =~= old_c.push(edge_id));
                    assert(repeat(edge_id, 1) =~= seq![edge_id]);
                    assert(cx@[j].cofaces =~= new_c);
                } else {
                    assert(new_c =~= old_c);
                    assert(cx@[j].cofaces =~= new_c);
                }
            }
            assert forall|q: int| 0 <= q < i + 1 implies #[trigger] cx@[n + q] == cycle_edge(n as nat, q as nat) by {
                if q < i {
                    let p = n + q;
                    lemma_count_pair(i, next, p as usize);
                    assert(cx@[p].cofaces =~= prev[p].cofaces);
                } else {
                    assert(cx@[n + q].vertices =~= cycle_edge(n as nat, q as nat).vertices);
                }
            }
        }
        i += 1;
    }
    proof {
        let v = cx@;
        assert forall|j: int| 0 <= j < n implies #[trigger] v[j].dimension == 0 by {
            assert(v[j] == cycle_vertex(n as nat, n as nat, j as nat));
        }
        assert forall|j: int| n <= j < 2 * n implies #[trigger] v[j].dimension == 1 by {
            assert(v[n + (j - n)] == cycle_edge(n as nat, (j - n) as nat));
        }
        lemma_cycle_counts(v, n as nat, 2 * n);
        assert(v.take(2 * n) =~= v);
        assert(alternating_count(v, 0) == n_cells(v, 0));
        lemma_cycle_connected(v, n as nat);
        lemma_cycle_simplicial(v, n as nat);
    }
    cx
}


proof fn lemma_count_triple(a: usize, b: usize, c: usize, x: usize)
    ensures
        count(seq![a, b, c], x) == (if a == x { 1nat } else { 0nat }) + (if b == x { 1nat } else { 0nat }) + (
        if c == x { 1nat } else { 0nat }),
{
    assert(seq![a, b, c].drop_last() =~= seq![a, b]);
    lemma_count_pair(a, b, x);
}

proof fn lemma_repeat_small(x: usize)
    ensures
        repeat(x, 0) =~= Seq::<usize>::empty(),
        repeat(x, 1) =~= seq![x],
{
}

/// A vertex, an edge or a triangle of the standard complexes below.
pub open spec fn cell_view(id: usize, dimension: usize, vertices: Seq<usize>, faces: Seq<usize>, cofaces: Seq<usize>) -> CellView {
    CellView { id, dimension, vertices, faces, cofaces }
}

/// The filled triangle: vertices 0, 1, 2; edges 3 = (0,1), 4 = (1,2), 5 = (0,2);
/// the 2-cell 6 = (0,1,2) with faces 3, 4, 5.
pub open spec fn triangle_cells() -> Seq<CellView> {
    seq![
        cell_view(0, 0, seq![0], seq![], seq![3, 5]),
        cell_view(1, 0, seq![1], seq![], seq![3, 4]),
        cell_view(2, 0, seq![2], seq![], seq![4, 5]),
        cell_view(3, 1, seq![0, 1], seq![0, 1], seq![6]),
        cell_view(4, 1, seq![1, 2], seq![1, 2], seq![6]),
        cell_view(5, 1, seq![0, 2], seq![0, 2], seq![6]),
        cell_view(6, 2, seq![0, 1, 2], seq![3, 4, 5], seq![]),
    ]
}

/// For a triangle with vertex list (a, b, c) whose faces are listed as
/// (a, b), (b, c), (a, c): the position of the vertex that face `f` omits.
spec fn omitted_vertex(f: int) -> int {
    if f == 0 { 2 } else if f == 1 { 0 } else { 1 }
}

/// The filled triangle is an ordered simplicial complex.
proof fn lemma_triangle_simplicial()
    ensures
        simplicial(triangle_cells()),
{
    reveal(simplicial);
    let t = triangle_cells();
    assert forall|a: int, b: int| 0 <= a < ids(t).len() && 0 <= b < ids(t).len() && a != b implies ids(t)[a] != ids(t)[b] by {
        assert(ids(t)[a] == t[a].id && ids(t)[b] == t[b].id);
    }
    assert forall|p: int| 0 <= p < t.len() implies (#[trigger] t[p]).vertices.no_duplicates() by {}
    assert forall|p: int, q: int| 0 <= p < t.len() && 0 <= q < t.len() && p != q implies #[trigger] t[p].vertices != #[trigger] t[q].vertices by {
        assert(t[p].vertices.len() != t[q].vertices.len() || t[p].vertices[0] != t[q].vertices[0]
            || t[p].vertices[1] != t[q].vertices[1]);
    }
    assert forall|p: int, f: int| 0 <= p < t.len() && 0 <= f < t[p].faces.len() implies face_cell_exists(t, p, #[trigger] t[p].faces[f]) by {
        let v = t[p].vertices;
        let fid = t[p].faces[f];
        let x: int = if p < 6 { 1 - f } else { omitted_vertex(f) };
        assert(t[fid as int].vertices =~= v.remove(x));
        assert(t[fid as int].id == fid && t[fid as int].dimension + 1 == t[p].dimension);
    }
    assert forall|p: int, x: int| 0 <= p < t.len() && t[p].dimension >= 1 && 0 <= x < t[p].vertices.len() implies exists|q: int|
        0 <= q < t.len() && t[q].vertices == #[trigger] t[p].vertices.remove(x) && t[p].faces.contains(t[q].id) by {
        let f: int = if p < 6 { 1 - x } else if x == 2 { 0 } else { x + 1 };
        let q = t[p].faces[f] as int;
        assert(t[q].vertices =~= t[p].vertices.remove(x));
        assert(t[p].faces[f] == t[q].id);
    }
}

/// Adds a cell whose identifier is the next position, for the fixed complexes below.
fn push_cell(cx: &mut CellComplex, id: usize, dimension: usize, vertices: Vec<usize>, faces: Vec<usize>)
    requires
        ids_are_positions(old(cx)@),
        id == old(cx)@.len(),
        id < usize::MAX,
    ensures
        ids_are_positions(final(cx)@),
        final(cx)@.len() == old(cx)@.len() + 1,
        final(cx).dimension == if dimension > old(cx).dimension { dimension } else { old(cx).dimension },
        old(cx).wf() ==> final(cx).wf(),
        forall|p: int| 0 <= p < old(cx)@.len() ==> #[trigger] final(cx)@[p] == (CellView {
            cofaces: old(cx)@[p].cofaces + repeat(id, count(faces@, p as usize)),
            ..old(cx)@[p]
        }),
        final(cx)@[id as int] == cell_view(id, dimension, vertices@, faces@, Seq::empty()),
{
    proof {
        lemma_add_next(cx@, dimension, vertices@, faces@);
    }
    cx.add_cell(id, dimension, vertices, faces);
}

/// Builds the filled triangle (the 2-simplex): see [`triangle_cells`].
pub fn triangle_complex() -> (cx: CellComplex)
    ensures
        cx.wf(),
        cx.dimension == 2,
        cx@ == triangle_cells(),
        simplicial(cx@),
{
    let mut cx = CellComplex::new();
    push_cell(&mut cx, 0, 0, vec![0], vec![]);
    push_cell(&mut cx, 1, 0, vec![1], vec![]);
    push_cell(&mut cx, 2, 0, vec![2], vec![]);
    let ghost c3 = cx@;
    push_cell(&mut cx, 3, 1, vec![0, 1], vec![0, 1]);
    let ghost c4 = cx@;
    push_cell(&mut cx, 4, 1, vec![1, 2], vec![1, 2]);
    let ghost c5 = cx@;
    push_cell(&mut cx, 5, 1, vec![0, 2], vec![0, 2]);
    let ghost c6 = cx@;
    push_cell(&mut cx, 6, 2, vec![0, 1, 2], vec![3, 4, 5]);
    proof {
        lemma_repeat_small(3);
        lemma_repeat_small(4);
        lemma_repeat_small(5);
        lemma_repeat_small(6);
        let t = triangle_cells();
        assert forall|p: int| 0 <= p < 7 implies #[trigger] cx@[p] == t[p] by {
            lemma_count_pair(0, 1, p as usize);
            lemma_count_pair(1, 2, p as usize);
            lemma_count_pair(0, 2, p as usize);
            lemma_count_triple(3, 4, 5, p as usize);
            assert(cx@[p].vertices =~= t[p].vertices);
            assert(cx@[p].faces =~= t[p].faces);
            assert(cx@[p].cofaces =~= t[p].cofaces);
        }
        assert(cx@ =~= t);
        lemma_triangle_simplicial();
    }
    cx
}

/// The hollow tetrahedron (the sphere S²): vertices 0–3; edges 4 = (0,1),
/// 5 = (0,2), 6 = (0,3), 7 = (1,2), 8 = (1,3), 9 = (2,3); triangles
/// 10 = (0,1,2), 11 = (0,1,3), 12 = (0,2,3), 13 = (1,2,3).
pub open spec fn tetrahedron_cells() -> Seq<CellView> {
    seq![
        cell_view(0, 0, seq![0], seq![], seq![4, 5, 6]),
        cell_view(1, 0, seq![1], seq![], seq![4, 7, 8]),
        cell_view(2, 0, seq![2], seq![], seq![5, 7, 9]),
        cell_view(3, 0, seq![3], seq![], seq![6, 8, 9]),
        cell_view(4, 1, seq![0, 1], seq![0, 1], seq![10, 11]),
        cell_view(5, 1, seq![0, 2], seq![0, 2], seq![10, 12]),
        cell_view(6, 1, seq![0, 3], seq![0, 3], seq![11, 12]),
        cell_view(7, 1, seq![1, 2], seq![1, 2], seq![10, 13]),
        cell_view(8, 1, seq![1, 3], seq![1, 3], seq![11, 13]),
        cell_view(9, 1, seq![2, 3], seq![2, 3], seq![12, 13]),
        cell_view(10, 2, seq![0, 1, 2], seq![4, 7, 5], seq![]),
        cell_view(11, 2, seq![0, 1, 3], seq![4, 8, 6], seq![]),
        cell_view(12, 2, seq![0, 2, 3], seq![5, 9, 6], seq![]),
        cell_view(13, 2, seq![1, 2, 3], seq![7, 9, 8], seq![]),
    ]
}

/// The hollow tetrahedron is an ordered simplicial complex.
proof fn lemma_tetrahedron_simplicial()
    ensures
        simplicial(tetrahedron_cells()),
{
    reveal(simplicial);
    let t = tetrahedron_cells();
    assert forall|a: int, b: int| 0 <= a < ids(t).len() && 0 <= b < ids(t).len() && a != b implies ids(t)[a] != ids(t)[b] by {
        assert(ids(t)[a] == t[a].id && ids(t)[b] == t[b].id);
    }
    assert forall|p: int| 0 <= p < t.len() implies (#[trigger] t[p]).vertices.no_duplicates() by {}
    assert forall|p: int, q: int| 0 <= p < t.len() && 0 <= q < t.len() && p != q implies #[trigger] t[p].vertices != #[trigger] t[q].vertices by {
        assert(t[p].vertices.len() != t[q].vertices.len() || t[p].vertices[0] != t[q].vertices[0]
            || t[p].vertices[1] != t[q].vertices[1] || t[p].vertices[2] != t[q].vertices[2]);
    }
    assert forall|p: int, f: int| 0 <= p < t.len() && 0 <= f < t[p].faces.len() implies face_cell_exists(t, p, #[trigger] t[p].faces[f]) by {
        let v = t[p].vertices;
        let fid = t[p].faces[f];
        let x: int = if p < 10 { 1 - f } else { omitted_vertex(f) };
        assert(t[fid as int].vertices =~= v.remove(x));
        assert(t[fid as int].id == fid && t[fid as int].dimension + 1 == t[p].dimension);
    }
    assert forall|p: int, x: int| 0 <= p < t.len() && t[p].dimension >= 1 && 0 <= x < t[p].vertices.len() implies exists|q: int|
        0 <= q < t.len() && t[q].vertices == #[trigger] t[p].vertices.remove(x) && t[p].faces.contains(t[q].id) by {
        let f: int = if p < 10 { 1 - x } else if x == 2 { 0 } else if x == 0 { 1 } else { 2 };
        let q = t[p].faces[f] as int;
        assert(t[q].vertices =~= t[p].vertices.remove(x));
        assert(t[p].faces[f] == t[q].id);
    }
}

/// The vertices and edges of the tetrahedron, before any triangle is added.
spec fn tetrahedron_skeleton() -> Seq<CellView> {
    Seq::new(10, |p: int| if p < 4 { tetrahedron_cells()[p] } else { CellView { cofaces: Seq::empty(), ..tetrahedron_cells()[p] } })
}

fn tetrahedron_edges() -> (cx: CellComplex)
    ensures
        cx.wf(),
        cx.dimension == 1,
        ids_are_positions(cx@),
        cx@ == tetrahedron_skeleton(),
{
    let mut cx = CellComplex::new();
    push_cell(&mut cx, 0, 0, vec![0], vec![]);
    push_cell(&mut cx, 1, 0, vec![1], vec![]);
    push_cell(&mut cx, 2, 0, vec![2], vec![]);
    push_cell(&mut cx, 3, 0, vec![3], vec![]);
    push_cell(&mut cx, 4, 1, vec![0, 1], vec![0, 1]);
    push_cell(&mut cx, 5, 1, vec![0, 2], vec![0, 2]);
    push_cell(&mut cx, 6, 1, vec![0, 3], vec![0, 3]);
    push_cell(&mut cx, 7, 1, vec![1, 2], vec![1, 2]);
    push_cell(&mut cx, 8, 1, vec![1, 3], vec![1, 3]);
    push_cell(&mut cx, 9, 1, vec![2, 3], vec![2, 3]);
    proof {
        let t = tetrahedron_skeleton();
        assert forall|p: int| 0 <= p < 10 implies #[trigger] cx@[p] == t[p] by {
            let q = p as usize;
            lemma_count_pair(0, 1, q);
            lemma_count_pair(0, 2, q);
            lemma_count_pair(0, 3, q);
            lemma_count_pair(1, 2, q);
            lemma_count_pair(1, 3, q);
            lemma_count_pair(2, 3, q);
            lemma_repeat_small(4);
            lemma_repeat_small(5);
            lemma_repeat_small(6);
            lemma_repeat_small(7);
            lemma_repeat_small(8);
            lemma_repeat_small(9);
            assert(cx@[p].vertices =~= t[p].vertices);
            assert(cx@[p].faces =~= t[p].faces);
            assert(cx@[p].cofaces =~= t[p].cofaces);
        }
        assert(cx@ =~= t);
    }
    cx
}

/// Builds the hollow tetrahedron (S²): see [`tetrahedron_cells`].
pub fn tetrahedron_complex() -> (cx: CellComplex)
    ensures
        cx.wf(),
        cx.dimension == 2,
        cx@ == tetrahedron_cells(),
        simplicial(cx@),
{
    let mut cx = tetrahedron_edges();
    push_cell(&mut cx, 10, 2, vec![0, 1, 2], vec![4, 7, 5]);
    push_cell(&mut cx, 11, 2, vec![0, 1, 3], vec![4, 8, 6]);
    push_cell(&mut cx, 12, 2, vec![0, 2, 3], vec![5, 9, 6]);
    push_cell(&mut cx, 13, 2, vec![1, 2, 3], vec![7, 9, 8]);
    proof {
        let t = tetrahedron_cells();
        assert forall|p: int| 0 <= p < 14 implies #[trigger] cx@[p] == t[p] by {
            let q = p as usize;
            lemma_count_triple(4, 7, 5, q);
            lemma_count_triple(4, 8, 6, q);
            lemma_count_triple(5, 9, 6, q);
            lemma_count_triple(7, 9, 8, q);
            lemma_repeat_small(10);
            lemma_repeat_small(11);
            lemma_repeat_small(12);
            lemma_repeat_small(13);
            assert(cx@[p].vertices =~= t[p].vertices);
            assert(cx@[p].faces =~= t[p].faces);
            assert(cx@[p].cofaces =~= t[p].cofaces);
        }
        assert(cx@ =~= t);
        lemma_tetrahedron_simplicial();
    }
    cx
}

} // verus!
