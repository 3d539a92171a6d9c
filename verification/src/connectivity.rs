use vstd::prelude::*;
use crate::cell::CellView;
use crate::complex::{CellComplex, cell_index, ids, of_dim, lemma_of_dim_push};
use crate::seqs::{first_pos, lemma_first_pos, lemma_first_pos_at};

verus! {

/// Identifiers of the vertices (the cells of dimension 0), in order.
pub open spec fn vertex_ids(cx: Seq<CellView>) -> Seq<usize> {
    ids(of_dim(cx, 0))
}

/// The cell that a lookup by identifier finds: the first one carrying `id`.
pub open spec fn lookup(cx: Seq<CellView>, id: usize) -> CellView {
    cx[cell_index(cx, id)]
}

/// The vertex position that the walk reaches from vertex position `a` through
/// the `e`-th coface of that vertex and the `w`-th vertex label of that coface:
/// the first vertex whose identifier equals the label, unless the label is the
/// identifier of `a` itself (-1 when there is no such vertex).
pub open spec fn neighbour(cx: Seq<CellView>, a: int, e: int, w: int) -> int {
    let vids = vertex_ids(cx);
    let v = lookup(cx, vids[a]);
    let edge = lookup(cx, v.cofaces[e]);
    let other = edge.vertices[w];
    if other != vids[a] {
        first_pos(vids, other)
    } else {
        -1
    }
}

/// One step of the walk over the 1-skeleton, between vertex positions.
pub open spec fn step(cx: Seq<CellView>, a: int, b: int) -> bool {
    exists|e: int, w: int|
        0 <= e < lookup(cx, vertex_ids(cx)[a]).cofaces.len() && 0 <= w < lookup(
            cx,
            lookup(cx, vertex_ids(cx)[a]).cofaces[e],
        ).vertices.len() && b >= 0 && #[trigger] neighbour(cx, a, e, w) == b
}

/// A walk that starts at the first vertex.
pub open spec fn is_walk(cx: Seq<CellView>, p: Seq<int>) -> bool {
    &&& p.len() >= 1
    &&& p[0] == 0
    &&& forall|i: int| 0 <= i < p.len() - 1 ==> #[trigger] step(cx, p[i], p[i + 1])
}

/// Vertex position `b` can be reached from the first vertex.
pub open spec fn reachable(cx: Seq<CellView>, b: int) -> bool {
    exists|p: Seq<int>| #[trigger] is_walk(cx, p) && p.last() == b
}

/// Every vertex can be reached from the first one (trivially so with at most one vertex).
pub open spec fn connected(cx: Seq<CellView>) -> bool {
    let n = vertex_ids(cx).len();
    n <= 1 || forall|b: int| 0 <= b < n ==> #[trigger] reachable(cx, b)
}

/// The walk never meets a coface identifier that names no cell: every coface of
/// every reachable vertex is the identifier of some cell. (With at most one vertex
/// there is no walk.)
pub open spec fn walk_defined(cx: Seq<CellView>) -> bool {
    vertex_ids(cx).len() <= 1 || forall|b: int, e: int|
        0 <= b < vertex_ids(cx).len() && #[trigger] reachable(cx, b) && 0 <= e < lookup(cx, vertex_ids(cx)[b]).cofaces.len()
            ==> ids(cx).contains(#[trigger] lookup(cx, vertex_ids(cx)[b]).cofaces[e])
}

/// Number of `false` entries.
pub open spec fn unvisited(s: Seq<bool>) -> nat
    decreases s.len(),
{
    if s.len() == 0 {
        0
    } else {
        unvisited(s.drop_last()) + if s.last() { 0nat } else { 1nat }
    }
}

proof fn lemma_unvisited_mark(s: Seq<bool>, i: int)
    requires
        0 <= i < s.len(),
        !s[i],
    ensures
        unvisited(s.update(i, true)) + 1 == unvisited(s),
    decreases s.len(),
{
    let t = s.update(i, true);
    if i < s.len() - 1 {
        assert(t.drop_last() =~= s.drop_last().update(i, true));
        lemma_unvisited_mark(s.drop_last(), i);
    } else {
        assert(t.drop_last() =~= s.drop_last());
    }
}

/// Every element of `of_dim(cells, k)` is a cell of `cells`.
pub proof fn lemma_of_dim_member(cells: Seq<CellView>, k: int, j: int)
    requires
        0 <= j < of_dim(cells, k).len(),
    ensures
        ids(cells).contains(of_dim(cells, k)[j].id),
        of_dim(cells, k)[j].dimension == k,
    decreases cells.len(),
{
    let s = cells.drop_last();
    assert(s.push(cells.last()) =~= cells);
    lemma_of_dim_push(s, cells.last(), k);
    if j < of_dim(s, k).len() {
        lemma_of_dim_member(s, k, j);
        let p = choose|p: int| 0 <= p < ids(s).len() && ids(s)[p] == of_dim(s, k)[j].id;
        assert(ids(cells)[p] == ids(s)[p]);
    } else {
        assert(ids(cells)[cells.len() - 1] == cells.last().id);
    }
}

proof fn lemma_reachable_step(cx: Seq<CellView>, a: int, b: int)
    requires
        reachable(cx, a),
        step(cx, a, b),
    ensures
        reachable(cx, b),
{
    let p = choose|p: Seq<int>| #[trigger] is_walk(cx, p) && p.last() == a;
    let q = p.push(b);
    assert forall|i: int| 0 <= i < q.len() - 1 implies #[trigger] step(cx, q[i], q[i + 1]) by {
        if i < p.len() - 1 {
            assert(q[i] == p[i] && q[i + 1] == p[i + 1]);
        }
    }
    assert(is_walk(cx, q));
}

proof fn lemma_step_in_range(cx: Seq<CellView>, a: int, b: int)
    requires
        step(cx, a, b),
    ensures
        0 <= b < vertex_ids(cx).len(),
{
    let (e, w) = choose|e: int, w: int|
        0 <= e < lookup(cx, vertex_ids(cx)[a]).cofaces.len() && 0 <= w < lookup(
            cx,
            lookup(cx, vertex_ids(cx)[a]).cofaces[e],
        ).vertices.len() && b >= 0 && #[trigger] neighbour(cx, a, e, w) == b;
    let vids = vertex_ids(cx);
    let edge = lookup(cx, lookup(cx, vids[a]).cofaces[e]);
    lemma_first_pos(vids, edge.vertices[w]);
}

/// A set of vertex positions that holds the first vertex and is closed under
/// steps holds every reachable vertex.
proof fn lemma_closed_holds_reachable(cx: Seq<CellView>, visited: Seq<bool>, b: int)
    requires
        visited.len() == vertex_ids(cx).len(),
        visited.len() > 0,
        visited[0],
        forall|a: int, c: int| 0 <= a < visited.len() && visited[a] && #[trigger] step(cx, a, c) ==> visited[c],
        reachable(cx, b),
    ensures
        0 <= b < visited.len() && visited[b],
{
    let p = choose|p: Seq<int>| #[trigger] is_walk(cx, p) && p.last() == b;
    lemma_walk_stays(cx, visited, p, p.len() - 1);
}

proof fn lemma_walk_stays(cx: Seq<CellView>, visited: Seq<bool>, p: Seq<int>, i: int)
    requires
        visited.len() == vertex_ids(cx).len(),
        visited.len() > 0,
        visited[0],
        forall|a: int, c: int| 0 <= a < visited.len() && visited[a] && #[trigger] step(cx, a, c) ==> visited[c],
        is_walk(cx, p),
        0 <= i < p.len(),
    ensures
        0 <= p[i] < visited.len() && visited[p[i]],
    decreases i,
{
    if i > 0 {
        let j = i - 1;
        lemma_walk_stays(cx, visited, p, j);
        assert(step(cx, p[j], p[j + 1]));
        lemma_step_in_range(cx, p[j], p[j + 1]);
    }
}

/// In a well-formed complex the walk over the 1-skeleton is always defined.
pub proof fn wf_walk_defined(cx: &CellComplex)
    requires
        cx.wf(),
    ensures
        walk_defined(cx@),
{
    let c = cx@;
    assert forall|b: int, e: int|
        0 <= b < vertex_ids(c).len() && #[trigger] reachable(c, b) && 0 <= e < lookup(c, vertex_ids(c)[b]).cofaces.len()
            implies ids(c).contains(#[trigger] lookup(c, vertex_ids(c)[b]).cofaces[e]) by {
        lemma_of_dim_member(c, 0, b);
        assert(vertex_ids(c)[b] == of_dim(c, 0)[b].id);
        lemma_first_pos(ids(c), vertex_ids(c)[b]);
        let ci = cell_index(c, vertex_ids(c)[b]);
        assert(c[ci].cofaces[e] == lookup(c, vertex_ids(c)[b]).cofaces[e]);
    }
}

/// Vertex position `b` is a neighbour of vertex position `a` in the 1-skeleton:
/// some cell registered among the cofaces of `a`'s cell (looked up by
/// identifier) carries `b`'s identifier among its vertex labels, at any position,
/// that identifier differs from `a`'s, and `b` is the first vertex carrying it.
/// An edge with labels u and v thus makes v a neighbour of u whenever it is a
/// coface of u, and u a neighbour of v whenever it is a coface of v.
pub open spec fn adjacent(cx: Seq<CellView>, a: int, b: int) -> bool {
    let vids = vertex_ids(cx);
    &&& 0 <= b < vids.len()
    &&& forall|j: int| 0 <= j < b ==> vids[j] != vids[b]
    &&& vids[b] != vids[a]
    &&& exists|c: usize|
        #[trigger] lookup(cx, vids[a]).cofaces.contains(c) && lookup(cx, c).vertices.contains(vids[b])
}

/// Vertex position `b` is joined to the first vertex by a chain of neighbours.
pub open spec fn linked(cx: Seq<CellView>, b: int) -> bool {
    exists|p: Seq<int>|
        #![trigger p.last(), p.len()]
        p.len() >= 1 && p[0] == 0 && p.last() == b && forall|i: int|
            0 <= i < p.len() - 1 ==> #[trigger] adjacent(cx, p[i], p[i + 1])
}

/// Every vertex is joined to the first one by a chain of neighbours (trivially
/// so with at most one vertex).
pub open spec fn all_linked(cx: Seq<CellView>) -> bool {
    let n = vertex_ids(cx).len();
    n <= 1 || forall|b: int| 0 <= b < n ==> #[trigger] linked(cx, b)
}

/// One step of the walk is exactly one neighbour relation.
proof fn lemma_step_is_adjacent(cx: Seq<CellView>, a: int, b: int)
    ensures
        step(cx, a, b) == adjacent(cx, a, b),
{
    let vids = vertex_ids(cx);
    let v = lookup(cx, vids[a]);
    if step(cx, a, b) {
        let (e, w) = choose|e: int, w: int|
            0 <= e < lookup(cx, vertex_ids(cx)[a]).cofaces.len() && 0 <= w < lookup(
                cx,
                lookup(cx, vertex_ids(cx)[a]).cofaces[e],
            ).vertices.len() && b >= 0 && #[trigger] neighbour(cx, a, e, w) == b;
        let c = v.cofaces[e];
        let other = lookup(cx, c).vertices[w];
        lemma_first_pos(vids, other);
        assert(v.cofaces.contains(c));
        assert(lookup(cx, c).vertices.contains(vids[b]));
    }
    if adjacent(cx, a, b) {
        let c = choose|c: usize| #[trigger] v.cofaces.contains(c) && lookup(cx, c).vertices.contains(vids[b]);
        let e = choose|e: int| 0 <= e < v.cofaces.len() && v.cofaces[e] == c;
        let w = choose|w: int| 0 <= w < lookup(cx, c).vertices.len() && lookup(cx, c).vertices[w] == vids[b];
        lemma_first_pos_at(vids, vids[b], b);
        assert(neighbour(cx, a, e, w) == b);
    }
}

/// The 1-skeleton is connected exactly when every vertex is joined to the first
/// one by a chain of neighbours, where a coface links its vertex labels.
pub proof fn connected_iff_all_linked(cx: Seq<CellView>)
    ensures
        connected(cx) == all_linked(cx),
{
    let n = vertex_ids(cx).len();
    assert forall|b: int| reachable(cx, b) == linked(cx, b) by {
        if reachable(cx, b) {
            let p = choose|p: Seq<int>| #[trigger] is_walk(cx, p) && p.last() == b;
            assert forall|i: int| 0 <= i < p.len() - 1 implies #[trigger] adjacent(cx, p[i], p[i + 1]) by {
                assert(step(cx, p[i], p[i + 1]));
                lemma_step_is_adjacent(cx, p[i], p[i + 1]);
            }
            assert(p.len() >= 1 && p[0] == 0 && p.last() == b);
        }
        if linked(cx, b) {
            let p = choose|p: Seq<int>|
                #![trigger p.last(), p.len()]
                p.len() >= 1 && p[0] == 0 && p.last() == b && forall|i: int|
                    0 <= i < p.len() - 1 ==> #[trigger] adjacent(cx, p[i], p[i + 1]);
            assert forall|i: int| 0 <= i < p.len() - 1 implies #[trigger] step(cx, p[i], p[i + 1]) by {
                assert(adjacent(cx, p[i], p[i + 1]));
                lemma_step_is_adjacent(cx, p[i], p[i + 1]);
            }
            assert(is_walk(cx, p));
        }
    }
}

/// A cell registered as a coface of two vertices and carrying both their
/// labels links them both ways: each is reached from the other in one step.
pub proof fn coface_links_both_ways(cx: Seq<CellView>, a: int, b: int, c: usize)
    requires
        0 <= a < vertex_ids(cx).len(),
        0 <= b < vertex_ids(cx).len(),
        vertex_ids(cx)[a] != vertex_ids(cx)[b],
        forall|j: int| 0 <= j < a ==> vertex_ids(cx)[j] != vertex_ids(cx)[a],
        forall|j: int| 0 <= j < b ==> vertex_ids(cx)[j] != vertex_ids(cx)[b],
        lookup(cx, vertex_ids(cx)[a]).cofaces.contains(c),
        lookup(cx, vertex_ids(cx)[b]).cofaces.contains(c),
        lookup(cx, c).vertices.contains(vertex_ids(cx)[a]),
        lookup(cx, c).vertices.contains(vertex_ids(cx)[b]),
    ensures
        step(cx, a, b),
        step(cx, b, a),
{
    assert(adjacent(cx, a, b));
    assert(adjacent(cx, b, a));
    lemma_step_is_adjacent(cx, a, b);
    lemma_step_is_adjacent(cx, b, a);
}

/// First position of `x` in `v`.
fn position(v: &Vec<usize>, x: usize) -> (r: Option<usize>)
    ensures
        match r {
            Some(i) => i < v@.len() && i == first_pos(v@, x),
            None => first_pos(v@, x) == -1,
        },
{
    let mut i: usize = 0;
    while i < v.len()
        invariant
            i <= v@.len(),
            forall|j: int| 0 <= j < i ==> v@[j] != x,
        decreases v@.len() - i,
    {
        if v[i] == x {
            proof {
                lemma_first_pos_at(v@, x, i as int);
            }
            return Some(i);
        }
        i += 1;
    }
    proof {
        lemma_first_pos(v@, x);
        if first_pos(v@, x) >= 0 {
            assert(v@[first_pos(v@, x)] == x);
        }
    }
    None
}

impl CellComplex {
    /// Whether the 1-skeleton is connected: starting from the first vertex and
    /// moving from a vertex through its cofaces to their other vertex labels
    /// (each label standing for the first vertex with that identifier), every
    /// vertex is reached. A complex with at most one vertex is connected.
    pub fn is_connected(&self) -> (r: bool)
        requires
            walk_defined(self@),
        ensures
            r == connected(self@),
            r == all_linked(self@),
    {
        proof {
            connected_iff_all_linked(self@);
        }
        let ghost cx = self@;
        let ghost vids = vertex_ids(cx);
        let vertices = self.cells_of_dimension(0);
        if vertices.len() == 0 {
            return true;
        }
        let n = vertices.len();
        if n == 1 {
            return true;
        }
        let mut v_ids: Vec<usize> = Vec::new();
        let mut visited: Vec<bool> = Vec::new();
        let mut i: usize = 0;
        while i < n
            invariant
                n == vertices@.len(),
                vertices@.len() == of_dim(cx, 0).len(),
                forall|j: int| 0 <= j < vertices@.len() ==> #[trigger] vertices@[j]@ == of_dim(cx, 0)[j],
                i <= n,
                self@ == cx,
                vids == vertex_ids(cx),
                v_ids@.len() == i,
                visited@.len() == i,
                forall|j: int| 0 <= j < i ==> v_ids@[j] == vids[j],
                forall|j: int| 0 <= j < i ==> !visited@[j],
            decreases n - i,
        {
            assert(vertices@[i as int]@ == of_dim(cx, 0)[i as int]);
            assert(vids[i as int] == of_dim(cx, 0)[i as int].id);
            v_ids.push(vertices[i].id);
            visited.push(false);
            i += 1;
        }
        assert(v_ids@ =~= vids);
        let mut stack: Vec<usize> = Vec::new();
        stack.push(0);
        assert(stack@[0] == 0);
        proof {
            let p = seq![0int];
            assert(is_walk(cx, p));
            assert(reachable(cx, 0));
        }
        loop
            invariant_except_break
                forall|s: int| 0 <= s < stack@.len() ==> #[trigger] stack@[s] < n && reachable(cx, stack@[s] as int),
            invariant
                self@ == cx,
                walk_defined(cx),
                vids == vertex_ids(cx),
                vids.len() == of_dim(cx, 0).len(),
                n == vids.len(),
                n >= 2,
                v_ids@ == vids,
                visited@.len() == n,
                forall|j: int| 0 <= j < n && #[trigger] visited@[j] ==> reachable(cx, j),
                visited@[0] || stack@.contains(0),
                forall|a: int, b: int|
                    0 <= a < n && visited@[a] && #[trigger] step(cx, a, b) ==> visited@[b] || stack@.contains(
                        b as usize,
                    ),
            ensures
                stack@.len() == 0,
            decreases unvisited(visited@), stack@.len(),
        {
            let ghost old_stack = stack@;
            let popped = stack.pop();
            let idx = match popped {
                None => {
                    break;
                },
                Some(idx) => idx,
            };
            assert(old_stack == stack@.push(idx));
            assert(forall|s: int| 0 <= s < stack@.len() ==> stack@[s] == old_stack[s]);
            assert(reachable(cx, idx as int)) by {
                assert(old_stack[old_stack.len() - 1] == idx);
            }
            if visited[idx] {
                proof {
                    assert forall|a: int, b: int|
                        0 <= a < n && visited@[a] && #[trigger] step(cx, a, b) implies visited@[b] || stack@.contains(
                        b as usize,
                    ) by {
                        lemma_step_in_range(cx, a, b);
                        if !visited@[b] {
                            let s = choose|s: int| 0 <= s < old_stack.len() && old_stack[s] == b as usize;
                            if s == old_stack.len() - 1 {
                                assert(b == idx as int);
                            } else {
                                assert(stack@[s] == b as usize);
                            }
                        }
                    }
                    if !visited@[0] {
                        let s = choose|s: int| 0 <= s < old_stack.len() && old_stack[s] == 0usize;
                        if s == old_stack.len() - 1 {
                            assert(idx == 0);
                        } else {
                            assert(stack@[s] == 0usize);
                        }
                    }
                }
                continue;
            }
            let ghost before_mark = visited@;
            visited.set(idx, true);
            proof {
                lemma_unvisited_mark(before_mark, idx as int);
            }
            let v_id = v_ids[idx];
            proof {
                lemma_of_dim_member(cx, 0, idx as int);
                assert(ids(of_dim(cx, 0))[idx as int] == v_id);
                lemma_first_pos(ids(cx), v_id);
            }
            let vertex = self.cell(v_id).unwrap();
            assert(vertex@ == lookup(cx, vids[idx as int]));
            let mut e: usize = 0;
            while e < vertex.cofaces.len()
                invariant
                    self@ == cx,
                    walk_defined(cx),
                    n >= 2,
                    vids == vertex_ids(cx),
                    n == vids.len(),
                    v_ids@ == vids,
                    v_id == vids[idx as int],
                    idx < n,
                    vertex@ == lookup(cx, vids[idx as int]),
                    0 <= cell_index(cx, v_id) < cx.len(),
                    e <= vertex.cofaces@.len(),
                    visited@.len() == n,
                    forall|j: int| 0 <= j < n && #[trigger] visited@[j] ==> reachable(cx, j),
                    reachable(cx, idx as int),
                    forall|s: int| 0 <= s < stack@.len() ==> #[trigger] stack@[s] < n && reachable(cx, stack@[s] as int),
                    forall|e2: int, w: int|
                        0 <= e2 < e && 0 <= w < lookup(cx, vertex@.cofaces[e2]).vertices.len()
                            && #[trigger] neighbour(cx, idx as int, e2, w) >= 0 ==> visited@[neighbour(cx, idx as int, e2, w)]
                            || stack@.contains(neighbour(cx, idx as int, e2, w) as usize),
                    forall|s: int| 0 <= s < old_stack.len() - 1 ==> stack@.contains(#[trigger] old_stack[s]),
                    visited@ == before_mark.update(idx as int, true),
                decreases vertex.cofaces@.len() - e,
            {
                let edge_id = vertex.cofaces[e];
                proof {
                    let ci = cell_index(cx, v_id);
                    assert(0 <= ci < cx.len());
                    assert(cx[ci].cofaces[e as int] == edge_id);
                    assert(lookup(cx, vertex_ids(cx)[idx as int]).cofaces[e as int] == edge_id);
                    assert(reachable(cx, idx as int));
                    assert(ids(cx).contains(edge_id));
                    lemma_first_pos(ids(cx), edge_id);
                }
                let edge = self.cell(edge_id).unwrap();
                let mut w: usize = 0;
                while w < edge.vertices.len()
                    invariant
                        self@ == cx,
                        vids == vertex_ids(cx),
                        n == vids.len(),
                        v_ids@ == vids,
                        v_id == vids[idx as int],
                        idx < n,
                        vertex@ == lookup(cx, vids[idx as int]),
                        e < vertex.cofaces@.len(),
                        edge_id == vertex@.cofaces[e as int],
                        edge@ == lookup(cx, edge_id),
                        w <= edge.vertices@.len(),
                        visited@.len() == n,
                        forall|j: int| 0 <= j < n && #[trigger] visited@[j] ==> reachable(cx, j),
                        reachable(cx, idx as int),
                        forall|s: int| 0 <= s < stack@.len() ==> #[trigger] stack@[s] < n && reachable(cx, stack@[s] as int),
                        forall|e2: int, w2: int|
                            0 <= e2 < e && 0 <= w2 < lookup(cx, vertex@.cofaces[e2]).vertices.len()
                                && #[trigger] neighbour(cx, idx as int, e2, w2) >= 0 ==> visited@[neighbour(cx, idx as int, e2, w2)]
                                || stack@.contains(neighbour(cx, idx as int, e2, w2) as usize),
                        forall|w2: int|
                            0 <= w2 < w && #[trigger] neighbour(cx, idx as int, e as int, w2) >= 0 ==> visited@[neighbour(cx, idx as int, e as int, w2)]
                                || stack@.contains(neighbour(cx, idx as int, e as int, w2) as usize),
                        forall|s: int| 0 <= s < old_stack.len() - 1 ==> stack@.contains(#[trigger] old_stack[s]),
                        visited@ == before_mark.update(idx as int, true),
                    decreases edge.vertices@.len() - w,
                {
                    let other_v = edge.vertices[w];
                    let ghost pre_stack = stack@;
                    if other_v != v_id {
                        match position(&v_ids, other_v) {
                            Some(other_idx) => {
                                if !visited[other_idx] {
                                    assert(neighbour(cx, idx as int, e as int, w as int) == other_idx);
                                    assert(step(cx, idx as int, other_idx as int));
                                    proof {
                                        lemma_reachable_step(cx, idx as int, other_idx as int);
                                    }
                                    stack.push(other_idx);
                                    assert(stack@[stack@.len() - 1] == other_idx);
                                }
                            },
                            None => {},
                        }
                    }
                    proof {
                        assert forall|x: usize| pre_stack.contains(x) implies stack@.contains(x) by {
                            let s = choose|s: int| 0 <= s < pre_stack.len() && pre_stack[s] == x;
                            assert(stack@[s] == x);
                        }
                        lemma_first_pos(vids, other_v);
                    }
                    w += 1;
                }
                e += 1;
            }
            proof {
                assert forall|a: int, b: int|
                    0 <= a < n && visited@[a] && #[trigger] step(cx, a, b) implies visited@[b] || stack@.contains(
                    b as usize,
                ) by {
                    if a == idx as int {
                        let (e2, w2) = choose|e2: int, w2: int|
                            0 <= e2 < lookup(cx, vertex_ids(cx)[a]).cofaces.len() && 0 <= w2 < lookup(
                                cx,
                                lookup(cx, vertex_ids(cx)[a]).cofaces[e2],
                            ).vertices.len() && b >= 0 && #[trigger] neighbour(cx, a, e2, w2) == b;
                        assert(neighbour(cx, idx as int, e2, w2) >= 0);
                    } else {
                        assert(before_mark[a]);
                        lemma_step_in_range(cx, a, b);
                        if !visited@[b] {
                            assert(b != idx as int);
                            assert(!before_mark[b]);
                            assert(old_stack.contains(b as usize));
                            let s = choose|s: int| 0 <= s < old_stack.len() && old_stack[s] == b as usize;
                            assert(s < old_stack.len() - 1);
                        }
                    }
                }
                if !visited@[0] {
                    assert(old_stack.contains(0usize));
                    let s = choose|s: int| 0 <= s < old_stack.len() && old_stack[s] == 0usize;
                    if s == old_stack.len() - 1 {
                        assert(idx == 0);
                    } else {
                        assert(stack@.contains(old_stack[s]));
                    }
                }
            }
        }
        proof {
            assert forall|a: int, c: int| 0 <= a < visited@.len() && visited@[a] && #[trigger] step(cx, a, c)
                implies visited@[c] by {
                lemma_step_in_range(cx, a, c);
                assert(!stack@.contains(c as usize));
            }
        }
        let mut all = true;
        let mut k: usize = 0;
        while k < n
            invariant
                k <= n,
                n == visited@.len(),
                all == forall|j: int| 0 <= j < k ==> #[trigger] visited@[j],
            decreases n - k,
        {
            if !visited[k] {
                all = false;
            }
            k += 1;
        }
        proof {
            if all {
                assert forall|b: int| 0 <= b < n implies #[trigger] reachable(cx, b) by {
                    assert(visited@[b]);
                }
            } else {
                let j = choose|j: int| 0 <= j < n && !visited@[j];
                if reachable(cx, j) {
                    lemma_closed_holds_reachable(cx, visited@, j);
                }
            }
        }
        all
    }
}

} // verus!
