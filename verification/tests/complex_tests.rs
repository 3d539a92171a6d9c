use sheaf_cohomology::{circle_complex, tetrahedron_complex, triangle_complex};
use sheaf_cohomology::{Cell, CellComplex, IncidenceMatrix};

/// Rank over the reals of an integer matrix, by Gaussian elimination.
fn rank(m: &IncidenceMatrix) -> usize {
    let mut a: Vec<Vec<f64>> = m
        .data
        .iter()
        .map(|row| row.iter().map(|&v| v as f64).collect())
        .collect();
    let nrows = a.len();
    let mut r = 0;
    for col in 0..m.cols {
        let pivot = (r..nrows).find(|&i| a[i][col].abs() > 1e-12);
        let p = match pivot {
            Some(p) => p,
            None => continue,
        };
        a.swap(r, p);
        let s = a[r][col];
        for j in 0..m.cols {
            a[r][j] /= s;
        }
        for i in 0..nrows {
            if i != r && a[i][col].abs() > 1e-12 {
                let f = a[i][col];
                for j in 0..m.cols {
                    a[i][j] -= f * a[r][j];
                }
            }
        }
        r += 1;
    }
    r
}

/// Ranks of ∂_0 … ∂_{dimension+1}.
fn boundary_ranks(cx: &CellComplex) -> Vec<usize> {
    (0..=cx.dimension + 1).map(|k| rank(&cx.boundary_matrix(k))).collect()
}

fn betti(cx: &CellComplex) -> Vec<usize> {
    cx.betti_numbers(&boundary_ranks(cx))
}

fn alternating(b: &[usize]) -> i32 {
    b.iter()
        .enumerate()
        .map(|(k, &x)| if k % 2 == 0 { x as i32 } else { -(x as i32) })
        .sum()
}

fn product(a: &IncidenceMatrix, b: &IncidenceMatrix) -> Vec<Vec<i64>> {
    assert_eq!(a.cols, b.rows);
    let mut out = vec![vec![0i64; b.cols]; a.rows];
    for i in 0..a.rows {
        for j in 0..b.cols {
            for k in 0..a.cols {
                out[i][j] += a.data[i][k] as i64 * b.data[k][j] as i64;
            }
        }
    }
    out
}

#[test]
fn test_triangle_complex_cells() {
    let cx = triangle_complex();
    assert_eq!(cx.num_cells(0), 3);
    assert_eq!(cx.num_cells(1), 3);
    assert_eq!(cx.num_cells(2), 1);
    assert_eq!(cx.dimension, 2);
}

#[test]
fn test_tetrahedron_complex_cells() {
    let cx = tetrahedron_complex();
    assert_eq!(cx.num_cells(0), 4);
    assert_eq!(cx.num_cells(1), 6);
    assert_eq!(cx.num_cells(2), 4);
    assert_eq!(cx.dimension, 2);
}

#[test]
fn test_circle_complex_cells() {
    let cx = circle_complex(5);
    assert_eq!(cx.num_cells(0), 5);
    assert_eq!(cx.num_cells(1), 5);
    assert_eq!(cx.dimension, 1);
}

#[test]
fn test_euler_characteristic_triangle() {
    let cx = triangle_complex();
    assert_eq!(cx.euler_characteristic(), 1);
}

#[test]
fn test_euler_characteristic_tetrahedron() {
    let cx = tetrahedron_complex();
    assert_eq!(cx.euler_characteristic(), 2);
}

#[test]
fn test_euler_characteristic_circle() {
    let cx = circle_complex(5);
    assert_eq!(cx.euler_characteristic(), 0);
}

#[test]
fn test_betti_triangle() {
    let cx = triangle_complex();
    let betti = betti(&cx);
    assert_eq!(betti[0], 1, "β₀ should be 1");
    assert_eq!(betti[1], 0, "β₁ should be 0 for filled triangle");
}

#[test]
fn test_betti_circle() {
    let cx = circle_complex(5);
    let betti = betti(&cx);
    assert_eq!(betti[0], 1, "β₀ should be 1");
    assert_eq!(betti[1], 1, "β₁ should be 1");
}

#[test]
fn test_betti_tetrahedron() {
    let cx = tetrahedron_complex();
    let betti = betti(&cx);
    assert_eq!(betti[0], 1, "β₀ should be 1");
    assert_eq!(betti[1], 0, "β₁ should be 0");
    assert_eq!(betti[2], 1, "β₂ should be 1");
}

#[test]
fn test_is_connected_triangle() {
    assert!(triangle_complex().is_connected());
}

#[test]
fn test_is_connected_tetrahedron() {
    assert!(tetrahedron_complex().is_connected());
}

#[test]
fn test_is_connected_circle() {
    assert!(circle_complex(4).is_connected());
}

#[test]
fn test_boundary_matrix_triangle() {
    let cx = triangle_complex();
    let d1 = cx.boundary_matrix(1);
    assert_eq!(d1.rows, 3);
    assert_eq!(d1.cols, 3);
    assert_eq!(rank(&d1), 2);
}

#[test]
fn test_coboundary_matrix_circle() {
    let cx = circle_complex(4);
    let d1 = cx.coboundary_matrix(0);
    assert_eq!(d1.rows, 4);
    assert_eq!(d1.cols, 4);
}

#[test]
fn test_cell_creation() {
    let c = Cell::new(0, 1, vec![0, 1]);
    assert_eq!(c.id, 0);
    assert_eq!(c.dimension, 1);
    assert_eq!(c.vertices, vec![0, 1]);
    assert!(c.faces.is_empty());
    assert!(c.cofaces.is_empty());
}

#[test]
fn test_cell_cofaces() {
    let cx = triangle_complex();
    let v0 = cx.cell(0).unwrap();
    assert!(v0.cofaces.contains(&3));
    assert!(v0.cofaces.contains(&5));
}

#[test]
fn test_euler_characteristic_equals_alternating_betti_sum() {
    let cx = tetrahedron_complex();
    let chi = cx.euler_characteristic();
    let betti = betti(&cx);
    let betti_sum = alternating(&betti);
    assert_eq!(chi, betti_sum, "Euler characteristic should equal alternating sum of Betti numbers");
}

#[test]
fn test_euler_characteristic_circle_equals_betti_sum() {
    let cx = circle_complex(6);
    let chi = cx.euler_characteristic();
    let betti = betti(&cx);
    assert_eq!(chi, alternating(&betti));
}

#[test]
fn test_boundary_squared_zero() {
    let cx = tetrahedron_complex();
    let d1 = cx.boundary_matrix(1);
    let d2 = cx.boundary_matrix(2);
    for row in product(&d1, &d2) {
        for v in row {
            assert_eq!(v, 0, "∂₁∘∂₂ should be 0, got {}", v);
        }
    }
    let tri = triangle_complex();
    let td1 = tri.boundary_matrix(1);
    let td2 = tri.boundary_matrix(2);
    for row in product(&td1, &td2) {
        for v in row {
            assert_eq!(v, 0, "∂₁∘∂₂ should be 0 for triangle, got {}", v);
        }
    }
}

#[test]
fn test_circle_euler_equals_betti() {
    let cx = circle_complex(7);
    assert_eq!(cx.euler_characteristic(), 0);
    let betti = betti(&cx);
    assert_eq!(cx.euler_characteristic(), alternating(&betti));
}
