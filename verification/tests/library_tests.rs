use sheaf_cohomology::{circle_complex, tetrahedron_complex, triangle_complex};
use sheaf_cohomology::{Cell, CellComplex, CellularSheaf, CoboundaryBlock, IncidenceMatrix};

fn matrix(m: &IncidenceMatrix) -> Vec<Vec<i8>> {
    m.data.clone()
}

#[test]
fn test_constant_sheaf_stalks() {
    let cx = triangle_complex();
    let sheaf = CellularSheaf::with_uniform_stalks(cx.clone(), 1);
    for cell in &cx.cells {
        assert_eq!(sheaf.stalk_dimension(cell.id), 1);
    }
}

#[test]
fn test_total_stalk_dimension() {
    let cx = triangle_complex();
    let sheaf = CellularSheaf::with_uniform_stalks(cx, 1);
    assert_eq!(sheaf.total_stalk_dimension(0), 3);
    assert_eq!(sheaf.total_stalk_dimension(1), 3);
    assert_eq!(sheaf.total_stalk_dimension(2), 1);
}

#[test]
fn stalk_dimension_defaults_to_zero_and_is_replaced() {
    let mut sheaf = CellularSheaf::new(triangle_complex());
    assert_eq!(sheaf.stalk_dimension(4), 0);
    assert_eq!(sheaf.total_stalk_dimension(1), 0);
    sheaf.set_stalk(4, 2);
    sheaf.set_stalk(4, 3);
    sheaf.set_stalk(3, 1);
    assert_eq!(sheaf.stalk_dimension(4), 3);
    assert_eq!(sheaf.total_stalk_dimension(1), 4);
    assert_eq!(sheaf.total_stalk_dimension(0), 0);
}

#[test]
fn incidence_signs_of_triangle() {
    let cx = triangle_complex();
    let t = cx.cell(6).unwrap();
    assert_eq!(cx.incidence_sign(t, 3), 1);
    assert_eq!(cx.incidence_sign(t, 4), 1);
    assert_eq!(cx.incidence_sign(t, 5), -1);
    let e = cx.cell(3).unwrap();
    assert_eq!(cx.incidence_sign(e, 0), -1);
    assert_eq!(cx.incidence_sign(e, 1), 1);
    // no cell with that identifier
    assert_eq!(cx.incidence_sign(e, 99), 1);
    // a face that misses two vertices
    assert_eq!(cx.incidence_sign(t, 0), 1);
}

#[test]
fn boundary_matrices_of_triangle() {
    let cx = triangle_complex();
    let d0 = cx.boundary_matrix(0);
    assert_eq!((d0.rows, d0.cols), (0, 3));
    let d1 = cx.boundary_matrix(1);
    assert_eq!(matrix(&d1), vec![vec![-1, 0, -1], vec![1, -1, 0], vec![0, 1, 1]]);
    let d2 = cx.boundary_matrix(2);
    assert_eq!(matrix(&d2), vec![vec![1], vec![1], vec![-1]]);
    let d3 = cx.boundary_matrix(3);
    assert_eq!((d3.rows, d3.cols), (1, 0));
    let c1 = cx.coboundary_matrix(1);
    assert_eq!(matrix(&c1), vec![vec![1, 1, -1]]);
    assert_eq!(d1.get(2, 2), 1);
}

#[test]
fn boundary_row_goes_to_last_cell_with_the_face_identifier() {
    let mut cx = CellComplex::new();
    cx.add_cell(0, 0, vec![0], vec![]);
    cx.add_cell(0, 0, vec![5], vec![]);
    cx.add_cell(1, 0, vec![1], vec![]);
    cx.add_cell(2, 1, vec![0, 1], vec![0, 1, 0]);
    let d1 = cx.boundary_matrix(1);
    assert_eq!(matrix(&d1), vec![vec![0], vec![-1], vec![1]]);
    // the face is looked up as the first cell with identifier 0
    assert_eq!(cx.cell(0).unwrap().cofaces, vec![2, 2]);
    assert!(cx.cells[1].cofaces.is_empty());
}

#[test]
fn transpose_swaps_indices() {
    let cx = tetrahedron_complex();
    let d2 = cx.boundary_matrix(2);
    let t = d2.transpose();
    assert_eq!((t.rows, t.cols), (d2.cols, d2.rows));
    for i in 0..d2.rows {
        for j in 0..d2.cols {
            assert_eq!(t.get(j, i), d2.get(i, j));
        }
    }
    let z = IncidenceMatrix::zeros(2, 3);
    assert_eq!(matrix(&z), vec![vec![0, 0, 0], vec![0, 0, 0]]);
}

#[test]
fn betti_numbers_from_ranks() {
    let cx = triangle_complex();
    assert_eq!(cx.betti_numbers(&vec![0, 2, 1, 0]), vec![1, 0, 0]);
    // nullity and Betti number are cut off at zero
    assert_eq!(cx.betti_numbers(&vec![0, 5, 0, 0]), vec![0, 0, 1]);
    let circ = circle_complex(5);
    assert_eq!(circ.betti_numbers(&vec![0, 4, 0]), vec![1, 1]);
}

#[test]
fn euler_equals_alternating_betti_for_chain_ranks() {
    let cx = tetrahedron_complex();
    let b = cx.betti_numbers(&vec![0, 3, 3, 0]);
    assert_eq!(b, vec![1, 0, 1]);
    assert_eq!(cx.euler_characteristic(), b[0] as i32 - b[1] as i32 + b[2] as i32);
}

#[test]
fn connectivity_edge_cases() {
    assert!(CellComplex::new().is_connected());
    let mut one = CellComplex::new();
    one.add_cell(7, 0, vec![7], vec![]);
    assert!(one.is_connected());
    let mut two = CellComplex::new();
    two.add_cell(0, 0, vec![0], vec![]);
    two.add_cell(1, 0, vec![1], vec![]);
    assert!(!two.is_connected());
    two.add_cell(2, 1, vec![0, 1], vec![0, 1]);
    assert!(two.is_connected());
    let mut three = CellComplex::new();
    three.add_cell(0, 0, vec![0], vec![]);
    three.add_cell(1, 0, vec![1], vec![]);
    three.add_cell(2, 0, vec![2], vec![]);
    three.add_cell(3, 1, vec![1, 2], vec![1, 2]);
    assert!(!three.is_connected());
}

#[test]
fn cell_lookup_and_modification() {
    let mut cx = triangle_complex();
    assert!(cx.cell(42).is_none());
    assert!(cx.cell_mut(42).is_none());
    cx.cell_mut(4).unwrap().vertices.push(9);
    assert_eq!(cx.cell(4).unwrap().vertices, vec![1, 2, 9]);
    assert_eq!(cx.cells[5].vertices, vec![0, 2]);
}

#[test]
fn cells_of_dimension_in_order() {
    let cx = tetrahedron_complex();
    let edges: Vec<usize> = cx.cells_of_dimension(1).iter().map(|c| c.id).collect();
    assert_eq!(edges, vec![4, 5, 6, 7, 8, 9]);
    assert!(cx.cells_of_dimension(3).is_empty());
    assert_eq!(cx.num_cells(3), 0);
}

#[test]
fn add_cell_updates_dimension_and_cofaces() {
    let mut cx = CellComplex::default();
    assert_eq!(cx.dimension, 0);
    cx.add_cell(0, 0, vec![0], vec![]);
    cx.add_cell(1, 2, vec![0], vec![0, 0, 8]);
    assert_eq!(cx.dimension, 2);
    cx.add_cell(2, 1, vec![0], vec![1]);
    assert_eq!(cx.dimension, 2);
    assert_eq!(cx.cells[0].cofaces, vec![1, 1]);
    assert_eq!(cx.cells[1].cofaces, vec![2]);
    assert_eq!(cx.cells[1].faces, vec![0, 0, 8]);
}

#[test]
fn circle_structure() {
    let cx = circle_complex(4);
    assert_eq!(cx.cells.len(), 8);
    assert_eq!(cx.cell(0).unwrap().cofaces, vec![4, 7]);
    assert_eq!(cx.cell(2).unwrap().cofaces, vec![5, 6]);
    assert_eq!(cx.cell(7).unwrap().faces, vec![3, 0]);
    assert_eq!(cx.euler_characteristic(), 0);
}

#[test]
fn tetrahedron_structure() {
    let cx = tetrahedron_complex();
    assert_eq!(cx.cell(0).unwrap().cofaces, vec![4, 5, 6]);
    assert_eq!(cx.cell(9).unwrap().cofaces, vec![12, 13]);
    assert!(cx.cell(13).unwrap().cofaces.is_empty());
}

#[test]
fn face_chains_of_triangle() {
    let cx = triangle_complex();
    assert_eq!(
        cx.face_chains(),
        vec![(6, 3, 0), (6, 3, 1), (6, 4, 1), (6, 4, 2), (6, 5, 0), (6, 5, 2)]
    );
}

#[test]
fn incidences_of_triangle() {
    let cx = triangle_complex();
    assert_eq!(
        cx.incidences(),
        vec![
            (0, 3, -1),
            (1, 3, 1),
            (1, 4, -1),
            (2, 4, 1),
            (0, 5, -1),
            (2, 5, 1),
            (3, 6, 1),
            (4, 6, 1),
            (5, 6, -1)
        ]
    );
}

#[test]
fn coboundary_blocks_of_constant_stalks() {
    let cx = triangle_complex();
    let mut sheaf = CellularSheaf::with_uniform_stalks(cx, 1);
    sheaf.set_stalk(1, 2);
    let blocks = sheaf.coboundary_blocks(0);
    let expect = vec![
        CoboundaryBlock { sigma: 0, tau: 3, row_offset: 0, col_offset: 0, rows: 1, cols: 1, sign: -1 },
        CoboundaryBlock { sigma: 1, tau: 3, row_offset: 0, col_offset: 1, rows: 1, cols: 2, sign: 1 },
        CoboundaryBlock { sigma: 1, tau: 4, row_offset: 1, col_offset: 1, rows: 1, cols: 2, sign: -1 },
        CoboundaryBlock { sigma: 2, tau: 4, row_offset: 1, col_offset: 3, rows: 1, cols: 1, sign: 1 },
        CoboundaryBlock { sigma: 0, tau: 5, row_offset: 2, col_offset: 0, rows: 1, cols: 1, sign: -1 },
        CoboundaryBlock { sigma: 2, tau: 5, row_offset: 2, col_offset: 3, rows: 1, cols: 1, sign: 1 },
    ];
    assert_eq!(blocks, expect);
    let top = sheaf.coboundary_blocks(1);
    assert_eq!(top.len(), 3);
    assert_eq!(top[2], CoboundaryBlock { sigma: 5, tau: 6, row_offset: 0, col_offset: 2, rows: 1, cols: 1, sign: -1 });
}

#[test]
fn cell_new_has_no_relations() {
    let c = Cell::new(3, 2, vec![4, 5, 6]);
    assert_eq!((c.id, c.dimension), (3, 2));
    assert_eq!(c.vertices, vec![4, 5, 6]);
    assert!(c.faces.is_empty() && c.cofaces.is_empty());
}
