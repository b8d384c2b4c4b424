use geospatial::{
    edges_to_multilinestring, marching_squares, AssembleError, Coord, Edge, Grid,
};

fn c(x: usize, y: usize) -> Coord {
    Coord { x, y }
}

fn e(ax: usize, ay: usize, bx: usize, by: usize) -> Edge {
    Edge {
        a: c(ax, ay),
        b: c(bx, by),
    }
}

fn grid_of(rows: Vec<Vec<u64>>) -> Grid {
    Grid::new(rows).unwrap()
}

#[test]
fn grid_new_rejects_empty_and_ragged_input() {
    assert!(Grid::new(vec![]).is_none());
    assert!(Grid::new(vec![vec![]]).is_none());
    assert!(Grid::new(vec![vec![1, 2], vec![3]]).is_none());
    assert!(Grid::new(vec![vec![1, 2], vec![3, 4]]).is_some());
}

#[test]
fn single_cell_grid_has_four_edges() {
    let grid = grid_of(vec![vec![1]]);
    let m = marching_squares(&grid);
    assert_eq!(
        m.get(1).unwrap(),
        &vec![e(0, 0, 1, 0), e(0, 1, 1, 1), e(0, 0, 0, 1), e(1, 0, 1, 1)]
    );
    assert!(m.get(0).is_none());
}

#[test]
fn one_row_grid_edges() {
    let grid = grid_of(vec![vec![1, 1]]);
    let m = marching_squares(&grid);
    assert_eq!(
        m.get(1).unwrap(),
        &vec![
            e(0, 0, 1, 0),
            e(0, 1, 1, 1),
            e(1, 0, 2, 0),
            e(1, 1, 2, 1),
            e(0, 0, 0, 1),
            e(2, 0, 2, 1),
        ]
    );
}

#[test]
fn two_by_two_grid_edges_for_both_labels() {
    let grid = grid_of(vec![vec![1, 1], vec![2, 1]]);
    let m = marching_squares(&grid);
    assert_eq!(
        m.get(1).unwrap(),
        &vec![
            e(0, 0, 1, 0),
            e(1, 0, 2, 0),
            e(1, 2, 2, 2),
            e(0, 0, 0, 1),
            e(2, 0, 2, 1),
            e(2, 1, 2, 2),
            e(0, 1, 1, 1),
            e(1, 1, 1, 2),
        ]
    );
    assert_eq!(
        m.get(2).unwrap(),
        &vec![e(0, 2, 1, 2), e(0, 1, 0, 2), e(0, 1, 1, 1), e(1, 1, 1, 2)]
    );
}

#[test]
fn interior_cell_surrounded_by_same_label_contributes_no_edge() {
    let grid = grid_of(vec![vec![1, 1, 1], vec![1, 1, 1], vec![1, 1, 1]]);
    let m = marching_squares(&grid);
    let edges = m.get(1).unwrap();
    // only the 12 outer border edges of the 3x3 block
    assert_eq!(edges.len(), 12);
    for edge in edges.iter() {
        assert!(edge.a.x == 0 || edge.a.y == 0 || edge.b.x == 3 || edge.b.y == 3);
    }
}

#[test]
fn larger_grid_edges_match_region_boundaries() {
    let grid = grid_of(vec![
        vec![4, 1, 1, 2],
        vec![1, 1, 2, 3],
        vec![1, 2, 2, 2],
    ]);
    let m = marching_squares(&grid);
    assert_eq!(
        m.get(4).unwrap(),
        &vec![e(0, 0, 1, 0), e(0, 0, 0, 1), e(1, 0, 1, 1), e(0, 1, 1, 1)]
    );
    assert_eq!(
        m.get(3).unwrap(),
        &vec![e(4, 1, 4, 2), e(3, 1, 3, 2), e(3, 1, 4, 1), e(3, 2, 4, 2)]
    );
    assert_eq!(
        m.get(2).unwrap(),
        &vec![
            e(1, 3, 2, 3),
            e(2, 3, 3, 3),
            e(3, 0, 4, 0),
            e(3, 3, 4, 3),
            e(4, 0, 4, 1),
            e(4, 2, 4, 3),
            e(3, 0, 3, 1),
            e(2, 1, 3, 1),
            e(2, 1, 2, 2),
            e(1, 2, 2, 2),
            e(3, 1, 3, 2),
            e(3, 1, 4, 1),
            e(3, 2, 4, 2),
            e(1, 2, 1, 3),
        ]
    );
    assert_eq!(
        m.get(1).unwrap(),
        &vec![
            e(0, 3, 1, 3),
            e(1, 0, 2, 0),
            e(2, 0, 3, 0),
            e(0, 1, 0, 2),
            e(0, 2, 0, 3),
            e(1, 0, 1, 1),
            e(0, 1, 1, 1),
            e(3, 0, 3, 1),
            e(2, 1, 3, 1),
            e(2, 1, 2, 2),
            e(1, 2, 2, 2),
            e(1, 2, 1, 3),
        ]
    );
}

#[test]
fn single_cell_ring_is_the_unit_square() {
    let grid = grid_of(vec![vec![0]]);
    let m = marching_squares(&grid);
    let rings = edges_to_multilinestring(0, m.get(0).unwrap(), &grid).unwrap();
    assert_eq!(rings.len(), 1);
    assert_eq!(
        rings[0],
        vec![c(0, 0), c(0, 1), c(1, 1), c(1, 0), c(0, 0)]
    );
}

#[test]
fn l_shaped_region_yields_one_ring() {
    let grid = grid_of(vec![vec![0, 1], vec![1, 1]]);
    let m = marching_squares(&grid);
    let rings = edges_to_multilinestring(0, m.get(0).unwrap(), &grid).unwrap();
    assert_eq!(rings.len(), 1);
    assert_eq!(
        rings[0],
        vec![c(0, 0), c(0, 1), c(1, 1), c(1, 0), c(0, 0)]
    );
}

#[test]
fn full_grid_ring_walks_the_whole_border() {
    let grid = grid_of(vec![vec![1, 1], vec![1, 1]]);
    let m = marching_squares(&grid);
    let rings = edges_to_multilinestring(1, m.get(1).unwrap(), &grid).unwrap();
    assert_eq!(rings.len(), 1);
    assert_eq!(
        rings[0],
        vec![
            c(0, 0),
            c(0, 1),
            c(0, 2),
            c(1, 2),
            c(2, 2),
            c(2, 1),
            c(2, 0),
            c(1, 0),
            c(0, 0),
        ]
    );
}

#[test]
fn knot_grid_yields_four_separate_rings() {
    let grid = grid_of(vec![vec![0, 1, 0], vec![1, 0, 1], vec![0, 1, 0]]);
    let m = marching_squares(&grid);
    let rings = edges_to_multilinestring(1, m.get(1).unwrap(), &grid).unwrap();
    assert_eq!(rings.len(), 4);
    assert_eq!(
        rings[0],
        vec![c(1, 0), c(1, 1), c(2, 1), c(2, 0), c(1, 0)]
    );
    assert_eq!(
        rings[1],
        vec![c(1, 3), c(1, 2), c(2, 2), c(2, 3), c(1, 3)]
    );
    assert_eq!(
        rings[2],
        vec![c(0, 1), c(1, 1), c(1, 2), c(0, 2), c(0, 1)]
    );
    assert_eq!(
        rings[3],
        vec![c(3, 1), c(2, 1), c(2, 2), c(3, 2), c(3, 1)]
    );
}

#[test]
fn every_ring_is_closed_and_long_enough() {
    let grid = grid_of(vec![
        vec![4, 1, 1, 2],
        vec![1, 1, 2, 3],
        vec![1, 2, 2, 2],
    ]);
    let m = marching_squares(&grid);
    for &label in &[1u64, 2, 3, 4] {
        let rings = edges_to_multilinestring(label, m.get(label).unwrap(), &grid).unwrap();
        assert!(!rings.is_empty());
        for ring in &rings {
            assert!(ring.len() >= 5);
            assert_eq!(ring.first(), ring.last());
        }
    }
}

fn normalized(a: Coord, b: Coord) -> (usize, usize, usize, usize) {
    if (a.x, a.y) <= (b.x, b.y) {
        (a.x, a.y, b.x, b.y)
    } else {
        (b.x, b.y, a.x, a.y)
    }
}

#[test]
fn rings_consume_exactly_the_extracted_edges_for_every_label() {
    let grid = grid_of(vec![
        vec![4, 1, 1, 2],
        vec![1, 1, 2, 3],
        vec![1, 2, 2, 2],
    ]);
    let m = marching_squares(&grid);
    for i in 0..m.num_labels() {
        let label = m.label_at(i);
        let edges = m.edges_at(i);
        let rings = edges_to_multilinestring(label, edges, &grid).unwrap();
        let mut walked: Vec<(usize, usize, usize, usize)> = rings
            .iter()
            .flat_map(|r| r.windows(2).map(|w| normalized(w[0], w[1])))
            .collect();
        let mut extracted: Vec<(usize, usize, usize, usize)> =
            edges.iter().map(|edge| normalized(edge.a, edge.b)).collect();
        walked.sort();
        extracted.sort();
        assert_eq!(walked, extracted);
    }
}

#[test]
fn chained_knots_keep_components_separate() {
    // label 1 has three components: two single cells and a strip, touching
    // only at two knot vertices
    let grid = grid_of(vec![
        vec![1, 0, 0, 1],
        vec![2, 1, 0, 1],
        vec![0, 2, 1, 1],
    ]);
    let m = marching_squares(&grid);
    let rings = edges_to_multilinestring(1, m.get(1).unwrap(), &grid).unwrap();
    assert_eq!(rings.len(), 3);
    let mut walked: Vec<(usize, usize, usize, usize)> = rings
        .iter()
        .flat_map(|r| r.windows(2).map(|w| normalized(w[0], w[1])))
        .collect();
    let mut extracted: Vec<(usize, usize, usize, usize)> = m
        .get(1)
        .unwrap()
        .iter()
        .map(|edge| normalized(edge.a, edge.b))
        .collect();
    walked.sort();
    extracted.sort();
    assert_eq!(walked, extracted);
}

#[test]
fn empty_edge_list_yields_no_rings() {
    let grid = grid_of(vec![vec![3]]);
    let rings = edges_to_multilinestring(3, &vec![], &grid).unwrap();
    assert!(rings.is_empty());
}

#[test]
fn non_unit_edge_is_rejected() {
    let grid = grid_of(vec![vec![1]]);
    let edges = vec![e(0, 0, 2, 0)];
    assert_eq!(
        edges_to_multilinestring(1, &edges, &grid),
        Err(AssembleError::InvalidEdge)
    );
}

#[test]
fn edge_outside_the_lattice_is_rejected() {
    let grid = grid_of(vec![vec![1]]);
    let edges = vec![e(1, 1, 2, 1)];
    assert_eq!(
        edges_to_multilinestring(1, &edges, &grid),
        Err(AssembleError::InvalidEdge)
    );
}

#[test]
fn dangling_edge_is_not_a_manifold_boundary() {
    let grid = grid_of(vec![vec![1]]);
    let edges = vec![e(0, 0, 1, 0)];
    assert_eq!(
        edges_to_multilinestring(1, &edges, &grid),
        Err(AssembleError::NonManifold)
    );
}

#[test]
fn duplicated_edge_is_not_a_manifold_boundary() {
    let grid = grid_of(vec![vec![1]]);
    let edges = vec![
        e(0, 0, 1, 0),
        e(0, 1, 1, 1),
        e(0, 0, 0, 1),
        e(1, 0, 1, 1),
        e(0, 0, 1, 0),
    ];
    assert_eq!(
        edges_to_multilinestring(1, &edges, &grid),
        Err(AssembleError::NonManifold)
    );
}

#[test]
fn knot_routing_against_a_foreign_label_fails_consistency() {
    // the edge set bounds the two label-1 cells of this grid; asking for a
    // label that appears nowhere sends the trace around the knot the wrong
    // way, which can never consume the whole edge set
    let grid = grid_of(vec![vec![1, 0], vec![0, 1]]);
    let m = marching_squares(&grid);
    let edges = m.get(1).unwrap();
    assert_eq!(
        edges_to_multilinestring(7, edges, &grid),
        Err(AssembleError::Inconsistent)
    );
}

#[test]
fn pinched_annulus_walks_one_ring_through_the_knot_twice() {
    // label 1 forms a ring of cells around the hole at row 2, column 1,
    // closed only diagonally between cells (1,1) and (2,2): a region pinched
    // at the knot vertex (2,2). Hugging the label consistently splices the
    // outer boundary and the hole boundary into a single closed walk that
    // passes the pinch twice, so one ring revisits that vertex.
    let grid = grid_of(vec![
        vec![0, 0, 0],
        vec![1, 1, 0],
        vec![1, 0, 1],
        vec![1, 1, 1],
    ]);
    let m = marching_squares(&grid);
    let edges = m.get(1).unwrap();
    let rings = edges_to_multilinestring(1, edges, &grid).unwrap();
    assert_eq!(rings.len(), 1);
    let pinch = c(2, 2);
    let visits = rings[0][..rings[0].len() - 1]
        .iter()
        .filter(|&&v| v == pinch)
        .count();
    assert_eq!(visits, 2);
    let mut walked: Vec<(usize, usize, usize, usize)> = rings
        .iter()
        .flat_map(|r| r.windows(2).map(|w| normalized(w[0], w[1])))
        .collect();
    let mut extracted: Vec<(usize, usize, usize, usize)> =
        edges.iter().map(|edge| normalized(edge.a, edge.b)).collect();
    walked.sort();
    extracted.sort();
    assert_eq!(walked, extracted);
}

#[test]
fn assembly_is_deterministic() {
    let grid = grid_of(vec![vec![0, 1, 0], vec![1, 0, 1], vec![0, 1, 0]]);
    let m = marching_squares(&grid);
    let first = edges_to_multilinestring(1, m.get(1).unwrap(), &grid).unwrap();
    let second = edges_to_multilinestring(1, m.get(1).unwrap(), &grid).unwrap();
    assert_eq!(first, second);
}

#[test]
fn self_touching_region_splits_at_the_knot() {
    let grid = grid_of(vec![vec![1, 0], vec![0, 1]]);
    let m = marching_squares(&grid);
    let rings = edges_to_multilinestring(1, m.get(1).unwrap(), &grid).unwrap();
    assert_eq!(rings.len(), 2);
    for ring in &rings {
        assert_eq!(ring.len(), 5);
        assert_eq!(ring.first(), ring.last());
    }
}
