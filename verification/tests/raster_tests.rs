use geospatial::{rasterize_linestring, SignedCoord};

fn p(x: i64, y: i64) -> SignedCoord {
    SignedCoord { x, y }
}

#[test]
fn rasterize_l_shaped_closed_polyline() {
    let ls = vec![p(0, 0), p(2, 0), p(2, 2), p(0, 0)];
    let out = rasterize_linestring(&ls);
    assert_eq!(
        out,
        vec![p(0, 0), p(1, 0), p(2, 0), p(2, 1), p(2, 2), p(1, 1), p(0, 0)]
    );
}

#[test]
fn rasterize_with_negative_coordinates() {
    let ls = vec![p(0, 0), p(-2, 0), p(1, -3)];
    let out = rasterize_linestring(&ls);
    assert_eq!(
        out,
        vec![p(0, 0), p(-1, 0), p(-2, 0), p(-1, -1), p(0, -2), p(1, -3)]
    );
}

#[test]
fn rasterize_empty_input_yields_empty_output() {
    let ls: Vec<SignedCoord> = vec![];
    assert_eq!(rasterize_linestring(&ls), vec![]);
}

#[test]
fn rasterize_single_vertex_yields_empty_output() {
    let ls = vec![p(5, -7)];
    assert_eq!(rasterize_linestring(&ls), vec![]);
}

#[test]
fn rasterize_diagonal_takes_corner_cells() {
    let ls = vec![p(0, 0), p(3, 3)];
    let out = rasterize_linestring(&ls);
    assert_eq!(out, vec![p(0, 0), p(1, 1), p(2, 2), p(3, 3)]);
}

#[test]
fn rasterize_suppresses_repeated_segment_joint() {
    // the joint vertex (2, 0) ends one segment and starts the next; it is
    // emitted once, not twice
    let ls = vec![p(0, 0), p(2, 0), p(4, 0)];
    let out = rasterize_linestring(&ls);
    assert_eq!(out, vec![p(0, 0), p(1, 0), p(2, 0), p(3, 0), p(4, 0)]);
}

#[test]
fn rasterize_revisited_cell_is_kept_when_not_consecutive() {
    // going right then back left revisits cells; only immediate repeats are
    // suppressed
    let ls = vec![p(0, 0), p(2, 0), p(0, 0)];
    let out = rasterize_linestring(&ls);
    assert_eq!(
        out,
        vec![p(0, 0), p(1, 0), p(2, 0), p(1, 0), p(0, 0)]
    );
}
