use vstd::prelude::*;

verus! {

/// A vertex of the grid-line lattice, or, contextually, a cell index.
#[derive(Clone, Copy, PartialEq, Eq, Structural, Debug)]
pub struct Coord {
    pub x: usize,
    pub y: usize,
}

/// A signed grid coordinate, the domain of the line rasterizer.
#[derive(Clone, Copy, PartialEq, Eq, Structural, Debug)]
pub struct SignedCoord {
    pub x: i64,
    pub y: i64,
}

/// A pair of lattice vertices; a well-formed one is a unit segment of the
/// grid-line lattice (see [`edge_ok`]), read as unordered.
#[derive(Clone, Copy, PartialEq, Eq, Structural, Debug)]
pub struct Edge {
    pub a: Coord,
    pub b: Coord,
}

/// Two lattice vertices exactly one grid unit apart, horizontally or vertically.
pub open spec fn unit_adjacent(p: Coord, q: Coord) -> bool {
    (p.x == q.x && (p.y + 1 == q.y || q.y + 1 == p.y)) || (p.y == q.y && (p.x + 1 == q.x
        || q.x + 1 == p.x))
}

/// The vertex lies on the (ncols+1) x (nrows+1) lattice overlaying a grid.
pub open spec fn in_lattice(p: Coord, nrows: int, ncols: int) -> bool {
    p.x <= ncols && p.y <= nrows
}

/// Lexicographic order on lattice vertices, x before y.
pub open spec fn lex_le(p: Coord, q: Coord) -> bool {
    p.x < q.x || (p.x == q.x && p.y <= q.y)
}

/// The canonical form of the edge between `p` and `q`: endpoints in
/// lexicographic order, so that the two orientations compare equal.
pub open spec fn norm_pair(p: Coord, q: Coord) -> Edge {
    if lex_le(p, q) {
        Edge { a: p, b: q }
    } else {
        Edge { a: q, b: p }
    }
}

/// The canonical form of an edge.
pub open spec fn norm_edge(e: Edge) -> Edge {
    norm_pair(e.a, e.b)
}

/// A well-formed edge for a nrows x ncols grid: a unit lattice segment with
/// both endpoints on the grid's lattice.
pub open spec fn edge_ok(e: Edge, nrows: int, ncols: int) -> bool {
    unit_adjacent(e.a, e.b) && in_lattice(e.a, nrows, ncols) && in_lattice(e.b, nrows, ncols)
}

/// The two edges name the same unit segment, in either orientation.
pub open spec fn same_undirected(e1: Edge, e2: Edge) -> bool {
    norm_edge(e1) == norm_edge(e2)
}

/// Every edge of the sequence is well-formed for a nrows x ncols grid.
pub open spec fn all_edges_ok(s: Seq<Edge>, nrows: int, ncols: int) -> bool {
    forall|i: int| 0 <= i < s.len() ==> edge_ok(#[trigger] s[i], nrows, ncols)
}

/// Some unit segment occurs twice in the sequence, in either orientation.
pub open spec fn has_undirected_dup(s: Seq<Edge>) -> bool {
    exists|i: int, j: int| 0 <= i < j < s.len() && same_undirected(s[i], s[j])
}

/// The sequence with every edge in canonical form.
pub open spec fn emseq(s: Seq<Edge>) -> Seq<Edge> {
    s.map_values(|e: Edge| norm_edge(e))
}

/// Decides [`edge_ok`].
pub fn edge_ok_exec(e: &Edge, nrows: usize, ncols: usize) -> (r: bool)
    ensures
        r == edge_ok(*e, nrows as int, ncols as int),
{
    let unit: bool = (e.a.x == e.b.x && ((e.a.y < e.b.y && e.b.y - e.a.y == 1) || (e.b.y < e.a.y
        && e.a.y - e.b.y == 1))) || (e.a.y == e.b.y && ((e.a.x < e.b.x && e.b.x - e.a.x == 1) || (
    e.b.x < e.a.x && e.a.x - e.b.x == 1)));
    unit && e.a.x <= ncols && e.a.y <= nrows && e.b.x <= ncols && e.b.y <= nrows
}

/// Decides [`same_undirected`].
pub fn same_undirected_exec(e1: &Edge, e2: &Edge) -> (r: bool)
    ensures
        r == same_undirected(*e1, *e2),
{
    (e1.a == e2.a && e1.b == e2.b) || (e1.a == e2.b && e1.b == e2.a)
}

} // verus!
