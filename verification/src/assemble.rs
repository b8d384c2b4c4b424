use crate::geometry::{
    all_edges_ok, edge_ok, has_undirected_dup, in_lattice, norm_pair, unit_adjacent, Coord, Edge,
};
use crate::geometry::{edge_ok_exec, emseq, norm_edge, same_undirected, same_undirected_exec};
use crate::extract::emits_edge;
use crate::grid::Grid;
use crate::laws::{lemma_extraction_checkerboard, lemma_extraction_is_manifold};
use vstd::multiset::Multiset;
use vstd::prelude::*;

verus! {

broadcast use vstd::seq_lib::group_to_multiset_ensures, vstd::multiset::group_multiset_axioms;

/// Why an edge multiset could not be assembled into rings.
#[derive(Clone, Copy, PartialEq, Eq, Structural, Debug)]
pub enum AssembleError {
    /// An edge is not a unit segment of the grid's lattice.
    InvalidEdge,
    /// The edges are not a manifold boundary: a unit segment occurs twice, or
    /// a vertex has degree other than 0, 2 or 4.
    NonManifold,
    /// Tracing could not partition the edges into closed rings consistent
    /// with the grid's labels.
    Inconsistent,
}

/// The neighbors of `v` in the undirected graph of `s`, in emission order:
/// each edge incident to `v` contributes its other endpoint.
pub open spec fn nbrs(s: Seq<Edge>, v: Coord) -> Seq<Coord>
    decreases s.len(),
{
    if s.len() == 0 {
        Seq::empty()
    } else {
        let rest = nbrs(s.drop_last(), v);
        let e = s.last();
        if e.a == v {
            rest.push(e.b)
        } else if e.b == v {
            rest.push(e.a)
        } else {
            rest
        }
    }
}

/// The unit segment between `v` and `w` occurs in `s`, in either orientation.
pub open spec fn occurs(s: Seq<Edge>, v: Coord, w: Coord) -> bool {
    exists|i: int|
        0 <= i < s.len() && (((#[trigger] s[i]).a == v && s[i].b == w) || (s[i].a == w && s[i].b
            == v))
}

/// Every lattice vertex touches 0, 2 or 4 of the edges.
pub open spec fn degrees_ok(s: Seq<Edge>, nrows: int, ncols: int) -> bool {
    forall|v: Coord|
        in_lattice(v, nrows, ncols) ==> {
            let d = (#[trigger] nbrs(s, v)).len();
            d == 0 || d == 2 || d == 4
        }
}

/// The row-major index of a lattice vertex in a flat adjacency table.
pub open spec fn vid_spec(v: Coord, ncols: int) -> int {
    v.y * (ncols + 1) + v.x
}

/// A closed walk on the lattice: at least four unit steps, ending where it
/// starts.
pub open spec fn ring_closed(r: Seq<Coord>) -> bool {
    r.len() >= 5 && r[0] == r[r.len() - 1] && (forall|i: int|
        0 <= i < r.len() - 1 ==> unit_adjacent(#[trigger] r[i], r[i + 1]))
}

/// An ordered closed boundary ring: a closed walk of at least four unit
/// steps. A ring may revisit a knot vertex: a self-touching region pinched
/// at a knot — two diagonal cells of the label joined around a hole — has
/// one boundary curve passing the pinch twice, and the tracer rightly walks
/// it as one ring.
pub open spec fn ring_wf(r: Seq<Coord>) -> bool {
    ring_closed(r)
}

/// The canonical edges a ring walks, one per consecutive vertex pair.
pub open spec fn ring_edges_seq(r: Seq<Coord>) -> Seq<Edge> {
    if r.len() == 0 {
        Seq::empty()
    } else {
        Seq::new((r.len() - 1) as nat, |i: int| norm_pair(r[i], r[i + 1]))
    }
}

/// The successor vertex of the assembler's walk at `c`, arriving from `p`,
/// on the working edge sequence `w`: at a degree-four knot the grid decides
/// via [`knot_exit_spec`]; otherwise the neighbor, in `w`'s adjacency order,
/// that the walk did not come from.
pub open spec fn step_spec(w: Seq<Edge>, g: Grid, id: u64, p: Coord, c: Coord) -> Coord {
    if nbrs(w, c).len() == 4 {
        knot_exit_spec(g, id, p, c)
    } else if nbrs(w, c)[0] == p {
        nbrs(w, c)[1]
    } else {
        nbrs(w, c)[0]
    }
}

/// The ring is exactly the walk the assembler traces on the working edge
/// sequence `w`: it starts at the first endpoint of `w`'s first edge, takes
/// its initial direction from `w`'s adjacency order, follows [`step_spec`]
/// at every vertex, and closes at the first return to the start.
pub open spec fn is_trace(w: Seq<Edge>, g: Grid, id: u64, r: Seq<Coord>) -> bool {
    &&& w.len() > 0
    &&& r.len() >= 2
    &&& r[0] == w[0].a
    &&& r[r.len() - 1] == r[0]
    &&& (forall|i: int| 0 < i < r.len() - 1 ==> #[trigger] r[i] != r[0])
    &&& r[1] == step_spec(w, g, id, nbrs(w, r[0])[0], r[0])
    &&& (forall|i: int|
        1 <= i < r.len() - 1 ==> r[i + 1] == step_spec(w, g, id, r[i - 1], #[trigger] r[i]))
}

/// The index of the first occurrence, in either orientation, of the unit
/// segment between `x` and `y` in `w`; -1 when there is none.
pub open spec fn find_first(w: Seq<Edge>, x: Coord, y: Coord) -> int
    decreases w.len(),
{
    if w.len() == 0 {
        -1
    } else if same_undirected(w[0], Edge { a: x, b: y }) {
        0
    } else {
        let rec = find_first(w.drop_first(), x, y);
        if rec < 0 {
            -1
        } else {
            rec + 1
        }
    }
}

/// The working sequence after the first `t` steps of ring `r` each removed
/// their first occurrence from `w`.
pub open spec fn consume_steps(w: Seq<Edge>, r: Seq<Coord>, t: int) -> Seq<Edge>
    decreases t,
{
    if t <= 0 {
        w
    } else {
        let w2 = consume_steps(w, r, t - 1);
        let j = find_first(w2, r[t - 1], r[t]);
        if j < 0 {
            w2
        } else {
            w2.remove(j)
        }
    }
}

/// The working sequence left of `edges` after the first `k` rings each
/// consumed their edges, ring by ring and step by step.
pub open spec fn workings(edges: Seq<Edge>, rings: Seq<Vec<Coord>>, k: int) -> Seq<Edge>
    decreases k,
{
    if k <= 0 {
        edges
    } else {
        consume_steps(workings(edges, rings, k - 1), rings[k - 1]@, rings[k - 1]@.len() - 1)
    }
}

proof fn lemma_workings_prefix(
    edges: Seq<Edge>,
    rs1: Seq<Vec<Coord>>,
    rs2: Seq<Vec<Coord>>,
    k: int,
)
    requires
        forall|t: int| 0 <= t < k ==> rs1[t] == rs2[t],
    ensures
        workings(edges, rs1, k) == workings(edges, rs2, k),
    decreases k,
{
    if k > 0 {
        lemma_workings_prefix(edges, rs1, rs2, k - 1);
    }
}

proof fn lemma_find_first_at(w: Seq<Edge>, x: Coord, y: Coord, j: int)
    requires
        0 <= j <= w.len(),
        forall|t: int| 0 <= t < j ==> !same_undirected(#[trigger] w[t], Edge { a: x, b: y }),
        j < w.len() ==> same_undirected(w[j], Edge { a: x, b: y }),
    ensures
        j < w.len() ==> find_first(w, x, y) == j,
        j == w.len() ==> find_first(w, x, y) == -1,
    decreases w.len(),
{
    if w.len() == 0 {
    } else if same_undirected(w[0], Edge { a: x, b: y }) {
        assert(j == 0);
    } else {
        let w2 = w.drop_first();
        assert(forall|t: int| 0 <= t < w2.len() ==> #[trigger] w2[t] == w[t + 1]);
        lemma_find_first_at(w2, x, y, j - 1);
    }
}

/// The four cells around the vertex form the checkerboard pattern that
/// makes it a knot for `id`: one diagonal pair carries the label, the other
/// does not.
pub open spec fn cb_at(g: Grid, id: u64, v: Coord) -> bool {
    let x = v.x as int;
    let y = v.y as int;
    &&& 1 <= x && x + 1 <= g.ncols_spec()
    &&& 1 <= y && y + 1 <= g.nrows_spec()
    &&& ((g.cell(y - 1, x - 1) == id && g.cell(y, x) == id && g.cell(y - 1, x) != id && g.cell(
        y,
        x - 1,
    ) != id) || (g.cell(y - 1, x - 1) != id && g.cell(y, x) != id && g.cell(y - 1, x) == id
        && g.cell(y, x - 1) == id))
}

/// Every degree-four vertex of the edge sequence is a checkerboard knot.
pub open spec fn knots_cb(s: Seq<Edge>, g: Grid, id: u64) -> bool {
    forall|v: Coord|
        in_lattice(v, g.nrows_spec(), g.ncols_spec()) ==> ((#[trigger] nbrs(s, v)).len() == 4
            ==> cb_at(g, id, v))
}

proof fn lemma_find_first_props(w: Seq<Edge>, x: Coord, y: Coord)
    ensures
        find_first(w, x, y) >= 0 ==> 0 <= find_first(w, x, y) < w.len() && same_undirected(
            w[find_first(w, x, y)],
            Edge { a: x, b: y },
        ),
        (exists|i: int|
            0 <= i < w.len() && same_undirected(#[trigger] w[i], Edge { a: x, b: y }))
            ==> find_first(w, x, y) >= 0,
    decreases w.len(),
{
    if w.len() == 0 {
    } else if same_undirected(w[0], Edge { a: x, b: y }) {
    } else {
        lemma_find_first_props(w.drop_first(), x, y);
        assert(forall|t: int|
            0 <= t < w.drop_first().len() ==> #[trigger] w.drop_first()[t] == w[t + 1]);
        if exists|i: int|
            0 <= i < w.len() && same_undirected(#[trigger] w[i], Edge { a: x, b: y }) {
            let i = choose|i: int|
                0 <= i < w.len() && same_undirected(#[trigger] w[i], Edge { a: x, b: y });
            assert(w.drop_first()[i - 1] == w[i]);
        }
    }
}

proof fn lemma_occurs_nbrs(s: Seq<Edge>, v: Coord, w: Coord)
    requires
        occurs(s, v, w),
    ensures
        nbrs(s, v).contains(w),
    decreases s.len(),
{
    let i = choose|i: int|
        0 <= i < s.len() && (((#[trigger] s[i]).a == v && s[i].b == w) || (s[i].a == w && s[i].b
            == v));
    if i == s.len() - 1 {
        assert(nbrs(s, v).last() == w);
    } else {
        assert(occurs(s.drop_last(), v, w)) by {
            assert(s.drop_last()[i] == s[i]);
        }
        lemma_occurs_nbrs(s.drop_last(), v, w);
        let rest = nbrs(s.drop_last(), v);
        let k = choose|k: int| 0 <= k < rest.len() && rest[k] == w;
        assert(nbrs(s, v)[k] == w);
    }
}

proof fn lemma_occurs_lattice(s: Seq<Edge>, v: Coord, w: Coord, nrows: int, ncols: int)
    requires
        occurs(s, v, w),
        all_edges_ok(s, nrows, ncols),
    ensures
        in_lattice(v, nrows, ncols),
        in_lattice(w, nrows, ncols),
        unit_adjacent(v, w),
        v != w,
{
    let i = choose|i: int|
        0 <= i < s.len() && (((#[trigger] s[i]).a == v && s[i].b == w) || (s[i].a == w && s[i].b
            == v));
    assert(edge_ok(s[i], nrows, ncols));
}

proof fn lemma_knot_all_four(s: Seq<Edge>, c: Coord, z: Coord, nrows: int, ncols: int)
    requires
        all_edges_ok(s, nrows, ncols),
        !has_undirected_dup(s),
        nbrs(s, c).len() == 4,
        unit_adjacent(c, z),
        in_lattice(z, nrows, ncols),
    ensures
        nbrs(s, c).contains(z),
{
    lemma_nbrs_wf(s, c, nrows, ncols);
    lemma_nbrs_distinct(s, c, nrows, ncols);
    let ns = nbrs(s, c);
    assert forall|k: int|
        0 <= k < 4 implies ((ns[k].x == c.x && ns[k].y == c.y + 1) || (ns[k].x == c.x && ns[k].y
        + 1 == c.y) || (ns[k].y == c.y && ns[k].x == c.x + 1) || (ns[k].y == c.y && ns[k].x + 1
        == c.x)) by {
        assert(unit_adjacent(c, ns[k]));
    }
    assert(ns[0] != ns[1] && ns[0] != ns[2] && ns[0] != ns[3] && ns[1] != ns[2] && ns[1] != ns[3]
        && ns[2] != ns[3]);
    if !ns.contains(z) {
        assert(ns[0] != z && ns[1] != z && ns[2] != z && ns[3] != z);
        assert((z.x == c.x && z.y == c.y + 1) || (z.x == c.x && z.y + 1 == c.y) || (z.y == c.y
            && z.x == c.x + 1) || (z.y == c.y && z.x + 1 == c.x));
        assert(false);
    }
}

/// The walk's step is symmetric: stepping back from the exit returns the
/// entry — the knot rule is an involution at checkerboard vertices, and at
/// degree-2 vertices the two neighbors exchange.
proof fn lemma_step_sym(s: Seq<Edge>, g: Grid, id: u64, p: Coord, c: Coord)
    requires
        g.wf(),
        g.nrows_spec() <= usize::MAX,
        g.ncols_spec() <= usize::MAX,
        all_edges_ok(s, g.nrows_spec(), g.ncols_spec()),
        !has_undirected_dup(s),
        degrees_ok(s, g.nrows_spec(), g.ncols_spec()),
        knots_cb(s, g, id),
        occurs(s, p, c),
    ensures
        ({
            let n = step_spec(s, g, id, p, c);
            occurs(s, n, c) && n != p && step_spec(s, g, id, n, c) == p
        }),
{
    let rr = g.nrows_spec();
    let cc = g.ncols_spec();
    lemma_occurs_lattice(s, p, c, rr, cc);
    lemma_occurs_nbrs(s, c, p);
    lemma_nbrs_wf(s, c, rr, cc);
    lemma_nbrs_distinct(s, c, rr, cc);
    lemma_nbrs_occurs(s, c);
    let ns = nbrs(s, c);
    assert(ns.len() >= 1) by {
        let k = choose|k: int| 0 <= k < ns.len() && ns[k] == p;
    }
    assert(ns.len() == 2 || ns.len() == 4);
    let n = step_spec(s, g, id, p, c);
    if ns.len() == 2 {
        let k = choose|k: int| 0 <= k < ns.len() && ns[k] == p;
        assert(ns[0] != ns[1]);
        assert(n == ns[0] || n == ns[1]);
        assert(occurs(s, c, n));
        assert(n != p);
        assert(step_spec(s, g, id, n, c) == p);
    } else {
        assert(cb_at(g, id, c));
        assert(unit_adjacent(p, c));
        assert(n == knot_exit_spec(g, id, p, c));
        let x = c.x as int;
        let y = c.y as int;
        assert(c.x >= 1 && c.x as int + 1 <= cc && c.y >= 1 && c.y as int + 1 <= rr);
        if p.x + 1 == c.x {
            assert(n.x == c.x && (n.y as int == y - 1 || n.y as int == y + 1));
        } else if p.x == c.x + 1 {
            assert(n.x == c.x && (n.y as int == y - 1 || n.y as int == y + 1));
        } else if p.y + 1 == c.y {
            assert(n.y == c.y && (n.x as int == x - 1 || n.x as int == x + 1));
        } else {
            assert(p.y == c.y + 1);
            assert(n.y == c.y && (n.x as int == x - 1 || n.x as int == x + 1));
        }
        assert(unit_adjacent(c, n));
        assert(in_lattice(n, rr, cc));
        lemma_knot_all_four(s, c, n, rr, cc);
        assert(occurs(s, c, n)) by {
            let k = choose|k: int| 0 <= k < ns.len() && ns[k] == n;
        }
        assert(n != p);
        assert(step_spec(s, g, id, n, c) == knot_exit_spec(g, id, n, c));
        assert(knot_exit_spec(g, id, n, c) == p);
    }
    assert(occurs(s, n, c));
}

/// A directed edge's slot in a flat enumeration: twice the undirected
/// edge's first index, plus the orientation.
pub open spec fn dir_code(w: Seq<Edge>, st: (Coord, Coord)) -> int {
    let i = find_first(w, st.0, st.1);
    if w[i] == (Edge { a: st.0, b: st.1 }) {
        2 * i
    } else {
        2 * i + 1
    }
}

proof fn lemma_dir_code_props(w: Seq<Edge>, st: (Coord, Coord), nrows: int, ncols: int)
    requires
        all_edges_ok(w, nrows, ncols),
        occurs(w, st.0, st.1),
    ensures
        0 <= dir_code(w, st) < 2 * w.len() as int,
{
    let i0 = choose|i: int|
        0 <= i < w.len() && (((#[trigger] w[i]).a == st.0 && w[i].b == st.1) || (w[i].a == st.1
            && w[i].b == st.0));
    assert(same_undirected(w[i0], Edge { a: st.0, b: st.1 }));
    lemma_find_first_props(w, st.0, st.1);
}

proof fn lemma_dir_code_inj(
    w: Seq<Edge>,
    st1: (Coord, Coord),
    st2: (Coord, Coord),
    nrows: int,
    ncols: int,
)
    requires
        all_edges_ok(w, nrows, ncols),
        occurs(w, st1.0, st1.1),
        occurs(w, st2.0, st2.1),
        dir_code(w, st1) == dir_code(w, st2),
    ensures
        st1 == st2,
{
    lemma_dir_code_props(w, st1, nrows, ncols);
    lemma_dir_code_props(w, st2, nrows, ncols);
    lemma_occurs_lattice(w, st1.0, st1.1, nrows, ncols);
    lemma_occurs_lattice(w, st2.0, st2.1, nrows, ncols);
    let i0 = choose|i: int|
        0 <= i < w.len() && (((#[trigger] w[i]).a == st1.0 && w[i].b == st1.1) || (w[i].a == st1.1
            && w[i].b == st1.0));
    assert(same_undirected(w[i0], Edge { a: st1.0, b: st1.1 }));
    let j0 = choose|i: int|
        0 <= i < w.len() && (((#[trigger] w[i]).a == st2.0 && w[i].b == st2.1) || (w[i].a == st2.1
            && w[i].b == st2.0));
    assert(same_undirected(w[j0], Edge { a: st2.0, b: st2.1 }));
    lemma_find_first_props(w, st1.0, st1.1);
    lemma_find_first_props(w, st2.0, st2.1);
    let f1 = find_first(w, st1.0, st1.1);
    let f2 = find_first(w, st2.0, st2.1);
    assert(f1 == f2) by {
        if f1 != f2 {
            assert(dir_code(w, st1) != dir_code(w, st2));
        }
    }
    let e = w[f1];
    assert(edge_ok(e, nrows, ncols));
    assert(e.a != e.b);
}

proof fn lemma_distinct_codes_bound(w: Seq<Edge>, h: Seq<(Coord, Coord)>, nrows: int, ncols: int)
    requires
        all_edges_ok(w, nrows, ncols),
        forall|t: int| 0 <= t < h.len() ==> occurs(w, (#[trigger] h[t]).0, h[t].1),
        forall|t1: int, t2: int| 0 <= t1 < t2 < h.len() ==> h[t1] != h[t2],
    ensures
        h.len() <= 2 * w.len() as int,
{
    let codes = Seq::new(h.len(), |t: int| dir_code(w, h[t]));
    assert forall|t1: int, t2: int|
        0 <= t1 < codes.len() && 0 <= t2 < codes.len() && t1 != t2 implies codes[t1]
        != codes[t2] by {
        if codes[t1] == codes[t2] {
            lemma_dir_code_inj(w, h[t1], h[t2], nrows, ncols);
        }
    }
    assert(codes.no_duplicates());
    codes.unique_seq_to_set();
    assert forall|x: int| codes.to_set().contains(x) implies vstd::set_lib::set_int_range(
        0,
        2 * w.len() as int,
    ).contains(x) by {
        let t = choose|t: int| 0 <= t < codes.len() && codes[t] == x;
        lemma_dir_code_props(w, h[t], nrows, ncols);
    }
    assert(codes.to_set().subset_of(vstd::set_lib::set_int_range(0, 2 * w.len() as int)));
    vstd::set_lib::lemma_int_range(0, 2 * w.len() as int);
    vstd::set_lib::lemma_len_subset(
        codes.to_set(),
        vstd::set_lib::set_int_range(0, 2 * w.len() as int),
    );
}

/// A rule-following walk never traverses a directed edge and, later, its
/// reverse: folding the walk about the middle of such a pair would need
/// either an immediate reversal or a self-loop, and the step rule allows
/// neither.
proof fn lemma_no_reverse(s: Seq<Edge>, g: Grid, id: u64, h: Seq<(Coord, Coord)>, i: int, j: int)
    requires
        g.wf(),
        g.nrows_spec() <= usize::MAX,
        g.ncols_spec() <= usize::MAX,
        all_edges_ok(s, g.nrows_spec(), g.ncols_spec()),
        !has_undirected_dup(s),
        degrees_ok(s, g.nrows_spec(), g.ncols_spec()),
        knots_cb(s, g, id),
        forall|t: int| 0 <= t < h.len() ==> occurs(s, (#[trigger] h[t]).0, h[t].1),
        forall|t: int|
            1 <= t < h.len() ==> (#[trigger] h[t]) == ((
                h[t - 1].1,
                step_spec(s, g, id, h[t - 1].0, h[t - 1].1),
            )),
        0 <= i < j < h.len(),
    ensures
        h[j] != ((h[i].1, h[i].0)),
    decreases j - i,
{
    if h[j] == ((h[i].1, h[i].0)) {
        let tau = h[i];
        if j == i + 1 {
            lemma_step_sym(s, g, id, tau.0, tau.1);
            assert(h[j].1 == step_spec(s, g, id, tau.0, tau.1));
        } else {
            let sig = h[i + 1];
            let pre = h[j - 1];
            assert(h[j] == ((pre.1, step_spec(s, g, id, pre.0, pre.1))));
            assert(pre.1 == tau.1);
            assert(step_spec(s, g, id, pre.0, tau.1) == tau.0);
            lemma_step_sym(s, g, id, tau.0, tau.1);
            lemma_step_sym(s, g, id, pre.0, tau.1);
            let n = step_spec(s, g, id, tau.0, tau.1);
            assert(step_spec(s, g, id, n, tau.1) == tau.0);
            assert(step_spec(s, g, id, step_spec(s, g, id, pre.0, tau.1), tau.1) == pre.0);
            assert(pre.0 == n);
            assert(sig == ((tau.1, n)));
            assert(pre == ((sig.1, sig.0)));
            if i + 1 == j - 1 {
                assert(sig.0 == sig.1);
                lemma_occurs_lattice(s, sig.0, sig.1, g.nrows_spec(), g.ncols_spec());
            } else {
                lemma_no_reverse(s, g, id, h, i + 1, j - 1);
            }
        }
    }
}

/// How many of the first `t` steps of ring `r` touch vertex `v`.
pub open spec fn steps_at(r: Seq<Coord>, v: Coord, t: int) -> int
    decreases t,
{
    if t <= 0 {
        0
    } else {
        steps_at(r, v, t - 1) + (if r[t - 1] == v || r[t] == v {
            1int
        } else {
            0int
        })
    }
}

proof fn lemma_steps_at_parity(r: Seq<Coord>, v: Coord, t: int)
    requires
        0 <= t < r.len(),
        forall|i: int| 0 <= i < r.len() - 1 ==> #[trigger] r[i] != r[i + 1],
    ensures
        0 <= steps_at(r, v, t),
        steps_at(r, v, t) % 2 == ((if r[0] == v {
            1int
        } else {
            0int
        }) + (if r[t] == v {
            1int
        } else {
            0int
        })) % 2,
    decreases t,
{
    if t > 0 {
        lemma_steps_at_parity(r, v, t - 1);
        assert(r[t - 1] != r[t]);
    }
}

proof fn lemma_nbrs_remove(s: Seq<Edge>, j: int, v: Coord)
    requires
        0 <= j < s.len(),
    ensures
        nbrs(s.remove(j), v).len() == nbrs(s, v).len() - (if s[j].a == v || s[j].b == v {
            1int
        } else {
            0int
        }),
    decreases s.len(),
{
    if j == s.len() - 1 {
        assert(s.remove(j) =~= s.drop_last());
    } else {
        assert(s.remove(j).drop_last() =~= s.drop_last().remove(j));
        assert(s.remove(j).last() == s.last());
        lemma_nbrs_remove(s.drop_last(), j, v);
    }
}

proof fn lemma_occurs_count(w: Seq<Edge>, a: Coord, b: Coord)
    requires
        occurs(w, a, b),
    ensures
        emseq(w).to_multiset().count(norm_pair(a, b)) >= 1,
{
    let i = choose|i: int|
        0 <= i < w.len() && (((#[trigger] w[i]).a == a && w[i].b == b) || (w[i].a == b && w[i].b
            == a));
    assert(emseq(w)[i] == norm_edge(w[i]));
    assert(norm_edge(w[i]) == norm_pair(a, b));
    assert(emseq(w).contains(norm_pair(a, b)));
}

proof fn lemma_residual_manifold(
    g: Grid,
    id: u64,
    w0: Seq<Edge>,
    wn: Seq<Edge>,
    r: Seq<Coord>,
    nrows: int,
    ncols: int,
)
    requires
        nrows == g.nrows_spec(),
        ncols == g.ncols_spec(),
        r.len() >= 2,
        r[0] == r[r.len() - 1],
        forall|i: int| 0 <= i < r.len() - 1 ==> unit_adjacent(#[trigger] r[i], r[i + 1]),
        degrees_ok(w0, nrows, ncols),
        knots_cb(w0, g, id),
        forall|v: Coord|
            in_lattice(v, nrows, ncols) ==> (#[trigger] nbrs(wn, v)).len() == nbrs(w0, v).len()
                - steps_at(r, v, r.len() - 1),
    ensures
        degrees_ok(wn, nrows, ncols),
        knots_cb(wn, g, id),
{
    assert(forall|i: int| 0 <= i < r.len() - 1 ==> #[trigger] r[i] != r[i + 1]);
    assert forall|v: Coord| in_lattice(v, nrows, ncols) implies {
        let d = (#[trigger] nbrs(wn, v)).len();
        d == 0 || d == 2 || d == 4
    } by {
        lemma_steps_at_parity(r, v, r.len() - 1);
        assert(steps_at(r, v, r.len() - 1) % 2 == 0);
    }
    assert(degrees_ok(wn, nrows, ncols));
    assert forall|v: Coord|
        in_lattice(v, nrows, ncols) && (#[trigger] nbrs(wn, v)).len() == 4 implies cb_at(
        g,
        id,
        v,
    ) by {
        lemma_steps_at_parity(r, v, r.len() - 1);
        assert(nbrs(w0, v).len() == 4);
    }
}

proof fn lemma_hist_fresh(
    s: Seq<Edge>,
    g: Grid,
    id: u64,
    hist: Seq<(Coord, Coord)>,
    prev: Coord,
    cur: Coord,
    nxt: Coord,
    start: Coord,
)
    requires
        g.wf(),
        g.nrows_spec() <= usize::MAX,
        g.ncols_spec() <= usize::MAX,
        all_edges_ok(s, g.nrows_spec(), g.ncols_spec()),
        !has_undirected_dup(s),
        degrees_ok(s, g.nrows_spec(), g.ncols_spec()),
        knots_cb(s, g, id),
        hist.len() >= 1,
        hist[0].1 == start,
        hist[hist.len() - 1] == ((prev, cur)),
        forall|t: int| 0 <= t < hist.len() ==> occurs(s, (#[trigger] hist[t]).0, hist[t].1),
        forall|t: int|
            1 <= t < hist.len() ==> (#[trigger] hist[t]) == ((
                hist[t - 1].1,
                step_spec(s, g, id, hist[t - 1].0, hist[t - 1].1),
            )),
        forall|t1: int, t2: int|
            0 <= t1 < t2 < hist.len() ==> #[trigger] hist[t1] != #[trigger] hist[t2],
        nxt == step_spec(s, g, id, prev, cur),
        nxt != start,
        occurs(s, prev, cur),
    ensures
        forall|t: int| 0 <= t < hist.len() ==> #[trigger] hist[t] != ((cur, nxt)),
{
    assert forall|t: int| 0 <= t < hist.len() implies #[trigger] hist[t] != ((cur, nxt)) by {
        if hist[t] == ((cur, nxt)) {
            if t == 0 {
                assert(hist[0].1 == start);
            } else {
                let a = hist[t - 1];
                assert(hist[t] == ((a.1, step_spec(s, g, id, a.0, a.1))));
                assert(a.1 == cur);
                lemma_step_sym(s, g, id, a.0, cur);
                lemma_step_sym(s, g, id, prev, cur);
                assert(step_spec(s, g, id, a.0, cur) == nxt);
                assert(step_spec(s, g, id, nxt, cur) == a.0);
                assert(step_spec(s, g, id, prev, cur) == nxt);
                assert(step_spec(s, g, id, nxt, cur) == prev);
                assert(a.0 == prev);
                assert(hist[t - 1] == ((prev, cur)));
                assert(hist[hist.len() - 1] == ((prev, cur)));
                assert(false);
            }
        }
    }
}

proof fn lemma_trace_pairs_distinct(
    s: Seq<Edge>,
    g: Grid,
    id: u64,
    ext: Seq<(Coord, Coord)>,
    r: Seq<Coord>,
)
    requires
        g.wf(),
        g.nrows_spec() <= usize::MAX,
        g.ncols_spec() <= usize::MAX,
        all_edges_ok(s, g.nrows_spec(), g.ncols_spec()),
        !has_undirected_dup(s),
        degrees_ok(s, g.nrows_spec(), g.ncols_spec()),
        knots_cb(s, g, id),
        ext.len() == r.len(),
        ext.len() >= 2,
        forall|t: int| 1 <= t < ext.len() ==> (#[trigger] ext[t]) == ((r[t - 1], r[t])),
        forall|t: int| 0 <= t < ext.len() ==> occurs(s, (#[trigger] ext[t]).0, ext[t].1),
        forall|t: int|
            1 <= t < ext.len() ==> (#[trigger] ext[t]) == ((
                ext[t - 1].1,
                step_spec(s, g, id, ext[t - 1].0, ext[t - 1].1),
            )),
        forall|t1: int, t2: int|
            0 <= t1 < t2 < ext.len() - 1 ==> #[trigger] ext[t1] != #[trigger] ext[t2],
        forall|i: int| 0 < i < r.len() - 1 ==> #[trigger] r[i] != r[0],
        r[r.len() - 1] == r[0],
    ensures
        forall|t1: int, t2: int|
            #![trigger r[t1], r[t2]]
            0 <= t1 < t2 < r.len() - 1 ==> norm_pair(r[t1], r[t1 + 1]) != norm_pair(
                r[t2],
                r[t2 + 1],
            ),
{
    assert forall|t1: int, t2: int|
        #![trigger r[t1], r[t2]]
        0 <= t1 < t2 < r.len() - 1 implies norm_pair(r[t1], r[t1 + 1]) != norm_pair(
        r[t2],
        r[t2 + 1],
    ) by {
        if norm_pair(r[t1], r[t1 + 1]) == norm_pair(r[t2], r[t2 + 1]) {
            let st1 = ext[t1 + 1];
            let st2 = ext[t2 + 1];
            assert(st1 == ((r[t1], r[t1 + 1])));
            assert(st2 == ((r[t2], r[t2 + 1])));
            lemma_occurs_lattice(s, st1.0, st1.1, g.nrows_spec(), g.ncols_spec());
            lemma_occurs_lattice(s, st2.0, st2.1, g.nrows_spec(), g.ncols_spec());
            assert(st2 == st1 || st2 == ((st1.1, st1.0)));
            if st2 == st1 {
                if t2 + 1 < ext.len() - 1 {
                    assert(ext[t1 + 1] != ext[t2 + 1]);
                } else {
                    assert(st2.1 == r[r.len() - 1]);
                    assert(st1.1 == r[t1 + 1]);
                    assert(r[t1 + 1] != r[0]);
                }
            } else {
                lemma_no_reverse(s, g, id, ext, t1 + 1, t2 + 1);
            }
        }
    }
}

/// The multiset of canonical edges walked by all the rings together.
pub open spec fn rings_msets(rs: Seq<Vec<Coord>>) -> Multiset<Edge>
    decreases rs.len(),
{
    if rs.len() == 0 {
        Multiset::empty()
    } else {
        rings_msets(rs.drop_last()).add(ring_edges_seq(rs.last()@).to_multiset())
    }
}

proof fn lemma_nbrs_push(s: Seq<Edge>, e: Edge, v: Coord)
    ensures
        nbrs(s.push(e), v) == (if e.a == v {
            nbrs(s, v).push(e.b)
        } else if e.b == v {
            nbrs(s, v).push(e.a)
        } else {
            nbrs(s, v)
        }),
{
    assert(s.push(e).drop_last() =~= s);
    assert(s.push(e).last() == e);
}

proof fn lemma_nbrs_wf(s: Seq<Edge>, v: Coord, nrows: int, ncols: int)
    requires
        all_edges_ok(s, nrows, ncols),
    ensures
        forall|k: int|
            0 <= k < nbrs(s, v).len() ==> unit_adjacent(v, #[trigger] nbrs(s, v)[k]) && in_lattice(
                nbrs(s, v)[k],
                nrows,
                ncols,
            ),
    decreases s.len(),
{
    if s.len() > 0 {
        let s0 = s.drop_last();
        assert(forall|i: int| 0 <= i < s0.len() ==> edge_ok(#[trigger] s0[i], nrows, ncols)) by {
            assert(forall|i: int| 0 <= i < s0.len() ==> s0[i] == s[i]);
        }
        lemma_nbrs_wf(s0, v, nrows, ncols);
        assert(edge_ok(s.last(), nrows, ncols));
        assert forall|k: int| 0 <= k < nbrs(s, v).len() implies unit_adjacent(
            v,
            #[trigger] nbrs(s, v)[k],
        ) && in_lattice(nbrs(s, v)[k], nrows, ncols) by {
            let rest = nbrs(s0, v);
            if k < rest.len() {
                assert(nbrs(s, v)[k] == rest[k]);
            }
        }
    }
}

proof fn lemma_nbrs_occurs(s: Seq<Edge>, v: Coord)
    ensures
        forall|k: int| 0 <= k < nbrs(s, v).len() ==> occurs(s, v, #[trigger] nbrs(s, v)[k]),
    decreases s.len(),
{
    if s.len() > 0 {
        lemma_nbrs_occurs(s.drop_last(), v);
        assert forall|k: int| 0 <= k < nbrs(s, v).len() implies occurs(
            s,
            v,
            #[trigger] nbrs(s, v)[k],
        ) by {
            let rest = nbrs(s.drop_last(), v);
            if k < rest.len() {
                assert(occurs(s.drop_last(), v, rest[k]));
                let i = choose|i: int|
                    0 <= i < s.drop_last().len() && (((#[trigger] s.drop_last()[i]).a == v
                        && s.drop_last()[i].b == rest[k]) || (s.drop_last()[i].a == rest[k]
                        && s.drop_last()[i].b == v));
                assert(s[i] == s.drop_last()[i]);
            } else {
                assert(s[s.len() - 1] == s.last());
            }
        }
    }
}

proof fn lemma_nbrs_distinct(s: Seq<Edge>, v: Coord, nrows: int, ncols: int)
    requires
        all_edges_ok(s, nrows, ncols),
        !has_undirected_dup(s),
    ensures
        forall|k1: int, k2: int|
            0 <= k1 < k2 < nbrs(s, v).len() ==> #[trigger] nbrs(s, v)[k1] != #[trigger] nbrs(
                s,
                v,
            )[k2],
    decreases s.len(),
{
    if s.len() > 0 {
        let s0 = s.drop_last();
        assert(forall|i: int|
            0 <= i < s0.len() ==> edge_ok(#[trigger] s0[i], nrows, ncols)) by {
            assert(forall|i: int| 0 <= i < s0.len() ==> s0[i] == s[i]);
        }
        assert(!has_undirected_dup(s0)) by {
            if has_undirected_dup(s0) {
                let (i, j): (int, int) = choose|i: int, j: int|
                    0 <= i < j < s0.len() && crate::geometry::same_undirected(s0[i], s0[j]);
                assert(s[i] == s0[i] && s[j] == s0[j]);
            }
        }
        lemma_nbrs_distinct(s0, v, nrows, ncols);
        lemma_nbrs_occurs(s0, v);
        let e = s.last();
        let rest = nbrs(s0, v);
        if e.a == v || e.b == v {
            let w = if e.a == v {
                e.b
            } else {
                e.a
            };
            assert forall|k: int| 0 <= k < rest.len() implies #[trigger] rest[k] != w by {
                if rest[k] == w {
                    assert(occurs(s0, v, w));
                    let i = choose|i: int|
                        0 <= i < s0.len() && (((#[trigger] s0[i]).a == v && s0[i].b == w) || (
                        s0[i].a == w && s0[i].b == v));
                    assert(s[i] == s0[i]);
                    assert(crate::geometry::same_undirected(s[i], s[s.len() - 1]));
                }
            }
        }
    }
}

proof fn lemma_vid_bounds(v: Coord, nrows: int, ncols: int)
    requires
        in_lattice(v, nrows, ncols),
        nrows >= 0,
        ncols >= 0,
    ensures
        0 <= vid_spec(v, ncols) < (ncols + 1) * (nrows + 1),
        v.y * (ncols + 1) <= vid_spec(v, ncols),
{
    let x = v.x as int;
    let y = v.y as int;
    assert(0 <= y * (ncols + 1) + x < (ncols + 1) * (nrows + 1)) by (nonlinear_arith)
        requires
            0 <= x <= ncols,
            0 <= y <= nrows,
            ncols >= 0,
            nrows >= 0,
    ;
}

proof fn lemma_vid_injective(v: Coord, w: Coord, nrows: int, ncols: int)
    requires
        in_lattice(v, nrows, ncols),
        in_lattice(w, nrows, ncols),
        vid_spec(v, ncols) == vid_spec(w, ncols),
        nrows >= 0,
        ncols >= 0,
    ensures
        v == w,
{
    let (x1, y1, x2, y2): (int, int, int, int) = (v.x as int, v.y as int, w.x as int, w.y as int);
    assert(x1 == x2 && y1 == y2) by (nonlinear_arith)
        requires
            0 <= x1 <= ncols,
            0 <= x2 <= ncols,
            0 <= y1 <= ncols + nrows,
            0 <= y2 <= ncols + nrows,
            y1 * (ncols + 1) + x1 == y2 * (ncols + 1) + x2,
    ;
}

fn vid(v: Coord, nrows: usize, ncols: usize) -> (i: usize)
    requires
        in_lattice(v, nrows as int, ncols as int),
        (ncols + 1) * (nrows + 1) <= usize::MAX,
    ensures
        i == vid_spec(v, ncols as int),
        i < (ncols + 1) * (nrows + 1),
{
    proof {
        lemma_vid_bounds(v, nrows as int, ncols as int);
        assert((ncols + 1) <= (ncols + 1) * (nrows + 1)) by (nonlinear_arith)
            requires
                ncols >= 0,
                nrows >= 0,
        ;
    }
    v.y * (ncols + 1) + v.x
}

proof fn lemma_knot_interior(ns: Seq<Coord>, c: Coord, nrows: int, ncols: int)
    requires
        ns.len() == 4,
        forall|k: int|
            0 <= k < 4 ==> unit_adjacent(c, #[trigger] ns[k]) && in_lattice(ns[k], nrows, ncols),
        forall|k1: int, k2: int| 0 <= k1 < k2 < 4 ==> ns[k1] != ns[k2],
    ensures
        1 <= c.x,
        c.x + 1 <= ncols,
        1 <= c.y,
        c.y + 1 <= nrows,
{
    assert forall|k: int|
        0 <= k < 4 implies ((ns[k].x == c.x && ns[k].y == c.y + 1) || (ns[k].x == c.x && ns[k].y
        + 1 == c.y) || (ns[k].y == c.y && ns[k].x == c.x + 1) || (ns[k].y == c.y && ns[k].x + 1
        == c.x)) by {
        assert(unit_adjacent(c, ns[k]));
    }
    assert(ns[0] != ns[1] && ns[0] != ns[2] && ns[0] != ns[3] && ns[1] != ns[2] && ns[1] != ns[3]
        && ns[2] != ns[3]);
    assert(in_lattice(ns[0], nrows, ncols) && in_lattice(ns[1], nrows, ncols) && in_lattice(
        ns[2],
        nrows,
        ncols,
    ) && in_lattice(ns[3], nrows, ncols));
}

proof fn lemma_parity_step(a: Coord, b: Coord, s0: Coord, k: int)
    requires
        unit_adjacent(a, b),
        (a.x + a.y) % 2 == (s0.x + s0.y + k) % 2,
    ensures
        (b.x + b.y) % 2 == (s0.x + s0.y + k + 1) % 2,
{
    let m = s0.x + s0.y;
    assert(b.x + b.y == a.x + a.y + 1 || b.x + b.y + 1 == a.x + a.y);
    assert((a.x + a.y) % 2 == (m + k) % 2 ==> ((a.x + a.y + 1) % 2 == (m + k + 1) % 2 && (a.x
        + a.y - 1) % 2 == (m + k + 1) % 2)) by (nonlinear_arith);
}

/// The table's row for each lattice vertex lists exactly that vertex's
/// neighbors in the working edge sequence, in emission order.
pub open spec fn adj_inv(adj: Seq<Vec<Coord>>, s: Seq<Edge>, nrows: int, ncols: int) -> bool {
    adj.len() == (ncols + 1) * (nrows + 1) && (forall|v: Coord|
        in_lattice(v, nrows, ncols) ==> adj[vid_spec(v, ncols)]@ == #[trigger] nbrs(s, v))
}

/// Traces one closed ring out of the working edge set, starting at `start`,
/// stepping at degree-2 vertices to the neighbor the walk did not come from
/// and routing by [`knot_exit_spec`] at degree-4 knots, until the start
/// vertex is reached again.
#[verifier::rlimit(100)]
#[verifier::spinoff_prover]
fn trace_ring(
    adj: &Vec<Vec<Coord>>,
    start: Coord,
    id: u64,
    grid: &Grid,
    nedges: usize,
    Ghost(s): Ghost<Seq<Edge>>,
) -> (res: Result<Vec<Coord>, AssembleError>)
    requires
        grid.wf(),
        (grid.ncols_spec() + 1) * (grid.nrows_spec() + 1) <= usize::MAX,
        adj_inv(adj@, s, grid.nrows_spec(), grid.ncols_spec()),
        all_edges_ok(s, grid.nrows_spec(), grid.ncols_spec()),
        !has_undirected_dup(s),
        in_lattice(start, grid.nrows_spec(), grid.ncols_spec()),
        nedges == s.len(),
        s.len() > 0,
        start == s[0].a,
    ensures
        res matches Ok(ring) ==> {
            &&& ring_closed(ring@)
            &&& ring@[0] == start
            &&& (forall|i: int| 0 < i < ring@.len() - 1 ==> ring@[i] != start)
            &&& ring@[1] == step_spec(s, *grid, id, nbrs(s, start)[0], start)
            &&& (forall|i: int|
                1 <= i < ring@.len() - 1 ==> ring@[i + 1] == step_spec(
                    s,
                    *grid,
                    id,
                    ring@[i - 1],
                    #[trigger] ring@[i],
                ))
            &&& (forall|t: int|
                0 <= t < ring@.len() - 1 ==> occurs(s, #[trigger] ring@[t], ring@[t + 1]))
        },
        (degrees_ok(s, grid.nrows_spec(), grid.ncols_spec()) && knots_cb(s, *grid, id))
            ==> res is Ok,
        res matches Ok(ring) ==> ((degrees_ok(s, grid.nrows_spec(), grid.ncols_spec())
            && knots_cb(s, *grid, id)) ==> (forall|t1: int, t2: int|
            #![trigger ring@[t1], ring@[t2]]
            0 <= t1 < t2 < ring@.len() - 1 ==> norm_pair(ring@[t1], ring@[t1 + 1]) != norm_pair(
                ring@[t2],
                ring@[t2 + 1],
            ))),
{
    let nr = grid.nrows();
    let nc = grid.ncols();
    let ghost rr = grid.nrows_spec();
    let ghost cc = grid.ncols_spec();
    proof {
        assert(rr < usize::MAX && cc < usize::MAX) by (nonlinear_arith)
            requires
                (cc + 1) * (rr + 1) <= usize::MAX,
                rr >= 1,
                cc >= 1,
        ;
    }
    let si = vid(start, nr, nc);
    proof {
        lemma_nbrs_wf(s, start, rr, cc);
        assert(adj@[si as int]@ == nbrs(s, start));
        assert(occurs(s, s[0].a, s[0].b)) by {
            assert((s[0].a == s[0].a && s[0].b == s[0].b));
        }
        lemma_occurs_nbrs(s, start, s[0].b);
    }
    if adj[si].len() == 0 {
        return Err(AssembleError::Inconsistent);
    }
    let ghost p0 = nbrs(s, start)[0];
    let mut prev = adj[si][0];
    let mut cur = start;
    let mut ring: Vec<Coord> = Vec::new();
    let cap: u128 = 2 * (nedges as u128) + 2;
    let mut steps: u128 = 0;
    proof {
        lemma_nbrs_occurs(s, start);
        assert(occurs(s, start, p0));
        assert(occurs(s, p0, start));
    }
    let ghost mut hist: Seq<(Coord, Coord)> = Seq::empty().push((p0, start));
    loop
        invariant
            grid.wf(),
            rr == grid.nrows_spec(),
            cc == grid.ncols_spec(),
            nr == rr,
            nc == cc,
            (cc + 1) * (rr + 1) <= usize::MAX,
            rr < usize::MAX,
            cc < usize::MAX,
            adj_inv(adj@, s, rr, cc),
            all_edges_ok(s, rr, cc),
            !has_undirected_dup(s),
            in_lattice(start, rr, cc),
            in_lattice(cur, rr, cc),
            in_lattice(prev, rr, cc),
            unit_adjacent(prev, cur),
            steps == ring@.len(),
            steps < cap,
            p0 == nbrs(s, start)[0],
            steps == 0 ==> cur == start && prev == p0,
            steps > 0 ==> ring@[0] == start,
            steps > 0 ==> prev == ring@[steps - 1],
            steps > 0 ==> cur != start,
            forall|t: int| 1 <= t < steps ==> ring@[t] != start,
            steps == 1 ==> cur == step_spec(s, *grid, id, p0, start),
            steps >= 2 ==> ring@[1] == step_spec(s, *grid, id, p0, start),
            steps >= 2 ==> cur == step_spec(s, *grid, id, ring@[steps - 2], ring@[steps - 1]),
            forall|t: int|
                1 <= t <= steps - 2 ==> ring@[t + 1] == step_spec(
                    s,
                    *grid,
                    id,
                    ring@[t - 1],
                    #[trigger] ring@[t],
                ),
            forall|i: int| 0 <= i < ring@.len() - 1 ==> unit_adjacent(#[trigger] ring@[i], ring@[i + 1]),
            steps > 0 ==> unit_adjacent(ring@[steps - 1], cur),
            (cur.x + cur.y) % 2 == (start.x + start.y + steps) % 2,
            occurs(s, prev, cur),
            cap == 2 * s.len() + 2,
            hist.len() == steps + 1,
            hist[0] == ((p0, start)),
            hist[hist.len() - 1] == ((prev, cur)),
            forall|t: int| 0 <= t < hist.len() ==> occurs(s, (#[trigger] hist[t]).0, hist[t].1),
            forall|t: int|
                1 <= t < hist.len() ==> (#[trigger] hist[t]) == ((
                    hist[t - 1].1,
                    step_spec(s, *grid, id, hist[t - 1].0, hist[t - 1].1),
                )),
            forall|t: int| 1 <= t < hist.len() ==> (#[trigger] hist[t]).1 != start,
            forall|t: int|
                1 <= t < hist.len() - 1 ==> (#[trigger] hist[t]) == ((ring@[t - 1], ring@[t])),
            (degrees_ok(s, rr, cc) && knots_cb(s, *grid, id)) ==> (forall|t1: int, t2: int|
                0 <= t1 < t2 < hist.len() ==> #[trigger] hist[t1] != #[trigger] hist[t2]),
        decreases cap - steps,
    {
        ring.push(cur);
        steps = steps + 1;
        let ci = vid(cur, nr, nc);
        proof {
            lemma_vid_bounds(cur, rr, cc);
            assert(adj@[ci as int]@ == nbrs(s, cur));
            lemma_nbrs_wf(s, cur, rr, cc);
            lemma_nbrs_distinct(s, cur, rr, cc);
        }
        let deg = adj[ci].len();
        let nxt: Coord;
        if deg == 2 {
            if prev == adj[ci][0] {
                nxt = adj[ci][1];
            } else if prev == adj[ci][1] {
                nxt = adj[ci][0];
            } else {
                proof {
                    lemma_occurs_nbrs(s, cur, prev);
                    let k = choose|k: int|
                        0 <= k < nbrs(s, cur).len() && nbrs(s, cur)[k] == prev;
                    assert(adj@[ci as int]@[k] == prev);
                    assert(false);
                }
                return Err(AssembleError::Inconsistent);
            }
            assert(nxt != prev);
            assert(unit_adjacent(cur, nxt));
            proof {
                lemma_nbrs_occurs(s, cur);
                assert(occurs(s, cur, nxt));
            }
        } else if deg == 4 {
            proof {
                lemma_knot_interior(nbrs(s, cur), cur, rr, cc);
            }
            nxt = knot_exit(grid, id, prev, cur);
            proof {
                lemma_knot_all_four(s, cur, nxt, rr, cc);
                lemma_nbrs_occurs(s, cur);
                let k = choose|k: int| 0 <= k < nbrs(s, cur).len() && nbrs(s, cur)[k] == nxt;
                assert(occurs(s, cur, nxt));
            }
        } else {
            proof {
                if degrees_ok(s, rr, cc) {
                    lemma_occurs_nbrs(s, cur, prev);
                    assert(nbrs(s, cur).len() >= 1) by {
                        let k = choose|k: int|
                            0 <= k < nbrs(s, cur).len() && nbrs(s, cur)[k] == prev;
                    }
                    assert(false);
                }
            }
            return Err(AssembleError::Inconsistent);
        }
        proof {
            assert(nxt == step_spec(s, *grid, id, prev, cur));
            assert(occurs(s, cur, nxt));
        }
        if nxt == start {
            ring.push(start);
            proof {
                lemma_parity_step(cur, nxt, start, steps as int - 1);
                assert((start.x + start.y) % 2 == (start.x + start.y + steps) % 2);
                assert(steps % 2 == 0) by (nonlinear_arith)
                    requires
                        (start.x + start.y) % 2 == (start.x + start.y + steps) % 2,
                        steps >= 0,
                ;
                assert(steps != 1) by {
                    if steps == 1 {
                        assert(cur == start);
                        assert(unit_adjacent(start, start));
                    }
                }
                assert(steps != 2) by {
                    if steps == 2 {
                        assert(prev == ring@[0]);
                        assert(nxt != prev);
                    }
                }
                assert(steps >= 4);
                assert(ring@.len() == steps + 1);
                assert(ring@[0] == start);
                assert(ring@[ring@.len() - 1] == start);
                assert forall|i: int| 0 <= i < ring@.len() - 1 implies unit_adjacent(
                    #[trigger] ring@[i],
                    ring@[i + 1],
                ) by {
                    if i < ring@.len() - 2 {
                    } else {
                        assert(ring@[i] == cur);
                        assert(ring@[i + 1] == start);
                    }
                }
                assert forall|i: int| 0 < i < ring@.len() - 1 implies ring@[i] != start by {
                    if i == steps - 1 {
                        assert(ring@[i] == cur);
                    }
                }
                assert(ring@[1] == step_spec(s, *grid, id, p0, start));
                assert forall|i: int| 1 <= i < ring@.len() - 1 implies ring@[i + 1] == step_spec(
                    s,
                    *grid,
                    id,
                    ring@[i - 1],
                    #[trigger] ring@[i],
                ) by {
                    if i <= steps - 3 {
                    } else if i == steps - 2 {
                        assert(ring@[i + 1] == cur);
                        assert(cur == step_spec(s, *grid, id, ring@[i - 1], ring@[i]));
                    } else {
                        assert(i == steps - 1);
                        assert(ring@[i + 1] == start);
                        assert(ring@[i - 1] == prev);
                        assert(ring@[i] == cur);
                        assert(nxt == start);
                    }
                }
                let ext = hist.push((cur, nxt));
                assert forall|t: int| 1 <= t < ext.len() implies (#[trigger] ext[t]) == ((
                    ring@[t - 1],
                    ring@[t],
                )) by {
                    if t < ext.len() - 2 {
                        assert(ext[t] == hist[t]);
                    } else if t == ext.len() - 2 {
                        assert(ext[t] == hist[hist.len() - 1]);
                        assert(ring@[t - 1] == prev && ring@[t] == cur);
                    } else {
                        assert(ext[t] == ((cur, nxt)));
                    }
                }
                assert forall|t: int| 0 <= t < ext.len() implies occurs(
                    s,
                    (#[trigger] ext[t]).0,
                    ext[t].1,
                ) by {
                    if t < ext.len() - 1 {
                        assert(ext[t] == hist[t]);
                    }
                }
                assert forall|t: int| 0 <= t < ring@.len() - 1 implies occurs(
                    s,
                    #[trigger] ring@[t],
                    ring@[t + 1],
                ) by {
                    assert(ext[t + 1] == ((ring@[t], ring@[t + 1])));
                }
                if degrees_ok(s, rr, cc) && knots_cb(s, *grid, id) {
                    assert forall|t: int|
                        1 <= t < ext.len() implies (#[trigger] ext[t]) == ((
                        ext[t - 1].1,
                        step_spec(s, *grid, id, ext[t - 1].0, ext[t - 1].1),
                    )) by {
                        if t < ext.len() - 1 {
                            assert(ext[t] == hist[t] && ext[t - 1] == hist[t - 1]);
                        } else {
                            assert(ext[t] == ((cur, nxt)));
                            assert(ext[t - 1] == hist[hist.len() - 1]);
                        }
                    }
                    lemma_trace_pairs_distinct(s, *grid, id, ext, ring@);
                }
            }
            return Ok(ring);
        }
        if steps >= cap {
            proof {
                if degrees_ok(s, rr, cc) && knots_cb(s, *grid, id) {
                    lemma_distinct_codes_bound(s, hist, rr, cc);
                    assert(false);
                }
            }
            return Err(AssembleError::Inconsistent);
        }
        proof {
            lemma_parity_step(cur, nxt, start, steps as int - 1);
            if degrees_ok(s, rr, cc) && knots_cb(s, *grid, id) {
                lemma_hist_fresh(s, *grid, id, hist, prev, cur, nxt, start);
            }
            hist = hist.push((cur, nxt));
        }
        prev = cur;
        cur = nxt;
    }
}

/// Which labels lie around a knot decide the exit: the traced boundary must
/// keep hugging the `id` region on the same side, so the exit is read from
/// the incoming direction of travel and the grid cells beside the vertex.
pub open spec fn knot_exit_spec(g: Grid, id: u64, p: Coord, c: Coord) -> Coord {
    if p.x + 1 == c.x {  // traveling rightward into c
        if g.cell(c.y - 1, c.x - 1) == id {
            Coord { x: c.x, y: (c.y - 1) as usize }
        } else {
            Coord { x: c.x, y: (c.y + 1) as usize }
        }
    } else if p.x == c.x + 1 {  // traveling leftward
        if g.cell(c.y - 1, c.x as int) == id {
            Coord { x: c.x, y: (c.y - 1) as usize }
        } else {
            Coord { x: c.x, y: (c.y + 1) as usize }
        }
    } else if p.y + 1 == c.y {  // traveling downward
        if g.cell(c.y - 1, c.x - 1) == id {
            Coord { x: (c.x - 1) as usize, y: c.y }
        } else {
            Coord { x: (c.x + 1) as usize, y: c.y }
        }
    } else {  // traveling upward
        if g.cell(c.y as int, c.x - 1) == id {
            Coord { x: (c.x - 1) as usize, y: c.y }
        } else {
            Coord { x: (c.x + 1) as usize, y: c.y }
        }
    }
}

proof fn lemma_emseq_remove(s: Seq<Edge>, j: int)
    requires
        0 <= j < s.len(),
    ensures
        emseq(s.remove(j)) =~= emseq(s).remove(j),
{
    assert(forall|i: int| 0 <= i < s.remove(j).len() ==> #[trigger] emseq(s.remove(j))[i]
        == norm_edge(s.remove(j)[i]));
}

proof fn lemma_remove_keeps(s: Seq<Edge>, j: int, nrows: int, ncols: int)
    requires
        0 <= j < s.len(),
        all_edges_ok(s, nrows, ncols),
        !has_undirected_dup(s),
    ensures
        all_edges_ok(s.remove(j), nrows, ncols),
        !has_undirected_dup(s.remove(j)),
{
    let s2 = s.remove(j);
    assert forall|i: int| 0 <= i < s2.len() implies edge_ok(#[trigger] s2[i], nrows, ncols) by {
        if i < j {
            assert(s2[i] == s[i]);
        } else {
            assert(s2[i] == s[i + 1]);
        }
    }
    if has_undirected_dup(s2) {
        let (i1, i2): (int, int) = choose|i1: int, i2: int|
            0 <= i1 < i2 < s2.len() && same_undirected(s2[i1], s2[i2]);
        let o1: int = if i1 < j {
            i1
        } else {
            i1 + 1
        };
        let o2: int = if i2 < j {
            i2
        } else {
            i2 + 1
        };
        assert(s2[i1] == s[o1]);
        assert(s2[i2] == s[o2]);
        assert(0 <= o1 < o2 < s.len());
        assert(same_undirected(s[o1], s[o2]));
    }
}

proof fn lemma_mset_shuffle(
    total: Multiset<Edge>,
    wold: Multiset<Edge>,
    wnew: Multiset<Edge>,
    part: Multiset<Edge>,
    np: Edge,
)
    requires
        total == wold.add(part),
        wold.count(np) >= 1,
        wnew == wold.remove(np),
    ensures
        total == wnew.add(part.insert(np)),
{
    assert(total =~= wnew.add(part.insert(np)));
}

proof fn lemma_rings_msets_push(rs: Seq<Vec<Coord>>, r: Vec<Coord>)
    ensures
        rings_msets(rs.push(r)) == rings_msets(rs).add(ring_edges_seq(r@).to_multiset()),
{
    assert(rs.push(r).drop_last() =~= rs);
    assert(rs.push(r).last() == r);
}

proof fn lemma_vid_decode(i: int, nrows: int, ncols: int)
    requires
        0 <= i < (ncols + 1) * (nrows + 1),
        0 <= nrows <= usize::MAX,
        0 <= ncols <= usize::MAX,
    ensures
        ({
            let v = Coord { x: (i % (ncols + 1)) as usize, y: (i / (ncols + 1)) as usize };
            in_lattice(v, nrows, ncols) && vid_spec(v, ncols) == i
        }),
{
    let w = ncols + 1;
    assert(0 <= i % w < w && w * (i / w) + i % w == i && 0 <= i / w <= nrows) by (nonlinear_arith)
        requires
            w >= 1,
            0 <= i < w * (nrows + 1),
    ;
    let v = Coord { x: (i % w) as usize, y: (i / w) as usize };
    assert(vid_spec(v, ncols) == (i / w) * w + i % w);
    assert((i / w) * w == w * (i / w)) by (nonlinear_arith);
}

/// Builds the adjacency table of the working edge sequence: each edge's
/// endpoints list one another, in edge order.
fn build_adj(edges: &Vec<Edge>, nrows: usize, ncols: usize) -> (adj: Vec<Vec<Coord>>)
    requires
        all_edges_ok(edges@, nrows as int, ncols as int),
        (ncols + 1) * (nrows + 1) <= usize::MAX,
    ensures
        adj_inv(adj@, edges@, nrows as int, ncols as int),
{
    let ghost rr = nrows as int;
    let ghost cc = ncols as int;
    proof {
        assert(cc + 1 <= (cc + 1) * (rr + 1) && rr + 1 <= (cc + 1) * (rr + 1)) by (nonlinear_arith)
            requires
                rr >= 0,
                cc >= 0,
        ;
    }
    let lat: usize = (ncols + 1) * (nrows + 1);
    let mut adj: Vec<Vec<Coord>> = Vec::new();
    while adj.len() < lat
        invariant
            adj@.len() <= lat,
            forall|k: int| 0 <= k < adj@.len() ==> (#[trigger] adj@[k])@ == Seq::<Coord>::empty(),
        decreases lat - adj@.len(),
    {
        adj.push(Vec::new());
    }
    proof {
        assert(edges@.take(0) =~= Seq::<Edge>::empty());
        assert forall|v: Coord| in_lattice(v, rr, cc) implies adj@[vid_spec(v, cc)]@
            == #[trigger] nbrs(edges@.take(0), v) by {
            lemma_vid_bounds(v, rr, cc);
        }
    }
    let mut i: usize = 0;
    while i < edges.len()
        invariant
            0 <= i <= edges@.len(),
            nrows as int == rr,
            ncols as int == cc,
            adj@.len() == (cc + 1) * (rr + 1),
            (cc + 1) * (rr + 1) <= usize::MAX,
            all_edges_ok(edges@, rr, cc),
            forall|v: Coord|
                in_lattice(v, rr, cc) ==> adj@[vid_spec(v, cc)]@ == #[trigger] nbrs(
                    edges@.take(i as int),
                    v,
                ),
        decreases edges@.len() - i,
    {
        let e = edges[i];
        proof {
            assert(edge_ok(e, rr, cc));
            lemma_vid_bounds(e.a, rr, cc);
            lemma_vid_bounds(e.b, rr, cc);
        }
        let ghost adj0 = adj@;
        let ai = vid(e.a, nrows, ncols);
        adj[ai].push(e.b);
        let bi = vid(e.b, nrows, ncols);
        adj[bi].push(e.a);
        proof {
            assert(e.a != e.b);
            if vid_spec(e.a, cc) == vid_spec(e.b, cc) {
                lemma_vid_injective(e.a, e.b, rr, cc);
            }
            assert(ai != bi);
            assert(edges@.take(i + 1) =~= edges@.take(i as int).push(e));
            assert forall|v: Coord| in_lattice(v, rr, cc) implies adj@[vid_spec(v, cc)]@
                == #[trigger] nbrs(edges@.take(i + 1), v) by {
                lemma_nbrs_push(edges@.take(i as int), e, v);
                lemma_vid_bounds(v, rr, cc);
                if v == e.a {
                    assert(adj@[ai as int]@ == adj0[ai as int]@.push(e.b));
                } else if v == e.b {
                    assert(adj@[bi as int]@ == adj0[bi as int]@.push(e.a));
                } else {
                    if vid_spec(v, cc) == ai {
                        lemma_vid_injective(v, e.a, rr, cc);
                    }
                    if vid_spec(v, cc) == bi {
                        lemma_vid_injective(v, e.b, rr, cc);
                    }
                    assert(adj@[vid_spec(v, cc)]@ == adj0[vid_spec(v, cc)]@);
                }
            }
        }
        i += 1;
    }
    proof {
        assert(edges@.take(edges@.len() as int) =~= edges@);
    }
    adj
}

/// The edge at `j` in `s` is the unit segment between `x` and `y`.
pub open spec fn found_at(s: Seq<Edge>, j: int, x: Coord, y: Coord) -> bool {
    0 <= j < s.len() && same_undirected(s[j], Edge { a: x, b: y })
}

/// Finds the first occurrence of the unit segment between `x` and `y` in `w`.
fn find_undirected(w: &Vec<Edge>, x: Coord, y: Coord) -> (r: Option<usize>)
    ensures
        r matches Some(j) ==> found_at(w@, j as int, x, y) && j == find_first(w@, x, y),
        r is None ==> find_first(w@, x, y) == -1,
{
    let probe = Edge { a: x, b: y };
    let mut j: usize = 0;
    while j < w.len()
        invariant
            0 <= j <= w@.len(),
            probe == (Edge { a: x, b: y }),
            forall|t: int| 0 <= t < j ==> !same_undirected(#[trigger] w@[t], probe),
        decreases w@.len() - j,
    {
        if same_undirected_exec(&w[j], &probe) {
            assert(found_at(w@, j as int, x, y));
            proof {
                lemma_find_first_at(w@, x, y, j as int);
            }
            return Some(j);
        }
        j += 1;
    }
    proof {
        lemma_find_first_at(w@, x, y, w@.len() as int);
    }
    None
}

/// The exit out of a degree-four knot vertex, per [`knot_exit_spec`].
fn knot_exit(grid: &Grid, id: u64, p: Coord, c: Coord) -> (r: Coord)
    requires
        grid.wf(),
        unit_adjacent(p, c),
        in_lattice(p, grid.nrows_spec(), grid.ncols_spec()),
        1 <= c.x < grid.ncols_spec(),
        1 <= c.y < grid.nrows_spec(),
        grid.nrows_spec() < usize::MAX,
        grid.ncols_spec() < usize::MAX,
    ensures
        r == knot_exit_spec(*grid, id, p, c),
        unit_adjacent(c, r),
        r != p,
        in_lattice(r, grid.nrows_spec(), grid.ncols_spec()),
{
    let row = c.y;
    let col = c.x;
    if p.x + 1 == c.x {
        if grid.at(row - 1, col - 1) == id {
            Coord { x: col, y: row - 1 }
        } else {
            Coord { x: col, y: row + 1 }
        }
    } else if p.x == c.x + 1 {
        if grid.at(row - 1, col) == id {
            Coord { x: col, y: row - 1 }
        } else {
            Coord { x: col, y: row + 1 }
        }
    } else if p.y + 1 == c.y {
        if grid.at(row - 1, col - 1) == id {
            Coord { x: col - 1, y: row }
        } else {
            Coord { x: col + 1, y: row }
        }
    } else {
        if grid.at(row, col - 1) == id {
            Coord { x: col - 1, y: row }
        } else {
            Coord { x: col + 1, y: row }
        }
    }
}

/// Assembles one label's unordered boundary edges into ordered closed rings.
///
/// The edges are validated first: every edge must be a unit segment of the
/// grid's lattice, no unit segment may occur twice, and every lattice vertex
/// must touch 0, 2 or 4 edges; a violation is reported as an error, never
/// traced into wrong rings. Rings are then extracted one at a time: the first
/// remaining edge's first endpoint starts a ring, tracing steps to the other
/// neighbor at degree-2 vertices and routes by [`knot_exit_spec`] at
/// degree-4 knots, and every edge the completed ring walked is removed from
/// the working set, until no edge remains.
///
/// On success the rings consume, as an unordered multiset, exactly the input
/// edges, and each ring is closed, unit-stepped and at least five vertices
/// long. Each ring is moreover exactly the walk [`is_trace`] describes on
/// its working edge sequence [`workings`]: rings come in extraction order,
/// each starts at the first endpoint of the first remaining edge, takes its
/// initial direction from adjacency order, follows the grid's knot rule at
/// every degree-4 vertex, and closes at its first return to its start — so
/// equal inputs determine equal successful results.
///
/// Success is owed on the extractor's own output: whenever the edges are,
/// once each, exactly those [`crate::extract::emits_edge`] gives this label
/// on this grid, the call returns rings — every degree-4 vertex of such an
/// edge set is a checkerboard knot, the knot rule is then an involution, so
/// the traced walk is a bijective successor chain that must close, consumes
/// no unit segment twice, and leaves the remaining edges manifold.
#[verifier::rlimit(100)]
#[verifier::spinoff_prover]
pub fn edges_to_multilinestring(id: u64, edges: &Vec<Edge>, grid: &Grid) -> (res: Result<
    Vec<Vec<Coord>>,
    AssembleError,
>)
    requires
        grid.wf(),
        (grid.ncols_spec() + 1) * (grid.nrows_spec() + 1) <= usize::MAX,
    ensures
        res == Err::<Vec<Vec<Coord>>, AssembleError>(AssembleError::InvalidEdge)
            <==> !all_edges_ok(edges@, grid.nrows_spec(), grid.ncols_spec()),
        res == Err::<Vec<Vec<Coord>>, AssembleError>(AssembleError::NonManifold) <==> (
        all_edges_ok(edges@, grid.nrows_spec(), grid.ncols_spec()) && (has_undirected_dup(edges@)
            || !degrees_ok(edges@, grid.nrows_spec(), grid.ncols_spec()))),
        res matches Ok(rings) ==> ({
            &&& forall|k: int| 0 <= k < rings@.len() ==> ring_wf((#[trigger] rings@[k])@)
            &&& rings_msets(rings@) == emseq(edges@).to_multiset()
            &&& all_edges_ok(edges@, grid.nrows_spec(), grid.ncols_spec())
            &&& !has_undirected_dup(edges@)
            &&& degrees_ok(edges@, grid.nrows_spec(), grid.ncols_spec())
            &&& (edges@.len() == 0 ==> rings@.len() == 0)
            &&& (forall|k: int|
                0 <= k < rings@.len() ==> is_trace(
                    #[trigger] workings(edges@, rings@, k),
                    *grid,
                    id,
                    rings@[k]@,
                ))
            &&& workings(edges@, rings@, rings@.len() as int).len() == 0
        }),
        edges@.len() == 0 ==> (res matches Ok(rings) && rings@.len() == 0),
        ((forall|e: Edge| #[trigger] edges@.contains(e) <==> emits_edge(*grid, id, e))
            && edges@.no_duplicates()) ==> res is Ok,
{
    let ghost rr = grid.nrows_spec();
    let ghost cc = grid.ncols_spec();
    let nr = grid.nrows();
    let nc = grid.ncols();
    let ghost ex = (forall|e: Edge| #[trigger] edges@.contains(e) <==> emits_edge(*grid, id, e))
        && edges@.no_duplicates();
    proof {
        if ex {
            lemma_extraction_is_manifold(*grid, id, edges@);
            lemma_extraction_checkerboard(*grid, id, edges@);
        }
    }
    let mut i: usize = 0;
    while i < edges.len()
        invariant
            grid.wf(),
            rr == grid.nrows_spec(),
            cc == grid.ncols_spec(),
            nr == rr,
            nc == cc,
            0 <= i <= edges@.len(),
            ex == ((forall|e: Edge| #[trigger] edges@.contains(e) <==> emits_edge(*grid, id, e))
                && edges@.no_duplicates()),
            forall|t: int| 0 <= t < i ==> edge_ok(#[trigger] edges@[t], rr, cc),
        decreases edges@.len() - i,
    {
        if !edge_ok_exec(&edges[i], nr, nc) {
            assert(!edge_ok(edges@[i as int], rr, cc));
            assert(!all_edges_ok(edges@, rr, cc));
            proof {
                if ex {
                    lemma_extraction_is_manifold(*grid, id, edges@);
                }
            }
            return Err(AssembleError::InvalidEdge);
        }
        i += 1;
    }
    assert(all_edges_ok(edges@, rr, cc));
    let mut a: usize = 0;
    while a < edges.len()
        invariant
            grid.wf(),
            rr == grid.nrows_spec(),
            cc == grid.ncols_spec(),
            nr == rr,
            nc == cc,
            0 <= a <= edges@.len(),
            all_edges_ok(edges@, rr, cc),
            ex == ((forall|e: Edge| #[trigger] edges@.contains(e) <==> emits_edge(*grid, id, e))
                && edges@.no_duplicates()),
            forall|p: int, q: int|
                0 <= p < q < edges@.len() && p < a ==> !same_undirected(
                    #[trigger] edges@[p],
                    #[trigger] edges@[q],
                ),
        decreases edges@.len() - a,
    {
        let mut b: usize = a + 1;
        while b < edges.len()
            invariant
                grid.wf(),
                rr == grid.nrows_spec(),
                cc == grid.ncols_spec(),
                nr == rr,
                nc == cc,
                0 <= a < edges@.len(),
                a < b <= edges@.len(),
                all_edges_ok(edges@, rr, cc),
                forall|p: int, q: int|
                    0 <= p < q < edges@.len() && p < a ==> !same_undirected(
                        #[trigger] edges@[p],
                        #[trigger] edges@[q],
                    ),
                forall|q: int|
                    a < q < b ==> !same_undirected(edges@[a as int], #[trigger] edges@[q]),
                ex == ((forall|e: Edge|
                    #[trigger] edges@.contains(e) <==> emits_edge(*grid, id, e))
                    && edges@.no_duplicates()),
            decreases edges@.len() - b,
        {
            if same_undirected_exec(&edges[a], &edges[b]) {
                assert(has_undirected_dup(edges@));
                proof {
                    if ex {
                        lemma_extraction_is_manifold(*grid, id, edges@);
                    }
                }
                return Err(AssembleError::NonManifold);
            }
            b += 1;
        }
        a += 1;
    }
    assert(!has_undirected_dup(edges@));
    let adj0 = build_adj(edges, nr, nc);
    proof {
        assert(cc + 1 <= (cc + 1) * (rr + 1) && rr + 1 <= (cc + 1) * (rr + 1)) by (nonlinear_arith)
            requires
                rr >= 1,
                cc >= 1,
        ;
    }
    let lat: usize = (nc + 1) * (nr + 1);
    let mut vi: usize = 0;
    while vi < lat
        invariant
            grid.wf(),
            rr == grid.nrows_spec(),
            cc == grid.ncols_spec(),
            nr == rr,
            nc == cc,
            0 <= vi <= lat,
            lat == (cc + 1) * (rr + 1),
            adj_inv(adj0@, edges@, rr, cc),
            all_edges_ok(edges@, rr, cc),
            !has_undirected_dup(edges@),
            ex == ((forall|e: Edge| #[trigger] edges@.contains(e) <==> emits_edge(*grid, id, e))
                && edges@.no_duplicates()),
            forall|v: Coord|
                in_lattice(v, rr, cc) && vid_spec(v, cc) < vi ==> {
                    let d = (#[trigger] nbrs(edges@, v)).len();
                    d == 0 || d == 2 || d == 4
                },
        decreases lat - vi,
    {
        let d = adj0[vi].len();
        proof {
            lemma_vid_decode(vi as int, rr, cc);
        }
        let ghost v = Coord {
            x: ((vi as int) % (cc + 1)) as usize,
            y: ((vi as int) / (cc + 1)) as usize,
        };
        proof {
            assert(adj0@[vid_spec(v, cc)]@ == nbrs(edges@, v));
        }
        if d != 0 && d != 2 && d != 4 {
            proof {
                assert(!degrees_ok(edges@, rr, cc));
                assert(edges@.len() > 0) by {
                    if edges@.len() == 0 {
                        assert(nbrs(edges@, v).len() == 0);
                    }
                }
                if ex {
                    lemma_extraction_is_manifold(*grid, id, edges@);
                }
            }
            return Err(AssembleError::NonManifold);
        }
        proof {
            assert forall|w: Coord| in_lattice(w, rr, cc) && vid_spec(w, cc) < vi + 1 implies {
                let dw = (#[trigger] nbrs(edges@, w)).len();
                dw == 0 || dw == 2 || dw == 4
            } by {
                if vid_spec(w, cc) == vi as int {
                    lemma_vid_injective(w, v, rr, cc);
                }
            }
        }
        vi += 1;
    }
    proof {
        assert forall|v: Coord| in_lattice(v, rr, cc) implies {
            let d = (#[trigger] nbrs(edges@, v)).len();
            d == 0 || d == 2 || d == 4
        } by {
            lemma_vid_bounds(v, rr, cc);
        }
        assert(degrees_ok(edges@, rr, cc));
    }
    let mut working: Vec<Edge> = Vec::new();
    let mut k: usize = 0;
    while k < edges.len()
        invariant
            0 <= k <= edges@.len(),
            working@ == edges@.take(k as int),
        decreases edges@.len() - k,
    {
        working.push(edges[k]);
        proof {
            assert(edges@.take(k + 1) =~= edges@.take(k as int).push(edges@[k as int]));
        }
        k += 1;
    }
    proof {
        assert(edges@.take(edges@.len() as int) =~= edges@);
    }
    let mut rings: Vec<Vec<Coord>> = Vec::new();
    while working.len() != 0
        invariant
            grid.wf(),
            rr == grid.nrows_spec(),
            cc == grid.ncols_spec(),
            nr == rr,
            nc == cc,
            (cc + 1) * (rr + 1) <= usize::MAX,
            all_edges_ok(working@, rr, cc),
            !has_undirected_dup(working@),
            all_edges_ok(edges@, rr, cc),
            !has_undirected_dup(edges@),
            degrees_ok(edges@, rr, cc),
            emseq(edges@).to_multiset() == rings_msets(rings@).add(emseq(working@).to_multiset()),
            forall|t: int| 0 <= t < rings@.len() ==> ring_wf((#[trigger] rings@[t])@),
            edges@.len() == 0 ==> working@.len() == 0,
            ex == ((forall|e: Edge| #[trigger] edges@.contains(e) <==> emits_edge(*grid, id, e))
                && edges@.no_duplicates()),
            ex ==> degrees_ok(working@, rr, cc),
            ex ==> knots_cb(working@, *grid, id),
            working@ == workings(edges@, rings@, rings@.len() as int),
            forall|k: int|
                0 <= k < rings@.len() ==> is_trace(
                    #[trigger] workings(edges@, rings@, k),
                    *grid,
                    id,
                    rings@[k]@,
                ),
        decreases working@.len(),
    {
        let adj = build_adj(&working, nr, nc);
        let start = working[0].a;
        proof {
            assert(edge_ok(working@[0], rr, cc));
        }
        let ring = match trace_ring(&adj, start, id, grid, working.len(), Ghost(working@)) {
            Ok(r) => r,
            Err(_) => {
                proof {
                    if ex {
                        assert(false);
                    }
                }
                return Err(AssembleError::Inconsistent);
            },
        };
        let ghost w0 = working@;
        proof {
            assert(ring_wf(ring@));
            assert(is_trace(w0, *grid, id, ring@));
        }
        let ghost rseq = ring_edges_seq(ring@);
        let nsteps: usize = ring.len() - 1;
        proof {
            if ex {
                assert forall|u: int|
                    0 <= u < nsteps implies emseq(w0).to_multiset().count(
                    norm_pair(#[trigger] ring@[u], ring@[u + 1]),
                ) >= 1 by {
                    lemma_occurs_count(w0, ring@[u], ring@[u + 1]);
                }
            }
        }
        let mut t: usize = 0;
        while t < nsteps
            invariant
                rr == grid.nrows_spec(),
                cc == grid.ncols_spec(),
                rr >= 1,
                cc >= 1,
                edges@.len() > 0,
                all_edges_ok(edges@, rr, cc),
                !has_undirected_dup(edges@),
                degrees_ok(edges@, rr, cc),
                ring_wf(ring@),
                rseq == ring_edges_seq(ring@),
                nsteps == ring@.len() - 1,
                0 <= t <= nsteps,
                all_edges_ok(working@, rr, cc),
                !has_undirected_dup(working@),
                working@.len() == w0.len() - t,
                working@ == consume_steps(w0, ring@, t as int),
                emseq(w0).to_multiset() == emseq(working@).to_multiset().add(
                    rseq.take(t as int).to_multiset(),
                ),
                ex == ((forall|e: Edge|
                    #[trigger] edges@.contains(e) <==> emits_edge(*grid, id, e))
                    && edges@.no_duplicates()),
                all_edges_ok(w0, rr, cc),
                forall|u: int| 0 <= u < nsteps ==> occurs(w0, #[trigger] ring@[u], ring@[u + 1]),
                ex ==> (forall|t1: int, t2: int|
                    #![trigger ring@[t1], ring@[t2]]
                    0 <= t1 < t2 < nsteps ==> norm_pair(ring@[t1], ring@[t1 + 1]) != norm_pair(
                        ring@[t2],
                        ring@[t2 + 1],
                    )),
                ex ==> (forall|u: int|
                    t <= u < nsteps ==> emseq(working@).to_multiset().count(
                        norm_pair(#[trigger] ring@[u], ring@[u + 1]),
                    ) >= 1),
                ex ==> (forall|v: Coord|
                    in_lattice(v, rr, cc) ==> (#[trigger] nbrs(working@, v)).len() == nbrs(
                        w0,
                        v,
                    ).len() - steps_at(ring@, v, t as int)),
            decreases nsteps - t,
        {
            let x = ring[t];
            let y = ring[t + 1];
            match find_undirected(&working, x, y) {
                Some(j) => {
                    let ghost wold = working@;
                    proof {
                        assert(found_at(wold, j as int, x, y));
                        assert(norm_edge(wold[j as int]) == norm_pair(x, y));
                        assert(rseq[t as int] == norm_pair(x, y));
                        assert(rseq.take(t + 1) =~= rseq.take(t as int).push(norm_pair(x, y)));
                        lemma_emseq_remove(wold, j as int);
                        lemma_remove_keeps(wold, j as int, rr, cc);
                    }
                    working.remove(j);
                    proof {
                        let em_old = emseq(wold);
                        let em_new = emseq(working@);
                        assert(working@ == wold.remove(j as int));
                        assert(em_new =~= em_old.remove(j as int));
                        assert(em_old.remove(j as int).to_multiset() == em_old.to_multiset()
                            .remove(em_old[j as int]));
                        assert(em_old[j as int] == norm_pair(x, y));
                        assert(em_old.to_multiset().count(norm_pair(x, y)) >= 1) by {
                            assert(em_old.contains(norm_pair(x, y)));
                        }
                        lemma_mset_shuffle(
                            emseq(w0).to_multiset(),
                            em_old.to_multiset(),
                            em_new.to_multiset(),
                            rseq.take(t as int).to_multiset(),
                            norm_pair(x, y),
                        );
                        assert(rseq.take(t + 1).to_multiset() == rseq.take(
                            t as int,
                        ).to_multiset().insert(norm_pair(x, y)));
                        assert(consume_steps(w0, ring@, t + 1) == wold.remove(j as int)) by {
                            assert(consume_steps(w0, ring@, t as int) == wold);
                            assert(ring@[t as int] == x && ring@[t + 1] == y);
                            assert(find_first(wold, x, y) == j as int);
                        }
                        if ex {
                            assert(edge_ok(wold[j as int], rr, cc));
                            assert((wold[j as int].a == x && wold[j as int].b == y) || (
                            wold[j as int].a == y && wold[j as int].b == x));
                            assert forall|u: int|
                                t + 1 <= u < nsteps implies emseq(working@).to_multiset().count(
                                norm_pair(#[trigger] ring@[u], ring@[u + 1]),
                            ) >= 1 by {
                                assert(norm_pair(ring@[t as int], ring@[t + 1]) != norm_pair(
                                    ring@[u],
                                    ring@[u + 1],
                                ));
                            }
                            assert forall|v: Coord| in_lattice(v, rr, cc) implies (
                            #[trigger] nbrs(working@, v)).len() == nbrs(w0, v).len() - steps_at(
                                ring@,
                                v,
                                t + 1,
                            ) by {
                                lemma_nbrs_remove(wold, j as int, v);
                                assert((wold[j as int].a == v || wold[j as int].b == v) == (
                                ring@[t as int] == v || ring@[t + 1] == v));
                            }
                        }
                    }
                },
                None => {
                    proof {
                        if ex {
                            assert(emseq(working@).to_multiset().count(norm_pair(x, y)) >= 1) by {
                                assert(ring@[t as int] == x && ring@[t + 1] == y);
                            }
                            assert(emseq(working@).contains(norm_pair(x, y)));
                            let i2 = choose|i2: int|
                                0 <= i2 < emseq(working@).len() && emseq(working@)[i2]
                                    == norm_pair(x, y);
                            assert(same_undirected(working@[i2], Edge { a: x, b: y }));
                            lemma_find_first_props(working@, x, y);
                            assert(false);
                        }
                    }
                    return Err(AssembleError::Inconsistent);
                },
            }
            t += 1;
        }
        proof {
            assert(rseq.take(nsteps as int) =~= rseq);
            if ex {
                lemma_residual_manifold(*grid, id, w0, working@, ring@, rr, cc);
            }
        }
        let ghost rings0 = rings@;
        rings.push(ring);
        proof {
            lemma_rings_msets_push(rings0, ring);
            assert(emseq(edges@).to_multiset() =~= rings_msets(rings@).add(
                emseq(working@).to_multiset(),
            ));
            assert(forall|k: int| 0 <= k < rings0.len() ==> rings@[k] == rings0[k]);
            lemma_workings_prefix(edges@, rings@, rings0, rings0.len() as int);
            assert(workings(edges@, rings@, rings0.len() as int) == w0);
            assert(rings@[rings@.len() - 1] == ring);
            assert(workings(edges@, rings@, rings@.len() as int) == consume_steps(
                w0,
                ring@,
                ring@.len() - 1,
            ));
            assert(working@ == workings(edges@, rings@, rings@.len() as int));
            assert forall|k: int| 0 <= k < rings@.len() implies is_trace(
                #[trigger] workings(edges@, rings@, k),
                *grid,
                id,
                rings@[k]@,
            ) by {
                lemma_workings_prefix(edges@, rings@, rings0, k);
                if k == rings0.len() {
                    assert(workings(edges@, rings@, k) == w0);
                    assert(rings@[k] == ring);
                }
            }
        }
    }
    proof {
        assert(emseq(working@).len() == 0);
        assert(emseq(working@).to_multiset() =~= Multiset::<Edge>::empty());
        assert(rings_msets(rings@).add(Multiset::<Edge>::empty()) =~= rings_msets(rings@));
        if edges@.len() == 0 {
            if rings@.len() > 0 {
                assert(ring_wf(rings@[rings@.len() - 1]@));
                assert(rings_msets(rings@) == rings_msets(rings@.drop_last()).add(
                    ring_edges_seq(rings@.last()@).to_multiset(),
                ));
                assert(ring_edges_seq(rings@.last()@).to_multiset().len() >= 4);
                assert(emseq(edges@).to_multiset().len() == 0);
            }
        }
    }
    Ok(rings)
}

} // verus!
