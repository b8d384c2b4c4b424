use crate::assemble::{cb_at, degrees_ok, knots_cb, nbrs, rings_msets};
use crate::extract::{emits_edge, is_h, is_v, lemma_push_contains};
use crate::geometry::{
    all_edges_ok, edge_ok, emseq, has_undirected_dup, in_lattice, norm_edge, same_undirected,
    Coord, Edge,
};
use crate::grid::Grid;
use vstd::prelude::*;

verus! {

broadcast use vstd::seq_lib::group_to_multiset_ensures, vstd::multiset::group_multiset_axioms;

/// Law: the assembled rings of one label walk exactly that label's extracted
/// boundary, edge for edge. Whenever `s` is the edge list the extractor
/// emitted for label `l` on grid `g` (membership characterized by
/// [`emits_edge`], duplicate-free, as `marching_squares` ensures) and `rings`
/// consumed `s` exactly (as `edges_to_multilinestring` ensures on success),
/// the rings traverse each edge the extractor emitted for `l` exactly once,
/// and no other edge. Since [`emits_edge`] attributes each interior edge to
/// exactly its two differing neighbor labels and each border edge to the
/// border cell's own label, applying this to every label shows that the
/// rings of all labels together cover the full extracted edge lattice with
/// no edge lost or duplicated.
pub proof fn lemma_rings_cover_extraction(
    g: Grid,
    l: u64,
    s: Seq<Edge>,
    rings: Seq<Vec<crate::geometry::Coord>>,
    e: Edge,
)
    requires
        forall|e2: Edge| #[trigger] s.contains(e2) <==> emits_edge(g, l, e2),
        s.no_duplicates(),
        rings_msets(rings) == emseq(s).to_multiset(),
    ensures
        rings_msets(rings).count(e) == (if emits_edge(g, l, e) {
            1nat
        } else {
            0nat
        }),
{
    assert forall|i: int| 0 <= i < s.len() implies #[trigger] norm_edge(s[i]) == s[i] by {
        assert(s.contains(s[i]));
        assert(emits_edge(g, l, s[i]));
    }
    assert(emseq(s) =~= s);
    if emits_edge(g, l, e) {
        assert(s.contains(e));
        s.lemma_multiset_has_no_duplicates();
        assert(s.to_multiset().count(e) == 1);
    } else {
        assert(!s.contains(e));
        assert(s.to_multiset().count(e) == 0);
    }
}

/// The vertical edge arriving at `v` from above.
pub open spec fn cand_up(v: Coord) -> Edge {
    Edge { a: Coord { x: v.x, y: (v.y - 1) as usize }, b: v }
}

/// The vertical edge leaving `v` downward.
pub open spec fn cand_down(v: Coord) -> Edge {
    Edge { a: v, b: Coord { x: v.x, y: (v.y + 1) as usize } }
}

/// The horizontal edge arriving at `v` from the left.
pub open spec fn cand_left(v: Coord) -> Edge {
    Edge { a: Coord { x: (v.x - 1) as usize, y: v.y }, b: v }
}

/// The horizontal edge leaving `v` rightward.
pub open spec fn cand_right(v: Coord) -> Edge {
    Edge { a: v, b: Coord { x: (v.x + 1) as usize, y: v.y } }
}

/// One when the sequence holds the edge, zero otherwise.
pub open spec fn ind(s: Seq<Edge>, e: Edge) -> int {
    if s.contains(e) {
        1
    } else {
        0
    }
}

proof fn lemma_nbrs_len_counts(s: Seq<Edge>, v: Coord)
    requires
        s.no_duplicates(),
        forall|i: int| 0 <= i < s.len() ==> is_h(#[trigger] s[i]) || is_v(s[i]),
    ensures
        nbrs(s, v).len() == ind(s, cand_up(v)) + ind(s, cand_down(v)) + ind(s, cand_left(v)) + ind(
            s,
            cand_right(v),
        ),
    decreases s.len(),
{
    if s.len() == 0 {
        assert(!s.contains(cand_up(v)));
        assert(!s.contains(cand_down(v)));
        assert(!s.contains(cand_left(v)));
        assert(!s.contains(cand_right(v)));
    } else {
        let s0 = s.drop_last();
        let e = s.last();
        assert(forall|i: int| 0 <= i < s0.len() ==> s0[i] == s[i]);
        assert(s0.no_duplicates());
        lemma_nbrs_len_counts(s0, v);
        assert(s =~= s0.push(e));
        lemma_push_contains(s0, e);
        assert(!s0.contains(e)) by {
            if s0.contains(e) {
                let i = choose|i: int| 0 <= i < s0.len() && s0[i] == e;
                assert(s[i] == s[s.len() - 1]);
            }
        }
        assert(is_h(e) || is_v(e));
        if e.a == v || e.b == v {
            assert(e == cand_up(v) || e == cand_down(v) || e == cand_left(v) || e == cand_right(
                v,
            ));
        }
    }
}

proof fn lemma_incident_even(g: Grid, l: u64, s: Seq<Edge>, v: Coord)
    requires
        g.wf(),
        g.nrows_spec() <= usize::MAX,
        g.ncols_spec() <= usize::MAX,
        in_lattice(v, g.nrows_spec(), g.ncols_spec()),
        forall|e: Edge| #[trigger] s.contains(e) <==> emits_edge(g, l, e),
    ensures
        ({
            let k = ind(s, cand_up(v)) + ind(s, cand_down(v)) + ind(s, cand_left(v)) + ind(
                s,
                cand_right(v),
            );
            k == 0 || k == 2 || k == 4
        }),
{
    let nr = g.nrows_spec();
    let nc = g.ncols_spec();
    let x = v.x as int;
    let y = v.y as int;
    // whether each of the four cells around `v` carries label `l`; a cell
    // outside the grid counts as not carrying it
    let ul = x >= 1 && y >= 1 && g.cell(y - 1, x - 1) == l;
    let ur = x <= nc - 1 && y >= 1 && g.cell(y - 1, x) == l;
    let dl = x >= 1 && y <= nr - 1 && g.cell(y, x - 1) == l;
    let dr = x <= nc - 1 && y <= nr - 1 && g.cell(y, x) == l;
    assert(s.contains(cand_up(v)) <==> emits_edge(g, l, cand_up(v)));
    assert(s.contains(cand_down(v)) <==> emits_edge(g, l, cand_down(v)));
    assert(s.contains(cand_left(v)) <==> emits_edge(g, l, cand_left(v)));
    assert(s.contains(cand_right(v)) <==> emits_edge(g, l, cand_right(v)));
    assert(emits_edge(g, l, cand_up(v)) == (ul != ur)) by {
        if y >= 1 {
            assert(cand_up(v).a.y as int == y - 1);
            assert(is_v(cand_up(v)) && !is_h(cand_up(v)));
        } else {
            assert(!is_v(cand_up(v)) && !is_h(cand_up(v)));
        }
    }
    assert(emits_edge(g, l, cand_down(v)) == (dl != dr)) by {
        if y + 1 <= usize::MAX {
            assert(cand_down(v).b.y as int == y + 1);
            if y < nr {
                assert(is_v(cand_down(v)) && !is_h(cand_down(v)));
            }
        } else {
            assert(!is_v(cand_down(v)) && !is_h(cand_down(v)));
        }
    }
    assert(emits_edge(g, l, cand_left(v)) == (ul != dl)) by {
        if x >= 1 {
            assert(cand_left(v).a.x as int == x - 1);
            assert(is_h(cand_left(v)) && !is_v(cand_left(v)));
        } else {
            assert(!is_v(cand_left(v)) && !is_h(cand_left(v)));
        }
    }
    assert(emits_edge(g, l, cand_right(v)) == (ur != dr)) by {
        if x + 1 <= usize::MAX {
            assert(cand_right(v).b.x as int == x + 1);
            if x < nc {
                assert(is_h(cand_right(v)) && !is_v(cand_right(v)));
            }
        } else {
            assert(!is_v(cand_right(v)) && !is_h(cand_right(v)));
        }
    }
}

/// Law: the edge set the extractor emits for any label is a manifold
/// boundary — exactly what the assembler's validation asks of its input.
/// Whenever `s` holds, once each, precisely the edges that [`emits_edge`]
/// gives to label `l` on grid `g` (as `marching_squares` ensures), then
/// every edge is a unit segment of the grid's lattice, no unit segment
/// occurs twice in either orientation, and every lattice vertex touches 0,
/// 2 or 4 of the edges. By the error clauses of `edges_to_multilinestring`,
/// assembling such an edge set therefore never reports an invalid edge or a
/// non-manifold boundary.
pub proof fn lemma_extraction_is_manifold(g: Grid, l: u64, s: Seq<Edge>)
    requires
        g.wf(),
        g.nrows_spec() <= usize::MAX,
        g.ncols_spec() <= usize::MAX,
        s.no_duplicates(),
        forall|e: Edge| #[trigger] s.contains(e) <==> emits_edge(g, l, e),
    ensures
        all_edges_ok(s, g.nrows_spec(), g.ncols_spec()),
        !has_undirected_dup(s),
        degrees_ok(s, g.nrows_spec(), g.ncols_spec()),
{
    let nr = g.nrows_spec();
    let nc = g.ncols_spec();
    assert forall|i: int| 0 <= i < s.len() implies edge_ok(#[trigger] s[i], nr, nc) && (is_h(s[i])
        || is_v(s[i])) by {
        assert(s.contains(s[i]));
        assert(emits_edge(g, l, s[i]));
    }
    assert(!has_undirected_dup(s)) by {
        if has_undirected_dup(s) {
            let (i, j): (int, int) = choose|i: int, j: int|
                0 <= i < j < s.len() && same_undirected(s[i], s[j]);
            assert(norm_edge(s[i]) == s[i]);
            assert(norm_edge(s[j]) == s[j]);
        }
    }
    assert forall|v: Coord| in_lattice(v, nr, nc) implies {
        let d = (#[trigger] nbrs(s, v)).len();
        d == 0 || d == 2 || d == 4
    } by {
        lemma_nbrs_len_counts(s, v);
        lemma_incident_even(g, l, s, v);
    }
}

/// Law: every degree-four vertex of an extracted edge set is a checkerboard
/// knot — exactly one diagonal pair of its four cells carries the label.
/// This is what lets the assembler's knot rule route unambiguously.
pub proof fn lemma_extraction_checkerboard(g: Grid, l: u64, s: Seq<Edge>)
    requires
        g.wf(),
        g.nrows_spec() <= usize::MAX,
        g.ncols_spec() <= usize::MAX,
        s.no_duplicates(),
        forall|e: Edge| #[trigger] s.contains(e) <==> emits_edge(g, l, e),
    ensures
        knots_cb(s, g, l),
{
    let nr = g.nrows_spec();
    let nc = g.ncols_spec();
    assert forall|v: Coord|
        in_lattice(v, nr, nc) && (#[trigger] nbrs(s, v)).len() == 4 implies cb_at(g, l, v) by {
        assert(forall|i: int| 0 <= i < s.len() ==> is_h(#[trigger] s[i]) || is_v(s[i])) by {
            assert forall|i: int| 0 <= i < s.len() implies is_h(#[trigger] s[i]) || is_v(s[i]) by {
                assert(s.contains(s[i]));
            }
        }
        lemma_nbrs_len_counts(s, v);
        assert(s.contains(cand_up(v)) && s.contains(cand_down(v)) && s.contains(cand_left(v))
            && s.contains(cand_right(v)));
        let x = v.x as int;
        let y = v.y as int;
        assert(1 <= y) by {
            if y < 1 {
                assert(!is_v(cand_up(v)) && !is_h(cand_up(v)));
            }
        }
        assert(1 <= x) by {
            if x < 1 {
                assert(!is_v(cand_left(v)) && !is_h(cand_left(v)));
            }
        }
        assert(cand_up(v).a.y as int == y - 1);
        assert(cand_left(v).a.x as int == x - 1);
        assert(x + 1 <= nc) by {
            assert(emits_edge(g, l, cand_right(v)));
        }
        assert(y + 1 <= nr) by {
            assert(emits_edge(g, l, cand_down(v)));
        }
        let ul = g.cell(y - 1, x - 1) == l;
        let ur = g.cell(y - 1, x) == l;
        let dl = g.cell(y, x - 1) == l;
        let dr = g.cell(y, x) == l;
        assert(emits_edge(g, l, cand_up(v)) && (ul != ur)) by {
            assert(is_v(cand_up(v)) && !is_h(cand_up(v)));
        }
        assert(emits_edge(g, l, cand_down(v)) && (dl != dr)) by {
            assert(cand_down(v).b.y as int == y + 1);
            assert(is_v(cand_down(v)) && !is_h(cand_down(v)));
        }
        assert(emits_edge(g, l, cand_left(v)) && (ul != dl)) by {
            assert(is_h(cand_left(v)) && !is_v(cand_left(v)));
        }
        assert(emits_edge(g, l, cand_right(v)) && (ur != dr)) by {
            assert(cand_right(v).b.x as int == x + 1);
            assert(is_h(cand_right(v)) && !is_v(cand_right(v)));
        }
        assert((ul && dr && !ur && !dl) || (!ul && !dr && ur && dl));
        assert(cb_at(g, l, v));
    }
}

/// Law: assembling the edges the extractor emitted for a label never
/// reports an invalid edge or a non-manifold boundary. `res` stands for the
/// result of `edges_to_multilinestring` on `s`; the two hypotheses about it
/// are that function's own error clauses, so any actual call on an
/// extracted, duplicate-free edge list satisfies them.
pub proof fn lemma_extracted_edges_pass_validation(
    g: Grid,
    l: u64,
    s: Seq<Edge>,
    res: Result<Vec<Vec<Coord>>, crate::assemble::AssembleError>,
)
    requires
        g.wf(),
        g.nrows_spec() <= usize::MAX,
        g.ncols_spec() <= usize::MAX,
        s.no_duplicates(),
        forall|e: Edge| #[trigger] s.contains(e) <==> emits_edge(g, l, e),
        res == Err::<Vec<Vec<Coord>>, crate::assemble::AssembleError>(
            crate::assemble::AssembleError::InvalidEdge,
        ) <==> !all_edges_ok(s, g.nrows_spec(), g.ncols_spec()),
        res == Err::<Vec<Vec<Coord>>, crate::assemble::AssembleError>(
            crate::assemble::AssembleError::NonManifold,
        ) <==> (all_edges_ok(s, g.nrows_spec(), g.ncols_spec()) && (has_undirected_dup(s)
            || !degrees_ok(s, g.nrows_spec(), g.ncols_spec()))),
    ensures
        res != Err::<Vec<Vec<Coord>>, crate::assemble::AssembleError>(
            crate::assemble::AssembleError::InvalidEdge,
        ),
        res != Err::<Vec<Vec<Coord>>, crate::assemble::AssembleError>(
            crate::assemble::AssembleError::NonManifold,
        ),
{
    lemma_extraction_is_manifold(g, l, s);
}

} // verus!
