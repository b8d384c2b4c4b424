use crate::geometry::SignedCoord;
use vstd::prelude::*;

verus! {

/// Largest coordinate magnitude the rasterizer accepts.
///
/// The supercover traversal keeps per-axis step counters in 32-bit floats, so
/// the traversal is exact and overflow-free only while segment deltas stay far
/// below 2^24; a 2^20 bound on the coordinates themselves leaves ample room.
pub const RASTER_BOUND: i64 = 1048576;

/// The coordinate lies within [`RASTER_BOUND`] on both axes.
pub open spec fn raster_in_range(p: SignedCoord) -> bool {
    -RASTER_BOUND <= p.x <= RASTER_BOUND && -RASTER_BOUND <= p.y <= RASTER_BOUND
}

/// What `line_drawing::Supercover` yields for the segment from `a` to `b`:
/// the ordered sequence of every grid cell the geometric segment passes
/// through, including cells only touched at a corner. It depends on the two
/// endpoints alone.
pub uninterp spec fn supercover_seq(a: SignedCoord, b: SignedCoord) -> Seq<SignedCoord>;

/// The two cells differ by at most one grid unit on each axis.
pub open spec fn within_unit_step(p: SignedCoord, q: SignedCoord) -> bool {
    -1 <= q.x - p.x <= 1 && -1 <= q.y - p.y <= 1
}

/// Relies on `line_drawing::Supercover`: an iterator over all cells of the
/// segment from `a` to `b`. It always yields the start cell first and the
/// end cell last, each of its steps moves by at most one unit per axis, and
/// it yields at most one cell per unit of axis distance beyond the first.
#[verifier::external_body]
fn supercover(a: SignedCoord, b: SignedCoord) -> (r: Vec<SignedCoord>)
    requires
        raster_in_range(a),
        raster_in_range(b),
    ensures
        r@ == supercover_seq(a, b),
        r@.len() >= 1,
        r@[0] == a,
        r@[r@.len() - 1] == b,
        forall|i: int| 0 <= i < r@.len() - 1 ==> within_unit_step(#[trigger] r@[i], r@[i + 1]),
        r@.len() <= (if b.x >= a.x {
            b.x - a.x
        } else {
            a.x - b.x
        }) + (if b.y >= a.y {
            b.y - a.y
        } else {
            a.y - b.y
        }) + 1,
{
    line_drawing::Supercover::new((a.x, a.y), (b.x, b.y)).map(
        |p: (i64, i64)| SignedCoord { x: p.0, y: p.1 },
    ).collect()
}

/// Appends the cells `pts` to `acc`, suppressing a cell only when it exactly
/// repeats the cell emitted immediately before it.
pub open spec fn dedup_append(acc: Seq<SignedCoord>, pts: Seq<SignedCoord>) -> Seq<SignedCoord>
    decreases pts.len(),
{
    if pts.len() == 0 {
        acc
    } else {
        let acc2 = if acc.len() > 0 && acc.last() == pts.first() {
            acc
        } else {
            acc.push(pts.first())
        };
        dedup_append(acc2, pts.drop_first())
    }
}

/// The rasterization of a polyline: the concatenation of the supercover
/// traversals of its consecutive vertex pairs, with local deduplication.
pub open spec fn rasterize_spec(vs: Seq<SignedCoord>) -> Seq<SignedCoord>
    decreases vs.len(),
{
    if vs.len() < 2 {
        Seq::empty()
    } else {
        dedup_append(
            rasterize_spec(vs.drop_last()),
            supercover_seq(vs[vs.len() - 2], vs[vs.len() - 1]),
        )
    }
}

proof fn lemma_dedup_append_push(acc: Seq<SignedCoord>, pts: Seq<SignedCoord>, p: SignedCoord)
    ensures
        dedup_append(acc, pts.push(p)) == (if dedup_append(acc, pts).len() > 0 && dedup_append(
            acc,
            pts,
        ).last() == p {
            dedup_append(acc, pts)
        } else {
            dedup_append(acc, pts).push(p)
        }),
    decreases pts.len(),
{
    if pts.len() == 0 {
        assert(pts.push(p).drop_first() =~= Seq::<SignedCoord>::empty());
        assert(pts.push(p).first() == p);
        let acc2 = if acc.len() > 0 && acc.last() == p {
            acc
        } else {
            acc.push(p)
        };
        assert(dedup_append(acc2, Seq::<SignedCoord>::empty()) == acc2);
        assert(dedup_append(acc, pts) == acc);
    } else {
        assert(pts.push(p).drop_first() =~= pts.drop_first().push(p));
        assert(pts.push(p).first() == pts.first());
        let acc2 = if acc.len() > 0 && acc.last() == pts.first() {
            acc
        } else {
            acc.push(pts.first())
        };
        lemma_dedup_append_push(acc2, pts.drop_first(), p);
    }
}

/// Rasterizes a polyline onto the grid of integer coordinates.
///
/// Returns every grid cell the polyline passes through, in traversal order:
/// for each consecutive vertex pair the supercover cells of that segment are
/// appended, and a cell is suppressed only when it exactly repeats the
/// immediately preceding emitted cell. An empty or single-vertex polyline
/// yields an empty sequence. Every coordinate must lie within
/// [`RASTER_BOUND`], the range on which the traversal is exact.
pub fn rasterize_linestring(ls: &Vec<SignedCoord>) -> (out: Vec<SignedCoord>)
    requires
        forall|i: int| 0 <= i < ls@.len() ==> raster_in_range(#[trigger] ls@[i]),
    ensures
        out@ == rasterize_spec(ls@),
        ls@.len() < 2 ==> out@.len() == 0,
        ls@.len() >= 2 ==> out@.len() >= 1 && out@[0] == ls@[0] && out@[out@.len() - 1]
            == ls@[ls@.len() - 1],
        forall|i: int| 0 <= i < out@.len() - 1 ==> within_unit_step(#[trigger] out@[i], out@[i + 1]),
{
    let mut out: Vec<SignedCoord> = Vec::new();
    if ls.len() < 2 {
        assert(out@ =~= rasterize_spec(ls@));
        return out;
    }
    let nsegs: usize = ls.len() - 1;
    let mut i: usize = 0;
    while i < nsegs
        invariant
            ls@.len() >= 2,
            nsegs == ls@.len() - 1,
            0 <= i <= nsegs,
            forall|k: int| 0 <= k < ls@.len() ==> raster_in_range(#[trigger] ls@[k]),
            out@ == rasterize_spec(ls@.take(i + 1)),
            i == 0 ==> out@.len() == 0,
            i >= 1 ==> out@.len() >= 1 && out@[0] == ls@[0] && out@[out@.len() - 1]
                == ls@[i as int],
            forall|k: int| 0 <= k < out@.len() - 1 ==> within_unit_step(
                #[trigger] out@[k],
                out@[k + 1],
            ),
        decreases ls@.len() - i,
    {
        let sc = supercover(ls[i], ls[i + 1]);
        let ghost base = out@;
        let mut j: usize = 0;
        while j < sc.len()
            invariant
                0 <= j <= sc@.len(),
                0 <= i < nsegs,
                nsegs == ls@.len() - 1,
                sc@.len() >= 1,
                sc@[0] == ls@[i as int],
                forall|k: int| 0 <= k < sc@.len() - 1 ==> within_unit_step(
                    #[trigger] sc@[k],
                    sc@[k + 1],
                ),
                out@ == dedup_append(base, sc@.take(j as int)),
                out@.len() >= base.len(),
                forall|k: int| 0 <= k < base.len() ==> #[trigger] out@[k] == base[k],
                i == 0 && j == 0 ==> out@.len() == 0,
                i >= 1 ==> out@.len() >= 1 && out@[0] == ls@[0],
                i >= 1 && j == 0 ==> out@[out@.len() - 1] == ls@[i as int],
                j >= 1 ==> out@.len() >= 1 && out@[0] == ls@[0] && out@[out@.len() - 1] == sc@[j
                    - 1],
                forall|k: int| 0 <= k < out@.len() - 1 ==> within_unit_step(
                    #[trigger] out@[k],
                    out@[k + 1],
                ),
            decreases sc@.len() - j,
        {
            let c = sc[j];
            proof {
                assert(sc@.take(j + 1) =~= sc@.take(j as int).push(sc@[j as int]));
                lemma_dedup_append_push(base, sc@.take(j as int), sc@[j as int]);
            }
            if out.len() == 0 || out[out.len() - 1] != c {
                proof {
                    if out@.len() > 0 {
                        if j == 0 {
                            assert(out@[out@.len() - 1] == ls@[i as int]);
                        } else {
                            assert(out@[out@.len() - 1] == sc@[j - 1]);
                            assert(within_unit_step(sc@[j - 1], sc@[j as int]));
                        }
                    }
                }
                out.push(c);
            }
            j += 1;
        }
        proof {
            assert(sc@.take(sc@.len() as int) =~= sc@);
            assert(ls@.take(i + 2).drop_last() =~= ls@.take(i + 1));
            assert(ls@.take(i + 2)[i as int] == ls@[i as int]);
            assert(ls@.take(i + 2)[i + 1] == ls@[i + 1]);
        }
        i += 1;
    }
    proof {
        assert(ls@.take(ls@.len() as int) =~= ls@);
    }
    out
}

} // verus!
