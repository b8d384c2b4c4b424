use crate::geometry::{Coord, Edge};
use crate::grid::Grid;
use vstd::prelude::*;

verus! {

/// The boundary edges of a grid, grouped by label: one entry per label that
/// owns at least one edge, in order of first emission.
pub struct EdgeMap {
    pub entries: Vec<(u64, Vec<Edge>)>,
}

impl EdgeMap {
    /// Each label owns at most one entry.
    pub open spec fn wf(self) -> bool {
        forall|i: int, j: int|
            0 <= i < j < self.entries@.len() ==> (#[trigger] self.entries@[i]).0 != (
            #[trigger] self.entries@[j]).0
    }

    pub open spec fn contains_label(self, l: u64) -> bool {
        exists|i: int| 0 <= i < self.entries@.len() && (#[trigger] self.entries@[i]).0 == l
    }

    pub open spec fn label_index(self, l: u64) -> int {
        choose|i: int| 0 <= i < self.entries@.len() && (#[trigger] self.entries@[i]).0 == l
    }

    /// The edges recorded for `l`; empty when `l` owns no entry.
    pub open spec fn edges_of(self, l: u64) -> Seq<Edge> {
        if self.contains_label(l) {
            self.entries@[self.label_index(l)].1@
        } else {
            Seq::empty()
        }
    }

    proof fn lemma_index(self, l: u64)
        requires
            self.wf(),
            self.contains_label(l),
        ensures
            0 <= self.label_index(l) < self.entries@.len(),
            self.entries@[self.label_index(l)].0 == l,
            forall|i: int|
                0 <= i < self.entries@.len() && (#[trigger] self.entries@[i]).0 == l ==> i
                    == self.label_index(l),
    {
        let li = self.label_index(l);
        assert(0 <= li < self.entries@.len() && self.entries@[li].0 == l);
    }

    pub fn new() -> (m: EdgeMap)
        ensures
            m.wf(),
            m.entries@.len() == 0,
            forall|l: u64| !(#[trigger] m.contains_label(l)),
    {
        EdgeMap { entries: Vec::new() }
    }

    pub fn num_labels(&self) -> (n: usize)
        ensures
            n == self.entries@.len(),
    {
        self.entries.len()
    }

    pub fn label_at(&self, i: usize) -> (l: u64)
        requires
            i < self.entries@.len(),
        ensures
            l == self.entries@[i as int].0,
    {
        self.entries[i].0
    }

    pub fn edges_at(&self, i: usize) -> (es: &Vec<Edge>)
        requires
            self.wf(),
            i < self.entries@.len(),
        ensures
            es@ == self.entries@[i as int].1@,
            es@ == self.edges_of(self.entries@[i as int].0),
    {
        proof {
            let l = self.entries@[i as int].0;
            assert(self.contains_label(l));
            self.lemma_index(l);
        }
        &self.entries[i].1
    }

    /// Looks up the edge list recorded for `l`.
    pub fn get(&self, l: u64) -> (r: Option<&Vec<Edge>>)
        requires
            self.wf(),
        ensures
            match r {
                Some(es) => self.contains_label(l) && es@ == self.edges_of(l),
                None => !self.contains_label(l),
            },
    {
        let mut i: usize = 0;
        while i < self.entries.len()
            invariant
                0 <= i <= self.entries@.len(),
                self.wf(),
                forall|t: int| 0 <= t < i ==> (#[trigger] self.entries@[t]).0 != l,
            decreases self.entries@.len() - i,
        {
            if self.entries[i].0 == l {
                proof {
                    assert(self.contains_label(l));
                    self.lemma_index(l);
                }
                return Some(&self.entries[i].1);
            }
            i += 1;
        }
        proof {
            if self.contains_label(l) {
                self.lemma_index(l);
            }
        }
        None
    }

    /// Appends `e` to `l`'s edge list, creating the entry if `l` is new.
    fn push_edge(&mut self, l: u64, e: Edge)
        requires
            old(self).wf(),
        ensures
            final(self).wf(),
            forall|l2: u64|
                #[trigger] final(self).contains_label(l2) <==> (old(self).contains_label(l2) || l2
                    == l),
            final(self).edges_of(l) == old(self).edges_of(l).push(e),
            forall|l2: u64|
                l2 != l ==> #[trigger] final(self).edges_of(l2) == old(self).edges_of(l2),
    {
        let ghost pre = *self;
        let mut i: usize = 0;
        while i < self.entries.len()
            invariant
                *self == pre,
                pre == *old(self),
                pre.wf(),
                0 <= i <= self.entries@.len(),
                forall|t: int| 0 <= t < i ==> (#[trigger] self.entries@[t]).0 != l,
            decreases self.entries@.len() - i,
        {
            if self.entries[i].0 == l {
                self.entries[i].1.push(e);
                proof {
                    assert(self.entries@[i as int].0 == l);
                    assert(self.entries@.len() == pre.entries@.len());
                    assert(forall|t: int|
                        0 <= t < self.entries@.len() ==> (#[trigger] self.entries@[t]).0
                            == pre.entries@[t].0);
                    assert(self.wf());
                    assert forall|l2: u64| #[trigger] self.contains_label(l2)
                        <==> pre.contains_label(l2) by {
                        if self.contains_label(l2) {
                            let t = choose|t: int|
                                0 <= t < self.entries@.len() && (#[trigger] self.entries@[t]).0
                                    == l2;
                            assert(pre.entries@[t].0 == l2);
                        }
                        if pre.contains_label(l2) {
                            let t = choose|t: int|
                                0 <= t < pre.entries@.len() && (#[trigger] pre.entries@[t]).0
                                    == l2;
                            assert(self.entries@[t].0 == l2);
                        }
                    }
                    assert(self.contains_label(l));
                    assert(pre.contains_label(l));
                    self.lemma_index(l);
                    pre.lemma_index(l);
                    assert(self.label_index(l) == i as int);
                    assert(pre.label_index(l) == i as int);
                    assert(self.edges_of(l) == pre.entries@[i as int].1@.push(e));
                    assert forall|l2: u64| l2 != l implies #[trigger] self.edges_of(l2)
                        == pre.edges_of(l2) by {
                        if self.contains_label(l2) {
                            self.lemma_index(l2);
                            pre.lemma_index(l2);
                            assert(self.label_index(l2) == pre.label_index(l2));
                            assert(self.label_index(l2) != i as int);
                        }
                    }
                }
                return ;
            }
            i += 1;
        }
        let mut v: Vec<Edge> = Vec::new();
        v.push(e);
        self.entries.push((l, v));
        proof {
            let n = pre.entries@.len() as int;
            assert(self.entries@ == pre.entries@.push((l, v)));
            assert(forall|t: int|
                0 <= t < n ==> #[trigger] self.entries@[t] == pre.entries@[t]);
            assert(self.entries@[n].0 == l);
            assert(self.wf());
            assert(self.contains_label(l));
            self.lemma_index(l);
            assert(self.label_index(l) == n);
            assert(!pre.contains_label(l));
            assert(self.edges_of(l) == v@);
            assert(v@ =~= pre.edges_of(l).push(e));
            assert forall|l2: u64| l2 != l implies #[trigger] self.edges_of(l2) == pre.edges_of(
                l2,
            ) by {
                if self.contains_label(l2) {
                    self.lemma_index(l2);
                    assert(self.label_index(l2) != n);
                    assert(pre.contains_label(l2));
                    pre.lemma_index(l2);
                    assert(self.label_index(l2) == pre.label_index(l2));
                } else {
                    if pre.contains_label(l2) {
                        pre.lemma_index(l2);
                        assert(self.entries@[pre.label_index(l2)].0 == l2);
                        assert(self.contains_label(l2));
                    }
                }
            }
            assert forall|l2: u64| #[trigger] self.contains_label(l2) <==> (pre.contains_label(l2)
                || l2 == l) by {
                if self.contains_label(l2) && l2 != l {
                    self.lemma_index(l2);
                    assert(self.label_index(l2) != n);
                    assert(pre.entries@[self.label_index(l2)].0 == l2);
                }
                if pre.contains_label(l2) {
                    let t = choose|t: int|
                        0 <= t < pre.entries@.len() && (#[trigger] pre.entries@[t]).0 == l2;
                    assert(self.entries@[t].0 == l2);
                }
            }
        }
    }
}

/// A canonical horizontal edge, from (x, y) to (x+1, y).
pub open spec fn is_h(e: Edge) -> bool {
    e.b.x == e.a.x + 1 && e.b.y == e.a.y
}

/// A canonical vertical edge, from (x, y) to (x, y+1).
pub open spec fn is_v(e: Edge) -> bool {
    e.b.x == e.a.x && e.b.y == e.a.y + 1
}

/// The extractor emits `e` for label `l`: `e` is a canonical unit lattice
/// edge that either separates an `l` cell from a differently labeled
/// horizontal or vertical neighbor, or lies on the outer border of an `l`
/// cell. Interior edges belong to both adjacent labels, border edges to the
/// border cell's own label only.
pub open spec fn emits_edge(g: Grid, l: u64, e: Edge) -> bool {
    let nr = g.nrows_spec();
    let nc = g.ncols_spec();
    let x = e.a.x as int;
    let y = e.a.y as int;
    if is_h(e) {
        0 <= x < nc && ((y == 0 && g.cell(0, x) == l) || (y == nr && g.cell(nr - 1, x) == l) || (0
            < y < nr && g.cell(y - 1, x) != g.cell(y, x) && (g.cell(y - 1, x) == l || g.cell(y, x)
            == l)))
    } else if is_v(e) {
        0 <= y < nr && ((x == 0 && g.cell(y, 0) == l) || (x == nc && g.cell(y, nc - 1) == l) || (0
            < x < nc && g.cell(y, x - 1) != g.cell(y, x) && (g.cell(y, x - 1) == l || g.cell(y, x)
            == l)))
    } else {
        false
    }
}

/// The cell pair in row `t`, column `u` comes before the pair in row `rp`,
/// column `up` in a row-major scan.
pub open spec fn pair_scanned(t: int, u: int, rp: int, up: int) -> bool {
    t < rp || (t == rp && u < up)
}

/// The part of the lattice the extractor has covered after: the top/bottom
/// border pass up to column `cb`, the left/right border pass up to row `rb`,
/// the row-major interior pair scan up to pair (`rp`, `up`), the last-column
/// pass up to row `r4`, and the last-row pass up to column `c5`.
pub open spec fn scanned(
    e: Edge,
    nrows: int,
    ncols: int,
    cb: int,
    rb: int,
    rp: int,
    up: int,
    r4: int,
    c5: int,
) -> bool {
    ||| (is_h(e) && (e.a.y == 0 || e.a.y == nrows) && (e.a.x as int) < cb)
    ||| (is_v(e) && (e.a.x == 0 || e.a.x == ncols) && (e.a.y as int) < rb)
    ||| (is_v(e) && 1 <= e.a.x && e.a.x + 1 <= ncols && e.a.y + 2 <= nrows && pair_scanned(
        e.a.y as int,
        e.a.x as int - 1,
        rp,
        up,
    ))
    ||| (is_h(e) && e.a.x + 2 <= ncols && 1 <= e.a.y && e.a.y as int <= nrows - 1 && pair_scanned(
        e.a.y as int - 1,
        e.a.x as int,
        rp,
        up,
    ))
    ||| (is_h(e) && e.a.x as int == ncols - 1 && 1 <= e.a.y && e.a.y as int <= nrows - 1 && (
    e.a.y as int) - 1 < r4)
    ||| (is_v(e) && e.a.y as int == nrows - 1 && 1 <= e.a.x && e.a.x as int <= ncols - 1 && (
    e.a.x as int) - 1 < c5)
}

/// The set of lattice edges in the scanned part of the lattice.
pub open spec fn scanned_set(
    nrows: int,
    ncols: int,
    cb: int,
    rb: int,
    rp: int,
    up: int,
    r4: int,
    c5: int,
) -> Set<Edge> {
    Set::new(|e: Edge| scanned(e, nrows, ncols, cb, rb, rp, up, r4, c5))
}

/// The map holds, for every label, exactly the emitted edges of the region
/// `reg`, each once.
pub open spec fn map_ok_set(m: EdgeMap, g: Grid, reg: Set<Edge>) -> bool {
    &&& m.wf()
    &&& (forall|l: u64| #[trigger] m.contains_label(l) ==> m.edges_of(l).len() > 0)
    &&& (forall|l: u64| (#[trigger] m.edges_of(l)).no_duplicates())
    &&& (forall|l: u64, e: Edge|
        #![trigger m.edges_of(l).contains(e)]
        #![trigger emits_edge(g, l, e)]
        m.edges_of(l).contains(e) <==> (emits_edge(g, l, e) && reg.contains(e)))
}

pub(crate) proof fn lemma_push_contains(s: Seq<Edge>, x: Edge)
    ensures
        forall|y: Edge| #[trigger] s.push(x).contains(y) <==> (s.contains(y) || y == x),
{
    assert forall|y: Edge| #[trigger] s.push(x).contains(y) implies (s.contains(y) || y == x) by {
        if s.push(x).contains(y) {
            let i = choose|i: int| 0 <= i < s.push(x).len() && s.push(x)[i] == y;
            if i < s.len() {
                assert(s[i] == y);
            }
        }
    }
    assert forall|y: Edge| (s.contains(y) || y == x) implies #[trigger] s.push(x).contains(y) by {
        if s.contains(y) {
            let i = choose|i: int| 0 <= i < s.len() && s[i] == y;
            assert(s.push(x)[i] == y);
        } else {
            assert(s.push(x)[s.len() as int] == y);
        }
    }
}

proof fn lemma_push_no_dup(s: Seq<Edge>, x: Edge)
    requires
        s.no_duplicates(),
        !s.contains(x),
    ensures
        s.push(x).no_duplicates(),
{
    let s2 = s.push(x);
    assert forall|i: int, j: int|
        0 <= i < s2.len() && 0 <= j < s2.len() && i != j implies s2[i] != s2[j] by {
        if i < s.len() && j < s.len() {
            assert(s2[i] == s[i] && s2[j] == s[j]);
        } else if i < s.len() {
            assert(s2[i] == s[i] && s2[j] == x);
            if s[i] == x {
                assert(s.contains(x));
            }
        } else if j < s.len() {
            assert(s2[i] == x && s2[j] == s[j]);
            if s[j] == x {
                assert(s.contains(x));
            }
        }
    }
}

proof fn lemma_map_ok_region_equiv(m: EdgeMap, g: Grid, reg1: Set<Edge>, reg2: Set<Edge>)
    requires
        map_ok_set(m, g, reg1),
        forall|l: u64, e: Edge|
            #[trigger] emits_edge(g, l, e) ==> (reg1.contains(e) <==> reg2.contains(e)),
    ensures
        map_ok_set(m, g, reg2),
{
    assert forall|l: u64, e: Edge|
        #![trigger m.edges_of(l).contains(e)]
        #![trigger emits_edge(g, l, e)]
        m.edges_of(l).contains(e) <==> (emits_edge(g, l, e) && reg2.contains(e)) by {
        assert(m.edges_of(l).contains(e) <==> (emits_edge(g, l, e) && reg1.contains(e)));
    }
}

/// Records an edge that exactly one label emits.
fn emit_one(m: &mut EdgeMap, g: &Grid, l: u64, e: Edge, Ghost(reg): Ghost<Set<Edge>>)
    requires
        map_ok_set(*old(m), *g, reg),
        forall|l2: u64| #[trigger] emits_edge(*g, l2, e) <==> l2 == l,
        !reg.contains(e),
    ensures
        map_ok_set(*final(m), *g, reg.insert(e)),
{
    proof {
        assert(!old(m).edges_of(l).contains(e));
        lemma_push_contains(old(m).edges_of(l), e);
        lemma_push_no_dup(old(m).edges_of(l), e);
    }
    m.push_edge(l, e);
    proof {
        let regn = reg.insert(e);
        assert forall|l2: u64, y: Edge|
            #![trigger m.edges_of(l2).contains(y)]
            #![trigger emits_edge(*g, l2, y)]
            m.edges_of(l2).contains(y) <==> (emits_edge(*g, l2, y) && regn.contains(y)) by {
            if l2 == l {
                assert(m.edges_of(l2) == old(m).edges_of(l).push(e));
            } else {
                assert(m.edges_of(l2) == old(m).edges_of(l2));
                if y == e {
                    assert(!emits_edge(*g, l2, y));
                }
            }
        }
    }
}

/// Records an interior edge that exactly the two adjacent labels emit.
fn emit_two(m: &mut EdgeMap, g: &Grid, l1: u64, l2: u64, e: Edge, Ghost(reg): Ghost<Set<Edge>>)
    requires
        map_ok_set(*old(m), *g, reg),
        l1 != l2,
        forall|l: u64| #[trigger] emits_edge(*g, l, e) <==> (l == l1 || l == l2),
        !reg.contains(e),
    ensures
        map_ok_set(*final(m), *g, reg.insert(e)),
{
    proof {
        assert(!old(m).edges_of(l1).contains(e));
        assert(!old(m).edges_of(l2).contains(e));
        lemma_push_contains(old(m).edges_of(l1), e);
        lemma_push_no_dup(old(m).edges_of(l1), e);
    }
    m.push_edge(l1, e);
    let ghost m1 = *m;
    proof {
        assert(m1.edges_of(l2) == old(m).edges_of(l2));
        lemma_push_contains(m1.edges_of(l2), e);
        lemma_push_no_dup(m1.edges_of(l2), e);
    }
    m.push_edge(l2, e);
    proof {
        let regn = reg.insert(e);
        assert forall|l3: u64, y: Edge|
            #![trigger m.edges_of(l3).contains(y)]
            #![trigger emits_edge(*g, l3, y)]
            m.edges_of(l3).contains(y) <==> (emits_edge(*g, l3, y) && regn.contains(y)) by {
            if l3 == l1 {
                assert(m.edges_of(l3) == m1.edges_of(l1));
                assert(m1.edges_of(l1) == old(m).edges_of(l1).push(e));
            } else if l3 == l2 {
                assert(m.edges_of(l3) == m1.edges_of(l2).push(e));
                assert(m1.edges_of(l2) == old(m).edges_of(l2));
            } else {
                assert(m.edges_of(l3) == m1.edges_of(l3));
                assert(m1.edges_of(l3) == old(m).edges_of(l3));
                if y == e {
                    assert(!emits_edge(*g, l3, y));
                }
            }
        }
        assert forall|l3: u64| #[trigger] m.contains_label(l3) implies m.edges_of(l3).len()
            > 0 by {
            if l3 != l1 && l3 != l2 {
                assert(m.edges_of(l3) == old(m).edges_of(l3));
            }
        }
        assert forall|l3: u64| (#[trigger] m.edges_of(l3)).no_duplicates() by {
            if l3 != l1 && l3 != l2 {
                assert(m.edges_of(l3) == old(m).edges_of(l3));
            }
        }
    }
}

proof fn lemma_emits_label_occurs(g: Grid, l: u64, e: Edge)
    requires
        g.wf(),
        emits_edge(g, l, e),
    ensures
        exists|r: int, c: int|
            0 <= r < g.nrows_spec() && 0 <= c < g.ncols_spec() && #[trigger] g.cell(r, c) == l,
{
    let nr = g.nrows_spec();
    let nc = g.ncols_spec();
    let x = e.a.x as int;
    let y = e.a.y as int;
    if is_h(e) {
        if y == 0 && g.cell(0, x) == l {
            assert(g.cell(0, x) == l);
        } else if y == nr && g.cell(nr - 1, x) == l {
            assert(g.cell(nr - 1, x) == l);
        } else if g.cell(y - 1, x) == l {
            assert(g.cell(y - 1, x) == l);
        } else {
            assert(g.cell(y, x) == l);
        }
    } else {
        if x == 0 && g.cell(y, 0) == l {
            assert(g.cell(y, 0) == l);
        } else if x == nc && g.cell(y, nc - 1) == l {
            assert(g.cell(y, nc - 1) == l);
        } else if g.cell(y, x - 1) == l {
            assert(g.cell(y, x - 1) == l);
        } else {
            assert(g.cell(y, x) == l);
        }
    }
}

proof fn lemma_label_has_boundary(g: Grid, l: u64, r: int, c: int)
    requires
        g.wf(),
        g.nrows_spec() <= usize::MAX,
        g.ncols_spec() <= usize::MAX,
        0 <= r < g.nrows_spec(),
        0 <= c < g.ncols_spec(),
        g.cell(r, c) == l,
    ensures
        exists|e: Edge| #[trigger] emits_edge(g, l, e),
    decreases r,
{
    if r == 0 {
        let e = Edge {
            a: Coord { x: c as usize, y: 0 },
            b: Coord { x: (c + 1) as usize, y: 0 },
        };
        assert(emits_edge(g, l, e));
    } else if g.cell(r - 1, c) != l {
        let e = Edge {
            a: Coord { x: c as usize, y: r as usize },
            b: Coord { x: (c + 1) as usize, y: r as usize },
        };
        assert(emits_edge(g, l, e));
    } else {
        lemma_label_has_boundary(g, l, r - 1, c);
    }
}

proof fn lemma_scan_complete(g: Grid, l: u64, e: Edge)
    requires
        g.wf(),
        emits_edge(g, l, e),
    ensures
        scanned(
            e,
            g.nrows_spec(),
            g.ncols_spec(),
            g.ncols_spec(),
            g.nrows_spec(),
            g.nrows_spec() - 1,
            0,
            g.nrows_spec() - 1,
            g.ncols_spec() - 1,
        ),
{
    let nr = g.nrows_spec();
    let nc = g.ncols_spec();
    let x = e.a.x as int;
    let y = e.a.y as int;
    if is_h(e) {
        if y == 0 || y == nr {
        } else if x <= nc - 2 {
            assert(pair_scanned(y - 1, x, nr - 1, 0));
        } else {
            assert(x == nc - 1);
        }
    } else {
        if x == 0 || x == nc {
        } else if y <= nr - 2 {
            assert(pair_scanned(y, x - 1, nr - 1, 0));
        } else {
            assert(y == nr - 1);
        }
    }
}

/// Scans the labeled grid and returns, per label, the unit boundary edges of
/// that label's region: for every pair of adjacent cells with differing
/// labels the edge between them goes to both labels' lists, and every border
/// cell contributes its outer edge to its own label's list only. A cell
/// surrounded by its own label contributes nothing.
pub fn marching_squares(grid: &Grid) -> (m: EdgeMap)
    requires
        grid.wf(),
    ensures
        m.wf(),
        forall|l: u64, e: Edge|
            #![trigger m.edges_of(l).contains(e)]
            #![trigger emits_edge(*grid, l, e)]
            m.edges_of(l).contains(e) <==> emits_edge(*grid, l, e),
        forall|l: u64| (#[trigger] m.edges_of(l)).no_duplicates(),
        forall|l: u64|
            #[trigger] m.contains_label(l) <==> (exists|r: int, c: int|
                0 <= r < grid.nrows_spec() && 0 <= c < grid.ncols_spec() && #[trigger] grid.cell(
                    r,
                    c,
                ) == l),
{
    let ghost g = *grid;
    let ghost rr = grid.nrows_spec();
    let ghost cc = grid.ncols_spec();
    let nr = grid.nrows();
    let nc = grid.ncols();
    let mut m = EdgeMap::new();
    proof {
        assert(scanned_set(rr, cc, 0, 0, 0, 0, 0, 0) =~= Set::<Edge>::empty());
        assert(map_ok_set(m, g, scanned_set(rr, cc, 0, 0, 0, 0, 0, 0)));
    }
    let mut c: usize = 0;
    while c < nc
        invariant
            g == *grid,
            rr == g.nrows_spec(),
            cc == g.ncols_spec(),
            nr == rr,
            nc == cc,
            g.wf(),
            0 <= c <= nc,
            map_ok_set(m, g, scanned_set(rr, cc, c as int, 0, 0, 0, 0, 0)),
        decreases nc - c,
    {
        let ghost reg0 = scanned_set(rr, cc, c as int, 0, 0, 0, 0, 0);
        let tl = grid.at(0, c);
        let e1 = Edge { a: Coord { x: c, y: 0 }, b: Coord { x: c + 1, y: 0 } };
        proof {
            assert(forall|l2: u64| #[trigger] emits_edge(g, l2, e1) <==> l2 == tl);
            assert(!reg0.contains(e1));
        }
        emit_one(&mut m, grid, tl, e1, Ghost(reg0));
        let bl = grid.at(nr - 1, c);
        let e2 = Edge { a: Coord { x: c, y: nr }, b: Coord { x: c + 1, y: nr } };
        let ghost reg1 = reg0.insert(e1);
        proof {
            assert(forall|l2: u64| #[trigger] emits_edge(g, l2, e2) <==> l2 == bl);
            assert(!reg1.contains(e2));
        }
        emit_one(&mut m, grid, bl, e2, Ghost(reg1));
        proof {
            assert forall|e: Edge| scanned(e, rr, cc, c + 1, 0, 0, 0, 0, 0) <==> (scanned(
                e,
                rr,
                cc,
                c as int,
                0,
                0,
                0,
                0,
                0,
            ) || e == e1 || e == e2) by {}
            assert forall|l2: u64, e: Edge| #[trigger] emits_edge(g, l2, e) implies (
            reg1.insert(e2).contains(e) <==> scanned_set(rr, cc, c + 1, 0, 0, 0, 0, 0).contains(
                e,
            )) by {}
            lemma_map_ok_region_equiv(
                m,
                g,
                reg1.insert(e2),
                scanned_set(rr, cc, c + 1, 0, 0, 0, 0, 0),
            );
        }
        c += 1;
    }
    let mut r: usize = 0;
    while r < nr
        invariant
            g == *grid,
            rr == g.nrows_spec(),
            cc == g.ncols_spec(),
            nr == rr,
            nc == cc,
            g.wf(),
            0 <= r <= nr,
            map_ok_set(m, g, scanned_set(rr, cc, cc, r as int, 0, 0, 0, 0)),
        decreases nr - r,
    {
        let ghost reg0 = scanned_set(rr, cc, cc, r as int, 0, 0, 0, 0);
        let ll = grid.at(r, 0);
        let e1 = Edge { a: Coord { x: 0, y: r }, b: Coord { x: 0, y: r + 1 } };
        proof {
            assert(forall|l2: u64| #[trigger] emits_edge(g, l2, e1) <==> l2 == ll);
            assert(!reg0.contains(e1));
        }
        emit_one(&mut m, grid, ll, e1, Ghost(reg0));
        let rl = grid.at(r, nc - 1);
        let e2 = Edge { a: Coord { x: nc, y: r }, b: Coord { x: nc, y: r + 1 } };
        let ghost reg1 = reg0.insert(e1);
        proof {
            assert(forall|l2: u64| #[trigger] emits_edge(g, l2, e2) <==> l2 == rl);
            assert(!reg1.contains(e2));
        }
        emit_one(&mut m, grid, rl, e2, Ghost(reg1));
        proof {
            assert forall|e: Edge| scanned(e, rr, cc, cc, r + 1, 0, 0, 0, 0) <==> (scanned(
                e,
                rr,
                cc,
                cc,
                r as int,
                0,
                0,
                0,
                0,
            ) || e == e1 || e == e2) by {}
            assert forall|l2: u64, e: Edge| #[trigger] emits_edge(g, l2, e) implies (
            reg1.insert(e2).contains(e) <==> scanned_set(rr, cc, cc, r + 1, 0, 0, 0, 0).contains(
                e,
            )) by {}
            lemma_map_ok_region_equiv(
                m,
                g,
                reg1.insert(e2),
                scanned_set(rr, cc, cc, r + 1, 0, 0, 0, 0),
            );
        }
        r += 1;
    }
    let mut ri: usize = 0;
    while ri < nr - 1
        invariant
            g == *grid,
            rr == g.nrows_spec(),
            cc == g.ncols_spec(),
            nr == rr,
            nc == cc,
            g.wf(),
            0 <= ri <= nr - 1,
            map_ok_set(m, g, scanned_set(rr, cc, cc, rr, ri as int, 0, 0, 0)),
        decreases nr - 1 - ri,
    {
        let mut ci: usize = 0;
        while ci < nc - 1
            invariant
                g == *grid,
                rr == g.nrows_spec(),
                cc == g.ncols_spec(),
                nr == rr,
                nc == cc,
                g.wf(),
                0 <= ri < nr - 1,
                0 <= ci <= nc - 1,
                map_ok_set(m, g, scanned_set(rr, cc, cc, rr, ri as int, ci as int, 0, 0)),
            decreases nc - 1 - ci,
        {
            let me = grid.at(ri, ci);
            let right = grid.at(ri, ci + 1);
            let down = grid.at(ri + 1, ci);
            let ev = Edge { a: Coord { x: ci + 1, y: ri }, b: Coord { x: ci + 1, y: ri + 1 } };
            let eh = Edge { a: Coord { x: ci, y: ri + 1 }, b: Coord { x: ci + 1, y: ri + 1 } };
            let ghost reg0 = scanned_set(rr, cc, cc, rr, ri as int, ci as int, 0, 0);
            if me != right {
                proof {
                    assert(forall|l2: u64|
                        #[trigger] emits_edge(g, l2, ev) <==> (l2 == me || l2 == right));
                    assert(!reg0.contains(ev));
                }
                emit_two(&mut m, grid, me, right, ev, Ghost(reg0));
            }
            let ghost rega = if me != right {
                reg0.insert(ev)
            } else {
                reg0
            };
            if me != down {
                proof {
                    assert(forall|l2: u64|
                        #[trigger] emits_edge(g, l2, eh) <==> (l2 == me || l2 == down));
                    assert(!rega.contains(eh));
                }
                emit_two(&mut m, grid, me, down, eh, Ghost(rega));
            }
            let ghost regb = if me != down {
                rega.insert(eh)
            } else {
                rega
            };
            proof {
                assert forall|e: Edge| scanned(e, rr, cc, cc, rr, ri as int, ci + 1, 0, 0) <==> (
                scanned(e, rr, cc, cc, rr, ri as int, ci as int, 0, 0) || e == ev || e == eh) by {}
                assert forall|l2: u64, e: Edge| #[trigger] emits_edge(g, l2, e) implies (
                regb.contains(e) <==> scanned_set(rr, cc, cc, rr, ri as int, ci + 1, 0, 0).contains(
                    e,
                )) by {
                    if e == ev && me == right {
                        assert(!emits_edge(g, l2, ev));
                    }
                    if e == eh && me == down {
                        assert(!emits_edge(g, l2, eh));
                    }
                }
                lemma_map_ok_region_equiv(
                    m,
                    g,
                    regb,
                    scanned_set(rr, cc, cc, rr, ri as int, ci + 1, 0, 0),
                );
            }
            ci += 1;
        }
        proof {
            assert forall|e: Edge| #[trigger]
            scanned(e, rr, cc, cc, rr, ri as int, cc - 1, 0, 0) <==> scanned(
                e,
                rr,
                cc,
                cc,
                rr,
                ri + 1,
                0,
                0,
                0,
            ) by {}
            assert forall|l2: u64, e: Edge| #[trigger] emits_edge(g, l2, e) implies (scanned_set(
                rr,
                cc,
                cc,
                rr,
                ri as int,
                cc - 1,
                0,
                0,
            ).contains(e) <==> scanned_set(rr, cc, cc, rr, ri + 1, 0, 0, 0).contains(e)) by {}
            lemma_map_ok_region_equiv(
                m,
                g,
                scanned_set(rr, cc, cc, rr, ri as int, cc - 1, 0, 0),
                scanned_set(rr, cc, cc, rr, ri + 1, 0, 0, 0),
            );
        }
        ri += 1;
    }
    let mut r4: usize = 0;
    while r4 < nr - 1
        invariant
            g == *grid,
            rr == g.nrows_spec(),
            cc == g.ncols_spec(),
            nr == rr,
            nc == cc,
            g.wf(),
            0 <= r4 <= nr - 1,
            map_ok_set(m, g, scanned_set(rr, cc, cc, rr, rr - 1, 0, r4 as int, 0)),
        decreases nr - 1 - r4,
    {
        let me = grid.at(r4, nc - 1);
        let down = grid.at(r4 + 1, nc - 1);
        let eh = Edge { a: Coord { x: nc - 1, y: r4 + 1 }, b: Coord { x: nc, y: r4 + 1 } };
        let ghost reg0 = scanned_set(rr, cc, cc, rr, rr - 1, 0, r4 as int, 0);
        if me != down {
            proof {
                assert(forall|l2: u64|
                    #[trigger] emits_edge(g, l2, eh) <==> (l2 == me || l2 == down));
                assert(!reg0.contains(eh));
            }
            emit_two(&mut m, grid, me, down, eh, Ghost(reg0));
        }
        let ghost rega = if me != down {
            reg0.insert(eh)
        } else {
            reg0
        };
        proof {
            assert forall|e: Edge| #[trigger]
            scanned(e, rr, cc, cc, rr, rr - 1, 0, r4 + 1, 0) <==> (scanned(
                e,
                rr,
                cc,
                cc,
                rr,
                rr - 1,
                0,
                r4 as int,
                0,
            ) || e == eh) by {}
            assert forall|l2: u64, e: Edge| #[trigger] emits_edge(g, l2, e) implies (rega.contains(
                e,
            ) <==> scanned_set(rr, cc, cc, rr, rr - 1, 0, r4 + 1, 0).contains(e)) by {
                if e == eh && me == down {
                    assert(!emits_edge(g, l2, eh));
                }
            }
            lemma_map_ok_region_equiv(m, g, rega, scanned_set(rr, cc, cc, rr, rr - 1, 0, r4 + 1, 0));
        }
        r4 += 1;
    }
    let mut c5: usize = 0;
    while c5 < nc - 1
        invariant
            g == *grid,
            rr == g.nrows_spec(),
            cc == g.ncols_spec(),
            nr == rr,
            nc == cc,
            g.wf(),
            0 <= c5 <= nc - 1,
            map_ok_set(m, g, scanned_set(rr, cc, cc, rr, rr - 1, 0, rr - 1, c5 as int)),
        decreases nc - 1 - c5,
    {
        let me = grid.at(nr - 1, c5);
        let right = grid.at(nr - 1, c5 + 1);
        let ev = Edge { a: Coord { x: c5 + 1, y: nr - 1 }, b: Coord { x: c5 + 1, y: nr } };
        let ghost reg0 = scanned_set(rr, cc, cc, rr, rr - 1, 0, rr - 1, c5 as int);
        if me != right {
            proof {
                assert(forall|l2: u64|
                    #[trigger] emits_edge(g, l2, ev) <==> (l2 == me || l2 == right));
                assert(!reg0.contains(ev));
            }
            emit_two(&mut m, grid, me, right, ev, Ghost(reg0));
        }
        let ghost rega = if me != right {
            reg0.insert(ev)
        } else {
            reg0
        };
        proof {
            assert forall|e: Edge| #[trigger]
            scanned(e, rr, cc, cc, rr, rr - 1, 0, rr - 1, c5 + 1) <==> (
            scanned(e, rr, cc, cc, rr, rr - 1, 0, rr - 1, c5 as int) || e == ev) by {}
            assert forall|l2: u64, e: Edge| #[trigger] emits_edge(g, l2, e) implies (rega.contains(
                e,
            ) <==> scanned_set(rr, cc, cc, rr, rr - 1, 0, rr - 1, c5 + 1).contains(e)) by {
                if e == ev && me == right {
                    assert(!emits_edge(g, l2, ev));
                }
            }
            lemma_map_ok_region_equiv(
                m,
                g,
                rega,
                scanned_set(rr, cc, cc, rr, rr - 1, 0, rr - 1, c5 + 1),
            );
        }
        c5 += 1;
    }
    proof {
        let regf = scanned_set(rr, cc, cc, rr, rr - 1, 0, rr - 1, cc - 1);
        assert forall|l: u64, e: Edge|
            #![trigger m.edges_of(l).contains(e)]
            #![trigger emits_edge(g, l, e)]
            m.edges_of(l).contains(e) <==> emits_edge(g, l, e) by {
            if emits_edge(g, l, e) {
                lemma_scan_complete(g, l, e);
                assert(regf.contains(e));
            }
            assert(m.edges_of(l).contains(e) <==> (emits_edge(g, l, e) && regf.contains(e)));
        }
        assert forall|l: u64| #[trigger] m.contains_label(l) implies (exists|r0: int, c0: int|
            0 <= r0 < rr && 0 <= c0 < cc && #[trigger] g.cell(r0, c0) == l) by {
            assert(m.edges_of(l).len() > 0);
            let e = m.edges_of(l)[0];
            assert(m.edges_of(l).contains(e));
            lemma_emits_label_occurs(g, l, e);
        }
        assert forall|l: u64| (exists|r0: int, c0: int|
            0 <= r0 < rr && 0 <= c0 < cc && #[trigger] g.cell(r0, c0) == l) implies
            #[trigger] m.contains_label(l) by {
            let (r0, c0): (int, int) = choose|r0: int, c0: int|
                0 <= r0 < rr && 0 <= c0 < cc && #[trigger] g.cell(r0, c0) == l;
            lemma_label_has_boundary(g, l, r0, c0);
            let e = choose|e: Edge| #[trigger] emits_edge(g, l, e);
            assert(m.edges_of(l).contains(e));
            if !m.contains_label(l) {
                assert(m.edges_of(l) == Seq::<Edge>::empty());
            }
        }
    }
    m
}

} // verus!
