use vstd::prelude::*;

verus! {

/// An immutable rows x cols array of region labels.
///
/// Row `r` holds the labels of the cells `(r, 0) .. (r, ncols-1)`; the lattice
/// vertex `(x, y)` is the corner shared by the cells around row `y`, column `x`.
pub struct Grid {
    pub rows: Vec<Vec<u64>>,
}

impl Grid {
    /// At least one row, every row of the same positive width.
    pub open spec fn wf(self) -> bool {
        self.rows@.len() >= 1 && self.rows@[0]@.len() >= 1 && (forall|i: int|
            0 <= i < self.rows@.len() ==> (#[trigger] self.rows@[i]@).len()
                == self.rows@[0]@.len())
    }

    pub open spec fn nrows_spec(self) -> int {
        self.rows@.len() as int
    }

    pub open spec fn ncols_spec(self) -> int {
        self.rows@[0]@.len() as int
    }

    /// The label of the cell in row `r`, column `c`.
    pub open spec fn cell(self, r: int, c: int) -> u64 {
        self.rows@[r]@[c]
    }

    /// Wraps the rows as a grid when they form a non-empty rectangle.
    pub fn new(rows: Vec<Vec<u64>>) -> (res: Option<Grid>)
        ensures
            match res {
                Some(g) => g.wf() && g.rows@ == rows@,
                None => !(Grid { rows }).wf(),
            },
    {
        if rows.len() == 0 {
            return None;
        }
        let w: usize = rows[0].len();
        if w == 0 {
            return None;
        }
        let mut i: usize = 1;
        while i < rows.len()
            invariant
                1 <= i <= rows@.len(),
                w == rows@[0]@.len(),
                forall|j: int| 0 <= j < i ==> (#[trigger] rows@[j]@).len() == w,
            decreases rows@.len() - i,
        {
            if rows[i].len() != w {
                return None;
            }
            i += 1;
        }
        Some(Grid { rows })
    }

    pub fn nrows(&self) -> (n: usize)
        ensures
            n == self.nrows_spec(),
    {
        self.rows.len()
    }

    pub fn ncols(&self) -> (n: usize)
        requires
            self.wf(),
        ensures
            n == self.ncols_spec(),
    {
        self.rows[0].len()
    }

    pub fn at(&self, r: usize, c: usize) -> (v: u64)
        requires
            self.wf(),
            r < self.nrows_spec(),
            c < self.ncols_spec(),
        ensures
            v == self.cell(r as int, c as int),
    {
        self.rows[r][c]
    }
}

} // verus!
