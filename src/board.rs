//! The square board of cells.
use vstd::prelude::*;

verus! {

#[derive(Clone, Copy, PartialEq, Eq, Debug, Structural)]
pub enum Cell {
    Empty,
    Filled,
}

/// A square grid stored row by row: cell (col, row) sits at `row * size + col`.
pub struct Board {
    pub grid: Vec<Cell>,
    pub size: usize,
}

impl Board {
    /// The grid holds exactly `size * size` cells.
    pub open spec fn wf(&self) -> bool {
        self.grid@.len() == self.size * self.size
    }

    pub open spec fn in_bounds(&self, col: int, row: int) -> bool {
        0 <= col < self.size && 0 <= row < self.size
    }

    /// The cell at (col, row); meaningful only in bounds.
    pub open spec fn cell(&self, col: int, row: int) -> Cell {
        self.grid@[row * self.size + col]
    }

    pub fn new(size: usize) -> (r: Board)
        requires
            size * size <= usize::MAX,
        ensures
            r.wf(),
            r.size == size,
            forall|c: int, w: int| r.in_bounds(c, w) ==> #[trigger] r.cell(c, w) == Cell::Empty,
    {
        let n = size * size;
        let mut grid: Vec<Cell> = Vec::new();
        let mut i: usize = 0;
        while i < n
            invariant
                i <= n,
                grid@.len() == i,
                forall|k: int| 0 <= k < i ==> #[trigger] grid@[k] == Cell::Empty,
            decreases n - i,
        {
            grid.push(Cell::Empty);
            i = i + 1;
        }
        let r = Board { grid, size };
        assert forall|c: int, w: int| r.in_bounds(c, w) implies #[trigger] r.cell(c, w)
            == Cell::Empty by {
            lemma_index_in_grid(size as int, c, w);
        }
        r
    }

    /// The cell at (col, row), or `None` outside the board.
    pub fn get(&self, col: usize, row: usize) -> (r: Option<&Cell>)
        requires
            self.wf(),
        ensures
            match r {
                Some(c) => self.in_bounds(col as int, row as int) && *c == self.cell(
                    col as int,
                    row as int,
                ),
                None => !self.in_bounds(col as int, row as int),
            },
    {
        if col < self.size && row < self.size {
            let _n = self.grid.len();
            proof {
                lemma_index_in_grid(self.size as int, col as int, row as int);
            }
            Some(&self.grid[row * self.size + col])
        } else {
            None
        }
    }

    /// Sets the cell at (col, row); does nothing outside the board.
    pub fn set_cell(&mut self, col: usize, row: usize, cell: Cell)
        requires
            old(self).wf(),
        ensures
            final(self).wf(),
            final(self).size == old(self).size,
            forall|c: int, w: int|
                #![trigger final(self).cell(c, w)]
                final(self).in_bounds(c, w) ==> final(self).cell(c, w) == if c == col && w == row {
                    cell
                } else {
                    old(self).cell(c, w)
                },
    {
        if col < self.size && row < self.size {
            let _n = self.grid.len();
            proof {
                lemma_index_in_grid(self.size as int, col as int, row as int);
            }
            let ix = row * self.size + col;
            self.grid.set(ix, cell);
            proof {
                assert forall|c: int, w: int|
                    #![trigger self.cell(c, w)]
                    self.in_bounds(c, w) implies self.cell(c, w) == if c == col && w == row {
                        cell
                    } else {
                        old(self).cell(c, w)
                    } by {
                    lemma_index_in_grid(self.size as int, c, w);
                    if w * self.size + c == row * self.size + col {
                        lemma_index_injective(self.size as int, c, w, col as int, row as int);
                    }
                }
            }
        }
    }
}

/// A cell in bounds has its index inside the grid.
pub proof fn lemma_index_in_grid(size: int, col: int, row: int)
    requires
        0 <= col < size,
        0 <= row < size,
    ensures
        0 <= row * size + col < size * size,
{
    assert(row * size <= (size - 1) * size) by (nonlinear_arith)
        requires
            0 <= row < size,
    ;
    assert((size - 1) * size == size * size - size) by (nonlinear_arith);
}

/// Distinct cells in bounds have distinct grid indices.
pub proof fn lemma_index_injective(size: int, c1: int, r1: int, c2: int, r2: int)
    requires
        0 <= c1 < size,
        0 <= r1 < size,
        0 <= c2 < size,
        0 <= r2 < size,
        r1 * size + c1 == r2 * size + c2,
    ensures
        c1 == c2 && r1 == r2,
{
    if r1 < r2 {
        assert(r1 * size + size <= r2 * size) by (nonlinear_arith)
            requires
                r1 < r2,
                0 <= size,
        ;
    } else if r2 < r1 {
        assert(r2 * size + size <= r1 * size) by (nonlinear_arith)
            requires
                r2 < r1,
                0 <= size,
        ;
    }
}

} // verus!
