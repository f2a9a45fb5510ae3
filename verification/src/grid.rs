//! The puzzle board: a square grid of cells, each holding at most one arrow.

use vstd::prelude::*;

verus! {

/// The four directions an arrow can point.
#[derive(Clone, Copy, PartialEq, Eq, Structural, Debug)]
pub enum Direction {
    Up,
    Down,
    Left,
    Right,
}

/// A directional token occupying one cell. `color` is an index into the
/// display palette; it never influences the puzzle logic.
#[derive(Clone, Copy, PartialEq, Eq, Structural, Debug)]
pub struct Arrow {
    pub dir: Direction,
    pub color: u8,
}

/// A square board of `size * size` cells, stored row by row:
/// cell `(x, y)` lives at index `y * size + x`.
#[derive(Clone, Debug)]
pub struct Grid {
    pub size: usize,
    pub cells: Vec<Option<Arrow>>,
}

/// Linear index of cell `(x, y)` on a board of side `n`.
pub open spec fn cell_index(n: int, x: int, y: int) -> int {
    y * n + x
}

/// Both coordinates lie on the board.
pub open spec fn in_bounds(n: int, x: int, y: int) -> bool {
    0 <= x < n && 0 <= y < n
}

/// The cell sequence has exactly one entry per board cell.
pub open spec fn grid_wf(cells: Seq<Option<Arrow>>, n: int) -> bool {
    cells.len() == n * n
}

/// Contents of cell `(x, y)`.
pub open spec fn cell_at(cells: Seq<Option<Arrow>>, n: int, x: int, y: int) -> Option<Arrow> {
    cells[cell_index(n, x, y)]
}

/// No cell holds an arrow.
pub open spec fn all_empty(cells: Seq<Option<Arrow>>) -> bool {
    forall|i: int| 0 <= i < cells.len() ==> cells[i] is None
}

/// Number of cells holding no arrow.
pub open spec fn count_empty(cells: Seq<Option<Arrow>>) -> nat
    decreases cells.len(),
{
    if cells.len() == 0 {
        0
    } else {
        count_empty(cells.drop_last()) + if cells.last() is None {
            1nat
        } else {
            0nat
        }
    }
}

/// A cell's linear index is a position inside the cell sequence.
pub proof fn lemma_cell_index_bounds(n: int, x: int, y: int)
    by (nonlinear_arith)
    requires
        in_bounds(n, x, y),
    ensures
        0 <= cell_index(n, x, y) < n * n,
{
}

/// Distinct in-bounds cells have distinct linear indices.
pub proof fn lemma_cell_index_injective(n: int, x1: int, y1: int, x2: int, y2: int)
    by (nonlinear_arith)
    requires
        in_bounds(n, x1, y1),
        in_bounds(n, x2, y2),
        (x1, y1) != (x2, y2),
    ensures
        cell_index(n, x1, y1) != cell_index(n, x2, y2),
{
}

impl Grid {
    /// Board side length, as a mathematical integer.
    pub open spec fn n(self) -> int {
        self.size as int
    }

    /// The board is well formed: one stored cell per coordinate pair.
    pub open spec fn wf(self) -> bool {
        grid_wf(self.cells@, self.n())
    }

    /// Contents of cell `(x, y)`.
    pub open spec fn cell_spec(self, x: int, y: int) -> Option<Arrow> {
        cell_at(self.cells@, self.n(), x, y)
    }

    /// Read one cell.
    pub fn cell(&self, x: usize, y: usize) -> (c: Option<Arrow>)
        requires
            self.wf(),
            x < self.size,
            y < self.size,
        ensures
            c == self.cell_spec(x as int, y as int),
    {
        proof {
            vstd::std_specs::vec::axiom_spec_len(&self.cells);
            lemma_cell_index_bounds(self.n(), x as int, y as int);
        }
        self.cells[y * self.size + x]
    }
}

/// True iff every cell of the grid is empty: the level is cleared.
pub fn grid_is_empty(grid: &Grid) -> (empty: bool)
    ensures
        empty == all_empty(grid.cells@),
{
    let mut i: usize = 0;
    while i < grid.cells.len()
        invariant
            i <= grid.cells@.len(),
            forall|j: int| 0 <= j < i ==> grid.cells@[j] is None,
        decreases grid.cells@.len() - i,
    {
        if grid.cells[i].is_some() {
            return false;
        }
        i = i + 1;
    }
    true
}

/// Count the cells holding no arrow; the level is complete when the count
/// reaches `size * size`.
pub fn empty_cell_count(grid: &Grid) -> (count: usize)
    ensures
        count == count_empty(grid.cells@),
        count <= grid.cells@.len(),
{
    let mut count: usize = 0;
    let mut i: usize = 0;
    while i < grid.cells.len()
        invariant
            i <= grid.cells@.len(),
            count <= i,
            count == count_empty(grid.cells@.take(i as int)),
        decreases grid.cells@.len() - i,
    {
        proof {
            let s = grid.cells@;
            assert(s.take(i + 1).drop_last() =~= s.take(i as int));
            assert(s.take(i + 1).last() == s[i as int]);
        }
        if grid.cells[i].is_none() {
            count = count + 1;
        }
        i = i + 1;
    }
    proof {
        assert(grid.cells@.take(grid.cells@.len() as int) =~= grid.cells@);
    }
    count
}

/// An upper bound: there are never more empty cells than cells.
pub proof fn lemma_count_empty_le_len(cells: Seq<Option<Arrow>>)
    ensures
        count_empty(cells) <= cells.len(),
    decreases cells.len(),
{
    if cells.len() > 0 {
        lemma_count_empty_le_len(cells.drop_last());
    }
}

/// The empty-cell count reaches the cell count exactly when the grid holds
/// no arrow at all.
pub proof fn lemma_all_empty_iff_count_full(cells: Seq<Option<Arrow>>)
    ensures
        all_empty(cells) <==> count_empty(cells) == cells.len(),
    decreases cells.len(),
{
    if cells.len() > 0 {
        lemma_all_empty_iff_count_full(cells.drop_last());
        lemma_count_empty_le_len(cells.drop_last());
        if count_empty(cells) == cells.len() {
            assert(forall|i: int| 0 <= i < cells.len() - 1 ==> cells[i] == cells.drop_last()[i]);
        }
        if all_empty(cells) {
            assert(forall|i: int|
                0 <= i < cells.len() - 1 ==> #[trigger] cells.drop_last()[i] == cells[i]);
        }
    }
}

} // verus!
