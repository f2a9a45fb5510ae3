//! The removability oracle: an arrow may leave the board only when the cells
//! between it and the edge, in its own direction, hold no other arrow.

use vstd::prelude::*;

use crate::grid::{Arrow, Direction, Grid, cell_at, cell_index, in_bounds, grid_wf,
    lemma_cell_index_bounds};

verus! {

/// Length of the exit path of a cell `(x, y)` looking in `dir` on a board of
/// side `n`: the number of cells strictly between the cell and the edge.
pub open spec fn exit_len(n: int, x: int, y: int, dir: Direction) -> int {
    match dir {
        Direction::Right => n - x - 1,
        Direction::Left => x,
        Direction::Down => n - y - 1,
        Direction::Up => y,
    }
}

/// The `i`-th cell of that exit path, counted from the arrow outward.
pub open spec fn exit_cell(x: int, y: int, dir: Direction, i: int) -> (int, int) {
    match dir {
        Direction::Right => (x + 1 + i, y),
        Direction::Left => (x - 1 - i, y),
        Direction::Down => (x, y + 1 + i),
        Direction::Up => (x, y - 1 - i),
    }
}

/// Every cell on the exit path of `(x, y)` in direction `dir` is empty.
pub open spec fn dir_clear(
    cells: Seq<Option<Arrow>>,
    n: int,
    x: int,
    y: int,
    dir: Direction,
) -> bool {
    forall|i: int|
        0 <= i < exit_len(n, x, y, dir) ==> cell_at(
            cells,
            n,
            (#[trigger] exit_cell(x, y, dir, i)).0,
            exit_cell(x, y, dir, i).1,
        ) is None
}

/// Cell `(x, y)` holds an arrow whose exit path is clear.
pub open spec fn removable(cells: Seq<Option<Arrow>>, n: int, x: int, y: int) -> bool {
    in_bounds(n, x, y) && match cell_at(cells, n, x, y) {
        Some(arrow) => dir_clear(cells, n, x, y, arrow.dir),
        None => false,
    }
}

/// Scan the exit path of `(x, y)` in direction `dir` for arrows, over the raw
/// cell sequence; shared by the oracle and the generator.
#[verifier::loop_isolation(false)]
pub(crate) fn scan_dir(
    cells: &Vec<Option<Arrow>>,
    n: usize,
    x: usize,
    y: usize,
    dir: Direction,
) -> (clear: bool)
    requires
        grid_wf(cells@, n as int),
        x < n,
        y < n,
    ensures
        clear == dir_clear(cells@, n as int, x as int, y as int, dir),
{
    proof {
        vstd::std_specs::vec::axiom_spec_len(cells);
    }
    match dir {
        Direction::Right => {
            let mut nx: usize = x + 1;
            while nx < n
                invariant
                    x < nx <= n,
                    forall|cx: int|
                        x < cx < nx ==> cell_at(cells@, n as int, cx, y as int) is None,
                decreases n - nx,
            {
                proof {
                    lemma_cell_index_bounds(n as int, nx as int, y as int);
                }
                if cells[y * n + nx].is_some() {
                    proof {
                        assert(exit_cell(x as int, y as int, dir, nx - x - 1) == (
                            nx as int,
                            y as int,
                        ));
                    }
                    return false;
                }
                nx = nx + 1;
            }
            proof {
                assert forall|i: int| 0 <= i < exit_len(n as int, x as int, y as int, dir) implies
                    cell_at(
                        cells@,
                        n as int,
                        (#[trigger] exit_cell(x as int, y as int, dir, i)).0,
                        exit_cell(x as int, y as int, dir, i).1,
                    ) is None by {
                    assert(cell_at(cells@, n as int, x + 1 + i, y as int) is None);
                }
            }
            true
        },
        Direction::Left => {
            let mut cx: usize = 0;
            while cx < x
                invariant
                    cx <= x,
                    forall|c: int| 0 <= c < cx ==> cell_at(cells@, n as int, c, y as int) is None,
                decreases x - cx,
            {
                proof {
                    lemma_cell_index_bounds(n as int, cx as int, y as int);
                }
                if cells[y * n + cx].is_some() {
                    proof {
                        assert(exit_cell(x as int, y as int, dir, x - cx - 1) == (
                            cx as int,
                            y as int,
                        ));
                    }
                    return false;
                }
                cx = cx + 1;
            }
            proof {
                assert forall|i: int| 0 <= i < exit_len(n as int, x as int, y as int, dir) implies
                    cell_at(
                        cells@,
                        n as int,
                        (#[trigger] exit_cell(x as int, y as int, dir, i)).0,
                        exit_cell(x as int, y as int, dir, i).1,
                    ) is None by {
                    assert(cell_at(cells@, n as int, x - 1 - i, y as int) is None);
                }
            }
            true
        },
        Direction::Down => {
            let mut ny: usize = y + 1;
            while ny < n
                invariant
                    y < ny <= n,
                    forall|cy: int|
                        y < cy < ny ==> cell_at(cells@, n as int, x as int, cy) is None,
                decreases n - ny,
            {
                proof {
                    lemma_cell_index_bounds(n as int, x as int, ny as int);
                }
                if cells[ny * n + x].is_some() {
                    proof {
                        assert(exit_cell(x as int, y as int, dir, ny - y - 1) == (
                            x as int,
                            ny as int,
                        ));
                    }
                    return false;
                }
                ny = ny + 1;
            }
            proof {
                assert forall|i: int| 0 <= i < exit_len(n as int, x as int, y as int, dir) implies
                    cell_at(
                        cells@,
                        n as int,
                        (#[trigger] exit_cell(x as int, y as int, dir, i)).0,
                        exit_cell(x as int, y as int, dir, i).1,
                    ) is None by {
                    assert(cell_at(cells@, n as int, x as int, y + 1 + i) is None);
                }
            }
            true
        },
        Direction::Up => {
            let mut cy: usize = 0;
            while cy < y
                invariant
                    cy <= y,
                    forall|c: int| 0 <= c < cy ==> cell_at(cells@, n as int, x as int, c) is None,
                decreases y - cy,
            {
                proof {
                    lemma_cell_index_bounds(n as int, x as int, cy as int);
                }
                if cells[cy * n + x].is_some() {
                    proof {
                        assert(exit_cell(x as int, y as int, dir, y - cy - 1) == (
                            x as int,
                            cy as int,
                        ));
                    }
                    return false;
                }
                cy = cy + 1;
            }
            proof {
                assert forall|i: int| 0 <= i < exit_len(n as int, x as int, y as int, dir) implies
                    cell_at(
                        cells@,
                        n as int,
                        (#[trigger] exit_cell(x as int, y as int, dir, i)).0,
                        exit_cell(x as int, y as int, dir, i).1,
                    ) is None by {
                    assert(cell_at(cells@, n as int, x as int, y - 1 - i) is None);
                }
            }
            true
        },
    }
}

/// True iff every cell strictly between `(x, y)` and the board edge in
/// direction `dir` is empty.
pub fn path_is_clear(grid: &Grid, x: usize, y: usize, dir: Direction) -> (clear: bool)
    requires
        grid.wf(),
        x < grid.size,
        y < grid.size,
    ensures
        clear == dir_clear(grid.cells@, grid.n(), x as int, y as int, dir),
{
    scan_dir(&grid.cells, grid.size, x, y, dir)
}

/// The removability oracle: false when `(x, y)` holds no arrow, otherwise
/// true iff the arrow's exit path is clear. It never mutates the grid.
pub fn can_remove(grid: &Grid, x: usize, y: usize) -> (ok: bool)
    requires
        grid.wf(),
        x < grid.size,
        y < grid.size,
    ensures
        ok == removable(grid.cells@, grid.n(), x as int, y as int),
{
    match grid.cell(x, y) {
        None => false,
        Some(arrow) => path_is_clear(grid, x, y, arrow.dir),
    }
}

/// Remove the arrow at `(x, y)` iff the oracle allows it. Returns whether a
/// removal happened; on refusal the grid is left exactly as it was.
pub fn try_remove(grid: &mut Grid, x: usize, y: usize) -> (removed: bool)
    requires
        old(grid).wf(),
        x < old(grid).size,
        y < old(grid).size,
    ensures
        final(grid).wf(),
        final(grid).size == old(grid).size,
        removed == removable(old(grid).cells@, old(grid).n(), x as int, y as int),
        removed ==> final(grid).cells@ == old(grid).cells@.update(
            cell_index(old(grid).n(), x as int, y as int),
            None::<Arrow>,
        ),
        !removed ==> *final(grid) == *old(grid),
{
    if can_remove(grid, x, y) {
        proof {
            vstd::std_specs::vec::axiom_spec_len(&grid.cells);
            lemma_cell_index_bounds(old(grid).n(), x as int, y as int);
        }
        grid.cells.set(y * grid.size + x, None);
        true
    } else {
        false
    }
}

/// The ordered cells from `(x, y)` (exclusive) to the board edge in direction
/// `dir`: empty when the cell already touches that edge.
#[verifier::loop_isolation(false)]
pub fn exit_path(x: usize, y: usize, dir: Direction, n: usize) -> (path: Vec<(usize, usize)>)
    requires
        x < n,
        y < n,
    ensures
        path@.len() == exit_len(n as int, x as int, y as int, dir),
        forall|i: int|
            0 <= i < path@.len() ==> ((#[trigger] path@[i]).0 as int, path@[i].1 as int)
                == exit_cell(x as int, y as int, dir, i),
{
    let mut path: Vec<(usize, usize)> = Vec::new();
    match dir {
        Direction::Right => {
            let mut nx: usize = x + 1;
            while nx < n
                invariant
                    x < nx <= n,
                    path@.len() == nx - x - 1,
                    forall|i: int|
                        0 <= i < path@.len() ==> ((#[trigger] path@[i]).0 as int,
                        path@[i].1 as int) == exit_cell(x as int, y as int, dir, i),
                decreases n - nx,
            {
                path.push((nx, y));
                nx = nx + 1;
            }
        },
        Direction::Left => {
            let mut i: usize = 0;
            while i < x
                invariant
                    i <= x < n,
                    path@.len() == i,
                    forall|j: int|
                        0 <= j < path@.len() ==> ((#[trigger] path@[j]).0 as int,
                        path@[j].1 as int) == exit_cell(x as int, y as int, dir, j),
                decreases x - i,
            {
                path.push((x - 1 - i, y));
                i = i + 1;
            }
        },
        Direction::Down => {
            let mut ny: usize = y + 1;
            while ny < n
                invariant
                    y < ny <= n,
                    path@.len() == ny - y - 1,
                    forall|i: int|
                        0 <= i < path@.len() ==> ((#[trigger] path@[i]).0 as int,
                        path@[i].1 as int) == exit_cell(x as int, y as int, dir, i),
                decreases n - ny,
            {
                path.push((x, ny));
                ny = ny + 1;
            }
        },
        Direction::Up => {
            let mut i: usize = 0;
            while i < y
                invariant
                    i <= y < n,
                    path@.len() == i,
                    forall|j: int|
                        0 <= j < path@.len() ==> ((#[trigger] path@[j]).0 as int,
                        path@[j].1 as int) == exit_cell(x as int, y as int, dir, j),
                decreases y - i,
            {
                path.push((x, y - 1 - i));
                i = i + 1;
            }
        },
    }
    path
}

/// A cell holding no arrow is never removable.
pub proof fn lemma_empty_cell_not_removable(cells: Seq<Option<Arrow>>, n: int, x: int, y: int)
    requires
        cell_at(cells, n, x, y) is None,
    ensures
        !removable(cells, n, x, y),
{
}

/// An arrow on the left edge pointing left has an empty exit path, so it is
/// removable whatever the rest of the grid holds.
pub proof fn lemma_left_edge_removable(cells: Seq<Option<Arrow>>, n: int, y: int)
    requires
        0 <= y < n,
        cell_at(cells, n, 0, y) matches Some(arrow) && arrow.dir == Direction::Left,
    ensures
        removable(cells, n, 0, y),
{
}

} // verus!
