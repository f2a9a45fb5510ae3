//! The puzzle generator: visits the cells in a random order and gives each a
//! direction whose exit path is clear at placement time, which makes the
//! finished board solvable by construction.

use vstd::prelude::*;

use rand::seq::SliceRandom;

use crate::grid::{Arrow, Direction, Grid, all_empty, cell_at, cell_index, in_bounds, grid_wf,
    lemma_cell_index_bounds, lemma_cell_index_injective};
use crate::removal::{dir_clear, exit_cell, exit_len, removable, scan_dir};

verus! {

/// The order in which the four candidate directions are tried for one cell.
#[derive(Clone, Copy, PartialEq, Eq, Structural, Debug)]
pub struct DirOrder {
    pub first: Direction,
    pub second: Direction,
    pub third: Direction,
    pub fourth: Direction,
}

/// A board of side `n` with every cell empty.
pub open spec fn empty_grid_cells(n: int) -> Seq<Option<Arrow>> {
    Seq::new((n * n) as nat, |i: int| None::<Arrow>)
}

/// Direction `d` occurs somewhere in the candidate order.
pub open spec fn has_dir(ord: DirOrder, d: Direction) -> bool {
    ord.first == d || ord.second == d || ord.third == d || ord.fourth == d
}

/// The candidate order mentions all four directions.
pub open spec fn order_complete(ord: DirOrder) -> bool {
    has_dir(ord, Direction::Up) && has_dir(ord, Direction::Down) && has_dir(
        ord,
        Direction::Left,
    ) && has_dir(ord, Direction::Right)
}

/// Every arrow on the board wears one of the eight palette colors.
pub open spec fn colors_in_palette(cells: Seq<Option<Arrow>>) -> bool {
    forall|i: int|
        0 <= i < cells.len() ==> ((#[trigger] cells[i]) matches Some(arrow) ==> arrow.color < 8)
}

/// The first `len` board coordinates in row-by-row order: entry `j` is
/// `(j % n, j / n)`.
pub open spec fn coord_list(n: int, len: int) -> Seq<(usize, usize)> {
    Seq::new(len as nat, |j: int| (((j % n) as usize), ((j / n) as usize)))
}

/// `visit` lists every cell of a board of side `grid_size`, and exactly as
/// many entries as the board has cells — so each cell exactly once.
pub open spec fn full_visit(visit: Seq<(usize, usize)>, grid_size: usize) -> bool {
    &&& visit.len() == grid_size * grid_size
    &&& forall|cx: usize, cy: usize|
        cx < grid_size && cy < grid_size ==> #[trigger] visit.contains((cx, cy))
}

/// The board is the outcome of one honest generator pass: a visit order
/// covering every cell exactly once, and for each visit a candidate order
/// naming all four directions and a palette color.
pub open spec fn generator_run(cells: Seq<Option<Arrow>>, grid_size: usize) -> bool {
    exists|visit: Seq<(usize, usize)>, ords: Seq<DirOrder>, cols: Seq<u8>|
        {
            &&& cells == fill_from(
                empty_grid_cells(grid_size as int),
                grid_size as int,
                visit,
                ords,
                cols,
                0,
            )
            &&& full_visit(visit, grid_size)
            &&& ords.len() == visit.len()
            &&& forall|k: int| 0 <= k < ords.len() ==> order_complete(#[trigger] ords[k])
            &&& cols.len() == visit.len()
            &&& forall|k: int| 0 <= k < cols.len() ==> #[trigger] cols[k] < 8
        }
}

/// The first direction of the candidate order whose exit path is clear, if
/// any direction's is.
pub open spec fn choose_dir(
    cells: Seq<Option<Arrow>>,
    n: int,
    x: int,
    y: int,
    ord: DirOrder,
) -> Option<Direction> {
    if dir_clear(cells, n, x, y, ord.first) {
        Some(ord.first)
    } else if dir_clear(cells, n, x, y, ord.second) {
        Some(ord.second)
    } else if dir_clear(cells, n, x, y, ord.third) {
        Some(ord.third)
    } else if dir_clear(cells, n, x, y, ord.fourth) {
        Some(ord.fourth)
    } else {
        None
    }
}

/// One generator step: if `(x, y)` is on the board, still empty, and some
/// candidate direction has a clear exit path, place an arrow there; otherwise
/// leave the board as it is.
pub open spec fn place_one(
    cells: Seq<Option<Arrow>>,
    n: int,
    x: int,
    y: int,
    ord: DirOrder,
    color: u8,
) -> Seq<Option<Arrow>> {
    if in_bounds(n, x, y) && cell_at(cells, n, x, y) is None {
        match choose_dir(cells, n, x, y, ord) {
            Some(dir) => cells.update(cell_index(n, x, y), Some(Arrow { dir, color })),
            None => cells,
        }
    } else {
        cells
    }
}

/// The board obtained by running the generator steps for the visit positions
/// from index `k` on.
pub open spec fn fill_from(
    cells: Seq<Option<Arrow>>,
    n: int,
    positions: Seq<(usize, usize)>,
    orders: Seq<DirOrder>,
    colors: Seq<u8>,
    k: int,
) -> Seq<Option<Arrow>>
    decreases positions.len() - k,
{
    if k < 0 || k >= positions.len() {
        cells
    } else {
        fill_from(
            place_one(cells, n, positions[k].0 as int, positions[k].1 as int, orders[k], colors[k]),
            n,
            positions,
            orders,
            colors,
            k + 1,
        )
    }
}

/// `order` lists cell coordinates that can be removed one after the other,
/// each legal at its turn, leaving the board empty at the end.
pub open spec fn clears_all(cells: Seq<Option<Arrow>>, n: int, order: Seq<(int, int)>) -> bool
    decreases order.len(),
{
    if order.len() == 0 {
        all_empty(cells)
    } else {
        removable(cells, n, order[0].0, order[0].1) && clears_all(
            cells.update(cell_index(n, order[0].0, order[0].1), None),
            n,
            order.drop_first(),
        )
    }
}

/// Some removal order consumes every arrow on the board.
pub open spec fn solvable(cells: Seq<Option<Arrow>>, n: int) -> bool {
    exists|order: Seq<(int, int)>| clears_all(cells, n, order)
}

/// A board without arrows is solvable: the empty removal order clears it.
pub proof fn lemma_empty_solvable(cells: Seq<Option<Arrow>>, n: int)
    requires
        all_empty(cells),
    ensures
        solvable(cells, n),
{
    let order = Seq::<(int, int)>::empty();
    assert(clears_all(cells, n, order));
}

/// One generator step keeps the board solvable: a freshly placed arrow has a
/// clear exit path, so removing it first restores the board it was placed on.
pub proof fn lemma_place_one_solvable(
    cells: Seq<Option<Arrow>>,
    n: int,
    x: int,
    y: int,
    ord: DirOrder,
    color: u8,
)
    requires
        grid_wf(cells, n),
        solvable(cells, n),
    ensures
        grid_wf(place_one(cells, n, x, y, ord, color), n),
        solvable(place_one(cells, n, x, y, ord, color), n),
{
    let after = place_one(cells, n, x, y, ord, color);
    if in_bounds(n, x, y) && cell_at(cells, n, x, y) is None {
        match choose_dir(cells, n, x, y, ord) {
            Some(dir) => {
                let idx = cell_index(n, x, y);
                lemma_cell_index_bounds(n, x, y);
                assert(dir_clear(cells, n, x, y, dir));
                assert forall|i: int|
                    0 <= i < exit_len(n, x, y, dir) implies cell_at(
                    after,
                    n,
                    (#[trigger] exit_cell(x, y, dir, i)).0,
                    exit_cell(x, y, dir, i).1,
                ) is None by {
                    let cx = exit_cell(x, y, dir, i).0;
                    let cy = exit_cell(x, y, dir, i).1;
                    assert(in_bounds(n, cx, cy));
                    assert(cell_at(cells, n, cx, cy) is None);
                    lemma_cell_index_bounds(n, cx, cy);
                    lemma_cell_index_injective(n, cx, cy, x, y);
                }
                assert(removable(after, n, x, y));
                let order0 = choose|order: Seq<(int, int)>| clears_all(cells, n, order);
                let order1 = seq![(x, y)].add(order0);
                assert(order1[0] == (x, y));
                assert(order1.drop_first() =~= order0);
                assert(after.update(idx, None) =~= cells);
                assert(clears_all(after, n, order1));
            },
            None => {},
        }
    }
}

/// Running the generator steps from any index onward keeps the board
/// solvable.
pub proof fn lemma_fill_from_solvable(
    cells: Seq<Option<Arrow>>,
    n: int,
    positions: Seq<(usize, usize)>,
    orders: Seq<DirOrder>,
    colors: Seq<u8>,
    k: int,
)
    requires
        grid_wf(cells, n),
        solvable(cells, n),
    ensures
        grid_wf(fill_from(cells, n, positions, orders, colors, k), n),
        solvable(fill_from(cells, n, positions, orders, colors, k), n),
    decreases positions.len() - k,
{
    if 0 <= k < positions.len() {
        lemma_place_one_solvable(
            cells,
            n,
            positions[k].0 as int,
            positions[k].1 as int,
            orders[k],
            colors[k],
        );
        lemma_fill_from_solvable(
            place_one(cells, n, positions[k].0 as int, positions[k].1 as int, orders[k], colors[k]),
            n,
            positions,
            orders,
            colors,
            k + 1,
        );
    }
}

/// The row-by-row coordinate enumeration of a whole board contains every
/// on-board coordinate.
pub proof fn lemma_coord_list_covers(n: int, cx: usize, cy: usize)
    requires
        cx < n,
        cy < n,
    ensures
        coord_list(n, n * n).contains((cx, cy)),
{
    let j = cy * n + cx;
    lemma_cell_index_bounds(n, cx as int, cy as int);
    vstd::arithmetic::div_mod::lemma_fundamental_div_mod_converse(j, n, cy as int, cx as int);
    assert(coord_list(n, n * n)[j] == (cx, cy));
}

/// Every entry of the whole-board coordinate enumeration lies on the board.
pub proof fn lemma_coord_list_entry_bounds(n: int, j: int)
    requires
        n >= 1,
        0 <= j < n * n,
    ensures
        coord_list(n, n * n)[j].0 < n,
        coord_list(n, n * n)[j].1 < n,
{
    vstd::arithmetic::div_mod::lemma_mod_bound(j, n);
    vstd::arithmetic::div_mod::lemma_div_pos_is_pos(j, n);
    vstd::arithmetic::div_mod::lemma_multiply_divide_lt(j, n, n);
}

/// Generator steps never take an arrow off the board: a cell once occupied
/// stays occupied for the rest of the pass.
pub proof fn lemma_fill_from_keeps_arrow(
    cells: Seq<Option<Arrow>>,
    n: int,
    positions: Seq<(usize, usize)>,
    orders: Seq<DirOrder>,
    colors: Seq<u8>,
    k: int,
    i: int,
)
    requires
        grid_wf(cells, n),
        0 <= i < cells.len(),
        cells[i] is Some,
    ensures
        grid_wf(fill_from(cells, n, positions, orders, colors, k), n),
        fill_from(cells, n, positions, orders, colors, k)[i] is Some,
    decreases positions.len() - k,
{
    if 0 <= k < positions.len() {
        let x = positions[k].0 as int;
        let y = positions[k].1 as int;
        let next = place_one(cells, n, x, y, orders[k], colors[k]);
        if in_bounds(n, x, y) && cell_at(cells, n, x, y) is None {
            lemma_cell_index_bounds(n, x, y);
        }
        lemma_fill_from_keeps_arrow(next, n, positions, orders, colors, k + 1, i);
    }
}

/// Whatever the random draws, a pass whose first visit is an on-board cell
/// leaves at least one arrow: every direction is clear on the empty board,
/// so the first visited cell always receives one, and placed arrows stay.
pub proof fn lemma_first_visit_places(
    n: int,
    visit: Seq<(usize, usize)>,
    ords: Seq<DirOrder>,
    cols: Seq<u8>,
)
    requires
        visit.len() >= 1,
        in_bounds(n, visit[0].0 as int, visit[0].1 as int),
    ensures
        !all_empty(fill_from(empty_grid_cells(n), n, visit, ords, cols, 0)),
{
    let empty = empty_grid_cells(n);
    let x = visit[0].0 as int;
    let y = visit[0].1 as int;
    let idx = cell_index(n, x, y);
    lemma_cell_index_bounds(n, x, y);
    let d = ords[0].first;
    assert forall|i: int| 0 <= i < exit_len(n, x, y, d) implies cell_at(
        empty,
        n,
        (#[trigger] exit_cell(x, y, d, i)).0,
        exit_cell(x, y, d, i).1,
    ) is None by {
        let cx = exit_cell(x, y, d, i).0;
        let cy = exit_cell(x, y, d, i).1;
        assert(in_bounds(n, cx, cy));
        lemma_cell_index_bounds(n, cx, cy);
    }
    assert(dir_clear(empty, n, x, y, d));
    let after = place_one(empty, n, x, y, ords[0], cols[0]);
    assert(after[idx] is Some);
    lemma_fill_from_keeps_arrow(after, n, visit, ords, cols, 1, idx);
    assert(fill_from(empty, n, visit, ords, cols, 0)[idx] is Some);
}

/// Generator steps place only colors drawn from the given color list: when
/// every listed color is a palette index, every arrow of the finished board
/// wears one.
pub proof fn lemma_fill_from_palette(
    cells: Seq<Option<Arrow>>,
    n: int,
    positions: Seq<(usize, usize)>,
    orders: Seq<DirOrder>,
    colors: Seq<u8>,
    k: int,
)
    requires
        grid_wf(cells, n),
        colors_in_palette(cells),
        positions.len() <= colors.len(),
        forall|j: int| 0 <= j < colors.len() ==> #[trigger] colors[j] < 8,
    ensures
        colors_in_palette(fill_from(cells, n, positions, orders, colors, k)),
    decreases positions.len() - k,
{
    if 0 <= k < positions.len() {
        let x = positions[k].0 as int;
        let y = positions[k].1 as int;
        let next = place_one(cells, n, x, y, orders[k], colors[k]);
        if in_bounds(n, x, y) && cell_at(cells, n, x, y) is None {
            lemma_cell_index_bounds(n, x, y);
        }
        assert(colors_in_palette(next));
        lemma_fill_from_palette(next, n, positions, orders, colors, k + 1);
    }
}

/// With the visit order, the per-cell direction orders and the colors all
/// fixed, generation is reproducible: those choices determine the board
/// completely.
pub proof fn lemma_generation_deterministic(
    n: int,
    positions: Seq<(usize, usize)>,
    orders: Seq<DirOrder>,
    colors: Seq<u8>,
    first: Seq<Option<Arrow>>,
    second: Seq<Option<Arrow>>,
)
    requires
        first == fill_from(empty_grid_cells(n), n, positions, orders, colors, 0),
        second == fill_from(empty_grid_cells(n), n, positions, orders, colors, 0),
    ensures
        first == second,
{
}

/// The deterministic core of the generator: starting from an empty board of
/// side `size`, run one placement step for each visit position, taking the
/// direction orders and colors from the matching entries. A visit position
/// off the board or already occupied is skipped, and a cell whose four
/// candidate directions are all blocked is left empty, so the result is
/// solvable for every input.
#[verifier::loop_isolation(false)]
pub fn build_grid(
    size: usize,
    positions: &Vec<(usize, usize)>,
    orders: &Vec<DirOrder>,
    colors: &Vec<u8>,
) -> (grid: Grid)
    requires
        positions@.len() == orders@.len(),
        positions@.len() == colors@.len(),
        size * size <= usize::MAX,
    ensures
        grid.wf(),
        grid.size == size,
        grid.cells@ == fill_from(
            empty_grid_cells(size as int),
            size as int,
            positions@,
            orders@,
            colors@,
            0,
        ),
        solvable(grid.cells@, size as int),
{
    let n = size;
    let total = n * n;
    let mut cells: Vec<Option<Arrow>> = Vec::new();
    let mut i: usize = 0;
    while i < total
        invariant
            i <= total,
            cells@.len() == i,
            forall|j: int| 0 <= j < i ==> cells@[j] is None,
        decreases total - i,
    {
        cells.push(None);
        i = i + 1;
    }
    proof {
        assert(cells@ =~= empty_grid_cells(n as int));
    }
    let ghost target = fill_from(
        empty_grid_cells(n as int),
        n as int,
        positions@,
        orders@,
        colors@,
        0,
    );
    let mut k: usize = 0;
    while k < positions.len()
        invariant
            k <= positions@.len(),
            grid_wf(cells@, n as int),
            fill_from(cells@, n as int, positions@, orders@, colors@, k as int) == target,
        decreases positions@.len() - k,
    {
        let (x, y) = positions[k];
        let ghost before = cells@;
        if x < n && y < n {
            proof {
                vstd::std_specs::vec::axiom_spec_len(&cells);
                lemma_cell_index_bounds(n as int, x as int, y as int);
            }
            let ci = y * n + x;
            if cells[ci].is_none() {
                let ord = orders[k];
                let color = colors[k];
                let mut chosen: Option<Direction> = None;
                if scan_dir(&cells, n, x, y, ord.first) {
                    chosen = Some(ord.first);
                } else if scan_dir(&cells, n, x, y, ord.second) {
                    chosen = Some(ord.second);
                } else if scan_dir(&cells, n, x, y, ord.third) {
                    chosen = Some(ord.third);
                } else if scan_dir(&cells, n, x, y, ord.fourth) {
                    chosen = Some(ord.fourth);
                }
                proof {
                    assert(chosen == choose_dir(before, n as int, x as int, y as int, ord));
                }
                match chosen {
                    Some(dir) => {
                        cells.set(ci, Some(Arrow { dir, color }));
                    },
                    None => {},
                }
            }
        }
        proof {
            assert(cells@ == place_one(
                before,
                n as int,
                x as int,
                y as int,
                orders@[k as int],
                colors@[k as int],
            ));
        }
        k = k + 1;
    }
    proof {
        assert(all_empty(empty_grid_cells(n as int)));
        lemma_empty_solvable(empty_grid_cells(n as int), n as int);
        lemma_fill_from_solvable(
            empty_grid_cells(n as int),
            n as int,
            positions@,
            orders@,
            colors@,
            0,
        );
    }
    Grid { size: n, cells }
}

/// Relies on rand's `SliceRandom::shuffle`: it permutes the slice in place,
/// picking uniformly among all permutations.
#[verifier::external_body]
fn shuffle_in_place<T>(items: &mut Vec<T>)
    ensures
        final(items)@.to_multiset() == old(items)@.to_multiset(),
        final(items)@.len() == old(items)@.len(),
{
    items.as_mut_slice().shuffle(&mut rand::rng());
}

/// Build a fresh board of side `grid_size`, guaranteed solvable: every cell
/// is visited exactly once in a uniformly random order and receives the
/// first direction, in a per-cell random order of all four, whose exit path
/// is clear against the arrows placed so far, together with a random palette
/// color. A board of side at least one never comes back empty: the first
/// visited cell of the empty board always receives an arrow.
pub fn generate_grid(grid_size: usize) -> (grid: Grid)
    requires
        grid_size * grid_size <= usize::MAX,
    ensures
        grid.wf(),
        grid.size == grid_size,
        solvable(grid.cells@, grid_size as int),
        grid_size >= 1 ==> !all_empty(grid.cells@),
        colors_in_palette(grid.cells@),
        generator_run(grid.cells@, grid_size),
{
    let mut positions: Vec<(usize, usize)> = Vec::new();
    proof {
        assert(positions@ =~= coord_list(grid_size as int, 0));
    }
    let mut y: usize = 0;
    while y < grid_size
        invariant
            y <= grid_size,
            positions@ == coord_list(grid_size as int, y * grid_size),
        decreases grid_size - y,
    {
        let mut x: usize = 0;
        while x < grid_size
            invariant
                x <= grid_size,
                y < grid_size,
                positions@ == coord_list(grid_size as int, y * grid_size + x),
            decreases grid_size - x,
        {
            positions.push((x, y));
            proof {
                vstd::arithmetic::div_mod::lemma_fundamental_div_mod_converse(
                    y * grid_size + x,
                    grid_size as int,
                    y as int,
                    x as int,
                );
                assert(positions@ =~= coord_list(grid_size as int, y * grid_size + x + 1));
            }
            x = x + 1;
        }
        proof {
            assert((y + 1) * grid_size == y * grid_size + grid_size) by (nonlinear_arith);
        }
        y = y + 1;
    }
    let ghost pre_visit = positions@;
    shuffle_in_place(&mut positions);
    proof {
        broadcast use vstd::seq_lib::group_to_multiset_ensures;

        assert forall|cx: usize, cy: usize| cx < grid_size && cy < grid_size implies #[trigger]
        positions@.contains((cx, cy)) by {
            lemma_coord_list_covers(grid_size as int, cx, cy);
            assert(pre_visit.to_multiset().count((cx, cy)) > 0);
            assert(positions@.to_multiset().count((cx, cy)) > 0);
        }
        assert forall|j: int| 0 <= j < positions@.len() implies (#[trigger] positions@[j]).0
            < grid_size && positions@[j].1 < grid_size by {
            assert(positions@.to_multiset().count(positions@[j]) > 0);
            assert(pre_visit.to_multiset().count(positions@[j]) > 0);
            assert(pre_visit.contains(positions@[j]));
            let jj = choose|jj: int| 0 <= jj < pre_visit.len() && pre_visit[jj] == positions@[j];
            lemma_coord_list_entry_bounds(grid_size as int, jj);
        }
    }
    let count = positions.len();
    let mut orders: Vec<DirOrder> = Vec::new();
    let mut colors: Vec<u8> = Vec::new();
    let mut k: usize = 0;
    while k < count
        invariant
            k <= count,
            orders@.len() == k,
            colors@.len() == k,
            forall|j: int| 0 <= j < k ==> order_complete(#[trigger] orders@[j]),
            forall|j: int| 0 <= j < k ==> #[trigger] colors@[j] < 8,
        decreases count - k,
    {
        let mut dirs: Vec<Direction> = Vec::new();
        dirs.push(Direction::Up);
        dirs.push(Direction::Down);
        dirs.push(Direction::Left);
        dirs.push(Direction::Right);
        let ghost pre_dirs = dirs@;
        shuffle_in_place(&mut dirs);
        let ord = DirOrder { first: dirs[0], second: dirs[1], third: dirs[2], fourth: dirs[3] };
        proof {
            broadcast use vstd::seq_lib::group_to_multiset_ensures;

            assert forall|d: Direction| #[trigger] has_dir(ord, d) by {
                assert(pre_dirs[0] == Direction::Up && pre_dirs[1] == Direction::Down
                    && pre_dirs[2] == Direction::Left && pre_dirs[3] == Direction::Right);
                assert(pre_dirs.contains(d));
                assert(pre_dirs.to_multiset().count(d) > 0);
                assert(dirs@.to_multiset().count(d) > 0);
                assert(dirs@.contains(d));
                let j = choose|j: int| 0 <= j < dirs@.len() && dirs@[j] == d;
            }
            assert(order_complete(ord));
        }
        orders.push(ord);
        let mut palette: Vec<u8> = Vec::new();
        let mut c: u8 = 0;
        while c < 8
            invariant
                c <= 8,
                palette@.len() == c,
                forall|j: int| 0 <= j < c ==> #[trigger] palette@[j] < 8,
            decreases 8 - c,
        {
            palette.push(c);
            c = c + 1;
        }
        let ghost pre_palette = palette@;
        shuffle_in_place(&mut palette);
        let chosen_color = palette[0];
        proof {
            broadcast use vstd::seq_lib::group_to_multiset_ensures;

            assert(palette@.contains(chosen_color));
            assert(palette@.to_multiset().count(chosen_color) > 0);
            assert(pre_palette.to_multiset().count(chosen_color) > 0);
            assert(pre_palette.contains(chosen_color));
            let j = choose|j: int| 0 <= j < pre_palette.len() && pre_palette[j] == chosen_color;
            assert(chosen_color < 8);
        }
        colors.push(chosen_color);
        k = k + 1;
    }
    let grid = build_grid(grid_size, &positions, &orders, &colors);
    proof {
        let n = grid_size as int;
        assert(grid.cells@ == fill_from(empty_grid_cells(n), n, positions@, orders@, colors@, 0));
        if grid_size >= 1 {
            lemma_cell_index_bounds(n, 0, 0);
            assert(positions@[0].0 < grid_size && positions@[0].1 < grid_size);
            lemma_first_visit_places(n, positions@, orders@, colors@);
        }
        lemma_fill_from_palette(empty_grid_cells(n), n, positions@, orders@, colors@, 0);
        assert(full_visit(positions@, grid_size));
        assert(generator_run(grid.cells@, grid_size));
    }
    grid
}

} // verus!
