use arrow_puzzle::generator::{build_grid, generate_grid, DirOrder};
use arrow_puzzle::grid::{empty_cell_count, grid_is_empty, Direction, Grid};
use arrow_puzzle::removal::{can_remove, exit_path, path_is_clear, try_remove};

fn order(
    first: Direction,
    second: Direction,
    third: Direction,
    fourth: Direction,
) -> DirOrder {
    DirOrder { first, second, third, fourth }
}

/// A 3x3 board whose four edge-center cells all point outward, so that the
/// center cell has all four directions blocked and is defensively left empty.
fn ring_board() -> Grid {
    let positions: Vec<(usize, usize)> = vec![(0, 1), (2, 1), (1, 0), (1, 2), (1, 1)];
    let orders: Vec<DirOrder> = vec![
        order(Direction::Left, Direction::Up, Direction::Down, Direction::Right),
        order(Direction::Right, Direction::Up, Direction::Down, Direction::Left),
        order(Direction::Up, Direction::Left, Direction::Right, Direction::Down),
        order(Direction::Down, Direction::Left, Direction::Right, Direction::Up),
        order(Direction::Up, Direction::Down, Direction::Left, Direction::Right),
    ];
    let colors: Vec<u8> = vec![0, 1, 2, 3, 4];
    build_grid(3, &positions, &orders, &colors)
}

/// A 3x3 board where the arrow at (0, 0) points right and is blocked by the
/// arrow at (1, 0).
fn blocked_board() -> Grid {
    let positions: Vec<(usize, usize)> = vec![(0, 0), (1, 0)];
    let orders: Vec<DirOrder> = vec![
        order(Direction::Right, Direction::Up, Direction::Down, Direction::Left),
        order(Direction::Up, Direction::Left, Direction::Right, Direction::Down),
    ];
    let colors: Vec<u8> = vec![5, 6];
    build_grid(3, &positions, &orders, &colors)
}

fn drain(grid: &mut Grid) {
    let n = grid.size;
    loop {
        let mut removed_any = false;
        for y in 0..n {
            for x in 0..n {
                if can_remove(grid, x, y) {
                    assert!(try_remove(grid, x, y));
                    removed_any = true;
                }
            }
        }
        if !removed_any {
            break;
        }
    }
}

#[test]
fn generated_grids_are_solvable() {
    for n in [1usize, 2, 6, 10, 20] {
        let mut grid = generate_grid(n);
        assert_eq!(grid.size, n);
        drain(&mut grid);
        assert!(
            grid_is_empty(&grid),
            "a generated {n}x{n} grid kept an arrow stuck"
        );
    }
}

#[test]
fn fresh_grids_are_never_empty() {
    for n in [1usize, 2, 6, 10] {
        let grid = generate_grid(n);
        assert!(
            !grid_is_empty(&grid),
            "a fresh {n}x{n} grid came back with no arrows"
        );
    }
}

#[test]
fn placed_arrows_wear_palette_colors() {
    let grid = generate_grid(6);
    let mut arrows = 0usize;
    for y in 0..6 {
        for x in 0..6 {
            if let Some(arrow) = grid.cell(x, y) {
                assert!(arrow.color < 8);
                arrows += 1;
            }
        }
    }
    assert!(arrows >= 1);
}

#[test]
fn zero_size_grid_is_vacuously_cleared() {
    let grid = generate_grid(0);
    assert_eq!(grid.size, 0);
    assert!(grid_is_empty(&grid));
}

#[test]
fn single_cell_grid_holds_one_removable_arrow() {
    let grid = generate_grid(1);
    assert_eq!(empty_cell_count(&grid), 0);
    assert!(can_remove(&grid, 0, 0));
}

#[test]
fn exit_path_right_from_interior() {
    let path = exit_path(2, 3, Direction::Right, 6);
    assert_eq!(path, vec![(3, 3), (4, 3), (5, 3)]);
}

#[test]
fn exit_path_up_from_origin_is_empty() {
    let path = exit_path(0, 0, Direction::Up, 6);
    assert!(path.is_empty());
}

#[test]
fn exit_path_left_and_down_from_interior() {
    assert_eq!(exit_path(2, 3, Direction::Left, 6), vec![(1, 3), (0, 3)]);
    assert_eq!(exit_path(2, 3, Direction::Down, 6), vec![(2, 4), (2, 5)]);
    assert_eq!(exit_path(2, 3, Direction::Up, 6), vec![(2, 2), (2, 1), (2, 0)]);
}

#[test]
fn empty_cell_is_never_removable() {
    let empty = build_grid(2, &Vec::new(), &Vec::new(), &Vec::new());
    for y in 0..2 {
        for x in 0..2 {
            assert!(!can_remove(&empty, x, y));
        }
    }
    let ring = ring_board();
    assert!(ring.cell(1, 1).is_none());
    assert!(!can_remove(&ring, 1, 1));
}

#[test]
fn left_edge_arrow_is_removable_despite_other_arrows() {
    let ring = ring_board();
    let arrow = ring.cell(0, 1).expect("the left edge cell should hold an arrow");
    assert_eq!(arrow.dir, Direction::Left);
    assert!(can_remove(&ring, 0, 1));
}

#[test]
fn blocked_center_cell_falls_back_to_empty() {
    let ring = ring_board();
    assert!(ring.cell(1, 1).is_none());
    assert_eq!(empty_cell_count(&ring), 5);
}

#[test]
fn path_is_clear_sees_blocking_arrow() {
    let grid = blocked_board();
    assert!(!path_is_clear(&grid, 0, 0, Direction::Right));
    assert!(path_is_clear(&grid, 0, 0, Direction::Left));
    assert!(path_is_clear(&grid, 0, 0, Direction::Up));
    assert!(path_is_clear(&grid, 0, 0, Direction::Down));
}

#[test]
fn try_remove_on_blocked_arrow_changes_nothing() {
    let mut grid = blocked_board();
    let before = grid.clone();
    assert!(!try_remove(&mut grid, 0, 0));
    assert_eq!(grid.size, before.size);
    for y in 0..3 {
        for x in 0..3 {
            assert_eq!(grid.cell(x, y), before.cell(x, y));
        }
    }
}

#[test]
fn try_remove_on_empty_cell_changes_nothing() {
    let mut grid = ring_board();
    let before = grid.clone();
    assert!(!try_remove(&mut grid, 1, 1));
    for y in 0..3 {
        for x in 0..3 {
            assert_eq!(grid.cell(x, y), before.cell(x, y));
        }
    }
}

#[test]
fn try_remove_clears_exactly_the_requested_cell() {
    let mut grid = ring_board();
    let before = grid.clone();
    assert!(try_remove(&mut grid, 0, 1));
    assert!(grid.cell(0, 1).is_none());
    for y in 0..3 {
        for x in 0..3 {
            if (x, y) != (0, 1) {
                assert_eq!(grid.cell(x, y), before.cell(x, y));
            }
        }
    }
    assert_eq!(empty_cell_count(&grid), empty_cell_count(&before) + 1);
}

#[test]
fn is_cleared_flips_only_on_last_removal() {
    let positions: Vec<(usize, usize)> = vec![(0, 0)];
    let orders: Vec<DirOrder> =
        vec![order(Direction::Up, Direction::Down, Direction::Left, Direction::Right)];
    let colors: Vec<u8> = vec![7];
    let mut grid = build_grid(1, &positions, &orders, &colors);
    assert!(!grid_is_empty(&grid));
    assert!(try_remove(&mut grid, 0, 0));
    assert!(grid_is_empty(&grid));
}

#[test]
fn rebuilding_from_the_same_choices_reproduces_the_grid() {
    let positions: Vec<(usize, usize)> = vec![(1, 1), (0, 0), (1, 0), (0, 1)];
    let orders: Vec<DirOrder> = vec![
        order(Direction::Down, Direction::Right, Direction::Up, Direction::Left),
        order(Direction::Left, Direction::Down, Direction::Right, Direction::Up),
        order(Direction::Up, Direction::Right, Direction::Down, Direction::Left),
        order(Direction::Right, Direction::Up, Direction::Left, Direction::Down),
    ];
    let colors: Vec<u8> = vec![3, 1, 4, 1];
    let first = build_grid(2, &positions, &orders, &colors);
    let second = build_grid(2, &positions, &orders, &colors);
    assert_eq!(first.size, second.size);
    for y in 0..2 {
        for x in 0..2 {
            assert_eq!(first.cell(x, y), second.cell(x, y));
        }
    }
}

#[test]
fn full_board_has_no_empty_cells() {
    let positions: Vec<(usize, usize)> = vec![(0, 0), (1, 0), (0, 1), (1, 1)];
    let orders: Vec<DirOrder> = vec![
        order(Direction::Left, Direction::Up, Direction::Down, Direction::Right),
        order(Direction::Right, Direction::Up, Direction::Down, Direction::Left),
        order(Direction::Left, Direction::Down, Direction::Right, Direction::Up),
        order(Direction::Right, Direction::Down, Direction::Left, Direction::Up),
    ];
    let colors: Vec<u8> = vec![0, 1, 2, 3];
    let grid = build_grid(2, &positions, &orders, &colors);
    assert_eq!(empty_cell_count(&grid), 0);
    assert!(!grid_is_empty(&grid));
}

#[test]
fn color_choices_carry_into_the_grid() {
    let positions: Vec<(usize, usize)> = vec![(0, 0), (1, 0)];
    let orders: Vec<DirOrder> = vec![
        order(Direction::Left, Direction::Up, Direction::Down, Direction::Right),
        order(Direction::Right, Direction::Up, Direction::Down, Direction::Left),
    ];
    let colors: Vec<u8> = vec![6, 2];
    let grid = build_grid(2, &positions, &orders, &colors);
    assert_eq!(grid.cell(0, 0).unwrap().color, 6);
    assert_eq!(grid.cell(1, 0).unwrap().color, 2);
}
