use life_grid::cell_state::CellState;
use life_grid::life_grid::LifeGrid;

fn populated(grid: &LifeGrid, side: u32) -> Vec<(u32, u32)> {
    let mut out: Vec<(u32, u32)> = Vec::new();
    for row in 0..side {
        for col in 0..side {
            if grid.cell_state(row, col) == CellState::Populated {
                out.push((row, col));
            }
        }
    }
    out
}

fn set_all(grid: &mut LifeGrid, cells: &[(u32, u32)]) {
    for &(row, col) in cells {
        grid.set_cell_state(row, col, CellState::Populated);
    }
}

#[test]
fn out_of_bounds_reads_are_invalid() {
    let grid = LifeGrid::new(5);
    assert_eq!(grid.cell_state(5, 0), CellState::Invalid);
    assert_eq!(grid.cell_state(0, 5), CellState::Invalid);
    assert_eq!(grid.cell_state(7, 9), CellState::Invalid);
    assert_eq!(grid.cell_state(0, 0), CellState::Vacant);
}

#[test]
fn out_of_bounds_writes_are_no_ops() {
    let mut grid = LifeGrid::new(4);
    set_all(&mut grid, &[(1, 1), (2, 3)]);
    let before = populated(&grid, 4);
    grid.set_cell_state(4, 0, CellState::Populated);
    grid.set_cell_state(0, 4, CellState::Populated);
    grid.set_cell_state(100, 100, CellState::Populated);
    assert_eq!(populated(&grid, 4), before);
}

#[test]
fn toggle_flips_and_restores() {
    let mut grid = LifeGrid::new(4);
    assert_eq!(grid.cell_state(2, 2), CellState::Vacant);
    grid.toggle_cell_state(2, 2);
    assert_eq!(grid.cell_state(2, 2), CellState::Populated);
    grid.toggle_cell_state(2, 2);
    assert_eq!(grid.cell_state(2, 2), CellState::Vacant);
}

#[test]
fn toggle_out_of_bounds_is_no_op() {
    let mut grid = LifeGrid::new(3);
    set_all(&mut grid, &[(0, 0)]);
    let before = populated(&grid, 3);
    grid.toggle_cell_state(3, 3);
    assert_eq!(populated(&grid, 3), before);
}

#[test]
fn vacate_all_clears_everything() {
    let mut grid = LifeGrid::new(4);
    set_all(&mut grid, &[(0, 0), (1, 2), (3, 3)]);
    grid.vacate_all_cells();
    assert!(populated(&grid, 4).is_empty());
}

#[test]
fn evolve_empty_grid_stays_empty() {
    let mut grid = LifeGrid::new(6);
    grid.evolve();
    assert!(populated(&grid, 6).is_empty());
}

#[test]
fn neighbor_count_of_full_block() {
    let mut grid = LifeGrid::new(3);
    for row in 0..3 {
        for col in 0..3 {
            grid.set_cell_state(row, col, CellState::Populated);
        }
    }
    assert_eq!(grid.count_neighbors(1, 1), 8);
    assert_eq!(grid.count_neighbors(0, 0), 3);
    assert_eq!(grid.count_neighbors(0, 1), 5);
}

#[test]
fn blinker_oscillates_with_period_two() {
    let mut grid = LifeGrid::new(5);
    set_all(&mut grid, &[(1, 0), (1, 1), (1, 2)]);
    grid.evolve();
    assert_eq!(populated(&grid, 5), vec![(0, 1), (1, 1), (2, 1)]);
    grid.evolve();
    assert_eq!(populated(&grid, 5), vec![(1, 0), (1, 1), (1, 2)]);
}

#[test]
fn glider_translates_by_one_after_four_generations() {
    let mut grid = LifeGrid::new(10);
    set_all(&mut grid, &[(0, 1), (1, 2), (2, 0), (2, 1), (2, 2)]);
    for _ in 0..4 {
        grid.evolve();
    }
    assert_eq!(
        populated(&grid, 10),
        vec![(1, 2), (2, 3), (3, 1), (3, 2), (3, 3)]
    );
}

#[test]
fn lower_and_upper_bounds_frame_the_population() {
    let mut grid = LifeGrid::new(8);
    set_all(&mut grid, &[(2, 5), (4, 1), (6, 3)]);
    let lower = grid.lower_bounds();
    let upper = grid.upper_bounds();
    assert_eq!((lower.row(), lower.col()), (2, 1));
    assert_eq!((upper.row(), upper.col()), (6, 5));
}

#[test]
fn bounds_of_an_empty_grid_are_sentinels() {
    let grid = LifeGrid::new(4);
    let lower = grid.lower_bounds();
    let upper = grid.upper_bounds();
    assert_eq!((lower.row(), lower.col()), (u32::MAX, u32::MAX));
    assert_eq!((upper.row(), upper.col()), (0, 0));
}

#[test]
fn rotate_clockwise_turns_a_domino() {
    let mut grid = LifeGrid::new(5);
    set_all(&mut grid, &[(1, 1), (2, 1)]);
    grid.rotate_clockwise();
    assert_eq!(populated(&grid, 5), vec![(2, 1), (2, 2)]);
}

#[test]
fn rotate_counter_clockwise_turns_a_domino() {
    let mut grid = LifeGrid::new(5);
    set_all(&mut grid, &[(1, 1), (2, 1)]);
    grid.rotate_counter_clockwise();
    assert_eq!(populated(&grid, 5), vec![(2, 0), (2, 1)]);
}

#[test]
fn four_clockwise_rotations_restore_a_centered_square() {
    let mut grid = LifeGrid::new(7);
    // the population's bounding box is a 3-by-3 square, already odd
    let shape = [(1u32, 1u32), (1, 3), (2, 2), (3, 1), (3, 2)];
    set_all(&mut grid, &shape);
    let before = populated(&grid, 7);
    for _ in 0..4 {
        grid.rotate_clockwise();
    }
    assert_eq!(populated(&grid, 7), before);
}

#[test]
fn rotate_on_empty_grid_is_no_op() {
    let mut grid = LifeGrid::new(4);
    grid.rotate_clockwise();
    assert!(populated(&grid, 4).is_empty());
    grid.rotate_counter_clockwise();
    assert!(populated(&grid, 4).is_empty());
}

#[test]
fn flip_horizontal_mirrors_rows_within_the_box() {
    let mut grid = LifeGrid::new(5);
    set_all(&mut grid, &[(1, 1), (1, 2), (2, 1), (3, 3)]);
    grid.flip_horizontal();
    assert_eq!(populated(&grid, 5), vec![(1, 3), (2, 1), (3, 1), (3, 2)]);
}

#[test]
fn flip_horizontal_twice_is_identity() {
    let mut grid = LifeGrid::new(6);
    set_all(&mut grid, &[(0, 2), (1, 1), (4, 3), (2, 5)]);
    let before = populated(&grid, 6);
    grid.flip_horizontal();
    grid.flip_horizontal();
    assert_eq!(populated(&grid, 6), before);
}

#[test]
fn flip_vertical_mirrors_cols_within_the_box() {
    let mut grid = LifeGrid::new(5);
    set_all(&mut grid, &[(1, 1), (1, 2), (2, 1), (3, 3)]);
    grid.flip_vertical();
    assert_eq!(populated(&grid, 5), vec![(1, 2), (1, 3), (2, 3), (3, 1)]);
}

#[test]
fn flip_vertical_twice_is_identity() {
    let mut grid = LifeGrid::new(6);
    set_all(&mut grid, &[(0, 2), (1, 1), (4, 3), (2, 5)]);
    let before = populated(&grid, 6);
    grid.flip_vertical();
    grid.flip_vertical();
    assert_eq!(populated(&grid, 6), before);
}

#[test]
fn shift_up_wraps_top_row_to_bottom() {
    let mut grid = LifeGrid::new(3);
    set_all(&mut grid, &[(0, 1), (1, 2)]);
    grid.shift_up();
    assert_eq!(populated(&grid, 3), vec![(0, 2), (2, 1)]);
}

#[test]
fn shift_down_wraps_bottom_row_to_top() {
    let mut grid = LifeGrid::new(3);
    set_all(&mut grid, &[(2, 0), (1, 1)]);
    grid.shift_down();
    assert_eq!(populated(&grid, 3), vec![(0, 0), (2, 1)]);
}

#[test]
fn shift_left_wraps_left_column_to_right() {
    let mut grid = LifeGrid::new(3);
    set_all(&mut grid, &[(1, 0), (2, 2)]);
    grid.shift_left();
    assert_eq!(populated(&grid, 3), vec![(1, 2), (2, 1)]);
}

#[test]
fn shift_right_wraps_right_column_to_left() {
    let mut grid = LifeGrid::new(3);
    set_all(&mut grid, &[(0, 2), (1, 1)]);
    grid.shift_right();
    assert_eq!(populated(&grid, 3), vec![(0, 0), (1, 2)]);
}

#[test]
fn shift_up_then_down_is_identity() {
    let mut grid = LifeGrid::new(4);
    set_all(&mut grid, &[(0, 0), (1, 2), (3, 3), (2, 1)]);
    let before = populated(&grid, 4);
    grid.shift_up();
    grid.shift_down();
    assert_eq!(populated(&grid, 4), before);
}

#[test]
fn shift_left_then_right_is_identity() {
    let mut grid = LifeGrid::new(4);
    set_all(&mut grid, &[(0, 0), (1, 2), (3, 3), (2, 1)]);
    let before = populated(&grid, 4);
    grid.shift_left();
    grid.shift_right();
    assert_eq!(populated(&grid, 4), before);
}

#[test]
fn set_populated_cells_replaces_the_population() {
    let mut grid = LifeGrid::new(4);
    set_all(&mut grid, &[(0, 0), (3, 3)]);
    let replacement = vec![
        life_grid::cell::Cell::new(1, 1),
        life_grid::cell::Cell::new(2, 2),
        // an out-of-bounds record is silently dropped
        life_grid::cell::Cell::new(9, 9),
    ];
    grid.set_populated_cells(replacement);
    assert_eq!(populated(&grid, 4), vec![(1, 1), (2, 2)]);
}

#[test]
fn block_is_a_still_life() {
    let mut grid = LifeGrid::new(4);
    set_all(&mut grid, &[(1, 1), (1, 2), (2, 1), (2, 2)]);
    grid.evolve();
    assert_eq!(populated(&grid, 4), vec![(1, 1), (1, 2), (2, 1), (2, 2)]);
}

#[test]
fn single_cell_grid_shifts_are_identity() {
    let mut grid = LifeGrid::new(1);
    grid.set_cell_state(0, 0, CellState::Populated);
    grid.shift_up();
    grid.shift_down();
    grid.shift_left();
    grid.shift_right();
    assert_eq!(populated(&grid, 1), vec![(0, 0)]);
}

#[test]
fn zero_sized_grid_operations_do_nothing() {
    let mut grid = LifeGrid::new(0);
    assert_eq!(grid.cell_state(0, 0), CellState::Invalid);
    grid.evolve();
    grid.shift_up();
    grid.shift_down();
    grid.shift_left();
    grid.shift_right();
    grid.rotate_clockwise();
    grid.flip_horizontal();
    assert!(populated(&grid, 0).is_empty());
}
