use sudoku_solver::sudoku_game::sudoku_grid::sudoku_grid_trials::{
    MAX_SOLUTION_COUNT, START_SOLUTION_COUNT,
};
use sudoku_solver::sudoku_game::sudoku_grid::{get_box_dimensions, Grid, GRID_SIZE};

fn solved_grid_values() -> [[u8; 9]; 9] {
    [
        [5, 3, 4, 6, 7, 8, 9, 1, 2],
        [6, 7, 2, 1, 9, 5, 3, 4, 8],
        [1, 9, 8, 3, 4, 2, 5, 6, 7],
        [8, 5, 9, 7, 6, 1, 4, 2, 3],
        [4, 2, 6, 8, 5, 3, 7, 9, 1],
        [7, 1, 3, 9, 2, 4, 8, 5, 6],
        [9, 6, 1, 5, 3, 7, 2, 8, 4],
        [2, 8, 7, 4, 1, 9, 6, 3, 5],
        [3, 4, 5, 2, 8, 6, 1, 7, 9],
    ]
}

fn build_grid_with_omitted_digits(first_omitted: u8, second_omitted: u8) -> Grid {
    let solved = solved_grid_values();
    let mut grid = Grid::new();
    for (row, row_values) in solved.iter().enumerate() {
        for (column, &value) in row_values.iter().enumerate() {
            if value == first_omitted || value == second_omitted {
                continue;
            }
            assert_eq!(grid.set_value(row, column, value), Ok(true));
        }
    }
    grid
}

fn build_user_clue_grid_with_omitted_digits(first_omitted: u8, second_omitted: u8) -> Grid {
    let solved = solved_grid_values();
    let mut grid = Grid::new();
    for (row, row_values) in solved.iter().enumerate() {
        for (column, &value) in row_values.iter().enumerate() {
            if value == first_omitted || value == second_omitted {
                continue;
            }
            assert_eq!(grid.set_value(row, column, value), Ok(true));
            grid.lock_set_by_user(row, column);
        }
    }
    grid
}

fn build_grid_with_user_clues(clue_count: usize) -> Grid {
    let solved = solved_grid_values();
    let mut grid = Grid::new();
    let mut set_count = 0usize;
    for (row, row_values) in solved.iter().enumerate() {
        for (column, &value) in row_values.iter().enumerate() {
            if set_count >= clue_count {
                return grid;
            }
            assert_eq!(grid.set_value(row, column, value), Ok(true));
            grid.lock_set_by_user(row, column);
            set_count += 1;
        }
    }
    grid
}

fn assert_has_multiple_solutions_below_cap(first_omitted: u8, second_omitted: u8) {
    let grid = build_grid_with_omitted_digits(first_omitted, second_omitted);
    let count = grid
        .count_exact_cover_solutions_with_cap(MAX_SOLUTION_COUNT)
        .expect("counting should succeed for a valid partially-clued puzzle");
    assert!(
        (2..MAX_SOLUTION_COUNT).contains(&count),
        "expected 2..{} solutions when omitting digits {} and {}, got {}",
        MAX_SOLUTION_COUNT,
        first_omitted,
        second_omitted,
        count
    );
}

#[test]
fn set_value_validates_row_column_and_value_bounds() {
    let mut grid = Grid::new();
    assert_eq!(grid.set_value(GRID_SIZE, 0, 1), Err("Invalid row 10".to_string()));
    assert_eq!(grid.set_value(0, GRID_SIZE, 1), Err("Invalid column 10".to_string()));
    assert_eq!(grid.set_value(0, 0, 0), Err("Invalid value 0".to_string()));
    assert_eq!(grid.set_value(0, 0, 10), Err("Invalid value 10".to_string()));
}

#[test]
fn has_direct_conflict_checks_row_column_and_box() {
    let mut row_grid = Grid::new();
    assert_eq!(row_grid.set_value(0, 0, 5), Ok(true));
    assert!(row_grid.has_direct_conflict(0, 1, 5));
    assert!(!row_grid.has_direct_conflict(0, 1, 3));

    let mut column_grid = Grid::new();
    assert_eq!(column_grid.set_value(0, 0, 6), Ok(true));
    assert!(column_grid.has_direct_conflict(1, 0, 6));
    assert!(!column_grid.has_direct_conflict(1, 0, 2));

    let mut box_grid = Grid::new();
    assert_eq!(box_grid.set_value(0, 0, 7), Ok(true));
    assert!(box_grid.has_direct_conflict(1, 1, 7));
    assert!(!box_grid.has_direct_conflict(1, 1, 4));
}

#[test]
fn user_delete_value_validates_row_column_bounds() {
    let mut grid = Grid::new();
    assert_eq!(grid.user_delete_value(GRID_SIZE, 0), Err("Invalid row 10".to_string()));
    assert_eq!(grid.user_delete_value(0, GRID_SIZE), Err("Invalid column 10".to_string()));
}

#[test]
fn detects_multiple_solutions_below_cap_when_omitting_1_and_2() {
    assert_has_multiple_solutions_below_cap(1, 2);
}

#[test]
fn detects_multiple_solutions_below_cap_when_omitting_3_and_4() {
    assert_has_multiple_solutions_below_cap(3, 4);
}

#[test]
fn detects_multiple_solutions_below_cap_when_omitting_5_and_6() {
    assert_has_multiple_solutions_below_cap(5, 6);
}

#[test]
fn detects_multiple_solutions_below_cap_when_omitting_8_and_9() {
    assert_has_multiple_solutions_below_cap(8, 9);
}

#[test]
fn exact_remaining_solution_count_matches_known_high_clue_case() {
    let grid = build_user_clue_grid_with_omitted_digits(1, 3);
    assert_eq!(grid.solved_count(), 63);
    assert!(grid.solved_count() > START_SOLUTION_COUNT);
    assert_eq!(grid.remaining_solution_count_for_user_clues(), Some(Ok(4)));
}

#[test]
fn direct_checks_solve_single_missing_value_in_box_before_extra_check_threshold() {
    let mut grid = Grid::new();
    assert_eq!(grid.set_value(0, 0, 1), Ok(true));
    assert_eq!(grid.set_value(0, 1, 2), Ok(true));
    assert_eq!(grid.set_value(0, 2, 3), Ok(true));
    assert_eq!(grid.set_value(1, 0, 6), Ok(true));
    assert_eq!(grid.set_value(1, 1, 5), Ok(true));
    assert_eq!(grid.set_value(1, 2, 4), Ok(true));
    assert_eq!(grid.set_value(2, 0, 7), Ok(true));
    assert_eq!(grid.set_value(2, 2, 8), Ok(true));

    grid.run_exact_cover_checks();

    assert_eq!(grid.cell(2, 1).get_value(), Ok(9));
    assert!(!grid.cell(2, 1).is_set_by_user());
}

#[test]
fn exact_remaining_solution_count_is_not_attempted_below_user_clue_threshold() {
    let grid = build_grid_with_user_clues(START_SOLUTION_COUNT - 1);
    assert!(grid.remaining_solution_count_for_user_clues().is_none());
}

#[test]
fn exact_remaining_solution_count_runs_after_user_clue_threshold() {
    let grid = build_grid_with_user_clues(80);
    assert_eq!(grid.remaining_solution_count_for_user_clues(), Some(Ok(1)));
}

#[test]
fn set_value_reports_whether_it_changed_the_cell() {
    let mut grid = Grid::new();
    assert_eq!(grid.set_value(4, 4, 5), Ok(true));
    assert_eq!(grid.set_value(4, 4, 5), Ok(false));
    assert_eq!(
        grid.set_value(4, 4, 6),
        Err("6 is not a valid entry for row 5 column 5".to_string())
    );
    assert_eq!(grid.cell(4, 4).get_value(), Ok(5));
}

#[test]
fn box_dimensions_cover_the_three_by_three_box() {
    assert_eq!(get_box_dimensions(0, 0), (0, 3, 0, 3));
    assert_eq!(get_box_dimensions(4, 7), (3, 6, 6, 9));
    assert_eq!(get_box_dimensions(8, 2), (6, 9, 0, 3));
}

#[test]
fn solved_grid_counts_as_solved_and_valid() {
    let grid = build_grid_with_user_clues(81);
    assert!(grid.is_solved());
    assert!(grid.is_valid());
    assert_eq!(grid.solved_count(), 81);
    assert_eq!(grid.count_solutions(), Err(1));
    assert_eq!(grid.count_exact_cover_solutions_with_cap(MAX_SOLUTION_COUNT), Ok(1));
}

#[test]
fn open_grid_counts_solutions_up_to_the_cap() {
    let grid = Grid::new();
    assert!(!grid.is_solved());
    assert_eq!(grid.solved_count(), 0);
    assert_eq!(grid.count_solutions(), Err(MAX_SOLUTION_COUNT));
    assert!(grid.is_solvable());
    assert_eq!(grid.remaining_solution_count_message(), None);
}

#[test]
fn user_settings_list_the_cells_the_user_set() {
    let mut grid = Grid::new();
    assert_eq!(grid.set_value(0, 0, 5), Ok(true));
    grid.lock_set_by_user(0, 0);
    assert_eq!(grid.set_value(8, 8, 9), Ok(true));
    grid.lock_set_by_user(8, 8);
    assert_eq!(grid.set_value(4, 4, 1), Ok(true));
    assert_eq!(grid.get_user_settings(), Ok(vec![(0, 0, 5), (8, 8, 9)]));
}

#[test]
fn deleting_a_user_value_reopens_the_cell() {
    let mut grid = Grid::new();
    assert_eq!(grid.set_value(0, 0, 5), Ok(true));
    grid.lock_set_by_user(0, 0);
    assert_eq!(grid.set_value(0, 1, 3), Ok(true));
    grid.lock_set_by_user(0, 1);
    assert_eq!(grid.user_delete_value(0, 0), Ok(()));
    assert!(!grid.cell(0, 0).is_set_by_user());
    assert!(grid.cell(0, 1).is_set_by_user());
    assert_eq!(grid.cell(0, 1).get_value(), Ok(3));
    assert!(grid.cell(0, 0).get_value().is_ok());
}

#[test]
fn deleting_fails_when_the_other_user_values_contradict() {
    let mut grid = Grid::new();
    assert_eq!(grid.set_value(0, 0, 5), Ok(true));
    grid.lock_set_by_user(0, 0);
    assert_eq!(grid.set_value(0, 1, 5), Ok(true));
    grid.lock_set_by_user(0, 1);
    assert_eq!(grid.set_value(0, 2, 3), Ok(true));
    grid.lock_set_by_user(0, 2);
    assert_eq!(
        grid.user_delete_value(0, 2),
        Err("Unexpected unsolvable grid after resetting a user value".to_string())
    );
    assert!(!grid.cell(0, 2).is_set_by_user());
    assert_eq!(grid.cell(0, 2).get_value(), Ok(0));
}

#[test]
fn deleting_fails_when_a_user_cell_is_open() {
    let mut grid = Grid::new();
    grid.lock_set_by_user(0, 0);
    assert_eq!(grid.set_value(1, 1, 4), Ok(true));
    grid.lock_set_by_user(1, 1);
    assert_eq!(
        grid.user_delete_value(1, 1),
        Err("Unexpected unsolved user-set cell at row 1 column 1".to_string())
    );
    assert!(!grid.cell(1, 1).is_set_by_user());
    assert_eq!(grid.cell(1, 1).get_value(), Ok(0));
}
