use sudoku_solver::sudoku_game::sudoku_grid::sudoku_cell::Cell;
use sudoku_solver::sudoku_game::{Game, SetOutcome};
use sudoku_solver::text::{decimal_string, parse_bounded, with_decimal};

const SOLVED: [[u8; 9]; 9] = [
    [5, 3, 4, 6, 7, 8, 9, 1, 2],
    [6, 7, 2, 1, 9, 5, 3, 4, 8],
    [1, 9, 8, 3, 4, 2, 5, 6, 7],
    [8, 5, 9, 7, 6, 1, 4, 2, 3],
    [4, 2, 6, 8, 5, 3, 7, 9, 1],
    [7, 1, 3, 9, 2, 4, 8, 5, 6],
    [9, 6, 1, 5, 3, 7, 2, 8, 4],
    [2, 8, 7, 4, 1, 9, 6, 3, 5],
    [3, 4, 5, 2, 8, 6, 1, 7, 9],
];

#[test]
fn user_set_value_reports_its_outcome() {
    let mut game = Game::new();
    assert_eq!(game.user_set_value(0, 0, 5), Ok(SetOutcome::Accepted));
    assert_eq!(game.user_set_value(0, 0, 5), Ok(SetOutcome::Unchanged));
    assert_eq!(
        game.user_set_value(0, 0, 6),
        Err("6 is not a valid entry for row 1 column 1".to_string())
    );
    assert_eq!(game.user_set_value(0, 9, 6), Err("Invalid column 10".to_string()));
    assert_eq!(game.user_set_value(0, 1, 0), Err("Invalid value 0".to_string()));
}

#[test]
fn user_set_value_solves_the_grid_with_its_last_value() {
    let mut game = Game::new();
    let mut last = None;
    for (row, values) in SOLVED.iter().enumerate() {
        for (column, &value) in values.iter().enumerate() {
            last = Some(game.user_set_value(row, column, value));
            if game.is_solved() {
                break;
            }
        }
        if game.is_solved() {
            break;
        }
    }
    assert_eq!(last, Some(Ok(SetOutcome::Solved)));
    assert!(game.is_solved());
    assert_eq!(game.count_solutions(), Err(1));
}

#[test]
fn user_delete_value_forgets_only_what_the_user_set() {
    let mut game = Game::new();
    assert_eq!(game.user_set_value(2, 3, 4), Ok(SetOutcome::Accepted));
    assert_eq!(game.user_delete_value(2, 3), Ok(()));
    assert_eq!(game.user_delete_value(2, 3), Ok(()));
    assert_eq!(game.user_delete_value(9, 3), Err("Invalid row 10".to_string()));
    let snapshot = game.get_grid();
    assert_eq!(snapshot.cells[2 * 9 + 3].value, 0);
    assert!(!snapshot.cells[2 * 9 + 3].is_user_set);
}

#[test]
fn game_counts_solutions_of_a_nearly_full_grid() {
    let mut game = Game::new();
    for (row, values) in SOLVED.iter().enumerate() {
        for (column, &value) in values.iter().enumerate() {
            if value != 1 && value != 3 {
                assert!(game.user_set_value(row, column, value).is_ok());
            }
        }
    }
    assert!(!game.is_solved());
    assert_eq!(game.count_solutions(), Ok(4));
    assert_eq!(game.remaining_solution_count_message(), Some("There are exactly 4 remaining solutions".to_string()));
    let snapshot = game.get_grid();
    assert_eq!(snapshot.remaining_solutions_count, 4);
    assert!(!snapshot.remaining_solutions_at_least_cap);
    assert_eq!(snapshot.remaining_solutions_text, "4");
}

#[test]
fn clear_and_debug_keep_their_promises() {
    let mut game = Game::new();
    assert!(game.user_set_value(1, 1, 1).is_ok());
    game.set_debug(true);
    assert!(game.grid().debug_output());
    game.clear();
    assert!(game.grid().debug_output());
    let snapshot = game.get_grid();
    assert!(snapshot.cells.iter().all(|c| c.value == 0 && !c.is_user_set && !c.is_solved && !c.is_error));
}

#[test]
fn cell_narrows_to_a_value_and_back() {
    let mut cell = Cell::new();
    assert!(!cell.is_solved());
    assert!(cell.is_valid());
    assert_eq!(cell.get_value(), Ok(0));
    assert!(cell.is_value_valid(7));
    assert_eq!(cell.set_value(7), Ok(true));
    assert_eq!(cell.set_value(7), Ok(false));
    assert_eq!(cell.set_value(3), Err(()));
    assert!(cell.is_solved());
    assert_eq!(cell.get_value(), Ok(7));
    assert_eq!(cell.candidate_mask(), 1 << 6);
    cell.lock_set_by_user();
    assert!(cell.is_set_by_user());
    cell.clear();
    assert!(!cell.is_set_by_user());
    assert_eq!(cell.candidate_mask(), 0x1ff);
}

#[test]
fn cell_set_values_replaces_the_candidates() {
    let mut cell = Cell::new();
    assert_eq!(cell.set_values(0b110), Ok(true));
    assert_eq!(cell.get_value(), Ok(0));
    assert_eq!(cell.set_values(0b110), Ok(false));
    assert_eq!(cell.set_values(0b100), Ok(true));
    assert_eq!(cell.get_value(), Ok(3));
    assert_eq!(cell.set_values(0b001), Ok(true));
    assert_eq!(cell.get_value(), Ok(1));
    assert_eq!(cell.set_values(0), Err(()));
    assert_eq!(cell.set_values(0x200), Err(()));
    assert_eq!(cell.candidate_mask(), 0b001);
}

#[test]
fn decimal_text_round_trips() {
    assert_eq!(decimal_string(0), "0");
    assert_eq!(decimal_string(81), "81");
    assert_eq!(with_decimal("At least ", 50), "At least 50");
    assert_eq!(parse_bounded("42", 100), Some(42));
    assert_eq!(parse_bounded("+7", 9), Some(7));
    assert_eq!(parse_bounded("10", 9), None);
    assert_eq!(parse_bounded("", 9), None);
    assert_eq!(parse_bounded("4a", 9), None);
}

#[test]
fn cell_glyphs_show_values_and_candidates() {
    let mut cell = Cell::new();
    assert_eq!(cell.glyph(), ".");
    assert_eq!(cell.candidate_glyphs(0), ['1', '2', '3']);
    assert_eq!(cell.candidate_glyphs(2), ['7', '8', '9']);
    assert_eq!(cell.set_values(0b1_0000_0101), Ok(true));
    assert_eq!(cell.candidate_glyphs(0), ['1', '.', '3']);
    assert_eq!(cell.candidate_glyphs(1), ['.', '.', '.']);
    assert_eq!(cell.candidate_glyphs(2), ['.', '.', '9']);
    assert_eq!(cell.set_value(9), Ok(true));
    assert_eq!(cell.glyph(), "9");
    assert_eq!(cell.candidate_glyphs(2), [' ', ' ', '9']);
    assert_eq!(cell.candidate_glyphs(0), [' ', ' ', ' ']);
    cell.lock_set_by_user();
    assert_eq!(cell.glyph(), "9");
    let mut user_open = Cell::new();
    user_open.lock_set_by_user();
    assert_eq!(user_open.glyph(), "0");
    assert_eq!(user_open.candidate_glyphs(1), [' ', ' ', ' ']);
}
