use sudoku_solver::commands::{
    cell_position_from_index, parse_one_based, parse_value, read_command, run_user_change, Command,
    UserChangeRequest,
};
use sudoku_solver::sudoku_game::Game;

#[test]
fn parse_one_based_rejects_out_of_range_values() {
    assert_eq!(parse_one_based("0", "Row"), Err("Row must be 1-9".to_string()));
    assert_eq!(parse_one_based("10", "Column"), Err("Column must be 1-9".to_string()));
    assert_eq!(parse_one_based("abc", "Row"), Err("Row must be 1-9".to_string()));
}

#[test]
fn cell_position_from_index_checks_bounds() {
    assert_eq!(cell_position_from_index(0), Ok((0, 0)));
    assert_eq!(cell_position_from_index(80), Ok((8, 8)));
    assert_eq!(
        cell_position_from_index(81),
        Err("Invalid cell index 81 (expected 0-80)".to_string())
    );
}

#[test]
fn run_user_change_rejects_invalid_cell_index_for_value_actions() {
    let mut game = Game::new();
    let error = run_user_change(&mut game, UserChangeRequest::SetCell { cell_index: 81, value: 1 });
    assert_eq!(error, Err("Bad input: Invalid cell index 81 (expected 0-80)".to_string()));

    let delete_error = run_user_change(&mut game, UserChangeRequest::ClearCell { cell_index: 100 });
    assert_eq!(
        delete_error,
        Err("Bad input: Invalid cell index 100 (expected 0-80)".to_string())
    );
}

#[test]
fn run_user_change_rejects_out_of_range_set_values() {
    let mut game = Game::new();
    assert_eq!(
        run_user_change(&mut game, UserChangeRequest::SetCell { cell_index: 0, value: 0 }),
        Err("Bad input: Value must be 1-9".to_string())
    );
    assert_eq!(
        run_user_change(&mut game, UserChangeRequest::SetCell { cell_index: 0, value: 10 }),
        Err("Bad input: Value must be 1-9".to_string())
    );
}

#[test]
fn parse_one_based_accepts_one_to_nine_with_optional_plus() {
    assert_eq!(parse_one_based("1", "Row"), Ok(0));
    assert_eq!(parse_one_based("9", "Row"), Ok(8));
    assert_eq!(parse_one_based("+3", "Column"), Ok(2));
    assert_eq!(parse_one_based("007", "Column"), Ok(6));
    assert_eq!(parse_one_based("", "Row"), Err("Row must be 1-9".to_string()));
    assert_eq!(parse_one_based("+", "Row"), Err("Row must be 1-9".to_string()));
    assert_eq!(parse_one_based("-1", "Row"), Err("Row must be 1-9".to_string()));
}

#[test]
fn parse_value_accepts_one_to_nine_only() {
    assert_eq!(parse_value("1"), Ok(1));
    assert_eq!(parse_value("9"), Ok(9));
    assert_eq!(parse_value("0"), Err("Value must be 1-9".to_string()));
    assert_eq!(parse_value("10"), Err("Value must be 1-9".to_string()));
    assert_eq!(parse_value("256"), Err("Value must be 1-9".to_string()));
    assert_eq!(parse_value("x"), Err("Value must be 1-9".to_string()));
}

#[test]
fn cell_position_counts_row_by_row() {
    assert_eq!(cell_position_from_index(9), Ok((1, 0)));
    assert_eq!(cell_position_from_index(40), Ok((4, 4)));
    assert_eq!(cell_position_from_index(17), Ok((1, 8)));
}

fn say(message: &str) -> Command {
    Command::Say { message: message.to_string() }
}

#[test]
fn read_command_reads_set_and_delete() {
    assert_eq!(read_command("s 1 2 3"), Command::Enter { row: 0, column: 1, value: 3 });
    assert_eq!(read_command("  set\t9 9 9  "), Command::Enter { row: 8, column: 8, value: 9 });
    assert_eq!(read_command("d 4 5"), Command::Delete { row: 3, column: 4 });
    assert_eq!(read_command("delete 1 1"), Command::Delete { row: 0, column: 0 });
}

#[test]
fn read_command_explains_bad_arguments() {
    assert_eq!(read_command("s 1 2"), say("Usage: s <row> <col> <value>"));
    assert_eq!(read_command("s 1 2 3 4"), say("Usage: s <row> <col> <value>"));
    assert_eq!(read_command("s 0 2 3"), say("Row must be 1-9"));
    assert_eq!(read_command("s 1 x 3"), say("Column must be 1-9"));
    assert_eq!(read_command("s 1 2 10"), say("Value must be 1-9"));
    assert_eq!(read_command("s 0 x 10"), say("Row must be 1-9"));
    assert_eq!(read_command("d 1"), say("Usage: d <row> <col>"));
    assert_eq!(read_command("d 1 10"), say("Column must be 1-9"));
    assert_eq!(read_command("debug"), say("Usage: debug on|off"));
    assert_eq!(read_command("debug maybe"), say("Usage: debug on|off"));
    assert_eq!(read_command("debug on off"), say("Usage: debug on|off"));
}

#[test]
fn read_command_reads_the_other_commands() {
    assert_eq!(read_command(""), Command::Nothing);
    assert_eq!(read_command("   \t "), Command::Nothing);
    assert_eq!(read_command("q"), Command::Quit);
    assert_eq!(read_command("quit"), Command::Quit);
    assert_eq!(read_command("exit now"), Command::Quit);
    assert_eq!(read_command("c"), Command::Clear);
    assert_eq!(read_command("clear everything"), Command::Clear);
    assert_eq!(read_command("debug on"), Command::Debug { on: true });
    assert_eq!(read_command("debug off"), Command::Debug { on: false });
    assert_eq!(read_command("test"), Command::RunTests);
    assert_eq!(read_command("h"), Command::Help);
    assert_eq!(read_command("help"), Command::Help);
    assert_eq!(read_command("hello"), Command::Unknown);
    assert_eq!(read_command("S 1 2 3"), Command::Unknown);
    assert_eq!(read_command("s|1 2 3"), Command::Unknown);
}

#[test]
fn run_user_change_sets_and_clears_a_cell() {
    let mut game = Game::new();
    let snapshot = run_user_change(&mut game, UserChangeRequest::SetCell { cell_index: 10, value: 7 })
        .expect("an open grid takes a value");
    assert_eq!(snapshot.cells.len(), 81);
    assert_eq!(snapshot.cells[10].value, 7);
    assert!(snapshot.cells[10].is_user_set);
    assert!(!snapshot.cells[10].is_solved);
    assert_eq!(snapshot.cells[11].value, 0);
    assert!(!snapshot.is_solved);
    assert_eq!(snapshot.remaining_solutions_count, 50);
    assert!(snapshot.remaining_solutions_at_least_cap);
    assert_eq!(snapshot.remaining_solutions_text, "At least 50");

    let cleared = run_user_change(&mut game, UserChangeRequest::ClearCell { cell_index: 10 })
        .expect("a value the user set can be forgotten");
    assert_eq!(cleared.cells[10].value, 0);
    assert!(!cleared.cells[10].is_user_set);
}

#[test]
fn run_user_change_refuses_a_repeated_value() {
    let mut game = Game::new();
    run_user_change(&mut game, UserChangeRequest::SetCell { cell_index: 0, value: 5 }).unwrap();
    assert_eq!(
        run_user_change(&mut game, UserChangeRequest::SetCell { cell_index: 1, value: 5 }),
        Err("Bad input: 5 is not a valid entry for row 1 column 2".to_string())
    );
    let shown = run_user_change(&mut game, UserChangeRequest::GetGrid).unwrap();
    assert_eq!(shown.cells[1].value, 0);
    assert_eq!(shown.cells[0].value, 5);
}

#[test]
fn run_user_change_clear_grid_and_debug() {
    let mut game = Game::new();
    run_user_change(&mut game, UserChangeRequest::SetCell { cell_index: 0, value: 5 }).unwrap();
    let debug = run_user_change(&mut game, UserChangeRequest::SetDebug { enabled: true }).unwrap();
    assert_eq!(debug.cells[0].value, 5);
    let cleared = run_user_change(&mut game, UserChangeRequest::ClearGrid).unwrap();
    assert!(cleared.cells.iter().all(|c| c.value == 0 && !c.is_user_set));
    assert_eq!(cleared.remaining_solutions_text, "At least 50");
}
