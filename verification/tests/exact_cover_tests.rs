use sudoku_solver::bits::value_to_bit;
use sudoku_solver::constants::{GRID_SIDE, VALUE_MAX, VALUE_MIN};
use sudoku_solver::exact_cover::{
    assignment_to_constraint_columns, assignment_to_row_index, bit_to_value, box_index,
    build_full_exact_cover_problem, classify_solution_count, constraint_column_from_family_slot,
    constraint_column_to_descriptor, row_index_to_assignment, Assignment, BoardProgress,
    ConstraintColumn, ConstraintFamily, ExactCoverAnalyzer, ExactCoverError, ExactCoverProblem,
    SolutionCountStatus, ASSIGNMENT_ROW_COUNT, BOX_VALUE_CONSTRAINT_OFFSET, CELL_COUNT,
    COLUMN_VALUE_CONSTRAINT_OFFSET, CONSTRAINTS_PER_ASSIGNMENT, CONSTRAINT_COLUMNS_PER_FAMILY,
    CONSTRAINT_COLUMN_COUNT, ROW_VALUE_CONSTRAINT_OFFSET,
};

const SOLVED: [[u8; 9]; 9] = [
    [5, 3, 4, 6, 7, 8, 9, 1, 2],
    [6, 7, 2, 1, 9, 5, 3, 4, 8],
    [1, 9, 8, 3, 4, 2, 5, 6, 7],
    [8, 5, 9, 7, 6, 1, 4, 2, 3],
    [4, 2, 6, 8, 5, 3, 7, 9, 1],
    [7, 1, 3, 9, 2, 4, 8, 5, 6],
    [9, 6, 1, 5, 3, 7, 2, 8, 4],
    [2, 8, 7, 4, 1, 9, 6, 3, 5],
    [3, 4, 5, 2, 8, 6, 1, 7, 9],
];

fn solved_grid_assignments() -> Vec<Assignment> {
    let mut assignments = Vec::with_capacity(CELL_COUNT);
    for (row, values) in SOLVED.iter().enumerate() {
        for (column, &value) in values.iter().enumerate() {
            assignments.push(Assignment::new(row, column, value).unwrap());
        }
    }
    assignments
}

#[test]
fn assignment_rejects_out_of_range_inputs() {
    assert_eq!(
        Assignment::new(GRID_SIDE, 0, VALUE_MIN),
        Err(ExactCoverError::InvalidRow(GRID_SIDE))
    );
    assert_eq!(
        Assignment::new(0, GRID_SIDE, VALUE_MIN),
        Err(ExactCoverError::InvalidColumn(GRID_SIDE))
    );
    assert_eq!(
        Assignment::new(0, 0, 0),
        Err(ExactCoverError::InvalidValue(0))
    );
    assert_eq!(
        Assignment::new(0, 0, VALUE_MAX + 1),
        Err(ExactCoverError::InvalidValue(VALUE_MAX + 1))
    );
}

#[test]
fn classify_solution_count_matches_status_model() {
    assert_eq!(
        classify_solution_count(0, 100),
        Ok(SolutionCountStatus::Contradiction)
    );
    assert_eq!(
        classify_solution_count(1, 100),
        Ok(SolutionCountStatus::Unique)
    );
    assert_eq!(
        classify_solution_count(2, 100),
        Ok(SolutionCountStatus::MultipleBelowCap(2))
    );
    assert_eq!(
        classify_solution_count(100, 100),
        Ok(SolutionCountStatus::AtLeastCap(100))
    );
}

#[test]
fn assignment_row_index_round_trips_exhaustively() {
    let mut seen = vec![false; ASSIGNMENT_ROW_COUNT];
    for row in 0..GRID_SIDE {
        for column in 0..GRID_SIDE {
            for value in VALUE_MIN..=VALUE_MAX {
                let assignment = Assignment::new(row, column, value).unwrap();
                let row_index = assignment_to_row_index(assignment);
                assert!(row_index < ASSIGNMENT_ROW_COUNT);
                assert!(!seen[row_index]);
                seen[row_index] = true;
                assert_eq!(row_index_to_assignment(row_index).unwrap(), assignment);
            }
        }
    }

    assert!(seen.iter().all(|was_seen| *was_seen));
    assert_eq!(
        row_index_to_assignment(ASSIGNMENT_ROW_COUNT),
        Err(ExactCoverError::InvalidAssignmentRowIndex(
            ASSIGNMENT_ROW_COUNT
        ))
    );
}

#[test]
fn constraint_column_mappings_hold_exhaustively() {
    let mut hit_counts = vec![0usize; CONSTRAINT_COLUMN_COUNT];

    for row in 0..GRID_SIDE {
        for column in 0..GRID_SIDE {
            for value in VALUE_MIN..=VALUE_MAX {
                let assignment = Assignment::new(row, column, value).unwrap();
                let columns = assignment_to_constraint_columns(assignment);

                assert_eq!(columns.len(), CONSTRAINTS_PER_ASSIGNMENT);
                assert!(columns[0] != columns[1]);
                assert!(columns[0] != columns[2]);
                assert!(columns[0] != columns[3]);
                assert!(columns[1] != columns[2]);
                assert!(columns[1] != columns[3]);
                assert!(columns[2] != columns[3]);

                for &column_index in &columns {
                    assert!(column_index < CONSTRAINT_COLUMN_COUNT);
                    hit_counts[column_index] += 1;
                }

                assert_eq!(
                    constraint_column_to_descriptor(columns[0]).unwrap(),
                    ConstraintColumn::Cell { row, column }
                );
                assert_eq!(
                    constraint_column_to_descriptor(columns[1]).unwrap(),
                    ConstraintColumn::RowValue { row, value }
                );
                assert_eq!(
                    constraint_column_to_descriptor(columns[2]).unwrap(),
                    ConstraintColumn::ColumnValue { column, value }
                );
                assert_eq!(
                    constraint_column_to_descriptor(columns[3]).unwrap(),
                    ConstraintColumn::BoxValue {
                        box_index: box_index(row, column),
                        value
                    }
                );
            }
        }
    }

    for count in hit_counts {
        assert_eq!(count, GRID_SIDE);
    }

    assert_eq!(
        constraint_column_to_descriptor(CONSTRAINT_COLUMN_COUNT),
        Err(ExactCoverError::InvalidConstraintColumnIndex(
            CONSTRAINT_COLUMN_COUNT
        ))
    );
}

#[test]
fn builds_full_problem_with_expected_dimensions() {
    let problem = build_full_exact_cover_problem();
    assert_eq!(problem.column_count, CONSTRAINT_COLUMN_COUNT);
    assert_eq!(problem.rows.len(), ASSIGNMENT_ROW_COUNT);
    for row in problem.rows {
        assert_eq!(row.len(), CONSTRAINTS_PER_ASSIGNMENT);
    }
}

#[test]
fn family_slot_round_trips_and_checks_bounds() {
    let slot = 42;
    let column = constraint_column_from_family_slot(ConstraintFamily::RowValue, slot).unwrap();
    assert_eq!(column, ROW_VALUE_CONSTRAINT_OFFSET + slot);
    let column_value_column =
        constraint_column_from_family_slot(ConstraintFamily::ColumnValue, slot).unwrap();
    assert_eq!(column_value_column, COLUMN_VALUE_CONSTRAINT_OFFSET + slot);
    let box_value_column =
        constraint_column_from_family_slot(ConstraintFamily::BoxValue, slot).unwrap();
    assert_eq!(box_value_column, BOX_VALUE_CONSTRAINT_OFFSET + slot);
    assert_eq!(
        constraint_column_from_family_slot(
            ConstraintFamily::Cell,
            CONSTRAINT_COLUMNS_PER_FAMILY
        ),
        Err(ExactCoverError::InvalidConstraintSlot(
            CONSTRAINT_COLUMNS_PER_FAMILY
        ))
    );
}

#[test]
fn analyzer_detects_contradicting_clues() {
    let clues = vec![
        Assignment::new(0, 0, 1).unwrap(),
        Assignment::new(0, 1, 1).unwrap(),
    ];
    let analyzer = ExactCoverAnalyzer::new(&clues);
    assert!(analyzer.has_contradiction());
    assert_eq!(analyzer.progress(), BoardProgress::UnsolvedNow);
    assert_eq!(
        analyzer.solution_count_status(100),
        Ok(SolutionCountStatus::Contradiction)
    );
}

#[test]
fn analyzer_reports_unique_for_complete_valid_grid() {
    let clues = solved_grid_assignments();
    let analyzer = ExactCoverAnalyzer::new(&clues);
    assert!(!analyzer.has_contradiction());
    assert_eq!(analyzer.assigned_cells(), CELL_COUNT);
    assert_eq!(analyzer.progress(), BoardProgress::SolvedNow);
    assert_eq!(analyzer.count_solutions_with_cap(100), Ok(1));
    assert_eq!(
        analyzer.solution_count_status(100),
        Ok(SolutionCountStatus::Unique)
    );

    let mask = analyzer.candidate_mask_for_cell(0, 0).unwrap();
    assert_eq!(mask, value_to_bit(5));
    assert_eq!(bit_to_value(mask), Some(5));
}

#[test]
fn analyzer_cap_reports_at_least_for_empty_grid() {
    let analyzer = ExactCoverAnalyzer::new(&[]);
    assert!(!analyzer.has_contradiction());
    assert_eq!(analyzer.progress(), BoardProgress::UnsolvedNow);
    assert_eq!(
        analyzer.solution_count_status(2),
        Ok(SolutionCountStatus::AtLeastCap(2))
    );
}

#[test]
fn candidate_validation_rejects_conflicting_entry() {
    let clues = vec![Assignment::new(0, 0, 5).unwrap()];
    let analyzer = ExactCoverAnalyzer::new(&clues);
    assert_eq!(analyzer.candidate_is_valid(0, 0, 6), Ok(false));
    assert_eq!(analyzer.candidate_is_valid(0, 1, 5), Ok(false));
    assert_eq!(analyzer.candidate_is_valid(0, 1, 3), Ok(true));
}

#[test]
fn repeated_clue_is_not_a_contradiction() {
    let clue = Assignment::new(4, 4, 7).unwrap();
    let analyzer = ExactCoverAnalyzer::new(&[clue, clue]);
    assert!(!analyzer.has_contradiction());
    assert_eq!(analyzer.assigned_cells(), 1);
}

#[test]
fn two_values_in_one_cell_contradict() {
    let clues = vec![
        Assignment::new(3, 3, 1).unwrap(),
        Assignment::new(3, 3, 2).unwrap(),
    ];
    let analyzer = ExactCoverAnalyzer::new(&clues);
    assert!(analyzer.has_contradiction());
    assert_eq!(analyzer.count_solutions_with_cap(10), Ok(0));
    assert_eq!(analyzer.candidate_mask_for_cell(0, 0), Ok(0));
    assert_eq!(analyzer.candidate_is_valid(20, 0, 1), Ok(false));
}

#[test]
fn analyzer_rejects_zero_cap_and_small_status_cap() {
    let analyzer = ExactCoverAnalyzer::new(&[]);
    assert_eq!(
        analyzer.count_solutions_with_cap(0),
        Err(ExactCoverError::InvalidCap(0))
    );
    assert_eq!(
        analyzer.solution_count_status(1),
        Err(ExactCoverError::InvalidCap(1))
    );
    assert_eq!(
        analyzer.solution_count_status(0),
        Err(ExactCoverError::InvalidCap(0))
    );
}

#[test]
fn candidate_checks_refuse_cells_off_the_grid() {
    let analyzer = ExactCoverAnalyzer::new(&[]);
    assert_eq!(
        analyzer.candidate_mask_for_cell(9, 0),
        Err(ExactCoverError::InvalidRow(9))
    );
    assert_eq!(
        analyzer.candidate_mask_for_cell(0, 9),
        Err(ExactCoverError::InvalidColumn(9))
    );
    assert_eq!(
        analyzer.candidate_is_valid(0, 0, 10),
        Err(ExactCoverError::InvalidValue(10))
    );
}

#[test]
fn grid_missing_two_swappable_values_has_two_completions() {
    // Leaving out the 6 and 7 of rows 0 and 3 in columns 3 and 4 leaves two ways to fill them.
    let mut clues = Vec::new();
    for (row, values) in SOLVED.iter().enumerate() {
        for (column, &value) in values.iter().enumerate() {
            let hidden = (row == 0 || row == 3) && (column == 3 || column == 4);
            if !hidden {
                clues.push(Assignment::new(row, column, value).unwrap());
            }
        }
    }
    let analyzer = ExactCoverAnalyzer::new(&clues);
    assert_eq!(analyzer.count_solutions_with_cap(10), Ok(2));
    assert_eq!(
        analyzer.solution_count_status(10),
        Ok(SolutionCountStatus::MultipleBelowCap(2))
    );
    assert_eq!(
        analyzer.candidate_mask_for_cell(0, 3),
        Ok(value_to_bit(6) | value_to_bit(7))
    );
    let masks = analyzer.candidate_masks().unwrap();
    assert_eq!(masks[3][4], value_to_bit(6) | value_to_bit(7));
    assert_eq!(masks[8][8], value_to_bit(9));
}

#[test]
fn default_problem_is_empty() {
    let problem = ExactCoverProblem::default();
    assert_eq!(problem.column_count, CONSTRAINT_COLUMN_COUNT);
    assert!(problem.rows.is_empty());
    assert_eq!(ExactCoverProblem::new(), problem);
}

#[test]
fn bit_to_value_rejects_masks_of_no_single_value() {
    assert_eq!(bit_to_value(0), None);
    assert_eq!(bit_to_value(0b11), None);
    assert_eq!(bit_to_value(1 << 9), None);
    assert_eq!(bit_to_value(1), Some(1));
    assert_eq!(bit_to_value(1 << 8), Some(9));
}

#[test]
fn assigned_cells_counts_up_to_the_first_contradiction() {
    let a = |r: usize, c: usize, v: u8| Assignment::new(r, c, v).unwrap();
    let row_clash = ExactCoverAnalyzer::new(&[a(0, 0, 1), a(0, 1, 2), a(0, 2, 1), a(5, 5, 5)]);
    assert!(row_clash.has_contradiction());
    assert_eq!(row_clash.assigned_cells(), 3);
    let cell_clash = ExactCoverAnalyzer::new(&[a(0, 0, 1), a(0, 0, 2), a(4, 4, 4)]);
    assert!(cell_clash.has_contradiction());
    assert_eq!(cell_clash.assigned_cells(), 1);
    let repeated = ExactCoverAnalyzer::new(&[a(0, 0, 1), a(0, 0, 1), a(1, 1, 2)]);
    assert!(!repeated.has_contradiction());
    assert_eq!(repeated.assigned_cells(), 2);
}
