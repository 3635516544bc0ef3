use sudoku_solver::exact_cover::dlx::{DlxError, DlxMatrix};

#[test]
fn add_row_validates_columns() {
    let mut matrix = DlxMatrix::new(10).unwrap();
    assert_eq!(matrix.add_row(&[]), Err(DlxError::EmptyRow));
    assert_eq!(
        matrix.add_row(&[10]),
        Err(DlxError::ColumnOutOfRange {
            column: 10,
            column_count: 10
        })
    );
    assert_eq!(matrix.add_row(&[1, 1]), Err(DlxError::DuplicateColumn(1)));
    assert_eq!(matrix.add_row(&[1, 3, 5]), Ok(0));
}

#[test]
fn count_solutions_detects_contradiction() {
    let mut matrix = DlxMatrix::new(3).unwrap();
    matrix.add_row(&[0]).unwrap();
    matrix.add_row(&[1]).unwrap();
    assert_eq!(matrix.count_solutions_with_cap(10), Ok(0));
}

#[test]
fn count_solutions_finds_unique_solution() {
    let mut matrix = DlxMatrix::new(3).unwrap();
    matrix.add_row(&[0]).unwrap();
    matrix.add_row(&[1]).unwrap();
    matrix.add_row(&[2]).unwrap();
    assert_eq!(matrix.count_solutions_with_cap(10), Ok(1));
}

#[test]
fn count_solutions_respects_cap_and_stops_early() {
    let mut matrix = DlxMatrix::new(3).unwrap();
    matrix.add_row(&[0]).unwrap();
    matrix.add_row(&[1]).unwrap();
    matrix.add_row(&[2]).unwrap();
    matrix.add_row(&[0, 1, 2]).unwrap();
    assert_eq!(matrix.count_solutions_with_cap(1), Ok(1));
    assert_eq!(matrix.count_solutions_with_cap(2), Ok(2));
    assert_eq!(matrix.count_solutions_with_cap(10), Ok(2));
}

#[test]
fn count_solutions_rejects_zero_cap() {
    let matrix = DlxMatrix::new(1).unwrap();
    assert_eq!(
        matrix.count_solutions_with_cap(0),
        Err(DlxError::InvalidCap(0))
    );
}

#[test]
fn new_rejects_zero_columns() {
    assert_eq!(DlxMatrix::new(0).err(), Some(DlxError::InvalidColumnCount(0)));
}

#[test]
fn add_row_reports_first_fault_in_row_order() {
    let mut matrix = DlxMatrix::new(4).unwrap();
    assert_eq!(matrix.add_row(&[2, 2, 9]), Err(DlxError::DuplicateColumn(2)));
    assert_eq!(
        matrix.add_row(&[9, 2, 2]),
        Err(DlxError::ColumnOutOfRange {
            column: 9,
            column_count: 4
        })
    );
    assert_eq!(matrix.add_row(&[3, 0]), Ok(0));
    assert_eq!(matrix.add_row(&[1, 2]), Ok(1));
    assert_eq!(matrix.count_solutions_with_cap(5), Ok(1));
}

#[test]
fn refused_row_leaves_matrix_unchanged() {
    let mut matrix = DlxMatrix::new(2).unwrap();
    matrix.add_row(&[0, 1]).unwrap();
    assert_eq!(matrix.add_row(&[1, 1]), Err(DlxError::DuplicateColumn(1)));
    assert_eq!(matrix.add_row(&[0]), Ok(1));
    assert_eq!(matrix.count_solutions_with_cap(5), Ok(1));
}

#[test]
fn counts_all_covers_of_a_small_matrix() {
    // Knuth's example matrix, whose one exact cover is rows 0, 3 and 4.
    let mut matrix = DlxMatrix::new(7).unwrap();
    matrix.add_row(&[2, 4, 5]).unwrap();
    matrix.add_row(&[0, 3, 6]).unwrap();
    matrix.add_row(&[1, 2, 5]).unwrap();
    matrix.add_row(&[0, 3]).unwrap();
    matrix.add_row(&[1, 6]).unwrap();
    matrix.add_row(&[3, 4, 6]).unwrap();
    assert_eq!(matrix.count_solutions_with_cap(10), Ok(1));
}

#[test]
fn counts_every_partition_of_independent_columns() {
    // Two columns, every non-empty subset as a row: the covers are {0},{1} and {0,1}.
    let mut matrix = DlxMatrix::new(2).unwrap();
    matrix.add_row(&[0]).unwrap();
    matrix.add_row(&[1]).unwrap();
    matrix.add_row(&[1, 0]).unwrap();
    assert_eq!(matrix.count_solutions_with_cap(10), Ok(2));
    assert_eq!(matrix.count_solutions_with_cap(1), Ok(1));
}
