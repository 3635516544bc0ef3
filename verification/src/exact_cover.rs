//! Sudoku as an exact-cover problem.
//!
//! Each assignment of a value to a cell is a row of a 0/1 matrix with four
//! constraint columns: the cell holds a value, the row holds the value, the
//! column holds the value, and the box holds the value. A filled, valid grid is
//! a set of rows that covers every constraint column exactly once. The analyzer
//! fixes the clue rows and counts how many such covers complete them.
use vstd::prelude::*;
use crate::bits::{bit_set, lemma_bit_or, lemma_single_bit, lemma_zero_bits, value_bit, value_to_bit};
use crate::exact_cover::covers::{
    all_columns, available, columns_of_rows, covers, covers_containing, lemma_covers_containing,
    lemma_covers_containing_conflict, lemma_covers_of_nothing, lemma_covers_renamed, pairwise_disjoint,
};
use crate::exact_cover::dlx::{entry_count, DlxMatrix};
use crate::constants::{BOX_SIDE, GRID_SIDE, VALUE_MAX, VALUE_MIN};

pub mod covers;
pub mod dlx;
pub mod dlx_layout;
pub mod links;

verus! {

/// One row of the matrix for each cell and value.
pub const ASSIGNMENT_ROW_COUNT: usize = GRID_SIDE * GRID_SIDE * GRID_SIDE;

/// The four constraint families.
pub const CONSTRAINT_FAMILY_COUNT: usize = 4;

/// Each assignment fills one column of each family.
pub const CONSTRAINTS_PER_ASSIGNMENT: usize = CONSTRAINT_FAMILY_COUNT;

/// All constraint columns.
pub const CONSTRAINT_COLUMN_COUNT: usize = GRID_SIDE * GRID_SIDE * CONSTRAINT_FAMILY_COUNT;

/// The columns of one family.
pub const CONSTRAINT_COLUMNS_PER_FAMILY: usize = GRID_SIDE * GRID_SIDE;

/// The cells of the grid.
pub const CELL_COUNT: usize = GRID_SIDE * GRID_SIDE;

/// First column of the "cell holds a value" family.
pub const CELL_CONSTRAINT_OFFSET: usize = 0;

/// First column of the "row holds a value" family.
pub const ROW_VALUE_CONSTRAINT_OFFSET: usize = CELL_CONSTRAINT_OFFSET + CONSTRAINT_COLUMNS_PER_FAMILY;

/// First column of the "column holds a value" family.
pub const COLUMN_VALUE_CONSTRAINT_OFFSET: usize = ROW_VALUE_CONSTRAINT_OFFSET
    + CONSTRAINT_COLUMNS_PER_FAMILY;

/// First column of the "box holds a value" family.
pub const BOX_VALUE_CONSTRAINT_OFFSET: usize = COLUMN_VALUE_CONSTRAINT_OFFSET
    + CONSTRAINT_COLUMNS_PER_FAMILY;

/// Why an input to the exact-cover model was refused.
#[derive(Debug, Clone, Copy, PartialEq, Eq, Structural)]
pub enum ExactCoverError {
    InvalidRow(usize),
    InvalidColumn(usize),
    InvalidValue(u8),
    InvalidAssignmentRowIndex(usize),
    InvalidConstraintColumnIndex(usize),
    InvalidConstraintSlot(usize),
    InvalidCap(usize),
}

/// The error an assignment of `value` to the cell at `row`, `column` is refused with:
/// the row is checked first, then the column, then the value.
pub open spec fn assignment_error(row: int, column: int, value: int) -> Option<ExactCoverError> {
    if row >= GRID_SIDE {
        Some(ExactCoverError::InvalidRow(row as usize))
    } else if column >= GRID_SIDE {
        Some(ExactCoverError::InvalidColumn(column as usize))
    } else if !(VALUE_MIN <= value <= VALUE_MAX) {
        Some(ExactCoverError::InvalidValue(value as u8))
    } else {
        None
    }
}

/// The value `value` placed in the cell at `row`, `column`.
#[derive(Debug, Clone, Copy, PartialEq, Eq, Structural)]
pub struct Assignment {
    row: usize,
    column: usize,
    value: u8,
}

impl Assignment {
    /// The cell is on the grid and the value is one of the allowed values.
    #[verifier::type_invariant]
    spec fn in_range(self) -> bool {
        self.row < GRID_SIDE && self.column < GRID_SIDE && VALUE_MIN <= self.value <= VALUE_MAX
    }

    /// The row of the cell.
    pub closed spec fn cell_row(self) -> int {
        self.row as int
    }

    /// The column of the cell.
    pub closed spec fn cell_column(self) -> int {
        self.column as int
    }

    /// The value placed.
    pub closed spec fn cell_value(self) -> int {
        self.value as int
    }

    /// The matrix row of this assignment.
    pub open spec fn row_index(self) -> int {
        row_index_of(self.cell_row(), self.cell_column(), self.cell_value())
    }

    /// An assignment, refused when the row, the column or the value is out of range.
    pub fn new(row: usize, column: usize, value: u8) -> (r: Result<Self, ExactCoverError>)
        ensures
            match r {
                Ok(a) => assignment_error(row as int, column as int, value as int) is None
                    && a.cell_row() == row && a.cell_column() == column && a.cell_value()
                    == value,
                Err(e) => assignment_error(row as int, column as int, value as int) == Some(e),
            },
    {
        validate_row(row)?;
        validate_column(column)?;
        validate_value(value)?;
        Ok(Assignment { row, column, value })
    }

}

/// The row is on the grid.
pub fn validate_row(row: usize) -> (r: Result<(), ExactCoverError>)
    ensures
        match r {
            Ok(_) => row < GRID_SIDE,
            Err(e) => row >= GRID_SIDE && e == ExactCoverError::InvalidRow(row),
        },
{
    if row >= GRID_SIDE {
        return Err(ExactCoverError::InvalidRow(row));
    }
    Ok(())
}

/// The column is on the grid.
pub fn validate_column(column: usize) -> (r: Result<(), ExactCoverError>)
    ensures
        match r {
            Ok(_) => column < GRID_SIDE,
            Err(e) => column >= GRID_SIDE && e == ExactCoverError::InvalidColumn(column),
        },
{
    if column >= GRID_SIDE {
        return Err(ExactCoverError::InvalidColumn(column));
    }
    Ok(())
}

/// The value is one of the allowed values.
pub fn validate_value(value: u8) -> (r: Result<(), ExactCoverError>)
    ensures
        match r {
            Ok(_) => VALUE_MIN <= value <= VALUE_MAX,
            Err(e) => !(VALUE_MIN <= value <= VALUE_MAX) && e == ExactCoverError::InvalidValue(value),
        },
{
    if !(VALUE_MIN <= value && value <= VALUE_MAX) {
        return Err(ExactCoverError::InvalidValue(value));
    }
    Ok(())
}

/// The box of a cell, counted row by row.
pub open spec fn box_of(row: int, column: int) -> int {
    (row / BOX_SIDE as int) * BOX_SIDE + column / BOX_SIDE as int
}

/// The matrix row of the value `value` in the cell at `row`, `column`.
pub open spec fn row_index_of(row: int, column: int, value: int) -> int {
    (row * GRID_SIDE + column) * GRID_SIDE + (value - VALUE_MIN)
}

/// The column saying that the cell at `row`, `column` holds a value.
pub open spec fn cell_column_of(row: int, column: int) -> int {
    CELL_CONSTRAINT_OFFSET + row * GRID_SIDE + column
}

/// The column saying that grid row `row` holds `value`.
pub open spec fn row_value_column_of(row: int, value: int) -> int {
    ROW_VALUE_CONSTRAINT_OFFSET + row * GRID_SIDE + (value - VALUE_MIN)
}

/// The column saying that grid column `column` holds `value`.
pub open spec fn column_value_column_of(column: int, value: int) -> int {
    COLUMN_VALUE_CONSTRAINT_OFFSET + column * GRID_SIDE + (value - VALUE_MIN)
}

/// The column saying that box `box_index` holds `value`.
pub open spec fn box_value_column_of(box_index: int, value: int) -> int {
    BOX_VALUE_CONSTRAINT_OFFSET + box_index * GRID_SIDE + (value - VALUE_MIN)
}

/// The four constraint columns of the value `value` in the cell at `row`, `column`.
pub open spec fn constraint_columns_of(row: int, column: int, value: int) -> Seq<usize> {
    seq![
        cell_column_of(row, column) as usize,
        row_value_column_of(row, value) as usize,
        column_value_column_of(column, value) as usize,
        box_value_column_of(box_of(row, column), value) as usize,
    ]
}

/// The row of the grid that matrix row `i` places a value in.
pub open spec fn row_of_index(i: int) -> int {
    i / (GRID_SIDE * GRID_SIDE) as int
}

/// The column of the grid that matrix row `i` places a value in.
pub open spec fn column_of_index(i: int) -> int {
    (i / GRID_SIDE as int) % GRID_SIDE as int
}

/// The value that matrix row `i` places.
pub open spec fn value_of_index(i: int) -> int {
    i % GRID_SIDE as int + VALUE_MIN
}

/// The whole Sudoku exact-cover matrix: row `i` lists the four columns of its assignment.
pub open spec fn sudoku_rows() -> Seq<Seq<usize>> {
    Seq::new(
        ASSIGNMENT_ROW_COUNT as nat,
        |i: int| constraint_columns_of(row_of_index(i), column_of_index(i), value_of_index(i)),
    )
}

/// The box of the cell at `row`, `column`.
pub fn box_index(row: usize, column: usize) -> (b: usize)
    requires
        box_of(row as int, column as int) <= usize::MAX,
    ensures
        b == box_of(row as int, column as int),
{
    (row / BOX_SIDE) * BOX_SIDE + (column / BOX_SIDE)
}

/// The column saying that the cell at `row`, `column` holds a value.
pub fn cell_constraint_column_formula(row: usize, column: usize) -> (c: usize)
    requires
        cell_column_of(row as int, column as int) <= usize::MAX,
    ensures
        c == cell_column_of(row as int, column as int),
{
    CELL_CONSTRAINT_OFFSET + row * GRID_SIDE + column
}

/// The column saying that grid row `row` holds `value`.
pub fn row_value_constraint_column_formula(row: usize, value: u8) -> (c: usize)
    requires
        value >= VALUE_MIN,
        row_value_column_of(row as int, value as int) <= usize::MAX,
    ensures
        c == row_value_column_of(row as int, value as int),
{
    ROW_VALUE_CONSTRAINT_OFFSET + row * GRID_SIDE + ((value - VALUE_MIN) as usize)
}

/// The column saying that grid column `column` holds `value`.
pub fn column_value_constraint_column_formula(column: usize, value: u8) -> (c: usize)
    requires
        value >= VALUE_MIN,
        column_value_column_of(column as int, value as int) <= usize::MAX,
    ensures
        c == column_value_column_of(column as int, value as int),
{
    COLUMN_VALUE_CONSTRAINT_OFFSET + column * GRID_SIDE + ((value - VALUE_MIN) as usize)
}

/// The column saying that box `box_index` holds `value`.
pub fn box_value_constraint_column_formula(box_index: usize, value: u8) -> (c: usize)
    requires
        value >= VALUE_MIN,
        box_value_column_of(box_index as int, value as int) <= usize::MAX,
    ensures
        c == box_value_column_of(box_index as int, value as int),
{
    BOX_VALUE_CONSTRAINT_OFFSET + box_index * GRID_SIDE + ((value - VALUE_MIN) as usize)
}

/// The matrix row of an assignment, whose cell is on the grid and whose value is allowed.
pub fn assignment_to_row_index(assignment: Assignment) -> (i: usize)
    ensures
        0 <= assignment.cell_row() < GRID_SIDE,
        0 <= assignment.cell_column() < GRID_SIDE,
        VALUE_MIN <= assignment.cell_value() <= VALUE_MAX,
        i == assignment.row_index(),
        i < ASSIGNMENT_ROW_COUNT,
{
    proof {
        use_type_invariant(&assignment);
    }
    ((assignment.row * GRID_SIDE + assignment.column) * GRID_SIDE) + ((assignment.value
        - VALUE_MIN) as usize)
}

/// The assignment of matrix row `row_index`, refused when there is no such row.
pub fn row_index_to_assignment(row_index: usize) -> (r: Result<Assignment, ExactCoverError>)
    ensures
        match r {
            Ok(a) => row_index < ASSIGNMENT_ROW_COUNT && a.cell_row() == row_of_index(
                row_index as int,
            ) && a.cell_column() == column_of_index(row_index as int) && a.cell_value()
                == value_of_index(row_index as int),
            Err(e) => row_index >= ASSIGNMENT_ROW_COUNT && e
                == ExactCoverError::InvalidAssignmentRowIndex(row_index),
        },
{
    if row_index >= ASSIGNMENT_ROW_COUNT {
        return Err(ExactCoverError::InvalidAssignmentRowIndex(row_index));
    }
    let row_column_index = row_index / GRID_SIDE;
    let row = row_column_index / GRID_SIDE;
    let column = row_column_index % GRID_SIDE;
    let value = (row_index % GRID_SIDE) as u8 + VALUE_MIN;
    proof {
        assert(row_index / 9 / 9 == row_index / 81) by (nonlinear_arith)
            requires
                row_index < 729,
        ;
    }
    Assignment::new(row, column, value)
}

/// The four constraint columns of an assignment: cell, row-value, column-value, box-value.
pub fn assignment_to_constraint_columns(assignment: Assignment) -> (columns: [usize; 4])
    ensures
        columns@ == constraint_columns_of(
            assignment.cell_row(),
            assignment.cell_column(),
            assignment.cell_value(),
        ),
{
    proof {
        use_type_invariant(&assignment);
    }
    let cell = cell_constraint_column_formula(assignment.row, assignment.column);
    let row_value = row_value_constraint_column_formula(assignment.row, assignment.value);
    let column_value = column_value_constraint_column_formula(assignment.column, assignment.value);
    let box_value = box_value_constraint_column_formula(
        box_index(assignment.row, assignment.column),
        assignment.value,
    );
    let columns = [cell, row_value, column_value, box_value];
    proof {
        assert(columns@ =~= constraint_columns_of(
            assignment.cell_row(),
            assignment.cell_column(),
            assignment.cell_value(),
        ));
    }
    columns
}

/// The four constraint families, in column order.
#[derive(Debug, Clone, Copy, PartialEq, Eq, Structural)]
pub enum ConstraintFamily {
    Cell,
    RowValue,
    ColumnValue,
    BoxValue,
}

/// The first column of a family.
pub open spec fn family_offset(family: ConstraintFamily) -> int {
    match family {
        ConstraintFamily::Cell => CELL_CONSTRAINT_OFFSET as int,
        ConstraintFamily::RowValue => ROW_VALUE_CONSTRAINT_OFFSET as int,
        ConstraintFamily::ColumnValue => COLUMN_VALUE_CONSTRAINT_OFFSET as int,
        ConstraintFamily::BoxValue => BOX_VALUE_CONSTRAINT_OFFSET as int,
    }
}

impl ConstraintFamily {
    /// The first column of the family.
    pub fn offset(self) -> (offset: usize)
        ensures
            offset == family_offset(self),
    {
        match self {
            ConstraintFamily::Cell => CELL_CONSTRAINT_OFFSET,
            ConstraintFamily::RowValue => ROW_VALUE_CONSTRAINT_OFFSET,
            ConstraintFamily::ColumnValue => COLUMN_VALUE_CONSTRAINT_OFFSET,
            ConstraintFamily::BoxValue => BOX_VALUE_CONSTRAINT_OFFSET,
        }
    }
}

/// What a constraint column stands for.
#[derive(Debug, Clone, Copy, PartialEq, Eq, Structural)]
pub enum ConstraintColumn {
    Cell { row: usize, column: usize },
    RowValue { row: usize, value: u8 },
    ColumnValue { column: usize, value: u8 },
    BoxValue { box_index: usize, value: u8 },
}

/// The meaning of constraint column `c`, for `c` below the column count: its family picks
/// the variant, and the position within the family gives the row, column or box (by
/// nines) and the value (the remainder).
pub open spec fn descriptor_of(c: int) -> ConstraintColumn {
    let local = c % CONSTRAINT_COLUMNS_PER_FAMILY as int;
    let major = (local / GRID_SIDE as int) as usize;
    let minor = local % GRID_SIDE as int;
    let value = (minor + VALUE_MIN) as u8;
    let family = c / CONSTRAINT_COLUMNS_PER_FAMILY as int;
    if family == 0 {
        ConstraintColumn::Cell { row: major, column: minor as usize }
    } else if family == 1 {
        ConstraintColumn::RowValue { row: major, value }
    } else if family == 2 {
        ConstraintColumn::ColumnValue { column: major, value }
    } else {
        ConstraintColumn::BoxValue { box_index: major, value }
    }
}

/// What constraint column `column_index` stands for, refused past the last column.
pub fn constraint_column_to_descriptor(column_index: usize) -> (r: Result<
    ConstraintColumn,
    ExactCoverError,
>)
    ensures
        match r {
            Ok(d) => column_index < CONSTRAINT_COLUMN_COUNT && d == descriptor_of(
                column_index as int,
            ),
            Err(e) => column_index >= CONSTRAINT_COLUMN_COUNT && e
                == ExactCoverError::InvalidConstraintColumnIndex(column_index),
        },
{
    if column_index >= CONSTRAINT_COLUMN_COUNT {
        return Err(ExactCoverError::InvalidConstraintColumnIndex(column_index));
    }
    let family = column_index / CONSTRAINT_COLUMNS_PER_FAMILY;
    let local = column_index % CONSTRAINT_COLUMNS_PER_FAMILY;
    let major = local / GRID_SIDE;
    let minor = local % GRID_SIDE;
    let value = minor as u8 + VALUE_MIN;
    match family {
        0 => Ok(ConstraintColumn::Cell { row: major, column: minor }),
        1 => Ok(ConstraintColumn::RowValue { row: major, value }),
        2 => Ok(ConstraintColumn::ColumnValue { column: major, value }),
        3 => Ok(ConstraintColumn::BoxValue { box_index: major, value }),
        _ => Err(ExactCoverError::InvalidConstraintColumnIndex(column_index)),
    }
}

/// The column at position `slot` of a family, refused past the family's last column.
pub fn constraint_column_from_family_slot(family: ConstraintFamily, slot: usize) -> (r: Result<
    usize,
    ExactCoverError,
>)
    ensures
        match r {
            Ok(c) => slot < CONSTRAINT_COLUMNS_PER_FAMILY && c == family_offset(family) + slot,
            Err(e) => slot >= CONSTRAINT_COLUMNS_PER_FAMILY && e
                == ExactCoverError::InvalidConstraintSlot(slot),
        },
{
    if slot >= CONSTRAINT_COLUMNS_PER_FAMILY {
        return Err(ExactCoverError::InvalidConstraintSlot(slot));
    }
    Ok(family.offset() + slot)
}

/// How many completions a board has, as far as a capped count tells.
#[derive(Debug, Clone, Copy, PartialEq, Eq, Structural)]
pub enum SolutionCountStatus {
    Contradiction,
    Unique,
    MultipleBelowCap(usize),
    AtLeastCap(usize),
}

/// Whether the clues fill the whole grid without contradiction.
#[derive(Debug, Clone, Copy, PartialEq, Eq, Structural)]
pub enum BoardProgress {
    SolvedNow,
    UnsolvedNow,
}

/// The status a count taken with `cap` stands for: none, one, several below the cap, or
/// at least the cap. A cap below two cannot tell one from several and is refused.
pub open spec fn status_of(count: int, cap: int) -> SolutionCountStatus {
    if count == 0 {
        SolutionCountStatus::Contradiction
    } else if count == 1 {
        SolutionCountStatus::Unique
    } else if count >= cap {
        SolutionCountStatus::AtLeastCap(cap as usize)
    } else {
        SolutionCountStatus::MultipleBelowCap(count as usize)
    }
}

/// The status a capped count stands for, refused for a cap below two.
pub fn classify_solution_count(count: usize, cap: usize) -> (r: Result<
    SolutionCountStatus,
    ExactCoverError,
>)
    ensures
        match r {
            Ok(s) => cap >= 2 && s == status_of(count as int, cap as int),
            Err(e) => cap < 2 && e == ExactCoverError::InvalidCap(cap),
        },
{
    if cap < 2 {
        return Err(ExactCoverError::InvalidCap(cap));
    }
    if count == 0 {
        return Ok(SolutionCountStatus::Contradiction);
    }
    if count == 1 {
        return Ok(SolutionCountStatus::Unique);
    }
    if count >= cap {
        return Ok(SolutionCountStatus::AtLeastCap(cap));
    }
    Ok(SolutionCountStatus::MultipleBelowCap(count))
}

/// An exact-cover problem whose rows each hold four columns.
#[derive(Debug, Clone, PartialEq, Eq)]
pub struct ExactCoverProblem {
    pub column_count: usize,
    pub rows: Vec<[usize; 4]>,
}

impl ExactCoverProblem {
    /// The problem over all constraint columns, with no rows yet.
    pub fn new() -> (p: Self)
        ensures
            p.column_count == CONSTRAINT_COLUMN_COUNT,
            p.rows@.len() == 0,
    {
        ExactCoverProblem {
            column_count: CONSTRAINT_COLUMN_COUNT,
            rows: Vec::with_capacity(ASSIGNMENT_ROW_COUNT),
        }
    }
}

impl Default for ExactCoverProblem {
    fn default() -> (p: Self)
        ensures
            p.column_count == CONSTRAINT_COLUMN_COUNT,
            p.rows@.len() == 0,
    {
        Self::new()
    }
}

/// The whole Sudoku matrix: one row for each cell and value, cell by cell in row order and
/// value by value within a cell.
pub fn build_full_exact_cover_problem() -> (p: ExactCoverProblem)
    ensures
        p.column_count == CONSTRAINT_COLUMN_COUNT,
        p.rows@.len() == ASSIGNMENT_ROW_COUNT,
        forall|i: int| 0 <= i < ASSIGNMENT_ROW_COUNT ==> (#[trigger] p.rows@[i])@ == sudoku_rows()[i],
{
    let mut problem = ExactCoverProblem::new();
    let mut row: usize = 0;
    while row < GRID_SIDE
        invariant
            row <= GRID_SIDE,
            problem.column_count == CONSTRAINT_COLUMN_COUNT,
            problem.rows@.len() == row * 81,
            forall|i: int| 0 <= i < row * 81 ==> (#[trigger] problem.rows@[i])@ == sudoku_rows()[i],
        decreases GRID_SIDE - row,
    {
        let mut column: usize = 0;
        while column < GRID_SIDE
            invariant
                row < GRID_SIDE,
                column <= GRID_SIDE,
                problem.column_count == CONSTRAINT_COLUMN_COUNT,
                problem.rows@.len() == row * 81 + column * 9,
                forall|i: int|
                    0 <= i < row * 81 + column * 9 ==> (#[trigger] problem.rows@[i])@
                        == sudoku_rows()[i],
            decreases GRID_SIDE - column,
        {
            let mut value: u8 = VALUE_MIN;
            while value <= VALUE_MAX
                invariant
                    row < GRID_SIDE,
                    column < GRID_SIDE,
                    VALUE_MIN <= value <= VALUE_MAX + 1,
                    problem.column_count == CONSTRAINT_COLUMN_COUNT,
                    problem.rows@.len() == row * 81 + column * 9 + (value - 1),
                    forall|i: int|
                        0 <= i < row * 81 + column * 9 + (value - 1) ==> (
                        #[trigger] problem.rows@[i])@ == sudoku_rows()[i],
                decreases VALUE_MAX + 1 - value,
            {
                let assignment = match Assignment::new(row, column, value) {
                    Ok(a) => a,
                    Err(_) => {
                        proof {
                            assert(false);
                        }
                        return problem;
                    },
                };
                let columns = assignment_to_constraint_columns(assignment);
                proof {
                    let i = row * 81 + column * 9 + (value - 1);
                    assert(row_of_index(i) == row && column_of_index(i) == column
                        && value_of_index(i) == value) by (nonlinear_arith)
                        requires
                            i == row * 81 + column * 9 + (value - 1),
                            row < 9,
                            column < 9,
                            1 <= value <= 9,
                    ;
                }
                problem.rows.push(columns);
                value = value + 1;
            }
            column = column + 1;
        }
        row = row + 1;
    }
    problem
}

/// The value a single-value mask stands for; `None` for a mask with no bit, several bits,
/// or a bit past the last value.
pub fn bit_to_value(bit: u16) -> (r: Option<u8>)
    ensures
        match r {
            Some(v) => VALUE_MIN <= v <= VALUE_MAX && bit == value_bit(v as int),
            None => forall|v: int| VALUE_MIN <= v <= VALUE_MAX ==> bit != #[trigger] value_bit(v),
        },
{
    if crate::bits::count_ones(bit) != 1 {
        proof {
            assert forall|v: int| VALUE_MIN <= v <= VALUE_MAX implies bit != #[trigger] value_bit(v) by {
                crate::bits::lemma_value_bit(v);
            }
        }
        return None;
    }
    proof {
        lemma_single_bit(bit);
    }
    let ghost v0 = choose|v: int| 1 <= v <= 16 && bit == #[trigger] value_bit(v);
    let index = bit.trailing_zeros() as u8;
    proof {
        let k = (v0 - 1) as u16;
        assert(bit == 1u16 << k);
        assert(k < 16 ==> (1u16 << k) != 0 && ((1u16 << k) >> k) & 1u16 == 1u16) by (bit_vector);
        vstd::std_specs::bits::axiom_u16_trailing_zeros(bit);
        let tz = bit.trailing_zeros();
        assert(tz == k) by {
            crate::bits::lemma_value_bit(v0);
            if tz < k {
                assert(bit_set(bit, tz as int));
            } else if tz > k {
                assert((bit >> k) & 1u16 == 0u16);
            }
        }
    }
    let value = index + VALUE_MIN;
    if value > VALUE_MAX {
        proof {
            assert forall|v: int| VALUE_MIN <= v <= VALUE_MAX implies bit != #[trigger] value_bit(v) by {
                crate::bits::lemma_value_bit(v);
                crate::bits::lemma_value_bit(v0);
                if bit == value_bit(v) {
                    assert(bit_set(bit, v - 1));
                }
            }
        }
        return None;
    }
    Some(value)
}


/// Matrix row `i` places a value in a cell of the grid, and is the row of that placement.
pub proof fn lemma_index_parts(i: int)
    requires
        0 <= i < ASSIGNMENT_ROW_COUNT,
    ensures
        0 <= row_of_index(i) < GRID_SIDE,
        0 <= column_of_index(i) < GRID_SIDE,
        VALUE_MIN <= value_of_index(i) <= VALUE_MAX,
        row_index_of(row_of_index(i), column_of_index(i), value_of_index(i)) == i,
{
    assert(0 <= i / 81 < 9 && 0 <= (i / 9) % 9 < 9 && 0 <= i % 9 < 9 && (i / 81 * 9 + (i / 9) % 9)
        * 9 + i % 9 == i) by (nonlinear_arith)
        requires
            0 <= i < 729,
    ;
}

/// The placement of a value in a cell has a matrix row, which gives the placement back.
pub proof fn lemma_placement_index(row: int, column: int, value: int)
    requires
        0 <= row < GRID_SIDE,
        0 <= column < GRID_SIDE,
        VALUE_MIN <= value <= VALUE_MAX,
    ensures
        0 <= row_index_of(row, column, value) < ASSIGNMENT_ROW_COUNT,
        row_of_index(row_index_of(row, column, value)) == row,
        column_of_index(row_index_of(row, column, value)) == column,
        value_of_index(row_index_of(row, column, value)) == value,
        sudoku_rows()[row_index_of(row, column, value)] == constraint_columns_of(row, column, value),
{
    let i = row_index_of(row, column, value);
    assert(0 <= i < 729 && i / 81 == row && (i / 9) % 9 == column && i % 9 + 1 == value)
        by (nonlinear_arith)
        requires
            i == (row * 9 + column) * 9 + (value - 1),
            0 <= row < 9,
            0 <= column < 9,
            1 <= value <= 9,
    ;
}

/// The four constraint columns of a placement lie one in each family, so they are distinct
/// and below the column count.
pub proof fn lemma_constraint_columns(row: int, column: int, value: int)
    requires
        0 <= row < GRID_SIDE,
        0 <= column < GRID_SIDE,
        VALUE_MIN <= value <= VALUE_MAX,
    ensures
        ({
            let cs = constraint_columns_of(row, column, value);
            &&& cs.len() == CONSTRAINTS_PER_ASSIGNMENT
            &&& CELL_CONSTRAINT_OFFSET <= cs[0] < ROW_VALUE_CONSTRAINT_OFFSET
            &&& ROW_VALUE_CONSTRAINT_OFFSET <= cs[1] < COLUMN_VALUE_CONSTRAINT_OFFSET
            &&& COLUMN_VALUE_CONSTRAINT_OFFSET <= cs[2] < BOX_VALUE_CONSTRAINT_OFFSET
            &&& BOX_VALUE_CONSTRAINT_OFFSET <= cs[3] < CONSTRAINT_COLUMN_COUNT
            &&& cs.no_duplicates()
            &&& forall|k: int| 0 <= k < cs.len() ==> #[trigger] cs[k] < CONSTRAINT_COLUMN_COUNT
        }),
{
    let b = box_of(row, column);
    assert(0 <= b < 9 && 0 <= row * 9 + column < 81) by (nonlinear_arith)
        requires
            0 <= row < 9,
            0 <= column < 9,
            b == (row / 3) * 3 + column / 3,
    ;
    assert(0 <= row * 9 + value - 1 < 81 && 0 <= column * 9 + value - 1 < 81 && 0 <= b * 9 + value - 1 < 81)
        by (nonlinear_arith)
        requires
            0 <= row < 9,
            0 <= column < 9,
            0 <= b < 9,
            1 <= value <= 9,
    ;
}

/// The four columns of a placement mean what they are named for: the cell, the value in
/// the row, the value in the column and the value in the box.
pub proof fn lemma_constraint_descriptors(row: int, column: int, value: int)
    requires
        0 <= row < GRID_SIDE,
        0 <= column < GRID_SIDE,
        VALUE_MIN <= value <= VALUE_MAX,
    ensures
        ({
            let cs = constraint_columns_of(row, column, value);
            &&& descriptor_of(cs[0] as int) == ConstraintColumn::Cell { row: row as usize, column: column as usize }
            &&& descriptor_of(cs[1] as int) == ConstraintColumn::RowValue { row: row as usize, value: value as u8 }
            &&& descriptor_of(cs[2] as int) == ConstraintColumn::ColumnValue {
                column: column as usize,
                value: value as u8,
            }
            &&& descriptor_of(cs[3] as int) == ConstraintColumn::BoxValue {
                box_index: box_of(row, column) as usize,
                value: value as u8,
            }
        }),
{
    lemma_constraint_columns(row, column, value);
    let b = box_of(row, column);
    assert(0 <= b < 9) by (nonlinear_arith)
        requires
            0 <= row < 9,
            0 <= column < 9,
            b == (row / 3) * 3 + column / 3,
    ;
    let c0 = row * 9 + column;
    assert(c0 / 81 == 0 && c0 % 81 == c0 && c0 / 9 == row && c0 % 9 == column) by (nonlinear_arith)
        requires
            0 <= row < 9,
            0 <= column < 9,
            c0 == row * 9 + column,
    ;
    let c1 = 81 + row * 9 + (value - 1);
    assert(c1 / 81 == 1 && c1 % 81 == row * 9 + (value - 1) && (row * 9 + (value - 1)) / 9 == row && (row * 9
        + (value - 1)) % 9 == value - 1) by (nonlinear_arith)
        requires
            0 <= row < 9,
            1 <= value <= 9,
            c1 == 81 + row * 9 + (value - 1),
    ;
    let c2 = 162 + column * 9 + (value - 1);
    assert(c2 / 81 == 2 && c2 % 81 == column * 9 + (value - 1) && (column * 9 + (value - 1)) / 9 == column
        && (column * 9 + (value - 1)) % 9 == value - 1) by (nonlinear_arith)
        requires
            0 <= column < 9,
            1 <= value <= 9,
            c2 == 162 + column * 9 + (value - 1),
    ;
    let c3 = 243 + b * 9 + (value - 1);
    assert(c3 / 81 == 3 && c3 % 81 == b * 9 + (value - 1) && (b * 9 + (value - 1)) / 9 == b && (b * 9 + (
    value - 1)) % 9 == value - 1) by (nonlinear_arith)
        requires
            0 <= b < 9,
            1 <= value <= 9,
            c3 == 243 + b * 9 + (value - 1),
    ;
}

/// The column at position `slot` of a family belongs to that family, at that position.
pub proof fn lemma_family_slot(family: ConstraintFamily, slot: int)
    requires
        0 <= slot < CONSTRAINT_COLUMNS_PER_FAMILY,
    ensures
        ({
            let d = descriptor_of(family_offset(family) + slot);
            match family {
                ConstraintFamily::Cell => d == ConstraintColumn::Cell {
                    row: (slot / 9) as usize,
                    column: (slot % 9) as usize,
                },
                ConstraintFamily::RowValue => d == ConstraintColumn::RowValue {
                    row: (slot / 9) as usize,
                    value: (slot % 9 + 1) as u8,
                },
                ConstraintFamily::ColumnValue => d == ConstraintColumn::ColumnValue {
                    column: (slot / 9) as usize,
                    value: (slot % 9 + 1) as u8,
                },
                ConstraintFamily::BoxValue => d == ConstraintColumn::BoxValue {
                    box_index: (slot / 9) as usize,
                    value: (slot % 9 + 1) as u8,
                },
            }
        }),
{
    let f = match family {
        ConstraintFamily::Cell => 0int,
        ConstraintFamily::RowValue => 1int,
        ConstraintFamily::ColumnValue => 2int,
        ConstraintFamily::BoxValue => 3int,
    };
    assert(family_offset(family) == f * 81);
    assert((f * 81 + slot) / 81 == f && (f * 81 + slot) % 81 == slot) by (nonlinear_arith)
        requires
            0 <= f < 4,
            0 <= slot < 81,
    ;
}

/// The placements whose matrix rows hold constraint column `j`.
pub open spec fn placements_holding(j: usize) -> Set<int> {
    Set::new(|x: int| 0 <= x < ASSIGNMENT_ROW_COUNT && sudoku_rows()[x].contains(j))
}

/// The `t`-th placement, for `t` in `0..9`, that satisfies constraint column `j`, as
/// (row, column, value): the nine values of a cell, or the nine places of a value in a
/// row, a column or a box.
pub open spec fn holder_placement(j: int, t: int) -> (int, int, int) {
    let f = j / 81;
    let a = (j % 81) / 9;
    let b = (j % 81) % 9;
    if f == 0 {
        (a, b, t + 1)
    } else if f == 1 {
        (a, t, b + 1)
    } else if f == 2 {
        (t, a, b + 1)
    } else {
        ((a / 3) * 3 + t / 3, (a % 3) * 3 + t % 3, b + 1)
    }
}

/// The matrix row of the `t`-th placement satisfying constraint column `j`.
pub open spec fn holder_row(j: int, t: int) -> int {
    let (r, c, v) = holder_placement(j, t);
    row_index_of(r, c, v)
}

/// The `t`-th placement satisfying a column is a placement on the grid, and its row holds
/// the column.
proof fn lemma_holder(j: int, t: int)
    requires
        0 <= j < CONSTRAINT_COLUMN_COUNT,
        0 <= t < 9,
    ensures
        ({
            let (r, c, v) = holder_placement(j, t);
            &&& 0 <= r < 9
            &&& 0 <= c < 9
            &&& 1 <= v <= 9
            &&& constraint_columns_of(r, c, v)[j / 81] == j
            &&& sudoku_rows()[holder_row(j, t)].contains(j as usize)
            &&& 0 <= holder_row(j, t) < ASSIGNMENT_ROW_COUNT
        }),
{
    let f = j / 81;
    let a = (j % 81) / 9;
    let b = (j % 81) % 9;
    assert(0 <= f < 4 && 0 <= a < 9 && 0 <= b < 9 && j == f * 81 + a * 9 + b) by (nonlinear_arith)
        requires
            0 <= j < 324,
            f == j / 81,
            a == (j % 81) / 9,
            b == (j % 81) % 9,
    ;
    let (r, c, v) = holder_placement(j, t);
    if f == 3 {
        assert(0 <= r < 9 && 0 <= c < 9 && (r / 3) * 3 + c / 3 == a) by (nonlinear_arith)
            requires
                0 <= a < 9,
                0 <= t < 9,
                r == (a / 3) * 3 + t / 3,
                c == (a % 3) * 3 + t % 3,
        ;
    }
    lemma_placement_index(r, c, v);
    lemma_constraint_columns(r, c, v);
    let cs = constraint_columns_of(r, c, v);
    assert(cs[f] as int == j);
    assert(sudoku_rows()[holder_row(j, t)] == cs);
    assert(cs[f] == j as usize);
}

/// Different positions give different placements.
proof fn lemma_holder_unique(j: int, t1: int, t2: int)
    requires
        0 <= j < CONSTRAINT_COLUMN_COUNT,
        0 <= t1 < 9,
        0 <= t2 < 9,
        holder_row(j, t1) == holder_row(j, t2),
    ensures
        t1 == t2,
{
    lemma_holder(j, t1);
    lemma_holder(j, t2);
    let (r1, c1, v1) = holder_placement(j, t1);
    let (r2, c2, v2) = holder_placement(j, t2);
    lemma_placement_index(r1, c1, v1);
    lemma_placement_index(r2, c2, v2);
    assert(r1 == r2 && c1 == c2 && v1 == v2);
    if j / 81 == 3 {
        let a = (j % 81) / 9;
        assert(t1 == t2) by (nonlinear_arith)
            requires
                0 <= t1 < 9,
                0 <= t2 < 9,
                (a / 3) * 3 + t1 / 3 == (a / 3) * 3 + t2 / 3,
                (a % 3) * 3 + t1 % 3 == (a % 3) * 3 + t2 % 3,
        ;
    }
}

/// Every placement whose row holds column `j` is one of its nine.
proof fn lemma_holder_of(j: int, x: int) -> (t: int)
    requires
        0 <= j < CONSTRAINT_COLUMN_COUNT,
        0 <= x < ASSIGNMENT_ROW_COUNT,
        sudoku_rows()[x].contains(j as usize),
    ensures
        0 <= t < 9,
        holder_row(j, t) == x,
{
    lemma_index_parts(x);
    let r = row_of_index(x);
    let c = column_of_index(x);
    let v = value_of_index(x);
    lemma_placement_index(r, c, v);
    lemma_constraint_columns(r, c, v);
    let cs = constraint_columns_of(r, c, v);
    let k = choose|k: int| 0 <= k < cs.len() && cs[k] == j as usize;
    let f = j / 81;
    let bx = box_of(r, c);
    assert(0 <= bx < 9 && bx == (r / 3) * 3 + c / 3) by (nonlinear_arith)
        requires
            0 <= r < 9,
            0 <= c < 9,
            bx == (r / 3) * 3 + c / 3,
    ;
    assert(k == f) by (nonlinear_arith)
        requires
            0 <= k < 4,
            k * 81 <= j < k * 81 + 81,
            f == j / 81,
    ;
    let t = if f == 0 {
        v - 1
    } else if f == 1 {
        c
    } else if f == 2 {
        r
    } else {
        (r % 3) * 3 + c % 3
    };
    let a = (j % 81) / 9;
    let b = (j % 81) % 9;
    if f == 0 {
        assert(a == r && b == c) by (nonlinear_arith)
            requires
                j == r * 9 + c,
                0 <= r < 9,
                0 <= c < 9,
                a == (j % 81) / 9,
                b == (j % 81) % 9,
        ;
    } else if f == 1 {
        assert(a == r && b == v - 1) by (nonlinear_arith)
            requires
                j == 81 + r * 9 + (v - 1),
                0 <= r < 9,
                1 <= v <= 9,
                a == (j % 81) / 9,
                b == (j % 81) % 9,
        ;
    } else if f == 2 {
        assert(a == c && b == v - 1) by (nonlinear_arith)
            requires
                j == 162 + c * 9 + (v - 1),
                0 <= c < 9,
                1 <= v <= 9,
                a == (j % 81) / 9,
                b == (j % 81) % 9,
        ;
    } else {
        assert(a == bx && b == v - 1) by (nonlinear_arith)
            requires
                j == 243 + bx * 9 + (v - 1),
                0 <= bx < 9,
                1 <= v <= 9,
                a == (j % 81) / 9,
                b == (j % 81) % 9,
        ;
        assert(0 <= t < 9 && (a / 3) * 3 + t / 3 == r && (a % 3) * 3 + t % 3 == c) by (nonlinear_arith)
            requires
                0 <= r < 9,
                0 <= c < 9,
                a == (r / 3) * 3 + c / 3,
                t == (r % 3) * 3 + c % 3,
        ;
    }
    assert(holder_placement(j, t) == (r, c, v));
    t
}

/// Each constraint column is held by exactly nine placements: a cell takes one of nine
/// values, and a value takes one of nine places in a row, a column or a box.
pub proof fn lemma_column_holders(j: usize)
    requires
        j < CONSTRAINT_COLUMN_COUNT,
    ensures
        placements_holding(j).finite(),
        placements_holding(j).len() == GRID_SIDE,
{
    let g = |t: int| holder_row(j as int, t);
    let r = vstd::set_lib::set_int_range(0, 9);
    vstd::set_lib::lemma_int_range(0, 9);
    assert forall|t1: int, t2: int| r.contains(t1) && r.contains(t2) && #[trigger] g(t1) == #[trigger] g(t2) implies t1
        == t2 by {
        lemma_holder_unique(j as int, t1, t2);
    }
    assert(vstd::relations::injective_on(g, r));
    assert forall|x: int| #[trigger] r.map(g).contains(x) <==> placements_holding(j).contains(x) by {
        if r.map(g).contains(x) {
            let t = choose|t: int| r.contains(t) && g(t) == x;
            lemma_holder(j as int, t);
        }
        if placements_holding(j).contains(x) {
            let t = lemma_holder_of(j as int, x);
            assert(r.contains(t) && g(t) == x);
        }
    }
    assert(r.map(g) =~= placements_holding(j));
    vstd::set_lib::lemma_map_size(r, placements_holding(j), g);
}

/// Each row of the Sudoku matrix holds four distinct columns, all below the column count.
pub proof fn lemma_sudoku_row(i: int)
    requires
        0 <= i < ASSIGNMENT_ROW_COUNT,
    ensures
        sudoku_rows()[i].len() == CONSTRAINTS_PER_ASSIGNMENT,
        sudoku_rows()[i].no_duplicates(),
        forall|k: int| 0 <= k < sudoku_rows()[i].len() ==> #[trigger] sudoku_rows()[i][k]
            < CONSTRAINT_COLUMN_COUNT,
{
    lemma_index_parts(i);
    lemma_constraint_columns(row_of_index(i), column_of_index(i), value_of_index(i));
}

/// The exact covers of the whole matrix that hold every row of `p`: the filled grids that
/// agree with the placements `p`.
pub open spec fn completions(p: Set<int>) -> Set<Set<int>> {
    covers_containing(sudoku_rows(), all_columns(CONSTRAINT_COLUMN_COUNT as int), p)
}

/// Two different rows of `p` hold a common constraint column: the placements contradict
/// each other.
pub open spec fn placements_conflict(p: Set<int>) -> bool {
    !pairwise_disjoint(sudoku_rows(), p)
}

/// The matrix rows of a list of assignments.
pub open spec fn rows_of(assignments: Seq<Assignment>) -> Set<int> {
    assignments.map_values(|a: Assignment| a.row_index()).to_set()
}

/// The matrix row of an optional extra assignment, if any.
pub open spec fn extra_rows(extra: Option<Assignment>) -> Set<int> {
    match extra {
        Some(a) => set![a.row_index()],
        None => Set::empty(),
    }
}

/// Placements that contradict each other have no completion.
pub proof fn lemma_conflict_no_completion(p: Set<int>)
    requires
        placements_conflict(p),
    ensures
        completions(p) == Set::<Set<int>>::empty(),
        completions(p).len() == 0,
{
    let (r1, r2, j) = choose|r1: int, r2: int, j: usize|
        p.contains(r1) && p.contains(r2) && r1 != r2 && sudoku_rows()[r1].contains(j)
            && sudoku_rows()[r2].contains(j);
    lemma_covers_containing_conflict(
        sudoku_rows(),
        all_columns(CONSTRAINT_COLUMN_COUNT as int),
        p,
        r1,
        r2,
        j,
    );
}

/// Forcing one more row `x`, none of whose columns is covered yet, covers its columns as
/// well and keeps the forced rows free of common columns.
proof fn lemma_add_row(p: Set<int>, x: int, cov: Seq<bool>, cov2: Seq<bool>)
    requires
        0 <= x < ASSIGNMENT_ROW_COUNT,
        cov.len() == CONSTRAINT_COLUMN_COUNT,
        forall|j: int|
            0 <= j < CONSTRAINT_COLUMN_COUNT ==> #[trigger] cov[j] == columns_of_rows(
                sudoku_rows(),
                p,
            ).contains(j as usize),
        pairwise_disjoint(sudoku_rows(), p),
        forall|k: int| 0 <= k < 4 ==> !cov[#[trigger] sudoku_rows()[x][k] as int],
        cov2 == cov.update(sudoku_rows()[x][0] as int, true).update(sudoku_rows()[x][1] as int, true).update(
            sudoku_rows()[x][2] as int,
            true,
        ).update(sudoku_rows()[x][3] as int, true),
    ensures
        forall|j: int|
            0 <= j < CONSTRAINT_COLUMN_COUNT ==> #[trigger] cov2[j] == columns_of_rows(
                sudoku_rows(),
                p.insert(x),
            ).contains(j as usize),
        pairwise_disjoint(sudoku_rows(), p.insert(x)),
{
    let rows = sudoku_rows();
    let p2 = p.insert(x);
    let cs = rows[x];
    lemma_sudoku_row(x);
    assert forall|j: int| 0 <= j < CONSTRAINT_COLUMN_COUNT implies #[trigger] cov2[j]
        == columns_of_rows(rows, p2).contains(j as usize) by {
        let ju = j as usize;
        if ju == cs[0] || ju == cs[1] || ju == cs[2] || ju == cs[3] {
            assert(rows[x].contains(ju));
            assert(p2.contains(x));
        } else {
            assert(!rows[x].contains(ju));
            assert(cov2[j] == cov[j]);
            if columns_of_rows(rows, p2).contains(ju) {
                let r = choose|r: int| #[trigger] p2.contains(r) && rows[r].contains(ju);
                assert(p.contains(r));
            }
            if columns_of_rows(rows, p).contains(ju) {
                let r = choose|r: int| #[trigger] p.contains(r) && rows[r].contains(ju);
                assert(p2.contains(r));
            }
        }
    }
    assert forall|r1: int, r2: int, j: usize|
        #[trigger] p2.contains(r1) && #[trigger] p2.contains(r2) && r1 != r2 implies !(
        #[trigger] rows[r1].contains(j) && rows[r2].contains(j)) by {
        if rows[r1].contains(j) && rows[r2].contains(j) && (r1 == x || r2 == x) {
            let k = choose|k: int| 0 <= k < cs.len() && cs[k] == j;
            assert(!cov[cs[k] as int]);
            if r1 == x {
                assert(p.contains(r2));
            } else {
                assert(p.contains(r1));
            }
            assert(columns_of_rows(rows, p).contains(j));
        }
    }
}

/// More placements leave fewer completions.
pub proof fn lemma_completions_shrink(p: Set<int>, q: Set<int>)
    requires
        p.subset_of(q),
    ensures
        completions(q).subset_of(completions(p)),
{
}

/// Only the nine placements in a cell hold that cell's constraint column.
pub proof fn lemma_cell_column_rows(x: int, row: int, column: int)
    requires
        0 <= x < ASSIGNMENT_ROW_COUNT,
        0 <= row < GRID_SIDE,
        0 <= column < GRID_SIDE,
        sudoku_rows()[x].contains(cell_column_of(row, column) as usize),
    ensures
        x == row_index_of(row, column, value_of_index(x)),
        VALUE_MIN <= value_of_index(x) <= VALUE_MAX,
{
    lemma_index_parts(x);
    let r = row_of_index(x);
    let c = column_of_index(x);
    let v = value_of_index(x);
    lemma_constraint_columns(r, c, v);
    let cs = sudoku_rows()[x];
    let k = choose|k: int| 0 <= k < cs.len() && cs[k] == cell_column_of(row, column) as usize;
    assert(0 <= row * 9 + column < 81) by (nonlinear_arith)
        requires
            0 <= row < 9,
            0 <= column < 9,
    ;
    assert(k == 0);
    assert(r * 9 + c == row * 9 + column);
    assert(r == row && c == column) by (nonlinear_arith)
        requires
            r * 9 + c == row * 9 + column,
            0 <= r < 9,
            0 <= c < 9,
            0 <= row < 9,
            0 <= column < 9,
    ;
}

/// When the placements `p` have a completion, every cell has a candidate: the value that
/// completion puts there.
pub proof fn lemma_cell_has_candidate(p: Set<int>, s: Set<int>, row: int, column: int)
    requires
        completions(p).contains(s),
        0 <= row < GRID_SIDE,
        0 <= column < GRID_SIDE,
    ensures
        exists|v: int| VALUE_MIN <= v <= VALUE_MAX && #[trigger] candidate(p, row, column, v),
{
    let j = cell_column_of(row, column) as usize;
    assert(0 <= row * 9 + column < 81) by (nonlinear_arith)
        requires
            0 <= row < 9,
            0 <= column < 9,
    ;
    assert(all_columns(CONSTRAINT_COLUMN_COUNT as int).contains(j));
    let x = choose|x: int| #[trigger] s.contains(x) && sudoku_rows()[x].contains(j);
    lemma_cell_column_rows(x, row, column);
    let v = value_of_index(x);
    let q = p.insert(row_index_of(row, column, v));
    assert(completions(q).contains(s));
    crate::exact_cover::covers::lemma_covers_finite(sudoku_rows(), all_columns(CONSTRAINT_COLUMN_COUNT as int));
    assert(completions(q).subset_of(covers(sudoku_rows(), all_columns(CONSTRAINT_COLUMN_COUNT as int))));
    vstd::set_lib::lemma_set_subset_finite(covers(sudoku_rows(), all_columns(CONSTRAINT_COLUMN_COUNT as int)), completions(q));
    assert(completions(q).remove(s).len() + 1 == completions(q).len());
    assert(candidate(p, row, column, v));
}

/// There are finitely many completions.
pub proof fn lemma_completions_finite(p: Set<int>)
    ensures
        completions(p).finite(),
{
    let all = covers(sudoku_rows(), all_columns(CONSTRAINT_COLUMN_COUNT as int));
    crate::exact_cover::covers::lemma_covers_finite(sudoku_rows(), all_columns(CONSTRAINT_COLUMN_COUNT as int));
    vstd::set_lib::lemma_set_subset_finite(all, completions(p));
}

/// Without a completion, no value is a candidate anywhere.
pub proof fn lemma_no_completion_no_candidate(p: Set<int>, row: int, column: int, value: int)
    requires
        completions(p).len() == 0,
    ensures
        !candidate(p, row, column, value),
{
    let q = p.insert(row_index_of(row, column, value));
    lemma_completions_finite(p);
    lemma_completions_finite(q);
    lemma_completions_shrink(p, q);
    vstd::set_lib::lemma_len_subset(completions(q), completions(p));
}

/// A candidate anywhere means a completion.
pub proof fn lemma_candidate_completion(p: Set<int>, row: int, column: int, value: int)
    requires
        candidate(p, row, column, value),
    ensures
        completions(p).len() > 0,
{
    if completions(p).len() == 0 {
        lemma_no_completion_no_candidate(p, row, column, value);
    }
}

/// A completion exists exactly when some completion can be named.
pub proof fn lemma_completion_witness(p: Set<int>)
    requires
        completions(p).len() > 0,
    ensures
        completions(p).contains(completions(p).choose()),
{
    lemma_completions_finite(p);
    if completions(p) =~= Set::<Set<int>>::empty() {
        assert(completions(p).len() == 0);
    }
}

/// Some clue row of `p` fills the cell of the matrix row `x`.
pub open spec fn cell_taken(p: Set<int>, x: int) -> bool {
    exists|y: int| #[trigger] p.contains(y) && y / 9 == x / 9
}

/// The number of cells that the clue rows `xs[k..]` fill when applied in order after the
/// rows `p`, up to the first one that contradicts a row before it; that one counts too
/// when its cell was still empty, so that its value clashes in a row, a column or a box.
pub open spec fn count_from(xs: Seq<int>, k: int, p: Set<int>) -> nat
    decreases xs.len() - k,
{
    if k >= xs.len() || k < 0 {
        p.len()
    } else if placements_conflict(p.insert(xs[k])) {
        p.len() + if cell_taken(p, xs[k]) {
            0nat
        } else {
            1nat
        }
    } else {
        count_from(xs, k + 1, p.insert(xs[k]))
    }
}

/// The number of cells that the clue rows `xs`, applied in order, fill before the first
/// contradiction, as `count_from` counts them.
pub open spec fn assigned_count(xs: Seq<int>) -> nat {
    count_from(xs, 0, Set::empty())
}

/// What applying the row `x` after the rows `q` does to the count: the count of `q`, and
/// one more for a row that adds a cell without contradiction or whose empty cell clashes.
pub open spec fn count_step(q: Set<int>, x: int) -> nat {
    if placements_conflict(q.insert(x)) {
        q.len() + if cell_taken(q, x) {
            0nat
        } else {
            1nat
        }
    } else {
        q.insert(x).len()
    }
}

/// Placements that contradict each other still do with more placements.
proof fn lemma_conflict_grows(a: Set<int>, b: Set<int>)
    requires
        placements_conflict(a),
        a.subset_of(b),
    ensures
        placements_conflict(b),
{
    let (r1, r2, j) = choose|r1: int, r2: int, j: usize|
        a.contains(r1) && a.contains(r2) && r1 != r2 && sudoku_rows()[r1].contains(j) && sudoku_rows()[r2].contains(j);
    assert(b.contains(r1) && b.contains(r2));
}

/// Two different matrix rows `r` and `x` hold a common constraint column.
pub open spec fn rows_clash(r: int, x: int) -> bool {
    r != x && exists|j: usize| #[trigger] sudoku_rows()[r].contains(j) && sudoku_rows()[x].contains(j)
}

/// Placements that agree contradict each other once the row `x` joins them exactly when
/// `x` clashes with one of them.
pub proof fn lemma_conflict_insert(p: Set<int>, x: int)
    requires
        !placements_conflict(p),
    ensures
        placements_conflict(p.insert(x)) <==> exists|r: int| #[trigger] p.contains(r) && rows_clash(r, x),
{
    let q = p.insert(x);
    if placements_conflict(q) {
        let (r1, r2, j) = choose|r1: int, r2: int, j: usize|
            q.contains(r1) && q.contains(r2) && r1 != r2 && sudoku_rows()[r1].contains(j) && sudoku_rows()[r2].contains(j);
        if r1 == x {
            assert(p.contains(r2) && rows_clash(r2, x));
        } else if r2 == x {
            assert(p.contains(r1) && rows_clash(r1, x));
        } else {
            assert(p.contains(r1) && p.contains(r2));
        }
    }
    if exists|r: int| #[trigger] p.contains(r) && rows_clash(r, x) {
        let r = choose|r: int| #[trigger] p.contains(r) && rows_clash(r, x);
        let j = choose|j: usize| #[trigger] sudoku_rows()[r].contains(j) && sudoku_rows()[x].contains(j);
        assert(q.contains(r) && q.contains(x));
    }
}

/// Applying one more row counts as `count_step` after rows that agree, and changes
/// nothing after rows that contradict each other.
proof fn lemma_count_push(xs: Seq<int>, x: int, k: int, p0: Set<int>)
    requires
        0 <= k <= xs.len(),
        p0.finite(),
        !placements_conflict(p0),
    ensures
        ({
            let q = p0 + xs.subrange(k, xs.len() as int).to_set();
            &&& !placements_conflict(q) ==> count_from(xs, k, p0) == q.len() && count_from(xs.push(x), k, p0)
                == count_step(q, x)
            &&& placements_conflict(q) ==> count_from(xs.push(x), k, p0) == count_from(xs, k, p0)
        }),
    decreases xs.len() - k,
{
    let q = p0 + xs.subrange(k, xs.len() as int).to_set();
    let ys = xs.push(x);
    if k == xs.len() {
        assert(xs.subrange(k, xs.len() as int).to_set() =~= Set::<int>::empty());
        assert(q =~= p0);
        assert(ys[k] == x);
        if !placements_conflict(p0.insert(x)) {
            assert(count_from(ys, k, p0) == count_from(ys, k + 1, p0.insert(x)));
        }
    } else {
        let y = xs[k];
        assert(ys[k] == y);
        let p1 = p0.insert(y);
        assert(q =~= p1 + xs.subrange(k + 1, xs.len() as int).to_set()) by {
            assert forall|z: int| q.contains(z) <==> (p1 + xs.subrange(k + 1, xs.len() as int).to_set()).contains(z) by {
                if xs.subrange(k, xs.len() as int).contains(z) {
                    let i = choose|i: int| 0 <= i < xs.len() - k && #[trigger] xs.subrange(k, xs.len() as int)[i] == z;
                    if i > 0 {
                        assert(xs.subrange(k + 1, xs.len() as int)[i - 1] == z);
                    }
                }
                if xs.subrange(k + 1, xs.len() as int).contains(z) {
                    let i = choose|i: int| 0 <= i < xs.len() - k - 1 && #[trigger] xs.subrange(k + 1, xs.len() as int)[i] == z;
                    assert(xs.subrange(k, xs.len() as int)[i + 1] == z);
                }
                if z == y {
                    assert(xs.subrange(k, xs.len() as int)[0] == y);
                }
            }
        }
        if placements_conflict(p1) {
            lemma_conflict_grows(p1, q);
        } else {
            lemma_count_push(xs, x, k + 1, p1);
        }
    }
}

/// Counts the completions of a set of clue placements.
pub struct ExactCoverAnalyzer {
    forced_rows: Vec<bool>,
    covered_columns: Vec<bool>,
    fixed_values: Vec<Option<u8>>,
    assigned_cells: usize,
    contradiction: bool,
    /// The matrix rows of all clues applied.
    clues: Ghost<Set<int>>,
    /// The matrix rows of all clues applied, in the order applied.
    order: Ghost<Seq<int>>,
}

impl ExactCoverAnalyzer {
    /// The matrix rows of the clues given.
    pub closed spec fn clue_rows(&self) -> Set<int> {
        self.clues@
    }

    /// The matrix rows of the clues given, in the order given.
    pub closed spec fn clue_list(&self) -> Seq<int> {
        self.order@
    }

    /// The state matches the clues: a contradiction is flagged exactly when two clues
    /// contradict each other, and the count of assigned cells is what the clues in their
    /// order assign; otherwise the forced rows are the clue rows, the covered columns are
    /// the columns they hold, each cell holds the value of its clue, and the count of
    /// assigned cells is the number of clues.
    pub closed spec fn wf(&self) -> bool {
        let p = self.clues@;
        &&& self.forced_rows@.len() == ASSIGNMENT_ROW_COUNT
        &&& self.covered_columns@.len() == CONSTRAINT_COLUMN_COUNT
        &&& self.fixed_values@.len() == CELL_COUNT
        &&& forall|i: int| #[trigger] p.contains(i) ==> 0 <= i < ASSIGNMENT_ROW_COUNT
        &&& p.finite()
        &&& self.contradiction == placements_conflict(p)
        &&& self.order@.to_set() == p
        &&& self.assigned_cells == assigned_count(self.order@)
        &&& self.assigned_cells <= p.len() + 1
        &&& p.len() <= ASSIGNMENT_ROW_COUNT
        &&& !self.contradiction ==> {
            &&& forall|i: int|
                0 <= i < ASSIGNMENT_ROW_COUNT ==> #[trigger] self.forced_rows@[i] == p.contains(i)
            &&& forall|j: int|
                0 <= j < CONSTRAINT_COLUMN_COUNT ==> #[trigger] self.covered_columns@[j]
                    == columns_of_rows(sudoku_rows(), p).contains(j as usize)
            &&& forall|cell: int, v: int|
                0 <= cell < CELL_COUNT && VALUE_MIN <= v <= VALUE_MAX && #[trigger] p.contains(
                    cell * 9 + v - 1,
                ) ==> self.fixed_values@[cell] == Some(v as u8)
            &&& forall|cell: int|
                0 <= cell < CELL_COUNT && #[trigger] self.fixed_values@[cell] is Some ==> {
                    let v = self.fixed_values@[cell]->0;
                    VALUE_MIN <= v <= VALUE_MAX && p.contains(cell * 9 + v - 1)
                }
            &&& self.assigned_cells == p.len()
        }
    }

    /// Whether the analyzer has flagged a contradiction among its clues.
    pub closed spec fn contradicted(&self) -> bool {
        self.contradiction
    }

    /// Whether a clue forces the matrix row `i`.
    pub closed spec fn row_forced(&self, i: int) -> bool {
        self.forced_rows@[i]
    }

    /// Whether a forced row covers the constraint column `j`.
    pub closed spec fn column_covered(&self, j: int) -> bool {
        self.covered_columns@[j]
    }

    /// The value a clue fixes in the cell `cell` (numbered row by row), if any.
    pub closed spec fn fixed_value(&self, cell: int) -> Option<u8> {
        self.fixed_values@[cell]
    }

    /// The count of assigned cells the analyzer keeps.
    pub closed spec fn assigned(&self) -> int {
        self.assigned_cells as int
    }

    /// The state of an analyzer is a function of the clues it was given: a contradiction is
    /// flagged exactly when two clues hold a common constraint column, and the count of
    /// assigned cells follows the clues in their order. Without a contradiction, the forced
    /// rows are the clue rows, the covered columns are the columns they hold, each cell
    /// holds the value of its clue and no other, and the count is the number of clues.
    pub proof fn lemma_state_of_clues(a: &Self)
        requires
            a.wf(),
        ensures
            a.clue_list().to_set() == a.clue_rows(),
            a.contradicted() == placements_conflict(a.clue_rows()),
            a.assigned() == assigned_count(a.clue_list()),
            !a.contradicted() ==> {
                &&& forall|i: int|
                    0 <= i < ASSIGNMENT_ROW_COUNT ==> (#[trigger] a.row_forced(i) <==> a.clue_rows().contains(i))
                &&& forall|j: int|
                    0 <= j < CONSTRAINT_COLUMN_COUNT ==> (#[trigger] a.column_covered(j) <==> columns_of_rows(
                        sudoku_rows(),
                        a.clue_rows(),
                    ).contains(j as usize))
                &&& forall|cell: int, v: int|
                    0 <= cell < CELL_COUNT && VALUE_MIN <= v <= VALUE_MAX && #[trigger] a.clue_rows().contains(
                        cell * 9 + v - 1,
                    ) ==> a.fixed_value(cell) == Some(v as u8)
                &&& forall|cell: int|
                    0 <= cell < CELL_COUNT && #[trigger] a.fixed_value(cell) is Some ==> {
                        let v = a.fixed_value(cell)->0;
                        VALUE_MIN <= v <= VALUE_MAX && a.clue_rows().contains(cell * 9 + v - 1)
                    }
                &&& a.assigned() == a.clue_rows().len()
            },
    {
    }

    /// One more clue, as `apply_clue` adds it: once flagged, a contradiction stays flagged;
    /// otherwise it is flagged exactly when the new clue's row holds a constraint column in
    /// common with a forced row other than itself. Without it, the new row is forced, its
    /// columns are covered, its cell holds its value, and the count of assigned cells grows
    /// by one unless the row was forced already.
    pub proof fn lemma_clue_step(before: &Self, after: &Self, x: int)
        requires
            before.wf(),
            after.wf(),
            0 <= x < ASSIGNMENT_ROW_COUNT,
            after.clue_rows() == before.clue_rows().insert(x),
            after.clue_list() == before.clue_list().push(x),
        ensures
            before.contradicted() ==> after.contradicted(),
            !before.contradicted() ==> (after.contradicted() <==> exists|r: int|
                #[trigger] before.row_forced(r) && 0 <= r < ASSIGNMENT_ROW_COUNT && rows_clash(r, x)),
            !after.contradicted() ==> {
                &&& after.row_forced(x)
                &&& forall|j: usize| #[trigger] sudoku_rows()[x].contains(j) ==> after.column_covered(j as int)
                &&& after.fixed_value(x / 9) == Some((x % 9 + 1) as u8)
                &&& after.assigned() == before.assigned() + if before.row_forced(x) { 0int } else { 1int }
            },
    {
        let p = before.clues@;
        if before.contradiction {
            lemma_conflict_grows(p, p.insert(x));
        } else {
            lemma_conflict_insert(p, x);
            if exists|r: int| #[trigger] p.contains(r) && rows_clash(r, x) {
                let r = choose|r: int| #[trigger] p.contains(r) && rows_clash(r, x);
                assert(before.row_forced(r));
            }
            if exists|r: int| #[trigger] before.row_forced(r) && 0 <= r < ASSIGNMENT_ROW_COUNT && rows_clash(r, x) {
                let r = choose|r: int| #[trigger] before.row_forced(r) && 0 <= r < ASSIGNMENT_ROW_COUNT && rows_clash(r, x);
                assert(p.contains(r));
            }
        }
        if !after.contradiction {
            let q = after.clues@;
            assert(q.contains(x));
            assert forall|j: usize| #[trigger] sudoku_rows()[x].contains(j) implies after.column_covered(j as int) by {
                lemma_sudoku_row(x);
                let k = choose|k: int| 0 <= k < sudoku_rows()[x].len() && sudoku_rows()[x][k] == j;
                assert(columns_of_rows(sudoku_rows(), q).contains(j));
            }
            let cell = x / 9;
            let v = x % 9 + 1;
            assert(0 <= cell < CELL_COUNT && VALUE_MIN <= v <= VALUE_MAX && x == cell * 9 + v - 1);
            assert(q.contains(cell * 9 + v - 1));
            if p.contains(x) {
                assert(q =~= p);
            } else {
                assert(q.len() == p.len() + 1);
            }
        }
    }

    /// The analyzer of no clues.
    fn empty() -> (a: Self)
        ensures
            a.wf(),
            a.clue_rows() == Set::<int>::empty(),
            a.clue_list() == Seq::<int>::empty(),
    {
        let a = ExactCoverAnalyzer {
            forced_rows: vec![false; ASSIGNMENT_ROW_COUNT],
            covered_columns: vec![false; CONSTRAINT_COLUMN_COUNT],
            fixed_values: vec![None; CELL_COUNT],
            assigned_cells: 0,
            contradiction: false,
            clues: Ghost(Set::empty()),
            order: Ghost(Seq::empty()),
        };
        proof {
            assert(columns_of_rows(sudoku_rows(), Set::<int>::empty()) =~= Set::<usize>::empty());
            assert(pairwise_disjoint(sudoku_rows(), Set::<int>::empty()));
            assert(Seq::<int>::empty().to_set() =~= Set::<int>::empty());
        }
        a
    }

    /// The analyzer of the clues `clues`, applied in order.
    pub fn new(clues: &[Assignment]) -> (a: Self)
        ensures
            a.wf(),
            a.clue_rows() == rows_of(clues@),
            a.clue_list() == clues@.map_values(|c: Assignment| c.row_index()),
    {
        let mut analyzer = Self::empty();
        let mut k: usize = 0;
        while k < clues.len()
            invariant
                k <= clues@.len(),
                analyzer.wf(),
                analyzer.clue_rows() == rows_of(clues@.take(k as int)),
                analyzer.clue_list() == clues@.take(k as int).map_values(|c: Assignment| c.row_index()),
            decreases clues@.len() - k,
        {
            let clue = clues[k];
            analyzer.apply_clue(clue);
            proof {
                let f = |a: Assignment| a.row_index();
                let t = clues@.take(k as int);
                let t2 = clues@.take(k + 1);
                assert(t2 =~= t.push(clue));
                assert(t2.map_values(f) =~= t.map_values(f).push(clue.row_index()));
                t.map_values(f).lemma_push_to_set_commute(clue.row_index());
                assert(clues@.take(k + 1).map_values(|c: Assignment| c.row_index()) =~= clues@.take(k as int).map_values(
                    |c: Assignment| c.row_index(),
                ).push(clue.row_index()));
            }
            k = k + 1;
        }
        proof {
            assert(clues@.take(clues@.len() as int) =~= clues@);
        }
        analyzer
    }

    /// Whether two clues contradict each other.
    pub fn has_contradiction(&self) -> (r: bool)
        requires
            self.wf(),
        ensures
            r == placements_conflict(self.clue_rows()),
    {
        self.contradiction
    }

    /// Adds the clue `clue`; a clue that contradicts an earlier one flags the contradiction,
    /// after which nothing more changes but the list of clues given.
    #[verifier::spinoff_prover]
    #[verifier::rlimit(60)]
    fn apply_clue(&mut self, clue: Assignment)
        requires
            old(self).wf(),
        ensures
            final(self).wf(),
            final(self).clue_rows() == old(self).clue_rows().insert(clue.row_index()),
            final(self).clue_list() == old(self).clue_list().push(clue.row_index()),
    {
        proof {
            use_type_invariant(&clue);
        }
        let ghost p = self.clues@;
        let ghost x = clue.row_index();
        let ghost p2 = p.insert(x);
        let ghost xs = self.order@;
        let ghost xs2 = xs.push(x);
        proof {
            xs.lemma_push_to_set_commute(x);
            assert(xs.subrange(0, xs.len() as int) =~= xs);
            assert(Set::<int>::empty() + xs.to_set() =~= p);
            lemma_count_push(xs, x, 0, Set::empty());
            self.order = Ghost(xs2);
            lemma_placement_index(clue.row as int, clue.column as int, clue.value as int);
            lemma_constraint_columns(clue.row as int, clue.column as int, clue.value as int);
            assert(p2.finite());
            vstd::set_lib::lemma_int_range(0, ASSIGNMENT_ROW_COUNT as int);
            assert(p2.subset_of(vstd::set_lib::set_int_range(0, ASSIGNMENT_ROW_COUNT as int)));
            vstd::set_lib::lemma_len_subset(p2, vstd::set_lib::set_int_range(0, ASSIGNMENT_ROW_COUNT as int));
        }
        if self.contradiction {
            proof {
                let (r1, r2, j) = choose|r1: int, r2: int, j: usize|
                    p.contains(r1) && p.contains(r2) && r1 != r2 && sudoku_rows()[r1].contains(j)
                        && sudoku_rows()[r2].contains(j);
                assert(p2.contains(r1) && p2.contains(r2));
                self.clues = Ghost(p2);
                assert(xs2.to_set() == p2);
            }
            return;
        }
        let row_index = assignment_to_row_index(clue);
        if self.forced_rows[row_index] {
            proof {
                assert(p2 =~= p);
                self.clues = Ghost(p2);
                assert(xs2.to_set() == p2);
            }
            return;
        }
        let cell = clue.row * GRID_SIDE + clue.column;
        proof {
            assert(x == cell * 9 + clue.value - 1);
            assert(!p.contains(x));
            assert(p2.len() == p.len() + 1);
        }
        match self.fixed_values[cell] {
            Some(existing) => {
                if existing != clue.value {
                    self.contradiction = true;
                    proof {
                        let y = cell * 9 + existing - 1;
                        assert(p.contains(y));
                        lemma_placement_index(clue.row as int, clue.column as int, existing as int);
                        assert(y == row_index_of(clue.row as int, clue.column as int, existing as int));
                        let j = cell_column_of(clue.row as int, clue.column as int) as usize;
                        assert(sudoku_rows()[x][0] == j);
                        assert(sudoku_rows()[y][0] == j);
                        assert(sudoku_rows()[x].contains(j));
                        assert(sudoku_rows()[y].contains(j));
                        assert(p2.contains(x) && p2.contains(y) && x != y);
                        self.clues = Ghost(p2);
                        assert(xs2.to_set() == p2);
                    }
                    return;
                }
                proof {
                    assert(p.contains(x));
                    assert(false);
                }
            },
            None => {
                proof {
                    if cell_taken(p, x) {
                        let y = choose|y: int| #[trigger] p.contains(y) && y / 9 == x / 9;
                        let v = y % 9 + 1;
                        assert(0 <= y < 729);
                        assert(x / 9 == cell && y == cell * 9 + v - 1 && 1 <= v <= 9) by (nonlinear_arith)
                            requires
                                x == cell * 9 + clue.value - 1,
                                1 <= clue.value <= 9,
                                0 <= y < 729,
                                y / 9 == x / 9,
                                v == y % 9 + 1,
                        ;
                        assert(p.contains(cell * 9 + v - 1));
                        assert(self.fixed_values@[cell as int] == Some(v as u8));
                    }
                }
                self.fixed_values.set(cell, Some(clue.value));
                self.assigned_cells = self.assigned_cells + 1;
            },
        }
        let columns = assignment_to_constraint_columns(clue);
        if self.covered_columns[columns[0]] || self.covered_columns[columns[1]]
            || self.covered_columns[columns[2]] || self.covered_columns[columns[3]] {
            self.contradiction = true;
            proof {
                let k = choose|k: int| 0 <= k < 4 && #[trigger] self.covered_columns@[columns@[k] as int];
                let j = columns@[k];
                assert(columns_of_rows(sudoku_rows(), p).contains(j));
                let r = choose|r: int| #[trigger] p.contains(r) && sudoku_rows()[r].contains(j);
                assert(sudoku_rows()[x].contains(j));
                assert(p2.contains(x) && p2.contains(r) && x != r);
                self.clues = Ghost(p2);
                assert(xs2.to_set() == p2);
            }
            return;
        }
        let ghost cov = self.covered_columns@;
        self.forced_rows.set(row_index, true);
        self.covered_columns.set(columns[0], true);
        self.covered_columns.set(columns[1], true);
        self.covered_columns.set(columns[2], true);
        self.covered_columns.set(columns[3], true);
        proof {
            self.clues = Ghost(p2);
            assert(xs2.to_set() == p2);
            assert(sudoku_rows()[x] == columns@);
            lemma_add_row(p, x, cov, self.covered_columns@);
            assert forall|c: int, v: int|
                0 <= c < CELL_COUNT && VALUE_MIN <= v <= VALUE_MAX && #[trigger] p2.contains(
                    c * 9 + v - 1,
                ) implies self.fixed_values@[c] == Some(v as u8) by {
                if c * 9 + v - 1 == x {
                    assert(c == cell && v == clue.value) by (nonlinear_arith)
                        requires
                            c * 9 + v - 1 == cell * 9 + clue.value - 1,
                            1 <= v <= 9,
                            1 <= clue.value <= 9,
                    ;
                }
            }
        }
    }

    /// Counts, up to `cap`, the completions of the clues together with the extra assignment,
    /// if any. A cap of zero is refused.
    pub fn count_solutions_with_optional_assignment(
        &self,
        cap: usize,
        extra_assignment: Option<Assignment>,
    ) -> (r: Result<usize, ExactCoverError>)
        requires
            self.wf(),
        ensures
            match r {
                Ok(count) => cap > 0 && count == vstd::math::min(
                    cap as int,
                    completions(self.clue_rows().union(extra_rows(extra_assignment))).len() as int,
                ),
                Err(e) => cap == 0 && e == ExactCoverError::InvalidCap(cap),
            },
    {
        if cap == 0 {
            return Err(ExactCoverError::InvalidCap(cap));
        }
        let ghost rows = sudoku_rows();
        let ghost all = all_columns(CONSTRAINT_COLUMN_COUNT as int);
        let ghost p = self.clues@.union(extra_rows(extra_assignment));
        if self.contradiction {
            proof {
                let (r1, r2, j) = choose|r1: int, r2: int, j: usize|
                    self.clues@.contains(r1) && self.clues@.contains(r2) && r1 != r2
                        && rows[r1].contains(j) && rows[r2].contains(j);
                assert(p.contains(r1) && p.contains(r2));
                lemma_conflict_no_completion(p);
            }
            return Ok(0);
        }
        let mut forced_rows = self.forced_rows.clone();
        let mut covered_columns = self.covered_columns.clone();
        proof {
            assert(forced_rows@ =~= self.forced_rows@);
            assert(covered_columns@ =~= self.covered_columns@);
        }
        let ghost mut fset = self.clues@;
        if let Some(extra) = extra_assignment {
            proof {
                use_type_invariant(&extra);
                lemma_placement_index(extra.row as int, extra.column as int, extra.value as int);
                lemma_constraint_columns(extra.row as int, extra.column as int, extra.value as int);
            }
            let ghost x = extra.row_index();
            let row_index = assignment_to_row_index(extra);
            if !forced_rows[row_index] {
                let cell = extra.row * GRID_SIDE + extra.column;
                if let Some(existing) = self.fixed_values[cell] {
                    if existing != extra.value {
                        proof {
                            let y = cell * 9 + existing - 1;
                            assert(self.clues@.contains(y));
                            lemma_placement_index(extra.row as int, extra.column as int, existing as int);
                            assert(y == row_index_of(extra.row as int, extra.column as int, existing as int));
                            let j = cell_column_of(extra.row as int, extra.column as int) as usize;
                            assert(rows[x][0] == j);
                            assert(rows[y][0] == j);
                            assert(rows[x].contains(j));
                            assert(rows[y].contains(j));
                            assert(p.contains(x) && p.contains(y) && x != y);
                            lemma_conflict_no_completion(p);
                        }
                        return Ok(0);
                    }
                }
                let columns = assignment_to_constraint_columns(extra);
                if covered_columns[columns[0]] || covered_columns[columns[1]]
                    || covered_columns[columns[2]] || covered_columns[columns[3]] {
                    proof {
                        let k = choose|k: int| 0 <= k < 4 && #[trigger] covered_columns@[columns@[k] as int];
                        let j = columns@[k];
                        assert(columns_of_rows(rows, fset).contains(j));
                        let r = choose|r: int| #[trigger] fset.contains(r) && rows[r].contains(j);
                        assert(rows[x].contains(j));
                        assert(p.contains(x) && p.contains(r) && x != r);
                        lemma_conflict_no_completion(p);
                    }
                    return Ok(0);
                }
                let ghost cov = covered_columns@;
                forced_rows.set(row_index, true);
                covered_columns.set(columns[0], true);
                covered_columns.set(columns[1], true);
                covered_columns.set(columns[2], true);
                covered_columns.set(columns[3], true);
                proof {
                    assert(rows[x] == columns@);
                    lemma_add_row(fset, x, cov, covered_columns@);
                    fset = fset.insert(x);
                }
            }
            proof {
                assert(fset.contains(x));
                assert(p =~= fset);
            }
        } else {
            proof {
                assert(p =~= fset);
            }
        }
        Ok(count_remaining(&forced_rows, &covered_columns, cap, Ghost(fset)))
    }
}

/// Placing `value` in the cell at `row`, `column` next to the placements `p` leaves some
/// completion.
pub open spec fn candidate(p: Set<int>, row: int, column: int, value: int) -> bool {
    completions(p.insert(row_index_of(row, column, value))).len() > 0
}

/// The candidates of a cell as bits: bit `v - 1` is set exactly when `v` is a candidate.
pub open spec fn candidate_bits(p: Set<int>, row: int, column: int, mask: u16) -> bool {
    forall|i: int|
        0 <= i < 16 ==> (#[trigger] bit_set(mask, i) <==> (i < GRID_SIDE && candidate(
            p,
            row,
            column,
            i + 1,
        )))
}

impl ExactCoverAnalyzer {
    /// Counts, up to `cap`, the completions of the clues. A cap of zero is refused.
    pub fn count_solutions_with_cap(&self, cap: usize) -> (r: Result<usize, ExactCoverError>)
        requires
            self.wf(),
        ensures
            match r {
                Ok(count) => cap > 0 && count == vstd::math::min(
                    cap as int,
                    completions(self.clue_rows()).len() as int,
                ),
                Err(e) => cap == 0 && e == ExactCoverError::InvalidCap(cap),
            },
    {
        proof {
            assert(self.clue_rows().union(extra_rows(None)) =~= self.clue_rows());
        }
        self.count_solutions_with_optional_assignment(cap, None)
    }

    /// Whether `value` in the cell at `row`, `column` still leaves a completion. Clues
    /// that contradict each other leave none; otherwise an assignment out of range is
    /// refused.
    pub fn candidate_is_valid(&self, row: usize, column: usize, value: u8) -> (r: Result<
        bool,
        ExactCoverError,
    >)
        requires
            self.wf(),
        ensures
            r == if placements_conflict(self.clue_rows()) {
                Ok(false)
            } else {
                match assignment_error(row as int, column as int, value as int) {
                    Some(e) => Err(e),
                    None => Ok(candidate(self.clue_rows(), row as int, column as int, value as int)),
                }
            },
    {
        if self.contradiction {
            return Ok(false);
        }
        let assignment = Assignment::new(row, column, value)?;
        let count = self.count_solutions_with_optional_assignment(1, Some(assignment))?;
        proof {
            assert(self.clue_rows().union(extra_rows(Some(assignment))) =~= self.clue_rows().insert(
                row_index_of(row as int, column as int, value as int),
            ));
        }
        Ok(count > 0)
    }

    /// The candidates of the cell at `row`, `column` as a mask, refused for a cell off the
    /// grid (the row is checked first).
    pub fn candidate_mask_for_cell(&self, row: usize, column: usize) -> (r: Result<
        u16,
        ExactCoverError,
    >)
        requires
            self.wf(),
        ensures
            match r {
                Ok(mask) => row < GRID_SIDE && column < GRID_SIDE && candidate_bits(
                    self.clue_rows(),
                    row as int,
                    column as int,
                    mask,
                ),
                Err(e) => e == if row >= GRID_SIDE {
                    ExactCoverError::InvalidRow(row)
                } else {
                    ExactCoverError::InvalidColumn(column)
                } && (row >= GRID_SIDE || column >= GRID_SIDE),
            },
    {
        validate_row(row)?;
        validate_column(column)?;
        proof {
            lemma_zero_bits();
        }
        if self.contradiction {
            proof {
                assert forall|v: int| !candidate(self.clue_rows(), row as int, column as int, v) by {
                    let p = self.clue_rows();
                    let p2 = p.insert(row_index_of(row as int, column as int, v));
                    let (r1, r2, j) = choose|r1: int, r2: int, j: usize|
                        p.contains(r1) && p.contains(r2) && r1 != r2 && sudoku_rows()[r1].contains(j)
                            && sudoku_rows()[r2].contains(j);
                    assert(p2.contains(r1) && p2.contains(r2));
                    lemma_conflict_no_completion(p2);
                }
            }
            return Ok(0);
        }
        let mut mask: u16 = 0;
        let mut value: u8 = VALUE_MIN;
        while value <= VALUE_MAX
            invariant
                self.wf(),
                !self.contradiction,
                row < GRID_SIDE,
                column < GRID_SIDE,
                VALUE_MIN <= value <= VALUE_MAX + 1,
                forall|i: int|
                    0 <= i < 16 ==> (#[trigger] bit_set(mask, i) <==> (i < value - 1 && candidate(
                        self.clue_rows(),
                        row as int,
                        column as int,
                        i + 1,
                    ))),
            decreases VALUE_MAX + 1 - value,
        {
            if self.candidate_is_valid(row, column, value)? {
                let bit = value_to_bit(value);
                proof {
                    lemma_bit_or(mask, bit);
                }
                mask = mask | bit;
            }
            value = value + 1;
        }
        Ok(mask)
    }

    /// The candidate masks of all cells.
    pub fn candidate_masks(&self) -> (r: Result<[[u16; GRID_SIDE]; GRID_SIDE], ExactCoverError>)
        requires
            self.wf(),
        ensures
            match r {
                Ok(masks) => forall|row: int, column: int|
                    0 <= row < GRID_SIDE && 0 <= column < GRID_SIDE ==> candidate_bits(
                        self.clue_rows(),
                        row,
                        column,
                        #[trigger] masks@[row]@[column],
                    ),
                Err(_) => false,
            },
    {
        let mut masks = [[0u16; GRID_SIDE]; GRID_SIDE];
        let mut row: usize = 0;
        while row < GRID_SIDE
            invariant
                self.wf(),
                row <= GRID_SIDE,
                forall|r: int, c: int|
                    0 <= r < row && 0 <= c < GRID_SIDE ==> candidate_bits(
                        self.clue_rows(),
                        r,
                        c,
                        #[trigger] masks@[r]@[c],
                    ),
            decreases GRID_SIDE - row,
        {
            let mut row_masks = [0u16; GRID_SIDE];
            let mut column: usize = 0;
            while column < GRID_SIDE
                invariant
                    self.wf(),
                    row < GRID_SIDE,
                    column <= GRID_SIDE,
                    forall|c: int|
                        0 <= c < column ==> candidate_bits(
                            self.clue_rows(),
                            row as int,
                            c,
                            #[trigger] row_masks@[c],
                        ),
                decreases GRID_SIDE - column,
            {
                let mask = self.candidate_mask_for_cell(row, column)?;
                row_masks[column] = mask;
                column = column + 1;
            }
            masks[row] = row_masks;
            row = row + 1;
        }
        Ok(masks)
    }

    /// The number of cells the clues fill, counted in the order the clues were given up to
    /// the first one that contradicts an earlier one (that one counting when its cell was
    /// empty); without a contradiction, the number of clues.
    pub fn assigned_cells(&self) -> (n: usize)
        requires
            self.wf(),
        ensures
            n == assigned_count(self.clue_list()),
            !placements_conflict(self.clue_rows()) ==> n == self.clue_rows().len(),
    {
        self.assigned_cells
    }

    /// Solved now when the clues fill every cell without contradiction.
    pub fn progress(&self) -> (p: BoardProgress)
        requires
            self.wf(),
        ensures
            p == if !placements_conflict(self.clue_rows()) && self.clue_rows().len() == CELL_COUNT {
                BoardProgress::SolvedNow
            } else {
                BoardProgress::UnsolvedNow
            },
    {
        if !self.contradiction && self.assigned_cells == CELL_COUNT {
            return BoardProgress::SolvedNow;
        }
        BoardProgress::UnsolvedNow
    }

    /// The status of the completion count taken with `cap`; a cap below two is refused.
    pub fn solution_count_status(&self, cap: usize) -> (r: Result<
        SolutionCountStatus,
        ExactCoverError,
    >)
        requires
            self.wf(),
        ensures
            r == if cap < 2 {
                Err(ExactCoverError::InvalidCap(cap))
            } else {
                Ok(
                    status_of(
                        vstd::math::min(cap as int, completions(self.clue_rows()).len() as int),
                        cap as int,
                    ),
                )
            },
    {
        let count = self.count_solutions_with_cap(cap)?;
        classify_solution_count(count, cap)
    }
}

/// Numbers the uncovered columns `0, 1, ...` in index order; covered columns keep
/// `usize::MAX`.
fn number_uncovered(covered_columns: &Vec<bool>) -> (r: (Vec<usize>, usize, Ghost<Seq<usize>>))
    requires
        covered_columns@.len() == CONSTRAINT_COLUMN_COUNT,
    ensures
        ({
            let (column_map, remaining, uncovered) = r;
            &&& column_map@.len() == CONSTRAINT_COLUMN_COUNT
            &&& remaining == uncovered@.len()
            &&& remaining <= CONSTRAINT_COLUMN_COUNT
            &&& forall|u: int|
                0 <= u < uncovered@.len() ==> #[trigger] uncovered@[u] < CONSTRAINT_COLUMN_COUNT
                    && !covered_columns@[uncovered@[u] as int] && column_map@[uncovered@[u] as int] == u
            &&& forall|j: int|
                0 <= j < CONSTRAINT_COLUMN_COUNT && !#[trigger] covered_columns@[j] ==> column_map@[j]
                    < remaining && uncovered@[column_map@[j] as int] == j
        }),
{
    let mut column_map: Vec<usize> = vec![usize::MAX; CONSTRAINT_COLUMN_COUNT];
    let mut remaining_columns: usize = 0;
    let ghost mut uncovered: Seq<usize> = Seq::empty();
    let mut column: usize = 0;
    while column < CONSTRAINT_COLUMN_COUNT
        invariant
            column <= CONSTRAINT_COLUMN_COUNT,
            column_map@.len() == CONSTRAINT_COLUMN_COUNT,
            covered_columns@.len() == CONSTRAINT_COLUMN_COUNT,
            remaining_columns == uncovered.len(),
            remaining_columns <= column,
            forall|u: int|
                0 <= u < uncovered.len() ==> #[trigger] uncovered[u] < column && !covered_columns@[uncovered[u] as int]
                    && column_map@[uncovered[u] as int] == u,
            forall|j: int|
                0 <= j < column && !#[trigger] covered_columns@[j] ==> column_map@[j] < remaining_columns
                    && uncovered[column_map@[j] as int] == j,
        decreases CONSTRAINT_COLUMN_COUNT - column,
    {
        if !covered_columns[column] {
            column_map.set(column, remaining_columns);
            proof {
                uncovered = uncovered.push(column);
            }
            remaining_columns = remaining_columns + 1;
        }
        column = column + 1;
    }
    (column_map, remaining_columns, Ghost(uncovered))
}

/// The rows of the matrix that are not forced and hold no covered column, in index order,
/// each renamed through `column_map`; with the indices of the rows kept.
fn reduced_matrix(
    forced_rows: &Vec<bool>,
    covered_columns: &Vec<bool>,
    column_map: &Vec<usize>,
    remaining_columns: usize,
    Ghost(fset): Ghost<Set<int>>,
    Ghost(uncovered): Ghost<Seq<usize>>,
) -> (r: (DlxMatrix, Ghost<Seq<int>>))
    requires
        remaining_columns > 0,
        forced_rows@.len() == ASSIGNMENT_ROW_COUNT,
        covered_columns@.len() == CONSTRAINT_COLUMN_COUNT,
        column_map@.len() == CONSTRAINT_COLUMN_COUNT,
        forall|i: int| 0 <= i < ASSIGNMENT_ROW_COUNT ==> #[trigger] forced_rows@[i] == fset.contains(i),
        forall|j: int|
            0 <= j < CONSTRAINT_COLUMN_COUNT ==> #[trigger] covered_columns@[j] == columns_of_rows(
                sudoku_rows(),
                fset,
            ).contains(j as usize),
        remaining_columns == uncovered.len(),
        forall|u: int|
            0 <= u < uncovered.len() ==> #[trigger] uncovered[u] < CONSTRAINT_COLUMN_COUNT
                && !covered_columns@[uncovered[u] as int] && column_map@[uncovered[u] as int] == u,
        forall|j: int|
            0 <= j < CONSTRAINT_COLUMN_COUNT && !#[trigger] covered_columns@[j] ==> column_map@[j]
                < remaining_columns && uncovered[column_map@[j] as int] == j,
    ensures
        ({
            let (matrix, kept) = r;
            let rows = sudoku_rows();
            let b = all_columns(CONSTRAINT_COLUMN_COUNT as int).difference(columns_of_rows(rows, fset));
            let cm = |j: usize| column_map@[j as int];
            &&& matrix.wf()
            &&& matrix.columns() == remaining_columns
            &&& matrix.row_list().len() == kept@.len()
            &&& entry_count(matrix.row_list()) == 4 * kept@.len()
            &&& kept@.len() <= ASSIGNMENT_ROW_COUNT
            &&& forall|k: int| 0 <= k < kept@.len() ==> #[trigger] matrix.row_list()[k] == rows[kept@[k]].map_values(cm)
            &&& forall|k: int| 0 <= k < kept@.len() ==> available(rows, b, #[trigger] kept@[k])
            &&& kept@.no_duplicates()
            &&& forall|r: int| available(rows, b, r) ==> kept@.contains(r)
        }),
{
    let ghost rows = sudoku_rows();
    let ghost b = all_columns(CONSTRAINT_COLUMN_COUNT as int).difference(columns_of_rows(rows, fset));
    let ghost cm = |j: usize| column_map@[j as int];
    let mut matrix = DlxMatrix::new(remaining_columns).expect("remaining_columns is non-zero and valid");
    let problem = build_full_exact_cover_problem();
    let ghost mut kept: Seq<int> = Seq::empty();
    proof {
        assert(matrix.row_list() =~= Seq::<Seq<usize>>::empty());
    }
    let mut row_index: usize = 0;
    while row_index < ASSIGNMENT_ROW_COUNT
        invariant
            row_index <= ASSIGNMENT_ROW_COUNT,
            rows == sudoku_rows(),
            cm == (|j: usize| column_map@[j as int]),
            b == all_columns(CONSTRAINT_COLUMN_COUNT as int).difference(columns_of_rows(rows, fset)),
            forced_rows@.len() == ASSIGNMENT_ROW_COUNT,
            covered_columns@.len() == CONSTRAINT_COLUMN_COUNT,
            column_map@.len() == CONSTRAINT_COLUMN_COUNT,
            forall|i: int| 0 <= i < ASSIGNMENT_ROW_COUNT ==> #[trigger] forced_rows@[i] == fset.contains(i),
            forall|j: int|
                0 <= j < CONSTRAINT_COLUMN_COUNT ==> #[trigger] covered_columns@[j] == columns_of_rows(
                    rows,
                    fset,
                ).contains(j as usize),
            forall|j: int|
                0 <= j < CONSTRAINT_COLUMN_COUNT && !#[trigger] covered_columns@[j] ==> column_map@[j]
                    < remaining_columns && uncovered[column_map@[j] as int] == j,
            problem.rows@.len() == ASSIGNMENT_ROW_COUNT,
            forall|i: int| 0 <= i < ASSIGNMENT_ROW_COUNT ==> (#[trigger] problem.rows@[i])@ == rows[i],
            matrix.wf(),
            matrix.columns() == remaining_columns,
            matrix.row_list().len() == kept.len(),
            entry_count(matrix.row_list()) == 4 * kept.len(),
            kept.len() <= row_index,
            forall|k: int| 0 <= k < kept.len() ==> #[trigger] matrix.row_list()[k] == rows[kept[k]].map_values(cm),
            forall|k: int| 0 <= k < kept.len() ==> available(rows, b, #[trigger] kept[k]) && kept[k] < row_index,
            forall|k1: int, k2: int| 0 <= k1 < k2 < kept.len() ==> #[trigger] kept[k1] < #[trigger] kept[k2],
            forall|r: int| 0 <= r < row_index && available(rows, b, r) ==> kept.contains(r),
        decreases ASSIGNMENT_ROW_COUNT - row_index,
    {
        let ghost ri = row_index as int;
        let ghost kept0 = kept;
        proof {
            lemma_sudoku_row(ri);
        }
        if forced_rows[row_index] {
            proof {
                let j = rows[ri][0];
                assert(rows[ri].contains(j));
                assert(columns_of_rows(rows, fset).contains(j));
                assert(!available(rows, b, ri));
            }
        } else {
            let columns = problem.rows[row_index];
            if covered_columns[columns[0]] || covered_columns[columns[1]]
                || covered_columns[columns[2]] || covered_columns[columns[3]] {
                proof {
                    let k = choose|k: int| 0 <= k < 4 && #[trigger] covered_columns@[columns@[k] as int];
                    assert(rows[ri].contains(columns@[k]));
                    assert(!b.contains(columns@[k]));
                    assert(!available(rows, b, ri));
                }
            } else {
                let mapped = [
                    column_map[columns[0]],
                    column_map[columns[1]],
                    column_map[columns[2]],
                    column_map[columns[3]],
                ];
                let ghost before = matrix.row_list();
                proof {
                    assert(columns@ == rows[ri]);
                    assert(mapped@ =~= rows[ri].map_values(cm));
                    assert forall|k: int| 0 <= k < mapped@.len() implies #[trigger] mapped@[k] < remaining_columns by {
                        assert(!covered_columns@[columns@[k] as int]);
                    }
                    assert(mapped@.no_duplicates()) by {
                        assert forall|k1: int, k2: int| 0 <= k1 < 4 && 0 <= k2 < 4 && k1 != k2 implies mapped@[k1] != mapped@[k2] by {
                            assert(!covered_columns@[columns@[k1] as int]);
                            assert(!covered_columns@[columns@[k2] as int]);
                        }
                    }
                    crate::exact_cover::dlx::lemma_no_row_error(mapped@, remaining_columns as int);
                    assert(available(rows, b, ri)) by {
                        assert forall|j: usize| #[trigger] rows[ri].contains(j) implies b.contains(j) by {
                            let k = choose|k: int| 0 <= k < 4 && rows[ri][k] == j;
                            assert(!covered_columns@[columns@[k] as int]);
                        }
                    }
                }
                matrix.add_row(mapped.as_slice()).expect("column mapping preserves uniqueness and bounds");
                proof {
                    let after = matrix.row_list();
                    assert(after == before.push(mapped@));
                    assert(after.drop_last() =~= before);
                    assert(after.last() == mapped@);
                    assert(entry_count(after) == entry_count(before) + mapped@.len());
                    kept = kept.push(ri);
                    assert(forall|k: int| 0 <= k < kept0.len() ==> kept[k] == kept0[k]);
                }
            }
        }
        proof {
            assert(kept.len() >= kept0.len());
            assert(forall|k: int| 0 <= k < kept0.len() ==> kept[k] == kept0[k]);
            assert forall|r: int| 0 <= r < ri + 1 && available(rows, b, r) implies kept.contains(r) by {
                if r < ri {
                    assert(kept0.contains(r));
                    let k = choose|k: int| 0 <= k < kept0.len() && kept0[k] == r;
                    assert(kept0[k] == r);
                    assert(kept[k] == kept0[k]);
                    assert(kept[k] == r);
                } else {
                    assert(kept[kept.len() - 1] == r);
                }
            }
        }
        row_index = row_index + 1;
    }
    proof {
        assert(kept.no_duplicates()) by {
            assert forall|k1: int, k2: int| 0 <= k1 < kept.len() && 0 <= k2 < kept.len() && k1 != k2 implies kept[k1] != kept[k2] by {
                if k1 < k2 {
                    assert(kept[k1] < kept[k2]);
                } else {
                    assert(kept[k2] < kept[k1]);
                }
            }
        }
        assert forall|r: int| available(rows, b, r) implies kept.contains(r) by {}
    }
    (matrix, Ghost(kept))
}

/// Counts, up to `cap`, the exact covers of the whole matrix that hold the forced rows
/// `fset`, given the flags of the forced rows and of the columns they cover.
fn count_remaining(
    forced_rows: &Vec<bool>,
    covered_columns: &Vec<bool>,
    cap: usize,
    Ghost(fset): Ghost<Set<int>>,
) -> (count: usize)
    requires
        cap > 0,
        forced_rows@.len() == ASSIGNMENT_ROW_COUNT,
        covered_columns@.len() == CONSTRAINT_COLUMN_COUNT,
        pairwise_disjoint(sudoku_rows(), fset),
        forall|r: int| #[trigger] fset.contains(r) ==> 0 <= r < ASSIGNMENT_ROW_COUNT,
        forall|i: int| 0 <= i < ASSIGNMENT_ROW_COUNT ==> #[trigger] forced_rows@[i] == fset.contains(i),
        forall|j: int|
            0 <= j < CONSTRAINT_COLUMN_COUNT ==> #[trigger] covered_columns@[j] == columns_of_rows(
                sudoku_rows(),
                fset,
            ).contains(j as usize),
    ensures
        count == vstd::math::min(cap as int, completions(fset).len() as int),
{
    let ghost rows = sudoku_rows();
    let ghost all = all_columns(CONSTRAINT_COLUMN_COUNT as int);
    let ghost b = all.difference(columns_of_rows(rows, fset));
    let (column_map, remaining_columns, Ghost(uncovered)) = number_uncovered(covered_columns);
    let ghost cm = |j: usize| column_map@[j as int];
    proof {
        assert forall|j: usize| #[trigger] b.contains(j) <==> (j < CONSTRAINT_COLUMN_COUNT && !covered_columns@[j as int]) by {}
        assert forall|r: int| 0 <= r < rows.len() implies #[trigger] rows[r].len() > 0 by {
            lemma_sudoku_row(r);
        }
        assert forall|r: int| #[trigger] fset.contains(r) implies available(rows, all, r) by {
            lemma_sudoku_row(r);
        }
        lemma_covers_containing(rows, all, fset);
    }
    if remaining_columns == 0 {
        proof {
            assert(b =~= Set::<usize>::empty());
            lemma_covers_of_nothing(rows);
        }
        return 1;
    }
    let (matrix, Ghost(kept)) = reduced_matrix(
        forced_rows,
        covered_columns,
        &column_map,
        remaining_columns,
        Ghost(fset),
        Ghost(uncovered),
    );
    proof {
        assert forall|j: usize| #[trigger] b.contains(j) implies cm(j) < remaining_columns by {}
        assert forall|j1: usize, j2: usize| #[trigger] b.contains(j1) && #[trigger] b.contains(j2) && cm(j1) == cm(j2) implies j1 == j2 by {
            assert(!covered_columns@[j1 as int]);
            assert(!covered_columns@[j2 as int]);
        }
        assert forall|v: usize| #[trigger] all_columns(remaining_columns as int).contains(v) implies exists|j: usize| #[trigger] b.contains(j) && cm(j) == v by {
            let j = uncovered[v as int];
            assert(b.contains(j));
        }
        lemma_covers_renamed(rows, b, kept, cm, remaining_columns as int, matrix.row_list());
    }
    matrix.count_solutions_with_cap(cap).expect("cap already validated before calling DLX solver")
}

} // verus!
