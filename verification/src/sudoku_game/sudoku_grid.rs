//! The 9x9 grid of cells and the rules that narrow their candidates.
use vstd::prelude::*;
use crate::bits::{ALL_VALUES_MASK, bit_set, ones, value_bit};
use crate::constants::{BOX_SIDE, GRID_SIDE, VALUE_MAX};
use crate::exact_cover::{
    ASSIGNMENT_ROW_COUNT, Assignment, CELL_COUNT, ExactCoverAnalyzer, ExactCoverError, candidate,
    candidate_bits, completions, lemma_cell_has_candidate, placements_conflict,
    rows_of,
};
use crate::text::{decimal, push_decimal};
use sudoku_cell::{Cell, mask_value};

pub mod sudoku_cell;
pub mod sudoku_grid_trials;

verus! {

/// Cells along one side of the grid.
pub const GRID_SIZE: usize = GRID_SIDE;

/// The position of the cell at `row`, `column` in row-by-row order.
pub open spec fn cell_index(row: int, column: int) -> int {
    row * GRID_SIZE + column
}

/// A mask a cell can hold: some value left, and no bit past the nine values.
pub open spec fn valid_mask(mask: u16) -> bool {
    mask != 0 && mask & !ALL_VALUES_MASK == 0
}

/// Exactly one value is left in the cell.
pub open spec fn solved(c: Cell) -> bool {
    ones(c.mask()) == 1
}

/// The value of a solved cell.
pub open spec fn solved_value(c: Cell) -> int {
    mask_value(c.mask())
}

/// Two positions lie in the same box.
pub open spec fn same_box(row: int, column: int, r: int, c: int) -> bool {
    row / BOX_SIDE as int == r / BOX_SIDE as int && column / BOX_SIDE as int == c / BOX_SIDE as int
}

/// The cell at `r`, `c` shares a row, a column or a box with the cell at `row`, `column`,
/// and is another cell.
pub open spec fn is_peer(row: int, column: int, r: int, c: int) -> bool {
    &&& 0 <= r < GRID_SIZE
    &&& 0 <= c < GRID_SIZE
    &&& !(r == row && c == column)
    &&& (r == row || c == column || same_box(row, column, r, c))
}

/// Some peer of the cell at `row`, `column` is solved with `value`.
pub open spec fn direct_conflict(cells: Seq<Cell>, row: int, column: int, value: int) -> bool {
    exists|r: int, c: int|
        #[trigger] is_peer(row, column, r, c) && solved(cells[cell_index(r, c)]) && solved_value(
            cells[cell_index(r, c)],
        ) == value
}

/// "Invalid row N" with the row numbered from one.
pub open spec fn invalid_row_message(row: int) -> Seq<char> {
    "Invalid row "@ + decimal((row + 1) as nat)
}

/// "Invalid column N" with the column numbered from one.
pub open spec fn invalid_column_message(column: int) -> Seq<char> {
    "Invalid column "@ + decimal((column + 1) as nat)
}

/// Why `value` cannot be placed at `row`, `column`, if it cannot: the row, the column and
/// the value are checked in that order, then whether the value is still a candidate.
pub open spec fn set_value_refusal(cells: Seq<Cell>, row: int, column: int, value: int) -> Option<
    Seq<char>,
> {
    if row >= GRID_SIZE {
        Some(invalid_row_message(row))
    } else if column >= GRID_SIZE {
        Some(invalid_column_message(column))
    } else if value == 0 || value > VALUE_MAX {
        Some("Invalid value "@ + decimal(value as nat))
    } else if !bit_set(cells[cell_index(row, column)].mask(), value - 1) {
        Some(
            decimal(value as nat) + " is not a valid entry for row "@ + decimal((row + 1) as nat)
                + " column "@ + decimal((column + 1) as nat),
        )
    } else {
        None
    }
}

/// The row and column range of the box of the cell at `row`, `column`.
pub open spec fn box_bounds(row: int, column: int) -> (int, int, int, int) {
    let start_row = (row / BOX_SIDE as int) * BOX_SIDE;
    let start_column = (column / BOX_SIDE as int) * BOX_SIDE;
    (start_row, start_row + BOX_SIDE, start_column, start_column + BOX_SIDE)
}

/// The first and one-past-last rows and columns of the box of the cell at `row`, `column`.
pub fn get_box_dimensions(row: usize, column: usize) -> (r: (usize, usize, usize, usize))
    requires
        box_bounds(row as int, column as int).1 <= usize::MAX,
        box_bounds(row as int, column as int).3 <= usize::MAX,
    ensures
        r.0 == box_bounds(row as int, column as int).0,
        r.1 == box_bounds(row as int, column as int).1,
        r.2 == box_bounds(row as int, column as int).2,
        r.3 == box_bounds(row as int, column as int).3,
{
    let start_row = (row / BOX_SIDE) * BOX_SIDE;
    let end_row = start_row + BOX_SIDE;
    let start_column = (column / BOX_SIDE) * BOX_SIDE;
    let end_column = start_column + BOX_SIDE;
    (start_row, end_row, start_column, end_column)
}

/// The grid: 81 cells, row by row, and whether candidates are shown.
pub struct Grid {
    cells: Vec<Cell>,
    debug_output: bool,
}

impl Grid {
    /// There are 81 cells, and every cell has a valid mask.
    pub closed spec fn wf(self) -> bool {
        &&& self.cells@.len() == CELL_COUNT
        &&& forall|i: int| 0 <= i < CELL_COUNT ==> valid_mask(#[trigger] self.cells@[i].mask())
    }

    /// The cells, row by row.
    pub closed spec fn cells(self) -> Seq<Cell> {
        self.cells@
    }

    /// Whether every candidate is shown.
    pub closed spec fn debug(self) -> bool {
        self.debug_output
    }

    /// A copy of the grid.
    pub fn duplicate(&self) -> (g: Grid)
        requires
            self.wf(),
        ensures
            g.wf(),
            g.cells() == self.cells(),
            g.debug() == self.debug(),
    {
        let mut cells: Vec<Cell> = Vec::new();
        let mut i: usize = 0;
        while i < self.cells.len()
            invariant
                i <= self.cells@.len(),
                cells@ == self.cells@.take(i as int),
            decreases self.cells@.len() - i,
        {
            cells.push(self.cells[i]);
            proof {
                assert(self.cells@.take(i + 1) =~= self.cells@.take(i as int).push(self.cells@[i as int]));
            }
            i = i + 1;
        }
        proof {
            assert(self.cells@.take(self.cells@.len() as int) =~= self.cells@);
        }
        Grid { cells, debug_output: self.debug_output }
    }

    /// The grid of 81 open cells, with candidates hidden.
    pub fn new() -> (g: Grid)
        ensures
            g.wf(),
            g.cells().len() == CELL_COUNT,
            forall|i: int|
                0 <= i < CELL_COUNT ==> (#[trigger] g.cells()[i]).mask() == ALL_VALUES_MASK
                    && !g.cells()[i].user_set(),
            !g.debug(),
    {
        let mut cells: Vec<Cell> = Vec::new();
        let mut i: usize = 0;
        while i < CELL_COUNT
            invariant
                i <= CELL_COUNT,
                cells@.len() == i,
                forall|k: int|
                    0 <= k < i ==> (#[trigger] cells@[k]).mask() == ALL_VALUES_MASK && !cells@[k].user_set(),
            decreases CELL_COUNT - i,
        {
            cells.push(Cell::new());
            i = i + 1;
        }
        proof {
            assert(0x1ffu16 & !0x1ffu16 == 0) by (bit_vector);
        }
        Grid { cells, debug_output: false }
    }

    /// Opens every cell again.
    pub fn clear(&mut self)
        requires
            old(self).wf(),
        ensures
            final(self).wf(),
            final(self).cells().len() == CELL_COUNT,
            forall|i: int|
                0 <= i < CELL_COUNT ==> (#[trigger] final(self).cells()[i]).mask()
                    == ALL_VALUES_MASK && !final(self).cells()[i].user_set(),
            final(self).debug() == old(self).debug(),
    {
        proof {
            assert(0x1ffu16 & !0x1ffu16 == 0) by (bit_vector);
        }
        let mut i: usize = 0;
        while i < CELL_COUNT
            invariant
                i <= CELL_COUNT,
                self.cells@.len() == CELL_COUNT,
                self.debug_output == old(self).debug_output,
                forall|k: int|
                    0 <= k < CELL_COUNT ==> valid_mask(#[trigger] self.cells@[k].mask()),
                forall|k: int|
                    0 <= k < i ==> (#[trigger] self.cells@[k]).mask() == ALL_VALUES_MASK
                        && !self.cells@[k].user_set(),
            decreases CELL_COUNT - i,
        {
            let mut cell = self.cells[i];
            cell.clear();
            proof {
                assert(0x1ffu16 & !0x1ffu16 == 0) by (bit_vector);
            }
            self.cells.set(i, cell);
            i = i + 1;
        }
    }

    /// Every cell is solved.
    pub fn is_solved(&self) -> (r: bool)
        requires
            self.wf(),
        ensures
            r == forall|i: int| 0 <= i < CELL_COUNT ==> solved(#[trigger] self.cells()[i]),
    {
        let mut i: usize = 0;
        while i < CELL_COUNT
            invariant
                i <= CELL_COUNT,
                self.cells@.len() == CELL_COUNT,
                forall|k: int| 0 <= k < i ==> solved(#[trigger] self.cells@[k]),
            decreases CELL_COUNT - i,
        {
            if !self.cells[i].is_solved() {
                proof {
                    assert(!solved(self.cells()[i as int]));
                }
                return false;
            }
            i = i + 1;
        }
        true
    }

    /// Every cell has some value left.
    pub fn is_valid(&self) -> (r: bool)
        requires
            self.wf(),
        ensures
            r == forall|i: int| 0 <= i < CELL_COUNT ==> ones(#[trigger] self.cells()[i].mask()) >= 1,
    {
        let mut i: usize = 0;
        while i < CELL_COUNT
            invariant
                i <= CELL_COUNT,
                self.cells@.len() == CELL_COUNT,
                forall|k: int| 0 <= k < i ==> ones(#[trigger] self.cells@[k].mask()) >= 1,
            decreases CELL_COUNT - i,
        {
            if !self.cells[i].is_valid() {
                proof {
                    assert(!(ones(self.cells()[i as int].mask()) >= 1));
                }
                return false;
            }
            i = i + 1;
        }
        true
    }

    /// Shows or hides every candidate.
    pub fn set_debug(&mut self, on: bool)
        requires
            old(self).wf(),
        ensures
            final(self).wf(),
            final(self).cells() == old(self).cells(),
            final(self).debug() == on,
    {
        self.debug_output = on;
    }

    /// Whether candidates are shown.
    pub fn debug_output(&self) -> (on: bool)
        ensures
            on == self.debug(),
    {
        self.debug_output
    }

    /// The cell at `row`, `column`.
    pub fn cell(&self, row: usize, column: usize) -> (c: Cell)
        requires
            self.wf(),
            row < GRID_SIZE,
            column < GRID_SIZE,
        ensures
            c == self.cells()[cell_index(row as int, column as int)],
            valid_mask(c.mask()),
    {
        self.cells[row * GRID_SIZE + column]
    }

    /// Marks the cell at `row`, `column` as entered by the user.
    pub fn lock_set_by_user(&mut self, row: usize, column: usize)
        requires
            old(self).wf(),
            row < GRID_SIZE,
            column < GRID_SIZE,
        ensures
            final(self).wf(),
            final(self).debug() == old(self).debug(),
            final(self).cells().len() == old(self).cells().len(),
            forall|i: int|
                0 <= i < old(self).cells().len() ==> (#[trigger] final(self).cells()[i]).mask() == old(
                    self,
                ).cells()[i].mask() && final(self).cells()[i].user_set() == (old(self).cells()[i].user_set()
                    || i == cell_index(row as int, column as int)),
    {
        let index = row * GRID_SIZE + column;
        let mut cell = self.cells[index];
        cell.lock_set_by_user();
        self.cells.set(index, cell);
    }

    /// Narrows the cell at `row`, `column` to `value`. Refused for a cell off the grid, a
    /// value outside `1..=9`, or a value the cell no longer allows; returns whether the
    /// cell changed.
    pub fn set_value(&mut self, row: usize, column: usize, value: u8) -> (r: Result<bool, String>)
        requires
            old(self).wf(),
            row < usize::MAX,
            column < usize::MAX,
        ensures
            final(self).wf(),
            final(self).debug() == old(self).debug(),
            final(self).cells().len() == old(self).cells().len(),
            match r {
                Ok(changed) => {
                    let i = cell_index(row as int, column as int);
                    &&& set_value_refusal(old(self).cells(), row as int, column as int, value as int) is None
                    &&& final(self).cells()[i].mask() == value_bit(value as int)
                    &&& final(self).cells()[i].user_set() == old(self).cells()[i].user_set()
                    &&& changed == (old(self).cells()[i].mask() != value_bit(value as int))
                    &&& forall|k: int|
                        0 <= k < old(self).cells().len() && k != i ==> #[trigger] final(self).cells()[k]
                            == old(self).cells()[k]
                },
                Err(message) => set_value_refusal(old(self).cells(), row as int, column as int, value as int)
                    == Some(message@) && final(self).cells() == old(self).cells(),
            },
    {
        if row >= GRID_SIZE {
            return Err(crate::text::with_decimal("Invalid row ", row + 1));
        }
        if column >= GRID_SIZE {
            return Err(crate::text::with_decimal("Invalid column ", column + 1));
        }
        if value == 0 || value > VALUE_MAX {
            return Err(crate::text::with_decimal("Invalid value ", value as usize));
        }
        let index = row * GRID_SIZE + column;
        let mut cell = self.cells[index];
        match cell.set_value(value) {
            Err(()) => {
                let mut message = crate::text::decimal_string(value as usize);
                message.append(" is not a valid entry for row ");
                push_decimal(&mut message, row + 1);
                message.append(" column ");
                push_decimal(&mut message, column + 1);
                Err(message)
            },
            Ok(changed) => {
                proof {
                    crate::bits::lemma_value_bit(value as int);
                    assert(valid_mask(value_bit(value as int))) by {
                        crate::bits::lemma_within_all_values(value_bit(value as int));
                        crate::bits::lemma_zero_iff_no_bits(value_bit(value as int));
                    }
                }
                let ghost before = self.cells@;
                self.cells.set(index, cell);
                proof {
                    assert forall|i: int| 0 <= i < CELL_COUNT implies valid_mask(#[trigger] self.cells@[i].mask()) by {
                        if i != index {
                            assert(self.cells@[i] == before[i]);
                        }
                    }
                }
                Ok(changed)
            },
        }
    }

    /// Some peer of the cell at `row`, `column` is solved with `value`.
    pub fn has_direct_conflict(&self, row: usize, column: usize, value: u8) -> (r: bool)
        requires
            self.wf(),
            row < GRID_SIZE,
            column < GRID_SIZE,
        ensures
            r == direct_conflict(self.cells(), row as int, column as int, value as int),
    {
        let ghost cells = self.cells@;
        let ghost ri = row as int;
        let ghost ci = column as int;
        let mut check_column: usize = 0;
        while check_column < GRID_SIZE
            invariant
                cells == self.cells@,
                cells.len() == CELL_COUNT,
                ri == row as int,
                ci == column as int,
                row < GRID_SIZE,
                column < GRID_SIZE,
                check_column <= GRID_SIZE,
                forall|c: int|
                    0 <= c < check_column && c != ci ==> !(solved(cells[cell_index(ri, c)]) && solved_value(
                        #[trigger] cells[cell_index(ri, c)],
                    ) == value),
            decreases GRID_SIZE - check_column,
        {
            let cell = self.cells[row * GRID_SIZE + check_column];
            if check_column != column && cell.is_solved() {
                if let Ok(existing) = cell.get_value() {
                    if existing == value {
                        proof {
                            assert(is_peer(ri, ci, ri, check_column as int));
                        }
                        return true;
                    }
                }
            }
            check_column = check_column + 1;
        }
        let mut check_row: usize = 0;
        while check_row < GRID_SIZE
            invariant
                cells == self.cells@,
                cells.len() == CELL_COUNT,
                ri == row as int,
                ci == column as int,
                row < GRID_SIZE,
                column < GRID_SIZE,
                check_row <= GRID_SIZE,
                forall|r: int|
                    0 <= r < check_row && r != ri ==> !(solved(cells[cell_index(r, ci)]) && solved_value(
                        #[trigger] cells[cell_index(r, ci)],
                    ) == value),
            decreases GRID_SIZE - check_row,
        {
            let cell = self.cells[check_row * GRID_SIZE + column];
            if check_row != row && cell.is_solved() {
                if let Ok(existing) = cell.get_value() {
                    if existing == value {
                        proof {
                            assert(is_peer(ri, ci, check_row as int, ci));
                        }
                        return true;
                    }
                }
            }
            check_row = check_row + 1;
        }
        let (start_row, end_row, start_column, end_column) = get_box_dimensions(row, column);
        let mut check_row: usize = start_row;
        while check_row < end_row
            invariant
                cells == self.cells@,
                cells.len() == CELL_COUNT,
                ri == row as int,
                ci == column as int,
                row < GRID_SIZE,
                column < GRID_SIZE,
                start_row == box_bounds(ri, ci).0,
                end_row == box_bounds(ri, ci).1,
                start_column == box_bounds(ri, ci).2,
                end_column == box_bounds(ri, ci).3,
                start_row <= check_row <= end_row,
                forall|r: int, c: int|
                    start_row <= r < check_row && start_column <= c < end_column && !(r == ri && c
                        == ci) ==> !(solved(cells[cell_index(r, c)]) && solved_value(
                        #[trigger] cells[cell_index(r, c)],
                    ) == value),
            decreases end_row - check_row,
        {
            let mut check_column: usize = start_column;
            while check_column < end_column
                invariant
                    cells == self.cells@,
                    cells.len() == CELL_COUNT,
                    ri == row as int,
                    ci == column as int,
                    row < GRID_SIZE,
                    column < GRID_SIZE,
                    start_row == box_bounds(ri, ci).0,
                    end_row == box_bounds(ri, ci).1,
                    start_column == box_bounds(ri, ci).2,
                    end_column == box_bounds(ri, ci).3,
                    start_row <= check_row < end_row,
                    start_column <= check_column <= end_column,
                    forall|r: int, c: int|
                        start_row <= r < check_row && start_column <= c < end_column && !(r == ri
                            && c == ci) ==> !(solved(cells[cell_index(r, c)]) && solved_value(
                            #[trigger] cells[cell_index(r, c)],
                        ) == value),
                    forall|c: int|
                        start_column <= c < check_column && !(check_row == ri && c == ci) ==> !(solved(
                            cells[cell_index(check_row as int, c)],
                        ) && solved_value(#[trigger] cells[cell_index(check_row as int, c)]) == value),
                decreases end_column - check_column,
            {
                let cell = self.cells[check_row * GRID_SIZE + check_column];
                if !(check_row == row && check_column == column) && cell.is_solved() {
                    if let Ok(existing) = cell.get_value() {
                        if existing == value {
                            proof {
                                assert(is_peer(ri, ci, check_row as int, check_column as int));
                            }
                            return true;
                        }
                    }
                }
                check_column = check_column + 1;
            }
            check_row = check_row + 1;
        }
        proof {
            assert forall|r: int, c: int| #[trigger] is_peer(ri, ci, r, c) implies !(solved(cells[cell_index(r, c)])
                && solved_value(cells[cell_index(r, c)]) == value) by {
                if r != ri && c != ci {
                    assert(box_bounds(ri, ci).0 <= r < box_bounds(ri, ci).1);
                    assert(box_bounds(ri, ci).2 <= c < box_bounds(ri, ci).3);
                }
            }
        }
        false
    }
}

/// The placements of the cells examined so far, the first `n` cells in row order: each
/// solved cell places its value.
pub open spec fn clue_rows_below(cells: Seq<Cell>, n: int) -> Set<int> {
    Set::new(
        |i: int|
            0 <= i < n * 9 && i < ASSIGNMENT_ROW_COUNT && solved(cells[i / 9]) && solved_value(
                cells[i / 9],
            ) == i % 9 + 1,
    )
}

/// The placements of the solved cells among the first `n`, in row order, as matrix rows.
pub open spec fn clue_row_list(cells: Seq<Cell>, n: int) -> Seq<int>
    decreases n,
{
    if n <= 0 {
        Seq::empty()
    } else {
        let rest = clue_row_list(cells, n - 1);
        if solved(cells[n - 1]) {
            rest.push((n - 1) * 9 + solved_value(cells[n - 1]) - 1)
        } else {
            rest
        }
    }
}

/// The placements of all solved cells.
pub open spec fn grid_clue_rows(cells: Seq<Cell>) -> Set<int> {
    clue_rows_below(cells, CELL_COUNT as int)
}

/// The text of an exact-cover error, as its debug form shows it.
pub open spec fn error_debug_text(error: ExactCoverError) -> Seq<char> {
    match error {
        ExactCoverError::InvalidRow(n) => "InvalidRow("@ + decimal(n as nat) + ")"@,
        ExactCoverError::InvalidColumn(n) => "InvalidColumn("@ + decimal(n as nat) + ")"@,
        ExactCoverError::InvalidValue(n) => "InvalidValue("@ + decimal(n as nat) + ")"@,
        ExactCoverError::InvalidAssignmentRowIndex(n) => "InvalidAssignmentRowIndex("@ + decimal(
            n as nat,
        ) + ")"@,
        ExactCoverError::InvalidConstraintColumnIndex(n) => "InvalidConstraintColumnIndex("@
            + decimal(n as nat) + ")"@,
        ExactCoverError::InvalidConstraintSlot(n) => "InvalidConstraintSlot("@ + decimal(n as nat)
            + ")"@,
        ExactCoverError::InvalidCap(n) => "InvalidCap("@ + decimal(n as nat) + ")"@,
    }
}

/// The message of an exact-cover error.
pub open spec fn exact_cover_message(error: ExactCoverError) -> Seq<char> {
    "Exact cover solver error: "@ + error_debug_text(error)
}

/// `name(n)`.
fn tagged_number(name: &str, n: usize) -> (s: String)
    ensures
        s@ == name@ + decimal(n as nat) + ")"@,
{
    let mut s = crate::text::with_decimal(name, n);
    s.append(")");
    s
}

impl Grid {
    /// The message of an exact-cover error.
    pub fn exact_cover_error_message(error: ExactCoverError) -> (message: String)
        ensures
            message@ == exact_cover_message(error),
    {
        let text = match error {
            ExactCoverError::InvalidRow(n) => tagged_number("InvalidRow(", n),
            ExactCoverError::InvalidColumn(n) => tagged_number("InvalidColumn(", n as usize),
            ExactCoverError::InvalidValue(n) => tagged_number("InvalidValue(", n as usize),
            ExactCoverError::InvalidAssignmentRowIndex(n) => tagged_number("InvalidAssignmentRowIndex(", n),
            ExactCoverError::InvalidConstraintColumnIndex(n) => tagged_number("InvalidConstraintColumnIndex(", n),
            ExactCoverError::InvalidConstraintSlot(n) => tagged_number("InvalidConstraintSlot(", n),
            ExactCoverError::InvalidCap(n) => tagged_number("InvalidCap(", n),
        };
        let mut message = String::from_str("Exact cover solver error: ");
        message.append(text.as_str());
        message
    }

    /// The placements of the solved cells, in row order.
    pub fn exact_cover_clues(&self) -> (r: Result<Vec<Assignment>, String>)
        requires
            self.wf(),
        ensures
            match r {
                Ok(clues) => rows_of(clues@) == grid_clue_rows(self.cells()) && clues@.map_values(
                    |a: Assignment| a.row_index(),
                ) == clue_row_list(self.cells(), CELL_COUNT as int),
                Err(_) => false,
            },
    {
        let ghost cells = self.cells@;
        let mut clues: Vec<Assignment> = Vec::with_capacity(CELL_COUNT);
        proof {
            assert(rows_of(clues@) =~= clue_rows_below(cells, 0));
            assert(clues@.map_values(|a: Assignment| a.row_index()) =~= clue_row_list(cells, 0));
        }
        let mut row: usize = 0;
        while row < GRID_SIZE
            invariant
                cells == self.cells@,
                cells.len() == CELL_COUNT,
                row <= GRID_SIZE,
                rows_of(clues@) == clue_rows_below(cells, row * 9),
                clues@.map_values(|a: Assignment| a.row_index()) == clue_row_list(cells, row * 9),
            decreases GRID_SIZE - row,
        {
            let mut column: usize = 0;
            while column < GRID_SIZE
                invariant
                    cells == self.cells@,
                    cells.len() == CELL_COUNT,
                    row < GRID_SIZE,
                    column <= GRID_SIZE,
                    rows_of(clues@) == clue_rows_below(cells, row * 9 + column),
                    clues@.map_values(|a: Assignment| a.row_index()) == clue_row_list(cells, row * 9 + column),
                decreases GRID_SIZE - column,
            {
                let k = row * GRID_SIZE + column;
                let cell = self.cells[k];
                let ghost before = clue_rows_below(cells, k as int);
                let ghost after = clue_rows_below(cells, k + 1);
                if cell.is_solved() {
                    let value = match cell.get_value() {
                        Ok(v) => v,
                        Err(()) => {
                            proof {
                                assert(false);
                            }
                            return Err(String::new());
                        },
                    };
                    let clue = match Assignment::new(row, column, value) {
                        Ok(a) => a,
                        Err(e) => {
                            proof {
                                assert(false);
                            }
                            return Err(Self::exact_cover_error_message(e));
                        },
                    };
                    let ghost x = clue.row_index();
                    proof {
                        assert(x == k * 9 + value - 1);
                        assert forall|i: int| after.contains(i) <==> before.insert(x).contains(i) by {
                            if k * 9 <= i < k * 9 + 9 {
                                assert(i / 9 == k && (i % 9 + 1 == value <==> i == x)) by (nonlinear_arith)
                                    requires
                                        k * 9 <= i < k * 9 + 9,
                                        x == k * 9 + value - 1,
                                        1 <= value <= 9,
                                ;
                            } else if i < k * 9 {
                                assert(i < (k + 1) * 9);
                            }
                        }
                        assert(after =~= before.insert(x));
                        let f = |a: Assignment| a.row_index();
                        assert(clues@.push(clue).map_values(f) =~= clues@.map_values(f).push(x));
                        clues@.map_values(f).lemma_push_to_set_commute(x);
                    }
                    clues.push(clue);
                } else {
                    proof {
                        assert forall|i: int| after.contains(i) <==> before.contains(i) by {
                            if k * 9 <= i < k * 9 + 9 {
                                assert(i / 9 == k) by (nonlinear_arith)
                                    requires
                                        k * 9 <= i < k * 9 + 9,
                                ;
                            }
                        }
                        assert(after =~= before);
                    }
                }
                column = column + 1;
            }
            row = row + 1;
        }
        Ok(clues)
    }

    /// The analyzer of the placements of the solved cells.
    pub fn exact_cover_analyzer(&self) -> (r: Result<ExactCoverAnalyzer, String>)
        requires
            self.wf(),
        ensures
            match r {
                Ok(analyzer) => analyzer.wf() && analyzer.clue_rows() == grid_clue_rows(self.cells()),
                Err(_) => false,
            },
    {
        let clues = self.exact_cover_clues()?;
        Ok(ExactCoverAnalyzer::new(clues.as_slice()))
    }

    /// Counts, up to `cap`, the filled grids that agree with every solved cell; a cap of
    /// zero is refused.
    pub fn count_exact_cover_solutions_with_cap(&self, cap: usize) -> (r: Result<usize, String>)
        requires
            self.wf(),
        ensures
            match r {
                Ok(count) => cap > 0 && count == vstd::math::min(
                    cap as int,
                    completions(grid_clue_rows(self.cells())).len() as int,
                ),
                Err(message) => cap == 0 && message@ == exact_cover_message(
                    ExactCoverError::InvalidCap(cap),
                ),
            },
    {
        let analyzer = self.exact_cover_analyzer()?;
        match analyzer.count_solutions_with_cap(cap) {
            Ok(count) => Ok(count),
            Err(e) => Err(Self::exact_cover_error_message(e)),
        }
    }

    /// Narrows every cell to the values that some filled grid agreeing with the solved cells
    /// puts there. Refused, and nothing changes, when the solved cells contradict each other
    /// or no filled grid agrees with them.
    #[verifier::spinoff_prover]
    pub fn apply_exact_cover_checks(&mut self) -> (r: Result<(), String>)
        requires
            old(self).wf(),
        ensures
            final(self).wf(),
            final(self).debug() == old(self).debug(),
            ({
                let p = grid_clue_rows(old(self).cells());
                match r {
                    Ok(_) => !placements_conflict(p) && completions(p).len() > 0 && forall|i: int|
                        0 <= i < CELL_COUNT ==> candidate_bits(
                            p,
                            i / 9,
                            i % 9,
                            #[trigger] final(self).cells()[i].mask(),
                        ) && final(self).cells()[i].user_set() == old(self).cells()[i].user_set(),
                    Err(message) => final(self).cells() == old(self).cells() && if placements_conflict(p) {
                        message@ == "Exact cover contradiction detected"@
                    } else {
                        completions(p).len() == 0 && message@ == "Exact cover produced no candidates for row "@
                            + decimal(1) + " column "@ + decimal(1)
                    },
                }
            }),
    {
        let ghost p = grid_clue_rows(self.cells@);
        let analyzer = self.exact_cover_analyzer()?;
        if analyzer.has_contradiction() {
            return Err(String::from_str("Exact cover contradiction detected"));
        }
        let candidate_masks = match analyzer.candidate_masks() {
            Ok(masks) => masks,
            Err(e) => return Err(Self::exact_cover_error_message(e)),
        };
        let ghost old_cells = self.cells@;
        let mut row: usize = 0;
        while row < GRID_SIZE
            invariant
                self.wf(),
                self.debug_output == old(self).debug_output,
                old_cells == old(self).cells@,
                old_cells.len() == CELL_COUNT,
                p == grid_clue_rows(old_cells),
                !placements_conflict(p),
                row <= GRID_SIZE,
                forall|r: int, c: int|
                    0 <= r < GRID_SIZE && 0 <= c < GRID_SIZE ==> candidate_bits(
                        p,
                        r,
                        c,
                        #[trigger] candidate_masks@[r]@[c],
                    ),
                row > 0 ==> completions(p).len() > 0,
                forall|i: int|
                    0 <= i < row * 9 ==> #[trigger] candidate_bits(p, i / 9, i % 9, self.cells@[i].mask()),
                forall|i: int|
                    0 <= i < row * 9 ==> #[trigger] self.cells@[i].user_set() == old_cells[i].user_set(),
                forall|i: int| row * 9 <= i < CELL_COUNT ==> #[trigger] self.cells@[i] == old_cells[i],
            decreases GRID_SIZE - row,
        {
            let mut column: usize = 0;
            while column < GRID_SIZE
                invariant
                    self.wf(),
                    self.debug_output == old(self).debug_output,
                    old_cells == old(self).cells@,
                    old_cells.len() == CELL_COUNT,
                    p == grid_clue_rows(old_cells),
                    !placements_conflict(p),
                    row < GRID_SIZE,
                    column <= GRID_SIZE,
                    forall|r: int, c: int|
                        0 <= r < GRID_SIZE && 0 <= c < GRID_SIZE ==> candidate_bits(
                            p,
                            r,
                            c,
                            #[trigger] candidate_masks@[r]@[c],
                        ),
                    row > 0 || column > 0 ==> completions(p).len() > 0,
                    forall|i: int|
                        0 <= i < row * 9 + column ==> #[trigger] candidate_bits(p, i / 9, i % 9, self.cells@[i].mask()),
                    forall|i: int|
                        0 <= i < row * 9 + column ==> #[trigger] self.cells@[i].user_set() == old_cells[i].user_set(),
                    forall|i: int| row * 9 + column <= i < CELL_COUNT ==> #[trigger] self.cells@[i] == old_cells[i],
                decreases GRID_SIZE - column,
            {
                let k = row * GRID_SIZE + column;
                let mut cell = self.cells[k];
                let was_user_set = cell.is_set_by_user();
                let cell_mask = candidate_masks[row][column];
                proof {
                    assert(cell_mask == candidate_masks@[row as int]@[column as int]);
                    assert(candidate_bits(p, row as int, column as int, cell_mask));
                    assert(k / 9 == row && k % 9 == column);
                }
                if cell_mask == 0 {
                    proof {
                        crate::bits::lemma_zero_iff_no_bits(cell_mask);
                        if completions(p).len() > 0 {
                            let s0 = completions(p).choose();
                            crate::exact_cover::lemma_completion_witness(p);
                            lemma_cell_has_candidate(p, s0, row as int, column as int);
                            let v = choose|v: int| 1 <= v <= 9 && #[trigger] candidate(p, row as int, column as int, v);
                            assert(bit_set(cell_mask, v - 1));
                        }
                        assert(row == 0 && column == 0);
                        assert(self.cells@ =~= old_cells);
                    }
                    let mut message = String::from_str("Exact cover produced no candidates for row ");
                    push_decimal(&mut message, row + 1);
                    message.append(" column ");
                    push_decimal(&mut message, column + 1);
                    return Err(message);
                }
                proof {
                    assert(valid_mask(cell_mask)) by {
                        crate::bits::lemma_within_all_values(cell_mask);
                    }
                }
                match cell.set_values(cell_mask) {
                    Ok(_) => {},
                    Err(()) => {
                        proof {
                            assert(false);
                        }
                        return Err(String::new());
                    },
                }
                if was_user_set {
                    cell.lock_set_by_user();
                }
                let ghost before = self.cells@;
                self.cells.set(k, cell);
                proof {
                    assert forall|i: int| 0 <= i < CELL_COUNT implies valid_mask(#[trigger] self.cells@[i].mask()) by {
                        if i != k {
                            assert(self.cells@[i] == before[i]);
                        }
                    }
                    crate::bits::lemma_zero_iff_no_bits(cell_mask);
                    let bi = choose|bi: int| 0 <= bi < 16 && bit_set(cell_mask, bi);
                    assert(candidate(p, row as int, column as int, bi + 1));
                    crate::exact_cover::lemma_candidate_completion(p, row as int, column as int, bi + 1);
                    assert forall|i: int| 0 <= i < row * 9 + column + 1 implies #[trigger] candidate_bits(p, i / 9, i % 9, self.cells@[i].mask()) by {
                        if i < k {
                            assert(self.cells@[i] == before[i]);
                        } else {
                            assert(i == k);
                        }
                    }
                    assert forall|i: int| 0 <= i < row * 9 + column + 1 implies #[trigger] self.cells@[i].user_set() == old_cells[i].user_set() by {
                        if i < k {
                            assert(self.cells@[i] == before[i]);
                        }
                    }
                }
                column = column + 1;
            }
            row = row + 1;
        }
        Ok(())
    }
}

/// The mask of `c` has the bits of `new` and keeps whether the user set it.
pub open spec fn cell_changed_to(old: Cell, new: Cell, mask: u16) -> bool {
    new.mask() == mask && new.user_set() == old.user_set()
}

impl Grid {
    /// A well-formed grid has 81 cells, each with a valid mask.
    pub proof fn lemma_wf(&self)
        requires
            self.wf(),
        ensures
            self.cells().len() == CELL_COUNT,
            forall|i: int| 0 <= i < CELL_COUNT ==> valid_mask(#[trigger] self.cells()[i].mask()),
    {
    }

    /// Replaces the candidate mask of the cell at `row`, `column`; a mask that is empty or
    /// has bits past the nine values is refused. Returns whether the mask changed.
    pub fn set_cell_values(&mut self, row: usize, column: usize, values: u16) -> (r: Result<bool, ()>)
        requires
            old(self).wf(),
            row < GRID_SIZE,
            column < GRID_SIZE,
        ensures
            final(self).wf(),
            final(self).debug() == old(self).debug(),
            final(self).cells().len() == old(self).cells().len(),
            match r {
                Ok(changed) => {
                    let i = cell_index(row as int, column as int);
                    &&& valid_mask(values)
                    &&& cell_changed_to(old(self).cells()[i], final(self).cells()[i], values)
                    &&& changed == (old(self).cells()[i].mask() != values)
                    &&& forall|k: int|
                        0 <= k < old(self).cells().len() && k != i ==> #[trigger] final(self).cells()[k]
                            == old(self).cells()[k]
                },
                Err(_) => !valid_mask(values) && final(self).cells() == old(self).cells(),
            },
    {
        let index = row * GRID_SIZE + column;
        let mut cell = self.cells[index];
        let result = cell.set_values(values);
        if result.is_ok() {
            let ghost before = self.cells@;
            self.cells.set(index, cell);
            proof {
                assert forall|i: int| 0 <= i < CELL_COUNT implies valid_mask(#[trigger] self.cells@[i].mask()) by {
                    if i != index {
                        assert(self.cells@[i] == before[i]);
                    }
                }
            }
        }
        result
    }
}

/// The user-set cells among the first `n`, in row order, each with its row, its column and
/// the value it holds.
pub open spec fn user_settings_below(cells: Seq<Cell>, n: int) -> Seq<(usize, usize, u8)>
    decreases n,
{
    if n <= 0 {
        Seq::empty()
    } else {
        let rest = user_settings_below(cells, n - 1);
        let c = cells[n - 1];
        if c.user_set() {
            rest.push((((n - 1) / 9) as usize, ((n - 1) % 9) as usize, solved_value(c) as u8))
        } else {
            rest
        }
    }
}

/// Forgetting the value the user set at cell `i` failed with `message`: another cell the
/// user set is not solved, and only the cell at `i` was opened; or the values the user set
/// were entered again, as `new` holds them, and left the grid unsolved and without a
/// solution.
pub open spec fn delete_failure(old: Seq<Cell>, i: int, message: Seq<char>, new: Seq<Cell>) -> bool {
    ||| {
        &&& new.len() == old.len()
        &&& new[i].mask() == ALL_VALUES_MASK
        &&& !new[i].user_set()
        &&& forall|k: int| 0 <= k < old.len() && k != i ==> #[trigger] new[k] == old[k]
        &&& unsolved_user_cell_below(new, CELL_COUNT as int)
        &&& message == "Unexpected unsolved user-set cell at row "@ + decimal(
            (first_unsolved_user_cell(new) / 9 + 1) as nat,
        ) + " column "@ + decimal((first_unsolved_user_cell(new) % 9 + 1) as nat)
    }
    ||| {
        &&& replayed_without(old, i, new)
        &&& !(forall|k: int| 0 <= k < CELL_COUNT ==> solved(#[trigger] new[k]))
        &&& completions(grid_clue_rows(new)).len() == 0
        &&& message == "Unexpected unsolvable grid after resetting a user value"@
    }
}

/// A solved mask of the nine values is the mask of its value, a value `1`..`9`.
pub proof fn lemma_solved_mask(m: u16)
    requires
        valid_mask(m),
        ones(m) == 1,
    ensures
        1 <= mask_value(m) <= 9,
        m == value_bit(mask_value(m)),
{
    crate::bits::lemma_single_bit(m);
    let v = choose|v: int| 1 <= v <= 16 && m == #[trigger] value_bit(v);
    crate::bits::lemma_value_bit(v);
    crate::bits::lemma_within_all_values(m);
    assert(bit_set(m, v - 1));
    assert(v <= 9);
}

/// Every one of the nine values is a candidate of an open cell.
proof fn lemma_all_values_bits()
    ensures
        forall|i: int| 0 <= i < 9 ==> #[trigger] bit_set(ALL_VALUES_MASK, i),
{
    assert forall|i: int| 0 <= i < 9 implies #[trigger] bit_set(ALL_VALUES_MASK, i) by {
        let j = i as u16;
        assert(j < 9 ==> (0x1ffu16 >> j) & 1u16 == 1u16) by (bit_vector);
    }
}

/// The cells `t` are an open grid into which the values the user set in `old` were entered
/// again, all but the one at `i`.
pub open spec fn replayed_without(old: Seq<Cell>, i: int, t: Seq<Cell>) -> bool {
    &&& t.len() == CELL_COUNT
    &&& forall|k: int|
        0 <= k < CELL_COUNT ==> if old[k].user_set() && k != i {
            (#[trigger] t[k]).mask() == old[k].mask() && t[k].user_set()
        } else {
            t[k].mask() == ALL_VALUES_MASK && !t[k].user_set()
        }
}

/// Among the first `n` cells, some cell the user set is not solved.
pub open spec fn unsolved_user_cell_below(cells: Seq<Cell>, n: int) -> bool {
    exists|k: int| 0 <= k < n && #[trigger] cells[k].user_set() && !solved(cells[k])
}

/// The first cell the user set that is not solved.
pub open spec fn first_unsolved_user_cell(cells: Seq<Cell>) -> int {
    choose|k: int|
        0 <= k < CELL_COUNT && #[trigger] cells[k].user_set() && !solved(cells[k]) && !unsolved_user_cell_below(
            cells,
            k,
        )
}

/// What one cell shows: its value (zero while open, minus one for a cell with no value
/// left), whether the user set it, whether the checks solved it, and whether it is in error.
#[derive(Debug, Clone, Copy, PartialEq, Eq, Structural)]
pub struct CellSnapshot {
    pub value: i32,
    pub is_user_set: bool,
    pub is_solved: bool,
    pub is_error: bool,
}

/// What the grid shows: every cell in row order, whether the grid is solved, and the
/// remaining solutions counted up to the cap.
#[derive(Debug, PartialEq, Eq)]
pub struct GridSnapshot {
    pub cells: Vec<CellSnapshot>,
    pub is_solved: bool,
    pub remaining_solutions_count: usize,
    pub remaining_solutions_at_least_cap: bool,
    pub remaining_solutions_text: String,
}

/// The snapshot of a cell.
pub open spec fn cell_snapshot(c: Cell) -> CellSnapshot {
    let value: i32 = if solved(c) {
        solved_value(c) as i32
    } else {
        0
    };
    CellSnapshot { value, is_user_set: c.user_set(), is_solved: !c.user_set() && value > 0, is_error: false }
}

/// `snapshot` is what the cells `cells` show: each cell, whether every cell is solved,
/// and the completions counted up to the cap, as a number, as whether the cap was reached,
/// and as text.
pub open spec fn shows(snapshot: GridSnapshot, cells: Seq<Cell>) -> bool {
    let n = vstd::math::min(
        sudoku_grid_trials::MAX_SOLUTION_COUNT as int,
        completions(grid_clue_rows(cells)).len() as int,
    );
    &&& snapshot.cells@.len() == CELL_COUNT
    &&& forall|i: int| 0 <= i < CELL_COUNT ==> #[trigger] snapshot.cells@[i] == cell_snapshot(cells[i])
    &&& snapshot.is_solved == forall|i: int| 0 <= i < CELL_COUNT ==> solved(#[trigger] cells[i])
    &&& snapshot.remaining_solutions_count == n
    &&& snapshot.remaining_solutions_at_least_cap == (n >= sudoku_grid_trials::MAX_SOLUTION_COUNT)
    &&& snapshot.remaining_solutions_text@ == if n >= sudoku_grid_trials::MAX_SOLUTION_COUNT {
        "At least "@ + decimal(n as nat)
    } else {
        decimal(n as nat)
    }
}

/// Each cell of what the grid shows is what the cell holds. A cell with one value left
/// shows that value, whether the user entered it or the checks found it, and is flagged
/// solved exactly when the user did not enter it. A cell with more values left shows 0 and
/// is not flagged solved. The user's flag is the cell's own, and no cell shows an error.
pub proof fn lemma_snapshot_shows_cells(snapshot: GridSnapshot, cells: Seq<Cell>)
    requires
        shows(snapshot, cells),
        cells.len() == CELL_COUNT,
        forall|i: int| 0 <= i < CELL_COUNT ==> valid_mask(#[trigger] cells[i].mask()),
    ensures
        snapshot.cells@.len() == CELL_COUNT,
        forall|i: int|
            0 <= i < CELL_COUNT ==> (#[trigger] snapshot.cells@[i]).is_user_set == cells[i].user_set()
                && !snapshot.cells@[i].is_error,
        forall|i: int|
            0 <= i < CELL_COUNT && ones(cells[i].mask()) == 1 ==> {
                &&& 1 <= (#[trigger] snapshot.cells@[i]).value <= 9
                &&& cells[i].mask() == value_bit(snapshot.cells@[i].value as int)
                &&& snapshot.cells@[i].is_solved == !cells[i].user_set()
            },
        forall|i: int|
            0 <= i < CELL_COUNT && ones(cells[i].mask()) != 1 ==> (#[trigger] snapshot.cells@[i]).value == 0
                && !snapshot.cells@[i].is_solved,
{
    assert forall|i: int| 0 <= i < CELL_COUNT && ones(cells[i].mask()) == 1 implies {
        &&& 1 <= (#[trigger] snapshot.cells@[i]).value <= 9
        &&& cells[i].mask() == value_bit(snapshot.cells@[i].value as int)
        &&& snapshot.cells@[i].is_solved == !cells[i].user_set()
    } by {
        lemma_solved_mask(cells[i].mask());
        assert(snapshot.cells@[i] == cell_snapshot(cells[i]));
    }
    assert forall|i: int| 0 <= i < CELL_COUNT && ones(cells[i].mask()) != 1 implies (#[trigger] snapshot.cells@[i]).value == 0
        && !snapshot.cells@[i].is_solved by {
        assert(snapshot.cells@[i] == cell_snapshot(cells[i]));
    }
}

impl Grid {
    /// The value, row and column of every cell the user set, in row order; refused when a
    /// cell the user set is not solved, naming the first such cell.
    pub fn get_user_settings(&self) -> (r: Result<Vec<(usize, usize, u8)>, String>)
        requires
            self.wf(),
        ensures
            match r {
                Ok(settings) => !unsolved_user_cell_below(self.cells(), CELL_COUNT as int) && settings@
                    == user_settings_below(self.cells(), CELL_COUNT as int),
                Err(message) => unsolved_user_cell_below(self.cells(), CELL_COUNT as int) && ({
                    let k = first_unsolved_user_cell(self.cells());
                    message@ == "Unexpected unsolved user-set cell at row "@ + decimal((k / 9 + 1) as nat)
                        + " column "@ + decimal((k % 9 + 1) as nat)
                }),
            },
    {
        let ghost cells = self.cells@;
        let mut user_settings: Vec<(usize, usize, u8)> = Vec::new();
        let mut row: usize = 0;
        while row < GRID_SIZE
            invariant
                self.wf(),
                cells == self.cells@,
                row <= GRID_SIZE,
                !unsolved_user_cell_below(cells, row * 9),
                user_settings@ == user_settings_below(cells, row * 9),
            decreases GRID_SIZE - row,
        {
            let mut column: usize = 0;
            while column < GRID_SIZE
                invariant
                    self.wf(),
                    cells == self.cells@,
                    row < GRID_SIZE,
                    column <= GRID_SIZE,
                    !unsolved_user_cell_below(cells, row * 9 + column),
                    user_settings@ == user_settings_below(cells, row * 9 + column),
                decreases GRID_SIZE - column,
            {
                let ghost k = row * 9 + column;
                let cell = self.cells[row * GRID_SIZE + column];
                proof {
                    assert(k / 9 == row && k % 9 == column);
                    assert(valid_mask(cell.mask()));
                }
                if cell.is_set_by_user() {
                    match cell.get_value() {
                        Ok(value) => {
                            if value >= 1 && value <= VALUE_MAX {
                                user_settings.push((row, column, value));
                            } else {
                                proof {
                                    assert(!solved(cell));
                                    assert(forall|j: int| 0 <= j < k ==> !(#[trigger] cells[j].user_set() && !solved(cells[j])));
                                    assert(first_unsolved_user_cell(cells) == k) by {
                                        let f = first_unsolved_user_cell(cells);
                                        assert(cells[k].user_set() && !solved(cells[k]) && !unsolved_user_cell_below(cells, k));
                                        if f < k {
                                            assert(unsolved_user_cell_below(cells, k));
                                        } else if f > k {
                                            assert(unsolved_user_cell_below(cells, f));
                                        }
                                    }
                                }
                                let mut message = String::from_str("Unexpected unsolved user-set cell at row ");
                                push_decimal(&mut message, row + 1);
                                message.append(" column ");
                                push_decimal(&mut message, column + 1);
                                return Err(message);
                            }
                        },
                        Err(()) => {
                            proof {
                                assert(false);
                            }
                            return Err(String::new());
                        },
                    }
                }
                proof {
                    assert(!unsolved_user_cell_below(cells, k + 1)) by {
                        if unsolved_user_cell_below(cells, k + 1) {
                            let j = choose|j: int| 0 <= j < k + 1 && #[trigger] cells[j].user_set() && !solved(cells[j]);
                            if j < k {
                                assert(unsolved_user_cell_below(cells, k));
                            }
                        }
                    }
                }
                column = column + 1;
            }
            row = row + 1;
        }
        Ok(user_settings)
    }
}

/// The settings list the cells in row order, each with its solved value.
pub proof fn lemma_user_settings_order(cells: Seq<Cell>, n: int)
    requires
        0 <= n <= CELL_COUNT,
        cells.len() == CELL_COUNT,
    ensures
        forall|j: int|
            0 <= j < user_settings_below(cells, n).len() ==> {
                let e = #[trigger] user_settings_below(cells, n)[j];
                e.2 == solved_value(cells[cell_index(e.0 as int, e.1 as int)]) as u8
            },
        forall|j1: int, j2: int|
            0 <= j1 < j2 < user_settings_below(cells, n).len() ==> cell_index(
                #[trigger] user_settings_below(cells, n)[j1].0 as int,
                user_settings_below(cells, n)[j1].1 as int,
            ) < cell_index(
                #[trigger] user_settings_below(cells, n)[j2].0 as int,
                user_settings_below(cells, n)[j2].1 as int,
            ),
    decreases n,
{
    if n > 0 {
        lemma_user_settings_order(cells, n - 1);
        lemma_user_settings_cells(cells, n - 1);
        let rest = user_settings_below(cells, n - 1);
        let k = n - 1;
        assert(k / 9 < 9 && k % 9 < 9 && (k / 9) * 9 + k % 9 == k) by (nonlinear_arith)
            requires
                0 <= k < 81,
        ;
        if cells[k].user_set() {
            let e = ((k / 9) as usize, (k % 9) as usize, solved_value(cells[k]) as u8);
            let all = user_settings_below(cells, n);
            assert(all == rest.push(e));
            assert(cell_index(e.0 as int, e.1 as int) == k);
            assert forall|j1: int, j2: int| 0 <= j1 < j2 < all.len() implies cell_index(
                #[trigger] all[j1].0 as int,
                all[j1].1 as int,
            ) < cell_index(#[trigger] all[j2].0 as int, all[j2].1 as int) by {
                assert(all[j1] == rest[j1]);
                if j2 < rest.len() {
                    assert(all[j2] == rest[j2]);
                }
            }
        }
    }
}

/// The entries of `user_settings_below(cells, n)` name, each once, the user-set cells among
/// the first `n`, with their positions in the grid.
pub proof fn lemma_user_settings_cells(cells: Seq<Cell>, n: int)
    requires
        0 <= n <= CELL_COUNT,
        cells.len() == CELL_COUNT,
    ensures
        forall|j: int|
            0 <= j < user_settings_below(cells, n).len() ==> {
                let e = #[trigger] user_settings_below(cells, n)[j];
                &&& e.0 < GRID_SIZE && e.1 < GRID_SIZE
                &&& 0 <= cell_index(e.0 as int, e.1 as int) < n
                &&& cells[cell_index(e.0 as int, e.1 as int)].user_set()
            },
        forall|i: int|
            0 <= i < n && #[trigger] cells[i].user_set() ==> exists|j: int|
                0 <= j < user_settings_below(cells, n).len() && cell_index(
                    user_settings_below(cells, n)[j].0 as int,
                    user_settings_below(cells, n)[j].1 as int,
                ) == i,
    decreases n,
{
    if n > 0 {
        lemma_user_settings_cells(cells, n - 1);
        let rest = user_settings_below(cells, n - 1);
        let k = n - 1;
        assert(k / 9 < 9 && k % 9 < 9 && (k / 9) * 9 + k % 9 == k) by (nonlinear_arith)
            requires
                0 <= k < 81,
        ;
        if !cells[k].user_set() {
            assert(user_settings_below(cells, n) == rest);
            assert forall|i: int| 0 <= i < n && #[trigger] cells[i].user_set() implies exists|j: int|
                0 <= j < user_settings_below(cells, n).len() && cell_index(
                    user_settings_below(cells, n)[j].0 as int,
                    user_settings_below(cells, n)[j].1 as int,
                ) == i by {
                assert(i < k);
            }
        } else {
            let e = ((k / 9) as usize, (k % 9) as usize, solved_value(cells[k]) as u8);
            assert(user_settings_below(cells, n) == rest.push(e));
            assert forall|i: int| 0 <= i < n && #[trigger] cells[i].user_set() implies exists|j: int|
                0 <= j < user_settings_below(cells, n).len() && cell_index(
                    user_settings_below(cells, n)[j].0 as int,
                    user_settings_below(cells, n)[j].1 as int,
                ) == i by {
                if i < k {
                    let j = choose|j: int| 0 <= j < rest.len() && cell_index(rest[j].0 as int, rest[j].1 as int) == i;
                    assert(user_settings_below(cells, n)[j] == rest[j]);
                } else {
                    assert(user_settings_below(cells, n)[rest.len() as int] == e);
                }
            }
        }
    }
}

/// The snapshot of a cell, as the grid shows it.
fn snapshot_of(cell: Cell) -> (snapshot: CellSnapshot)
    requires
        valid_mask(cell.mask()),
    ensures
        snapshot == cell_snapshot(cell),
{
    let is_user_set = cell.is_set_by_user();
    let value: i32 = match cell.get_value() {
        Err(()) => -1,
        Ok(0) => 0,
        Ok(v) => v as i32,
    };
    CellSnapshot { value, is_user_set, is_solved: !is_user_set && value > 0, is_error: value == -1 }
}

impl Grid {
    /// Forgets the value the user set at `row`, `column`: the other values the user set are
    /// entered again on an open grid, and the checks run. A cell off the grid is refused; a
    /// cell the user did not set is left as it is.
    pub fn user_delete_value(&mut self, row: usize, column: usize) -> (r: Result<(), String>)
        requires
            old(self).wf(),
            row < usize::MAX,
            column < usize::MAX,
        ensures
            final(self).wf(),
            final(self).debug() == old(self).debug(),
            match r {
                Ok(_) => row < GRID_SIZE && column < GRID_SIZE && if old(self).cells()[cell_index(
                    row as int,
                    column as int,
                )].user_set() {
                    &&& forall|i: int|
                        0 <= i < CELL_COUNT ==> #[trigger] final(self).cells()[i].user_set() == (old(
                            self,
                        ).cells()[i].user_set() && i != cell_index(row as int, column as int))
                    &&& exists|t: Seq<Cell>|
                        #[trigger] replayed_without(old(self).cells(), cell_index(row as int, column as int), t)
                            && ((forall|i: int| 0 <= i < CELL_COUNT ==> solved(#[trigger] t[i])) || completions(
                            grid_clue_rows(t),
                        ).len() > 0) && sudoku_grid_trials::checks_outcome(t, final(self).cells())
                } else {
                    final(self).cells() == old(self).cells()
                },
                Err(message) => if row >= GRID_SIZE {
                    message@ == invalid_row_message(row as int) && final(self).cells() == old(self).cells()
                } else if column >= GRID_SIZE {
                    message@ == invalid_column_message(column as int) && final(self).cells() == old(
                        self,
                    ).cells()
                } else {
                    &&& old(self).cells()[cell_index(row as int, column as int)].user_set()
                    &&& delete_failure(
                        old(self).cells(),
                        cell_index(row as int, column as int),
                        message@,
                        final(self).cells(),
                    )
                },
            },
    {
        if row >= GRID_SIZE {
            return Err(crate::text::with_decimal("Invalid row ", row + 1));
        }
        if column >= GRID_SIZE {
            return Err(crate::text::with_decimal("Invalid column ", column + 1));
        }
        let ghost idx = cell_index(row as int, column as int);
        let ghost start_cells = self.cells@;
        let index = row * GRID_SIZE + column;
        let mut cell = self.cells[index];
        if cell.is_set_by_user() {
            proof {
                assert(start_cells == old(self).cells());
                assert(start_cells[idx].user_set());
            }
            cell.clear();
            proof {
                assert(0x1ffu16 & !0x1ffu16 == 0) by (bit_vector);
            }
            let ghost before = self.cells@;
            self.cells.set(index, cell);
            let ghost cleared = self.cells@;
            proof {
                assert forall|i: int| 0 <= i < CELL_COUNT implies valid_mask(#[trigger] self.cells@[i].mask()) by {
                    if i != index {
                        assert(self.cells@[i] == before[i]);
                    }
                }
                assert forall|i: int| 0 <= i < CELL_COUNT implies #[trigger] cleared[i].user_set() == (start_cells[i].user_set()
                    && i != idx) by {
                    if i != index {
                        assert(cleared[i] == start_cells[i]);
                    }
                }
            }
            let replay_user_settings = self.get_user_settings()?;
            proof {
                lemma_user_settings_cells(cleared, CELL_COUNT as int);
                lemma_user_settings_order(cleared, CELL_COUNT as int);
            }
            let ghost settings = replay_user_settings@;
            self.clear();
            let mut j: usize = 0;
            while j < replay_user_settings.len()
                invariant
                    self.wf(),
                    self.debug() == old(self).debug(),
                    row < GRID_SIZE,
                    column < GRID_SIZE,
                    idx == cell_index(row as int, column as int),
                    start_cells == old(self).cells(),
                    start_cells[idx].user_set(),
                    forall|i: int| 0 <= i < CELL_COUNT ==> #[trigger] cleared[i].user_set() == (start_cells[i].user_set()
                        && i != idx),
                    settings == replay_user_settings@,
                    settings == user_settings_below(cleared, CELL_COUNT as int),
                    cleared.len() == CELL_COUNT,
                    j <= settings.len(),
                    forall|k: int|
                        0 <= k < settings.len() ==> {
                            let e = #[trigger] settings[k];
                            &&& e.0 < GRID_SIZE && e.1 < GRID_SIZE
                            &&& 0 <= cell_index(e.0 as int, e.1 as int) < CELL_COUNT
                            &&& cleared[cell_index(e.0 as int, e.1 as int)].user_set()
                        },
                    forall|i: int|
                        0 <= i < CELL_COUNT && #[trigger] cleared[i].user_set() ==> exists|k: int|
                            0 <= k < settings.len() && cell_index(settings[k].0 as int, settings[k].1 as int) == i,
                    forall|i: int|
                        0 <= i < CELL_COUNT ==> (#[trigger] self.cells()[i].user_set() <==> exists|k: int|
                            0 <= k < j && cell_index(settings[k].0 as int, settings[k].1 as int) == i),
                    forall|k: int|
                        0 <= k < settings.len() ==> {
                            let e = #[trigger] settings[k];
                            e.2 == solved_value(cleared[cell_index(e.0 as int, e.1 as int)]) as u8
                        },
                    forall|k1: int, k2: int|
                        0 <= k1 < k2 < settings.len() ==> cell_index(
                            #[trigger] settings[k1].0 as int,
                            settings[k1].1 as int,
                        ) < cell_index(#[trigger] settings[k2].0 as int, settings[k2].1 as int),
                    !unsolved_user_cell_below(cleared, CELL_COUNT as int),
                    forall|i: int| 0 <= i < CELL_COUNT ==> valid_mask(#[trigger] cleared[i].mask()),
                    forall|i: int|
                        0 <= i < CELL_COUNT ==> if #[trigger] self.cells()[i].user_set() {
                            self.cells()[i].mask() == cleared[i].mask()
                        } else {
                            self.cells()[i].mask() == ALL_VALUES_MASK
                        },
                decreases settings.len() - j,
            {
                let (setting_row, setting_column, setting_value) = replay_user_settings[j];
                let ghost before_set = self.cells();
                proof {
                    let ci = cell_index(setting_row as int, setting_column as int);
                    assert(settings[j as int] == (setting_row, setting_column, setting_value));
                    assert(cleared[ci].user_set());
                    assert(solved(cleared[ci]));
                    lemma_solved_mask(cleared[ci].mask());
                    assert(cleared[ci].mask() == value_bit(setting_value as int));
                    if before_set[ci].user_set() {
                        let k = choose|k: int| 0 <= k < j && cell_index(settings[k].0 as int, settings[k].1 as int) == ci;
                        assert(cell_index(settings[k].0 as int, settings[k].1 as int) < cell_index(
                            settings[j as int].0 as int,
                            settings[j as int].1 as int,
                        ));
                    }
                    assert(before_set[ci].mask() == ALL_VALUES_MASK);
                    lemma_all_values_bits();
                    assert(bit_set(before_set[ci].mask(), setting_value - 1));
                }
                match self.set_value(setting_row, setting_column, setting_value) {
                    Ok(_) => {},
                    Err(error) => {
                        let mut message = String::from_str("Unexpected error resetting row ");
                        push_decimal(&mut message, setting_row + 1);
                        message.append(" column ");
                        push_decimal(&mut message, setting_column + 1);
                        message.append(" value ");
                        push_decimal(&mut message, setting_value as usize);
                        message.append(": ");
                        message.append(error.as_str());
                        return Err(message);
                    },
                }
                let ghost after_set = self.cells();
                self.lock_set_by_user(setting_row, setting_column);
                proof {
                    let ci = cell_index(setting_row as int, setting_column as int);
                    assert forall|i: int| 0 <= i < CELL_COUNT implies if #[trigger] self.cells()[i].user_set() {
                        self.cells()[i].mask() == cleared[i].mask()
                    } else {
                        self.cells()[i].mask() == ALL_VALUES_MASK
                    } by {
                        if i != ci {
                            assert(after_set[i] == before_set[i]);
                        }
                    }
                    assert forall|i: int| 0 <= i < CELL_COUNT implies (#[trigger] self.cells()[i].user_set() <==> exists|k: int|
                        0 <= k < j + 1 && cell_index(settings[k].0 as int, settings[k].1 as int) == i) by {
                        if i != ci {
                            assert(after_set[i] == before_set[i]);
                            if exists|k: int| 0 <= k < j + 1 && cell_index(settings[k].0 as int, settings[k].1 as int) == i {
                                let k = choose|k: int| 0 <= k < j + 1 && cell_index(settings[k].0 as int, settings[k].1 as int) == i;
                                assert(k != j);
                            }
                        } else {
                            assert(cell_index(settings[j as int].0 as int, settings[j as int].1 as int) == i);
                        }
                    }
                }
                j = j + 1;
            }
            let ghost replayed = self.cells();
            proof {
                self.lemma_wf();
                assert forall|i: int| 0 <= i < CELL_COUNT implies #[trigger] replayed[i].user_set() == (start_cells[i].user_set()
                    && i != idx) by {
                    if replayed[i].user_set() {
                        let k = choose|k: int| 0 <= k < settings.len() && cell_index(settings[k].0 as int, settings[k].1 as int) == i;
                        assert(cleared[cell_index(settings[k].0 as int, settings[k].1 as int)].user_set());
                    }
                    if cleared[i].user_set() {
                        let k = choose|k: int| 0 <= k < settings.len() && cell_index(settings[k].0 as int, settings[k].1 as int) == i;
                        assert(replayed[i].user_set());
                    }
                }
            }
            proof {
                assert forall|k: int| 0 <= k < CELL_COUNT implies if start_cells[k].user_set() && k != idx {
                    (#[trigger] replayed[k]).mask() == start_cells[k].mask() && replayed[k].user_set()
                } else {
                    replayed[k].mask() == ALL_VALUES_MASK && !replayed[k].user_set()
                } by {
                    assert(replayed[k].user_set() == (start_cells[k].user_set() && k != idx));
                    assert(self.cells()[k] == replayed[k]);
                    if replayed[k].user_set() {
                        assert(replayed[k].mask() == cleared[k].mask());
                    } else {
                        assert(replayed[k].mask() == ALL_VALUES_MASK);
                    }
                    if k != idx {
                        assert(cleared[k] == start_cells[k]);
                    }
                }
                assert(replayed_without(start_cells, idx, replayed));
            }
            if !self.is_solvable() {
                return Err(String::from_str("Unexpected unsolvable grid after resetting a user value"));
            }
            self.run_exact_cover_checks();
            proof {
                self.lemma_wf();
                let fin = self.cells();
                assert forall|i: int| 0 <= i < CELL_COUNT implies #[trigger] fin[i].user_set() == replayed[i].user_set() by {
                    if sudoku_grid_trials::solved_total(replayed) >= sudoku_grid_trials::START_EXTRA_CHECKS {
                        let p = grid_clue_rows(replayed);
                        if !(placements_conflict(p) || completions(p).len() == 0) {
                            assert(crate::exact_cover::candidate_bits(p, i / 9, i % 9, fin[i].mask()));
                        }
                    } else {
                        assert(sudoku_grid_trials::bits_within(fin[i].mask(), replayed[i].mask()));
                    }
                }
            }
        }
        Ok(())
    }
}

impl Grid {
    /// What the grid shows: each cell, whether the grid is solved, and the remaining
    /// solutions counted up to the cap, as a number and as text.
    pub fn get_grid(&self) -> (snapshot: GridSnapshot)
        requires
            self.wf(),
        ensures
            shows(snapshot, self.cells()),
            forall|i: int|
                0 <= i < CELL_COUNT && ones(self.cells()[i].mask()) == 1 ==> {
                    &&& self.cells()[i].mask() == value_bit((#[trigger] snapshot.cells@[i]).value as int)
                    &&& snapshot.cells@[i].is_solved == !self.cells()[i].user_set()
                },
            forall|i: int|
                0 <= i < CELL_COUNT && ones(self.cells()[i].mask()) != 1 ==> (#[trigger] snapshot.cells@[i]).value
                    == 0 && !snapshot.cells@[i].is_solved,
    {
        let mut cells: Vec<CellSnapshot> = Vec::with_capacity(CELL_COUNT);
        let mut i: usize = 0;
        while i < CELL_COUNT
            invariant
                self.wf(),
                i <= CELL_COUNT,
                cells@.len() == i,
                forall|k: int| 0 <= k < i ==> #[trigger] cells@[k] == cell_snapshot(self.cells()[k]),
            decreases CELL_COUNT - i,
        {
            proof {
                self.lemma_wf();
            }
            cells.push(snapshot_of(self.cells[i]));
            i = i + 1;
        }
        let count = match self.count_exact_cover_solutions_with_cap(sudoku_grid_trials::MAX_SOLUTION_COUNT) {
            Ok(count) => count,
            Err(_) => 0,
        };
        let at_least_cap = count >= sudoku_grid_trials::MAX_SOLUTION_COUNT;
        let text = if at_least_cap {
            crate::text::with_decimal("At least ", count)
        } else {
            crate::text::decimal_string(count)
        };
        let snapshot = GridSnapshot {
            cells,
            is_solved: self.is_solved(),
            remaining_solutions_count: count,
            remaining_solutions_at_least_cap: at_least_cap,
            remaining_solutions_text: text,
        };
        proof {
            self.lemma_wf();
            lemma_snapshot_shows_cells(snapshot, self.cells());
        }
        snapshot
    }
}

} // verus!
