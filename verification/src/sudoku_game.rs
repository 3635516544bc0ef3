//! A game: the grid the user fills in, one value at a time.
use vstd::prelude::*;
use crate::bits::{ALL_VALUES_MASK, bit_set, lemma_value_bit, value_bit};
use crate::exact_cover::{
    CELL_COUNT, candidate, cell_column_of, completions, lemma_conflict_no_completion,
    lemma_placement_index, placements_conflict, row_index_of, sudoku_rows,
};
use crate::text::{decimal, push_decimal};
use sudoku_grid::{
    GRID_SIZE, Grid, GridSnapshot, cell_index, direct_conflict, grid_clue_rows, replayed_without,
    set_value_refusal, solved,
};
use sudoku_grid::sudoku_cell::{Cell, lemma_mask_value_of_bit};
use sudoku_grid::sudoku_grid_trials::{
    MAX_SOLUTION_COUNT, START_EXTRA_CHECKS, bits_within, checks_outcome, lemma_within_single,
    solved_total,
};

pub mod sudoku_grid;

verus! {

/// `new` is `old` with the cell at `i` narrowed to `value`.
pub open spec fn placed(old: Seq<Cell>, i: int, value: int, new: Seq<Cell>) -> bool {
    &&& new.len() == old.len()
    &&& new[i].mask() == value_bit(value)
    &&& new[i].user_set() == old[i].user_set()
    &&& forall|k: int| 0 <= k < old.len() && k != i ==> #[trigger] new[k] == old[k]
}

/// `new` is `old` with the cell at `i` marked as set by the user.
pub open spec fn locked(old: Seq<Cell>, i: int, new: Seq<Cell>) -> bool {
    &&& new.len() == old.len()
    &&& forall|k: int|
        0 <= k < old.len() ==> #[trigger] new[k].mask() == old[k].mask() && new[k].user_set() == (
        old[k].user_set() || k == i)
}

/// The user's value at `row`, `column` entered into the cells `old`, the checks run, and
/// the cell marked as the user's: the grid that results.
pub open spec fn entered(old: Seq<Cell>, row: int, column: int, value: int, new: Seq<Cell>) -> bool {
    exists|t1: Seq<Cell>, t2: Seq<Cell>|
        placed(old, cell_index(row, column), value, t1) && #[trigger] checks_outcome(t1, t2) && locked(
            t2,
            cell_index(row, column),
            new,
        )
}

/// The message with which entering `value` at `row`, `column` into the cells is refused:
/// the grid's own refusal, a solved peer that holds the value, or a grid left without
/// a solution.
pub open spec fn set_value_error(cells: Seq<Cell>, row: int, column: int, value: int) -> Seq<char> {
    match set_value_refusal(cells, row, column, value) {
        Some(refusal) => refusal,
        None => if direct_conflict(cells, row, column, value) {
            decimal(value as nat) + " is not valid for row "@ + decimal((row + 1) as nat) + " column "@
                + decimal((column + 1) as nat) + "!"@
        } else {
            "Setting "@ + decimal(value as nat) + " at row "@ + decimal((row + 1) as nat) + " column "@
                + decimal((column + 1) as nat) + " leads to no possible solutions!"@
        },
    }
}

/// The user's `value` at `row`, `column` was accepted into the cells `old`, with the
/// outcome `outcome`, and gave the cells `new`.
pub open spec fn accepted(old: Seq<Cell>, row: int, column: int, value: int, outcome: SetOutcome, new: Seq<Cell>) -> bool {
    &&& set_value_refusal(old, row, column, value) is None
    &&& match outcome {
        SetOutcome::Unchanged => old[cell_index(row, column)].mask() == value_bit(value) && new == old,
        SetOutcome::Solved => old[cell_index(row, column)].mask() != value_bit(value) && !direct_conflict(
            old,
            row,
            column,
            value,
        ) && entered(old, row, column, value, new) && forall|k: int| 0 <= k < CELL_COUNT ==> solved(#[trigger] new[k]),
        SetOutcome::Accepted => old[cell_index(row, column)].mask() != value_bit(value) && !direct_conflict(
            old,
            row,
            column,
            value,
        ) && entered(old, row, column, value, new) && !(forall|k: int| 0 <= k < CELL_COUNT ==> solved(#[trigger] new[k]))
            && completions(grid_clue_rows(new)).len() > 0,
    }
}

/// The user's `value` at `row`, `column` was refused on the cells `old`, which stay as
/// they were: the grid refused it, a solved peer holds the value, or entering it leaves
/// the grid unsolved and without a solution.
pub open spec fn refused(old: Seq<Cell>, row: int, column: int, value: int, new: Seq<Cell>) -> bool {
    &&& new == old
    &&& set_value_refusal(old, row, column, value) is None && !direct_conflict(old, row, column, value) ==> {
        &&& old[cell_index(row, column)].mask() != value_bit(value)
        &&& exists|t: Seq<Cell>|
            #[trigger] entered(old, row, column, value, t) && !(forall|k: int| 0 <= k < CELL_COUNT ==> solved(#[trigger] t[k]))
                && completions(grid_clue_rows(t)).len() == 0
    }
}

/// The value the user set at `row`, `column` was forgotten: the cell is on the grid, and
/// if the user had set it, the other values the user set were entered again on an open
/// grid, which still had a solution, and the checks ran on it; the cell no longer counts
/// as set by the user while every other cell keeps that mark. A cell the user did not
/// set leaves the cells as they were.
pub open spec fn deleted(old: Seq<Cell>, row: int, column: int, new: Seq<Cell>) -> bool {
    &&& 0 <= row < GRID_SIZE
    &&& 0 <= column < GRID_SIZE
    &&& if old[cell_index(row, column)].user_set() {
        &&& forall|i: int|
            0 <= i < CELL_COUNT ==> #[trigger] new[i].user_set() == (old[i].user_set() && i != cell_index(row, column))
        &&& exists|t: Seq<Cell>|
            #[trigger] replayed_without(old, cell_index(row, column), t) && ((forall|i: int|
                0 <= i < CELL_COUNT ==> solved(#[trigger] t[i])) || completions(grid_clue_rows(t)).len() > 0)
                && checks_outcome(t, new)
    } else {
        new == old
    }
}

/// Forgetting the value at `row`, `column` was refused with `message`: a row or column off
/// the grid leaves the cells as they were; otherwise the user had set the cell and entering
/// the other values again failed, as `delete_failure` tells.
pub open spec fn delete_refused(old: Seq<Cell>, row: int, column: int, message: Seq<char>, new: Seq<Cell>) -> bool {
    if row >= GRID_SIZE {
        message == sudoku_grid::invalid_row_message(row) && new == old
    } else if column >= GRID_SIZE {
        message == sudoku_grid::invalid_column_message(column) && new == old
    } else {
        old[cell_index(row, column)].user_set() && sudoku_grid::delete_failure(old, cell_index(row, column), message, new)
    }
}

/// Once the clues `p` place `value` at `row`, `column`, no other value is a candidate there.
proof fn lemma_clue_cell_candidates(p: Set<int>, row: int, column: int, value: int, w: int)
    requires
        0 <= row < GRID_SIZE,
        0 <= column < GRID_SIZE,
        1 <= value <= 9,
        1 <= w <= 9,
        w != value,
        p.contains(row_index_of(row, column, value)),
    ensures
        !candidate(p, row, column, w),
{
    let x = row_index_of(row, column, value);
    let y = row_index_of(row, column, w);
    let q = p.insert(y);
    lemma_placement_index(row, column, value);
    lemma_placement_index(row, column, w);
    let j = cell_column_of(row, column) as usize;
    assert(sudoku_rows()[x][0] == j);
    assert(sudoku_rows()[y][0] == j);
    assert(sudoku_rows()[x].contains(j));
    assert(sudoku_rows()[y].contains(j));
    assert(x != y);
    assert(q.contains(x) && q.contains(y));
    assert(placements_conflict(q));
    lemma_conflict_no_completion(q);
}

/// The solved cells of `cells` include the cell at `i`, solved as `value`: its placement is
/// among the clue rows.
proof fn lemma_solved_cell_clue(cells: Seq<Cell>, row: int, column: int, value: int)
    requires
        0 <= row < GRID_SIZE,
        0 <= column < GRID_SIZE,
        1 <= value <= 9,
        cells[cell_index(row, column)].mask() == value_bit(value),
    ensures
        grid_clue_rows(cells).contains(row_index_of(row, column, value)),
{
    let x = row_index_of(row, column, value);
    let i = cell_index(row, column);
    assert(0 <= x < 729 && x / 9 == i && x % 9 + 1 == value) by (nonlinear_arith)
        requires
            0 <= row < 9,
            0 <= column < 9,
            1 <= value <= 9,
            x == (row * 9 + column) * 9 + (value - 1),
            i == row * 9 + column,
    ;
    lemma_value_bit(value);
    lemma_mask_value_of_bit(value);
}

/// A value the user entered is what the cell then holds, marked as the user's.
pub proof fn lemma_entered_holds(old: Seq<Cell>, row: int, column: int, value: int, new: Seq<Cell>)
    requires
        0 <= row < GRID_SIZE,
        0 <= column < GRID_SIZE,
        1 <= value <= 9,
        old.len() == CELL_COUNT,
        entered(old, row, column, value, new),
        new[cell_index(row, column)].mask() != 0,
    ensures
        new[cell_index(row, column)].mask() == value_bit(value),
        new[cell_index(row, column)].user_set(),
{
    let i = cell_index(row, column);
    assert(0 <= i < CELL_COUNT && i / 9 == row && i % 9 == column) by (nonlinear_arith)
        requires
            0 <= row < 9,
            0 <= column < 9,
            i == row * 9 + column,
    ;
    let (t1, t2) = choose|t1: Seq<Cell>, t2: Seq<Cell>|
        placed(old, i, value, t1) && #[trigger] checks_outcome(t1, t2) && locked(t2, i, new);
    assert(t1[i].mask() == value_bit(value));
    assert(new[i].mask() == t2[i].mask());
    let m = t2[i].mask();
    if solved_total(t1) >= START_EXTRA_CHECKS {
        let p = grid_clue_rows(t1);
        if placements_conflict(p) || completions(p).len() == 0 {
            assert(t2 == t1);
        } else {
            lemma_solved_cell_clue(t1, row, column, value);
            assert(crate::exact_cover::candidate_bits(p, i / 9, i % 9, m));
            assert forall|k: int| 0 <= k < 16 && #[trigger] bit_set(m, k) implies bit_set(value_bit(value), k) by {
                lemma_value_bit(value);
                if k != value - 1 {
                    assert(k < 9 && candidate(p, row, column, k + 1));
                    lemma_clue_cell_candidates(p, row, column, value, k + 1);
                }
            }
            assert(bits_within(m, value_bit(value)));
            lemma_within_single(m, value);
        }
    } else {
        assert(bits_within(t2[i].mask(), t1[i].mask()));
        lemma_within_single(m, value);
    }
}

/// What entering a value did to a game.
#[derive(Debug, Clone, Copy, PartialEq, Eq, Structural)]
pub enum SetOutcome {
    /// The cell already held the value alone: nothing changed.
    Unchanged,
    /// The value was entered and every cell is now solved.
    Solved,
    /// The value was entered and the grid still has a solution.
    Accepted,
}

/// The grid the user plays on.
pub struct Game {
    grid: Grid,
}

impl Game {
    /// The grid is well formed.
    pub closed spec fn wf(&self) -> bool {
        self.grid.wf()
    }

    /// The cells of the grid, row by row.
    pub closed spec fn cells(&self) -> Seq<Cell> {
        self.grid.cells()
    }

    /// Whether every candidate is shown.
    pub closed spec fn debug(&self) -> bool {
        self.grid.debug()
    }

    /// A game on an open grid.
    pub fn new() -> (g: Game)
        ensures
            g.wf(),
            g.cells().len() == CELL_COUNT,
            forall|i: int|
                0 <= i < CELL_COUNT ==> (#[trigger] g.cells()[i]).mask() == ALL_VALUES_MASK
                    && !g.cells()[i].user_set(),
            !g.debug(),
    {
        Game { grid: Grid::new() }
    }

    /// The grid.
    pub fn grid(&self) -> (g: &Grid)
        requires
            self.wf(),
        ensures
            g.wf(),
            g.cells() == self.cells(),
            g.debug() == self.debug(),
    {
        &self.grid
    }

    /// What the grid shows.
    pub fn get_grid(&mut self) -> (snapshot: GridSnapshot)
        requires
            old(self).wf(),
        ensures
            final(self).wf(),
            final(self).cells() == old(self).cells(),
            final(self).debug() == old(self).debug(),
            sudoku_grid::shows(snapshot, old(self).cells()),
    {
        let snapshot = self.grid.get_grid();
        proof {
            assert(self.cells() == self.grid.cells());
            assert((forall|i: int| 0 <= i < CELL_COUNT ==> solved(#[trigger] self.cells()[i])) == (forall|i: int|
                0 <= i < CELL_COUNT ==> solved(#[trigger] self.grid.cells()[i])));
        }
        snapshot
    }

    /// Shows or hides every candidate.
    pub fn set_debug(&mut self, on: bool)
        requires
            old(self).wf(),
        ensures
            final(self).wf(),
            final(self).cells() == old(self).cells(),
            final(self).debug() == on,
    {
        self.grid.set_debug(on);
    }

    /// Forgets every value and starts over.
    pub fn clear(&mut self)
        requires
            old(self).wf(),
        ensures
            final(self).wf(),
            final(self).debug() == old(self).debug(),
            final(self).cells().len() == CELL_COUNT,
            forall|i: int|
                0 <= i < CELL_COUNT ==> (#[trigger] final(self).cells()[i]).mask() == ALL_VALUES_MASK
                    && !final(self).cells()[i].user_set(),
    {
        self.grid.clear();
    }

    /// The solutions of the grid counted up to the cap, as the grid counts them.
    pub fn count_solutions(&mut self) -> (r: Result<usize, usize>)
        requires
            old(self).wf(),
        ensures
            final(self).wf(),
            final(self).cells() == old(self).cells(),
            final(self).debug() == old(self).debug(),
            ({
                let n = completions(grid_clue_rows(old(self).cells())).len();
                r == if forall|i: int| 0 <= i < CELL_COUNT ==> solved(#[trigger] old(self).cells()[i]) {
                    Err(1usize)
                } else if n >= MAX_SOLUTION_COUNT {
                    Err(MAX_SOLUTION_COUNT)
                } else if n == 0 {
                    Err(0usize)
                } else {
                    Ok(n as usize)
                }
            }),
    {
        self.grid.count_solutions()
    }

    /// Forgets the value the user set at `row`, `column`, as the grid does.
    pub fn user_delete_value(&mut self, row: usize, column: usize) -> (r: Result<(), String>)
        requires
            old(self).wf(),
            row < usize::MAX,
            column < usize::MAX,
        ensures
            final(self).wf(),
            final(self).debug() == old(self).debug(),
            match r {
                Ok(_) => deleted(old(self).cells(), row as int, column as int, final(self).cells()),
                Err(message) => delete_refused(old(self).cells(), row as int, column as int, message@, final(self).cells()),
            },
    {
        self.grid.user_delete_value(row, column)
    }

    /// Every cell is solved.
    pub fn is_solved(&self) -> (r: bool)
        requires
            self.wf(),
        ensures
            r == forall|i: int| 0 <= i < CELL_COUNT ==> solved(#[trigger] self.cells()[i]),
    {
        let r = self.grid.is_solved();
        proof {
            assert(self.cells() == self.grid.cells());
            assert((forall|i: int| 0 <= i < CELL_COUNT ==> solved(#[trigger] self.cells()[i])) == (forall|i: int|
                0 <= i < CELL_COUNT ==> solved(#[trigger] self.grid.cells()[i])));
        }
        r
    }

    /// What to tell the user about the remaining solutions, as the grid words it.
    pub fn remaining_solution_count_message(&self) -> (r: Option<String>)
        requires
            self.wf(),
        ensures
            ({
                let n = vstd::math::min(
                    MAX_SOLUTION_COUNT as int,
                    completions(grid_clue_rows(self.cells())).len() as int,
                );
                match r {
                    None => solved_total(self.cells()) < sudoku_grid::sudoku_grid_trials::START_SOLUTION_COUNT,
                    Some(message) => solved_total(self.cells()) >= sudoku_grid::sudoku_grid_trials::START_SOLUTION_COUNT
                        && message@ == if n >= MAX_SOLUTION_COUNT {
                        "There are at least "@ + decimal(n as nat) + " solutions remaining"@
                    } else {
                        "There are exactly "@ + decimal(n as nat) + " remaining solutions"@
                    },
                }
            }),
    {
        self.grid.remaining_solution_count_message()
    }

    /// Enters the user's `value` at `row`, `column` (numbered from zero) on a copy of the
    /// grid, runs the checks, and keeps the copy only when the value does not repeat a
    /// solved peer and the grid still has a solution. Refused otherwise, and the game is
    /// left as it was; the messages number rows and columns from one.
    pub fn user_set_value(&mut self, row: usize, column: usize, value: u8) -> (r: Result<
        SetOutcome,
        String,
    >)
        requires
            old(self).wf(),
            row < usize::MAX,
            column < usize::MAX,
        ensures
            final(self).wf(),
            final(self).debug() == old(self).debug(),
            r is Ok ==> final(self).cells()[cell_index(row as int, column as int)].mask() == value_bit(value as int),
            (r is Ok && r != Ok::<SetOutcome, String>(SetOutcome::Unchanged)) ==> final(self).cells()[cell_index(
                row as int,
                column as int,
            )].user_set(),
            match r {
                Ok(outcome) => accepted(old(self).cells(), row as int, column as int, value as int, outcome, final(self).cells()),
                Err(message) => refused(old(self).cells(), row as int, column as int, value as int, final(self).cells())
                    && message@ == set_value_error(old(self).cells(), row as int, column as int, value as int),
            },
    {
        let ghost old_cells = self.grid.cells();
        let ghost i = cell_index(row as int, column as int);
        let mut trial_grid = self.grid.duplicate();
        match trial_grid.set_value(row, column, value) {
            Err(out_msg) => return Err(out_msg),
            Ok(changed) => {
                if !changed {
                    return Ok(SetOutcome::Unchanged);
                }
                let ghost t1 = trial_grid.cells();
                proof {
                    trial_grid.lemma_wf();
                    assert(placed(old_cells, i, value as int, t1));
                }
                if trial_grid.has_direct_conflict(row, column, value) {
                    proof {
                        assert(direct_conflict(old_cells, row as int, column as int, value as int)) by {
                            let (r, c) = choose|r: int, c: int|
                                #[trigger] sudoku_grid::is_peer(row as int, column as int, r, c) && solved(
                                    t1[cell_index(r, c)],
                                ) && sudoku_grid::solved_value(t1[cell_index(r, c)]) == value;
                            assert(cell_index(r, c) != i);
                            assert(t1[cell_index(r, c)] == old_cells[cell_index(r, c)]);
                        }
                    }
                    let mut message = crate::text::decimal_string(value as usize);
                    message.append(" is not valid for row ");
                    push_decimal(&mut message, row + 1);
                    message.append(" column ");
                    push_decimal(&mut message, column + 1);
                    message.append("!");
                    return Err(message);
                }
                proof {
                    assert(!direct_conflict(old_cells, row as int, column as int, value as int)) by {
                        if direct_conflict(old_cells, row as int, column as int, value as int) {
                            let (r, c) = choose|r: int, c: int|
                                #[trigger] sudoku_grid::is_peer(row as int, column as int, r, c) && solved(
                                    old_cells[cell_index(r, c)],
                                ) && sudoku_grid::solved_value(old_cells[cell_index(r, c)]) == value;
                            assert(cell_index(r, c) != i);
                            assert(t1[cell_index(r, c)] == old_cells[cell_index(r, c)]);
                            assert(direct_conflict(t1, row as int, column as int, value as int));
                        }
                    }
                }
                trial_grid.run_exact_cover_checks();
                let ghost t2 = trial_grid.cells();
                trial_grid.lock_set_by_user(row, column);
                proof {
                    assert(checks_outcome(t1, t2));
                    assert(locked(t2, i, trial_grid.cells()));
                    assert(entered(old_cells, row as int, column as int, value as int, trial_grid.cells()));
                    trial_grid.lemma_wf();
                    lemma_entered_holds(old_cells, row as int, column as int, value as int, trial_grid.cells());
                }
                if trial_grid.is_solved() {
                    self.grid = trial_grid;
                    return Ok(SetOutcome::Solved);
                } else if trial_grid.is_solvable() {
                    self.grid = trial_grid;
                    return Ok(SetOutcome::Accepted);
                } else {
                    proof {
                        assert(entered(old_cells, row as int, column as int, value as int, trial_grid.cells()));
                    }
                    let mut message = crate::text::with_decimal("Setting ", value as usize);
                    message.append(" at row ");
                    push_decimal(&mut message, row + 1);
                    message.append(" column ");
                    push_decimal(&mut message, column + 1);
                    message.append(" leads to no possible solutions!");
                    return Err(message);
                }
            },
        }
    }
}

} // verus!
