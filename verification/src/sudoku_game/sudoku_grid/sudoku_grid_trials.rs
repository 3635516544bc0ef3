//! The checks that narrow candidates as clues are entered, and the solution counts.
use vstd::prelude::*;
use super::{
    GRID_SIZE, Grid, box_bounds, cell_index, direct_conflict, grid_clue_rows,
    is_peer, solved, solved_value, valid_mask,
};
use super::sudoku_cell::Cell;
use crate::bits::{
    ALL_VALUES_MASK, bit_set, lemma_bit_and, lemma_bit_not, lemma_bits_equal, lemma_ones_and, lemma_value_bit,
    lemma_zero_iff_no_bits, ones, value_bit, value_to_bit,
};
use crate::exact_cover::{CELL_COUNT, completions};
use crate::text::{decimal, push_decimal};

verus! {

/// The cap of every solution count shown to the user.
pub const MAX_SOLUTION_COUNT: usize = 50;

/// Solved cells from which the exact-cover checks replace the direct checks.
pub const START_EXTRA_CHECKS: usize = 10;

/// Solved cells from which the remaining solutions are counted for the user.
pub const START_SOLUTION_COUNT: usize = 16;

/// The number of solved cells among the first `n`.
pub open spec fn solved_below(cells: Seq<Cell>, n: int) -> nat
    decreases n,
{
    if n <= 0 {
        0
    } else {
        solved_below(cells, n - 1) + if solved(cells[n - 1]) {
            1nat
        } else {
            0nat
        }
    }
}

/// The number of solved cells.
pub open spec fn solved_total(cells: Seq<Cell>) -> nat {
    solved_below(cells, CELL_COUNT as int)
}

/// The bits of `mask` are the values no solved peer of the cell at `row`, `column` holds.
pub open spec fn direct_bits(cells: Seq<Cell>, row: int, column: int, mask: u16) -> bool {
    forall|i: int|
        0 <= i < 16 ==> (#[trigger] bit_set(mask, i) <==> (i < 9 && !direct_conflict(
            cells,
            row,
            column,
            i + 1,
        )))
}

/// The bits of `a` are among the bits of `b`.
pub open spec fn bits_within(a: u16, b: u16) -> bool {
    forall|i: int| 0 <= i < 16 ==> #[trigger] bit_set(a, i) ==> bit_set(b, i)
}

/// Every cell of `new` keeps only candidates it had in `old`, and whether the user set it.
pub open spec fn narrowed(old: Seq<Cell>, new: Seq<Cell>) -> bool {
    &&& new.len() == old.len()
    &&& forall|i: int|
        0 <= i < old.len() ==> bits_within(#[trigger] new[i].mask(), old[i].mask()) && new[i].user_set()
            == old[i].user_set()
}

/// A mask with some value left, all of whose values are `value`, is the mask of `value`.
pub proof fn lemma_within_single(m: u16, value: int)
    requires
        1 <= value <= 9,
        m != 0,
        bits_within(m, value_bit(value)),
    ensures
        m == value_bit(value),
{
    lemma_value_bit(value);
    lemma_zero_iff_no_bits(m);
    let j = choose|j: int| 0 <= j < 16 && #[trigger] bit_set(m, j);
    assert(bit_set(value_bit(value), j));
    assert forall|i: int| 0 <= i < 16 implies (#[trigger] bit_set(m, i) <==> bit_set(value_bit(value), i)) by {
        if bit_set(m, i) {
            assert(bit_set(value_bit(value), i));
        }
    }
    lemma_bits_equal(m, value_bit(value));
}

/// The cells solved in `old` hold the same value in `new`.
pub open spec fn kept_solved(old: Seq<Cell>, new: Seq<Cell>) -> bool {
    forall|k: int| 0 <= k < CELL_COUNT && solved(old[k]) ==> #[trigger] new[k].mask() == old[k].mask()
}

/// Every candidate that `new` dropped from a cell of `old` is the value of a solved peer
/// of that cell in `new`.
pub open spec fn justified(old: Seq<Cell>, new: Seq<Cell>) -> bool {
    forall|k: int, v: int|
        0 <= k < CELL_COUNT && 1 <= v <= 9 && bit_set(old[k].mask(), v - 1) && !#[trigger] bit_set(
            new[k].mask(),
            v - 1,
        ) ==> direct_conflict(new, k / 9, k % 9, v)
}

/// No solved cell shares its value with a solved peer.
pub open spec fn consistent(cells: Seq<Cell>) -> bool {
    forall|k: int|
        0 <= k < CELL_COUNT && #[trigger] solved(cells[k]) ==> !direct_conflict(cells, k / 9, k % 9, solved_value(cells[k]))
}

/// Every cell has some value left.
pub open spec fn all_valid(cells: Seq<Cell>) -> bool {
    &&& cells.len() == CELL_COUNT
    &&& forall|k: int| 0 <= k < CELL_COUNT ==> valid_mask(#[trigger] cells[k].mask())
}

/// Each cell of `x` keeps only candidates the same cell of `cells` has.
pub open spec fn within_cells(x: Seq<Cell>, cells: Seq<Cell>) -> bool {
    forall|k: int| 0 <= k < CELL_COUNT ==> bits_within(#[trigger] x[k].mask(), cells[k].mask())
}

/// `cells` keeps every candidate that a grid narrowed from `old` keeps, when that grid
/// has a value left in each cell, no candidate that a solved peer holds, and no two
/// solved peers alike: of all such grids, `cells` has the most candidates.
pub open spec fn most_candidates(old: Seq<Cell>, cells: Seq<Cell>) -> bool {
    forall|x: Seq<Cell>|
        #[trigger] narrowed(old, x) && all_valid(x) && directly_settled(x) && consistent(x) ==> within_cells(x, cells)
}

/// A grid within `cells` that is settled and consistent keeps, in the cell at `k`, only
/// values that no solved peer of `cells` holds.
proof fn lemma_settled_within_direct(x: Seq<Cell>, cells: Seq<Cell>, k: int, mask: u16)
    requires
        all_valid(x),
        directly_settled(x),
        consistent(x),
        within_cells(x, cells),
        all_valid(cells),
        0 <= k < CELL_COUNT,
        direct_bits(cells, k / 9, k % 9, mask),
    ensures
        bits_within(x[k].mask(), mask),
{
    crate::bits::lemma_within_all_values(x[k].mask());
    assert forall|i: int| 0 <= i < 16 && #[trigger] bit_set(x[k].mask(), i) implies bit_set(mask, i) by {
        assert(i < 9);
        let v = i + 1;
        if direct_conflict(cells, k / 9, k % 9, v) {
            let (r, c) = choose|r: int, c: int|
                #[trigger] is_peer(k / 9, k % 9, r, c) && solved(cells[cell_index(r, c)]) && solved_value(
                    cells[cell_index(r, c)],
                ) == v;
            let p = cell_index(r, c);
            assert(0 <= p < CELL_COUNT) by (nonlinear_arith)
                requires
                    0 <= r < 9,
                    0 <= c < 9,
                    p == r * 9 + c,
            ;
            super::lemma_solved_mask(cells[p].mask());
            assert(cells[p].mask() == value_bit(v));
            assert(bits_within(x[p].mask(), cells[p].mask()));
            lemma_within_single(x[p].mask(), v);
            lemma_value_bit(v);
            super::sudoku_cell::lemma_mask_value_of_bit(v);
            assert(solved(x[p]) && solved_value(x[p]) == v);
            assert(direct_conflict(x, k / 9, k % 9, v));
            if solved(x[k]) {
                super::lemma_solved_mask(x[k].mask());
                let w = solved_value(x[k]);
                lemma_value_bit(w);
                assert(w == v);
                assert(!direct_conflict(x, k / 9, k % 9, solved_value(x[k])));
            } else {
                assert(!direct_conflict(x, k / 9, k % 9, v));
            }
        }
    }
}

/// The coordinates of a cell index.
proof fn lemma_cell_coordinates(r: int, c: int, k: int)
    requires
        0 <= r < 9,
        0 <= c < 9,
        0 <= k < CELL_COUNT,
    ensures
        0 <= cell_index(r, c) < CELL_COUNT,
        cell_index(k / 9, k % 9) == k,
        0 <= k / 9 < 9,
        0 <= k % 9 < 9,
        cell_index(r, c) == k ==> r == k / 9 && c == k % 9,
{
    assert(0 <= r * 9 + c < 81 && (k / 9) * 9 + k % 9 == k && 0 <= k / 9 < 9 && 0 <= k % 9 < 9 && (r * 9 + c == k
        ==> r == k / 9 && c == k % 9)) by (nonlinear_arith)
        requires
            0 <= r < 9,
            0 <= c < 9,
            0 <= k < 81,
    ;
}

/// Narrowing an unsolved cell to values no solved peer holds keeps the solved cells free
/// of conflicts.
proof fn lemma_consistent_step(before: Seq<Cell>, after: Seq<Cell>, k: int, mask: u16)
    requires
        before.len() == CELL_COUNT,
        all_valid(after),
        0 <= k < CELL_COUNT,
        !solved(before[k]),
        forall|i: int| 0 <= i < CELL_COUNT && i != k ==> #[trigger] after[i] == before[i],
        consistent(before),
        direct_bits(before, k / 9, k % 9, mask),
        bits_within(after[k].mask(), mask),
    ensures
        consistent(after),
{
    assert forall|j: int| 0 <= j < CELL_COUNT && #[trigger] solved(after[j]) implies !direct_conflict(
        after,
        j / 9,
        j % 9,
        solved_value(after[j]),
    ) by {
        let w = solved_value(after[j]);
        super::lemma_solved_mask(after[j].mask());
        lemma_value_bit(w);
        if direct_conflict(after, j / 9, j % 9, w) {
            let (r, c) = choose|r: int, c: int|
                #[trigger] is_peer(j / 9, j % 9, r, c) && solved(after[cell_index(r, c)]) && solved_value(
                    after[cell_index(r, c)],
                ) == w;
            let p = cell_index(r, c);
            lemma_cell_coordinates(r, c, k);
            lemma_cell_coordinates(r, c, j);
            if j == k {
                assert(bit_set(after[k].mask(), w - 1));
                assert(bit_set(mask, w - 1));
                assert(p != k);
                assert(after[p] == before[p]);
                assert(direct_conflict(before, k / 9, k % 9, w));
            } else {
                assert(after[j] == before[j]);
                assert(!direct_conflict(before, j / 9, j % 9, w));
                if p == k {
                    super::lemma_solved_mask(after[k].mask());
                    lemma_value_bit(solved_value(after[k]));
                    assert(bit_set(after[k].mask(), w - 1));
                    assert(bit_set(mask, w - 1));
                    assert(is_peer(k / 9, k % 9, j / 9, j % 9));
                    assert(direct_conflict(before, k / 9, k % 9, w));
                } else {
                    assert(after[p] == before[p]);
                    assert(direct_conflict(before, j / 9, j % 9, w));
                }
            }
        }
    }
}

/// A conflict with a solved peer stays when an unsolved cell changes.
proof fn lemma_conflict_persists(before: Seq<Cell>, after: Seq<Cell>, k: int, row: int, column: int, v: int)
    requires
        before.len() == CELL_COUNT,
        after.len() == CELL_COUNT,
        0 <= k < CELL_COUNT,
        !solved(before[k]),
        forall|i: int| 0 <= i < CELL_COUNT && i != k ==> #[trigger] after[i] == before[i],
        direct_conflict(before, row, column, v),
    ensures
        direct_conflict(after, row, column, v),
{
    let (r, c) = choose|r: int, c: int|
        #[trigger] is_peer(row, column, r, c) && solved(before[cell_index(r, c)]) && solved_value(
            before[cell_index(r, c)],
        ) == v;
    assert(0 <= cell_index(r, c) < CELL_COUNT) by (nonlinear_arith)
        requires
            0 <= r < 9,
            0 <= c < 9,
    ;
    assert(cell_index(r, c) != k);
    assert(after[cell_index(r, c)] == before[cell_index(r, c)]);
}

/// No unsolved cell holds a candidate that a solved peer already holds.
pub open spec fn directly_settled(cells: Seq<Cell>) -> bool {
    forall|k: int, v: int|
        0 <= k < CELL_COUNT && 1 <= v <= 9 && !solved(cells[k]) && #[trigger] bit_set(
            cells[k].mask(),
            v - 1,
        ) ==> !direct_conflict(cells, k / 9, k % 9, v)
}

/// The sum of the candidate counts of all cells.
pub open spec fn mask_weight(cells: Seq<Cell>) -> nat
    decreases cells.len(),
{
    if cells.len() == 0 {
        0
    } else {
        mask_weight(cells.drop_last()) + ones(cells.last().mask())
    }
}

/// Changing one cell changes the weight by the change of its candidate count.
proof fn lemma_weight_update(cells: Seq<Cell>, k: int, c: Cell)
    requires
        0 <= k < cells.len(),
    ensures
        mask_weight(cells.update(k, c)) + ones(cells[k].mask()) == mask_weight(cells) + ones(c.mask()),
    decreases cells.len(),
{
    let u = cells.update(k, c);
    if k == cells.len() - 1 {
        assert(u.drop_last() =~= cells.drop_last());
    } else {
        lemma_weight_update(cells.drop_last(), k, c);
        assert(u.drop_last() =~= cells.drop_last().update(k, c));
    }
}

/// "No valid candidates remain at row R column C".
pub open spec fn no_candidates_message(row: int, column: int) -> Seq<char> {
    "No valid candidates remain at row "@ + decimal((row + 1) as nat) + " column "@ + decimal(
        (column + 1) as nat,
    )
}

impl Grid {
    /// The number of solved cells.
    pub fn solved_count(&self) -> (n: usize)
        requires
            self.wf(),
        ensures
            n == solved_total(self.cells()),
    {
        proof {
            self.lemma_wf();
        }
        let mut n: usize = 0;
        let mut row: usize = 0;
        while row < GRID_SIZE
            invariant
                self.wf(),
                row <= GRID_SIZE,
                n == solved_below(self.cells(), row * 9),
                n <= row * 9,
            decreases GRID_SIZE - row,
        {
            let mut column: usize = 0;
            while column < GRID_SIZE
                invariant
                    self.wf(),
                    row < GRID_SIZE,
                    column <= GRID_SIZE,
                    n == solved_below(self.cells(), row * 9 + column),
                    n <= row * 9 + column,
                decreases GRID_SIZE - column,
            {
                if self.cell(row, column).is_solved() {
                    n = n + 1;
                }
                column = column + 1;
            }
            row = row + 1;
        }
        n
    }

    /// Whether enough cells are solved for the exact-cover checks to take over.
    pub fn should_start_extra_checks(&self) -> (r: bool)
        requires
            self.wf(),
        ensures
            r == (solved_total(self.cells()) >= START_EXTRA_CHECKS),
    {
        if self.solved_count() >= START_EXTRA_CHECKS {
            return true;
        }
        false
    }

    /// Whether some filled grid agrees with every solved cell; a grid whose cells are all
    /// solved counts as solvable as it stands.
    pub fn is_solvable(&self) -> (r: bool)
        requires
            self.wf(),
        ensures
            r == ((forall|i: int| 0 <= i < CELL_COUNT ==> solved(#[trigger] self.cells()[i])) || completions(
                grid_clue_rows(self.cells()),
            ).len() > 0),
    {
        if self.is_solved() {
            return true;
        }
        match self.count_exact_cover_solutions_with_cap(1) {
            Ok(count) => count > 0,
            Err(_) => false,
        }
    }

    /// The filled grids that agree with every solved cell, counted up to the cap:
    /// `Err(1)` for a grid already solved, `Err(0)` for none, `Err(cap)` for at least the
    /// cap, else the count.
    pub fn count_solutions(&self) -> (r: Result<usize, usize>)
        requires
            self.wf(),
        ensures
            ({
                let n = completions(grid_clue_rows(self.cells())).len();
                r == if forall|i: int| 0 <= i < CELL_COUNT ==> solved(#[trigger] self.cells()[i]) {
                    Err(1usize)
                } else if n >= MAX_SOLUTION_COUNT {
                    Err(MAX_SOLUTION_COUNT)
                } else if n == 0 {
                    Err(0usize)
                } else {
                    Ok(n as usize)
                }
            }),
    {
        if self.is_solved() {
            return Err(1);
        }
        let solution_count = match self.count_exact_cover_solutions_with_cap(MAX_SOLUTION_COUNT) {
            Ok(count) => count,
            Err(_) => return Err(0),
        };
        if solution_count >= MAX_SOLUTION_COUNT {
            return Err(MAX_SOLUTION_COUNT);
        } else if solution_count == 0 {
            return Err(0);
        }
        Ok(solution_count)
    }

    /// The remaining solutions counted up to the cap, once enough cells are solved.
    pub fn remaining_solution_count_for_user_clues(&self) -> (r: Option<Result<usize, String>>)
        requires
            self.wf(),
        ensures
            r == if solved_total(self.cells()) < START_SOLUTION_COUNT {
                None::<Result<usize, String>>
            } else {
                Some(
                    Ok::<usize, String>(
                        vstd::math::min(
                            MAX_SOLUTION_COUNT as int,
                            completions(grid_clue_rows(self.cells())).len() as int,
                        ) as usize,
                    ),
                )
            },
    {
        if self.solved_count() < START_SOLUTION_COUNT {
            return None;
        }
        Some(self.count_exact_cover_solutions_with_cap(MAX_SOLUTION_COUNT))
    }

    /// What to tell the user about the remaining solutions, once enough cells are solved:
    /// the exact count below the cap, or that there are at least as many as the cap.
    pub fn remaining_solution_count_message(&self) -> (r: Option<String>)
        requires
            self.wf(),
        ensures
            ({
                let n = vstd::math::min(
                    MAX_SOLUTION_COUNT as int,
                    completions(grid_clue_rows(self.cells())).len() as int,
                );
                match r {
                    None => solved_total(self.cells()) < START_SOLUTION_COUNT,
                    Some(message) => solved_total(self.cells()) >= START_SOLUTION_COUNT && message@
                        == if n >= MAX_SOLUTION_COUNT {
                        "There are at least "@ + decimal(n as nat) + " solutions remaining"@
                    } else {
                        "There are exactly "@ + decimal(n as nat) + " remaining solutions"@
                    },
                }
            }),
    {
        match self.remaining_solution_count_for_user_clues() {
            Some(Ok(count)) => {
                if count >= MAX_SOLUTION_COUNT {
                    let mut message = crate::text::with_decimal("There are at least ", count);
                    message.append(" solutions remaining");
                    Some(message)
                } else {
                    let mut message = crate::text::with_decimal("There are exactly ", count);
                    message.append(" remaining solutions");
                    Some(message)
                }
            },
            Some(Err(error)) => {
                let mut message = String::from_str("Unable to count remaining solutions: ");
                message.append(error.as_str());
                Some(message)
            },
            None => None,
        }
    }
}

/// Clearing the bit of value `v` from a mask keeps the other bits.
proof fn lemma_clear_value_bit(mask: u16, v: int)
    requires
        1 <= v <= 9,
    ensures
        forall|i: int|
            0 <= i < 16 ==> (#[trigger] bit_set(mask & !crate::bits::value_bit(v), i) <==> (bit_set(mask, i)
                && i != v - 1)),
{
    let b = crate::bits::value_bit(v);
    crate::bits::lemma_value_bit(v);
    lemma_bit_not(b);
    lemma_bit_and(mask, !b);
}

impl Grid {
    /// The values that no solved peer of the cell at `row`, `column` holds, as a mask.
    pub fn direct_constraint_mask_for_cell(&self, row: usize, column: usize) -> (r: Result<u16, String>)
        requires
            self.wf(),
            row < GRID_SIZE,
            column < GRID_SIZE,
        ensures
            match r {
                Ok(mask) => direct_bits(self.cells(), row as int, column as int, mask),
                Err(_) => false,
            },
    {
        proof {
            self.lemma_wf();
        }
        let ghost cells = self.cells();
        let ghost ri = row as int;
        let ghost ci = column as int;
        let mut mask = ALL_VALUES_MASK;
        proof {
            assert forall|i: int| 0 <= i < 16 implies (#[trigger] bit_set(ALL_VALUES_MASK, i) <==> i < 9) by {
                let j = i as u16;
                assert(j < 16 ==> ((0x1ffu16 >> j) & 1u16 == 1u16 <==> j < 9)) by (bit_vector);
            }
        }
        let mut check_column: usize = 0;
        while check_column < GRID_SIZE
            invariant
                self.wf(),
                cells == self.cells(),
                ri == row as int,
                ci == column as int,
                row < GRID_SIZE,
                column < GRID_SIZE,
                check_column <= GRID_SIZE,
                forall|i: int|
                    0 <= i < 16 ==> (#[trigger] bit_set(mask, i) <==> (i < 9 && !exists|c: int|
                        0 <= c < check_column && c != ci && solved(cells[cell_index(ri, c)])
                            && solved_value(cells[cell_index(ri, c)]) == i + 1)),
            decreases GRID_SIZE - check_column,
        {
            let cell = self.cell(row, check_column);
            let ghost old_mask = mask;
            if check_column != column && cell.is_solved() {
                let value = match cell.get_value() {
                    Ok(v) => v,
                    Err(()) => {
                        proof {
                            assert(false);
                        }
                        return Err(String::new());
                    },
                };
                proof {
                    lemma_clear_value_bit(mask, value as int);
                }
                mask = mask & !value_to_bit(value);
            }
            proof {
                assert forall|i: int| 0 <= i < 16 implies (#[trigger] bit_set(mask, i) <==> (i < 9 && !exists|c: int|
                    0 <= c < check_column + 1 && c != ci && solved(cells[cell_index(ri, c)])
                        && solved_value(cells[cell_index(ri, c)]) == i + 1)) by {
                    if bit_set(old_mask, i) && i < 9 {
                        if exists|c: int| 0 <= c < check_column + 1 && c != ci && solved(cells[cell_index(ri, c)])
                            && solved_value(cells[cell_index(ri, c)]) == i + 1 {
                            let c = choose|c: int| 0 <= c < check_column + 1 && c != ci && solved(cells[cell_index(ri, c)])
                                && solved_value(cells[cell_index(ri, c)]) == i + 1;
                            assert(c == check_column);
                        }
                    }
                }
            }
            check_column = check_column + 1;
        }
        let ghost row_mask = mask;
        let mut check_row: usize = 0;
        while check_row < GRID_SIZE
            invariant
                self.wf(),
                cells == self.cells(),
                ri == row as int,
                ci == column as int,
                row < GRID_SIZE,
                column < GRID_SIZE,
                check_row <= GRID_SIZE,
                forall|i: int|
                    0 <= i < 16 ==> (#[trigger] bit_set(mask, i) <==> (i < 9 && !(exists|c: int|
                        0 <= c < 9 && c != ci && solved(cells[cell_index(ri, c)]) && solved_value(
                            cells[cell_index(ri, c)],
                        ) == i + 1) && !(exists|r: int|
                        0 <= r < check_row && r != ri && solved(cells[cell_index(r, ci)])
                            && solved_value(cells[cell_index(r, ci)]) == i + 1))),
            decreases GRID_SIZE - check_row,
        {
            let cell = self.cell(check_row, column);
            let ghost old_mask = mask;
            if check_row != row && cell.is_solved() {
                let value = match cell.get_value() {
                    Ok(v) => v,
                    Err(()) => {
                        proof {
                            assert(false);
                        }
                        return Err(String::new());
                    },
                };
                proof {
                    lemma_clear_value_bit(mask, value as int);
                }
                mask = mask & !value_to_bit(value);
            }
            proof {
                assert forall|i: int| 0 <= i < 16 implies (#[trigger] bit_set(mask, i) <==> (i < 9 && !(exists|c: int|
                    0 <= c < 9 && c != ci && solved(cells[cell_index(ri, c)]) && solved_value(
                        cells[cell_index(ri, c)],
                    ) == i + 1) && !(exists|r: int|
                    0 <= r < check_row + 1 && r != ri && solved(cells[cell_index(r, ci)])
                        && solved_value(cells[cell_index(r, ci)]) == i + 1))) by {
                    if exists|r: int| 0 <= r < check_row + 1 && r != ri && solved(cells[cell_index(r, ci)])
                        && solved_value(cells[cell_index(r, ci)]) == i + 1 {
                        let r = choose|r: int| 0 <= r < check_row + 1 && r != ri && solved(cells[cell_index(r, ci)])
                            && solved_value(cells[cell_index(r, ci)]) == i + 1;
                        if r < check_row {
                            assert(!bit_set(old_mask, i));
                        }
                    }
                }
            }
            check_row = check_row + 1;
        }
        let (start_row, end_row, start_column, end_column) = super::get_box_dimensions(row, column);
        let mut check_row: usize = start_row;
        while check_row < end_row
            invariant
                self.wf(),
                cells == self.cells(),
                ri == row as int,
                ci == column as int,
                row < GRID_SIZE,
                column < GRID_SIZE,
                start_row == box_bounds(ri, ci).0,
                end_row == box_bounds(ri, ci).1,
                start_column == box_bounds(ri, ci).2,
                end_column == box_bounds(ri, ci).3,
                start_row <= check_row <= end_row,
                forall|i: int|
                    0 <= i < 16 ==> (#[trigger] bit_set(mask, i) <==> (i < 9 && !(exists|c: int|
                        0 <= c < 9 && c != ci && solved(cells[cell_index(ri, c)]) && solved_value(
                            cells[cell_index(ri, c)],
                        ) == i + 1) && !(exists|r: int|
                        0 <= r < 9 && r != ri && solved(cells[cell_index(r, ci)]) && solved_value(
                            cells[cell_index(r, ci)],
                        ) == i + 1) && !(exists|r: int, c: int|
                        start_row <= r < check_row && start_column <= c < end_column && !(r == ri
                            && c == ci) && solved(cells[cell_index(r, c)]) && solved_value(
                            cells[cell_index(r, c)],
                        ) == i + 1))),
            decreases end_row - check_row,
        {
            let mut check_column: usize = start_column;
            while check_column < end_column
                invariant
                    self.wf(),
                    cells == self.cells(),
                    ri == row as int,
                    ci == column as int,
                    row < GRID_SIZE,
                    column < GRID_SIZE,
                    start_row == box_bounds(ri, ci).0,
                    end_row == box_bounds(ri, ci).1,
                    start_column == box_bounds(ri, ci).2,
                    end_column == box_bounds(ri, ci).3,
                    start_row <= check_row < end_row,
                    start_column <= check_column <= end_column,
                    forall|i: int|
                        0 <= i < 16 ==> (#[trigger] bit_set(mask, i) <==> (i < 9 && !(exists|c: int|
                            0 <= c < 9 && c != ci && solved(cells[cell_index(ri, c)]) && solved_value(
                                cells[cell_index(ri, c)],
                            ) == i + 1) && !(exists|r: int|
                            0 <= r < 9 && r != ri && solved(cells[cell_index(r, ci)]) && solved_value(
                                cells[cell_index(r, ci)],
                            ) == i + 1) && !(exists|r: int, c: int|
                            ((start_row <= r < check_row && start_column <= c < end_column) || (r
                                == check_row && start_column <= c < check_column)) && !(r == ri && c
                                == ci) && solved(cells[cell_index(r, c)]) && solved_value(
                                cells[cell_index(r, c)],
                            ) == i + 1))),
                decreases end_column - check_column,
            {
                let cell = self.cell(check_row, check_column);
                let ghost old_mask = mask;
                if !(check_row == row && check_column == column) && cell.is_solved() {
                    let value = match cell.get_value() {
                        Ok(v) => v,
                        Err(()) => {
                            proof {
                                assert(false);
                            }
                            return Err(String::new());
                        },
                    };
                    proof {
                        lemma_clear_value_bit(mask, value as int);
                    }
                    mask = mask & !value_to_bit(value);
                }
                proof {
                    let cr = check_row as int;
                    let cc = check_column as int;
                    assert forall|i: int| 0 <= i < 16 implies (#[trigger] bit_set(mask, i) <==> (i < 9 && !(exists|c: int|
                        0 <= c < 9 && c != ci && solved(cells[cell_index(ri, c)]) && solved_value(
                            cells[cell_index(ri, c)],
                        ) == i + 1) && !(exists|r: int|
                        0 <= r < 9 && r != ri && solved(cells[cell_index(r, ci)]) && solved_value(
                            cells[cell_index(r, ci)],
                        ) == i + 1) && !(exists|r: int, c: int|
                        ((start_row <= r < cr && start_column <= c < end_column) || (r == cr
                            && start_column <= c < cc + 1)) && !(r == ri && c == ci) && solved(
                            cells[cell_index(r, c)],
                        ) && solved_value(cells[cell_index(r, c)]) == i + 1))) by {
                        if exists|r: int, c: int|
                            ((start_row <= r < cr && start_column <= c < end_column) || (r == cr
                                && start_column <= c < cc + 1)) && !(r == ri && c == ci) && solved(
                                cells[cell_index(r, c)],
                            ) && solved_value(cells[cell_index(r, c)]) == i + 1 {
                            let (r, c) = choose|r: int, c: int|
                                ((start_row <= r < cr && start_column <= c < end_column) || (r == cr
                                    && start_column <= c < cc + 1)) && !(r == ri && c == ci) && solved(
                                    cells[cell_index(r, c)],
                                ) && solved_value(cells[cell_index(r, c)]) == i + 1;
                            if !(r == cr && c == cc) {
                                assert(!bit_set(old_mask, i));
                            }
                        }
                    }
                }
                check_column = check_column + 1;
            }
            check_row = check_row + 1;
        }
        proof {
            assert forall|i: int| 0 <= i < 16 implies (#[trigger] bit_set(mask, i) <==> (i < 9 && !direct_conflict(
                cells,
                ri,
                ci,
                i + 1,
            ))) by {
                if direct_conflict(cells, ri, ci, i + 1) {
                    let (r, c) = choose|r: int, c: int|
                        #[trigger] is_peer(ri, ci, r, c) && solved(cells[cell_index(r, c)]) && solved_value(
                            cells[cell_index(r, c)],
                        ) == i + 1;
                    if r != ri && c != ci {
                        assert(box_bounds(ri, ci).0 <= r < box_bounds(ri, ci).1);
                        assert(box_bounds(ri, ci).2 <= c < box_bounds(ri, ci).3);
                    }
                } else if i < 9 && !bit_set(mask, i) {
                    if exists|c: int| 0 <= c < 9 && c != ci && solved(cells[cell_index(ri, c)]) && solved_value(
                        cells[cell_index(ri, c)],
                    ) == i + 1 {
                        let c = choose|c: int| 0 <= c < 9 && c != ci && solved(cells[cell_index(ri, c)]) && solved_value(
                            cells[cell_index(ri, c)],
                        ) == i + 1;
                        assert(is_peer(ri, ci, ri, c));
                    } else if exists|r: int| 0 <= r < 9 && r != ri && solved(cells[cell_index(r, ci)]) && solved_value(
                        cells[cell_index(r, ci)],
                    ) == i + 1 {
                        let r = choose|r: int| 0 <= r < 9 && r != ri && solved(cells[cell_index(r, ci)]) && solved_value(
                            cells[cell_index(r, ci)],
                        ) == i + 1;
                        assert(is_peer(ri, ci, r, ci));
                    } else {
                        let (r, c) = choose|r: int, c: int|
                            start_row <= r < end_row && start_column <= c < end_column && !(r == ri
                                && c == ci) && solved(cells[cell_index(r, c)]) && solved_value(
                                cells[cell_index(r, c)],
                            ) == i + 1;
                        assert(is_peer(ri, ci, r, c));
                    }
                }
            }
        }
        Ok(mask)
    }
}

/// Some unsolved cell has only candidates that a solved peer already holds.
pub open spec fn directly_stuck(cells: Seq<Cell>) -> bool {
    exists|k: int| 0 <= k < CELL_COUNT && #[trigger] stuck_at(cells, k)
}

/// The cell at `k` is unsolved and every candidate it has is held by a solved peer.
pub open spec fn stuck_at(cells: Seq<Cell>, k: int) -> bool {
    &&& !solved(cells[k])
    &&& forall|v: int|
        1 <= v <= 9 && #[trigger] bit_set(cells[k].mask(), v - 1) ==> direct_conflict(cells, k / 9, k % 9, v)
}

/// Cell `k`, when unsolved, holds only candidates no solved peer holds.
pub open spec fn settled_at(cells: Seq<Cell>, k: int) -> bool {
    !solved(cells[k]) ==> forall|v: int|
        1 <= v <= 9 && #[trigger] bit_set(cells[k].mask(), v - 1) ==> !direct_conflict(
            cells,
            k / 9,
            k % 9,
            v,
        )
}

/// What the exact-cover checks leave: every cell narrowed to the values some filled grid
/// agreeing with the solved cells puts there, or the grid as it was when the solved cells
/// contradict each other or no filled grid agrees with them.
pub open spec fn exact_cover_checked(old: Seq<Cell>, new: Seq<Cell>) -> bool {
    let p = grid_clue_rows(old);
    if crate::exact_cover::placements_conflict(p) || completions(p).len() == 0 {
        new == old
    } else {
        &&& new.len() == old.len()
        &&& forall|i: int|
            0 <= i < CELL_COUNT ==> crate::exact_cover::candidate_bits(p, i / 9, i % 9, #[trigger] new[i].mask())
                && new[i].user_set() == old[i].user_set()
    }
}

/// What the direct checks leave: every cell narrowed, the solved cells kept, every dropped
/// candidate the value of a solved peer, every candidate kept that a settled grid could
/// keep, no new conflict among solved cells, and either nothing left to narrow or the
/// checks stopped at the first cell a pass found with no candidate that its solved peers
/// allow.
pub open spec fn directly_checked(old: Seq<Cell>, new: Seq<Cell>) -> bool {
    &&& narrowed(old, new)
    &&& kept_solved(old, new)
    &&& justified(old, new)
    &&& most_candidates(old, new)
    &&& consistent(old) ==> consistent(new)
    &&& directly_settled(new) || {
        &&& directly_stuck(new)
        &&& exists|start: Seq<Cell>, k: int|
            0 <= k < CELL_COUNT && narrowed(old, start) && #[trigger] pass_reached(start, new, k)
                && stuck_at(new, k)
    }
}

/// `new` is what the checks that run after a change leave of `old`: the exact-cover checks
/// once enough cells are solved, the direct checks before.
pub open spec fn checks_outcome(old: Seq<Cell>, new: Seq<Cell>) -> bool {
    if solved_total(old) >= START_EXTRA_CHECKS {
        exact_cover_checked(old, new)
    } else {
        directly_checked(old, new)
    }
}

/// The cells as a pass over `start` found them on reaching cell `j`: those before it as
/// the pass left them in `cur`, the others as they were in `start`.
pub open spec fn pass_view(start: Seq<Cell>, cur: Seq<Cell>, j: int) -> Seq<Cell> {
    Seq::new(CELL_COUNT as nat, |p: int| if p < j { cur[p] } else { start[p] })
}

/// The pass over `start` took cell `j` to `cur[j]`: a solved cell is left as it was; an
/// unsolved one keeps the candidates that no solved peer holds in the cells as the pass
/// found them on reaching it.
pub open spec fn passed_cell(start: Seq<Cell>, cur: Seq<Cell>, j: int) -> bool {
    if solved(start[j]) {
        cur[j] == start[j]
    } else {
        &&& cur[j].user_set() == start[j].user_set()
        &&& forall|i: int|
            0 <= i < 16 ==> (#[trigger] bit_set(cur[j].mask(), i) <==> bit_set(start[j].mask(), i) && i < 9
                && !direct_conflict(pass_view(start, cur, j), j / 9, j % 9, i + 1))
    }
}

/// A pass over the cells `start`, in row order, has reached cell `n` and left the cells
/// `cur`: every cell before `n` passed, the others untouched.
pub open spec fn pass_reached(start: Seq<Cell>, cur: Seq<Cell>, n: int) -> bool {
    &&& start.len() == CELL_COUNT
    &&& cur.len() == CELL_COUNT
    &&& forall|i: int| n <= i < CELL_COUNT ==> #[trigger] cur[i] == start[i]
    &&& forall|j: int| 0 <= j < n ==> #[trigger] passed_cell(start, cur, j)
}

/// A cell the pass leaves as it is keeps the pass where it was, one cell further.
proof fn lemma_pass_skip(start: Seq<Cell>, cur: Seq<Cell>, k: int)
    requires
        0 <= k < CELL_COUNT,
        pass_reached(start, cur, k),
        solved(start[k]),
    ensures
        pass_reached(start, cur, k + 1),
{
    assert(cur[k] == start[k]);
    assert(passed_cell(start, cur, k));
}

/// Narrowing cell `k` to the candidates no solved peer holds takes the pass one cell
/// further.
proof fn lemma_pass_step(start: Seq<Cell>, before: Seq<Cell>, after: Seq<Cell>, k: int, direct_mask: u16)
    requires
        0 <= k < CELL_COUNT,
        pass_reached(start, before, k),
        after.len() == CELL_COUNT,
        !solved(before[k]),
        forall|i: int| 0 <= i < CELL_COUNT && i != k ==> #[trigger] after[i] == before[i],
        after[k].user_set() == before[k].user_set(),
        direct_bits(before, k / 9, k % 9, direct_mask),
        forall|i: int|
            0 <= i < 16 ==> (#[trigger] bit_set(after[k].mask(), i) <==> bit_set(before[k].mask(), i) && bit_set(
                direct_mask,
                i,
            )),
    ensures
        pass_reached(start, after, k + 1),
{
    assert(before[k] == start[k]);
    assert(pass_view(start, after, k) =~= before) by {
        assert forall|p: int| 0 <= p < CELL_COUNT implies #[trigger] pass_view(start, after, k)[p] == before[p] by {
            if p >= k {
                assert(before[p] == start[p]);
            }
        }
    }
    assert(passed_cell(start, after, k));
    assert forall|j: int| 0 <= j < k + 1 implies #[trigger] passed_cell(start, after, j) by {
        if j < k {
            assert(passed_cell(start, before, j));
            assert(pass_view(start, after, j) =~= pass_view(start, before, j));
            assert(after[j] == before[j]);
        }
    }
}

/// One narrowing step of the direct checks, at the unsolved cell `k`, keeps everything the
/// passes promise about the cells they leave.
proof fn lemma_narrow_step(
    initial: Seq<Cell>,
    start: Seq<Cell>,
    before: Seq<Cell>,
    after: Seq<Cell>,
    k: int,
    current_mask: u16,
    direct_mask: u16,
)
    requires
        initial.len() == CELL_COUNT,
        start.len() == CELL_COUNT,
        all_valid(before),
        all_valid(after),
        0 <= k < CELL_COUNT,
        !solved(before[k]),
        current_mask == before[k].mask(),
        after[k].mask() == current_mask & direct_mask,
        after[k].user_set() == before[k].user_set(),
        forall|i: int| 0 <= i < CELL_COUNT && i != k ==> #[trigger] after[i] == before[i],
        direct_bits(before, k / 9, k % 9, direct_mask),
        forall|i: int| 0 <= i < 16 ==> (#[trigger] bit_set(current_mask & direct_mask, i) <==> bit_set(current_mask, i) && bit_set(direct_mask, i)),
        narrowed(initial, before),
        narrowed(start, before),
        kept_solved(initial, before),
        justified(initial, before),
        most_candidates(initial, before),
        consistent(initial) ==> consistent(before),
    ensures
        narrowed(before, after),
        narrowed(start, after),
        narrowed(initial, after),
        kept_solved(initial, after),
        justified(initial, after),
        most_candidates(initial, after),
        consistent(initial) ==> consistent(after),
{
    assert forall|i: int| 0 <= i < CELL_COUNT implies bits_within(#[trigger] after[i].mask(), before[i].mask())
        && after[i].user_set() == before[i].user_set() by {
        if i != k {
            assert(after[i] == before[i]);
        }
    }
    assert forall|i: int| 0 <= i < CELL_COUNT implies bits_within(#[trigger] after[i].mask(), start[i].mask())
        && after[i].user_set() == start[i].user_set() by {
        assert(bits_within(after[i].mask(), before[i].mask()));
        assert(bits_within(before[i].mask(), start[i].mask()));
    }
    assert forall|i: int| 0 <= i < CELL_COUNT implies bits_within(#[trigger] after[i].mask(), initial[i].mask())
        && after[i].user_set() == initial[i].user_set() by {
        assert(bits_within(after[i].mask(), before[i].mask()));
        assert(bits_within(before[i].mask(), initial[i].mask()));
    }
    assert(narrowed(before, after));
    assert(narrowed(start, after));
    assert(narrowed(initial, after));
    assert forall|i: int| 0 <= i < CELL_COUNT && solved(initial[i]) implies #[trigger] after[i].mask() == initial[i].mask() by {
        if i == k {
            assert(before[k].mask() == initial[k].mask());
        }
    }
    assert forall|i: int, v: int|
        0 <= i < CELL_COUNT && 1 <= v <= 9 && bit_set(initial[i].mask(), v - 1) && !#[trigger] bit_set(
            after[i].mask(),
            v - 1,
        ) implies direct_conflict(after, i / 9, i % 9, v) by {
        if bit_set(before[i].mask(), v - 1) {
            assert(i == k);
            assert(!bit_set((current_mask & direct_mask), v - 1));
            assert(!bit_set(direct_mask, v - 1));
        }
        lemma_conflict_persists(before, after, k, i / 9, i % 9, v);
    }
    if consistent(initial) {
        assert(bits_within(after[k].mask(), direct_mask));
        lemma_consistent_step(before, after, k, direct_mask);
    }
    assert forall|x: Seq<Cell>|
        #[trigger] narrowed(initial, x) && all_valid(x) && directly_settled(x) && consistent(x) implies within_cells(
        x,
        after,
    ) by {
        assert(within_cells(x, before));
        assert(all_valid(before));
        lemma_settled_within_direct(x, before, k, direct_mask);
        assert forall|i: int| 0 <= i < CELL_COUNT implies bits_within(#[trigger] x[i].mask(), after[i].mask()) by {
            if i != k {
                assert(after[i] == before[i]);
                assert(bits_within(x[i].mask(), before[i].mask()));
            } else {
                assert(bits_within(x[k].mask(), before[k].mask()));
                assert forall|b: int| 0 <= b < 16 && #[trigger] bit_set(x[k].mask(), b) implies bit_set(after[k].mask(), b) by {
                    assert(bit_set(current_mask, b));
                    assert(bit_set(direct_mask, b));
                }
            }
        }
    }
}

impl Grid {
    /// Narrows each unsolved cell to the values that no solved peer holds, pass after pass,
    /// until a pass changes nothing. Refused when a cell is left with no candidate.
    pub fn apply_simple_checks(&mut self) -> (r: Result<(), String>)
        requires
            old(self).wf(),
        ensures
            final(self).wf(),
            final(self).debug() == old(self).debug(),
            narrowed(old(self).cells(), final(self).cells()),
            kept_solved(old(self).cells(), final(self).cells()),
            justified(old(self).cells(), final(self).cells()),
            most_candidates(old(self).cells(), final(self).cells()),
            consistent(old(self).cells()) ==> consistent(final(self).cells()),
            match r {
                Ok(_) => directly_settled(final(self).cells()),
                Err(message) => directly_stuck(final(self).cells()) && exists|start: Seq<Cell>, k: int|
                    0 <= k < CELL_COUNT && narrowed(old(self).cells(), start) && #[trigger] pass_reached(
                        start,
                        final(self).cells(),
                        k,
                    ) && stuck_at(final(self).cells(), k) && message@ == no_candidates_message(k / 9, k % 9),
            },
    {
        let ghost initial = self.cells();
        proof {
            self.lemma_wf();
            assert(narrowed(self.cells(), self.cells()));
            assert forall|x: Seq<Cell>|
                #[trigger] narrowed(initial, x) && all_valid(x) && directly_settled(x) && consistent(x) implies within_cells(
                x,
                initial,
            ) by {
                assert forall|k: int| 0 <= k < CELL_COUNT implies bits_within(#[trigger] x[k].mask(), initial[k].mask()) by {
                    assert(bits_within(x[k].mask(), initial[k].mask()));
                }
            }
        }
        loop
            invariant
                self.wf(),
                self.debug() == old(self).debug(),
                initial == old(self).cells(),
                initial.len() == CELL_COUNT,
                narrowed(initial, self.cells()),
                kept_solved(initial, self.cells()),
                justified(initial, self.cells()),
                most_candidates(initial, self.cells()),
                consistent(initial) ==> consistent(self.cells()),
            decreases mask_weight(self.cells()),
        {
            let ghost start = self.cells();
            let mut changed_any = false;
            let mut row: usize = 0;
            proof {
                self.lemma_wf();
                assert(pass_reached(start, self.cells(), 0));
            }
            while row < GRID_SIZE
                invariant
                    self.wf(),
                    self.debug() == old(self).debug(),
                    start.len() == CELL_COUNT,
                    initial == old(self).cells(),
                    initial.len() == CELL_COUNT,
                    narrowed(initial, self.cells()),
                    kept_solved(initial, self.cells()),
                    justified(initial, self.cells()),
                    most_candidates(initial, self.cells()),
                    consistent(initial) ==> consistent(self.cells()),
                    narrowed(start, self.cells()),
                    narrowed(initial, start),
                    pass_reached(start, self.cells(), row * 9),
                    row <= GRID_SIZE,
                    mask_weight(self.cells()) + (if changed_any { 1int } else { 0int }) <= mask_weight(start),
                    !changed_any ==> self.cells() == start && forall|k: int|
                        0 <= k < row * 9 ==> #[trigger] settled_at(start, k),
                decreases GRID_SIZE - row,
            {
                let mut column: usize = 0;
                while column < GRID_SIZE
                    invariant
                        self.wf(),
                        self.debug() == old(self).debug(),
                        start.len() == CELL_COUNT,
                        initial == old(self).cells(),
                        initial.len() == CELL_COUNT,
                        narrowed(initial, self.cells()),
                        kept_solved(initial, self.cells()),
                        justified(initial, self.cells()),
                        most_candidates(initial, self.cells()),
                        consistent(initial) ==> consistent(self.cells()),
                        narrowed(start, self.cells()),
                        narrowed(initial, start),
                        pass_reached(start, self.cells(), row * 9 + column),
                        row < GRID_SIZE,
                        column <= GRID_SIZE,
                        mask_weight(self.cells()) + (if changed_any { 1int } else { 0int }) <= mask_weight(start),
                        !changed_any ==> self.cells() == start && forall|k: int|
                            0 <= k < row * 9 + column ==> #[trigger] settled_at(start, k),
                    decreases GRID_SIZE - column,
                {
                    let ghost k = row * 9 + column;
                    let ghost before = self.cells();
                    proof {
                        self.lemma_wf();
                        assert(k / 9 == row && k % 9 == column);
                    }
                    let cell = self.cell(row, column);
                    if !cell.is_solved() {
                        let direct_mask = match self.direct_constraint_mask_for_cell(row, column) {
                            Ok(mask) => mask,
                            Err(message) => {
                                proof {
                                    assert(false);
                                }
                                return Err(message);
                            },
                        };
                        let current_mask = cell.candidate_mask();
                        let narrowed_mask = current_mask & direct_mask;
                        proof {
                            lemma_bit_and(current_mask, direct_mask);
                        }
                        if narrowed_mask == 0 {
                            proof {
                                crate::bits::lemma_zero_iff_no_bits(narrowed_mask);
                                assert forall|v: int| 1 <= v <= 9 && #[trigger] bit_set(before[k].mask(), v - 1) implies direct_conflict(before, k / 9, k % 9, v) by {
                                    assert(!bit_set(narrowed_mask, v - 1));
                                }
                                assert(stuck_at(before, k));
                                assert(directly_stuck(before));
                                assert(pass_reached(start, before, k));
                            }
                            let mut message = String::from_str("No valid candidates remain at row ");
                            push_decimal(&mut message, row + 1);
                            message.append(" column ");
                            push_decimal(&mut message, column + 1);
                            proof {
                                assert(message@ == no_candidates_message(k / 9, k % 9));
                            }
                            return Err(message);
                        }
                        match self.set_cell_values(row, column, narrowed_mask) {
                            Ok(changed) => {
                                proof {
                                    let after = self.cells();
                                    assert(after =~= before.update(k, after[k]));
                                    lemma_weight_update(before, k, after[k]);
                                    lemma_ones_and(current_mask, direct_mask);
                                    self.lemma_wf();
                                    lemma_bit_and(current_mask, direct_mask);
                                    lemma_narrow_step(initial, start, before, after, k, current_mask, direct_mask);
                                    lemma_pass_step(start, before, after, k, direct_mask);
                                    if !changed {
                                        Cell::lemma_cell_eq(after[k], before[k]);
                                        assert(after =~= before);
                                        if !changed_any {
                                            assert forall|v: int| 1 <= v <= 9 && #[trigger] bit_set(start[k].mask(), v - 1) implies !direct_conflict(start, k / 9, k % 9, v) by {
                                                assert(bit_set(narrowed_mask, v - 1));
                                            }
                                            assert(settled_at(start, k));
                                        }
                                    }
                                }
                                if changed {
                                    changed_any = true;
                                }
                            },
                            Err(()) => {
                                proof {
                                    crate::bits::lemma_within_all_values(current_mask);
                                    crate::bits::lemma_within_all_values(narrowed_mask);
                                    crate::bits::lemma_zero_iff_no_bits(narrowed_mask);
                                    assert(false);
                                }
                                return Err(String::new());
                            },
                        }
                    } else {
                        proof {
                            assert(settled_at(before, k));
                            lemma_pass_skip(start, before, k);
                        }
                    }
                    column = column + 1;
                }
                row = row + 1;
            }
            if !changed_any {
                proof {
                    assert forall|k: int, v: int|
                        0 <= k < CELL_COUNT && 1 <= v <= 9 && !solved(self.cells()[k]) && #[trigger] bit_set(
                            self.cells()[k].mask(),
                            v - 1,
                        ) implies !direct_conflict(self.cells(), k / 9, k % 9, v) by {
                        assert(settled_at(start, k));
                    }
                }
                return Ok(());
            }
        }
    }

    /// The checks that run after each change: the exact-cover checks once enough cells are
    /// solved, the direct checks before that.
    pub fn run_exact_cover_checks(&mut self)
        requires
            old(self).wf(),
        ensures
            final(self).wf(),
            final(self).debug() == old(self).debug(),
            if solved_total(old(self).cells()) >= START_EXTRA_CHECKS {
                exact_cover_checked(old(self).cells(), final(self).cells())
            } else {
                directly_checked(old(self).cells(), final(self).cells())
            },
    {
        proof {
            self.lemma_wf();
        }
        let ghost before = self.cells();
        if self.should_start_extra_checks() {
            let result = self.apply_exact_cover_checks();
            proof {
                self.lemma_wf();
                let p = grid_clue_rows(before);
                match result {
                    Ok(_) => {
                        assert(!crate::exact_cover::placements_conflict(p));
                        assert(completions(p).len() > 0);
                        assert(exact_cover_checked(before, self.cells()));
                    },
                    Err(_) => {
                        assert(self.cells() == before);
                        assert(crate::exact_cover::placements_conflict(p) || completions(p).len() == 0);
                        assert(exact_cover_checked(before, self.cells()));
                    },
                }
            }
            return;
        }
        let r = self.apply_simple_checks();
        proof {
            match r {
                Ok(_) => {},
                Err(_) => {},
            }
        }
    }
}

} // verus!
