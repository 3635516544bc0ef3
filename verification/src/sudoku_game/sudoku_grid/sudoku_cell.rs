//! One cell of the grid: the values it may still hold, as a mask, and whether the user
//! entered its value.
use vstd::prelude::*;
use crate::bits::{
    ALL_VALUES_MASK, bit_set, lemma_bit_and, lemma_single_bit,
    lemma_trailing_zeros_of_value_bit, lemma_value_bit, lemma_within_all_values, lemma_zero_bits,
    ones, value_bit, value_to_bit,
};
use crate::text::{decimal, decimal_string, digit_char, digit_character};

verus! {

/// The values a cell may still hold (bit `v - 1` for value `v`), and whether the user set it.
#[derive(Clone, Copy)]
pub struct Cell {
    pv: u16,
    set_by_user: bool,
}

/// The value of a solved mask: the one value whose bit it holds.
pub open spec fn mask_value(mask: u16) -> int {
    choose|v: int| 1 <= v <= 9 && mask == value_bit(v)
}

/// The value of the mask of `value` alone is `value`.
pub proof fn lemma_mask_value_of_bit(value: int)
    requires
        1 <= value <= 9,
    ensures
        mask_value(value_bit(value)) == value,
{
    lemma_value_bit(value);
    let w = mask_value(value_bit(value));
    assert(value_bit(value) == value_bit(value));
    lemma_value_bit(w);
    assert(bit_set(value_bit(w), w - 1));
}

/// The value a cell shows: its one value when solved, zero while several are left.
pub open spec fn shown_value(c: Cell) -> int {
    if ones(c.mask()) == 1 {
        mask_value(c.mask())
    } else {
        0
    }
}

/// The text of a cell on the grid: its value, or `.` for an open cell the user did not set.
pub open spec fn glyph_text(c: Cell) -> Seq<char> {
    if !c.user_set() && shown_value(c) == 0 {
        "."@
    } else {
        decimal(shown_value(c) as nat)
    }
}

/// Place `k` of line `band_row` of a cell drawn as three lines of three values, value
/// `3 * band_row + k + 1` at that place: a cell with a value (or set by the user) shows
/// only its value and blanks; an open cell shows each value still possible, `.` for the
/// others.
pub open spec fn candidate_char(c: Cell, band_row: int, k: int) -> char {
    let d = 3 * band_row + k + 1;
    if c.user_set() || shown_value(c) != 0 {
        if shown_value(c) == d {
            digit_char(d)
        } else {
            ' '
        }
    } else if bit_set(c.mask(), d - 1) {
        digit_char(d)
    } else {
        '.'
    }
}

impl Cell {
    /// Only the bits of the nine values are ever set.
    #[verifier::type_invariant]
    spec fn within_values(self) -> bool {
        self.pv != 0 && self.pv & !ALL_VALUES_MASK == 0
    }

    /// The candidate mask.
    pub closed spec fn mask(self) -> u16 {
        self.pv
    }

    /// The user entered this cell's value.
    pub closed spec fn user_set(self) -> bool {
        self.set_by_user
    }

    /// Two cells with the same mask and the same user mark are the same cell.
    pub proof fn lemma_cell_eq(a: Cell, b: Cell)
        requires
            a.mask() == b.mask(),
            a.user_set() == b.user_set(),
        ensures
            a == b,
    {
    }

    /// A cell that may hold any value and was not set by the user.
    pub fn new() -> (c: Cell)
        ensures
            c.mask() == ALL_VALUES_MASK,
            c.mask() != 0,
            !c.user_set(),
    {
        proof {
            assert(0x1ffu16 & !0x1ffu16 == 0) by (bit_vector);
        }
        Cell { pv: ALL_VALUES_MASK, set_by_user: false }
    }

    /// Exactly one value is left.
    pub fn is_solved(&self) -> (r: bool)
        ensures
            r == (ones(self.mask()) == 1),
    {
        crate::bits::count_ones(self.pv) == 1
    }

    /// Some value is left.
    pub fn is_valid(&self) -> (r: bool)
        ensures
            r == (ones(self.mask()) >= 1),
    {
        crate::bits::count_ones(self.pv) >= 1
    }

    /// The user entered this cell's value.
    pub fn is_set_by_user(&self) -> (r: bool)
        ensures
            r == self.user_set(),
    {
        self.set_by_user
    }

    /// Marks the cell as entered by the user.
    pub fn lock_set_by_user(&mut self)
        ensures
            final(self).mask() == old(self).mask(),
            final(self).user_set(),
    {
        proof {
            use_type_invariant(&*self);
        }
        self.set_by_user = true;
    }

    /// The value `value` is still possible here.
    pub fn is_value_valid(&self, value: u8) -> (r: bool)
        requires
            1 <= value <= 16,
        ensures
            r == bit_set(self.mask(), value - 1),
    {
        let bit = value_to_bit(value);
        proof {
            lemma_bit_and(self.pv, bit);
            crate::bits::lemma_zero_iff_no_bits(self.pv & bit);
            assert(bit_set(self.pv & bit, value - 1) == bit_set(self.pv, value - 1));
        }
        let changed_value = self.pv & bit;
        changed_value != 0
    }

    /// The candidate mask.
    pub fn candidate_mask(&self) -> (m: u16)
        ensures
            m == self.mask(),
            m != 0,
            m & !ALL_VALUES_MASK == 0,
    {
        proof {
            use_type_invariant(self);
        }
        self.pv
    }

    /// Makes every value possible again and forgets that the user set it.
    pub fn clear(&mut self)
        ensures
            final(self).mask() == ALL_VALUES_MASK,
            !final(self).user_set(),
    {
        proof {
            assert(0x1ffu16 & !0x1ffu16 == 0) by (bit_vector);
        }
        self.pv = ALL_VALUES_MASK;
        self.set_by_user = false;
    }

    /// Replaces the candidate mask; an empty mask or one with bits past the nine values is
    /// refused. Returns whether the mask changed.
    pub fn set_values(&mut self, values: u16) -> (r: Result<bool, ()>)
        ensures
            final(self).user_set() == old(self).user_set(),
            match r {
                Ok(changed) => values != 0 && values & !ALL_VALUES_MASK == 0 && final(self).mask()
                    == values && changed == (old(self).mask() != values),
                Err(_) => (values == 0 || values & !ALL_VALUES_MASK != 0) && final(self).mask()
                    == old(self).mask(),
            },
    {
        if values == 0 || values & !ALL_VALUES_MASK != 0 {
            return Err(());
        }
        if self.pv == values {
            return Ok(false);
        }
        self.pv = values;
        Ok(true)
    }

    /// Narrows the cell to the value `value`; refused when `value` is no longer possible.
    /// Returns whether the mask changed.
    pub fn set_value(&mut self, value: u8) -> (r: Result<bool, ()>)
        requires
            1 <= value <= 16,
        ensures
            final(self).user_set() == old(self).user_set(),
            match r {
                Ok(changed) => bit_set(old(self).mask(), value - 1) && final(self).mask() == value_bit(
                    value as int,
                ) && changed == (old(self).mask() != value_bit(value as int)),
                Err(_) => !bit_set(old(self).mask(), value - 1) && final(self).mask() == old(self).mask(),
            },
    {
        proof {
            use_type_invariant(&*self);
        }
        let bit = value_to_bit(value);
        let changed_value = self.pv & bit;
        proof {
            lemma_bit_and(self.pv, bit);
            lemma_zero_bits();
            crate::bits::lemma_zero_iff_no_bits(bit);
            assert(bit_set(bit, value - 1));
            assert(bit != 0);
            assert forall|i: int| 0 <= i < 16 implies (#[trigger] bit_set(changed_value, i) <==> (bit_set(self.pv, value - 1) && i == value - 1)) by {}
            if bit_set(self.pv, value - 1) {
                assert forall|i: int| 0 <= i < 16 implies (#[trigger] bit_set(changed_value, i) <==> bit_set(bit, i)) by {}
                crate::bits::lemma_bits_equal(changed_value, bit);
            } else {
                assert forall|i: int| 0 <= i < 16 implies (#[trigger] bit_set(changed_value, i) <==> bit_set(0u16, i)) by {}
                crate::bits::lemma_bits_equal(changed_value, 0u16);
            }
            assert(changed_value & !ALL_VALUES_MASK == 0) by {
                lemma_within_all_values(self.pv);
                lemma_within_all_values(changed_value);
            }
        }
        if changed_value == 0 {
            return Err(());
        }
        proof {
            assert(changed_value != 0);
        }
        if changed_value == self.pv {
            return Ok(false);
        }
        self.pv = changed_value;
        Ok(true)
    }

    /// The value of a solved cell, `0` for a cell with several values left, refused for a
    /// cell with none.
    pub fn get_value(&self) -> (r: Result<u8, ()>)
        ensures
            match r {
                Ok(v) => self.mask() != 0 && if ones(self.mask()) == 1 {
                    1 <= v <= 9 && self.mask() == value_bit(v as int) && v == mask_value(self.mask())
                } else {
                    v == 0
                },
                Err(_) => self.mask() == 0,
            },
    {
        proof {
            use_type_invariant(self);
        }
        if self.pv == 0 {
            return Err(());
        }
        if !self.is_solved() {
            return Ok(0);
        }
        proof {
            lemma_single_bit(self.pv);
            let v = choose|v: int| 1 <= v <= 16 && self.pv == #[trigger] value_bit(v);
            lemma_value_bit(v);
            lemma_within_all_values(self.pv);
            assert(bit_set(self.pv, v - 1));
            assert(v <= 9);
            lemma_trailing_zeros_of_value_bit(v);
            assert(mask_value(self.pv) == v) by {
                let w = mask_value(self.pv);
                lemma_value_bit(w);
                assert(bit_set(self.pv, w - 1));
            }
        }
        Ok((self.pv.trailing_zeros() + 1) as u8)
    }

    /// The text of the cell on the grid.
    pub fn glyph(&self) -> (text: String)
        ensures
            text@ == glyph_text(*self),
    {
        proof {
            use_type_invariant(self);
        }
        match self.get_value() {
            Ok(value) => {
                if !self.set_by_user && value == 0 {
                    String::from_str(".")
                } else {
                    decimal_string(value as usize)
                }
            },
            Err(_) => {
                proof {
                    assert(false);
                }
                String::new()
            },
        }
    }

    /// Line `band_row` of the cell drawn as three lines of three values.
    pub fn candidate_glyphs(&self, band_row: usize) -> (line: [char; 3])
        requires
            band_row < 3,
        ensures
            forall|k: int| 0 <= k < 3 ==> #[trigger] line@[k] == candidate_char(*self, band_row as int, k),
    {
        proof {
            use_type_invariant(self);
        }
        let value = match self.get_value() {
            Ok(value) => value,
            Err(_) => {
                proof {
                    assert(false);
                }
                0
            },
        };
        let first = (3 * band_row + 1) as u8;
        let mut line = [' ', ' ', ' '];
        let mut k: u8 = 0;
        while k < 3
            invariant
                band_row < 3,
                first == 3 * band_row + 1,
                k <= 3,
                value == shown_value(*self),
                forall|j: int| 0 <= j < k ==> #[trigger] line@[j] == candidate_char(*self, band_row as int, j),
            decreases 3 - k,
        {
            let d = first + k;
            let c = if self.set_by_user || value != 0 {
                if value == d {
                    digit_character(d)
                } else {
                    ' '
                }
            } else if self.is_value_valid(d) {
                digit_character(d)
            } else {
                '.'
            };
            line[k as usize] = c;
            k = k + 1;
        }
        line
    }
}

} // verus!
