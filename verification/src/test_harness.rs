//! Puzzle files: reading their clues, and judging whether entering them solves the puzzle.
//!
//! A puzzle file holds rows of nine tokens, each a clue `1`..`9` or `.` for an empty cell;
//! `|` may separate the tokens, lines of `=`, `+` and spaces separate the bands, and lines
//! starting with `#` are comments.
use vstd::prelude::*;
use crate::constants::GRID_SIDE;
use crate::bits::ALL_VALUES_MASK;
use crate::exact_cover::CELL_COUNT;
use crate::sudoku_game::{Game, SetOutcome, accepted, refused, set_value_error};
use crate::sudoku_game::sudoku_grid::solved;
use crate::sudoku_game::sudoku_grid::sudoku_cell::Cell;
use crate::text::{decimal, digits_value, is_digit, push_decimal, unsigned_value, with_decimal};
use crate::tokens::{
    back_ws, back_ws_from, is_sep, is_ws, lemma_back_ws_at, lemma_back_ws_bounds, lemma_back_ws_passes,
    lemma_same_tokens, lemma_scan_bounds, lemma_skip_ws_at, lemma_skip_ws_passes, lemma_token_chars,
    lemma_tokens_after_separators, lemma_tokens_before_separators, same_tokens_text, skip_sep,
    skip_ws, skip_ws_from, to_chars, token_end, token_list, tokens_of,
};

verus! {

/// The end of the line that starts at `a`: the next newline, or the end of the text.
pub open spec fn line_end(s: Seq<char>, a: int) -> int
    decreases s.len() - a,
{
    if a >= s.len() || s[a] == '\n' {
        a
    } else {
        line_end(s, a + 1)
    }
}

/// Every character of the line is `=`, `+` or a space.
pub open spec fn is_band_line(line: Seq<char>) -> bool {
    forall|k: int| 0 <= k < line.len() ==> #[trigger] line[k] == '=' || line[k] == '+' || line[k] == ' '
}

/// The clues of a puzzle row `row` from its token `k` on, and whether every token from
/// `k` on is `.` or a value `1`..`9`: the clues stop at the first other token.
pub open spec fn row_clues(tokens: Seq<Seq<char>>, row: int, k: int) -> (Seq<(usize, usize, u8)>, bool)
    decreases tokens.len() - k,
{
    if k >= tokens.len() || k < 0 {
        (Seq::empty(), true)
    } else if tokens[k] == seq!['.'] {
        row_clues(tokens, row, k + 1)
    } else {
        match unsigned_value(tokens[k]) {
            Some(v) => if 1 <= v <= 9 {
                let rest = row_clues(tokens, row, k + 1);
                (seq![(row as usize, k as usize, v as u8)] + rest.0, rest.1)
            } else {
                (Seq::empty(), false)
            },
            None => (Seq::empty(), false),
        }
    }
}

/// The clues of the text from position `a` on, with `row` puzzle rows read before it.
pub open spec fn clues_from(s: Seq<char>, a: int, row: int) -> Seq<(usize, usize, u8)>
    decreases s.len() + 1 - a,
{
    if a >= s.len() || row >= GRID_SIDE || a < 0 {
        Seq::empty()
    } else {
        proof {
            lemma_line_end(s, a);
        }
        let e = line_end(s, a);
        let b = skip_ws(s, a, e);
        let t = back_ws(s, b, e);
        let line = s.subrange(b, t);
        if line.len() == 0 || line[0] == '#' || is_band_line(line) {
            clues_from(s, e + 1, row)
        } else {
            let tokens = token_list(s, b, t, true);
            if tokens.len() != GRID_SIDE {
                clues_from(s, e + 1, row)
            } else {
                let (clues, valid) = row_clues(tokens, row, 0);
                if valid {
                    clues + clues_from(s, e + 1, row + 1)
                } else {
                    clues_from(s, e + 1, row)
                }
            }
        }
    }
}

/// Every clue of a row is on the grid: in that row, in one of its nine columns, with a
/// value `1`..`9`.
pub proof fn lemma_row_clues_on_grid(tokens: Seq<Seq<char>>, row: int, k: int)
    requires
        0 <= row < GRID_SIDE,
        0 <= k,
        tokens.len() == GRID_SIDE,
    ensures
        forall|j: int|
            0 <= j < row_clues(tokens, row, k).0.len() ==> {
                let (r, c, v) = #[trigger] row_clues(tokens, row, k).0[j];
                &&& r == row
                &&& k <= c < GRID_SIDE
                &&& 1 <= v <= 9
            },
    decreases tokens.len() - k,
{
    if k < tokens.len() {
        lemma_row_clues_on_grid(tokens, row, k + 1);
        let rest = row_clues(tokens, row, k + 1);
        if tokens[k] != seq!['.'] {
            match unsigned_value(tokens[k]) {
                Some(v) => {
                    if 1 <= v <= 9 {
                        let all = row_clues(tokens, row, k).0;
                        assert(all == seq![(row as usize, k as usize, v as u8)] + rest.0);
                        assert forall|j: int| 0 <= j < all.len() implies {
                            let (r, c, w) = #[trigger] all[j];
                            &&& r == row
                            &&& k <= c < GRID_SIDE
                            &&& 1 <= w <= 9
                        } by {
                            if j > 0 {
                                assert(all[j] == rest.0[j - 1]);
                            }
                        }
                    }
                },
                None => {},
            }
        }
    }
}

/// Every clue read from a puzzle file is on the grid, with a value `1`..`9`, in a row no
/// earlier than the rows already read.
#[verifier::spinoff_prover]
pub proof fn lemma_clues_on_grid(s: Seq<char>, a: int, row: int)
    requires
        0 <= row,
    ensures
        forall|j: int|
            0 <= j < clues_from(s, a, row).len() ==> {
                let (r, c, v) = #[trigger] clues_from(s, a, row)[j];
                &&& row <= r < GRID_SIDE
                &&& c < GRID_SIDE
                &&& 1 <= v <= 9
            },
    decreases s.len() + 1 - a,
{
    if a >= s.len() || row >= GRID_SIDE || a < 0 {
    } else {
        lemma_line_end(s, a);
        let e = line_end(s, a);
        let b = skip_ws(s, a, e);
        let t = back_ws(s, b, e);
        let line = s.subrange(b, t);
        if line.len() == 0 || line[0] == '#' || is_band_line(line) {
            lemma_clues_on_grid(s, e + 1, row);
        } else {
            let tokens = token_list(s, b, t, true);
            if tokens.len() != GRID_SIDE {
                lemma_clues_on_grid(s, e + 1, row);
            } else {
                let (clues, valid) = row_clues(tokens, row, 0);
                let next = if valid {
                    row + 1
                } else {
                    row
                };
                lemma_clues_on_grid(s, e + 1, next);
                lemma_row_clues_on_grid(tokens, row, 0);
                let all = clues_from(s, a, row);
                let rest = clues_from(s, e + 1, next);
                if valid {
                    assert(all == clues + rest);
                    assert forall|j: int| 0 <= j < all.len() implies {
                        let (r, c, v) = #[trigger] all[j];
                        &&& row <= r < GRID_SIDE
                        &&& c < GRID_SIDE
                        &&& 1 <= v <= 9
                    } by {
                        if j < clues.len() {
                            assert(all[j] == clues[j]);
                        } else {
                            assert(all[j] == rest[j - clues.len()]);
                        }
                    }
                } else {
                    assert(all == rest);
                    assert forall|j: int| 0 <= j < all.len() implies {
                        let (r, c, v) = #[trigger] all[j];
                        &&& row <= r < GRID_SIDE
                        &&& c < GRID_SIDE
                        &&& 1 <= v <= 9
                    } by {
                        assert(all[j] == rest[j]);
                    }
                }
            }
        }
    }
}

/// The text with every `|` turned into a space.
pub open spec fn bars_to_spaces(s: Seq<char>) -> Seq<char> {
    s.map_values(|c: char| if c == '|' { ' ' } else { c })
}

/// Turning bars into spaces moves no line end.
proof fn lemma_line_end_bars(s: Seq<char>, a: int)
    requires
        0 <= a <= s.len(),
    ensures
        line_end(bars_to_spaces(s), a) == line_end(s, a),
    decreases s.len() - a,
{
    if a < s.len() && s[a] != '\n' {
        lemma_line_end_bars(s, a + 1);
    }
}

/// A token that starts with `#`, or is made of `=` and `+` alone, is no clue and no `.`.
proof fn lemma_not_a_clue(tok: Seq<char>)
    requires
        tok.len() > 0,
        tok[0] == '#' || forall|k: int| 0 <= k < tok.len() ==> #[trigger] tok[k] == '=' || tok[k] == '+',
    ensures
        tok != seq!['.'],
        unsigned_value(tok) is None,
{
    if tok == seq!['.'] {
        assert(tok[0] == '.');
    }
    let digits = crate::text::unsigned_digits(tok);
    if digits.len() > 0 {
        if tok[0] == '+' {
            assert(digits[0] == tok[1]);
        } else {
            assert(digits[0] == tok[0]);
        }
        assert(!is_digit(digits[0]));
    }
}

/// The first token of `s[a..e]` read with bars as separators, when every character that
/// is no separator has the property of `ok`.
proof fn lemma_first_token(s: Seq<char>, a: int, e: int)
    requires
        0 <= a <= e <= s.len(),
        token_list(s, a, e, true).len() > 0,
    ensures
        ({
            let p = skip_sep(s, a, e, true);
            &&& a <= p < token_end(s, p, e, true) <= e
            &&& token_list(s, a, e, true)[0] == s.subrange(p, token_end(s, p, e, true))
            &&& !is_sep(s[p], true)
        }),
{
    lemma_scan_bounds(s, a, e, true);
    let p = skip_sep(s, a, e, true);
    lemma_scan_bounds(s, p, e, true);
}

/// A line read from the text with its bars turned into spaces has the same effect as the
/// same line of the text: the same tokens, or no clue and no row read either way.
#[verifier::spinoff_prover]
#[verifier::rlimit(40)]
pub proof fn lemma_bars_optional(s: Seq<char>, a: int, row: int)
    requires
        0 <= row,
    ensures
        clues_from(bars_to_spaces(s), a, row) == clues_from(s, a, row),
    decreases s.len() + 1 - a,
{
    let s2 = bars_to_spaces(s);
    if !(a >= s.len() || row >= GRID_SIDE || a < 0) {
        lemma_line_end(s, a);
        lemma_line_end_bars(s, a);
        let e = line_end(s, a);
        assert(line_end(s2, a) == e);
        let b = skip_ws(s, a, e);
        let t = back_ws(s, b, e);
        let b2 = skip_ws(s2, a, e);
        let t2 = back_ws(s2, b2, e);
        lemma_scan_bounds(s, a, e, true);
        lemma_scan_bounds(s2, a, e, true);
        lemma_back_ws_bounds(s, b, e);
        lemma_back_ws_bounds(s2, b2, e);
        lemma_skip_ws_passes(s, a, e);
        lemma_skip_ws_passes(s2, a, e);
        lemma_back_ws_passes(s, b, e);
        lemma_back_ws_passes(s2, b2, e);
        lemma_tokens_after_separators(s, a, b, e, true);
        lemma_tokens_before_separators(s, b, t, e, true);
        lemma_tokens_after_separators(s2, a, b2, e, true);
        lemma_tokens_before_separators(s2, b2, t2, e, true);
        assert(same_tokens_text(s, true, s2, true, a, e));
        lemma_same_tokens(s, true, s2, true, a, e);
        let tokens = token_list(s, b, t, true);
        assert(token_list(s2, b2, t2, true) == tokens);
        lemma_bars_optional(s, e + 1, row);
        lemma_bars_optional(s, e + 1, row + 1);
        let line = s.subrange(b, t);
        let line2 = s2.subrange(b2, t2);
        let skip1 = line.len() == 0 || line[0] == '#' || is_band_line(line);
        let skip2 = line2.len() == 0 || line2[0] == '#' || is_band_line(line2);
        if skip1 {
            if line.len() == 0 {
                assert forall|k: int| a <= k < e implies is_ws(#[trigger] s2[k]) by {
                    assert(is_ws(s[k]));
                }
                lemma_skip_ws_at(s2, a, e, e);
            } else {
                assert(line[0] == s[b]);
                assert(!is_ws(s[b]));
                assert(s[b] != '|');
                assert(s2[b] == s[b]);
                assert forall|k: int| a <= k < b implies is_ws(#[trigger] s2[k]) by {
                    assert(is_ws(s[k]));
                }
                lemma_skip_ws_at(s2, a, b, e);
                if line[0] != '#' {
                    assert(line[t - 1 - b] == s[t - 1]);
                    assert(!is_ws(s[t - 1]));
                    assert(s[t - 1] != '|');
                    assert forall|k: int| t <= k < e implies is_ws(#[trigger] s2[k]) by {
                        assert(is_ws(s[k]));
                    }
                    lemma_back_ws_at(s2, b, t, e);
                    assert forall|k: int| 0 <= k < line.len() implies #[trigger] line2[k] == line[k] by {
                        assert(line[k] == s[b + k]);
                        assert(s[b + k] != '|');
                    }
                    assert(line2 =~= line);
                }
            }
            assert(skip2);
        } else if skip2 {
            if tokens.len() == GRID_SIDE {
                lemma_first_token(s, a, e);
                let p = skip_sep(s, a, e, true);
                let u = token_end(s, p, e, true);
                let tok = s.subrange(p, u);
                assert(tokens[0] == tok);
                lemma_token_chars(s, p, e, true);
                if line2.len() == 0 {
                    assert(b2 == e || t2 == b2);
                    assert(!is_sep(s[p], true));
                    assert(is_ws(s2[p]));
                } else if line2[0] == '#' {
                    assert(s2[b2] == '#');
                    assert(s[b2] == '#');
                    assert forall|k: int| a <= k < b2 implies is_sep(#[trigger] s[k], true) by {
                        assert(is_ws(s2[k]));
                    }
                    lemma_tokens_after_separators(s, a, b2, e, true);
                    assert(p == b2);
                    assert(tok[0] == '#');
                    lemma_not_a_clue(tok);
                } else {
                    assert(is_band_line(line2));
                    assert forall|k: int| 0 <= k < tok.len() implies #[trigger] tok[k] == '=' || tok[k] == '+' by {
                        let q = p + k;
                        assert(tok[k] == s[q]);
                        assert(!is_sep(s[q], true));
                        assert(s2[q] == s[q]);
                        assert(b2 <= q < t2);
                        assert(line2[q - b2] == s2[q]);
                    }
                    lemma_not_a_clue(tok);
                }
                assert(row_clues(tokens, row, 0).0 =~= Seq::<(usize, usize, u8)>::empty());
                assert(!row_clues(tokens, row, 0).1);
            }
            assert(Seq::<(usize, usize, u8)>::empty() + clues_from(s, e + 1, row) =~= clues_from(s, e + 1, row));
        }
    }
}

/// The outcome of one puzzle: its name, whether it passed, and why.
pub struct TestResult {
    pub test_name: String,
    pub success: bool,
    pub message: String,
}

/// The line ends within the text, at a newline or at the end.
pub proof fn lemma_line_end(s: Seq<char>, a: int)
    requires
        0 <= a <= s.len(),
    ensures
        a <= line_end(s, a) <= s.len(),
        line_end(s, a) < s.len() ==> s[line_end(s, a)] == '\n',
    decreases s.len() - a,
{
    if a < s.len() && s[a] != '\n' {
        lemma_line_end(s, a + 1);
    }
}

/// The end of the line that starts at `a`.
fn find_line_end(v: &Vec<char>, a: usize) -> (e: usize)
    requires
        a <= v@.len(),
    ensures
        e == line_end(v@, a as int),
{
    let mut e = a;
    while e < v.len() && v[e] != '\n'
        invariant
            a <= e <= v@.len(),
            line_end(v@, e as int) == line_end(v@, a as int),
        decreases v@.len() - e,
    {
        e = e + 1;
    }
    e
}

/// Every character of `v[b..t]` is `=`, `+` or a space.
fn band_line(v: &Vec<char>, b: usize, t: usize) -> (r: bool)
    requires
        b <= t <= v@.len(),
    ensures
        r == is_band_line(v@.subrange(b as int, t as int)),
{
    let ghost line = v@.subrange(b as int, t as int);
    let mut j = b;
    while j < t
        invariant
            b <= j <= t,
            t <= v@.len(),
            line == v@.subrange(b as int, t as int),
            forall|k: int| 0 <= k < j - b ==> #[trigger] line[k] == '=' || line[k] == '+' || line[k] == ' ',
        decreases t - j,
    {
        let c = v[j];
        if !(c == '=' || c == '+' || c == ' ') {
            proof {
                assert(line[j - b] == c);
            }
            return false;
        }
        j = j + 1;
    }
    true
}

/// The value of the clue token `v[p..q]`: `Some` for a value `1`..`9`, `None` for any
/// other text.
fn clue_value(v: &Vec<char>, p: usize, q: usize) -> (r: Option<u8>)
    requires
        p <= q <= v@.len(),
    ensures
        match r {
            Some(x) => 1 <= x <= 9 && unsigned_value(v@.subrange(p as int, q as int)) == Some(x as nat),
            None => !(exists|x: nat| 1 <= x <= 9 && unsigned_value(v@.subrange(p as int, q as int)) == Some(x)),
        },
{
    let ghost s = v@.subrange(p as int, q as int);
    let mut start = p;
    if p < q && v[p] == '+' {
        start = p + 1;
    }
    let ghost digits = v@.subrange(start as int, q as int);
    proof {
        if s.len() > 0 && s[0] == '+' {
            assert(digits =~= s.drop_first());
        } else {
            assert(digits =~= s);
        }
        assert(crate::text::unsigned_digits(s) == digits);
    }
    if start == q {
        return None;
    }
    let mut value: usize = 0;
    let mut big = false;
    let mut i = start;
    while i < q
        invariant
            p <= start <= i <= q,
            q <= v@.len(),
            s == v@.subrange(p as int, q as int),
            crate::text::unsigned_digits(s) == digits,
            digits.len() > 0,
            digits == v@.subrange(start as int, q as int),
            forall|k: int| 0 <= k < i - start ==> is_digit(#[trigger] digits[k]),
            !big ==> value == digits_value(digits.take(i - start)) && value <= 9,
            big ==> digits_value(digits.take(i - start)) > 9,
        decreases q - i,
    {
        let c = v[i];
        let ghost k = i - start;
        proof {
            assert(digits[k] == c);
            assert(digits.take(k + 1).drop_last() =~= digits.take(k));
            assert(digits.take(k + 1).last() == c);
        }
        if !('0' <= c && c <= '9') {
            proof {
                assert(!crate::text::all_digits(digits));
            }
            return None;
        }
        let d = (c as u32 - '0' as u32) as usize;
        proof {
            assert(digits_value(digits.take(k + 1)) == digits_value(digits.take(k)) * 10 + d);
        }
        if !big {
            if value * 10 + d > 9 {
                big = true;
            } else {
                value = value * 10 + d;
            }
        }
        i = i + 1;
    }
    proof {
        assert(digits.take(q - start) =~= digits);
        assert(crate::text::all_digits(digits));
    }
    if big || value < 1 {
        return None;
    }
    Some(value as u8)
}

/// The clues of a puzzle row whose tokens stand at `toks` in `v`, and whether the whole
/// row was read.
fn row_clue_entries(v: &Vec<char>, toks: &Vec<(usize, usize)>, row: usize, Ghost(tokens): Ghost<Seq<Seq<char>>>) -> (r: (
    Vec<(usize, usize, u8)>,
    bool,
))
    requires
        toks@.len() == tokens.len(),
        forall|k: int|
            0 <= k < toks@.len() ==> {
                let (p, q) = #[trigger] toks@[k];
                &&& p < q <= v@.len()
                &&& v@.subrange(p as int, q as int) == tokens[k]
            },
    ensures
        r.0@ == row_clues(tokens, row as int, 0).0,
        r.1 == row_clues(tokens, row as int, 0).1,
{
    let ghost all = row_clues(tokens, row as int, 0);
    let mut acc: Vec<(usize, usize, u8)> = Vec::new();
    let mut k: usize = 0;
    while k < toks.len()
        invariant
            k <= toks@.len(),
            toks@.len() == tokens.len(),
            forall|j: int|
                0 <= j < toks@.len() ==> {
                    let (p, q) = #[trigger] toks@[j];
                    &&& p < q <= v@.len()
                    &&& v@.subrange(p as int, q as int) == tokens[j]
                },
            all == row_clues(tokens, row as int, 0),
            acc@ + row_clues(tokens, row as int, k as int).0 == all.0,
            row_clues(tokens, row as int, k as int).1 == all.1,
        decreases toks@.len() - k,
    {
        let (p, q) = toks[k];
        let ghost tok = tokens[k as int];
        proof {
            assert(toks@[k as int] == (p, q));
            assert(v@.subrange(p as int, q as int) == tok);
        }
        if q - p == 1 && v[p] == '.' {
            proof {
                assert(tok =~= seq!['.']);
            }
        } else {
            proof {
                if tok == seq!['.'] {
                    assert(tok.len() == 1);
                    assert(tok[0] == v@[p as int]);
                }
            }
            match clue_value(v, p, q) {
                Some(x) => {
                    proof {
                        let rest = row_clues(tokens, row as int, k + 1);
                        assert(row_clues(tokens, row as int, k as int).0 == seq![(row, k, x)] + rest.0);
                        assert(acc@.push((row, k, x)) + rest.0 =~= acc@ + (seq![(row, k, x)] + rest.0));
                    }
                    acc.push((row, k, x));
                },
                None => {
                    proof {
                        match unsigned_value(tok) {
                            Some(w) => {
                                if 1 <= w <= 9 {
                                    assert(unsigned_value(v@.subrange(p as int, q as int)) == Some(w));
                                }
                            },
                            None => {},
                        }
                        assert(row_clues(tokens, row as int, k as int).0 =~= Seq::<(usize, usize, u8)>::empty());
                        assert(acc@ + Seq::<(usize, usize, u8)>::empty() =~= acc@);
                    }
                    return (acc, false);
                },
            }
        }
        k = k + 1;
    }
    proof {
        assert(acc@ + Seq::<(usize, usize, u8)>::empty() =~= acc@);
    }
    (acc, true)
}

/// The clues of a puzzle file, as (row, column, value) numbered from zero. Lines are read
/// with the white space around them trimmed; empty lines, comments and band lines are
/// skipped, and so is a line that does not hold nine tokens. A row with a token that is
/// neither `.` nor a value `1`..`9` is malformed: it gives no clue and does not count as
/// read. Reading stops after nine rows.
pub fn parse_puzzle(content: &str) -> (entries: Vec<(usize, usize, u8)>)
    ensures
        entries@ == clues_from(content@, 0, 0),
        forall|j: int|
            0 <= j < entries@.len() ==> {
                let (r, c, v) = #[trigger] entries@[j];
                &&& r < GRID_SIDE
                &&& c < GRID_SIDE
                &&& 1 <= v <= 9
            },
{
    let v = to_chars(content);
    let ghost s = v@;
    let n = v.len();
    let mut acc: Vec<(usize, usize, u8)> = Vec::new();
    let mut a: usize = 0;
    let mut row: usize = 0;
    while a < n && row < GRID_SIDE
        invariant
            s == v@,
            s == content@,
            n == s.len(),
            a <= n,
            row <= GRID_SIDE,
            acc@ + clues_from(s, a as int, row as int) == clues_from(s, 0, 0),
        decreases n - a,
    {
        let e = find_line_end(&v, a);
        proof {
            lemma_line_end(s, a as int);
        }
        let b = skip_ws_from(&v, a, e);
        proof {
            lemma_scan_bounds(s, a as int, e as int, true);
        }
        let t = back_ws_from(&v, b, e);
        proof {
            lemma_back_ws_bounds(s, b as int, e as int);
        }
        let next = if e < n {
            e + 1
        } else {
            n
        };
        let ghost line = s.subrange(b as int, t as int);
        let ghost rest_old = clues_from(s, a as int, row as int);
        proof {
            assert(clues_from(s, next as int, row as int) == clues_from(s, e + 1, row as int));
            assert(clues_from(s, next as int, row as int + 1) == clues_from(s, e + 1, row as int + 1));
        }
        let skipped = if t == b {
            true
        } else {
            proof {
                assert(line[0] == v@[b as int]);
            }
            v[b] == '#' || band_line(&v, b, t)
        };
        if skipped {
            proof {
                assert(rest_old == clues_from(s, e + 1, row as int));
            }
        } else {
            let toks = tokens_of(&v, b, t, true);
            if toks.len() == GRID_SIDE {
                let ghost tokens = token_list(s, b as int, t as int, true);
                let (clues, valid) = row_clue_entries(&v, &toks, row, Ghost(tokens));
                if valid {
                    let ghost before = acc@;
                    let mut j: usize = 0;
                    while j < clues.len()
                        invariant
                            j <= clues@.len(),
                            acc@ == before + clues@.take(j as int),
                        decreases clues@.len() - j,
                    {
                        proof {
                            assert(clues@.take(j + 1) == clues@.take(j as int).push(clues@[j as int]));
                        }
                        acc.push(clues[j]);
                        j = j + 1;
                    }
                    proof {
                        assert(clues@.take(clues@.len() as int) =~= clues@);
                        let nrow = row as int + 1;
                        assert(rest_old == clues@ + clues_from(s, e + 1, nrow));
                        assert(acc@ + clues_from(s, e + 1, nrow) =~= before + (clues@ + clues_from(s, e + 1, nrow)));
                    }
                    row = row + 1;
                } else {
                    proof {
                        assert(rest_old == clues_from(s, e + 1, row as int));
                    }
                }
            } else {
                proof {
                    assert(rest_old == clues_from(s, e + 1, row as int));
                }
            }
        }
        a = next;
    }
    proof {
        assert(clues_from(s, a as int, row as int) =~= Seq::<(usize, usize, u8)>::empty());
        assert(acc@ + Seq::<(usize, usize, u8)>::empty() =~= acc@);
        lemma_clues_on_grid(s, 0, 0);
    }
    acc
}

/// The message that a puzzle whose clue `entry` (row, column, value) was refused on the
/// cells `cells` fails with.
pub open spec fn entry_error(cells: Seq<Cell>, entry: (usize, usize, u8)) -> Seq<char> {
    let (row, column, value) = entry;
    "Error setting value "@ + decimal(value as nat) + " at ("@ + decimal((row + 1) as nat) + ", "@ + decimal(
        (column + 1) as nat,
    ) + "): "@ + set_value_error(cells, row as int, column as int, value as int)
}

/// Every cell is solved.
pub open spec fn all_solved(cells: Seq<Cell>) -> bool {
    forall|i: int| 0 <= i < CELL_COUNT ==> solved(#[trigger] cells[i])
}

/// The cells of a new game: every value open, none set by the user.
pub open spec fn open_cells(cells: Seq<Cell>) -> bool {
    &&& cells.len() == CELL_COUNT
    &&& forall|i: int| 0 <= i < CELL_COUNT ==> (#[trigger] cells[i]).mask() == ALL_VALUES_MASK && !cells[i].user_set()
}

/// Clue `i` of `entries` was accepted into the cells `states[i]`, giving `states[i + 1]`.
pub open spec fn step_accepted(entries: Seq<(usize, usize, u8)>, states: Seq<Seq<Cell>>, i: int) -> bool {
    exists|o: SetOutcome|
        #[trigger] accepted(states[i], entries[i].0 as int, entries[i].1 as int, entries[i].2 as int, o, states[i + 1])
}

/// `states` are the cells of a new game and then the cells after each of the first `n`
/// clues of `entries`, each accepted into the cells before it.
pub open spec fn accepted_run(entries: Seq<(usize, usize, u8)>, n: int, states: Seq<Seq<Cell>>) -> bool {
    &&& 0 <= n <= entries.len()
    &&& states.len() == n + 1
    &&& open_cells(states[0])
    &&& forall|i: int| 0 <= i < n ==> #[trigger] step_accepted(entries, states, i)
}

/// Judges a puzzle: enters its clues `entries` one by one into a new game, as a user
/// would, and passes when the last one leaves every cell solved. A puzzle without clues
/// fails, and so does one with a clue the game refuses, at the first such clue; the game
/// is handed back as the clues left it.
pub fn judge_puzzle(test_name: String, entries: &Vec<(usize, usize, u8)>) -> (r: (TestResult, Game))
    requires
        forall|k: int| 0 <= k < entries@.len() ==> (#[trigger] entries@[k]).0 < usize::MAX && entries@[k].1 < usize::MAX,
    ensures
        r.0.test_name@ == test_name@,
        r.1.wf(),
        r.1.cells().len() == CELL_COUNT,
        entries@.len() == 0 ==> !r.0.success && r.0.message@ == "No valid puzzle entries found in file"@
            && open_cells(r.1.cells()),
        entries@.len() > 0 ==> {
            ||| {
                &&& r.0.success
                &&& r.0.message@ == "Puzzle solved successfully"@
                &&& all_solved(r.1.cells())
                &&& exists|states: Seq<Seq<Cell>>|
                    #[trigger] accepted_run(entries@, entries@.len() as int, states) && states.last() == r.1.cells()
            }
            ||| {
                &&& !r.0.success
                &&& r.0.message@ == "Puzzle not solved after entering all values"@
                &&& !all_solved(r.1.cells())
                &&& exists|states: Seq<Seq<Cell>>|
                    #[trigger] accepted_run(entries@, entries@.len() as int, states) && states.last() == r.1.cells()
            }
            ||| {
                &&& !r.0.success
                &&& exists|k: int, states: Seq<Seq<Cell>>|
                    0 <= k < entries@.len() && #[trigger] accepted_run(entries@, k, states) && states.last()
                        == r.1.cells() && refused(
                        r.1.cells(),
                        entries@[k].0 as int,
                        entries@[k].1 as int,
                        entries@[k].2 as int,
                        r.1.cells(),
                    ) && r.0.message@ == entry_error(r.1.cells(), entries@[k])
            }
        },
{
    let mut game = Game::new();
    let ghost mut states: Seq<Seq<Cell>> = seq![game.cells()];
    if entries.len() == 0 {
        let message = String::from_str("No valid puzzle entries found in file");
        return (TestResult { test_name, success: false, message }, game);
    }
    let mut i: usize = 0;
    while i < entries.len()
        invariant
            i <= entries@.len(),
            game.wf(),
            game.cells().len() == CELL_COUNT,
            forall|k: int| 0 <= k < entries@.len() ==> (#[trigger] entries@[k]).0 < usize::MAX && entries@[k].1 < usize::MAX,
            accepted_run(entries@, i as int, states),
            states.last() == game.cells(),
        decreases entries@.len() - i,
    {
        let (row, column, value) = entries[i];
        proof {
            assert(entries@[i as int] == (row, column, value));
        }
        let ghost before = game.cells();
        match game.user_set_value(row, column, value) {
            Ok(outcome) => {
                proof {
                    let next = states.push(game.cells());
                    assert(accepted(before, row as int, column as int, value as int, outcome, game.cells()));
                    assert forall|j: int| 0 <= j < i + 1 implies #[trigger] step_accepted(entries@, next, j) by {
                        if j < i {
                            assert(next[j] == states[j] && next[j + 1] == states[j + 1]);
                            assert(step_accepted(entries@, states, j));
                        } else {
                            assert(next[j] == before && next[j + 1] == game.cells());
                            assert(accepted(
                                next[j],
                                entries@[j].0 as int,
                                entries@[j].1 as int,
                                entries@[j].2 as int,
                                outcome,
                                next[j + 1],
                            ));
                        }
                    }
                    states = next;
                }
            },
            Err(refusal) => {
                let mut message = with_decimal("Error setting value ", value as usize);
                message.append(" at (");
                push_decimal(&mut message, row + 1);
                message.append(", ");
                push_decimal(&mut message, column + 1);
                message.append("): ");
                message.append(refusal.as_str());
                proof {
                    assert(message@ == entry_error(game.cells(), entries@[i as int]));
                    assert(refused(game.cells(), row as int, column as int, value as int, game.cells()));
                }
                let ghost gm = message@;
                let ghost gc = game.cells();
                let r = (TestResult { test_name, success: false, message }, game);
                assert(r.0.message@ == gm);
                assert(r.1.cells() == gc);
                assert(accepted_run(entries@, i as int, states) && states.last() == r.1.cells());
                return r;
            },
        }
        i = i + 1;
    }
    let ghost gc = game.cells();
    if game.is_solved() {
        let message = String::from_str("Puzzle solved successfully");
        let r = (TestResult { test_name, success: true, message }, game);
        assert(r.1.cells() == gc);
        assert(accepted_run(entries@, entries@.len() as int, states));
        r
    } else {
        let message = String::from_str("Puzzle not solved after entering all values");
        let r = (TestResult { test_name, success: false, message }, game);
        assert(r.1.cells() == gc);
        assert(accepted_run(entries@, entries@.len() as int, states));
        r
    }
}

/// `a` comes no later than `b` among names: compared character by character, a name
/// before every longer name it begins.
pub open spec fn name_le(a: Seq<char>, b: Seq<char>) -> bool
    decreases a.len(),
{
    if a.len() == 0 {
        true
    } else if b.len() == 0 {
        false
    } else if a[0] != b[0] {
        a[0] < b[0]
    } else {
        name_le(a.drop_first(), b.drop_first())
    }
}

/// Every name comes no later than itself.
pub proof fn lemma_name_le_reflexive(a: Seq<char>)
    ensures
        name_le(a, a),
    decreases a.len(),
{
    if a.len() > 0 {
        lemma_name_le_reflexive(a.drop_first());
    }
}

/// The result is named `n`.
pub open spec fn name_is(n: Seq<char>) -> spec_fn(TestResult) -> bool {
    |r: TestResult| r.test_name@ == n
}

/// The results named `n`, in their order.
pub open spec fn named(results: Seq<TestResult>, n: Seq<char>) -> Seq<TestResult> {
    results.filter(name_is(n))
}

/// Results none of which is named `n` have none named `n`.
proof fn lemma_named_none(results: Seq<TestResult>, n: Seq<char>)
    requires
        forall|i: int| 0 <= i < results.len() ==> (#[trigger] results[i]).test_name@ != n,
    ensures
        named(results, n) == Seq::<TestResult>::empty(),
    decreases results.len(),
{
    reveal(Seq::filter);
    if results.len() > 0 {
        lemma_named_none(results.drop_last(), n);
    }
}

/// A single result is named `n` or not.
proof fn lemma_named_one(x: TestResult, n: Seq<char>)
    ensures
        named(seq![x], n) == if x.test_name@ == n {
            seq![x]
        } else {
            Seq::<TestResult>::empty()
        },
{
    reveal(Seq::filter);
    assert(seq![x].drop_last() =~= Seq::<TestResult>::empty());
    assert(Seq::<TestResult>::empty().filter(name_is(n)) =~= Seq::<TestResult>::empty());
    assert(Seq::<TestResult>::empty().push(x) =~= seq![x]);
}

/// Of two names, one comes no later than the other.
pub proof fn lemma_name_le_total(a: Seq<char>, b: Seq<char>)
    ensures
        name_le(a, b) || name_le(b, a),
    decreases a.len(),
{
    if a.len() > 0 && b.len() > 0 && a[0] == b[0] {
        lemma_name_le_total(a.drop_first(), b.drop_first());
    }
}

/// The order of names is transitive.
pub proof fn lemma_name_le_transitive(a: Seq<char>, b: Seq<char>, c: Seq<char>)
    requires
        name_le(a, b),
        name_le(b, c),
    ensures
        name_le(a, c),
    decreases a.len(),
{
    if a.len() > 0 && b.len() > 0 && c.len() > 0 && a[0] == b[0] && b[0] == c[0] {
        lemma_name_le_transitive(a.drop_first(), b.drop_first(), c.drop_first());
    }
}

/// Whether the name `a` comes no later than the name `b`.
fn name_at_most(a: &str, b: &str) -> (r: bool)
    ensures
        r == name_le(a@, b@),
{
    let n = a.unicode_len();
    let m = b.unicode_len();
    let mut i: usize = 0;
    proof {
        assert(a@.skip(0) =~= a@);
        assert(b@.skip(0) =~= b@);
    }
    while i < n && i < m
        invariant
            n == a@.len(),
            m == b@.len(),
            i <= n,
            i <= m,
            name_le(a@, b@) == name_le(a@.skip(i as int), b@.skip(i as int)),
        decreases n - i,
    {
        let x = a.get_char(i);
        let y = b.get_char(i);
        proof {
            assert(a@.skip(i as int)[0] == x);
            assert(b@.skip(i as int)[0] == y);
            assert(a@.skip(i as int).drop_first() =~= a@.skip(i + 1));
            assert(b@.skip(i as int).drop_first() =~= b@.skip(i + 1));
        }
        if x != y {
            return x < y;
        }
        i = i + 1;
    }
    proof {
        if i == n {
            assert(a@.skip(i as int).len() == 0);
        } else {
            assert(b@.skip(i as int).len() == 0);
            assert(a@.skip(i as int).len() > 0);
        }
    }
    i == n
}

/// The results ordered by test name; results of equal names keep the order they were
/// given in.
pub fn sort_by_name(results: Vec<TestResult>) -> (sorted: Vec<TestResult>)
    ensures
        sorted@.to_multiset() == results@.to_multiset(),
        forall|i: int, j: int|
            0 <= i < j < sorted@.len() ==> name_le(#[trigger] sorted@[i].test_name@, #[trigger] sorted@[j].test_name@),
        forall|n: Seq<char>| #[trigger] named(sorted@, n) == named(results@, n),
{
    let ghost given = results@;
    let mut input = results;
    let mut sorted: Vec<TestResult> = Vec::new();
    proof {
        vstd::seq_lib::to_multiset_len(sorted@);
        vstd::multiset::lemma_multiset_empty_len(sorted@.to_multiset());
        assert(sorted@.to_multiset().add(input@.to_multiset()) =~= input@.to_multiset());
        assert forall|n: Seq<char>| named(sorted@, n) + named(input@, n) == #[trigger] named(given, n) by {
            lemma_named_none(sorted@, n);
            assert(Seq::<TestResult>::empty() + named(input@, n) =~= named(input@, n));
        }
    }
    while input.len() > 0
        invariant
            sorted@.to_multiset().add(input@.to_multiset()) == given.to_multiset(),
            forall|n: Seq<char>| named(sorted@, n) + named(input@, n) == #[trigger] named(given, n),
            forall|i: int, j: int|
                0 <= i < j < sorted@.len() ==> name_le(#[trigger] sorted@[i].test_name@, #[trigger] sorted@[j].test_name@),
        decreases input@.len(),
    {
        let ghost before = input@;
        let item = input.remove(0);
        let mut place: usize = 0;
        while place < sorted.len() && name_at_most(sorted[place].test_name.as_str(), item.test_name.as_str())
            invariant
                place <= sorted@.len(),
                forall|k: int| 0 <= k < place ==> name_le(#[trigger] sorted@[k].test_name@, item.test_name@),
            decreases sorted@.len() - place,
        {
            place = place + 1;
        }
        let ghost old_sorted = sorted@;
        proof {
            if place < sorted@.len() {
                assert(!name_le(sorted@[place as int].test_name@, item.test_name@));
                lemma_name_le_total(sorted@[place as int].test_name@, item.test_name@);
            }
        }
        sorted.insert(place, item);
        proof {
            let ns = sorted@;
            assert(ns == old_sorted.insert(place as int, item));
            assert forall|i: int, j: int| 0 <= i < j < ns.len() implies name_le(
                #[trigger] ns[i].test_name@,
                #[trigger] ns[j].test_name@,
            ) by {
                if j < place {
                    assert(ns[i] == old_sorted[i] && ns[j] == old_sorted[j]);
                } else if j == place {
                    assert(ns[i] == old_sorted[i]);
                } else if i == place {
                    assert(ns[j] == old_sorted[j - 1]);
                    if j - 1 > place {
                        assert(name_le(old_sorted[place as int].test_name@, old_sorted[j - 1].test_name@));
                        lemma_name_le_transitive(item.test_name@, old_sorted[place as int].test_name@, old_sorted[j - 1].test_name@);
                    }
                } else if i < place {
                    assert(ns[i] == old_sorted[i] && ns[j] == old_sorted[j - 1]);
                    assert(name_le(old_sorted[i].test_name@, old_sorted[j - 1].test_name@));
                } else {
                    assert(ns[i] == old_sorted[i - 1] && ns[j] == old_sorted[j - 1]);
                    assert(name_le(old_sorted[i - 1].test_name@, old_sorted[j - 1].test_name@));
                }
            }
            vstd::seq_lib::to_multiset_remove(before, 0);
            vstd::seq_lib::to_multiset_insert(old_sorted, place as int, item);
            vstd::seq_lib::to_multiset_contains(before, before[0]);
            assert(before.contains(before[0]));
            assert(ns.to_multiset().add(input@.to_multiset()) =~= old_sorted.to_multiset().add(before.to_multiset()));
            let rest = input@;
            let a = old_sorted.subrange(0, place as int);
            let b = old_sorted.subrange(place as int, old_sorted.len() as int);
            assert(before =~= seq![item] + rest);
            assert(ns =~= (a + seq![item]) + b);
            assert(old_sorted =~= a + b);
            assert forall|n: Seq<char>| named(ns, n) + named(rest, n) == #[trigger] named(given, n) by {
                Seq::filter_distributes_over_add(seq![item], rest, name_is(n));
                Seq::filter_distributes_over_add(a + seq![item], b, name_is(n));
                Seq::filter_distributes_over_add(a, seq![item], name_is(n));
                Seq::filter_distributes_over_add(a, b, name_is(n));
                lemma_named_one(item, n);
                assert(named(old_sorted, n) + named(before, n) == named(given, n));
                if item.test_name@ == n {
                    assert forall|i: int| 0 <= i < b.len() implies (#[trigger] b[i]).test_name@ != n by {
                        assert(b[i] == old_sorted[place + i]);
                        lemma_name_le_reflexive(item.test_name@);
                        if i > 0 {
                            assert(name_le(old_sorted[place as int].test_name@, old_sorted[place + i].test_name@));
                            if name_le(old_sorted[place + i].test_name@, item.test_name@) {
                                lemma_name_le_transitive(
                                    old_sorted[place as int].test_name@,
                                    old_sorted[place + i].test_name@,
                                    item.test_name@,
                                );
                            }
                        }
                    }
                    lemma_named_none(b, n);
                    assert(named(ns, n) + named(rest, n) =~= named(old_sorted, n) + named(before, n));
                } else {
                    assert(named(ns, n) + named(rest, n) =~= named(old_sorted, n) + named(before, n));
                }
            }
        }
    }
    proof {
        vstd::seq_lib::to_multiset_len(input@);
        vstd::multiset::lemma_multiset_empty_len(input@.to_multiset());
        assert(sorted@.to_multiset().add(input@.to_multiset()) =~= sorted@.to_multiset());
        assert forall|n: Seq<char>| #[trigger] named(sorted@, n) == named(given, n) by {
            lemma_named_none(input@, n);
            assert(named(sorted@, n) + named(input@, n) == named(given, n));
            assert(named(sorted@, n) + Seq::<TestResult>::empty() =~= named(sorted@, n));
        }
    }
    sorted
}

} // verus!
