//! The user's requests: commands typed on a line, and changes sent to a game.
use vstd::prelude::*;
use crate::constants::{GRID_SIDE, VALUE_MAX, VALUE_MIN};
use crate::exact_cover::CELL_COUNT;
use crate::text::{decimal, parse_bounded, push_decimal, unsigned_value};
use crate::tokens::{to_chars, token_list, tokens_of};
use crate::bits::ALL_VALUES_MASK;
use crate::sudoku_game::{
    Game, SetOutcome, accepted, delete_refused, deleted, refused, set_value_error,
};
use crate::sudoku_game::sudoku_grid::{GridSnapshot, shows};
use crate::sudoku_game::sudoku_grid::sudoku_cell::Cell;

verus! {

/// The message for a row or column outside `1..=9`.
pub open spec fn one_based_message(label: Seq<char>) -> Seq<char> {
    label + " must be 1-"@ + decimal(GRID_SIDE as nat)
}

/// The message for a value outside `1..=9`.
pub open spec fn value_message() -> Seq<char> {
    "Value must be "@ + decimal(VALUE_MIN as nat) + "-"@ + decimal(VALUE_MAX as nat)
}

/// The message for a cell index past the last cell.
pub open spec fn cell_index_message(cell_index: nat) -> Seq<char> {
    "Invalid cell index "@ + decimal(cell_index) + " (expected 0-"@ + decimal((CELL_COUNT - 1) as nat)
        + ")"@
}

/// Reads a row or column numbered from one and gives its index from zero; `label` names
/// it in the message of a refusal.
pub fn parse_one_based(raw: &str, label: &str) -> (r: Result<usize, String>)
    ensures
        match r {
            Ok(index) => index < GRID_SIDE && unsigned_value(raw@) == Some((index + 1) as nat),
            Err(message) => !(exists|v: nat| 1 <= v <= GRID_SIDE && unsigned_value(raw@) == Some(v))
                && message@ == one_based_message(label@),
        },
{
    match parse_bounded(raw, GRID_SIDE) {
        Some(value) if value >= 1 => Ok(value - 1),
        _ => {
            let mut message = String::from_str(label);
            message.append(" must be 1-");
            push_decimal(&mut message, GRID_SIDE);
            Err(message)
        },
    }
}

/// Reads a cell value, refused outside `1..=9`.
pub fn parse_value(raw: &str) -> (r: Result<u8, String>)
    ensures
        match r {
            Ok(value) => VALUE_MIN <= value <= VALUE_MAX && unsigned_value(raw@) == Some(value as nat),
            Err(message) => !(exists|v: nat| VALUE_MIN <= v <= VALUE_MAX && unsigned_value(raw@) == Some(v))
                && message@ == value_message(),
        },
{
    match parse_bounded(raw, VALUE_MAX as usize) {
        Some(value) if value >= VALUE_MIN as usize => Ok(value as u8),
        _ => Err(value_range_message()),
    }
}

/// "Value must be 1-9".
pub fn value_range_message() -> (message: String)
    ensures
        message@ == value_message(),
{
    let mut message = String::from_str("Value must be ");
    push_decimal(&mut message, VALUE_MIN as usize);
    message.append("-");
    push_decimal(&mut message, VALUE_MAX as usize);
    message
}

/// The row and column of a cell numbered row by row from zero, refused past the last cell.
pub fn cell_position_from_index(cell_index: usize) -> (r: Result<(usize, usize), String>)
    ensures
        match r {
            Ok((row, column)) => cell_index < CELL_COUNT && row == cell_index / GRID_SIDE
                && column == cell_index % GRID_SIDE,
            Err(message) => cell_index >= CELL_COUNT && message@ == cell_index_message(
                cell_index as nat,
            ),
        },
{
    if cell_index >= CELL_COUNT {
        let mut message = String::from_str("Invalid cell index ");
        push_decimal(&mut message, cell_index);
        message.append(" (expected 0-");
        push_decimal(&mut message, CELL_COUNT - 1);
        message.append(")");
        return Err(message);
    }
    Ok((cell_index / GRID_SIDE, cell_index % GRID_SIDE))
}

/// A row or column numbered from one, as its index from zero.
pub open spec fn one_based(raw: Seq<char>) -> Option<nat> {
    match unsigned_value(raw) {
        Some(v) => if 1 <= v <= GRID_SIDE {
            Some((v - 1) as nat)
        } else {
            None
        },
        None => None,
    }
}

/// A cell value `1`..`9`.
pub open spec fn cell_value(raw: Seq<char>) -> Option<nat> {
    match unsigned_value(raw) {
        Some(v) => if VALUE_MIN <= v <= VALUE_MAX {
            Some(v)
        } else {
            None
        },
        None => None,
    }
}

/// A command typed on one line.
#[derive(Debug, PartialEq, Eq)]
pub enum Command {
    /// A line with nothing on it.
    Nothing,
    /// Leave.
    Quit,
    /// Enter `value` at `row`, `column`, numbered from zero.
    Enter { row: usize, column: usize, value: u8 },
    /// Forget the value at `row`, `column`, numbered from zero.
    Delete { row: usize, column: usize },
    /// Start over on an open grid.
    Clear,
    /// Show or hide every candidate.
    Debug { on: bool },
    /// Run the puzzle files.
    RunTests,
    /// Show the commands.
    Help,
    /// A word that names no command.
    Unknown,
    /// Tell the user `message`: how to write the command, or what was wrong with it.
    Say { message: String },
}

/// The command tells the user `message`.
pub open spec fn says(c: Command, message: Seq<char>) -> bool {
    c matches Command::Say { message: m } && m@ == message
}

/// The words `parts` of a line read as the command `c`.
pub open spec fn read_as(parts: Seq<Seq<char>>, c: Command) -> bool {
    if parts.len() == 0 {
        c is Nothing
    } else {
        let w = parts[0];
        if w == "q"@ || w == "quit"@ || w == "exit"@ {
            c is Quit
        } else if w == "s"@ || w == "set"@ {
            if parts.len() != 4 {
                says(c, "Usage: s <row> <col> <value>"@)
            } else if one_based(parts[1]) is None {
                says(c, one_based_message("Row"@))
            } else if one_based(parts[2]) is None {
                says(c, one_based_message("Column"@))
            } else if cell_value(parts[3]) is None {
                says(c, value_message())
            } else {
                c matches Command::Enter { row, column, value } && one_based(parts[1]) == Some(row as nat)
                    && one_based(parts[2]) == Some(column as nat) && cell_value(parts[3]) == Some(value as nat)
            }
        } else if w == "d"@ || w == "delete"@ {
            if parts.len() != 3 {
                says(c, "Usage: d <row> <col>"@)
            } else if one_based(parts[1]) is None {
                says(c, one_based_message("Row"@))
            } else if one_based(parts[2]) is None {
                says(c, one_based_message("Column"@))
            } else {
                c matches Command::Delete { row, column } && one_based(parts[1]) == Some(row as nat)
                    && one_based(parts[2]) == Some(column as nat)
            }
        } else if w == "c"@ || w == "clear"@ {
            c is Clear
        } else if w == "debug"@ {
            if parts.len() != 2 || !(parts[1] == "on"@ || parts[1] == "off"@) {
                says(c, "Usage: debug on|off"@)
            } else {
                c == Command::Debug { on: parts[1] == "on"@ }
            }
        } else if w == "test"@ {
            c is RunTests
        } else if w == "h"@ || w == "help"@ {
            c is Help
        } else {
            c is Unknown
        }
    }
}

/// `s` and `set` are neither of the words that leave.
proof fn lemma_set_words()
    ensures
        "s"@ != "q"@,
        "s"@ != "quit"@,
        "s"@ != "exit"@,
        "set"@ != "q"@,
        "set"@ != "quit"@,
        "set"@ != "exit"@,
{
    reveal_strlit("s");
    reveal_strlit("set");
    reveal_strlit("q");
    reveal_strlit("quit");
    reveal_strlit("exit");
    assert("s"@[0] != "q"@[0]);
    assert("s"@.len() != "quit"@.len());
    assert("s"@.len() != "exit"@.len());
    assert("set"@.len() != "q"@.len());
    assert("set"@.len() != "quit"@.len());
    assert("set"@.len() != "exit"@.len());
}

/// A line whose first word is `s` or `set`, followed by three numbers, the first two
/// from 1 to 9 and the third from 1 to 9, enters the third number at the row the first
/// gives and the column the second gives, both counted from one.
pub proof fn lemma_enter_command(parts: Seq<Seq<char>>, c: Command)
    requires
        read_as(parts, c),
        parts.len() == 4,
        parts[0] == "s"@ || parts[0] == "set"@,
        unsigned_value(parts[1]) is Some,
        1 <= unsigned_value(parts[1])->0 <= 9,
        unsigned_value(parts[2]) is Some,
        1 <= unsigned_value(parts[2])->0 <= 9,
        unsigned_value(parts[3]) is Some,
        1 <= unsigned_value(parts[3])->0 <= 9,
    ensures
        c matches Command::Enter { row, column, value } && row + 1 == unsigned_value(parts[1])->0 && column + 1
            == unsigned_value(parts[2])->0 && value == unsigned_value(parts[3])->0,
{
    lemma_set_words();
}

/// `s` and `set` are one command: a line reads alike whichever of the two words starts it.
pub proof fn lemma_set_is_s(parts: Seq<Seq<char>>, short: Command, long: Command)
    requires
        parts.len() >= 1,
        read_as(parts.update(0, "s"@), short),
        read_as(parts.update(0, "set"@), long),
    ensures
        short is Enter ==> long == short,
        long is Enter ==> long == short,
        short is Say <==> long is Say,
        short matches Command::Say { message: a } ==> long matches Command::Say { message: b } && a@ == b@,
{
    lemma_set_words();
    let ps = parts.update(0, "s"@);
    let pl = parts.update(0, "set"@);
    assert(ps[0] == "s"@);
    assert(pl[0] == "set"@);
    assert(ps.len() == pl.len());
    assert forall|k: int| 1 <= k < ps.len() implies ps[k] == pl[k] by {}
    if ps.len() == 4 {
        assert(ps[1] == pl[1] && ps[2] == pl[2] && ps[3] == pl[3]);
    }
}

/// Whether the characters `text[p..q]` spell `word`.
fn word_is(text: &str, p: usize, q: usize, word: &str) -> (r: bool)
    requires
        p <= q <= text@.len(),
    ensures
        r == (text@.subrange(p as int, q as int) == word@),
{
    let n = word.unicode_len();
    if q - p != n {
        return false;
    }
    let mut i: usize = 0;
    while i < n
        invariant
            p <= q <= text@.len(),
            q - p == n,
            n == word@.len(),
            i <= n,
            forall|k: int| 0 <= k < i ==> text@[p + k] == word@[k],
        decreases n - i,
    {
        if text.get_char(p + i) != word.get_char(i) {
            proof {
                assert(text@.subrange(p as int, q as int)[i as int] == text@[p + i]);
            }
            return false;
        }
        i = i + 1;
    }
    proof {
        assert(text@.subrange(p as int, q as int) =~= word@);
    }
    true
}

/// Reads a row or column token `text[p..q]`, numbered from one.
fn read_one_based(text: &str, p: usize, q: usize, label: &str) -> (r: Result<usize, String>)
    requires
        p <= q <= text@.len(),
    ensures
        match r {
            Ok(index) => one_based(text@.subrange(p as int, q as int)) == Some(index as nat),
            Err(message) => one_based(text@.subrange(p as int, q as int)) is None && message@ == one_based_message(label@),
        },
{
    let raw = text.substring_char(p, q);
    let r = parse_one_based(raw, label);
    proof {
        if r is Err {
            match unsigned_value(raw@) {
                Some(v) => {
                    if 1 <= v <= GRID_SIDE {
                        assert(unsigned_value(raw@) == Some(v));
                    }
                },
                None => {},
            }
        }
    }
    r
}

/// Reads a line the user typed as a command: its first word names the command and the
/// words after it are its arguments. A command with the wrong number of arguments, or an
/// argument out of range, tells the user so.
pub fn read_command(input: &str) -> (c: Command)
    ensures
        read_as(token_list(input@, 0, input@.len() as int, false), c),
{
    let v = to_chars(input);
    let n = v.len();
    let toks = tokens_of(&v, 0, n, false);
    let ghost parts = token_list(input@, 0, n as int, false);
    proof {
        assert forall|k: int| 0 <= k < toks@.len() implies ({
            let (p, q) = #[trigger] toks@[k];
            p < q <= input@.len() && input@.subrange(p as int, q as int) == parts[k]
        }) by {
            let (p, q) = toks@[k];
            assert(v@.subrange(p as int, q as int) == parts[k]);
        }
    }
    if toks.len() == 0 {
        return Command::Nothing;
    }
    let (p0, q0) = toks[0];
    proof {
        assert(toks@[0] == (p0, q0));
    }
    if word_is(input, p0, q0, "q") || word_is(input, p0, q0, "quit") || word_is(input, p0, q0, "exit") {
        return Command::Quit;
    }
    if word_is(input, p0, q0, "s") || word_is(input, p0, q0, "set") {
        if toks.len() != 4 {
            return Command::Say { message: String::from_str("Usage: s <row> <col> <value>") };
        }
        let (p1, q1) = toks[1];
        let (p2, q2) = toks[2];
        let (p3, q3) = toks[3];
        proof {
            assert(toks@[1] == (p1, q1));
            assert(toks@[2] == (p2, q2));
            assert(toks@[3] == (p3, q3));
        }
        let row = match read_one_based(input, p1, q1, "Row") {
            Ok(row) => row,
            Err(message) => {
                return Command::Say { message };
            },
        };
        let column = match read_one_based(input, p2, q2, "Column") {
            Ok(column) => column,
            Err(message) => {
                return Command::Say { message };
            },
        };
        let raw = input.substring_char(p3, q3);
        let value = match parse_value(raw) {
            Ok(value) => value,
            Err(message) => {
                proof {
                    match unsigned_value(raw@) {
                        Some(x) => {
                            if VALUE_MIN <= x <= VALUE_MAX {
                                assert(unsigned_value(raw@) == Some(x));
                            }
                        },
                        None => {},
                    }
                }
                return Command::Say { message };
            },
        };
        return Command::Enter { row, column, value };
    }
    if word_is(input, p0, q0, "d") || word_is(input, p0, q0, "delete") {
        if toks.len() != 3 {
            return Command::Say { message: String::from_str("Usage: d <row> <col>") };
        }
        let (p1, q1) = toks[1];
        let (p2, q2) = toks[2];
        proof {
            assert(toks@[1] == (p1, q1));
            assert(toks@[2] == (p2, q2));
        }
        let row = match read_one_based(input, p1, q1, "Row") {
            Ok(row) => row,
            Err(message) => {
                return Command::Say { message };
            },
        };
        let column = match read_one_based(input, p2, q2, "Column") {
            Ok(column) => column,
            Err(message) => {
                return Command::Say { message };
            },
        };
        return Command::Delete { row, column };
    }
    if word_is(input, p0, q0, "c") || word_is(input, p0, q0, "clear") {
        return Command::Clear;
    }
    if word_is(input, p0, q0, "debug") {
        if toks.len() == 2 {
            let (p1, q1) = toks[1];
            proof {
                assert(toks@[1] == (p1, q1));
            }
            if word_is(input, p1, q1, "on") {
                return Command::Debug { on: true };
            }
            if word_is(input, p1, q1, "off") {
                return Command::Debug { on: false };
            }
        }
        return Command::Say { message: String::from_str("Usage: debug on|off") };
    }
    if word_is(input, p0, q0, "test") {
        return Command::RunTests;
    }
    if word_is(input, p0, q0, "h") || word_is(input, p0, q0, "help") {
        return Command::Help;
    }
    Command::Unknown
}

/// A change the user asks of the game.
#[derive(Debug, Clone, Copy, PartialEq, Eq, Structural)]
pub enum UserChangeRequest {
    /// Enter `value` in the cell numbered `cell_index`, row by row from zero.
    SetCell { cell_index: usize, value: u8 },
    /// Forget the value the user entered in the cell numbered `cell_index`.
    ClearCell { cell_index: usize },
    /// Start over on an open grid.
    ClearGrid,
    /// Show or hide every candidate.
    SetDebug { enabled: bool },
    /// Only show the grid.
    GetGrid,
}

/// The answer is a refusal with `message`.
pub open spec fn refused_with(r: Result<GridSnapshot, String>, message: Seq<char>) -> bool {
    match r {
        Ok(_) => false,
        Err(m) => m@ == message,
    }
}

/// The answer shows the cells `cells`.
pub open spec fn showing(r: Result<GridSnapshot, String>, cells: Seq<Cell>) -> bool {
    match r {
        Ok(snapshot) => shows(snapshot, cells),
        Err(_) => false,
    }
}

/// `r` answers `request` on a game with the cells `old` and debug mode `old_debug`, and
/// leaves it with the cells `new` and debug mode `new_debug`. Every refusal starts with
/// "Bad input: ".
pub open spec fn answers(
    request: UserChangeRequest,
    old: Seq<Cell>,
    old_debug: bool,
    r: Result<GridSnapshot, String>,
    new: Seq<Cell>,
    new_debug: bool,
) -> bool {
    match request {
        UserChangeRequest::SetCell { cell_index, value } => if !(VALUE_MIN <= value <= VALUE_MAX) {
            refused_with(r, "Bad input: "@ + value_message()) && new == old && new_debug == old_debug
        } else if cell_index >= CELL_COUNT {
            refused_with(r, "Bad input: "@ + cell_index_message(cell_index as nat)) && new == old && new_debug
                == old_debug
        } else {
            let row = cell_index / GRID_SIDE;
            let column = cell_index % GRID_SIDE;
            &&& new_debug == old_debug
            &&& match r {
                Ok(snapshot) => (exists|o: SetOutcome| #[trigger] accepted(old, row as int, column as int, value as int, o, new))
                    && shows(snapshot, new),
                Err(m) => refused(old, row as int, column as int, value as int, new) && m@ == "Bad input: "@
                    + set_value_error(old, row as int, column as int, value as int),
            }
        },
        UserChangeRequest::ClearCell { cell_index } => if cell_index >= CELL_COUNT {
            refused_with(r, "Bad input: "@ + cell_index_message(cell_index as nat)) && new == old && new_debug
                == old_debug
        } else {
            let row = cell_index / GRID_SIDE;
            let column = cell_index % GRID_SIDE;
            &&& new_debug == old_debug
            &&& match r {
                Ok(snapshot) => deleted(old, row as int, column as int, new) && shows(snapshot, new),
                Err(m) => exists|inner: Seq<char>|
                    m@ == "Bad input: "@ + inner && #[trigger] delete_refused(old, row as int, column as int, inner, new),
            }
        },
        UserChangeRequest::ClearGrid => {
            &&& new_debug == old_debug
            &&& new.len() == CELL_COUNT
            &&& forall|i: int|
                0 <= i < CELL_COUNT ==> (#[trigger] new[i]).mask() == ALL_VALUES_MASK && !new[i].user_set()
            &&& showing(r, new)
        },
        UserChangeRequest::SetDebug { enabled } => new == old && new_debug == enabled && showing(r, new),
        UserChangeRequest::GetGrid => new == old && new_debug == old_debug && showing(r, new),
    }
}

/// "Bad input: " and then `message`.
fn bad_input(message: &str) -> (r: String)
    ensures
        r@ == "Bad input: "@ + message@,
{
    let mut r = String::from_str("Bad input: ");
    r.append(message);
    r
}

/// Carries out a change the user asked of the game and shows the grid it leaves; a change
/// the game refuses is answered with why, after "Bad input: ".
pub fn run_user_change(game: &mut Game, request: UserChangeRequest) -> (r: Result<GridSnapshot, String>)
    requires
        old(game).wf(),
    ensures
        final(game).wf(),
        answers(request, old(game).cells(), old(game).debug(), r, final(game).cells(), final(game).debug()),
{
    match request {
        UserChangeRequest::SetCell { cell_index, value } => {
            if !(VALUE_MIN <= value && value <= VALUE_MAX) {
                let message = value_range_message();
                return Err(bad_input(message.as_str()));
            }
            let (row, column) = match cell_position_from_index(cell_index) {
                Ok(position) => position,
                Err(message) => {
                    return Err(bad_input(message.as_str()));
                },
            };
            match game.user_set_value(row, column, value) {
                Ok(outcome) => {
                    let ghost new = game.cells();
                    proof {
                        assert(accepted(old(game).cells(), row as int, column as int, value as int, outcome, new));
                    }
                    Ok(game.get_grid())
                },
                Err(message) => Err(bad_input(message.as_str())),
            }
        },
        UserChangeRequest::ClearCell { cell_index } => {
            let (row, column) = match cell_position_from_index(cell_index) {
                Ok(position) => position,
                Err(message) => {
                    return Err(bad_input(message.as_str()));
                },
            };
            match game.user_delete_value(row, column) {
                Ok(_) => Ok(game.get_grid()),
                Err(message) => {
                    let ghost new = game.cells();
                    proof {
                        assert(delete_refused(old(game).cells(), row as int, column as int, message@, new));
                    }
                    Err(bad_input(message.as_str()))
                },
            }
        },
        UserChangeRequest::ClearGrid => {
            game.clear();
            Ok(game.get_grid())
        },
        UserChangeRequest::SetDebug { enabled } => {
            game.set_debug(enabled);
            Ok(game.get_grid())
        },
        UserChangeRequest::GetGrid => Ok(game.get_grid()),
    }
}

} // verus!
