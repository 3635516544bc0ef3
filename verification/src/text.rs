//! Decimal numbers in text: writing them and reading them back.
use vstd::prelude::*;

verus! {

/// The character of the decimal digit `d`.
pub open spec fn digit_char(d: int) -> char {
    if d == 0 {
        '0'
    } else if d == 1 {
        '1'
    } else if d == 2 {
        '2'
    } else if d == 3 {
        '3'
    } else if d == 4 {
        '4'
    } else if d == 5 {
        '5'
    } else if d == 6 {
        '6'
    } else if d == 7 {
        '7'
    } else if d == 8 {
        '8'
    } else {
        '9'
    }
}

/// The decimal digits of `n`, most significant first, with no leading zeros.
pub open spec fn decimal(n: nat) -> Seq<char>
    decreases n,
{
    if n < 10 {
        seq![digit_char(n as int)]
    } else {
        decimal(n / 10).push(digit_char((n % 10) as int))
    }
}

/// The digit of a decimal digit character.
pub open spec fn digit_value(c: char) -> int {
    c as int - '0' as int
}

/// An ASCII decimal digit.
pub open spec fn is_digit(c: char) -> bool {
    '0' <= c && c <= '9'
}

/// The number that the digits `s` spell, most significant first.
pub open spec fn digits_value(s: Seq<char>) -> nat
    decreases s.len(),
{
    if s.len() == 0 {
        0
    } else {
        (digits_value(s.drop_last()) * 10 + digit_value(s.last())) as nat
    }
}

/// The text of an unsigned integer without its optional leading `+`.
pub open spec fn unsigned_digits(s: Seq<char>) -> Seq<char> {
    if s.len() > 0 && s[0] == '+' {
        s.drop_first()
    } else {
        s
    }
}

/// Every character is an ASCII digit.
pub open spec fn all_digits(s: Seq<char>) -> bool {
    forall|i: int| 0 <= i < s.len() ==> is_digit(#[trigger] s[i])
}

/// The number an unsigned integer in text stands for: an optional `+`, then one or more
/// ASCII digits and nothing else.
pub open spec fn unsigned_value(s: Seq<char>) -> Option<nat> {
    let digits = unsigned_digits(s);
    if digits.len() > 0 && all_digits(digits) {
        Some(digits_value(digits))
    } else {
        None
    }
}

/// The character of the decimal digit `d`.
pub fn digit_character(d: u8) -> (c: char)
    requires
        d < 10,
    ensures
        c == digit_char(d as int),
{
    if d == 0 {
        '0'
    } else if d == 1 {
        '1'
    } else if d == 2 {
        '2'
    } else if d == 3 {
        '3'
    } else if d == 4 {
        '4'
    } else if d == 5 {
        '5'
    } else if d == 6 {
        '6'
    } else if d == 7 {
        '7'
    } else if d == 8 {
        '8'
    } else {
        '9'
    }
}

/// The text of one decimal digit.
fn digit_str(d: usize) -> (s: &'static str)
    requires
        d < 10,
    ensures
        s@ == seq![digit_char(d as int)],
{
    proof {
        reveal_strlit("0");
        reveal_strlit("1");
        reveal_strlit("2");
        reveal_strlit("3");
        reveal_strlit("4");
        reveal_strlit("5");
        reveal_strlit("6");
        reveal_strlit("7");
        reveal_strlit("8");
        reveal_strlit("9");
    }
    match d {
        0 => "0",
        1 => "1",
        2 => "2",
        3 => "3",
        4 => "4",
        5 => "5",
        6 => "6",
        7 => "7",
        8 => "8",
        _ => "9",
    }
}

/// Appends the decimal digits of `n` to `s`.
pub fn push_decimal(s: &mut String, n: usize)
    ensures
        final(s)@ == old(s)@ + decimal(n as nat),
    decreases n,
{
    if n >= 10 {
        push_decimal(s, n / 10);
    }
    s.append(digit_str(n % 10));
    proof {
        if n >= 10 {
            assert(decimal(n as nat) == decimal((n / 10) as nat).push(digit_char((n % 10) as int)));
        }
    }
}

/// The decimal digits of `n`.
pub fn decimal_string(n: usize) -> (s: String)
    ensures
        s@ == decimal(n as nat),
{
    let mut s = String::new();
    push_decimal(&mut s, n);
    proof {
        assert(Seq::<char>::empty() + decimal(n as nat) =~= decimal(n as nat));
    }
    s
}

/// `prefix` followed by the decimal digits of `n`.
pub fn with_decimal(prefix: &str, n: usize) -> (s: String)
    ensures
        s@ == prefix@ + decimal(n as nat),
{
    let mut s = String::from_str(prefix);
    push_decimal(&mut s, n);
    s
}

/// Reads an unsigned integer the way `str::parse` does for unsigned types, refusing the
/// text when it is malformed or its value exceeds `max`.
pub fn parse_bounded(raw: &str, max: usize) -> (r: Option<usize>)
    ensures
        match r {
            Some(v) => unsigned_value(raw@) == Some(v as nat) && v <= max,
            None => match unsigned_value(raw@) {
                Some(v) => v > max,
                None => true,
            },
        },
{
    let ghost s = raw@;
    let n = raw.unicode_len();
    let mut start: usize = 0;
    if n > 0 && raw.get_char(0) == '+' {
        start = 1;
    }
    let ghost digits = s.subrange(start as int, s.len() as int);
    proof {
        if s.len() > 0 && s[0] == '+' {
            assert(digits =~= s.drop_first());
        } else {
            assert(digits =~= s);
        }
    }
    let mut value: usize = 0;
    let mut overflow = false;
    let mut bad = false;
    let mut i: usize = start;
    while i < n
        invariant
            s == raw@,
            n == s.len(),
            start <= i <= n,
            start == 1 <==> (s.len() > 0 && s[0] == '+'),
            start <= 1,
            digits == s.subrange(start as int, s.len() as int),
            digits == unsigned_digits(s),
            !bad ==> forall|k: int| 0 <= k < i - start ==> is_digit(#[trigger] digits[k]),
            bad ==> exists|k: int| 0 <= k < digits.len() && !is_digit(#[trigger] digits[k]),
            !bad && !overflow ==> value == digits_value(digits.take(i - start)) && value <= max,
            !bad && overflow ==> digits_value(digits.take(i - start)) > max,
        decreases n - i,
    {
        let c = raw.get_char(i);
        let ghost k = i - start;
        proof {
            assert(digits[k] == c);
            assert(digits.take(k + 1).drop_last() =~= digits.take(k));
            assert(digits.take(k + 1).last() == c);
        }
        if '0' <= c && c <= '9' {
            let d = (c as u32 - '0' as u32) as usize;
            if !bad && !overflow {
                proof {
                    assert(digits_value(digits.take(k + 1)) == value * 10 + d);
                }
                if d > max || value > (max - d) / 10 {
                    overflow = true;
                    proof {
                        if d <= max {
                            assert(value * 10 + d > max) by (nonlinear_arith)
                                requires
                                    value > (max - d) / 10,
                                    d <= max,
                            ;
                        }
                    }
                } else {
                    proof {
                        assert(value * 10 + d <= max) by (nonlinear_arith)
                            requires
                                value <= (max - d) / 10,
                                d <= max,
                        ;
                    }
                    value = value * 10 + d;
                }
            } else if !bad {
                proof {
                    let before = digits_value(digits.take(k));
                    assert(digits_value(digits.take(k + 1)) == before * 10 + d);
                }
            }
        } else {
            bad = true;
        }
        i = i + 1;
    }
    proof {
        assert(digits.take(n - start) =~= digits);
    }
    if bad {
        proof {
            let k = choose|k: int| 0 <= k < digits.len() && !is_digit(#[trigger] digits[k]);
            assert(!all_digits(digits));
        }
        return None;
    }
    if start == n || overflow {
        return None;
    }
    Some(value)
}

} // verus!
