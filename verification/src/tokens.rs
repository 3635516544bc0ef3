//! Scanning text: white space, the edges of a line, and the tokens between separators.
use vstd::prelude::*;

verus! {

/// A character Unicode counts as white space.
pub open spec fn is_ws(c: char) -> bool {
    ||| ('\u{9}' <= c && c <= '\u{d}')
    ||| c == ' '
    ||| c == '\u{85}'
    ||| c == '\u{a0}'
    ||| c == '\u{1680}'
    ||| ('\u{2000}' <= c && c <= '\u{200a}')
    ||| c == '\u{2028}'
    ||| c == '\u{2029}'
    ||| c == '\u{202f}'
    ||| c == '\u{205f}'
    ||| c == '\u{3000}'
}

/// A character that ends a token: white space, and `|` too when `bars` holds.
pub open spec fn is_sep(c: char, bars: bool) -> bool {
    is_ws(c) || (bars && c == '|')
}

/// The first position from `i` on, before `e`, that is not white space.
pub open spec fn skip_ws(s: Seq<char>, i: int, e: int) -> int
    decreases e - i,
{
    if i < e && is_ws(s[i]) {
        skip_ws(s, i + 1, e)
    } else {
        i
    }
}

/// One past the last position before `e`, from `b` on, that is not white space.
pub open spec fn back_ws(s: Seq<char>, b: int, e: int) -> int
    decreases e - b,
{
    if e > b && is_ws(s[e - 1]) {
        back_ws(s, b, e - 1)
    } else {
        e
    }
}

/// The first position from `i` on, before `e`, that is not a separator.
pub open spec fn skip_sep(s: Seq<char>, i: int, e: int, bars: bool) -> int
    decreases e - i,
{
    if i < e && is_sep(s[i], bars) {
        skip_sep(s, i + 1, e, bars)
    } else {
        i
    }
}

/// The first position from `i` on, before `e`, that is a separator.
pub open spec fn token_end(s: Seq<char>, i: int, e: int, bars: bool) -> int
    decreases e - i,
{
    if i < e && !is_sep(s[i], bars) {
        token_end(s, i + 1, e, bars)
    } else {
        i
    }
}

/// The tokens of `s[i..e]`: the runs of characters between separators.
pub open spec fn token_list(s: Seq<char>, i: int, e: int, bars: bool) -> Seq<Seq<char>>
    decreases e - i,
{
    let p = skip_sep(s, i, e, bars);
    if p >= e || p < i {
        Seq::empty()
    } else {
        let t = token_end(s, p, e, bars);
        if t <= p || t > e {
            Seq::empty()
        } else {
            seq![s.subrange(p, t)] + token_list(s, t, e, bars)
        }
    }
}

/// Where the scans stop: within their range, and on a character of the kind they look for.
pub proof fn lemma_scan_bounds(s: Seq<char>, i: int, e: int, bars: bool)
    requires
        0 <= i <= e <= s.len(),
    ensures
        i <= skip_ws(s, i, e) <= e,
        skip_ws(s, i, e) < e ==> !is_ws(s[skip_ws(s, i, e)]),
        i <= skip_sep(s, i, e, bars) <= e,
        skip_sep(s, i, e, bars) < e ==> !is_sep(s[skip_sep(s, i, e, bars)], bars),
        i <= token_end(s, i, e, bars) <= e,
        i < e && !is_sep(s[i], bars) ==> token_end(s, i, e, bars) > i,
        i <= back_ws(s, i, e) <= e,
    decreases e - i,
{
    if i < e {
        lemma_scan_bounds(s, i + 1, e, bars);
        lemma_back_ws_bounds(s, i, e);
    }
}

/// `back_ws` stays within its range.
pub proof fn lemma_back_ws_bounds(s: Seq<char>, b: int, e: int)
    requires
        0 <= b <= e <= s.len(),
    ensures
        b <= back_ws(s, b, e) <= e,
    decreases e - b,
{
    if e > b {
        lemma_back_ws_bounds(s, b, e - 1);
    }
}

/// The characters `skip_ws` passes over are white space.
pub proof fn lemma_skip_ws_passes(s: Seq<char>, i: int, e: int)
    requires
        0 <= i <= e <= s.len(),
    ensures
        forall|k: int| i <= k < skip_ws(s, i, e) ==> is_ws(#[trigger] s[k]),
    decreases e - i,
{
    if i < e && is_ws(s[i]) {
        lemma_skip_ws_passes(s, i + 1, e);
    }
}

/// The characters `back_ws` passes over are white space, and it stops after one that is
/// not.
pub proof fn lemma_back_ws_passes(s: Seq<char>, b: int, e: int)
    requires
        0 <= b <= e <= s.len(),
    ensures
        forall|k: int| back_ws(s, b, e) <= k < e ==> is_ws(#[trigger] s[k]),
        back_ws(s, b, e) > b ==> !is_ws(s[back_ws(s, b, e) - 1]),
    decreases e - b,
{
    if e > b && is_ws(s[e - 1]) {
        lemma_back_ws_passes(s, b, e - 1);
    }
}

/// The characters of a token are no separators.
pub proof fn lemma_token_chars(s: Seq<char>, i: int, e: int, bars: bool)
    requires
        0 <= i <= e <= s.len(),
    ensures
        forall|k: int| i <= k < token_end(s, i, e, bars) ==> !is_sep(#[trigger] s[k], bars),
    decreases e - i,
{
    if i < e && !is_sep(s[i], bars) {
        lemma_token_chars(s, i + 1, e, bars);
    }
}

/// `s1` read with separators `b1` and `s2` read with `b2` have their separators at the
/// same places in `i..e`, and the same characters between them.
pub open spec fn same_tokens_text(s1: Seq<char>, b1: bool, s2: Seq<char>, b2: bool, i: int, e: int) -> bool {
    forall|k: int|
        i <= k < e ==> (is_sep(#[trigger] s1[k], b1) == is_sep(s2[k], b2)) && (!is_sep(s1[k], b1) ==> s1[k]
            == s2[k])
}

/// Texts with their separators at the same places give the same tokens.
pub proof fn lemma_same_tokens(s1: Seq<char>, b1: bool, s2: Seq<char>, b2: bool, i: int, e: int)
    requires
        0 <= i <= e <= s1.len(),
        e <= s2.len(),
        same_tokens_text(s1, b1, s2, b2, i, e),
    ensures
        skip_sep(s1, i, e, b1) == skip_sep(s2, i, e, b2),
        token_end(s1, i, e, b1) == token_end(s2, i, e, b2),
        token_list(s1, i, e, b1) == token_list(s2, i, e, b2),
    decreases e - i,
{
    if i < e {
        assert(same_tokens_text(s1, b1, s2, b2, i + 1, e));
        lemma_same_tokens(s1, b1, s2, b2, i + 1, e);
        assert(is_sep(s1[i], b1) == is_sep(s2[i], b2));
    }
    let p = skip_sep(s1, i, e, b1);
    lemma_scan_bounds(s1, i, e, b1);
    if p < e {
        assert(same_tokens_text(s1, b1, s2, b2, p, e));
        lemma_same_tokens_from(s1, b1, s2, b2, p, e);
        let t = token_end(s1, p, e, b1);
        lemma_scan_bounds(s1, p, e, b1);
        lemma_token_chars(s1, p, e, b1);
        if t > p {
            assert(s1.subrange(p, t) =~= s2.subrange(p, t));
            assert(same_tokens_text(s1, b1, s2, b2, t, e));
            lemma_same_tokens(s1, b1, s2, b2, t, e);
        }
    }
}

/// From a token's start, texts with their separators at the same places end it at the
/// same place.
proof fn lemma_same_tokens_from(s1: Seq<char>, b1: bool, s2: Seq<char>, b2: bool, i: int, e: int)
    requires
        0 <= i <= e <= s1.len(),
        e <= s2.len(),
        same_tokens_text(s1, b1, s2, b2, i, e),
    ensures
        token_end(s1, i, e, b1) == token_end(s2, i, e, b2),
    decreases e - i,
{
    if i < e {
        assert(same_tokens_text(s1, b1, s2, b2, i + 1, e));
        lemma_same_tokens_from(s1, b1, s2, b2, i + 1, e);
    }
}

/// Separators before the first token change no token.
pub proof fn lemma_tokens_after_separators(s: Seq<char>, i: int, j: int, e: int, bars: bool)
    requires
        0 <= i <= j <= e <= s.len(),
        forall|k: int| i <= k < j ==> is_sep(#[trigger] s[k], bars),
    ensures
        skip_sep(s, i, e, bars) == skip_sep(s, j, e, bars),
        token_list(s, i, e, bars) == token_list(s, j, e, bars),
    decreases j - i,
{
    if i < j {
        assert(is_sep(s[i], bars));
        lemma_tokens_after_separators(s, i + 1, j, e, bars);
    }
    lemma_scan_bounds(s, j, e, bars);
}

/// Separators after `t` do not move where the separators from `i` end.
proof fn lemma_skip_sep_before_separators(s: Seq<char>, i: int, t: int, e: int, bars: bool)
    requires
        0 <= i <= t <= e <= s.len(),
        forall|k: int| t <= k < e ==> is_sep(#[trigger] s[k], bars),
    ensures
        skip_sep(s, i, t, bars) < t ==> skip_sep(s, i, e, bars) == skip_sep(s, i, t, bars),
        skip_sep(s, i, t, bars) >= t ==> skip_sep(s, i, e, bars) == e,
    decreases t - i,
{
    if i < t {
        if is_sep(s[i], bars) {
            lemma_skip_sep_before_separators(s, i + 1, t, e, bars);
        }
    } else {
        lemma_tokens_after_separators(s, t, e, e, bars);
    }
}

/// Separators after `t` do not move where a token that starts before `t` ends.
proof fn lemma_token_end_before_separators(s: Seq<char>, i: int, t: int, e: int, bars: bool)
    requires
        0 <= i < t <= e <= s.len(),
        forall|k: int| t <= k < e ==> is_sep(#[trigger] s[k], bars),
    ensures
        token_end(s, i, e, bars) == token_end(s, i, t, bars),
    decreases t - i,
{
    if !is_sep(s[i], bars) {
        if i + 1 < t {
            lemma_token_end_before_separators(s, i + 1, t, e, bars);
        } else {
            if t < e {
                assert(is_sep(s[t], bars));
            }
            assert(token_end(s, t, e, bars) == t);
            assert(token_end(s, t, t, bars) == t);
        }
        assert(token_end(s, i, e, bars) == token_end(s, i + 1, e, bars));
        assert(token_end(s, i, t, bars) == token_end(s, i + 1, t, bars));
    }
}

/// Separators after the last token change no token.
pub proof fn lemma_tokens_before_separators(s: Seq<char>, i: int, t: int, e: int, bars: bool)
    requires
        0 <= i <= t <= e <= s.len(),
        forall|k: int| t <= k < e ==> is_sep(#[trigger] s[k], bars),
    ensures
        token_list(s, i, e, bars) == token_list(s, i, t, bars),
    decreases t - i,
{
    lemma_skip_sep_before_separators(s, i, t, e, bars);
    lemma_scan_bounds(s, i, t, bars);
    let q = skip_sep(s, i, t, bars);
    if q < t {
        lemma_token_end_before_separators(s, q, t, e, bars);
        lemma_scan_bounds(s, q, t, bars);
        let u = token_end(s, q, t, bars);
        if u > q {
            lemma_tokens_before_separators(s, u, t, e, bars);
        }
    }
}

/// `skip_ws` stops at the first character that is not white space.
pub proof fn lemma_skip_ws_at(s: Seq<char>, i: int, j: int, e: int)
    requires
        0 <= i <= j <= e <= s.len(),
        forall|k: int| i <= k < j ==> is_ws(#[trigger] s[k]),
        j == e || !is_ws(s[j]),
    ensures
        skip_ws(s, i, e) == j,
    decreases j - i,
{
    if i < j {
        assert(is_ws(s[i]));
        lemma_skip_ws_at(s, i + 1, j, e);
    }
}

/// `back_ws` stops after the last character that is not white space.
pub proof fn lemma_back_ws_at(s: Seq<char>, b: int, t: int, e: int)
    requires
        0 <= b <= t <= e <= s.len(),
        forall|k: int| t <= k < e ==> is_ws(#[trigger] s[k]),
        t == b || !is_ws(s[t - 1]),
    ensures
        back_ws(s, b, e) == t,
    decreases e - t,
{
    if t < e {
        assert(is_ws(s[e - 1]));
        lemma_back_ws_at(s, b, t, e - 1);
    }
}

/// Unicode white space.
pub fn is_ws_char(c: char) -> (r: bool)
    ensures
        r == is_ws(c),
{
    ('\u{9}' <= c && c <= '\u{d}') || c == ' ' || c == '\u{85}' || c == '\u{a0}' || c == '\u{1680}' || (
    '\u{2000}' <= c && c <= '\u{200a}') || c == '\u{2028}' || c == '\u{2029}' || c == '\u{202f}' || c
        == '\u{205f}' || c == '\u{3000}'
}

/// The characters of a text.
pub fn to_chars(text: &str) -> (v: Vec<char>)
    ensures
        v@ == text@,
{
    let n = text.unicode_len();
    let mut v: Vec<char> = Vec::new();
    let mut i: usize = 0;
    while i < n
        invariant
            n == text@.len(),
            i <= n,
            v@ == text@.take(i as int),
        decreases n - i,
    {
        let c = text.get_char(i);
        v.push(c);
        proof {
            assert(text@.take(i + 1) =~= text@.take(i as int).push(c));
        }
        i = i + 1;
    }
    proof {
        assert(text@.take(n as int) =~= text@);
    }
    v
}

/// The first position from `i`, before `e`, that is not white space.
pub fn skip_ws_from(v: &Vec<char>, i: usize, e: usize) -> (r: usize)
    requires
        i <= e <= v@.len(),
    ensures
        r == skip_ws(v@, i as int, e as int),
{
    let mut j = i;
    while j < e && is_ws_char(v[j])
        invariant
            i <= j <= e,
            e <= v@.len(),
            skip_ws(v@, j as int, e as int) == skip_ws(v@, i as int, e as int),
        decreases e - j,
    {
        j = j + 1;
    }
    j
}

/// One past the last position before `e`, from `b`, that is not white space.
pub fn back_ws_from(v: &Vec<char>, b: usize, e: usize) -> (r: usize)
    requires
        b <= e <= v@.len(),
    ensures
        r == back_ws(v@, b as int, e as int),
{
    let mut j = e;
    while j > b && is_ws_char(v[j - 1])
        invariant
            b <= j <= e,
            e <= v@.len(),
            back_ws(v@, b as int, j as int) == back_ws(v@, b as int, e as int),
        decreases j - b,
    {
        j = j - 1;
    }
    j
}

/// The first position from `i`, before `e`, that is not a separator.
pub fn skip_sep_from(v: &Vec<char>, i: usize, e: usize, bars: bool) -> (r: usize)
    requires
        i <= e <= v@.len(),
    ensures
        r == skip_sep(v@, i as int, e as int, bars),
{
    let mut j = i;
    while j < e && (is_ws_char(v[j]) || (bars && v[j] == '|'))
        invariant
            i <= j <= e,
            e <= v@.len(),
            skip_sep(v@, j as int, e as int, bars) == skip_sep(v@, i as int, e as int, bars),
        decreases e - j,
    {
        j = j + 1;
    }
    j
}

/// The first position from `i`, before `e`, that is a separator.
pub fn token_end_from(v: &Vec<char>, i: usize, e: usize, bars: bool) -> (r: usize)
    requires
        i <= e <= v@.len(),
    ensures
        r == token_end(v@, i as int, e as int, bars),
{
    let mut j = i;
    while j < e && !(is_ws_char(v[j]) || (bars && v[j] == '|'))
        invariant
            i <= j <= e,
            e <= v@.len(),
            token_end(v@, j as int, e as int, bars) == token_end(v@, i as int, e as int, bars),
        decreases e - j,
    {
        j = j + 1;
    }
    j
}

/// The positions of the tokens of `v[b..t]`.
pub fn tokens_of(v: &Vec<char>, b: usize, t: usize, bars: bool) -> (r: Vec<(usize, usize)>)
    requires
        b <= t <= v@.len(),
    ensures
        r@.len() == token_list(v@, b as int, t as int, bars).len(),
        forall|k: int|
            0 <= k < r@.len() ==> {
                let (p, q) = #[trigger] r@[k];
                &&& b <= p < q <= t
                &&& v@.subrange(p as int, q as int) == token_list(v@, b as int, t as int, bars)[k]
            },
{
    let ghost s = v@;
    let ghost all = token_list(s, b as int, t as int, bars);
    let mut r: Vec<(usize, usize)> = Vec::new();
    let mut pos = b;
    loop
        invariant
            s == v@,
            b <= pos <= t,
            t <= s.len(),
            all == token_list(s, b as int, t as int, bars),
            r@.len() + token_list(s, pos as int, t as int, bars).len() == all.len(),
            forall|k: int|
                0 <= k < r@.len() ==> {
                    let (p, q) = #[trigger] r@[k];
                    &&& b <= p < q <= pos
                    &&& s.subrange(p as int, q as int) == all[k]
                },
            forall|k: int| 0 <= k < token_list(s, pos as int, t as int, bars).len() ==> #[trigger] token_list(s, pos as int, t as int, bars)[k] == all[r@.len() + k],
        ensures
            r@.len() == all.len(),
            forall|k: int|
                0 <= k < r@.len() ==> {
                    let (p, q) = #[trigger] r@[k];
                    &&& b <= p < q <= t
                    &&& s.subrange(p as int, q as int) == all[k]
                },
        decreases t - pos,
    {
        let p = skip_sep_from(v, pos, t, bars);
        proof {
            lemma_scan_bounds(s, pos as int, t as int, bars);
        }
        if p >= t {
            proof {
                assert(token_list(s, pos as int, t as int, bars).len() == 0);
            }
            break;
        }
        let q = token_end_from(v, p, t, bars);
        proof {
            lemma_scan_bounds(s, p as int, t as int, bars);
            let rest = token_list(s, pos as int, t as int, bars);
            assert(rest == seq![s.subrange(p as int, q as int)] + token_list(s, q as int, t as int, bars));
            assert(rest[0] == s.subrange(p as int, q as int));
            assert forall|k: int| 0 <= k < token_list(s, q as int, t as int, bars).len() implies #[trigger] token_list(s, q as int, t as int, bars)[k] == all[r@.len() + 1 + k] by {
                assert(rest[k + 1] == token_list(s, q as int, t as int, bars)[k]);
            }
        }
        r.push((p, q));
        pos = q;
    }
    r
}

} // verus!
