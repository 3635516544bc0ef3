//! Ordered, index-based doubly linked lists in which elements are taken
//! out and put back in last-out, first-in order.
//!
//! A list is described by a membership predicate over a range of indices
//! together with a sentinel index. The successor of a position is the first
//! member at or after it that has not been taken out; the predecessor is the
//! last such member at or before it. When no such member exists, the sentinel
//! stands in its place.
use vstd::prelude::*;

verus! {

/// `x` is a member of the list that is still linked in when the indices in `r` are taken out.
pub open spec fn live(mem: spec_fn(int) -> bool, r: Set<int>, x: int) -> bool {
    mem(x) && !r.contains(x)
}

/// The first live member in `[f, hi)`, or the sentinel `s` when there is none.
pub open spec fn nxt(mem: spec_fn(int) -> bool, hi: int, s: int, f: int, r: Set<int>) -> int
    decreases hi - f,
{
    if f >= hi {
        s
    } else if live(mem, r, f) {
        f
    } else {
        nxt(mem, hi, s, f + 1, r)
    }
}

/// The last live member in `[lo, f]`, or the sentinel `s` when there is none.
pub open spec fn prv(mem: spec_fn(int) -> bool, lo: int, s: int, f: int, r: Set<int>) -> int
    decreases f - lo + 1,
{
    if f < lo {
        s
    } else if live(mem, r, f) {
        f
    } else {
        prv(mem, lo, s, f - 1, r)
    }
}

/// Number of live members in `[f, hi)`.
pub open spec fn cnt(mem: spec_fn(int) -> bool, hi: int, f: int, r: Set<int>) -> nat
    decreases hi - f,
{
    if f >= hi {
        0
    } else if live(mem, r, f) {
        1 + cnt(mem, hi, f + 1, r)
    } else {
        cnt(mem, hi, f + 1, r)
    }
}

/// What `nxt` returns: either the first live member in range, or the sentinel when none exists.
pub proof fn lemma_nxt(mem: spec_fn(int) -> bool, hi: int, s: int, f: int, r: Set<int>)
    ensures
        ({
            let x = nxt(mem, hi, s, f, r);
            ||| (x == s && forall|j: int| f <= j < hi ==> !live(mem, r, j))
            ||| (f <= x < hi && live(mem, r, x) && forall|j: int| f <= j < x ==> !live(mem, r, j))
        }),
    decreases hi - f,
{
    if f < hi && !live(mem, r, f) {
        lemma_nxt(mem, hi, s, f + 1, r);
    }
}

/// What `prv` returns: either the last live member in range, or the sentinel when none exists.
pub proof fn lemma_prv(mem: spec_fn(int) -> bool, lo: int, s: int, f: int, r: Set<int>)
    ensures
        ({
            let x = prv(mem, lo, s, f, r);
            ||| (x == s && forall|j: int| lo <= j <= f ==> !live(mem, r, j))
            ||| (lo <= x <= f && live(mem, r, x) && forall|j: int| x < j <= f ==> !live(mem, r, j))
        }),
    decreases f - lo + 1,
{
    if f >= lo && !live(mem, r, f) {
        lemma_prv(mem, lo, s, f - 1, r);
    }
}

/// A live member with no live member before it in range is what `nxt` returns.
pub proof fn lemma_nxt_is(mem: spec_fn(int) -> bool, hi: int, s: int, f: int, r: Set<int>, x: int)
    requires
        f <= x < hi,
        live(mem, r, x),
        forall|j: int| f <= j < x ==> !live(mem, r, j),
    ensures
        nxt(mem, hi, s, f, r) == x,
    decreases x - f,
{
    if f < x {
        lemma_nxt_is(mem, hi, s, f + 1, r, x);
    }
}

/// With no live member in range, `nxt` returns the sentinel.
pub proof fn lemma_nxt_none(mem: spec_fn(int) -> bool, hi: int, s: int, f: int, r: Set<int>)
    requires
        forall|j: int| f <= j < hi ==> !live(mem, r, j),
    ensures
        nxt(mem, hi, s, f, r) == s,
    decreases hi - f,
{
    if f < hi {
        lemma_nxt_none(mem, hi, s, f + 1, r);
    }
}

/// A live member with no live member after it in range is what `prv` returns.
pub proof fn lemma_prv_is(mem: spec_fn(int) -> bool, lo: int, s: int, f: int, r: Set<int>, x: int)
    requires
        lo <= x <= f,
        live(mem, r, x),
        forall|j: int| x < j <= f ==> !live(mem, r, j),
    ensures
        prv(mem, lo, s, f, r) == x,
    decreases f - x,
{
    if x < f {
        lemma_prv_is(mem, lo, s, f - 1, r, x);
    }
}

/// With no live member in range, `prv` returns the sentinel.
pub proof fn lemma_prv_none(mem: spec_fn(int) -> bool, lo: int, s: int, f: int, r: Set<int>)
    requires
        forall|j: int| lo <= j <= f ==> !live(mem, r, j),
    ensures
        prv(mem, lo, s, f, r) == s,
    decreases f - lo + 1,
{
    if f >= lo {
        lemma_prv_none(mem, lo, s, f - 1, r);
    }
}

/// Ranges whose live members agree give the same `nxt`.
pub proof fn lemma_nxt_same(
    mem1: spec_fn(int) -> bool,
    r1: Set<int>,
    mem2: spec_fn(int) -> bool,
    r2: Set<int>,
    hi: int,
    s: int,
    f: int,
)
    requires
        forall|j: int| f <= j < hi ==> (live(mem1, r1, j) <==> live(mem2, r2, j)),
    ensures
        nxt(mem1, hi, s, f, r1) == nxt(mem2, hi, s, f, r2),
    decreases hi - f,
{
    if f < hi {
        lemma_nxt_same(mem1, r1, mem2, r2, hi, s, f + 1);
    }
}

/// Ranges whose live members agree give the same `prv`.
pub proof fn lemma_prv_same(
    mem1: spec_fn(int) -> bool,
    r1: Set<int>,
    mem2: spec_fn(int) -> bool,
    r2: Set<int>,
    lo: int,
    s: int,
    f: int,
)
    requires
        forall|j: int| lo <= j <= f ==> (live(mem1, r1, j) <==> live(mem2, r2, j)),
    ensures
        prv(mem1, lo, s, f, r1) == prv(mem2, lo, s, f, r2),
    decreases f - lo + 1,
{
    if f >= lo {
        lemma_prv_same(mem1, r1, mem2, r2, lo, s, f - 1);
    }
}

/// Ranges whose live members agree give the same count.
pub proof fn lemma_cnt_same(
    mem1: spec_fn(int) -> bool,
    r1: Set<int>,
    mem2: spec_fn(int) -> bool,
    r2: Set<int>,
    hi: int,
    f: int,
)
    requires
        forall|j: int| f <= j < hi ==> (live(mem1, r1, j) <==> live(mem2, r2, j)),
    ensures
        cnt(mem1, hi, f, r1) == cnt(mem2, hi, f, r2),
    decreases hi - f,
{
    if f < hi {
        lemma_cnt_same(mem1, r1, mem2, r2, hi, f + 1);
    }
}

/// Taking out one live member lowers the count by one.
pub proof fn lemma_cnt_remove(mem: spec_fn(int) -> bool, hi: int, f: int, r: Set<int>, x: int)
    requires
        f <= x < hi,
        live(mem, r, x),
    ensures
        cnt(mem, hi, f, r) == cnt(mem, hi, f, r.insert(x)) + 1,
    decreases hi - f,
{
    if f < x {
        lemma_cnt_remove(mem, hi, f + 1, r, x);
    } else {
        lemma_cnt_same(mem, r, mem, r.insert(x), hi, f + 1);
    }
}

/// A count of zero means no live member in range.
pub proof fn lemma_cnt_zero(mem: spec_fn(int) -> bool, hi: int, f: int, r: Set<int>)
    requires
        cnt(mem, hi, f, r) == 0,
    ensures
        forall|j: int| f <= j < hi ==> !live(mem, r, j),
    decreases hi - f,
{
    if f < hi {
        lemma_cnt_zero(mem, hi, f + 1, r);
    }
}

/// The count is at most the length of the range.
pub proof fn lemma_cnt_bound(mem: spec_fn(int) -> bool, hi: int, f: int, r: Set<int>)
    ensures
        cnt(mem, hi, f, r) <= if f <= hi { hi - f } else { 0 },
    decreases hi - f,
{
    if f < hi {
        lemma_cnt_bound(mem, hi, f + 1, r);
    }
}

/// Taking out a live member `x` changes `nxt` only where it returned `x`, which then moves on past `x`.
pub proof fn lemma_nxt_remove(mem: spec_fn(int) -> bool, hi: int, s: int, f: int, r: Set<int>, x: int)
    requires
        live(mem, r, x),
        !mem(s),
    ensures
        nxt(mem, hi, s, f, r.insert(x)) == if nxt(mem, hi, s, f, r) == x {
            nxt(mem, hi, s, x + 1, r)
        } else {
            nxt(mem, hi, s, f, r)
        },
    decreases hi - f,
{
    if f < hi {
        if f == x {
            lemma_nxt_same(mem, r, mem, r.insert(x), hi, s, x + 1);
        } else {
            lemma_nxt_remove(mem, hi, s, f + 1, r, x);
        }
    }
}

/// Taking out a live member `x` changes `prv` only where it returned `x`, which then moves on past `x`.
pub proof fn lemma_prv_remove(mem: spec_fn(int) -> bool, lo: int, s: int, f: int, r: Set<int>, x: int)
    requires
        live(mem, r, x),
        !mem(s),
    ensures
        prv(mem, lo, s, f, r.insert(x)) == if prv(mem, lo, s, f, r) == x {
            prv(mem, lo, s, x - 1, r)
        } else {
            prv(mem, lo, s, f, r)
        },
    decreases f - lo + 1,
{
    if f >= lo {
        if f == x {
            lemma_prv_same(mem, r, mem, r.insert(x), lo, s, x - 1);
        } else {
            lemma_prv_remove(mem, lo, s, f - 1, r, x);
        }
    }
}

/// Neighbours: `y` (a live member or the sentinel) is followed by the live member `x`
/// exactly when `y` is what precedes `x`.
pub proof fn lemma_adjacent_down(
    mem: spec_fn(int) -> bool,
    lo: int,
    hi: int,
    s: int,
    r: Set<int>,
    x: int,
    y: int,
)
    requires
        lo <= x < hi,
        live(mem, r, x),
        s < lo,
        y == s || (lo <= y < hi && live(mem, r, y)),
        forall|j: int| #[trigger] mem(j) ==> lo <= j < hi,
    ensures
        (nxt(mem, hi, s, if y == s { lo } else { y + 1 }, r) == x) <==> (prv(mem, lo, s, x - 1, r)
            == y),
{
    let f = if y == s { lo } else { y + 1 };
    lemma_nxt(mem, hi, s, f, r);
    lemma_prv(mem, lo, s, x - 1, r);
    if nxt(mem, hi, s, f, r) == x {
        if y == s {
            lemma_prv_none(mem, lo, s, x - 1, r);
        } else {
            lemma_prv_is(mem, lo, s, x - 1, r, y);
        }
    }
    if prv(mem, lo, s, x - 1, r) == y {
        lemma_nxt_is(mem, hi, s, f, r, x);
    }
}

/// Neighbours: `y` (a live member or the sentinel) is preceded by the live member `x`
/// exactly when `y` is what follows `x`.
pub proof fn lemma_adjacent_up(
    mem: spec_fn(int) -> bool,
    lo: int,
    hi: int,
    s: int,
    r: Set<int>,
    x: int,
    y: int,
)
    requires
        lo <= x < hi,
        live(mem, r, x),
        s < lo,
        y == s || (lo <= y < hi && live(mem, r, y)),
        forall|j: int| #[trigger] mem(j) ==> lo <= j < hi,
    ensures
        (prv(mem, lo, s, if y == s { hi - 1 } else { y - 1 }, r) == x) <==> (nxt(
            mem,
            hi,
            s,
            x + 1,
            r,
        ) == y),
{
    let f = if y == s { hi - 1 } else { y - 1 };
    lemma_prv(mem, lo, s, f, r);
    lemma_nxt(mem, hi, s, x + 1, r);
    if prv(mem, lo, s, f, r) == x {
        if y == s {
            lemma_nxt_none(mem, hi, s, x + 1, r);
        } else {
            lemma_nxt_is(mem, hi, s, x + 1, r, y);
        }
    }
    if nxt(mem, hi, s, x + 1, r) == y {
        lemma_prv_is(mem, lo, s, f, r, x);
    }
}

/// Widening the range by one index: `nxt` only changes where it found nothing, and then
/// finds the new index if it is live.
pub proof fn lemma_nxt_extend(mem: spec_fn(int) -> bool, hi: int, s: int, f: int, r: Set<int>)
    requires
        f <= hi,
        s < f,
    ensures
        nxt(mem, hi + 1, s, f, r) == if nxt(mem, hi, s, f, r) == s && live(mem, r, hi) {
            hi
        } else {
            nxt(mem, hi, s, f, r)
        },
    decreases hi - f,
{
    if f < hi && !live(mem, r, f) {
        lemma_nxt_extend(mem, hi, s, f + 1, r);
    } else if f == hi {
        assert(nxt(mem, hi + 1, s, hi + 1, r) == s);
    }
}

/// Widening the range by one index adds one to the count when the new index is live.
pub proof fn lemma_cnt_extend(mem: spec_fn(int) -> bool, hi: int, f: int, r: Set<int>)
    requires
        f <= hi,
    ensures
        cnt(mem, hi + 1, f, r) == cnt(mem, hi, f, r) + if live(mem, r, hi) {
            1int
        } else {
            0
        },
    decreases hi - f,
{
    if f < hi {
        lemma_cnt_extend(mem, hi, f + 1, r);
    } else {
        assert(cnt(mem, hi + 1, hi + 1, r) == 0);
    }
}

} // verus!
