//! Knuth's Dancing Links (Algorithm X on circular doubly linked lists) for
//! counting the exact covers of a 0/1 matrix, with an early stop once a cap is reached.
use vstd::prelude::*;
use crate::exact_cover::covers::{all_columns, available, covers, covers_hitting, covers_with, without_row};
use crate::exact_cover::dlx_layout::{
    Layout, lemma_hits, lemma_open_column_node, lemma_push_node, lemma_rm_range, lemma_rm_range_none, lemma_rm_range_split,
    lemma_rm_range_step, lemma_tail, lemma_tail_walk, lemma_unique_in_column, lemma_vs_of, rows_wf,
};
use crate::exact_cover::links::{
    cnt, live, lemma_adjacent_down, lemma_adjacent_up, lemma_cnt_extend, lemma_cnt_remove,
    lemma_cnt_same, lemma_nxt, lemma_nxt_extend, lemma_nxt_is, lemma_nxt_none, lemma_nxt_remove, lemma_nxt_same, lemma_prv, lemma_prv_remove, lemma_prv_same, nxt, prv,
};


verus! {

/// The data nodes of column `c` whose rows hold no column of `hs`.
pub open spec fn elig_fn(l: Layout, c: int, hs: Seq<int>) -> spec_fn(int) -> bool {
    |y: int| l.elig(c, hs, y)
}

/// While the columns `hs` are covered and column `c` is not, the list of column `c`
/// links exactly its eligible nodes, whatever else has been taken out of other columns.
proof fn lemma_column_walk(l: Layout, c: int, hs: Seq<int>, vs: Seq<int>, f: int)
    requires
        l.wf(),
        l.headers_ok(hs),
        l.is_header(c),
        !hs.contains(c),
        forall|y: int|
            l.is_data(y) && l.colmap[y] == c ==> (vs.contains(y) <==> l.vs_of(hs).contains(y)),
    ensures
        nxt(l.vmem(c), l.n, c, f, vs.to_set()) == nxt(elig_fn(l, c, hs), l.n, c, f, Set::empty()),
        prv(l.vmem(c), l.m + 1, c, f, vs.to_set()) == prv(
            elig_fn(l, c, hs),
            l.m + 1,
            c,
            f,
            Set::empty(),
        ),
{
    assert forall|j: int| #![trigger l.colmap[j]]
        l.is_data(j) && l.colmap[j] == c implies (vs.to_set().contains(j) <==> !l.free(
        l.rowmap[j],
        hs,
    )) by {
        lemma_open_column_node(l, hs, j);
    }
    lemma_nxt_same(l.vmem(c), vs.to_set(), elig_fn(l, c, hs), Set::empty(), l.n, c, f);
    lemma_prv_same(l.vmem(c), vs.to_set(), elig_fn(l, c, hs), Set::empty(), l.m + 1, c, f);
}


/// Index of the root node, which links the uncovered column headers.
pub const ROOT: usize = 0;

/// One node of the linked structure: a column header (or the root) or a data node.
#[derive(Clone, Copy)]
pub struct DlxNode {
    pub left: usize,
    pub right: usize,
    pub up: usize,
    pub down: usize,
    pub column: usize,
    pub row_id: usize,
}

/// What covering a column has taken out before reaching row node `x` holds no node of the
/// row of `x`, and holds nothing twice.
proof fn lemma_cover_row_start(l: Layout, c: int, hs: Seq<int>, x: int)
    requires
        l.wf(),
        l.headers_ok(hs),
        l.is_header(c),
        l.elig(c, hs, x),
    ensures
        ({
            let done = l.vs_of(hs) + l.rm_range(c, hs, l.m + 1, x);
            &&& done.no_duplicates()
            &&& forall|y: int| #![trigger done.contains(y)] done.contains(y) ==> !l.tail(x).contains(y)
        }),
{
    let base = l.vs_of(hs);
    let rm = l.rm_range(c, hs, l.m + 1, x);
    let done = base + rm;
    lemma_vs_of(l, hs);
    lemma_rm_range(l, c, hs, l.m + 1, x);
    lemma_tail(l, x);
    assert forall|i: int, j: int| 0 <= i < base.len() && 0 <= j < rm.len() implies base[i] != rm[j] by {
        assert(base.contains(base[i]));
        assert(rm.contains(rm[j]));
        if base[i] == rm[j] {
            let y = rm[j];
            let z = choose|z: int| l.m + 1 <= z < x && l.elig(c, hs, z) && #[trigger] l.rowmap[z] == l.rowmap[y] && y != z;
            let k = choose|k: int| 0 <= k < hs.len() && l.hits(l.rowmap[y], #[trigger] hs[k]) && l.free(l.rowmap[y], hs.take(k)) && hs[k] != l.colmap[y];
        }
    }
    vstd::seq_lib::lemma_no_dup_in_concat(base, rm);
    assert forall|y: int| #![trigger done.contains(y)] done.contains(y) implies !l.tail(x).contains(y) by {
        if l.tail(x).contains(y) {
            let i = choose|i: int| 0 <= i < done.len() && done[i] == y;
            if i < base.len() {
                assert(base.contains(y));
                let k = choose|k: int| 0 <= k < hs.len() && l.hits(l.rowmap[y], #[trigger] hs[k]) && l.free(l.rowmap[y], hs.take(k)) && hs[k] != l.colmap[y];
            } else {
                assert(rm[i - base.len()] == y);
                assert(rm.contains(y));
                let z = choose|z: int| l.m + 1 <= z < x && l.elig(c, hs, z) && #[trigger] l.rowmap[z] == l.rowmap[y] && y != z;
                lemma_unique_in_column(l, z, x);
            }
        }
    }
}

/// Once covering a column has handled the rows up to `t`, the nodes of the column itself
/// are taken out exactly as before.
proof fn lemma_cover_keeps_column(l: Layout, c: int, hs: Seq<int>, t: int)
    requires
        l.wf(),
        l.headers_ok(hs),
        l.is_header(c),
        !hs.contains(c),
        l.m + 1 <= t <= l.n,
    ensures
        forall|y: int|
            l.is_data(y) && l.colmap[y] == c ==> ((l.vs_of(hs) + l.rm_range(c, hs, l.m + 1, t)).contains(y)
                <==> l.vs_of(hs).contains(y)),
{
    let base = l.vs_of(hs);
    let rm = l.rm_range(c, hs, l.m + 1, t);
    lemma_rm_range(l, c, hs, l.m + 1, t);
    assert forall|y: int| l.is_data(y) && l.colmap[y] == c implies ((base + rm).contains(y) <==> base.contains(y)) by {
        if (base + rm).contains(y) && !base.contains(y) {
            let j = choose|j: int| 0 <= j < (base + rm).len() && (base + rm)[j] == y;
            if j < base.len() {
                assert(base.contains(y));
            } else {
                assert(rm[j - base.len()] == y);
                assert(rm.contains(y));
                let z = choose|z: int| l.m + 1 <= z < t && l.elig(c, hs, z) && #[trigger] l.rowmap[z] == l.rowmap[y] && y != z;
                lemma_unique_in_column(l, z, y);
            }
        }
        if base.contains(y) {
            let j = choose|j: int| 0 <= j < base.len() && base[j] == y;
            assert((base + rm)[j] == y);
        }
    }
}

/// Moving down from row node `x` to the next eligible node (or back to the header)
/// skips no eligible row.
proof fn lemma_cover_advance(l: Layout, c: int, hs: Seq<int>, x: int, nx: int)
    requires
        l.wf(),
        l.is_header(c),
        l.m + 1 <= x < l.n,
        nx == nxt(elig_fn(l, c, hs), l.n, c, x + 1, Set::empty()),
    ensures
        nx == c || (x < nx < l.n && l.elig(c, hs, nx)),
        nx == nxt(elig_fn(l, c, hs), l.n, c, if nx == c { l.n } else { nx }, Set::empty()),
        l.rm_range(c, hs, l.m + 1, x + 1) == l.rm_range(c, hs, l.m + 1, if nx == c { l.n } else { nx }),
{
    let el = elig_fn(l, c, hs);
    let t = if nx == c { l.n } else { nx };
    lemma_nxt(el, l.n, c, x + 1, Set::empty());
    assert forall|j: int| x + 1 <= j < t implies !l.elig(c, hs, j) by {
        assert(!live(el, Set::empty(), j));
    }
    lemma_rm_range_none(l, c, hs, x + 1, t);
    lemma_rm_range_split(l, c, hs, l.m + 1, x + 1, t);
    assert(l.rm_range(c, hs, l.m + 1, t) =~= l.rm_range(c, hs, l.m + 1, x + 1));
    if nx != c {
        lemma_nxt_is(el, l.n, c, nx, Set::empty(), nx);
    }
}

/// Moving up from row node `x` (or from the header, `x` being one past the last node) to
/// the previous eligible node skips no eligible row.
proof fn lemma_uncover_advance(l: Layout, c: int, hs: Seq<int>, x: int, px: int)
    requires
        l.wf(),
        l.is_header(c),
        l.m + 1 <= x <= l.n,
        px == prv(elig_fn(l, c, hs), l.m + 1, c, x - 1, Set::empty()),
    ensures
        px == c || (l.m + 1 <= px < x && l.elig(c, hs, px)),
        l.rm_range(c, hs, l.m + 1, x) == l.rm_range(c, hs, l.m + 1, if px == c { l.m + 1 } else { px + 1 }),
{
    let el = elig_fn(l, c, hs);
    let t = if px == c { l.m + 1 } else { px + 1 };
    lemma_prv(el, l.m + 1, c, x - 1, Set::empty());
    assert forall|j: int| t <= j < x implies !l.elig(c, hs, j) by {
        assert(!live(el, Set::empty(), j));
    }
    lemma_rm_range_none(l, c, hs, t, x);
    lemma_rm_range_split(l, c, hs, l.m + 1, t, x);
    assert(l.rm_range(c, hs, l.m + 1, x) =~= l.rm_range(c, hs, l.m + 1, t));
}

/// The matrix columns whose headers are not covered.
pub open spec fn active_cols(l: Layout, hs: Seq<int>) -> Set<usize> {
    Set::new(|j: usize| (j as int) < l.m && !hs.contains(j as int + 1))
}

/// The rows whose node in column `c` is eligible and lies before `t`.
pub open spec fn rows_before(l: Layout, c: int, hs: Seq<int>, t: int) -> Set<int> {
    Set::new(
        |r: int|
            exists|y: int| l.m + 1 <= y < t && l.elig(c, hs, y) && #[trigger] l.rowmap[y] == r,
    )
}

/// The headers of the columns of a sequence of data nodes.
pub open spec fn cols_of(l: Layout, s: Seq<int>) -> Seq<int> {
    s.map_values(|y: int| l.colmap[y])
}

/// A row is available among the uncovered columns exactly when it holds no covered column.
proof fn lemma_available_free(l: Layout, hs: Seq<int>, r: int)
    requires
        l.wf(),
        l.headers_ok(hs),
        0 <= r < l.nrows(),
    ensures
        available(l.rows, active_cols(l, hs), r) <==> l.free(r, hs),
{
    let a = active_cols(l, hs);
    assert(l.rows[r].len() > 0);
    if l.free(r, hs) {
        assert forall|j: usize| #[trigger] l.rows[r].contains(j) implies a.contains(j) by {
            let k = choose|k: int| 0 <= k < l.rows[r].len() && l.rows[r][k] == j;
            assert(j < l.m);
            if hs.contains(j as int + 1) {
                let i = choose|i: int| 0 <= i < hs.len() && hs[i] == j as int + 1;
                assert(!l.hits(r, hs[i]));
            }
        }
    }
    if available(l.rows, a, r) {
        assert forall|i: int| 0 <= i < hs.len() implies !l.hits(r, #[trigger] hs[i]) by {
            if l.hits(r, hs[i]) {
                let j = (hs[i] - 1) as usize;
                assert(a.contains(j));
                assert(hs.contains(j as int + 1));
            }
        }
    }
}

/// Facts about `rows_before` as the walk down column `c` goes on.
proof fn lemma_rows_before(l: Layout, c: int, hs: Seq<int>, t: int)
    requires
        l.wf(),
        l.is_header(c),
        l.m + 1 <= t < l.n,
    ensures
        rows_before(l, c, hs, t + 1) == if l.elig(c, hs, t) {
            rows_before(l, c, hs, t).insert(l.rowmap[t])
        } else {
            rows_before(l, c, hs, t)
        },
        l.elig(c, hs, t) ==> !rows_before(l, c, hs, t).contains(l.rowmap[t]),
{
    let lhs = rows_before(l, c, hs, t + 1);
    let rhs = if l.elig(c, hs, t) {
        rows_before(l, c, hs, t).insert(l.rowmap[t])
    } else {
        rows_before(l, c, hs, t)
    };
    assert forall|r: int| lhs.contains(r) implies rhs.contains(r) by {
        let y = choose|y: int| l.m + 1 <= y < t + 1 && l.elig(c, hs, y) && #[trigger] l.rowmap[y] == r;
        if y < t {
            assert(rows_before(l, c, hs, t).contains(r));
        }
    }
    assert forall|r: int| rhs.contains(r) implies lhs.contains(r) by {
        if rows_before(l, c, hs, t).contains(r) {
            let y = choose|y: int| l.m + 1 <= y < t && l.elig(c, hs, y) && #[trigger] l.rowmap[y] == r;
            assert(l.m + 1 <= y < t + 1);
        } else {
            assert(l.rowmap[t] == r);
        }
    }
    assert(lhs =~= rhs);
    if l.elig(c, hs, t) && rows_before(l, c, hs, t).contains(l.rowmap[t]) {
        let y = choose|y: int| l.m + 1 <= y < t && l.elig(c, hs, y) && #[trigger] l.rowmap[y] == l.rowmap[t];
        lemma_unique_in_column(l, y, t);
    }
}

/// `rows_before` does not change over a stretch with no eligible node.
proof fn lemma_rows_before_skip(l: Layout, c: int, hs: Seq<int>, t: int, u: int)
    requires
        t <= u,
        forall|y: int| t <= y < u ==> !l.elig(c, hs, y),
    ensures
        rows_before(l, c, hs, t) == rows_before(l, c, hs, u),
{
    assert forall|r: int| rows_before(l, c, hs, u).contains(r) implies rows_before(l, c, hs, t).contains(r) by {
        let y = choose|y: int| l.m + 1 <= y < u && l.elig(c, hs, y) && #[trigger] l.rowmap[y] == r;
    }
    assert forall|r: int| rows_before(l, c, hs, t).contains(r) implies rows_before(l, c, hs, u).contains(r) by {
        let y = choose|y: int| l.m + 1 <= y < t && l.elig(c, hs, y) && #[trigger] l.rowmap[y] == r;
    }
    assert(rows_before(l, c, hs, t) =~= rows_before(l, c, hs, u));
}

/// What `rows_before` holds: available rows that hold the column of `c`, and, once the
/// walk is over, all of them.
proof fn lemma_rows_before_contents(l: Layout, c: int, hs: Seq<int>, t: int)
    requires
        l.wf(),
        l.headers_ok(hs),
        l.is_header(c),
        !hs.contains(c),
    ensures
        forall|r: int| #[trigger] rows_before(l, c, hs, t).contains(r) ==> l.rows[r].contains(
            (c - 1) as usize,
        ) && available(l.rows, active_cols(l, hs), r),
        t >= l.n ==> forall|r: int|
            available(l.rows, active_cols(l, hs), r) && l.rows[r].contains((c - 1) as usize)
                ==> #[trigger] rows_before(l, c, hs, t).contains(r),
        rows_before(l, c, hs, l.m + 1) == Set::<int>::empty(),
{
    assert forall|r: int| #[trigger] rows_before(l, c, hs, t).contains(r) implies l.rows[r].contains(
        (c - 1) as usize,
    ) && available(l.rows, active_cols(l, hs), r) by {
        let y = choose|y: int| l.m + 1 <= y < t && l.elig(c, hs, y) && #[trigger] l.rowmap[y] == r;
        lemma_hits(l, r, c);
        lemma_available_free(l, hs, r);
    }
    if t >= l.n {
        assert forall|r: int|
            available(l.rows, active_cols(l, hs), r) && l.rows[r].contains((c - 1) as usize)
                implies #[trigger] rows_before(l, c, hs, t).contains(r) by {
            lemma_hits(l, r, c);
            lemma_available_free(l, hs, r);
            let y = choose|y: int| l.is_data(y) && #[trigger] l.rowmap[y] == r && l.colmap[y] == c;
            assert(l.elig(c, hs, y));
        }
    }
    assert(rows_before(l, c, hs, l.m + 1) =~= Set::<int>::empty());
}

/// Covering, after `c`, the columns of the other nodes of the row of `x` leaves
/// uncovered what that row leaves.
proof fn lemma_active_row(l: Layout, hs: Seq<int>, c: int, x: int)
    requires
        l.wf(),
        l.headers_ok(hs),
        l.is_header(c),
        !hs.contains(c),
        l.elig(c, hs, x),
    ensures
        active_cols(l, hs.push(c) + cols_of(l, l.tail(x))) == without_row(
            l.rows,
            active_cols(l, hs),
            l.rowmap[x],
        ),
{
    let r = l.rowmap[x];
    let t = l.tail(x);
    let big = hs.push(c) + cols_of(l, t);
    lemma_tail(l, x);
    assert forall|j: usize| active_cols(l, big).contains(j) <==> without_row(l.rows, active_cols(l, hs), r).contains(j) by {
        let h = j as int + 1;
        if (j as int) < l.m {
            lemma_hits(l, r, h);
            // the row holds j exactly when its node in that column is x or lies in the tail
            if l.hits(r, h) {
                let y = choose|y: int| l.is_data(y) && #[trigger] l.rowmap[y] == r && l.colmap[y] == h;
                if y != x {
                    assert(t.contains(y));
                    let k = choose|k: int| 0 <= k < t.len() && t[k] == y;
                    assert(cols_of(l, t)[k] == h);
                    assert(big[hs.len() + 1 + k] == h);
                    assert(big.contains(h));
                } else {
                    assert(big[hs.len() as int] == c);
                    assert(big.contains(h));
                }
            } else {
                if big.contains(h) {
                    let i = choose|i: int| 0 <= i < big.len() && big[i] == h;
                    if i < hs.len() {
                        assert(hs[i] == h);
                    } else if i == hs.len() {
                        assert(l.colmap[x] == h);
                        assert(l.is_data(x) && l.rowmap[x] == r && l.colmap[x] == h);
                    } else {
                        let y = t[i - hs.len() - 1];
                        assert(t.contains(y));
                        assert(l.is_data(y) && l.rowmap[y] == r && l.colmap[y] == h);
                    }
                }
                if hs.contains(h) {
                    let i = choose|i: int| 0 <= i < hs.len() && hs[i] == h;
                    assert(big[i] == h);
                }
            }
        }
    }
    assert(active_cols(l, big) =~= without_row(l.rows, active_cols(l, hs), r));
}

/// The covered headers never outnumber the columns.
proof fn lemma_hs_bound(l: Layout, hs: Seq<int>)
    requires
        l.headers_ok(hs),
        l.m >= 0,
    ensures
        hs.len() <= l.m,
{
    hs.unique_seq_to_set();
    vstd::set_lib::lemma_int_range(1, l.m + 1);
    assert(hs.to_set().subset_of(vstd::set_lib::set_int_range(1, l.m + 1))) by {
        assert forall|h: int| hs.to_set().contains(h) implies vstd::set_lib::set_int_range(1, l.m + 1).contains(h) by {
            let i = choose|i: int| 0 <= i < hs.len() && hs[i] == h;
            assert(l.is_header(hs[i]));
        }
    }
    vstd::set_lib::lemma_len_subset(hs.to_set(), vstd::set_lib::set_int_range(1, l.m + 1));
}

/// The headers covered for a row, after `c`, are not yet covered when their turn comes.
proof fn lemma_tail_col_fresh(l: Layout, hs: Seq<int>, c: int, x: int, i: int)
    requires
        l.wf(),
        l.headers_ok(hs),
        l.is_header(c),
        !hs.contains(c),
        l.elig(c, hs, x),
        0 <= i < l.tail(x).len(),
    ensures
        !(hs.push(c) + cols_of(l, l.tail(x).take(i))).contains(l.colmap[l.tail(x)[i]]),
        l.is_header(l.colmap[l.tail(x)[i]]),
        l.headers_ok(hs.push(c) + cols_of(l, l.tail(x).take(i))),
{
    let t = l.tail(x);
    let y = t[i];
    let big = hs.push(c) + cols_of(l, t.take(i));
    lemma_tail(l, x);
    assert(t.contains(y));
    let r = l.rowmap[x];
    lemma_hits(l, r, l.colmap[y]);
    assert(l.is_header(l.colmap[y])) by {
        let k = y - l.starts[r];
        assert(l.rows[r][k] < l.m);
    }
    assert(l.hits(r, l.colmap[y]));
    if big.contains(l.colmap[y]) {
        let j = choose|j: int| 0 <= j < big.len() && big[j] == l.colmap[y];
        if j < hs.len() {
            assert(hs[j] == l.colmap[y]);
        } else if j == hs.len() {
            lemma_unique_in_column(l, x, y);
        } else {
            let z = t[j - hs.len() - 1];
            assert(t.contains(z));
            lemma_unique_in_column(l, z, y);
        }
    }
    assert forall|a: int, b: int| 0 <= a < big.len() && 0 <= b < big.len() && a != b implies big[a] != big[b] by {
        if a < b {
            lemma_tail_col_pair(l, hs, c, x, i, a, b);
        } else {
            lemma_tail_col_pair(l, hs, c, x, i, b, a);
        }
    }
    assert forall|a: int| 0 <= a < big.len() implies l.is_header(#[trigger] big[a]) by {
        if a < hs.len() {
            assert(big[a] == hs[a]);
        } else if a > hs.len() {
            let z = t[a - hs.len() - 1];
            assert(t.contains(z));
            let rz = l.rowmap[z];
            let k = z - l.starts[rz];
            assert(l.rows[rz][k] < l.m);
        }
    }
}

/// Two different positions of the covered headers hold different headers.
proof fn lemma_tail_col_pair(l: Layout, hs: Seq<int>, c: int, x: int, i: int, a: int, b: int)
    requires
        l.wf(),
        l.headers_ok(hs),
        l.is_header(c),
        !hs.contains(c),
        l.elig(c, hs, x),
        0 <= i <= l.tail(x).len(),
        0 <= a < b < hs.len() + 1 + i,
    ensures
        (hs.push(c) + cols_of(l, l.tail(x).take(i)))[a] != (hs.push(c) + cols_of(l, l.tail(x).take(i)))[b],
{
    let t = l.tail(x);
    let big = hs.push(c) + cols_of(l, t.take(i));
    let r = l.rowmap[x];
    lemma_tail(l, x);
    if b < hs.len() {
        assert(big[a] == hs[a] && big[b] == hs[b]);
    } else if b == hs.len() {
        assert(big[a] == hs[a]);
        assert(hs.contains(hs[a]));
    } else {
        let z = t[b - hs.len() - 1];
        assert(t.contains(z));
        assert(big[b] == l.colmap[z]);
        lemma_hits(l, r, l.colmap[z]);
        assert(l.is_header(l.colmap[z])) by {
            let k = z - l.starts[r];
            assert(l.rows[r][k] < l.m);
        }
        if a < hs.len() {
            assert(big[a] == hs[a]);
            assert(l.hits(r, l.colmap[z]));
        } else if a == hs.len() {
            if l.colmap[z] == c {
                lemma_unique_in_column(l, x, z);
            }
        } else {
            let w = t[a - hs.len() - 1];
            assert(t.contains(w));
            assert(big[a] == l.colmap[w]);
            if l.colmap[w] == l.colmap[z] {
                lemma_unique_in_column(l, w, z);
            }
        }
    }
}

/// Moving down from row node `x` to the next eligible node adds exactly the row of `x`
/// to the rows handled.
proof fn lemma_search_advance(l: Layout, c: int, hs: Seq<int>, x: int, nx: int)
    requires
        l.wf(),
        l.is_header(c),
        l.m + 1 <= x < l.n,
        nx == nxt(elig_fn(l, c, hs), l.n, c, x + 1, Set::empty()),
    ensures
        nx == c || (x < nx < l.n && l.elig(c, hs, nx)),
        rows_before(l, c, hs, x + 1) == rows_before(l, c, hs, if nx == c { l.n } else { nx }),
{
    let el = elig_fn(l, c, hs);
    let t = if nx == c { l.n } else { nx };
    lemma_nxt(el, l.n, c, x + 1, Set::empty());
    assert forall|j: int| x + 1 <= j < t implies !l.elig(c, hs, j) by {
        assert(!live(el, Set::empty(), j));
    }
    lemma_rows_before_skip(l, c, hs, x + 1, t);
}

impl DlxNode {
    /// A header that links only to itself.
    pub fn new_header(index: usize) -> (node: DlxNode)
        ensures
            node.left == index,
            node.right == index,
            node.up == index,
            node.down == index,
            node.column == index,
            node.row_id == usize::MAX,
    {
        DlxNode { left: index, right: index, up: index, down: index, column: index, row_id: usize::MAX }
    }

    /// A data node of row `row_id` in the column of header `column`, not yet linked.
    pub fn new_data(column: usize, row_id: usize) -> (node: DlxNode)
        ensures
            node.left == 0,
            node.right == 0,
            node.up == 0,
            node.down == 0,
            node.column == column,
            node.row_id == row_id,
    {
        DlxNode { left: 0, right: 0, up: 0, down: 0, column, row_id }
    }
}

/// The linked structure together with the search state.
struct DlxSearch {
    nodes: Vec<DlxNode>,
    column_sizes: Vec<usize>,
    solution_rows: Vec<usize>,
    found_count: usize,
    cap: usize,
    /// The fixed shape of `nodes`.
    layout: Ghost<Layout>,
    /// The covered column headers, in the order they were covered.
    hstack: Ghost<Seq<int>>,
    /// The data nodes taken out of their columns, in the order they were taken out.
    vstack: Ghost<Seq<int>>,
}

impl DlxSearch {
    /// The fields that never change: each node's column and row (headers and the root
    /// carry none), each data node's row neighbours, and the root's vertical links to
    /// itself and its size of zero.
    spec fn static_ok(&self) -> bool {
        let l = self.layout@;
        &&& l.wf()
        &&& self.nodes@.len() == l.n
        &&& self.column_sizes@.len() == l.m + 1
        &&& forall|x: int|
            0 <= x < l.n ==> (#[trigger] self.nodes@[x]).column == l.colmap[x] && (l.is_data(x) ==> {
                &&& self.nodes@[x].row_id == l.rowmap[x]
                &&& self.nodes@[x].right == l.rnext(x)
                &&& self.nodes@[x].left == l.rprev(x)
            }) && (!l.is_data(x) ==> self.nodes@[x].row_id == usize::MAX)
        &&& self.nodes@[0].up == 0
        &&& self.nodes@[0].down == 0
        &&& self.column_sizes@[0] == 0
    }

    /// The header ring links, in index order, the headers not in `hstack`; a header in
    /// `hstack` still points to the neighbours it had when it was covered.
    spec fn horizontal_ok(&self) -> bool {
        let l = self.layout@;
        let hs = self.hstack@;
        let hset = hs.to_set();
        &&& l.headers_ok(hs)
        &&& self.nodes@[0].right == nxt(l.hmem(), l.m + 1, 0, 1, hset)
        &&& self.nodes@[0].left == prv(l.hmem(), 1, 0, l.m, hset)
        &&& forall|h: int|
            1 <= h <= l.m && !hset.contains(h) ==> {
                &&& (#[trigger] self.nodes@[h]).right == nxt(l.hmem(), l.m + 1, 0, h + 1, hset)
                &&& self.nodes@[h].left == prv(l.hmem(), 1, 0, h - 1, hset)
            }
        &&& forall|k: int|
            0 <= k < hs.len() ==> {
                &&& self.nodes@[#[trigger] hs[k]].right == nxt(
                    l.hmem(),
                    l.m + 1,
                    0,
                    hs[k] + 1,
                    hs.take(k).to_set(),
                )
                &&& self.nodes@[hs[k]].left == prv(l.hmem(), 1, 0, hs[k] - 1, hs.take(k).to_set())
            }
    }

    /// Each column list links, in index order, its data nodes not in `vstack`; a node in
    /// `vstack` still points to the neighbours it had when it was taken out. Each column
    /// size counts the nodes its list links.
    spec fn vertical_ok(&self) -> bool {
        let l = self.layout@;
        let vs = self.vstack@;
        let vset = vs.to_set();
        &&& vs.no_duplicates()
        &&& forall|k: int| 0 <= k < vs.len() ==> l.is_data(#[trigger] vs[k])
        &&& forall|h: int|
            1 <= h <= l.m ==> {
                &&& (#[trigger] self.nodes@[h]).down == nxt(l.vmem(h), l.n, h, l.m + 1, vset)
                &&& self.nodes@[h].up == prv(l.vmem(h), l.m + 1, h, l.n - 1, vset)
                &&& self.column_sizes@[h] == cnt(l.vmem(h), l.n, l.m + 1, vset)
            }
        &&& forall|x: int|
            l.is_data(x) && !vset.contains(x) ==> {
                &&& (#[trigger] self.nodes@[x]).down == nxt(
                    l.vmem(l.colmap[x]),
                    l.n,
                    l.colmap[x],
                    x + 1,
                    vset,
                )
                &&& self.nodes@[x].up == prv(
                    l.vmem(l.colmap[x]),
                    l.m + 1,
                    l.colmap[x],
                    x - 1,
                    vset,
                )
            }
        &&& forall|k: int|
            0 <= k < vs.len() ==> {
                &&& self.nodes@[#[trigger] vs[k]].down == nxt(
                    l.vmem(l.colmap[vs[k]]),
                    l.n,
                    l.colmap[vs[k]],
                    vs[k] + 1,
                    vs.take(k).to_set(),
                )
                &&& self.nodes@[vs[k]].up == prv(
                    l.vmem(l.colmap[vs[k]]),
                    l.m + 1,
                    l.colmap[vs[k]],
                    vs[k] - 1,
                    vs.take(k).to_set(),
                )
            }
    }

    /// The links are consistent with the two stacks, whatever the stacks hold.
    #[verifier::opaque]
    spec fn links_ok(&self) -> bool {
        self.static_ok() && self.horizontal_ok() && self.vertical_ok()
    }

    /// The links are consistent, and the data nodes taken out are exactly those that
    /// covering the columns of `hstack` in order takes out.
    spec fn inv(&self) -> bool {
        self.links_ok() && self.vstack@ == self.layout@.vs_of(self.hstack@)
    }

    /// The search state other than the links is untouched.
    spec fn same_search_state(&self, other: &Self) -> bool {
        &&& self.layout == other.layout
        &&& self.solution_rows == other.solution_rows
        &&& self.found_count == other.found_count
        &&& self.cap == other.cap
    }

    /// Column lists stay consistent when only header-ring links change.
    proof fn lemma_vertical_frame(a: &Self, b: &Self)
        requires
            a.vertical_ok(),
            a.static_ok(),
            b.layout == a.layout,
            b.vstack == a.vstack,
            b.column_sizes == a.column_sizes,
            b.nodes@.len() == a.nodes@.len(),
            forall|x: int|
                0 <= x < a.nodes@.len() ==> (#[trigger] b.nodes@[x]).up == a.nodes@[x].up
                    && b.nodes@[x].down == a.nodes@[x].down,
        ensures
            b.vertical_ok(),
    {
    }

    /// Fixed fields stay as they are when only header links change.
    proof fn lemma_static_frame(a: &Self, b: &Self)
        requires
            a.static_ok(),
            b.layout == a.layout,
            b.column_sizes@.len() == a.column_sizes@.len(),
            b.column_sizes@[0] == a.column_sizes@[0],
            b.nodes@.len() == a.nodes@.len(),
            b.nodes@[0].up == a.nodes@[0].up,
            b.nodes@[0].down == a.nodes@[0].down,
            forall|x: int|
                0 <= x < a.nodes@.len() ==> (#[trigger] b.nodes@[x]).column == a.nodes@[x].column
                    && b.nodes@[x].row_id == a.nodes@[x].row_id,
            forall|x: int|
                a.layout@.is_data(x) ==> (#[trigger] b.nodes@[x]).left == a.nodes@[x].left
                    && b.nodes@[x].right == a.nodes@[x].right,
        ensures
            b.static_ok(),
    {
        assert forall|x: int| 0 <= x < b.layout@.n implies (#[trigger] b.nodes@[x]).column == b.layout@.colmap[x] && (b.layout@.is_data(x) ==> {
            &&& b.nodes@[x].row_id == b.layout@.rowmap[x]
            &&& b.nodes@[x].right == b.layout@.rnext(x)
            &&& b.nodes@[x].left == b.layout@.rprev(x)
        }) && (!b.layout@.is_data(x) ==> b.nodes@[x].row_id == usize::MAX) by {
            assert(a.nodes@[x].column == a.layout@.colmap[x]);
        }
    }

    /// Takes data node `x` out of its column list.
    #[verifier::spinoff_prover]
    fn unlink_vertical(&mut self, x: usize)
        requires
            old(self).links_ok(),
            old(self).layout@.is_data(x as int),
            !old(self).vstack@.contains(x as int),
        ensures
            final(self).links_ok(),
            final(self).same_search_state(old(self)),
            final(self).hstack == old(self).hstack,
            final(self).vstack@ == old(self).vstack@.push(x as int),
    {
        reveal(DlxSearch::links_ok);
        let ghost l = self.layout@;
        let ghost vs = self.vstack@;
        let ghost r = vs.to_set();
        let ghost h = l.colmap[x as int];
        let ghost mem = l.vmem(h);
        let ghost xi = x as int;
        assert(self.nodes@[xi].column == h);
        let up = self.nodes[x].up;
        let down = self.nodes[x].down;
        let col = self.nodes[x].column;
        proof {
            assert(!r.contains(xi));
            assert(live(mem, r, xi));
            assert(l.is_header(h));
            lemma_prv(mem, l.m + 1, h, xi - 1, r);
            lemma_nxt(mem, l.n, h, xi + 1, r);
            self.lemma_header_vertical(h);
        }
        let mut upper = self.nodes[up];
        upper.down = down;
        self.nodes.set(up, upper);
        let mut lower = self.nodes[down];
        lower.up = up;
        self.nodes.set(down, lower);
        let size = self.column_sizes[col];
        proof {
            lemma_cnt_remove(mem, l.n, l.m + 1, r, xi);
            assert(col == h);
            assert(size == cnt(mem, l.n, l.m + 1, r));
            assert(size >= 1);
        }
        self.column_sizes.set(col, size - 1);
        proof {
            let vs2 = vs.push(xi);
            let r2 = vs2.to_set();
            vs.lemma_push_to_set_commute(xi);
            assert(r2 =~= r.insert(xi));
            self.vstack = Ghost(vs2);
            // header of other columns and nodes of other columns see the same live sets
            assert forall|g: int| 1 <= g <= l.m && g != h implies {
                &&& nxt(l.vmem(g), l.n, g, l.m + 1, r2) == nxt(l.vmem(g), l.n, g, l.m + 1, r)
                &&& prv(l.vmem(g), l.m + 1, g, l.n - 1, r2) == prv(l.vmem(g), l.m + 1, g, l.n - 1, r)
                &&& cnt(l.vmem(g), l.n, l.m + 1, r2) == cnt(l.vmem(g), l.n, l.m + 1, r)
            } by {
                lemma_nxt_same(l.vmem(g), r2, l.vmem(g), r, l.n, g, l.m + 1);
                lemma_prv_same(l.vmem(g), r2, l.vmem(g), r, l.m + 1, g, l.n - 1);
                lemma_cnt_same(l.vmem(g), r2, l.vmem(g), r, l.n, l.m + 1);
            }
            assert forall|y: int| l.is_data(y) && l.colmap[y] != h implies {
                &&& nxt(l.vmem(l.colmap[y]), l.n, l.colmap[y], y + 1, r2) == nxt(l.vmem(l.colmap[y]), l.n, l.colmap[y], y + 1, r)
                &&& prv(l.vmem(l.colmap[y]), l.m + 1, l.colmap[y], y - 1, r2) == prv(l.vmem(l.colmap[y]), l.m + 1, l.colmap[y], y - 1, r)
            } by {
                lemma_nxt_same(l.vmem(l.colmap[y]), r2, l.vmem(l.colmap[y]), r, l.n, l.colmap[y], y + 1);
                lemma_prv_same(l.vmem(l.colmap[y]), r2, l.vmem(l.colmap[y]), r, l.m + 1, l.colmap[y], y - 1);
            }
            // the header of column h
            lemma_nxt_remove(mem, l.n, h, l.m + 1, r, xi);
            lemma_prv_remove(mem, l.m + 1, h, l.n - 1, r, xi);
            lemma_adjacent_down(mem, l.m + 1, l.n, h, r, xi, h);
            lemma_adjacent_up(mem, l.m + 1, l.n, h, r, xi, h);
            // live nodes of column h
            assert forall|y: int| l.is_data(y) && l.colmap[y] == h && !r2.contains(y) implies {
                &&& self.nodes@[y].down == nxt(mem, l.n, h, y + 1, r2)
                &&& self.nodes@[y].up == prv(mem, l.m + 1, h, y - 1, r2)
            } by {
                assert(live(mem, r, y));
                lemma_nxt_remove(mem, l.n, h, y + 1, r, xi);
                lemma_prv_remove(mem, l.m + 1, h, y - 1, r, xi);
                lemma_adjacent_down(mem, l.m + 1, l.n, h, r, xi, y);
                lemma_adjacent_up(mem, l.m + 1, l.n, h, r, xi, y);
            }
            assert forall|k: int| 0 <= k < vs2.len() implies #[trigger] vs2.take(k).to_set() == if k < vs.len() { vs.take(k).to_set() } else { r } by {
                if k < vs.len() {
                    assert(vs2.take(k) =~= vs.take(k));
                } else {
                    assert(vs2.take(k) =~= vs);
                }
            }
            assert(self.nodes@[h].down == nxt(mem, l.n, h, l.m + 1, r2));
            assert(self.nodes@[h].up == prv(mem, l.m + 1, h, l.n - 1, r2));
            assert(self.column_sizes@[h] == cnt(mem, l.n, l.m + 1, r2));
            assert(self.horizontal_ok());
            assert(self.static_ok());
            let vset = vs2.to_set();
            assert(vs2.no_duplicates());
            assert(forall|k: int| 0 <= k < vs2.len() ==> l.is_data(#[trigger] vs2[k]));
            assert(forall|g: int|
            1 <= g <= l.m ==> {
                &&& (#[trigger] self.nodes@[g]).down == nxt(l.vmem(g), l.n, g, l.m + 1, vset)
                &&& self.nodes@[g].up == prv(l.vmem(g), l.m + 1, g, l.n - 1, vset)
                &&& self.column_sizes@[g] == cnt(l.vmem(g), l.n, l.m + 1, vset)
            });
            assert(forall|y: int|
            l.is_data(y) && !vset.contains(y) ==> {
                &&& (#[trigger] self.nodes@[y]).down == nxt(
                    l.vmem(l.colmap[y]),
                    l.n,
                    l.colmap[y],
                    y + 1,
                    vset,
                )
                &&& self.nodes@[y].up == prv(
                    l.vmem(l.colmap[y]),
                    l.m + 1,
                    l.colmap[y],
                    y - 1,
                    vset,
                )
            });
            assert(self.vertical_ok());
        }
    }

    /// Takes the header of column `c` out of the header ring.
    #[verifier::rlimit(60)]
    #[verifier::spinoff_prover]
    fn unlink_horizontal(&mut self, c: usize)
        requires
            old(self).links_ok(),
            old(self).layout@.is_header(c as int),
            !old(self).hstack@.contains(c as int),
        ensures
            final(self).links_ok(),
            final(self).same_search_state(old(self)),
            final(self).vstack == old(self).vstack,
            final(self).hstack@ == old(self).hstack@.push(c as int),
    {
        reveal(DlxSearch::links_ok);
        let ghost l = self.layout@;
        let ghost hs = self.hstack@;
        let ghost r = hs.to_set();
        let ghost ci = c as int;
        let ghost mem = l.hmem();
        let ghost before_self = *self;
        proof {
            assert(live(mem, r, ci));
            lemma_prv(mem, 1, 0, ci - 1, r);
            lemma_nxt(mem, l.m + 1, 0, ci + 1, r);
        }
        let left = self.nodes[c].left;
        let right = self.nodes[c].right;
        let mut before = self.nodes[left];
        before.right = right;
        self.nodes.set(left, before);
        let mut after = self.nodes[right];
        after.left = left;
        self.nodes.set(right, after);
        proof {
            let hs2 = hs.push(ci);
            let r2 = hs2.to_set();
            hs.lemma_push_to_set_commute(ci);
            assert(r2 =~= r.insert(ci));
            self.hstack = Ghost(hs2);
            lemma_nxt_remove(mem, l.m + 1, 0, 1, r, ci);
            lemma_prv_remove(mem, 1, 0, l.m, r, ci);
            lemma_adjacent_down(mem, 1, l.m + 1, 0, r, ci, 0);
            lemma_adjacent_up(mem, 1, l.m + 1, 0, r, ci, 0);
            assert forall|g: int| 1 <= g <= l.m && !r2.contains(g) implies {
                &&& self.nodes@[g].right == nxt(mem, l.m + 1, 0, g + 1, r2)
                &&& self.nodes@[g].left == prv(mem, 1, 0, g - 1, r2)
            } by {
                assert(live(mem, r, g));
                lemma_nxt_remove(mem, l.m + 1, 0, g + 1, r, ci);
                lemma_prv_remove(mem, 1, 0, g - 1, r, ci);
                lemma_adjacent_down(mem, 1, l.m + 1, 0, r, ci, g);
                lemma_adjacent_up(mem, 1, l.m + 1, 0, r, ci, g);
            }
            assert forall|k: int| 0 <= k < hs2.len() implies #[trigger] hs2.take(k).to_set() == if k < hs.len() { hs.take(k).to_set() } else { r } by {
                if k < hs.len() {
                    assert(hs2.take(k) =~= hs.take(k));
                } else {
                    assert(hs2.take(k) =~= hs);
                }
            }
            assert(self.nodes@[0].right == nxt(mem, l.m + 1, 0, 1, r2));
            assert(self.nodes@[0].left == prv(mem, 1, 0, l.m, r2));
            Self::lemma_static_frame(&before_self, self);
            Self::lemma_vertical_frame(&before_self, self);
            assert(self.horizontal_ok());
        }
    }

    /// Puts back into the header ring the header covered last.
    #[verifier::rlimit(60)]
    #[verifier::spinoff_prover]
    fn relink_horizontal(&mut self, c: usize)
        requires
            old(self).links_ok(),
            old(self).hstack@.len() > 0,
            old(self).hstack@.last() == c as int,
        ensures
            final(self).links_ok(),
            final(self).same_search_state(old(self)),
            final(self).vstack == old(self).vstack,
            final(self).hstack@ == old(self).hstack@.drop_last(),
    {
        reveal(DlxSearch::links_ok);
        let ghost l = self.layout@;
        let ghost hs_old = self.hstack@;
        let ghost hs = hs_old.drop_last();
        let ghost r = hs.to_set();
        let ghost ci = c as int;
        let ghost mem = l.hmem();
        let ghost before_self = *self;
        proof {
            assert(hs.push(ci) =~= hs_old);
            hs.lemma_push_to_set_commute(ci);
            assert(hs_old.to_set() =~= r.insert(ci));
            assert(hs_old.take(hs.len() as int) =~= hs);
            assert(hs_old[hs.len() as int] == ci);
            assert(!r.contains(ci)) by {
                if r.contains(ci) {
                    let i = choose|i: int| 0 <= i < hs.len() && hs[i] == ci;
                    assert(hs_old[i] == hs_old[hs.len() as int]);
                }
            }
            assert(l.is_header(ci));
            assert(live(mem, r, ci));
            lemma_prv(mem, 1, 0, ci - 1, r);
            lemma_nxt(mem, l.m + 1, 0, ci + 1, r);
        }
        let left = self.nodes[c].left;
        let right = self.nodes[c].right;
        let mut before = self.nodes[left];
        before.right = c;
        self.nodes.set(left, before);
        let mut after = self.nodes[right];
        after.left = c;
        self.nodes.set(right, after);
        proof {
            let r2 = hs_old.to_set();
            self.hstack = Ghost(hs);
            lemma_nxt_remove(mem, l.m + 1, 0, 1, r, ci);
            lemma_prv_remove(mem, 1, 0, l.m, r, ci);
            lemma_adjacent_down(mem, 1, l.m + 1, 0, r, ci, 0);
            lemma_adjacent_up(mem, 1, l.m + 1, 0, r, ci, 0);
            assert forall|g: int| 1 <= g <= l.m && !r.contains(g) && g != ci implies {
                &&& self.nodes@[g].right == nxt(mem, l.m + 1, 0, g + 1, r)
                &&& self.nodes@[g].left == prv(mem, 1, 0, g - 1, r)
            } by {
                assert(live(mem, r, g));
                assert(!r2.contains(g));
                lemma_nxt_remove(mem, l.m + 1, 0, g + 1, r, ci);
                lemma_prv_remove(mem, 1, 0, g - 1, r, ci);
                lemma_adjacent_down(mem, 1, l.m + 1, 0, r, ci, g);
                lemma_adjacent_up(mem, 1, l.m + 1, 0, r, ci, g);
            }
            assert forall|k: int| 0 <= k < hs.len() implies #[trigger] hs.take(k).to_set() == hs_old.take(k).to_set() by {
                assert(hs.take(k) =~= hs_old.take(k));
            }
            assert(self.nodes@[0].right == nxt(mem, l.m + 1, 0, 1, r));
            assert(self.nodes@[0].left == prv(mem, 1, 0, l.m, r));
            assert(self.nodes@[ci].right == nxt(mem, l.m + 1, 0, ci + 1, r));
            assert(self.nodes@[ci].left == prv(mem, 1, 0, ci - 1, r));
            Self::lemma_static_frame(&before_self, self);
            Self::lemma_vertical_frame(&before_self, self);
            assert(l.headers_ok(hs)) by {
                assert forall|i: int| 0 <= i < hs.len() implies l.is_header(#[trigger] hs[i]) by {
                    assert(hs[i] == hs_old[i]);
                }
            }
            assert(self.horizontal_ok());
        }
    }

    /// Covers column `c`: takes its header out of the ring, and takes every row that
    /// holds `c` out of the other columns it holds.
    #[verifier::rlimit(100)]
    #[verifier::spinoff_prover]
    fn cover(&mut self, c: usize)
        requires
            old(self).inv(),
            old(self).layout@.is_header(c as int),
            !old(self).hstack@.contains(c as int),
        ensures
            final(self).inv(),
            final(self).same_search_state(old(self)),
            final(self).hstack@ == old(self).hstack@.push(c as int),
    {
        reveal(DlxSearch::links_ok);
        let ghost l = self.layout@;
        let ghost hs = self.hstack@;
        let ghost ci = c as int;
        let ghost base = l.vs_of(hs);
        let ghost el = elig_fn(l, ci, hs);
        proof {
            lemma_vs_of(l, hs);
            assert forall|j: int| (#[trigger] el(j)) implies l.m + 1 <= j < l.n by {}
        }
        self.unlink_horizontal(c);
        proof {
            assert(self.nodes@[ci].down == nxt(l.vmem(ci), l.n, ci, l.m + 1, base.to_set()));
        }
        let mut row = self.nodes[c].down;
        proof {
            lemma_column_walk(l, ci, hs, base, l.m + 1);
            assert(row as int == nxt(el, l.n, ci, l.m + 1, Set::empty()));
            lemma_nxt(el, l.n, ci, l.m + 1, Set::empty());
            assert forall|j: int| l.m + 1 <= j < (if row as int == ci { l.n } else { row as int }) implies !l.elig(ci, hs, j) by {
                assert(!live(el, Set::empty(), j));
            }
            lemma_rm_range_none(l, ci, hs, l.m + 1, if row as int == ci { l.n } else { row as int });
            assert(l.rm_range(ci, hs, l.m + 1, l.m + 1) =~= Seq::<int>::empty());
            assert(self.vstack@ =~= base + l.rm_range(ci, hs, l.m + 1, if row as int == ci { l.n } else { row as int }));
        }
        while row != c
            invariant
                self.links_ok(),
                self.same_search_state(old(self)),
                self.layout@ == l,
                ci == c as int,
                l.wf(),
                l.is_header(ci),
                l.headers_ok(hs),
                !hs.contains(ci),
                base == l.vs_of(hs),
                el == elig_fn(l, ci, hs),
                forall|j: int| (#[trigger] el(j)) ==> l.m + 1 <= j < l.n,
                self.hstack@ == hs.push(ci),
                row as int == ci || l.elig(ci, hs, row as int),
                row == nxt(el, l.n, ci, if row as int == ci { l.n } else { row as int }, Set::empty()),
                self.vstack@ == base + l.rm_range(ci, hs, l.m + 1, if row as int == ci { l.n } else { row as int }),
            decreases (if row as int == ci { 0 } else { l.n - row as int }),
        {
            reveal(DlxSearch::links_ok);
            let ghost x = row as int;
            let ghost t = l.tail(x);
            let ghost done = base + l.rm_range(ci, hs, l.m + 1, x);
            proof {
                lemma_tail(l, x);
                lemma_tail_walk(l, x);
                lemma_cover_row_start(l, ci, hs, x);
                assert(self.nodes@[x].right == l.rnext(x));
            }
            let mut node = self.nodes[row].right;
            let ghost mut i: int = 0;
            while node != row
                invariant
                    self.links_ok(),
                    self.same_search_state(old(self)),
                    self.layout@ == l,
                    ci == c as int,
                    l.wf(),
                    l.is_data(x),
                    l.elig(ci, hs, x),
                    x == row as int,
                    t == l.tail(x),
                    t.no_duplicates(),
                    forall|y: int| #![trigger t.contains(y)] t.contains(y) <==> (l.is_data(y) && l.rowmap[y] == l.rowmap[x] && y != x),
                    forall|j: int| 0 <= j < t.len() ==> l.rnext(#[trigger] t[j]) == if j + 1 < t.len() { t[j + 1] } else { x },
                    0 <= i <= t.len(),
                    node as int == if i < t.len() { t[i] } else { x },
                    self.hstack@ == hs.push(ci),
                    done == base + l.rm_range(ci, hs, l.m + 1, x),
                    done.no_duplicates(),
                    forall|y: int| #![trigger done.contains(y)] done.contains(y) ==> !t.contains(y),
                    self.vstack@ == done + t.take(i),
                decreases t.len() - i,
            {
                reveal(DlxSearch::links_ok);
                proof {
                    let y = node as int;
                    assert(t.contains(y));
                    assert(!done.contains(y));
                    assert(!t.take(i).contains(y)) by {
                        if t.take(i).contains(y) {
                            let j = choose|j: int| 0 <= j < i && t.take(i)[j] == y;
                            assert(t[j] == t[i]);
                        }
                    }
                    assert(!self.vstack@.contains(y)) by {
                        if self.vstack@.contains(y) {
                            let j = choose|j: int| 0 <= j < self.vstack@.len() && self.vstack@[j] == y;
                            if j < done.len() {
                                assert(done.contains(y));
                            } else {
                                assert(t.take(i)[j - done.len()] == y);
                            }
                        }
                    }
                }
                self.unlink_vertical(node);
                proof {
                    assert(self.nodes@[node as int].right == l.rnext(node as int));
                    assert(t.take(i + 1) =~= t.take(i).push(t[i]));
                    assert(self.vstack@ =~= done + t.take(i + 1));
                }
                node = self.nodes[node].right;
                proof {
                    i = i + 1;
                }
            }
            proof {
                assert(t.take(i) =~= t);
                lemma_rm_range_step(l, ci, hs, l.m + 1, x);
                assert(self.vstack@ =~= base + l.rm_range(ci, hs, l.m + 1, x + 1));
                assert(self.nodes@[x].down == self.nodes@[x].down);
            }
            proof {
                // the list of column c is as it was: what was taken out lies in other columns
                lemma_cover_keeps_column(l, ci, hs, x + 1);
                lemma_column_walk(l, ci, hs, self.vstack@, x + 1);
                assert(!self.vstack@.to_set().contains(x)) by {
                    assert(!base.contains(x)) by {
                        lemma_open_column_node(l, hs, x);
                    }
                }
                assert(self.nodes@[x].down == nxt(l.vmem(ci), l.n, ci, x + 1, self.vstack@.to_set()));
            }
            row = self.nodes[row].down;
            proof {
                assert(row as int == nxt(el, l.n, ci, x + 1, Set::empty()));
                assert(l.m + 1 <= x < l.n);
                assert(l.is_header(ci));
                assert(l.wf());
                lemma_cover_advance(l, ci, hs, x, row as int);
                assert(row as int == ci || (x < row as int && l.elig(ci, hs, row as int)));
                let t2 = if row as int == ci { l.n } else { row as int };
                assert(l.rm_range(ci, hs, l.m + 1, x + 1) == l.rm_range(ci, hs, l.m + 1, t2));
                assert(self.vstack@ == base + l.rm_range(ci, hs, l.m + 1, x + 1));
                assert(self.vstack@ == base + l.rm_range(ci, hs, l.m + 1, t2));
            }
        }
        proof {
            let hs2 = hs.push(ci);
            assert(hs2.drop_last() =~= hs);
            assert(l.vs_of(hs2) == l.vs_of(hs) + l.rm_range(ci, hs, l.m + 1, l.n));
        }
    }

    /// Uncovers the column covered last, undoing `cover` step by step in reverse.
    #[verifier::rlimit(100)]
    #[verifier::spinoff_prover]
    fn uncover(&mut self, c: usize)
        requires
            old(self).inv(),
            old(self).hstack@.len() > 0,
            old(self).hstack@.last() == c as int,
        ensures
            final(self).inv(),
            final(self).same_search_state(old(self)),
            final(self).hstack@ == old(self).hstack@.drop_last(),
    {
        reveal(DlxSearch::links_ok);
        let ghost l = self.layout@;
        let ghost hs_old = self.hstack@;
        let ghost hs = hs_old.drop_last();
        let ghost ci = c as int;
        let ghost base = l.vs_of(hs);
        let ghost el = elig_fn(l, ci, hs);
        proof {
            assert(hs.push(ci) =~= hs_old);
            assert(l.headers_ok(hs)) by {
                assert forall|i: int| 0 <= i < hs.len() implies l.is_header(#[trigger] hs[i]) by {
                    assert(hs[i] == hs_old[i]);
                }
                assert forall|i: int, j: int| 0 <= i < hs.len() && 0 <= j < hs.len() && i != j implies hs[i] != hs[j] by {
                    assert(hs[i] == hs_old[i] && hs[j] == hs_old[j]);
                }
            }
            assert(!hs.contains(ci)) by {
                if hs.contains(ci) {
                    let i = choose|i: int| 0 <= i < hs.len() && hs[i] == ci;
                    assert(hs_old[i] == hs_old[hs.len() as int]);
                }
            }
            assert(l.is_header(ci)) by {
                assert(hs_old[hs.len() as int] == ci);
            }
            assert(self.vstack@ == base + l.rm_range(ci, hs, l.m + 1, l.n));
            lemma_vs_of(l, hs);
            assert forall|j: int| (#[trigger] el(j)) implies l.m + 1 <= j < l.n by {}
            lemma_cover_keeps_column(l, ci, hs, l.n);
            lemma_column_walk(l, ci, hs, self.vstack@, l.n - 1);
            assert(self.nodes@[ci].up == prv(l.vmem(ci), l.m + 1, ci, l.n - 1, self.vstack@.to_set()));
        }
        let mut row = self.nodes[c].up;
        proof {
            lemma_uncover_advance(l, ci, hs, l.n, row as int);
        }
        while row != c
            invariant
                self.links_ok(),
                self.same_search_state(old(self)),
                self.layout@ == l,
                ci == c as int,
                l.wf(),
                l.is_header(ci),
                l.headers_ok(hs),
                !hs.contains(ci),
                base == l.vs_of(hs),
                el == elig_fn(l, ci, hs),
                forall|j: int| (#[trigger] el(j)) ==> l.m + 1 <= j < l.n,
                self.hstack@ == hs.push(ci),
                row as int == ci || l.elig(ci, hs, row as int),
                self.vstack@ == base + l.rm_range(ci, hs, l.m + 1, if row as int == ci { l.m + 1 } else { row as int + 1 }),
            decreases (if row as int == ci { 0 } else { row as int }),
        {
            reveal(DlxSearch::links_ok);
            let ghost x = row as int;
            let ghost t = l.tail(x);
            let ghost done = base + l.rm_range(ci, hs, l.m + 1, x);
            proof {
                lemma_tail(l, x);
                lemma_tail_walk(l, x);
                lemma_rm_range_step(l, ci, hs, l.m + 1, x);
                assert(t.take(t.len() as int) =~= t);
                assert(self.vstack@ =~= done + t.take(t.len() as int));
                assert(self.nodes@[x].left == l.rprev(x));
            }
            let mut node = self.nodes[row].left;
            let ghost mut i: int = t.len() as int;
            while node != row
                invariant
                    self.links_ok(),
                    self.same_search_state(old(self)),
                    self.layout@ == l,
                    ci == c as int,
                    l.wf(),
                    l.is_data(x),
                    l.elig(ci, hs, x),
                    x == row as int,
                    t == l.tail(x),
                    forall|y: int| #![trigger t.contains(y)] t.contains(y) <==> (l.is_data(y) && l.rowmap[y] == l.rowmap[x] && y != x),
                    forall|j: int| 0 <= j < t.len() ==> l.rprev(#[trigger] t[j]) == if j > 0 { t[j - 1] } else { x },
                    0 <= i <= t.len(),
                    node as int == if i > 0 { t[i - 1] } else { x },
                    self.hstack@ == hs.push(ci),
                    done == base + l.rm_range(ci, hs, l.m + 1, x),
                    self.vstack@ == done + t.take(i),
                decreases i,
            {
                reveal(DlxSearch::links_ok);
                proof {
                    assert(self.vstack@.last() == t[i - 1]);
                    assert(t.contains(t[i - 1]));
                }
                self.relink_vertical(node);
                proof {
                    assert(self.nodes@[node as int].left == l.rprev(node as int));
                    assert(t.take(i) =~= t.take(i - 1).push(t[i - 1]));
                    assert(self.vstack@ =~= done + t.take(i - 1));
                }
                node = self.nodes[node].left;
                proof {
                    i = i - 1;
                }
            }
            proof {
                assert(t.take(0) =~= Seq::<int>::empty());
                assert(self.vstack@ =~= done);
                lemma_cover_keeps_column(l, ci, hs, x);
                lemma_column_walk(l, ci, hs, self.vstack@, x - 1);
                assert(!self.vstack@.to_set().contains(x)) by {
                    assert(!base.contains(x)) by {
                        lemma_open_column_node(l, hs, x);
                    }
                }
                assert(self.nodes@[x].up == prv(l.vmem(ci), l.m + 1, ci, x - 1, self.vstack@.to_set()));
            }
            row = self.nodes[row].up;
            proof {
                assert(row as int == prv(el, l.m + 1, ci, x - 1, Set::empty()));
                lemma_uncover_advance(l, ci, hs, x, row as int);
                let t2 = if row as int == ci { l.m + 1 } else { row as int + 1 };
                assert(l.rm_range(ci, hs, l.m + 1, x) == l.rm_range(ci, hs, l.m + 1, t2));
                assert(self.vstack@ == base + l.rm_range(ci, hs, l.m + 1, t2));
            }
        }
        proof {
            assert(l.rm_range(ci, hs, l.m + 1, l.m + 1) =~= Seq::<int>::empty());
            assert(self.vstack@ =~= base);
            assert(self.hstack@.last() == ci);
        }
        self.relink_horizontal(c);
        proof {
            assert(self.hstack@ =~= hs);
        }
    }

    /// The links are a matter of the nodes, the sizes, the shape and the stacks alone.
    proof fn lemma_links_frame(a: &Self, b: &Self)
        requires
            a.links_ok(),
            b.nodes == a.nodes,
            b.column_sizes == a.column_sizes,
            b.layout == a.layout,
            b.hstack == a.hstack,
            b.vstack == a.vstack,
        ensures
            b.links_ok(),
    {
        reveal(DlxSearch::links_ok);
    }

    /// The links and sizes are fixed by the shape and the columns covered: two consistent
    /// states of one shape that have covered the same columns in the same order agree on
    /// every node and every size. So uncovering the column covered last gives back exactly
    /// the nodes and sizes that covering it started from.
    proof fn lemma_links_determined(a: &Self, b: &Self)
        requires
            a.inv(),
            b.inv(),
            b.layout == a.layout,
            b.hstack == a.hstack,
        ensures
            b.nodes@ == a.nodes@,
            b.column_sizes@ == a.column_sizes@,
    {
        reveal(DlxSearch::links_ok);
        let l = a.layout@;
        assert forall|x: int| 0 <= x < l.n implies b.nodes@[x] == a.nodes@[x] by {
            Self::lemma_node_determined(a, b, x);
        }
        assert(b.nodes@ =~= a.nodes@);
        assert(b.vstack@ == a.vstack@);
        assert forall|h: int| 0 <= h <= l.m implies b.column_sizes@[h] == a.column_sizes@[h] by {
            if h >= 1 {
                assert(a.nodes@[h].down == b.nodes@[h].down);
            }
        }
        assert(b.column_sizes@ =~= a.column_sizes@);
    }

    /// One node of two consistent states of one shape with the same columns covered.
    #[verifier::spinoff_prover]
    #[verifier::rlimit(60)]
    proof fn lemma_node_determined(a: &Self, b: &Self, x: int)
        requires
            a.inv(),
            b.inv(),
            b.layout == a.layout,
            b.hstack == a.hstack,
            0 <= x < a.layout@.n,
        ensures
            b.nodes@[x] == a.nodes@[x],
    {
        reveal(DlxSearch::links_ok);
        let l = a.layout@;
        let hs = a.hstack@;
        let vs = a.vstack@;
        let na = a.nodes@[x];
        let nb = b.nodes@[x];
        if l.is_header(x) {
            if hs.to_set().contains(x) {
                let k = choose|k: int| 0 <= k < hs.len() && hs[k] == x;
                assert(a.nodes@[hs[k]].right == b.nodes@[hs[k]].right);
                assert(a.nodes@[hs[k]].left == b.nodes@[hs[k]].left);
            }
        } else if l.is_data(x) {
            if vs.to_set().contains(x) {
                let k = choose|k: int| 0 <= k < vs.len() && vs[k] == x;
                assert(a.nodes@[vs[k]].down == b.nodes@[vs[k]].down);
                assert(a.nodes@[vs[k]].up == b.nodes@[vs[k]].up);
            }
        }
        assert(nb.left == na.left && nb.right == na.right && nb.up == na.up && nb.down == na.down);
        assert(nb.column == na.column && nb.row_id == na.row_id);
    }

    /// Appending a data node at the bottom of its column and at the end of the last row
    /// (or as a row of its own) keeps the links consistent with the longer shape.
    #[verifier::rlimit(100)]
    #[verifier::spinoff_prover]
    proof fn lemma_push_node_links(a: &Self, b: &Self, h: int, new_row: bool)
        requires
            a.links_ok(),
            a.hstack@ == Seq::<int>::empty(),
            a.vstack@ == Seq::<int>::empty(),
            a.layout@.is_header(h),
            a.layout@.n + 1 <= usize::MAX,
            !new_row ==> a.layout@.nrows() >= 1 && !a.layout@.rows[a.layout@.nrows() - 1].contains(
                (h - 1) as usize,
            ),
            b.layout@ == a.layout@.push_node(h, new_row),
            b.hstack == a.hstack,
            b.vstack == a.vstack,
            b.nodes@.len() == a.nodes@.len() + 1,
            b.column_sizes@ == a.column_sizes@.update(h, (a.column_sizes@[h] + 1) as usize),
            ({
                let l = a.layout@;
                let n = l.n;
                let bottom = a.nodes@[h].up as int;
                let first = if new_row { n } else { l.starts[l.nrows() - 1] };
                let prev = n - 1;
                &&& b.nodes@[n].column == h
                &&& b.nodes@[n].row_id == b.layout@.rowmap[n]
                &&& b.nodes@[n].up == bottom
                &&& b.nodes@[n].down == h
                &&& b.nodes@[n].left == if new_row { n } else { prev }
                &&& b.nodes@[n].right == first
                &&& forall|x: int|
                    0 <= x < n ==> {
                        &&& (#[trigger] b.nodes@[x]).column == a.nodes@[x].column
                        &&& b.nodes@[x].row_id == a.nodes@[x].row_id
                        &&& b.nodes@[x].up == if x == h { n } else { a.nodes@[x].up as int }
                        &&& b.nodes@[x].down == if x == bottom { n } else { a.nodes@[x].down as int }
                        &&& b.nodes@[x].right == if !new_row && x == prev { n } else { a.nodes@[x].right as int }
                        &&& b.nodes@[x].left == if !new_row && x == first { n } else { a.nodes@[x].left as int }
                    }
            }),
        ensures
            b.links_ok(),
    {
        reveal(DlxSearch::links_ok);
        let l = a.layout@;
        let l2 = b.layout@;
        let n = l.n;
        let e = Set::<int>::empty();
        lemma_push_node(l, h, new_row);
        let bottom = a.nodes@[h].up as int;
        let hm = l.vmem(h);
        let hm2 = l2.vmem(h);
        assert(a.vstack@.to_set() =~= e);
        assert(b.vstack@.to_set() =~= e);
        assert(a.hstack@.to_set() =~= e);
        // the column of h: its old members and its new last node
        assert forall|j: int| l.m + 1 <= j < n implies (live(hm, e, j) <==> live(hm2, e, j)) by {}
        lemma_prv(hm, l.m + 1, h, n - 1, e);
        lemma_nxt(hm, n, h, l.m + 1, e);
        assert(bottom == prv(hm, l.m + 1, h, n - 1, e));
        assert(live(hm2, e, n));
        // static fields
        assert forall|x: int| 0 <= x < l2.n implies (#[trigger] b.nodes@[x]).column == l2.colmap[x] && (l2.is_data(x) ==> {
            &&& b.nodes@[x].row_id == l2.rowmap[x]
            &&& b.nodes@[x].right == l2.rnext(x)
            &&& b.nodes@[x].left == l2.rprev(x)
        }) by {
            if x < n {
                assert(a.nodes@[x].column == l.colmap[x]);
                if l.is_data(x) {
                    let r = l.rowmap[x];
                    assert(a.nodes@[x].right == l.rnext(x));
                    assert(a.nodes@[x].left == l.rprev(x));
                    assert(a.nodes@[x].row_id == l.rowmap[x]);
                    assert(l2.rowmap[x] == r);
                    assert(l2.starts[r] == l.starts[r]);
                    if new_row || r != l.nrows() - 1 {
                        assert(l2.starts[r + 1] == l.starts[r + 1]);
                        assert(l2.row_lo(x) == l.row_lo(x));
                        assert(l2.row_hi(x) == l.row_hi(x));
                        assert(x != l.starts[l.nrows() - 1] || new_row) by {
                            if !new_row && x == l.starts[l.nrows() - 1] {
                                crate::exact_cover::dlx_layout::lemma_slot(l, l.nrows() - 1, 0);
                            }
                        }
                        assert(x != n - 1 || new_row) by {
                            if !new_row && x == n - 1 {
                                let rl = l.nrows() - 1;
                                assert(l.starts[rl + 1] == l.starts[rl] + l.rows[rl].len());
                                crate::exact_cover::dlx_layout::lemma_slot(l, rl, l.rows[rl].len() - 1);
                            }
                        }
                    } else {
                        assert(l.starts[r + 1] == n);
                        assert(l2.starts[r + 1] == n + 1);
                        assert(l2.row_lo(x) == l.row_lo(x));
                        assert(l2.row_hi(x) == n + 1);
                    }
                }
            } else {
                if !new_row {
                    let r = l.nrows() - 1;
                    assert(l2.rowmap[n] == r);
                    assert(l2.starts[r] == l.starts[r]);
                    assert(l.starts[r + 1] == l.starts[r] + l.rows[r].len());
                    assert(l.rows[r].len() > 0);
                    assert(l.starts[r + 1] == n);
                    assert(l2.starts[r + 1] == n + 1);
                    assert(l2.row_lo(n) == l.starts[r]);
                    assert(l2.row_hi(n) == n + 1);
                    assert(n > l.starts[r]);
                } else {
                    let r = l.nrows();
                    assert(l2.rowmap[n] == r);
                    assert(l2.starts[r] == n);
                    assert(l2.starts[r + 1] == n + 1);
                }
            }
        }
        assert(b.static_ok());
        if !new_row {
            crate::exact_cover::dlx_layout::lemma_starts_mono(l, 0, l.nrows() - 1);
            crate::exact_cover::dlx_layout::lemma_starts_mono(l, l.nrows() - 1, l.nrows());
        }
        assert forall|g: int| 0 <= g <= l.m implies (#[trigger] b.nodes@[g]).right == a.nodes@[g].right && b.nodes@[g].left == a.nodes@[g].left by {}
        assert(b.horizontal_ok()) by {
            assert(l2.hmem() == l.hmem());
        }
        crate::exact_cover::links::lemma_cnt_bound(hm, n, l.m + 1, e);
        // the column lists
        assert forall|g: int| 1 <= g <= l.m implies {
            &&& (#[trigger] b.nodes@[g]).down == nxt(l2.vmem(g), l2.n, g, l2.m + 1, e)
            &&& b.nodes@[g].up == prv(l2.vmem(g), l2.m + 1, g, l2.n - 1, e)
            &&& b.column_sizes@[g] == cnt(l2.vmem(g), l2.n, l2.m + 1, e)
        } by {
            let gm = l.vmem(g);
            let gm2 = l2.vmem(g);
            assert forall|j: int| l.m + 1 <= j < n implies (live(gm, e, j) <==> live(gm2, e, j)) by {}
            lemma_nxt_same(gm, e, gm2, e, n, g, l.m + 1);
            lemma_nxt_extend(gm2, n, g, l.m + 1, e);
            lemma_prv_same(gm, e, gm2, e, l.m + 1, g, n - 1);
            lemma_cnt_same(gm, e, gm2, e, n, l.m + 1);
            lemma_cnt_extend(gm2, n, l.m + 1, e);
            assert(a.nodes@[g].down == nxt(gm, n, g, l.m + 1, a.vstack@.to_set()));
            assert(a.column_sizes@[g] == cnt(gm, n, l.m + 1, a.vstack@.to_set()));
            if g == h {
                lemma_prv(hm, l.m + 1, h, n - 1, e);
                if bottom == h {
                    lemma_nxt_none(hm, n, h, l.m + 1, e);
                } else {
                    lemma_nxt(hm, n, h, l.m + 1, e);
                }
            } else {
                assert(!live(gm2, e, n));
            }
        }
        assert forall|x: int| l2.is_data(x) && !b.vstack@.to_set().contains(x) implies {
            &&& (#[trigger] b.nodes@[x]).down == nxt(l2.vmem(l2.colmap[x]), l2.n, l2.colmap[x], x + 1, e)
            &&& b.nodes@[x].up == prv(l2.vmem(l2.colmap[x]), l2.m + 1, l2.colmap[x], x - 1, e)
        } by {
            let g = l2.colmap[x];
            let gm = l.vmem(g);
            let gm2 = l2.vmem(g);
            if x < n {
                assert(l.colmap[x] == g);
                assert(!a.vstack@.to_set().contains(x));
                assert(a.nodes@[x].down == nxt(gm, n, g, x + 1, e));
                assert forall|j: int| x + 1 <= j < n implies (live(gm, e, j) <==> live(gm2, e, j)) by {}
                assert forall|j: int| l.m + 1 <= j <= x - 1 implies (live(gm, e, j) <==> live(gm2, e, j)) by {}
                lemma_nxt_same(gm, e, gm2, e, n, g, x + 1);
                lemma_nxt_extend(gm2, n, g, x + 1, e);
                lemma_prv_same(gm, e, gm2, e, l.m + 1, g, x - 1);
                if g == h {
                    assert(forall|j: int| #[trigger] hm(j) ==> l.m + 1 <= j < n);
                    lemma_adjacent_up(hm, l.m + 1, n, h, e, x, h);
                } else {
                    assert(!live(gm2, e, n));
                }
            } else {
                assert(g == h);
                assert forall|j: int| l.m + 1 <= j <= n - 1 implies (live(hm, e, j) <==> live(hm2, e, j)) by {}
                lemma_prv_same(hm, e, hm2, e, l.m + 1, h, n - 1);
            }
        }
        Self::lemma_vertical_unstacked(b);
    }

    /// With nothing taken out, the column lists are consistent when each list links all
    /// the members of its column.
    proof fn lemma_vertical_unstacked(b: &Self)
        requires
            b.vstack@ == Seq::<int>::empty(),
            forall|g: int|
                1 <= g <= b.layout@.m ==> {
                    &&& (#[trigger] b.nodes@[g]).down == nxt(
                        b.layout@.vmem(g),
                        b.layout@.n,
                        g,
                        b.layout@.m + 1,
                        Set::<int>::empty(),
                    )
                    &&& b.nodes@[g].up == prv(
                        b.layout@.vmem(g),
                        b.layout@.m + 1,
                        g,
                        b.layout@.n - 1,
                        Set::<int>::empty(),
                    )
                    &&& b.column_sizes@[g] == cnt(
                        b.layout@.vmem(g),
                        b.layout@.n,
                        b.layout@.m + 1,
                        Set::<int>::empty(),
                    )
                },
            forall|x: int|
                b.layout@.is_data(x) ==> {
                    &&& (#[trigger] b.nodes@[x]).down == nxt(
                        b.layout@.vmem(b.layout@.colmap[x]),
                        b.layout@.n,
                        b.layout@.colmap[x],
                        x + 1,
                        Set::<int>::empty(),
                    )
                    &&& b.nodes@[x].up == prv(
                        b.layout@.vmem(b.layout@.colmap[x]),
                        b.layout@.m + 1,
                        b.layout@.colmap[x],
                        x - 1,
                        Set::<int>::empty(),
                    )
                },
        ensures
            b.vertical_ok(),
    {
        assert(b.vstack@.to_set() =~= Set::<int>::empty());
    }

    /// The fixed fields of node `x`.
    proof fn lemma_node_static(&self, x: int)
        requires
            self.links_ok(),
            0 <= x < self.layout@.n,
        ensures
            self.nodes@[x].column == self.layout@.colmap[x],
            self.layout@.is_data(x) ==> {
                &&& self.nodes@[x].row_id == self.layout@.rowmap[x]
                &&& self.nodes@[x].right == self.layout@.rnext(x)
                &&& self.nodes@[x].left == self.layout@.rprev(x)
            },
    {
        reveal(DlxSearch::links_ok);
    }

    /// Shape facts that hold whatever the stacks hold.
    proof fn lemma_links_shape(&self)
        requires
            self.links_ok(),
        ensures
            self.layout@.wf(),
            self.nodes@.len() == self.layout@.n,
            self.column_sizes@.len() == self.layout@.m + 1,
            self.layout@.headers_ok(self.hstack@),
            self.vstack@.no_duplicates(),
    {
        reveal(DlxSearch::links_ok);
    }

    /// The links of a data node still in its column list.
    proof fn lemma_node_vertical(&self, x: int)
        requires
            self.links_ok(),
            self.layout@.is_data(x),
            !self.vstack@.to_set().contains(x),
        ensures
            self.nodes@[x].down == nxt(
                self.layout@.vmem(self.layout@.colmap[x]),
                self.layout@.n,
                self.layout@.colmap[x],
                x + 1,
                self.vstack@.to_set(),
            ),
            self.nodes@[x].up == prv(
                self.layout@.vmem(self.layout@.colmap[x]),
                self.layout@.m + 1,
                self.layout@.colmap[x],
                x - 1,
                self.vstack@.to_set(),
            ),
    {
        reveal(DlxSearch::links_ok);
    }

    /// The links and size of the header of column `h`.
    proof fn lemma_header_vertical(&self, h: int)
        requires
            self.links_ok(),
            1 <= h <= self.layout@.m,
        ensures
            self.nodes@[h].down == nxt(self.layout@.vmem(h), self.layout@.n, h, self.layout@.m + 1, self.vstack@.to_set()),
            self.nodes@[h].up == prv(self.layout@.vmem(h), self.layout@.m + 1, h, self.layout@.n - 1, self.vstack@.to_set()),
            self.column_sizes@[h] == cnt(self.layout@.vmem(h), self.layout@.n, self.layout@.m + 1, self.vstack@.to_set()),
    {
        reveal(DlxSearch::links_ok);
    }

    /// The ring links of the root and of the headers still in the ring.
    proof fn lemma_ring(&self)
        requires
            self.links_ok(),
        ensures
            self.nodes@[0].right == nxt(self.layout@.hmem(), self.layout@.m + 1, 0, 1, self.hstack@.to_set()),
            forall|h: int|
                1 <= h <= self.layout@.m && !self.hstack@.to_set().contains(h) ==> (#[trigger] self.nodes@[h]).right == nxt(
                    self.layout@.hmem(),
                    self.layout@.m + 1,
                    0,
                    h + 1,
                    self.hstack@.to_set(),
                ),
    {
        reveal(DlxSearch::links_ok);
    }

    /// The uncovered column with the fewest linked rows, the first such in ring order.
    fn choose_column_with_min_size(&self) -> (best: usize)
        requires
            self.inv(),
            self.nodes@[0].right != 0,
        ensures
            self.layout@.is_header(best as int),
            !self.hstack@.contains(best as int),
            forall|h: int|
                1 <= h <= self.layout@.m && !self.hstack@.contains(h) ==> self.column_sizes@[best as int]
                    <= #[trigger] self.column_sizes@[h],
            forall|h: int|
                1 <= h < best && !self.hstack@.contains(h) ==> #[trigger] self.column_sizes@[h]
                    > self.column_sizes@[best as int],
    {
        let ghost l = self.layout@;
        let ghost hset = self.hstack@.to_set();
        let ghost mem = l.hmem();
        proof {
            self.lemma_ring();
            self.lemma_links_shape();
        }
        let mut best = self.nodes[ROOT].right;
        proof {
            lemma_nxt(mem, l.m + 1, 0, 1, hset);
        }
        let mut best_size = self.column_sizes[best];
        proof {
            assert(self.nodes@[best as int].right == nxt(mem, l.m + 1, 0, best as int + 1, hset));
        }
        let mut cursor = self.nodes[best].right;
        proof {
            lemma_nxt(mem, l.m + 1, 0, best as int + 1, hset);
            assert forall|h: int| 1 <= h < (if cursor == 0 { l.m + 1 } else { cursor as int }) && !hset.contains(h) implies h == best by {
                if h < best {
                    assert(!live(mem, hset, h));
                } else if h > best {
                    assert(!live(mem, hset, h));
                }
            }
        }
        while cursor != ROOT
            invariant_except_break
                cursor == 0 || (best < cursor <= l.m && !hset.contains(cursor as int)),
                forall|h: int|
                    1 <= h < (if cursor == 0 { l.m + 1 } else { cursor as int }) && !hset.contains(h)
                        ==> self.column_sizes@[best as int] <= #[trigger] self.column_sizes@[h] && (h
                        < best ==> self.column_sizes@[h] > self.column_sizes@[best as int]),
            invariant
                self.inv(),
                l == self.layout@,
                l.wf(),
                self.nodes@.len() == l.n,
                self.column_sizes@.len() == l.m + 1,
                hset == self.hstack@.to_set(),
                mem == l.hmem(),
                1 <= best <= l.m,
                !hset.contains(best as int),
                best_size == self.column_sizes@[best as int],
            ensures
                1 <= best <= l.m,
                !hset.contains(best as int),
                forall|h: int|
                    1 <= h <= l.m && !hset.contains(h) ==> self.column_sizes@[best as int]
                        <= #[trigger] self.column_sizes@[h],
                forall|h: int|
                    1 <= h < best && !hset.contains(h) ==> #[trigger] self.column_sizes@[h]
                        > self.column_sizes@[best as int],
            decreases (if cursor == 0 { 0 } else { l.m + 1 - cursor }),
        {
            let size = self.column_sizes[cursor];
            if size < best_size {
                best = cursor;
                best_size = size;
                if best_size == 0 {
                    break;
                }
            }
            proof {
                self.lemma_ring();
                assert(self.nodes@[cursor as int].right == nxt(mem, l.m + 1, 0, cursor as int + 1, hset));
                lemma_nxt(mem, l.m + 1, 0, cursor as int + 1, hset);
            }
            let ghost old_cursor = cursor as int;
            cursor = self.nodes[cursor].right;
            proof {
                assert forall|h: int| old_cursor < h < (if cursor == 0 { l.m + 1 } else { cursor as int }) implies hset.contains(h) by {
                    assert(!live(mem, hset, h));
                }
            }
        }
        proof {
            assert forall|h: int| 1 <= h <= l.m && !self.hstack@.contains(h) implies !hset.contains(h) by {}
        }
        best
    }

    /// Counts the exact covers of the uncovered columns, adding them to `found_count`,
    /// and stops once `found_count` reaches `cap`; every column it covers it uncovers
    /// again, so that the nodes and sizes end as they were.
    #[verifier::rlimit(100)]
    #[verifier::spinoff_prover]
    fn search(&mut self)
        requires
            old(self).inv(),
        ensures
            final(self).inv(),
            final(self).layout == old(self).layout,
            final(self).hstack == old(self).hstack,
            final(self).nodes@ == old(self).nodes@,
            final(self).column_sizes@ == old(self).column_sizes@,
            final(self).solution_rows@ == old(self).solution_rows@,
            final(self).cap == old(self).cap,
            final(self).found_count == if old(self).found_count >= old(self).cap {
                old(self).found_count as int
            } else {
                vstd::math::min(
                    old(self).cap as int,
                    old(self).found_count + covers(
                        old(self).layout@.rows,
                        active_cols(old(self).layout@, old(self).hstack@),
                    ).len(),
                )
            },
        decreases old(self).layout@.m - old(self).hstack@.len(),
    {
        let ghost entry = *self;
        let ghost l = self.layout@;
        let ghost hs = self.hstack@;
        let ghost a = active_cols(l, hs);
        let ghost f0 = self.found_count as int;
        let ghost sol = self.solution_rows@;
        proof {
            self.lemma_links_shape();
            self.lemma_ring();
            lemma_hs_bound(l, hs);
            crate::exact_cover::covers::lemma_covers_finite(l.rows, a);
        }
        if self.found_count >= self.cap {
            return;
        }
        if self.nodes[ROOT].right == ROOT {
            proof {
                let mem = l.hmem();
                lemma_nxt(mem, l.m + 1, 0, 1, hs.to_set());
                assert(a =~= Set::<usize>::empty()) by {
                    assert forall|j: usize| !a.contains(j) by {
                        if (j as int) < l.m {
                            assert(!live(mem, hs.to_set(), j as int + 1));
                        }
                    }
                }
                crate::exact_cover::covers::lemma_covers_of_nothing(l.rows);
            }
            let ghost before = *self;
            self.found_count = self.found_count + 1;
            proof {
                Self::lemma_links_frame(&before, self);
            }
            return;
        }
        let column = self.choose_column_with_min_size();
        let ghost ci = column as int;
        let ghost j0 = (ci - 1) as usize;
        proof {
            assert(a.contains(j0));
            lemma_vs_of(l, hs);
        }
        if self.column_sizes[column] == 0 {
            proof {
                self.lemma_header_vertical(ci);
                crate::exact_cover::links::lemma_cnt_zero(l.vmem(ci), l.n, l.m + 1, self.vstack@.to_set());
                assert forall|r: int| available(l.rows, a, r) implies !(#[trigger] l.rows[r]).contains(j0) by {
                    if l.rows[r].contains(j0) {
                        lemma_hits(l, r, ci);
                        let y = choose|y: int| l.is_data(y) && #[trigger] l.rowmap[y] == r && l.colmap[y] == ci;
                        lemma_available_free(l, hs, r);
                        lemma_open_column_node(l, hs, y);
                        assert(!live(l.vmem(ci), self.vstack@.to_set(), y));
                    }
                }
                crate::exact_cover::covers::lemma_covers_none(l.rows, a, j0);
            }
            return;
        }
        self.cover(column);
        let ghost hc = hs.push(ci);
        let ghost el = elig_fn(l, ci, hs);
        proof {
            self.lemma_links_shape();
            lemma_hs_bound(l, hc);
            assert(hc.drop_last() =~= hs);
            assert(self.vstack@ == l.vs_of(hs) + l.rm_range(ci, hs, l.m + 1, l.n));
            lemma_cover_keeps_column(l, ci, hs, l.n);
            lemma_column_walk(l, ci, hs, self.vstack@, l.m + 1);
            self.lemma_header_vertical(ci);
        }
        let mut row = self.nodes[column].down;
        proof {
            self.lemma_links_shape();
            lemma_nxt(el, l.n, ci, l.m + 1, Set::empty());
            let t0 = if row as int == ci { l.n } else { row as int };
            assert forall|j: int| l.m + 1 <= j < t0 implies !l.elig(ci, hs, j) by {
                assert(!live(el, Set::empty(), j));
            }
            lemma_rows_before_skip(l, ci, hs, l.m + 1, t0);
            lemma_rows_before_contents(l, ci, hs, l.m + 1);
            crate::exact_cover::covers::lemma_covers_hitting_empty(l.rows, a);
            if row == column {
                lemma_rows_before_contents(l, ci, hs, l.n);
                crate::exact_cover::covers::lemma_covers_hitting_all(l.rows, a, j0, rows_before(l, ci, hs, l.n));
            }
        }
        while row != column
            invariant_except_break
                self.found_count < self.cap,
                row as int == ci ==> self.found_count == vstd::math::min(self.cap as int, f0 + covers(l.rows, a).len()),
                self.found_count == f0 + covers_hitting(l.rows, a, rows_before(l, ci, hs, if row as int == ci { l.n } else { row as int })).len(),
            invariant
                self.inv(),
                self.layout@ == l,
                old(self).layout@ == l,
                old(self).hstack@ == hs,
                self.nodes@.len() == l.n,
                self.column_sizes@.len() == l.m + 1,
                self.solution_rows@ == sol,
                self.cap == old(self).cap,
                ci == column as int,
                j0 == (ci - 1) as usize,
                l.wf(),
                l.is_header(ci),
                l.headers_ok(hs),
                !hs.contains(ci),
                a == active_cols(l, hs),
                a.contains(j0),
                covers(l.rows, a).finite(),
                el == elig_fn(l, ci, hs),
                hc == hs.push(ci),
                self.hstack@ == hc,
                f0 < self.cap,
                l.m - hs.len() >= 1,
                row as int == ci || l.elig(ci, hs, row as int),
            ensures
                self.inv(),
                self.layout@ == l,
                self.solution_rows@ == sol,
                self.cap == old(self).cap,
                self.hstack@ == hc,
                self.found_count == vstd::math::min(self.cap as int, f0 + covers(l.rows, a).len()),
            decreases (if row as int == ci { 0 } else { l.n - row as int }),
        {
            let ghost x = row as int;
            let ghost t = l.tail(x);
            let ghost rx = l.rowmap[x];
            let ghost p = rows_before(l, ci, hs, x);
            let ghost found_before = self.found_count as int;
            proof {
                lemma_tail(l, x);
                lemma_tail_walk(l, x);
                self.lemma_node_static(x);
            }
            let ghost before_push = *self;
            let ghost rid = self.nodes@[x].row_id;
            self.solution_rows.push(self.nodes[row].row_id);
            proof {
                Self::lemma_links_frame(&before_push, self);
            }
            let mut right = self.nodes[row].right;
            let ghost mut i: int = 0;
            while right != row
                invariant
                    self.inv(),
                    self.layout@ == l,
                    self.nodes@.len() == l.n,
                    forall|j: int| 0 <= j < t.len() ==> l.is_data(#[trigger] t[j]),
                    self.solution_rows@ == sol.push(rid),
                    self.cap == old(self).cap,
                    self.found_count == found_before,
                    ci == column as int,
                    l.wf(),
                    l.is_header(ci),
                    l.headers_ok(hs),
                    !hs.contains(ci),
                    l.elig(ci, hs, x),
                    x == row as int,
                    t == l.tail(x),
                    forall|j: int| 0 <= j < t.len() ==> l.rnext(#[trigger] t[j]) == if j + 1 < t.len() { t[j + 1] } else { x },
                    0 <= i <= t.len(),
                    right as int == if i < t.len() { t[i] } else { x },
                    self.hstack@ == hs.push(ci) + cols_of(l, t.take(i)),
                decreases t.len() - i,
            {
                proof {
                    lemma_tail_col_fresh(l, hs, ci, x, i);
                    self.lemma_node_static(right as int);
                }
                let col = self.nodes[right].column;
                self.cover(col);
                proof {
                    self.lemma_links_shape();
                    assert(cols_of(l, t.take(i + 1)) =~= cols_of(l, t.take(i)).push(l.colmap[t[i]]));
                    assert(self.hstack@ =~= hs.push(ci) + cols_of(l, t.take(i + 1)));
                    self.lemma_node_static(right as int);
                }
                right = self.nodes[right].right;
                proof {
                    i = i + 1;
                }
            }
            proof {
                assert(t.take(i) =~= t);
                lemma_active_row(l, hs, ci, x);
                lemma_available_free(l, hs, rx);
                crate::exact_cover::covers::lemma_covers_with(l.rows, a, rx);
                self.lemma_links_shape();
                lemma_hs_bound(l, self.hstack@);
            }
            proof {
                assert(self.hstack@.len() == hs.len() + 1 + t.len());
                assert(l.m - self.hstack@.len() < l.m - hs.len());
                assert(l.m - self.hstack@.len() >= 0);
            }
            self.search();
            let ghost found_after = self.found_count as int;
            proof {
                self.lemma_links_shape();
                self.lemma_node_static(x);
                assert(self.hstack@ =~= hs.push(ci) + cols_of(l, t));
                assert(found_after == vstd::math::min(self.cap as int, found_before + covers(l.rows, without_row(l.rows, a, rx)).len()));
            }
            let mut left = self.nodes[row].left;
            let ghost mut k: int = t.len() as int;
            while left != row
                invariant
                    self.inv(),
                    self.layout@ == l,
                    self.nodes@.len() == l.n,
                    forall|j: int| 0 <= j < t.len() ==> l.is_data(#[trigger] t[j]),
                    self.solution_rows@ == sol.push(rid),
                    self.cap == old(self).cap,
                    self.found_count == found_after,
                    ci == column as int,
                    l.wf(),
                    l.elig(ci, hs, x),
                    x == row as int,
                    t == l.tail(x),
                    forall|j: int| 0 <= j < t.len() ==> l.rprev(#[trigger] t[j]) == if j > 0 { t[j - 1] } else { x },
                    0 <= k <= t.len(),
                    left as int == if k > 0 { t[k - 1] } else { x },
                    self.hstack@ == hs.push(ci) + cols_of(l, t.take(k)),
                decreases k,
            {
                proof {
                    assert(self.hstack@.last() == l.colmap[t[k - 1]]);
                    self.lemma_node_static(left as int);
                }
                let col = self.nodes[left].column;
                self.uncover(col);
                proof {
                    self.lemma_links_shape();
                    assert(hs.push(ci) + cols_of(l, t.take(k - 1)) =~= (hs.push(ci) + cols_of(l, t.take(k))).drop_last());
                    self.lemma_node_static(left as int);
                }
                left = self.nodes[left].left;
                proof {
                    k = k - 1;
                }
            }
            proof {
                assert(t.take(0) =~= Seq::<int>::empty());
                assert(cols_of(l, t.take(0)) =~= Seq::<int>::empty());
                assert(self.hstack@ =~= hc);
            }
            let ghost before_pop = *self;
            self.solution_rows.pop();
            proof {
                Self::lemma_links_frame(&before_pop, self);
                self.lemma_links_shape();
            }
            proof {
                assert(sol.push(rid).drop_last() =~= sol);
                // the covers hitting the rows handled so far, now including this row
                lemma_rows_before(l, ci, hs, x);
                lemma_rows_before_contents(l, ci, hs, x);
                lemma_hits(l, rx, ci);
                assert(l.rows[rx].contains(j0));
                crate::exact_cover::covers::lemma_covers_hitting_insert(l.rows, a, j0, p, rx);
                let hp = covers_hitting(l.rows, a, p);
                let wr = covers_with(l.rows, a, rx);
                vstd::set_lib::lemma_len_subset(hp, covers(l.rows, a));
                vstd::set_lib::lemma_set_disjoint_lens(hp, wr);
                let hp2 = covers_hitting(l.rows, a, p.insert(rx));
                vstd::set_lib::lemma_len_subset(hp2, covers(l.rows, a));
                assert(self.found_count == vstd::math::min(self.cap as int, f0 + hp2.len()));
            }
            if self.found_count >= self.cap {
                proof {
                    let hp2 = covers_hitting(l.rows, a, rows_before(l, ci, hs, x).insert(rx));
                    vstd::set_lib::lemma_len_subset(hp2, covers(l.rows, a));
                }
                break;
            }
            proof {
                lemma_vs_of(l, hs);
                assert(hc.drop_last() =~= hs);
                assert(self.vstack@ == l.vs_of(hs) + l.rm_range(ci, hs, l.m + 1, l.n));
                lemma_cover_keeps_column(l, ci, hs, l.n);
                lemma_column_walk(l, ci, hs, self.vstack@, x + 1);
                assert(!self.vstack@.to_set().contains(x)) by {
                    assert(!l.vs_of(hs).contains(x)) by {
                        lemma_open_column_node(l, hs, x);
                    }
                    assert(!l.rm_range(ci, hs, l.m + 1, l.n).contains(x)) by {
                        lemma_rm_range(l, ci, hs, l.m + 1, l.n);
                        if l.rm_range(ci, hs, l.m + 1, l.n).contains(x) {
                            let z = choose|z: int| l.m + 1 <= z < l.n && l.elig(ci, hs, z) && #[trigger] l.rowmap[z] == l.rowmap[x] && x != z;
                            lemma_unique_in_column(l, z, x);
                        }
                    }
                    assert(hc.drop_last() =~= hs);
                    if self.vstack@.to_set().contains(x) {
                        let j = choose|j: int| 0 <= j < self.vstack@.len() && self.vstack@[j] == x;
                        if j < l.vs_of(hs).len() {
                            assert(l.vs_of(hs).contains(x));
                        } else {
                            assert(l.rm_range(ci, hs, l.m + 1, l.n)[j - l.vs_of(hs).len()] == x);
                        }
                    }
                }
                self.lemma_node_vertical(x);
            }
            row = self.nodes[row].down;
            proof {
                lemma_search_advance(l, ci, hs, x, row as int);
                if row == column {
                    lemma_rows_before_contents(l, ci, hs, l.n);
                    crate::exact_cover::covers::lemma_covers_hitting_all(l.rows, a, j0, rows_before(l, ci, hs, l.n));
                }
            }
        }
        self.uncover(column);
        proof {
            assert(hc.drop_last() =~= hs);
            Self::lemma_links_determined(&entry, self);
        }
    }

    /// Puts back into its column list the data node taken out last.
    #[verifier::spinoff_prover]
    fn relink_vertical(&mut self, x: usize)
        requires
            old(self).links_ok(),
            old(self).vstack@.len() > 0,
            old(self).vstack@.last() == x as int,
        ensures
            final(self).links_ok(),
            final(self).same_search_state(old(self)),
            final(self).hstack == old(self).hstack,
            final(self).vstack@ == old(self).vstack@.drop_last(),
    {
        reveal(DlxSearch::links_ok);
        let ghost l = self.layout@;
        let ghost vs_old = self.vstack@;
        let ghost vs = vs_old.drop_last();
        let ghost r = vs.to_set();
        let ghost xi = x as int;
        let ghost h = l.colmap[xi];
        let ghost mem = l.vmem(h);
        proof {
            assert(vs.push(xi) =~= vs_old);
            vs.lemma_push_to_set_commute(xi);
            assert(vs_old.to_set() =~= r.insert(xi));
            assert(vs_old.take(vs.len() as int) =~= vs);
            assert(vs_old[vs.len() as int] == xi);
            assert(l.is_data(xi));
            assert(!r.contains(xi)) by {
                if r.contains(xi) {
                    let i = choose|i: int| 0 <= i < vs.len() && vs[i] == xi;
                    assert(vs_old[i] == vs_old[vs.len() as int]);
                }
            }
            assert(live(mem, r, xi));
            assert(l.is_header(h));
            lemma_prv(mem, l.m + 1, h, xi - 1, r);
            lemma_nxt(mem, l.n, h, xi + 1, r);
            assert(self.nodes@[h].down == nxt(mem, l.n, h, l.m + 1, vs_old.to_set()));
            assert(self.column_sizes@[h] == cnt(mem, l.n, l.m + 1, vs_old.to_set()));
        }
        let up = self.nodes[x].up;
        let down = self.nodes[x].down;
        let col = self.nodes[x].column;
        let mut upper = self.nodes[up];
        upper.down = x;
        self.nodes.set(up, upper);
        let mut lower = self.nodes[down];
        lower.up = x;
        self.nodes.set(down, lower);
        let size = self.column_sizes[col];
        proof {
            lemma_cnt_remove(mem, l.n, l.m + 1, r, xi);
            crate::exact_cover::links::lemma_cnt_bound(mem, l.n, l.m + 1, r);
        }
        self.column_sizes.set(col, size + 1);
        proof {
            let r2 = vs_old.to_set();
            self.vstack = Ghost(vs);
            assert forall|g: int| 1 <= g <= l.m && g != h implies {
                &&& nxt(l.vmem(g), l.n, g, l.m + 1, r2) == nxt(l.vmem(g), l.n, g, l.m + 1, r)
                &&& prv(l.vmem(g), l.m + 1, g, l.n - 1, r2) == prv(l.vmem(g), l.m + 1, g, l.n - 1, r)
                &&& cnt(l.vmem(g), l.n, l.m + 1, r2) == cnt(l.vmem(g), l.n, l.m + 1, r)
            } by {
                lemma_nxt_same(l.vmem(g), r2, l.vmem(g), r, l.n, g, l.m + 1);
                lemma_prv_same(l.vmem(g), r2, l.vmem(g), r, l.m + 1, g, l.n - 1);
                lemma_cnt_same(l.vmem(g), r2, l.vmem(g), r, l.n, l.m + 1);
            }
            assert forall|y: int| l.is_data(y) && l.colmap[y] != h implies {
                &&& nxt(l.vmem(l.colmap[y]), l.n, l.colmap[y], y + 1, r2) == nxt(l.vmem(l.colmap[y]), l.n, l.colmap[y], y + 1, r)
                &&& prv(l.vmem(l.colmap[y]), l.m + 1, l.colmap[y], y - 1, r2) == prv(l.vmem(l.colmap[y]), l.m + 1, l.colmap[y], y - 1, r)
            } by {
                lemma_nxt_same(l.vmem(l.colmap[y]), r2, l.vmem(l.colmap[y]), r, l.n, l.colmap[y], y + 1);
                lemma_prv_same(l.vmem(l.colmap[y]), r2, l.vmem(l.colmap[y]), r, l.m + 1, l.colmap[y], y - 1);
            }
            lemma_nxt_remove(mem, l.n, h, l.m + 1, r, xi);
            lemma_prv_remove(mem, l.m + 1, h, l.n - 1, r, xi);
            lemma_adjacent_down(mem, l.m + 1, l.n, h, r, xi, h);
            lemma_adjacent_up(mem, l.m + 1, l.n, h, r, xi, h);
            assert forall|y: int| l.is_data(y) && l.colmap[y] == h && !r.contains(y) && y != xi implies {
                &&& self.nodes@[y].down == nxt(mem, l.n, h, y + 1, r)
                &&& self.nodes@[y].up == prv(mem, l.m + 1, h, y - 1, r)
            } by {
                assert(live(mem, r, y));
                assert(!r2.contains(y));
                lemma_nxt_remove(mem, l.n, h, y + 1, r, xi);
                lemma_prv_remove(mem, l.m + 1, h, y - 1, r, xi);
                lemma_adjacent_down(mem, l.m + 1, l.n, h, r, xi, y);
                lemma_adjacent_up(mem, l.m + 1, l.n, h, r, xi, y);
            }
            assert forall|k: int| 0 <= k < vs.len() implies #[trigger] vs.take(k).to_set() == vs_old.take(k).to_set() by {
                assert(vs.take(k) =~= vs_old.take(k));
            }
            assert(self.nodes@[h].down == nxt(mem, l.n, h, l.m + 1, r));
            assert(self.nodes@[h].up == prv(mem, l.m + 1, h, l.n - 1, r));
            assert(self.column_sizes@[h] == cnt(mem, l.n, l.m + 1, r));
            assert(self.horizontal_ok());
            assert(self.static_ok());
            let vset = vs.to_set();
            assert(vs.no_duplicates());
            assert(forall|k: int| 0 <= k < vs.len() ==> l.is_data(#[trigger] vs[k]));
            assert(forall|g: int|
            1 <= g <= l.m ==> {
                &&& (#[trigger] self.nodes@[g]).down == nxt(l.vmem(g), l.n, g, l.m + 1, vset)
                &&& self.nodes@[g].up == prv(l.vmem(g), l.m + 1, g, l.n - 1, vset)
                &&& self.column_sizes@[g] == cnt(l.vmem(g), l.n, l.m + 1, vset)
            });
            assert(forall|y: int|
            l.is_data(y) && !vset.contains(y) ==> {
                &&& (#[trigger] self.nodes@[y]).down == nxt(
                    l.vmem(l.colmap[y]),
                    l.n,
                    l.colmap[y],
                    y + 1,
                    vset,
                )
                &&& self.nodes@[y].up == prv(
                    l.vmem(l.colmap[y]),
                    l.m + 1,
                    l.colmap[y],
                    y - 1,
                    vset,
                )
            });
            assert(self.vertical_ok());
        }
    }
}


impl DlxSearch {
    /// Puts the header `header` into the header ring, just before the root.
    fn link_header_before_root(&mut self, header: usize)
        requires
            0 < header < old(self).nodes@.len(),
            old(self).nodes@[0].left < old(self).nodes@.len(),
            old(self).nodes@[0].left != header,
        ensures
            final(self).nodes@.len() == old(self).nodes@.len(),
            final(self).column_sizes == old(self).column_sizes,
            final(self).same_search_state(old(self)),
            final(self).hstack == old(self).hstack,
            final(self).vstack == old(self).vstack,
            forall|x: int|
                0 <= x < old(self).nodes@.len() ==> {
                    &&& (#[trigger] final(self).nodes@[x]).column == old(self).nodes@[x].column
                    &&& final(self).nodes@[x].row_id == old(self).nodes@[x].row_id
                    &&& final(self).nodes@[x].up == old(self).nodes@[x].up
                    &&& final(self).nodes@[x].down == old(self).nodes@[x].down
                    &&& final(self).nodes@[x].left == if x == 0 {
                        header as int
                    } else if x == header {
                        old(self).nodes@[0].left as int
                    } else {
                        old(self).nodes@[x].left as int
                    }
                    &&& final(self).nodes@[x].right == if x == old(self).nodes@[0].left {
                        header as int
                    } else if x == header {
                        0
                    } else {
                        old(self).nodes@[x].right as int
                    }
                },
    {
        let left_of_root = self.nodes[ROOT].left;
        let mut node = self.nodes[header];
        node.left = left_of_root;
        node.right = ROOT;
        self.nodes.set(header, node);
        let mut before = self.nodes[left_of_root];
        before.right = header;
        self.nodes.set(left_of_root, before);
        let mut root = self.nodes[ROOT];
        root.left = header;
        self.nodes.set(ROOT, root);
    }

    /// Lays out the root and the headers of `column_count` columns, each column empty,
    /// with all headers in the ring in index order.
    fn initialize_headers(&mut self, column_count: usize)
        requires
            1 <= column_count < usize::MAX,
            old(self).nodes@.len() == 0,
            old(self).column_sizes@ == Seq::new((column_count + 1) as nat, |i: int| 0usize),
            old(self).hstack@ == Seq::<int>::empty(),
            old(self).vstack@ == Seq::<int>::empty(),
        ensures
            final(self).links_ok(),
            final(self).layout@ == Layout::headers_only(column_count as int),
            final(self).column_sizes == old(self).column_sizes,
            final(self).hstack == old(self).hstack,
            final(self).vstack == old(self).vstack,
            final(self).solution_rows == old(self).solution_rows,
            final(self).found_count == old(self).found_count,
            final(self).cap == old(self).cap,
    {
        self.nodes.push(DlxNode::new_header(ROOT));
        let mut k: usize = 0;
        while k < column_count
            invariant
                k <= column_count < usize::MAX,
                self.nodes@.len() == k + 1,
                self.column_sizes == old(self).column_sizes,
                self.hstack == old(self).hstack,
                self.vstack == old(self).vstack,
                self.solution_rows == old(self).solution_rows,
                self.found_count == old(self).found_count,
                self.cap == old(self).cap,
                self.layout == old(self).layout,
                forall|i: int|
                    0 <= i <= k ==> {
                        &&& (#[trigger] self.nodes@[i]).column == i
                        &&& self.nodes@[i].row_id == usize::MAX
                        &&& self.nodes@[i].up == i
                        &&& self.nodes@[i].down == i
                        &&& self.nodes@[i].right == if i == k { 0 } else { i + 1 }
                        &&& self.nodes@[i].left == if i == 0 { k as int } else { i - 1 }
                    },
            decreases column_count - k,
        {
            let header = self.nodes.len();
            self.nodes.push(DlxNode::new_header(header));
            self.link_header_before_root(header);
            k = k + 1;
        }
        proof {
            let m = column_count as int;
            let l = Layout::headers_only(m);
            crate::exact_cover::dlx_layout::lemma_headers_only(m);
            self.layout = Ghost(l);
            let e = Set::<int>::empty();
            assert(self.hstack@.to_set() =~= e);
            assert(self.vstack@.to_set() =~= e);
            assert(self.static_ok());
            assert forall|h: int| 1 <= h <= l.m implies {
                &&& (#[trigger] self.nodes@[h]).right == nxt(l.hmem(), l.m + 1, 0, h + 1, e)
                &&& self.nodes@[h].left == prv(l.hmem(), 1, 0, h - 1, e)
            } by {
                assert(live(l.hmem(), e, h + 1) <==> h + 1 <= m);
                assert(live(l.hmem(), e, h - 1) <==> h - 1 >= 1);
            }
            assert(live(l.hmem(), e, 1));
            assert(live(l.hmem(), e, m));
            assert(self.horizontal_ok());
            assert forall|h: int| 1 <= h <= l.m implies {
                &&& (#[trigger] self.nodes@[h]).down == nxt(l.vmem(h), l.n, h, l.m + 1, e)
                &&& self.nodes@[h].up == prv(l.vmem(h), l.m + 1, h, l.n - 1, e)
                &&& self.column_sizes@[h] == cnt(l.vmem(h), l.n, l.m + 1, e)
            } by {}
            Self::lemma_vertical_unstacked(self);
            reveal(DlxSearch::links_ok);
        }
    }
}


impl DlxSearch {
    /// Appends data node `node` at the bottom of the column list of `header`.
    fn link_node_to_column_bottom(&mut self, node: usize, header: usize)
        requires
            header < node < old(self).nodes@.len(),
            old(self).nodes@[header as int].up < node,
        ensures
            final(self).nodes@.len() == old(self).nodes@.len(),
            final(self).column_sizes == old(self).column_sizes,
            final(self).same_search_state(old(self)),
            final(self).hstack == old(self).hstack,
            final(self).vstack == old(self).vstack,
            forall|x: int|
                0 <= x < old(self).nodes@.len() ==> {
                    let bottom = old(self).nodes@[header as int].up as int;
                    &&& (#[trigger] final(self).nodes@[x]).column == if x == node {
                        header as int
                    } else {
                        old(self).nodes@[x].column as int
                    }
                    &&& final(self).nodes@[x].row_id == old(self).nodes@[x].row_id
                    &&& final(self).nodes@[x].left == old(self).nodes@[x].left
                    &&& final(self).nodes@[x].right == old(self).nodes@[x].right
                    &&& final(self).nodes@[x].up == if x == node {
                        bottom
                    } else if x == header {
                        node as int
                    } else {
                        old(self).nodes@[x].up as int
                    }
                    &&& final(self).nodes@[x].down == if x == node {
                        header as int
                    } else if x == bottom {
                        node as int
                    } else {
                        old(self).nodes@[x].down as int
                    }
                },
    {
        let bottom = self.nodes[header].up;
        let mut new_node = self.nodes[node];
        new_node.up = bottom;
        new_node.down = header;
        new_node.column = header;
        self.nodes.set(node, new_node);
        let mut above = self.nodes[bottom];
        above.down = node;
        self.nodes.set(bottom, above);
        let mut head = self.nodes[header];
        head.up = node;
        self.nodes.set(header, head);
    }

    /// Appends the data nodes of row `row_id`, one per column of `columns` in that order,
    /// each at the bottom of its column and all linked in a ring.
    #[verifier::spinoff_prover]
    fn insert_row(&mut self, row_id: usize, columns: &Vec<usize>)
        requires
            old(self).links_ok(),
            old(self).hstack@ == Seq::<int>::empty(),
            old(self).vstack@ == Seq::<int>::empty(),
            row_id == old(self).layout@.nrows(),
            columns@.len() > 0,
            columns@.no_duplicates(),
            forall|k: int| 0 <= k < columns@.len() ==> columns@[k] < old(self).layout@.m,
            old(self).layout@.n + columns@.len() <= usize::MAX,
        ensures
            final(self).links_ok(),
            final(self).layout@.m == old(self).layout@.m,
            final(self).layout@.n == old(self).layout@.n + columns@.len(),
            final(self).layout@.rows == old(self).layout@.rows.push(columns@),
            final(self).hstack == old(self).hstack,
            final(self).vstack == old(self).vstack,
            final(self).solution_rows == old(self).solution_rows,
            final(self).found_count == old(self).found_count,
            final(self).cap == old(self).cap,
    {
        let ghost l0 = self.layout@;
        proof {
            self.lemma_links_shape();
        }
        let mut first: Option<usize> = None;
        let mut previous: usize = 0;
        let mut k: usize = 0;
        while k < columns.len()
            invariant
                self.links_ok(),
                self.hstack == old(self).hstack,
                self.vstack == old(self).vstack,
                self.solution_rows == old(self).solution_rows,
                self.found_count == old(self).found_count,
                self.cap == old(self).cap,
                self.hstack@ == Seq::<int>::empty(),
                self.vstack@ == Seq::<int>::empty(),
                l0 == old(self).layout@,
                l0.wf(),
                row_id == l0.nrows(),
                columns@.no_duplicates(),
                forall|j: int| 0 <= j < columns@.len() ==> columns@[j] < l0.m,
                l0.n + columns@.len() <= usize::MAX,
                k <= columns@.len(),
                self.layout@.m == l0.m,
                self.layout@.n == l0.n + k,
                k == 0 ==> self.layout@ == l0 && first is None,
                k > 0 ==> {
                    &&& self.layout@.rows == l0.rows.push(columns@.take(k as int))
                    &&& self.layout@.starts[self.layout@.nrows() - 1] == l0.n
                    &&& first == Some(l0.n as usize)
                    &&& previous == l0.n + k - 1
                },
            decreases columns@.len() - k,
        {
            let ghost a = *self;
            let ghost l = self.layout@;
            let ghost new_row = k == 0;
            let column = columns[k];
            let header = column + 1;
            proof {
                a.lemma_links_shape();
                a.lemma_header_vertical(header as int);
                crate::exact_cover::links::lemma_cnt_bound(l.vmem(header as int), l.n, l.m + 1, Set::<int>::empty());
                assert(a.vstack@.to_set() =~= Set::<int>::empty());
                crate::exact_cover::links::lemma_prv(l.vmem(header as int), l.m + 1, header as int, l.n - 1, Set::<int>::empty());
                if k > 0 {
                    assert(l.rows[l.nrows() - 1] == columns@.take(k as int));
                    assert(!columns@.take(k as int).contains(column)) by {
                        if columns@.take(k as int).contains(column) {
                            let j = choose|j: int| 0 <= j < k && columns@.take(k as int)[j] == column;
                            assert(columns@[j] == columns@[k as int]);
                        }
                    }
                }
            }
            let node = self.nodes.len();
            assert(node == l.n);
            self.nodes.push(DlxNode::new_data(header, row_id));
            self.link_node_to_column_bottom(node, header);
            let size = self.column_sizes[header];
            self.column_sizes.set(header, size + 1);
            match first {
                Some(first_node) => {
                    let mut new_node = self.nodes[node];
                    new_node.left = previous;
                    new_node.right = first_node;
                    self.nodes.set(node, new_node);
                    let mut before = self.nodes[previous];
                    before.right = node;
                    self.nodes.set(previous, before);
                    let mut start = self.nodes[first_node];
                    start.left = node;
                    self.nodes.set(first_node, start);
                },
                None => {
                    first = Some(node);
                    let mut new_node = self.nodes[node];
                    new_node.left = node;
                    new_node.right = node;
                    self.nodes.set(node, new_node);
                },
            }
            previous = node;
            proof {
                self.layout = Ghost(l.push_node(header as int, new_row));
                Self::lemma_push_node_links(&a, self, header as int, new_row);
                let l2 = self.layout@;
                if new_row {
                    assert(columns@.take(1) =~= seq![column]);
                } else {
                    assert(columns@.take(k + 1) =~= columns@.take(k as int).push(column));
                    assert(l2.rows =~= l0.rows.push(columns@.take(k + 1)));
                }
            }
            k = k + 1;
        }
        proof {
            assert(columns@.take(columns@.len() as int) =~= columns@);
        }
    }
}


/// The rows as sequences of column indices.
pub open spec fn rows_view(rows: Seq<Vec<usize>>) -> Seq<Seq<usize>> {
    rows.map_values(|r: Vec<usize>| r@)
}

/// The number of entries of all rows together: one data node each.
pub open spec fn entry_count(rows: Seq<Seq<usize>>) -> nat
    decreases rows.len(),
{
    if rows.len() == 0 {
        0
    } else {
        entry_count(rows.drop_last()) + rows.last().len()
    }
}

/// Taking one more row adds its entries, and a prefix has no more entries than the whole.
pub proof fn lemma_entry_count_prefix(rows: Seq<Seq<usize>>, i: int)
    requires
        0 <= i < rows.len(),
    ensures
        entry_count(rows.take(i + 1)) == entry_count(rows.take(i)) + rows[i].len(),
        entry_count(rows.take(i + 1)) <= entry_count(rows),
    decreases rows.len(),
{
    assert(rows.take(i + 1).drop_last() =~= rows.take(i));
    if i + 1 == rows.len() {
        assert(rows.take(i + 1) =~= rows);
    } else {
        lemma_entry_count_prefix(rows.drop_last(), i);
        assert(rows.drop_last().take(i + 1) =~= rows.take(i + 1));
        assert(rows.drop_last().take(i) =~= rows.take(i));
    }
}


impl DlxSearch {
    /// The linked structure of the matrix of `column_count` columns and the rows `rows`,
    /// with nothing covered and nothing found yet.
    fn new(column_count: usize, rows: &Vec<Vec<usize>>) -> (search: Self)
        requires
            1 <= column_count,
            rows_wf(rows_view(rows@), column_count as int),
            column_count + 1 + entry_count(rows_view(rows@)) <= usize::MAX,
        ensures
            search.inv(),
            search.layout@.m == column_count,
            search.layout@.rows == rows_view(rows@),
            search.hstack@ == Seq::<int>::empty(),
            search.solution_rows@ == Seq::<usize>::empty(),
            search.found_count == 0,
    {
        let mut column_sizes: Vec<usize> = Vec::new();
        let mut i: usize = 0;
        while i <= column_count
            invariant
                column_count < usize::MAX,
                i <= column_count + 1,
                column_sizes@ == Seq::new(i as nat, |j: int| 0usize),
            decreases column_count + 1 - i,
        {
            column_sizes.push(0);
            i = i + 1;
        }
        let mut search = DlxSearch {
            nodes: Vec::new(),
            column_sizes,
            solution_rows: Vec::new(),
            found_count: 0,
            cap: 0,
            layout: Ghost(Layout::headers_only(column_count as int)),
            hstack: Ghost(Seq::empty()),
            vstack: Ghost(Seq::empty()),
        };
        search.initialize_headers(column_count);
        let ghost all = rows_view(rows@);
        let mut row_id: usize = 0;
        while row_id < rows.len()
            invariant
                search.links_ok(),
                search.hstack@ == Seq::<int>::empty(),
                search.vstack@ == Seq::<int>::empty(),
                search.solution_rows@ == Seq::<usize>::empty(),
                search.found_count == 0,
                all == rows_view(rows@),
                rows_wf(all, column_count as int),
                column_count + 1 + entry_count(all) <= usize::MAX,
                row_id <= rows@.len(),
                search.layout@.m == column_count,
                search.layout@.rows == all.take(row_id as int),
                search.layout@.n == column_count + 1 + entry_count(all.take(row_id as int)),
            decreases rows@.len() - row_id,
        {
            proof {
                lemma_entry_count_prefix(all, row_id as int);
                assert(all[row_id as int] == rows@[row_id as int]@);
                let row = all[row_id as int];
                assert forall|a: int, b: int| 0 <= a < row.len() && 0 <= b < row.len() && a != b implies row[a] != row[b] by {}
                assert(search.layout@.nrows() == row_id);
            }
            search.insert_row(row_id, &rows[row_id]);
            proof {
                assert(all.take(row_id + 1) =~= all.take(row_id as int).push(all[row_id as int]));
            }
            row_id = row_id + 1;
        }
        proof {
            assert(all.take(rows@.len() as int) =~= all);
            assert(search.layout@.vs_of(search.hstack@) =~= Seq::<int>::empty());
        }
        search
    }

    /// Counts the exact covers of all columns, stopping at `cap`.
    fn count_solutions_with_cap(&mut self, cap: usize) -> (count: usize)
        requires
            old(self).inv(),
            old(self).hstack@ == Seq::<int>::empty(),
            old(self).found_count == 0,
        ensures
            count == vstd::math::min(
                cap as int,
                covers(old(self).layout@.rows, all_columns(old(self).layout@.m)).len() as int,
            ),
    {
        let ghost before = *self;
        self.cap = cap;
        proof {
            Self::lemma_links_frame(&before, self);
            assert(active_cols(self.layout@, self.hstack@) =~= all_columns(self.layout@.m));
        }
        self.search();
        self.found_count
    }
}


/// Why a matrix could not be built or searched.
#[derive(Debug, Clone, PartialEq, Eq, Structural)]
pub enum DlxError {
    InvalidColumnCount(usize),
    EmptyRow,
    ColumnOutOfRange { column: usize, column_count: usize },
    DuplicateColumn(usize),
    InvalidCap(usize),
}

/// The first fault of a row, scanning its entries from position `k` on: a column out of
/// range, or a column already listed before it.
pub open spec fn first_fault(columns: Seq<usize>, column_count: int, k: int) -> Option<DlxError>
    decreases columns.len() - k,
{
    if k < 0 || k >= columns.len() {
        None
    } else if columns[k] >= column_count {
        Some(DlxError::ColumnOutOfRange { column: columns[k], column_count: column_count as usize })
    } else if columns.take(k).contains(columns[k]) {
        Some(DlxError::DuplicateColumn(columns[k]))
    } else {
        first_fault(columns, column_count, k + 1)
    }
}

/// The error a row is refused with, if any: an empty row first, then the first bad entry.
pub open spec fn row_error(columns: Seq<usize>, column_count: int) -> Option<DlxError> {
    if columns.len() == 0 {
        Some(DlxError::EmptyRow)
    } else {
        first_fault(columns, column_count, 0)
    }
}

/// A 0/1 matrix given by its rows, each the list of the columns it holds.
pub struct DlxMatrix {
    column_count: usize,
    rows: Vec<Vec<usize>>,
}

impl DlxMatrix {
    /// The number of columns.
    pub closed spec fn columns(&self) -> nat {
        self.column_count as nat
    }

    /// The rows added so far, in order.
    pub closed spec fn row_list(&self) -> Seq<Seq<usize>> {
        rows_view(self.rows@)
    }

    /// At least one column, and every row is a valid row.
    pub open spec fn wf(&self) -> bool {
        self.columns() >= 1 && rows_wf(self.row_list(), self.columns() as int)
    }

    /// An empty matrix of `column_count` columns; zero columns are refused.
    pub fn new(column_count: usize) -> (r: Result<Self, DlxError>)
        ensures
            match r {
                Ok(m) => column_count > 0 && m.wf() && m.columns() == column_count
                    && m.row_list() == Seq::<Seq<usize>>::empty(),
                Err(e) => column_count == 0 && e == DlxError::InvalidColumnCount(column_count),
            },
    {
        if column_count == 0 {
            return Err(DlxError::InvalidColumnCount(column_count));
        }
        let m = DlxMatrix { column_count, rows: Vec::new() };
        proof {
            assert(m.row_list() =~= Seq::<Seq<usize>>::empty());
        }
        Ok(m)
    }

    /// Adds a row holding the columns `columns`, and returns its index. A row that is
    /// empty, names a column out of range or names a column twice is refused, and the
    /// matrix is left as it was.
    pub fn add_row(&mut self, columns: &[usize]) -> (r: Result<usize, DlxError>)
        requires
            old(self).wf(),
        ensures
            final(self).wf(),
            final(self).columns() == old(self).columns(),
            match r {
                Ok(index) => row_error(columns@, old(self).columns() as int) is None
                    && index == old(self).row_list().len()
                    && final(self).row_list() == old(self).row_list().push(columns@),
                Err(e) => row_error(columns@, old(self).columns() as int) == Some(e)
                    && final(self).row_list() == old(self).row_list(),
            },
    {
        let ghost cc = self.column_count as int;
        if columns.len() == 0 {
            return Err(DlxError::EmptyRow);
        }
        let mut seen: Vec<bool> = Vec::new();
        let mut j: usize = 0;
        while j < self.column_count
            invariant
                j <= self.column_count,
                seen@ == Seq::new(j as nat, |i: int| false),
            decreases self.column_count - j,
        {
            seen.push(false);
            j = j + 1;
        }
        let mut k: usize = 0;
        while k < columns.len()
            invariant
                cc == self.column_count,
                self.wf(),
                self.rows == old(self).rows,
                self.column_count == old(self).column_count,
                columns@.len() > 0,
                k <= columns@.len(),
                seen@.len() == cc,
                forall|c: int| 0 <= c < cc ==> #[trigger] seen@[c] == columns@.take(k as int).contains(c as usize),
                forall|i: int| 0 <= i < k ==> #[trigger] columns@[i] < cc,
                forall|i: int| 0 <= i < k ==> !columns@.take(i).contains(#[trigger] columns@[i]),
                first_fault(columns@, cc, 0) == first_fault(columns@, cc, k as int),
            decreases columns@.len() - k,
        {
            let column = columns[k];
            if column >= self.column_count {
                return Err(DlxError::ColumnOutOfRange { column, column_count: self.column_count });
            }
            if seen[column] {
                return Err(DlxError::DuplicateColumn(column));
            }
            seen.set(column, true);
            proof {
                let t = columns@.take(k as int);
                let t2 = columns@.take(k + 1);
                assert(t2 =~= t.push(column));
                assert forall|c: int| 0 <= c < cc implies #[trigger] seen@[c] == t2.contains(c as usize) by {
                    if c == column as int {
                        assert(t2[k as int] == column);
                    } else {
                        if t2.contains(c as usize) {
                            let i = choose|i: int| 0 <= i < t2.len() && t2[i] == c as usize;
                            assert(t[i] == c as usize);
                        }
                    }
                }
            }
            k = k + 1;
        }
        proof {
            let cs = columns@;
            assert(first_fault(cs, cc, cs.len() as int) is None);
            assert(cs.no_duplicates()) by {
                assert forall|a: int, b: int| 0 <= a < cs.len() && 0 <= b < cs.len() && a != b implies cs[a] != cs[b] by {
                    if a < b {
                        assert(cs.take(b)[a] == cs[a]);
                        assert(!cs.take(b).contains(cs[b]));
                    } else {
                        assert(cs.take(a)[b] == cs[b]);
                        assert(!cs.take(a).contains(cs[a]));
                    }
                }
            }
        }
        let ghost before = self.row_list();
        self.rows.push(vstd::slice::slice_to_vec(columns));
        proof {
            assert(self.row_list() =~= before.push(columns@));
            assert forall|r: int| 0 <= r < self.row_list().len() implies {
                &&& (#[trigger] self.row_list()[r]).len() > 0
                &&& forall|q: int| 0 <= q < self.row_list()[r].len() ==> self.row_list()[r][q] < cc
                &&& forall|q1: int, q2: int|
                    0 <= q1 < self.row_list()[r].len() && 0 <= q2 < self.row_list()[r].len() && q1 != q2 ==> self.row_list()[r][q1]
                        != self.row_list()[r][q2]
            } by {
                if r < before.len() {
                    assert(self.row_list()[r] == before[r]);
                } else {
                    assert(self.row_list()[r] == columns@);
                }
            }
        }
        Ok(self.rows.len() - 1)
    }

    /// The number of exact covers of all columns, counted up to `cap`: the count found, or
    /// `cap` once that many are found. A cap of zero is refused.
    pub fn count_solutions_with_cap(&self, cap: usize) -> (r: Result<usize, DlxError>)
        requires
            self.wf(),
            self.columns() + 1 + entry_count(self.row_list()) <= usize::MAX,
        ensures
            match r {
                Ok(count) => cap > 0 && count == vstd::math::min(
                    cap as int,
                    covers(self.row_list(), all_columns(self.columns() as int)).len() as int,
                ),
                Err(e) => cap == 0 && e == DlxError::InvalidCap(cap),
            },
    {
        if cap == 0 {
            return Err(DlxError::InvalidCap(cap));
        }
        let mut search = DlxSearch::new(self.column_count, &self.rows);
        Ok(search.count_solutions_with_cap(cap))
    }
}


/// A non-empty row of columns below `column_count`, none listed twice, is not refused.
pub proof fn lemma_no_row_error(columns: Seq<usize>, column_count: int)
    requires
        columns.len() > 0,
        columns.no_duplicates(),
        forall|k: int| 0 <= k < columns.len() ==> #[trigger] columns[k] < column_count,
    ensures
        row_error(columns, column_count) is None,
{
    lemma_no_fault_from(columns, column_count, 0);
}

/// No entry from position `k` on is out of range or listed before.
proof fn lemma_no_fault_from(columns: Seq<usize>, column_count: int, k: int)
    requires
        0 <= k,
        columns.no_duplicates(),
        forall|i: int| 0 <= i < columns.len() ==> #[trigger] columns[i] < column_count,
    ensures
        first_fault(columns, column_count, k) is None,
    decreases columns.len() - k,
{
    if k < columns.len() {
        assert(!columns.take(k).contains(columns[k])) by {
            if columns.take(k).contains(columns[k]) {
                let i = choose|i: int| 0 <= i < k && columns.take(k)[i] == columns[k];
                assert(columns[i] == columns[k]);
            }
        }
        lemma_no_fault_from(columns, column_count, k + 1);
    }
}

} // verus!
