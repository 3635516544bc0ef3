//! The fixed shape of a dancing-links node array, and which nodes the covering
//! of a sequence of columns takes out of their columns.
//!
//! Index 0 is the root, indices `1..=m` are the column headers (header `h`
//! stands for matrix column `h - 1`), and the data nodes of matrix row `r`
//! occupy `starts[r]..starts[r + 1]`, one node per column of the row, in the
//! order the row lists its columns.
use vstd::prelude::*;


verus! {

/// The fixed shape of a node array.
pub struct Layout {
    pub m: int,
    pub n: int,
    pub rows: Seq<Seq<usize>>,
    pub starts: Seq<int>,
    pub colmap: Seq<int>,
    pub rowmap: Seq<int>,
}

/// Each row is non-empty, lists columns below `m`, and lists no column twice.
pub open spec fn rows_wf(rows: Seq<Seq<usize>>, m: int) -> bool {
    forall|r: int|
        0 <= r < rows.len() ==> {
            &&& (#[trigger] rows[r]).len() > 0
            &&& forall|k: int| 0 <= k < rows[r].len() ==> rows[r][k] < m
            &&& forall|k1: int, k2: int|
                0 <= k1 < rows[r].len() && 0 <= k2 < rows[r].len() && k1 != k2 ==> rows[r][k1]
                    != rows[r][k2]
        }
}

impl Layout {
    pub open spec fn nrows(self) -> int {
        self.rows.len() as int
    }

    /// First data node.
    pub open spec fn d(self) -> int {
        self.m + 1
    }

    pub open spec fn is_data(self, x: int) -> bool {
        self.m + 1 <= x < self.n
    }

    pub open spec fn is_header(self, h: int) -> bool {
        1 <= h <= self.m
    }

    /// First node of the row of data node `x`.
    pub open spec fn row_lo(self, x: int) -> int {
        self.starts[self.rowmap[x]]
    }

    /// One past the last node of the row of data node `x`.
    pub open spec fn row_hi(self, x: int) -> int {
        self.starts[self.rowmap[x] + 1]
    }

    /// The node to the right of data node `x` in its row, wrapping around.
    pub open spec fn rnext(self, x: int) -> int {
        if x + 1 < self.row_hi(x) {
            x + 1
        } else {
            self.row_lo(x)
        }
    }

    /// The node to the left of data node `x` in its row, wrapping around.
    pub open spec fn rprev(self, x: int) -> int {
        if x > self.row_lo(x) {
            x - 1
        } else {
            self.row_hi(x) - 1
        }
    }

    /// The other nodes of the row of `x`, from its right neighbour round to its left neighbour.
    pub open spec fn tail(self, x: int) -> Seq<int> {
        let len = self.row_hi(x) - self.row_lo(x);
        Seq::new(
            (len - 1) as nat,
            |i: int|
                if x + 1 + i < self.row_hi(x) {
                    x + 1 + i
                } else {
                    x + 1 + i - len
                },
        )
    }

    /// The matrix row `r` holds the column of header `h`.
    pub open spec fn hits(self, r: int, h: int) -> bool {
        self.rows[r].contains((h - 1) as usize)
    }

    /// No column of `hs` lies in matrix row `r`.
    pub open spec fn free(self, r: int, hs: Seq<int>) -> bool {
        forall|i: int| 0 <= i < hs.len() ==> !self.hits(r, #[trigger] hs[i])
    }

    /// The data nodes of the column of header `h`.
    pub open spec fn vmem(self, h: int) -> spec_fn(int) -> bool {
        |x: int| self.m + 1 <= x < self.n && self.colmap[x] == h
    }

    /// The column headers.
    pub open spec fn hmem(self) -> spec_fn(int) -> bool {
        |x: int| 1 <= x <= self.m
    }

    /// Data node `x` lies in column `c` and its row holds no column of `hs`.
    pub open spec fn elig(self, c: int, hs: Seq<int>, x: int) -> bool {
        self.is_data(x) && self.colmap[x] == c && self.free(self.rowmap[x], hs)
    }

    /// The nodes that covering column `c` takes out, once the columns `hs` are covered,
    /// from the rows whose node in column `c` lies in `[f, t)`.
    pub open spec fn rm_range(self, c: int, hs: Seq<int>, f: int, t: int) -> Seq<int>
        decreases t - f,
    {
        if f >= t {
            Seq::empty()
        } else {
            (if self.elig(c, hs, f) {
                self.tail(f)
            } else {
                Seq::empty()
            }) + self.rm_range(c, hs, f + 1, t)
        }
    }

    /// The nodes taken out of their columns by covering the columns `hs` in order.
    pub open spec fn vs_of(self, hs: Seq<int>) -> Seq<int>
        decreases hs.len(),
    {
        if hs.len() == 0 {
            Seq::empty()
        } else {
            self.vs_of(hs.drop_last()) + self.rm_range(
                hs.last(),
                hs.drop_last(),
                self.m + 1,
                self.n,
            )
        }
    }

    /// Some column of `hs` comes first in the row of data node `y` and is not the column of `y`.
    pub open spec fn removed_by(self, hs: Seq<int>, y: int) -> bool {
        exists|j: int|
            0 <= j < hs.len() && self.hits(self.rowmap[y], #[trigger] hs[j]) && self.free(
                self.rowmap[y],
                hs.take(j),
            ) && hs[j] != self.colmap[y]
    }

    pub open spec fn wf(self) -> bool {
        &&& self.m >= 1
        &&& self.n >= self.m + 1
        &&& self.n <= usize::MAX
        &&& rows_wf(self.rows, self.m)
        &&& self.starts.len() == self.rows.len() + 1
        &&& self.starts[0] == self.m + 1
        &&& self.starts[self.nrows()] == self.n
        &&& forall|r: int|
            0 <= r < self.nrows() ==> #[trigger] self.starts[r + 1] == self.starts[r]
                + self.rows[r].len()
        &&& self.colmap.len() == self.n
        &&& self.rowmap.len() == self.n
        &&& forall|h: int| 0 <= h <= self.m ==> #[trigger] self.colmap[h] == h
        &&& forall|x: int|
            self.m + 1 <= x < self.n ==> {
                &&& 0 <= #[trigger] self.rowmap[x] < self.nrows()
                &&& self.starts[self.rowmap[x]] <= x < self.starts[self.rowmap[x] + 1]
                &&& self.colmap[x] == self.rows[self.rowmap[x]][x - self.starts[self.rowmap[x]]]
                    + 1
            }
    }

    /// The shape after appending one data node in the column of header `h`, either as the
    /// first node of a new row or as the next node of the last row.
    pub open spec fn push_node(self, h: int, new_row: bool) -> Layout {
        let j = (h - 1) as usize;
        if new_row {
            Layout {
                m: self.m,
                n: self.n + 1,
                rows: self.rows.push(seq![j]),
                starts: self.starts.push(self.n + 1),
                colmap: self.colmap.push(h),
                rowmap: self.rowmap.push(self.nrows()),
            }
        } else {
            let r = self.nrows() - 1;
            Layout {
                m: self.m,
                n: self.n + 1,
                rows: self.rows.update(r, self.rows[r].push(j)),
                starts: self.starts.update(r + 1, self.n + 1),
                colmap: self.colmap.push(h),
                rowmap: self.rowmap.push(r),
            }
        }
    }

    /// The shape of `m` headers and no rows.
    pub open spec fn headers_only(m: int) -> Layout {
        Layout {
            m: m,
            n: m + 1,
            rows: Seq::empty(),
            starts: seq![m + 1],
            colmap: Seq::new((m + 1) as nat, |i: int| i),
            rowmap: Seq::new((m + 1) as nat, |i: int| 0),
        }
    }

    /// Column headers are distinct and each is a header.
    pub open spec fn headers_ok(self, hs: Seq<int>) -> bool {
        &&& hs.no_duplicates()
        &&& forall|i: int| 0 <= i < hs.len() ==> self.is_header(#[trigger] hs[i])
    }
}

/// The row starts increase.
pub proof fn lemma_starts_mono(l: Layout, r1: int, r2: int)
    requires
        l.wf(),
        0 <= r1 <= r2 <= l.nrows(),
    ensures
        l.starts[r1] <= l.starts[r2],
    decreases r2 - r1,
{
    if r1 < r2 {
        lemma_starts_mono(l, r1, r2 - 1);
        let r = r2 - 1;
        assert(l.starts[r + 1] == l.starts[r] + l.rows[r].len());
    }
}

/// Node `starts[r] + k` is the data node of slot `k` of row `r`.
pub proof fn lemma_slot(l: Layout, r: int, k: int)
    requires
        l.wf(),
        0 <= r < l.nrows(),
        0 <= k < l.rows[r].len(),
    ensures
        l.is_data(l.starts[r] + k),
        l.rowmap[l.starts[r] + k] == r,
        l.colmap[l.starts[r] + k] == l.rows[r][k] + 1,
{
    let x = l.starts[r] + k;
    lemma_starts_mono(l, 0, r);
    lemma_starts_mono(l, r + 1, l.nrows());
    assert(l.starts[r + 1] == l.starts[r] + l.rows[r].len());
    let r2 = l.rowmap[x];
    if r2 < r {
        lemma_starts_mono(l, r2 + 1, r);
    } else if r2 > r {
        lemma_starts_mono(l, r + 1, r2);
    }
}

/// A row holds a column exactly when one of its data nodes lies in that column.
pub proof fn lemma_hits(l: Layout, r: int, h: int)
    requires
        l.wf(),
        0 <= r < l.nrows(),
        l.is_header(h),
    ensures
        l.hits(r, h) <==> exists|x: int|
            l.is_data(x) && #[trigger] l.rowmap[x] == r && l.colmap[x] == h,
{
    if l.hits(r, h) {
        let k = choose|k: int| 0 <= k < l.rows[r].len() && l.rows[r][k] == (h - 1) as usize;
        lemma_slot(l, r, k);
        assert(l.rowmap[l.starts[r] + k] == r);
    }
    if exists|x: int| l.is_data(x) && #[trigger] l.rowmap[x] == r && l.colmap[x] == h {
        let x = choose|x: int| l.is_data(x) && #[trigger] l.rowmap[x] == r && l.colmap[x] == h;
        let k = x - l.starts[r];
        assert(l.rows[r][k] == (h - 1) as usize);
    }
}

/// A row has at most one data node in a column.
pub proof fn lemma_unique_in_column(l: Layout, x1: int, x2: int)
    requires
        l.wf(),
        l.is_data(x1),
        l.is_data(x2),
        l.rowmap[x1] == l.rowmap[x2],
        l.colmap[x1] == l.colmap[x2],
    ensures
        x1 == x2,
{
    let r = l.rowmap[x1];
    let k1 = x1 - l.starts[r];
    let k2 = x2 - l.starts[r];
    assert(l.rows[r][k1] + 1 == l.rows[r][k2] + 1);
}

/// The other nodes of the row of `x` are what `tail(x)` lists, each once.
pub proof fn lemma_tail(l: Layout, x: int)
    requires
        l.wf(),
        l.is_data(x),
    ensures
        l.tail(x).no_duplicates(),
        forall|y: int|
            #![trigger l.tail(x).contains(y)]
            l.tail(x).contains(y) <==> (l.is_data(y) && l.rowmap[y] == l.rowmap[x] && y != x),
        forall|i: int|
            0 <= i < l.tail(x).len() ==> l.is_data(#[trigger] l.tail(x)[i]) && l.rowmap[l.tail(
                x,
            )[i]] == l.rowmap[x],
{
    let r = l.rowmap[x];
    let t = l.tail(x);
    let lo = l.row_lo(x);
    let hi = l.row_hi(x);
    assert(hi == lo + l.rows[r].len());
    assert forall|i: int| 0 <= i < t.len() implies l.is_data(#[trigger] t[i]) && l.rowmap[t[i]] == r
        && lo <= t[i] < hi && t[i] != x by {
        lemma_slot(l, r, t[i] - lo);
    }
    assert forall|y: int| (l.is_data(y) && l.rowmap[y] == r && y != x) implies #[trigger] t.contains(
        y,
    ) by {
        let len = hi - lo;
        let i = if y > x {
            y - x - 1
        } else {
            y - x - 1 + len
        };
        assert(t[i] == y);
    }
}

/// Nodes in `rm_range`: those of rows whose node in `c` is eligible and lies in
/// `[f, t)`, other than that node itself; each appears once.
pub proof fn lemma_rm_range(l: Layout, c: int, hs: Seq<int>, f: int, t: int)
    requires
        l.wf(),
        l.is_header(c),
        l.m + 1 <= f,
        t <= l.n,
    ensures
        l.rm_range(c, hs, f, t).no_duplicates(),
        forall|y: int|
            #![trigger l.rm_range(c, hs, f, t).contains(y)]
            l.rm_range(c, hs, f, t).contains(y) <==> (l.is_data(y) && exists|x: int|
                f <= x < t && l.elig(c, hs, x) && #[trigger] l.rowmap[x] == l.rowmap[y] && y != x),
    decreases t - f,
{
    if f < t {
        lemma_rm_range(l, c, hs, f + 1, t);
        let head = if l.elig(c, hs, f) {
            l.tail(f)
        } else {
            Seq::<int>::empty()
        };
        let rest = l.rm_range(c, hs, f + 1, t);
        assert(l.rm_range(c, hs, f, t) == head + rest);
        if l.elig(c, hs, f) {
            lemma_tail(l, f);
        }
        assert forall|i: int, j: int| 0 <= i < head.len() && 0 <= j < rest.len() implies head[i]
            != rest[j] by {
            assert(head.contains(head[i]));
            assert(rest.contains(rest[j]));
            if head[i] == rest[j] {
                let y = rest[j];
                let x = choose|x: int|
                    f + 1 <= x < t && l.elig(c, hs, x) && #[trigger] l.rowmap[x] == l.rowmap[y]
                        && y != x;
                lemma_unique_in_column(l, x, f);
            }
        }
        vstd::seq_lib::lemma_no_dup_in_concat(head, rest);
        assert forall|y: int| #[trigger]
            l.rm_range(c, hs, f, t).contains(y) <==> (l.is_data(y) && exists|x: int|
                f <= x < t && l.elig(c, hs, x) && #[trigger] l.rowmap[x] == l.rowmap[y] && y
                    != x) by {
            let s = l.rm_range(c, hs, f, t);
            if s.contains(y) {
                let i = choose|i: int| 0 <= i < s.len() && s[i] == y;
                if i < head.len() {
                    assert(head.contains(y));
                    assert(l.rowmap[f] == l.rowmap[y]);
                } else {
                    assert(rest[i - head.len()] == y);
                    assert(rest.contains(y));
                }
            }
            if l.is_data(y) && exists|x: int|
                f <= x < t && l.elig(c, hs, x) && #[trigger] l.rowmap[x] == l.rowmap[y] && y != x {
                let x = choose|x: int|
                    f <= x < t && l.elig(c, hs, x) && #[trigger] l.rowmap[x] == l.rowmap[y] && y
                        != x;
                if x == f {
                    assert(head.contains(y));
                    let i = choose|i: int| 0 <= i < head.len() && head[i] == y;
                    assert(s[i] == y);
                } else {
                    assert(rest.contains(y));
                    let i = choose|i: int| 0 <= i < rest.len() && rest[i] == y;
                    assert(s[head.len() + i] == y);
                }
            }
        }
    } else {
        assert(l.rm_range(c, hs, f, t) =~= Seq::<int>::empty());
    }
}

/// The nodes taken out by covering `hs` in order are those of `removed_by`, each once.
pub proof fn lemma_vs_of(l: Layout, hs: Seq<int>)
    requires
        l.wf(),
        l.headers_ok(hs),
    ensures
        l.vs_of(hs).no_duplicates(),
        forall|y: int|
            #![trigger l.vs_of(hs).contains(y)]
            l.vs_of(hs).contains(y) <==> (l.is_data(y) && l.removed_by(hs, y)),
    decreases hs.len(),
{
    if hs.len() == 0 {
        assert(l.vs_of(hs) =~= Seq::<int>::empty());
    } else {
        let h0 = hs.drop_last();
        let c = hs.last();
        assert(l.headers_ok(h0)) by {
            assert forall|i: int| 0 <= i < h0.len() implies l.is_header(#[trigger] h0[i]) by {
                assert(h0[i] == hs[i]);
            }
        }
        lemma_vs_of(l, h0);
        lemma_rm_range(l, c, h0, l.m + 1, l.n);
        let a = l.vs_of(h0);
        let b = l.rm_range(c, h0, l.m + 1, l.n);
        assert(l.vs_of(hs) == a + b);
        assert(hs.take(h0.len() as int) =~= h0);
        assert forall|y: int| #[trigger] b.contains(y) <==> (l.is_data(y) && l.hits(l.rowmap[y], c)
            && l.free(l.rowmap[y], h0) && c != l.colmap[y]) by {
            if l.is_data(y) && l.hits(l.rowmap[y], c) && l.free(l.rowmap[y], h0) && c != l.colmap[y] {
                lemma_hits(l, l.rowmap[y], c);
                let x = choose|x: int|
                    l.is_data(x) && #[trigger] l.rowmap[x] == l.rowmap[y] && l.colmap[x] == c;
                assert(l.elig(c, h0, x));
            }
            if b.contains(y) {
                let x = choose|x: int|
                    l.m + 1 <= x < l.n && l.elig(c, h0, x) && #[trigger] l.rowmap[x] == l.rowmap[y]
                        && y != x;
                lemma_hits(l, l.rowmap[y], c);
                if c == l.colmap[y] {
                    lemma_unique_in_column(l, x, y);
                }
            }
        }
        assert forall|y: int| l.is_data(y) implies (l.removed_by(hs, y) <==> (l.removed_by(h0, y)
            || (l.hits(l.rowmap[y], c) && l.free(l.rowmap[y], h0) && c != l.colmap[y]))) by {
            if l.removed_by(hs, y) {
                let j = choose|j: int|
                    0 <= j < hs.len() && l.hits(l.rowmap[y], #[trigger] hs[j]) && l.free(
                        l.rowmap[y],
                        hs.take(j),
                    ) && hs[j] != l.colmap[y];
                if j < h0.len() {
                    assert(hs.take(j) =~= h0.take(j));
                    assert(h0[j] == hs[j]);
                }
            }
            if l.removed_by(h0, y) {
                let j = choose|j: int|
                    0 <= j < h0.len() && l.hits(l.rowmap[y], #[trigger] h0[j]) && l.free(
                        l.rowmap[y],
                        h0.take(j),
                    ) && h0[j] != l.colmap[y];
                assert(hs.take(j) =~= h0.take(j));
                assert(h0[j] == hs[j]);
            }
            if l.hits(l.rowmap[y], c) && l.free(l.rowmap[y], h0) && c != l.colmap[y] {
                let j = h0.len() as int;
                assert(hs[j] == c);
            }
        }
        assert forall|i: int, j: int| 0 <= i < a.len() && 0 <= j < b.len() implies a[i] != b[j] by {
            assert(a.contains(a[i]));
            assert(b.contains(b[j]));
            if a[i] == b[j] {
                let y = a[i];
                let k = choose|k: int|
                    0 <= k < h0.len() && l.hits(l.rowmap[y], #[trigger] h0[k]) && l.free(
                        l.rowmap[y],
                        h0.take(k),
                    ) && h0[k] != l.colmap[y];
            }
        }
        vstd::seq_lib::lemma_no_dup_in_concat(a, b);
        assert forall|y: int| #[trigger] l.vs_of(hs).contains(y) <==> (l.is_data(y) && l.removed_by(hs, y)) by {
            if (a + b).contains(y) {
                let i = choose|i: int| 0 <= i < (a + b).len() && (a + b)[i] == y;
                if i < a.len() {
                    assert(a.contains(y));
                } else {
                    assert(b[i - a.len()] == y);
                    assert(b.contains(y));
                }
            }
            if a.contains(y) {
                let i = choose|i: int| 0 <= i < a.len() && a[i] == y;
                assert((a + b)[i] == y);
            }
            if b.contains(y) {
                let i = choose|i: int| 0 <= i < b.len() && b[i] == y;
                assert((a + b)[a.len() + i] == y);
            }
        }
    }
}

/// In a column that is not covered, a data node is taken out exactly when its row holds
/// a covered column.
pub proof fn lemma_open_column_node(l: Layout, hs: Seq<int>, y: int)
    requires
        l.wf(),
        l.headers_ok(hs),
        l.is_data(y),
        !hs.contains(l.colmap[y]),
    ensures
        l.vs_of(hs).contains(y) <==> !l.free(l.rowmap[y], hs),
{
    lemma_vs_of(l, hs);
    if !l.free(l.rowmap[y], hs) {
        let j = choose|j: int| 0 <= j < hs.len() && l.hits(l.rowmap[y], #[trigger] hs[j]);
        lemma_first_hit(l, l.rowmap[y], hs, j);
        let j0 = choose|j0: int|
            0 <= j0 <= j && l.hits(l.rowmap[y], #[trigger] hs[j0]) && l.free(l.rowmap[y], hs.take(j0));
        assert(hs[j0] != l.colmap[y]) by {
            assert(hs.contains(hs[j0]));
        }
    }
    if l.removed_by(hs, y) {
        let j = choose|j: int|
            0 <= j < hs.len() && l.hits(l.rowmap[y], #[trigger] hs[j]) && l.free(
                l.rowmap[y],
                hs.take(j),
            ) && hs[j] != l.colmap[y];
    }
}

/// Some column that a row holds comes first among those it holds.
pub proof fn lemma_first_hit(l: Layout, r: int, hs: Seq<int>, j: int)
    requires
        0 <= j < hs.len(),
        l.hits(r, hs[j]),
    ensures
        exists|j0: int| 0 <= j0 <= j && l.hits(r, #[trigger] hs[j0]) && l.free(r, hs.take(j0)),
    decreases j,
{
    if l.free(r, hs.take(j)) {
        assert(l.hits(r, hs[j]));
    } else {
        let i = choose|i: int| 0 <= i < hs.take(j).len() && l.hits(r, #[trigger] hs.take(j)[i]);
        assert(hs.take(j)[i] == hs[i]);
        lemma_first_hit(l, r, hs, i);
    }
}

/// `rm_range` splits at any point in between.
pub proof fn lemma_rm_range_split(l: Layout, c: int, hs: Seq<int>, f: int, t: int, u: int)
    requires
        f <= t <= u,
    ensures
        l.rm_range(c, hs, f, u) == l.rm_range(c, hs, f, t) + l.rm_range(c, hs, t, u),
    decreases t - f,
{
    if f < t {
        lemma_rm_range_split(l, c, hs, f + 1, t, u);
        let head = if l.elig(c, hs, f) {
            l.tail(f)
        } else {
            Seq::<int>::empty()
        };
        assert(l.rm_range(c, hs, f, u) == head + l.rm_range(c, hs, f + 1, u));
        assert(l.rm_range(c, hs, f, t) == head + l.rm_range(c, hs, f + 1, t));
        assert(head + (l.rm_range(c, hs, f + 1, t) + l.rm_range(c, hs, t, u)) =~= (head
            + l.rm_range(c, hs, f + 1, t)) + l.rm_range(c, hs, t, u));
    } else {
        assert(l.rm_range(c, hs, f, t) =~= Seq::<int>::empty());
        assert(l.rm_range(c, hs, f, u) =~= l.rm_range(c, hs, f, t) + l.rm_range(c, hs, t, u));
    }
}

/// `rm_range` over a range with no eligible node is empty.
pub proof fn lemma_rm_range_none(l: Layout, c: int, hs: Seq<int>, f: int, t: int)
    requires
        forall|x: int| f <= x < t ==> !l.elig(c, hs, x),
    ensures
        l.rm_range(c, hs, f, t) == Seq::<int>::empty(),
    decreases t - f,
{
    if f < t {
        lemma_rm_range_none(l, c, hs, f + 1, t);
        assert(l.rm_range(c, hs, f, t) =~= Seq::<int>::empty());
    }
}

/// `rm_range` grows by one eligible row at a time.
pub proof fn lemma_rm_range_step(l: Layout, c: int, hs: Seq<int>, f: int, t: int)
    requires
        f <= t,
    ensures
        l.rm_range(c, hs, f, t + 1) == l.rm_range(c, hs, f, t) + if l.elig(c, hs, t) {
            l.tail(t)
        } else {
            Seq::<int>::empty()
        },
{
    lemma_rm_range_split(l, c, hs, f, t, t + 1);
    let head = if l.elig(c, hs, t) {
        l.tail(t)
    } else {
        Seq::<int>::empty()
    };
    assert(l.rm_range(c, hs, t + 1, t + 1) =~= Seq::<int>::empty());
    assert(l.rm_range(c, hs, t, t + 1) =~= head);
}

/// Walking right from `x` visits `tail(x)` in order and comes back to `x`;
/// walking left visits it in reverse.
pub proof fn lemma_tail_walk(l: Layout, x: int)
    requires
        l.wf(),
        l.is_data(x),
    ensures
        l.rnext(x) == if l.tail(x).len() > 0 {
            l.tail(x)[0]
        } else {
            x
        },
        l.rprev(x) == if l.tail(x).len() > 0 {
            l.tail(x).last()
        } else {
            x
        },
        forall|i: int|
            0 <= i < l.tail(x).len() ==> l.rnext(#[trigger] l.tail(x)[i]) == if i + 1 < l.tail(
                x,
            ).len() {
                l.tail(x)[i + 1]
            } else {
                x
            },
        forall|i: int|
            0 <= i < l.tail(x).len() ==> l.rprev(#[trigger] l.tail(x)[i]) == if i > 0 {
                l.tail(x)[i - 1]
            } else {
                x
            },
{
    lemma_tail(l, x);
    let t = l.tail(x);
    let r = l.rowmap[x];
    assert(l.row_hi(x) == l.row_lo(x) + l.rows[r].len());
    assert forall|i: int| 0 <= i < t.len() implies l.rnext(#[trigger] t[i]) == if i + 1 < t.len() {
        t[i + 1]
    } else {
        x
    } && l.rprev(t[i]) == if i > 0 {
        t[i - 1]
    } else {
        x
    } by {
        assert(l.rowmap[t[i]] == r);
    }
}

/// The shape of headers only is well formed.
pub proof fn lemma_headers_only(m: int)
    requires
        1 <= m < usize::MAX,
    ensures
        Layout::headers_only(m).wf(),
{
}

/// Appending a data node keeps the shape well formed.
pub proof fn lemma_push_node(l: Layout, h: int, new_row: bool)
    requires
        l.wf(),
        l.is_header(h),
        l.n + 1 <= usize::MAX,
        !new_row ==> l.nrows() >= 1 && !l.rows[l.nrows() - 1].contains((h - 1) as usize),
    ensures
        l.push_node(h, new_row).wf(),
        l.push_node(h, new_row).m == l.m,
        l.push_node(h, new_row).n == l.n + 1,
{
    let l2 = l.push_node(h, new_row);
    let j = (h - 1) as usize;
    if new_row {
        assert(l2.rows[l.nrows()] == seq![j]);
        assert forall|x: int| l2.m + 1 <= x < l2.n implies {
            &&& 0 <= #[trigger] l2.rowmap[x] < l2.nrows()
            &&& l2.starts[l2.rowmap[x]] <= x < l2.starts[l2.rowmap[x] + 1]
            &&& l2.colmap[x] == l2.rows[l2.rowmap[x]][x - l2.starts[l2.rowmap[x]]] + 1
        } by {
            if x < l.n {
                assert(l2.rowmap[x] == l.rowmap[x]);
                assert(l2.starts[l.rowmap[x]] == l.starts[l.rowmap[x]]);
                assert(l2.starts[l.rowmap[x] + 1] == l.starts[l.rowmap[x] + 1]);
            }
        }
        assert(rows_wf(l2.rows, l2.m)) by {
            assert forall|r: int| 0 <= r < l2.rows.len() implies {
                &&& (#[trigger] l2.rows[r]).len() > 0
                &&& forall|k: int| 0 <= k < l2.rows[r].len() ==> l2.rows[r][k] < l2.m
                &&& forall|k1: int, k2: int|
                    0 <= k1 < l2.rows[r].len() && 0 <= k2 < l2.rows[r].len() && k1 != k2 ==> l2.rows[r][k1]
                        != l2.rows[r][k2]
            } by {
                if r < l.nrows() {
                    assert(l2.rows[r] == l.rows[r]);
                }
            }
        }
        assert forall|r: int| 0 <= r < l2.nrows() implies #[trigger] l2.starts[r + 1] == l2.starts[r]
            + l2.rows[r].len() by {
            if r < l.nrows() {
                assert(l2.starts[r + 1] == l.starts[r + 1]);
            }
        }
    } else {
        let r0 = l.nrows() - 1;
        let row2 = l.rows[r0].push(j);
        assert(l2.rows[r0] == row2);
        assert forall|x: int| l2.m + 1 <= x < l2.n implies {
            &&& 0 <= #[trigger] l2.rowmap[x] < l2.nrows()
            &&& l2.starts[l2.rowmap[x]] <= x < l2.starts[l2.rowmap[x] + 1]
            &&& l2.colmap[x] == l2.rows[l2.rowmap[x]][x - l2.starts[l2.rowmap[x]]] + 1
        } by {
            if x < l.n {
                let r = l.rowmap[x];
                assert(l2.rowmap[x] == r);
                assert(l2.starts[r] == l.starts[r]);
                if r == r0 {
                    assert(l2.rows[r][x - l.starts[r]] == l.rows[r][x - l.starts[r]]);
                } else {
                    assert(l2.starts[r + 1] == l.starts[r + 1]);
                    assert(l2.rows[r] == l.rows[r]);
                }
            } else {
                assert(l2.rowmap[x] == r0);
                assert(l.starts[r0 + 1] == l.n);
                assert(l2.starts[r0] == l.starts[r0]);
            }
        }
        assert(rows_wf(l2.rows, l2.m)) by {
            assert forall|r: int| 0 <= r < l2.rows.len() implies {
                &&& (#[trigger] l2.rows[r]).len() > 0
                &&& forall|k: int| 0 <= k < l2.rows[r].len() ==> l2.rows[r][k] < l2.m
                &&& forall|k1: int, k2: int|
                    0 <= k1 < l2.rows[r].len() && 0 <= k2 < l2.rows[r].len() && k1 != k2 ==> l2.rows[r][k1]
                        != l2.rows[r][k2]
            } by {
                if r != r0 {
                    assert(l2.rows[r] == l.rows[r]);
                } else {
                    assert forall|k1: int, k2: int|
                        0 <= k1 < row2.len() && 0 <= k2 < row2.len() && k1 != k2 implies row2[k1] != row2[k2] by {
                        if k1 == row2.len() - 1 {
                            assert(l.rows[r0][k2] == row2[k2]);
                            assert(l.rows[r0].contains(row2[k2]));
                        } else if k2 == row2.len() - 1 {
                            assert(l.rows[r0].contains(row2[k1]));
                        }
                    }
                }
            }
        }
        assert forall|r: int| 0 <= r < l2.nrows() implies #[trigger] l2.starts[r + 1] == l2.starts[r]
            + l2.rows[r].len() by {
            if r < r0 {
                assert(l2.starts[r + 1] == l.starts[r + 1]);
                assert(l2.starts[r] == l.starts[r]);
            } else {
                assert(l2.starts[r] == l.starts[r]);
                assert(l.starts[r + 1] == l.n);
            }
        }
    }
}

} // verus!
