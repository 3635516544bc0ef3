//! Exact covers as sets of row indices, and the facts about how many there are
//! that a column-by-column search relies on.
use vstd::prelude::*;
use vstd::relations::injective_on;
use vstd::set_lib::*;

verus! {

/// Every row of `q` is a row of the matrix and uses only columns of `a`.
pub open spec fn uses_only(rows: Seq<Seq<usize>>, q: Set<int>, a: Set<usize>) -> bool {
    forall|r: int|
        #[trigger] q.contains(r) ==> 0 <= r < rows.len() && forall|j: usize|
            #[trigger] rows[r].contains(j) ==> a.contains(j)
}

/// Exactly one row of `q` holds column `j`.
pub open spec fn covers_once(rows: Seq<Seq<usize>>, q: Set<int>, j: usize) -> bool {
    &&& exists|r: int| #[trigger] q.contains(r) && rows[r].contains(j)
    &&& forall|r1: int, r2: int|
        #[trigger] q.contains(r1) && #[trigger] q.contains(r2) && rows[r1].contains(j)
            && rows[r2].contains(j) ==> r1 == r2
}

/// `q` is an exact cover of the columns `a`: its rows use only columns of `a`,
/// and each column of `a` lies in exactly one of them.
pub open spec fn is_cover(rows: Seq<Seq<usize>>, a: Set<usize>, q: Set<int>) -> bool {
    &&& uses_only(rows, q, a)
    &&& forall|j: usize| #[trigger] a.contains(j) ==> covers_once(rows, q, j)
}

/// All exact covers of the columns `a`.
pub open spec fn covers(rows: Seq<Seq<usize>>, a: Set<usize>) -> Set<Set<int>> {
    Set::new(|q: Set<int>| is_cover(rows, a, q))
}

/// The exact covers of `a` that use row `r`.
pub open spec fn covers_with(rows: Seq<Seq<usize>>, a: Set<usize>, r: int) -> Set<Set<int>> {
    covers(rows, a).filter(|q: Set<int>| q.contains(r))
}

/// The exact covers of `a` that use some row of `p`.
pub open spec fn covers_hitting(rows: Seq<Seq<usize>>, a: Set<usize>, p: Set<int>) -> Set<
    Set<int>,
> {
    covers(rows, a).filter(|q: Set<int>| exists|r: int| #[trigger] p.contains(r) && q.contains(r))
}

/// The columns of `a` that row `r` does not hold.
pub open spec fn without_row(rows: Seq<Seq<usize>>, a: Set<usize>, r: int) -> Set<usize> {
    a.filter(|j: usize| !rows[r].contains(j))
}

/// Row `r` is a row of the matrix, is not empty, and uses only columns of `a`.
pub open spec fn available(rows: Seq<Seq<usize>>, a: Set<usize>, r: int) -> bool {
    &&& 0 <= r < rows.len()
    &&& rows[r].len() > 0
    &&& forall|j: usize| #[trigger] rows[r].contains(j) ==> a.contains(j)
}

/// All subsets of `[0, n)`.
pub open spec fn subsets_below(n: int) -> Set<Set<int>> {
    Set::new(|q: Set<int>| forall|r: int| #[trigger] q.contains(r) ==> 0 <= r < n)
}

/// There are finitely many subsets of `[0, n)`.
pub proof fn lemma_subsets_below_finite(n: int)
    requires
        n >= 0,
    ensures
        subsets_below(n).finite(),
    decreases n,
{
    if n == 0 {
        assert(subsets_below(0) =~= set![Set::<int>::empty()]) by {
            assert forall|q: Set<int>| subsets_below(0).contains(q) implies q == Set::<int>::empty() by {
                assert(q =~= Set::<int>::empty());
            }
        }
    } else {
        lemma_subsets_below_finite(n - 1);
        let s = subsets_below(n - 1);
        let f = |q: Set<int>| q.insert(n - 1);
        s.lemma_map_finite(f);
        assert(subsets_below(n) =~= s + s.map(f)) by {
            assert forall|q: Set<int>| subsets_below(n).contains(q) implies (s + s.map(f)).contains(q) by {
                if q.contains(n - 1) {
                    let q0 = q.remove(n - 1);
                    assert(s.contains(q0));
                    assert(q0.insert(n - 1) =~= q);
                    assert(s.map(f).contains(f(q0)));
                } else {
                    assert(s.contains(q));
                }
            }
            assert forall|q: Set<int>| (s + s.map(f)).contains(q) implies subsets_below(n).contains(q) by {
                if s.map(f).contains(q) {
                    let q0 = choose|q0: Set<int>| s.contains(q0) && f(q0) == q;
                }
            }
        }
        lemma_set_union_finite_iff(s, s.map(f));
    }
}

/// There are finitely many exact covers.
pub proof fn lemma_covers_finite(rows: Seq<Seq<usize>>, a: Set<usize>)
    ensures
        covers(rows, a).finite(),
{
    lemma_subsets_below_finite(rows.len() as int);
    assert(covers(rows, a).subset_of(subsets_below(rows.len() as int)));
    lemma_set_subset_finite(subsets_below(rows.len() as int), covers(rows, a));
}

/// With no columns left and no empty rows, the empty set is the one exact cover.
pub proof fn lemma_covers_of_nothing(rows: Seq<Seq<usize>>)
    requires
        forall|r: int| 0 <= r < rows.len() ==> #[trigger] rows[r].len() > 0,
    ensures
        covers(rows, Set::empty()) == set![Set::<int>::empty()],
        covers(rows, Set::empty()).len() == 1,
{
    assert forall|q: Set<int>| #[trigger] covers(rows, Set::empty()).contains(q) implies q
        == Set::<int>::empty() by {
        assert forall|r: int| !q.contains(r) by {
            if q.contains(r) {
                assert(rows[r].contains(rows[r][0]));
            }
        }
        assert(q =~= Set::<int>::empty());
    }
    assert(covers(rows, Set::empty()).contains(Set::<int>::empty()));
    assert(covers(rows, Set::empty()) =~= set![Set::<int>::empty()]);
}

/// Exact covers of `a` that use an available row `r` match, one for one, the exact covers
/// of what `r` leaves uncovered.
pub proof fn lemma_covers_with(rows: Seq<Seq<usize>>, a: Set<usize>, r: int)
    requires
        available(rows, a, r),
    ensures
        covers_with(rows, a, r).len() == covers(rows, without_row(rows, a, r)).len(),
        covers_with(rows, a, r).finite(),
{
    let b = without_row(rows, a, r);
    let f = |q: Set<int>| q.insert(r);
    let x = covers(rows, b);
    let y = covers_with(rows, a, r);
    lemma_covers_finite(rows, b);
    let j0 = rows[r][0];
    assert(rows[r].contains(j0));
    // `r` never lies in a cover of what it leaves
    assert forall|q: Set<int>| #[trigger] x.contains(q) implies !q.contains(r) by {
        if q.contains(r) {
            assert(b.contains(j0));
        }
    }
    assert(injective_on(f, x)) by {
        assert forall|q1: Set<int>, q2: Set<int>|
            x.contains(q1) && x.contains(q2) && #[trigger] f(q1) == #[trigger] f(q2) implies q1
            == q2 by {
            assert(!q1.contains(r) && !q2.contains(r));
            assert(q1 =~= f(q1).remove(r));
            assert(q2 =~= f(q2).remove(r));
        }
    }
    assert(x.map(f) =~= y) by {
        assert forall|q: Set<int>| x.map(f).contains(q) implies y.contains(q) by {
            let q0 = choose|q0: Set<int>| x.contains(q0) && f(q0) == q;
            assert(!q0.contains(r));
            assert forall|j: usize| #[trigger] a.contains(j) implies covers_once(rows, q, j) by {
                if rows[r].contains(j) {
                    assert(q.contains(r));
                    assert forall|r1: int, r2: int|
                        #[trigger] q.contains(r1) && #[trigger] q.contains(r2) && rows[r1].contains(
                            j,
                        ) && rows[r2].contains(j) implies r1 == r2 by {
                        if r1 != r {
                            assert(q0.contains(r1));
                            assert(b.contains(j));
                        }
                        if r2 != r {
                            assert(q0.contains(r2));
                            assert(b.contains(j));
                        }
                    }
                } else {
                    assert(b.contains(j));
                    assert(covers_once(rows, q0, j));
                    let rr = choose|rr: int| #[trigger] q0.contains(rr) && rows[rr].contains(j);
                    assert(q.contains(rr));
                }
            }
            assert(uses_only(rows, q, a)) by {
                assert forall|r1: int| #[trigger] q.contains(r1) implies 0 <= r1 < rows.len()
                    && forall|j: usize| #[trigger] rows[r1].contains(j) ==> a.contains(j) by {
                    if r1 != r {
                        assert(q0.contains(r1));
                    }
                }
            }
        }
        assert forall|q: Set<int>| y.contains(q) implies x.map(f).contains(q) by {
            let q0 = q.remove(r);
            assert(q0.insert(r) =~= q);
            assert(uses_only(rows, q0, b)) by {
                assert forall|r1: int| #[trigger] q0.contains(r1) implies 0 <= r1 < rows.len()
                    && forall|j: usize| #[trigger] rows[r1].contains(j) ==> b.contains(j) by {
                    assert(q.contains(r1));
                    assert forall|j: usize| #[trigger] rows[r1].contains(j) implies b.contains(j) by {
                        assert(a.contains(j));
                        if rows[r].contains(j) {
                            assert(covers_once(rows, q, j));
                            assert(q.contains(r) && q.contains(r1));
                        }
                    }
                }
            }
            assert forall|j: usize| #[trigger] b.contains(j) implies covers_once(rows, q0, j) by {
                assert(a.contains(j));
                assert(covers_once(rows, q, j));
                let rr = choose|rr: int| #[trigger] q.contains(rr) && rows[rr].contains(j);
                assert(rr != r);
                assert(q0.contains(rr));
            }
            assert(x.contains(q0));
            assert(f(q0) == q);
        }
    }
    lemma_map_size(x, y, f);
}

/// Covers hitting a set of rows that all hold column `c`, one more row at a time.
pub proof fn lemma_covers_hitting_insert(
    rows: Seq<Seq<usize>>,
    a: Set<usize>,
    c: usize,
    p: Set<int>,
    r: int,
)
    requires
        a.contains(c),
        forall|r1: int| #[trigger] p.contains(r1) ==> rows[r1].contains(c),
        rows[r].contains(c),
        !p.contains(r),
    ensures
        covers_hitting(rows, a, p.insert(r)) == covers_hitting(rows, a, p) + covers_with(rows, a, r),
        covers_hitting(rows, a, p).disjoint(covers_with(rows, a, r)),
{
    let lhs = covers_hitting(rows, a, p.insert(r));
    let rhs = covers_hitting(rows, a, p) + covers_with(rows, a, r);
    assert forall|q: Set<int>| lhs.contains(q) implies rhs.contains(q) by {
        let r1 = choose|r1: int| #[trigger] p.insert(r).contains(r1) && q.contains(r1);
        if r1 != r {
            assert(p.contains(r1));
        }
    }
    assert forall|q: Set<int>| rhs.contains(q) implies lhs.contains(q) by {
        if covers_hitting(rows, a, p).contains(q) {
            let r1 = choose|r1: int| #[trigger] p.contains(r1) && q.contains(r1);
            assert(p.insert(r).contains(r1));
        } else {
            assert(p.insert(r).contains(r));
        }
    }
    assert(lhs =~= rhs);
    assert forall|q: Set<int>|
        covers_hitting(rows, a, p).contains(q) implies !covers_with(rows, a, r).contains(q) by {
        let r1 = choose|r1: int| #[trigger] p.contains(r1) && q.contains(r1);
        if q.contains(r) {
            assert(covers_once(rows, q, c));
            assert(q.contains(r1) && q.contains(r));
        }
    }
}

/// Every exact cover of `a` holds `c` in some available row; so the covers hitting all
/// available rows that hold `c` are all the covers.
pub proof fn lemma_covers_hitting_all(rows: Seq<Seq<usize>>, a: Set<usize>, c: usize, p: Set<int>)
    requires
        a.contains(c),
        forall|r: int| available(rows, a, r) && rows[r].contains(c) ==> #[trigger] p.contains(r),
    ensures
        covers_hitting(rows, a, p) == covers(rows, a),
{
    assert forall|q: Set<int>| covers(rows, a).contains(q) implies covers_hitting(rows, a, p).contains(
        q,
    ) by {
        assert(covers_once(rows, q, c));
        let r = choose|r: int| #[trigger] q.contains(r) && rows[r].contains(c);
        assert(rows[r].len() > 0) by {
            let k = choose|k: int| 0 <= k < rows[r].len() && rows[r][k] == c;
        }
        assert(available(rows, a, r));
        assert(p.contains(r));
    }
    assert(covers_hitting(rows, a, p) =~= covers(rows, a));
}

/// No covers hit the empty set of rows.
pub proof fn lemma_covers_hitting_empty(rows: Seq<Seq<usize>>, a: Set<usize>)
    ensures
        covers_hitting(rows, a, Set::empty()) == Set::<Set<int>>::empty(),
{
    assert(covers_hitting(rows, a, Set::empty()) =~= Set::<Set<int>>::empty());
}

/// When no available row holds a column of `a`, there is no exact cover.
pub proof fn lemma_covers_none(rows: Seq<Seq<usize>>, a: Set<usize>, c: usize)
    requires
        a.contains(c),
        forall|r: int| available(rows, a, r) ==> !(#[trigger] rows[r]).contains(c),
    ensures
        covers(rows, a) == Set::<Set<int>>::empty(),
{
    lemma_covers_hitting_all(rows, a, c, Set::empty());
    lemma_covers_hitting_empty(rows, a);
}


/// All columns of a matrix of `column_count` columns.
pub open spec fn all_columns(column_count: int) -> Set<usize> {
    Set::new(|j: usize| (j as int) < column_count)
}

/// The columns some row of `p` holds.
pub open spec fn columns_of_rows(rows: Seq<Seq<usize>>, p: Set<int>) -> Set<usize> {
    Set::new(|j: usize| exists|r: int| #[trigger] p.contains(r) && rows[r].contains(j))
}

/// No two rows of `p` hold a common column.
pub open spec fn pairwise_disjoint(rows: Seq<Seq<usize>>, p: Set<int>) -> bool {
    forall|r1: int, r2: int, j: usize|
        #[trigger] p.contains(r1) && #[trigger] p.contains(r2) && r1 != r2 ==> !(
        #[trigger] rows[r1].contains(j) && rows[r2].contains(j))
}

/// The exact covers of `a` that hold every row of `p`.
pub open spec fn covers_containing(rows: Seq<Seq<usize>>, a: Set<usize>, p: Set<int>) -> Set<
    Set<int>,
> {
    covers(rows, a).filter(|q: Set<int>| p.subset_of(q))
}

/// Exact covers of `a` that hold a set `p` of available rows with no common column match,
/// one for one, the exact covers of the columns the rows of `p` leave.
pub proof fn lemma_covers_containing(rows: Seq<Seq<usize>>, a: Set<usize>, p: Set<int>)
    requires
        forall|r: int| #[trigger] p.contains(r) ==> available(rows, a, r),
        pairwise_disjoint(rows, p),
    ensures
        covers_containing(rows, a, p).finite(),
        covers_containing(rows, a, p).len() == covers(
            rows,
            a.difference(columns_of_rows(rows, p)),
        ).len(),
{
    let cp = columns_of_rows(rows, p);
    let b = a.difference(cp);
    let f = |q: Set<int>| q.union(p);
    let x = covers(rows, b);
    let y = covers_containing(rows, a, p);
    lemma_covers_finite(rows, b);
    // a cover of what `p` leaves holds no row of `p`
    assert forall|q: Set<int>, r: int| #[trigger] x.contains(q) && #[trigger] p.contains(r) implies !q.contains(r) by {
        if q.contains(r) {
            let j0 = rows[r][0];
            assert(rows[r].contains(j0));
            assert(cp.contains(j0));
        }
    }
    assert(injective_on(f, x)) by {
        assert forall|q1: Set<int>, q2: Set<int>|
            x.contains(q1) && x.contains(q2) && #[trigger] f(q1) == #[trigger] f(q2) implies q1
            == q2 by {
            assert forall|r: int| q1.contains(r) implies q2.contains(r) by {
                assert(f(q1).contains(r));
                if p.contains(r) {
                    assert(!q1.contains(r));
                }
            }
            assert forall|r: int| q2.contains(r) implies q1.contains(r) by {
                assert(f(q2).contains(r));
                if p.contains(r) {
                    assert(!q2.contains(r));
                }
            }
            assert(q1 =~= q2);
        }
    }
    assert(x.map(f) =~= y) by {
        assert forall|q: Set<int>| x.map(f).contains(q) implies y.contains(q) by {
            let q0 = choose|q0: Set<int>| x.contains(q0) && f(q0) == q;
            assert(uses_only(rows, q, a)) by {
                assert forall|r1: int| #[trigger] q.contains(r1) implies 0 <= r1 < rows.len()
                    && forall|j: usize| #[trigger] rows[r1].contains(j) ==> a.contains(j) by {
                    if !p.contains(r1) {
                        assert(q0.contains(r1));
                    }
                }
            }
            assert forall|j: usize| #[trigger] a.contains(j) implies covers_once(rows, q, j) by {
                if cp.contains(j) {
                    let rp = choose|rp: int| #[trigger] p.contains(rp) && rows[rp].contains(j);
                    assert(q.contains(rp));
                    assert forall|r1: int, r2: int|
                        #[trigger] q.contains(r1) && #[trigger] q.contains(r2) && rows[r1].contains(
                            j,
                        ) && rows[r2].contains(j) implies r1 == r2 by {
                        if !p.contains(r1) {
                            assert(q0.contains(r1));
                            assert(b.contains(j));
                        }
                        if !p.contains(r2) {
                            assert(q0.contains(r2));
                            assert(b.contains(j));
                        }
                    }
                } else {
                    assert(b.contains(j));
                    assert(covers_once(rows, q0, j));
                    let rr = choose|rr: int| #[trigger] q0.contains(rr) && rows[rr].contains(j);
                    assert(q.contains(rr));
                    assert forall|r1: int, r2: int|
                        #[trigger] q.contains(r1) && #[trigger] q.contains(r2) && rows[r1].contains(
                            j,
                        ) && rows[r2].contains(j) implies r1 == r2 by {
                        if p.contains(r1) {
                            assert(cp.contains(j));
                        }
                        if p.contains(r2) {
                            assert(cp.contains(j));
                        }
                        assert(q0.contains(r1) && q0.contains(r2));
                    }
                }
            }
            assert(p.subset_of(q));
        }
        assert forall|q: Set<int>| y.contains(q) implies x.map(f).contains(q) by {
            let q0 = q.difference(p);
            assert(f(q0) =~= q);
            assert(uses_only(rows, q0, b)) by {
                assert forall|r1: int| #[trigger] q0.contains(r1) implies 0 <= r1 < rows.len()
                    && forall|j: usize| #[trigger] rows[r1].contains(j) ==> b.contains(j) by {
                    assert(q.contains(r1));
                    assert forall|j: usize| #[trigger] rows[r1].contains(j) implies b.contains(j) by {
                        assert(a.contains(j));
                        if cp.contains(j) {
                            let rp = choose|rp: int| #[trigger] p.contains(rp) && rows[rp].contains(j);
                            assert(covers_once(rows, q, j));
                            assert(q.contains(rp) && q.contains(r1));
                        }
                    }
                }
            }
            assert forall|j: usize| #[trigger] b.contains(j) implies covers_once(rows, q0, j) by {
                assert(a.contains(j));
                assert(covers_once(rows, q, j));
                let rr = choose|rr: int| #[trigger] q.contains(rr) && rows[rr].contains(j);
                assert(!p.contains(rr)) by {
                    if p.contains(rr) {
                        assert(cp.contains(j));
                    }
                }
                assert(q0.contains(rr));
            }
            assert(x.contains(q0));
        }
    }
    lemma_map_size(x, y, f);
}

/// When two rows of `p` hold a common column, no exact cover holds all of `p`.
pub proof fn lemma_covers_containing_conflict(
    rows: Seq<Seq<usize>>,
    a: Set<usize>,
    p: Set<int>,
    r1: int,
    r2: int,
    j: usize,
)
    requires
        p.contains(r1),
        p.contains(r2),
        r1 != r2,
        rows[r1].contains(j),
        rows[r2].contains(j),
    ensures
        covers_containing(rows, a, p) == Set::<Set<int>>::empty(),
{
    assert forall|q: Set<int>| !covers_containing(rows, a, p).contains(q) by {
        if covers_containing(rows, a, p).contains(q) {
            assert(q.contains(r1) && q.contains(r2));
            assert(a.contains(j));
            assert(covers_once(rows, q, j));
        }
    }
    assert(covers_containing(rows, a, p) =~= Set::<Set<int>>::empty());
}


/// Renaming columns and keeping only the rows that fit: when `kept` lists, each once, the
/// rows available in `b`, and `cm` numbers the columns of `b` one for one as `0..u`, the
/// exact covers of the renamed kept rows over `0..u` match, one for one, the exact covers
/// of `b`.
pub proof fn lemma_covers_renamed(
    rows: Seq<Seq<usize>>,
    b: Set<usize>,
    kept: Seq<int>,
    cm: spec_fn(usize) -> usize,
    u: int,
    renamed: Seq<Seq<usize>>,
)
    requires
        forall|r: int| 0 <= r < rows.len() ==> #[trigger] rows[r].len() > 0,
        kept.no_duplicates(),
        forall|k: int| 0 <= k < kept.len() ==> available(rows, b, #[trigger] kept[k]),
        forall|r: int| available(rows, b, r) ==> kept.contains(r),
        forall|j: usize| #[trigger] b.contains(j) ==> cm(j) < u,
        forall|j1: usize, j2: usize|
            #[trigger] b.contains(j1) && #[trigger] b.contains(j2) && cm(j1) == cm(j2) ==> j1
                == j2,
        forall|v: usize| #[trigger] all_columns(u).contains(v) ==> exists|j: usize| #[trigger] b.contains(j) && cm(j) == v,
        renamed.len() == kept.len(),
        forall|k: int| 0 <= k < kept.len() ==> #[trigger] renamed[k] == rows[kept[k]].map_values(cm),
    ensures
        covers(renamed, all_columns(u)).finite(),
        covers(renamed, all_columns(u)).len() == covers(rows, b).len(),
{
    let au = all_columns(u);
    let x = covers(renamed, au);
    let y = covers(rows, b);
    let g = |q: Set<int>| q.map(|k: int| kept[k]);
    lemma_covers_finite(renamed, au);
    // what a renamed row holds
    assert forall|k: int, v: usize| 0 <= k < kept.len() && #[trigger] renamed[k].contains(v) implies exists|j: usize|
        #[trigger] rows[kept[k]].contains(j) && b.contains(j) && cm(j) == v by {
        let i = choose|i: int| 0 <= i < renamed[k].len() && renamed[k][i] == v;
        let j = rows[kept[k]][i];
        assert(rows[kept[k]].contains(j));
        assert(available(rows, b, kept[k]));
    }
    assert forall|k: int, j: usize| 0 <= k < kept.len() && #[trigger] rows[kept[k]].contains(j) implies renamed[k].contains(cm(j)) by {
        let i = choose|i: int| 0 <= i < rows[kept[k]].len() && rows[kept[k]][i] == j;
        assert(renamed[k][i] == cm(j));
    }
    assert(injective_on(g, x)) by {
        assert forall|q1: Set<int>, q2: Set<int>|
            x.contains(q1) && x.contains(q2) && #[trigger] g(q1) == #[trigger] g(q2) implies q1
            == q2 by {
            assert forall|k: int| q1.contains(k) implies q2.contains(k) by {
                assert(g(q1).contains(kept[k]));
                let k2 = choose|k2: int| q2.contains(k2) && kept[k2] == kept[k];
            }
            assert forall|k: int| q2.contains(k) implies q1.contains(k) by {
                assert(g(q2).contains(kept[k]));
                let k1 = choose|k1: int| q1.contains(k1) && kept[k1] == kept[k];
            }
            assert(q1 =~= q2);
        }
    }
    assert(x.map(g) =~= y) by {
        assert forall|s: Set<int>| x.map(g).contains(s) implies y.contains(s) by {
            let q = choose|q: Set<int>| x.contains(q) && g(q) == s;
            assert forall|r: int| s.contains(r) implies exists|k: int| #[trigger] q.contains(k) && 0 <= k < kept.len() && kept[k] == r by {
                let k = choose|k: int| q.contains(k) && kept[k] == r;
            }
            assert(uses_only(rows, s, b)) by {
                assert forall|r1: int| #[trigger] s.contains(r1) implies 0 <= r1 < rows.len()
                    && forall|j: usize| #[trigger] rows[r1].contains(j) ==> b.contains(j) by {
                    let k = choose|k: int| #[trigger] q.contains(k) && 0 <= k < kept.len() && kept[k] == r1;
                    assert(available(rows, b, kept[k]));
                }
            }
            assert forall|j: usize| #[trigger] b.contains(j) implies covers_once(rows, s, j) by {
                let v = cm(j);
                assert(au.contains(v));
                assert(covers_once(renamed, q, v));
                let k = choose|k: int| #[trigger] q.contains(k) && renamed[k].contains(v);
                let j2 = choose|j2: usize| #[trigger] rows[kept[k]].contains(j2) && b.contains(j2) && cm(j2) == v;
                assert(j2 == j);
                assert(s.contains(kept[k]));
                assert forall|r1: int, r2: int|
                    #[trigger] s.contains(r1) && #[trigger] s.contains(r2) && rows[r1].contains(j)
                        && rows[r2].contains(j) implies r1 == r2 by {
                    let k1 = choose|k1: int| #[trigger] q.contains(k1) && 0 <= k1 < kept.len() && kept[k1] == r1;
                    let k2 = choose|k2: int| #[trigger] q.contains(k2) && 0 <= k2 < kept.len() && kept[k2] == r2;
                    assert(renamed[k1].contains(v));
                    assert(renamed[k2].contains(v));
                }
            }
        }
        assert forall|s: Set<int>| y.contains(s) implies x.map(g).contains(s) by {
            let q = Set::new(|k: int| 0 <= k < kept.len() && s.contains(kept[k]));
            assert forall|r: int| #[trigger] s.contains(r) implies exists|k: int| 0 <= k < kept.len() && kept[k] == r by {
                assert(rows[r].len() > 0);
                assert(available(rows, b, r));
                assert(kept.contains(r));
            }
            assert(g(q) =~= s) by {
                assert forall|r: int| s.contains(r) implies g(q).contains(r) by {
                    let k = choose|k: int| 0 <= k < kept.len() && kept[k] == r;
                    assert(q.contains(k));
                }
            }
            assert(uses_only(renamed, q, au)) by {
                assert forall|k: int| #[trigger] q.contains(k) implies 0 <= k < renamed.len()
                    && forall|v: usize| #[trigger] renamed[k].contains(v) ==> au.contains(v) by {
                    assert forall|v: usize| #[trigger] renamed[k].contains(v) implies au.contains(v) by {
                        let j = choose|j: usize| #[trigger] rows[kept[k]].contains(j) && b.contains(j) && cm(j) == v;
                    }
                }
            }
            assert forall|v: usize| #[trigger] au.contains(v) implies covers_once(renamed, q, v) by {
                let j = choose|j: usize| #[trigger] b.contains(j) && cm(j) == v;
                assert(covers_once(rows, s, j));
                let r = choose|r: int| #[trigger] s.contains(r) && rows[r].contains(j);
                let k = choose|k: int| 0 <= k < kept.len() && kept[k] == r;
                assert(q.contains(k));
                assert(renamed[k].contains(cm(j)));
                assert forall|k1: int, k2: int|
                    #[trigger] q.contains(k1) && #[trigger] q.contains(k2) && renamed[k1].contains(v)
                        && renamed[k2].contains(v) implies k1 == k2 by {
                    let j1 = choose|j1: usize| #[trigger] rows[kept[k1]].contains(j1) && b.contains(j1) && cm(j1) == v;
                    let j2 = choose|j2: usize| #[trigger] rows[kept[k2]].contains(j2) && b.contains(j2) && cm(j2) == v;
                    assert(j1 == j && j2 == j);
                    assert(s.contains(kept[k1]) && s.contains(kept[k2]));
                    assert(kept[k1] == kept[k2]);
                }
            }
            assert(x.contains(q));
        }
    }
    lemma_map_size(x, y, g);
}

} // verus!
