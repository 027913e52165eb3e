//! Sparse columns: a matrix by column, and one elimination step.
use vstd::prelude::*;

use crate::scalar::Scalar;
use crate::sparse::matrix::{
    columns_below, increasing, lemma_row_insert, lemma_row_pos, row_has, row_pos, row_value,
    SparseMatrix,
};

verus! {

/// No row occurs twice in the column.
pub open spec fn distinct<S>(col: Seq<(usize, S)>) -> bool {
    forall|j: int, k: int|
        0 <= j < k < col.len() ==> (#[trigger] col[j]).0 != (#[trigger] col[k]).0
}

/// In a column without repeats an entry is found where it is.
pub proof fn lemma_distinct_pos<S>(col: Seq<(usize, S)>, k: int)
    requires
        distinct(col),
        0 <= k < col.len(),
    ensures
        row_has(col, col[k].0 as int),
        row_pos(col, col[k].0 as int) == k,
{
    let c = col[k].0 as int;
    let p = row_pos(col, c);
    assert(0 <= p < col.len() && col[p].0 == c);
    if p < k {
        assert(col[p].0 != col[k].0);
    } else if k < p {
        assert(col[k].0 != col[p].0);
    }
}

/// Appending a new row to a column stores its value there and nothing else.
pub proof fn lemma_distinct_push<S: Scalar>(col: Seq<(usize, S)>, i: usize, v: S)
    requires
        distinct(col),
        !row_has(col, i as int),
    ensures
        distinct(col.push((i, v))),
        forall|x: int| #[trigger] row_has(col.push((i, v)), x) <==> row_has(col, x) || x == i,
        row_value(col.push((i, v)), i as int) == v,
        forall|x: int| x != i ==> #[trigger] row_value(col.push((i, v)), x) == row_value(col, x),
{
    let new = col.push((i, v));
    let n = col.len() as int;
    assert(new[n] == (i, v));
    assert forall|j: int, k: int| 0 <= j < k < new.len() implies (#[trigger] new[j]).0 != (
    #[trigger] new[k]).0 by {
        assert(new[j] == col[j]);
        if k < n {
            assert(new[k] == col[k]);
        } else {
            assert(col[j].0 != i);
        }
    }
    lemma_distinct_pos(new, n);
    assert forall|x: int| #[trigger] row_has(new, x) == (row_has(col, x) || x == i) by {
        if row_has(col, x) {
            let p = row_pos(col, x);
            assert(new[p].0 == x);
        }
        if row_has(new, x) && x != i {
            let p = row_pos(new, x);
            assert(new[p].0 == x);
            assert(col[p].0 == x);
        }
    }
    assert forall|x: int| x != i implies #[trigger] row_value(new, x) == row_value(col, x) by {
        if row_has(col, x) {
            let p = row_pos(col, x);
            assert(new[p] == col[p]);
            lemma_distinct_pos(new, p);
        } else {
            assert(!row_has(new, x));
        }
    }
}

/// `x` with `f` times the column taken off.
pub open spec fn eliminated<S: Scalar>(x: Seq<S>, col: Seq<(usize, S)>, f: S) -> Seq<S> {
    Seq::new(
        x.len(),
        |i: int|
            if row_has(col, i) {
                x[i].spec_minus(row_value(col, i).spec_times(f))
            } else {
                x[i]
            },
    )
}

/// Take `f` times the column off `x`.
pub fn eliminate<S: Scalar>(x: &mut [S], col: &Vec<(usize, S)>, f: S)
    requires
        distinct(col@),
        columns_below(col@, old(x)@.len() as int),
    ensures
        final(x)@ == eliminated(old(x)@, col@, f),
{
    let ghost before = x@;
    let mut p: usize = 0;
    proof {
        assert(eliminated(before, col@.take(0), f) =~= before);
    }
    while p < col.len()
        invariant
            p <= col@.len(),
            distinct(col@),
            columns_below(col@, before.len() as int),
            x@.len() == before.len(),
            x@ == eliminated(before, col@.take(p as int), f),
        decreases col@.len() - p,
    {
        let (i, v): (usize, S) = col[p];
        let ghost done = col@.take(p as int);
        let ghost next = col@.take(p + 1);
        proof {
            assert(next =~= done.push((i, v)));
            assert(distinct(done));
            assert(!row_has(done, i as int)) by {
                if row_has(done, i as int) {
                    let q = row_pos(done, i as int);
                    assert(col@[q].0 != col@[p as int].0);
                }
            }
            lemma_distinct_push(done, i, v);
        }
        let xi: S = x[i];
        x[i] = xi.minus(v.times(f));
        proof {
            assert(x@ =~= eliminated(before, next, f));
        }
        p = p + 1;
    }
    proof {
        assert(col@.take(col@.len() as int) =~= col@);
    }
}

/// The columns hold exactly what the matrix holds.
pub open spec fn columns_of<S: Scalar>(cols: Seq<Vec<(usize, S)>>, m: &SparseMatrix<S>) -> bool {
    let n = m.spec_dim() as int;
    &&& cols.len() == n
    &&& forall|j: int|
        0 <= j < n ==> increasing(#[trigger] cols[j]@) && columns_below(cols[j]@, n)
    &&& forall|i: int, j: int|
        0 <= i < n && 0 <= j < n ==> #[trigger] row_has(cols[j]@, i) == m.has(i, j)
    &&& forall|i: int, j: int|
        0 <= i < n && 0 <= j < n ==> #[trigger] row_value(cols[j]@, i) == m.value(i, j)
}

/// The first `i` rows of a column of the matrix, by row.
pub open spec fn column_upto<S: Scalar>(m: &SparseMatrix<S>, j: int, i: nat) -> Seq<(usize, S)>
    decreases i,
{
    if i == 0 {
        Seq::empty()
    } else {
        let part = column_upto(m, j, (i - 1) as nat);
        if m.has(i - 1, j) {
            part.push(((i - 1) as usize, m.value(i - 1, j)))
        } else {
            part
        }
    }
}

/// The matrix by column, each column sorted by row.
pub fn to_columns<S: Scalar>(m: &SparseMatrix<S>) -> (cols: Vec<Vec<(usize, S)>>)
    requires
        m.wf(),
    ensures
        columns_of(cols@, m),
        forall|j: int|
            0 <= j < cols@.len() ==> (#[trigger] cols@[j])@ == column_upto(m, j, m.spec_dim()),
{
    let n: usize = m.dim();
    let mut cols: Vec<Vec<(usize, S)>> = Vec::new();
    let mut j: usize = 0;
    while j < n
        invariant
            j <= n,
            cols@.len() == j,
            forall|c: int| 0 <= c < j ==> (#[trigger] cols@[c])@.len() == 0,
        decreases n - j,
    {
        cols.push(Vec::new());
        j = j + 1;
    }
    let mut i: usize = 0;
    proof {
        m.lemma_rows();
    }
    while i < n
        invariant
            i <= n,
            n == m.spec_dim(),
            m.wf(),
            cols@.len() == n,
            forall|r: int|
                0 <= r < n ==> increasing(#[trigger] m.entries(r)) && columns_below(
                    m.entries(r),
                    n as int,
                ),
            forall|c: int|
                0 <= c < n ==> increasing(#[trigger] cols@[c]@) && columns_below(
                    cols@[c]@,
                    i as int,
                ),
            forall|r: int, c: int|
                0 <= r < i && 0 <= c < n ==> #[trigger] row_has(cols@[c]@, r) == m.has(r, c),
            forall|r: int, c: int|
                0 <= r < i && 0 <= c < n ==> #[trigger] row_value(cols@[c]@, r) == m.value(r, c),
            forall|c: int| 0 <= c < n ==> (#[trigger] cols@[c])@ == column_upto(m, c, i as nat),
        decreases n - i,
    {
        let row = m.row(i);
        let mut k: usize = 0;
        let ghost before = cols@;
        while k < row.len()
            invariant
                i < n,
                n == m.spec_dim(),
                k <= row@.len(),
                row@ == m.entries(i as int),
                increasing(row@),
                columns_below(row@, n as int),
                cols@.len() == n,
                before.len() == n,
                forall|c: int|
                    0 <= c < n ==> columns_below(#[trigger] before[c]@, i as int) && increasing(
                        before[c]@,
                    ),
                forall|c: int|
                    #![trigger cols@[c]]
                    0 <= c < n ==> (if row_has(row@.take(k as int), c) {
                        cols@[c]@ == before[c]@.push((i, row_value(row@, c)))
                    } else {
                        cols@[c]@ == before[c]@
                    }),
            decreases row@.len() - k,
        {
            let (c, v): (usize, S) = row[k];
            let ghost mid = cols@;
            proof {
                lemma_row_pos(row@, k as int);
                assert(!row_has(row@.take(k as int), c as int)) by {
                    if row_has(row@.take(k as int), c as int) {
                        let q = row_pos(row@.take(k as int), c as int);
                        assert(row@[q].0 < row@[k as int].0);
                    }
                }
                assert(mid[c as int]@ == before[c as int]@);
            }
            cols[c].push((i, v));
            proof {
                assert forall|d: int|
                    #![trigger cols@[d]]
                    0 <= d < n implies (if row_has(row@.take(k + 1), d) {
                    cols@[d]@ == before[d]@.push((i, row_value(row@, d)))
                } else {
                    cols@[d]@ == before[d]@
                }) by {
                    let t0 = row@.take(k as int);
                    let t1 = row@.take(k + 1);
                    if d == c {
                        assert(t1[k as int].0 == d);
                    } else {
                        assert(cols@[d]@ == mid[d]@);
                        if row_has(t1, d) {
                            let q = row_pos(t1, d);
                            assert(t1[q].0 == d);
                            assert(t0[q].0 == d);
                        }
                        if row_has(t0, d) {
                            let q = row_pos(t0, d);
                            assert(t1[q].0 == d);
                        }
                    }
                }
            }
            k = k + 1;
        }
        proof {
            assert(row@.take(row@.len() as int) =~= row@);
            assert forall|c: int| 0 <= c < n implies (#[trigger] cols@[c])@ == column_upto(
                m,
                c,
                (i + 1) as nat,
            ) by {
                assert(before[c]@ == column_upto(m, c, i as nat));
            }
            assert forall|c: int| 0 <= c < n implies increasing(#[trigger] cols@[c]@)
                && columns_below(cols@[c]@, i + 1) && (forall|r: int|
                0 <= r <= i ==> #[trigger] row_has(cols@[c]@, r) == m.has(r, c)) && (forall|r: int|
                0 <= r <= i ==> #[trigger] row_value(cols@[c]@, r) == m.value(r, c)) by {
                let b = before[c]@;
                assert(!row_has(b, i as int)) by {
                    if row_has(b, i as int) {
                        assert(b[row_pos(b, i as int)].0 < i);
                    }
                }
                if row_has(row@, c) {
                    let v = row_value(row@, c);
                    assert(b.push((i, v)) =~= b.insert(b.len() as int, (i, v)));
                    lemma_row_insert(b, b.len() as int, i, v);
                    assert(columns_below(b.insert(b.len() as int, (i, v)), i + 1)) by {
                        assert(columns_below(b, i + 1));
                    }
                }
                assert forall|r: int| 0 <= r <= i implies #[trigger] row_has(cols@[c]@, r)
                    == m.has(r, c) by {
                    if r < i {
                        assert(row_has(b, r) == m.has(r, c));
                    }
                }
                assert forall|r: int| 0 <= r <= i implies #[trigger] row_value(cols@[c]@, r)
                    == m.value(r, c) by {
                    if r < i {
                        assert(row_value(b, r) == m.value(r, c));
                    }
                }
            }
        }
        i = i + 1;
    }
    cols
}

} // verus!
