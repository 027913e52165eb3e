//! Right-looking elimination that picks both the column and the row of every
//! pivot by the values at hand.
use vstd::prelude::*;

use crate::scalar::Scalar;
use crate::sparse::active::{no_zeros, Active};
use crate::sparse::matrix::{
    columns_below, find_col, increasing, lemma_row_insert, lemma_row_pos, row_has, row_pos,
    row_value,
};
use crate::sparse::pivoting::{lemma_row_of, which};

verus! {

/// The number at column `j` after `factor` times the pivot row was taken off.
pub open spec fn merged_value<S: Scalar>(
    row: Seq<(usize, S)>,
    piv: Seq<(usize, S)>,
    factor: S,
    j: int,
) -> S {
    if row_has(piv, j) {
        row_value(row, j).spec_minus(factor.spec_times(row_value(piv, j)))
    } else {
        row_value(row, j)
    }
}

/// Column `j` is stored after the merge: it occurs in either row, is not the
/// pivot column and does not cancel.
pub open spec fn merged_has<S: Scalar>(
    row: Seq<(usize, S)>,
    piv: Seq<(usize, S)>,
    pc: usize,
    factor: S,
    j: int,
) -> bool {
    &&& j != pc
    &&& row_has(row, j) || row_has(piv, j)
    &&& !merged_value(row, piv, factor, j).spec_is_zero()
}

/// `new` is `row` with `factor` times `piv` taken off and the pivot column gone,
/// as far as columns below `lim` go.
pub open spec fn is_merged<S: Scalar>(
    new: Seq<(usize, S)>,
    row: Seq<(usize, S)>,
    piv: Seq<(usize, S)>,
    pc: usize,
    factor: S,
    lim: int,
) -> bool {
    &&& increasing(new)
    &&& columns_below(new, lim)
    &&& no_zeros(new)
    &&& forall|j: int|
        j < lim ==> (#[trigger] row_has(new, j) <==> merged_has(row, piv, pc, factor, j))
    &&& forall|j: int|
        j < lim && row_has(new, j) ==> #[trigger] row_value(new, j) == merged_value(
            row,
            piv,
            factor,
            j,
        )
}

proof fn lemma_next_column<S: Scalar>(row: Seq<(usize, S)>, a: int, lim: int, c: int)
    requires
        increasing(row),
        0 <= a <= row.len(),
        a < row.len() ==> row[a].0 >= c,
        forall|k: int| 0 <= k < a ==> (#[trigger] row[k]).0 < lim,
        lim <= c,
    ensures
        row_has(row, c) <==> (a < row.len() && row[a].0 == c),
        a < row.len() && row[a].0 == c ==> row_value(row, c) == row[a].1,
        forall|j: int| lim <= j < c ==> !#[trigger] row_has(row, j),
{
    assert forall|j: int| lim <= j <= c && #[trigger] row_has(row, j) implies a < row.len()
        && row[a].0 == j by {
        let k = row_pos(row, j);
        assert(row[k].0 == j);
        if k < a {
        } else if k > a {
            assert(row[a].0 < row[k].0);
        }
    }
    if a < row.len() && row[a].0 == c {
        lemma_row_pos(row, a);
    }
}

/// `row` with `factor` times the pivot row `piv` taken off and the pivot column
/// dropped, and the columns that are newly listed by it.
fn merge_rows<S: Scalar>(
    row: &Vec<(usize, S)>,
    piv: &Vec<(usize, S)>,
    pc: usize,
    factor: S,
    n: usize,
) -> (r: (Vec<(usize, S)>, Vec<usize>))
    requires
        increasing(row@),
        increasing(piv@),
        columns_below(row@, n as int),
        columns_below(piv@, n as int),
    ensures
        is_merged(r.0@, row@, piv@, pc, factor, n as int),
        forall|k: int| 0 <= k < r.1@.len() ==> (#[trigger] r.1@[k]) < n,
        forall|a: int, b: int| 0 <= a < b < r.1@.len() ==> #[trigger] r.1@[a] < #[trigger] r.1@[b],
        forall|j: usize|
            j < n ==> (#[trigger] r.1@.contains(j) <==> row_has(piv@, j as int) && !row_has(
                row@,
                j as int,
            )),
{
    let mut new: Vec<(usize, S)> = Vec::new();
    let mut fills: Vec<usize> = Vec::new();
    let mut a: usize = 0;
    let mut b: usize = 0;
    let ghost mut lim: int = 0;
    proof {
        assert forall|j: int| j < 0 implies !#[trigger] row_has(row@, j) && !row_has(
            piv@,
            j,
        ) && !row_has(new@, j) by {}
    }
    while a < row.len() || b < piv.len()
        invariant
            a <= row@.len(),
            b <= piv@.len(),
            0 <= lim <= n,
            increasing(row@),
            increasing(piv@),
            columns_below(row@, n as int),
            columns_below(piv@, n as int),
            a < row@.len() ==> row@[a as int].0 >= lim,
            b < piv@.len() ==> piv@[b as int].0 >= lim,
            forall|k: int| 0 <= k < a ==> (#[trigger] row@[k]).0 < lim,
            forall|k: int| 0 <= k < b ==> (#[trigger] piv@[k]).0 < lim,
            is_merged(new@, row@, piv@, pc, factor, lim),
            forall|k: int| 0 <= k < fills@.len() ==> (#[trigger] fills@[k]) < lim,
            forall|a: int, b: int|
                0 <= a < b < fills@.len() ==> #[trigger] fills@[a] < #[trigger] fills@[b],
            forall|j: usize|
                j < lim ==> (#[trigger] fills@.contains(j) <==> row_has(piv@, j as int)
                    && !row_has(row@, j as int)),
        decreases row@.len() - a + piv@.len() - b,
    {
        let take_row: bool = a < row.len() && (b >= piv.len() || row[a].0 <= piv[b].0);
        let take_piv: bool = b < piv.len() && (a >= row.len() || piv[b].0 <= row[a].0);
        let c: usize = if take_row { row[a].0 } else { piv[b].0 };
        proof {
            lemma_next_column(row@, a as int, lim, c as int);
            lemma_next_column(piv@, b as int, lim, c as int);
        }
        let before: S = if take_row { row[a].1 } else { S::zero() };
        let v: S = if take_piv { before.minus(factor.times(piv[b].1)) } else { before };
        let ghost new1 = new@;
        let ghost fills1 = fills@;
        proof {
            assert(v == merged_value(row@, piv@, factor, c as int));
            assert(!row_has(new@, c as int)) by {
                if row_has(new@, c as int) {
                    assert(new@[row_pos(new@, c as int)].0 < lim);
                }
            }
            lemma_row_insert(new@, new@.len() as int, c, v);
            assert(new@.push((c, v)) =~= new@.insert(new@.len() as int, (c, v)));
        }
        if c != pc && !v.is_zero() {
            new.push((c, v));
        }
        if take_piv && !take_row {
            fills.push(c);
        }
        if take_row {
            a = a + 1;
        }
        if take_piv {
            b = b + 1;
        }
        proof {
            assert forall|j: int| j < c + 1 implies (#[trigger] row_has(new@, j) <==> merged_has(
                row@,
                piv@,
                pc,
                factor,
                j,
            )) by {
                if j < lim {
                    assert(row_has(new1, j) <==> merged_has(row@, piv@, pc, factor, j));
                } else if j < c {
                    if row_has(new1, j) {
                        assert(new1[row_pos(new1, j)].0 < lim);
                    }
                }
            }
            assert forall|j: int| j < c + 1 && row_has(new@, j) implies #[trigger] row_value(
                new@,
                j,
            ) == merged_value(row@, piv@, factor, j) by {
                if j < c {
                    assert(row_has(new1, j));
                    if j >= lim {
                        assert(new1[row_pos(new1, j)].0 < lim);
                    }
                }
            }
            assert forall|j: usize| j < c + 1 implies (#[trigger] fills@.contains(j) <==> row_has(
                piv@,
                j as int,
            ) && !row_has(row@, j as int)) by {
                if fills1.contains(j) {
                    let k = choose|k: int| 0 <= k < fills1.len() && fills1[k] == j;
                    assert(fills@[k] == j);
                }
                if fills@.contains(j) {
                    let k = choose|k: int| 0 <= k < fills@.len() && fills@[k] == j;
                    if k < fills1.len() {
                        assert(fills1[k] == j);
                        assert(j < lim);
                    }
                }
                if j == c && take_piv && !take_row {
                    assert(fills@[fills1.len() as int] == c);
                }
            }
            assert(columns_below(new@, c + 1));
            assert(no_zeros(new@));
            lim = c + 1;
        }
    }
    proof {
        assert forall|j: int| lim <= j < n implies !row_has(row@, j) && !row_has(piv@, j)
            && !row_has(new@, j) by {
            if row_has(row@, j) {
                assert(row@[row_pos(row@, j)].0 < lim);
            }
            if row_has(piv@, j) {
                assert(piv@[row_pos(piv@, j)].0 < lim);
            }
            if row_has(new@, j) {
                assert(new@[row_pos(new@, j)].0 < lim);
            }
        }
        assert forall|j: int| j < n implies (#[trigger] row_has(new@, j) <==> merged_has(
            row@,
            piv@,
            pc,
            factor,
            j,
        )) by {}
        assert(is_merged(new@, row@, piv@, pc, factor, n as int));
        assert forall|j: usize| j < n implies (#[trigger] fills@.contains(j) <==> row_has(
            piv@,
            j as int,
        ) && !row_has(row@, j as int)) by {
            if fills@.contains(j) {
                let k = choose|k: int| 0 <= k < fills@.len() && fills@[k] == j;
                assert(fills@[k] < lim);
            }
        }
    }
    (new, fills)
}

/// The pivot row without the pivot column and the columns already eliminated.
fn pivot_tail<S: Scalar>(row: &Vec<(usize, S)>, pc: usize, gone: &Vec<bool>) -> (r: Vec<
    (usize, S),
>)
    requires
        increasing(row@),
        columns_below(row@, gone@.len() as int),
    ensures
        increasing(r@),
        columns_below(r@, gone@.len() as int),
        forall|j: int|
            0 <= j < gone@.len() ==> (#[trigger] row_has(r@, j) <==> row_has(row@, j) && j != pc
                && !gone@[j]),
        forall|j: int|
            0 <= j < gone@.len() && row_has(r@, j) ==> #[trigger] row_value(r@, j) == row_value(
                row@,
                j,
            ),
{
    let mut r: Vec<(usize, S)> = Vec::new();
    let mut k: usize = 0;
    while k < row.len()
        invariant
            k <= row@.len(),
            increasing(row@),
            columns_below(row@, gone@.len() as int),
            increasing(r@),
            columns_below(r@, gone@.len() as int),
            forall|q: int, p: int|
                0 <= q < r@.len() && k <= p < row@.len() ==> (#[trigger] r@[q]).0 < (
                #[trigger] row@[p]).0,
            forall|j: int|
                0 <= j < gone@.len() ==> (#[trigger] row_has(r@, j) <==> row_has(
                    row@.take(k as int),
                    j,
                ) && j != pc && !gone@[j]),
            forall|j: int|
                0 <= j < gone@.len() && row_has(r@, j) ==> #[trigger] row_value(r@, j)
                    == row_value(row@, j),
        decreases row@.len() - k,
    {
        let (c, v): (usize, S) = row[k];
        let ghost r1 = r@;
        proof {
            lemma_row_pos(row@, k as int);
            assert(!row_has(r@, c as int)) by {
                if row_has(r@, c as int) {
                    assert(r@[row_pos(r@, c as int)].0 < row@[k as int].0);
                }
            }
            lemma_row_insert(r@, r@.len() as int, c, v);
            assert(r@.push((c, v)) =~= r@.insert(r@.len() as int, (c, v)));
        }
        if c != pc && !gone[c] {
            r.push((c, v));
        }
        proof {
            let t0 = row@.take(k as int);
            let t1 = row@.take(k + 1);
            assert forall|j: int| 0 <= j < gone@.len() implies (#[trigger] row_has(r@, j)
                <==> row_has(t1, j) && j != pc && !gone@[j]) by {
                assert(row_has(r1, j) <==> row_has(t0, j) && j != pc && !gone@[j]);
                if row_has(t0, j) {
                    assert(t1[row_pos(t0, j)].0 == j);
                }
                if row_has(t1, j) && j != c {
                    let p = row_pos(t1, j);
                    assert(t1[p].0 == j);
                    assert(t0[p].0 == j);
                }
                if j == c {
                    assert(t1[k as int].0 == j);
                }
            }
        }
        k = k + 1;
    }
    proof {
        assert(row@.take(row@.len() as int) =~= row@);
    }
    r
}

/// What one elimination step did: the new rows, and the column of L and the row
/// of U it produced.
pub open spec fn step_taken<S: Scalar>(
    a: &Active<S>,
    b: &Active<S>,
    n: nat,
    pr: usize,
    pc: usize,
    lcol: Seq<(usize, S)>,
    urow: Seq<(usize, S)>,
) -> bool {
    let pivot = row_value(a.row@[pr as int]@, pc as int);
    &&& b.row_gone@ == a.row_gone@.update(pr as int, true)
    &&& b.col_gone@ == a.col_gone@.update(pc as int, true)
    &&& increasing(lcol)
    &&& increasing(urow)
    &&& columns_below(lcol, n as int)
    &&& columns_below(urow, n as int)
    &&& forall|i: int|
        0 <= i < n ==> (#[trigger] row_has(lcol, i) <==> i != pr && !a.row_gone@[i] && row_has(
            a.row@[i]@,
            pc as int,
        ))
    &&& forall|i: int|
        0 <= i < n && row_has(lcol, i) ==> #[trigger] row_value(lcol, i) == row_value(
            a.row@[i]@,
            pc as int,
        ).spec_over(pivot)
    &&& forall|j: int|
        0 <= j < n ==> (#[trigger] row_has(urow, j) <==> row_has(a.row@[pr as int]@, j) && j != pc
            && !a.col_gone@[j])
    &&& forall|j: int|
        0 <= j < n && row_has(urow, j) ==> #[trigger] row_value(urow, j) == row_value(
            a.row@[pr as int]@,
            j,
        )
    &&& forall|i: int|
        #![trigger b.row@[i]]
        0 <= i < n ==> if row_has(lcol, i) {
            is_merged(
                b.row@[i]@,
                a.row@[i]@,
                urow,
                pc,
                row_value(a.row@[i]@, pc as int).spec_over(pivot),
                n as int,
            )
        } else {
            b.row@[i]@ == a.row@[i]@
        }
}

/// Eliminate the pivot `(pr, pc)` from every other live row.
pub fn eliminate_pivot<S: Scalar>(a: &mut Active<S>, n: usize, pr: usize, pc: usize) -> (r: (
    Vec<(usize, S)>,
    Vec<(usize, S)>,
))
    requires
        old(a).wf(n as nat),
        pr < n,
        pc < n,
        !old(a).row_gone@[pr as int],
        !old(a).col_gone@[pc as int],
        row_has(old(a).row@[pr as int]@, pc as int),
    ensures
        final(a).wf(n as nat),
        step_taken(old(a), final(a), n as nat, pr, pc, r.0@, r.1@),
        final(a)@ == old(a)@.eliminated(pr, pc, n as nat),
        r.0@ == old(a)@.lower(pr, pc, n as nat),
        r.1@ == old(a)@.upper(pr, pc, n as nat),
{
    let ghost a0 = *a;
    let pivot: S = match find_col(&a.row[pr], pc) {
        Ok(k) => a.row[pr][k].1,
        Err(_) => S::zero(),
    };
    assert(pivot == row_value(a0.row@[pr as int]@, pc as int));
    let urow: Vec<(usize, S)> = pivot_tail(&a.row[pr], pc, &a.col_gone);
    proof {
        lemma_row_of(
            urow@,
            a0@.beside(pr, pc),
            |j: int| row_value(a0@.row[pr as int], j),
            n as nat,
        );
    }
    a.row_gone.set(pr, true);
    a.col_gone.set(pc, true);
    let mut lcol: Vec<(usize, S)> = Vec::new();
    let mut i: usize = 0;
    while i < n
        invariant
            i <= n,
            pr < n,
            pc < n,
            a0.wf(n as nat),
            a.wf(n as nat),
            !a0.row_gone@[pr as int],
            pivot == row_value(a0.row@[pr as int]@, pc as int),
            a.row_gone@ == a0.row_gone@.update(pr as int, true),
            a.col_gone@ == a0.col_gone@.update(pc as int, true),
            increasing(urow@),
            columns_below(urow@, n as int),
            forall|j: int|
                0 <= j < n ==> (#[trigger] row_has(urow@, j) <==> row_has(
                    a0.row@[pr as int]@,
                    j,
                ) && j != pc && !a0.col_gone@[j]),
            forall|j: int|
                0 <= j < n && row_has(urow@, j) ==> #[trigger] row_value(urow@, j) == row_value(
                    a0.row@[pr as int]@,
                    j,
                ),
            increasing(lcol@),
            columns_below(lcol@, i as int),
            forall|r: int|
                0 <= r < i ==> (#[trigger] row_has(lcol@, r) <==> r != pr && !a0.row_gone@[r]
                    && row_has(a0.row@[r]@, pc as int)),
            forall|r: int|
                0 <= r < i && row_has(lcol@, r) ==> #[trigger] row_value(lcol@, r) == row_value(
                    a0.row@[r]@,
                    pc as int,
                ).spec_over(pivot),
            forall|r: int|
                #![trigger a.row@[r]]
                0 <= r < i ==> if row_has(lcol@, r) {
                    is_merged(
                        a.row@[r]@,
                        a0.row@[r]@,
                        urow@,
                        pc,
                        row_value(a0.row@[r]@, pc as int).spec_over(pivot),
                        n as int,
                    )
                } else {
                    a.row@[r]@ == a0.row@[r]@
                },
            forall|r: int| i <= r < n ==> #[trigger] a.row@[r] == a0.row@[r],
            urow@ == a0@.upper(pr, pc, n as nat),
            forall|j: usize|
                j < n ==> (#[trigger] a.col@[j as int])@ == a0.col@[j as int]@ + which(
                    a0@.filled(pr, pc, n as nat, j as int),
                    i as nat,
                ),
        decreases n - i,
    {
        let ghost lcol1 = lcol@;
        let ghost a1 = *a;
        assert(increasing(a.row@[i as int]@) && columns_below(a.row@[i as int]@, n as int));
        assert(!row_has(lcol@, i as int)) by {
            if row_has(lcol@, i as int) {
                assert(lcol@[row_pos(lcol@, i as int)].0 < i);
            }
        }
        let mut found: Option<usize> = None;
        if !a.row_gone[i] {
            match find_col(&a.row[i], pc) {
                Ok(k) => {
                    found = Some(k);
                },
                Err(_) => {},
            }
        }
        match found {
            Some(k) => {
                let factor: S = a.row[i][k].1.over(pivot);
                let (new, fills) = merge_rows(&a.row[i], &urow, pc, factor, n);
                proof {
                    lemma_row_insert(lcol@, lcol@.len() as int, i, factor);
                    assert(lcol@.push((i, factor)) =~= lcol@.insert(
                        lcol@.len() as int,
                        (i, factor),
                    ));
                    assert(columns_below(lcol@, i + 1));
                }
                lcol.push((i, factor));
                list_fills(&mut a.col, &fills, i, n);
                let ghost col2 = a.col@;
                a.row.set(i, new);
                proof {
                    assert(a1.row@[i as int] == a0.row@[i as int]);
                    assert forall|j: usize| j < n implies (#[trigger] a.col@[j as int])@
                        == a0.col@[j as int]@ + which(
                        a0@.filled(pr, pc, n as nat, j as int),
                        (i + 1) as nat,
                    ) by {
                        let has = a0@.filled(pr, pc, n as nat, j as int);
                        assert(a1.col@[j as int]@ == a0.col@[j as int]@ + which(has, i as nat));
                        assert(has(i as int) == fills@.contains(j));
                        assert(a.col@[j as int]@ =~= a0.col@[j as int]@ + which(
                            has,
                            (i + 1) as nat,
                        ));
                    }
                    assert forall|j: int, q: int| 0 <= j < n && 0 <= q < a.col@[j]@.len() implies (
                    #[trigger] a.col@[j]@[q]) < n by {
                        let jj = j as usize;
                        assert(a.col@[jj as int]@.len() >= a1.col@[jj as int]@.len());
                        if q < a1.col@[j]@.len() {
                            assert(a.col@[j]@[q] == a1.col@[j]@[q]);
                        }
                    }
                    assert forall|j: int, r: usize| 0 <= j < n && a1.col@[j]@.contains(
                        r,
                    ) implies #[trigger] a.col@[j]@.contains(r) by {
                        let jj = j as usize;
                        let q = choose|q: int| 0 <= q < a1.col@[j]@.len() && a1.col@[j]@[q] == r;
                        assert(a.col@[jj as int]@.len() >= a1.col@[jj as int]@.len());
                        assert(a.col@[j]@[q] == r);
                    }
                    assert(a.wf(n as nat)) by {
                        assert forall|r: int| 0 <= r < n implies increasing(#[trigger] a.row@[r]@)
                            && columns_below(a.row@[r]@, n as int) && no_zeros(a.row@[r]@) by {
                            if r != i {
                                assert(a.row@[r] == a1.row@[r]);
                            }
                        }
                        assert forall|r: usize, j: int|
                            r < n && 0 <= j < n && #[trigger] row_has(
                                a.row@[r as int]@,
                                j,
                            ) implies a.col@[j]@.contains(r) by {
                            if r != i {
                                assert(a.row@[r as int] == a1.row@[r as int]);
                                assert(a1.col@[j]@.contains(r));
                            } else {
                                assert(merged_has(a1.row@[i as int]@, urow@, pc, factor, j));
                                if row_has(a1.row@[i as int]@, j) {
                                    assert(row_has(a1.row@[r as int]@, j));
                                    assert(a1.col@[j]@.contains(i));
                                } else {
                                    let jj = j as usize;
                                    assert(fills@.contains(jj));
                                    let at = a1.col@[j]@.len() as int;
                                    assert(a.col@[jj as int]@ == a1.col@[jj as int]@.push(i));
                                    assert(a.col@[j]@[at] == i);
                                }
                            }
                        }
                    }
                }
            },
            None => {
                proof {
                    assert(a1.row@[i as int] == a0.row@[i as int]);
                    assert forall|j: usize| j < n implies (#[trigger] a.col@[j as int])@
                        == a0.col@[j as int]@ + which(
                        a0@.filled(pr, pc, n as nat, j as int),
                        (i + 1) as nat,
                    ) by {
                        assert(!a0@.filled(pr, pc, n as nat, j as int)(i as int));
                    }
                }
            },
        }
        proof {
            assert forall|r: int| 0 <= r < i + 1 implies (#[trigger] row_has(lcol@, r) <==> r
                != pr && !a0.row_gone@[r] && row_has(a0.row@[r]@, pc as int)) by {
                if r < i {
                    assert(row_has(lcol1, r) == row_has(lcol@, r));
                } else {
                    assert(a1.row@[r] == a0.row@[r]);
                }
            }
            assert forall|r: int| 0 <= r < i + 1 && row_has(lcol@, r) implies #[trigger] row_value(
                lcol@,
                r,
            ) == row_value(a0.row@[r]@, pc as int).spec_over(pivot) by {
                if r < i {
                    assert(row_value(lcol1, r) == row_value(lcol@, r));
                } else {
                    assert(a1.row@[r] == a0.row@[r]);
                }
            }
            assert forall|r: int|
                #![trigger a.row@[r]]
                0 <= r < i + 1 implies if row_has(lcol@, r) {
                is_merged(
                    a.row@[r]@,
                    a0.row@[r]@,
                    urow@,
                    pc,
                    row_value(a0.row@[r]@, pc as int).spec_over(pivot),
                    n as int,
                )
            } else {
                a.row@[r]@ == a0.row@[r]@
            } by {
                if r < i {
                    assert(a.row@[r] == a1.row@[r]);
                    assert(row_has(lcol1, r) == row_has(lcol@, r));
                } else {
                    assert(a1.row@[r] == a0.row@[r]);
                }
            }
            assert forall|r: int| i + 1 <= r < n implies #[trigger] a.row@[r] == a0.row@[r] by {
                assert(a.row@[r] == a1.row@[r]);
            }
        }
        i = i + 1;
    }
    proof {
        assert(step_taken(&a0, a, n as nat, pr, pc, lcol@, urow@));
        lemma_row_of(
            lcol@,
            a0@.below(pr, pc),
            |r: int| a0@.factor(pr, pc, r),
            n as nat,
        );
        let want = a0@.eliminated(pr, pc, n as nat);
        assert forall|r: int| 0 <= r < n implies #[trigger] a@.row[r] == want.row[r] by {
            assert(a@.row[r] == a.row@[r]@);
            assert(row_has(lcol@, r) == a0@.below(pr, pc)(r));
            if row_has(lcol@, r) {
                let f = a0@.factor(pr, pc, r);
                lemma_row_of(
                    a.row@[r]@,
                    |j: int| merged_has(a0@.row[r], urow@, pc, f, j),
                    |j: int| merged_value(a0@.row[r], urow@, f, j),
                    n as nat,
                );
            }
        }
        assert(a@.row =~= want.row);
        assert forall|j: int| 0 <= j < n implies #[trigger] a@.col[j] == want.col[j] by {
            let jj = j as usize;
            assert(a.col@[jj as int]@ == a0.col@[jj as int]@ + which(
                a0@.filled(pr, pc, n as nat, jj as int),
                n as nat,
            ));
        }
        assert(a@.col =~= want.col);
        assert(a@.row_gone =~= want.row_gone);
        assert(a@.col_gone =~= want.col_gone);
    }
    (lcol, urow)
}

/// List row `i` in every column of `fills`.
fn list_fills(col: &mut Vec<Vec<usize>>, fills: &Vec<usize>, i: usize, n: usize)
    requires
        old(col)@.len() == n,
        i < n,
        forall|k: int| 0 <= k < fills@.len() ==> (#[trigger] fills@[k]) < n,
        forall|a: int, b: int|
            0 <= a < b < fills@.len() ==> #[trigger] fills@[a] < #[trigger] fills@[b],
    ensures
        final(col)@.len() == n,
        forall|j: usize|
            j < n ==> (#[trigger] final(col)@[j as int])@ == if fills@.contains(j) {
                old(col)@[j as int]@.push(i)
            } else {
                old(col)@[j as int]@
            },
{
    let ghost col0 = col@;
    let mut k: usize = 0;
    while k < fills.len()
        invariant
            k <= fills@.len(),
            i < n,
            col@.len() == n,
            col0.len() == n,
            forall|k: int| 0 <= k < fills@.len() ==> (#[trigger] fills@[k]) < n,
            forall|a: int, b: int|
                0 <= a < b < fills@.len() ==> #[trigger] fills@[a] < #[trigger] fills@[b],
            forall|j: usize|
                j < n ==> (#[trigger] col@[j as int])@ == if fills@.take(k as int).contains(j) {
                    col0[j as int]@.push(i)
                } else {
                    col0[j as int]@
                },
        decreases fills@.len() - k,
    {
        let c: usize = fills[k];
        let ghost col1 = col@;
        let ghost done = fills@.take(k as int);
        let ghost next = fills@.take(k + 1);
        assert(!done.contains(c)) by {
            if done.contains(c) {
                let q = choose|q: int| 0 <= q < done.len() && done[q] == c;
                assert(fills@[q] < fills@[k as int]);
            }
        }
        assert(col1[c as int]@ == col0[c as int]@);
        col[c].push(i);
        proof {
            assert forall|j: usize| j < n implies (#[trigger] col@[j as int])@ == if next.contains(
                j,
            ) {
                col0[j as int]@.push(i)
            } else {
                col0[j as int]@
            } by {
                assert(next[k as int] == c);
                if done.contains(j) {
                    let q = choose|q: int| 0 <= q < done.len() && done[q] == j;
                    assert(next[q] == j);
                }
                if next.contains(j) && j != c {
                    let q = choose|q: int| 0 <= q < next.len() && next[q] == j;
                    assert(done[q] == j);
                }
                if j != c {
                    assert(col@[j as int] == col1[j as int]);
                }
            }
        }
        k = k + 1;
    }
    assert(fills@.take(fills@.len() as int) =~= fills@);
}

} // verus!
