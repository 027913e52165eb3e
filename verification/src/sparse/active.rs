//! The remaining submatrix of a right-looking elimination, its pivot search and
//! one elimination step.
use vstd::prelude::*;

use crate::scalar::{tenth, Scalar};
use crate::sparse::matrix::{
    columns_below, find_col, increasing, lemma_row_insert, row_has, row_pos, row_value,
    SparseMatrix,
};
use crate::sparse::pivoting::{
    best_pivot, candidates, considered_rows, lemma_place, lemma_row_of, markowitz,
    nonzero_in_column, nonzero_in_row, row_of, scanned, search_order, sooner, which, Pick,
    Remaining,
};
use crate::sparse::triangular::columns;

verus! {

/// The rows still to be eliminated with their nonzero values, and for each column
/// the rows that may hold it.
pub struct Active<S> {
    pub row: Vec<Vec<(usize, S)>>,
    pub col: Vec<Vec<usize>>,
    pub row_gone: Vec<bool>,
    pub col_gone: Vec<bool>,
}

impl<S> View for Active<S> {
    type V = Remaining<S>;

    open spec fn view(&self) -> Remaining<S> {
        Remaining {
            row: columns(self.row@),
            col: Seq::new(self.col@.len(), |j: int| self.col@[j]@),
            row_gone: self.row_gone@,
            col_gone: self.col_gone@,
        }
    }
}

/// No stored number of the row is zero.
pub open spec fn no_zeros<S: Scalar>(row: Seq<(usize, S)>) -> bool {
    forall|k: int| 0 <= k < row.len() ==> !(#[trigger] row[k]).1.spec_is_zero()
}

impl<S: Scalar> Active<S> {
    /// Rows are sorted and free of zeros; every live entry is listed by its column.
    pub open spec fn wf(&self, n: nat) -> bool {
        &&& self.row@.len() == n
        &&& self.col@.len() == n
        &&& self.row_gone@.len() == n
        &&& self.col_gone@.len() == n
        &&& forall|i: int|
            0 <= i < n ==> increasing(#[trigger] self.row@[i]@) && columns_below(
                self.row@[i]@,
                n as int,
            ) && no_zeros(self.row@[i]@)
        &&& forall|j: int, k: int|
            0 <= j < n && 0 <= k < self.col@[j]@.len() ==> (#[trigger] self.col@[j]@[k]) < n
        &&& forall|i: usize, j: int|
            i < n && 0 <= j < n && #[trigger] row_has(self.row@[i as int]@, j)
                ==> self.col@[j]@.contains(i)
    }

    /// What is left of the matrix at `(i, j)`.
    pub open spec fn left(&self, i: int, j: int) -> S {
        if self.row_gone@[i] || self.col_gone@[j] {
            S::spec_zero()
        } else {
            row_value(self.row@[i]@, j)
        }
    }
}

/// The columns that may be pivoted on, in search order.
fn order_columns<S: Scalar>(a: &Active<S>, n: usize) -> (cols: Vec<usize>)
    requires
        a.wf(n as nat),
    ensures
        cols@ == candidates(a@, n as nat),
        search_order(a@, cols@),
{
    let mut cols: Vec<usize> = Vec::new();
    let mut c: usize = 0;
    while c < n
        invariant
            c <= n,
            a.wf(n as nat),
            cols@ == candidates(a@, c as nat),
            forall|j: int, k: int|
                0 <= j < k < cols@.len() ==> sooner(a@, #[trigger] cols@[j], #[trigger] cols@[k]),
            forall|k: int|
                0 <= k < cols@.len() ==> a@.open_column((#[trigger] cols@[k]) as int) && cols@[k]
                    < c,
            forall|d: usize| d < c && a@.open_column(d as int) ==> cols@.contains(d),
        decreases n - c,
    {
        let len: usize = a.col[c].len();
        if !a.col_gone[c] && len > 0 {
            let mut lo: usize = 0;
            let mut hi: usize = cols.len();
            while lo < hi
                invariant
                    c < n,
                    a.wf(n as nat),
                    len == a.col@[c as int]@.len(),
                    lo <= hi <= cols@.len(),
                    forall|k: int| 0 <= k < cols@.len() ==> (#[trigger] cols@[k]) < c,
                    forall|j: int, k: int|
                        0 <= j < k < cols@.len() ==> sooner(
                            a@,
                            #[trigger] cols@[j],
                            #[trigger] cols@[k],
                        ),
                    forall|k: int|
                        0 <= k < lo ==> a.col@[(#[trigger] cols@[k]) as int]@.len() <= len,
                    forall|k: int|
                        hi <= k < cols@.len() ==> a.col@[(#[trigger] cols@[k]) as int]@.len()
                            > len,
                decreases hi - lo,
            {
                let mid: usize = lo + (hi - lo) / 2;
                if a.col[cols[mid]].len() <= len {
                    lo = mid + 1;
                } else {
                    hi = mid;
                }
            }
            let ghost before = cols@;
            cols.insert(lo, c);
            proof {
                lemma_place(a@, before, len as nat, before.len(), lo as nat);
                assert(cols@ =~= before.insert(lo as int, c));
                assert forall|j: int, k: int| 0 <= j < k < cols@.len() implies sooner(
                    a@,
                    #[trigger] cols@[j],
                    #[trigger] cols@[k],
                ) by {
                    let x = if j < lo { before[j] } else if j == lo { c } else { before[j - 1] };
                    let y = if k < lo { before[k] } else if k == lo { c } else { before[k - 1] };
                    assert(cols@[j] == x && cols@[k] == y);
                }
                assert forall|k: int| 0 <= k < cols@.len() implies a@.open_column(
                    (#[trigger] cols@[k]) as int,
                ) && cols@[k] < c + 1 by {
                    let y = if k < lo { before[k] } else if k == lo { c } else { before[k - 1] };
                    assert(cols@[k] == y);
                }
                assert forall|d: usize| d < c + 1 && a@.open_column(d as int) implies cols@.contains(
                    d,
                ) by {
                    if d == c {
                        assert(cols@[lo as int] == c);
                    } else {
                        assert(before.contains(d));
                        let k = choose|k: int| 0 <= k < before.len() && before[k] == d;
                        assert(cols@[if k < lo { k } else { k + 1 }] == d);
                    }
                }
            }
        }
        c = c + 1;
    }
    proof {
        assert forall|d: usize| a@.open_column(d as int) implies cols@.contains(d) by {
            assert(d < n);
        }
    }
    cols
}

fn markowitz_count(row_len: usize, col_len: usize) -> (r: usize)
    ensures
        r == markowitz(row_len as nat, col_len as nat),
{
    let a: usize = if row_len > 0 { row_len - 1 } else { 0 };
    let b: usize = if col_len > 0 { col_len - 1 } else { 0 };
    match a.checked_mul(b) {
        Some(m) => m,
        None => usize::MAX,
    }
}

/// The value at column `c` of a row, if it stores one.
pub fn entry<S: Scalar>(row: &Vec<(usize, S)>, c: usize) -> (r: Option<S>)
    requires
        increasing(row@),
    ensures
        r == (if row_has(row@, c as int) {
            Some(row_value(row@, c as int))
        } else {
            None
        }),
{
    match find_col(row, c) {
        Ok(k) => Some(row[k].1),
        Err(_) => None,
    }
}

proof fn lemma_entry_nonzero<S: Scalar>(row: Seq<(usize, S)>, c: int)
    requires
        no_zeros(row),
        row_has(row, c),
    ensures
        !row_value(row, c).spec_is_zero(),
{
    let k = row_pos(row, c);
    assert(!row[k].1.spec_is_zero());
}

impl<S: Scalar> Active<S> {
    /// The live entries of `m`: its nonzero values.
    pub fn start(m: &SparseMatrix<S>) -> (a: Self)
        requires
            m.wf(),
        ensures
            a.wf(m.spec_dim()),
            forall|i: int| 0 <= i < m.spec_dim() ==> !#[trigger] a.row_gone@[i],
            forall|j: int| 0 <= j < m.spec_dim() ==> !#[trigger] a.col_gone@[j],
            a@ == Remaining::start(m),
            S::exact() ==> forall|i: int, j: int|
                0 <= i < m.spec_dim() && 0 <= j < m.spec_dim() ==> #[trigger] a.left(i, j)
                    == m.value(i, j),
    {
        let n: usize = m.dim();
        let mut row: Vec<Vec<(usize, S)>> = Vec::new();
        let mut col: Vec<Vec<usize>> = Vec::new();
        let mut row_gone: Vec<bool> = Vec::new();
        let mut col_gone: Vec<bool> = Vec::new();
        let mut j: usize = 0;
        while j < n
            invariant
                j <= n,
                col@.len() == j,
                row_gone@.len() == j,
                col_gone@.len() == j,
                forall|c: int| 0 <= c < j ==> (#[trigger] col@[c])@.len() == 0,
                forall|c: int| 0 <= c < j ==> !#[trigger] row_gone@[c],
                forall|c: int| 0 <= c < j ==> !#[trigger] col_gone@[c],
            decreases n - j,
        {
            col.push(Vec::new());
            row_gone.push(false);
            col_gone.push(false);
            j = j + 1;
        }
        proof {
            m.lemma_rows();
        }
        let mut i: usize = 0;
        while i < n
            invariant
                i <= n,
                n == m.spec_dim(),
                m.wf(),
                forall|r: int|
                    0 <= r < n ==> increasing(#[trigger] m.entries(r)) && columns_below(
                        m.entries(r),
                        n as int,
                    ),
                row@.len() == i,
                col@.len() == n,
                forall|r: int|
                    0 <= r < i ==> increasing(#[trigger] row@[r]@) && columns_below(
                        row@[r]@,
                        n as int,
                    ) && no_zeros(row@[r]@),
                forall|c: int, k: int|
                    0 <= c < n && 0 <= k < col@[c]@.len() ==> (#[trigger] col@[c]@[k]) < n,
                forall|r: usize, c: int|
                    r < i && 0 <= c < n && #[trigger] row_has(row@[r as int]@, c)
                        ==> col@[c]@.contains(r),
                forall|r: int|
                    0 <= r < i ==> (#[trigger] row@[r])@ == row_of(
                        nonzero_in_row(m, r),
                        |j: int| m.value(r, j),
                        n as nat,
                    ),
                forall|c: int|
                    0 <= c < n ==> (#[trigger] col@[c])@ == which(
                        nonzero_in_column(m, c),
                        i as nat,
                    ),
                S::exact() ==> forall|r: int, c: int|
                    0 <= r < i && 0 <= c < n ==> #[trigger] row_value(row@[r]@, c) == m.value(
                        r,
                        c,
                    ),
            decreases n - i,
        {
            let entries = m.row(i);
            let mut new: Vec<(usize, S)> = Vec::new();
            let mut k: usize = 0;
            let ghost col0 = col@;
            while k < entries.len()
                invariant
                    i < n,
                    k <= entries@.len(),
                    increasing(entries@),
                    columns_below(entries@, n as int),
                    increasing(new@),
                    columns_below(new@, n as int),
                    no_zeros(new@),
                    forall|q: int, p: int|
                        0 <= q < new@.len() && k <= p < entries@.len() ==> (#[trigger] new@[q]).0
                            < (#[trigger] entries@[p]).0,
                    S::exact() ==> forall|c: int|
                        #![trigger row_value(new@, c)]
                        row_value(new@, c) == row_value(entries@.take(k as int), c),
                    forall|c: int|
                        #![trigger row_has(new@, c)]
                        row_has(new@, c) == (row_has(entries@.take(k as int), c) && !row_value(
                            entries@.take(k as int),
                            c,
                        ).spec_is_zero()),
                    forall|c: int|
                        #![trigger row_value(new@, c)]
                        row_has(new@, c) ==> row_value(new@, c) == row_value(
                            entries@.take(k as int),
                            c,
                        ),
                    forall|c: int|
                        0 <= c < n ==> (#[trigger] col@[c])@ == if row_has(new@, c) {
                            col0[c]@.push(i)
                        } else {
                            col0[c]@
                        },
                    col@.len() == n,
                    forall|c: int, k: int|
                        0 <= c < n && 0 <= k < col@[c]@.len() ==> (#[trigger] col@[c]@[k]) < n,
                    forall|c: int| 0 <= c < n ==> col0[c]@.is_prefix_of((#[trigger] col@[c])@),
                    forall|c: int|
                        0 <= c < n && #[trigger] row_has(new@, c) ==> col@[c]@.contains(i),
                    col0.len() == n,
                decreases entries@.len() - k,
            {
                let (c, v): (usize, S) = entries[k];
                let ghost new1 = new@;
                let ghost col1 = col@;
                proof {
                    let t0 = entries@.take(k as int);
                    let t1 = entries@.take(k + 1);
                    assert(t1 =~= t0.insert(t0.len() as int, (c, v)));
                    assert(increasing(t0));
                    assert(!row_has(t0, c as int)) by {
                        if row_has(t0, c as int) {
                            let q = row_pos(t0, c as int);
                            assert(entries@[q].0 < entries@[k as int].0);
                        }
                    }
                    lemma_row_insert(t0, t0.len() as int, c, v);
                    assert(!row_has(new@, c as int)) by {
                        if row_has(new@, c as int) {
                            let q = row_pos(new@, c as int);
                            assert(new@[q].0 < entries@[k as int].0);
                        }
                    }
                    lemma_row_insert(new@, new@.len() as int, c, v);
                    assert(new@.push((c, v)) =~= new@.insert(new@.len() as int, (c, v)));
                    if S::exact() {
                        S::laws(v, v, v);
                    }
                }
                if !v.is_zero() {
                    new.push((c, v));
                    col[c].push(i);
                    proof {
                        assert(col@[c as int]@[col1[c as int]@.len() as int] == i);
                        assert forall|d: int, q: int|
                            0 <= d < n && 0 <= q < col@[d]@.len() implies (
                        #[trigger] col@[d]@[q]) < n by {
                            if d != c || q < col1[d]@.len() {
                                assert(col@[d]@[q] == col1[d]@[q]);
                            }
                        }
                        assert forall|d: int| 0 <= d < n && #[trigger] row_has(
                            new@,
                            d,
                        ) implies col@[d]@.contains(i) by {
                            if d != c {
                                assert(row_has(new1, d));
                                assert(col@[d]@ == col1[d]@);
                            }
                        }
                        assert forall|d: int| 0 <= d < n implies col0[d]@.is_prefix_of(
                            (#[trigger] col@[d])@,
                        ) by {
                            assert(col0[d]@.is_prefix_of(col1[d]@));
                        }
                    }
                }
                k = k + 1;
            }
            proof {
                assert(entries@.take(entries@.len() as int) =~= entries@);
            }
            let ghost row0 = row@;
            proof {
                let has = nonzero_in_row(m, i as int);
                assert forall|c: int| 0 <= c < n implies #[trigger] row_has(new@, c) == has(c) by {
                    assert(m.has(i as int, c) == row_has(entries@, c));
                    assert(m.value(i as int, c) == row_value(entries@, c));
                }
                lemma_row_of(new@, has, |j: int| m.value(i as int, j), n as nat);
                assert forall|c: int| 0 <= c < n implies (#[trigger] col@[c])@ == which(
                    nonzero_in_column(m, c),
                    (i + 1) as nat,
                ) by {
                    assert(row_has(new@, c) == has(c));
                    assert(col0[c]@ == which(nonzero_in_column(m, c), i as nat));
                }
            }
            row.push(new);
            proof {
                assert forall|r: usize, c: int|
                    r < i + 1 && 0 <= c < n && #[trigger] row_has(
                        row@[r as int]@,
                        c,
                    ) implies col@[c]@.contains(r) by {
                    if r < i {
                        assert(row@[r as int] == row0[r as int]);
                        assert(col0[c]@.contains(r));
                        let q = choose|q: int| 0 <= q < col0[c]@.len() && col0[c]@[q] == r;
                        assert(col0[c]@.is_prefix_of(col@[c]@));
                        assert(col@[c]@[q] == r);
                    }
                }
                if S::exact() {
                    assert forall|r: int, c: int|
                        0 <= r < i + 1 && 0 <= c < n implies #[trigger] row_value(row@[r]@, c)
                        == m.value(r, c) by {
                        if r < i {
                            assert(row_value(row0[r]@, c) == m.value(r, c));
                        } else {
                            assert(row_value(new@, c) == row_value(
                                entries@.take(entries@.len() as int),
                                c,
                            ));
                        }
                    }
                }
            }
            i = i + 1;
        }
        let a = Active { row, col, row_gone, col_gone };
        proof {
            let all = Remaining::start(m);
            assert(a@.row =~= all.row);
            assert(a@.col =~= all.col);
            assert(a@.row_gone =~= all.row_gone);
            assert(a@.col_gone =~= all.col_gone);
        }
        a
    }

    /// The pivot to eliminate next by the Markowitz rule with threshold
    /// stability, if any live entry is usable.
    pub fn search(&self, n: usize) -> (r: Option<(usize, usize)>)
        requires
            self.wf(n as nat),
        ensures
            r == best_pivot(self@, n as nat),
            r matches Some((i, c)) ==> i < n && c < n && !self.row_gone@[i as int]
                && !self.col_gone@[c as int] && row_has(self.row@[i as int]@, c as int),
            S::exact() && r is None ==> forall|i: int, j: int|
                0 <= i < n && 0 <= j < n ==> #[trigger] self.left(i, j) == S::spec_zero(),
    {
        let cols: Vec<usize> = order_columns(self, n);
        let mut best: Option<(usize, usize)> = None;
        let mut mark: usize = usize::MAX;
        let mut mag: S = S::zero();
        let tenth_part: S = S::from_int(1).over(S::from_int(10));
        let mut k: usize = 0;
        while k < cols.len()
            invariant
                k <= cols@.len(),
                self.wf(n as nat),
                search_order(self@, cols@),
                tenth_part == tenth::<S>(),
                (Pick { best, mark, mag }) == scanned(self@, cols@, k as nat),
                best is None ==> mark == usize::MAX && mag == S::spec_zero(),
                best matches Some((i, c)) ==> i < n && c < n && !self.row_gone@[i as int]
                    && !self.col_gone@[c as int] && row_has(self.row@[i as int]@, c as int),
                S::exact() && best is None ==> forall|i: int, q: int|
                    0 <= i < n && 0 <= q < k && !self.row_gone@[i] ==> !(#[trigger] row_has(
                        self.row@[i]@,
                        (#[trigger] cols@[q]) as int,
                    )),
            decreases cols@.len() - k,
        {
            let c: usize = cols[k];
            assert(self@.open_column(cols@[k as int] as int));
            let m: usize = self.col[c].len();
            if mark != 0 {
                let peak: S = self.column_peak(c, n);
                if !peak.is_zero() {
                    let ghost start = Pick { best, mark, mag };
                    let ghost was_none = best is None;
                    let mut q: usize = 0;
                    while q < m
                        invariant
                            q <= m,
                            c < n,
                            m == self.col@[c as int]@.len(),
                            self.wf(n as nat),
                            self@.open_column(c as int),
                            tenth_part == tenth::<S>(),
                            peak == self@.peak(c as int, m as nat),
                            (Pick { best, mark, mag }) == considered_rows(
                                self@,
                                start,
                                c,
                                peak,
                                q as nat,
                            ),
                            best is None ==> mark == usize::MAX && mag == S::spec_zero(),
                            best matches Some((i, d)) ==> i < n && d < n
                                && !self.row_gone@[i as int] && !self.col_gone@[d as int]
                                && row_has(self.row@[i as int]@, d as int),
                            best is None ==> was_none,
                            S::exact() && best is None ==> forall|p: int|
                                0 <= p < q && !self.row_gone@[(
                                #[trigger] self.col@[c as int]@[p]) as int] && row_has(
                                    self.row@[self.col@[c as int]@[p] as int]@,
                                    c as int,
                                ) ==> row_value(
                                    self.row@[self.col@[c as int]@[p] as int]@,
                                    c as int,
                                ).spec_abs() != peak,
                        decreases m - q,
                    {
                        let i: usize = self.col[c][q];
                        assert(self.col@[c as int]@[q as int] < n);
                        assert(increasing(self.row@[i as int]@));
                        if !self.row_gone[i] {
                            match entry(&self.row[i], c) {
                                Some(v) => {
                                    let a: S = v.abs();
                                    proof {
                                        lemma_entry_nonzero(self.row@[i as int]@, c as int);
                                        if S::exact() {
                                            S::laws(v, v, v);
                                        }
                                    }
                                    if !a.less(tenth_part.times(peak)) {
                                        let fill: usize = markowitz_count(self.row[i].len(), m);
                                        if fill < mark || (fill == mark && mag.less(a)) {
                                            best = Some((i, c));
                                            mark = fill;
                                            mag = a;
                                        }
                                    }
                                },
                                None => {},
                            }
                        }
                        q = q + 1;
                    }
                    proof {
                        if S::exact() && best is None {
                            S::laws(peak, peak, peak);
                            self.lemma_peak_attained(c as int, m as nat, n as nat);
                            assert(false);
                        }
                    }
                } else {
                    proof {
                        if S::exact() {
                            S::laws(peak, peak, peak);
                            assert forall|i: int|
                                0 <= i < n && !self.row_gone@[i] implies !row_has(
                                self.row@[i]@,
                                c as int,
                            ) by {
                                if row_has(self.row@[i]@, c as int) {
                                    assert(row_has(self.row@[(i as usize) as int]@, c as int));
                                    let q = choose|q: int|
                                        0 <= q < m && self.col@[c as int]@[q] == i as usize;
                                    self.lemma_peak_zero(c as int, m as nat, n as nat, q);
                                    lemma_entry_nonzero(self.row@[i]@, c as int);
                                    S::laws(row_value(self.row@[i]@, c as int), peak, peak);
                                }
                            }
                        }
                    }
                }
            }
            k = k + 1;
        }
        proof {
            if S::exact() && best is None {
                assert forall|i: int, j: int| 0 <= i < n && 0 <= j < n implies #[trigger] self.left(
                    i,
                    j,
                ) == S::spec_zero() by {
                    if !self.row_gone@[i] && !self.col_gone@[j] && row_has(self.row@[i]@, j) {
                        assert(row_has(self.row@[(i as usize) as int]@, j));
                        assert(self.col@[j]@.contains(i as usize));
                        let jj = j as usize;
                        assert(self@.open_column(jj as int));
                        assert(cols@.contains(jj));
                        let q = choose|q: int| 0 <= q < cols@.len() && cols@[q] == j as usize;
                        assert(row_has(self.row@[i]@, cols@[q] as int));
                    }
                }
            }
        }
        best
    }

    fn column_peak(&self, c: usize, n: usize) -> (r: S)
        requires
            self.wf(n as nat),
            c < n,
        ensures
            r == self@.peak(c as int, self.col@[c as int]@.len()),
    {
        let mut peak: S = S::zero();
        let m: usize = self.col[c].len();
        let mut k: usize = 0;
        while k < m
            invariant
                k <= m,
                c < n,
                m == self.col@[c as int]@.len(),
                self.wf(n as nat),
                peak == self@.peak(c as int, k as nat),
            decreases m - k,
        {
            let i: usize = self.col[c][k];
            assert(self.col@[c as int]@[k as int] < n);
            assert(increasing(self.row@[i as int]@));
            if !self.row_gone[i] {
                match entry(&self.row[i], c) {
                    Some(v) => {
                        let a: S = v.abs();
                        if peak.less(a) {
                            peak = a;
                        }
                    },
                    None => {},
                }
            }
            k = k + 1;
        }
        peak
    }

    /// A nonzero peak is the magnitude of a live entry.
    proof fn lemma_peak_attained(&self, c: int, k: nat, n: nat)
        requires
            S::exact(),
            self.wf(n),
            0 <= c < n,
            k <= self.col@[c]@.len(),
            self@.peak(c, k) != S::spec_zero(),
        ensures
            exists|q: int|
                0 <= q < k && !self.row_gone@[(#[trigger] self.col@[c]@[q]) as int] && row_has(
                    self.row@[self.col@[c]@[q] as int]@,
                    c,
                ) && row_value(self.row@[self.col@[c]@[q] as int]@, c).spec_abs() == self@.peak(
                    c,
                    k,
                ),
        decreases k,
    {
        if k > 0 {
            let p = self@.peak(c, (k - 1) as nat);
            let i = self.col@[c]@[k - 1] as int;
            if !self.row_gone@[i] && row_has(self.row@[i]@, c) && p.spec_less(
                row_value(self.row@[i]@, c).spec_abs(),
            ) {
            } else {
                self.lemma_peak_attained(c, (k - 1) as nat, n);
            }
        }
    }

    /// A zero peak means that the listed live entries are zero.
    proof fn lemma_peak_zero(&self, c: int, k: nat, n: nat, q: int)
        requires
            S::exact(),
            self.wf(n),
            0 <= c < n,
            k <= self.col@[c]@.len(),
            self@.peak(c, k) == S::spec_zero(),
            0 <= q < k,
            !self.row_gone@[self.col@[c]@[q] as int],
            row_has(self.row@[self.col@[c]@[q] as int]@, c),
        ensures
            row_value(self.row@[self.col@[c]@[q] as int]@, c) == S::spec_zero(),
        decreases k,
    {
        let i = self.col@[c]@[k - 1] as int;
        let p = self@.peak(c, (k - 1) as nat);
        let v = row_value(self.row@[i]@, c);
        S::laws(v, v, v);
        if p != S::spec_zero() {
            self.lemma_peak_attained(c, (k - 1) as nat, n);
            let r = choose|r: int|
                0 <= r < k - 1 && !self.row_gone@[(#[trigger] self.col@[c]@[r]) as int] && row_has(
                    self.row@[self.col@[c]@[r] as int]@,
                    c,
                ) && row_value(self.row@[self.col@[c]@[r] as int]@, c).spec_abs() == p;
            S::laws(row_value(self.row@[self.col@[c]@[r] as int]@, c), v, v);
        } else if q < k - 1 {
            self.lemma_peak_zero(c, (k - 1) as nat, n, q);
        }
    }
}

} // verus!
