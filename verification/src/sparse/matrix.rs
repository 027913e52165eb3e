//! A matrix assembled in coordinate form, accumulating stamps.
use vstd::prelude::*;

use crate::scalar::Scalar;

verus! {

/// The columns of a row are strictly increasing.
pub open spec fn increasing<S>(row: Seq<(usize, S)>) -> bool {
    forall|j: int, k: int|
        0 <= j < k < row.len() ==> (#[trigger] row[j]).0 < (#[trigger] row[k]).0
}

/// The columns of a row are below `n`.
pub open spec fn columns_below<S>(row: Seq<(usize, S)>, n: int) -> bool {
    forall|k: int| 0 <= k < row.len() ==> (#[trigger] row[k]).0 < n
}

/// The row stores column `c`.
pub open spec fn row_has<S>(row: Seq<(usize, S)>, c: int) -> bool {
    exists|k: int| 0 <= k < row.len() && (#[trigger] row[k]).0 == c
}

/// Where the row stores column `c`.
pub open spec fn row_pos<S>(row: Seq<(usize, S)>, c: int) -> int {
    choose|k: int| 0 <= k < row.len() && (#[trigger] row[k]).0 == c
}

/// The number at column `c` of the row, zero where nothing is stored.
pub open spec fn row_value<S: Scalar>(row: Seq<(usize, S)>, c: int) -> S {
    if row_has(row, c) {
        row[row_pos(row, c)].1
    } else {
        S::spec_zero()
    }
}

/// A stored column is found where it is.
pub proof fn lemma_row_pos<S>(row: Seq<(usize, S)>, k: int)
    requires
        increasing(row),
        0 <= k < row.len(),
    ensures
        row_has(row, row[k].0 as int),
        row_pos(row, row[k].0 as int) == k,
{
    let c = row[k].0 as int;
    let p = row_pos(row, c);
    assert(0 <= p < row.len() && row[p].0 == c);
}

/// Search a row for column `c`: `Ok` with its position, or `Err` with the
/// position at which it would be inserted.
pub fn find_col<S>(row: &Vec<(usize, S)>, c: usize) -> (r: Result<usize, usize>)
    requires
        increasing(row@),
    ensures
        match r {
            Ok(k) => k < row@.len() && row@[k as int].0 == c && row_has(row@, c as int) && row_pos(
                row@,
                c as int,
            ) == k,
            Err(k) => {
                &&& k <= row@.len()
                &&& !row_has(row@, c as int)
                &&& forall|j: int| 0 <= j < k ==> (#[trigger] row@[j]).0 < c
                &&& forall|j: int| k <= j < row@.len() ==> c < (#[trigger] row@[j]).0
            },
        },
{
    let mut lo: usize = 0;
    let mut hi: usize = row.len();
    while lo < hi
        invariant
            increasing(row@),
            lo <= hi <= row@.len(),
            forall|j: int| 0 <= j < lo ==> (#[trigger] row@[j]).0 < c,
            forall|j: int| hi <= j < row@.len() ==> c < (#[trigger] row@[j]).0,
        decreases hi - lo,
    {
        let mid: usize = lo + (hi - lo) / 2;
        let at: usize = row[mid].0;
        if at == c {
            proof {
                lemma_row_pos(row@, mid as int);
            }
            return Ok(mid);
        }
        if at < c {
            lo = mid + 1;
        } else {
            hi = mid;
        }
    }
    Err(lo)
}

pub proof fn lemma_row_insert<S: Scalar>(row: Seq<(usize, S)>, k: int, c: usize, v: S)
    requires
        increasing(row),
        0 <= k <= row.len(),
        !row_has(row, c as int),
        forall|j: int| 0 <= j < k ==> (#[trigger] row[j]).0 < c,
        forall|j: int| k <= j < row.len() ==> c < (#[trigger] row[j]).0,
    ensures
        increasing(row.insert(k, (c, v))),
        forall|x: int|
            #[trigger] row_has(row.insert(k, (c, v)), x) <==> row_has(row, x) || x == c,
        row_value(row.insert(k, (c, v)), c as int) == v,
        forall|x: int|
            x != c ==> #[trigger] row_value(row.insert(k, (c, v)), x) == row_value(row, x),
        forall|n: int|
            columns_below(row, n) && c < n ==> #[trigger] columns_below(row.insert(k, (c, v)), n),
{
    let new = row.insert(k, (c, v));
    assert(new[k] == (c, v));
    assert forall|i: int, j: int| 0 <= i < j < new.len() implies (#[trigger] new[i]).0 < (
    #[trigger] new[j]).0 by {
        let a = if i < k { row[i] } else if i == k { (c, v) } else { row[i - 1] };
        let b = if j < k { row[j] } else if j == k { (c, v) } else { row[j - 1] };
        assert(new[i] == a && new[j] == b);
    }
    lemma_row_pos(new, k);
    assert forall|x: int| #[trigger] row_has(new, x) == (row_has(row, x) || x == c) by {
        if row_has(row, x) {
            let p = row_pos(row, x);
            assert(row[p].0 == x);
            assert(new[if p < k { p } else { p + 1 }].0 == x);
        }
        if row_has(new, x) && x != c {
            let p = row_pos(new, x);
            assert(new[p].0 == x);
            assert(row[if p < k { p } else { p - 1 }].0 == x);
        }
    }
    assert forall|x: int| x != c implies #[trigger] row_value(new, x) == row_value(row, x) by {
        if row_has(row, x) {
            let p = row_pos(row, x);
            let q = if p < k { p } else { p + 1 };
            assert(new[q] == row[p]);
            lemma_row_pos(new, q);
        } else {
            assert(!row_has(new, x));
        }
    }
    assert forall|n: int| columns_below(row, n) && c < n implies #[trigger] columns_below(
        new,
        n,
    ) by {
        assert forall|q: int| 0 <= q < new.len() implies (#[trigger] new[q]).0 < n by {
            let a = if q < k { row[q] } else if q == k { (c, v) } else { row[q - 1] };
            assert(new[q] == a);
        }
    }
}

pub proof fn lemma_row_update<S: Scalar>(row: Seq<(usize, S)>, k: int, v: S)
    requires
        increasing(row),
        0 <= k < row.len(),
    ensures
        increasing(row.update(k, (row[k].0, v))),
        forall|x: int| #[trigger] row_has(row.update(k, (row[k].0, v)), x) <==> row_has(row, x),
        row_value(row.update(k, (row[k].0, v)), row[k].0 as int) == v,
        forall|x: int|
            x != row[k].0 ==> #[trigger] row_value(row.update(k, (row[k].0, v)), x) == row_value(
                row,
                x,
            ),
        forall|n: int|
            columns_below(row, n) ==> #[trigger] columns_below(
                row.update(k, (row[k].0, v)),
                n,
            ),
{
    let new = row.update(k, (row[k].0, v));
    assert forall|i: int| 0 <= i < row.len() implies (#[trigger] new[i]).0 == row[i].0 by {}
    assert(increasing(new));
    lemma_row_pos(new, k);
    assert forall|x: int| #[trigger] row_has(new, x) == row_has(row, x) by {
        if row_has(row, x) {
            let p = row_pos(row, x);
            assert(row[p].0 == x);
            assert(new[p].0 == x);
        }
        if row_has(new, x) {
            let p = row_pos(new, x);
            assert(new[p].0 == x);
            assert(row[p].0 == x);
        }
    }
    assert forall|x: int| x != row[k].0 implies #[trigger] row_value(new, x) == row_value(
        row,
        x,
    ) by {
        if row_has(row, x) {
            let p = row_pos(row, x);
            assert(new[p] == row[p]);
            lemma_row_pos(new, p);
        } else {
            assert(!row_has(new, x));
        }
    }
}

/// An `n x n` matrix of numbers stored by row, each row sorted by column. What
/// is not stored is a structural zero.
#[derive(Debug, Clone)]
pub struct SparseMatrix<S> {
    n: usize,
    rows: Vec<Vec<(usize, S)>>,
}

impl<S: Scalar> SparseMatrix<S> {
    /// The dimension.
    pub closed spec fn spec_dim(&self) -> nat {
        self.n as nat
    }

    /// The stored `(column, value)` entries of row `i`.
    pub closed spec fn entries(&self, i: int) -> Seq<(usize, S)> {
        self.rows@[i]@
    }

    /// Every row is sorted and within the dimension.
    pub closed spec fn wf(&self) -> bool {
        &&& self.rows@.len() == self.n
        &&& forall|i: int|
            0 <= i < self.n ==> increasing(#[trigger] self.rows@[i]@) && columns_below(
                self.rows@[i]@,
                self.n as int,
            )
    }

    /// A slot exists at `(r, c)`.
    pub open spec fn has(&self, r: int, c: int) -> bool {
        0 <= r < self.spec_dim() && row_has(self.entries(r), c)
    }

    /// The number at `(r, c)`, zero where no slot exists.
    pub open spec fn value(&self, r: int, c: int) -> S {
        if 0 <= r < self.spec_dim() {
            row_value(self.entries(r), c)
        } else {
            S::spec_zero()
        }
    }

    /// Position `k` of row `r` holds column `c`.
    pub open spec fn is_slot(&self, r: int, k: int, c: int) -> bool {
        &&& 0 <= r < self.spec_dim()
        &&& 0 <= k < self.entries(r).len()
        &&& self.entries(r)[k].0 == c
    }

    /// Both matrices have the same slots at the same positions.
    pub open spec fn same_pattern(&self, other: &Self) -> bool {
        &&& self.spec_dim() == other.spec_dim()
        &&& forall|r: int|
            0 <= r < self.spec_dim() ==> (#[trigger] self.entries(r)).len() == other.entries(
                r,
            ).len()
        &&& forall|r: int, k: int|
            0 <= r < self.spec_dim() && 0 <= k < self.entries(r).len() ==> (
            #[trigger] self.entries(r)[k]).0 == other.entries(r)[k].0
    }

    /// Rows of a well-formed matrix are sorted and within the dimension.
    pub proof fn lemma_rows(&self)
        requires
            self.wf(),
        ensures
            forall|i: int|
                0 <= i < self.spec_dim() ==> increasing(#[trigger] self.entries(i))
                    && columns_below(self.entries(i), self.spec_dim() as int),
    {
    }

    /// An `n x n` matrix of structural zeros.
    pub fn new(n: usize) -> (r: Self)
        ensures
            r.wf(),
            r.spec_dim() == n,
            forall|i: int, c: int| !#[trigger] r.has(i, c),
            forall|i: int, c: int| #[trigger] r.value(i, c) == S::spec_zero(),
    {
        let mut rows: Vec<Vec<(usize, S)>> = Vec::new();
        let mut i: usize = 0;
        while i < n
            invariant
                i <= n,
                rows@.len() == i,
                forall|j: int| 0 <= j < i ==> (#[trigger] rows@[j])@.len() == 0,
            decreases n - i,
        {
            rows.push(Vec::new());
            i = i + 1;
        }
        SparseMatrix { n, rows }
    }

    /// Dimension.
    pub fn dim(&self) -> (r: usize)
        ensures
            r == self.spec_dim(),
    {
        self.n
    }

    /// Add `value` into entry `(row, col)`, creating the slot if new.
    pub fn add(&mut self, row: usize, col: usize, value: S)
        requires
            old(self).wf(),
            row < old(self).spec_dim(),
            col < old(self).spec_dim(),
        ensures
            final(self).wf(),
            final(self).spec_dim() == old(self).spec_dim(),
            forall|i: int, c: int|
                #[trigger] final(self).has(i, c) <==> old(self).has(i, c) || (i == row && c
                    == col),
            final(self).value(row as int, col as int) == (if old(self).has(
                row as int,
                col as int,
            ) {
                old(self).value(row as int, col as int).spec_plus(value)
            } else {
                value
            }),
            forall|i: int, c: int|
                !(i == row && c == col) ==> #[trigger] final(self).value(i, c) == old(self).value(
                    i,
                    c,
                ),
            old(self).has(row as int, col as int) ==> final(self).same_pattern(old(self)),
    {
        let ghost before = self.rows@[row as int]@;
        match find_col(&self.rows[row], col) {
            Ok(k) => {
                let old_value: S = self.rows[row][k].1;
                proof {
                    lemma_row_update(before, k as int, old_value.spec_plus(value));
                }
                let r: &mut Vec<(usize, S)> = &mut self.rows[row];
                r[k] = (col, old_value.plus(value));
            },
            Err(k) => {
                proof {
                    lemma_row_insert(before, k as int, col, value);
                }
                let r: &mut Vec<(usize, S)> = &mut self.rows[row];
                r.insert(k, (col, value));
            },
        }
    }

    /// Ensure a slot exists at `(row, col)` even if its value is zero.
    pub fn touch(&mut self, row: usize, col: usize)
        requires
            old(self).wf(),
            row < old(self).spec_dim(),
            col < old(self).spec_dim(),
        ensures
            final(self).wf(),
            final(self).spec_dim() == old(self).spec_dim(),
            forall|i: int, c: int|
                #[trigger] final(self).has(i, c) <==> old(self).has(i, c) || (i == row && c
                    == col),
            forall|i: int, c: int| #[trigger] final(self).value(i, c) == old(self).value(i, c),
    {
        let ghost before = self.rows@[row as int]@;
        match find_col(&self.rows[row], col) {
            Ok(_) => {},
            Err(k) => {
                proof {
                    lemma_row_insert(before, k as int, col, S::spec_zero());
                }
                let zero: S = S::zero();
                let r: &mut Vec<(usize, S)> = &mut self.rows[row];
                r.insert(k, (col, zero));
            },
        }
    }

    /// Resolve `(row, col)` to its `(row, position)` handle, or `None` if no slot
    /// exists.
    pub fn slot(&self, row: usize, col: usize) -> (r: Option<(usize, usize)>)
        requires
            self.wf(),
            row < self.spec_dim(),
        ensures
            match r {
                Some(s) => s.0 == row && self.is_slot(s.0 as int, s.1 as int, col as int)
                    && self.has(row as int, col as int),
                None => !self.has(row as int, col as int),
            },
    {
        match find_col(&self.rows[row], col) {
            Ok(k) => Some((row, k)),
            Err(_) => None,
        }
    }

    /// Add `value` into a resolved `(row, position)` slot.
    pub fn add_at(&mut self, slot: (usize, usize), value: S)
        requires
            old(self).wf(),
            slot.0 < old(self).spec_dim(),
            slot.1 < old(self).entries(slot.0 as int).len(),
        ensures
            final(self).wf(),
            final(self).same_pattern(old(self)),
            ({
                let col = old(self).entries(slot.0 as int)[slot.1 as int].0;
                &&& final(self).value(slot.0 as int, col as int) == old(self).value(
                    slot.0 as int,
                    col as int,
                ).spec_plus(value)
                &&& forall|i: int, c: int|
                    !(i == slot.0 && c == col) ==> #[trigger] final(self).value(i, c) == old(
                        self,
                    ).value(i, c)
            }),
            forall|i: int, c: int| #[trigger] final(self).has(i, c) == old(self).has(i, c),
    {
        let ghost before = self.rows@[slot.0 as int]@;
        let (col, old_value): (usize, S) = self.rows[slot.0][slot.1];
        proof {
            lemma_row_pos(before, slot.1 as int);
            lemma_row_update(before, slot.1 as int, old_value.spec_plus(value));
        }
        let r: &mut Vec<(usize, S)> = &mut self.rows[slot.0];
        r[slot.1] = (col, old_value.plus(value));
    }

    /// Reset all stored values to zero, keeping the pattern.
    pub fn clear_values(&mut self)
        requires
            old(self).wf(),
        ensures
            final(self).wf(),
            final(self).same_pattern(old(self)),
            forall|i: int, c: int| #[trigger] final(self).has(i, c) == old(self).has(i, c),
            forall|i: int, c: int| #[trigger] final(self).value(i, c) == S::spec_zero(),
    {
        let ghost before = *self;
        let mut i: usize = 0;
        while i < self.n
            invariant
                i <= self.n,
                self.n == before.n,
                before.wf(),
                self.wf(),
                self.same_pattern(&before),
                forall|r: int, k: int|
                    0 <= r < i && 0 <= k < self.rows@[r]@.len() ==> (
                    #[trigger] self.rows@[r]@[k]).1 == S::spec_zero(),
            decreases self.n - i,
        {
            let mut k: usize = 0;
            let m: usize = self.rows[i].len();
            while k < m
                invariant
                    i < self.n,
                    self.n == before.n,
                    before.wf(),
                    self.wf(),
                    k <= m,
                    m == self.rows@[i as int]@.len(),
                    self.same_pattern(&before),
                    forall|r: int, q: int|
                        (0 <= r < i && 0 <= q < self.rows@[r]@.len() || r == i && 0 <= q < k)
                            ==> (#[trigger] self.rows@[r]@[q]).1 == S::spec_zero(),
                decreases m - k,
            {
                let ghost mid = *self;
                let zero: S = S::zero();
                let col: usize = self.rows[i][k].0;
                proof {
                    lemma_row_update(self.rows@[i as int]@, k as int, zero);
                }
                let r: &mut Vec<(usize, S)> = &mut self.rows[i];
                r[k] = (col, zero);
                proof {
                    assert forall|r: int|
                        0 <= r < self.n implies (#[trigger] self.entries(r)).len()
                        == before.entries(r).len() by {
                        assert(mid.entries(r).len() == before.entries(r).len());
                    }
                    assert forall|r: int, q: int|
                        0 <= r < self.n && 0 <= q < self.entries(r).len() implies (
                    #[trigger] self.entries(r)[q]).0 == before.entries(r)[q].0 by {
                        assert(mid.entries(r)[q].0 == before.entries(r)[q].0);
                    }
                }
                k = k + 1;
            }
            i = i + 1;
        }
        proof {
            assert forall|r: int, c: int| #[trigger] self.has(r, c) == before.has(r, c) by {
                if 0 <= r < self.n {
                    if row_has(self.entries(r), c) {
                        let p = row_pos(self.entries(r), c);
                        assert(self.entries(r)[p].0 == before.entries(r)[p].0);
                        assert(before.entries(r)[p].0 == c);
                    }
                    if row_has(before.entries(r), c) {
                        let p = row_pos(before.entries(r), c);
                        assert(self.entries(r)[p].0 == before.entries(r)[p].0);
                        assert(self.entries(r)[p].0 == c);
                    }
                }
            }
            assert forall|r: int, c: int| #[trigger] self.value(r, c) == S::spec_zero() by {
                if 0 <= r < self.n && row_has(self.entries(r), c) {
                    let p = row_pos(self.entries(r), c);
                    assert(self.rows@[r]@[p].1 == S::spec_zero());
                }
            }
        }
    }

    /// The stored `(col, value)` entries of one row.
    pub fn row(&self, i: usize) -> (r: &[(usize, S)])
        requires
            self.wf(),
            i < self.spec_dim(),
        ensures
            r@ == self.entries(i as int),
    {
        self.rows[i].as_slice()
    }
}

} // verus!
