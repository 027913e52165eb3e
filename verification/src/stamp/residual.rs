//! The residual of a system, without assembling it.
use vstd::prelude::*;

use crate::field::{lemma_minus_after_minus, lemma_plus_after_minus};
use crate::scalar::Scalar;
use crate::sparse::algebra::{lemma_sum_bump, lemma_sum_ext, lemma_sum_zero, sum};
use crate::stamp::tape::{cell_after, in_range, residual_after, row_after, Write};

verus! {

/// An assembled cell times its unknown.
pub open spec fn product<S: Scalar>(t: Seq<Write<S>>, x: Seq<S>, r: int) -> spec_fn(int) -> S {
    |c: int| cell_after(Some(S::spec_zero()), t, r, c)->0.spec_times(x[c])
}

/// A cell that holds a number still does after any writes.
proof fn lemma_cell_stays<S: Scalar>(s: S, t: Seq<Write<S>>, r: int, c: int)
    ensures
        cell_after(Some(s), t, r, c) is Some,
    decreases t.len(),
{
    if t.len() > 0 {
        lemma_cell_stays(s, t.drop_last(), r, c);
    }
}

/// In exact arithmetic the residual folded from a tape is the assembled row times
/// the iterate, less the assembled right-hand side.
pub proof fn law_residual_is_row_product<S: Scalar>(t: Seq<Write<S>>, x: Seq<S>, r: int)
    requires
        S::exact(),
        in_range(t, x.len()),
    ensures
        residual_after(S::spec_zero(), t, x, r) == sum(x.len(), product(t, x, r)).spec_minus(
            row_after(S::spec_zero(), t, r),
        ),
    decreases t.len(),
{
    let zero = S::spec_zero();
    if t.len() == 0 {
        assert forall|c: int| 0 <= c < x.len() implies #[trigger] product(t, x, r)(c) == zero by {
            S::laws(zero, x[c], zero);
            S::laws(x[c], zero, zero);
        }
        lemma_sum_zero(x.len(), product(t, x, r));
        S::laws(zero, zero, zero);
    } else {
        let rest = t.drop_last();
        assert forall|k: int| 0 <= k < rest.len() implies #[trigger] rest[k] == t[k] by {}
        assert(in_range(rest, x.len())) by {
            assert forall|k: int| 0 <= k < rest.len() implies match #[trigger] rest[k] {
                Write::G(r, c, _) => r < x.len() && c < x.len(),
                Write::I(r, _) => r < x.len(),
            } by {
                assert(rest[k] == t[k]);
            }
        }
        law_residual_is_row_product(rest, x, r);
        let f = product(rest, x, r);
        let h = product(t, x, r);
        let s = sum(x.len(), f);
        let q = row_after(zero, rest, r);
        assert(t[t.len() - 1] == t.last());
        match t.last() {
            Write::G(row, col, v) => {
                if row == r {
                    let p = v.spec_times(x[col as int]);
                    lemma_cell_stays(zero, rest, r, col as int);
                    let was = cell_after(Some(zero), rest, r, col as int)->0;
                    S::laws(was, v, x[col as int]);
                    assert(h(col as int) == f(col as int).spec_plus(p));
                    lemma_sum_bump(x.len(), f, h, col as int, p);
                    lemma_plus_after_minus(s, q, p);
                } else {
                    lemma_sum_ext(x.len(), f, h);
                }
            },
            Write::I(row, v) => {
                lemma_sum_ext(x.len(), f, h);
                if row == r {
                    lemma_minus_after_minus(s, q, v);
                }
            },
        }
    }
}

} // verus!
