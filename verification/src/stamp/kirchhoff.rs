//! What a tape says of the currents at a node.
//!
//! A current that leaves one unknown through a device and enters another raises the
//! residual of the first and lowers that of the second by as much. The laws of the
//! devices are stated in those terms.
use vstd::prelude::*;

use crate::field::lemma_product;
use crate::scalar::Scalar;
use crate::stamp::context::at;
use crate::stamp::tape::{
    put_current, put_g, put_i, put_incidence, put_pair, put_transconductance, residual_after,
    Write,
};
use crate::terms::{group_sums, lemma_same_terms, term, Sum};

verus! {

/// What `i` at an unknown is at row `r`: ground has no row.
pub open spec fn share<S: Scalar>(a: Option<usize>, i: S, r: int) -> S {
    if a is Some && a->0 == r {
        i
    } else {
        S::spec_zero()
    }
}

/// What a current `i` from `a` to `b` adds to the residual of row `r`.
pub open spec fn drawn<S: Scalar>(a: Option<usize>, b: Option<usize>, i: S, r: int) -> S {
    share(a, i, r).spec_minus(share(b, i, r))
}

/// What is at an unknown is there term by term.
pub proof fn lemma_share<S: Scalar>(a: Option<usize>, p: S, q: S, r: int)
    requires
        S::exact(),
    ensures
        share(a, p.spec_plus(q), r) == share(a, p, r).spec_plus(share(a, q, r)),
        share(a, p.spec_minus(q), r) == share(a, p, r).spec_minus(share(a, q, r)),
        share(a, p.spec_negated(), r) == share(a, p, r).spec_negated(),
        share(a, S::spec_zero(), r) == S::spec_zero(),
{
    broadcast use group_sums;

    let none = Sum::Nothing;
    let s = Seq::<S>::empty();
    lemma_same_terms(none.plus(none), none, s);
    lemma_same_terms(none.minus(none), none, s);
    lemma_same_terms(none.negated(), none, s);
}

/// Currents along one path add up.
pub proof fn lemma_drawn_sum<S: Scalar>(a: Option<usize>, b: Option<usize>, i: S, j: S, r: int)
    requires
        S::exact(),
    ensures
        drawn(a, b, i.spec_plus(j), r) == drawn(a, b, i, r).spec_plus(drawn(a, b, j, r)),
        drawn(a, b, i.spec_minus(j), r) == drawn(a, b, i, r).spec_minus(drawn(a, b, j, r)),
        drawn(a, b, i.spec_negated(), r) == drawn(a, b, i, r).spec_negated(),
        drawn(b, a, i, r) == drawn(a, b, i, r).spec_negated(),
{
    broadcast use group_sums;

    lemma_share(a, i, j, r);
    lemma_share(b, i, j, r);
    let s = seq![share(a, i, r), share(b, i, r), share(a, j, r), share(b, j, r)];
    let (w, x, y, z) = (term(0), term(1), term(2), term(3));
    lemma_same_terms(w.plus(y).minus(x.plus(z)), w.minus(x).plus(y.minus(z)), s);
    lemma_same_terms(w.minus(y).minus(x.minus(z)), w.minus(x).minus(y.minus(z)), s);
    lemma_same_terms(w.negated().minus(x.negated()), w.minus(x).negated(), s);
    lemma_same_terms(x.minus(w), w.minus(x).negated(), s);
}

pub proof fn lemma_residual_g<S: Scalar>(
    start: S,
    t: Seq<Write<S>>,
    x: Seq<S>,
    r: int,
    row: Option<usize>,
    col: Option<usize>,
    v: S,
)
    requires
        S::exact(),
    ensures
        residual_after(start, put_g(t, row, col, v), x, r) == residual_after(
            start,
            t,
            x,
            r,
        ).spec_plus(share(row, v.spec_times(at(x, col)), r)),
{
    let before = residual_after(start, t, x, r);
    S::laws(before, before, before);
    S::laws(v, v, v);
    if row is Some && col is Some {
        assert(put_g(t, row, col, v).drop_last() =~= t);
    }
}

pub proof fn lemma_residual_i<S: Scalar>(
    start: S,
    t: Seq<Write<S>>,
    x: Seq<S>,
    r: int,
    row: Option<usize>,
    v: S,
)
    requires
        S::exact(),
    ensures
        residual_after(start, put_i(t, row, v), x, r) == residual_after(
            start,
            t,
            x,
            r,
        ).spec_minus(share(row, v, r)),
{
    let before = residual_after(start, t, x, r);
    S::laws(before, S::spec_zero(), before);
    if row is Some {
        assert(put_i(t, row, v).drop_last() =~= t);
    }
}

/// A current is drawn from one unknown and delivered at the other.
pub proof fn law_a_current_leaves_and_enters<S: Scalar>(
    start: S,
    t: Seq<Write<S>>,
    x: Seq<S>,
    r: int,
    a: Option<usize>,
    b: Option<usize>,
    i: S,
)
    requires
        S::exact(),
    ensures
        residual_after(start, put_current(t, a, b, i), x, r) == residual_after(
            start,
            t,
            x,
            r,
        ).spec_plus(drawn(a, b, i, r)),
{
    broadcast use group_sums;

    let f = residual_after(start, t, x, r);
    lemma_residual_i(start, t, x, r, a, i.spec_negated());
    lemma_residual_i(start, put_i(t, a, i.spec_negated()), x, r, b, i);
    lemma_share(a, i, i, r);
    let s = seq![f, share(a, i, r), share(b, i, r)];
    let (u, v, w) = (term(0), term(1), term(2));
    lemma_same_terms(u.minus(v.negated()).minus(w), u.plus(v.minus(w)), s);
}

/// A transconductance draws the current that its conductance takes of the voltage
/// across the controlling pair.
pub proof fn law_a_transconductance_is_controlled<S: Scalar>(
    start: S,
    t: Seq<Write<S>>,
    x: Seq<S>,
    r: int,
    ip: Option<usize>,
    im: Option<usize>,
    cp: Option<usize>,
    cm: Option<usize>,
    gm: S,
)
    requires
        S::exact(),
    ensures
        residual_after(start, put_transconductance(t, ip, im, cp, cm, gm), x, r)
            == residual_after(start, t, x, r).spec_plus(
            drawn(ip, im, gm.spec_times(at(x, cp).spec_minus(at(x, cm))), r),
        ),
{
    broadcast use group_sums;

    let n = gm.spec_negated();
    let t1 = put_g(t, ip, cp, gm);
    let t2 = put_g(t1, ip, cm, n);
    let t3 = put_g(t2, im, cp, n);
    lemma_residual_g(start, t, x, r, ip, cp, gm);
    lemma_residual_g(start, t1, x, r, ip, cm, n);
    lemma_residual_g(start, t2, x, r, im, cp, n);
    lemma_residual_g(start, t3, x, r, im, cm, gm);
    lemma_product(gm, at(x, cp), at(x, cm));
    lemma_product(gm, at(x, cm), at(x, cp));
    let f = residual_after(start, t, x, r);
    let p = gm.spec_times(at(x, cp));
    let q = gm.spec_times(at(x, cm));
    lemma_share(ip, p, q, r);
    lemma_share(im, p, q, r);
    lemma_share(ip, q, p, r);
    lemma_share(im, q, p, r);
    let s = seq![f, share(ip, p, r), share(ip, q, r), share(im, p, r), share(im, q, r)];
    lemma_same_terms(
        term(0).plus(term(1)).plus(term(2).negated()).plus(term(3).negated()).plus(term(4)),
        term(0).plus(term(1).minus(term(2)).minus(term(3).minus(term(4)))),
        s,
    );
}

/// A conductance draws the current that it takes of the voltage across it.
pub proof fn law_a_conductance_obeys_ohm<S: Scalar>(
    start: S,
    t: Seq<Write<S>>,
    x: Seq<S>,
    r: int,
    a: Option<usize>,
    b: Option<usize>,
    g: S,
)
    requires
        S::exact(),
    ensures
        residual_after(start, put_pair(t, a, b, g), x, r) == residual_after(
            start,
            t,
            x,
            r,
        ).spec_plus(drawn(a, b, g.spec_times(at(x, a).spec_minus(at(x, b))), r)),
{
    broadcast use group_sums;

    let n = g.spec_negated();
    let t1 = put_g(t, a, a, g);
    let t2 = put_g(t1, b, b, g);
    let t3 = put_g(t2, a, b, n);
    lemma_residual_g(start, t, x, r, a, a, g);
    lemma_residual_g(start, t1, x, r, b, b, g);
    lemma_residual_g(start, t2, x, r, a, b, n);
    lemma_residual_g(start, t3, x, r, b, a, n);
    lemma_product(g, at(x, a), at(x, b));
    lemma_product(g, at(x, b), at(x, a));
    let f = residual_after(start, t, x, r);
    let p = g.spec_times(at(x, a));
    let q = g.spec_times(at(x, b));
    lemma_share(a, p, q, r);
    lemma_share(b, p, q, r);
    lemma_share(a, q, p, r);
    lemma_share(b, q, p, r);
    let s = seq![f, share(a, p, r), share(a, q, r), share(b, p, r), share(b, q, r)];
    lemma_same_terms(
        term(0).plus(term(1)).plus(term(4)).plus(term(2).negated()).plus(term(3).negated()),
        term(0).plus(term(1).minus(term(2)).minus(term(3).minus(term(4)))),
        s,
    );
}

/// The incidence of a branch: its current is drawn from the one node and delivered
/// at the other, and its own row holds the voltage between them.
pub proof fn law_a_branch_joins_its_nodes<S: Scalar>(
    start: S,
    t: Seq<Write<S>>,
    x: Seq<S>,
    r: int,
    p: Option<usize>,
    n: Option<usize>,
    br: Option<usize>,
)
    requires
        S::exact(),
    ensures
        residual_after(start, put_incidence(t, p, n, br), x, r) == residual_after(
            start,
            t,
            x,
            r,
        ).spec_plus(drawn(p, n, at(x, br), r)).spec_plus(
            share(br, at(x, p).spec_minus(at(x, n)), r),
        ),
{
    broadcast use group_sums;

    let one = S::spec_int(1);
    let m = one.spec_negated();
    let t1 = put_g(t, p, br, one);
    let t2 = put_g(t1, br, p, one);
    let t3 = put_g(t2, n, br, m);
    lemma_residual_g(start, t, x, r, p, br, one);
    lemma_residual_g(start, t1, x, r, br, p, one);
    lemma_residual_g(start, t2, x, r, n, br, m);
    lemma_residual_g(start, t3, x, r, br, n, m);
    lemma_one(at(x, br));
    lemma_one(at(x, p));
    lemma_one(at(x, n));
    let f = residual_after(start, t, x, r);
    let (i, vp, vn) = (at(x, br), at(x, p), at(x, n));
    lemma_share(n, i, i, r);
    lemma_share(br, vp, vn, r);
    lemma_share(br, vn, vp, r);
    let s = seq![f, share(p, i, r), share(n, i, r), share(br, vp, r), share(br, vn, r)];
    lemma_same_terms(
        term(0).plus(term(1)).plus(term(3)).plus(term(2).negated()).plus(term(4).negated()),
        term(0).plus(term(1).minus(term(2))).plus(term(3).minus(term(4))),
        s,
    );
}

/// One of a number, and minus one of it.
pub proof fn lemma_one<S: Scalar>(v: S)
    requires
        S::exact(),
    ensures
        S::spec_int(1).spec_times(v) == v,
        S::spec_int(1).spec_negated().spec_times(v) == v.spec_negated(),
{
    S::laws(S::spec_int(1), v, v);
    S::laws(v, v, v);
    lemma_product(S::spec_int(1), v, v);
}

} // verus!
