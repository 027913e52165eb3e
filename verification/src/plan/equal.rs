//! The compiled assembly builds the system that the interpreted one builds.
use vstd::prelude::*;

use crate::circuit::{Device, DeviceId};
use crate::field::lemma_negated_product;
use crate::plan::backbone::{
    constant_tape, put_constant, put_mutual_factors, put_reactive, reactive_tape, visit_of, Visit,
};
use crate::plan::planned::{
    backbone, eligible, lemma_matrix_only, lemma_rhs_only, matrix_only, planned_tape, put_visits,
    rhs_only, visit_tape,
};
use crate::plan::slots::{present, scaled};
use crate::scalar::Scalar;
use crate::sparse::algebra::lemma_interchange;
use crate::sparse::SparseMatrix;
use crate::stamp::append::{lemma_device_append, lemma_device_on};
use crate::stamp::confine::{cells_of, lemma_backbone_cells, system_rows};
use crate::stamp::context::StampCtx;
use crate::stamp::device::{put_device, put_devices, put_diagonal, put_shunts, system_tape};
use crate::stamp::linear::{capacitor_history, inductor_history, put_mutuals};
use crate::stamp::pattern::reserved;
use crate::stamp::tape::{
    cell_after, confined, group_append, lemma_row_split, put_g, put_i, put_incidence, put_pair,
    row_after, Write,
};

verus! {

/// A device that is skipped contributes nothing to the right-hand side.
proof fn lemma_skipped<S: Scalar>(ctx: &StampCtx<S>, d: int)
    requires
        visit_of(ctx.circuit.devices@[d]) is Skip,
    ensures
        matrix_only(put_device(ctx, d, Seq::empty())),
{
}

proof fn lemma_diagonal_matrix_only<S: Scalar>(from: int, count: nat, v: S, t: Seq<Write<S>>)
    requires
        matrix_only(t),
    ensures
        matrix_only(put_diagonal(from, count, v, t)),
    decreases count,
{
    if count > 0 {
        lemma_diagonal_matrix_only(from, (count - 1) as nat, v, t);
    }
}

proof fn lemma_present_matrix_only<S: Scalar>(m: &SparseMatrix<S>, t: Seq<Write<S>>)
    ensures
        matrix_only(present(m, t)),
    decreases t.len(),
{
    if t.len() > 0 {
        lemma_present_matrix_only(m, t.drop_last());
    }
}

proof fn lemma_backbone_matrix_only<S: Scalar>(ctx: &StampCtx<S>, m: &SparseMatrix<S>)
    ensures
        matrix_only(backbone(ctx, m)),
{
    let n = ctx.circuit.devices@.len();
    let nodes = ctx.layout.n_nodes as nat;
    let a = present(m, constant_tape(ctx.circuit, ctx.layout, n));
    let b = present(m, reactive_tape(ctx.circuit, ctx.layout, n));
    let c = present(m, put_diagonal(0, nodes, ctx.gmin, Seq::empty()));
    lemma_present_matrix_only(m, constant_tape(ctx.circuit, ctx.layout, n));
    lemma_present_matrix_only(m, reactive_tape(ctx.circuit, ctx.layout, n));
    lemma_present_matrix_only(m, put_diagonal(0, nodes, ctx.gmin, Seq::empty()));
    let s = scaled(b, ctx.coeffs.g);
    assert forall|k: int| 0 <= k < s.len() implies #[trigger] s[k] is G by {
        assert(b[k] is G);
    }
}

proof fn lemma_visits_rows<S: Scalar>(
    ctx: &StampCtx<S>,
    count: nat,
    a: Seq<Write<S>>,
    b: Seq<Write<S>>,
    v: S,
    r: int,
)
    requires
        count <= ctx.circuit.devices@.len(),
        row_after(v, a, r) == row_after(v, b, r),
    ensures
        row_after(v, put_visits(ctx, count, a), r) == row_after(v, put_devices(ctx, count, b), r),
    decreases count,
{
    if count > 0 {
        let d = count - 1;
        let left = put_visits(ctx, d as nat, a);
        let right = put_devices(ctx, d as nat, b);
        let own = put_device(ctx, d, Seq::empty());
        lemma_visits_rows(ctx, d as nat, a, b, v, r);
        lemma_device_on(ctx, d, right);
        lemma_row_split(v, right, own, r);
        lemma_row_split(v, left, own, r);
        match visit_of(ctx.circuit.devices@[d]) {
            Visit::Skip => {
                lemma_skipped(ctx, d);
                lemma_matrix_only(own, row_after(v, right, r), r);
            },
            Visit::RhsOnly => {
                lemma_row_split(v, left, rhs_only(own), r);
                lemma_rhs_only(own, None, row_after(v, left, r), r, 0);
            },
            Visit::Full => {},
        }
    }
}

/// Whatever the arithmetic, the compiled assembly puts on every row of the
/// right-hand side exactly what the interpreted one puts there, in the same order.
pub proof fn law_planned_rhs<S: Scalar>(
    ctx: &StampCtx<S>,
    m: &SparseMatrix<S>,
    v: S,
    r: int,
)
    ensures
        row_after(v, planned_tape(ctx, m), r) == row_after(v, system_tape(ctx), r),
{
    let empty = Seq::<Write<S>>::empty();
    let shunts = put_shunts(ctx, empty);
    let nodes = ctx.layout.n_nodes;
    let branches = (ctx.layout.size - nodes) as nat;
    lemma_diagonal_matrix_only(0, nodes as nat, ctx.gmin, empty);
    let t1 = if S::spec_zero().spec_less(ctx.gmin) {
        put_diagonal(0, nodes as nat, ctx.gmin, empty)
    } else {
        empty
    };
    lemma_diagonal_matrix_only(nodes as int, branches, ctx.branch_reg.spec_negated(), t1);
    lemma_matrix_only(shunts, v, r);
    lemma_backbone_matrix_only(ctx, m);
    lemma_matrix_only(backbone(ctx, m), v, r);
    lemma_visits_rows(ctx, ctx.circuit.devices@.len(), backbone(ctx, m), shunts, v, r);
}

/// What a tape adds to a cell.
pub open spec fn total<S: Scalar>(t: Seq<Write<S>>, r: int, c: int) -> S
    decreases t.len(),
{
    if t.len() == 0 {
        S::spec_zero()
    } else {
        let before = total(t.drop_last(), r, c);
        match t.last() {
            Write::G(row, col, v) => if row == r && col == c {
                before.spec_plus(v)
            } else {
                before
            },
            Write::I(_, _) => before,
        }
    }
}

proof fn lemma_cell_total<S: Scalar>(s: S, t: Seq<Write<S>>, r: int, c: int)
    requires
        S::exact(),
    ensures
        cell_after(Some(s), t, r, c) == Some(s.spec_plus(total(t, r, c))),
    decreases t.len(),
{
    if t.len() == 0 {
        S::laws(s, s, s);
    } else {
        lemma_cell_total(s, t.drop_last(), r, c);
        match t.last() {
            Write::G(_, _, v) => {
                S::laws(s, total(t.drop_last(), r, c), v);
            },
            Write::I(_, _) => {},
        }
    }
}

proof fn lemma_total_split<S: Scalar>(a: Seq<Write<S>>, b: Seq<Write<S>>, r: int, c: int)
    requires
        S::exact(),
    ensures
        total(a + b, r, c) == total(a, r, c).spec_plus(total(b, r, c)),
    decreases b.len(),
{
    if b.len() == 0 {
        assert(a + b =~= a);
        S::laws(total(a, r, c), total(a, r, c), total(a, r, c));
    } else {
        lemma_total_split(a, b.drop_last(), r, c);
        assert((a + b).drop_last() =~= a + b.drop_last());
        match b.last() {
            Write::G(_, _, v) => {
                S::laws(total(a, r, c), total(b.drop_last(), r, c), v);
            },
            Write::I(_, _) => {},
        }
    }
}

/// What one write adds to a cell.
spec fn share<S: Scalar>(row: Option<usize>, col: Option<usize>, v: S, r: int, c: int) -> S {
    if row is Some && col is Some && row->0 == r && col->0 == c {
        v
    } else {
        S::spec_zero()
    }
}

proof fn lemma_total_g<S: Scalar>(
    t: Seq<Write<S>>,
    row: Option<usize>,
    col: Option<usize>,
    v: S,
    r: int,
    c: int,
)
    requires
        S::exact(),
    ensures
        total(put_g(t, row, col, v), r, c) == total(t, r, c).spec_plus(share(row, col, v, r, c)),
{
    S::laws(total(t, r, c), v, v);
    if row is Some && col is Some {
        let more = t.push(Write::G(row->0, col->0, v));
        assert(more.drop_last() =~= t);
        assert(more.last() == Write::G(row->0, col->0, v));
    }
}

proof fn lemma_total_i<S: Scalar>(t: Seq<Write<S>>, row: Option<usize>, v: S, r: int, c: int)
    ensures
        total(put_i(t, row, v), r, c) == total(t, r, c),
{
    if row is Some {
        let more = t.push(Write::I(row->0, v));
        assert(more.drop_last() =~= t);
        assert(more.last() == Write::I(row->0, v));
    }
}

/// Two matrix writes may be exchanged.
proof fn lemma_total_exchange<S: Scalar>(
    t: Seq<Write<S>>,
    row1: Option<usize>,
    col1: Option<usize>,
    v1: S,
    row2: Option<usize>,
    col2: Option<usize>,
    v2: S,
    r: int,
    c: int,
)
    requires
        S::exact(),
    ensures
        total(put_g(put_g(t, row1, col1, v1), row2, col2, v2), r, c) == total(
            put_g(put_g(t, row2, col2, v2), row1, col1, v1),
            r,
            c,
        ),
{
    let a = total(t, r, c);
    let x = share(row1, col1, v1, r, c);
    let y = share(row2, col2, v2, r, c);
    lemma_total_g(t, row1, col1, v1, r, c);
    lemma_total_g(put_g(t, row1, col1, v1), row2, col2, v2, r, c);
    lemma_total_g(t, row2, col2, v2, r, c);
    lemma_total_g(put_g(t, row2, col2, v2), row1, col1, v1, r, c);
    S::laws(a, x, y);
    S::laws(a, y, x);
    S::laws(x, y, y);
}

proof fn lemma_scaled_total<S: Scalar>(t: Seq<Write<S>>, by: S, r: int, c: int)
    requires
        S::exact(),
    ensures
        total(scaled(t, by), r, c) == total(t, r, c).spec_times(by),
    decreases t.len(),
{
    let s = scaled(t, by);
    if t.len() == 0 {
        S::laws(S::spec_zero(), by, by);
        S::laws(by, S::spec_zero(), by);
    } else {
        lemma_scaled_total(t.drop_last(), by, r, c);
        assert(s.drop_last() =~= scaled(t.drop_last(), by));
        match t.last() {
            Write::G(row, col, v) => {
                assert(s.last() == Write::G(row, col, v.spec_times(by)));
                S::laws(total(t.drop_last(), r, c), v, by);
            },
            Write::I(row, v) => {
                assert(s.last() == Write::I(row, v));
            },
        }
    }
}

/// A tape whose matrix writes are all stored is all present.
proof fn lemma_all_present<S: Scalar>(m: &SparseMatrix<S>, t: Seq<Write<S>>)
    requires
        matrix_only(t),
        forall|k: int|
            0 <= k < t.len() ==> match #[trigger] t[k] {
                Write::G(r, c, _) => m.has(r as int, c as int),
                Write::I(_, _) => true,
            },
    ensures
        present(m, t) == t,
    decreases t.len(),
{
    if t.len() > 0 {
        let rest = t.drop_last();
        assert forall|k: int| 0 <= k < rest.len() implies #[trigger] rest[k] == t[k] by {}
        lemma_all_present(m, rest);
        assert(t.last() is G);
        assert(rest.push(t.last()) =~= t);
    }
}

proof fn lemma_mutual_factors_append<S: Scalar>(
    ctx: &StampCtx<S>,
    br: Option<usize>,
    partners: Seq<(DeviceId, S)>,
    count: nat,
    a: Seq<Write<S>>,
    b: Seq<Write<S>>,
)
    ensures
        put_mutual_factors(ctx.layout, br, partners, count, a + b) == a + put_mutual_factors(
            ctx.layout,
            br,
            partners,
            count,
            b,
        ),
    decreases count,
{
    broadcast use group_append;

    if count > 0 {
        lemma_mutual_factors_append(ctx, br, partners, (count - 1) as nat, a, b);
    }
}

proof fn lemma_constant_on<S: Scalar>(ctx: &StampCtx<S>, d: int, t: Seq<Write<S>>)
    ensures
        put_constant(ctx.circuit, ctx.layout, d, t) == t + put_constant(
            ctx.circuit,
            ctx.layout,
            d,
            Seq::empty(),
        ),
{
    broadcast use group_append;

    assert(t + Seq::<Write<S>>::empty() =~= t);
}

proof fn lemma_reactive_on<S: Scalar>(ctx: &StampCtx<S>, d: int, t: Seq<Write<S>>)
    ensures
        put_reactive(ctx.circuit, ctx.layout, d, t) == t + put_reactive(
            ctx.circuit,
            ctx.layout,
            d,
            Seq::empty(),
        ),
{
    broadcast use group_append;

    let empty = Seq::<Write<S>>::empty();
    assert(t + empty =~= t);
    match ctx.circuit.devices@[d] {
        Device::Inductor { henries, .. } => {
            let br = ctx.layout.branch_of@[d];
            let partners = ctx.layout.couplings@[d]@;
            lemma_mutual_factors_append(
                ctx,
                br,
                partners,
                partners.len(),
                t,
                put_g(empty, br, br, henries.spec_negated()),
            );
        },
        _ => {},
    }
}

/// The mutual terms stamped are the factors times the integration factor.
proof fn lemma_mutuals_total<S: Scalar>(
    ctx: &StampCtx<S>,
    br: Option<usize>,
    partners: Seq<(DeviceId, S)>,
    count: nat,
    a: Seq<Write<S>>,
    b: Seq<Write<S>>,
    rest: S,
    r: int,
    c: int,
)
    requires
        S::exact(),
        total(a, r, c) == rest.spec_plus(total(b, r, c).spec_times(ctx.coeffs.g)),
    ensures
        total(put_mutuals(ctx, br, partners, count, a), r, c) == rest.spec_plus(
            total(put_mutual_factors(ctx.layout, br, partners, count, b), r, c).spec_times(
                ctx.coeffs.g,
            ),
        ),
    decreases count,
{
    if count > 0 {
        let g = ctx.coeffs.g;
        let before = put_mutuals(ctx, br, partners, (count - 1) as nat, a);
        let factors = put_mutual_factors(ctx.layout, br, partners, (count - 1) as nat, b);
        lemma_mutuals_total(ctx, br, partners, (count - 1) as nat, a, b, rest, r, c);
        let (pid, m) = partners[count - 1];
        let col = ctx.layout.branch_of@[pid.0 as int];
        let v = m.spec_times(g).spec_negated();
        lemma_scaled_write(before, factors, rest, br, col, m, g, r, c);
        let d = pid.0 as int;
        let veq = inductor_history(
            ctx.opts.integration,
            ctx.coeffs,
            m,
            ctx.state.x1@[d],
            ctx.state.dx1@[d],
            ctx.state.x2@[d],
        );
        lemma_total_i(put_g(before, br, col, v), br, veq.spec_negated(), r, c);
    }
}

/// Writing `-(m * g)` on one tape and `-m` on another keeps the first ahead of
/// the second times `g` by the same amount.
proof fn lemma_scaled_write<S: Scalar>(
    a: Seq<Write<S>>,
    b: Seq<Write<S>>,
    rest: S,
    row: Option<usize>,
    col: Option<usize>,
    m: S,
    g: S,
    r: int,
    c: int,
)
    requires
        S::exact(),
        total(a, r, c) == rest.spec_plus(total(b, r, c).spec_times(g)),
    ensures
        total(put_g(a, row, col, m.spec_times(g).spec_negated()), r, c) == rest.spec_plus(
            total(put_g(b, row, col, m.spec_negated()), r, c).spec_times(g),
        ),
{
    let v = m.spec_times(g).spec_negated();
    lemma_total_g(a, row, col, v, r, c);
    lemma_total_g(b, row, col, m.spec_negated(), r, c);
    lemma_negated_product(m, g);
    let x = total(b, r, c);
    let y = share(row, col, m.spec_negated(), r, c);
    S::laws(x, y, g);
    S::laws(g, S::spec_zero(), g);
    S::laws(S::spec_zero(), g, g);
    assert(y.spec_times(g) == share(row, col, v, r, c));
    S::laws(rest, x.spec_times(g), y.spec_times(g));
}

/// What a device adds to a cell: its constant part, its reactive part times the
/// integration factor, and what its visit adds.
proof fn lemma_device_total<S: Scalar>(ctx: &StampCtx<S>, d: int, r: int, c: int)
    requires
        S::exact(),
        ctx.wf(),
        0 <= d < ctx.circuit.devices@.len(),
        !ctx.dc,
    ensures
        ({
            let empty = Seq::<Write<S>>::empty();
            let k = total(put_constant(ctx.circuit, ctx.layout, d, empty), r, c);
            let x = total(put_reactive(ctx.circuit, ctx.layout, d, empty), r, c);
            let own = total(put_device(ctx, d, empty), r, c);
            own == k.spec_plus(x.spec_times(ctx.coeffs.g)).spec_plus(
                if visit_of(ctx.circuit.devices@[d]) is Full {
                    own
                } else {
                    S::spec_zero()
                },
            )
        }),
{
    let empty = Seq::<Write<S>>::empty();
    let g = ctx.coeffs.g;
    let zero = S::spec_zero();
    let own = total(put_device(ctx, d, empty), r, c);
    let k = total(put_constant(ctx.circuit, ctx.layout, d, empty), r, c);
    let x = total(put_reactive(ctx.circuit, ctx.layout, d, empty), r, c);
    S::laws(zero, g, g);
    S::laws(g, zero, g);
    S::laws(zero, zero, own);
    S::laws(zero, own, own);
    S::laws(own, zero, zero);
    S::laws(k, zero, zero);
    S::laws(k.spec_plus(x.spec_times(g)), zero, zero);
    match ctx.circuit.devices@[d] {
        Device::Capacitor { a, b, farads, ic, .. } => {
            let ai = ctx.ix(a);
            let bi = ctx.ix(b);
            let geq = g.spec_times(farads);
            let plain = put_pair(empty, ai, bi, farads);
            S::laws(g, farads, g);
            lemma_negated_product(farads, g);
            assert(put_pair(empty, ai, bi, geq) =~= scaled(plain, g));
            lemma_scaled_total(plain, g, r, c);
            let ieq = capacitor_history(
                ctx.opts.integration,
                ctx.coeffs,
                farads,
                ctx.state.x1@[d],
                ctx.state.dx1@[d],
                ctx.state.x2@[d],
            );
            let t1 = put_pair(empty, ai, bi, geq);
            let i = ieq.spec_negated();
            lemma_total_i(t1, ai, i.spec_negated(), r, c);
            lemma_total_i(put_i(t1, ai, i.spec_negated()), bi, i, r, c);
            S::laws(x.spec_times(g), zero, zero);
        },
        Device::Inductor { a, b, henries, .. } => {
            lemma_inductor_total(ctx, d, r, c);
        },
        Device::Vsource { p, n, .. } => {
            let id = DeviceId(d as u32);
            let br = ctx.br(id);
            let t1 = put_incidence(empty, ctx.ix(p), ctx.ix(n), br);
            lemma_total_i(t1, br, ctx.spec_source(id).spec_times(ctx.src_scale), r, c);
        },
        Device::Isource { p, n, .. } => {
            let id = DeviceId(d as u32);
            let i = ctx.spec_source(id).spec_times(ctx.src_scale);
            lemma_total_i(empty, ctx.ix(p), i.spec_negated(), r, c);
            lemma_total_i(put_i(empty, ctx.ix(p), i.spec_negated()), ctx.ix(n), i, r, c);
        },
        _ => {},
    }
}

proof fn lemma_inductor_total<S: Scalar>(ctx: &StampCtx<S>, d: int, r: int, c: int)
    requires
        S::exact(),
        ctx.wf(),
        0 <= d < ctx.circuit.devices@.len(),
        ctx.circuit.devices@[d] is Inductor,
        !ctx.dc,
    ensures
        total(put_device(ctx, d, Seq::empty()), r, c) == total(
            put_constant(ctx.circuit, ctx.layout, d, Seq::empty()),
            r,
            c,
        ).spec_plus(
            total(put_reactive(ctx.circuit, ctx.layout, d, Seq::empty()), r, c).spec_times(
                ctx.coeffs.g,
            ),
        ),
{
    let empty = Seq::<Write<S>>::empty();
    let g = ctx.coeffs.g;
    let zero = S::spec_zero();
    match ctx.circuit.devices@[d] {
        Device::Inductor { a, b, henries, .. } => {
            let one = S::spec_int(1);
            let minus = one.spec_negated();
            let br = ctx.layout.branch_of@[d];
            let ai = ctx.ix(a);
            let bi = ctx.ix(b);
            let first = put_g(empty, ai, br, one);
            let row = put_g(put_g(put_g(first, bi, br, minus), br, ai, one), br, bi, minus);
            let fixed = put_incidence(empty, ai, bi, br);
            let x = put_g(put_g(first, bi, br, minus), br, ai, one);
            let y = put_g(put_g(first, br, ai, one), bi, br, minus);
            lemma_total_exchange(first, bi, br, minus, br, ai, one, r, c);
            lemma_total_g(x, br, bi, minus, r, c);
            lemma_total_g(y, br, bi, minus, r, c);
            let rest = total(fixed, r, c);
            assert(total(row, r, c) == rest);
            S::laws(g, zero, g);
            S::laws(zero, g, g);
            S::laws(rest, zero, zero);
            lemma_scaled_write(row, empty, rest, br, br, henries, g, r, c);
            let veq = inductor_history(
                ctx.opts.integration,
                ctx.coeffs,
                henries,
                ctx.state.x1@[d],
                ctx.state.dx1@[d],
                ctx.state.x2@[d],
            );
            let own_g = put_g(row, br, br, henries.spec_times(g).spec_negated());
            let own = put_i(own_g, br, veq.spec_negated());
            lemma_total_i(own_g, br, veq.spec_negated(), r, c);
            let partners = ctx.layout.couplings@[d]@;
            lemma_mutuals_total(
                ctx,
                br,
                partners,
                partners.len(),
                own,
                put_g(empty, br, br, henries.spec_negated()),
                rest,
                r,
                c,
            );
        },
        _ => {},
    }
}

proof fn lemma_visits_on<S: Scalar>(ctx: &StampCtx<S>, count: nat, t: Seq<Write<S>>)
    ensures
        put_visits(ctx, count, t) == t + put_visits(ctx, count, Seq::empty()),
    decreases count,
{
    if count == 0 {
        assert(t + Seq::<Write<S>>::empty() =~= t);
    } else {
        lemma_visits_on(ctx, (count - 1) as nat, t);
        let rest = put_visits(ctx, (count - 1) as nat, Seq::empty());
        let a = visit_tape(ctx, count - 1, false);
        let b = visit_tape(ctx, count - 1, true);
        assert((t + rest) + a =~= t + (rest + a));
        assert((t + rest) + b =~= t + (rest + b));
    }
}

proof fn lemma_devices_on<S: Scalar>(ctx: &StampCtx<S>, count: nat, t: Seq<Write<S>>)
    ensures
        put_devices(ctx, count, t) == t + put_devices(ctx, count, Seq::empty()),
    decreases count,
{
    if count == 0 {
        assert(t + Seq::<Write<S>>::empty() =~= t);
    } else {
        lemma_devices_on(ctx, (count - 1) as nat, t);
        let rest = put_devices(ctx, (count - 1) as nat, Seq::empty());
        lemma_device_append(ctx, count - 1, t, rest);
    }
}

proof fn lemma_rhs_only_total<S: Scalar>(t: Seq<Write<S>>, r: int, c: int)
    ensures
        total(rhs_only(t), r, c) == S::spec_zero(),
    decreases t.len(),
{
    if t.len() > 0 {
        lemma_rhs_only_total(t.drop_last(), r, c);
        let rest = rhs_only(t.drop_last());
        assert(rest.push(t.last()).drop_last() =~= rest);
    }
}

proof fn lemma_devices_total<S: Scalar>(ctx: &StampCtx<S>, count: nat, r: int, c: int)
    requires
        S::exact(),
        ctx.wf(),
        count <= ctx.circuit.devices@.len(),
        !ctx.dc,
    ensures
        total(put_devices(ctx, count, Seq::empty()), r, c) == total(
            constant_tape(ctx.circuit, ctx.layout, count),
            r,
            c,
        ).spec_plus(
            total(reactive_tape(ctx.circuit, ctx.layout, count), r, c).spec_times(ctx.coeffs.g),
        ).spec_plus(total(put_visits(ctx, count, Seq::empty()), r, c)),
    decreases count,
{
    let g = ctx.coeffs.g;
    let zero = S::spec_zero();
    let empty = Seq::<Write<S>>::empty();
    S::laws(zero, g, g);
    S::laws(g, zero, g);
    S::laws(zero, zero, zero);
    if count > 0 {
        let d = count - 1;
        let below = d as nat;
        lemma_devices_total(ctx, below, r, c);
        lemma_device_total(ctx, d, r, c);
        let all = put_devices(ctx, below, empty);
        let fixed = constant_tape(ctx.circuit, ctx.layout, below);
        let scaling = reactive_tape(ctx.circuit, ctx.layout, below);
        let again = put_visits(ctx, below, empty);
        let own = put_device(ctx, d, empty);
        let k = put_constant(ctx.circuit, ctx.layout, d, empty);
        let x = put_reactive(ctx.circuit, ctx.layout, d, empty);
        lemma_device_on(ctx, d, all);
        lemma_constant_on(ctx, d, fixed);
        lemma_reactive_on(ctx, d, scaling);
        lemma_total_split(all, own, r, c);
        lemma_total_split(fixed, k, r, c);
        lemma_total_split(scaling, x, r, c);
        lemma_total_split(again, own, r, c);
        lemma_total_split(again, rhs_only(own), r, c);
        lemma_rhs_only_total(own, r, c);
        let f0 = total(fixed, r, c);
        let s0 = total(scaling, r, c);
        let v0 = total(again, r, c);
        let f1 = total(k, r, c);
        let s1 = total(x, r, c);
        let v1 = if visit_of(ctx.circuit.devices@[d]) is Full {
            total(own, r, c)
        } else {
            zero
        };
        S::laws(v0, zero, zero);
        S::laws(s0, s1, g);
        lemma_interchange(f0, s0.spec_times(g), f1, s1.spec_times(g));
        lemma_interchange(
            f0.spec_plus(s0.spec_times(g)),
            v0,
            f1.spec_plus(s1.spec_times(g)),
            v1,
        );
    }
}

proof fn lemma_constant_matrix_only<S: Scalar>(ctx: &StampCtx<S>, count: nat)
    ensures
        matrix_only(constant_tape(ctx.circuit, ctx.layout, count)),
    decreases count,
{
    if count > 0 {
        lemma_constant_matrix_only(ctx, (count - 1) as nat);
    }
}

proof fn lemma_factors_matrix_only<S: Scalar>(
    ctx: &StampCtx<S>,
    br: Option<usize>,
    partners: Seq<(DeviceId, S)>,
    count: nat,
    t: Seq<Write<S>>,
)
    requires
        matrix_only(t),
    ensures
        matrix_only(put_mutual_factors(ctx.layout, br, partners, count, t)),
    decreases count,
{
    if count > 0 {
        lemma_factors_matrix_only(ctx, br, partners, (count - 1) as nat, t);
    }
}

proof fn lemma_reactive_matrix_only<S: Scalar>(ctx: &StampCtx<S>, count: nat)
    ensures
        matrix_only(reactive_tape(ctx.circuit, ctx.layout, count)),
    decreases count,
{
    if count > 0 {
        let d = count - 1;
        let before = reactive_tape(ctx.circuit, ctx.layout, d as nat);
        lemma_reactive_matrix_only(ctx, d as nat);
        match ctx.circuit.devices@[d] {
            Device::Inductor { henries, .. } => {
                let br = ctx.layout.branch_of@[d];
                let partners = ctx.layout.couplings@[d]@;
                let own = put_g(before, br, br, henries.spec_negated());
                lemma_factors_matrix_only(ctx, br, partners, partners.len(), own);
            },
            _ => {},
        }
    }
}

proof fn lemma_diagonal_present<S: Scalar>(m: &SparseMatrix<S>, count: nat, v: S)
    requires
        count <= usize::MAX,
        forall|r: int| 0 <= r < count ==> #[trigger] m.has(r, r),
    ensures
        present(m, put_diagonal(0, count, v, Seq::empty())) == put_diagonal(
            0,
            count,
            v,
            Seq::<Write<S>>::empty(),
        ),
    decreases count,
{
    if count > 0 {
        lemma_diagonal_present(m, (count - 1) as nat, v);
        let before = put_diagonal(0, (count - 1) as nat, v, Seq::<Write<S>>::empty());
        let i = (count - 1) as usize;
        let all = before.push(Write::G(i, i, v));
        assert(all.drop_last() =~= before);
        assert(m.has(i as int, i as int));
    }
}

proof fn lemma_confined_present<S: Scalar>(
    ctx: &StampCtx<S>,
    m: &SparseMatrix<S>,
    t: Seq<Write<S>>,
)
    requires
        matrix_only(t),
        confined(t, cells_of(ctx.circuit, ctx.layout), system_rows(ctx)),
        forall|r: int, c: int|
            reserved(ctx.circuit, ctx.layout, r, c) ==> #[trigger] m.has(r, c),
    ensures
        present(m, t) == t,
{
    assert forall|k: int| 0 <= k < t.len() implies match #[trigger] t[k] {
        Write::G(r, c, _) => m.has(r as int, c as int),
        Write::I(_, _) => true,
    } by {
        match t[k] {
            Write::G(r, c, _) => {
                assert(cells_of(ctx.circuit, ctx.layout)(r as int, c as int));
                assert(m.has(r as int, c as int));
            },
            Write::I(_, _) => {},
        }
    }
    lemma_all_present(m, t);
}

/// In exact arithmetic the compiled assembly leaves every cell as the interpreted
/// one leaves it: in a transient context without regularization, on a matrix whose
/// pattern was reserved, with a conductance to ground that is not negative.
pub proof fn law_planned_matrix<S: Scalar>(
    ctx: &StampCtx<S>,
    m: &SparseMatrix<S>,
    s: S,
    r: int,
    c: int,
)
    requires
        S::exact(),
        ctx.wf(),
        eligible(ctx),
        !S::spec_zero().spec_less(ctx.gmin) ==> ctx.gmin.spec_is_zero(),
        forall|i: int, j: int|
            reserved(ctx.circuit, ctx.layout, i, j) ==> #[trigger] m.has(i, j),
    ensures
        cell_after(Some(s), planned_tape(ctx, m), r, c) == cell_after(
            Some(s),
            system_tape(ctx),
            r,
            c,
        ),
{
    let empty = Seq::<Write<S>>::empty();
    let n = ctx.circuit.devices@.len();
    let nodes = ctx.layout.n_nodes as nat;
    let g = ctx.coeffs.g;
    let zero = S::spec_zero();
    let fixed = constant_tape(ctx.circuit, ctx.layout, n);
    let scaling = reactive_tape(ctx.circuit, ctx.layout, n);
    let shunts = put_shunts(ctx, empty);
    let again = put_visits(ctx, n, empty);
    let all = put_devices(ctx, n, empty);
    lemma_backbone_cells(ctx, n);
    lemma_constant_matrix_only(ctx, n);
    lemma_reactive_matrix_only(ctx, n);
    lemma_confined_present(ctx, m, fixed);
    lemma_confined_present(ctx, m, scaling);
    assert forall|i: int| 0 <= i < nodes implies #[trigger] m.has(i, i) by {
        assert(reserved(ctx.circuit, ctx.layout, i, i));
    }
    lemma_diagonal_present(m, nodes, ctx.gmin);
    S::laws(zero, zero, zero);
    S::laws(ctx.branch_reg, zero, zero);
    S::laws(ctx.gmin, zero, zero);
    assert(!zero.spec_less(ctx.branch_reg));
    assert(zero.spec_less(ctx.gmin) == !ctx.gmin.spec_is_zero());
    assert(backbone(ctx, m) == fixed + scaled(scaling, g) + shunts);
    lemma_visits_on(ctx, n, backbone(ctx, m));
    lemma_devices_on(ctx, n, shunts);
    lemma_devices_total(ctx, n, r, c);
    lemma_scaled_total(scaling, g, r, c);
    lemma_total_split(fixed, scaled(scaling, g), r, c);
    lemma_total_split(fixed + scaled(scaling, g), shunts, r, c);
    lemma_total_split(backbone(ctx, m), again, r, c);
    lemma_total_split(shunts, all, r, c);
    let base = total(fixed, r, c).spec_plus(total(scaling, r, c).spec_times(g));
    let sh = total(shunts, r, c);
    let v = total(again, r, c);
    S::laws(sh, base, v);
    S::laws(base, sh, v);
    lemma_cell_total(s, planned_tape(ctx, m), r, c);
    lemma_cell_total(s, system_tape(ctx), r, c);
}

} // verus!
