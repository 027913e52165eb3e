//! Stamping one device, and the whole circuit.
use vstd::prelude::*;

use crate::circuit::{Device, DeviceId};
use crate::field::{lemma_minus, lemma_product};
use crate::scalar::Scalar;
use crate::sparse::SparseMatrix;
use crate::stamp::behavioral::{put_behavioral, stamp_behavioral};
use crate::stamp::bjt::{put_bjt, stamp_bjt};
use crate::stamp::confine::{law_writes_stay_in_pattern, lemma_deps};
use crate::stamp::context::StampCtx;
use crate::stamp::junction::{put_diode, stamp_diode};
use crate::stamp::kirchhoff::lemma_residual_g;
use crate::stamp::linear::{
    conductance, inductor_history, put_capacitor, put_cccs, put_ccvs, put_inductor, put_isource,
    put_mutuals, put_vccs, put_vcvs, put_vsource, resistance, resistor_value, short_free_conductance, stamp_capacitor, stamp_ccvs,
    stamp_inductor, stamp_vcvs, stamp_vsource,
};
use crate::stamp::mosfet::{put_mosfet, stamp_mosfet};
use crate::stamp::pattern::lemma_reserved_range;
use crate::stamp::switch::{
    put_comparator, put_opamp, put_vswitch, stamp_comparator, stamp_opamp, stamp_vswitch,
};
use crate::stamp::tape::{
    add_pair, add_transconductance, assemble, assembled, fold_residual, in_range, loaded, push_g,
    put_g, put_i, put_pair, residual_after, stamp_current, Write,
};

verus! {

/// What one device contributes.
pub open spec fn put_device<S: Scalar>(
    ctx: &StampCtx<S>,
    d: int,
    t: Seq<Write<S>>,
) -> Seq<Write<S>> {
    let id = DeviceId(d as u32);
    match ctx.circuit.devices@[d] {
        Device::Resistor { a, b, ohms, tc1, .. } => put_pair(
            t,
            ctx.ix(a),
            ctx.ix(b),
            short_free_conductance(resistance(ohms, tc1, ctx.opts)),
        ),
        Device::Capacitor { a, b, farads, ic, .. } => put_capacitor(ctx, id, a, b, farads, ic, t),
        Device::Inductor { a, b, henries, ic, .. } => put_inductor(ctx, id, a, b, henries, ic, t),
        Device::Vsource { p, n, .. } => put_vsource(ctx, id, p, n, t),
        Device::Isource { p, n, .. } => put_isource(ctx, id, p, n, t),
        Device::Diode { a, k, model, .. } => put_diode(ctx, id, a, k, &model, t),
        Device::Bjt { c, b, e, model, .. } => put_bjt(ctx, id, c, b, e, &model, t),
        Device::Mosfet { d: drain, g, s, b, model, .. } => put_mosfet(
            ctx,
            id,
            drain,
            g,
            s,
            b,
            &model,
            t,
        ),
        Device::VSwitch { a, b, ctrl_p, ctrl_n, von, voff, ron, roff, .. } => put_vswitch(
            ctx,
            id,
            a,
            b,
            ctrl_p,
            ctrl_n,
            von,
            voff,
            ron,
            roff,
            t,
        ),
        Device::OpAmp { out, inp, inn, reference, gain, rail_lo, rail_hi, .. } => put_opamp(
            ctx,
            out,
            inp,
            inn,
            reference,
            gain,
            rail_lo,
            rail_hi,
            t,
        ),
        Device::Comparator { out, inp, inn, out_lo, out_hi, hysteresis, .. } => put_comparator(
            ctx,
            id,
            out,
            inp,
            inn,
            out_lo,
            out_hi,
            hysteresis,
            t,
        ),
        Device::Vcvs { p, n, cp, cn, gain, .. } => put_vcvs(ctx, id, p, n, cp, cn, gain, t),
        Device::Vccs { p, n, cp, cn, gm, .. } => put_vccs(ctx, p, n, cp, cn, gm, t),
        Device::Cccs { p, n, ctrl_src, gain, .. } => put_cccs(ctx, p, n, ctrl_src, gain, t),
        Device::Ccvs { p, n, ctrl_src, transres, .. } => put_ccvs(
            ctx,
            id,
            p,
            n,
            ctrl_src,
            transres,
            t,
        ),
        Device::Behavioral { p, n, output, deps, .. } => put_behavioral(
            ctx,
            id,
            p,
            n,
            output,
            deps@,
            t,
        ),
        Device::Coupling { .. } => t,
    }
}

/// What the first `count` devices contribute.
pub open spec fn put_devices<S: Scalar>(
    ctx: &StampCtx<S>,
    count: nat,
    t: Seq<Write<S>>,
) -> Seq<Write<S>>
    decreases count,
{
    if count == 0 {
        t
    } else {
        put_device(ctx, count - 1, put_devices(ctx, (count - 1) as nat, t))
    }
}

/// The same number on each diagonal of a range.
pub open spec fn put_diagonal<S: Scalar>(
    from: int,
    count: nat,
    v: S,
    t: Seq<Write<S>>,
) -> Seq<Write<S>>
    decreases count,
{
    if count == 0 {
        t
    } else {
        let i = Some((from + count - 1) as usize);
        put_g(put_diagonal(from, (count - 1) as nat, v, t), i, i, v)
    }
}

/// The conductance to ground of every node and the regularization of every
/// branch, where they are positive.
pub open spec fn put_shunts<S: Scalar>(ctx: &StampCtx<S>, t: Seq<Write<S>>) -> Seq<Write<S>> {
    let nodes = ctx.layout.n_nodes;
    let branches = (ctx.layout.size - nodes) as nat;
    let t1 = if S::spec_zero().spec_less(ctx.gmin) {
        put_diagonal(0, nodes as nat, ctx.gmin, t)
    } else {
        t
    };
    if S::spec_zero().spec_less(ctx.branch_reg) {
        put_diagonal(nodes as int, branches, ctx.branch_reg.spec_negated(), t1)
    } else {
        t1
    }
}

/// What the whole circuit contributes.
pub open spec fn system_tape<S: Scalar>(ctx: &StampCtx<S>) -> Seq<Write<S>> {
    put_devices(ctx, ctx.circuit.devices@.len(), put_shunts(ctx, Seq::empty()))
}

/// Stamp one device.
pub fn stamp_device<S: Scalar>(ctx: &StampCtx<S>, id: DeviceId, out: &mut Vec<Write<S>>)
    requires
        ctx.wf(),
        id.0 < ctx.circuit.devices@.len(),
    ensures
        final(out)@ == put_device(ctx, id.0 as int, old(out)@),
{
    match &ctx.circuit.devices[id.0 as usize] {
        Device::Resistor { a, b, ohms, tc1, .. } => {
            let g: S = conductance(resistor_value(*ohms, *tc1, ctx.opts));
            add_pair(out, ctx.node(*a), ctx.node(*b), g);
        },
        Device::Capacitor { a, b, farads, ic, .. } => {
            stamp_capacitor(ctx, id, *a, *b, *farads, *ic, out);
        },
        Device::Inductor { a, b, henries, ic, .. } => {
            stamp_inductor(ctx, id, *a, *b, *henries, *ic, out);
        },
        Device::Vsource { p, n, .. } => {
            stamp_vsource(ctx, id, *p, *n, out);
        },
        Device::Isource { p, n, .. } => {
            let v: S = ctx.source_value(id).times(ctx.src_scale);
            stamp_current(out, ctx.node(*p), ctx.node(*n), v);
        },
        Device::Diode { a, k, model, .. } => {
            stamp_diode(ctx, id, *a, *k, model, out);
        },
        Device::Bjt { c, b, e, model, .. } => {
            stamp_bjt(ctx, id, *c, *b, *e, model, out);
        },
        Device::Mosfet { d, g, s, b, model, .. } => {
            stamp_mosfet(ctx, id, *d, *g, *s, *b, model, out);
        },
        Device::VSwitch { a, b, ctrl_p, ctrl_n, von, voff, ron, roff, .. } => {
            stamp_vswitch(ctx, id, *a, *b, *ctrl_p, *ctrl_n, *von, *voff, *ron, *roff, out);
        },
        Device::OpAmp { out: node, inp, inn, reference, gain, rail_lo, rail_hi, .. } => {
            stamp_opamp(ctx, *node, *inp, *inn, *reference, *gain, *rail_lo, *rail_hi, out);
        },
        Device::Comparator { out: node, inp, inn, out_lo, out_hi, hysteresis, .. } => {
            stamp_comparator(ctx, id, *node, *inp, *inn, *out_lo, *out_hi, *hysteresis, out);
        },
        Device::Vcvs { p, n, cp, cn, gain, .. } => {
            stamp_vcvs(ctx, id, *p, *n, *cp, *cn, *gain, out);
        },
        Device::Vccs { p, n, cp, cn, gm, .. } => {
            add_transconductance(
                out,
                ctx.node(*p),
                ctx.node(*n),
                ctx.node(*cp),
                ctx.node(*cn),
                *gm,
            );
        },
        Device::Cccs { p, n, ctrl_src, gain, .. } => {
            assert(ctx.circuit.devices@[id.0 as int].spec_controls()[0] == *ctrl_src);
            let cbr = ctx.branch(*ctrl_src);
            push_g(out, ctx.node(*p), cbr, *gain);
            push_g(out, ctx.node(*n), cbr, gain.negated());
        },
        Device::Ccvs { p, n, ctrl_src, transres, .. } => {
            assert(ctx.circuit.devices@[id.0 as int].spec_controls()[0] == *ctrl_src);
            stamp_ccvs(ctx, id, *p, *n, *ctrl_src, *transres, out);
        },
        Device::Behavioral { p, n, output, deps, .. } => {
            proof {
                lemma_deps(ctx, id.0 as int, deps@, deps@.len());
            }
            stamp_behavioral(ctx, id, *p, *n, *output, deps, out);
        },
        Device::Coupling { .. } => {},
    }
}

fn push_diagonal<S: Scalar>(from: usize, to: usize, v: S, out: &mut Vec<Write<S>>)
    requires
        from <= to,
    ensures
        final(out)@ == put_diagonal(from as int, (to - from) as nat, v, old(out)@),
{
    let ghost start = out@;
    let mut i: usize = from;
    while i < to
        invariant
            from <= i <= to,
            out@ == put_diagonal(from as int, (i - from) as nat, v, start),
        decreases to - i,
    {
        push_g(out, Some(i), Some(i), v);
        i = i + 1;
    }
}

/// Stamp the whole circuit onto a tape.
fn stamp_into<S: Scalar>(ctx: &StampCtx<S>, out: &mut Vec<Write<S>>)
    requires
        ctx.wf(),
        old(out)@.len() == 0,
    ensures
        final(out)@ == system_tape(ctx),
{
    assert(out@ =~= Seq::empty());
    proof {
        crate::stamp::context::lemma_node_range(
            ctx.circuit,
            ctx.layout,
            crate::circuit::NodeId(0),
        );
    }
    if S::zero().less(ctx.gmin) {
        push_diagonal(0, ctx.layout.n_nodes, ctx.gmin, out);
    }
    if S::zero().less(ctx.branch_reg) {
        push_diagonal(ctx.layout.n_nodes, ctx.layout.size, ctx.branch_reg.negated(), out);
    }
    let ghost shunts = out@;
    let mut d: usize = 0;
    while d < ctx.circuit.devices.len()
        invariant
            ctx.wf(),
            d <= ctx.circuit.devices@.len(),
            out@ == put_devices(ctx, d as nat, shunts),
        decreases ctx.circuit.devices@.len() - d,
    {
        stamp_device(ctx, DeviceId(d as u32), out);
        d = d + 1;
    }
}

/// Every write of the circuit is within its system.
pub proof fn lemma_tape_range<S: Scalar>(ctx: &StampCtx<S>)
    requires
        ctx.wf(),
    ensures
        in_range(system_tape(ctx), ctx.layout.size as nat),
{
    let t = system_tape(ctx);
    assert forall|k: int| 0 <= k < t.len() implies match #[trigger] t[k] {
        Write::G(r, c, _) => r < ctx.layout.size && c < ctx.layout.size,
        Write::I(r, _) => r < ctx.layout.size,
    } by {
        law_writes_stay_in_pattern(ctx, k);
        match t[k] {
            Write::G(r, c, _) => {
                lemma_reserved_range(ctx.circuit, ctx.layout, r as int, c as int);
            },
            Write::I(r, _) => {},
        }
    }
}

/// Add the whole circuit to a matrix and a right-hand side, device by device.
pub fn stamp_all<S: Scalar>(ctx: &StampCtx<S>, g: &mut SparseMatrix<S>, rhs: &mut [S])
    requires
        ctx.wf(),
        old(g).wf(),
        old(g).spec_dim() == ctx.layout.size,
        old(rhs)@.len() == ctx.layout.size,
    ensures
        assembled(old(g), system_tape(ctx), final(g)),
        loaded(old(rhs)@, system_tape(ctx), final(rhs)@),
{
    let mut tape: Vec<Write<S>> = Vec::new();
    stamp_into(ctx, &mut tape);
    proof {
        lemma_tape_range(ctx);
    }
    assemble(&tape, g, rhs);
}

/// Accumulate the residual `g * x - rhs` of the node rows, without a matrix.
pub fn stamp_residual<S: Scalar>(ctx: &StampCtx<S>, f: &mut [S])
    requires
        ctx.wf(),
        old(f)@.len() == ctx.layout.size,
    ensures
        final(f)@.len() == old(f)@.len(),
        forall|r: int|
            0 <= r < final(f)@.len() ==> #[trigger] final(f)@[r] == (if r < ctx.layout.n_nodes {
                residual_after(old(f)@[r], system_tape(ctx), ctx.x@, r)
            } else {
                old(f)@[r]
            }),
{
    let mut tape: Vec<Write<S>> = Vec::new();
    stamp_into(ctx, &mut tape);
    proof {
        lemma_tape_range(ctx);
        crate::stamp::context::lemma_node_range(
            ctx.circuit,
            ctx.layout,
            crate::circuit::NodeId(0),
        );
    }
    fold_residual(&tape, ctx.x, ctx.layout.n_nodes, f);
}

proof fn lemma_mutuals_ignore_the_iterate<S: Scalar>(
    ctx: &StampCtx<S>,
    other: &StampCtx<S>,
    br: Option<usize>,
    partners: Seq<(DeviceId, S)>,
    count: nat,
    t: Seq<Write<S>>,
)
    requires
        ctx.layout == other.layout,
        ctx.opts == other.opts,
        ctx.coeffs == other.coeffs,
        ctx.state == other.state,
    ensures
        put_mutuals(ctx, br, partners, count, t) == put_mutuals(other, br, partners, count, t),
    decreases count,
{
    if count > 0 {
        lemma_mutuals_ignore_the_iterate(ctx, other, br, partners, (count - 1) as nat, t);
    }
}

/// What a device called linear contributes does not depend on the iterate, so that an
/// island of such devices needs no Newton iteration.
pub proof fn law_a_linear_stamp_ignores_the_iterate<S: Scalar>(
    ctx: &StampCtx<S>,
    other: &StampCtx<S>,
    d: int,
    t: Seq<Write<S>>,
)
    requires
        0 <= d < ctx.circuit.devices@.len() <= u32::MAX,
        ctx.circuit.devices@[d].spec_is_linear(),
        ctx.circuit == other.circuit,
        ctx.layout == other.layout,
        ctx.opts == other.opts,
        ctx.coeffs == other.coeffs,
        ctx.state == other.state,
        ctx.dc == other.dc,
        ctx.use_ic == other.use_ic,
        ctx.src_scale == other.src_scale,
        ctx.source_dc@ == other.source_dc@,
        ctx.source_now@ == other.source_now@,
    ensures
        put_device(ctx, d, t) == put_device(other, d, t),
{
    let one = S::spec_int(1);
    match ctx.circuit.devices@[d] {
        Device::Inductor { a, b, henries, ic, .. } => {
            let id = DeviceId(d as u32);
            let br = ctx.br(id);
            let (ai, bi) = (ctx.ix(a), ctx.ix(b));
            let kcl = put_g(put_g(t, ai, br, one), bi, br, one.spec_negated());
            let row = put_g(put_g(kcl, br, ai, one), br, bi, one.spec_negated());
            let veq = inductor_history(
                ctx.opts.integration,
                ctx.coeffs,
                henries,
                ctx.state.x1@[d],
                ctx.state.dx1@[d],
                ctx.state.x2@[d],
            );
            let own = put_i(
                put_g(row, br, br, henries.spec_times(ctx.coeffs.g).spec_negated()),
                br,
                veq.spec_negated(),
            );
            let partners = ctx.layout.couplings@[d]@;
            lemma_mutuals_ignore_the_iterate(ctx, other, br, partners, partners.len(), own);
        },
        _ => {},
    }
}

proof fn lemma_diagonal<S: Scalar>(
    from: int,
    count: nat,
    v: S,
    t: Seq<Write<S>>,
    x: Seq<S>,
    r: int,
)
    requires
        S::exact(),
        0 <= from,
        from + count <= usize::MAX,
    ensures
        residual_after(S::spec_zero(), put_diagonal(from, count, v, t), x, r) == residual_after(
            S::spec_zero(),
            t,
            x,
            r,
        ).spec_plus(
            if from <= r < from + count {
                v.spec_times(x[r])
            } else {
                S::spec_zero()
            },
        ),
    decreases count,
{
    let zero = S::spec_zero();
    let f = residual_after(zero, t, x, r);
    S::laws(f, f, f);
    if count > 0 {
        let c = (count - 1) as nat;
        lemma_diagonal(from, c, v, t, x, r);
        let i = Some((from + count - 1) as usize);
        let before = put_diagonal(from, c, v, t);
        lemma_residual_g(zero, before, x, r, i, i, v);
        let g = residual_after(zero, before, x, r);
        S::laws(g, g, g);
    }
}

/// Every node leaks its voltage times the minimum conductance to ground, where there is
/// one, and every branch row loses its current times the regularizing resistance, where
/// that is in force; no other row is touched.
pub proof fn law_shunts_leak_to_ground<S: Scalar>(
    ctx: &StampCtx<S>,
    t: Seq<Write<S>>,
    x: Seq<S>,
    r: int,
)
    requires
        S::exact(),
        0 <= r < ctx.layout.size,
        ctx.layout.n_nodes <= ctx.layout.size,
    ensures
        ({
            let before = residual_after(S::spec_zero(), t, x, r);
            let after = residual_after(S::spec_zero(), put_shunts(ctx, t), x, r);
            if r < ctx.layout.n_nodes {
                after == if S::spec_zero().spec_less(ctx.gmin) {
                    before.spec_plus(ctx.gmin.spec_times(x[r]))
                } else {
                    before
                }
            } else {
                after == if S::spec_zero().spec_less(ctx.branch_reg) {
                    before.spec_minus(ctx.branch_reg.spec_times(x[r]))
                } else {
                    before
                }
            }
        }),
{
    let nodes = ctx.layout.n_nodes;
    let branches = (ctx.layout.size - nodes) as nat;
    let zero = S::spec_zero();
    let t1 = if zero.spec_less(ctx.gmin) {
        put_diagonal(0, nodes as nat, ctx.gmin, t)
    } else {
        t
    };
    lemma_diagonal(0, nodes as nat, ctx.gmin, t, x, r);
    lemma_diagonal(nodes as int, branches, ctx.branch_reg.spec_negated(), t1, x, r);
    let f = residual_after(zero, t, x, r);
    let g = residual_after(zero, t1, x, r);
    S::laws(f, f, f);
    S::laws(g, g, g);
    lemma_product(ctx.branch_reg, x[r], x[r]);
    lemma_minus(f, ctx.branch_reg.spec_times(x[r]));
}

} // verus!
