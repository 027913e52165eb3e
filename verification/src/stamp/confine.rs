//! Where devices write: inside the reserved pattern, and only in rows they
//! conduct into.
use vstd::prelude::*;

use crate::circuit::{BDep, BOutput, Circuit, Device, DeviceId, NodeId};
use crate::circuit::{branch_sources, volt_nodes};
use crate::plan::backbone::{
    constant_tape, put_constant, put_mutual_factors, put_reactive, reactive_tape,
};
use crate::scalar::Scalar;
use crate::stamp::behavioral::{
    deps_resolve, put_branch_partials, put_current_partials,
};
use crate::stamp::bjt::{effective_nodes, lemma_bjt_range};
use crate::stamp::context::{lemma_branch_range, lemma_node_range, StampCtx};
use crate::stamp::device::{put_device, put_devices, put_diagonal, put_shunts, system_tape};
use crate::stamp::linear::put_mutuals;
use crate::stamp::mosfet::{lemma_mos_range, mos_nodes};
use crate::stamp::pattern::{
    control_cell, controls_cell, device_cell, devices_cell, own, own_branch, private, reserved,
};
use crate::stamp::tape::{confined, put_g, put_i, Write};
use crate::system::{partners, Layout};

verus! {

/// Whether the device may write the row: a node it conducts through, a node
/// private to it, or its branch.
pub open spec fn writable<S: Scalar>(
    circuit: &Circuit<S>,
    layout: &Layout<S>,
    d: int,
    r: int,
) -> bool {
    ||| exists|k: int|
        0 <= k < circuit.devices@[d].spec_conduction_nodes().len() && layout.spec_node(
            #[trigger] circuit.devices@[d].spec_conduction_nodes()[k],
        ) == Some(r as usize) && 0 <= r <= usize::MAX
    ||| private(layout, d, r)
    ||| own_branch(layout, d, r)
}

/// The reserved cells.
pub open spec fn cells_of<S: Scalar>(
    circuit: &Circuit<S>,
    layout: &Layout<S>,
) -> spec_fn(int, int) -> bool {
    |r: int, c: int| reserved(circuit, layout, r, c)
}

/// The rows a device may write.
pub open spec fn rows_of<S: Scalar>(
    circuit: &Circuit<S>,
    layout: &Layout<S>,
    d: int,
) -> spec_fn(int) -> bool {
    |r: int| writable(circuit, layout, d, r)
}

/// Whether all writes so far are in place.
spec fn in_place<S: Scalar>(
    ctx: &StampCtx<S>,
    rows: spec_fn(int) -> bool,
    t: Seq<Write<S>>,
) -> bool {
    confined(t, cells_of(ctx.circuit, ctx.layout), rows)
}

/// Whether `rows` covers the rows the device may write.
spec fn covers<S: Scalar>(ctx: &StampCtx<S>, d: int, rows: spec_fn(int) -> bool) -> bool {
    forall|r: int| #[trigger] writable(ctx.circuit, ctx.layout, d, r) ==> rows(r)
}

/// Whether the unknown, if any, is the device's own.
spec fn mine<S: Scalar>(ctx: &StampCtx<S>, d: int, i: Option<usize>) -> bool {
    i is Some ==> own(ctx.circuit, ctx.layout, d, i->0 as int) || own_branch(
        ctx.layout,
        d,
        i->0 as int,
    )
}

/// Whether the row, if any, is the device's own to write.
spec fn allowed<S: Scalar>(ctx: &StampCtx<S>, d: int, i: Option<usize>) -> bool {
    mine(ctx, d, i) && (i is Some ==> writable(ctx.circuit, ctx.layout, d, i->0 as int))
}

broadcast proof fn lemma_in_place_g<S: Scalar>(
    ctx: &StampCtx<S>,
    d: int,
    rows: spec_fn(int) -> bool,
    t: Seq<Write<S>>,
    row: Option<usize>,
    col: Option<usize>,
    v: S,
)
    requires
        0 <= d < ctx.circuit.devices@.len(),
        #[trigger] covers(ctx, d, rows),
        in_place(ctx, rows, t),
        allowed(ctx, d, row),
        mine(ctx, d, col),
    ensures
        #[trigger] in_place(ctx, rows, put_g(t, row, col, v)),
{
    if row is Some && col is Some {
        let r = row->0 as int;
        let c = col->0 as int;
        assert(device_cell(ctx.circuit, ctx.layout, d, r, c));
        assert(devices_cell(
            ctx.circuit,
            ctx.layout,
            ctx.circuit.devices@.len() as int,
            r,
            c,
        ));
        assert(cells_of(ctx.circuit, ctx.layout)(r, c));
        assert(rows(r));
    }
    crate::stamp::tape::lemma_confined_g(
        t,
        cells_of(ctx.circuit, ctx.layout),
        rows,
        row,
        col,
        v,
    );
}

broadcast proof fn lemma_in_place_i<S: Scalar>(
    ctx: &StampCtx<S>,
    d: int,
    rows: spec_fn(int) -> bool,
    t: Seq<Write<S>>,
    row: Option<usize>,
    v: S,
)
    requires
        #[trigger] covers(ctx, d, rows),
        in_place(ctx, rows, t),
        allowed(ctx, d, row),
    ensures
        #[trigger] in_place(ctx, rows, put_i(t, row, v)),
{
    if row is Some {
        assert(rows(row->0 as int));
    }
    crate::stamp::tape::lemma_confined_i(
        t,
        cells_of(ctx.circuit, ctx.layout),
        rows,
        row,
        v,
    );
}

/// A write into the column of a branch the device reads.
proof fn lemma_in_place_control<S: Scalar>(
    ctx: &StampCtx<S>,
    d: int,
    rows: spec_fn(int) -> bool,
    t: Seq<Write<S>>,
    row: Option<usize>,
    k: int,
    v: S,
)
    requires
        ctx.wf(),
        0 <= d < ctx.circuit.devices@.len(),
        covers(ctx, d, rows),
        in_place(ctx, rows, t),
        allowed(ctx, d, row),
        0 <= k < ctx.circuit.devices@[d].spec_controls().len(),
        match ctx.circuit.devices@[d] {
            Device::Cccs { .. } => row is Some ==> own(
                ctx.circuit,
                ctx.layout,
                d,
                row->0 as int,
            ),
            Device::Ccvs { .. } => row is Some ==> own_branch(ctx.layout, d, row->0 as int),
            Device::Behavioral { output, .. } => match output {
                BOutput::Current => row is Some ==> own(
                    ctx.circuit,
                    ctx.layout,
                    d,
                    row->0 as int,
                ),
                BOutput::Voltage => row is Some ==> own_branch(
                    ctx.layout,
                    d,
                    row->0 as int,
                ),
            },
            _ => false,
        },
    ensures
        in_place(
            ctx,
            rows,
            put_g(t, row, ctx.br(ctx.circuit.devices@[d].spec_controls()[k]), v),
        ),
{
    let ctrl = ctx.circuit.devices@[d].spec_controls()[k];
    let col = ctx.br(ctrl);
    if row is Some && col is Some {
        let r = row->0 as int;
        let c = col->0 as int;
        assert(own_branch(ctx.layout, ctrl.0 as int, c));
        assert(control_cell(
            ctx.circuit,
            ctx.layout,
            d,
            ctx.circuit.devices@[d].spec_controls()[k],
            r,
            c,
        ));
        assert(controls_cell(
            ctx.circuit,
            ctx.layout,
            d,
            ctx.circuit.devices@[d].spec_controls().len() as int,
            r,
            c,
        ));
        assert(device_cell(ctx.circuit, ctx.layout, d, r, c));
        assert(cells_of(ctx.circuit, ctx.layout)(r, c));
        assert(rows(r));
    }
    crate::stamp::tape::lemma_confined_g(
        t,
        cells_of(ctx.circuit, ctx.layout),
        rows,
        row,
        col,
        v,
    );
}

/// A node among the device's nodes is its own.
proof fn lemma_sensed<S: Scalar>(ctx: &StampCtx<S>, d: int, k: int)
    requires
        0 <= d < ctx.circuit.devices@.len(),
        0 <= k < ctx.circuit.devices@[d].spec_nodes().len(),
    ensures
        mine(ctx, d, ctx.ix(ctx.circuit.devices@[d].spec_nodes()[k])),
        ({
            let i = ctx.ix(ctx.circuit.devices@[d].spec_nodes()[k]);
            i is Some ==> own(ctx.circuit, ctx.layout, d, i->0 as int)
        }),
{
    let n = ctx.circuit.devices@[d].spec_nodes()[k];
    if ctx.ix(n) is Some {
        let i = ctx.ix(n)->0;
        assert(ctx.layout.spec_node(ctx.circuit.devices@[d].spec_nodes()[k]) == Some(i));
    }
}

/// A node the device conducts through is its own to write.
proof fn lemma_conducts<S: Scalar>(ctx: &StampCtx<S>, d: int, k: int, j: int)
    requires
        0 <= d < ctx.circuit.devices@.len(),
        0 <= k < ctx.circuit.devices@[d].spec_nodes().len(),
        0 <= j < ctx.circuit.devices@[d].spec_conduction_nodes().len(),
        ctx.circuit.devices@[d].spec_nodes()[k]
            == ctx.circuit.devices@[d].spec_conduction_nodes()[j],
    ensures
        allowed(ctx, d, ctx.ix(ctx.circuit.devices@[d].spec_nodes()[k])),
        mine(ctx, d, ctx.ix(ctx.circuit.devices@[d].spec_nodes()[k])),
        ({
            let i = ctx.ix(ctx.circuit.devices@[d].spec_nodes()[k]);
            i is Some ==> own(ctx.circuit, ctx.layout, d, i->0 as int)
        }),
{
    lemma_sensed(ctx, d, k);
    let n = ctx.circuit.devices@[d].spec_conduction_nodes()[j];
    if ctx.ix(n) is Some {
        let i = ctx.ix(n)->0;
        assert(ctx.layout.spec_node(ctx.circuit.devices@[d].spec_conduction_nodes()[j]) == Some(i));
    }
}

proof fn lemma_branch_allowed<S: Scalar>(ctx: &StampCtx<S>, d: int)
    requires
        0 <= d < ctx.circuit.devices@.len() <= u32::MAX,
    ensures
        allowed(ctx, d, ctx.br(DeviceId(d as u32))),
        mine(ctx, d, ctx.br(DeviceId(d as u32))),
        ({
            let i = ctx.br(DeviceId(d as u32));
            i is Some ==> own_branch(ctx.layout, d, i->0 as int)
        }),
{
}

broadcast group group_in_place {
    lemma_in_place_g,
    lemma_in_place_i,
}

/// Devices between two nodes they both conduct through.
proof fn lemma_two_terminal<S: Scalar>(ctx: &StampCtx<S>, d: int)
    requires
        0 <= d < ctx.circuit.devices@.len() <= u32::MAX,
        ctx.circuit.devices@[d].spec_nodes().len() >= 2,
        ctx.circuit.devices@[d].spec_conduction_nodes().len() >= 2,
        ctx.circuit.devices@[d].spec_nodes()[0]
            == ctx.circuit.devices@[d].spec_conduction_nodes()[0],
        ctx.circuit.devices@[d].spec_nodes()[1]
            == ctx.circuit.devices@[d].spec_conduction_nodes()[1],
    ensures
        allowed(ctx, d, ctx.ix(ctx.circuit.devices@[d].spec_nodes()[0])),
        allowed(ctx, d, ctx.ix(ctx.circuit.devices@[d].spec_nodes()[1])),
{
    lemma_conducts(ctx, d, 0, 0);
    lemma_conducts(ctx, d, 1, 1);
}

proof fn lemma_passive<S: Scalar>(
    ctx: &StampCtx<S>,
    d: int,
    rows: spec_fn(int) -> bool,
    t: Seq<Write<S>>,
)
    requires
        ctx.wf(),
        0 <= d < ctx.circuit.devices@.len(),
        covers(ctx, d, rows),
        in_place(ctx, rows, t),
        ctx.circuit.devices@[d] is Resistor || ctx.circuit.devices@[d] is Capacitor
            || ctx.circuit.devices@[d] is Isource || ctx.circuit.devices@[d] is Diode
            || ctx.circuit.devices@[d] is Vsource,
    ensures
        in_place(ctx, rows, put_device(ctx, d, t)),
{
    broadcast use group_in_place;

    lemma_two_terminal(ctx, d);
    lemma_branch_allowed(ctx, d);
}

proof fn lemma_controlled<S: Scalar>(
    ctx: &StampCtx<S>,
    d: int,
    rows: spec_fn(int) -> bool,
    t: Seq<Write<S>>,
)
    requires
        ctx.wf(),
        0 <= d < ctx.circuit.devices@.len(),
        covers(ctx, d, rows),
        in_place(ctx, rows, t),
        ctx.circuit.devices@[d] is Vcvs || ctx.circuit.devices@[d] is Vccs
            || ctx.circuit.devices@[d] is VSwitch,
    ensures
        in_place(ctx, rows, put_device(ctx, d, t)),
{
    broadcast use group_in_place;

    lemma_two_terminal(ctx, d);
    lemma_branch_allowed(ctx, d);
    lemma_sensed(ctx, d, 2);
    lemma_sensed(ctx, d, 3);
}

proof fn lemma_current_controlled<S: Scalar>(
    ctx: &StampCtx<S>,
    d: int,
    rows: spec_fn(int) -> bool,
    t: Seq<Write<S>>,
)
    requires
        ctx.wf(),
        0 <= d < ctx.circuit.devices@.len(),
        covers(ctx, d, rows),
        in_place(ctx, rows, t),
        ctx.circuit.devices@[d] is Cccs || ctx.circuit.devices@[d] is Ccvs,
    ensures
        in_place(ctx, rows, put_device(ctx, d, t)),
{
    broadcast use group_in_place;

    lemma_two_terminal(ctx, d);
    lemma_branch_allowed(ctx, d);
    lemma_conducts(ctx, d, 0, 0);
    lemma_conducts(ctx, d, 1, 1);
    match ctx.circuit.devices@[d] {
        Device::Cccs { p, n, ctrl_src, gain, .. } => {
            let t1 = put_g(t, ctx.ix(p), ctx.br(ctrl_src), gain);
            lemma_in_place_control(ctx, d, rows, t, ctx.ix(p), 0, gain);
            lemma_in_place_control(ctx, d, rows, t1, ctx.ix(n), 0, gain.spec_negated());
        },
        Device::Ccvs { p, n, ctrl_src, transres, .. } => {
            let br = ctx.br(DeviceId(d as u32));
            let t1 = crate::stamp::tape::put_incidence::<S>(t, ctx.ix(p), ctx.ix(n), br);
            lemma_in_place_control(ctx, d, rows, t1, br, 0, transres.spec_negated());
        },
        _ => {},
    }
}

proof fn lemma_amplifier<S: Scalar>(
    ctx: &StampCtx<S>,
    d: int,
    rows: spec_fn(int) -> bool,
    t: Seq<Write<S>>,
)
    requires
        ctx.wf(),
        0 <= d < ctx.circuit.devices@.len(),
        covers(ctx, d, rows),
        in_place(ctx, rows, t),
        ctx.circuit.devices@[d] is OpAmp || ctx.circuit.devices@[d] is Comparator,
    ensures
        in_place(ctx, rows, put_device(ctx, d, t)),
{
    broadcast use group_in_place;

    lemma_conducts(ctx, d, 0, 0);
    lemma_sensed(ctx, d, 1);
    lemma_sensed(ctx, d, 2);
    match ctx.circuit.devices@[d] {
        Device::OpAmp { reference, .. } => {
            if reference is Some {
                lemma_sensed(ctx, d, 3);
            }
        },
        _ => {},
    }
}

proof fn lemma_bjt<S: Scalar>(
    ctx: &StampCtx<S>,
    d: int,
    rows: spec_fn(int) -> bool,
    t: Seq<Write<S>>,
)
    requires
        ctx.wf(),
        0 <= d < ctx.circuit.devices@.len(),
        covers(ctx, d, rows),
        in_place(ctx, rows, t),
        ctx.circuit.devices@[d] is Bjt,
    ensures
        in_place(ctx, rows, put_device(ctx, d, t)),
{
    broadcast use group_in_place;

    lemma_conducts(ctx, d, 0, 0);
    lemma_conducts(ctx, d, 1, 1);
    lemma_conducts(ctx, d, 2, 2);
    let ints = ctx.layout.bjt_internal_of@[d]@;
    assert forall|k: int| 0 <= k < 3 implies allowed(ctx, d, #[trigger] ints[k]) by {
        if ints[k] is Some {
            let i = ints[k]->0;
            assert(ctx.layout.bjt_internal_of@[d]@[k] == Some(i));
            assert(private(ctx.layout, d, i as int));
            assert(own(ctx.circuit, ctx.layout, d, i as int));
            assert(writable(ctx.circuit, ctx.layout, d, i as int));
        }
    }
    assert(allowed(ctx, d, ints[0]));
    assert(allowed(ctx, d, ints[1]));
    assert(allowed(ctx, d, ints[2]));
    match ctx.circuit.devices@[d] {
        Device::Bjt { c, b, e, model, .. } => {
            let nodes = effective_nodes(
                ctx.layout,
                DeviceId(d as u32),
                c,
                b,
                e,
                &ctx.opts.effects,
            );
            assert(allowed(ctx, d, nodes.0));
            assert(allowed(ctx, d, nodes.1));
            assert(allowed(ctx, d, nodes.2));
        },
        _ => {},
    }
}

proof fn lemma_mosfet<S: Scalar>(
    ctx: &StampCtx<S>,
    d: int,
    rows: spec_fn(int) -> bool,
    t: Seq<Write<S>>,
)
    requires
        ctx.wf(),
        0 <= d < ctx.circuit.devices@.len(),
        covers(ctx, d, rows),
        in_place(ctx, rows, t),
        ctx.circuit.devices@[d] is Mosfet,
    ensures
        in_place(ctx, rows, put_device(ctx, d, t)),
{
    broadcast use group_in_place;

    lemma_conducts(ctx, d, 0, 0);
    lemma_conducts(ctx, d, 2, 1);
    lemma_sensed(ctx, d, 1);
    let ints = ctx.layout.mos_internal_of@[d]@;
    assert forall|k: int| 0 <= k < 2 implies allowed(ctx, d, #[trigger] ints[k]) by {
        if ints[k] is Some {
            let i = ints[k]->0;
            assert(ctx.layout.mos_internal_of@[d]@[k] == Some(i));
            assert(private(ctx.layout, d, i as int));
            assert(own(ctx.circuit, ctx.layout, d, i as int));
            assert(writable(ctx.circuit, ctx.layout, d, i as int));
        }
    }
    assert(allowed(ctx, d, ints[0]));
    assert(allowed(ctx, d, ints[1]));
    match ctx.circuit.devices@[d] {
        Device::Mosfet { d: drain, g, s, b, model, .. } => {
            let nodes = mos_nodes(
                ctx.layout,
                DeviceId(d as u32),
                drain,
                g,
                s,
                b,
                &ctx.opts.effects,
            );
            assert(allowed(ctx, d, nodes.0));
            assert(mine(ctx, d, nodes.1));
            assert(allowed(ctx, d, nodes.2));
            if model.gate_charge {
                lemma_conducts(ctx, d, 1, 2);
            }
            if b is Some {
                lemma_sensed(ctx, d, 3);
                if model.body_diode {
                    if model.gate_charge {
                        lemma_conducts(ctx, d, 3, 3);
                    } else {
                        lemma_conducts(ctx, d, 3, 2);
                    }
                }
            }
        },
        _ => {},
    }
}

/// Every partner of a winding comes from a coupling of the two.
proof fn lemma_partner_coupling<S: Scalar>(
    devices: Seq<Device<S>>,
    d: int,
    count: nat,
    j: int,
) -> (c: int)
    requires
        0 <= j < partners(devices, d, count).len(),
        count <= devices.len(),
        0 <= d <= u32::MAX,
    ensures
        0 <= c < count,
        match devices[c] {
            Device::Coupling { l1, l2, .. } => (l1.0 == d && l2 == partners(
                devices,
                d,
                count,
            )[j].0) || (l2.0 == d && l1 == partners(devices, d, count)[j].0),
            _ => false,
        },
    decreases count,
{
    let rest = partners(devices, d, (count - 1) as nat);
    if j < rest.len() {
        lemma_partner_coupling(devices, d, (count - 1) as nat, j)
    } else {
        count - 1
    }
}

proof fn lemma_mutuals<S: Scalar>(
    ctx: &StampCtx<S>,
    d: int,
    rows: spec_fn(int) -> bool,
    count: nat,
    t: Seq<Write<S>>,
)
    requires
        ctx.wf(),
        0 <= d < ctx.circuit.devices@.len(),
        covers(ctx, d, rows),
        in_place(ctx, rows, t),
        count <= ctx.layout.couplings@[d]@.len(),
    ensures
        in_place(
            ctx,
            rows,
            put_mutuals(ctx, ctx.br(DeviceId(d as u32)), ctx.layout.couplings@[d]@, count, t),
        ),
    decreases count,
{
    broadcast use lemma_in_place_i;

    lemma_branch_allowed(ctx, d);
    if count > 0 {
        let br = ctx.br(DeviceId(d as u32));
        let ps = ctx.layout.couplings@[d]@;
        let devices = ctx.circuit.devices@;
        lemma_mutuals(ctx, d, rows, (count - 1) as nat, t);
        let before = put_mutuals(ctx, br, ps, (count - 1) as nat, t);
        let (pid, m) = ps[count - 1];
        let col = ctx.br(pid);
        if br is Some && col is Some {
            let r = br->0 as int;
            let c = col->0 as int;
            let j = lemma_partner_coupling(devices, d, devices.len(), count - 1);
            assert(own_branch(ctx.layout, d, r));
            assert(own_branch(ctx.layout, pid.0 as int, c));
            assert(control_cell(
                ctx.circuit,
                ctx.layout,
                j,
                devices[j].spec_controls()[0],
                r,
                c,
            ));
            assert(device_cell(ctx.circuit, ctx.layout, j, r, c));
            assert(cells_of(ctx.circuit, ctx.layout)(r, c));
            assert(rows(r));
        }
        let v = m.spec_times(ctx.coeffs.g).spec_negated();
        crate::stamp::tape::lemma_confined_g(
            before,
            cells_of(ctx.circuit, ctx.layout),
            rows,
            br,
            col,
            v,
        );
        assert(in_place(ctx, rows, put_g(before, br, col, v)));
    }
}

proof fn lemma_inductor<S: Scalar>(
    ctx: &StampCtx<S>,
    d: int,
    rows: spec_fn(int) -> bool,
    t: Seq<Write<S>>,
)
    requires
        ctx.wf(),
        0 <= d < ctx.circuit.devices@.len(),
        covers(ctx, d, rows),
        in_place(ctx, rows, t),
        ctx.circuit.devices@[d] is Inductor,
    ensures
        in_place(ctx, rows, put_device(ctx, d, t)),
{
    broadcast use group_in_place;

    lemma_two_terminal(ctx, d);
    lemma_branch_allowed(ctx, d);
    match ctx.circuit.devices@[d] {
        Device::Inductor { a, b, henries, ic, .. } => {
            let one = S::spec_int(1);
            let br = ctx.br(DeviceId(d as u32));
            let ai = ctx.ix(a);
            let bi = ctx.ix(b);
            let kcl = put_g(put_g(t, ai, br, one), bi, br, one.spec_negated());
            let row = put_g(put_g(kcl, br, ai, one), br, bi, one.spec_negated());
            let veq = crate::stamp::linear::inductor_history(
                ctx.opts.integration,
                ctx.coeffs,
                henries,
                ctx.state.x1@[d],
                ctx.state.dx1@[d],
                ctx.state.x2@[d],
            );
            let own_terms = put_i(
                put_g(row, br, br, henries.spec_times(ctx.coeffs.g).spec_negated()),
                br,
                veq.spec_negated(),
            );
            assert(in_place(ctx, rows, own_terms));
            lemma_mutuals(ctx, d, rows, ctx.layout.couplings@[d]@.len(), own_terms);
        },
        _ => {},
    }
}

/// A voltage dependency reads a node of the device, a current dependency one of
/// its controls.
proof fn lemma_dep_listed(deps: Seq<BDep>, count: nat, k: int) -> (at: int)
    requires
        0 <= k < count <= deps.len(),
    ensures
        match deps[k] {
            BDep::Volt(n) => 0 <= at < volt_nodes(deps, count).len() && volt_nodes(deps, count)[at]
                == n,
            BDep::Branch(d) => 0 <= at < branch_sources(deps, count).len() && branch_sources(
                deps,
                count,
            )[at] == d,
        },
    decreases count,
{
    if k == count - 1 {
        match deps[k] {
            BDep::Volt(_) => volt_nodes(deps, count).len() - 1,
            BDep::Branch(_) => branch_sources(deps, count).len() - 1,
        }
    } else {
        lemma_dep_listed(deps, (count - 1) as nat, k)
    }
}

/// The dependencies of a behavioral source resolve.
pub proof fn lemma_deps<S: Scalar>(ctx: &StampCtx<S>, d: int, deps: Seq<BDep>, count: nat)
    requires
        ctx.wf(),
        0 <= d < ctx.circuit.devices@.len(),
        count == deps.len(),
        match ctx.circuit.devices@[d] {
            Device::Behavioral { deps: own_deps, .. } => own_deps@ == deps,
            _ => false,
        },
    ensures
        deps_resolve(ctx, deps),
{
    assert forall|k: int| 0 <= k < deps.len() implies match #[trigger] deps[k] {
        BDep::Volt(_) => true,
        BDep::Branch(b) => b.0 < ctx.circuit.devices@.len()
            && ctx.circuit.devices@[b.0 as int].spec_owns_branch(),
    } by {
        let at = lemma_dep_listed(deps, deps.len(), k);
        match deps[k] {
            BDep::Branch(b) => {
                assert(ctx.circuit.devices@[d].spec_controls()[at] == b);
            },
            _ => {},
        }
    }
}

/// A partial derivative written into a row of the device.
proof fn lemma_partial_in_place<S: Scalar>(
    ctx: &StampCtx<S>,
    d: int,
    rows: spec_fn(int) -> bool,
    t: Seq<Write<S>>,
    row: Option<usize>,
    k: int,
    v: S,
)
    requires
        ctx.wf(),
        0 <= d < ctx.circuit.devices@.len(),
        covers(ctx, d, rows),
        in_place(ctx, rows, t),
        allowed(ctx, d, row),
        match ctx.circuit.devices@[d] {
            Device::Behavioral { output, deps, .. } => {
                &&& 0 <= k < deps@.len()
                &&& match output {
                    BOutput::Current => row is Some ==> own(
                        ctx.circuit,
                        ctx.layout,
                        d,
                        row->0 as int,
                    ),
                    BOutput::Voltage => row is Some ==> own_branch(
                        ctx.layout,
                        d,
                        row->0 as int,
                    ),
                }
            },
            _ => false,
        },
    ensures
        match ctx.circuit.devices@[d] {
            Device::Behavioral { deps, .. } => in_place(
                ctx,
                rows,
                put_g(t, row, crate::stamp::behavioral::dep_column(ctx, deps@[k]), v),
            ),
            _ => true,
        },
{
    broadcast use lemma_in_place_g;

    match ctx.circuit.devices@[d] {
        Device::Behavioral { p, n, deps, .. } => {
            let at = lemma_dep_listed(deps@, deps@.len(), k);
            match deps@[k] {
                BDep::Volt(node) => {
                    assert(ctx.circuit.devices@[d].spec_nodes()[2 + at] == node);
                    lemma_sensed(ctx, d, 2 + at);
                },
                BDep::Branch(_) => {
                    lemma_in_place_control(ctx, d, rows, t, row, at, v);
                },
            }
        },
        _ => {},
    }
}

proof fn lemma_current_partials<S: Scalar>(
    ctx: &StampCtx<S>,
    d: int,
    rows: spec_fn(int) -> bool,
    deps: Seq<BDep>,
    partials: Seq<S>,
    p: Option<usize>,
    n: Option<usize>,
    count: nat,
    t: Seq<Write<S>>,
)
    requires
        ctx.wf(),
        0 <= d < ctx.circuit.devices@.len(),
        covers(ctx, d, rows),
        in_place(ctx, rows, t),
        count <= deps.len(),
        allowed(ctx, d, p),
        allowed(ctx, d, n),
        p is Some ==> own(ctx.circuit, ctx.layout, d, p->0 as int),
        n is Some ==> own(ctx.circuit, ctx.layout, d, n->0 as int),
        match ctx.circuit.devices@[d] {
            Device::Behavioral { output, deps: own_deps, .. } => own_deps@ == deps && output
                == BOutput::Current,
            _ => false,
        },
    ensures
        in_place(ctx, rows, put_current_partials(ctx, p, n, deps, partials, count, t)),
    decreases count,
{
    if count > 0 {
        lemma_current_partials(ctx, d, rows, deps, partials, p, n, (count - 1) as nat, t);
        let before = put_current_partials(ctx, p, n, deps, partials, (count - 1) as nat, t);
        let col = crate::stamp::behavioral::dep_column(ctx, deps[count - 1]);
        let g = partials[count - 1];
        lemma_partial_in_place(ctx, d, rows, before, p, count - 1, g);
        lemma_partial_in_place(
            ctx,
            d,
            rows,
            put_g(before, p, col, g),
            n,
            count - 1,
            g.spec_negated(),
        );
    }
}

proof fn lemma_branch_partials<S: Scalar>(
    ctx: &StampCtx<S>,
    d: int,
    rows: spec_fn(int) -> bool,
    deps: Seq<BDep>,
    partials: Seq<S>,
    count: nat,
    t: Seq<Write<S>>,
)
    requires
        ctx.wf(),
        0 <= d < ctx.circuit.devices@.len(),
        covers(ctx, d, rows),
        in_place(ctx, rows, t),
        count <= deps.len(),
        match ctx.circuit.devices@[d] {
            Device::Behavioral { output, deps: own_deps, .. } => own_deps@ == deps && output
                == BOutput::Voltage,
            _ => false,
        },
    ensures
        in_place(
            ctx,
            rows,
            put_branch_partials(ctx, ctx.br(DeviceId(d as u32)), deps, partials, count, t),
        ),
    decreases count,
{
    if count > 0 {
        let br = ctx.br(DeviceId(d as u32));
        lemma_branch_partials(ctx, d, rows, deps, partials, (count - 1) as nat, t);
        lemma_branch_allowed(ctx, d);
        let before = put_branch_partials(ctx, br, deps, partials, (count - 1) as nat, t);
        lemma_partial_in_place(
            ctx,
            d,
            rows,
            before,
            br,
            count - 1,
            partials[count - 1].spec_negated(),
        );
    }
}

proof fn lemma_behavioral<S: Scalar>(
    ctx: &StampCtx<S>,
    d: int,
    rows: spec_fn(int) -> bool,
    t: Seq<Write<S>>,
)
    requires
        ctx.wf(),
        0 <= d < ctx.circuit.devices@.len(),
        covers(ctx, d, rows),
        in_place(ctx, rows, t),
        ctx.circuit.devices@[d] is Behavioral,
    ensures
        in_place(ctx, rows, put_device(ctx, d, t)),
{
    broadcast use group_in_place;

    lemma_two_terminal(ctx, d);
    lemma_conducts(ctx, d, 0, 0);
    lemma_conducts(ctx, d, 1, 1);
    lemma_branch_allowed(ctx, d);
    match ctx.circuit.devices@[d] {
        Device::Behavioral { p, n, output, deps, .. } => {
            assert(ctx.circuit.devices@[d].spec_nodes()[0] == p);
            assert(ctx.circuit.devices@[d].spec_nodes()[1] == n);
            match ctx.behavior@[d] {
                Some(lin) => match output {
                    BOutput::Current => {
                        lemma_current_partials(
                            ctx,
                            d,
                            rows,
                            deps@,
                            lin.partials@,
                            ctx.ix(p),
                            ctx.ix(n),
                            deps@.len(),
                            t,
                        );
                    },
                    BOutput::Voltage => {
                        let br = ctx.br(DeviceId(d as u32));
                        let t1 = crate::stamp::tape::put_incidence::<S>(
                            t,
                            ctx.ix(p),
                            ctx.ix(n),
                            br,
                        );
                        assert(in_place(ctx, rows, t1));
                        lemma_branch_partials(
                            ctx,
                            d,
                            rows,
                            deps@,
                            lin.partials@,
                            deps@.len(),
                            t1,
                        );
                    },
                },
                None => {},
            }
        },
        _ => {},
    }
}

proof fn lemma_device<S: Scalar>(
    ctx: &StampCtx<S>,
    d: int,
    rows: spec_fn(int) -> bool,
    t: Seq<Write<S>>,
)
    requires
        ctx.wf(),
        0 <= d < ctx.circuit.devices@.len(),
        covers(ctx, d, rows),
        in_place(ctx, rows, t),
    ensures
        in_place(ctx, rows, put_device(ctx, d, t)),
{
    let dev = ctx.circuit.devices@[d];
    if dev is Resistor || dev is Capacitor || dev is Isource || dev is Diode || dev is Vsource {
        lemma_passive(ctx, d, rows, t);
    } else if dev is Vcvs || dev is Vccs || dev is VSwitch {
        lemma_controlled(ctx, d, rows, t);
    } else if dev is Cccs || dev is Ccvs {
        lemma_current_controlled(ctx, d, rows, t);
    } else if dev is OpAmp || dev is Comparator {
        lemma_amplifier(ctx, d, rows, t);
    } else if dev is Bjt {
        lemma_bjt(ctx, d, rows, t);
    } else if dev is Mosfet {
        lemma_mosfet(ctx, d, rows, t);
    } else if dev is Inductor {
        lemma_inductor(ctx, d, rows, t);
    } else if dev is Behavioral {
        lemma_behavioral(ctx, d, rows, t);
    } else {
        assert(dev is Coupling);
    }
}

/// Every row of the system.
pub open spec fn system_rows<S: Scalar>(ctx: &StampCtx<S>) -> spec_fn(int) -> bool {
    |r: int| 0 <= r < ctx.layout.size
}

proof fn lemma_system_covers<S: Scalar>(ctx: &StampCtx<S>, d: int)
    requires
        ctx.wf(),
        0 <= d < ctx.circuit.devices@.len(),
    ensures
        covers(ctx, d, system_rows(ctx)),
{
    let devices = ctx.circuit.devices@;
    assert forall|r: int| #[trigger] writable(ctx.circuit, ctx.layout, d, r) implies system_rows(
        ctx,
    )(r) by {
        lemma_branch_range(ctx.circuit, ctx.layout, d);
        lemma_bjt_range(ctx.circuit, ctx.layout, d);
        lemma_mos_range(ctx.circuit, ctx.layout, d);
        if exists|k: int|
            0 <= k < devices[d].spec_conduction_nodes().len() && ctx.layout.spec_node(
                #[trigger] devices[d].spec_conduction_nodes()[k],
            ) == Some(r as usize) && 0 <= r <= usize::MAX {
            let k = choose|k: int|
                0 <= k < devices[d].spec_conduction_nodes().len() && ctx.layout.spec_node(
                    #[trigger] devices[d].spec_conduction_nodes()[k],
                ) == Some(r as usize) && 0 <= r <= usize::MAX;
            lemma_node_range(ctx.circuit, ctx.layout, devices[d].spec_conduction_nodes()[k]);
        }
    }
}

proof fn lemma_devices<S: Scalar>(ctx: &StampCtx<S>, count: nat, t: Seq<Write<S>>)
    requires
        ctx.wf(),
        count <= ctx.circuit.devices@.len(),
        in_place(ctx, system_rows(ctx), t),
    ensures
        in_place(ctx, system_rows(ctx), put_devices(ctx, count, t)),
    decreases count,
{
    if count > 0 {
        lemma_devices(ctx, (count - 1) as nat, t);
        lemma_system_covers(ctx, count - 1);
        lemma_device(
            ctx,
            count - 1,
            system_rows(ctx),
            put_devices(ctx, (count - 1) as nat, t),
        );
    }
}

proof fn lemma_diagonal<S: Scalar>(
    ctx: &StampCtx<S>,
    from: int,
    count: nat,
    v: S,
    t: Seq<Write<S>>,
)
    requires
        0 <= from,
        from + count <= ctx.layout.size,
        in_place(ctx, system_rows(ctx), t),
    ensures
        in_place(ctx, system_rows(ctx), put_diagonal(from, count, v, t)),
    decreases count,
{
    if count > 0 {
        lemma_diagonal(ctx, from, (count - 1) as nat, v, t);
        let r = from + count - 1;
        assert(cells_of(ctx.circuit, ctx.layout)(r, r));
        assert(system_rows(ctx)(r));
        crate::stamp::tape::lemma_confined_g(
            put_diagonal(from, (count - 1) as nat, v, t),
            cells_of(ctx.circuit, ctx.layout),
            system_rows(ctx),
            Some(r as usize),
            Some(r as usize),
            v,
        );
    }
}

/// Every matrix write of an assembly lands in a reserved cell, whatever the
/// iterate, so the pattern frozen before the first assembly never grows; every
/// right-hand-side write lands in the system.
pub proof fn law_writes_stay_in_pattern<S: Scalar>(ctx: &StampCtx<S>, k: int)
    requires
        ctx.wf(),
        0 <= k < system_tape(ctx).len(),
    ensures
        match system_tape(ctx)[k] {
            Write::G(r, c, _) => reserved(ctx.circuit, ctx.layout, r as int, c as int),
            Write::I(r, _) => r < ctx.layout.size,
        },
{
    let empty = Seq::<Write<S>>::empty();
    lemma_node_range(ctx.circuit, ctx.layout, NodeId(0));
    assert(in_place(ctx, system_rows(ctx), empty));
    let t1 = if S::spec_zero().spec_less(ctx.gmin) {
        put_diagonal(0, ctx.layout.n_nodes as nat, ctx.gmin, empty)
    } else {
        empty
    };
    if S::spec_zero().spec_less(ctx.gmin) {
        lemma_diagonal(ctx, 0, ctx.layout.n_nodes as nat, ctx.gmin, empty);
    }
    if S::spec_zero().spec_less(ctx.branch_reg) {
        lemma_diagonal(
            ctx,
            ctx.layout.n_nodes as int,
            (ctx.layout.size - ctx.layout.n_nodes) as nat,
            ctx.branch_reg.spec_negated(),
            t1,
        );
    }
    assert(in_place(ctx, system_rows(ctx), put_shunts(ctx, empty)));
    lemma_devices(ctx, ctx.circuit.devices@.len(), put_shunts(ctx, empty));
    let t = system_tape(ctx);
    assert(in_place(ctx, system_rows(ctx), t));
    match t[k] {
        Write::G(r, c, _) => {
            assert(cells_of(ctx.circuit, ctx.layout)(r as int, c as int));
        },
        Write::I(r, _) => {
            assert(system_rows(ctx)(r as int));
        },
    }
}

/// A device writes only rows it conducts into: a terminal that is merely sensed
/// receives nothing.
pub proof fn law_sensed_rows_receive_nothing<S: Scalar>(ctx: &StampCtx<S>, d: int, k: int)
    requires
        ctx.wf(),
        0 <= d < ctx.circuit.devices@.len(),
        0 <= k < put_device(ctx, d, Seq::empty()).len(),
    ensures
        match put_device(ctx, d, Seq::empty())[k] {
            Write::G(r, c, _) => writable(ctx.circuit, ctx.layout, d, r as int),
            Write::I(r, _) => writable(ctx.circuit, ctx.layout, d, r as int),
        },
{
    let rows = rows_of(ctx.circuit, ctx.layout, d);
    let empty = Seq::<Write<S>>::empty();
    assert forall|r: int| #[trigger] writable(ctx.circuit, ctx.layout, d, r) implies rows(r) by {}
    assert(in_place(ctx, rows, empty));
    lemma_device(ctx, d, rows, empty);
    match put_device(ctx, d, empty)[k] {
        Write::G(r, c, _) => {
            assert(rows(r as int));
        },
        Write::I(r, _) => {
            assert(rows(r as int));
        },
    }
}

/// What one device writes is reserved and within the system.
pub proof fn lemma_device_cells<S: Scalar>(ctx: &StampCtx<S>, d: int)
    requires
        ctx.wf(),
        0 <= d < ctx.circuit.devices@.len(),
    ensures
        confined(
            put_device(ctx, d, Seq::empty()),
            cells_of(ctx.circuit, ctx.layout),
            system_rows(ctx),
        ),
{
    let empty = Seq::<Write<S>>::empty();
    assert(in_place(ctx, system_rows(ctx), empty));
    lemma_system_covers(ctx, d);
    lemma_device(ctx, d, system_rows(ctx), empty);
}

proof fn lemma_constant_in_place<S: Scalar>(
    ctx: &StampCtx<S>,
    d: int,
    rows: spec_fn(int) -> bool,
    t: Seq<Write<S>>,
)
    requires
        ctx.wf(),
        0 <= d < ctx.circuit.devices@.len(),
        covers(ctx, d, rows),
        in_place(ctx, rows, t),
    ensures
        in_place(ctx, rows, put_constant(ctx.circuit, ctx.layout, d, t)),
{
    broadcast use group_in_place;

    let dev = ctx.circuit.devices@[d];
    lemma_branch_allowed(ctx, d);
    assert(ctx.layout.branch_of@[d] == ctx.br(DeviceId(d as u32)));
    if dev is Resistor || dev is Inductor || dev is Vsource || dev is Vcvs || dev is Vccs {
        lemma_two_terminal(ctx, d);
    }
    if dev is Vcvs || dev is Vccs {
        lemma_sensed(ctx, d, 2);
        lemma_sensed(ctx, d, 3);
    }
    if dev is Cccs || dev is Ccvs {
        lemma_current_controlled(ctx, d, rows, t);
    }
}

proof fn lemma_mutual_factors_in_place<S: Scalar>(
    ctx: &StampCtx<S>,
    d: int,
    rows: spec_fn(int) -> bool,
    count: nat,
    t: Seq<Write<S>>,
)
    requires
        ctx.wf(),
        0 <= d < ctx.circuit.devices@.len(),
        covers(ctx, d, rows),
        in_place(ctx, rows, t),
        count <= ctx.layout.couplings@[d]@.len(),
    ensures
        in_place(
            ctx,
            rows,
            put_mutual_factors(
                ctx.layout,
                ctx.layout.branch_of@[d],
                ctx.layout.couplings@[d]@,
                count,
                t,
            ),
        ),
    decreases count,
{
    if count > 0 {
        let br = ctx.layout.branch_of@[d];
        let ps = ctx.layout.couplings@[d]@;
        let devices = ctx.circuit.devices@;
        lemma_mutual_factors_in_place(ctx, d, rows, (count - 1) as nat, t);
        lemma_branch_allowed(ctx, d);
        let before = put_mutual_factors(ctx.layout, br, ps, (count - 1) as nat, t);
        let (pid, m) = ps[count - 1];
        let col = ctx.layout.branch_of@[pid.0 as int];
        if br is Some && col is Some {
            let r = br->0 as int;
            let c = col->0 as int;
            let j = lemma_partner_coupling(devices, d, devices.len(), count - 1);
            assert(own_branch(ctx.layout, d, r));
            assert(own_branch(ctx.layout, pid.0 as int, c));
            assert(control_cell(
                ctx.circuit,
                ctx.layout,
                j,
                devices[j].spec_controls()[0],
                r,
                c,
            ));
            assert(device_cell(ctx.circuit, ctx.layout, j, r, c));
            assert(cells_of(ctx.circuit, ctx.layout)(r, c));
            assert(rows(r));
        }
        crate::stamp::tape::lemma_confined_g(
            before,
            cells_of(ctx.circuit, ctx.layout),
            rows,
            br,
            col,
            m.spec_negated(),
        );
    }
}

proof fn lemma_reactive_in_place<S: Scalar>(
    ctx: &StampCtx<S>,
    d: int,
    rows: spec_fn(int) -> bool,
    t: Seq<Write<S>>,
)
    requires
        ctx.wf(),
        0 <= d < ctx.circuit.devices@.len(),
        covers(ctx, d, rows),
        in_place(ctx, rows, t),
    ensures
        in_place(ctx, rows, put_reactive(ctx.circuit, ctx.layout, d, t)),
{
    broadcast use group_in_place;

    lemma_branch_allowed(ctx, d);
    let br = ctx.layout.branch_of@[d];
    assert(br == ctx.br(DeviceId(d as u32)));
    match ctx.circuit.devices@[d] {
        Device::Capacitor { .. } => {
            lemma_two_terminal(ctx, d);
        },
        Device::Inductor { henries, .. } => {
            let own_term = put_g(t, br, br, henries.spec_negated());
            assert(in_place(ctx, rows, own_term));
            lemma_mutual_factors_in_place(
                ctx,
                d,
                rows,
                ctx.layout.couplings@[d]@.len(),
                own_term,
            );
        },
        _ => {},
    }
}

/// The backbone of a plan is reserved and within the system.
pub proof fn lemma_backbone_cells<S: Scalar>(ctx: &StampCtx<S>, count: nat)
    requires
        ctx.wf(),
        count <= ctx.circuit.devices@.len(),
    ensures
        confined(
            constant_tape(ctx.circuit, ctx.layout, count),
            cells_of(ctx.circuit, ctx.layout),
            system_rows(ctx),
        ),
        confined(
            reactive_tape(ctx.circuit, ctx.layout, count),
            cells_of(ctx.circuit, ctx.layout),
            system_rows(ctx),
        ),
    decreases count,
{
    if count > 0 {
        lemma_backbone_cells(ctx, (count - 1) as nat);
        lemma_system_covers(ctx, count - 1);
        let a = constant_tape(ctx.circuit, ctx.layout, (count - 1) as nat);
        let b = reactive_tape(ctx.circuit, ctx.layout, (count - 1) as nat);
        assert(in_place(ctx, system_rows(ctx), a));
        assert(in_place(ctx, system_rows(ctx), b));
        lemma_constant_in_place(ctx, count - 1, system_rows(ctx), a);
        lemma_reactive_in_place(ctx, count - 1, system_rows(ctx), b);
        assert(in_place(
            ctx,
            system_rows(ctx),
            constant_tape(ctx.circuit, ctx.layout, count),
        ));
    }
}

} // verus!
