//! Compiling a plan, and assembling by it.
use vstd::prelude::*;

use crate::circuit::{Circuit, Device, DeviceId};
use crate::plan::backbone::{
    constant_tape, push_constant, push_reactive, reactive_tape, visit, visit_of, Visit,
};
use crate::plan::slots::{apply_ops, ops_fit, ops_tape, present, resolve, scaled, SlotTable};
use crate::scalar::Scalar;
use crate::sparse::SparseMatrix;
use crate::stamp::context::controls_resolve;
use crate::stamp::device::put_diagonal;
use crate::stamp::pattern::{branch_list, listed, own, own_branch, own_unknowns};
use crate::stamp::tape::{assembled, Write};
use crate::system::{couplings_resolve, Layout};

verus! {

/// A device visited again at each assembly.
#[derive(Debug)]
pub enum Restamp {
    /// For its right-hand side.
    RhsOnly { id: DeviceId },
    /// In full, with the slots it may write.
    Slotted { id: DeviceId, table: SlotTable },
}

impl Restamp {
    pub open spec fn key(&self) -> (DeviceId, bool) {
        match self {
            Restamp::RhsOnly { id } => (*id, false),
            Restamp::Slotted { id, .. } => (*id, true),
        }
    }
}

/// The devices among the first `count` that are visited again, and whether in
/// full.
pub open spec fn visits<S>(devices: Seq<Device<S>>, count: nat) -> Seq<(DeviceId, bool)>
    decreases count,
{
    if count == 0 {
        Seq::empty()
    } else {
        let rest = visits(devices, (count - 1) as nat);
        match visit_of(devices[count - 1]) {
            Visit::Skip => rest,
            Visit::RhsOnly => rest.push((DeviceId((count - 1) as u32), false)),
            Visit::Full => rest.push((DeviceId((count - 1) as u32), true)),
        }
    }
}

/// Constant contributions resolved to slots, and the devices to visit again.
#[derive(Debug)]
pub struct StampPlan<S> {
    /// Constant writes `(row, position, value)`.
    pub cond_ops: Vec<(usize, usize, S)>,
    /// Slots of the node diagonals.
    pub gmin_diag: Vec<(usize, usize)>,
    /// Writes to be multiplied by the integration factor.
    pub reactive_ops: Vec<(usize, usize, S)>,
    /// Devices visited again, in circuit order.
    pub restamp: Vec<Restamp>,
}

/// Slots with one value each.
pub open spec fn with_value<S>(slots: Seq<(usize, usize)>, v: S) -> Seq<(usize, usize, S)> {
    Seq::new(slots.len(), |k: int| (slots[k].0, slots[k].1, v))
}

/// The unknowns a fully visited device may write or read.
pub open spec fn table_unknown<S: Scalar>(
    circuit: &Circuit<S>,
    layout: &Layout<S>,
    d: int,
    i: int,
) -> bool {
    ||| own(circuit, layout, d, i)
    ||| circuit.devices@[d] is Behavioral && (own_branch(layout, d, i) || exists|k: int|
        0 <= k < circuit.devices@[d].spec_controls().len() && own_branch(
            layout,
            (#[trigger] circuit.devices@[d].spec_controls()[k]).0 as int,
            i,
        ))
}

impl<S: Scalar> StampPlan<S> {
    /// Whether this is the plan of the circuit for matrices of the pattern of `m`.
    pub open spec fn compiled(
        &self,
        circuit: &Circuit<S>,
        layout: &Layout<S>,
        m: &SparseMatrix<S>,
    ) -> bool {
        let n = circuit.devices@.len();
        &&& ops_fit(m, self.cond_ops@)
        &&& ops_tape(m, self.cond_ops@) == present(m, constant_tape(circuit, layout, n))
        &&& ops_fit(m, self.reactive_ops@)
        &&& ops_tape(m, self.reactive_ops@) == present(m, reactive_tape(circuit, layout, n))
        &&& forall|v: S|
            #[trigger] ops_fit(m, with_value(self.gmin_diag@, v)) && ops_tape(
                m,
                with_value(self.gmin_diag@, v),
            ) == present(m, put_diagonal(0, layout.n_nodes as nat, v, Seq::empty()))
        &&& self.restamp@.len() == visits(circuit.devices@, n).len()
        &&& forall|k: int|
            #![trigger self.restamp@[k]]
            0 <= k < self.restamp@.len() ==> self.restamp@[k].key() == visits(
                circuit.devices@,
                n,
            )[k] && match self.restamp@[k] {
                Restamp::Slotted { id, table } => table.fits(m) && forall|i: int|
                    #[trigger] listed(table.unknowns@, i) <==> table_unknown(
                        circuit,
                        layout,
                        id.0 as int,
                        i,
                    ),
                _ => true,
            }
    }
}

/// Add an unknown to a list that does not have it.
fn push_new(v: &mut Vec<usize>, u: usize)
    ensures
        forall|i: int| #[trigger] listed(final(v)@, i) <==> listed(old(v)@, i) || i == u,
{
    let ghost held = v@;
    let mut k: usize = 0;
    while k < v.len()
        invariant
            v@ == held,
            k <= v@.len(),
        decreases v@.len() - k,
    {
        if v[k] == u {
            assert(listed(held, u as int)) by {
                assert(held[k as int] == u);
            }
            return ;
        }
        k = k + 1;
    }
    v.push(u);
    assert forall|i: int| #[trigger] listed(v@, i) <==> listed(held, i) || i == u by {
        if listed(held, i) {
            let j = choose|j: int| 0 <= j < held.len() && #[trigger] held[j] == i;
            assert(v@[j] == i);
        }
        if i == u {
            assert(v@[held.len() as int] == i);
        }
        if listed(v@, i) {
            let j = choose|j: int| 0 <= j < v@.len() && #[trigger] v@[j] == i;
            if j < held.len() {
                assert(held[j] == i);
            }
        }
    }
}

fn push_all(v: &mut Vec<usize>, more: &Vec<usize>)
    ensures
        forall|i: int| #[trigger] listed(final(v)@, i) <==> listed(old(v)@, i) || listed(more@, i),
{
    let ghost held = v@;
    let mut k: usize = 0;
    while k < more.len()
        invariant
            k <= more@.len(),
            forall|i: int|
                #[trigger] listed(v@, i) <==> listed(held, i) || listed(more@.take(k as int), i),
        decreases more@.len() - k,
    {
        let ghost now = v@;
        push_new(v, more[k]);
        proof {
            crate::stamp::pattern::lemma_listed(more@, k as int);
            assert forall|i: int|
                #[trigger] listed(v@, i) <==> listed(held, i) || listed(more@.take(k + 1), i) by {
                assert(listed(now, i) <==> listed(held, i) || listed(more@.take(k as int), i));
            }
        }
        k = k + 1;
    }
    assert(more@.take(k as int) =~= more@);
}

/// The unknowns a fully visited device may write or read.
fn table_unknowns<S: Scalar>(circuit: &Circuit<S>, layout: &Layout<S>, d: usize) -> (r: Vec<usize>)
    requires
        circuit.wf(),
        layout.lays_out(circuit),
        controls_resolve(circuit.devices@),
        d < circuit.devices@.len(),
    ensures
        forall|i: int| #[trigger] listed(r@, i) <==> table_unknown(circuit, layout, d as int, i),
{
    let ghost dev = circuit.devices@[d as int];
    let nodes = own_unknowns(circuit, layout, d);
    let mut out: Vec<usize> = Vec::new();
    push_all(&mut out, &nodes);
    assert forall|i: int| #[trigger] listed(out@, i) <==> own(circuit, layout, d as int, i) by {
        assert(listed(nodes@, i) <==> own(circuit, layout, d as int, i));
    }
    let behavioral: bool = match &circuit.devices[d] {
        Device::Behavioral { .. } => true,
        _ => false,
    };
    if behavioral {
        let br = branch_list(circuit, layout, DeviceId(d as u32));
        push_all(&mut out, &br);
        let controls = circuit.devices[d].controlling_sources();
        let mut k: usize = 0;
        while k < controls.len()
            invariant
                k <= controls@.len(),
                layout.lays_out(circuit),
                controls_resolve(circuit.devices@),
                d < circuit.devices@.len(),
                dev == circuit.devices@[d as int],
                controls@ == dev.spec_controls(),
                forall|i: int|
                    #[trigger] listed(out@, i) <==> own(circuit, layout, d as int, i)
                        || own_branch(layout, d as int, i) || exists|j: int|
                        0 <= j < k && own_branch(
                            layout,
                            (#[trigger] dev.spec_controls()[j]).0 as int,
                            i,
                        ),
            decreases controls@.len() - k,
        {
            let ghost now = out@;
            assert(circuit.devices@[d as int].spec_controls()[k as int] == controls@[k as int]);
            let cbr = branch_list(circuit, layout, controls[k]);
            push_all(&mut out, &cbr);
            assert forall|i: int|
                #[trigger] listed(out@, i) <==> own(circuit, layout, d as int, i) || own_branch(
                    layout,
                    d as int,
                    i,
                ) || exists|j: int|
                    0 <= j < k + 1 && own_branch(
                        layout,
                        (#[trigger] dev.spec_controls()[j]).0 as int,
                        i,
                    ) by {
                assert(listed(now, i) <==> own(circuit, layout, d as int, i) || own_branch(
                    layout,
                    d as int,
                    i,
                ) || exists|j: int|
                    0 <= j < k && own_branch(
                        layout,
                        (#[trigger] dev.spec_controls()[j]).0 as int,
                        i,
                    ));
                assert(listed(cbr@, i) <==> own_branch(
                    layout,
                    dev.spec_controls()[k as int].0 as int,
                    i,
                ));
            }
            k = k + 1;
        }
    }
    out
}

impl<S: Scalar> StampPlan<S> {
    /// Resolve the constant contributions of a circuit against a frozen pattern,
    /// and list the devices to visit again.
    pub fn compile(circuit: &Circuit<S>, layout: &Layout<S>, matrix: &SparseMatrix<S>) -> (r:
        StampPlan<S>)
        requires
            circuit.wf(),
            layout.lays_out(circuit),
            couplings_resolve(circuit.devices@),
            controls_resolve(circuit.devices@),
            matrix.wf(),
        ensures
            r.compiled(circuit, layout, matrix),
    {
        let ghost devs = circuit.devices@;
        let mut constant: Vec<Write<S>> = Vec::new();
        let mut reactive: Vec<Write<S>> = Vec::new();
        let mut restamp: Vec<Restamp> = Vec::new();
        assert(constant@ =~= constant_tape(circuit, layout, 0));
        assert(reactive@ =~= reactive_tape(circuit, layout, 0));
        let mut d: usize = 0;
        while d < circuit.devices.len()
            invariant
                d <= devs.len(),
                devs == circuit.devices@,
                circuit.wf(),
                layout.lays_out(circuit),
                couplings_resolve(devs),
                controls_resolve(devs),
                matrix.wf(),
                constant@ == constant_tape(circuit, layout, d as nat),
                reactive@ == reactive_tape(circuit, layout, d as nat),
                restamp@.len() == visits(devs, d as nat).len(),
                forall|k: int|
                    #![trigger restamp@[k]]
                    0 <= k < restamp@.len() ==> restamp@[k].key() == visits(devs, d as nat)[k]
                        && match restamp@[k] {
                        Restamp::Slotted { id, table } => table.fits(matrix) && forall|i: int|
                            #[trigger] listed(table.unknowns@, i) <==> table_unknown(
                                circuit,
                                layout,
                                id.0 as int,
                                i,
                            ),
                        _ => true,
                    },
            decreases devs.len() - d,
        {
            push_constant(circuit, layout, d, &mut constant);
            push_reactive(circuit, layout, d, &mut reactive);
            let id = DeviceId(d as u32);
            match visit(&circuit.devices[d]) {
                Visit::Skip => {},
                Visit::RhsOnly => {
                    restamp.push(Restamp::RhsOnly { id });
                },
                Visit::Full => {
                    let unknowns = table_unknowns(circuit, layout, d);
                    let table = SlotTable::build(unknowns, matrix);
                    restamp.push(Restamp::Slotted { id, table });
                },
            }
            d = d + 1;
        }
        let cond_ops = resolve(&constant, matrix);
        let reactive_ops = resolve(&reactive, matrix);
        let mut gmin_diag: Vec<(usize, usize)> = Vec::new();
        assert forall|v: S| #[trigger] ops_fit(matrix, with_value(gmin_diag@, v)) && ops_tape(
            matrix,
            with_value(gmin_diag@, v),
        ) == present(matrix, put_diagonal(0, 0, v, Seq::empty())) by {
            assert(ops_tape(matrix, with_value(gmin_diag@, v)) =~= present(
                matrix,
                put_diagonal(0, 0, v, Seq::empty()),
            ));
        }
        let mut i: usize = 0;
        while i < layout.n_nodes
            invariant
                i <= layout.n_nodes,
                matrix.wf(),
                forall|v: S|
                    #[trigger] ops_fit(matrix, with_value(gmin_diag@, v)) && ops_tape(
                        matrix,
                        with_value(gmin_diag@, v),
                    ) == present(matrix, put_diagonal(0, i as nat, v, Seq::empty())),
            decreases layout.n_nodes - i,
        {
            let ghost held = gmin_diag@;
            if i < matrix.dim() {
                match matrix.slot(i, i) {
                    Some(s) => {
                        gmin_diag.push(s);
                    },
                    None => {},
                }
            }
            assert forall|v: S| #[trigger] ops_fit(matrix, with_value(gmin_diag@, v)) && ops_tape(
                matrix,
                with_value(gmin_diag@, v),
            ) == present(matrix, put_diagonal(0, (i + 1) as nat, v, Seq::empty())) by {
                let before = put_diagonal(0, i as nat, v, Seq::<Write<S>>::empty());
                let after = put_diagonal(0, (i + 1) as nat, v, Seq::<Write<S>>::empty());
                assert(after.drop_last() =~= before);
                assert(after.last() == Write::G(i, i, v));
                assert(ops_fit(matrix, with_value(held, v)));
                assert forall|k: int| 0 <= k < with_value(gmin_diag@, v).len() implies (
                #[trigger] with_value(gmin_diag@, v)[k]).0 < matrix.spec_dim() && with_value(
                    gmin_diag@,
                    v,
                )[k].1 < matrix.entries(with_value(gmin_diag@, v)[k].0 as int).len() by {
                    if k < held.len() {
                        assert(with_value(gmin_diag@, v)[k] == with_value(held, v)[k]);
                    }
                }
                if matrix.has(i as int, i as int) {
                    assert(ops_tape(matrix, with_value(gmin_diag@, v)) =~= ops_tape(
                        matrix,
                        with_value(held, v),
                    ).push(Write::G(i, i, v)));
                } else {
                    assert(gmin_diag@ == held);
                }
            }
            i = i + 1;
        }
        StampPlan { cond_ops, gmin_diag, reactive_ops, restamp }
    }

    /// Add the constant contributions.
    pub fn apply_conductances(&self, m: &mut SparseMatrix<S>)
        requires
            old(m).wf(),
            ops_fit(old(m), self.cond_ops@),
        ensures
            final(m).same_pattern(old(m)),
            assembled(old(m), ops_tape(old(m), self.cond_ops@), final(m)),
    {
        apply_ops(&self.cond_ops, None, m);
    }

    /// Add the reactive contributions for an integration factor.
    pub fn apply_reactive(&self, m: &mut SparseMatrix<S>, coeffs_g: S)
        requires
            old(m).wf(),
            ops_fit(old(m), self.reactive_ops@),
        ensures
            final(m).same_pattern(old(m)),
            assembled(
                old(m),
                scaled(ops_tape(old(m), self.reactive_ops@), coeffs_g),
                final(m),
            ),
    {
        apply_ops(&self.reactive_ops, Some(coeffs_g), m);
    }

    /// Add a conductance to ground on every node diagonal.
    pub fn apply_gmin(&self, m: &mut SparseMatrix<S>, gmin: S)
        requires
            old(m).wf(),
            ops_fit(old(m), with_value(self.gmin_diag@, gmin)),
        ensures
            final(m).same_pattern(old(m)),
            assembled(
                old(m),
                if gmin.spec_is_zero() {
                    Seq::empty()
                } else {
                    ops_tape(old(m), with_value(self.gmin_diag@, gmin))
                },
                final(m),
            ),
    {
        if gmin.is_zero() {
            return ;
        }
        let mut ops: Vec<(usize, usize, S)> = Vec::new();
        let mut k: usize = 0;
        while k < self.gmin_diag.len()
            invariant
                k <= self.gmin_diag@.len(),
                ops@ == with_value(self.gmin_diag@.take(k as int), gmin),
            decreases self.gmin_diag@.len() - k,
        {
            let (r, p) = self.gmin_diag[k];
            ops.push((r, p, gmin));
            assert(ops@ =~= with_value(self.gmin_diag@.take(k + 1), gmin));
            k = k + 1;
        }
        assert(self.gmin_diag@.take(k as int) =~= self.gmin_diag@);
        apply_ops(&ops, None, m);
    }

    /// Number of constant writes.
    pub fn cond_op_count(&self) -> (r: usize)
        ensures
            r == self.cond_ops@.len(),
    {
        self.cond_ops.len()
    }

    /// Number of reactive writes.
    pub fn reactive_op_count(&self) -> (r: usize)
        ensures
            r == self.reactive_ops@.len(),
    {
        self.reactive_ops.len()
    }

    /// Number of devices visited again.
    pub fn restamp_count(&self) -> (r: usize)
        ensures
            r == self.restamp@.len(),
    {
        self.restamp.len()
    }
}

} // verus!
