//! The cells devices may write, reserved before the first assembly.
use vstd::prelude::*;

use crate::circuit::{BOutput, Circuit, Device, DeviceId, NodeId};
use crate::scalar::Scalar;
use crate::sparse::SparseMatrix;
use crate::stamp::context::{controls_resolve, lemma_branch_range, lemma_node_range};
use crate::stamp::bjt::lemma_bjt_range;
use crate::stamp::mosfet::lemma_mos_range;
use crate::system::{couplings_resolve, Layout};

verus! {

/// Whether the unknown is that of a node private to the device, behind one of its
/// series resistances.
pub open spec fn private<S: Scalar>(layout: &Layout<S>, d: int, i: int) -> bool {
    &&& 0 <= i <= usize::MAX
    &&& {
        ||| exists|k: int|
            0 <= k < 3 && #[trigger] layout.bjt_internal_of@[d]@[k] == Some(i as usize)
        ||| exists|k: int|
            0 <= k < 2 && #[trigger] layout.mos_internal_of@[d]@[k] == Some(i as usize)
    }
}

/// Whether the unknown is that of a node of the device, or of a node private to
/// it.
pub open spec fn own<S: Scalar>(
    circuit: &Circuit<S>,
    layout: &Layout<S>,
    d: int,
    i: int,
) -> bool {
    ||| exists|k: int|
        0 <= k < circuit.devices@[d].spec_nodes().len() && layout.spec_node(
            #[trigger] circuit.devices@[d].spec_nodes()[k],
        ) == Some(i as usize) && 0 <= i <= usize::MAX
    ||| private(layout, d, i)
}

/// Whether the unknown is the branch of the device.
pub open spec fn own_branch<S: Scalar>(layout: &Layout<S>, d: int, i: int) -> bool {
    0 <= i <= usize::MAX && layout.branch_of@[d] == Some(i as usize)
}

/// Whether reading the branch of `ctrl` takes the cell.
pub open spec fn control_cell<S: Scalar>(
    circuit: &Circuit<S>,
    layout: &Layout<S>,
    d: int,
    ctrl: DeviceId,
    r: int,
    c: int,
) -> bool {
    match circuit.devices@[d] {
        Device::Cccs { .. } => own(circuit, layout, d, r) && own_branch(layout, ctrl.0 as int, c),
        Device::Ccvs { .. } => own_branch(layout, d, r) && own_branch(layout, ctrl.0 as int, c),
        Device::Behavioral { output, .. } => match output {
            BOutput::Current => own(circuit, layout, d, r) && own_branch(
                layout,
                ctrl.0 as int,
                c,
            ),
            BOutput::Voltage => own_branch(layout, d, r) && own_branch(layout, ctrl.0 as int, c),
        },
        Device::Coupling { l1, l2, .. } => {
            ||| own_branch(layout, l1.0 as int, r) && own_branch(layout, l2.0 as int, c)
            ||| own_branch(layout, l2.0 as int, r) && own_branch(layout, l1.0 as int, c)
        },
        _ => false,
    }
}

/// Whether some control of the device takes the cell.
pub open spec fn controls_cell<S: Scalar>(
    circuit: &Circuit<S>,
    layout: &Layout<S>,
    d: int,
    count: int,
    r: int,
    c: int,
) -> bool {
    exists|k: int|
        0 <= k < count && control_cell(
            circuit,
            layout,
            d,
            #[trigger] circuit.devices@[d].spec_controls()[k],
            r,
            c,
        )
}

/// Whether the device may write the cell.
pub open spec fn device_cell<S: Scalar>(
    circuit: &Circuit<S>,
    layout: &Layout<S>,
    d: int,
    r: int,
    c: int,
) -> bool {
    ||| own(circuit, layout, d, r) && own(circuit, layout, d, c)
    ||| own_branch(layout, d, r) && own_branch(layout, d, c)
    ||| own_branch(layout, d, r) && own(circuit, layout, d, c)
    ||| own(circuit, layout, d, r) && own_branch(layout, d, c)
    ||| controls_cell(
        circuit,
        layout,
        d,
        circuit.devices@[d].spec_controls().len() as int,
        r,
        c,
    )
}

/// Whether one of the first `count` devices may write the cell.
pub open spec fn devices_cell<S: Scalar>(
    circuit: &Circuit<S>,
    layout: &Layout<S>,
    count: int,
    r: int,
    c: int,
) -> bool {
    exists|d: int| 0 <= d < count && #[trigger] device_cell(circuit, layout, d, r, c)
}

/// The reserved cells: the diagonal, and what devices may write.
pub open spec fn reserved<S: Scalar>(
    circuit: &Circuit<S>,
    layout: &Layout<S>,
    r: int,
    c: int,
) -> bool {
    ||| 0 <= r < layout.size && r == c
    ||| devices_cell(circuit, layout, circuit.devices@.len() as int, r, c)
}

/// Touch every cell of a block.
fn touch_block<S: Scalar>(m: &mut SparseMatrix<S>, rows: &Vec<usize>, cols: &Vec<usize>)
    requires
        old(m).wf(),
        forall|i: int| 0 <= i < rows@.len() ==> rows@[i] < old(m).spec_dim(),
        forall|i: int| 0 <= i < cols@.len() ==> cols@[i] < old(m).spec_dim(),
    ensures
        final(m).wf(),
        final(m).spec_dim() == old(m).spec_dim(),
        forall|r: int, c: int|
            #[trigger] final(m).has(r, c) <==> old(m).has(r, c) || (listed(rows@, r) && listed(
                cols@,
                c,
            )),
        forall|r: int, c: int| #[trigger] final(m).value(r, c) == old(m).value(r, c),
{
    let ghost m0 = *m;
    let mut i: usize = 0;
    while i < rows.len()
        invariant
            i <= rows@.len(),
            m.wf(),
            m.spec_dim() == m0.spec_dim(),
            forall|i: int| 0 <= i < rows@.len() ==> rows@[i] < m0.spec_dim(),
            forall|i: int| 0 <= i < cols@.len() ==> cols@[i] < m0.spec_dim(),
            forall|r: int, c: int|
                #[trigger] m.has(r, c) <==> m0.has(r, c) || (listed(rows@.take(i as int), r)
                    && listed(cols@, c)),
            forall|r: int, c: int| #[trigger] m.value(r, c) == m0.value(r, c),
        decreases rows@.len() - i,
    {
        let ghost m1 = *m;
        let row: usize = rows[i];
        let mut j: usize = 0;
        while j < cols.len()
            invariant
                j <= cols@.len(),
                row < m1.spec_dim(),
                m.wf(),
                m.spec_dim() == m1.spec_dim(),
                forall|i: int| 0 <= i < cols@.len() ==> cols@[i] < m1.spec_dim(),
                forall|r: int, c: int|
                    #[trigger] m.has(r, c) <==> m1.has(r, c) || (r == row && listed(
                        cols@.take(j as int),
                        c,
                    )),
                forall|r: int, c: int| #[trigger] m.value(r, c) == m1.value(r, c),
            decreases cols@.len() - j,
        {
            let ghost m2 = *m;
            m.touch(row, cols[j]);
            proof {
                lemma_listed(cols@, j as int);
                assert forall|r: int, c: int| #[trigger] m.has(r, c) <==> m1.has(r, c) || (r == row
                    && listed(cols@.take(j + 1), c)) by {
                    assert(m2.has(r, c) <==> m1.has(r, c) || (r == row && listed(
                        cols@.take(j as int),
                        c,
                    )));
                }
                assert forall|r: int, c: int| #[trigger] m.value(r, c) == m1.value(r, c) by {
                    assert(m2.value(r, c) == m1.value(r, c));
                }
            }
            j = j + 1;
        }
        assert(cols@.take(j as int) =~= cols@);
        proof {
            lemma_listed(rows@, i as int);
            assert forall|r: int, c: int| #[trigger] m.has(r, c) <==> m0.has(r, c) || (listed(
                rows@.take(i + 1),
                r,
            ) && listed(cols@, c)) by {
                assert(m1.has(r, c) <==> m0.has(r, c) || (listed(rows@.take(i as int), r)
                    && listed(cols@, c)));
            }
            assert forall|r: int, c: int| #[trigger] m.value(r, c) == m0.value(r, c) by {
                assert(m1.value(r, c) == m0.value(r, c));
            }
        }
        i = i + 1;
    }
    assert(rows@.take(i as int) =~= rows@);
}

/// Whether the list holds the number.
pub open spec fn listed(v: Seq<usize>, i: int) -> bool {
    exists|k: int| 0 <= k < v.len() && #[trigger] v[k] == i
}

pub proof fn lemma_listed(v: Seq<usize>, j: int)
    requires
        0 <= j < v.len(),
    ensures
        forall|i: int| #[trigger] listed(v.take(j + 1), i) <==> listed(v.take(j), i) || i == v[j],
{
    assert forall|i: int| #[trigger] listed(v.take(j + 1), i) <==> listed(v.take(j), i) || i
        == v[j] by {
        if listed(v.take(j), i) {
            let k = choose|k: int| 0 <= k < v.take(j).len() && #[trigger] v.take(j)[k] == i;
            assert(v.take(j + 1)[k] == i);
        }
        if i == v[j] {
            assert(v.take(j + 1)[j] == i);
        }
        if listed(v.take(j + 1), i) {
            let k = choose|k: int| 0 <= k < v.take(j + 1).len() && #[trigger] v.take(j + 1)[k] == i;
            if k < j {
                assert(v.take(j)[k] == i);
            }
        }
    }
}

/// A device's own unknowns are node unknowns.
pub proof fn lemma_own_range<S: Scalar>(
    circuit: &Circuit<S>,
    layout: &Layout<S>,
    d: int,
    i: int,
)
    requires
        circuit.wf(),
        layout.lays_out(circuit),
        0 <= d < circuit.devices@.len(),
        own(circuit, layout, d, i),
    ensures
        0 <= i < layout.n_nodes <= layout.size,
{
    let devices = circuit.devices@;
    lemma_node_range(circuit, layout, NodeId(0));
    if exists|k: int|
        0 <= k < devices[d].spec_nodes().len() && layout.spec_node(
            #[trigger] devices[d].spec_nodes()[k],
        ) == Some(i as usize) && 0 <= i <= usize::MAX {
        let k = choose|k: int|
            0 <= k < devices[d].spec_nodes().len() && layout.spec_node(
                #[trigger] devices[d].spec_nodes()[k],
            ) == Some(i as usize) && 0 <= i <= usize::MAX;
        lemma_node_range(circuit, layout, devices[d].spec_nodes()[k]);
    } else {
        lemma_bjt_range(circuit, layout, d);
        lemma_mos_range(circuit, layout, d);
        if exists|k: int|
            0 <= k < 3 && #[trigger] layout.bjt_internal_of@[d]@[k] == Some(i as usize) {
            let k = choose|k: int|
                0 <= k < 3 && #[trigger] layout.bjt_internal_of@[d]@[k] == Some(i as usize);
            assert(layout.bjt_internal_of@[d]@[k] == Some(i as usize));
        } else {
            let k = choose|k: int|
                0 <= k < 2 && #[trigger] layout.mos_internal_of@[d]@[k] == Some(i as usize);
            assert(layout.mos_internal_of@[d]@[k] == Some(i as usize));
        }
    }
}

/// The reserved cells are within the system.
pub proof fn lemma_reserved_range<S: Scalar>(
    circuit: &Circuit<S>,
    layout: &Layout<S>,
    r: int,
    c: int,
)
    requires
        circuit.wf(),
        layout.lays_out(circuit),
        couplings_resolve(circuit.devices@),
        controls_resolve(circuit.devices@),
        reserved(circuit, layout, r, c),
    ensures
        0 <= r < layout.size,
        0 <= c < layout.size,
{
    let devices = circuit.devices@;
    if !(0 <= r < layout.size && r == c) {
        let d = choose|d: int|
            0 <= d < devices.len() && #[trigger] device_cell(circuit, layout, d, r, c);
        lemma_branch_range(circuit, layout, d);
        if own(circuit, layout, d, r) {
            lemma_own_range(circuit, layout, d, r);
        }
        if own(circuit, layout, d, c) {
            lemma_own_range(circuit, layout, d, c);
        }
        if controls_cell(circuit, layout, d, devices[d].spec_controls().len() as int, r, c) {
            let k = choose|k: int|
                0 <= k < devices[d].spec_controls().len() && control_cell(
                    circuit,
                    layout,
                    d,
                    #[trigger] devices[d].spec_controls()[k],
                    r,
                    c,
                );
            let ctrl = devices[d].spec_controls()[k];
            assert(ctrl.0 < devices.len());
            lemma_branch_range(circuit, layout, ctrl.0 as int);
            match devices[d] {
                Device::Coupling { l1, l2, .. } => {
                    lemma_branch_range(circuit, layout, l1.0 as int);
                    lemma_branch_range(circuit, layout, l2.0 as int);
                },
                _ => {},
            }
        }
    }
}

/// The own unknowns of a device, as a list.
pub fn own_unknowns<S: Scalar>(circuit: &Circuit<S>, layout: &Layout<S>, d: usize) -> (r: Vec<usize>)
    requires
        circuit.wf(),
        layout.lays_out(circuit),
        d < circuit.devices@.len(),
    ensures
        forall|i: int| #[trigger] listed(r@, i) <==> own(circuit, layout, d as int, i),
        forall|k: int| 0 <= k < r@.len() ==> r@[k] < layout.size,
{
    let ghost devices = circuit.devices@;
    let nodes = circuit.devices[d].nodes();
    let mut out: Vec<usize> = Vec::new();
    proof {
        lemma_node_range(circuit, layout, NodeId(0));
    }
    let mut k: usize = 0;
    while k < nodes.len()
        invariant
            k <= nodes@.len(),
            circuit.wf(),
            layout.lays_out(circuit),
            nodes@ == devices[d as int].spec_nodes(),
            layout.external() <= usize::MAX,
            forall|i: int|
                #[trigger] listed(out@, i) <==> 0 <= i <= usize::MAX && exists|j: int|
                    0 <= j < k && layout.spec_node(#[trigger] nodes@[j]) == Some(i as usize),
        decreases nodes@.len() - k,
    {
        let ghost held = out@;
        match layout.node(nodes[k]) {
            Some(u) => {
                out.push(u);
                proof {
                    lemma_listed(out@, held.len() as int);
                    assert(out@.take(held.len() as int) =~= held);
                    assert(out@.take(held.len() as int + 1) =~= out@);
                }
            },
            None => {},
        }
        assert forall|i: int|
            #[trigger] listed(out@, i) <==> 0 <= i <= usize::MAX && exists|j: int|
                0 <= j < k + 1 && layout.spec_node(#[trigger] nodes@[j]) == Some(i as usize) by {
            assert(listed(held, i) <==> 0 <= i <= usize::MAX && exists|j: int|
                0 <= j < k && layout.spec_node(#[trigger] nodes@[j]) == Some(i as usize));
            if layout.spec_node(nodes@[k as int]) == Some(i as usize) && 0 <= i <= usize::MAX {
                assert(listed(out@, i));
            }
            if listed(held, i) {
                let j = choose|j: int|
                    0 <= j < k && layout.spec_node(#[trigger] nodes@[j]) == Some(i as usize);
                assert(layout.spec_node(nodes@[j]) == Some(i as usize));
            }
        }
        k = k + 1;
    }
    let ghost from_nodes = out@;
    let ints = &layout.bjt_internal_of[d];
    let mut t: usize = 0;
    while t < 3
        invariant
            t <= 3,
            d < devices.len(),
            devices == circuit.devices@,
            layout.lays_out(circuit),
            *ints == layout.bjt_internal_of@[d as int],
            forall|i: int|
                #[trigger] listed(out@, i) <==> listed(from_nodes, i) || (0 <= i <= usize::MAX
                    && exists|j: int|
                    0 <= j < t && #[trigger] layout.bjt_internal_of@[d as int]@[j] == Some(
                        i as usize,
                    )),
        decreases 3 - t,
    {
        let ghost held = out@;
        match ints[t] {
            Some(u) => {
                out.push(u);
                proof {
                    lemma_listed(out@, held.len() as int);
                    assert(out@.take(held.len() as int) =~= held);
                    assert(out@.take(held.len() as int + 1) =~= out@);
                }
            },
            None => {},
        }
        assert forall|i: int|
            #[trigger] listed(out@, i) <==> listed(from_nodes, i) || (0 <= i <= usize::MAX
                && exists|j: int|
                0 <= j < t + 1 && #[trigger] layout.bjt_internal_of@[d as int]@[j] == Some(
                    i as usize,
                )) by {
            assert(listed(held, i) <==> listed(from_nodes, i) || (0 <= i <= usize::MAX && exists|
                j: int,
            |
                0 <= j < t && #[trigger] layout.bjt_internal_of@[d as int]@[j] == Some(
                    i as usize,
                )));
            assert(ints@[t as int] == layout.bjt_internal_of@[d as int]@[t as int]);
        }
        t = t + 1;
    }
    let ghost from_bjt = out@;
    let pair = &layout.mos_internal_of[d];
    let mut t: usize = 0;
    while t < 2
        invariant
            t <= 2,
            d < devices.len(),
            devices == circuit.devices@,
            layout.lays_out(circuit),
            *pair == layout.mos_internal_of@[d as int],
            forall|i: int|
                #[trigger] listed(out@, i) <==> listed(from_bjt, i) || (0 <= i <= usize::MAX
                    && exists|j: int|
                    0 <= j < t && #[trigger] layout.mos_internal_of@[d as int]@[j] == Some(
                        i as usize,
                    )),
        decreases 2 - t,
    {
        let ghost held = out@;
        match pair[t] {
            Some(u) => {
                out.push(u);
                proof {
                    lemma_listed(out@, held.len() as int);
                    assert(out@.take(held.len() as int) =~= held);
                    assert(out@.take(held.len() as int + 1) =~= out@);
                }
            },
            None => {},
        }
        assert forall|i: int|
            #[trigger] listed(out@, i) <==> listed(from_bjt, i) || (0 <= i <= usize::MAX
                && exists|j: int|
                0 <= j < t + 1 && #[trigger] layout.mos_internal_of@[d as int]@[j] == Some(
                    i as usize,
                )) by {
            assert(listed(held, i) <==> listed(from_bjt, i) || (0 <= i <= usize::MAX && exists|
                j: int,
            |
                0 <= j < t && #[trigger] layout.mos_internal_of@[d as int]@[j] == Some(
                    i as usize,
                )));
            assert(pair@[t as int] == layout.mos_internal_of@[d as int]@[t as int]);
        }
        t = t + 1;
    }
    proof {
        assert forall|i: int| #[trigger] listed(out@, i) <==> own(
            circuit,
            layout,
            d as int,
            i,
        ) by {
            assert(listed(out@, i) <==> listed(from_bjt, i) || (0 <= i <= usize::MAX && exists|
                j: int,
            |
                0 <= j < 2 && #[trigger] layout.mos_internal_of@[d as int]@[j] == Some(
                    i as usize,
                )));
            assert(listed(from_bjt, i) <==> listed(from_nodes, i) || (0 <= i <= usize::MAX
                && exists|j: int|
                0 <= j < 3 && #[trigger] layout.bjt_internal_of@[d as int]@[j] == Some(
                    i as usize,
                )));
            assert(listed(from_nodes, i) <==> 0 <= i <= usize::MAX && exists|j: int|
                0 <= j < nodes@.len() && layout.spec_node(#[trigger] nodes@[j]) == Some(
                    i as usize,
                ));
        }
        assert forall|k: int| 0 <= k < out@.len() implies out@[k] < layout.size by {
            assert(listed(out@, out@[k] as int));
            lemma_own_range(circuit, layout, d as int, out@[k] as int);
        }
    }
    out
}

/// The branch of a device, as a list of none or one.
pub fn branch_list<S: Scalar>(circuit: &Circuit<S>, layout: &Layout<S>, id: DeviceId) -> (r: Vec<usize>)
    requires
        layout.lays_out(circuit),
        id.0 < circuit.devices@.len(),
    ensures
        forall|i: int| #[trigger] listed(r@, i) <==> own_branch(layout, id.0 as int, i),
        forall|k: int| 0 <= k < r@.len() ==> r@[k] < layout.size,
{
    proof {
        lemma_branch_range(circuit, layout, id.0 as int);
    }
    match layout.branch(id) {
        Some(br) => {
            let r: Vec<usize> = vec![br];
            assert forall|i: int| #[trigger] listed(r@, i) <==> own_branch(
                layout,
                id.0 as int,
                i,
            ) by {
                if i == br {
                    assert(r@[0] == i);
                }
            }
            r
        },
        None => Vec::new(),
    }
}

/// Reserve the cells of a device's controls.
fn reserve_controls<S: Scalar>(
    circuit: &Circuit<S>,
    layout: &Layout<S>,
    d: usize,
    own_rows: &Vec<usize>,
    own_br: &Vec<usize>,
    m: &mut SparseMatrix<S>,
)
    requires
        circuit.wf(),
        layout.lays_out(circuit),
        couplings_resolve(circuit.devices@),
        controls_resolve(circuit.devices@),
        d < circuit.devices@.len(),
        old(m).wf(),
        old(m).spec_dim() == layout.size,
        forall|i: int| #[trigger] listed(own_rows@, i) <==> own(circuit, layout, d as int, i),
        forall|k: int| 0 <= k < own_rows@.len() ==> own_rows@[k] < layout.size,
        forall|i: int| #[trigger] listed(own_br@, i) <==> own_branch(layout, d as int, i),
        forall|k: int| 0 <= k < own_br@.len() ==> own_br@[k] < layout.size,
    ensures
        final(m).wf(),
        final(m).spec_dim() == old(m).spec_dim(),
        forall|r: int, c: int|
            #[trigger] final(m).has(r, c) <==> old(m).has(r, c) || controls_cell(
                circuit,
                layout,
                d as int,
                circuit.devices@[d as int].spec_controls().len() as int,
                r,
                c,
            ),
        forall|r: int, c: int| #[trigger] final(m).value(r, c) == old(m).value(r, c),
{
    let ghost m0 = *m;
    let ghost di = d as int;
    let ghost devices = circuit.devices@;
    let controls = circuit.devices[d].controlling_sources();
    let mut k: usize = 0;
    while k < controls.len()
        invariant
            k <= controls@.len(),
            di == d,
            devices == circuit.devices@,
            controls@ == devices[di].spec_controls(),
            circuit.wf(),
            layout.lays_out(circuit),
            couplings_resolve(devices),
            controls_resolve(devices),
            d < devices.len(),
            m.wf(),
            m.spec_dim() == layout.size,
            m.spec_dim() == m0.spec_dim(),
            forall|i: int| #[trigger] listed(own_rows@, i) <==> own(circuit, layout, di, i),
            forall|k: int| 0 <= k < own_rows@.len() ==> own_rows@[k] < layout.size,
            forall|i: int| #[trigger] listed(own_br@, i) <==> own_branch(layout, di, i),
            forall|k: int| 0 <= k < own_br@.len() ==> own_br@[k] < layout.size,
            forall|r: int, c: int|
                #[trigger] m.has(r, c) <==> m0.has(r, c) || controls_cell(
                    circuit,
                    layout,
                    di,
                    k as int,
                    r,
                    c,
                ),
            forall|r: int, c: int| #[trigger] m.value(r, c) == m0.value(r, c),
        decreases controls@.len() - k,
    {
        let ghost m1 = *m;
        let ctrl = controls[k];
        assert(devices[di].spec_controls()[k as int] == ctrl);
        let cols = branch_list(circuit, layout, ctrl);
        match &circuit.devices[d] {
            Device::Cccs { .. } => {
                touch_block(m, own_rows, &cols);
            },
            Device::Ccvs { .. } => {
                touch_block(m, own_br, &cols);
            },
            Device::Behavioral { output, .. } => {
                match output {
                    BOutput::Current => {
                        touch_block(m, own_rows, &cols);
                    },
                    BOutput::Voltage => {
                        touch_block(m, own_br, &cols);
                    },
                }
            },
            Device::Coupling { l1, l2, .. } => {
                assert(devices[di] is Coupling);
                let b1 = branch_list(circuit, layout, *l1);
                let b2 = branch_list(circuit, layout, *l2);
                touch_block(m, &b1, &b2);
                let ghost m2 = *m;
                touch_block(m, &b2, &b1);
                assert forall|r: int, c: int| #[trigger] m.has(r, c) <==> m1.has(r, c)
                    || control_cell(circuit, layout, di, ctrl, r, c) by {
                    assert(m2.has(r, c) <==> m1.has(r, c) || (listed(b1@, r) && listed(b2@, c)));
                }
                assert forall|r: int, c: int| #[trigger] m.value(r, c) == m1.value(r, c) by {
                    assert(m2.value(r, c) == m1.value(r, c));
                }
            },
            _ => {},
        }
        assert forall|r: int, c: int| #[trigger] m.has(r, c) <==> m0.has(r, c) || controls_cell(
            circuit,
            layout,
            di,
            k + 1,
            r,
            c,
        ) by {
            assert(m1.has(r, c) <==> m0.has(r, c) || controls_cell(
                circuit,
                layout,
                di,
                k as int,
                r,
                c,
            ));
            assert(m.has(r, c) <==> m1.has(r, c) || control_cell(
                circuit,
                layout,
                di,
                ctrl,
                r,
                c,
            ));
            if controls_cell(circuit, layout, di, k as int, r, c) {
                let j = choose|j: int|
                    0 <= j < k && control_cell(
                        circuit,
                        layout,
                        di,
                        #[trigger] devices[di].spec_controls()[j],
                        r,
                        c,
                    );
                assert(control_cell(
                    circuit,
                    layout,
                    di,
                    devices[di].spec_controls()[j],
                    r,
                    c,
                ));
            }
            if control_cell(circuit, layout, di, ctrl, r, c) {
                assert(control_cell(
                    circuit,
                    layout,
                    di,
                    devices[di].spec_controls()[k as int],
                    r,
                    c,
                ));
            }
        }
        assert forall|r: int, c: int| #[trigger] m.value(r, c) == m0.value(r, c) by {
            assert(m1.value(r, c) == m0.value(r, c));
        }
        k = k + 1;
    }
}

/// Reserve every cell that devices may ever write, so that the pattern is
/// complete before the first assembly.
pub fn reserve_pattern<S: Scalar>(
    circuit: &Circuit<S>,
    layout: &Layout<S>,
    m: &mut SparseMatrix<S>,
)
    requires
        circuit.wf(),
        layout.lays_out(circuit),
        couplings_resolve(circuit.devices@),
        controls_resolve(circuit.devices@),
        old(m).wf(),
        old(m).spec_dim() == layout.size,
    ensures
        final(m).wf(),
        final(m).spec_dim() == old(m).spec_dim(),
        forall|r: int, c: int|
            #[trigger] final(m).has(r, c) <==> old(m).has(r, c) || reserved(circuit, layout, r, c),
        forall|r: int, c: int| #[trigger] final(m).value(r, c) == old(m).value(r, c),
{
    let ghost m0 = *m;
    let ghost devices = circuit.devices@;
    let mut i: usize = 0;
    while i < layout.size
        invariant
            i <= layout.size,
            m.wf(),
            m.spec_dim() == layout.size,
            m.spec_dim() == m0.spec_dim(),
            forall|r: int, c: int|
                #[trigger] m.has(r, c) <==> m0.has(r, c) || (0 <= r < i && r == c),
            forall|r: int, c: int| #[trigger] m.value(r, c) == m0.value(r, c),
        decreases layout.size - i,
    {
        let ghost m1 = *m;
        m.touch(i, i);
        assert forall|r: int, c: int| #[trigger] m.has(r, c) <==> m0.has(r, c) || (0 <= r < i + 1
            && r == c) by {
            assert(m1.has(r, c) <==> m0.has(r, c) || (0 <= r < i && r == c));
        }
        assert forall|r: int, c: int| #[trigger] m.value(r, c) == m0.value(r, c) by {
            assert(m1.value(r, c) == m0.value(r, c));
        }
        i = i + 1;
    }
    let mut d: usize = 0;
    while d < circuit.devices.len()
        invariant
            d <= devices.len(),
            devices == circuit.devices@,
            circuit.wf(),
            layout.lays_out(circuit),
            couplings_resolve(devices),
            controls_resolve(devices),
            m.wf(),
            m.spec_dim() == layout.size,
            m.spec_dim() == m0.spec_dim(),
            forall|r: int, c: int|
                #[trigger] m.has(r, c) <==> m0.has(r, c) || (0 <= r < layout.size && r == c)
                    || devices_cell(circuit, layout, d as int, r, c),
            forall|r: int, c: int| #[trigger] m.value(r, c) == m0.value(r, c),
        decreases devices.len() - d,
    {
        let ghost m1 = *m;
        let rows = own_unknowns(circuit, layout, d);
        let br = branch_list(circuit, layout, DeviceId(d as u32));
        touch_block(m, &rows, &rows);
        let ghost m2 = *m;
        touch_block(m, &br, &br);
        let ghost m3 = *m;
        touch_block(m, &br, &rows);
        let ghost m4 = *m;
        touch_block(m, &rows, &br);
        let ghost m5 = *m;
        reserve_controls(circuit, layout, d, &rows, &br, m);
        assert forall|r: int, c: int| #[trigger] m.has(r, c) <==> m0.has(r, c) || (0 <= r
            < layout.size && r == c) || devices_cell(circuit, layout, d + 1, r, c) by {
            assert(m1.has(r, c) <==> m0.has(r, c) || (0 <= r < layout.size && r == c)
                || devices_cell(circuit, layout, d as int, r, c));
            assert(m2.has(r, c) <==> m1.has(r, c) || (listed(rows@, r) && listed(rows@, c)));
            assert(m3.has(r, c) <==> m2.has(r, c) || (listed(br@, r) && listed(br@, c)));
            assert(m4.has(r, c) <==> m3.has(r, c) || (listed(br@, r) && listed(rows@, c)));
            assert(m5.has(r, c) <==> m4.has(r, c) || (listed(rows@, r) && listed(br@, c)));
            assert(m.has(r, c) <==> m1.has(r, c) || device_cell(
                circuit,
                layout,
                d as int,
                r,
                c,
            ));
            if devices_cell(circuit, layout, d as int, r, c) {
                let j = choose|j: int|
                    0 <= j < d && #[trigger] device_cell(circuit, layout, j, r, c);
                assert(device_cell(circuit, layout, j, r, c));
            }
        }
        assert forall|r: int, c: int| #[trigger] m.value(r, c) == m0.value(r, c) by {
            assert(m5.value(r, c) == m4.value(r, c));
            assert(m4.value(r, c) == m3.value(r, c));
            assert(m3.value(r, c) == m2.value(r, c));
            assert(m2.value(r, c) == m1.value(r, c));
            assert(m1.value(r, c) == m0.value(r, c));
        }
        d = d + 1;
    }
}

} // verus!
