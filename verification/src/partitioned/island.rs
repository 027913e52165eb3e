//! An island solved on its own matrix.
use vstd::prelude::*;

use crate::circuit::{Circuit, Device, DeviceId, NodeId, SourceKind};
use crate::duplicate::{copied_list, lemma_redrawn_controls, lemma_redrawn_nodes, lemma_rewired};
use crate::duplicate::{redrawn, rewired};
use crate::options::SolverOptions;
use crate::partition::analyze::{has_boundary, is_partition, shared, Island, Partition};
use crate::partition::components::pinned_nodes;
use crate::partitioned::decide::listed;
use crate::partitioned::lower::{
    fits, is_pin_on, local_controls, lower, lowers, placed, self_contained,
};
use crate::partitioned::reactive::{
    advance_sub_reactive, begun, continues_trapezoidal, held_at, held_first, rolled,
    seed_sub_reactive, track,
};
use crate::partitioned::sweep::scattered;
use crate::scalar::Scalar;
use crate::stamp::constitutive::law_a_voltage_source_holds_its_voltage;
use crate::stamp::context::{at, lemma_branch_range, lemma_node_range, StampCtx};
use crate::stamp::linear::put_vsource;
use crate::stamp::tape::{residual_after, Write};
use crate::subcircuit::{
    lemma_ground_listed, lemma_index_of, lemma_interned_all, lemma_node_list, local_id, local_ids,
    mentions, node_list,
};
use crate::system::{
    branch_unknown, bjt_unknowns, couplings_resolve, diode_unknown, extra_nodes, is_extra,
    lemma_extra_unique, mos_unknowns, partners, taken, unknown_count, used, zero_vec, zeros, Layout,
    Pool, ReactiveState,
};
use crate::terms::{group_sums, lemma_same_terms, term, Sum};
use crate::text::{decimal, decimal_digits};

verus! {

/// Whether a device is another up to the time function of a source.
pub open spec fn same_shape<S>(a: Device<S>, b: Device<S>) -> bool {
    b == a || match (a, b) {
        (Device::Vsource { p, n, .. }, Device::Vsource { p: p2, n: n2, .. }) => p2 == p && n2 == n,
        _ => false,
    }
}

proof fn lemma_taken_same<S: Scalar>(
    a: Seq<Device<S>>,
    b: Seq<Device<S>>,
    pool: Pool,
    count: nat,
)
    requires
        a.len() == b.len(),
        count <= a.len(),
        forall|d: int| 0 <= d < a.len() ==> same_shape(a[d], #[trigger] b[d]),
    ensures
        taken(a, pool, count) == taken(b, pool, count),
    decreases count,
{
    if count > 0 {
        lemma_taken_same(a, b, pool, (count - 1) as nat);
        assert(same_shape(a[count - 1], b[count - 1]));
    }
}

proof fn lemma_partners_same<S: Scalar>(
    a: Seq<Device<S>>,
    b: Seq<Device<S>>,
    d: int,
    count: nat,
)
    requires
        a.len() == b.len(),
        count <= a.len(),
        couplings_resolve(a),
        forall|d: int| 0 <= d < a.len() ==> same_shape(a[d], #[trigger] b[d]),
    ensures
        partners(a, d, count) == partners(b, d, count),
    decreases count,
{
    if count > 0 {
        lemma_partners_same(a, b, d, (count - 1) as nat);
        assert(same_shape(a[count - 1], b[count - 1]));
        if let Device::Coupling { l1, l2, .. } = a[count - 1] {
            assert(same_shape(a[l1.0 as int], b[l1.0 as int]));
            assert(same_shape(a[l2.0 as int], b[l2.0 as int]));
        }
    }
}

/// A layout stays the circuit's when sources change their time function.
proof fn lemma_relaid<S: Scalar>(layout: &Layout<S>, a: &Circuit<S>, b: &Circuit<S>)
    requires
        layout.lays_out(a),
        couplings_resolve(a.devices@),
        b.node_names() == a.node_names(),
        b.devices@.len() == a.devices@.len(),
        forall|d: int|
            0 <= d < a.devices@.len() ==> same_shape(a.devices@[d], #[trigger] b.devices@[d]),
    ensures
        layout.lays_out(b),
        couplings_resolve(b.devices@),
{
    let x = a.devices@;
    let y = b.devices@;
    let ext = layout.external();
    lemma_taken_same(x, y, Pool::Bjt, x.len());
    lemma_taken_same(x, y, Pool::Mosfet, x.len());
    lemma_taken_same(x, y, Pool::Diode, x.len());
    lemma_taken_same(x, y, Pool::Branch, x.len());
    assert forall|n: NodeId| used(x, n) == used(y, n) by {
        if used(x, n) {
            let d = choose|d: int| 0 <= d < x.len() && (#[trigger] x[d]).spec_nodes().contains(n);
            assert(same_shape(x[d], y[d]));
            assert(y[d].spec_nodes() =~= x[d].spec_nodes());
        }
        if used(y, n) {
            let d = choose|d: int| 0 <= d < y.len() && (#[trigger] y[d]).spec_nodes().contains(n);
            assert(same_shape(x[d], y[d]));
            assert(y[d].spec_nodes() =~= x[d].spec_nodes());
        }
    }
    assert(is_extra(b, layout.extra@));
    assert forall|d: int| #![trigger layout.branch_of@[d]] 0 <= d < y.len() implies layout.branch_of@[d]
        == branch_unknown(y, ext, d) by {
        assert(same_shape(x[d], y[d]));
        lemma_taken_same(x, y, Pool::Branch, d as nat);
        assert(layout.branch_of@[d] == branch_unknown(x, ext, d));
    }
    assert forall|d: int| #![trigger layout.bjt_internal_of@[d]] 0 <= d < y.len() implies layout.bjt_internal_of@[d]@
        == bjt_unknowns(y, ext, d) by {
        assert(same_shape(x[d], y[d]));
        lemma_taken_same(x, y, Pool::Bjt, d as nat);
        assert(layout.bjt_internal_of@[d]@ == bjt_unknowns(x, ext, d));
    }
    assert forall|d: int| #![trigger layout.mos_internal_of@[d]] 0 <= d < y.len() implies layout.mos_internal_of@[d]@
        == mos_unknowns(y, ext, d) by {
        assert(same_shape(x[d], y[d]));
        lemma_taken_same(x, y, Pool::Mosfet, d as nat);
        assert(layout.mos_internal_of@[d]@ == mos_unknowns(x, ext, d));
    }
    assert forall|d: int| #![trigger layout.diode_internal_of@[d]] 0 <= d < y.len() implies layout.diode_internal_of@[d]
        == diode_unknown(y, ext, d) by {
        assert(same_shape(x[d], y[d]));
        lemma_taken_same(x, y, Pool::Diode, d as nat);
        assert(layout.diode_internal_of@[d] == diode_unknown(x, ext, d));
    }
    assert forall|d: int| #![trigger layout.couplings@[d]] 0 <= d < y.len() implies layout.couplings@[d]@
        == partners(y, d, y.len()) by {
        lemma_partners_same(x, y, d, x.len());
        assert(layout.couplings@[d]@ == partners(x, d, x.len()));
    }
    assert forall|d: int| #![trigger y[d]] 0 <= d < y.len() implies match y[d] {
        Device::Coupling { l1, l2, .. } => l1.0 < y.len() && l2.0 < y.len()
            && y[l1.0 as int] is Inductor && y[l2.0 as int] is Inductor,
        _ => true,
    } by {
        assert(same_shape(x[d], y[d]));
        if let Device::Coupling { l1, l2, .. } = y[d] {
            assert(x[d] is Coupling);
            assert(same_shape(x[l1.0 as int], y[l1.0 as int]));
            assert(same_shape(x[l2.0 as int], y[l2.0 as int]));
        }
    }
}

/// A device takes at most three unknowns.
proof fn lemma_taken_bound<S: Scalar>(devices: Seq<Device<S>>, count: nat)
    requires
        count <= devices.len(),
    ensures
        taken(devices, Pool::Bjt, count) + taken(devices, Pool::Mosfet, count) + taken(
            devices,
            Pool::Diode,
            count,
        ) + taken(devices, Pool::Branch, count) <= 3 * count,
    decreases count,
{
    if count > 0 {
        lemma_taken_bound(devices, (count - 1) as nat);
    }
}

/// At most how many unknowns an island's circuit has.
pub open spec fn most_unknowns<S: Scalar>(circuit: &Circuit<S>, isl: &Island) -> nat {
    mentions(circuit, isl.devices@, isl.devices@.len()) + isl.boundary_in@.len() + 3 * (
    isl.devices@.len() + isl.boundary_in@.len())
}

proof fn lemma_lowered_nodes<S: Scalar>(
    circuit: &Circuit<S>,
    isl: &Island,
    sub: &Circuit<S>,
    l2g: Seq<NodeId>,
    d: int,
    n: NodeId,
)
    requires
        fits(circuit, isl),
        lowers(circuit, isl, sub, l2g),
        0 <= d < sub.devices@.len(),
        sub.devices@[d].spec_nodes().contains(n),
    ensures
        n.0 < l2g.len(),
{
    let own = isl.devices@.len();
    let edge = isl.boundary_in@;
    let start = node_list(circuit, isl.devices@, own);
    lemma_ground_listed(circuit, isl.devices@, own);
    lemma_interned_all(start, edge, edge.len());
    let k = choose|k: int|
        0 <= k < sub.devices@[d].spec_nodes().len() && sub.devices@[d].spec_nodes()[k] == n;
    if d < own {
        let dev = circuit.devices@[isl.devices@[d].0 as int];
        let nodes = local_ids(l2g, dev.spec_nodes());
        let controls = local_controls(dev, isl.devices@);
        assert(placed(dev, nodes, controls, sub.devices@[d]));
        let mid = choose|mid: Device<S>|
            #![trigger redrawn(dev, nodes, mid)]
            redrawn(dev, nodes, mid) && rewired(mid, controls, sub.devices@[d]);
        lemma_redrawn_nodes(dev, nodes, mid);
        lemma_redrawn_controls(dev, nodes, mid);
        lemma_rewired(mid, controls, sub.devices@[d]);
        lemma_node_list(circuit, isl.devices@, own, d);
        let g = dev.spec_nodes()[k];
        assert(start.contains(g));
        let i = choose|i: int| 0 <= i < start.len() && start[i] == g;
        assert(l2g[i] == start[i]);
        lemma_index_of(l2g, i);
        assert(n == local_id(l2g, g));
    } else {
        let gn = edge[d - own];
        assert(is_pin_on(sub.devices@[d], gn, local_id(l2g, gn), S::spec_zero()));
        assert(l2g.contains(gn));
        let i = choose|i: int| 0 <= i < l2g.len() && l2g[i] == gn;
        lemma_index_of(l2g, i);
    }
}

proof fn lemma_lowered_size<S: Scalar>(
    circuit: &Circuit<S>,
    isl: &Island,
    sub: &Circuit<S>,
    l2g: Seq<NodeId>,
)
    requires
        fits(circuit, isl),
        lowers(circuit, isl, sub, l2g),
    ensures
        unknown_count(sub) <= most_unknowns(circuit, isl),
        l2g.len() == sub.node_names().len(),
        1 <= l2g.len() <= u32::MAX,
{
    let own = isl.devices@.len();
    let edge = isl.boundary_in@;
    let start = node_list(circuit, isl.devices@, own);
    lemma_ground_listed(circuit, isl.devices@, own);
    lemma_interned_all(start, edge, edge.len());
    let none = Seq::<NodeId>::empty();
    assert forall|n: NodeId| #[trigger] none.contains(n) <==> n.0 >= sub.node_names().len() && used(
        sub.devices@,
        n,
    ) by {
        if used(sub.devices@, n) {
            let d = choose|d: int|
                0 <= d < sub.devices@.len() && (#[trigger] sub.devices@[d]).spec_nodes().contains(n);
            lemma_lowered_nodes(circuit, isl, sub, l2g, d, n);
        }
    }
    assert(is_extra(sub, none));
    lemma_extra_unique(sub, none, extra_nodes(sub));
    lemma_taken_bound(sub.devices@, sub.devices@.len());
}

/// The nodes that an island writes, with their unknowns: every node of its circuit,
/// among the first `count`, that is not of its boundary.
pub open spec fn owned_slots<S: Scalar>(
    l2g: Seq<NodeId>,
    edge: Seq<NodeId>,
    layout: &Layout<S>,
    count: nat,
) -> Seq<(NodeId, usize)>
    decreases count,
{
    if count == 0 {
        Seq::empty()
    } else {
        let rest = owned_slots(l2g, edge, layout, (count - 1) as nat);
        let gn = l2g[count - 1];
        if gn.0 == 0 || edge.contains(gn) {
            rest
        } else {
            match layout.spec_node(NodeId((count - 1) as u32)) {
                Some(i) => rest.push((gn, i)),
                None => rest,
            }
        }
    }
}

/// The values that an island writes.
pub open spec fn written_by<S>(owned: Seq<(NodeId, usize)>, x: Seq<S>) -> Seq<(NodeId, S)> {
    Seq::new(owned.len(), |k: int| (owned[k].0, x[owned[k].1 as int]))
}

/// The first boundary entry of a node, from `from` on.
pub open spec fn entry_of(boundary: Seq<(NodeId, DeviceId)>, n: NodeId, from: int) -> Option<int>
    decreases boundary.len() - from,
{
    if from >= boundary.len() {
        None
    } else if boundary[from].0 == n {
        Some(from)
    } else {
        entry_of(boundary, n, from + 1)
    }
}

/// A solution estimated from the buffer: every node of the island that has an
/// unknown, among the first `count`, at its slot; everything else zero.
pub open spec fn projected<S: Scalar>(
    l2g: Seq<NodeId>,
    layout: &Layout<S>,
    buf: Seq<S>,
    count: nat,
) -> Seq<S>
    decreases count,
{
    if count == 0 {
        zeros::<S>(layout.size as nat)
    } else {
        let rest = projected(l2g, layout, buf, (count - 1) as nat);
        let gn = l2g[count - 1];
        match layout.spec_node(NodeId((count - 1) as u32)) {
            Some(i) => if gn.0 == 0 {
                rest
            } else {
                rest.update(i as int, buf[gn.0 as int])
            },
            None => rest,
        }
    }
}

/// An island lowered to a circuit of its own, with its solution and its history.
#[derive(Debug)]
pub struct NonlinearIsland<S> {
    pub sub: Circuit<S>,
    pub layout: Layout<S>,
    /// The trial solution.
    pub x: Vec<S>,
    /// The solution accepted last.
    pub x_accepted: Vec<S>,
    pub state: ReactiveState<S>,
    /// Node of every local node; ground is first.
    pub l2g: Vec<NodeId>,
    /// The boundary nodes, each with the source that pins it.
    pub boundary: Vec<(NodeId, DeviceId)>,
    /// The nodes that the island writes, each with its unknown.
    pub owned: Vec<(NodeId, usize)>,
    pub first_step: bool,
    /// Whether steps are solved with a line search: a behavioral source is there.
    pub line_search: bool,
}

/// Whether an island has just been lowered: at rest, nothing solved yet.
pub open spec fn is_built<S: Scalar>(
    circuit: &Circuit<S>,
    isl: &Island,
    r: &NonlinearIsland<S>,
) -> bool {
    let own = isl.devices@.len();
    &&& r.wf()
    &&& lowers(circuit, isl, &r.sub, r.l2g@)
    &&& r.x@ == zeros::<S>(r.layout.size as nat)
    &&& r.x_accepted@ == r.x@
    &&& r.boundary@ == Seq::new(
        isl.boundary_in@.len(),
        |k: int| (isl.boundary_in@[k], DeviceId((own + k) as u32)),
    )
    &&& r.owned@ == owned_slots(r.l2g@, isl.boundary_in@, &r.layout, r.l2g@.len())
    &&& r.first_step
    &&& r.line_search == exists|d: int|
        0 <= d < r.sub.devices@.len() && #[trigger] r.sub.devices@[d] is Behavioral
}

impl<S: Scalar> NonlinearIsland<S> {
    /// Whether the parts belong together.
    pub open spec fn wf(&self) -> bool {
        let total = self.sub.devices@.len();
        &&& self.sub.wf()
        &&& couplings_resolve(self.sub.devices@)
        &&& self.layout.lays_out(&self.sub)
        &&& self.x@.len() == self.layout.size
        &&& self.x_accepted@.len() == self.layout.size
        &&& self.state.sized(total)
        &&& self.l2g@.len() == self.sub.node_names().len()
        &&& self.boundary@.len() <= total
        &&& forall|k: int|
            0 <= k < self.boundary@.len() ==> (#[trigger] self.boundary@[k]).1.0 == total
                - self.boundary@.len() + k
        &&& forall|d: int|
            total - self.boundary@.len() <= d < total ==> #[trigger] self.sub.devices@[d] is Vsource
        &&& forall|k: int|
            0 <= k < self.owned@.len() ==> (#[trigger] self.owned@[k]).1 < self.layout.size
    }

    /// Whether every node of the island has a slot in a buffer of that length.
    pub open spec fn reaches(&self, slots: nat) -> bool {
        &&& forall|k: int| 0 <= k < self.l2g@.len() ==> (#[trigger] self.l2g@[k]).0 < slots
        &&& forall|k: int| 0 <= k < self.boundary@.len() ==> (#[trigger] self.boundary@[k]).0.0 < slots
        &&& forall|k: int| 0 <= k < self.owned@.len() ==> (#[trigger] self.owned@[k]).0.0 < slots
    }

    /// Lower an island, at rest. An island that reads a device outside itself
    /// cannot be lowered.
    pub fn build(circuit: &Circuit<S>, isl: &Island) -> (r: Option<NonlinearIsland<S>>)
        requires
            fits(circuit, isl),
            most_unknowns(circuit, isl) <= usize::MAX,
        ensures
            match r {
                Some(r) => self_contained(circuit, isl) && is_built(circuit, isl, &r),
                None => !self_contained(circuit, isl),
            },
    {
        let (sub, l2g) = match lower(circuit, isl) {
            Some(parts) => parts,
            None => {
                return None;
            },
        };
        proof {
            lemma_lowered_size(circuit, isl, &sub, l2g@);
        }
        let layout = Layout::new(&sub);
        let ghost own = isl.devices@.len();
        let first: usize = isl.devices.len();
        let mut boundary: Vec<(NodeId, DeviceId)> = Vec::new();
        let mut k: usize = 0;
        while k < isl.boundary_in.len()
            invariant
                k <= isl.boundary_in@.len(),
                first == own,
                own + isl.boundary_in@.len() <= u32::MAX,
                boundary@ == Seq::new(
                    k as nat,
                    |j: int| (isl.boundary_in@[j], DeviceId((own + j) as u32)),
                ),
            decreases isl.boundary_in@.len() - k,
        {
            boundary.push((isl.boundary_in[k], DeviceId((first + k) as u32)));
            assert(boundary@ =~= Seq::new(
                (k + 1) as nat,
                |j: int| (isl.boundary_in@[j], DeviceId((own + j) as u32)),
            ));
            k = k + 1;
        }
        let mut owned: Vec<(NodeId, usize)> = Vec::new();
        let mut ln: usize = 0;
        while ln < l2g.len()
            invariant
                ln <= l2g@.len() <= u32::MAX,
                sub.wf(),
                layout.lays_out(&sub),
                owned@ == owned_slots(l2g@, isl.boundary_in@, &layout, ln as nat),
                forall|k: int| 0 <= k < owned@.len() ==> (#[trigger] owned@[k]).1 < layout.size,
            decreases l2g@.len() - ln,
        {
            let gn = l2g[ln];
            if !gn.is_ground() && !listed(&isl.boundary_in, gn) {
                proof {
                    lemma_node_range(&sub, &layout, NodeId(ln as u32));
                }
                match layout.node(NodeId(ln as u32)) {
                    Some(i) => {
                        owned.push((gn, i));
                    },
                    None => {},
                }
            }
            ln = ln + 1;
        }
        let mut line_search: bool = false;
        let mut d: usize = 0;
        while d < sub.devices.len()
            invariant
                d <= sub.devices@.len(),
                line_search == exists|j: int|
                    0 <= j < d && #[trigger] sub.devices@[j] is Behavioral,
            decreases sub.devices@.len() - d,
        {
            match &sub.devices[d] {
                Device::Behavioral { .. } => {
                    assert(sub.devices@[d as int] is Behavioral);
                    line_search = true;
                },
                _ => {},
            }
            d = d + 1;
        }
        let x: Vec<S> = zero_vec(layout.size);
        let x_accepted: Vec<S> = zero_vec(layout.size);
        let state = ReactiveState::new(sub.devices.len());
        assert forall|d: int| own <= d < sub.devices@.len() implies #[trigger] sub.devices@[d] is Vsource by {
            assert(is_pin_on(
                sub.devices@[d],
                isl.boundary_in@[d - own],
                local_id(l2g@, isl.boundary_in@[d - own]),
                S::spec_zero(),
            ));
        }
        Some(
            NonlinearIsland {
                sub,
                layout,
                x,
                x_accepted,
                state,
                l2g,
                boundary,
                owned,
                first_step: true,
                line_search,
            },
        )
    }

    /// Set the boundary sources from the buffer.
    pub fn refresh_boundary(&mut self, buf: &Vec<S>)
        requires
            old(self).wf(),
            old(self).reaches(buf@.len()),
        ensures
            final(self).wf(),
            final(self).reaches(buf@.len()),
            *final(self) == (NonlinearIsland { sub: final(self).sub, ..*old(self) }),
            final(self).sub.node_names() == old(self).sub.node_names(),
            final(self).sub.temp_c == old(self).sub.temp_c,
            final(self).sub.devices@.len() == old(self).sub.devices@.len(),
            forall|d: int|
                0 <= d < old(self).sub.devices@.len() - old(self).boundary@.len() ==> (
                #[trigger] final(self).sub.devices@[d]) == old(self).sub.devices@[d],
            forall|k: int|
                0 <= k < old(self).boundary@.len() ==> pinned_at(
                    old(self).sub.devices@[old(self).boundary@[k].1.0 as int],
                    buf@[old(self).boundary@[k].0.0 as int],
                    final(self).sub.devices@[(#[trigger] old(self).boundary@[k]).1.0 as int],
                ),
    {
        let ghost start = *self;
        let ghost first = self.sub.devices@.len() - self.boundary@.len();
        let mut k: usize = 0;
        while k < self.boundary.len()
            invariant
                k <= start.boundary@.len(),
                start.wf(),
                start.reaches(buf@.len()),
                first == start.sub.devices@.len() - start.boundary@.len(),
                *self == (NonlinearIsland { sub: self.sub, ..start }),
                self.sub.names == start.sub.names,
                self.sub.temp_c == start.sub.temp_c,
                self.sub.devices@.len() == start.sub.devices@.len(),
                forall|d: int|
                    0 <= d < first || first + k <= d < start.sub.devices@.len()
                        ==> #[trigger] self.sub.devices@[d] == start.sub.devices@[d],
                forall|j: int|
                    0 <= j < k ==> pinned_at(
                        start.sub.devices@[first + j],
                        buf@[start.boundary@[j].0.0 as int],
                        #[trigger] self.sub.devices@[first + j],
                    ),
            decreases start.boundary@.len() - k,
        {
            let (gn, sid) = self.boundary[k];
            assert(start.boundary@[k as int].1.0 == first + k);
            assert(start.boundary@[k as int].0.0 < buf@.len());
            let v = buf[gn.0 as usize];
            let ghost before = *self;
            assert(self.sub.devices@[first + k] == start.sub.devices@[first + k]);
            assert(start.sub.devices@[first + k] is Vsource);
            set_source(&mut self.sub.devices[sid.0 as usize], v);
            assert forall|j: int| 0 <= j < k + 1 implies pinned_at(
                start.sub.devices@[first + j],
                buf@[start.boundary@[j].0.0 as int],
                #[trigger] self.sub.devices@[first + j],
            ) by {
                if j < k {
                    assert(before.sub.devices@[first + j] == self.sub.devices@[first + j]);
                }
            }
            k = k + 1;
        }
        proof {
            assert(self.sub.node_names() =~= start.sub.node_names());
            assert forall|d: int| 0 <= d < start.sub.devices@.len() implies same_shape(
                start.sub.devices@[d],
                #[trigger] self.sub.devices@[d],
            ) && (d >= first ==> self.sub.devices@[d] is Vsource) by {
                if d >= first {
                    assert(start.sub.devices@[d] is Vsource);
                    assert(self.sub.devices@[first + (d - first)] == self.sub.devices@[d]);
                }
            }
            lemma_relaid(&start.layout, &start.sub, &self.sub);
            assert forall|k: int| 0 <= k < start.boundary@.len() implies pinned_at(
                start.sub.devices@[start.boundary@[k].1.0 as int],
                buf@[start.boundary@[k].0.0 as int],
                self.sub.devices@[(#[trigger] start.boundary@[k]).1.0 as int],
            ) by {
                assert(start.boundary@[k].1.0 == first + k);
                assert(pinned_at(
                    start.sub.devices@[first + k],
                    buf@[start.boundary@[k].0.0 as int],
                    self.sub.devices@[first + k],
                ));
            }
        }
    }
}

/// Whether a source has become a constant one.
pub open spec fn pinned_at<S: Scalar>(was: Device<S>, v: S, now: Device<S>) -> bool {
    match was {
        Device::Vsource { name, p, n, .. } => now == (Device::Vsource {
            name,
            p,
            n,
            kind: SourceKind::Dc(v),
        }),
        _ => now == was,
    }
}

fn set_source<S: Scalar>(dev: &mut Device<S>, v: S)
    ensures
        pinned_at(*old(dev), v, *final(dev)),
{
    match dev {
        Device::Vsource { kind, .. } => {
            *kind = SourceKind::Dc(v);
        },
        _ => {},
    }
}

/// The names of the first `count` devices, separated by commas.
pub open spec fn named_devices<S>(devices: Seq<Device<S>>, count: nat) -> Seq<char>
    decreases count,
{
    if count == 0 {
        Seq::empty()
    } else if count == 1 {
        devices[0].spec_name()
    } else {
        named_devices(devices, (count - 1) as nat) + ", "@ + devices[count - 1].spec_name()
    }
}

/// How many devices a failure names at most.
pub const NAMED_IN_FAILURE: usize = 8;

/// What an island whose step failed reports.
pub open spec fn step_failure<S>(devices: Seq<Device<S>>, h: Seq<char>) -> Seq<char> {
    let shown = if devices.len() < NAMED_IN_FAILURE {
        devices.len()
    } else {
        NAMED_IN_FAILURE as nat
    };
    "nonlinear island Newton failed at h="@ + h + " (island of "@ + decimal_digits(devices.len())
        + ": "@ + named_devices(devices, shown) + ")"@
}

impl<S: Scalar> NonlinearIsland<S> {
    /// Where a step's solution starts: at the accepted one when the step begins, at
    /// the trial one when it is solved again.
    pub fn begin_step(&mut self, first: bool)
        requires
            old(self).wf(),
        ensures
            final(self).wf(),
            *final(self) == (NonlinearIsland { x: final(self).x, ..*old(self) }),
            final(self).x@ == if first {
                old(self).x_accepted@
            } else {
                old(self).x@
            },
    {
        if first {
            self.x = copied_list(&self.x_accepted);
        }
    }

    /// Take a solved trial solution.
    pub fn take_solution(&mut self, x: Vec<S>)
        requires
            old(self).wf(),
            x@.len() == old(self).layout.size,
        ensures
            final(self).wf(),
            *final(self) == (NonlinearIsland { x, ..*old(self) }),
    {
        self.x = x;
    }

    /// Whether the island pins a node as a boundary.
    pub fn touches_rail(&self, rail: NodeId) -> (r: bool)
        ensures
            r == (entry_of(self.boundary@, rail, 0) is Some),
    {
        self.entry(rail).is_some()
    }

    fn entry(&self, rail: NodeId) -> (r: Option<usize>)
        ensures
            match entry_of(self.boundary@, rail, 0) {
                Some(k) => r matches Some(i) && i == k && i < self.boundary@.len(),
                None => r is None,
            },
    {
        let mut k: usize = 0;
        while k < self.boundary.len()
            invariant
                k <= self.boundary@.len(),
                entry_of(self.boundary@, rail, 0) == entry_of(self.boundary@, rail, k as int),
            decreases self.boundary@.len() - k,
        {
            if self.boundary[k].0 == rail {
                return Some(k);
            }
            k = k + 1;
        }
        None
    }

    /// The current that the island draws out of a node in its trial solution.
    pub open spec fn spec_rail_current(&self, rail: NodeId) -> S {
        match entry_of(self.boundary@, rail, 0) {
            Some(k) => self.x@[self.layout.branch_of@[self.boundary@[k].1.0 as int]->0 as int].spec_negated(),
            None => S::spec_zero(),
        }
    }

    /// The current that the island draws out of a node: the pinning source's branch
    /// current, negated; none where it does not pin the node.
    pub fn rail_current(&self, rail: NodeId) -> (r: S)
        requires
            self.wf(),
        ensures
            r == self.spec_rail_current(rail),
    {
        match self.entry(rail) {
            Some(k) => {
                let sid = self.boundary[k].1;
                let ghost d = sid.0 as int;
                proof {
                    assert(self.boundary@[k as int].1.0 == self.sub.devices@.len()
                        - self.boundary@.len() + k);
                    assert(self.sub.devices@[d] is Vsource);
                    lemma_branch_range(&self.sub, &self.layout, d);
                }
                match self.layout.branch(sid) {
                    Some(bi) => self.x[bi].negated(),
                    None => S::zero(),
                }
            },
            None => S::zero(),
        }
    }

    /// The nodes that the island writes, with their trial values.
    pub fn owned_values(&self) -> (r: Vec<(NodeId, S)>)
        requires
            self.wf(),
        ensures
            r@ == written_by(self.owned@, self.x@),
    {
        let mut out: Vec<(NodeId, S)> = Vec::new();
        let mut k: usize = 0;
        while k < self.owned.len()
            invariant
                k <= self.owned@.len(),
                self.wf(),
                out@ == written_by(self.owned@, self.x@).take(k as int),
            decreases self.owned@.len() - k,
        {
            let ghost all = written_by(self.owned@, self.x@);
            let (gn, xi) = self.owned[k];
            assert(self.owned@[k as int].1 < self.layout.size);
            out.push((gn, self.x[xi]));
            assert(all.take(k + 1) =~= all.take(k as int).push(all[k as int]));
            k = k + 1;
        }
        assert(written_by(self.owned@, self.x@).take(k as int) =~= written_by(
            self.owned@,
            self.x@,
        ));
        out
    }

    /// Write the island's nodes into the buffer.
    pub fn write_back(&self, buf: &mut Vec<S>)
        requires
            self.wf(),
            self.reaches(old(buf)@.len()),
        ensures
            final(buf)@ == scattered(
                old(buf)@,
                written_by(self.owned@, self.x@),
                self.owned@.len(),
            ),
            final(buf)@.len() == old(buf)@.len(),
    {
        let ghost start = buf@;
        let ghost writes = written_by(self.owned@, self.x@);
        let mut k: usize = 0;
        while k < self.owned.len()
            invariant
                k <= self.owned@.len(),
                self.wf(),
                self.reaches(start.len()),
                buf@.len() == start.len(),
                writes == written_by(self.owned@, self.x@),
                buf@ == scattered(start, writes, k as nat),
            decreases self.owned@.len() - k,
        {
            let (gn, xi) = self.owned[k];
            assert(self.owned@[k as int].0.0 < start.len());
            assert(self.owned@[k as int].1 < self.layout.size);
            assert(writes[k as int] == (gn, self.x@[xi as int]));
            buf[gn.0 as usize] = self.x[xi];
            k = k + 1;
        }
    }

    /// Estimate the trial solution from the buffer, where the island has no
    /// operating point of its own.
    pub fn project(&mut self, buf: &Vec<S>)
        requires
            old(self).wf(),
            old(self).reaches(buf@.len()),
        ensures
            final(self).wf(),
            *final(self) == (NonlinearIsland { x: final(self).x, ..*old(self) }),
            final(self).x@ == projected(
                old(self).l2g@,
                &old(self).layout,
                buf@,
                old(self).l2g@.len(),
            ),
    {
        let mut x: Vec<S> = zero_vec(self.layout.size);
        let mut ln: usize = 0;
        while ln < self.l2g.len()
            invariant
                ln <= self.l2g@.len(),
                *self == *old(self),
                self.wf(),
                self.reaches(buf@.len()),
                x@.len() == self.layout.size,
                x@ == projected(self.l2g@, &self.layout, buf@, ln as nat),
            decreases self.l2g@.len() - ln,
        {
            let gn = self.l2g[ln];
            assert(self.l2g@[ln as int].0 < buf@.len());
            proof {
                lemma_node_range(&self.sub, &self.layout, NodeId(ln as u32));
            }
            match self.layout.node(NodeId(ln as u32)) {
                Some(i) => {
                    if !gn.is_ground() {
                        x[i] = buf[gn.0 as usize];
                    }
                },
                None => {},
            }
            ln = ln + 1;
        }
        self.x = x;
    }

    /// Accept the trial solution as the start of the run, every history at rest.
    pub fn seed(&mut self, opts: &SolverOptions<S>)
        requires
            old(self).wf(),
        ensures
            final(self).wf(),
            *final(self) == (NonlinearIsland {
                x_accepted: final(self).x_accepted,
                state: final(self).state,
                ..*old(self)
            }),
            final(self).x_accepted@ == old(self).x@,
            forall|k: int, d: int|
                0 <= k < 4 && 0 <= d < old(self).sub.devices@.len() ==> #[trigger] track(
                    &final(self).state,
                    k,
                    d,
                ) == begun(
                    track(&old(self).state, k, d),
                    held_first(&old(self).sub, &old(self).layout, old(self).x@, opts, d).bank(k),
                ),
    {
        self.x_accepted = copied_list(&self.x);
        seed_sub_reactive(&mut self.state, &self.sub, &self.layout, &self.x, opts);
    }

    /// Accept the trial solution as that of a step.
    pub fn commit(&mut self, h: S, opts: &SolverOptions<S>)
        requires
            old(self).wf(),
        ensures
            final(self).wf(),
            *final(self) == (NonlinearIsland {
                x_accepted: final(self).x_accepted,
                state: final(self).state,
                first_step: false,
                ..*old(self)
            }),
            final(self).x_accepted@ == old(self).x@,
            forall|k: int, d: int|
                0 <= k < 4 && 0 <= d < old(self).sub.devices@.len() ==> #[trigger] track(
                    &final(self).state,
                    k,
                    d,
                ) == rolled(
                    track(&old(self).state, k, d),
                    held_at(&old(self).sub, &old(self).layout, old(self).x@, opts, d).bank(k),
                    h,
                    continues_trapezoidal(opts.integration, old(self).first_step),
                ),
    {
        advance_sub_reactive(
            &mut self.state,
            &self.sub,
            &self.layout,
            &self.x,
            h,
            opts,
            self.first_step,
        );
        self.x_accepted = copied_list(&self.x);
        self.first_step = false;
    }

    /// What a failed step reports, given the text of its size.
    pub fn failure_text(&self, h: &str) -> (r: String)
        ensures
            r@ == step_failure(self.sub.devices@, h@),
    {
        let mut text = String::from_str("nonlinear island Newton failed at h=");
        text.append(h);
        text.append(" (island of ");
        text.append(decimal(self.sub.devices.len()).as_str());
        text.append(": ");
        let shown: usize = if self.sub.devices.len() < NAMED_IN_FAILURE {
            self.sub.devices.len()
        } else {
            NAMED_IN_FAILURE
        };
        let ghost head = text@;
        let mut k: usize = 0;
        while k < shown
            invariant
                k <= shown <= self.sub.devices@.len(),
                text@ == head + named_devices(self.sub.devices@, k as nat),
            decreases shown - k,
        {
            if k > 0 {
                text.append(", ");
            }
            text.append(self.sub.devices[k].name());
            assert(text@ =~= head + named_devices(self.sub.devices@, (k + 1) as nat));
            k = k + 1;
        }
        text.append(")");
        text
    }
}

proof fn lemma_owned_slots<S: Scalar>(
    l2g: Seq<NodeId>,
    edge: Seq<NodeId>,
    layout: &Layout<S>,
    count: nat,
)
    requires
        count <= l2g.len(),
    ensures
        forall|k: int|
            0 <= k < owned_slots(l2g, edge, layout, count).len() ==> {
                let slot = #[trigger] owned_slots(l2g, edge, layout, count)[k];
                &&& slot.0.0 != 0
                &&& !edge.contains(slot.0)
                &&& l2g.take(count as int).contains(slot.0)
            },
        l2g.no_duplicates() ==> forall|i: int, j: int|
            0 <= i < j < owned_slots(l2g, edge, layout, count).len() ==> (
            #[trigger] owned_slots(l2g, edge, layout, count)[i]).0 != (
            #[trigger] owned_slots(l2g, edge, layout, count)[j]).0,
    decreases count,
{
    if count > 0 {
        let below = (count - 1) as nat;
        lemma_owned_slots(l2g, edge, layout, below);
        let was = owned_slots(l2g, edge, layout, below);
        let now = owned_slots(l2g, edge, layout, count);
        let head = l2g.take(below as int);
        let more = l2g.take(count as int);
        assert forall|k: int| 0 <= k < now.len() implies {
            let slot = #[trigger] now[k];
            &&& slot.0.0 != 0
            &&& !edge.contains(slot.0)
            &&& more.contains(slot.0)
        } by {
            if k < was.len() {
                assert(now[k] == was[k]);
                let i = choose|i: int| 0 <= i < head.len() && head[i] == was[k].0;
                assert(more[i] == was[k].0);
            } else {
                assert(more[below as int] == now[k].0);
            }
        }
        if l2g.no_duplicates() {
            assert forall|i: int, j: int| 0 <= i < j < now.len() implies (#[trigger] now[i]).0 != (
            #[trigger] now[j]).0 by {
                if j < was.len() {
                    assert(was[i].0 != was[j].0);
                } else {
                    assert(head.contains(was[i].0));
                    let m = choose|m: int| 0 <= m < head.len() && head[m] == was[i].0;
                    assert(l2g[m] != l2g[below as int]);
                }
            }
        }
    }
}

/// An island never writes its own boundary, nor ground, and writes no node twice.
pub proof fn law_islands_write_their_own<S: Scalar>(
    circuit: &Circuit<S>,
    isl: &Island,
    sub: &Circuit<S>,
    l2g: Seq<NodeId>,
    layout: &Layout<S>,
    i: int,
    j: int,
)
    requires
        lowers(circuit, isl, sub, l2g),
        0 <= i < j < owned_slots(l2g, isl.boundary_in@, layout, l2g.len()).len(),
    ensures
        ({
            let owned = owned_slots(l2g, isl.boundary_in@, layout, l2g.len());
            &&& owned[i].0 != owned[j].0
            &&& owned[i].0.0 != 0
            &&& !isl.boundary_in@.contains(owned[i].0)
            &&& !isl.boundary_in@.contains(owned[j].0)
        }),
{
    lemma_owned_slots(l2g, isl.boundary_in@, layout, l2g.len());
}

/// The islands of an analyzed partition do not feed each other: what one writes,
/// no other touches, so one sweep is exact.
pub proof fn law_analyzed_islands_are_uncoupled<S>(
    devices: Seq<Device<S>>,
    n: nat,
    p: Partition,
    a: int,
    b: int,
    node: NodeId,
)
    requires
        is_partition(devices, n, p),
        0 <= a < p.islands@.len(),
        0 <= b < p.islands@.len(),
        a != b,
        p.islands@[a].nodes@.contains(node),
        !p.islands@[a].boundary_in@.contains(node),
    ensures
        !p.islands@[b].nodes@.contains(node),
        !p.islands@[b].boundary_in@.contains(node),
{
    let pinned = pinned_nodes(devices, n);
    assert(has_boundary(p.islands@, pinned, p.islands@[a]));
    assert(has_boundary(p.islands@, pinned, p.islands@[b]));
    if p.islands@[b].nodes@.contains(node) {
        assert(shared(p.islands@, p.islands@.len() as int, node)) by {
            if a < b {
                assert(p.islands@[a].nodes@.contains(node) && p.islands@[b].nodes@.contains(node));
            } else {
                assert(p.islands@[b].nodes@.contains(node) && p.islands@[a].nodes@.contains(node));
            }
        }
    }
}

/// Where the pinned node of an island balances, what the island reports as drawn out of
/// it is what everything but the pinning source draws there.
pub proof fn law_a_rail_current_balances_its_node<S: Scalar>(
    nl: &NonlinearIsland<S>,
    ctx: &StampCtx<S>,
    rail: NodeId,
    k: int,
    p: NodeId,
    t: Seq<Write<S>>,
)
    requires
        S::exact(),
        *ctx.layout == nl.layout,
        entry_of(nl.boundary@, rail, 0) == Some(k),
        ctx.br(nl.boundary@[k].1) is Some,
        ctx.ix(p) is Some,
        ctx.ix(p) != ctx.br(nl.boundary@[k].1),
        residual_after(
            S::spec_zero(),
            put_vsource(ctx, nl.boundary@[k].1, p, NodeId(0), t),
            nl.x@,
            ctx.ix(p)->0 as int,
        ) == S::spec_zero(),
    ensures
        residual_after(S::spec_zero(), t, nl.x@, ctx.ix(p)->0 as int) == nl.spec_rail_current(
            rail,
        ),
{
    broadcast use group_sums;

    let zero = S::spec_zero();
    let id = nl.boundary@[k].1;
    let r = ctx.ix(p)->0 as int;
    law_a_voltage_source_holds_its_voltage(ctx, id, p, NodeId(0), t, nl.x@, r);
    let f = residual_after(zero, t, nl.x@, r);
    let i = at(nl.x@, ctx.br(id));
    let s = seq![f, i];
    let none = Sum::Nothing;
    assert(ctx.ix(NodeId(0)) is None);
    lemma_same_terms(term(0).plus(term(1).minus(none)).plus(none), term(0).plus(term(1)), s);
    lemma_same_terms(term(0).plus(term(1)).plus(term(1).negated()), term(0), s);
    lemma_same_terms(none.plus(term(1).negated()), term(1).negated(), s);
}

/// A boundary node is pinned by the first entry that names it, and by none only where
/// none does.
pub proof fn law_a_boundary_node_is_the_first_named(
    boundary: Seq<(NodeId, DeviceId)>,
    n: NodeId,
    from: int,
)
    requires
        0 <= from <= boundary.len(),
    ensures
        match entry_of(boundary, n, from) {
            Some(k) => from <= k < boundary.len() && boundary[k].0 == n && forall|j: int|
                from <= j < k ==> (#[trigger] boundary[j]).0 != n,
            None => forall|j: int| from <= j < boundary.len() ==> (#[trigger] boundary[j]).0 != n,
        },
    decreases boundary.len() - from,
{
    if from < boundary.len() {
        law_a_boundary_node_is_the_first_named(boundary, n, from + 1);
    }
}

} // verus!
