//! The compiled assembly, and that it equals the interpreted one.
use vstd::prelude::*;

use crate::circuit::DeviceId;
use crate::plan::backbone::{constant_tape, reactive_tape, visit_of, Visit};
use crate::plan::compile::{visits, with_value, Restamp, StampPlan};
use crate::plan::slots::{
    assemble_slotted, lemma_fits_pattern, lemma_ops_pattern, lemma_pattern_chain, ops_fit,
    ops_tape, present, scaled,
};
use crate::scalar::Scalar;
use crate::sparse::SparseMatrix;
use crate::stamp::confine::{cells_of, lemma_device_cells, system_rows};
use crate::stamp::context::StampCtx;
use crate::stamp::device::{put_device, put_diagonal, stamp_all, stamp_device, system_tape};
use crate::stamp::pattern::{lemma_reserved_range, reserved};
use crate::stamp::tape::{
    assembled, cell, cell_after, in_range, lemma_cell_split, lemma_row_split, load, loaded,
    row_after, Write,
};

verus! {

/// The right-hand-side writes of a tape.
pub open spec fn rhs_only<S>(t: Seq<Write<S>>) -> Seq<Write<S>>
    decreases t.len(),
{
    if t.len() == 0 {
        t
    } else {
        let rest = rhs_only(t.drop_last());
        match t.last() {
            Write::G(_, _, _) => rest,
            Write::I(_, _) => rest.push(t.last()),
        }
    }
}

/// Whether the compiled assembly models the context: not an operating point, not
/// regularized, nothing held.
pub open spec fn eligible<S: Scalar>(ctx: &StampCtx<S>) -> bool {
    !ctx.dc && ctx.branch_reg.spec_is_zero() && ctx.comparator_freeze is None
        && ctx.switch_freeze is None
}

/// What a device visited again contributes.
pub open spec fn visit_tape<S: Scalar>(ctx: &StampCtx<S>, d: int, full: bool) -> Seq<Write<S>> {
    let t = put_device(ctx, d, Seq::empty());
    if full {
        t
    } else {
        rhs_only(t)
    }
}

/// What the devices visited again among the first `count` contribute.
pub open spec fn put_visits<S: Scalar>(
    ctx: &StampCtx<S>,
    count: nat,
    t: Seq<Write<S>>,
) -> Seq<Write<S>>
    decreases count,
{
    if count == 0 {
        t
    } else {
        let before = put_visits(ctx, (count - 1) as nat, t);
        match visit_of(ctx.circuit.devices@[count - 1]) {
            Visit::Skip => before,
            Visit::RhsOnly => before + visit_tape(ctx, count - 1, false),
            Visit::Full => before + visit_tape(ctx, count - 1, true),
        }
    }
}

/// The constant contributions at the context's integration factor and shunt.
pub open spec fn backbone<S: Scalar>(ctx: &StampCtx<S>, m: &SparseMatrix<S>) -> Seq<Write<S>> {
    let n = ctx.circuit.devices@.len();
    let nodes = ctx.layout.n_nodes as nat;
    let shunts = if ctx.gmin.spec_is_zero() {
        Seq::empty()
    } else {
        present(m, put_diagonal(0, nodes, ctx.gmin, Seq::empty()))
    };
    present(m, constant_tape(ctx.circuit, ctx.layout, n)) + scaled(
        present(m, reactive_tape(ctx.circuit, ctx.layout, n)),
        ctx.coeffs.g,
    ) + shunts
}

/// Everything the compiled assembly adds.
pub open spec fn planned_tape<S: Scalar>(ctx: &StampCtx<S>, m: &SparseMatrix<S>) -> Seq<Write<S>> {
    put_visits(ctx, ctx.circuit.devices@.len(), backbone(ctx, m))
}

/// What a list of visits contributes.
spec fn put_list<S: Scalar>(
    ctx: &StampCtx<S>,
    list: Seq<(DeviceId, bool)>,
    count: nat,
    t: Seq<Write<S>>,
) -> Seq<Write<S>>
    decreases count,
{
    if count == 0 {
        t
    } else {
        put_list(ctx, list, (count - 1) as nat, t) + visit_tape(
            ctx,
            list[count - 1].0.0 as int,
            list[count - 1].1,
        )
    }
}

proof fn lemma_list_prefix<S: Scalar>(
    ctx: &StampCtx<S>,
    a: Seq<(DeviceId, bool)>,
    b: Seq<(DeviceId, bool)>,
    count: nat,
    t: Seq<Write<S>>,
)
    requires
        count <= a.len(),
        count <= b.len(),
        forall|i: int| 0 <= i < count ==> a[i] == b[i],
    ensures
        put_list(ctx, a, count, t) == put_list(ctx, b, count, t),
    decreases count,
{
    if count > 0 {
        lemma_list_prefix(ctx, a, b, (count - 1) as nat, t);
    }
}

/// The list of visits contributes what the visited devices do.
proof fn lemma_list<S: Scalar>(ctx: &StampCtx<S>, count: nat, t: Seq<Write<S>>)
    requires
        count <= ctx.circuit.devices@.len() <= u32::MAX,
    ensures
        put_list(
            ctx,
            visits(ctx.circuit.devices@, count),
            visits(ctx.circuit.devices@, count).len(),
            t,
        ) == put_visits(ctx, count, t),
        forall|k: int|
            0 <= k < visits(ctx.circuit.devices@, count).len() ==> (#[trigger] visits(
                ctx.circuit.devices@,
                count,
            )[k]).0.0 < count,
    decreases count,
{
    if count > 0 {
        lemma_list(ctx, (count - 1) as nat, t);
        let rest = visits(ctx.circuit.devices@, (count - 1) as nat);
        let all = visits(ctx.circuit.devices@, count);
        lemma_list_prefix(ctx, rest, all, rest.len(), t);
    }
}

/// Adding two tapes one after the other adds their concatenation.
proof fn lemma_assembled_chain<S: Scalar>(
    g0: &SparseMatrix<S>,
    a: Seq<Write<S>>,
    g1: &SparseMatrix<S>,
    b: Seq<Write<S>>,
    g2: &SparseMatrix<S>,
)
    requires
        assembled(g0, a, g1),
        assembled(g1, b, g2),
    ensures
        assembled(g0, a + b, g2),
{
    assert forall|r: int, c: int|
        #![trigger g2.has(r, c)]
        #![trigger g2.value(r, c)]
        cell(g2, r, c) == cell_after(cell(g0, r, c), a + b, r, c) by {
        assert(g1.has(r, c) == g1.has(r, c));
        assert(cell(g1, r, c) == cell_after(cell(g0, r, c), a, r, c));
        assert(g2.has(r, c) == g2.has(r, c));
        assert(cell(g2, r, c) == cell_after(cell(g1, r, c), b, r, c));
        lemma_cell_split(cell(g0, r, c), a, b, r, c);
    }
}

proof fn lemma_loaded_chain<S: Scalar>(
    v0: Seq<S>,
    a: Seq<Write<S>>,
    v1: Seq<S>,
    b: Seq<Write<S>>,
    v2: Seq<S>,
)
    requires
        loaded(v0, a, v1),
        loaded(v1, b, v2),
    ensures
        loaded(v0, a + b, v2),
{
    assert forall|r: int| 0 <= r < v2.len() implies #[trigger] v2[r] == row_after(
        v0[r],
        a + b,
        r,
    ) by {
        assert(v1[r] == row_after(v0[r], a, r));
        lemma_row_split(v0[r], a, b, r);
    }
}

/// Taking only the right-hand side of a tape leaves the matrix alone and the
/// right-hand side as the whole tape would.
pub proof fn lemma_rhs_only<S: Scalar>(t: Seq<Write<S>>, start: Option<S>, v: S, r: int, c: int)
    ensures
        cell_after(start, rhs_only(t), r, c) == start,
        row_after(v, rhs_only(t), r) == row_after(v, t, r),
    decreases t.len(),
{
    if t.len() > 0 {
        lemma_rhs_only(t.drop_last(), start, v, r, c);
        match t.last() {
            Write::G(_, _, _) => {},
            Write::I(_, _) => {
                let rest = rhs_only(t.drop_last());
                assert(rest.push(t.last()).drop_last() =~= rest);
            },
        }
    }
}

/// A tape of matrix writes leaves the right-hand side alone.
pub open spec fn matrix_only<S>(t: Seq<Write<S>>) -> bool {
    forall|k: int| 0 <= k < t.len() ==> #[trigger] t[k] is G
}

pub proof fn lemma_matrix_only<S: Scalar>(t: Seq<Write<S>>, v: S, r: int)
    requires
        matrix_only(t),
    ensures
        row_after(v, t, r) == v,
    decreases t.len(),
{
    if t.len() > 0 {
        assert(t.last() is G);
        assert forall|k: int| 0 <= k < t.drop_last().len() implies #[trigger] t.drop_last()[k] is G by {
            assert(t[k] is G);
        }
        lemma_matrix_only(t.drop_last(), v, r);
    }
}

proof fn lemma_loaded_matrix<S: Scalar>(v: Seq<S>, t: Seq<Write<S>>)
    requires
        matrix_only(t),
    ensures
        loaded(v, t, v),
{
    assert forall|r: int| 0 <= r < v.len() implies #[trigger] v[r] == row_after(v[r], t, r) by {
        lemma_matrix_only(t, v[r], r);
    }
}

/// Add the constant contributions of a plan.
fn apply_backbone<S: Scalar>(ctx: &StampCtx<S>, plan: &StampPlan<S>, g: &mut SparseMatrix<S>)
    requires
        old(g).wf(),
        plan.compiled(ctx.circuit, ctx.layout, old(g)),
    ensures
        final(g).same_pattern(old(g)),
        forall|r: int, c: int| #[trigger] final(g).has(r, c) == old(g).has(r, c),
        assembled(old(g), backbone(ctx, old(g)), final(g)),
        matrix_only(backbone(ctx, old(g))),
{
    let ghost g0 = *g;
    assert(ops_fit(&g0, with_value(plan.gmin_diag@, ctx.gmin)));
    let ghost a = ops_tape(&g0, plan.cond_ops@);
    let ghost b = scaled(ops_tape(&g0, plan.reactive_ops@), ctx.coeffs.g);
    let ghost c = if ctx.gmin.spec_is_zero() {
        Seq::empty()
    } else {
        ops_tape(&g0, with_value(plan.gmin_diag@, ctx.gmin))
    };
    plan.apply_conductances(g);
    let ghost g1 = *g;
    proof {
        lemma_ops_pattern(&g1, &g0, plan.reactive_ops@);
    }
    plan.apply_reactive(g, ctx.coeffs.g);
    let ghost g2 = *g;
    proof {
        lemma_pattern_chain(&g2, &g1, &g0);
        lemma_ops_pattern(&g2, &g0, with_value(plan.gmin_diag@, ctx.gmin));
    }
    plan.apply_gmin(g, ctx.gmin);
    let ghost g3 = *g;
    proof {
        lemma_pattern_chain(&g3, &g2, &g0);
        lemma_assembled_chain(&g0, a, &g1, b, &g2);
        lemma_assembled_chain(&g0, a + b, &g2, c, &g3);
        assert(backbone(ctx, &g0) == a + b + c);
        assert forall|r: int, c: int| #[trigger] g3.has(r, c) == g0.has(r, c) by {
            lemma_same_has(&g3, &g0, r, c);
        }
        assert forall|k: int| 0 <= k < (a + b + c).len() implies #[trigger] (a + b + c)[k] is G by {
            if k < a.len() {
                assert((a + b + c)[k] == a[k]);
            } else if k < a.len() + b.len() {
                assert((a + b + c)[k] == b[k - a.len()]);
            } else {
                assert((a + b + c)[k] == c[k - a.len() - b.len()]);
            }
        }
    }
}

/// Visit one device again.
fn revisit<S: Scalar>(
    ctx: &StampCtx<S>,
    visit: &Restamp,
    g: &mut SparseMatrix<S>,
    rhs: &mut [S],
)
    requires
        ctx.wf(),
        old(g).wf(),
        old(g).spec_dim() == ctx.layout.size,
        old(rhs)@.len() == ctx.layout.size,
        visit.key().0.0 < ctx.circuit.devices@.len(),
        match *visit {
            Restamp::Slotted { table, .. } => table.fits(old(g)),
            _ => true,
        },
        forall|r: int, c: int|
            #[trigger] reserved(ctx.circuit, ctx.layout, r, c) ==> old(g).has(r, c),
    ensures
        final(g).same_pattern(old(g)),
        forall|r: int, c: int| #[trigger] final(g).has(r, c) == old(g).has(r, c),
        assembled(
            old(g),
            visit_tape(ctx, visit.key().0.0 as int, visit.key().1),
            final(g),
        ),
        loaded(
            old(rhs)@,
            visit_tape(ctx, visit.key().0.0 as int, visit.key().1),
            final(rhs)@,
        ),
{
    let ghost ga = *g;
    let ghost ra = rhs@;
    let mut tape: Vec<Write<S>> = Vec::new();
    assert(tape@ =~= Seq::empty());
    match visit {
        Restamp::RhsOnly { id } => {
            stamp_device(ctx, *id, &mut tape);
            proof {
                lemma_device_range(ctx, id.0 as int, &ga);
            }
            load(&tape, rhs);
            proof {
                let t = rhs_only(tape@);
                assert forall|r: int, c: int|
                    #![trigger ga.has(r, c)]
                    #![trigger ga.value(r, c)]
                    cell(&ga, r, c) == cell_after(cell(&ga, r, c), t, r, c) by {
                    lemma_rhs_only(tape@, cell(&ga, r, c), S::spec_zero(), r, c);
                }
                assert forall|r: int| 0 <= r < rhs@.len() implies #[trigger] rhs@[r] == row_after(
                    ra[r],
                    t,
                    r,
                ) by {
                    lemma_rhs_only(tape@, None, ra[r], r, 0);
                }
            }
        },
        Restamp::Slotted { id, table } => {
            stamp_device(ctx, *id, &mut tape);
            proof {
                lemma_device_range(ctx, id.0 as int, &ga);
            }
            assemble_slotted(&tape, table, g, rhs);
            proof {
                assert forall|r: int, c: int| #[trigger] g.has(r, c) == ga.has(r, c) by {
                    lemma_same_has(&*g, &ga, r, c);
                }
            }
        },
    }
}

/// Visit the listed devices again.
fn revisit_all<S: Scalar>(
    ctx: &StampCtx<S>,
    plan: &StampPlan<S>,
    g: &mut SparseMatrix<S>,
    rhs: &mut [S],
    Ghost(base): Ghost<Seq<Write<S>>>,
    Ghost(m): Ghost<SparseMatrix<S>>,
    Ghost(start): Ghost<Seq<S>>,
)
    requires
        ctx.wf(),
        m.wf(),
        old(g).wf(),
        old(g).spec_dim() == ctx.layout.size,
        old(rhs)@.len() == ctx.layout.size,
        plan.compiled(ctx.circuit, ctx.layout, &m),
        old(g).same_pattern(&m),
        forall|r: int, c: int| #[trigger] old(g).has(r, c) == m.has(r, c),
        forall|r: int, c: int|
            #[trigger] reserved(ctx.circuit, ctx.layout, r, c) ==> m.has(r, c),
        assembled(&m, base, old(g)),
        loaded(start, base, old(rhs)@),
    ensures
        assembled(&m, put_visits(ctx, ctx.circuit.devices@.len(), base), final(g)),
        loaded(start, put_visits(ctx, ctx.circuit.devices@.len(), base), final(rhs)@),
{
    let ghost n = ctx.circuit.devices@.len();
    let ghost list = visits(ctx.circuit.devices@, n);
    proof {
        lemma_list(ctx, n, base);
    }
    let mut k: usize = 0;
    while k < plan.restamp.len()
        invariant
            k <= plan.restamp@.len(),
            ctx.wf(),
            m.wf(),
            g.wf(),
            g.spec_dim() == ctx.layout.size,
            rhs@.len() == ctx.layout.size,
            n == ctx.circuit.devices@.len(),
            list == visits(ctx.circuit.devices@, n),
            plan.compiled(ctx.circuit, ctx.layout, &m),
            forall|r: int, c: int|
                #[trigger] reserved(ctx.circuit, ctx.layout, r, c) ==> m.has(r, c),
            g.same_pattern(&m),
            forall|r: int, c: int| #[trigger] g.has(r, c) == m.has(r, c),
            forall|j: int| 0 <= j < list.len() ==> (#[trigger] list[j]).0.0 < n,
            assembled(&m, put_list(ctx, list, k as nat, base), &*g),
            loaded(start, put_list(ctx, list, k as nat, base), rhs@),
        decreases plan.restamp@.len() - k,
    {
        let ghost before = put_list(ctx, list, k as nat, base);
        let ghost ga = *g;
        let ghost ra = rhs@;
        let ghost key = list[k as int];
        assert(plan.restamp@[k as int].key() == key);
        proof {
            match plan.restamp@[k as int] {
                Restamp::Slotted { id, table } => {
                    lemma_fits_pattern(table, &ga, &m);
                },
                _ => {},
            }
        }
        revisit(ctx, &plan.restamp[k], g, rhs);
        proof {
            let t = visit_tape(ctx, key.0.0 as int, key.1);
            lemma_assembled_chain(&m, before, &ga, t, &*g);
            lemma_loaded_chain(start, before, ra, t, rhs@);
            lemma_pattern_chain(&*g, &ga, &m);
        }
        k = k + 1;
    }
}

/// Assemble a circuit by its plan.
///
/// Contexts the plan does not model are assembled device by device.
pub fn stamp_all_planned<S: Scalar>(
    ctx: &StampCtx<S>,
    plan: &StampPlan<S>,
    g: &mut SparseMatrix<S>,
    rhs: &mut [S],
)
    requires
        ctx.wf(),
        old(g).wf(),
        old(g).spec_dim() == ctx.layout.size,
        old(rhs)@.len() == ctx.layout.size,
        plan.compiled(ctx.circuit, ctx.layout, old(g)),
        forall|r: int, c: int|
            #[trigger] reserved(ctx.circuit, ctx.layout, r, c) ==> old(g).has(r, c),
    ensures
        ({
            let t = if eligible(ctx) {
                planned_tape(ctx, old(g))
            } else {
                system_tape(ctx)
            };
            assembled(old(g), t, final(g)) && loaded(old(rhs)@, t, final(rhs)@)
        }),
{
    let ready: bool = !ctx.dc && ctx.branch_reg.is_zero() && ctx.comparator_freeze.is_none()
        && ctx.switch_freeze.is_none();
    if !ready {
        stamp_all(ctx, g, rhs);
        return ;
    }
    let ghost g0 = *g;
    let ghost rhs0 = rhs@;
    apply_backbone(ctx, plan, g);
    proof {
        lemma_loaded_matrix(rhs0, backbone(ctx, &g0));
    }
    revisit_all(
        ctx,
        plan,
        g,
        rhs,
        Ghost(backbone(ctx, &g0)),
        Ghost(g0),
        Ghost(rhs0),
    );
}

/// Matrices of one pattern store the same cells.
proof fn lemma_same_has<S: Scalar>(a: &SparseMatrix<S>, b: &SparseMatrix<S>, r: int, c: int)
    requires
        a.same_pattern(b),
    ensures
        a.has(r, c) == b.has(r, c),
{
    if 0 <= r < a.spec_dim() {
        assert(a.entries(r).len() == b.entries(r).len());
        if a.has(r, c) {
            let k = crate::sparse::matrix::row_pos(a.entries(r), c);
            assert(a.entries(r)[k].0 == b.entries(r)[k].0);
            assert(b.entries(r)[k].0 == c);
        }
        if b.has(r, c) {
            let k = crate::sparse::matrix::row_pos(b.entries(r), c);
            assert(a.entries(r)[k].0 == b.entries(r)[k].0);
            assert(a.entries(r)[k].0 == c);
        }
    }
}

/// What a device writes is within the system and stored.
proof fn lemma_device_range<S: Scalar>(ctx: &StampCtx<S>, d: int, g: &SparseMatrix<S>)
    requires
        ctx.wf(),
        0 <= d < ctx.circuit.devices@.len(),
        forall|r: int, c: int|
            #[trigger] reserved(ctx.circuit, ctx.layout, r, c) ==> g.has(r, c),
    ensures
        in_range(put_device(ctx, d, Seq::empty()), ctx.layout.size as nat),
        forall|k: int|
            0 <= k < put_device(ctx, d, Seq::empty()).len() ==> match #[trigger] put_device(
                ctx,
                d,
                Seq::empty(),
            )[k] {
                Write::G(r, c, _) => g.has(r as int, c as int),
                Write::I(_, _) => true,
            },
{
    lemma_device_cells(ctx, d);
    let t = put_device(ctx, d, Seq::empty());
    assert forall|k: int| 0 <= k < t.len() implies match #[trigger] t[k] {
        Write::G(r, c, _) => r < ctx.layout.size && c < ctx.layout.size && g.has(
            r as int,
            c as int,
        ),
        Write::I(r, _) => r < ctx.layout.size,
    } by {
        match t[k] {
            Write::G(r, c, _) => {
                assert(cells_of(ctx.circuit, ctx.layout)(r as int, c as int));
                lemma_reserved_range(ctx.circuit, ctx.layout, r as int, c as int);
            },
            Write::I(r, _) => {
                assert(system_rows(ctx)(r as int));
            },
        }
    }
}

} // verus!
