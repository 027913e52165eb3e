//! Behavioral sources: an expression of voltages and currents, linearized by
//! finite differences.
use vstd::prelude::*;

use crate::circuit::{BDep, BOutput, DeviceId, NodeId};
use crate::options::SolverOptions;
use crate::scalar::Scalar;
use crate::stamp::context::{Linearized, StampCtx};
use crate::stamp::tape::{
    add_incidence, inject, push_g, put_current, put_g, put_i, put_incidence, stamp_current, Write,
};
use vstd::string::*;

verus! {

/// Why an expression could not be linearized.
#[derive(Debug)]
pub enum ExprFault<S> {
    /// The expression could not be evaluated.
    Eval(String),
    /// The value at the iterate is not finite.
    Value(S),
    /// The value at a probe is not finite: dependency, value, probed at.
    Probe(usize, S, S),
    /// A difference quotient is not finite: dependency, quotient.
    Partial(usize, S),
}

/// The step by which a dependency is probed: relative, with the convergence
/// floor of its kind.
pub open spec fn probe_step<S: Scalar>(dep: BDep, x: S, opts: &SolverOptions<S>) -> S {
    opts.reltol.spec_times(x.spec_abs()).spec_plus(
        match dep {
            BDep::Volt(_) => opts.vntol,
            BDep::Branch(_) => opts.abstol,
        },
    )
}

/// The dependency values with one probed.
pub open spec fn probed<S: Scalar>(
    deps: Seq<BDep>,
    vals: Seq<S>,
    k: int,
    opts: &SolverOptions<S>,
) -> Seq<S> {
    vals.update(k, vals[k].spec_plus(probe_step(deps[k], vals[k], opts)))
}

/// A dependency's difference quotient.
pub open spec fn quotient<S: Scalar>(
    deps: Seq<BDep>,
    vals: Seq<S>,
    k: int,
    opts: &SolverOptions<S>,
    f0: S,
    fk: S,
) -> S {
    fk.spec_minus(f0).spec_over(probe_step(deps[k], vals[k], opts))
}

/// What linearizing yields from the value at the iterate and the values at the
/// probes of the first `count` dependencies. The first fault in order wins.
pub open spec fn partials_upto<S: Scalar>(
    deps: Seq<BDep>,
    vals: Seq<S>,
    opts: &SolverOptions<S>,
    f0: S,
    probes: Seq<Result<S, String>>,
    count: nat,
) -> Result<Seq<S>, ExprFault<S>>
    decreases count,
{
    if count == 0 {
        Ok(Seq::empty())
    } else {
        let k = count - 1;
        match partials_upto(deps, vals, opts, f0, probes, k as nat) {
            Err(e) => Err(e),
            Ok(rest) => match probes[k] {
                Err(e) => Err(ExprFault::Eval(e)),
                Ok(fk) => if !fk.spec_finite() {
                    Err(ExprFault::Probe(k as usize, fk, probed(deps, vals, k, opts)[k]))
                } else {
                    let g = quotient(deps, vals, k, opts, f0, fk);
                    if !g.spec_finite() {
                        Err(ExprFault::Partial(k as usize, g))
                    } else {
                        Ok(rest.push(g))
                    }
                },
            },
        }
    }
}

/// What linearizing yields from the value at the iterate and at all probes.
pub open spec fn linearization<S: Scalar>(
    deps: Seq<BDep>,
    vals: Seq<S>,
    opts: &SolverOptions<S>,
    f0: Result<S, String>,
    probes: Seq<Result<S, String>>,
) -> Result<(S, Seq<S>), ExprFault<S>> {
    match f0 {
        Err(e) => Err(ExprFault::Eval(e)),
        Ok(f) => if !f.spec_finite() {
            Err(ExprFault::Value(f))
        } else {
            match partials_upto(deps, vals, opts, f, probes, deps.len()) {
                Err(e) => Err(e),
                Ok(g) => Ok((f, g)),
            }
        },
    }
}

/// The step by which a dependency is probed.
fn delta<S: Scalar>(dep: BDep, x: S, opts: &SolverOptions<S>) -> (r: S)
    ensures
        r == probe_step(dep, x, opts),
{
    let floor: S = match dep {
        BDep::Volt(_) => opts.vntol,
        BDep::Branch(_) => opts.abstol,
    };
    opts.reltol.times(x.abs()).plus(floor)
}

/// Judge a value at the iterate.
pub fn judge_value<S: Scalar>(f: Result<S, String>) -> (r: Result<S, ExprFault<S>>)
    ensures
        r == match f {
            Err(e) => Err(ExprFault::Eval(e)),
            Ok(v) => if v.spec_finite() {
                Ok(v)
            } else {
                Err(ExprFault::Value(v))
            },
        },
{
    match f {
        Err(e) => Err(ExprFault::Eval(e)),
        Ok(v) => if v.finite() {
            Ok(v)
        } else {
            Err(ExprFault::Value(v))
        },
    }
}

/// Judge a value at the probe of dependency `k`; the partial derivative.
pub fn judge_probe<S: Scalar>(
    deps: &[BDep],
    vals: &[S],
    k: usize,
    opts: &SolverOptions<S>,
    f0: S,
    fk: Result<S, String>,
) -> (r: Result<S, ExprFault<S>>)
    requires
        k < deps@.len() == vals@.len(),
    ensures
        r == match fk {
            Err(e) => Err(ExprFault::Eval(e)),
            Ok(v) => if !v.spec_finite() {
                Err(ExprFault::Probe(k, v, probed(deps@, vals@, k as int, opts)[k as int]))
            } else {
                let g = quotient(deps@, vals@, k as int, opts, f0, v);
                if g.spec_finite() {
                    Ok(g)
                } else {
                    Err(ExprFault::Partial(k, g))
                }
            },
        },
{
    let step: S = delta(deps[k], vals[k], opts);
    match fk {
        Err(e) => Err(ExprFault::Eval(e)),
        Ok(v) => if !v.finite() {
            Err(ExprFault::Probe(k, v, vals[k].plus(step)))
        } else {
            let g: S = v.minus(f0).over(step);
            if g.finite() {
                Ok(g)
            } else {
                Err(ExprFault::Partial(k, g))
            }
        },
    }
}

/// Whether the expression may return `f` at the given values.
pub open spec fn yields<S: Scalar, F: Fn(&Vec<S>) -> Result<S, String>>(
    expr: F,
    vals: Seq<S>,
    f: Result<S, String>,
) -> bool {
    exists|v: Vec<S>| v@ == vals && #[trigger] call_ensures(expr, (&v,), f)
}

/// Evaluate an expression and its partial derivatives by forward differences.
///
/// The result is the linearization of what the expression returned at the given
/// values and at each probe; the values are restored.
pub fn behavioral_eval_partials<S: Scalar, F: Fn(&Vec<S>) -> Result<S, String>>(
    expr: F,
    deps: &[BDep],
    vals: &mut Vec<S>,
    opts: &SolverOptions<S>,
) -> (r: Result<(S, Vec<S>), ExprFault<S>>)
    requires
        deps@.len() == old(vals)@.len(),
        forall|v: Vec<S>| #[trigger] call_requires(expr, (&v,)),
    ensures
        final(vals)@ == old(vals)@,
        exists|f0: Result<S, String>, probes: Seq<Result<S, String>>|
            #![trigger linearization(deps@, old(vals)@, opts, f0, probes)]
            {
                &&& linearization(deps@, old(vals)@, opts, f0, probes) == match r {
                    Ok(got) => Ok((got.0, got.1@)),
                    Err(e) => Err(e),
                }
                &&& r is Ok ==> probes.len() == deps@.len()
                &&& yields(expr, old(vals)@, f0)
                &&& forall|k: int|
                    0 <= k < probes.len() ==> yields(
                        expr,
                        probed(deps@, old(vals)@, k, opts),
                        #[trigger] probes[k],
                    )
            },
{
    let ghost vals0 = vals@;
    let ghost before = *vals;
    let first = expr(&*vals);
    let ghost f0 = first;
    assert(yields(expr, vals0, f0)) by {
        assert(call_ensures(expr, (&before,), f0));
    }
    let ghost mut probes: Seq<Result<S, String>> = Seq::empty();
    let f: S = match judge_value(first) {
        Ok(v) => v,
        Err(e) => {
            assert(linearization(deps@, vals0, opts, f0, probes) == Err::<(S, Seq<S>), _>(e));
            return Err(e);
        },
    };
    let mut partials: Vec<S> = Vec::new();
    let mut k: usize = 0;
    while k < deps.len()
        invariant
            k <= deps@.len(),
            deps@.len() == vals0.len(),
            vals0 == old(vals)@,
            vals@ == vals0,
            forall|v: Vec<S>| #[trigger] call_requires(expr, (&v,)),
            f0 == Ok::<S, String>(f),
            f.spec_finite(),
            yields(expr, vals0, f0),
            probes.len() == k,
            forall|j: int|
                0 <= j < probes.len() ==> yields(
                    expr,
                    probed(deps@, vals0, j, opts),
                    #[trigger] probes[j],
                ),
            partials_upto(deps@, vals0, opts, f, probes, k as nat) == Ok::<Seq<S>, ExprFault<S>>(
                partials@,
            ),
        decreases deps@.len() - k,
    {
        let x0: S = vals[k];
        let step: S = delta(deps[k], x0, opts);
        vals.set(k, x0.plus(step));
        let ghost moved = *vals;
        assert(moved@ == probed(deps@, vals0, k as int, opts));
        let fk = expr(&*vals);
        vals.set(k, x0);
        assert(vals@ =~= vals0);
        let ghost more = probes.push(fk);
        assert(yields(expr, probed(deps@, vals0, k as int, opts), fk)) by {
            assert(call_ensures(expr, (&moved,), fk));
        }
        proof {
            lemma_partials_prefix(deps@, vals0, opts, f, probes, more, k as nat);
        }
        match judge_probe(deps, vals.as_slice(), k, opts, f, fk) {
            Ok(g) => {
                partials.push(g);
                proof {
                    assert(more[k as int] == fk);
                    assert(partials_upto(deps@, vals0, opts, f, more, (k + 1) as nat) == Ok::<
                        Seq<S>,
                        ExprFault<S>,
                    >(partials@));
                    probes = more;
                }
            },
            Err(e) => {
                proof {
                    assert(more[k as int] == fk);
                    assert(partials_upto(deps@, vals0, opts, f, more, (k + 1) as nat) == Err::<
                        Seq<S>,
                        ExprFault<S>,
                    >(e));
                    lemma_partials_fault(
                        deps@,
                        vals0,
                        opts,
                        f,
                        more,
                        (k + 1) as nat,
                        deps@.len(),
                        e,
                    );
                    assert(linearization(deps@, vals0, opts, f0, more) == Err::<(S, Seq<S>), _>(
                        e,
                    ));
                }
                return Err(e);
            },
        }
        k = k + 1;
    }
    assert(linearization(deps@, vals0, opts, f0, probes) == Ok::<(S, Seq<S>), ExprFault<S>>(
        (f, partials@),
    ));
    Ok((f, partials))
}

proof fn lemma_partials_prefix<S: Scalar>(
    deps: Seq<BDep>,
    vals: Seq<S>,
    opts: &SolverOptions<S>,
    f0: S,
    a: Seq<Result<S, String>>,
    b: Seq<Result<S, String>>,
    count: nat,
)
    requires
        count <= a.len(),
        count <= b.len(),
        forall|i: int| 0 <= i < count ==> a[i] == b[i],
    ensures
        partials_upto(deps, vals, opts, f0, a, count) == partials_upto(
            deps,
            vals,
            opts,
            f0,
            b,
            count,
        ),
    decreases count,
{
    if count > 0 {
        lemma_partials_prefix(deps, vals, opts, f0, a, b, (count - 1) as nat);
    }
}

proof fn lemma_partials_fault<S: Scalar>(
    deps: Seq<BDep>,
    vals: Seq<S>,
    opts: &SolverOptions<S>,
    f0: S,
    probes: Seq<Result<S, String>>,
    at: nat,
    count: nat,
    e: ExprFault<S>,
)
    requires
        at <= count,
        partials_upto(deps, vals, opts, f0, probes, at) == Err::<Seq<S>, ExprFault<S>>(e),
    ensures
        partials_upto(deps, vals, opts, f0, probes, count) == Err::<Seq<S>, ExprFault<S>>(e),
    decreases count,
{
    if at < count {
        lemma_partials_fault(deps, vals, opts, f0, probes, at, (count - 1) as nat, e);
    }
}

/// The unknown a dependency reads.
pub open spec fn dep_column<S: Scalar>(ctx: &StampCtx<S>, dep: BDep) -> Option<usize> {
    match dep {
        BDep::Volt(n) => ctx.ix(n),
        BDep::Branch(d) => ctx.br(d),
    }
}

/// The value of a dependency at the iterate.
pub open spec fn dep_value<S: Scalar>(ctx: &StampCtx<S>, dep: BDep) -> S {
    crate::stamp::context::at(ctx.x@, dep_column(ctx, dep))
}

/// The constant of the linearization: the value less the partials times the
/// iterate.
pub open spec fn const_term<S: Scalar>(
    ctx: &StampCtx<S>,
    deps: Seq<BDep>,
    value: S,
    partials: Seq<S>,
    count: nat,
) -> S
    decreases count,
{
    if count == 0 {
        value
    } else {
        const_term(ctx, deps, value, partials, (count - 1) as nat).spec_minus(
            partials[count - 1].spec_times(dep_value(ctx, deps[count - 1])),
        )
    }
}

/// The partials of a current output, in the rows of its terminals.
pub open spec fn put_current_partials<S: Scalar>(
    ctx: &StampCtx<S>,
    p: Option<usize>,
    n: Option<usize>,
    deps: Seq<BDep>,
    partials: Seq<S>,
    count: nat,
    t: Seq<Write<S>>,
) -> Seq<Write<S>>
    decreases count,
{
    if count == 0 {
        t
    } else {
        let before = put_current_partials(ctx, p, n, deps, partials, (count - 1) as nat, t);
        let col = dep_column(ctx, deps[count - 1]);
        let g = partials[count - 1];
        put_g(put_g(before, p, col, g), n, col, g.spec_negated())
    }
}

/// The partials of a voltage output, in its branch row.
pub open spec fn put_branch_partials<S: Scalar>(
    ctx: &StampCtx<S>,
    br: Option<usize>,
    deps: Seq<BDep>,
    partials: Seq<S>,
    count: nat,
    t: Seq<Write<S>>,
) -> Seq<Write<S>>
    decreases count,
{
    if count == 0 {
        t
    } else {
        let before = put_branch_partials(ctx, br, deps, partials, (count - 1) as nat, t);
        put_g(
            before,
            br,
            dep_column(ctx, deps[count - 1]),
            partials[count - 1].spec_negated(),
        )
    }
}

/// A behavioral source: the Newton companion of its expression, or nothing where
/// the expression has no value.
pub open spec fn put_behavioral<S: Scalar>(
    ctx: &StampCtx<S>,
    id: DeviceId,
    p: NodeId,
    n: NodeId,
    output: BOutput,
    deps: Seq<BDep>,
    t: Seq<Write<S>>,
) -> Seq<Write<S>> {
    match ctx.behavior@[id.0 as int] {
        None => t,
        Some(lin) => {
            let g = lin.partials@;
            let rest = const_term(ctx, deps, lin.value, g, deps.len());
            match output {
                BOutput::Current => put_current(
                    put_current_partials(ctx, ctx.ix(p), ctx.ix(n), deps, g, deps.len(), t),
                    ctx.ix(p),
                    ctx.ix(n),
                    rest,
                ),
                BOutput::Voltage => {
                    let br = ctx.br(id);
                    put_i(
                        put_branch_partials(
                            ctx,
                            br,
                            deps,
                            g,
                            deps.len(),
                            put_incidence(t, ctx.ix(p), ctx.ix(n), br),
                        ),
                        br,
                        rest,
                    )
                },
            }
        },
    }
}

/// Whether the devices that dependencies read own a branch.
pub open spec fn deps_resolve<S: Scalar>(ctx: &StampCtx<S>, deps: Seq<BDep>) -> bool {
    forall|k: int|
        0 <= k < deps.len() ==> match #[trigger] deps[k] {
            BDep::Volt(_) => true,
            BDep::Branch(d) => d.0 < ctx.circuit.devices@.len()
                && ctx.circuit.devices@[d.0 as int].spec_owns_branch(),
        }
}

fn column_of<S: Scalar>(ctx: &StampCtx<S>, dep: BDep) -> (r: Option<usize>)
    requires
        ctx.wf(),
        match dep {
            BDep::Volt(_) => true,
            BDep::Branch(d) => d.0 < ctx.circuit.devices@.len(),
        },
    ensures
        r == dep_column(ctx, dep),
        r is Some ==> r->0 < ctx.layout.size,
{
    match dep {
        BDep::Volt(n) => ctx.node(n),
        BDep::Branch(d) => ctx.branch(d),
    }
}

pub fn stamp_behavioral<S: Scalar>(
    ctx: &StampCtx<S>,
    id: DeviceId,
    p: NodeId,
    n: NodeId,
    output: BOutput,
    deps: &Vec<BDep>,
    out: &mut Vec<Write<S>>,
)
    requires
        ctx.wf(),
        id.0 < ctx.circuit.devices@.len(),
        deps_resolve(ctx, deps@),
        ctx.behavior@[id.0 as int] is Some ==> ctx.behavior@[id.0 as int]->0.partials@.len()
            == deps@.len(),
    ensures
        final(out)@ == put_behavioral(ctx, id, p, n, output, deps@, old(out)@),
{
    let lin: &Linearized<S> = match &ctx.behavior[id.0 as usize] {
        Some(lin) => lin,
        None => {
            return ;
        },
    };
    let ghost g = lin.partials@;
    let ghost start = out@;
    let mut rest: S = lin.value;
    let mut k: usize = 0;
    while k < deps.len()
        invariant
            k <= deps@.len(),
            ctx.wf(),
            deps_resolve(ctx, deps@),
            g == lin.partials@,
            g.len() == deps@.len(),
            rest == const_term(ctx, deps@, lin.value, g, k as nat),
        decreases deps@.len() - k,
    {
        assert(match deps@[k as int] {
            BDep::Volt(_) => true,
            BDep::Branch(d) => d.0 < ctx.circuit.devices@.len(),
        });
        let col = column_of(ctx, deps[k]);
        rest = rest.minus(lin.partials[k].times(crate::stamp::context::value_at(ctx.x, col)));
        k = k + 1;
    }
    let pi = ctx.node(p);
    let ni = ctx.node(n);
    match output {
        BOutput::Current => {
            let mut j: usize = 0;
            while j < deps.len()
                invariant
                    j <= deps@.len(),
                    ctx.wf(),
                    deps_resolve(ctx, deps@),
                    g == lin.partials@,
                    g.len() == deps@.len(),
                    out@ == put_current_partials(ctx, pi, ni, deps@, g, j as nat, start),
                decreases deps@.len() - j,
            {
                assert(match deps@[j as int] {
                    BDep::Volt(_) => true,
                    BDep::Branch(d) => d.0 < ctx.circuit.devices@.len(),
                });
                let col = column_of(ctx, deps[j]);
                let v: S = lin.partials[j];
                push_g(out, pi, col, v);
                push_g(out, ni, col, v.negated());
                j = j + 1;
            }
            stamp_current(out, pi, ni, rest);
        },
        BOutput::Voltage => {
            let br = ctx.branch(id);
            add_incidence(out, pi, ni, br);
            let ghost row = out@;
            let mut j: usize = 0;
            while j < deps.len()
                invariant
                    j <= deps@.len(),
                    ctx.wf(),
                    deps_resolve(ctx, deps@),
                    g == lin.partials@,
                    g.len() == deps@.len(),
                    out@ == put_branch_partials(ctx, br, deps@, g, j as nat, row),
                decreases deps@.len() - j,
            {
                assert(match deps@[j as int] {
                    BDep::Volt(_) => true,
                    BDep::Branch(d) => d.0 < ctx.circuit.devices@.len(),
                });
                let col = column_of(ctx, deps[j]);
                push_g(out, br, col, lin.partials[j].negated());
                j = j + 1;
            }
            inject(out, br, rest);
        },
    }
}

/// The first fault of an assembly, by device.
#[derive(Debug)]
pub struct FaultNote {
    pub first: Option<String>,
}

/// The text of a fault.
pub open spec fn fault_text(name: Seq<char>, detail: Seq<char>) -> Seq<char> {
    "behavioral source `"@ + name + "`: "@ + detail
}

impl FaultNote {
    /// The noted text, if any.
    pub open spec fn noted(&self) -> Option<Seq<char>> {
        match self.first {
            Some(s) => Some(s@),
            None => None,
        }
    }

    pub fn new() -> (r: Self)
        ensures
            r.noted() is None,
    {
        FaultNote { first: None }
    }

    /// Note a fault; the first one of an assembly stays.
    pub fn note_behavioral_fault(&mut self, name: &str, detail: &str)
        ensures
            final(self).noted() == Some(
                match old(self).noted() {
                    Some(s) => s,
                    None => fault_text(name@, detail@),
                },
            ),
    {
        if self.first.is_none() {
            let mut text = String::from_str("behavioral source `");
            text.append(name);
            text.append("`: ");
            text.append(detail);
            self.first = Some(text);
        }
    }

    /// The fault noted since the last call, if any.
    pub fn take_behavioral_fault(&mut self) -> (r: Option<String>)
        ensures
            r == old(self).first,
            final(self).first is None,
    {
        self.first.take()
    }
}

} // verus!
