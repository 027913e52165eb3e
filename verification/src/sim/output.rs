//! What a run reports: one column per probe, one row per sample.
use vstd::prelude::*;

use crate::circuit::Circuit;
use crate::duplicate::copied_list;
use crate::error::{ErrorView, SolveError, SolvePhase};
use crate::options::{Integration, SolverOptions};
use crate::scalar::Scalar;
use crate::sim::resolve::{
    branchless, device_named, labels, labels_of, no_branch, no_element, node_at, node_named,
    resolve_branch_device, resolve_node, residual_label, seen, texts,
};
use crate::sim::{Probe, ProbeView};
use crate::stamp::context::{at, frac, lemma_branch_range, lemma_node_range, ratio, value_at};
use crate::system::{zero_vec, Layout};
use crate::terms::{group_sums, lemma_same_terms, term};
use crate::text::{decimal, decimal_digits, lower, same_ignoring_case, same_text};

verus! {

/// The largest current imbalance of a solution, and where it is.
#[derive(Debug)]
pub struct WorstResidual<S> {
    pub max_abs: S,
    pub label: String,
}

/// The span of a transient run, and the rule it was integrated with.
#[derive(Debug, Clone, Copy)]
pub struct Window<S> {
    pub start: S,
    pub stop: S,
    pub method: Integration,
}

/// How exact a result is: the tolerances, and what the run measured.
#[derive(Debug)]
pub struct ErrorBudget<S> {
    pub reltol: S,
    pub vntol: S,
    pub abstol: S,
    pub chgtol: S,
    pub residual: Option<WorstResidual<S>>,
    pub window: Option<Window<S>>,
}

/// Whether a budget holds a run's tolerances.
pub open spec fn budget_of<S: Scalar>(opts: &SolverOptions<S>, b: ErrorBudget<S>) -> bool {
    &&& b.reltol == opts.reltol
    &&& b.vntol == opts.vntol
    &&& b.abstol == opts.abstol
    &&& b.chgtol == opts.chgtol
}

/// What is held against the evidence of a run, part by part; nothing where the part
/// is in order.
#[derive(Debug)]
pub struct Objections {
    pub tolerances: Option<String>,
    pub window: Option<String>,
    pub method: Option<String>,
    pub residual: Option<String>,
}

/// A run's tolerances, nothing measured yet; refused where something is held
/// against them.
pub fn error_budget<S: Scalar>(opts: &SolverOptions<S>, objection: &Option<String>) -> (r: Result<
    ErrorBudget<S>,
    SolveError,
>)
    ensures
        match objection {
            Some(why) => r matches Err(e) && e@ == ErrorView::Invalid(
                "invalid solver error budget: "@ + why@,
            ),
            None => r matches Ok(b) && budget_of(opts, b) && b.residual is None
                && b.window is None,
        },
{
    match objection {
        Some(why) => {
            let mut text = String::from_str("invalid solver error budget: ");
            text.append(why.as_str());
            Err(SolveError::Invalid(text))
        },
        None => Ok(
            ErrorBudget {
                reltol: opts.reltol,
                vntol: opts.vntol,
                abstol: opts.abstol,
                chgtol: opts.chgtol,
                residual: None,
                window: None,
            },
        ),
    }
}

/// A residual to report; a fault of the solver where something is held against it.
fn measured<S: Scalar>(max_abs: S, label: String, objection: &Option<String>) -> (r: Result<
    WorstResidual<S>,
    SolveError,
>)
    ensures
        match objection {
            Some(why) => r matches Err(e) && e@ == ErrorView::Internal(
                "invalid residual: "@ + why@,
            ),
            None => r matches Ok(w) && w.max_abs == max_abs && w.label == label,
        },
{
    match objection {
        Some(why) => {
            let mut text = String::from_str("invalid residual: ");
            text.append(why.as_str());
            Err(SolveError::Internal(text))
        },
        None => Ok(WorstResidual { max_abs, label }),
    }
}

/// Whether the label names the node of an unknown, or its number where it has none.
pub open spec fn labels_unknown<S: Scalar>(
    circuit: &Circuit<S>,
    layout: &Layout<S>,
    at: usize,
    label: Seq<char>,
) -> bool {
    label == match node_at(layout, at, circuit.node_names().len(), 1) {
        Some(n) => circuit.node_names()[n as int],
        None => "unknown #"@ + decimal_digits(at as nat),
    }
}

/// A table of samples; `time` is there for a transient.
#[derive(Debug)]
pub struct SimOutput<S> {
    pub columns: Vec<String>,
    pub time: Option<Vec<S>>,
    /// `rows[i][j]` is column `j` at sample `i`.
    pub rows: Vec<Vec<S>>,
    pub error_budget: ErrorBudget<S>,
}

/// The first column of a label, from `from` on.
pub open spec fn column_at(columns: Seq<String>, label: Seq<char>, from: int) -> Option<int>
    decreases columns.len() - from,
{
    if from >= columns.len() {
        None
    } else if columns[from]@ == label {
        Some(from)
    } else {
        column_at(columns, label, from + 1)
    }
}

impl<S: Scalar> SimOutput<S> {
    /// Whether every row has an entry per column.
    pub open spec fn wf(&self) -> bool {
        forall|i: int|
            0 <= i < self.rows@.len() ==> (#[trigger] self.rows@[i])@.len() == self.columns@.len()
    }

    /// The samples of a column; of the first one where several have the label.
    pub fn column(&self, label: &str) -> (r: Option<Vec<S>>)
        requires
            self.wf(),
        ensures
            match column_at(self.columns@, label@, 0) {
                Some(j) => r matches Some(v) && v@ == Seq::new(
                    self.rows@.len(),
                    |i: int| self.rows@[i]@[j],
                ),
                None => r is None,
            },
    {
        let mut j: usize = 0;
        while j < self.columns.len()
            invariant
                self.wf(),
                j <= self.columns@.len(),
                column_at(self.columns@, label@, 0) == column_at(self.columns@, label@, j as int),
            decreases self.columns@.len() - j,
        {
            if same_text(self.columns[j].as_str(), label) {
                let mut out: Vec<S> = Vec::new();
                let mut i: usize = 0;
                while i < self.rows.len()
                    invariant
                        self.wf(),
                        j < self.columns@.len(),
                        i <= self.rows@.len(),
                        out@ == Seq::new(i as nat, |k: int| self.rows@[k]@[j as int]),
                    decreases self.rows@.len() - i,
                {
                    assert(self.rows@[i as int]@.len() == self.columns@.len());
                    out.push(self.rows[i][j]);
                    assert(out@ =~= Seq::new((i + 1) as nat, |k: int| self.rows@[k]@[j as int]));
                    i = i + 1;
                }
                return Some(out);
            }
            j = j + 1;
        }
        None
    }
}

/// A node's value in a solution, by name.
pub open spec fn volts_of<S: Scalar>(
    circuit: &Circuit<S>,
    layout: &Layout<S>,
    x: Seq<S>,
    name: Seq<char>,
) -> Result<S, ErrorView> {
    match node_named(circuit.node_names(), name) {
        Ok(n) => Ok(at(x, layout.spec_node(n))),
        Err(e) => Err(e),
    }
}

/// A probe's value in a solution.
pub open spec fn probed<S: Scalar>(
    circuit: &Circuit<S>,
    layout: &Layout<S>,
    x: Seq<S>,
    p: ProbeView,
) -> Result<S, ErrorView> {
    match p {
        ProbeView::NodeVoltage(a) => volts_of(circuit, layout, x, a),
        ProbeView::NodeDiff(a, b) => match volts_of(circuit, layout, x, a) {
            Err(e) => Err(e),
            Ok(va) => match volts_of(circuit, layout, x, b) {
                Err(e) => Err(e),
                Ok(vb) => Ok(va.spec_minus(vb)),
            },
        },
        ProbeView::BranchCurrent(d) => match device_named(circuit.devices@, d, 0) {
            None => Err(no_element(d)),
            Some(k) => match layout.branch_of@[k] {
                None => Err(branchless(d)),
                Some(i) => Ok(x[i as int]),
            },
        },
    }
}

fn read_node<S: Scalar>(circuit: &Circuit<S>, layout: &Layout<S>, x: &Vec<S>, name: &str) -> (r:
    Result<S, SolveError>)
    requires
        circuit.wf(),
        layout.lays_out(circuit),
        x@.len() == layout.size,
    ensures
        seen(r) == volts_of(circuit, layout, x@, name@),
{
    match resolve_node(circuit, name) {
        Ok(n) => {
            proof {
                lemma_node_range(circuit, layout, n);
            }
            Ok(value_at(x.as_slice(), layout.node(n)))
        },
        Err(e) => Err(e),
    }
}

fn read_probe<S: Scalar>(circuit: &Circuit<S>, layout: &Layout<S>, x: &Vec<S>, p: &Probe) -> (r:
    Result<S, SolveError>)
    requires
        circuit.wf(),
        layout.lays_out(circuit),
        x@.len() == layout.size,
    ensures
        seen(r) == probed(circuit, layout, x@, p@),
{
    match p {
        Probe::NodeVoltage(a) => read_node(circuit, layout, x, a.as_str()),
        Probe::NodeDiff(a, b) => {
            let va = match read_node(circuit, layout, x, a.as_str()) {
                Ok(v) => v,
                Err(e) => {
                    return Err(e);
                },
            };
            let vb = match read_node(circuit, layout, x, b.as_str()) {
                Ok(v) => v,
                Err(e) => {
                    return Err(e);
                },
            };
            Ok(va.minus(vb))
        },
        Probe::BranchCurrent(d) => match resolve_branch_device(circuit, d.as_str()) {
            Err(e) => Err(e),
            Ok(id) => {
                proof {
                    lemma_branch_range(circuit, layout, id.0 as int);
                }
                match layout.branch(id) {
                    Some(i) => Ok(x[i]),
                    None => Err(no_branch(d.as_str())),
                }
            },
        },
    }
}

/// The first `count` probes' values, or the first probe's error.
pub open spec fn probed_row<S: Scalar>(
    circuit: &Circuit<S>,
    layout: &Layout<S>,
    x: Seq<S>,
    probes: Seq<Probe>,
    count: nat,
) -> Result<Seq<S>, ErrorView>
    decreases count,
{
    if count == 0 {
        Ok(Seq::empty())
    } else {
        match probed_row(circuit, layout, x, probes, (count - 1) as nat) {
            Err(e) => Err(e),
            Ok(row) => match probed(circuit, layout, x, probes[count - 1]@) {
                Err(e) => Err(e),
                Ok(v) => Ok(row.push(v)),
            },
        }
    }
}

proof fn lemma_error_stays<S: Scalar>(
    circuit: &Circuit<S>,
    layout: &Layout<S>,
    x: Seq<S>,
    probes: Seq<Probe>,
    a: nat,
    b: nat,
)
    requires
        a <= b,
        probed_row(circuit, layout, x, probes, a) is Err,
    ensures
        probed_row(circuit, layout, x, probes, b) == probed_row(circuit, layout, x, probes, a),
    decreases b,
{
    if a < b {
        lemma_error_stays(circuit, layout, x, probes, a, (b - 1) as nat);
    }
}

/// Read the probes off a solution.
pub fn read_row<S: Scalar>(
    circuit: &Circuit<S>,
    layout: &Layout<S>,
    x: &Vec<S>,
    probes: &Vec<Probe>,
) -> (r: Result<Vec<S>, SolveError>)
    requires
        circuit.wf(),
        layout.lays_out(circuit),
        x@.len() == layout.size,
    ensures
        match probed_row(circuit, layout, x@, probes@, probes@.len()) {
            Ok(row) => r matches Ok(v) && v@ == row && row.len() == probes@.len(),
            Err(e) => r matches Err(f) && f@ == e,
        },
{
    let mut row: Vec<S> = Vec::new();
    let mut k: usize = 0;
    while k < probes.len()
        invariant
            k <= probes@.len(),
            circuit.wf(),
            layout.lays_out(circuit),
            x@.len() == layout.size,
            row@.len() == k,
            probed_row(circuit, layout, x@, probes@, k as nat) == Ok::<Seq<S>, ErrorView>(row@),
        decreases probes@.len() - k,
    {
        match read_probe(circuit, layout, x, &probes[k]) {
            Ok(v) => {
                row.push(v);
            },
            Err(e) => {
                proof {
                    assert(probed(circuit, layout, x@, probes@[k as int]@) == Err::<S, ErrorView>(
                        e@,
                    ));
                    lemma_error_stays(
                        circuit,
                        layout,
                        x@,
                        probes@,
                        (k + 1) as nat,
                        probes@.len(),
                    );
                }
                return Err(e);
            },
        }
        k = k + 1;
    }
    Ok(row)
}

/// A solved operating point, as the solver hands it over.
#[derive(Debug)]
pub struct OpPoint<S> {
    pub x: Vec<S>,
    /// The largest current imbalance, and its unknown.
    pub worst: S,
    pub at: usize,
    /// Whether the solver settled for a relaxed stand-in.
    pub staged: bool,
}

/// The imbalance that a reported operating point may have: a microampere.
pub open spec fn balance_limit<S: Scalar>() -> S {
    frac(1, 1_000_000)
}

/// Whether an operating point may be reported: its imbalance is finite and within
/// the limit. A stand-in that only seeds a transient is not.
pub open spec fn balanced<S: Scalar>(worst: S) -> bool {
    worst.spec_finite() && !balance_limit::<S>().spec_less(worst)
}

pub open spec fn unbalanced_text(worst: Seq<char>, at: nat, staged: bool) -> Seq<char> {
    ".op did not converge: KCL residual "@ + worst + " A at unknown #"@ + decimal_digits(at)
        + " exceeds 1e-6 A"@ + if staged {
        " (a staged-DC relaxed surrogate was adopted; it seeds transients but is not a converged operating point)"@
    } else {
        ""@
    }
}

/// Report an operating point, given the text of its imbalance: refused where it is
/// out of balance, else its probes in one row.
pub fn op_output<S: Scalar>(
    circuit: &Circuit<S>,
    layout: &Layout<S>,
    point: &OpPoint<S>,
    worst_text: &str,
    opts: &SolverOptions<S>,
    against: &Objections,
    probes: &Vec<Probe>,
) -> (r: Result<SimOutput<S>, SolveError>)
    requires
        circuit.wf(),
        layout.lays_out(circuit),
        point.x@.len() == layout.size,
    ensures
        if !balanced(point.worst) {
            r matches Err(e) && e@ == (ErrorView::NonConvergence {
                message: unbalanced_text(worst_text@, point.at as nat, point.staged),
                phase: SolvePhase::Dc,
                time: None,
                dt: None,
                iterations: None,
                blame: None,
            })
        } else {
            match probed_row(circuit, layout, point.x@, probes@, probes@.len()) {
                Err(e) => r matches Err(f) && f@ == e,
                Ok(row) => if let Some(why) = against.tolerances {
                    r matches Err(e) && e@ == ErrorView::Invalid(
                        "invalid solver error budget: "@ + why@,
                    )
                } else if let Some(why) = against.residual {
                    r matches Err(e) && e@ == ErrorView::Internal("invalid residual: "@ + why@)
                } else {
                    r matches Ok(out) && {
                        &&& out.wf()
                        &&& texts(out.columns@) == labels_of(probes@)
                        &&& out.time is None
                        &&& out.rows@.len() == 1
                        &&& out.rows@[0]@ == row
                        &&& budget_of(opts, out.error_budget)
                        &&& out.error_budget.window is None
                        &&& out.error_budget.residual matches Some(w) && w.max_abs == point.worst
                            && labels_unknown(circuit, layout, point.at, w.label@)
                    }
                },
            }
        },
{
    if !point.worst.finite() || ratio::<S>(1, 1_000_000).less(point.worst) {
        let mut text = String::from_str(".op did not converge: KCL residual ");
        text.append(worst_text);
        text.append(" A at unknown #");
        text.append(decimal(point.at).as_str());
        text.append(" exceeds 1e-6 A");
        if point.staged {
            text.append(
                " (a staged-DC relaxed surrogate was adopted; it seeds transients but is not a converged operating point)",
            );
        } else {
            text.append("");
        }
        return Err(
            SolveError::NonConvergence {
                message: text,
                phase: SolvePhase::Dc,
                time: None,
                dt: None,
                iterations: None,
                blame: None,
            },
        );
    }
    let row = match read_row(circuit, layout, &point.x, probes) {
        Ok(row) => row,
        Err(e) => {
            return Err(e);
        },
    };
    let mut budget = match error_budget(opts, &against.tolerances) {
        Ok(b) => b,
        Err(e) => {
            return Err(e);
        },
    };
    let label = residual_label(circuit, layout, point.at);
    match measured(point.worst, label, &against.residual) {
        Ok(w) => {
            budget.residual = Some(w);
        },
        Err(e) => {
            return Err(e);
        },
    }
    let columns = labels(probes);
    assert(columns@.len() == texts(columns@).len());
    let mut rows: Vec<Vec<S>> = Vec::new();
    rows.push(row);
    Ok(SimOutput { columns, time: None, rows, error_budget: budget })
}

/// The waveforms of a transient run.
#[derive(Debug)]
pub struct TranWaves<S> {
    pub time: Vec<S>,
    /// By node number.
    pub node_voltages: Vec<Vec<S>>,
    /// By element name.
    pub branch_currents: Vec<(String, Vec<S>)>,
}

impl<S: Scalar> TranWaves<S> {
    /// Whether every waveform has a value per time.
    pub open spec fn wf(&self) -> bool {
        &&& forall|k: int|
            0 <= k < self.node_voltages@.len() ==> (#[trigger] self.node_voltages@[k])@.len()
                == self.time@.len()
        &&& forall|k: int|
            0 <= k < self.branch_currents@.len() ==> (#[trigger] self.branch_currents@[k]).1@.len()
                == self.time@.len()
    }

    /// The waveform of a node: zero for ground.
    pub open spec fn node_wave(&self, names: Seq<Seq<char>>, name: Seq<char>) -> Result<
        Seq<S>,
        ErrorView,
    > {
        match node_named(names, name) {
            Err(e) => Err(e),
            Ok(n) => if n.0 == 0 {
                Ok(Seq::new(self.time@.len(), |i: int| S::spec_zero()))
            } else if n.0 < self.node_voltages@.len() {
                Ok(self.node_voltages@[n.0 as int]@)
            } else {
                Err(ErrorView::Internal("node `"@ + name + "` has no waveform"@))
            },
        }
    }

    /// The first current of a name, in any letter case, from `from` on.
    pub open spec fn current_at(&self, name: Seq<char>, from: int) -> Option<int>
        decreases self.branch_currents@.len() - from,
    {
        if from >= self.branch_currents@.len() {
            None
        } else if lower(self.branch_currents@[from].0@) == lower(name) {
            Some(from)
        } else {
            self.current_at(name, from + 1)
        }
    }

    /// The waveform of a probe.
    pub open spec fn wave(&self, names: Seq<Seq<char>>, p: ProbeView) -> Result<Seq<S>, ErrorView> {
        match p {
            ProbeView::NodeVoltage(a) => self.node_wave(names, a),
            ProbeView::NodeDiff(a, b) => match self.node_wave(names, a) {
                Err(e) => Err(e),
                Ok(wa) => match self.node_wave(names, b) {
                    Err(e) => Err(e),
                    Ok(wb) => Ok(
                        Seq::new(self.time@.len(), |i: int| wa[i].spec_minus(wb[i])),
                    ),
                },
            },
            ProbeView::BranchCurrent(d) => match self.current_at(d, 0) {
                Some(k) => Ok(self.branch_currents@[k].1@),
                None => Err(branchless(d)),
            },
        }
    }

    /// The waveforms of the first `count` probes, or the first probe's error.
    pub open spec fn waves(
        &self,
        names: Seq<Seq<char>>,
        probes: Seq<Probe>,
        count: nat,
    ) -> Result<Seq<Seq<S>>, ErrorView>
        decreases count,
    {
        if count == 0 {
            Ok(Seq::empty())
        } else {
            match self.waves(names, probes, (count - 1) as nat) {
                Err(e) => Err(e),
                Ok(ws) => match self.wave(names, probes[count - 1]@) {
                    Err(e) => Err(e),
                    Ok(w) => Ok(ws.push(w)),
                },
            }
        }
    }

    proof fn lemma_wave_error_stays(
        &self,
        names: Seq<Seq<char>>,
        probes: Seq<Probe>,
        a: nat,
        b: nat,
    )
        requires
            a <= b,
            self.waves(names, probes, a) is Err,
        ensures
            self.waves(names, probes, b) == self.waves(names, probes, a),
        decreases b,
    {
        if a < b {
            self.lemma_wave_error_stays(names, probes, a, (b - 1) as nat);
        }
    }

    fn read_node_wave(&self, circuit: &Circuit<S>, name: &str) -> (r: Result<Vec<S>, SolveError>)
        requires
            circuit.wf(),
            self.wf(),
        ensures
            match self.node_wave(circuit.node_names(), name@) {
                Ok(w) => r matches Ok(v) && v@ == w && w.len() == self.time@.len(),
                Err(e) => r matches Err(f) && f@ == e,
            },
    {
        let n = match resolve_node(circuit, name) {
            Ok(n) => n,
            Err(e) => {
                return Err(e);
            },
        };
        if n.is_ground() {
            let out: Vec<S> = zero_vec(self.time.len());
            assert(out@ =~= Seq::new(self.time@.len(), |i: int| S::spec_zero()));
            return Ok(out);
        }
        if (n.0 as usize) < self.node_voltages.len() {
            assert(self.node_voltages@[n.0 as int]@.len() == self.time@.len());
            return Ok(copied_list(&self.node_voltages[n.0 as usize]));
        }
        let mut text = String::from_str("node `");
        text.append(name);
        text.append("` has no waveform");
        Err(SolveError::Internal(text))
    }

    fn read_wave(&self, circuit: &Circuit<S>, p: &Probe) -> (r: Result<Vec<S>, SolveError>)
        requires
            circuit.wf(),
            self.wf(),
        ensures
            match self.wave(circuit.node_names(), p@) {
                Ok(w) => r matches Ok(v) && v@ == w && w.len() == self.time@.len(),
                Err(e) => r matches Err(f) && f@ == e,
            },
    {
        match p {
            Probe::NodeVoltage(a) => self.read_node_wave(circuit, a.as_str()),
            Probe::NodeDiff(a, b) => {
                let wa = match self.read_node_wave(circuit, a.as_str()) {
                    Ok(w) => w,
                    Err(e) => {
                        return Err(e);
                    },
                };
                let wb = match self.read_node_wave(circuit, b.as_str()) {
                    Ok(w) => w,
                    Err(e) => {
                        return Err(e);
                    },
                };
                let mut out: Vec<S> = Vec::new();
                let mut i: usize = 0;
                while i < self.time.len()
                    invariant
                        i <= self.time@.len(),
                        wa@.len() == self.time@.len(),
                        wb@.len() == self.time@.len(),
                        out@ == Seq::new(i as nat, |j: int| wa@[j].spec_minus(wb@[j])),
                    decreases self.time@.len() - i,
                {
                    out.push(wa[i].minus(wb[i]));
                    assert(out@ =~= Seq::new((i + 1) as nat, |j: int| wa@[j].spec_minus(wb@[j])));
                    i = i + 1;
                }
                Ok(out)
            },
            Probe::BranchCurrent(d) => {
                let mut k: usize = 0;
                while k < self.branch_currents.len()
                    invariant
                        self.wf(),
                        p@ == ProbeView::BranchCurrent(d@),
                        k <= self.branch_currents@.len(),
                        self.current_at(d@, 0) == self.current_at(d@, k as int),
                    decreases self.branch_currents@.len() - k,
                {
                    if same_ignoring_case(self.branch_currents[k].0.as_str(), d.as_str()) {
                        assert(self.branch_currents@[k as int].1@.len() == self.time@.len());
                        return Ok(copied_list(&self.branch_currents[k].1));
                    }
                    k = k + 1;
                }
                Err(no_branch(d.as_str()))
            },
        }
    }
}

/// Series as sequences.
spec fn wave_list<S>(series: Seq<Vec<S>>) -> Seq<Seq<S>> {
    Seq::new(series.len(), |j: int| series[j]@)
}

/// The first objection to a transient's evidence, as an error: to its window, to its
/// method, to the tolerances, and to its residual where one is reported.
pub open spec fn tran_objection<S: Scalar>(
    against: &Objections,
    last: Option<(S, usize)>,
) -> Option<ErrorView> {
    if let Some(why) = against.window {
        Some(ErrorView::Internal("invalid transient window: "@ + why@))
    } else if let Some(why) = against.method {
        Some(ErrorView::Internal("invalid transient method: "@ + why@))
    } else if let Some(why) = against.tolerances {
        Some(ErrorView::Invalid("invalid solver error budget: "@ + why@))
    } else {
        match (last, against.residual) {
            (Some((worst, _)), Some(why)) if worst.spec_finite() => Some(
                ErrorView::Internal("invalid residual: "@ + why@),
            ),
            _ => None,
        }
    }
}

/// The window and the rule of a transient run to `tstop`.
fn window_to<S: Scalar>(tstop: S, opts: &SolverOptions<S>, against: &Objections) -> (r: Result<
    Window<S>,
    SolveError,
>)
    ensures
        if let Some(why) = against.window {
            r matches Err(e) && e@ == ErrorView::Internal("invalid transient window: "@ + why@)
        } else if let Some(why) = against.method {
            r matches Err(e) && e@ == ErrorView::Internal("invalid transient method: "@ + why@)
        } else {
            r == Ok::<Window<S>, SolveError>(
                Window { start: S::spec_zero(), stop: tstop, method: opts.integration },
            )
        },
{
    match &against.window {
        Some(why) => {
            let mut text = String::from_str("invalid transient window: ");
            text.append(why.as_str());
            return Err(SolveError::Internal(text));
        },
        None => {},
    }
    match &against.method {
        Some(why) => {
            let mut text = String::from_str("invalid transient method: ");
            text.append(why.as_str());
            return Err(SolveError::Internal(text));
        },
        None => {},
    }
    Ok(Window { start: S::zero(), stop: tstop, method: opts.integration })
}

/// Report a transient run to `tstop`: a column per probe, a row per time. The worst
/// imbalance of its last step is reported where it was measured and is finite.
pub fn tran_output<S: Scalar>(
    circuit: &Circuit<S>,
    layout: &Layout<S>,
    waves: TranWaves<S>,
    tstop: S,
    last: Option<(S, usize)>,
    opts: &SolverOptions<S>,
    against: &Objections,
    probes: &Vec<Probe>,
) -> (r: Result<SimOutput<S>, SolveError>)
    requires
        circuit.wf(),
        layout.lays_out(circuit),
        waves.wf(),
    ensures
        match waves.waves(circuit.node_names(), probes@, probes@.len()) {
            Err(e) => r matches Err(f) && f@ == e,
            Ok(ws) => match tran_objection(against, last) {
                Some(e) => r matches Err(f) && f@ == e,
                None => r matches Ok(out) && {
                    &&& out.wf()
                    &&& texts(out.columns@) == labels_of(probes@)
                    &&& out.time == Some(waves.time)
                    &&& out.rows@.len() == waves.time@.len()
                    &&& forall|i: int, j: int|
                        0 <= i < out.rows@.len() && 0 <= j < probes@.len() ==> (
                        #[trigger] out.rows@[i]@[j]) == ws[j][i]
                    &&& budget_of(opts, out.error_budget)
                    &&& out.error_budget.window == Some(
                        Window { start: S::spec_zero(), stop: tstop, method: opts.integration },
                    )
                    &&& match last {
                        Some((worst, at)) if worst.spec_finite() => {
                            &&& out.error_budget.residual matches Some(w)
                            &&& w.max_abs == worst
                            &&& labels_unknown(circuit, layout, at, w.label@)
                        },
                        _ => out.error_budget.residual is None,
                    }
                },
            },
        },
{
    let ghost names = circuit.node_names();
    let mut series: Vec<Vec<S>> = Vec::new();
    assert(wave_list(series@) =~= Seq::<Seq<S>>::empty());
    let mut k: usize = 0;
    while k < probes.len()
        invariant
            k <= probes@.len(),
            circuit.wf(),
            names == circuit.node_names(),
            waves.wf(),
            series@.len() == k,
            forall|j: int| 0 <= j < k ==> (#[trigger] series@[j])@.len() == waves.time@.len(),
            waves.waves(names, probes@, k as nat) == Ok::<Seq<Seq<S>>, ErrorView>(
                wave_list(series@),
            ),
        decreases probes@.len() - k,
    {
        match waves.read_wave(circuit, &probes[k]) {
            Ok(w) => {
                let ghost before = series@;
                series.push(w);
                assert(wave_list(series@) =~= wave_list(before).push(w@));
            },
            Err(e) => {
                proof {
                    waves.lemma_wave_error_stays(
                        names,
                        probes@,
                        (k + 1) as nat,
                        probes@.len(),
                    );
                }
                return Err(e);
            },
        }
        k = k + 1;
    }
    let mut rows: Vec<Vec<S>> = Vec::new();
    let mut i: usize = 0;
    while i < waves.time.len()
        invariant
            i <= waves.time@.len(),
            series@.len() == probes@.len(),
            forall|j: int|
                0 <= j < probes@.len() ==> (#[trigger] series@[j])@.len() == waves.time@.len(),
            rows@.len() == i,
            forall|a: int| 0 <= a < i ==> (#[trigger] rows@[a])@.len() == probes@.len(),
            forall|a: int, j: int|
                0 <= a < i && 0 <= j < probes@.len() ==> (#[trigger] rows@[a]@[j]) == series@[j]@[a],
        decreases waves.time@.len() - i,
    {
        let ghost before = rows@;
        let mut row: Vec<S> = Vec::new();
        let mut j: usize = 0;
        while j < series.len()
            invariant
                j <= series@.len(),
                i < waves.time@.len(),
                series@.len() == probes@.len(),
                forall|j: int|
                    0 <= j < probes@.len() ==> (#[trigger] series@[j])@.len() == waves.time@.len(),
                row@.len() == j,
                forall|b: int| 0 <= b < j ==> #[trigger] row@[b] == series@[b]@[i as int],
            decreases series@.len() - j,
        {
            assert(series@[j as int]@.len() == waves.time@.len());
            row.push(series[j][i]);
            j = j + 1;
        }
        let ghost made = row@;
        rows.push(row);
        assert forall|a: int, b: int| 0 <= a < i + 1 && 0 <= b < probes@.len() implies (
        #[trigger] rows@[a]@[b]) == series@[b]@[a] by {
            if a < i {
                assert(rows@[a] == before[a]);
                assert(before[a]@[b] == series@[b]@[a]);
            } else {
                assert(rows@[a]@ == made);
            }
        }
        i = i + 1;
    }
    let window = match window_to(tstop, opts, against) {
        Ok(w) => w,
        Err(e) => {
            return Err(e);
        },
    };
    let mut budget = match error_budget(opts, &against.tolerances) {
        Ok(b) => b,
        Err(e) => {
            return Err(e);
        },
    };
    budget.window = Some(window);
    match last {
        Some((worst, at)) => {
            if worst.finite() {
                match measured(worst, residual_label(circuit, layout, at), &against.residual) {
                    Ok(w) => {
                        budget.residual = Some(w);
                    },
                    Err(e) => {
                        return Err(e);
                    },
                }
            }
        },
        None => {},
    }
    let columns = labels(probes);
    assert(columns@.len() == texts(columns@).len());
    Ok(SimOutput { columns, time: Some(waves.time), rows, error_budget: budget })
}

/// A label names the first column that bears it, and none only where no column does.
pub proof fn law_a_label_names_its_first_column(columns: Seq<String>, label: Seq<char>, from: int)
    requires
        0 <= from <= columns.len(),
    ensures
        match column_at(columns, label, from) {
            Some(k) => from <= k < columns.len() && columns[k]@ == label && forall|j: int|
                from <= j < k ==> (#[trigger] columns[j])@ != label,
            None => forall|j: int| from <= j < columns.len() ==> (#[trigger] columns[j])@ != label,
        },
    decreases columns.len() - from,
{
    if from < columns.len() {
        law_a_label_names_its_first_column(columns, label, from + 1);
    }
}

/// A difference probe reads the difference of its two nodes: added to the second it is
/// the first, and the other way round it is the negative.
pub proof fn law_a_difference_probe_is_directed<S: Scalar>(
    circuit: &Circuit<S>,
    layout: &Layout<S>,
    x: Seq<S>,
    a: Seq<char>,
    b: Seq<char>,
)
    requires
        S::exact(),
    ensures
        ({
            let va = probed(circuit, layout, x, ProbeView::NodeVoltage(a));
            let vb = probed(circuit, layout, x, ProbeView::NodeVoltage(b));
            let ab = probed(circuit, layout, x, ProbeView::NodeDiff(a, b));
            let ba = probed(circuit, layout, x, ProbeView::NodeDiff(b, a));
            &&& ab is Ok <==> va is Ok && vb is Ok
            &&& ab is Ok ==> ab->Ok_0.spec_plus(vb->Ok_0) == va->Ok_0 && ba is Ok && ba->Ok_0
                == ab->Ok_0.spec_negated()
        }),
{
    broadcast use group_sums;

    match (volts_of(circuit, layout, x, a), volts_of(circuit, layout, x, b)) {
        (Ok(u), Ok(v)) => {
            lemma_same_terms(term(0).minus(term(1)).plus(term(1)), term(0), seq![u, v]);
            lemma_same_terms(
                term(1).minus(term(0)),
                term(0).minus(term(1)).negated(),
                seq![u, v],
            );
        },
        _ => {},
    }
}

} // verus!
