//! What is carried from one solve group to the next, and read at the end.
use vstd::prelude::*;

use crate::circuit::{Circuit, NodeId};
use crate::duplicate::copied_list;
use crate::error::{ErrorView, SolveError};
use crate::orchestrate::capture::assembly::{sample_node, CaptureRun};
use crate::orchestrate::capture::circuit::points;
use crate::orchestrate::grid::{constant_train, Waveforms};
use crate::orchestrate::staged::dag::StageDag;
use crate::orchestrate::staged::group::{sample_names, sample_size};
use crate::orchestrate::staged::GroupDcProbe;
use crate::scalar::Scalar;
use crate::text::{decimal, decimal_digits};

verus! {

broadcast use vstd::std_specs::hash::group_hash_axioms;

/// The waveforms captured so far, by node: times and values.
#[derive(Debug)]
pub struct Captured<S> {
    pub series: Vec<Option<(Vec<S>, Vec<S>)>>,
}

impl<S: Scalar> Captured<S> {
    /// Whether a node has been captured.
    pub open spec fn has(&self, n: NodeId) -> bool {
        n.0 < self.series@.len() && self.series@[n.0 as int] is Some
    }

    /// The points of a captured node.
    pub open spec fn points_of(&self, n: NodeId) -> Seq<(S, S)> {
        let (times, values) = self.series@[n.0 as int]->0;
        points(times@, values@)
    }

    /// Nothing captured yet.
    pub fn new(nodes: usize) -> (r: Self)
        ensures
            r.series@.len() == nodes,
            forall|n: NodeId| !#[trigger] r.has(n),
    {
        let mut series: Vec<Option<(Vec<S>, Vec<S>)>> = Vec::new();
        let mut n: usize = 0;
        while n < nodes
            invariant
                n <= nodes,
                series@.len() == n,
                forall|k: int| 0 <= k < n ==> #[trigger] series@[k] is None,
            decreases nodes - n,
        {
            series.push(None);
            n = n + 1;
        }
        Captured { series }
    }

    fn holds(&self, n: NodeId) -> (r: bool)
        ensures
            r == self.has(n),
    {
        if (n.0 as usize) < self.series.len() {
            match &self.series[n.0 as usize] {
                Some(_) => true,
                None => false,
            }
        } else {
            false
        }
    }
}

/// Whether a tear replays into a group.
pub open spec fn replays(dag: &StageDag, g: int, t: int) -> bool {
    dag.free_tears@[t].downstream == g && !dag.absorbed(dag.free_tears@[t].upstream as int)
}

/// The first tear from `from` on that a group needs and that was not captured.
pub open spec fn missing_tear<S: Scalar>(
    dag: &StageDag,
    g: int,
    captured: &Captured<S>,
    from: int,
) -> Option<int>
    decreases dag.free_tears@.len() - from,
{
    if from >= dag.free_tears@.len() {
        None
    } else if replays(dag, g, from) && !captured.has(dag.free_tears@[from].node) {
        Some(from)
    } else {
        missing_tear(dag, g, captured, from + 1)
    }
}

proof fn lemma_none_missing<S: Scalar>(
    dag: &StageDag,
    g: int,
    captured: &Captured<S>,
    from: int,
    t: int,
)
    requires
        missing_tear(dag, g, captured, from) is None,
        0 <= from <= t < dag.free_tears@.len(),
        replays(dag, g, t),
    ensures
        captured.has(dag.free_tears@[t].node),
    decreases dag.free_tears@.len() - from,
{
    if from < t {
        lemma_none_missing(dag, g, captured, from + 1, t);
    }
}

/// The message of a tear that was never captured.
pub open spec fn missing_message(name: Seq<char>, g: nat) -> Seq<char> {
    "stage ordering broke: tear node "@ + name + " needed by group "@ + decimal_digits(g)
        + " was never captured"@
}

/// The replayed nodes of a group with their waveforms, ascending by node; an error
/// where one was not captured yet.
pub fn replay_points<S: Scalar>(
    circuit: &Circuit<S>,
    dag: &StageDag,
    g: usize,
    captured: &Captured<S>,
) -> (r: Result<Vec<(NodeId, Vec<(S, S)>)>, SolveError>)
    requires
        forall|t: int|
            0 <= t < dag.free_tears@.len() ==> (#[trigger] dag.free_tears@[t]).node.0
                < circuit.node_names().len(),
    ensures
        match missing_tear(dag, g as int, captured, 0) {
            Some(t) => r matches Err(e) && e@ == ErrorView::Internal(
                missing_message(
                    circuit.node_names()[dag.free_tears@[t].node.0 as int],
                    g as nat,
                ),
            ),
            None => r matches Ok(list) && is_replay_list(dag, g as int, captured, list@),
        },
{
    let mut t: usize = 0;
    while t < dag.free_tears.len()
        invariant
            t <= dag.free_tears@.len(),
            forall|t: int|
                0 <= t < dag.free_tears@.len() ==> (#[trigger] dag.free_tears@[t]).node.0
                    < circuit.node_names().len(),
            missing_tear(dag, g as int, captured, 0) == missing_tear(
                dag,
                g as int,
                captured,
                t as int,
            ),
        decreases dag.free_tears@.len() - t,
    {
        let tear = dag.free_tears[t];
        assert(dag.free_tears@[t as int].node.0 < circuit.node_names().len());
        let needed: bool = tear.downstream == g && !dag.is_absorbed(tear.upstream);
        if needed && !captured.holds(tear.node) {
            let mut m: String = String::from_str("stage ordering broke: tear node ");
            m.append(circuit.node_name(tear.node));
            m.append(" needed by group ");
            let digits: String = decimal(g);
            m.append(digits.as_str());
            m.append(" was never captured");
            return Err(SolveError::Internal(m));
        }
        t = t + 1;
    }
    let nodes = dag.replay_nodes(g);
    let mut out: Vec<(NodeId, Vec<(S, S)>)> = Vec::new();
    let mut i: usize = 0;
    while i < nodes.len()
        invariant
            i <= nodes@.len(),
            missing_tear(dag, g as int, captured, 0) is None,
            forall|n: NodeId|
                #[trigger] nodes@.contains(n) <==> dag.replayed(
                    g as int,
                    n,
                    dag.free_tears@.len() as int,
                ),
            out@.len() == i,
            forall|k: int|
                0 <= k < i ==> (#[trigger] out@[k]).0 == nodes@[k] && out@[k].1@
                    == captured.points_of(nodes@[k]),
        decreases nodes@.len() - i,
    {
        let n = nodes[i];
        proof {
            assert(nodes@.contains(n));
            let t = choose|t: int|
                0 <= t < dag.free_tears@.len() && (#[trigger] dag.free_tears@[t]).downstream == g
                    && dag.free_tears@[t].node == n && !dag.absorbed(
                    dag.free_tears@[t].upstream as int,
                );
            lemma_none_missing(dag, g as int, captured, 0, t);
        }
        match &captured.series[n.0 as usize] {
            Some(pair) => {
                out.push((n, zip(&pair.0, &pair.1)));
            },
            None => {
                out.push((n, Vec::new()));
            },
        }
        i = i + 1;
    }
    proof {
        assert(nodes_of(out@) =~= nodes@);
    }
    Ok(out)
}

/// The nodes of a replay list.
pub open spec fn nodes_of<S>(list: Seq<(NodeId, Vec<(S, S)>)>) -> Seq<NodeId> {
    Seq::new(list.len(), |k: int| list[k].0)
}

/// Whether a list has every node replayed into a group once, ascending, with its
/// captured waveform.
pub open spec fn is_replay_list<S: Scalar>(
    dag: &StageDag,
    g: int,
    captured: &Captured<S>,
    list: Seq<(NodeId, Vec<(S, S)>)>,
) -> bool {
    &&& crate::ids::ascending(nodes_of(list))
    &&& forall|n: NodeId| #[trigger]
        nodes_of(list).contains(n) <==> dag.replayed(g, n, dag.free_tears@.len() as int)
    &&& forall|k: int|
        0 <= k < list.len() ==> (#[trigger] list[k]).1@ == captured.points_of(list[k].0)
}

fn zip<S: Scalar>(times: &Vec<S>, values: &Vec<S>) -> (r: Vec<(S, S)>)
    ensures
        r@ == points(times@, values@),
{
    let mut out: Vec<(S, S)> = Vec::new();
    let mut k: usize = 0;
    while k < times.len() && k < values.len()
        invariant
            k <= times@.len(),
            k <= values@.len(),
            out@ == points(times@, values@).take(k as int),
        decreases times@.len() - k,
    {
        let ghost all = points(times@, values@);
        out.push((times[k], values[k]));
        assert(all.take(k + 1) =~= all.take(k as int).push(all[k as int]));
        k = k + 1;
    }
    assert(out@ =~= points(times@, values@));
    out
}

/// The message of a tear node that its own group did not hold.
pub open spec fn unmapped_message(name: Seq<char>, g: nat) -> Seq<char> {
    "group "@ + decimal_digits(g) + " owns tear node "@ + name
        + " but its sub-circuit never mapped it"@
}

/// Whether a node is captured as its series in a run.
pub open spec fn captured_from<S: Scalar>(
    captured: &Captured<S>,
    run: &CaptureRun<S>,
    n: NodeId,
) -> bool {
    &&& run.g2l@.dom().contains(n.0)
    &&& captured.series@[n.0 as int] matches Some(pair)
    &&& pair.0@ == run.waveforms.time@
    &&& pair.1@ == run.waveforms.node_voltages@[run.g2l@[n.0] as int]@
}

/// Whether the captures are the old ones with the outbound nodes of a group's
/// first `count` tears from its run; a node that was captured stays.
pub open spec fn captured_more<S: Scalar>(
    before: &Captured<S>,
    dag: &StageDag,
    g: int,
    run: &CaptureRun<S>,
    count: int,
    after: &Captured<S>,
) -> bool {
    &&& forall|n: NodeId|
        n.0 < after.series@.len() && dag.captured_at(g, n, count) && !before.has(n)
            ==> #[trigger] captured_from(after, run, n)
    &&& forall|n: NodeId|
        #![trigger after.series@[n.0 as int]]
        n.0 < after.series@.len() && (before.has(n) || !dag.captured_at(g, n, count))
            ==> after.series@[n.0 as int] == before.series@[n.0 as int]
}

/// Whether tear `t` leaves a group at a node that is not captured and that the
/// group's run does not hold.
pub open spec fn unmapped_at<S: Scalar>(
    before: &Captured<S>,
    dag: &StageDag,
    g: int,
    run: &CaptureRun<S>,
    t: int,
) -> bool {
    let tear = dag.free_tears@[t];
    tear.upstream == g && !before.has(tear.node) && !run.g2l@.dom().contains(tear.node.0)
}

/// Whether tear `t` is the first of a group's that its run does not hold.
pub open spec fn first_unmapped<S: Scalar>(
    before: &Captured<S>,
    dag: &StageDag,
    g: int,
    run: &CaptureRun<S>,
    t: int,
) -> bool {
    &&& 0 <= t < dag.free_tears@.len()
    &&& unmapped_at(before, dag, g, run, t)
    &&& forall|e: int| 0 <= e < t ==> !#[trigger] unmapped_at(before, dag, g, run, e)
}

/// Capturing one more tear.
proof fn lemma_captured_more<S: Scalar>(
    before: &Captured<S>,
    dag: &StageDag,
    g: int,
    run: &CaptureRun<S>,
    t: int,
    mid: &Captured<S>,
    after: &Captured<S>,
)
    requires
        0 <= t < dag.free_tears@.len(),
        mid.series@.len() == before.series@.len(),
        after.series@.len() == before.series@.len(),
        captured_more(before, dag, g, run, t, mid),
        ({
            let n = dag.free_tears@[t].node;
            if dag.free_tears@[t].upstream == g && !mid.has(n) {
                &&& captured_from(after, run, n)
                &&& forall|m: NodeId|
                    #![trigger after.series@[m.0 as int]]
                    m.0 < after.series@.len() && m.0 != n.0 ==> after.series@[m.0 as int]
                        == mid.series@[m.0 as int]
            } else {
                after == mid
            }
        }),
    ensures
        captured_more(before, dag, g, run, t + 1, after),
{
    let tear = dag.free_tears@[t];
    let n = tear.node;
    assert forall|m: NodeId| dag.captured_at(g, m, t + 1) implies dag.captured_at(g, m, t) || (
    tear.upstream == g && m == n) by {
        let e = choose|e: int|
            0 <= e < t + 1 && (#[trigger] dag.free_tears@[e]).upstream == g
                && dag.free_tears@[e].node == m;
        if e < t {
            assert(dag.free_tears@[e].upstream == g);
        }
    }
    assert forall|m: NodeId| dag.captured_at(g, m, t) implies dag.captured_at(g, m, t + 1) by {
        let e = choose|e: int|
            0 <= e < t && (#[trigger] dag.free_tears@[e]).upstream == g
                && dag.free_tears@[e].node == m;
        assert(dag.free_tears@[e].upstream == g);
    }
    if tear.upstream == g {
        assert(dag.captured_at(g, n, t + 1)) by {
            assert(dag.free_tears@[t].upstream == g);
        }
    }
    let end = *after;
    assert forall|m: NodeId|
        m.0 < end.series@.len() && dag.captured_at(g, m, t + 1) && !before.has(
            m,
        ) implies #[trigger] captured_from(&end, run, m) by {
        if dag.captured_at(g, m, t) {
            assert(captured_from(mid, run, m));
            if after != mid && m != n {
                assert(m.0 != n.0);
                assert(after.series@[m.0 as int] == mid.series@[m.0 as int]);
            }
        } else if mid.has(n) {
            assert(mid.series@[m.0 as int] == before.series@[m.0 as int]);
        }
    }
    assert forall|m: NodeId|
        #![trigger end.series@[m.0 as int]]
        m.0 < end.series@.len() && (before.has(m) || !dag.captured_at(
            g,
            m,
            t + 1,
        )) implies end.series@[m.0 as int] == before.series@[m.0 as int] by {
        assert(mid.series@[m.0 as int] == before.series@[m.0 as int]);
        if after != mid && m.0 == n.0 {
            assert(m == n);
        }
    }
}

/// Capture a group's outbound tear nodes from its run, tear by tear; a node that is
/// captured already stays. An error at the first that the group's run does not
/// hold.
pub fn capture_outbound<S: Scalar>(
    circuit: &Circuit<S>,
    dag: &StageDag,
    g: usize,
    run: &CaptureRun<S>,
    captured: &mut Captured<S>,
) -> (r: Result<(), SolveError>)
    requires
        run.wf(),
        forall|t: int|
            0 <= t < dag.free_tears@.len() ==> (#[trigger] dag.free_tears@[t]).node.0
                < circuit.node_names().len(),
        old(captured).series@.len() == circuit.node_names().len(),
    ensures
        final(captured).series@.len() == old(captured).series@.len(),
        r is Ok ==> captured_more(
            old(captured),
            dag,
            g as int,
            run,
            dag.free_tears@.len() as int,
            final(captured),
        ),
        r is Ok ==> forall|t: int|
            0 <= t < dag.free_tears@.len() ==> !#[trigger] unmapped_at(
                old(captured),
                dag,
                g as int,
                run,
                t,
            ),
        r matches Err(e) ==> exists|t: int|
            #[trigger] first_unmapped(old(captured), dag, g as int, run, t) && captured_more(
                old(captured),
                dag,
                g as int,
                run,
                t,
                final(captured),
            ) && e@ == ErrorView::Internal(
                unmapped_message(
                    circuit.node_names()[dag.free_tears@[t].node.0 as int],
                    g as nat,
                ),
            ),
{
    let ghost start = *captured;
    let mut t: usize = 0;
    assert(captured_more(&start, dag, g as int, run, 0, captured));
    while t < dag.free_tears.len()
        invariant
            t <= dag.free_tears@.len(),
            run.wf(),
            start == *old(captured),
            captured.series@.len() == start.series@.len() == circuit.node_names().len(),
            forall|t: int|
                0 <= t < dag.free_tears@.len() ==> (#[trigger] dag.free_tears@[t]).node.0
                    < circuit.node_names().len(),
            captured_more(&start, dag, g as int, run, t as int, captured),
            forall|e: int|
                0 <= e < t ==> !#[trigger] unmapped_at(&start, dag, g as int, run, e),
        decreases dag.free_tears@.len() - t,
    {
        let tear = dag.free_tears[t];
        let n = tear.node;
        let ghost before = *captured;
        assert(n.0 < circuit.node_names().len());
        if tear.upstream == g && !captured.holds(n) {
            match run.g2l.get(&n.0) {
                Some(ln) => {
                    let at: usize = *ln as usize;
                    assert(run.g2l@.dom().contains(n.0));
                    captured.series.set(
                        n.0 as usize,
                        Some(
                            (
                                copied_list(&run.waveforms.time),
                                copied_list(&run.waveforms.node_voltages[at]),
                            ),
                        ),
                    );
                    assert(captured_from(captured, run, n));
                },
                None => {
                    let mut m: String = String::from_str("group ");
                    let digits: String = decimal(g);
                    m.append(digits.as_str());
                    m.append(" owns tear node ");
                    m.append(circuit.node_name(n));
                    m.append(" but its sub-circuit never mapped it");
                    assert(m@ == unmapped_message(circuit.node_names()[n.0 as int], g as nat));
                    assert(!start.has(n)) by {
                        if start.has(n) {
                            assert(captured.series@[n.0 as int] == start.series@[n.0 as int]);
                        }
                    }
                    assert(first_unmapped(&start, dag, g as int, run, t as int));
                    return Err(SolveError::Internal(m));
                },
            }
        }
        proof {
            assert(!unmapped_at(&start, dag, g as int, run, t as int)) by {
                if unmapped_at(&start, dag, g as int, run, t as int) && before.has(n) {
                    assert(dag.captured_at(g as int, n, t as int)) by {
                        if !dag.captured_at(g as int, n, t as int) {
                            assert(before.series@[n.0 as int] == start.series@[n.0 as int]);
                        }
                    }
                    assert(captured_from(&before, run, n));
                }
            }
            lemma_captured_more(&start, dag, g as int, run, t as int, &before, captured);
        }
        t = t + 1;
    }
    Ok(())
}

/// The series of a node in the answer: from the run of the group it is read from,
/// zero where no group conducts it.
pub open spec fn staged_series<S: Scalar>(
    dag: &StageDag,
    runs: Seq<Option<CaptureRun<S>>>,
    n: NodeId,
    grid: Seq<S>,
) -> Seq<S> {
    match dag.read_from(n) {
        Some(g) => if g < runs.len() && runs[g] is Some {
            runs[g]->0.sampled(n, grid)
        } else {
            Seq::new(grid.len(), |k: int| S::spec_zero())
        },
        None => Seq::new(grid.len(), |k: int| S::spec_zero()),
    }
}

/// The whole circuit's waveforms on a grid, from the run of every group.
pub fn assemble_staged<S: Scalar>(
    dag: &StageDag,
    runs: &Vec<Option<CaptureRun<S>>>,
    nodes: usize,
    grid: &Vec<S>,
) -> (r: Waveforms<S>)
    requires
        0 < nodes <= u32::MAX,
        forall|g: int|
            0 <= g < runs@.len() ==> (#[trigger] runs@[g] matches Some(run) ==> run.wf()),
    ensures
        r.time@ == grid@,
        r.node_voltages@.len() == nodes,
        r.node_voltages@[0]@ == Seq::new(grid@.len(), |k: int| S::spec_zero()),
        forall|n: int|
            1 <= n < nodes ==> (#[trigger] r.node_voltages@[n])@ == staged_series(
                dag,
                runs@,
                NodeId(n as u32),
                grid@,
            ),
{
    let mut voltages: Vec<Vec<S>> = Vec::new();
    voltages.push(constant_train(S::zero(), grid.len()));
    let mut n: usize = 1;
    while n < nodes
        invariant
            1 <= n <= nodes <= u32::MAX,
            forall|g: int|
                0 <= g < runs@.len() ==> (#[trigger] runs@[g] matches Some(run) ==> run.wf()),
            voltages@.len() == n,
            voltages@[0]@ == Seq::new(grid@.len(), |k: int| S::spec_zero()),
            forall|k: int|
                1 <= k < n ==> (#[trigger] voltages@[k])@ == staged_series(
                    dag,
                    runs@,
                    NodeId(k as u32),
                    grid@,
                ),
        decreases nodes - n,
    {
        let id = NodeId(n as u32);
        let own: Option<usize> = dag.run_of_node(id);
        let series: Vec<S> = match own {
            Some(g) => if g < runs.len() {
                match &runs[g] {
                    Some(run) => {
                        assert(runs@[g as int] matches Some(x) ==> x.wf());
                        sample_node(run, id, grid)
                    },
                    None => constant_train(S::zero(), grid.len()),
                }
            } else {
                constant_train(S::zero(), grid.len())
            },
            None => constant_train(S::zero(), grid.len()),
        };
        voltages.push(series);
        n = n + 1;
    }
    Waveforms { time: copied_list(grid), node_voltages: voltages }
}

/// One group's operating-point health; a group over the size cap is listed and not
/// judged.
pub fn probe_group<S: Scalar>(
    g: usize,
    sub: &Circuit<S>,
    size_cap: usize,
    converges: bool,
) -> (r: GroupDcProbe)
    ensures
        r.group == g,
        r.devices == sub.devices@.len(),
        r.sample@.len() == sample_size(sub.devices@.len()),
        forall|i: int|
            0 <= i < r.sample@.len() ==> (#[trigger] r.sample@[i])@
                == sub.devices@[i].spec_name(),
        r.dc_ok == (if sub.devices@.len() > size_cap {
            None::<bool>
        } else {
            Some(converges)
        }),
{
    GroupDcProbe {
        group: g,
        devices: sub.devices.len(),
        sample: sample_names(sub),
        dc_ok: if sub.devices.len() > size_cap {
            None
        } else {
            Some(converges)
        },
    }
}

/// One boundary of a refused relaxation as a line.
pub open spec fn refusal_line(
    name: Seq<char>,
    sag: Seq<char>,
    tol: Seq<char>,
    note: Seq<char>,
) -> Seq<char> {
    name + " sag "@ + sag + " tol "@ + tol + (if note.len() == 0 {
        Seq::empty()
    } else {
        ": "@ + note
    })
}

/// Write one boundary of a refused relaxation: its name, its residual and its
/// tolerance as text, and its note.
pub fn describe_refusal(name: &str, sag: &str, tol: &str, note: &str) -> (r: String)
    ensures
        r@ == refusal_line(name@, sag@, tol@, note@),
{
    let mut m: String = String::from_str(name);
    m.append(" sag ");
    m.append(sag);
    m.append(" tol ");
    m.append(tol);
    if note.unicode_len() > 0 {
        m.append(": ");
        m.append(note);
    }
    proof {
        assert(m@ =~= refusal_line(name@, sag@, tol@, note@));
    }
    m
}

/// The first `count` lines, separated by semicolons.
pub open spec fn joined_lines(lines: Seq<String>, count: nat) -> Seq<char>
    decreases count,
{
    if count == 0 {
        Seq::empty()
    } else if count == 1 {
        lines[0]@
    } else {
        joined_lines(lines, (count - 1) as nat) + "; "@ + lines[count - 1]@
    }
}

/// Join the boundaries of a refused relaxation into one line.
pub fn summarize_stiff_refusal(lines: &Vec<String>) -> (r: String)
    ensures
        r@ == joined_lines(lines@, lines@.len()),
{
    let mut m: String = String::from_str("");
    proof {
        reveal_strlit("");
        assert(m@ =~= Seq::<char>::empty());
    }
    let mut i: usize = 0;
    while i < lines.len()
        invariant
            i <= lines@.len(),
            m@ == joined_lines(lines@, i as nat),
        decreases lines@.len() - i,
    {
        if i > 0 {
            m.append("; ");
        }
        m.append(lines[i].as_str());
        proof {
            if i == 0 {
                assert(m@ =~= lines@[0]@);
            }
        }
        i = i + 1;
    }
    m
}

} // verus!
