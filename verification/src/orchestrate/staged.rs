//! The staged executor's decisions.
use vstd::prelude::*;

pub mod certificate;
pub mod dag;
pub mod group;
pub mod run;

use crate::orchestrate::capture::outcome::StiffOutcome;
use crate::orchestrate::grid::Waveforms;
use crate::orchestrate::staged::certificate::TearCertificate;

verus! {

/// What a staged run produced.
#[derive(Debug)]
pub struct StagedResult<S> {
    /// The node voltages on the uniform grid.
    pub waveforms: Waveforms<S>,
    /// The certificate, with no claim left pending.
    pub certificate: TearCertificate<S>,
    /// The groups in the order in which they were solved; absorbed groups were
    /// copied, not solved.
    pub executed_groups: Vec<usize>,
    /// The groups whose balance tears ran on the torn engine.
    pub torn_groups: Vec<usize>,
    /// The groups that had no reachable operating point and were ramped up from
    /// zero: their early samples are a power-on transient.
    pub ramped_groups: Vec<usize>,
    /// What happened at each stiff boundary, by group.
    pub stiff_outcomes: Vec<(usize, StiffOutcome<S>)>,
}

/// One group's operating-point health.
#[derive(Debug)]
pub struct GroupDcProbe {
    /// Group index.
    pub group: usize,
    /// Device count of the extracted sub-circuit, absorbed copies counted.
    pub devices: usize,
    /// A few device names, enough to recognize the group on a schematic.
    pub sample: Vec<String>,
    /// Whether the group's own operating point converges; `None` when the group
    /// was over the size cap and not solved.
    pub dc_ok: Option<bool>,
}

} // verus!
