//! The stiff-tear executor's decisions: which blocks a capture solves, which
//! captures are merged, when the relaxation has converged and what each
//! boundary may claim.
use vstd::prelude::*;

pub mod assembly;
pub mod attempt;
pub mod blocks;
pub mod circuit;
pub mod cluster;
pub mod composed;
pub mod outcome;
pub mod plan;
pub mod relax;
pub mod rest;
pub mod verdict;

use crate::orchestrate::capture::outcome::StiffOutcome;
use crate::orchestrate::grid::Waveforms;

verus! {

/// What kind of boundary an outcome describes.
#[derive(Debug, Clone, Copy, PartialEq, Eq, Structural)]
pub enum BoundaryKind {
    /// An ordinary signal cut: relaxed, with a measured sag.
    Signal,
    /// A rail closed by the exact per-step scalar balance.
    BalancedRail,
    /// A rail pinned at its feed voltage: nothing ran and nothing was measured.
    HeldRail,
}

/// A group run with stiff tears: its waveforms, and what happened at each boundary.
#[derive(Debug)]
pub struct StiffExecution<S> {
    pub waveforms: Waveforms<S>,
    pub outcomes: Vec<StiffOutcome<S>>,
}

/// Bounds on the generator-inclusive capture walk.
#[derive(Debug, Clone, Copy, PartialEq, Eq)]
pub struct CapturePolicy {
    /// Largest number of blocks the walk may pull beyond plain adjacency, per
    /// candidate. Zero is adjacency only.
    pub max_growth_blocks: usize,
    /// Largest block, in devices, that the walk may pull.
    pub max_block_devices: usize,
}

impl Default for CapturePolicy {
    fn default() -> (r: Self)
        ensures
            r.max_growth_blocks == 64,
            r.max_block_devices == 300,
    {
        CapturePolicy { max_growth_blocks: 64, max_block_devices: 300 }
    }
}

/// Bounds on the composed executor.
#[derive(Debug, Clone, Copy, PartialEq, Eq)]
pub struct ComposedPolicy {
    /// Largest nonlinear island, in devices, that the whole-group balance is
    /// asked to march; above it the rails are held at their feed.
    pub max_balance_block: usize,
}

impl Default for ComposedPolicy {
    fn default() -> (r: Self)
        ensures
            r.max_balance_block == 600,
    {
        ComposedPolicy { max_balance_block: 600 }
    }
}

} // verus!
