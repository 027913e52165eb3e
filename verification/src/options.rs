//! What the caller chooses about a run.
use vstd::prelude::*;

use crate::scalar::Scalar;

verus! {

/// The rule that integrates reactive devices.
#[derive(Clone, Copy, Debug, PartialEq, Eq, Structural)]
pub enum Integration {
    BackwardEuler,
    Trapezoidal,
    Gear2,
}

/// Which second-order device effects are modelled.
#[derive(Clone, Copy, Debug)]
pub struct DeviceEffects<S> {
    /// Model parameters follow the temperature.
    pub temperature: bool,
    /// Junctions and gates store charge.
    pub junction_caps: bool,
    /// Terminals have series resistance.
    pub series_resistance: bool,
    /// Base-width and channel-length modulation.
    pub early_effect: bool,
    /// Double-throw switches break before they make, with this sharpness.
    pub spdt_bbm: bool,
    pub spdt_bbm_k: S,
    /// Switches are linearized in their control voltage.
    pub switch_ctrl_gm: bool,
    /// Gain of the smooth comparator of the staged operating point.
    pub comparator_gain: S,
}

/// Tolerances and device options of a run.
#[derive(Clone, Copy, Debug)]
pub struct SolverOptions<S> {
    pub integration: Integration,
    pub gmin: S,
    pub reltol: S,
    pub vntol: S,
    pub abstol: S,
    pub chgtol: S,
    /// Temperature of the device models, in Celsius.
    pub model_temp: S,
    /// Thermal voltage at 27 degrees.
    pub vt_nominal: S,
    /// Thermal voltage at the model temperature.
    pub vt_model: S,
    pub effects: DeviceEffects<S>,
}

impl<S: Scalar> SolverOptions<S> {
    /// The thermal voltage in force.
    pub open spec fn spec_vt(&self) -> S {
        if self.effects.temperature {
            self.vt_model
        } else {
            self.vt_nominal
        }
    }

    pub fn vt(&self) -> (r: S)
        ensures
            r == self.spec_vt(),
    {
        if self.effects.temperature {
            self.vt_model
        } else {
            self.vt_nominal
        }
    }
}

/// How a run chooses its steps.
#[derive(Clone, Copy, Debug)]
pub enum StepControl<S> {
    Fixed { dt: S },
    Adaptive { dt_initial: S, dt_min: S, dt_max: S },
}

/// Where a transient run starts.
#[derive(Clone, Copy, Debug, PartialEq, Eq, Structural)]
pub enum DcInit {
    /// At the operating point.
    Solve,
    /// At zero.
    FromZero,
}

/// Whether a run may be split into islands.
#[derive(Clone, Copy, Debug, PartialEq, Eq, Structural)]
pub enum Partitioning {
    Off,
    Auto,
}

/// How many threads islands may be solved on.
#[derive(Clone, Copy, Debug, PartialEq, Eq, Structural)]
pub enum ParallelPolicy {
    Off,
    Threads(usize),
    Auto,
}

/// A rescue that a run may be granted.
#[derive(Clone, Copy, Debug, PartialEq, Eq, Structural)]
pub enum Strategy {
    DynamicPivot,
    DynamicPivotEveryStep,
    Ptc,
    ResidualAccept,
    EventFreeze,
    LineSearch,
    TransientDyn,
}

/// The rescues granted to a run.
#[derive(Clone, Copy, Debug, PartialEq, Eq, Structural)]
pub struct RobustnessLadder {
    pub dynamic_pivot: bool,
    pub dynamic_pivot_every_step: bool,
    pub ptc: bool,
    pub residual_accept: bool,
    pub event_freeze: bool,
    pub line_search: bool,
    pub transient_dyn: bool,
}

impl RobustnessLadder {
    pub open spec fn granted(&self, s: Strategy) -> bool {
        match s {
            Strategy::DynamicPivot => self.dynamic_pivot,
            Strategy::DynamicPivotEveryStep => self.dynamic_pivot_every_step,
            Strategy::Ptc => self.ptc,
            Strategy::ResidualAccept => self.residual_accept,
            Strategy::EventFreeze => self.event_freeze,
            Strategy::LineSearch => self.line_search,
            Strategy::TransientDyn => self.transient_dyn,
        }
    }

    /// Nothing granted.
    pub fn none() -> (r: Self)
        ensures
            forall|s: Strategy| !#[trigger] r.granted(s),
    {
        RobustnessLadder {
            dynamic_pivot: false,
            dynamic_pivot_every_step: false,
            ptc: false,
            residual_accept: false,
            event_freeze: false,
            line_search: false,
            transient_dyn: false,
        }
    }

    /// Everything granted.
    pub fn full() -> (r: Self)
        ensures
            forall|s: Strategy| #[trigger] r.granted(s),
    {
        RobustnessLadder {
            dynamic_pivot: true,
            dynamic_pivot_every_step: true,
            ptc: true,
            residual_accept: true,
            event_freeze: true,
            line_search: true,
            transient_dyn: true,
        }
    }

    pub fn has(&self, s: Strategy) -> (r: bool)
        ensures
            r == self.granted(s),
    {
        match s {
            Strategy::DynamicPivot => self.dynamic_pivot,
            Strategy::DynamicPivotEveryStep => self.dynamic_pivot_every_step,
            Strategy::Ptc => self.ptc,
            Strategy::ResidualAccept => self.residual_accept,
            Strategy::EventFreeze => self.event_freeze,
            Strategy::LineSearch => self.line_search,
            Strategy::TransientDyn => self.transient_dyn,
        }
    }

    /// The same grants but one.
    pub fn without(&self, s: Strategy) -> (r: Self)
        ensures
            forall|x: Strategy| #[trigger] r.granted(x) == (self.granted(x) && x != s),
    {
        let mut r = *self;
        match s {
            Strategy::DynamicPivot => {
                r.dynamic_pivot = false;
            },
            Strategy::DynamicPivotEveryStep => {
                r.dynamic_pivot_every_step = false;
            },
            Strategy::Ptc => {
                r.ptc = false;
            },
            Strategy::ResidualAccept => {
                r.residual_accept = false;
            },
            Strategy::EventFreeze => {
                r.event_freeze = false;
            },
            Strategy::LineSearch => {
                r.line_search = false;
            },
            Strategy::TransientDyn => {
                r.transient_dyn = false;
            },
        }
        r
    }
}

} // verus!
