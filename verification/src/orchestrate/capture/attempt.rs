//! The attempts at one capture, in order.
//!
//! A capture that pulled a generator marches adaptively first: a fixed grid can
//! succeed on a self-resetting loop while making spikes up. Every other capture is
//! marched on the fixed grid, and only a death at the operating point earns it the
//! power-on ramps.
use vstd::prelude::*;

use crate::orchestrate::ramp::{next_rung, ramp_window, rung, window_of};
use crate::scalar::Scalar;

verus! {

/// One way to march a capture.
#[derive(Clone, Copy, Debug)]
pub enum Attempt<S> {
    /// Adaptive steps no longer than the grid, under a ramp of this window.
    Adaptive { window: S },
    /// The fixed grid, from the operating point.
    Fixed,
    /// The fixed grid from zero, under the ramp of a rung.
    Ramp { rung: usize, window: S },
}

/// Where an attempt died.
#[derive(Clone, Copy, Debug, PartialEq, Eq, Structural)]
pub enum Death {
    AtOperatingPoint,
    Later,
}

/// The first attempt at a capture.
pub open spec fn opening<S: Scalar>(dt: S, tstop: S, grown: bool) -> Attempt<S> {
    if grown {
        Attempt::Adaptive { window: ramp_window(dt, tstop, 20) }
    } else {
        Attempt::Fixed
    }
}

/// The attempt that follows a death, if any does.
pub open spec fn following<S: Scalar>(
    dt: S,
    tstop: S,
    last: Attempt<S>,
    death: Death,
) -> Option<Attempt<S>> {
    let ladder = |from: int|
        match rung(dt, tstop, from) {
            Some((i, window)) => Some(Attempt::Ramp { rung: i as usize, window }),
            None => None,
        };
    match last {
        Attempt::Adaptive { .. } => Some(Attempt::Fixed),
        Attempt::Fixed => if death == Death::AtOperatingPoint {
            ladder(0)
        } else {
            None
        },
        Attempt::Ramp { rung, .. } => ladder(rung + 1),
    }
}

pub fn first_attempt<S: Scalar>(dt: S, tstop: S, grown: bool) -> (r: Attempt<S>)
    ensures
        r == opening(dt, tstop, grown),
{
    if grown {
        Attempt::Adaptive { window: window_of(dt, tstop, 20) }
    } else {
        Attempt::Fixed
    }
}

pub fn next_attempt<S: Scalar>(dt: S, tstop: S, last: Attempt<S>, death: Death) -> (r: Option<
    Attempt<S>,
>)
    requires
        last matches Attempt::Ramp { rung, .. } ==> rung < 3,
    ensures
        r == following(dt, tstop, last, death),
{
    let from: usize = match last {
        Attempt::Adaptive { .. } => {
            return Some(Attempt::Fixed);
        },
        Attempt::Fixed => {
            if death != Death::AtOperatingPoint {
                return None;
            }
            0
        },
        Attempt::Ramp { rung, .. } => rung + 1,
    };
    match next_rung(dt, tstop, from) {
        Some(x) => Some(Attempt::Ramp { rung: x.0, window: x.1 }),
        None => None,
    }
}

/// How many attempts may still come after one.
pub open spec fn attempts_left<S>(a: Attempt<S>) -> int {
    match a {
        Attempt::Adaptive { .. } => 4,
        Attempt::Fixed => 3,
        Attempt::Ramp { rung, .. } => 2 - rung,
    }
}

proof fn lemma_rung<S: Scalar>(dt: S, tstop: S, from: int)
    ensures
        rung(dt, tstop, from) matches Some(x) ==> from <= x.0 < 3,
    decreases 3 - from,
{
    if from < 3 {
        lemma_rung(dt, tstop, from + 1);
    }
}

/// The ladder ends, and no attempt at a plain capture is adaptive: only the first
/// attempt at a grown one is. A capture that dies after its operating point is not
/// retried.
pub proof fn law_attempts_end<S: Scalar>(dt: S, tstop: S, last: Attempt<S>, death: Death)
    requires
        last matches Attempt::Ramp { rung, .. } ==> rung < 3,
    ensures
        following(dt, tstop, last, death) matches Some(a) ==> a !is Adaptive && 0 <= attempts_left(
            a,
        ) < attempts_left(last),
        last is Fixed && death == Death::Later ==> following(dt, tstop, last, death) is None,
        opening(dt, tstop, false) is Fixed,
{
    lemma_rung(dt, tstop, 0);
    match last {
        Attempt::Ramp { rung: i, .. } => {
            lemma_rung(dt, tstop, i + 1);
        },
        _ => {},
    }
}

} // verus!
