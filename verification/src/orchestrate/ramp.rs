//! Power-on: a solve without an operating point starts from zero with its sources
//! ramped.
use vstd::prelude::*;

use crate::circuit::{Circuit, Device, SourceKind};
use crate::duplicate::{same_device, same_source};
use crate::scalar::{ordered, Scalar};
use crate::stamp::context::{lower_to, no_more};
use crate::text::{begins_with, has_prefix};

verus! {

/// Whether `copy` is the source `kind` under a ramp.
pub open spec fn is_ramped<S>(kind: SourceKind<S>, window: S, copy: SourceKind<S>) -> bool {
    copy matches SourceKind::Ramped(inner, w) && same_source(kind, *inner) && w == window
}

/// Whether `copy` is `dev` with its source under a ramp. A replay pin is not
/// ramped: it carries an upstream waveform that is already solved.
pub open spec fn powered_on<S>(dev: Device<S>, window: S, copy: Device<S>) -> bool {
    match dev {
        Device::Vsource { name, p, n, kind } => if begins_with(name@, "VREPLAY_"@) {
            same_device(dev, copy)
        } else {
            match copy {
                Device::Vsource { name: name2, p: p2, n: n2, kind: kind2 } => name2 == name && p2
                    == p && n2 == n && is_ramped(kind, window, kind2),
                _ => false,
            }
        },
        Device::Isource { name, p, n, kind } => match copy {
            Device::Isource { name: name2, p: p2, n: n2, kind: kind2 } => name2 == name && p2 == p
                && n2 == n && is_ramped(kind, window, kind2),
            _ => false,
        },
        _ => same_device(dev, copy),
    }
}

fn power_on<S: Scalar>(dev: &Device<S>, window: S) -> (r: Device<S>)
    ensures
        powered_on(*dev, window, r),
{
    match dev {
        Device::Vsource { name, p, n, kind } => {
            if has_prefix(name.as_str(), "VREPLAY_") {
                return dev.duplicate();
            }
            Device::Vsource {
                name: name.clone(),
                p: *p,
                n: *n,
                kind: SourceKind::Ramped(Box::new(kind.duplicate()), window),
            }
        },
        Device::Isource { name, p, n, kind } => Device::Isource {
            name: name.clone(),
            p: *p,
            n: *n,
            kind: SourceKind::Ramped(Box::new(kind.duplicate()), window),
        },
        _ => dev.duplicate(),
    }
}

/// The circuit with every independent source under a ramp that reaches full
/// amplitude at `ramp_window`.
pub fn ramp_all_sources<S: Scalar>(sub: &Circuit<S>, ramp_window: S) -> (r: Circuit<S>)
    requires
        sub.wf(),
    ensures
        r.wf(),
        r.node_names() == sub.node_names(),
        r.temp_c == sub.temp_c,
        r.devices@.len() == sub.devices@.len(),
        forall|d: int|
            0 <= d < r.devices@.len() ==> powered_on(
                sub.devices@[d],
                ramp_window,
                #[trigger] r.devices@[d],
            ),
{
    let mut c = sub.duplicate();
    let mut devices: Vec<Device<S>> = Vec::new();
    let mut d: usize = 0;
    while d < sub.devices.len()
        invariant
            d <= sub.devices@.len(),
            devices@.len() == d,
            forall|k: int|
                0 <= k < d ==> powered_on(sub.devices@[k], ramp_window, #[trigger] devices@[k]),
        decreases sub.devices@.len() - d,
    {
        devices.push(power_on(&sub.devices[d], ramp_window));
        d = d + 1;
    }
    c.devices = devices;
    c
}

/// Ramp windows in steps, the slowest first: when a slow ramp stalls, a bolder one
/// may snap through.
pub open spec fn ramp_scale(i: int) -> i64 {
    if i == 0 {
        200
    } else if i == 1 {
        20
    } else {
        2
    }
}

/// A window of that many steps, a tenth of the record at most.
pub open spec fn ramp_window<S: Scalar>(dt: S, tstop: S, steps: i64) -> S {
    no_more(S::spec_int(steps).spec_times(dt), tstop.spec_over(S::spec_int(10)))
}

/// Whether a window spans two steps at least.
pub open spec fn wide_enough<S: Scalar>(dt: S, window: S) -> bool {
    !window.spec_less(S::spec_int(2).spec_times(dt))
}

/// The first rung from `from` on whose window is wide enough.
pub open spec fn rung<S: Scalar>(dt: S, tstop: S, from: int) -> Option<(int, S)>
    decreases 3 - from,
{
    if from >= 3 {
        None
    } else {
        let window = ramp_window(dt, tstop, ramp_scale(from));
        if wide_enough(dt, window) {
            Some((from, window))
        } else {
            rung(dt, tstop, from + 1)
        }
    }
}

pub fn window_of<S: Scalar>(dt: S, tstop: S, steps: i64) -> (r: S)
    ensures
        r == ramp_window(dt, tstop, steps),
{
    lower_to(S::from_int(steps).times(dt), tstop.over(S::from_int(10)))
}

/// The next rung of the ramp ladder.
pub fn next_rung<S: Scalar>(dt: S, tstop: S, from: usize) -> (r: Option<(usize, S)>)
    ensures
        match rung(dt, tstop, from as int) {
            Some((i, w)) => r matches Some(x) && x.0 == i && x.1 == w && from <= i < 3,
            None => r is None,
        },
{
    let mut i: usize = from;
    while i < 3
        invariant
            from <= i,
            rung(dt, tstop, from as int) == rung(dt, tstop, i as int),
        decreases 3 - i,
    {
        let steps: i64 = if i == 0 {
            200
        } else if i == 1 {
            20
        } else {
            2
        };
        let window: S = window_of(dt, tstop, steps);
        if !window.less(S::from_int(2).times(dt)) {
            return Some((i, window));
        }
        i = i + 1;
    }
    None
}

/// A ramp window never spans more than its steps nor more than a tenth of the record,
/// and is one of the two.
pub proof fn law_ramp_windows_are_bounded<S: Scalar>(dt: S, tstop: S, steps: i64)
    requires
        S::exact(),
        ordered::<S>(),
        S::spec_int(10) != S::spec_zero(),
    ensures
        exists|part: S|
            {
                &&& #[trigger] part.spec_times(S::spec_int(10)) == tstop
                &&& !part.spec_less(ramp_window(dt, tstop, steps))
                &&& !S::spec_int(steps).spec_times(dt).spec_less(ramp_window(dt, tstop, steps))
                &&& ramp_window(dt, tstop, steps) == part || ramp_window(dt, tstop, steps)
                    == S::spec_int(steps).spec_times(dt)
            },
{
    let part = tstop.spec_over(S::spec_int(10));
    S::laws(tstop, S::spec_int(10), tstop);
    assert(part.spec_times(S::spec_int(10)) == tstop);
}

/// The ladder is climbed from the slowest ramp to the boldest: two hundred, twenty and
/// two steps. The rung taken spans two steps at least, and every rung passed over does
/// not.
pub proof fn law_the_slowest_ramp_comes_first<S: Scalar>(dt: S, tstop: S, from: int)
    requires
        0 <= from,
    ensures
        ({
            let slow = ramp_window(dt, tstop, 200);
            let middle = ramp_window(dt, tstop, 20);
            let bold = ramp_window(dt, tstop, 2);
            let least = S::spec_int(2).spec_times(dt);
            match rung(dt, tstop, from) {
                Some((i, w)) => {
                    &&& from <= i < 3
                    &&& !w.spec_less(least)
                    &&& i == 0 ==> w == slow
                    &&& i == 1 ==> w == middle
                    &&& i == 2 ==> w == bold
                    &&& from == 0 && i > 0 ==> slow.spec_less(least)
                    &&& from <= 1 && i > 1 ==> middle.spec_less(least)
                },
                None => {
                    &&& from == 0 ==> slow.spec_less(least)
                    &&& from <= 1 ==> middle.spec_less(least)
                    &&& from <= 2 ==> bold.spec_less(least)
                },
            }
        }),
    decreases 3 - from,
{
    if from < 3 {
        law_the_slowest_ramp_comes_first(dt, tstop, from + 1);
    }
}

} // verus!
