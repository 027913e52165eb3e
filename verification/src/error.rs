//! What a solve can fail with.
use vstd::prelude::*;

verus! {

/// The analysis that was under way.
#[derive(Debug, Clone, Copy, PartialEq, Eq)]
pub enum SolvePhase {
    /// The operating point.
    Dc,
    /// The steps of a transient.
    Transient,
}

/// A failed request, with its message.
#[derive(Debug, Clone, PartialEq, Eq)]
pub enum SolveError {
    /// The request itself is malformed.
    Invalid(String),
    /// The request is well formed and deliberately not carried out.
    Refused(String),
    /// The solver's own bookkeeping broke.
    Internal(String),
    /// The iteration did not reach a solution.
    NonConvergence {
        message: String,
        phase: SolvePhase,
        /// The time it died at and the step it took, printed, where there are any.
        time: Option<String>,
        dt: Option<String>,
        /// How many iterations it took, where they were counted.
        iterations: Option<usize>,
        /// What it got stuck on, where that is known.
        blame: Option<String>,
    },
}

/// The message of an error as a sequence of characters, by kind.
pub enum ErrorView {
    Invalid(Seq<char>),
    Refused(Seq<char>),
    Internal(Seq<char>),
    NonConvergence {
        message: Seq<char>,
        phase: SolvePhase,
        time: Option<Seq<char>>,
        dt: Option<Seq<char>>,
        iterations: Option<usize>,
        blame: Option<Seq<char>>,
    },
}

/// A text, if there is one, as a sequence of characters.
pub open spec fn shown(text: Option<String>) -> Option<Seq<char>> {
    match text {
        Some(t) => Some(t@),
        None => None,
    }
}

impl View for SolveError {
    type V = ErrorView;

    open spec fn view(&self) -> ErrorView {
        match self {
            SolveError::Invalid(m) => ErrorView::Invalid(m@),
            SolveError::Refused(m) => ErrorView::Refused(m@),
            SolveError::Internal(m) => ErrorView::Internal(m@),
            SolveError::NonConvergence { message, phase, time, dt, iterations, blame } => {
                ErrorView::NonConvergence {
                    message: message@,
                    phase: *phase,
                    time: shown(*time),
                    dt: shown(*dt),
                    iterations: *iterations,
                    blame: shown(*blame),
                }
            },
        }
    }
}

} // verus!
