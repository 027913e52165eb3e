//! Running a decomposed circuit: capture, composition and staging decisions.
pub mod balance;
pub mod capture;
pub mod grid;
pub mod ramp;
pub mod staged;
pub mod tear;

pub use balance::{settle_rails, BalancePolicy, BalanceReport, RailChannel, RailLoads};
pub use capture::outcome::StiffOutcome;
pub use capture::{BoundaryKind, CapturePolicy, ComposedPolicy, StiffExecution};
pub use staged::{GroupDcProbe, StagedResult};
