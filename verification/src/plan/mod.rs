//! A compiled assembly: constant contributions resolved to matrix slots once,
//! and the rest stamped again each time.
pub mod backbone;
pub mod compile;
pub mod equal;
pub mod planned;
pub mod slots;

pub use compile::StampPlan;
pub use planned::stamp_all_planned;
