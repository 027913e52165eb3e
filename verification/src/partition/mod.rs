//! Splitting a circuit into islands that can be advanced independently.
pub mod analyze;
pub mod components;
pub mod union_find;

pub use analyze::{Island, Partition};
