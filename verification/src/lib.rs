//! A circuit solver: sparse elimination, partitioned transient analysis and the
//! orchestration around them.
pub mod circuit;
pub mod duplicate;
pub mod error;
pub mod field;
pub mod ids;
pub mod options;
pub mod orchestrate;
pub mod partition;
pub mod partitioned;
pub mod plan;
pub mod rawfile;
pub mod scalar;
pub mod sim;
pub mod sparse;
pub mod stamp;
pub mod subcircuit;
pub mod system;
pub mod terms;
pub mod text;
