//! Device contributions to the nodal system.
pub mod append;
pub mod behavioral;
pub mod bjt;
pub mod confine;
pub mod constitutive;
pub mod context;
pub mod device;
pub mod drive;
pub mod junction;
pub mod kirchhoff;
pub mod linear;
pub mod models;
pub mod mosfet;
pub mod pattern;
pub mod residual;
pub mod rules;
pub mod switch;
pub mod tangent;
pub mod tape;

pub use context::{IntegCoeffs, StampCtx};
pub use device::{stamp_all, stamp_residual};
pub use junction::log_once;
pub use pattern::reserve_pattern;
