//! The partitioned transient engine: islands advanced one by one, exchanging the
//! voltages of the nodes they share.
pub mod ownership;
pub mod sources;
pub mod sweep;
pub mod reactive;
pub mod lower;
pub mod island;
pub mod decide;
pub mod engine;
