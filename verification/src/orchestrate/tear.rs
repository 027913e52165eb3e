//! Rails torn out of a group.
use vstd::prelude::*;

use crate::circuit::{DeviceId, NodeId};

verus! {

/// A rail fed through a shunt.
#[derive(Debug, Clone, Copy)]
pub struct RailTear<S> {
    pub rail: NodeId,
    /// The node on the other side of the shunt.
    pub feed: NodeId,
    pub shunt: DeviceId,
    pub r_shunt: S,
}

} // verus!
