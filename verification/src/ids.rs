//! Identifiers of the nodes of the clock and wiggle networks.
//! Each network has an identifier type of its own, so that identifiers cannot cross networks.
use vstd::prelude::*;
use crate::network::{GenerationId, NodeId, NodeIndex};

verus! {

/// Identifier of a clock: its slot index and generation in the clock network.
#[derive(Debug, Clone, Copy, PartialEq, Eq, Structural, Hash)]
pub struct ClockId(NodeIndex, GenerationId);

impl NodeId for ClockId {
    closed spec fn spec_index(&self) -> NodeIndex {
        self.0
    }

    closed spec fn spec_gen_id(&self) -> GenerationId {
        self.1
    }

    fn index(&self) -> (r: NodeIndex) {
        self.0
    }

    fn gen_id(&self) -> (r: GenerationId) {
        self.1
    }

    fn new(index: NodeIndex, gen_id: GenerationId) -> (r: Self) {
        ClockId(index, gen_id)
    }
}

/// Identifier of a wiggle: its slot index and generation in the wiggle network.
#[derive(Debug, Clone, Copy, PartialEq, Eq, Structural, Hash)]
pub struct WiggleId(NodeIndex, GenerationId);

impl NodeId for WiggleId {
    closed spec fn spec_index(&self) -> NodeIndex {
        self.0
    }

    closed spec fn spec_gen_id(&self) -> GenerationId {
        self.1
    }

    fn index(&self) -> (r: NodeIndex) {
        self.0
    }

    fn gen_id(&self) -> (r: GenerationId) {
        self.1
    }

    fn new(index: NodeIndex, gen_id: GenerationId) -> (r: Self) {
        WiggleId(index, gen_id)
    }
}

} // verus!
