//! The integer skeleton of the interchange schema: what of a described neuron
//! decides its structure. Coordinates, radii and membrane parameters travel
//! beside it and never change which segment is wired to which.

use vstd::prelude::*;

verus! {

/// One compartment of a described neuron: its identifier, its type code and
/// the identifier of its parent segment. A parent of -1 marks a root.
#[derive(Clone, Copy, Debug, PartialEq, Eq, Structural)]
pub struct Segment {
    pub id: i32,
    pub type_: usize,
    pub parent: i32,
}

/// A described neuron: its segments, in the order in which they were listed.
#[derive(Debug)]
pub struct Neuron {
    pub segments: Vec<Segment>,
}

/// Where a described synapse begins and ends: each end names a neuron by its
/// position in the scene and a segment by its position in that neuron.
#[derive(Clone, Copy, Debug, PartialEq, Eq, Structural)]
pub struct Synapse {
    pub pre_neuron: usize,
    pub pre_segment: usize,
    pub post_neuron: usize,
    pub post_segment: usize,
}

} // verus!
