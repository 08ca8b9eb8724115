//! The structure of a neuron: which of its segments are coupled to which.
//!
//! A neuron keeps its segments in one list and names them by their position
//! in it. A junction couples two of them. What is checked here is checked
//! once, when the neuron is put together, so that stepping it never meets a
//! coupling without its segments.

pub mod synapse;

use vstd::prelude::*;

verus! {

/// A resistive coupling between two segments of one neuron, each named by its
/// position in the neuron's list of segments.
#[derive(Clone, Copy, Debug, PartialEq, Eq, Structural)]
pub struct Junction {
    pub first_segment: usize,
    pub second_segment: usize,
}

/// Why a description cannot be made into a neuron or a network.
#[derive(Clone, Copy, Debug, PartialEq, Eq, Structural)]
pub enum ConstructionError {
    /// The junction at this position names a segment that the neuron does not have.
    DanglingJunction { junction: usize },
    /// The junction at this position couples a segment to itself.
    SelfJunction { junction: usize },
    /// The segment at this position names a parent that no segment carries.
    DanglingParent { segment: usize },
    /// The segment at this position is its own parent.
    SelfParent { segment: usize },
    /// The segment at this position has a type for which there is no membrane.
    MissingMembrane { segment: usize },
    /// A synapse names a neuron or a segment that the network does not have.
    DanglingSynapse,
    /// A synapse leads from a segment back to the same segment.
    SelfSynapse,
}

impl Junction {
    /// What is wrong with this junction, standing at position `at`, in a
    /// neuron of `segment_count` segments; `None` if nothing is. A missing
    /// segment is reported before a coupling of a segment to itself.
    pub open spec fn fault(self, segment_count: nat, at: usize) -> Option<ConstructionError> {
        if self.first_segment >= segment_count || self.second_segment >= segment_count {
            Some(ConstructionError::DanglingJunction { junction: at })
        } else if self.first_segment == self.second_segment {
            Some(ConstructionError::SelfJunction { junction: at })
        } else {
            None
        }
    }

    /// Whether the junction couples two different segments of a neuron of
    /// `segment_count` segments.
    pub open spec fn is_sound(self, segment_count: nat) -> bool {
        &&& self.first_segment < segment_count
        &&& self.second_segment < segment_count
        &&& self.first_segment != self.second_segment
    }
}

/// Checks the junctions of a neuron of `segment_count` segments. They pass
/// exactly when each couples two different segments that the neuron has.
/// Otherwise the first junction that does not is reported, with what is
/// wrong with it.
pub fn check_junctions(segment_count: usize, junctions: &Vec<Junction>) -> (checked: Result<
    (),
    ConstructionError,
>)
    ensures
        match checked {
            Ok(()) => forall|k: int|
                0 <= k < junctions@.len() ==> (#[trigger] junctions@[k]).is_sound(
                    segment_count as nat,
                ),
            Err(error) => exists|k: int|
                {
                    &&& 0 <= k < junctions@.len()
                    &&& (#[trigger] junctions@[k]).fault(segment_count as nat, k as usize) == Some(
                        error,
                    )
                    &&& forall|j: int|
                        0 <= j < k ==> (#[trigger] junctions@[j]).is_sound(segment_count as nat)
                },
        },
{
    let mut k: usize = 0;
    while k < junctions.len()
        invariant
            k <= junctions@.len(),
            forall|j: int|
                0 <= j < k ==> (#[trigger] junctions@[j]).is_sound(segment_count as nat),
        decreases junctions@.len() - k,
    {
        let junction = &junctions[k];
        if junction.first_segment >= segment_count || junction.second_segment >= segment_count {
            return Err(ConstructionError::DanglingJunction { junction: k });
        }
        if junction.first_segment == junction.second_segment {
            return Err(ConstructionError::SelfJunction { junction: k });
        }
        k += 1;
    }
    Ok(())
}

} // verus!
