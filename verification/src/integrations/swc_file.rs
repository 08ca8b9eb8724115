//! Morphologies in the SWC format: one segment to a line, each naming its parent.

use crate::integrations::grace::{get_children, is_children_map, try_simplify};
use crate::morphology::{index_of_id, lemma_simplified_from, resolvable, simplified};
use crate::serialize::{Neuron, Segment};
use std::collections::HashMap;
use vstd::prelude::*;

verus! {

broadcast use vstd::std_specs::hash::group_hash_axioms;

/// The structure a segment belongs to, as the second column of an SWC line encodes it.
#[derive(Clone, Copy, Debug, PartialEq, Eq, Structural)]
pub enum SegmentType {
    Soma,
    Axon,
    Dendrite,
    ApicalDendrite,
    Custom,
}

impl SegmentType {
    /// The segment type that an SWC type code stands for, if it stands for one.
    pub open spec fn of_code(code: u8) -> Option<SegmentType> {
        if code == 1 {
            Some(SegmentType::Soma)
        } else if code == 2 {
            Some(SegmentType::Axon)
        } else if code == 3 {
            Some(SegmentType::Dendrite)
        } else if code == 4 {
            Some(SegmentType::ApicalDendrite)
        } else if code == 5 {
            Some(SegmentType::Custom)
        } else {
            None
        }
    }

    /// The SWC type code of a segment type.
    pub open spec fn code(self) -> u8 {
        match self {
            SegmentType::Soma => 1,
            SegmentType::Axon => 2,
            SegmentType::Dendrite => 3,
            SegmentType::ApicalDendrite => 4,
            SegmentType::Custom => 5,
        }
    }

    /// Decodes an SWC type code. Codes 1 to 5 are known; every other code gives `None`.
    pub fn from_code(code: u8) -> (result: Option<SegmentType>)
        ensures
            result == Self::of_code(code),
    {
        match code {
            1 => Some(SegmentType::Soma),
            2 => Some(SegmentType::Axon),
            3 => Some(SegmentType::Dendrite),
            4 => Some(SegmentType::ApicalDendrite),
            5 => Some(SegmentType::Custom),
            _ => None,
        }
    }
}

/// Every segment type is decoded from its own code.
pub proof fn lemma_code_round_trip(segment_type: SegmentType)
    ensures
        SegmentType::of_code(segment_type.code()) == Some(segment_type),
{
}

/// The type code under which an entry's type travels through the schema: the
/// SWC code of a known type, 0 for an unknown one.
pub open spec fn schema_type(segment_type: Option<SegmentType>) -> usize {
    match segment_type {
        Some(known) => known.code() as usize,
        None => 0,
    }
}

/// What of one SWC line decides the structure: the segment's identifier, its
/// type if the code is a known one, and the identifier of its parent, -1 for
/// a root.
#[derive(Clone, Copy, Debug, PartialEq, Eq, Structural)]
pub struct SwcEntry {
    pub id: i32,
    pub segment_type: Option<SegmentType>,
    pub parent: i32,
}

impl SwcEntry {
    /// The entry as a segment of the interchange schema.
    pub open spec fn link(self) -> Segment {
        Segment { id: self.id, type_: schema_type(self.segment_type), parent: self.parent }
    }

    /// The entry as a segment of the interchange schema.
    pub fn as_segment(&self) -> (segment: Segment)
        ensures
            segment == self.link(),
    {
        let type_: usize = match self.segment_type {
            Some(SegmentType::Soma) => 1,
            Some(SegmentType::Axon) => 2,
            Some(SegmentType::Dendrite) => 3,
            Some(SegmentType::ApicalDendrite) => 4,
            Some(SegmentType::Custom) => 5,
            None => 0,
        };
        Segment { id: self.id, type_, parent: self.parent }
    }

    /// The entry that a segment of the interchange schema stands for, where
    /// its type is one that an entry can have.
    pub fn from_segment(segment: &Segment) -> (entry: SwcEntry)
        requires
            segment.type_ <= 5,
        ensures
            entry.link() == *segment,
    {
        let segment_type = if segment.type_ == 1 {
            Some(SegmentType::Soma)
        } else if segment.type_ == 2 {
            Some(SegmentType::Axon)
        } else if segment.type_ == 3 {
            Some(SegmentType::Dendrite)
        } else if segment.type_ == 4 {
            Some(SegmentType::ApicalDendrite)
        } else if segment.type_ == 5 {
            Some(SegmentType::Custom)
        } else {
            None
        };
        SwcEntry { id: segment.id, segment_type, parent: segment.parent }
    }
}

/// The membrane that a segment of an SWC morphology is given.
#[derive(Clone, Copy, Debug, PartialEq, Eq, Structural)]
pub enum MembraneKind {
    Soma,
    AxonInitialSegment,
    Axon,
    BasalDendrite,
    ApicalDendrite,
}

impl MembraneKind {
    /// The rule: a soma gets the soma's membrane; an axon segment the axon's,
    /// or that of the initial segment where it is a root; an apical dendrite
    /// its own; a dendrite, a custom segment and a segment of unknown type
    /// that of a basal dendrite.
    pub open spec fn of_entry(entry: SwcEntry) -> MembraneKind {
        match entry.segment_type {
            Some(SegmentType::Soma) => MembraneKind::Soma,
            Some(SegmentType::Axon) => if entry.parent == -1 {
                MembraneKind::AxonInitialSegment
            } else {
                MembraneKind::Axon
            },
            Some(SegmentType::Dendrite) => MembraneKind::BasalDendrite,
            Some(SegmentType::ApicalDendrite) => MembraneKind::ApicalDendrite,
            Some(SegmentType::Custom) => MembraneKind::BasalDendrite,
            None => MembraneKind::BasalDendrite,
        }
    }

    /// Picks the membrane for a segment by its type and by whether it is a root.
    pub fn for_entry(entry: &SwcEntry) -> (kind: MembraneKind)
        ensures
            kind == Self::of_entry(*entry),
    {
        match entry.segment_type {
            Some(SegmentType::Soma) => MembraneKind::Soma,
            Some(SegmentType::Axon) => if entry.parent == -1 {
                MembraneKind::AxonInitialSegment
            } else {
                MembraneKind::Axon
            },
            Some(SegmentType::Dendrite) => MembraneKind::BasalDendrite,
            Some(SegmentType::ApicalDendrite) => MembraneKind::ApicalDendrite,
            Some(SegmentType::Custom) => MembraneKind::BasalDendrite,
            None => MembraneKind::BasalDendrite,
        }
    }
}

/// An SWC morphology: its entries in file order.
#[derive(Debug)]
pub struct SwcFile {
    pub entries: Vec<SwcEntry>,
}

/// The entry that the sample morphology holds at position `at`: a soma first,
/// then axon segments one behind the other.
pub open spec fn sample_entry(at: int) -> SwcEntry {
    if at == 0 {
        SwcEntry { id: 1i32, segment_type: Some(SegmentType::Soma), parent: -1i32 }
    } else {
        SwcEntry { id: (at + 1) as i32, segment_type: Some(SegmentType::Axon), parent: at as i32 }
    }
}

impl SwcFile {
    /// The entries as segments of the interchange schema.
    pub open spec fn links(&self) -> Seq<Segment> {
        self.entries@.map_values(|entry: SwcEntry| entry.link())
    }

    /// The morphology as a neuron of the interchange schema.
    pub fn as_neuron(&self) -> (neuron: Neuron)
        ensures
            neuron.segments@ == self.links(),
    {
        let mut segments: Vec<Segment> = Vec::new();
        let mut i: usize = 0;
        while i < self.entries.len()
            invariant
                i <= self.entries@.len(),
                segments@ == self.links().take(i as int),
            decreases self.entries@.len() - i,
        {
            segments.push(self.entries[i].as_segment());
            i += 1;
            assert(segments@ == self.links().take(i as int));
        }
        assert(self.links().take(i as int) == self.links());
        Neuron { segments }
    }

    /// Each entry's children: the map takes every identifier that some entry
    /// names as its parent to the identifiers of those entries, in file order.
    pub fn get_children(&self) -> (children: HashMap<i32, Vec<i32>>)
        ensures
            is_children_map(children@, self.links()),
    {
        let neuron = self.as_neuron();
        get_children(&neuron)
    }

    /// The entries by identifier. Where several entries share an identifier,
    /// the map holds the last of them.
    pub fn as_map(&self) -> (by_id: HashMap<i32, &SwcEntry>)
        ensures
            forall|id: i32|
                match #[trigger] index_of_id(self.links(), id) {
                    Some(i) => by_id@.contains_key(id) && *by_id@[id] == self.entries@[i],
                    None => !by_id@.contains_key(id),
                },
    {
        let mut by_id: HashMap<i32, &SwcEntry> = HashMap::new();
        let mut i: usize = 0;
        while i < self.entries.len()
            invariant
                i <= self.entries@.len(),
                forall|id: i32|
                    match #[trigger] index_of_id(self.links().take(i as int), id) {
                        Some(k) => by_id@.contains_key(id) && *by_id@[id] == self.entries@[k],
                        None => !by_id@.contains_key(id),
                    },
            decreases self.entries@.len() - i,
        {
            let entry = &self.entries[i];
            proof {
                let longer = self.links().take(i + 1);
                assert(longer.drop_last() == self.links().take(i as int));
                assert(longer.last() == entry.link());
            }
            let ghost before = by_id@;
            by_id.insert(entry.id, entry);
            i += 1;
            assert forall|id: i32|
                match #[trigger] index_of_id(self.links().take(i as int), id) {
                    Some(k) => by_id@.contains_key(id) && *by_id@[id] == self.entries@[k],
                    None => !by_id@.contains_key(id),
                } by {
                if id != entry.id {
                    assert(index_of_id(self.links().take(i as int), id) == index_of_id(
                        self.links().take(i - 1),
                        id,
                    ));
                    assert(by_id@.contains_key(id) == before.contains_key(id));
                }
            }
        }
        assert(self.links().take(i as int) == self.links());
        by_id
    }

    /// The soma: the first entry whose type is the soma's.
    pub fn soma(&self) -> (found: Option<&SwcEntry>)
        ensures
            match found {
                Some(entry) => exists|i: int|
                    {
                        &&& 0 <= i < self.entries@.len()
                        &&& #[trigger] self.entries@[i] == *entry
                        &&& entry.segment_type == Some(SegmentType::Soma)
                        &&& forall|j: int|
                            0 <= j < i ==> self.entries@[j].segment_type != Some(
                                SegmentType::Soma,
                            )
                    },
                None => forall|j: int|
                    0 <= j < self.entries@.len() ==> self.entries@[j].segment_type != Some(
                        SegmentType::Soma,
                    ),
            },
    {
        let mut i: usize = 0;
        while i < self.entries.len()
            invariant
                i <= self.entries@.len(),
                forall|j: int|
                    0 <= j < i ==> self.entries@[j].segment_type != Some(SegmentType::Soma),
            decreases self.entries@.len() - i,
        {
            let entry = &self.entries[i];
            match entry.segment_type {
                Some(SegmentType::Soma) => {
                    return Some(entry);
                },
                _ => {},
            }
            i += 1;
        }
        None
    }

    /// Prunes the morphology: keeps the first entry, every branch, every leaf
    /// and every tenth identifier, and attaches each kept entry to its
    /// nearest kept ancestor. Gives `None` exactly when some entry's chain of
    /// parents leads to an identifier that no entry carries, or runs in a
    /// circle of entries that would be dropped.
    pub fn try_simplify(self) -> (pruned: Option<SwcFile>)
        ensures
            match pruned {
                Some(simple) => {
                    &&& resolvable(self.links())
                    &&& simple.links() == simplified(self.links())
                },
                None => !resolvable(self.links()),
            },
    {
        let neuron = self.as_neuron();
        match try_simplify(neuron) {
            None => None,
            Some(simple) => {
                let ghost kept = simple.segments@;
                proof {
                    lemma_simplified_types(self.links());
                }
                let mut entries: Vec<SwcEntry> = Vec::new();
                let mut i: usize = 0;
                while i < simple.segments.len()
                    invariant
                        i <= simple.segments@.len(),
                        simple.segments@ == kept,
                        forall|k: int| 0 <= k < kept.len() ==> (#[trigger] kept[k]).type_ <= 5,
                        entries@.len() == i,
                        forall|k: int| 0 <= k < i ==> (#[trigger] entries@[k]).link() == kept[k],
                    decreases simple.segments@.len() - i,
                {
                    entries.push(SwcEntry::from_segment(&simple.segments[i]));
                    i += 1;
                }
                let pruned = SwcFile { entries };
                assert(pruned.links() == kept);
                Some(pruned)
            },
        }
    }

    /// Prunes a morphology whose chains of parents all end: keeps the first
    /// entry, every branch, every leaf and every tenth identifier, in their
    /// order, and attaches each kept entry to its nearest kept ancestor.
    pub fn simplify(self) -> (simple: SwcFile)
        requires
            resolvable(self.links()),
        ensures
            simple.links() == simplified(self.links()),
    {
        match self.try_simplify() {
            Some(simple) => simple,
            None => unreached(),
        }
    }

    /// A sample morphology: a soma with an unbranched axon of 48 segments.
    pub fn sample() -> (file: SwcFile)
        ensures
            file.entries@.len() == 49,
            forall|k: int| 0 <= k < 49 ==> #[trigger] file.entries@[k] == sample_entry(k),
    {
        let mut entries: Vec<SwcEntry> = Vec::new();
        let mut id: i32 = 1;
        while id < 50
            invariant
                1 <= id <= 50,
                entries@.len() == id - 1,
                forall|k: int| 0 <= k < id - 1 ==> #[trigger] entries@[k] == sample_entry(k),
            decreases 50 - id,
        {
            let entry = if id == 1 {
                SwcEntry { id: 1, segment_type: Some(SegmentType::Soma), parent: -1 }
            } else {
                SwcEntry { id, segment_type: Some(SegmentType::Axon), parent: id - 1 }
            };
            entries.push(entry);
            id += 1;
        }
        SwcFile { entries }
    }
}

/// Pruning makes up no type: every type in the pruned list is the type of a
/// listed segment.
pub proof fn lemma_simplified_types(segments: Seq<Segment>)
    requires
        forall|i: int| 0 <= i < segments.len() ==> (#[trigger] segments[i]).type_ <= 5,
    ensures
        forall|k: int|
            0 <= k < simplified(segments).len() ==> (#[trigger] simplified(segments)[k]).type_
                <= 5,
{
    assert forall|k: int| 0 <= k < simplified(segments).len() implies (#[trigger] simplified(
        segments,
    )[k]).type_ <= 5 by {
        let i = lemma_simplified_from(segments, k);
        assert(segments[i].type_ <= 5);
    }
}

} // verus!
