//! Queries on a described neuron: its soma, its children, its segments by identifier.

use crate::morphology::{
    ancestor_within, anchor_of, child_ids, index_of_id, is_kept, is_trail, lemma_anchor_of,
    lemma_index_of_id, lemma_long_trail, lemma_reparented_push, lemma_simplified_closed,
    lemma_trail, links_at, occurs, reparented, resolvable, resolves, simplified,
};
use crate::neuron::{ConstructionError, Junction};
use crate::serialize::{Neuron, Segment, Synapse};
use std::collections::HashMap;
use vstd::prelude::*;

verus! {

broadcast use vstd::std_specs::hash::group_hash_axioms;

/// A root segment of type 1.
pub open spec fn is_soma(segment: Segment) -> bool {
    segment.parent == -1 && segment.type_ == 1
}

/// The soma: the first segment that has no parent and is of type 1.
pub fn soma(neuron: &Neuron) -> (found: Option<&Segment>)
    ensures
        match found {
            Some(segment) => exists|i: int|
                {
                    &&& 0 <= i < neuron.segments@.len()
                    &&& #[trigger] neuron.segments@[i] == *segment
                    &&& is_soma(*segment)
                    &&& forall|j: int| 0 <= j < i ==> !is_soma(neuron.segments@[j])
                },
            None => forall|j: int| 0 <= j < neuron.segments@.len() ==> !is_soma(neuron.segments@[j]),
        },
{
    let mut i: usize = 0;
    while i < neuron.segments.len()
        invariant
            i <= neuron.segments@.len(),
            forall|j: int| 0 <= j < i ==> !is_soma(neuron.segments@[j]),
        decreases neuron.segments@.len() - i,
    {
        let segment = &neuron.segments[i];
        if segment.parent == -1 && segment.type_ == 1 {
            return Some(segment);
        }
        i += 1;
    }
    None
}

/// A segment without a parent.
pub open spec fn is_root(segment: Segment) -> bool {
    segment.parent == -1
}

/// A described neuron in the form in which a single morphology arrives: its
/// soma is its first root, whatever type that segment is given.
#[derive(Debug)]
pub struct GraceNeuron(pub Neuron);

impl GraceNeuron {
    /// The soma: the first segment that has no parent.
    pub fn soma(&self) -> (found: Option<&Segment>)
        ensures
            match found {
                Some(segment) => exists|i: int|
                    {
                        &&& 0 <= i < self.0.segments@.len()
                        &&& #[trigger] self.0.segments@[i] == *segment
                        &&& is_root(*segment)
                        &&& forall|j: int| 0 <= j < i ==> !is_root(self.0.segments@[j])
                    },
                None => forall|j: int|
                    0 <= j < self.0.segments@.len() ==> !is_root(self.0.segments@[j]),
            },
    {
        let mut i: usize = 0;
        while i < self.0.segments.len()
            invariant
                i <= self.0.segments@.len(),
                forall|j: int| 0 <= j < i ==> !is_root(self.0.segments@[j]),
            decreases self.0.segments@.len() - i,
        {
            let segment = &self.0.segments[i];
            if segment.parent == -1 {
                return Some(segment);
            }
            i += 1;
        }
        None
    }

    /// Each segment's children: the map takes every identifier that some
    /// segment names as its parent to the identifiers of those segments, in
    /// listing order.
    pub fn get_children(&self) -> (children: HashMap<i32, Vec<i32>>)
        ensures
            is_children_map(children@, self.0.segments@),
    {
        get_children(&self.0)
    }

    /// The segments by identifier. Where several segments share an
    /// identifier, the map holds the last of them.
    pub fn segments_as_map(&self) -> (by_id: HashMap<i32, &Segment>)
        ensures
            is_id_map(by_id@, self.0.segments@),
    {
        segments_as_map(&self.0)
    }
}

/// Whether `children` takes every identifier that some segment names as its
/// parent, and no other, to the identifiers of those segments in listing order.
pub open spec fn is_children_map(children: Map<i32, Vec<i32>>, segments: Seq<Segment>) -> bool {
    &&& forall|parent: i32| #[trigger]
        children.contains_key(parent) <==> child_ids(segments, parent).len() > 0
    &&& forall|parent: i32| #[trigger]
        children.contains_key(parent) ==> children[parent]@ == child_ids(segments, parent)
}

/// Whether `by_id` takes every identifier that some segment carries, and no
/// other, to the last segment that carries it.
pub open spec fn is_id_map(by_id: Map<i32, &Segment>, segments: Seq<Segment>) -> bool {
    forall|id: i32|
        match #[trigger] index_of_id(segments, id) {
            Some(i) => by_id.contains_key(id) && *by_id[id] == segments[i],
            None => !by_id.contains_key(id),
        }
}

/// Each segment's children: the map takes every identifier that some segment
/// names as its parent to the identifiers of those segments, in listing order.
pub fn get_children(neuron: &Neuron) -> (children: HashMap<i32, Vec<i32>>)
    ensures
        is_children_map(children@, neuron.segments@),
{
    let mut children_map: HashMap<i32, Vec<i32>> = HashMap::new();
    let mut i: usize = 0;
    while i < neuron.segments.len()
        invariant
            i <= neuron.segments@.len(),
            forall|parent: i32| #[trigger]
                children_map@.contains_key(parent) <==> child_ids(
                    neuron.segments@.take(i as int),
                    parent,
                ).len() > 0,
            forall|parent: i32| #[trigger]
                children_map@.contains_key(parent) ==> children_map@[parent]@ == child_ids(
                    neuron.segments@.take(i as int),
                    parent,
                ),
        decreases neuron.segments@.len() - i,
    {
        let segment = &neuron.segments[i];
        proof {
            let longer = neuron.segments@.take(i + 1);
            assert(longer.drop_last() == neuron.segments@.take(i as int));
            assert(longer.last() == *segment);
        }
        match children_map.remove(&segment.parent) {
            Some(ids) => {
                let mut ids = ids;
                ids.push(segment.id);
                children_map.insert(segment.parent, ids);
            },
            None => {
                let mut ids: Vec<i32> = Vec::new();
                ids.push(segment.id);
                children_map.insert(segment.parent, ids);
            },
        }
        i += 1;
    }
    assert(neuron.segments@.take(i as int) == neuron.segments@);
    children_map
}

/// The segments by identifier. Where several segments share an identifier,
/// the map holds the last of them.
pub fn segments_as_map(neuron: &Neuron) -> (by_id: HashMap<i32, &Segment>)
    ensures
        is_id_map(by_id@, neuron.segments@),
{
    let mut by_id: HashMap<i32, &Segment> = HashMap::new();
    let mut i: usize = 0;
    while i < neuron.segments.len()
        invariant
            i <= neuron.segments@.len(),
            forall|id: i32|
                match #[trigger] index_of_id(neuron.segments@.take(i as int), id) {
                    Some(k) => by_id@.contains_key(id) && *by_id@[id] == neuron.segments@[k],
                    None => !by_id@.contains_key(id),
                },
        decreases neuron.segments@.len() - i,
    {
        let segment = &neuron.segments[i];
        proof {
            let longer = neuron.segments@.take(i + 1);
            assert(longer.drop_last() == neuron.segments@.take(i as int));
            assert(longer.last() == *segment);
        }
        let ghost before = by_id@;
        by_id.insert(segment.id, segment);
        i += 1;
        assert forall|id: i32|
            match #[trigger] index_of_id(neuron.segments@.take(i as int), id) {
                Some(k) => by_id@.contains_key(id) && *by_id@[id] == neuron.segments@[k],
                None => !by_id@.contains_key(id),
            } by {
            if id != segment.id {
                assert(index_of_id(neuron.segments@.take(i as int), id) == index_of_id(
                    neuron.segments@.take(i - 1),
                    id,
                ));
                assert(by_id@.contains_key(id) == before.contains_key(id));
            }
        }
    }
    assert(neuron.segments@.take(i as int) == neuron.segments@);
    by_id
}

/// Whether pruning keeps the identifier `id`.
fn keeps(children: &HashMap<i32, Vec<i32>>, id: i32, Ghost(segments): Ghost<Seq<Segment>>) -> (kept:
    bool)
    requires
        is_children_map(children@, segments),
    ensures
        kept == is_kept(segments, id),
{
    let is_first = id == 1;
    let is_branch_or_leaf = match children.get(&id) {
        Some(ids) => ids.len() != 1,
        None => true,
    };
    let is_downsample = id % 10 == 0;
    is_first || is_branch_or_leaf || is_downsample
}

/// Follows parents from `parent` to the first anchor. `None` if the chain
/// runs into an identifier that no segment carries, or in a circle.
fn find_anchor(
    children: &HashMap<i32, Vec<i32>>,
    by_id: &HashMap<i32, &Segment>,
    count: usize,
    parent: i32,
    Ghost(segments): Ghost<Seq<Segment>>,
) -> (found: Option<i32>)
    requires
        is_children_map(children@, segments),
        is_id_map(by_id@, segments),
        count == segments.len(),
    ensures
        match found {
            Some(anchor) => resolves(segments, parent) && anchor == anchor_of(segments, parent),
            None => !resolves(segments, parent),
        },
{
    let mut current: i32 = parent;
    let mut steps_left: usize = count;
    let ghost mut trail: Seq<i32> = seq![parent];
    loop
        invariant
            is_children_map(children@, segments),
            is_id_map(by_id@, segments),
            is_trail(segments, trail),
            trail[0] == parent,
            trail.last() == current,
            trail.len() - 1 + steps_left == segments.len(),
        decreases steps_left,
    {
        let found = by_id.get(&current);
        assert(found is Some <==> occurs(segments, current));
        if current == -1 || (found.is_some() && keeps(children, current, Ghost(segments))) {
            proof {
                lemma_trail(segments, trail, (trail.len() - 1) as nat);
                lemma_anchor_of(segments, parent, (trail.len() - 1) as nat);
            }
            return Some(current);
        }
        match found {
            None => {
                proof {
                    assert forall|fuel: nat|
                        ancestor_within(segments, parent, fuel) is None by {
                        lemma_trail(segments, trail, fuel);
                    }
                }
                return None;
            },
            Some(segment) => {
                if steps_left == 0 {
                    proof {
                        lemma_long_trail(segments, trail);
                    }
                    return None;
                }
                proof {
                    let longer = trail.push(segment.parent);
                    assert forall|k: int| 0 <= k < longer.len() - 1 implies #[trigger] links_at(
                        segments,
                        longer,
                        k,
                    ) by {
                        if k < trail.len() - 1 {
                            assert(links_at(segments, trail, k));
                        }
                    }
                    trail = longer;
                }
                steps_left -= 1;
                current = segment.parent;
            },
        }
    }
}

/// Prunes a neuron: keeps the first segment, every branch, every leaf and
/// every tenth identifier, and attaches each kept segment to its nearest kept
/// ancestor. Gives `None`, and prunes nothing, exactly when some segment's
/// chain of parents leads to an identifier that no segment carries, or runs
/// in a circle of segments that would be dropped.
pub fn try_simplify(neuron: Neuron) -> (pruned: Option<Neuron>)
    ensures
        match pruned {
            Some(simple) => {
                &&& resolvable(neuron.segments@)
                &&& simple.segments@ == simplified(neuron.segments@)
            },
            None => !resolvable(neuron.segments@),
        },
{
    let children = get_children(&neuron);
    let by_id = segments_as_map(&neuron);
    let count: usize = neuron.segments.len();
    let ghost segments = neuron.segments@;
    let mut kept: Vec<Segment> = Vec::new();
    let mut i: usize = 0;
    while i < count
        invariant
            i <= count,
            count == segments.len(),
            neuron.segments@ == segments,
            is_children_map(children@, segments),
            is_id_map(by_id@, segments),
            forall|j: int| 0 <= j < i ==> resolves(segments, #[trigger] segments[j].parent),
            kept@ == reparented(segments, segments.take(i as int)),
        decreases count - i,
    {
        let segment: Segment = neuron.segments[i];
        match find_anchor(&children, &by_id, count, segment.parent, Ghost(segments)) {
            None => {
                assert(!resolves(segments, segments[i as int].parent));
                return None;
            },
            Some(anchor) => {
                if keeps(&children, segment.id, Ghost(segments)) {
                    kept.push(Segment { id: segment.id, type_: segment.type_, parent: anchor });
                }
            },
        }
        proof {
            lemma_reparented_push(segments, segments.take(i as int), segment);
            assert(segments.take(i as int).push(segment) == segments.take(i + 1));
        }
        i += 1;
    }
    assert(segments.take(i as int) == segments);
    Some(Neuron { segments: kept })
}

/// Prunes a neuron whose chains of parents all end: keeps the first segment,
/// every branch, every leaf and every tenth identifier, in their order, and
/// attaches each kept segment to its nearest kept ancestor.
pub fn simplify(neuron: Neuron) -> (simple: Neuron)
    requires
        resolvable(neuron.segments@),
    ensures
        simple.segments@ == simplified(neuron.segments@),
{
    match try_simplify(neuron) {
        Some(simple) => simple,
        None => unreached(),
    }
}

/// Whether `positions` takes every identifier that some segment carries, and
/// no other, to the position of the last segment that carries it.
pub open spec fn is_position_map(positions: Map<i32, usize>, segments: Seq<Segment>) -> bool {
    forall|id: i32|
        match #[trigger] index_of_id(segments, id) {
            Some(i) => positions.contains_key(id) && positions[id] == i,
            None => !positions.contains_key(id),
        }
}

/// The position of each segment by its identifier. Where several segments
/// share an identifier, the map holds the position of the last of them.
pub fn segment_positions(neuron: &Neuron) -> (positions: HashMap<i32, usize>)
    ensures
        is_position_map(positions@, neuron.segments@),
{
    let mut positions: HashMap<i32, usize> = HashMap::new();
    let mut i: usize = 0;
    while i < neuron.segments.len()
        invariant
            i <= neuron.segments@.len(),
            is_position_map(positions@, neuron.segments@.take(i as int)),
        decreases neuron.segments@.len() - i,
    {
        let id: i32 = neuron.segments[i].id;
        proof {
            let longer = neuron.segments@.take(i + 1);
            assert(longer.drop_last() == neuron.segments@.take(i as int));
            assert(longer.last() == neuron.segments@[i as int]);
        }
        let ghost before = positions@;
        positions.insert(id, i);
        i += 1;
        assert forall|other: i32|
            match #[trigger] index_of_id(neuron.segments@.take(i as int), other) {
                Some(k) => positions@.contains_key(other) && positions@[other] == k,
                None => !positions@.contains_key(other),
            } by {
            if other != id {
                assert(index_of_id(neuron.segments@.take(i as int), other) == index_of_id(
                    neuron.segments@.take(i - 1),
                    other,
                ));
                assert(positions@.contains_key(other) == before.contains_key(other));
            }
        }
    }
    assert(neuron.segments@.take(i as int) == neuron.segments@);
    positions
}

/// The membrane of a segment of type `type_` where there are `membrane_count`
/// membranes: types count from 1, positions from 0.
pub open spec fn membrane_of(type_: usize, membrane_count: usize) -> Option<usize> {
    if 1 <= type_ <= membrane_count {
        Some((type_ - 1) as usize)
    } else {
        None
    }
}

/// The position of a segment's membrane among `membrane_count` membranes, or
/// `None` if its type has none.
pub fn membrane_index(segment: &Segment, membrane_count: usize) -> (index: Option<usize>)
    ensures
        index == membrane_of(segment.type_, membrane_count),
{
    if 1 <= segment.type_ && segment.type_ <= membrane_count {
        Some(segment.type_ - 1)
    } else {
        None
    }
}

/// The membrane of every segment, in listing order. Fails at the first
/// segment whose type has no membrane.
pub fn membrane_indices(neuron: &Neuron, membrane_count: usize) -> (indices: Result<
    Vec<usize>,
    ConstructionError,
>)
    ensures
        match indices {
            Ok(found) => {
                &&& found@.len() == neuron.segments@.len()
                &&& forall|i: int|
                    0 <= i < found@.len() ==> membrane_of(
                        #[trigger] neuron.segments@[i].type_,
                        membrane_count,
                    ) == Some(found@[i])
            },
            Err(error) => exists|i: int|
                {
                    &&& 0 <= i < neuron.segments@.len()
                    &&& error == (ConstructionError::MissingMembrane { segment: i as usize })
                    &&& membrane_of(#[trigger] neuron.segments@[i].type_, membrane_count) is None
                    &&& forall|j: int|
                        0 <= j < i ==> membrane_of(
                            #[trigger] neuron.segments@[j].type_,
                            membrane_count,
                        ) is Some
                },
        },
{
    let mut found: Vec<usize> = Vec::new();
    let mut i: usize = 0;
    while i < neuron.segments.len()
        invariant
            i <= neuron.segments@.len(),
            found@.len() == i,
            forall|j: int|
                0 <= j < i ==> membrane_of(
                    #[trigger] neuron.segments@[j].type_,
                    membrane_count,
                ) == Some(found@[j]),
        decreases neuron.segments@.len() - i,
    {
        match membrane_index(&neuron.segments[i], membrane_count) {
            Some(index) => found.push(index),
            None => {
                return Err(ConstructionError::MissingMembrane { segment: i });
            },
        }
        i += 1;
    }
    Ok(found)
}

/// What the segment at position `at` adds to the junctions of its neuron.
/// Only the last segment of each identifier is wired. It is coupled to the
/// segment that carries its parent's identifier, the parent first. A segment
/// whose parent is -1, and is carried by no segment, is a root and adds
/// nothing. A segment that is its own parent, or whose parent is carried by
/// no segment, cannot be wired.
pub open spec fn junction_at(segments: Seq<Segment>, at: int) -> Option<
    Result<Junction, ConstructionError>,
> {
    let segment = segments[at];
    if index_of_id(segments, segment.id) != Some(at) {
        None
    } else {
        match index_of_id(segments, segment.parent) {
            Some(parent) => if parent == at {
                Some(Err(ConstructionError::SelfParent { segment: at as usize }))
            } else {
                Some(
                    Ok(Junction { first_segment: parent as usize, second_segment: at as usize }),
                )
            },
            None => if segment.parent == -1 {
                None
            } else {
                Some(Err(ConstructionError::DanglingParent { segment: at as usize }))
            },
        }
    }
}

/// The junctions that the first `count` segments add, in listing order, or
/// the complaint about the first of them that cannot be wired.
pub open spec fn junctions_of(segments: Seq<Segment>, count: nat) -> Result<
    Seq<Junction>,
    ConstructionError,
>
    decreases count,
{
    if count == 0 {
        Ok(Seq::empty())
    } else {
        match junctions_of(segments, (count - 1) as nat) {
            Err(error) => Err(error),
            Ok(before) => match junction_at(segments, count - 1) {
                None => Ok(before),
                Some(Ok(junction)) => Ok(before.push(junction)),
                Some(Err(error)) => Err(error),
            },
        }
    }
}

/// Wires a described neuron: one junction for each segment that has a
/// parent, from the parent to the segment, in listing order. Every junction
/// it gives couples two different segments of the neuron. Fails at the first
/// segment that is its own parent or that names a parent which no segment
/// carries.
pub fn junctions(neuron: &Neuron) -> (wired: Result<Vec<Junction>, ConstructionError>)
    ensures
        match wired {
            Ok(found) => {
                &&& junctions_of(neuron.segments@, neuron.segments@.len()) == Ok::<
                    Seq<Junction>,
                    ConstructionError,
                >(found@)
                &&& forall|k: int|
                    0 <= k < found@.len() ==> (#[trigger] found@[k]).is_sound(
                        neuron.segments@.len(),
                    )
            },
            Err(error) => junctions_of(neuron.segments@, neuron.segments@.len()) == Err::<
                Seq<Junction>,
                ConstructionError,
            >(error),
        },
{
    let positions = segment_positions(neuron);
    let ghost segments = neuron.segments@;
    let mut found: Vec<Junction> = Vec::new();
    let mut i: usize = 0;
    while i < neuron.segments.len()
        invariant
            i <= segments.len(),
            neuron.segments@ == segments,
            is_position_map(positions@, segments),
            junctions_of(segments, i as nat) == Ok::<Seq<Junction>, ConstructionError>(found@),
            forall|k: int|
                0 <= k < found@.len() ==> (#[trigger] found@[k]).is_sound(segments.len()),
        decreases segments.len() - i,
    {
        let segment: Segment = neuron.segments[i];
        proof {
            lemma_index_of_id(segments, segment.id);
            lemma_index_of_id(segments, segment.parent);
        }
        let own = positions.get(&segment.id);
        assert(own == Some(&(index_of_id(segments, segment.id)->0 as usize)));
        let is_last = match own {
            Some(position) => *position == i,
            None => false,
        };
        if is_last {
            match positions.get(&segment.parent) {
                Some(parent) => {
                    if *parent == i {
                        proof {
                            lemma_junctions_fail_on(segments, i as nat + 1, segments.len());
                        }
                        return Err(ConstructionError::SelfParent { segment: i });
                    }
                    found.push(Junction { first_segment: *parent, second_segment: i });
                },
                None => {
                    if segment.parent != -1 {
                        proof {
                            lemma_junctions_fail_on(segments, i as nat + 1, segments.len());
                        }
                        return Err(ConstructionError::DanglingParent { segment: i });
                    }
                },
            }
        }
        i += 1;
    }
    Ok(found)
}

/// Once the wiring has failed on some segments, it fails in the same way on
/// any longer list of them.
proof fn lemma_junctions_fail_on(segments: Seq<Segment>, count: nat, more: nat)
    requires
        junctions_of(segments, count) is Err,
        count <= more,
    ensures
        junctions_of(segments, more) == junctions_of(segments, count),
    decreases more,
{
    if count < more {
        lemma_junctions_fail_on(segments, count, (more - 1) as nat);
    }
}

/// A pruned neuron has no segment whose parent is missing: wiring it can
/// fail only on a segment that is its own parent.
pub proof fn lemma_pruned_parents_are_listed(segments: Seq<Segment>, count: nat)
    requires
        resolvable(segments),
        count <= simplified(segments).len(),
    ensures
        !(junctions_of(simplified(segments), count) matches Err(
            ConstructionError::DanglingParent { .. },
        )),
    decreases count,
{
    if count > 0 {
        lemma_pruned_parents_are_listed(segments, (count - 1) as nat);
        lemma_simplified_closed(segments, count - 1);
    }
}

/// What is wrong with a synapse in a scene whose neurons have
/// `segment_counts` segments; `None` if nothing is. An end that names a
/// neuron or a segment that is not there is reported before a synapse that
/// leads back to where it begins.
pub open spec fn synapse_fault(segment_counts: Seq<usize>, synapse: Synapse) -> Option<
    ConstructionError,
> {
    if synapse.pre_neuron >= segment_counts.len() || synapse.post_neuron >= segment_counts.len() {
        Some(ConstructionError::DanglingSynapse)
    } else if synapse.pre_segment >= segment_counts[synapse.pre_neuron as int]
        || synapse.post_segment >= segment_counts[synapse.post_neuron as int] {
        Some(ConstructionError::DanglingSynapse)
    } else if synapse.pre_neuron == synapse.post_neuron && synapse.pre_segment
        == synapse.post_segment {
        Some(ConstructionError::SelfSynapse)
    } else {
        None
    }
}

/// Checks the ends of a synapse against a scene whose neurons have
/// `segment_counts` segments each. It passes exactly when both ends are
/// segments of the scene, and not the same segment.
pub fn check_synapse(segment_counts: &Vec<usize>, synapse: &Synapse) -> (checked: Result<
    (),
    ConstructionError,
>)
    ensures
        match checked {
            Ok(()) => synapse_fault(segment_counts@, *synapse) is None,
            Err(error) => synapse_fault(segment_counts@, *synapse) == Some(error),
        },
{
    if synapse.pre_neuron >= segment_counts.len() || synapse.post_neuron >= segment_counts.len() {
        return Err(ConstructionError::DanglingSynapse);
    }
    if synapse.pre_segment >= segment_counts[synapse.pre_neuron] || synapse.post_segment
        >= segment_counts[synapse.post_neuron] {
        return Err(ConstructionError::DanglingSynapse);
    }
    if synapse.pre_neuron == synapse.post_neuron && synapse.pre_segment == synapse.post_segment {
        return Err(ConstructionError::SelfSynapse);
    }
    Ok(())
}

} // verus!
