//! The mathematical model of a parent-linked list of segments.

use crate::serialize::Segment;
use vstd::prelude::*;
use vstd::seq_lib::seq_to_set_is_finite;
use vstd::set_lib::lemma_len_subset;

verus! {

/// The identifiers of the segments whose parent is `parent`, in listing order.
pub open spec fn child_ids(segments: Seq<Segment>, parent: i32) -> Seq<i32>
    decreases segments.len(),
{
    if segments.len() == 0 {
        Seq::empty()
    } else if segments.last().parent == parent {
        child_ids(segments.drop_last(), parent).push(segments.last().id)
    } else {
        child_ids(segments.drop_last(), parent)
    }
}

/// The position of the last segment that carries `id`, if any segment does.
pub open spec fn index_of_id(segments: Seq<Segment>, id: i32) -> Option<int>
    decreases segments.len(),
{
    if segments.len() == 0 {
        None
    } else if segments.last().id == id {
        Some(segments.len() - 1)
    } else {
        index_of_id(segments.drop_last(), id)
    }
}

/// `index_of_id` finds a segment with that identifier whenever there is one,
/// and then the last of them.
pub proof fn lemma_index_of_id(segments: Seq<Segment>, id: i32)
    ensures
        match index_of_id(segments, id) {
            Some(i) => {
                &&& 0 <= i < segments.len()
                &&& segments[i].id == id
                &&& forall|j: int| i < j < segments.len() ==> segments[j].id != id
            },
            None => forall|j: int| 0 <= j < segments.len() ==> segments[j].id != id,
        },
    decreases segments.len(),
{
    if segments.len() > 0 && segments.last().id != id {
        let shorter = segments.drop_last();
        lemma_index_of_id(shorter, id);
        assert forall|j: int| 0 <= j < shorter.len() implies #[trigger] segments[j]
            == shorter[j] by {}
    }
}

/// Whether some segment carries `id`.
pub open spec fn occurs(segments: Seq<Segment>, id: i32) -> bool {
    index_of_id(segments, id) is Some
}

/// The parent of the segment that carries `id` (of the last one, if several do).
pub open spec fn parent_of(segments: Seq<Segment>, id: i32) -> i32
    recommends
        occurs(segments, id),
{
    segments[index_of_id(segments, id)->0].parent
}

/// The rule by which pruning keeps an identifier: the first segment (identifier
/// 1), every branch and every leaf (any number of children but one), and every
/// tenth identifier.
pub open spec fn is_kept(segments: Seq<Segment>, id: i32) -> bool {
    id == 1 || child_ids(segments, id).len() != 1 || id % 10 == 0
}

/// Where the search for a new parent stops: at "no parent", or at the
/// identifier of a segment that pruning keeps.
pub open spec fn is_anchor(segments: Seq<Segment>, parent: i32) -> bool {
    parent == -1 || (occurs(segments, parent) && is_kept(segments, parent))
}

/// The first anchor among `parent`, its parent, that one's parent and so on,
/// looking at most `fuel` links up. `None` if a link leads to an identifier
/// that no segment carries, or if `fuel` links do not reach an anchor.
pub open spec fn ancestor_within(segments: Seq<Segment>, parent: i32, fuel: nat) -> Option<i32>
    decreases fuel,
{
    if is_anchor(segments, parent) {
        Some(parent)
    } else if fuel == 0 || !occurs(segments, parent) {
        None
    } else {
        ancestor_within(segments, parent_of(segments, parent), (fuel - 1) as nat)
    }
}

/// Whether following parents from `parent` reaches an anchor at all.
pub open spec fn resolves(segments: Seq<Segment>, parent: i32) -> bool {
    exists|fuel: nat| ancestor_within(segments, parent, fuel) is Some
}

/// The anchor that following parents from `parent` reaches.
pub open spec fn anchor_of(segments: Seq<Segment>, parent: i32) -> i32
    recommends
        resolves(segments, parent),
{
    let fuel = choose|fuel: nat| ancestor_within(segments, parent, fuel) is Some;
    ancestor_within(segments, parent, fuel)->0
}

/// Whether every segment's chain of parents reaches an anchor: no chain runs
/// into an identifier that no segment carries, and none runs in a circle of
/// segments that pruning drops.
pub open spec fn resolvable(segments: Seq<Segment>) -> bool {
    forall|i: int| 0 <= i < segments.len() ==> resolves(segments, #[trigger] segments[i].parent)
}

/// The test that pruning `segments` puts to each segment.
pub open spec fn keeps_segment(segments: Seq<Segment>) -> spec_fn(Segment) -> bool {
    |s: Segment| is_kept(segments, s.id)
}

/// What pruning `segments` makes of a segment it keeps: the same segment,
/// with its anchor for a parent.
pub open spec fn reattach(segments: Seq<Segment>) -> spec_fn(Segment) -> Segment {
    |s: Segment| Segment { id: s.id, type_: s.type_, parent: anchor_of(segments, s.parent) }
}

/// Those of `part` that pruning `segments` keeps, each with its anchor for a parent.
pub open spec fn reparented(segments: Seq<Segment>, part: Seq<Segment>) -> Seq<Segment> {
    part.filter(keeps_segment(segments)).map_values(reattach(segments))
}

/// Pruning goes through the segments one by one: a kept segment is added,
/// reattached, to what came before it, and a dropped one changes nothing.
pub proof fn lemma_reparented_push(segments: Seq<Segment>, part: Seq<Segment>, next: Segment)
    ensures
        reparented(segments, part.push(next)) == if is_kept(segments, next.id) {
            reparented(segments, part).push(reattach(segments)(next))
        } else {
            reparented(segments, part)
        },
{
    part.lemma_filter_push(next, keeps_segment(segments));
    if is_kept(segments, next.id) {
        part.filter(keeps_segment(segments)).lemma_push_map_commute(reattach(segments), next);
    }
}

/// The pruned list: the kept segments in their order, each attached to the
/// nearest kept ancestor, or to nothing where its chain of parents ends.
pub open spec fn simplified(segments: Seq<Segment>) -> Seq<Segment> {
    reparented(segments, segments)
}

/// Every segment of the pruned list comes from a listed segment that pruning
/// keeps: it has that segment's identifier and type, and for a parent the
/// anchor of that segment's parent. The lemma names the position of such a
/// segment.
pub proof fn lemma_simplified_from(segments: Seq<Segment>, k: int) -> (i: int)
    requires
        0 <= k < simplified(segments).len(),
    ensures
        0 <= i < segments.len(),
        is_kept(segments, segments[i].id),
        simplified(segments)[k] == reattach(segments)(segments[i]),
{
    let kept = segments.filter(keeps_segment(segments));
    segments.lemma_filter_pred(keeps_segment(segments), k);
    segments.lemma_filter_contains_rev(keeps_segment(segments), kept[k]);
    choose|i: int| 0 <= i < segments.len() && segments[i] == kept[k]
}

/// Whether some segment can be found under `id`: it can exactly when one carries it.
pub proof fn lemma_occurs(segments: Seq<Segment>, id: i32)
    ensures
        occurs(segments, id) <==> exists|i: int|
            0 <= i < segments.len() && (#[trigger] segments[i]).id == id,
{
    lemma_index_of_id(segments, id);
    if occurs(segments, id) {
        assert(segments[index_of_id(segments, id)->0].id == id);
    }
}

/// The pruned list is closed: where every chain of parents ends, each
/// segment of the pruned list is a root or has its parent in the pruned list.
pub proof fn lemma_simplified_closed(segments: Seq<Segment>, k: int)
    requires
        resolvable(segments),
        0 <= k < simplified(segments).len(),
    ensures
        simplified(segments)[k].parent == -1 || occurs(
            simplified(segments),
            simplified(segments)[k].parent,
        ),
{
    let pruned = simplified(segments);
    let kept = segments.filter(keeps_segment(segments));
    let i = lemma_simplified_from(segments, k);
    let anchor = pruned[k].parent;
    assert(resolves(segments, segments[i].parent));
    let fuel = choose|fuel: nat| ancestor_within(segments, segments[i].parent, fuel) is Some;
    lemma_anchor_of(segments, segments[i].parent, fuel);
    if anchor != -1 {
        lemma_index_of_id(segments, anchor);
        let j = index_of_id(segments, anchor)->0;
        segments.lemma_filter_contains(keeps_segment(segments), j);
        let m = choose|m: int| 0 <= m < kept.len() && kept[m] == segments[j];
        assert(pruned[m].id == anchor);
        lemma_occurs(pruned, anchor);
    }
}

/// More fuel never changes an anchor that less fuel found.
pub proof fn lemma_ancestor_within_stable(segments: Seq<Segment>, parent: i32, fuel: nat, more: nat)
    requires
        ancestor_within(segments, parent, fuel) is Some,
        fuel <= more,
    ensures
        ancestor_within(segments, parent, more) == ancestor_within(segments, parent, fuel),
    decreases fuel,
{
    if !is_anchor(segments, parent) {
        lemma_ancestor_within_stable(
            segments,
            parent_of(segments, parent),
            (fuel - 1) as nat,
            (more - 1) as nat,
        );
    }
}

/// Whatever fuel finds an anchor finds `anchor_of`, and what it finds is an anchor.
pub proof fn lemma_anchor_of(segments: Seq<Segment>, parent: i32, fuel: nat)
    requires
        ancestor_within(segments, parent, fuel) is Some,
    ensures
        resolves(segments, parent),
        anchor_of(segments, parent) == ancestor_within(segments, parent, fuel)->0,
        is_anchor(segments, anchor_of(segments, parent)),
{
    let chosen = choose|fuel: nat| ancestor_within(segments, parent, fuel) is Some;
    if chosen <= fuel {
        lemma_ancestor_within_stable(segments, parent, chosen, fuel);
    } else {
        lemma_ancestor_within_stable(segments, parent, fuel, chosen);
    }
    lemma_ancestor_is_anchor(segments, parent, fuel);
}

/// What `ancestor_within` finds is an anchor.
pub proof fn lemma_ancestor_is_anchor(segments: Seq<Segment>, parent: i32, fuel: nat)
    requires
        ancestor_within(segments, parent, fuel) is Some,
    ensures
        is_anchor(segments, ancestor_within(segments, parent, fuel)->0),
    decreases fuel,
{
    if !is_anchor(segments, parent) {
        lemma_ancestor_is_anchor(segments, parent_of(segments, parent), (fuel - 1) as nat);
    }
}

/// One step up from a dropped segment: `from` is no anchor, some segment
/// carries it, and the parent of that segment is `to`.
pub open spec fn is_link(segments: Seq<Segment>, from: i32, to: i32) -> bool {
    &&& !is_anchor(segments, from)
    &&& occurs(segments, from)
    &&& parent_of(segments, from) == to
}

/// Whether `trail` takes one step up at position `k`.
pub open spec fn links_at(segments: Seq<Segment>, trail: Seq<i32>, k: int) -> bool {
    is_link(segments, trail[k], trail[k + 1])
}

/// A trail lists the identifiers that the search for an anchor passes, from
/// the one it starts at to the one it has reached: each but the last is one
/// step below the next.
pub open spec fn is_trail(segments: Seq<Segment>, trail: Seq<i32>) -> bool {
    &&& trail.len() > 0
    &&& forall|k: int| 0 <= k < trail.len() - 1 ==> #[trigger] links_at(segments, trail, k)
}

/// Looking for an anchor from the start of a trail uses up one unit of fuel
/// for each step of the trail and then goes on from its end.
pub proof fn lemma_trail(segments: Seq<Segment>, trail: Seq<i32>, fuel: nat)
    requires
        is_trail(segments, trail),
    ensures
        ancestor_within(segments, trail[0], fuel) == if fuel < trail.len() - 1 {
            None
        } else {
            ancestor_within(segments, trail.last(), (fuel - (trail.len() - 1)) as nat)
        },
    decreases trail.len(),
{
    if trail.len() > 1 {
        let rest = trail.drop_first();
        assert forall|k: int| 0 <= k < rest.len() - 1 implies #[trigger] links_at(
            segments,
            rest,
            k,
        ) by {
            assert(links_at(segments, trail, k + 1));
        }
        assert(links_at(segments, trail, 0));
        if fuel > 0 {
            lemma_trail(segments, rest, (fuel - 1) as nat);
        }
    }
}

/// Any stretch of a trail is a trail.
pub proof fn lemma_sub_trail(segments: Seq<Segment>, trail: Seq<i32>, from: int, to: int)
    requires
        is_trail(segments, trail),
        0 <= from <= to < trail.len(),
    ensures
        is_trail(segments, trail.subrange(from, to + 1)),
{
    let part = trail.subrange(from, to + 1);
    assert forall|k: int| 0 <= k < part.len() - 1 implies #[trigger] links_at(
        segments,
        part,
        k,
    ) by {
        assert(links_at(segments, trail, from + k));
    }
}

/// On a trail that ends where it began, no amount of fuel reaches an anchor.
pub proof fn lemma_closed_trail(segments: Seq<Segment>, trail: Seq<i32>, from: int, fuel: nat)
    requires
        is_trail(segments, trail),
        trail.len() > 1,
        trail.last() == trail[0],
        0 <= from < trail.len() - 1,
    ensures
        ancestor_within(segments, trail[from], fuel) is None,
    decreases fuel,
{
    assert(links_at(segments, trail, from));
    if fuel > 0 {
        if from + 1 < trail.len() - 1 {
            lemma_closed_trail(segments, trail, from + 1, (fuel - 1) as nat);
        } else {
            lemma_closed_trail(segments, trail, 0, (fuel - 1) as nat);
        }
    }
}

/// A list that is longer than the number of distinct values it may hold names
/// one of them twice.
pub proof fn lemma_repeat(ids: Seq<i32>, pool: Seq<i32>) -> (pair: (int, int))
    requires
        ids.len() > pool.len(),
        forall|k: int| 0 <= k < ids.len() ==> pool.contains(#[trigger] ids[k]),
    ensures
        0 <= pair.0 < pair.1 < ids.len(),
        ids[pair.0] == ids[pair.1],
{
    if ids.no_duplicates() {
        ids.unique_seq_to_set();
        pool.lemma_cardinality_of_set();
        seq_to_set_is_finite(pool);
        assert(ids.to_set().subset_of(pool.to_set())) by {
            assert forall|id: i32| ids.to_set().contains(id) implies pool.to_set().contains(
                id,
            ) by {
                let k = choose|k: int| 0 <= k < ids.len() && ids[k] == id;
                assert(pool.contains(ids[k]));
            }
        }
        lemma_len_subset(ids.to_set(), pool.to_set());
    }
    let (i, j) = choose|i: int, j: int|
        0 <= i < ids.len() && 0 <= j < ids.len() && i != j && ids[i] == ids[j];
    if i < j {
        (i, j)
    } else {
        (j, i)
    }
}

/// Every identifier that some segment carries is among the identifiers of the segments.
pub proof fn lemma_occurs_in_ids(segments: Seq<Segment>, id: i32)
    requires
        occurs(segments, id),
    ensures
        segments.map_values(|s: Segment| s.id).contains(id),
{
    lemma_index_of_id(segments, id);
    let at = index_of_id(segments, id)->0;
    assert(segments.map_values(|s: Segment| s.id)[at] == id);
}

/// A trail that has taken as many steps as there are segments, and has not
/// reached an anchor yet, never reaches one: it has passed one identifier
/// twice, and from there on it runs in a circle.
pub proof fn lemma_long_trail(segments: Seq<Segment>, trail: Seq<i32>)
    requires
        is_trail(segments, trail),
        trail.len() > segments.len(),
        !is_anchor(segments, trail.last()),
        occurs(segments, trail.last()),
    ensures
        !resolves(segments, trail[0]),
{
    let pool = segments.map_values(|s: Segment| s.id);
    assert forall|k: int| 0 <= k < trail.len() implies pool.contains(#[trigger] trail[k]) by {
        if k < trail.len() - 1 {
            assert(links_at(segments, trail, k));
        }
        lemma_occurs_in_ids(segments, trail[k]);
    }
    let (i, j) = lemma_repeat(trail, pool);
    let circle = trail.subrange(i, j + 1);
    let lead = trail.subrange(0, i + 1);
    lemma_sub_trail(segments, trail, i, j);
    lemma_sub_trail(segments, trail, 0, i);
    assert forall|fuel: nat| ancestor_within(segments, trail[0], fuel) is None by {
        lemma_trail(segments, lead, fuel);
        if fuel >= i {
            lemma_closed_trail(segments, circle, 0, (fuel - i) as nat);
        }
    }
}

} // verus!
