use reuron::integrations::swc_file::{MembraneKind, SegmentType, SwcEntry, SwcFile};
use reuron::serialize::Segment;

fn entry(id: i32, segment_type: Option<SegmentType>, parent: i32) -> SwcEntry {
    SwcEntry { id, segment_type, parent }
}

#[test]
fn type_codes_one_to_five_are_known() {
    assert_eq!(SegmentType::from_code(1), Some(SegmentType::Soma));
    assert_eq!(SegmentType::from_code(2), Some(SegmentType::Axon));
    assert_eq!(SegmentType::from_code(3), Some(SegmentType::Dendrite));
    assert_eq!(SegmentType::from_code(4), Some(SegmentType::ApicalDendrite));
    assert_eq!(SegmentType::from_code(5), Some(SegmentType::Custom));
}

#[test]
fn other_type_codes_are_unknown() {
    assert_eq!(SegmentType::from_code(0), None);
    assert_eq!(SegmentType::from_code(6), None);
    assert_eq!(SegmentType::from_code(255), None);
}

#[test]
fn sample_is_a_soma_with_an_axon_of_48_segments() {
    let file = SwcFile::sample();
    assert_eq!(file.entries.len(), 49);
    assert_eq!(file.entries[0], entry(1, Some(SegmentType::Soma), -1));
    assert_eq!(file.entries[1], entry(2, Some(SegmentType::Axon), 1));
    assert_eq!(file.entries[48], entry(49, Some(SegmentType::Axon), 48));
    for (at, e) in file.entries.iter().enumerate() {
        assert_eq!(e.id, at as i32 + 1);
    }
}

#[test]
fn soma_of_the_sample_is_its_first_entry() {
    let file = SwcFile::sample();
    assert_eq!(file.soma(), Some(&entry(1, Some(SegmentType::Soma), -1)));
}

#[test]
fn soma_goes_by_type_and_not_by_parent() {
    let file = SwcFile {
        entries: vec![
            entry(1, Some(SegmentType::Axon), -1),
            entry(2, Some(SegmentType::Soma), 1),
            entry(3, Some(SegmentType::Soma), -1),
        ],
    };
    assert_eq!(file.soma(), Some(&entry(2, Some(SegmentType::Soma), 1)));
    let without = SwcFile { entries: vec![entry(1, None, -1)] };
    assert_eq!(without.soma(), None);
}

#[test]
fn children_of_the_sample_follow_the_chain() {
    let children = SwcFile::sample().get_children();
    assert_eq!(children.len(), 49);
    assert_eq!(children.get(&-1), Some(&vec![1]));
    assert_eq!(children.get(&1), Some(&vec![2]));
    assert_eq!(children.get(&48), Some(&vec![49]));
    assert_eq!(children.get(&49), None);
}

#[test]
fn entries_are_found_by_identifier() {
    let file = SwcFile {
        entries: vec![
            entry(4, Some(SegmentType::Soma), -1),
            entry(9, None, 4),
            entry(4, Some(SegmentType::Custom), 9),
        ],
    };
    let by_id = file.as_map();
    assert_eq!(by_id.len(), 2);
    assert_eq!(by_id.get(&4), Some(&&entry(4, Some(SegmentType::Custom), 9)));
    assert_eq!(by_id.get(&9), Some(&&entry(9, None, 4)));
    assert_eq!(by_id.get(&1), None);
}

#[test]
fn sample_is_pruned_to_its_ends_and_every_tenth_entry() {
    let simple = SwcFile::sample().simplify();
    assert_eq!(
        simple.entries,
        vec![
            entry(1, Some(SegmentType::Soma), -1),
            entry(10, Some(SegmentType::Axon), 1),
            entry(20, Some(SegmentType::Axon), 10),
            entry(30, Some(SegmentType::Axon), 20),
            entry(40, Some(SegmentType::Axon), 30),
            entry(49, Some(SegmentType::Axon), 40),
        ]
    );
}

#[test]
fn pruning_keeps_unknown_types_unknown() {
    let file = SwcFile {
        entries: vec![entry(1, None, -1), entry(2, None, 1), entry(3, Some(SegmentType::Custom), 2)],
    };
    let simple = file.try_simplify().expect("the chain ends at the first entry");
    assert_eq!(simple.entries, vec![entry(1, None, -1), entry(3, Some(SegmentType::Custom), 1)]);
}

#[test]
fn pruning_a_morphology_refuses_a_missing_parent() {
    let file = SwcFile { entries: vec![entry(1, Some(SegmentType::Soma), 5)] };
    assert!(file.try_simplify().is_none());
}

#[test]
fn entries_travel_through_the_schema_unchanged() {
    let all = [
        None,
        Some(SegmentType::Soma),
        Some(SegmentType::Axon),
        Some(SegmentType::Dendrite),
        Some(SegmentType::ApicalDendrite),
        Some(SegmentType::Custom),
    ];
    for (code, segment_type) in all.iter().enumerate() {
        let e = entry(7, *segment_type, 3);
        let segment = e.as_segment();
        assert_eq!(segment, Segment { id: 7, type_: code, parent: 3 });
        assert_eq!(SwcEntry::from_segment(&segment), e);
    }
}

#[test]
fn morphology_becomes_a_neuron_of_the_schema() {
    let file = SwcFile {
        entries: vec![entry(1, Some(SegmentType::Soma), -1), entry(2, Some(SegmentType::Dendrite), 1)],
    };
    assert_eq!(
        file.as_neuron().segments,
        vec![Segment { id: 1, type_: 1, parent: -1 }, Segment { id: 2, type_: 3, parent: 1 }]
    );
}

#[test]
fn membranes_go_by_type_and_root() {
    let kind = |segment_type, parent| MembraneKind::for_entry(&entry(2, segment_type, parent));
    assert_eq!(kind(Some(SegmentType::Soma), -1), MembraneKind::Soma);
    assert_eq!(kind(Some(SegmentType::Soma), 1), MembraneKind::Soma);
    assert_eq!(kind(Some(SegmentType::Axon), -1), MembraneKind::AxonInitialSegment);
    assert_eq!(kind(Some(SegmentType::Axon), 1), MembraneKind::Axon);
    assert_eq!(kind(Some(SegmentType::Dendrite), 1), MembraneKind::BasalDendrite);
    assert_eq!(kind(Some(SegmentType::ApicalDendrite), 1), MembraneKind::ApicalDendrite);
    assert_eq!(kind(Some(SegmentType::Custom), 1), MembraneKind::BasalDendrite);
    assert_eq!(kind(None, -1), MembraneKind::BasalDendrite);
}
