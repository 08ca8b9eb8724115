use reuron::integrations::grace::{
    check_synapse, junctions, membrane_index, membrane_indices, segment_positions, simplify,
};
use reuron::neuron::{check_junctions, ConstructionError, Junction};
use reuron::serialize::{Neuron, Segment, Synapse};

fn seg(id: i32, type_: usize, parent: i32) -> Segment {
    Segment { id, type_, parent }
}

fn junction(first_segment: usize, second_segment: usize) -> Junction {
    Junction { first_segment, second_segment }
}

#[test]
fn junctions_between_different_segments_of_the_neuron_pass() {
    let chain = vec![junction(0, 1), junction(1, 2), junction(2, 3), junction(3, 4)];
    assert_eq!(check_junctions(5, &chain), Ok(()));
    assert_eq!(check_junctions(0, &vec![]), Ok(()));
    assert_eq!(check_junctions(2, &vec![junction(1, 0), junction(0, 1)]), Ok(()));
}

#[test]
fn a_junction_to_a_missing_segment_is_refused() {
    let chain = vec![junction(0, 1), junction(1, 5), junction(7, 7)];
    assert_eq!(check_junctions(5, &chain), Err(ConstructionError::DanglingJunction { junction: 1 }));
    assert_eq!(
        check_junctions(5, &vec![junction(5, 0)]),
        Err(ConstructionError::DanglingJunction { junction: 0 })
    );
    assert_eq!(
        check_junctions(0, &vec![junction(0, 0)]),
        Err(ConstructionError::DanglingJunction { junction: 0 })
    );
}

#[test]
fn a_junction_of_a_segment_with_itself_is_refused() {
    let chain = vec![junction(0, 1), junction(2, 2), junction(9, 0)];
    assert_eq!(check_junctions(3, &chain), Err(ConstructionError::SelfJunction { junction: 1 }));
}

#[test]
fn positions_are_those_of_the_last_segment_of_each_identifier() {
    let neuron = Neuron { segments: vec![seg(4, 1, -1), seg(9, 2, 4), seg(4, 2, 9)] };
    let positions = segment_positions(&neuron);
    assert_eq!(positions.len(), 2);
    assert_eq!(positions.get(&4), Some(&2));
    assert_eq!(positions.get(&9), Some(&1));
    assert_eq!(positions.get(&-1), None);
}

#[test]
fn membranes_are_found_by_type_counting_from_one() {
    assert_eq!(membrane_index(&seg(1, 1, -1), 3), Some(0));
    assert_eq!(membrane_index(&seg(1, 3, -1), 3), Some(2));
    assert_eq!(membrane_index(&seg(1, 4, -1), 3), None);
    assert_eq!(membrane_index(&seg(1, 0, -1), 3), None);
    assert_eq!(membrane_index(&seg(1, 1, -1), 0), None);
    assert_eq!(membrane_index(&seg(1, usize::MAX, -1), usize::MAX), Some(usize::MAX - 1));
}

#[test]
fn every_segment_gets_its_membrane() {
    let neuron = Neuron { segments: vec![seg(1, 1, -1), seg(2, 3, 1), seg(3, 2, 2)] };
    assert_eq!(membrane_indices(&neuron, 3), Ok(vec![0, 2, 1]));
    assert_eq!(membrane_indices(&Neuron { segments: vec![] }, 0), Ok(vec![]));
}

#[test]
fn a_type_without_a_membrane_is_refused() {
    let neuron = Neuron { segments: vec![seg(1, 1, -1), seg(2, 3, 1), seg(3, 0, 2)] };
    assert_eq!(
        membrane_indices(&neuron, 2),
        Err(ConstructionError::MissingMembrane { segment: 1 })
    );
    assert_eq!(
        membrane_indices(&neuron, 3),
        Err(ConstructionError::MissingMembrane { segment: 2 })
    );
}

#[test]
fn each_segment_is_wired_to_its_parent() {
    let neuron = Neuron {
        segments: vec![seg(10, 1, -1), seg(30, 2, 20), seg(20, 2, 10), seg(40, 2, 20)],
    };
    assert_eq!(junctions(&neuron), Ok(vec![junction(2, 1), junction(0, 2), junction(2, 3)]));
    assert_eq!(junctions(&Neuron { segments: vec![] }), Ok(vec![]));
}

#[test]
fn only_the_last_segment_of_an_identifier_is_wired() {
    let neuron = Neuron { segments: vec![seg(1, 1, -1), seg(2, 2, 77), seg(2, 2, 1), seg(3, 2, 2)] };
    assert_eq!(junctions(&neuron), Ok(vec![junction(0, 2), junction(2, 3)]));
}

#[test]
fn a_root_hangs_on_the_segment_that_carries_minus_one() {
    let neuron = Neuron { segments: vec![seg(-1, 1, -5), seg(-5, 1, -1)] };
    assert_eq!(junctions(&neuron), Ok(vec![junction(1, 0), junction(0, 1)]));
}

#[test]
fn a_missing_parent_is_refused() {
    let neuron = Neuron { segments: vec![seg(1, 1, -1), seg(2, 2, 1), seg(3, 2, 8), seg(4, 2, 9)] };
    assert_eq!(junctions(&neuron), Err(ConstructionError::DanglingParent { segment: 2 }));
}

#[test]
fn a_segment_that_is_its_own_parent_is_refused() {
    let neuron = Neuron { segments: vec![seg(1, 1, -1), seg(2, 2, 2)] };
    assert_eq!(junctions(&neuron), Err(ConstructionError::SelfParent { segment: 1 }));
}

#[test]
fn derived_junctions_pass_the_check() {
    let neuron = Neuron {
        segments: (1..=30).map(|id| seg(id, 2, if id == 1 { -1 } else { id / 2 })).collect(),
    };
    let wired = junctions(&neuron).expect("every parent is listed");
    assert_eq!(wired.len(), 29);
    assert_eq!(check_junctions(neuron.segments.len(), &wired), Ok(()));
}

#[test]
fn a_pruned_neuron_can_be_wired() {
    let neuron = Neuron {
        segments: (1..=45).map(|id| seg(id, 2, if id == 1 { -1 } else { id - 1 })).collect(),
    };
    let simple = simplify(neuron);
    let wired = junctions(&simple).expect("pruning leaves no parent missing");
    assert_eq!(
        wired,
        vec![junction(0, 1), junction(1, 2), junction(2, 3), junction(3, 4), junction(4, 5)]
    );
}

#[test]
fn a_synapse_between_segments_of_the_scene_passes() {
    let counts = vec![3, 1];
    let synapse = Synapse { pre_neuron: 0, pre_segment: 2, post_neuron: 1, post_segment: 0 };
    assert_eq!(check_synapse(&counts, &synapse), Ok(()));
    let within = Synapse { pre_neuron: 0, pre_segment: 0, post_neuron: 0, post_segment: 1 };
    assert_eq!(check_synapse(&counts, &within), Ok(()));
}

#[test]
fn a_synapse_to_a_missing_segment_is_refused() {
    let counts = vec![3, 1];
    let segment = Synapse { pre_neuron: 0, pre_segment: 3, post_neuron: 1, post_segment: 0 };
    assert_eq!(check_synapse(&counts, &segment), Err(ConstructionError::DanglingSynapse));
    let neuron = Synapse { pre_neuron: 0, pre_segment: 0, post_neuron: 2, post_segment: 0 };
    assert_eq!(check_synapse(&counts, &neuron), Err(ConstructionError::DanglingSynapse));
    let both = Synapse { pre_neuron: 5, pre_segment: 5, post_neuron: 5, post_segment: 5 };
    assert_eq!(check_synapse(&counts, &both), Err(ConstructionError::DanglingSynapse));
    assert_eq!(check_synapse(&vec![], &both), Err(ConstructionError::DanglingSynapse));
}

#[test]
fn a_synapse_of_a_segment_with_itself_is_refused() {
    let counts = vec![3, 1];
    let synapse = Synapse { pre_neuron: 0, pre_segment: 1, post_neuron: 0, post_segment: 1 };
    assert_eq!(check_synapse(&counts, &synapse), Err(ConstructionError::SelfSynapse));
}
