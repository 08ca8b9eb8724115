use reuron::neuron::synapse::Transmitter;
use std::str::FromStr;

#[test]
fn transmitters_are_named_in_lower_case() {
    assert_eq!(Transmitter::Glutamate.to_string(), "glutamate");
    assert_eq!(Transmitter::Gaba.to_string(), "gaba");
}

#[test]
fn transmitters_are_read_from_their_names() {
    assert_eq!(Transmitter::from_str("glutamate"), Ok(Transmitter::Glutamate));
    assert_eq!(Transmitter::from_str("gaba"), Ok(Transmitter::Gaba));
}

#[test]
fn other_names_are_refused_with_the_name() {
    assert_eq!(Transmitter::from_str("dopamine"), Err("Unknown transmitter dopamine".to_string()));
    assert_eq!(Transmitter::from_str("GABA"), Err("Unknown transmitter GABA".to_string()));
    assert_eq!(Transmitter::from_str("gaba "), Err("Unknown transmitter gaba ".to_string()));
    assert_eq!(Transmitter::from_str(""), Err("Unknown transmitter ".to_string()));
}

#[test]
fn names_read_back_as_the_transmitter() {
    for transmitter in [Transmitter::Glutamate, Transmitter::Gaba] {
        assert_eq!(Transmitter::from_str(&transmitter.to_string()), Ok(transmitter));
    }
}

#[test]
fn transmitters_parse_as_any_value_does() {
    assert_eq!("gaba".parse::<Transmitter>(), Ok(Transmitter::Gaba));
    assert_eq!(<Transmitter as FromStr>::from_str("glutamate"), Ok(Transmitter::Glutamate));
    assert_eq!("serotonin".parse::<Transmitter>(), Err("Unknown transmitter serotonin".to_string()));
}
