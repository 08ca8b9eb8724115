//! The transmitters that a chemical synapse releases and senses.

use std::str::FromStr;
use vstd::prelude::*;
use vstd::string::StringExecFns;

verus! {

/// A transmitter species.
#[derive(Clone, Copy, Debug, PartialEq, Eq, Structural)]
pub enum Transmitter {
    Glutamate,
    Gaba,
}

/// What `from_str` answers to a name that belongs to no transmitter.
pub open spec fn unknown_transmitter(name: Seq<char>) -> Seq<char> {
    "Unknown transmitter "@ + name
}

impl Transmitter {
    /// The name under which the interchange schema knows the transmitter.
    pub open spec fn name(self) -> Seq<char> {
        match self {
            Transmitter::Glutamate => "glutamate"@,
            Transmitter::Gaba => "gaba"@,
        }
    }

    /// The transmitter that `name` names, or the complaint about `name`.
    pub open spec fn named(name: Seq<char>) -> Result<Transmitter, Seq<char>> {
        if name == "glutamate"@ {
            Ok(Transmitter::Glutamate)
        } else if name == "gaba"@ {
            Ok(Transmitter::Gaba)
        } else {
            Err(unknown_transmitter(name))
        }
    }

    /// The transmitter's name: `glutamate` or `gaba`.
    pub fn to_string(&self) -> (name: String)
        ensures
            name@ == self.name(),
    {
        match self {
            Transmitter::Glutamate => "glutamate".to_owned(),
            Transmitter::Gaba => "gaba".to_owned(),
        }
    }

    /// Reads a transmitter's name. Only `glutamate` and `gaba`, written
    /// exactly so, name one; any other text is refused with a message that
    /// repeats it.
    pub fn from_str(s: &str) -> (parsed: Result<Transmitter, String>)
        ensures
            match parsed {
                Ok(transmitter) => Self::named(s@) == Ok::<Transmitter, Seq<char>>(transmitter),
                Err(message) => Self::named(s@) == Err::<Transmitter, Seq<char>>(message@),
            },
    {
        let given: String = s.to_owned();
        if given == "glutamate".to_owned() {
            Ok(Transmitter::Glutamate)
        } else if given == "gaba".to_owned() {
            Ok(Transmitter::Gaba)
        } else {
            Err("Unknown transmitter ".to_owned().concat(s))
        }
    }
}

impl FromStr for Transmitter {
    type Err = String;

    fn from_str(s: &str) -> (parsed: Result<Self, String>)
        ensures
            match parsed {
                Ok(transmitter) => Transmitter::named(s@) == Ok::<Transmitter, Seq<char>>(
                    transmitter,
                ),
                Err(message) => Transmitter::named(s@) == Err::<Transmitter, Seq<char>>(
                    message@,
                ),
            },
    {
        Transmitter::from_str(s)
    }
}

/// Every transmitter is read back from its own name.
pub proof fn lemma_name_round_trip(transmitter: Transmitter)
    ensures
        Transmitter::named(transmitter.name()) == Ok::<Transmitter, Seq<char>>(transmitter),
{
    reveal_strlit("glutamate");
    reveal_strlit("gaba");
    if transmitter == Transmitter::Gaba {
        assert("gaba"@.len() != "glutamate"@.len());
    }
}

} // verus!
