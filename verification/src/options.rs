//! The options that choose what of a result is shown.
use vstd::prelude::*;

verus! {

/// Output format.
#[derive(Debug, Clone, PartialEq, Eq, Hash)]
pub enum Format {
    /// Tabular format.
    Tabular,
    /// JSON format.
    Json,
}

/// Output options.
#[derive(Debug, Clone, PartialEq, Eq, Hash)]
pub struct Options {
    /// Output format.
    pub format: Format,
    /// Show the values in binary.
    pub binary: bool,
    /// Show the values in hexadecimal.
    pub hexadecimal: bool,
    /// Show the values as integers.
    pub integer: bool,
    /// Show the state vector. Ignored if shots is set.
    pub statevector: bool,
    /// Show the probabilities. Ignored if shots is set.
    pub probabilities: bool,
    /// Show the times measured for parsing and simulating.
    pub times: bool,
    /// The number of shots.
    pub shots: Option<usize>,
    /// What of the outcomes of the shots is returned.
    pub mode: String,
}

impl Options {
    /// Whether the values are shown as integers: as asked where they are
    /// shown in binary or in hexadecimal too, and always where they would
    /// not be shown at all else.
    pub open spec fn spec_shows_integer(&self) -> bool {
        if self.binary || self.hexadecimal {
            self.integer
        } else {
            true
        }
    }

    /// Whether the values are shown as integers.
    #[verifier::when_used_as_spec(spec_shows_integer)]
    pub fn shows_integer(&self) -> (r: bool)
        ensures
            r == self.spec_shows_integer(),
    {
        if self.binary || self.hexadecimal {
            self.integer
        } else {
            true
        }
    }

    /// Whether the state of the simulation is shown: where the state vector
    /// or the probabilities are asked for and the simulation ran once.
    pub open spec fn spec_shows_state(&self) -> bool {
        (self.statevector || self.probabilities) && self.shots is None
    }

    /// Whether the state of the simulation is shown.
    #[verifier::when_used_as_spec(spec_shows_state)]
    pub fn shows_state(&self) -> (r: bool)
        ensures
            r == self.spec_shows_state(),
    {
        (self.statevector || self.probabilities) && self.shots.is_none()
    }
}

impl Default for Options {
    /// The options in force where none is given: tabular output with every
    /// representation of the values, the state vector and the probabilities,
    /// without times, a single run, all outcomes.
    fn default() -> (r: Self)
        ensures
            r.format == Format::Tabular,
            r.binary,
            r.hexadecimal,
            r.integer,
            r.statevector,
            r.probabilities,
            !r.times,
            r.shots == None::<usize>,
            r.mode@ == "aggregation"@,
    {
        Options {
            format: Format::Tabular,
            binary: true,
            hexadecimal: true,
            integer: true,
            statevector: true,
            probabilities: true,
            times: false,
            shots: None,
            mode: String::from_str("aggregation"),
        }
    }
}

} // verus!
