//! The result of a run, from parsing to simulating.
use crate::complex::Complex;
use crate::computation::Computation;
use crate::histogram::{Histogram, Memory, Stats};
use crate::statevector::{chances_of, StateVector};
use vstd::prelude::*;

verus! {

/// The milliseconds spent in parsing a program and in simulating it.
#[derive(Debug, Clone, PartialEq, Eq, Hash)]
pub struct ExecutionTimes {
    parsing_time: u128,
    simulation_time: u128,
}

impl ExecutionTimes {
    /// The time spent in parsing.
    pub closed spec fn spec_parsing_time(&self) -> u128 {
        self.parsing_time
    }

    /// The time spent in simulating.
    pub closed spec fn spec_simulation_time(&self) -> u128 {
        self.simulation_time
    }

    /// The times with the given parts.
    pub closed spec fn spec_new(parsing_time: u128, simulation_time: u128) -> Self {
        ExecutionTimes { parsing_time, simulation_time }
    }

    /// The times with given parts have these parts.
    pub proof fn lemma_spec_new(parsing_time: u128, simulation_time: u128)
        ensures
            Self::spec_new(parsing_time, simulation_time).spec_parsing_time() == parsing_time,
            Self::spec_new(parsing_time, simulation_time).spec_simulation_time()
                == simulation_time,
    {
    }

    /// Create new times. Both are in milliseconds.
    #[verifier::when_used_as_spec(spec_new)]
    pub fn new(parsing_time: u128, simulation_time: u128) -> (r: Self)
        ensures
            r == Self::spec_new(parsing_time, simulation_time),
            r.spec_parsing_time() == parsing_time,
            r.spec_simulation_time() == simulation_time,
    {
        ExecutionTimes { parsing_time, simulation_time }
    }

    /// Return the time spent in simulating the program.
    #[verifier::when_used_as_spec(spec_simulation_time)]
    pub fn simulation_time(&self) -> (r: u128)
        ensures
            r == self.spec_simulation_time(),
    {
        self.simulation_time
    }

    /// Return the time spent in parsing the program.
    #[verifier::when_used_as_spec(spec_parsing_time)]
    pub fn parsing_time(&self) -> (r: u128)
        ensures
            r == self.spec_parsing_time(),
    {
        self.parsing_time
    }
}

impl From<(u128, u128)> for ExecutionTimes {
    /// The times from the pair (parsing, simulating).
    fn from(pair: (u128, u128)) -> (r: Self) {
        ExecutionTimes::new(pair.0, pair.1)
    }
}

impl vstd::std_specs::convert::FromSpecImpl<(u128, u128)> for ExecutionTimes {
    open spec fn obeys_from_spec() -> bool {
        true
    }

    open spec fn from_spec(pair: (u128, u128)) -> Self {
        ExecutionTimes::spec_new(pair.0, pair.1)
    }
}

impl<'a> From<&'a [u128; 2]> for ExecutionTimes {
    /// The times from the array (parsing, simulating).
    fn from(pair: &'a [u128; 2]) -> (r: Self) {
        ExecutionTimes::new(pair[0], pair[1])
    }
}

impl<'a> vstd::std_specs::convert::FromSpecImpl<&'a [u128; 2]> for ExecutionTimes {
    open spec fn obeys_from_spec() -> bool {
        true
    }

    open spec fn from_spec(pair: &'a [u128; 2]) -> Self {
        ExecutionTimes::spec_new(pair@[0], pair@[1])
    }
}

/// A complete execution of a program: what a `Computation` holds, and the
/// times spent in parsing and in simulating. The probabilities are never
/// handed in: they are derived from the state vector where the execution
/// or the computation behind it is made.
#[derive(Debug, PartialEq)]
pub struct Execution {
    statevector: StateVector,
    probabilities: Vec<u64>,
    memory: Memory,
    histogram: Option<Histogram>,
    times: ExecutionTimes,
    stats: Option<Stats>,
}

impl Clone for Execution {
    /// An execution with the same amplitudes and as many probabilities.
    fn clone(&self) -> (r: Self)
        ensures
            r.spec_statevector()@ == self.spec_statevector()@,
            r.spec_probabilities()@.len() == self.spec_probabilities()@.len(),
    {
        proof {
            use_type_invariant(self);
        }
        Execution {
            statevector: self.statevector.clone(),
            probabilities: self.probabilities.clone(),
            memory: self.memory.clone(),
            histogram: self.histogram.clone(),
            times: self.times.clone(),
            stats: self.stats.clone(),
        }
    }
}

impl Execution {
    /// There is one probability for each amplitude.
    #[verifier::type_invariant]
    closed spec fn well_formed(&self) -> bool {
        self.probabilities@.len() == self.statevector@.len()
    }

    /// The execution that a computation and the times make.
    pub closed spec fn spec_of(computation: Computation, times: ExecutionTimes) -> Self {
        Execution {
            statevector: computation.spec_statevector(),
            probabilities: computation.spec_probabilities(),
            memory: computation.spec_memory(),
            histogram: computation.spec_histogram(),
            times,
            stats: computation.spec_stats(),
        }
    }

    /// The state vector of the quantum system.
    pub closed spec fn spec_statevector(&self) -> StateVector {
        self.statevector
    }

    /// The probabilities of the basis states, as bit patterns.
    pub closed spec fn spec_probabilities(&self) -> Vec<u64> {
        self.probabilities
    }

    /// The classical registers with their outcomes.
    pub closed spec fn spec_memory(&self) -> Memory {
        self.memory
    }

    /// The histogram, after several shots.
    pub closed spec fn spec_histogram(&self) -> Option<Histogram> {
        self.histogram
    }

    /// The times spent in parsing and in simulating.
    pub closed spec fn spec_times(&self) -> ExecutionTimes {
        self.times
    }

    /// The counts of the joint outcomes, after several shots.
    pub closed spec fn spec_stats(&self) -> Option<Stats> {
        self.stats
    }

    /// The execution that a computation and the times make has the parts of
    /// the computation, its probabilities among them, and the times.
    pub proof fn lemma_spec_of(computation: Computation, times: ExecutionTimes)
        ensures
            ({
                let r = Self::spec_of(computation, times);
                &&& r.spec_statevector() == computation.spec_statevector()
                &&& r.spec_probabilities() == computation.spec_probabilities()
                &&& r.spec_memory() == computation.spec_memory()
                &&& r.spec_histogram() == computation.spec_histogram()
                &&& r.spec_times() == times
                &&& r.spec_stats() == computation.spec_stats()
            }),
    {
    }

    /// Create a new `Execution` instance. The probabilities are what
    /// `norm_sqr` makes of the amplitudes of the state vector.
    pub fn new<N: Fn(Complex) -> u64>(
        statevector: StateVector,
        memory: Memory,
        histogram: Option<Histogram>,
        times: ExecutionTimes,
        stats: Option<Stats>,
        norm_sqr: N,
    ) -> (r: Self)
        requires
            forall|amplitude: Complex| call_requires(norm_sqr, (amplitude,)),
        ensures
            r.spec_statevector() == statevector,
            chances_of(norm_sqr, statevector@, r.spec_probabilities()@),
            r.spec_memory() == memory,
            r.spec_histogram() == histogram,
            r.spec_times() == times,
            r.spec_stats() == stats,
    {
        let probabilities: Vec<u64> = statevector.probabilities(norm_sqr);
        Execution { statevector, probabilities, memory, histogram, times, stats }
    }

    /// Return the state vector of the quantum system.
    pub fn statevector(&self) -> (r: &StateVector)
        ensures
            *r == self.spec_statevector(),
    {
        &self.statevector
    }

    /// Return the probabilities of the basis states: one for each
    /// amplitude of the state vector.
    pub fn probabilities(&self) -> (r: &Vec<u64>)
        ensures
            *r == self.spec_probabilities(),
            r@.len() == self.spec_statevector()@.len(),
    {
        proof {
            use_type_invariant(self);
        }
        &self.probabilities
    }

    /// Return the classical registers with their outcomes.
    pub fn memory(&self) -> (r: &Memory)
        ensures
            *r == self.spec_memory(),
    {
        &self.memory
    }

    /// Return the histogram, where the simulation ran several shots.
    pub fn histogram(&self) -> (r: &Option<Histogram>)
        ensures
            *r == self.spec_histogram(),
    {
        &self.histogram
    }

    /// Return the times spent in parsing and in simulating.
    pub fn times(&self) -> (r: &ExecutionTimes)
        ensures
            *r == self.spec_times(),
    {
        &self.times
    }

    /// Return the counts of the joint outcomes, where the simulation ran
    /// several shots.
    pub fn stats(&self) -> (r: &Option<Stats>)
        ensures
            *r == self.spec_stats(),
    {
        &self.stats
    }
}

impl From<(Computation, u128, u128)> for Execution {
    /// The execution that a computation and the times spent in parsing and
    /// in simulating make. The probabilities are those of the computation.
    fn from(value: (Computation, u128, u128)) -> (r: Self) {
        let (computation, parsing_time, simulation_time) = value;
        let parts = computation.into_parts();
        Execution {
            statevector: parts.0,
            probabilities: parts.1,
            memory: parts.2,
            histogram: parts.3,
            times: ExecutionTimes::new(parsing_time, simulation_time),
            stats: parts.4,
        }
    }
}

impl vstd::std_specs::convert::FromSpecImpl<(Computation, u128, u128)> for Execution {
    open spec fn obeys_from_spec() -> bool {
        true
    }

    open spec fn from_spec(value: (Computation, u128, u128)) -> Self {
        Execution::spec_of(value.0, ExecutionTimes::spec_new(value.1, value.2))
    }
}

} // verus!
