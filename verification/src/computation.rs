//! The result of a simulation.
use crate::complex::Complex;
use crate::histogram::{Histogram, Memory, Stats};
use crate::statevector::{chances_of, StateVector};
use vstd::prelude::*;

verus! {

/// The result of a simulation: the state vector the run ended in, the
/// probabilities that follow from it, the classical memory, and, after
/// several shots, the histogram and the counts of the joint outcomes. The
/// probabilities are never handed in: they are derived from the state
/// vector where the computation is made.
#[derive(Debug, PartialEq)]
pub struct Computation {
    statevector: StateVector,
    memory: Memory,
    probabilities: Vec<u64>,
    histogram: Option<Histogram>,
    stats: Option<Stats>,
}

impl Clone for Computation {
    /// A computation with the same amplitudes and as many probabilities.
    fn clone(&self) -> (r: Self)
        ensures
            r.spec_statevector()@ == self.spec_statevector()@,
            r.spec_probabilities()@.len() == self.spec_probabilities()@.len(),
    {
        proof {
            use_type_invariant(self);
        }
        Computation {
            statevector: self.statevector.clone(),
            memory: self.memory.clone(),
            probabilities: self.probabilities.clone(),
            histogram: self.histogram.clone(),
            stats: self.stats.clone(),
        }
    }
}

impl Computation {
    /// There is one probability for each amplitude.
    #[verifier::type_invariant]
    closed spec fn well_formed(&self) -> bool {
        self.probabilities@.len() == self.statevector@.len()
    }

    /// The state vector of the quantum system.
    pub closed spec fn spec_statevector(&self) -> StateVector {
        self.statevector
    }

    /// The classical registers with their outcomes.
    pub closed spec fn spec_memory(&self) -> Memory {
        self.memory
    }

    /// The probabilities of the basis states, as bit patterns.
    pub closed spec fn spec_probabilities(&self) -> Vec<u64> {
        self.probabilities
    }

    /// The histogram, after several shots.
    pub closed spec fn spec_histogram(&self) -> Option<Histogram> {
        self.histogram
    }

    /// The counts of the joint outcomes, after several shots.
    pub closed spec fn spec_stats(&self) -> Option<Stats> {
        self.stats
    }

    /// Create a new computation. The probabilities are what `norm_sqr`
    /// makes of the amplitudes of the state vector.
    pub fn new<N: Fn(Complex) -> u64>(
        memory: Memory,
        statevector: StateVector,
        histogram: Option<Histogram>,
        stats: Option<Stats>,
        norm_sqr: N,
    ) -> (r: Self)
        requires
            forall|amplitude: Complex| call_requires(norm_sqr, (amplitude,)),
        ensures
            r.spec_statevector() == statevector,
            r.spec_memory() == memory,
            r.spec_histogram() == histogram,
            r.spec_stats() == stats,
            chances_of(norm_sqr, statevector@, r.spec_probabilities()@),
    {
        Computation {
            probabilities: statevector.probabilities(norm_sqr),
            statevector,
            memory,
            histogram,
            stats,
        }
    }

    /// Return the state vector of the quantum system.
    pub fn statevector(&self) -> (r: &StateVector)
        ensures
            *r == self.spec_statevector(),
    {
        &self.statevector
    }

    /// Return the classical registers with their outcomes.
    pub fn memory(&self) -> (r: &Memory)
        ensures
            *r == self.spec_memory(),
    {
        &self.memory
    }

    /// Return the probabilities of the basis states: one for each
    /// amplitude of the state vector.
    pub fn probabilities(&self) -> (r: &[u64])
        ensures
            r@ == self.spec_probabilities()@,
            r@.len() == self.spec_statevector()@.len(),
    {
        proof {
            use_type_invariant(self);
        }
        self.probabilities.as_slice()
    }

    /// Return the histogram, where the simulation ran several shots.
    pub fn histogram(&self) -> (r: &Option<Histogram>)
        ensures
            *r == self.spec_histogram(),
    {
        &self.histogram
    }

    /// Return the counts of the joint outcomes, where the simulation ran
    /// several shots.
    pub fn stats(&self) -> (r: &Option<Stats>)
        ensures
            *r == self.spec_stats(),
    {
        &self.stats
    }

    /// Give up the parts: state vector, probabilities, memory, histogram
    /// and counts of the joint outcomes.
    pub fn into_parts(self) -> (r: (StateVector, Vec<u64>, Memory, Option<Histogram>, Option<Stats>))
        ensures
            r.0 == self.spec_statevector(),
            r.1 == self.spec_probabilities(),
            r.2 == self.spec_memory(),
            r.3 == self.spec_histogram(),
            r.4 == self.spec_stats(),
            r.1@.len() == r.0@.len(),
    {
        proof {
            use_type_invariant(&self);
        }
        (self.statevector, self.probabilities, self.memory, self.histogram, self.stats)
    }
}

} // verus!
