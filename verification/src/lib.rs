//! The core of a state-vector simulator for quantum circuits: the amplitude
//! vector and the gates that work on it, the index pairings behind those
//! gates, the measurement, and the aggregation of classical outcomes over
//! repeated shots.
//!
//! Amplitudes are carried as the bit patterns of their double-precision
//! parts. The arithmetic on them is supplied by the caller, as functions on
//! bit patterns; this crate decides which amplitudes an operation reads and
//! writes, and proves that it touches no other.
//!
//! - [`bits`] and [`rows`]: single bits of a basis index, and the pairs of
//!   indices that a gate works on.
//! - [`cache`]: pairings and rotation matrices, kept for the next time.
//! - [`complex`] and [`ieee`]: amplitudes as bit patterns, and the order of
//!   the numbers behind the patterns.
//! - [`statevector`]: the state vector, its gates and its measurement.
//! - [`binary`], [`histogram`] and [`content`]: the outcomes of repeated
//!   shots, as they stand and read by name.
//! - [`computation`], [`execution`] and [`options`]: the result of a run
//!   and what of it is shown.
pub mod binary;
pub mod bits;
pub mod cache;
pub mod complex;
pub mod computation;
pub mod content;
pub mod execution;
pub mod histogram;
pub mod ieee;
pub mod options;
pub mod rows;
pub mod statevector;

pub use crate::computation::Computation;
pub use crate::execution::{Execution, ExecutionTimes};
pub use crate::histogram::Histogram;
