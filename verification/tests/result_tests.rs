use qasmsim::complex::Complex;
use qasmsim::computation::Computation;
use qasmsim::execution::{Execution, ExecutionTimes};
use qasmsim::histogram::{Histogram, Memory, Stats};
use qasmsim::options::{Format, Options};
use qasmsim::statevector::StateVector;

fn norm_sqr(amplitude: Complex) -> u64 {
    let re = f64::from_bits(amplitude.re);
    let im = f64::from_bits(amplitude.im);
    (re * re + im * im).to_bits()
}

#[test]
fn execution_times_keep_what_they_are_given() {
    let times = ExecutionTimes::new(12, 345);
    assert_eq!(times.parsing_time(), 12);
    assert_eq!(times.simulation_time(), 345);
    assert_eq!(ExecutionTimes::from((12, 345)), times);
    assert_ne!(ExecutionTimes::from((345, 12)), times);
    assert_eq!(ExecutionTimes::from(&[12, 345]), times);
    assert_eq!(times.clone(), times);
}

#[test]
fn the_default_options_show_everything_but_the_times() {
    let options = Options::default();
    assert_eq!(options.format, Format::Tabular);
    assert!(options.binary);
    assert!(options.hexadecimal);
    assert!(options.integer);
    assert!(options.statevector);
    assert!(options.probabilities);
    assert!(!options.times);
    assert_eq!(options.shots, None);
    assert_eq!(options.mode, "aggregation");
}

#[test]
fn a_computation_derives_the_probabilities() {
    let half = Complex::new(0.5_f64.to_bits(), 0.5_f64.to_bits());
    let statevector = StateVector::from_complex_bases(vec![half, Complex::zero(), half, Complex::zero()]);
    let memory: Memory = vec![("c".into(), (2, 2, 56))];
    let histogram: Histogram = vec![("c".into(), (vec![(2, 1)], 2))];
    let stats: Stats = vec![("10".into(), 1)];
    let computation = Computation::new(
        memory.clone(),
        statevector.clone(),
        Some(histogram.clone()),
        Some(stats.clone()),
        norm_sqr,
    );
    assert_eq!(*computation.statevector(), statevector);
    assert_eq!(*computation.memory(), memory);
    assert_eq!(*computation.histogram(), Some(histogram.clone()));
    assert_eq!(*computation.stats(), Some(stats.clone()));
    let expected = vec![0.5_f64.to_bits(), 0, 0.5_f64.to_bits(), 0];
    assert_eq!(computation.probabilities(), &expected[..]);

    let execution = Execution::from((computation.clone(), 3, 4));
    assert_eq!(*execution.statevector(), statevector);
    assert_eq!(*execution.probabilities(), expected);
    assert_eq!(*execution.memory(), memory);
    assert_eq!(*execution.histogram(), Some(histogram.clone()));
    assert_eq!(*execution.stats(), Some(stats.clone()));
    assert_eq!(*execution.times(), ExecutionTimes::new(3, 4));
    assert_eq!(
        execution,
        Execution::new(
            statevector.clone(),
            memory.clone(),
            Some(histogram.clone()),
            ExecutionTimes::new(3, 4),
            Some(stats.clone()),
            norm_sqr
        )
    );
    assert_eq!(execution.clone(), execution);
}

#[test]
fn an_execution_derives_the_probabilities() {
    let one = Complex::new(1.0_f64.to_bits(), 0);
    let statevector = StateVector::from_complex_bases(vec![Complex::zero(), one]);
    let execution = Execution::new(
        statevector.clone(),
        Memory::new(),
        None,
        ExecutionTimes::new(1, 2),
        None,
        norm_sqr,
    );
    assert_eq!(*execution.statevector(), statevector);
    assert_eq!(*execution.probabilities(), vec![0, 1.0_f64.to_bits()]);
    assert_eq!(execution.probabilities().len(), execution.statevector().len());
    assert_eq!(*execution.memory(), Memory::new());
    assert_eq!(*execution.histogram(), None);
    assert_eq!(*execution.stats(), None);
    assert_eq!(*execution.times(), ExecutionTimes::new(1, 2));
    let doubled = Execution::new(
        statevector,
        Memory::new(),
        None,
        ExecutionTimes::new(1, 2),
        None,
        |amplitude: Complex| 2 * norm_sqr(amplitude),
    );
    assert_eq!(*doubled.probabilities(), vec![0, 2 * 1.0_f64.to_bits()]);
}

#[test]
fn integers_are_shown_where_nothing_else_is() {
    for binary in [false, true] {
        for hexadecimal in [false, true] {
            for integer in [false, true] {
                let options = Options {
                    binary,
                    hexadecimal,
                    integer,
                    ..Default::default()
                };
                assert_eq!(
                    options.shows_integer(),
                    integer || !(binary || hexadecimal)
                );
            }
        }
    }
}

#[test]
fn the_state_is_shown_after_a_single_run() {
    let mut options = Options::default();
    assert!(options.shows_state());
    options.shots = Some(10);
    assert!(!options.shows_state());
    options.shots = None;
    options.statevector = false;
    assert!(options.shows_state());
    options.probabilities = false;
    assert!(!options.shows_state());
}
