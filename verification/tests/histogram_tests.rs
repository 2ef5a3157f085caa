use qasmsim::binary::{binary_length, push_binary, push_padded_binary};
use qasmsim::histogram::{
    bump_outcome, find_register, joint_outcome, least_seen, memory_histogram, most_seen,
    record_value, search, sort_by_order, tally_value, Histogram, HistogramBuilder, Memory, Stats,
};

#[test]
fn test_histogram_builder_empty_histogram() {
    let builder = HistogramBuilder::new();
    let histogram = builder.histogram();
    assert_eq!(histogram, Histogram::new());
}

#[test]
fn test_histogram_builder_one_update() {
    let mut builder = HistogramBuilder::new();
    builder.update(&vec![("a".into(), (1, 1, 1))]);
    let histogram = builder.histogram();
    let expected: Histogram = vec![("a".into(), (vec![(1, 1)], 1))];
    assert_eq!(histogram, expected);
}

#[test]
fn test_histogram_builder_couple_of_updates() {
    let mut builder = HistogramBuilder::new();
    builder.update(&vec![("a".into(), (1, 1, 1))]);
    builder.update(&vec![("a".into(), (1, 1, 1))]);
    let histogram = builder.histogram();
    let expected: Histogram = vec![("a".into(), (vec![(1, 2)], 1))];
    assert_eq!(histogram, expected);
}

#[test]
fn test_histogram_builder_couple_of_registers() {
    let mut builder = HistogramBuilder::new();
    builder.update(&vec![("a".into(), (1, 1, 1))]);
    builder.update(&vec![("b".into(), (1, 1, 2))]);
    let histogram = builder.histogram();
    let expected: Histogram = vec![
        ("a".into(), (vec![(1, 1)], 1)),
        ("b".into(), (vec![(1, 1)], 1)),
    ];
    assert_eq!(histogram, expected);
}

#[test]
fn test_histogram_builder_different_values() {
    let mut builder = HistogramBuilder::new();
    builder.update(&vec![("a".into(), (5, 3, 1))]);
    builder.update(&vec![("b".into(), (4, 3, 2))]);
    builder.update(&vec![("a".into(), (3, 3, 1))]);
    builder.update(&vec![("b".into(), (2, 3, 2))]);
    let histogram = builder.histogram();
    let expected: Histogram = vec![
        ("a".into(), (vec![(3, 1), (5, 1)], 3)),
        ("b".into(), (vec![(2, 1), (4, 1)], 3)),
    ];
    assert_eq!(histogram, expected);
}

#[test]
fn test_histogram_builder_different_repeated_values() {
    let mut builder = HistogramBuilder::new();
    builder.update(&vec![("a".into(), (5, 3, 1))]);
    builder.update(&vec![("b".into(), (4, 3, 2))]);
    builder.update(&vec![("a".into(), (5, 3, 1))]);
    builder.update(&vec![("b".into(), (2, 3, 2))]);
    let histogram = builder.histogram();
    let expected: Histogram = vec![
        ("a".into(), (vec![(5, 2)], 3)),
        ("b".into(), (vec![(2, 1), (4, 1)], 3)),
    ];
    assert_eq!(histogram, expected);
}

#[test]
fn test_histogram_builder_stats_different_repeated_values() {
    let mut builder = HistogramBuilder::new();
    builder.update(&vec![("a".into(), (5, 3, 1))]);
    builder.update(&vec![("b".into(), (4, 3, 2))]);
    builder.update(&vec![("a".into(), (5, 3, 1))]);
    builder.update(&vec![("b".into(), (2, 3, 2))]);
    let stats = builder.stats();
    let expected: Stats = vec![
        ("101".to_string(), 2),
        ("100".to_string(), 1),
        ("010".to_string(), 1),
    ];
    assert_eq!(stats, expected);
}

#[test]
fn joint_outcome_puts_the_register_declared_last_first() {
    let mut builder = HistogramBuilder::new();
    builder.update(&vec![("a".into(), (1, 2, 1)), ("b".into(), (2, 3, 2))]);
    builder.update(&vec![("b".into(), (2, 3, 2)), ("a".into(), (1, 2, 1))]);
    builder.update(&vec![("a".into(), (3, 2, 1)), ("b".into(), (0, 3, 2))]);
    let expected: Stats = vec![("01001".to_string(), 2), ("00011".to_string(), 1)];
    assert_eq!(builder.clone().stats(), expected);
    let expected: Histogram = vec![
        ("a".into(), (vec![(1, 2), (3, 1)], 2)),
        ("b".into(), (vec![(0, 1), (2, 2)], 3)),
    ];
    assert_eq!(builder.histogram(), expected);
}

#[test]
fn joint_outcome_follows_the_format_of_the_standard_library() {
    let memory: Memory = vec![
        ("c".into(), (0, 4, 56)),
        ("d".into(), (5, 2, 69)),
        ("e".into(), (1, 0, 82)),
        ("f".into(), (u64::MAX, 7, 12)),
        ("g".into(), (6, 3, 69)),
    ];
    let expected = [
        format!("{:0width$b}", 1, width = 0),
        format!("{:0width$b}", 5, width = 2),
        format!("{:0width$b}", 6, width = 3),
        format!("{:0width$b}", 0, width = 4),
        format!("{:0width$b}", u64::MAX, width = 7),
    ]
    .concat();
    assert_eq!(expected, format!("11011100000{}", "1".repeat(64)));
    assert_eq!(joint_outcome(&memory), expected);
    assert_eq!(joint_outcome(&Vec::new()), "");
    let sorted = sort_by_order(&memory);
    assert_eq!(
        sorted,
        vec![(1, 0, 82), (5, 2, 69), (6, 3, 69), (0, 4, 56), (u64::MAX, 7, 12)]
    );
}

#[test]
fn padded_binary_is_at_least_as_wide_as_asked() {
    let values = [0, 1, 2, 3, 5, 8, 255, 256, 1 << 40, u64::MAX - 1, u64::MAX];
    for value in values.iter() {
        for width in 0..70 {
            let mut out = String::from("x");
            push_padded_binary(&mut out, *value, width);
            assert_eq!(out, format!("x{:0width$b}", value, width = width));
        }
        let mut out = String::new();
        push_binary(&mut out, *value);
        assert_eq!(out, format!("{:b}", value));
        assert_eq!(binary_length(*value), format!("{:b}", value).len());
    }
}

#[test]
fn tally_keeps_the_values_in_order() {
    let mut values = Vec::new();
    for value in [7, 3, 9, 3, 1, 7, 7, 0, 9] {
        tally_value(&mut values, value);
    }
    assert_eq!(values, vec![(0, 1), (1, 1), (3, 2), (7, 3), (9, 2)]);
    assert_eq!(search(&values, 0), Ok(0));
    assert_eq!(search(&values, 7), Ok(3));
    assert_eq!(search(&values, 9), Ok(4));
    assert_eq!(search(&values, 2), Err(2));
    assert_eq!(search(&values, 8), Err(4));
    assert_eq!(search(&values, 10), Err(5));
    assert_eq!(search(&Vec::new(), 10), Err(0));
}

#[test]
fn a_register_keeps_the_width_it_was_first_seen_with() {
    let mut histogram = Histogram::new();
    record_value(&mut histogram, &"a".to_string(), 1, 2);
    record_value(&mut histogram, &"b".to_string(), 1, 3);
    record_value(&mut histogram, &"a".to_string(), 0, 5);
    let expected: Histogram = vec![
        ("a".into(), (vec![(0, 1), (1, 1)], 2)),
        ("b".into(), (vec![(1, 1)], 3)),
    ];
    assert_eq!(histogram, expected);
    assert_eq!(find_register(&histogram, &"a".to_string()), 0);
    assert_eq!(find_register(&histogram, &"b".to_string()), 1);
    assert_eq!(find_register(&histogram, &"c".to_string()), 2);
}

#[test]
fn bump_counts_the_joint_outcomes() {
    let mut stats = Stats::new();
    bump_outcome(&mut stats, "01".to_string());
    bump_outcome(&mut stats, "10".to_string());
    bump_outcome(&mut stats, "01".to_string());
    bump_outcome(&mut stats, "".to_string());
    let expected: Stats = vec![
        ("01".to_string(), 2),
        ("10".to_string(), 1),
        ("".to_string(), 1),
    ];
    assert_eq!(stats, expected);
}

#[test]
fn an_empty_memory_counts_as_the_empty_outcome() {
    let mut builder = HistogramBuilder::new();
    builder.update(&Vec::new());
    builder.update(&Vec::new());
    assert_eq!(builder.clone().histogram(), Histogram::new());
    let expected: Stats = vec![("".to_string(), 2)];
    assert_eq!(builder.stats(), expected);
    assert_eq!(HistogramBuilder::new(), HistogramBuilder::default());
}

#[test]
fn a_single_shot_counts_every_register_once() {
    let memory: Memory = vec![("c".into(), (3, 2, 56)), ("d".into(), (0, 4, 69))];
    let expected: Histogram = vec![
        ("c".into(), (vec![(3, 1)], 2)),
        ("d".into(), (vec![(0, 1)], 4)),
    ];
    assert_eq!(memory_histogram(&memory), expected);
    assert_eq!(memory_histogram(&Memory::new()), Histogram::new());
}

#[test]
fn most_and_least_seen_are_found_like_maximum_and_minimum() {
    let stats: Stats = vec![
        ("00".into(), 3),
        ("01".into(), 7),
        ("10".into(), 1),
        ("11".into(), 7),
        ("20".into(), 1),
    ];
    assert_eq!(most_seen(&stats), Some(3));
    assert_eq!(least_seen(&stats), Some(2));
    assert_eq!(
        most_seen(&stats).map(|place| &stats[place]),
        stats.iter().max_by_key(|(_, count)| *count)
    );
    assert_eq!(
        least_seen(&stats).map(|place| &stats[place]),
        stats.iter().min_by_key(|(_, count)| *count)
    );
    assert_eq!(most_seen(&Stats::new()), None);
    assert_eq!(least_seen(&Stats::new()), None);
    let one: Stats = vec![("0".into(), 5)];
    assert_eq!(most_seen(&one), Some(0));
    assert_eq!(least_seen(&one), Some(0));
}

#[test]
fn shots_in_either_order_are_counted_the_same() {
    let first: Memory = vec![("a".into(), (1, 2, 1)), ("b".into(), (6, 3, 2))];
    let second: Memory = vec![("c".into(), (0, 1, 3)), ("a".into(), (3, 2, 1))];
    let mut one = HistogramBuilder::new();
    one.update(&first);
    one.update(&second);
    one.update(&first);
    let mut other = HistogramBuilder::new();
    other.update(&second);
    other.update(&first);
    other.update(&first);
    assert_ne!(one, other);
    let mut histogram = one.clone().histogram();
    let mut reordered = other.clone().histogram();
    assert_ne!(histogram, reordered);
    histogram.sort();
    reordered.sort();
    assert_eq!(histogram, reordered);
    let expected: Histogram = vec![
        ("a".into(), (vec![(1, 2), (3, 1)], 2)),
        ("b".into(), (vec![(6, 2)], 3)),
        ("c".into(), (vec![(0, 1)], 1)),
    ];
    assert_eq!(histogram, expected);
    let mut stats = one.stats();
    let mut restated = other.stats();
    stats.sort();
    restated.sort();
    assert_eq!(stats, restated);
    let expected: Stats = vec![("011".to_string(), 1), ("11001".to_string(), 2)];
    assert_eq!(stats, expected);
}
