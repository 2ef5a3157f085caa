use qasmsim::bits::{check_bit, exp2};
use qasmsim::cache::RowCache;
use qasmsim::rows::{find_exchangeable_rows, find_target_rows};

#[test]
fn exp2_is_the_power_of_two() {
    assert_eq!(exp2(0), 1);
    assert_eq!(exp2(1), 2);
    assert_eq!(exp2(10), 1024);
    assert_eq!(exp2(31), 2147483648);
}

#[test]
fn check_bit_reads_one_bit() {
    assert_eq!(check_bit(0b1010, 0), 0);
    assert_eq!(check_bit(0b1010, 1), 1);
    assert_eq!(check_bit(0b1010, 2), 0);
    assert_eq!(check_bit(0b1010, 3), 1);
    assert_eq!(check_bit(0b1010, 4), 0);
    assert_eq!(check_bit(usize::MAX, 17), 1);
}

#[test]
fn target_rows_of_small_registers() {
    assert_eq!(find_target_rows(1, 0), vec![(0, 1)]);
    assert_eq!(find_target_rows(2, 0), vec![(0, 1), (2, 3)]);
    assert_eq!(find_target_rows(2, 1), vec![(0, 2), (1, 3)]);
    assert_eq!(
        find_target_rows(3, 1),
        vec![(0, 2), (1, 3), (4, 6), (5, 7)]
    );
    assert_eq!(
        find_target_rows(3, 2),
        vec![(0, 4), (1, 5), (2, 6), (3, 7)]
    );
}

#[test]
fn exchangeable_rows_of_small_registers() {
    assert_eq!(find_exchangeable_rows(2, 0, 1), vec![(1, 3)]);
    assert_eq!(find_exchangeable_rows(2, 1, 0), vec![(2, 3)]);
    assert_eq!(find_exchangeable_rows(3, 2, 0), vec![(4, 5), (6, 7)]);
    assert_eq!(find_exchangeable_rows(3, 0, 2), vec![(1, 5), (3, 7)]);
    assert_eq!(find_exchangeable_rows(3, 1, 2), vec![(2, 6), (3, 7)]);
    assert_eq!(
        find_exchangeable_rows(4, 3, 1),
        vec![(8, 10), (9, 11), (12, 14), (13, 15)]
    );
}

#[test]
fn every_index_stands_in_one_target_row() {
    for width in 1..7 {
        for t in 0..width {
            let rows = find_target_rows(width, t);
            assert_eq!(rows.len(), 1 << (width - 1));
            let mut seen = vec![false; 1 << width];
            for (index_0, index_1) in rows {
                assert_eq!(index_0 & (1 << t), 0);
                assert_eq!(index_1, index_0 | (1 << t));
                assert!(!seen[index_0] && !seen[index_1]);
                seen[index_0] = true;
                seen[index_1] = true;
            }
            assert!(seen.iter().all(|found| *found));
        }
    }
}

#[test]
fn every_index_under_control_stands_in_one_exchangeable_row() {
    for width in 2..7 {
        for c in 0..width {
            for t in 0..width {
                if c == t {
                    continue;
                }
                let rows = find_exchangeable_rows(width, c, t);
                assert_eq!(rows.len(), 1 << (width - 2));
                let mut seen = vec![false; 1 << width];
                let mut last = None;
                for (index_10, index_11) in rows {
                    assert_ne!(index_10 & (1 << c), 0);
                    assert_eq!(index_10 & (1 << t), 0);
                    assert_eq!(index_11, index_10 | (1 << t));
                    assert!(!seen[index_10] && !seen[index_11]);
                    assert!(last < Some(index_10));
                    last = Some(index_10);
                    seen[index_10] = true;
                    seen[index_11] = true;
                }
                for (index, found) in seen.iter().enumerate() {
                    assert_eq!(*found, index & (1 << c) != 0);
                }
            }
        }
    }
}

#[test]
fn the_row_cache_gives_what_is_computed() {
    let mut cache = RowCache::new();
    for _ in 0..3 {
        for width in 2..6 {
            for c in 0..width {
                for t in 0..width {
                    if c != t {
                        assert_eq!(
                            cache.find_exchangeable_rows(width, c, t),
                            find_exchangeable_rows(width, c, t)
                        );
                    }
                }
                assert_eq!(cache.find_target_rows(width, c), find_target_rows(width, c));
            }
        }
    }
    assert_eq!(cache.find_exchangeable_rows(3, 0, 2), vec![(1, 5), (3, 7)]);
    assert_eq!(cache.find_exchangeable_rows(3, 2, 0), vec![(4, 5), (6, 7)]);
    assert_eq!(cache.find_target_rows(2, 1), vec![(0, 2), (1, 3)]);
    assert_eq!(cache.find_target_rows(2, 0), vec![(0, 1), (2, 3)]);
}
