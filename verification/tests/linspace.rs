use num_traits::ToPrimitive;
use rusp::misc::utils::{linspace_by, linspace_repeated_by};

/// Samples over `[start, stop]` or `[start, stop)` in double precision: the
/// step is the span divided by the number of intervals.
fn linspace<T: ToPrimitive>(start: T, stop: T, samples: usize, include_end: bool) -> Vec<f64> {
    let start_f = start.to_f64().unwrap();
    let stop_f = stop.to_f64().unwrap();
    let span = stop_f - start_f;
    let step = if include_end {
        span / (samples as f64 - 1.0)
    } else {
        span / (samples as f64)
    };
    linspace_by(start_f, stop_f, samples, include_end, |x: f64| x + step)
}

/// One cycle of samples over `[start, stop]` in double precision, repeated.
fn linspace_repeated<T: ToPrimitive>(start: T, stop: T, samples: usize, repeats: usize) -> Vec<f64> {
    let start_f = start.to_f64().unwrap();
    let stop_f = stop.to_f64().unwrap();
    let step = (stop_f - start_f) / (samples as f64 - 1.0);
    linspace_repeated_by(start_f, samples, repeats, |x: f64| x + step)
}

#[test]
fn test_linspace_int_inclusive() {
    let result = linspace(0, 10, 5, true);
    assert_eq!(result, vec![0.0, 2.5, 5.0, 7.5, 10.0]);
}

#[test]
fn test_linspace_int_exclusive() {
    let result = linspace(0, 10, 5, false);
    assert_eq!(result, vec![0.0, 2.0, 4.0, 6.0, 8.0]);
}

#[test]
fn test_linspace_f64_inclusive() {
    let result = linspace(1.5, 3.0, 4, true);
    assert_eq!(result, vec![1.5, 2.0, 2.5, 3.0]);
}

#[test]
fn test_linspace_f64_exclusive() {
    let result = linspace(1.5, 3.0, 4, false);
    assert_eq!(result, vec![1.5, 1.875, 2.25, 2.625]);
}

#[test]
fn test_linspace_zero_samples() {
    let result = linspace(0, 10, 0, true);
    assert!(result.is_empty());
}

#[test]
fn test_linspace_single_sample() {
    let result = linspace(5, 5, 1, true);
    assert_eq!(result, vec![5.0]);
}

#[test]
fn test_linspace_large_samples() {
    let result = linspace(0.0, 1.0, 10, true);
    assert_eq!(result.len(), 10);
    assert_eq!(result[0], 0.0);
    assert_eq!(result[9], 1.0);
}

#[test]
fn test_linspace_repeated_inclusive() {
    let result = linspace_repeated(0, 10, 5, 2);
    assert_eq!(
        result,
        vec![0.0, 2.5, 5.0, 7.5, 10.0, 0.0, 2.5, 5.0, 7.5, 10.0]
    );
}

#[test]
fn test_linspace_repeated_single() {
    let result = linspace_repeated(0, 5, 6, 1);
    assert_eq!(result, vec![0.0, 1.0, 2.0, 3.0, 4.0, 5.0]);
}

#[test]
fn test_linspace_repeated_zero_repeats() {
    let result = linspace_repeated(0, 10, 5, 0);
    assert!(result.is_empty());
}

#[test]
fn test_linspace_repeated_zero_samples() {
    let result = linspace_repeated(0, 10, 0, 5);
    assert!(result.is_empty());
}

#[test]
fn test_linspace_zero_samples_exclusive() {
    assert!(linspace(0, 10, 0, false).is_empty());
}

#[test]
fn test_linspace_single_sample_is_the_stop_when_inclusive() {
    assert_eq!(linspace(2.0, 7.0, 1, true), vec![7.0]);
    assert_eq!(linspace(2.0, 7.0, 1, false), vec![2.0]);
}

#[test]
fn test_linspace_two_samples_are_the_end_points() {
    assert_eq!(linspace(-1.0, 1.0, 2, true), vec![-1.0, 1.0]);
    assert_eq!(linspace(-1.0, 1.0, 2, false), vec![-1.0, 0.0]);
}

#[test]
fn test_linspace_last_value_is_stop_despite_drift() {
    let step = 1.0 / 9.0;
    let mut reached = 0.0;
    for _ in 0..9 {
        reached += step;
    }
    assert_eq!(reached, 1.0000000000000002);
    let result = linspace(0.0, 1.0, 10, true);
    assert_eq!(result[8], 0.8888888888888891);
    assert_eq!(result[9], 1.0);
}

#[test]
fn test_linspace_descending() {
    assert_eq!(linspace(10, 0, 5, true), vec![10.0, 7.5, 5.0, 2.5, 0.0]);
    assert_eq!(linspace(10, 0, 5, false), vec![10.0, 8.0, 6.0, 4.0, 2.0]);
}

#[test]
fn test_linspace_by_steps_with_the_given_function() {
    let doubled = linspace_by(1u32, 1000, 6, false, |x: u32| x * 2);
    assert_eq!(doubled, vec![1, 2, 4, 8, 16, 32]);
    let snapped = linspace_by(1u32, 1000, 6, true, |x: u32| x * 2);
    assert_eq!(snapped, vec![1, 2, 4, 8, 16, 1000]);
}

#[test]
fn test_linspace_by_length_and_end_points() {
    for samples in 2..20usize {
        let result = linspace_by(3i64, -8, samples, true, |x: i64| x + 5);
        assert_eq!(result.len(), samples);
        assert_eq!(result[0], 3);
        assert_eq!(result[samples - 1], -8);
        for i in 1..samples - 1 {
            assert_eq!(result[i], result[i - 1] + 5);
        }
        let open = linspace_by(3i64, -8, samples, false, |x: i64| x + 5);
        assert_eq!(open.len(), samples);
        assert_eq!(open[0], 3);
        for i in 1..samples {
            assert_eq!(open[i], open[i - 1] + 5);
        }
    }
}

#[test]
fn test_linspace_repeated_by_tiles_one_cycle() {
    let result = linspace_repeated_by(7u8, 3, 4, |x: u8| x + 10);
    assert_eq!(result, vec![7, 17, 27, 7, 17, 27, 7, 17, 27, 7, 17, 27]);
}

#[test]
fn test_linspace_repeated_by_length_is_samples_times_repeats() {
    for samples in 0..6usize {
        for repeats in 0..5usize {
            let result = linspace_repeated_by(0i32, samples, repeats, |x: i32| x - 1);
            assert_eq!(result.len(), samples * repeats);
            for (i, value) in result.iter().enumerate() {
                assert_eq!(*value, -((i % samples) as i32));
            }
        }
    }
}

#[test]
fn test_linspace_repeated_single_sample() {
    assert_eq!(linspace_repeated(4, 9, 1, 3), vec![4.0, 4.0, 4.0]);
}

#[test]
fn test_linspace_repeated_equals_tiled_inclusive_when_stepping_is_exact() {
    let once = linspace(0, 10, 5, true);
    let mut tiled: Vec<f64> = Vec::new();
    for _ in 0..3 {
        tiled.extend_from_slice(&once);
    }
    assert_eq!(linspace_repeated(0, 10, 5, 3), tiled);
}

#[test]
fn test_linspace_repeated_does_not_snap_to_stop() {
    let result = linspace_repeated(0.0, 1.0, 10, 2);
    assert_eq!(result.len(), 20);
    assert_eq!(result[9], 1.0000000000000002);
    assert_eq!(result[19], result[9]);
    assert_eq!(result[10], 0.0);
    assert_eq!(linspace(0.0, 1.0, 10, true)[9], 1.0);
}
