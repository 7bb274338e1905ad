use eventflow::fuse::fuse_coincidence_i64;
use eventflow::fuse::FuseError;
use eventflow::window::add_saturating;
use eventflow::window::sub_saturating;
use eventflow::window::Window;

#[test]
fn fuse_reports_times_at_which_both_streams_are_in_the_window() {
    // At 7 the window [-3, 7] holds 5 of the first stream and 7 of the second.
    assert_eq!(fuse_coincidence_i64(&vec![5], &vec![7], 10, 2), Ok(vec![7]));
    // At 20 the window [10, 20] no longer holds 5.
    assert_eq!(fuse_coincidence_i64(&vec![5], &vec![20], 10, 2), Ok(vec![]));
    // The old end of the window is closed.
    assert_eq!(fuse_coincidence_i64(&vec![5], &vec![15], 10, 2), Ok(vec![15]));
    assert_eq!(fuse_coincidence_i64(&vec![5], &vec![16], 10, 2), Ok(vec![]));
}

#[test]
fn fuse_sorts_its_streams() {
    let t_a = vec![30, 1, 12];
    let t_b = vec![13, 2];
    // Merged: 1a 2b 12a 13b 30a. Window 5.
    assert_eq!(fuse_coincidence_i64(&t_a, &t_b, 5, 2), Ok(vec![2, 13]));
    // With a window of 11 the pair at 1 and 2 is still there at 12 and 13.
    assert_eq!(fuse_coincidence_i64(&t_a, &t_b, 11, 2), Ok(vec![2, 12, 13]));
    assert_eq!(fuse_coincidence_i64(&t_a, &t_b, 11, 3), Ok(vec![12, 13]));
    assert_eq!(fuse_coincidence_i64(&t_a, &t_b, 12, 4), Ok(vec![13]));
}

#[test]
fn fuse_reports_a_time_for_each_timestamp_that_fires() {
    // Of equal timestamps those of the first stream are taken first: the
    // first 4 finds the second stream empty, the other two fire.
    assert_eq!(fuse_coincidence_i64(&vec![4], &vec![4, 4], 1, 1), Ok(vec![4, 4]));
    assert_eq!(fuse_coincidence_i64(&vec![4, 4], &vec![4], 1, 1), Ok(vec![4]));
    assert_eq!(fuse_coincidence_i64(&vec![4, 4], &vec![4], 1, 4), Ok(vec![]));
}

#[test]
fn fuse_with_a_least_count_of_zero_needs_both_streams_still() {
    assert_eq!(fuse_coincidence_i64(&vec![1, 2], &vec![], 10, 0), Ok(vec![]));
    assert_eq!(fuse_coincidence_i64(&vec![1], &vec![2], 10, 0), Ok(vec![2]));
}

#[test]
fn fuse_rejects_a_window_that_is_not_positive() {
    assert_eq!(fuse_coincidence_i64(&vec![1], &vec![1], 0, 1), Err(FuseError::NonPositiveWindow));
    assert_eq!(fuse_coincidence_i64(&vec![1], &vec![1], -1, 1), Err(FuseError::NonPositiveWindow));
}

#[test]
fn fuse_of_nothing_is_nothing() {
    assert_eq!(fuse_coincidence_i64(&vec![], &vec![], 1, 1), Ok(vec![]));
}

#[test]
fn fuse_saturates_at_the_smallest_time() {
    let t_a = vec![i64::MIN];
    let t_b = vec![i64::MIN + 3];
    assert_eq!(fuse_coincidence_i64(&t_a, &t_b, i64::MAX, 2), Ok(vec![i64::MIN + 3]));
}

#[test]
fn saturating_arithmetic() {
    assert_eq!(add_saturating(1, 2), 3);
    assert_eq!(add_saturating(i64::MAX, 1), i64::MAX);
    assert_eq!(add_saturating(i64::MIN, -1), i64::MIN);
    assert_eq!(add_saturating(i64::MAX, i64::MIN), -1);
    assert_eq!(sub_saturating(1, 2), -1);
    assert_eq!(sub_saturating(i64::MIN, 1), i64::MIN);
    assert_eq!(sub_saturating(i64::MAX, -1), i64::MAX);
    assert_eq!(sub_saturating(0, i64::MIN), i64::MAX);
}

#[test]
fn window_prunes_from_the_front() {
    let mut window = Window::new();
    assert!(!window.coincides(0));
    window.push(1, true);
    window.push(3, true);
    window.push(2, false);
    assert!(window.coincides(3));
    assert!(!window.coincides(4));
    window.prune(2);
    assert!(window.coincides(2));
    assert!(!window.coincides(3));
    window.prune(3);
    assert!(!window.coincides(1));
    window.push(9, false);
    assert!(window.coincides(2));
    window.prune(10);
    assert!(!window.coincides(0));
}

/// The detector by its definition: the timestamps in order of time, those of
/// the first stream first, each counted against all that came before it.
fn fuse_by_definition(t_a: &[i64], t_b: &[i64], window: i64, min_count: usize) -> Vec<i64> {
    let mut merged: Vec<(i64, u8)> = Vec::new();
    merged.extend(t_a.iter().map(|t| (*t, 0u8)));
    merged.extend(t_b.iter().map(|t| (*t, 1u8)));
    merged.sort_by_key(|e| e.0);
    let mut out = Vec::new();
    for (j, &(t, _)) in merged.iter().enumerate() {
        let lo = t.saturating_sub(window);
        let count = |source: u8| merged[..=j].iter().filter(|e| e.1 == source && e.0 >= lo).count();
        let (a, b) = (count(0), count(1));
        if a > 0 && b > 0 && a + b >= min_count {
            out.push(t);
        }
    }
    out
}

#[test]
fn fuse_agrees_with_its_definition_on_many_inputs() {
    let mut state: u64 = 0x9E3779B97F4A7C15;
    let mut next = |bound: u64| {
        state ^= state << 13;
        state ^= state >> 7;
        state ^= state << 17;
        (state % bound) as i64
    };
    for round in 0..80 {
        let window = 1 + next(9);
        let min_count = next(5) as usize;
        let t_a: Vec<i64> = (0..next(12)).map(|_| next(25) - 5).collect();
        let t_b: Vec<i64> = (0..next(12)).map(|_| next(25) - 5).collect();
        assert_eq!(
            fuse_coincidence_i64(&t_a, &t_b, window, min_count),
            Ok(fuse_by_definition(&t_a, &t_b, window, min_count)),
            "round {round}"
        );
    }
}
