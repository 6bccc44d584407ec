use markov_rs::baseline::{Baseline, TransitionMatrix};
use markov_rs::live::LiveTracker;

// Column space {2, 3} and from {1}.
fn make_baseline() -> TransitionMatrix {
    let mut b = Baseline::new();
    b.observe(1, 2);
    b.observe(1, 2);
    b.observe(1, 3);
    b.finalize()
}

#[test]
fn window_evicts_fifo() {
    let baseline = make_baseline();
    let mut t = LiveTracker::new(&baseline, 3, 1);

    t.observe(1, 2);
    t.observe(1, 2);
    t.observe(1, 3);
    assert_eq!(t.window_len(), 3);

    t.observe(1, 2); // should evict the first (1, 2)
    assert_eq!(t.window_len(), 3);
}

#[test]
fn unknown_from_dropped() {
    let baseline = make_baseline();
    let mut t = LiveTracker::new(&baseline, 10, 1);
    t.observe(99, 2); // 99 not a baseline `from`
    assert_eq!(t.window_len(), 0);
}

#[test]
fn unknown_to_dropped() {
    let baseline = make_baseline();
    let mut t = LiveTracker::new(&baseline, 10, 1);
    t.observe(1, 999); // 999 not in baseline columns
    assert_eq!(t.window_len(), 0);
}

#[test]
fn divergence_none_for_unknown_from() {
    let baseline = make_baseline();
    let t = LiveTracker::new(&baseline, 100, 1);
    assert!(t.live_counts(42).is_none());
}

#[test]
fn divergence_none_below_min_observations() {
    let baseline = make_baseline();
    let mut t = LiveTracker::new(&baseline, 100, 10);
    for _ in 0..3 {
        t.observe(1, 2);
    } // 3 < 10
    assert!(t.live_counts(1).is_none());
}

#[test]
fn live_counts_follow_the_window() {
    let baseline = make_baseline();
    let mut t = LiveTracker::new(&baseline, 100, 1);
    for _ in 0..20 {
        t.observe(1, 2);
    }
    for _ in 0..10 {
        t.observe(1, 3);
    }
    assert_eq!(t.window_len(), 30);
    assert_eq!(t.live_counts(1), Some(vec![20, 10]));
}

#[test]
fn eviction_updates_live_counts() {
    let baseline = make_baseline();
    let mut t = LiveTracker::new(&baseline, 3, 1);
    t.observe(1, 2);
    t.observe(1, 2);
    t.observe(1, 3);
    assert_eq!(t.live_counts(1), Some(vec![2, 1]));
    t.observe(1, 3); // evicts the oldest (1, 2)
    assert_eq!(t.live_counts(1), Some(vec![1, 2]));
    t.observe(1, 3); // evicts (1, 2)
    assert_eq!(t.live_counts(1), Some(vec![0, 3]));
    t.observe(1, 3); // evicts (1, 3)
    assert_eq!(t.live_counts(1), Some(vec![0, 3]));
    assert_eq!(t.window_len(), 3);
}

#[test]
fn zero_capacity_window_stays_empty() {
    let baseline = make_baseline();
    let mut t = LiveTracker::new(&baseline, 0, 0);
    t.observe(1, 2);
    assert_eq!(t.window_len(), 0);
    // no transition out of 1 is held, so there is nothing to report
    assert!(t.live_counts(1).is_none());
}

#[test]
fn min_observations_zero_still_needs_a_transition() {
    let baseline = make_baseline();
    let mut t = LiveTracker::new(&baseline, 5, 0);
    assert!(t.live_counts(1).is_none());
    t.observe(1, 3);
    assert_eq!(t.live_counts(1), Some(vec![0, 1]));
}

#[test]
fn min_observations_threshold_is_inclusive() {
    let baseline = make_baseline();
    let mut t = LiveTracker::new(&baseline, 100, 3);
    t.observe(1, 2);
    t.observe(1, 3);
    assert!(t.live_counts(1).is_none());
    t.observe(1, 2);
    assert_eq!(t.live_counts(1), Some(vec![2, 1]));
}

#[test]
fn dropped_transitions_do_not_evict() {
    let baseline = make_baseline();
    let mut t = LiveTracker::new(&baseline, 2, 1);
    t.observe(1, 2);
    t.observe(1, 3);
    t.observe(5, 2);
    t.observe(1, 4);
    assert_eq!(t.window_len(), 2);
    assert_eq!(t.live_counts(1), Some(vec![1, 1]));
}

#[test]
fn sources_are_counted_separately() {
    let mut b = Baseline::new();
    b.observe(1, 2);
    b.observe(2, 1);
    let m = b.finalize();
    assert_eq!(m.columns(), &[1u64, 2][..]);
    let mut t = LiveTracker::new(&m, 10, 1);
    t.observe(1, 2);
    t.observe(2, 1);
    t.observe(2, 2);
    assert_eq!(t.live_counts(1), Some(vec![0, 1]));
    assert_eq!(t.live_counts(2), Some(vec![1, 1]));
}
