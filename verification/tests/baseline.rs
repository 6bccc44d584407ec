use markov_rs::baseline::Baseline;
use markov_rs::kl::count_total;

#[test]
fn unobserved_from_returns_none() {
    let mut b = Baseline::new();
    b.observe(1, 2);
    let m = b.finalize();
    assert!(m.row_counts(5).is_none());
    assert!(!m.has_row(5));
    assert!(m.has_row(1));
}

#[test]
fn single_transition_smooths_correctly() {
    // observe (1, 2) once, finalize, check row(1)
    let mut b = Baseline::new();
    b.observe(1, 2);
    let m = b.finalize();
    assert_eq!(m.columns(), &[2u64][..]);
    let row = m.row_counts(1).expect("row for an observed source");
    assert_eq!(row, &[1u64][..]);
    // N = 1 and k = 1 are the smoothing inputs of this row.
    assert_eq!(count_total(row), Some(1));
    assert_eq!(row.len(), 1);
}

#[test]
fn rows_sum_to_one() {
    // every row accounts for all the observations out of its source
    let mut b = Baseline::new();
    b.observe(1, 2);
    b.observe(1, 2);
    b.observe(1, 3);
    b.observe(4, 3);
    b.observe(4, 9);
    let m = b.finalize();
    assert_eq!(m.columns(), &[2u64, 3, 9][..]);
    assert_eq!(m.row_counts(1), Some(&[2u64, 1, 0][..]));
    assert_eq!(m.row_counts(4), Some(&[0u64, 1, 1][..]));
    assert_eq!(count_total(m.row_counts(1).unwrap()), Some(3));
    assert_eq!(count_total(m.row_counts(4).unwrap()), Some(2));
}

#[test]
fn continues_after_finalize() {
    // finalize, observe more, finalize again, verify changes reflected
    let mut b = Baseline::new();
    b.observe(1, 2);
    let first = b.finalize();
    b.observe(1, 3);
    b.observe(7, 2);
    let second = b.finalize();
    assert_eq!(first.columns(), &[2u64][..]);
    assert!(first.row_counts(7).is_none());
    assert_eq!(second.columns(), &[2u64, 3][..]);
    assert_eq!(second.row_counts(1), Some(&[1u64, 1][..]));
    assert_eq!(second.row_counts(7), Some(&[1u64, 0][..]));
    assert_eq!(b.count(1, 2), 1);
    assert_eq!(b.count(1, 3), 1);
}

#[test]
fn columns_are_sorted_and_unique() {
    // observe several transitions with overlapping `to`s, check columns() output
    let mut b = Baseline::new();
    b.observe(5, 30);
    b.observe(1, 7);
    b.observe(2, 30);
    b.observe(1, 2);
    b.observe(9, 7);
    b.observe(5, 2);
    let m = b.finalize();
    assert_eq!(m.columns(), &[2u64, 7, 30][..]);
    let mut ids = m.row_ids();
    ids.sort();
    assert_eq!(ids, vec![1u64, 2, 5, 9]);
}

#[test]
fn empty_baseline_has_no_columns_or_rows() {
    let b = Baseline::new();
    let m = b.finalize();
    assert!(m.columns().is_empty());
    assert!(m.row_ids().is_empty());
    assert!(!m.has_column(0));
}

#[test]
fn count_reports_observations() {
    let mut b = Baseline::new();
    assert_eq!(b.count(3, 4), 0);
    b.observe(3, 4);
    b.observe(3, 4);
    b.observe(4, 3);
    assert_eq!(b.count(3, 4), 2);
    assert_eq!(b.count(4, 3), 1);
    assert_eq!(b.count(4, 4), 0);
}

#[test]
fn has_column_matches_columns() {
    let mut b = Baseline::new();
    b.observe(1, 10);
    b.observe(1, u64::MAX);
    b.observe(2, 0);
    let m = b.finalize();
    assert_eq!(m.columns(), &[0u64, 10, u64::MAX][..]);
    assert!(m.has_column(0));
    assert!(m.has_column(10));
    assert!(m.has_column(u64::MAX));
    assert!(!m.has_column(5));
}

#[test]
fn count_total_sums_and_detects_overflow() {
    assert_eq!(count_total(&[10, 0, 0]), Some(10));
    assert_eq!(count_total(&[]), Some(0));
    assert_eq!(count_total(&[u64::MAX, 0]), Some(u64::MAX));
    assert_eq!(count_total(&[u64::MAX, 1]), None);
    assert_eq!(count_total(&[3, 4, 5]), Some(12));
}

#[test]
fn finalize_ignores_observation_order() {
    let pairs = [(1u64, 2u64), (4, 9), (1, 3), (1, 2), (4, 3)];
    let mut b1 = Baseline::new();
    for &(f, t) in pairs.iter() {
        b1.observe(f, t);
    }
    let mut b2 = Baseline::new();
    for &(f, t) in pairs.iter().rev() {
        b2.observe(f, t);
    }
    let m1 = b1.finalize();
    let m2 = b2.finalize();
    assert_eq!(m1.columns(), m2.columns());
    for f in [1u64, 4, 7] {
        assert_eq!(m1.row_counts(f), m2.row_counts(f));
    }
}

#[test]
fn one_more_observation_grows_the_matrix() {
    let mut b = Baseline::new();
    b.observe(1, 2);
    b.observe(3, 4);
    let before = b.finalize();
    b.observe(5, 6);
    let after = b.finalize();
    assert!(after.has_row(5));
    assert!(after.has_column(6));
    for &c in before.columns() {
        assert!(after.has_column(c));
    }
    for f in before.row_ids() {
        assert!(after.has_row(f));
    }
}
