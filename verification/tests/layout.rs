use ui_composer::ui::layout::algorithm_wdivmin::wdivmin;
use ui_composer::ui::layout::{divide, place, weighted_division_with_minima, LayoutError, Slot};

#[test]
fn divides_by_weight_when_no_minimum_binds() {
    assert_eq!(wdivmin(100, &[1, 1, 2], &[0, 0, 0]), vec![25, 25, 50]);
}

#[test]
fn overconstrained_division_keeps_minima_and_warns() {
    let made = divide(100, &[1, 1], &[90, 90]).unwrap();
    assert_eq!(made.sizes, vec![90, 90]);
    let warning = made.warning.unwrap();
    assert_eq!(warning.required, 180);
    assert_eq!(warning.available, 100);
}

#[test]
fn division_without_warning_adds_up() {
    let made = divide(100, &[1, 1, 2], &[0, 0, 0]).unwrap();
    assert!(made.warning.is_none());
    assert_eq!(made.sizes.iter().sum::<u64>(), 100);
    assert_eq!(made.sizes, vec![25, 25, 50]);
}

#[test]
fn minimum_binds_before_the_share() {
    // The element with the larger ratio of minimum to weight is served
    // first and held at its minimum; the others share what is left.
    assert_eq!(wdivmin(100, &[1, 1, 1], &[50, 0, 0]), vec![50, 25, 25]);
    assert_eq!(wdivmin(100, &[1, 1, 1], &[0, 0, 50]), vec![25, 25, 50]);
}

#[test]
fn rounding_leaves_the_rest_to_the_last_served() {
    assert_eq!(wdivmin(10, &[1, 1, 1], &[0, 0, 0]), vec![3, 3, 4]);
}

#[test]
fn zero_weight_receives_its_minimum() {
    assert_eq!(wdivmin(100, &[0, 1, 1], &[10, 0, 0]), vec![10, 45, 45]);
    assert_eq!(wdivmin(100, &[0, 1], &[0, 0]), vec![0, 100]);
}

#[test]
fn all_zero_weights_grant_the_minima() {
    assert_eq!(wdivmin(100, &[0, 0], &[10, 20]), vec![10, 20]);
}

#[test]
fn all_zero_weights_are_reported() {
    assert!(matches!(divide(100, &[0, 0], &[10, 20]), Err(LayoutError::DegenerateWeights)));
    assert!(matches!(divide(5, &[], &[]), Err(LayoutError::DegenerateWeights)));
    let made = divide(0, &[0, 0], &[0, 0]).unwrap();
    assert_eq!(made.sizes, vec![0, 0]);
    assert!(made.warning.is_none());
}

#[test]
fn length_mismatch_is_reported() {
    assert!(matches!(divide(100, &[1, 1], &[0]), Err(LayoutError::LengthMismatch)));
}

#[test]
fn empty_division_is_empty() {
    assert_eq!(wdivmin(0, &[], &[]), Vec::<u64>::new());
    assert_eq!(divide(0, &[], &[]).unwrap().sizes, Vec::<u64>::new());
}

#[test]
fn sizes_follow_their_elements_when_ratios_differ() {
    let sizes = wdivmin(1000, &[1, 2, 3], &[400, 100, 30]);
    let moved = wdivmin(1000, &[3, 1, 2], &[30, 400, 100]);
    assert_eq!(moved, vec![sizes[2], sizes[0], sizes[1]]);
    assert_eq!(sizes.iter().sum::<u64>(), 1000);
}

#[test]
fn minima_are_respected() {
    let minima = [70u64, 20, 5, 0];
    let sizes = wdivmin(100, &[1, 5, 2, 2], &minima);
    for i in 0..4 {
        assert!(sizes[i] >= minima[i]);
    }
    assert_eq!(sizes.iter().sum::<u64>(), 100);
}

#[test]
fn large_values_do_not_overflow() {
    let sizes = wdivmin(u64::MAX, &[u64::MAX, u64::MAX], &[0, 0]);
    assert_eq!(sizes[0] + sizes[1], u64::MAX);
    let made = divide(1, &[1, 1], &[u64::MAX, u64::MAX]).unwrap();
    assert_eq!(made.sizes, vec![u64::MAX, u64::MAX]);
    assert_eq!(made.warning.unwrap().required, 2 * (u64::MAX as u128));
}

#[test]
fn owned_entry_point_agrees() {
    assert_eq!(weighted_division_with_minima(100, vec![1, 1, 2], vec![0, 0, 0]), vec![25, 25, 50]);
}

#[test]
fn slots_follow_each_other() {
    let made = divide(100, &[1, 1, 2], &[0, 40, 0]).unwrap();
    assert_eq!(made.sizes, vec![20, 40, 40]);
    let slots = place(&made.sizes).unwrap();
    assert_eq!(
        slots,
        vec![
            Slot { offset: 0, size: 20 },
            Slot { offset: 20, size: 40 },
            Slot { offset: 60, size: 40 },
        ]
    );
    assert_eq!(place(&[]), Some(vec![]));
    assert_eq!(place(&[u64::MAX, 1]), None);
    assert_eq!(place(&[u64::MAX, 0]).unwrap()[1], Slot { offset: u64::MAX, size: 0 });
}

#[test]
fn overconstrained_sizes_are_the_minima_and_add_up_to_more() {
    let minima = [90u64, 5, 30];
    let sizes = wdivmin(100, &[1, 7, 2], &minima);
    assert_eq!(sizes, minima.to_vec());
    assert!(sizes.iter().sum::<u64>() > 100);
    assert_eq!(wdivmin(100, &[0, 0], &[60, 50]), vec![60, 50]);
    let fitting = wdivmin(100, &[1, 7, 2], &[90, 5, 5]);
    assert_eq!(fitting.iter().sum::<u64>(), 100);
    assert_eq!(fitting, vec![90, 5, 5]);
    let made = divide(100, &[1, 7, 2], &minima).unwrap();
    assert_eq!(made.sizes, minima.to_vec());
    assert!(made.warning.is_some());
}

#[test]
fn equal_elements_differ_by_less_than_their_number() {
    assert_eq!(wdivmin(1, &[1, 1], &[0, 0]), vec![0, 1]);
    let sizes = wdivmin(11, &[4, 3, 1, 1, 1, 8], &[0; 6]);
    assert_eq!(sizes, vec![2, 1, 0, 0, 0, 8]);
    let moved = wdivmin(11, &[8, 1, 1, 1, 3, 4], &[0; 6]);
    assert_eq!(moved, vec![4, 0, 0, 0, 3, 4]);
    for (i, to) in [(0usize, 5usize), (1, 4), (2, 3), (3, 2), (4, 1), (5, 0)] {
        assert!(sizes[i].abs_diff(moved[to]) < 6);
    }
}

#[test]
fn moved_elements_with_minima_stay_between_minimum_and_total() {
    let sizes = wdivmin(26, &[4, 3, 2, 3], &[0, 6, 0, 0]);
    assert_eq!(sizes, vec![8, 6, 4, 8]);
    let moved = wdivmin(26, &[3, 2, 3, 4], &[0, 0, 6, 0]);
    assert_eq!(moved, vec![6, 4, 6, 10]);
    assert_eq!(sizes.iter().sum::<u64>(), 26);
    assert_eq!(moved.iter().sum::<u64>(), 26);
}
