use booleanlab_discovery::attention_frontier::{
    AdmissionScore, AttentionFrontierError, density_false_negative_frontier, sweep_thresholds,
};

fn score(admitted: usize, false_negative: usize, false_positive: usize) -> AdmissionScore {
    AdmissionScore { admitted, false_negative, false_positive }
}

/// The counts of the four-key sweep: query `1010` against keys `1010`,
/// `1110`, `0110` and `0101`, with reference `[true, true, true, false]`.
fn four_key_scores() -> Vec<AdmissionScore> {
    vec![score(1, 2, 0), score(2, 1, 0), score(3, 0, 0), score(4, 0, 1)]
}

#[test]
fn sweep_keeps_schedule_order_and_counts() {
    let points = sweep_thresholds(4, 4, &[0, 1, 2, 4], &four_key_scores()).unwrap();
    assert_eq!(points.len(), 4);
    assert_eq!(points[0].threshold(), 0);
    assert_eq!(points[0].score().admitted(), 1);
    assert_eq!(points[0].score().false_negative(), 2);
    assert_eq!(points[3].threshold(), 4);
    assert_eq!(points[3].score().admitted(), 4);
    assert_eq!(points[3].score().false_negative(), 0);
    assert_eq!(points[3].score().false_positive(), 1);
}

#[test]
fn frontier_removes_point_with_more_candidates_and_same_miss_count() {
    let points = sweep_thresholds(4, 4, &[0, 1, 2, 4], &four_key_scores()).unwrap();
    let frontier = density_false_negative_frontier(&points);
    assert_eq!(frontier.iter().map(|point| point.threshold()).collect::<Vec<_>>(), vec![0, 1, 2]);
}

#[test]
fn sweep_rejects_non_preregistered_order_mutation() {
    let scores = [score(1, 0, 0), score(1, 0, 0), score(1, 0, 0)];
    assert_eq!(
        sweep_thresholds(1, 1, &[0, 1, 1], &scores),
        Err(AttentionFrontierError::ThresholdsNotStrictlyIncreasing { index: 2, previous: 1, current: 1 })
    );
}

#[test]
fn sweep_rejects_reference_shape_mismatch() {
    assert_eq!(
        sweep_thresholds(2, 1, &[0], &[score(1, 0, 0)]),
        Err(AttentionFrontierError::ReferenceLengthMismatch { keys: 2, reference: 1 })
    );
}

#[test]
fn empty_sweep_is_rejected() {
    assert_eq!(sweep_thresholds(1, 1, &[], &[]), Err(AttentionFrontierError::EmptyThresholdSweep));
}

#[test]
fn frontier_keeps_every_incomparable_point() {
    let scores = [score(5, 0, 2), score(1, 4, 0), score(3, 2, 1), score(3, 3, 0)];
    let points = sweep_thresholds(6, 6, &[1, 2, 3, 5], &scores).unwrap();
    let frontier = density_false_negative_frontier(&points);
    assert_eq!(frontier.iter().map(|point| point.threshold()).collect::<Vec<_>>(), vec![1, 2, 3]);
}
