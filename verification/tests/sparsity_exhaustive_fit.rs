use booleanlab_discovery::sparsity_exhaustive_fit::{ExhaustiveMaskFitError, best_mismatch_indices, evaluate_exhaustive_mask_fit};

#[test]
fn exhaustive_fit_recovers_unique_xor_on_complete_two_bit_domain() {
    let rows: [&[bool]; 4] = [
        &[false, false],
        &[true, false],
        &[false, true],
        &[true, true],
    ];
    let target = [false, true, true, false];

    let evidence = evaluate_exhaustive_mask_fit(2, &rows, &target).unwrap();
    let best = best_mismatch_indices(&evidence).unwrap();
    assert_eq!(best.len(), 1);
    let winner = &evidence[best[0]];
    assert_eq!(winner.truth_table_code, 0b0110);
    assert_eq!(winner.mismatches, 0);
    assert_eq!(winner.retained_units, 2);
}

#[test]
fn incomplete_predicate_coverage_preserves_semantically_distinct_ties() {
    let rows: [&[bool]; 3] = [&[false, false], &[true, false], &[false, true]];
    let target = [false, true, true];

    let evidence = evaluate_exhaustive_mask_fit(2, &rows, &target).unwrap();
    let best = best_mismatch_indices(&evidence).unwrap();
    let codes = best
        .iter()
        .map(|&index| evidence[index].truth_table_code)
        .collect::<Vec<_>>();
    assert_eq!(codes, vec![0b0110, 0b1110]);
    assert!(best.iter().all(|&index| evidence[index].mismatches == 0));
}

#[test]
fn rejects_target_shape_drift_before_search() {
    let rows: [&[bool]; 2] = [&[false, false], &[true, false]];
    assert_eq!(
        evaluate_exhaustive_mask_fit(2, &rows, &[false]),
        Err(ExhaustiveMaskFitError::TargetLengthMismatch {
            predicate_rows: 2,
            target: 1,
        })
    );
}
