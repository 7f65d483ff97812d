use booleanlab_discovery::search_comparison::compare;

fn full_rows(bits: u32) -> Vec<Vec<bool>> {
    (0..(1usize << bits))
        .map(|row| (0..bits).map(|bit| row & (1usize << bit) != 0).collect())
        .collect()
}

#[test]
fn xor_counts_include_verification_and_expose_negative_matched_comparison() {
    let owned = full_rows(2);
    let rows: Vec<&[bool]> = owned.iter().map(Vec::as_slice).collect();
    let result = compare(2, &rows, &[false, true, true, false]).unwrap();
    assert_eq!(result.best_codes, vec![6]);
    assert_eq!(result.exhaustive_mask_decisions, 64);
    assert_eq!(result.linear.candidate_checks, 7);
    assert_eq!(result.linear.row_checks, 14);
    let cegis = result.cegis.unwrap();
    assert_eq!(cegis.counterexample_rows, vec![1, 2]);
    assert_eq!(cegis.synthesis_candidate_checks, 11);
    assert_eq!(cegis.synthesis_row_checks, 13);
    assert_eq!(cegis.verification_row_checks, 9);
    assert!(cegis.synthesis_row_checks + cegis.verification_row_checks > 14);
}

#[test]
fn and_control_preserves_the_opposite_logical_check_outcome() {
    let owned = full_rows(2);
    let rows: Vec<&[bool]> = owned.iter().map(Vec::as_slice).collect();
    let result = compare(2, &rows, &[false, false, false, true]).unwrap();
    assert_eq!(result.linear.row_checks, 19);
    let cegis = result.cegis.unwrap();
    assert_eq!(
        cegis.synthesis_row_checks + cegis.verification_row_checks,
        17
    );
}

#[test]
fn every_three_bit_target_agrees_with_independent_full_population_oracle() {
    let owned = full_rows(3);
    let rows: Vec<&[bool]> = owned.iter().map(Vec::as_slice).collect();
    for code in 0..256u64 {
        let target: Vec<bool> = (0..8).map(|row| code & (1u64 << row) != 0).collect();
        let result = compare(3, &rows, &target).unwrap();
        assert_eq!(result.minimum_mismatches, 0);
        assert_eq!(result.best_codes, vec![code]);
        assert!(result.cegis.is_some());
    }
}

#[test]
fn partial_coverage_retains_both_exact_ties_without_uniqueness_claim() {
    let rows: [&[bool]; 3] = [&[false, false], &[true, false], &[false, true]];
    let result = compare(2, &rows, &[false, true, true]).unwrap();
    assert_eq!(result.best_codes, vec![6, 14]);
    assert_eq!(result.cegis.unwrap().candidate_index, 6);
}

#[test]
fn contradictory_labels_are_not_reported_as_an_exact_solution() {
    let rows: [&[bool]; 2] = [&[false, false], &[false, false]];
    let result = compare(2, &rows, &[false, true]).unwrap();
    assert_eq!(result.minimum_mismatches, 1);
    assert_eq!(result.best_codes.len(), 16);
    assert_eq!(result.linear.selected_index, None);
    assert!(result.cegis.is_none());
}

#[test]
fn malformed_inputs_fail_closed() {
    assert!(compare(2, &[], &[]).is_err());
    assert!(compare(5, &[&[false; 5]], &[false]).is_err());
    assert!(compare(2, &[&[false]], &[false]).is_err());
    assert!(compare(2, &[&[false, false]], &[false, true]).is_err());
}
