use booleanlab_discovery::sparsity_cegis_search::{CegisSearchError, search_cegis};
use booleanlab_discovery::sparsity_exhaustive_search::propose_exhaustive_rules;

#[test]
fn cegis_recovers_xor_from_complete_two_bit_domain() {
    let candidates = propose_exhaustive_rules(2).unwrap();
    let rows: [&[bool]; 4] = [
        &[false, false],
        &[true, false],
        &[false, true],
        &[true, true],
    ];
    let target = [false, true, true, false];

    let result = search_cegis(&candidates, &rows, &target).unwrap();
    assert_eq!(candidates[result.candidate_index].truth_table_code, 0b0110);
    assert_eq!(result.candidate_id, "bl14-exhaustive-n2-0000000000000006");
    assert!(!result.counterexample_rows.is_empty());
    assert!(result.synthesis_candidate_checks > 0);
    assert!(result.verification_row_checks > 0);
}

#[test]
fn cegis_preserves_first_consistent_solution_under_partial_coverage() {
    let candidates = propose_exhaustive_rules(2).unwrap();
    let rows: [&[bool]; 3] = [&[false, false], &[true, false], &[false, true]];
    let target = [false, true, true];

    let result = search_cegis(&candidates, &rows, &target).unwrap();
    assert_eq!(candidates[result.candidate_index].truth_table_code, 0b0110);
}

#[test]
fn rejects_predicate_arity_drift() {
    let candidates = propose_exhaustive_rules(2).unwrap();
    let rows: [&[bool]; 1] = [&[true]];
    assert_eq!(
        search_cegis(&candidates, &rows, &[true]),
        Err(CegisSearchError::PredicateArityMismatch {
            row: 0,
            expected: 2,
            actual: 1,
        })
    );
}

#[test]
fn reports_no_consistent_candidate_when_population_cannot_fit_target() {
    let mut candidates = propose_exhaustive_rules(1).unwrap();
    candidates.truncate(1);
    let rows: [&[bool]; 2] = [&[false], &[true]];
    assert_eq!(
        search_cegis(&candidates, &rows, &[false, true]),
        Err(CegisSearchError::NoConsistentCandidate)
    );
}
