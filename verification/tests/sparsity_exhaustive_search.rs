use booleanlab_discovery::sparsity_exhaustive_search::{ExhaustiveRuleSearchError, MAX_EXHAUSTIVE_SPARSITY_RULE_BITS, propose_exhaustive_rules};

#[test]
fn rejects_zero_and_unbounded_predicate_arity() {
    assert_eq!(
        propose_exhaustive_rules(0),
        Err(ExhaustiveRuleSearchError::ZeroInputs)
    );
    assert_eq!(
        propose_exhaustive_rules(MAX_EXHAUSTIVE_SPARSITY_RULE_BITS + 1),
        Err(ExhaustiveRuleSearchError::InputWidthTooLarge {
            requested: MAX_EXHAUSTIVE_SPARSITY_RULE_BITS + 1,
            maximum: MAX_EXHAUSTIVE_SPARSITY_RULE_BITS,
        })
    );
}

#[test]
fn one_bit_function_space_is_complete_and_exactly_ordered() {
    let proposals = propose_exhaustive_rules(1).unwrap();
    assert_eq!(proposals.len(), 4);
    assert_eq!(proposals[0].function.truth_table(), &[0, 0]);
    assert_eq!(proposals[1].function.truth_table(), &[1, 0]);
    assert_eq!(proposals[2].function.truth_table(), &[0, 1]);
    assert_eq!(proposals[3].function.truth_table(), &[1, 1]);
    assert_eq!(
        proposals
            .iter()
            .map(|proposal| proposal.truth_table_code)
            .collect::<Vec<_>>(),
        vec![0, 1, 2, 3]
    );
}

#[test]
fn proposal_identity_and_output_weight_are_deterministic() {
    let first = propose_exhaustive_rules(2).unwrap();
    let second = propose_exhaustive_rules(2).unwrap();
    assert_eq!(first, second);
    assert_eq!(first.len(), 16);

    let xor = &first[0b0110];
    assert_eq!(xor.function.truth_table(), &[0, 1, 1, 0]);
    assert_eq!(xor.output_ones, 2);
    assert_eq!(xor.truth_table_code, 0b0110);
    assert_eq!(xor.proposal_id, "bl14-exhaustive-n2-0000000000000006");
}

#[test]
fn four_bit_bound_enumerates_the_declared_complete_population() {
    let proposals = propose_exhaustive_rules(4).unwrap();
    assert_eq!(proposals.len(), 65_536);
    assert_eq!(proposals.first().unwrap().output_ones, 0);
    assert_eq!(proposals.last().unwrap().output_ones, 16);
    assert!(
        proposals
            .first()
            .unwrap()
            .function
            .truth_table()
            .iter()
            .all(|&x| x == 0)
    );
    assert!(
        proposals
            .last()
            .unwrap()
            .function
            .truth_table()
            .iter()
            .all(|&x| x == 1)
    );
}
