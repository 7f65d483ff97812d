use booleanlab_discovery::sparsity_rule_search::{SparsityEvaluationPhase, SparsityRuleCandidate};
use booleanlab_discovery::function::BooleanFunction;
use booleanlab_discovery::sparsity_freeze::{FrozenSparsitySelection, SparsityFreezeError};
use booleanlab_discovery::sparsity_semantic_freeze::{ExactSparsityRuleBinding, FrozenSparsityRuleSelection, ResolvedPredicateParameter, SparsitySemanticFreezeError};

fn candidate(candidate_id: &str, phase: SparsityEvaluationPhase, retained: u64) -> SparsityRuleCandidate {
    SparsityRuleCandidate {
        candidate_id: candidate_id.to_owned(),
        phase,
        quality_loss_units: if retained >= 80 { 0 } else { 4 },
        retained_units: retained,
        total_units: 100,
        controller_cost_units: 1,
        effective_compute_units: retained * 10,
        memory_traffic_bytes: retained * 64,
        latency_ns: retained * 100,
        rule_complexity_units: 1,
    }
}

fn resolved_parameters(q75: &str) -> Vec<ResolvedPredicateParameter> {
    vec![
        ResolvedPredicateParameter {
            predicate_id: "magnitude".to_owned(),
            parameter_name: "threshold".to_owned(),
            resolved_value: q75.to_owned(),
        },
        ResolvedPredicateParameter {
            predicate_id: "activity".to_owned(),
            parameter_name: "window".to_owned(),
            resolved_value: "32".to_owned(),
        },
    ]
}

fn binding_with_semantics(
    candidate_id: &str,
    truth_table: Vec<u8>,
    predicate_schema: &str,
    parameters: Vec<ResolvedPredicateParameter>,
) -> ExactSparsityRuleBinding {
    ExactSparsityRuleBinding {
        candidate_id: candidate_id.to_owned(),
        function: BooleanFunction::new(2, truth_table).unwrap(),
        predicate_schema: predicate_schema.to_owned(),
        resolved_parameters: parameters,
    }
}

fn binding(candidate_id: &str, truth_table: Vec<u8>) -> ExactSparsityRuleBinding {
    binding_with_semantics(
        candidate_id,
        truth_table,
        "v1:[magnitude>=q75,activity_window=32]",
        resolved_parameters("0.750000"),
    )
}

fn frozen_rules() -> FrozenSparsityRuleSelection {
    let search = vec![
        candidate("a", SparsityEvaluationPhase::Search, 80),
        candidate("b", SparsityEvaluationPhase::Search, 40),
    ];
    let selection = FrozenSparsitySelection::from_search_frontier(&search).unwrap();
    FrozenSparsityRuleSelection::bind_search_rules(
        selection,
        &[
            binding("a", vec![0, 0, 0, 1]),
            binding("b", vec![0, 1, 1, 0]),
        ],
    )
    .unwrap()
}

#[test]
fn accepts_exact_rules_even_when_holdout_binding_order_changes() {
    let frozen = frozen_rules();
    let holdout = vec![
        candidate("b", SparsityEvaluationPhase::Holdout, 39),
        candidate("a", SparsityEvaluationPhase::Holdout, 81),
    ];
    let bindings = vec![
        binding("b", vec![0, 1, 1, 0]),
        binding("a", vec![0, 0, 0, 1]),
    ];
    assert_eq!(frozen.validate_holdout(&holdout, &bindings), Ok(()));
}

#[test]
fn rejects_same_id_rebound_to_different_truth_table() {
    let frozen = frozen_rules();
    let holdout = vec![
        candidate("a", SparsityEvaluationPhase::Holdout, 81),
        candidate("b", SparsityEvaluationPhase::Holdout, 39),
    ];
    let bindings = vec![
        binding("a", vec![0, 1, 1, 1]),
        binding("b", vec![0, 1, 1, 0]),
    ];
    assert_eq!(
        frozen.validate_holdout(&holdout, &bindings),
        Err(SparsitySemanticFreezeError::RuleSemanticMismatch {
            candidate_id: "a".to_owned(),
        })
    );
}

#[test]
fn rejects_same_truth_table_with_changed_predicate_schema() {
    let frozen = frozen_rules();
    let holdout = vec![
        candidate("a", SparsityEvaluationPhase::Holdout, 81),
        candidate("b", SparsityEvaluationPhase::Holdout, 39),
    ];
    let bindings = vec![
        binding_with_semantics(
            "a",
            vec![0, 0, 0, 1],
            "v1:[activity_window=32,magnitude>=q75]",
            resolved_parameters("0.750000"),
        ),
        binding("b", vec![0, 1, 1, 0]),
    ];
    assert_eq!(
        frozen.validate_holdout(&holdout, &bindings),
        Err(SparsitySemanticFreezeError::PredicateSchemaMismatch {
            candidate_id: "a".to_owned(),
        })
    );
}

#[test]
fn rejects_same_schema_with_refit_resolved_threshold() {
    let frozen = frozen_rules();
    let holdout = vec![
        candidate("a", SparsityEvaluationPhase::Holdout, 81),
        candidate("b", SparsityEvaluationPhase::Holdout, 39),
    ];
    let bindings = vec![
        binding_with_semantics(
            "a",
            vec![0, 0, 0, 1],
            "v1:[magnitude>=q75,activity_window=32]",
            resolved_parameters("0.812500"),
        ),
        binding("b", vec![0, 1, 1, 0]),
    ];
    assert_eq!(
        frozen.validate_holdout(&holdout, &bindings),
        Err(SparsitySemanticFreezeError::ResolvedPredicateParametersMismatch {
            candidate_id: "a".to_owned(),
        })
    );
}

#[test]
fn rejects_empty_predicate_schema() {
    let search = vec![candidate("a", SparsityEvaluationPhase::Search, 80)];
    let selection = FrozenSparsitySelection::from_search_frontier(&search).unwrap();
    assert_eq!(
        FrozenSparsityRuleSelection::bind_search_rules(
            selection,
            &[binding_with_semantics(
                "a",
                vec![0, 0, 0, 1],
                "",
                resolved_parameters("0.750000"),
            )],
        ),
        Err(SparsitySemanticFreezeError::EmptyPredicateSchema {
            candidate_id: "a".to_owned(),
        })
    );
}

#[test]
fn rejects_empty_and_duplicate_resolved_parameters() {
    let search = vec![candidate("a", SparsityEvaluationPhase::Search, 80)];
    let selection = FrozenSparsitySelection::from_search_frontier(&search).unwrap();
    let malformed = vec![ResolvedPredicateParameter {
        predicate_id: "magnitude".to_owned(),
        parameter_name: "threshold".to_owned(),
        resolved_value: String::new(),
    }];
    assert_eq!(
        FrozenSparsityRuleSelection::bind_search_rules(
            selection.clone(),
            &[binding_with_semantics(
                "a",
                vec![0, 0, 0, 1],
                "v1:[magnitude>=q75]",
                malformed,
            )],
        ),
        Err(SparsitySemanticFreezeError::EmptyResolvedParameterField {
            candidate_id: "a".to_owned(),
            parameter_index: 0,
        })
    );

    let duplicate = ResolvedPredicateParameter {
        predicate_id: "magnitude".to_owned(),
        parameter_name: "threshold".to_owned(),
        resolved_value: "0.750000".to_owned(),
    };
    assert_eq!(
        FrozenSparsityRuleSelection::bind_search_rules(
            selection,
            &[binding_with_semantics(
                "a",
                vec![0, 0, 0, 1],
                "v1:[magnitude>=q75]",
                vec![duplicate.clone(), duplicate],
            )],
        ),
        Err(SparsitySemanticFreezeError::DuplicateResolvedParameter {
            candidate_id: "a".to_owned(),
            predicate_id: "magnitude".to_owned(),
            parameter_name: "threshold".to_owned(),
        })
    );
}

#[test]
fn rejects_missing_extra_and_duplicate_rule_bindings() {
    let search = vec![
        candidate("a", SparsityEvaluationPhase::Search, 80),
        candidate("b", SparsityEvaluationPhase::Search, 40),
    ];
    let selection = FrozenSparsitySelection::from_search_frontier(&search).unwrap();

    assert_eq!(
        FrozenSparsityRuleSelection::bind_search_rules(
            selection.clone(),
            &[binding("a", vec![0, 0, 0, 1])],
        ),
        Err(SparsitySemanticFreezeError::MissingFrozenBinding {
            candidate_id: "b".to_owned(),
        })
    );
    assert_eq!(
        FrozenSparsityRuleSelection::bind_search_rules(
            selection.clone(),
            &[
                binding("a", vec![0, 0, 0, 1]),
                binding("b", vec![0, 1, 1, 0]),
                binding("extra", vec![0, 0, 1, 1]),
            ],
        ),
        Err(SparsitySemanticFreezeError::UnfrozenBinding {
            candidate_id: "extra".to_owned(),
        })
    );
    assert_eq!(
        FrozenSparsityRuleSelection::bind_search_rules(
            selection,
            &[
                binding("a", vec![0, 0, 0, 1]),
                binding("a", vec![0, 0, 0, 1]),
                binding("b", vec![0, 1, 1, 0]),
            ],
        ),
        Err(SparsitySemanticFreezeError::DuplicateBinding {
            candidate_id: "a".to_owned(),
        })
    );
}

#[test]
fn semantic_validation_still_requires_holdout_phase() {
    let frozen = frozen_rules();
    let search_again = vec![
        candidate("a", SparsityEvaluationPhase::Search, 80),
        candidate("b", SparsityEvaluationPhase::Search, 40),
    ];
    let bindings = vec![
        binding("a", vec![0, 0, 0, 1]),
        binding("b", vec![0, 1, 1, 0]),
    ];
    assert!(matches!(
        frozen.validate_holdout(&search_again, &bindings),
        Err(SparsitySemanticFreezeError::Selection(
            SparsityFreezeError::HoldoutPhaseRequired { .. }
        ))
    ));
}

#[test]
fn semantic_acceptance_is_the_same_for_every_binding_order() {
    let frozen = frozen_rules();
    let holdout = vec![
        candidate("a", SparsityEvaluationPhase::Holdout, 81),
        candidate("b", SparsityEvaluationPhase::Holdout, 39),
    ];
    let exact = vec![binding("a", vec![0, 0, 0, 1]), binding("b", vec![0, 1, 1, 0])];
    let exact_swapped = vec![exact[1].clone(), exact[0].clone()];
    assert_eq!(frozen.validate_holdout(&holdout, &exact), Ok(()));
    assert_eq!(frozen.validate_holdout(&holdout, &exact_swapped), Ok(()));

    let drifted = vec![binding("a", vec![0, 0, 0, 1]), binding("b", vec![1, 1, 1, 0])];
    let drifted_swapped = vec![drifted[1].clone(), drifted[0].clone()];
    assert!(frozen.validate_holdout(&holdout, &drifted).is_err());
    assert!(frozen.validate_holdout(&holdout, &drifted_swapped).is_err());
}
