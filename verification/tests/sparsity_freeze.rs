use booleanlab_discovery::sparsity_rule_search::{SparsityEvaluationPhase, SparsityRuleCandidate};
use booleanlab_discovery::sparsity_freeze::{FrozenSparsitySelection, SparsityFreezeError};

fn candidate(
    candidate_id: &str,
    phase: SparsityEvaluationPhase,
    quality_loss_units: i64,
    retained_units: u64,
    controller_cost_units: u64,
) -> SparsityRuleCandidate {
    SparsityRuleCandidate {
        candidate_id: candidate_id.to_owned(),
        phase,
        quality_loss_units,
        retained_units,
        total_units: 100,
        controller_cost_units,
        effective_compute_units: retained_units * 10,
        memory_traffic_bytes: retained_units * 64,
        latency_ns: retained_units * 100 + controller_cost_units,
        rule_complexity_units: controller_cost_units,
    }
}

#[test]
fn freezes_only_search_frontier_and_accepts_exact_holdout_identity_set() {
    let search = vec![
        candidate("quality", SparsityEvaluationPhase::Search, 0, 80, 5),
        candidate("sparse", SparsityEvaluationPhase::Search, 4, 40, 4),
        candidate("dominated", SparsityEvaluationPhase::Search, 6, 60, 8),
        candidate("compact", SparsityEvaluationPhase::Search, 2, 60, 1),
    ];
    let frozen = FrozenSparsitySelection::from_search_frontier(&search).unwrap();
    assert_eq!(frozen.candidate_ids(), &["quality", "sparse", "compact"]);
    assert_eq!(frozen.total_units(), 100);

    let holdout = vec![
        candidate("compact", SparsityEvaluationPhase::Holdout, 9, 62, 1),
        candidate("quality", SparsityEvaluationPhase::Holdout, 3, 81, 5),
        candidate("sparse", SparsityEvaluationPhase::Holdout, 12, 39, 4),
    ];
    assert_eq!(frozen.validate_holdout(&holdout), Ok(()));
}

#[test]
fn freeze_rejects_holdout_evidence_before_frontier_selection() {
    let holdout = vec![candidate(
        "final-only",
        SparsityEvaluationPhase::Holdout,
        -10,
        1,
        1,
    )];
    assert_eq!(
        FrozenSparsitySelection::from_search_frontier(&holdout),
        Err(SparsityFreezeError::SearchPhaseRequired {
            candidate_id: "final-only".to_owned(),
            actual: SparsityEvaluationPhase::Holdout,
        })
    );
}

#[test]
fn holdout_cannot_add_or_drop_search_selected_candidates() {
    let search = vec![
        candidate("a", SparsityEvaluationPhase::Search, 0, 80, 5),
        candidate("b", SparsityEvaluationPhase::Search, 4, 40, 4),
    ];
    let frozen = FrozenSparsitySelection::from_search_frontier(&search).unwrap();

    let with_extra = vec![
        candidate("a", SparsityEvaluationPhase::Holdout, 1, 80, 5),
        candidate("b", SparsityEvaluationPhase::Holdout, 5, 40, 4),
        candidate("new", SparsityEvaluationPhase::Holdout, 0, 20, 2),
    ];
    assert_eq!(
        frozen.validate_holdout(&with_extra),
        Err(SparsityFreezeError::UnfrozenHoldoutCandidate {
            candidate_id: "new".to_owned(),
        })
    );

    let missing = vec![candidate("a", SparsityEvaluationPhase::Holdout, 1, 80, 5)];
    assert_eq!(
        frozen.validate_holdout(&missing),
        Err(SparsityFreezeError::MissingFrozenCandidate {
            candidate_id: "b".to_owned(),
        })
    );
}

#[test]
fn holdout_rejects_phase_domain_cardinality_and_duplicate_drift() {
    let search = vec![candidate("only", SparsityEvaluationPhase::Search, 0, 50, 1)];
    let frozen = FrozenSparsitySelection::from_search_frontier(&search).unwrap();

    let wrong_phase = vec![candidate("only", SparsityEvaluationPhase::Search, 0, 50, 1)];
    assert!(matches!(
        frozen.validate_holdout(&wrong_phase),
        Err(SparsityFreezeError::HoldoutPhaseRequired { .. })
    ));

    let mut wrong_domain = candidate("only", SparsityEvaluationPhase::Holdout, 0, 50, 1);
    wrong_domain.total_units = 101;
    assert!(matches!(
        frozen.validate_holdout(&[wrong_domain]),
        Err(SparsityFreezeError::HoldoutDomainSizeMismatch { .. })
    ));

    let impossible = candidate("only", SparsityEvaluationPhase::Holdout, 0, 101, 1);
    assert_eq!(
        frozen.validate_holdout(&[impossible]),
        Err(SparsityFreezeError::HoldoutRetainedUnitsExceedTotal {
            candidate_id: "only".to_owned(),
            retained_units: 101,
            total_units: 100,
        })
    );

    let duplicate = candidate("only", SparsityEvaluationPhase::Holdout, 0, 50, 1);
    assert!(matches!(
        frozen.validate_holdout(&[duplicate.clone(), duplicate]),
        Err(SparsityFreezeError::DuplicateHoldoutCandidate { .. })
    ));
}

#[test]
fn holdout_acceptance_ignores_row_order_and_objective_values() {
    let search = vec![
        candidate("quality", SparsityEvaluationPhase::Search, 0, 80, 5),
        candidate("sparse", SparsityEvaluationPhase::Search, 4, 40, 4),
        candidate("compact", SparsityEvaluationPhase::Search, 2, 60, 1),
    ];
    let frozen = FrozenSparsitySelection::from_search_frontier(&search).unwrap();
    let holdout = vec![
        candidate("quality", SparsityEvaluationPhase::Holdout, 3, 81, 5),
        candidate("sparse", SparsityEvaluationPhase::Holdout, 12, 39, 4),
        candidate("compact", SparsityEvaluationPhase::Holdout, 9, 62, 1),
    ];
    let mut reordered = vec![holdout[2].clone(), holdout[0].clone(), holdout[1].clone()];
    reordered[0].quality_loss_units = -500;
    reordered[1].latency_ns = 1;
    reordered[2].rule_complexity_units = 9_999;
    assert_eq!(frozen.validate_holdout(&holdout), Ok(()));
    assert_eq!(frozen.validate_holdout(&reordered), Ok(()));

    let short = vec![holdout[1].clone(), holdout[0].clone()];
    let mut short_reordered = vec![holdout[0].clone(), holdout[1].clone()];
    short_reordered[0].memory_traffic_bytes = 0;
    assert_eq!(frozen.validate_holdout(&short).is_ok(), frozen.validate_holdout(&short_reordered).is_ok());
    assert!(frozen.validate_holdout(&short).is_err());
}
