use booleanlab_discovery::baseline::{BaselineConfig, run_boolean_baseline};
use booleanlab_discovery::sparsity_rule_search::{SparsityEvaluationPhase, SparsityRuleCandidate, SparsityRuleSearchError, pareto_frontier_indices, propose_bounded_rules};

fn candidate(
    candidate_id: &str,
    phase: SparsityEvaluationPhase,
    quality_loss_units: i64,
    retained_units: u64,
    controller_cost_units: u64,
) -> SparsityRuleCandidate {
    SparsityRuleCandidate {
        candidate_id: candidate_id.to_owned(),
        phase,
        quality_loss_units,
        retained_units,
        total_units: 100,
        controller_cost_units,
        effective_compute_units: retained_units * 10,
        memory_traffic_bytes: retained_units * 64,
        latency_ns: retained_units * 100 + controller_cost_units,
        rule_complexity_units: controller_cost_units,
    }
}

#[test]
fn returns_exact_non_dominated_candidates_in_original_order() {
    let candidates = vec![
        candidate("quality", SparsityEvaluationPhase::Search, 0, 80, 5),
        candidate("sparse", SparsityEvaluationPhase::Search, 4, 40, 4),
        candidate("dominated", SparsityEvaluationPhase::Search, 6, 60, 8),
        candidate("compact", SparsityEvaluationPhase::Search, 2, 60, 1),
    ];

    assert_eq!(pareto_frontier_indices(&candidates).unwrap(), vec![0, 1, 3]);
}

#[test]
fn equal_objective_vectors_remain_distinct_provenance() {
    let first = candidate("a", SparsityEvaluationPhase::Search, 2, 50, 3);
    let second = candidate("b", SparsityEvaluationPhase::Search, 2, 50, 3);
    assert_eq!(
        pareto_frontier_indices(&[first, second]).unwrap(),
        vec![0, 1]
    );
}

#[test]
fn search_and_holdout_evidence_cannot_be_pooled() {
    let search = candidate("search", SparsityEvaluationPhase::Search, 1, 50, 2);
    let holdout = candidate("holdout", SparsityEvaluationPhase::Holdout, 1, 50, 2);
    assert_eq!(
        pareto_frontier_indices(&[search, holdout]),
        Err(SparsityRuleSearchError::MixedEvaluationPhase {
            expected: SparsityEvaluationPhase::Search,
            actual: SparsityEvaluationPhase::Holdout,
            candidate_id: "holdout".to_owned(),
        })
    );
}

#[test]
fn rejects_invalid_or_unmatched_evaluation_domains() {
    let mut invalid = candidate("invalid", SparsityEvaluationPhase::Search, 1, 101, 2);
    assert!(matches!(
        pareto_frontier_indices(&[invalid.clone()]),
        Err(SparsityRuleSearchError::RetainedUnitsExceedTotal { .. })
    ));

    invalid.retained_units = 50;
    let mut other = candidate("other", SparsityEvaluationPhase::Search, 2, 50, 3);
    other.total_units = 200;
    assert!(matches!(
        pareto_frontier_indices(&[invalid, other]),
        Err(SparsityRuleSearchError::EvaluationDomainSizeMismatch { .. })
    ));
}

#[test]
fn rejects_duplicate_and_empty_ids() {
    let first = candidate("same", SparsityEvaluationPhase::Search, 1, 50, 2);
    let second = candidate("same", SparsityEvaluationPhase::Search, 2, 40, 3);
    assert!(matches!(
        pareto_frontier_indices(&[first, second]),
        Err(SparsityRuleSearchError::DuplicateCandidateId { .. })
    ));

    let empty = candidate("", SparsityEvaluationPhase::Search, 1, 50, 2);
    assert_eq!(
        pareto_frontier_indices(&[empty]),
        Err(SparsityRuleSearchError::EmptyCandidateId { index: 0 })
    );
}

#[test]
fn bounded_rule_proposals_are_deterministic_and_use_full_population() {
    let config = BaselineConfig {
        input_bits: 4,
        candidates: 64,
        min_gates: 2,
        max_gates: 8,
        seed: 0x424c_3134_5f50_524f,
    };
    let summary = run_boolean_baseline(config).unwrap();
    let proposals = propose_bounded_rules(config).unwrap();
    let repeated = propose_bounded_rules(config).unwrap();

    assert_eq!(proposals, repeated);
    assert_eq!(proposals.len(), summary.population.len());
    assert!(proposals.len() >= summary.pareto_front.len());
    for (proposal, record) in proposals.iter().zip(summary.population.iter()) {
        assert_eq!(proposal.function, record.function);
        assert_eq!(proposal.generated_gate_count, record.gate_count);
        assert_eq!(proposal.generated_depth, record.depth);
        assert!(proposal.generated_gate_count >= config.min_gates);
        assert!(proposal.generated_gate_count <= config.max_gates);
        assert!(proposal.generated_depth <= proposal.generated_gate_count);
        assert!(proposal
            .proposal_id
            .ends_with(&format!("{:016x}", proposal.function.stable_fingerprint())));
    }
}

