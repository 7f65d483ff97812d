use booleanlab_discovery::function::BooleanFunction;
use booleanlab_discovery::sparsity_freeze::FrozenSparsitySelection;
use booleanlab_discovery::sparsity_rule_search::{SparsityEvaluationPhase, SparsityRuleCandidate};
use booleanlab_discovery::sparsity_rule_evidence::{ProvenancedSparsityRuleCandidate, ResourceEvidenceKind, ResourceEvidenceProvenance};
use booleanlab_discovery::sparsity_semantic_freeze::{ExactSparsityRuleBinding, FrozenSparsityRuleSelection, SparsitySemanticFreezeError};
use booleanlab_discovery::sparsity_holdout_report::{HoldoutReportError, HoldoutResourceReport, build_holdout_resource_report};

fn candidate(
    candidate_id: &str,
    phase: SparsityEvaluationPhase,
    quality_loss_units: i64,
    retained_units: u64,
) -> SparsityRuleCandidate {
    SparsityRuleCandidate {
        candidate_id: candidate_id.to_owned(),
        phase,
        quality_loss_units,
        retained_units,
        total_units: 100,
        controller_cost_units: if candidate_id == "a" { 5 } else { 4 },
        effective_compute_units: retained_units * 10,
        memory_traffic_bytes: retained_units * 64,
        latency_ns: retained_units * 100,
        rule_complexity_units: 2,
    }
}

fn binding(candidate_id: &str) -> ExactSparsityRuleBinding {
    let truth_table = if candidate_id == "a" {
        vec![0, 1]
    } else {
        vec![1, 0]
    };
    ExactSparsityRuleBinding {
        candidate_id: candidate_id.to_owned(),
        function: BooleanFunction::new(1, truth_table).unwrap(),
        predicate_schema: "v1:[activity>=threshold]".to_owned(),
        resolved_parameters: Vec::new(),
    }
}

fn frozen_rules() -> FrozenSparsityRuleSelection {
    let search = vec![
        candidate("a", SparsityEvaluationPhase::Search, 0, 80),
        candidate("b", SparsityEvaluationPhase::Search, 4, 40),
    ];
    let selection = FrozenSparsitySelection::from_search_frontier(&search).unwrap();
    assert_eq!(selection.candidate_ids(), &["a", "b"]);
    FrozenSparsityRuleSelection::bind_search_rules(
        selection,
        &[binding("a"), binding("b")],
    )
    .unwrap()
}

fn holdout_item(
    candidate_id: &str,
    quality_loss_units: i64,
    retained_units: u64,
    kind: ResourceEvidenceKind,
    protocol_id: &str,
    provenance_id: &str,
) -> ProvenancedSparsityRuleCandidate {
    ProvenancedSparsityRuleCandidate {
        candidate: candidate(
            candidate_id,
            SparsityEvaluationPhase::Holdout,
            quality_loss_units,
            retained_units,
        ),
        resource_evidence: ResourceEvidenceProvenance {
            kind,
            protocol_id: protocol_id.to_owned(),
            provenance_id: provenance_id.to_owned(),
        },
    }
}

#[test]
fn reports_reordered_holdout_in_frozen_search_order() {
    let frozen = frozen_rules();
    let holdout = vec![
        holdout_item(
            "b",
            -20,
            10,
            ResourceEvidenceKind::Measured,
            "t430-v1",
            "run-001",
        ),
        holdout_item(
            "a",
            100,
            90,
            ResourceEvidenceKind::Measured,
            "t430-v1",
            "run-001",
        ),
    ];
    let report = build_holdout_resource_report(
        &frozen,
        &holdout,
        &[binding("b"), binding("a")],
    )
    .unwrap();

    assert_eq!(
        report
            .rows
            .iter()
            .map(|row| row.candidate.candidate_id.as_str())
            .collect::<Vec<_>>(),
        vec!["a", "b"]
    );
}

#[test]
fn holdout_objective_changes_cannot_reorder_frozen_rows() {
    let frozen = frozen_rules();
    let first = vec![
        holdout_item(
            "a",
            100,
            90,
            ResourceEvidenceKind::ReferenceModel,
            "reference-v1",
            "evidence-001",
        ),
        holdout_item(
            "b",
            -100,
            10,
            ResourceEvidenceKind::ReferenceModel,
            "reference-v1",
            "evidence-001",
        ),
    ];
    let second = vec![
        holdout_item(
            "b",
            500,
            99,
            ResourceEvidenceKind::ReferenceModel,
            "reference-v1",
            "evidence-001",
        ),
        holdout_item(
            "a",
            -500,
            1,
            ResourceEvidenceKind::ReferenceModel,
            "reference-v1",
            "evidence-001",
        ),
    ];
    let bindings = [binding("a"), binding("b")];

    let first_report = build_holdout_resource_report(&frozen, &first, &bindings).unwrap();
    let second_report = build_holdout_resource_report(&frozen, &second, &bindings).unwrap();
    let ids = |report: &HoldoutResourceReport| -> Vec<String> {
        report
            .rows
            .iter()
            .map(|row| row.candidate.candidate_id.clone())
            .collect::<Vec<_>>()
    };
    assert_eq!(ids(&first_report), vec!["a", "b"]);
    assert_eq!(ids(&second_report), vec!["a", "b"]);
}

#[test]
fn rejects_search_observations_on_holdout_reporting_surface() {
    let frozen = frozen_rules();
    let mut search = holdout_item(
        "a",
        0,
        80,
        ResourceEvidenceKind::Measured,
        "t430-v1",
        "run-001",
    );
    search.candidate.phase = SparsityEvaluationPhase::Search;
    let other = holdout_item(
        "b",
        4,
        40,
        ResourceEvidenceKind::Measured,
        "t430-v1",
        "run-001",
    );

    assert!(matches!(
        build_holdout_resource_report(
            &frozen,
            &[search, other],
            &[binding("a"), binding("b")],
        ),
        Err(HoldoutReportError::SemanticFreeze(_))
    ));
}

#[test]
fn rejects_mixed_resource_contracts() {
    let frozen = frozen_rules();
    let measured = holdout_item(
        "a",
        0,
        80,
        ResourceEvidenceKind::Measured,
        "t430-v1",
        "run-001",
    );
    let modelled = holdout_item(
        "b",
        4,
        40,
        ResourceEvidenceKind::ReferenceModel,
        "t430-v1",
        "run-001",
    );
    assert!(matches!(
        build_holdout_resource_report(
            &frozen,
            &[measured, modelled],
            &[binding("a"), binding("b")],
        ),
        Err(HoldoutReportError::MixedResourceEvidenceKind { .. })
    ));
}

#[test]
fn rejects_semantic_drift_after_search_freeze() {
    let frozen = frozen_rules();
    let holdout = vec![
        holdout_item(
            "a",
            0,
            80,
            ResourceEvidenceKind::Measured,
            "t430-v1",
            "run-001",
        ),
        holdout_item(
            "b",
            4,
            40,
            ResourceEvidenceKind::Measured,
            "t430-v1",
            "run-001",
        ),
    ];
    let mut drifted = binding("b");
    drifted.function = BooleanFunction::new(1, vec![0, 1]).unwrap();

    assert!(matches!(
        build_holdout_resource_report(&frozen, &holdout, &[binding("a"), drifted]),
        Err(HoldoutReportError::SemanticFreeze(
            SparsitySemanticFreezeError::RuleSemanticMismatch { .. }
        ))
    ));
}
