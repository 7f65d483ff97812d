use booleanlab_discovery::sparsity_rule_search::{SparsityEvaluationPhase, SparsityRuleCandidate, SparsityRuleSearchError, pareto_frontier_indices};
use booleanlab_discovery::sparsity_rule_evidence::{ProvenancedSparsityRuleCandidate, ResourceEvidenceKind, ResourceEvidenceProvenance, SparsityRuleEvidenceError, pareto_frontier_indices_with_resource_provenance};

fn item(
    id: &str,
    retained: u64,
    kind: ResourceEvidenceKind,
    protocol_id: &str,
    provenance_id: &str,
) -> ProvenancedSparsityRuleCandidate {
    ProvenancedSparsityRuleCandidate {
        candidate: SparsityRuleCandidate {
            candidate_id: id.to_owned(),
            phase: SparsityEvaluationPhase::Search,
            quality_loss_units: i64::try_from(retained).unwrap(),
            retained_units: retained,
            total_units: 100,
            controller_cost_units: 2,
            effective_compute_units: retained * 10,
            memory_traffic_bytes: retained * 64,
            latency_ns: retained * 100,
            rule_complexity_units: 2,
        },
        resource_evidence: ResourceEvidenceProvenance {
            kind,
            protocol_id: protocol_id.to_owned(),
            provenance_id: provenance_id.to_owned(),
        },
    }
}

#[test]
fn accepts_one_frozen_resource_contract() {
    let mut candidates = vec![
        item(
            "dense-quality",
            80,
            ResourceEvidenceKind::ReferenceModel,
            "bl14-reference-v1",
            "sha256:reference-v1",
        ),
        item(
            "sparse",
            40,
            ResourceEvidenceKind::ReferenceModel,
            "bl14-reference-v1",
            "sha256:reference-v1",
        ),
    ];
    candidates[0].candidate.quality_loss_units = 0;

    assert_eq!(
        pareto_frontier_indices_with_resource_provenance(&candidates).unwrap(),
        vec![0, 1]
    );
}

#[test]
fn rejects_holdout_only_screening() {
    let mut holdout = item(
        "holdout",
        50,
        ResourceEvidenceKind::Measured,
        "t430-v1",
        "run-a",
    );
    holdout.candidate.phase = SparsityEvaluationPhase::Holdout;

    assert_eq!(
        pareto_frontier_indices_with_resource_provenance(&[holdout]),
        Err(SparsityRuleEvidenceError::HoldoutScreeningForbidden {
            candidate_id: "holdout".to_owned(),
        })
    );
}

#[test]
fn rejects_modelled_and_measured_resource_pooling() {
    let modelled = item(
        "modelled",
        50,
        ResourceEvidenceKind::ReferenceModel,
        "bl14-reference-v1",
        "evidence-a",
    );
    let measured = item(
        "measured",
        50,
        ResourceEvidenceKind::Measured,
        "bl14-reference-v1",
        "evidence-a",
    );

    assert!(matches!(
        pareto_frontier_indices_with_resource_provenance(&[modelled, measured]),
        Err(SparsityRuleEvidenceError::MixedResourceEvidenceKind { .. })
    ));
}

#[test]
fn rejects_protocol_and_provenance_mismatch() {
    let first = item(
        "first",
        50,
        ResourceEvidenceKind::Measured,
        "t430-v1",
        "run-a",
    );
    let protocol_mismatch = item(
        "protocol",
        50,
        ResourceEvidenceKind::Measured,
        "thor-v1",
        "run-a",
    );
    assert!(matches!(
        pareto_frontier_indices_with_resource_provenance(&[first.clone(), protocol_mismatch,]),
        Err(SparsityRuleEvidenceError::ResourceProtocolMismatch { .. })
    ));

    let provenance_mismatch = item(
        "provenance",
        50,
        ResourceEvidenceKind::Measured,
        "t430-v1",
        "run-b",
    );
    assert!(matches!(
        pareto_frontier_indices_with_resource_provenance(&[first, provenance_mismatch]),
        Err(SparsityRuleEvidenceError::ResourceProvenanceMismatch { .. })
    ));
}

#[test]
fn rejects_empty_resource_provenance() {
    let empty_protocol = item(
        "empty-protocol",
        50,
        ResourceEvidenceKind::ReferenceModel,
        " ",
        "evidence-a",
    );
    assert!(matches!(
        pareto_frontier_indices_with_resource_provenance(&[empty_protocol]),
        Err(SparsityRuleEvidenceError::EmptyProtocolId { .. })
    ));

    let empty_provenance = item(
        "empty-provenance",
        50,
        ResourceEvidenceKind::ReferenceModel,
        "bl14-reference-v1",
        "",
    );
    assert!(matches!(
        pareto_frontier_indices_with_resource_provenance(&[empty_provenance]),
        Err(SparsityRuleEvidenceError::EmptyProvenanceId { .. })
    ));
}

#[test]
fn preserves_underlying_search_holdout_gate() {
    let mut search = item(
        "search",
        50,
        ResourceEvidenceKind::Measured,
        "t430-v1",
        "run-a",
    );
    let mut holdout = search.clone();
    search.candidate.phase = SparsityEvaluationPhase::Search;
    holdout.candidate.candidate_id = "holdout".to_owned();
    holdout.candidate.phase = SparsityEvaluationPhase::Holdout;

    assert!(matches!(
        pareto_frontier_indices_with_resource_provenance(&[search, holdout]),
        Err(SparsityRuleEvidenceError::Candidate(
            SparsityRuleSearchError::MixedEvaluationPhase { .. }
        ))
    ));
}

#[test]
fn consistent_provenance_screens_exactly_like_the_bare_candidates() {
    let mut candidates = vec![
        item("a", 80, ResourceEvidenceKind::ReferenceModel, "p", "h"),
        item("b", 40, ResourceEvidenceKind::ReferenceModel, "p", "h"),
        item("c", 60, ResourceEvidenceKind::ReferenceModel, "p", "h"),
    ];
    candidates[0].candidate.quality_loss_units = 0;
    candidates[2].candidate.quality_loss_units = 90;
    let bare: Vec<SparsityRuleCandidate> = candidates.iter().map(|x| x.candidate.clone()).collect();
    assert_eq!(
        pareto_frontier_indices_with_resource_provenance(&candidates),
        pareto_frontier_indices(&bare).map_err(SparsityRuleEvidenceError::Candidate)
    );
    assert_eq!(pareto_frontier_indices(&bare), Ok(vec![0, 1]));

    candidates[2].candidate.candidate_id = "a".to_owned();
    let bare: Vec<SparsityRuleCandidate> = candidates.iter().map(|x| x.candidate.clone()).collect();
    assert_eq!(
        pareto_frontier_indices_with_resource_provenance(&candidates),
        pareto_frontier_indices(&bare).map_err(SparsityRuleEvidenceError::Candidate)
    );
    assert_eq!(
        pareto_frontier_indices(&bare),
        Err(SparsityRuleSearchError::DuplicateCandidateId { candidate_id: "a".to_owned() })
    );
}
