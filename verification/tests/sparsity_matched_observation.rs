use booleanlab_discovery::sparsity_matched_observation::{
    FrozenArm, FrozenArmSet, MATCHED_OBSERVATION_CONTRACT_VERSION, MatchedArmObservation,
    MatchedObservationError, MatchedResourceObservation, bind_matched_observations,
};
use booleanlab_discovery::sparsity_rule_evidence::ResourceEvidenceKind;

fn arm_set() -> FrozenArmSet {
    let arm = |arm_id: &str, retained_units: usize| FrozenArm { arm_id: arm_id.to_owned(), retained_units };
    FrozenArmSet {
        protocol_id: "bl14.5-model-eval-v1".to_owned(),
        arms: vec![
            arm("dense", 8),
            arm("boolean", 4),
            arm("magnitude", 4),
            arm("structured-nm", 4),
            arm("random:7", 4),
            arm("random:11", 4),
        ],
    }
}

fn observations(arms: &FrozenArmSet, kind: ResourceEvidenceKind) -> Vec<MatchedArmObservation> {
    arms.arms
        .iter()
        .enumerate()
        .map(|(index, arm)| MatchedArmObservation {
            arm_id: arm.arm_id.clone(),
            quality_metric_id: "task-mse-scaled-1e12".to_owned(),
            quality_loss_units: i64::try_from(index).expect("fixture arm index fits i64") - 2,
            retained_units: arm.retained_units,
            resources: MatchedResourceObservation {
                kind,
                protocol_id: "reference-work-v1".to_owned(),
                provenance_id: "workload:sha256:abc".to_owned(),
                numerical_compute_units: 100 + index as u64,
                mask_test_units: if arm.arm_id == "dense" { 0 } else { 8 },
                controller_cost_units: if arm.arm_id == "boolean" { 4 } else { 0 },
                memory_traffic_bytes: None,
                latency_ns: if kind == ResourceEvidenceKind::Measured { Some(1_000 + index as u64) } else { None },
            },
        })
        .collect()
}

fn bind(
    arms: &FrozenArmSet,
    evaluation: &str,
    workload: &str,
    rows: Vec<MatchedArmObservation>,
) -> Result<booleanlab_discovery::sparsity_matched_observation::MatchedObservationSet, MatchedObservationError> {
    bind_matched_observations(arms, evaluation.to_owned(), workload.to_owned(), rows)
}

#[test]
fn binds_complete_reference_observations_without_inventing_latency_or_traffic() {
    let arms = arm_set();
    let bound = bind(
        &arms,
        "dev-eval-001",
        "relu-workload:sha256:123",
        observations(&arms, ResourceEvidenceKind::ReferenceModel),
    )
    .unwrap();
    assert_eq!(bound.contract_version(), MATCHED_OBSERVATION_CONTRACT_VERSION);
    assert_eq!(bound.arm_protocol_id(), "bl14.5-model-eval-v1");
    assert_eq!(bound.evaluation_id(), "dev-eval-001");
    assert_eq!(bound.workload_provenance(), "relu-workload:sha256:123");
    assert_eq!(bound.observations().len(), arms.arms.len());
    assert!(bound.observations().iter().all(|item| item.resources.latency_ns.is_none()));
    assert!(bound.observations().iter().all(|item| item.resources.memory_traffic_bytes.is_none()));
}

#[test]
fn measured_evidence_requires_latency_and_keeps_one_provenance() {
    let arms = arm_set();
    let bound = bind(
        &arms,
        "measured-eval-001",
        "relu-workload:sha256:123",
        observations(&arms, ResourceEvidenceKind::Measured),
    )
    .unwrap();
    assert!(bound.observations().iter().all(|item| item.resources.latency_ns.is_some()));
}

#[test]
fn missing_reordered_or_duplicate_arms_fail_closed() {
    let arms = arm_set();
    let base = observations(&arms, ResourceEvidenceKind::ReferenceModel);
    let mut missing = base.clone();
    missing.pop();
    assert_eq!(
        bind(&arms, "e", "w", missing),
        Err(MatchedObservationError::ObservationCountMismatch { expected: 6, actual: 5 })
    );

    let mut reordered = base.clone();
    reordered.swap(0, 1);
    assert_eq!(
        bind(&arms, "e", "w", reordered),
        Err(MatchedObservationError::ArmOrderOrIdentityMismatch {
            index: 0,
            expected: "dense".to_owned(),
            actual: "boolean".to_owned(),
        })
    );

    let mut duplicate = base;
    duplicate[1].arm_id = duplicate[0].arm_id.clone();
    assert_eq!(
        bind(&arms, "e", "w", duplicate),
        Err(MatchedObservationError::DuplicateArmId { arm_id: "dense".to_owned() })
    );
}

#[test]
fn cardinality_quality_and_resource_drift_fail_closed() {
    let arms = arm_set();

    let mut rows = observations(&arms, ResourceEvidenceKind::ReferenceModel);
    rows[1].retained_units += 1;
    assert_eq!(
        bind(&arms, "e", "w", rows),
        Err(MatchedObservationError::RetainedCardinalityMismatch {
            arm_id: "boolean".to_owned(),
            expected: 4,
            actual: 5,
        })
    );

    let mut rows = observations(&arms, ResourceEvidenceKind::ReferenceModel);
    rows[1].quality_metric_id = "different".to_owned();
    assert!(matches!(
        bind(&arms, "e", "w", rows),
        Err(MatchedObservationError::QualityMetricMismatch { .. })
    ));

    let mut rows = observations(&arms, ResourceEvidenceKind::ReferenceModel);
    rows[1].resources.provenance_id = "other".to_owned();
    assert!(matches!(
        bind(&arms, "e", "w", rows),
        Err(MatchedObservationError::ResourceProvenanceMismatch { .. })
    ));
}

#[test]
fn reference_latency_and_missing_measured_latency_are_rejected() {
    let arms = arm_set();
    let mut reference = observations(&arms, ResourceEvidenceKind::ReferenceModel);
    reference[0].resources.latency_ns = Some(1);
    assert!(matches!(
        bind(&arms, "e", "w", reference),
        Err(MatchedObservationError::ReferenceModelLatencyForbidden { .. })
    ));

    let mut measured = observations(&arms, ResourceEvidenceKind::Measured);
    measured[0].resources.latency_ns = None;
    assert!(matches!(
        bind(&arms, "e", "w", measured),
        Err(MatchedObservationError::MeasuredLatencyRequired { .. })
    ));
}

#[test]
fn empty_identity_and_mixed_resource_kinds_fail_closed() {
    let arms = arm_set();
    assert!(matches!(
        bind(&arms, " ", "w", observations(&arms, ResourceEvidenceKind::ReferenceModel)),
        Err(MatchedObservationError::EmptyEvaluationId)
    ));
    assert!(matches!(
        bind(&arms, "e", "\t", observations(&arms, ResourceEvidenceKind::ReferenceModel)),
        Err(MatchedObservationError::EmptyWorkloadProvenance)
    ));

    let mut rows = observations(&arms, ResourceEvidenceKind::ReferenceModel);
    rows[1].resources.kind = ResourceEvidenceKind::Measured;
    rows[1].resources.latency_ns = Some(1000);
    assert_eq!(
        bind(&arms, "e", "w", rows),
        Err(MatchedObservationError::ResourceKindMismatch {
            expected: ResourceEvidenceKind::ReferenceModel,
            actual: ResourceEvidenceKind::Measured,
            arm_id: "boolean".to_owned(),
        })
    );
}

#[test]
fn blank_fields_and_protocol_drift_name_the_arm() {
    let arms = arm_set();
    let mut rows = observations(&arms, ResourceEvidenceKind::ReferenceModel);
    rows[2].arm_id = String::new();
    assert_eq!(bind(&arms, "e", "w", rows), Err(MatchedObservationError::EmptyArmId { index: 2 }));

    let mut rows = observations(&arms, ResourceEvidenceKind::ReferenceModel);
    rows[3].quality_metric_id = "  ".to_owned();
    assert_eq!(
        bind(&arms, "e", "w", rows),
        Err(MatchedObservationError::EmptyQualityMetricId { arm_id: "structured-nm".to_owned() })
    );

    let mut rows = observations(&arms, ResourceEvidenceKind::ReferenceModel);
    rows[4].resources.protocol_id = "reference-work-v2".to_owned();
    assert_eq!(
        bind(&arms, "e", "w", rows),
        Err(MatchedObservationError::ResourceProtocolMismatch {
            expected: "reference-work-v1".to_owned(),
            actual: "reference-work-v2".to_owned(),
            arm_id: "random:7".to_owned(),
        })
    );

    let mut rows = observations(&arms, ResourceEvidenceKind::ReferenceModel);
    rows[0].resources.provenance_id = String::new();
    assert_eq!(
        bind(&arms, "e", "w", rows),
        Err(MatchedObservationError::EmptyResourceProvenanceId { arm_id: "dense".to_owned() })
    );
}
