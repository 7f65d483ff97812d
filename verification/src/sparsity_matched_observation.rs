//! Immutable observation envelope for matched model evaluation.
//!
//! A frozen evaluation arm set fixes which exact masks must be evaluated. This
//! module binds one observation to every frozen arm without ranking the arms,
//! selecting from holdout evidence, or fabricating unavailable hardware
//! measurements. Reference-model accounting and measured hardware evidence
//! remain distinct evidence kinds.

use vstd::prelude::*;
use crate::sparsity_rule_evidence::{ResourceEvidenceKind, blank, is_blank};
use crate::sparsity_freeze::contains_id;

verus! {

/// Version of the matched observation contract.
pub const MATCHED_OBSERVATION_CONTRACT_VERSION: &'static str = "bl14.matched-observation-set.v1";

/// What observation binding reads of one frozen evaluation arm.
#[derive(Clone, Debug, PartialEq, Eq)]
pub struct FrozenArm {
    /// Exact arm identity, in canonical arm order.
    pub arm_id: String,
    /// Retained units of the arm's exact mask.
    pub retained_units: usize,
}

/// What observation binding reads of a frozen evaluation arm set.
#[derive(Clone, Debug, PartialEq, Eq)]
pub struct FrozenArmSet {
    /// Protocol identity of the arm set.
    pub protocol_id: String,
    /// Arms in canonical order.
    pub arms: Vec<FrozenArm>,
}

/// Resource evidence retained for one evaluated arm.
#[derive(Clone, Debug, PartialEq, Eq)]
pub struct MatchedResourceObservation {
    /// Reference-model accounting or an actual measurement.
    pub kind: ResourceEvidenceKind,
    /// Frozen accounting or measurement protocol shared by every arm.
    pub protocol_id: String,
    /// Immutable provenance shared by every arm in the comparison.
    pub provenance_id: String,
    /// Numerical work counted by the declared reference or measurement surface.
    pub numerical_compute_units: u64,
    /// Boolean mask tests counted separately from numerical work.
    pub mask_test_units: u64,
    /// Controller work counted separately from admitted numerical work.
    pub controller_cost_units: u64,
    /// Traffic only when the declared evidence source exposes it.
    pub memory_traffic_bytes: Option<u64>,
    /// End-to-end latency only for measured hardware evidence.
    pub latency_ns: Option<u64>,
}

/// One model-quality and resource observation bound to a frozen arm.
#[derive(Clone, Debug, PartialEq, Eq)]
pub struct MatchedArmObservation {
    /// Exact arm identity.
    pub arm_id: String,
    /// Stable identifier of the independently scored task-quality metric.
    pub quality_metric_id: String,
    /// Signed loss delta relative to the declared dense reference convention.
    pub quality_loss_units: i64,
    /// Retained units observed for this exact mask.
    pub retained_units: usize,
    /// Resource evidence retained independently from quality.
    pub resources: MatchedResourceObservation,
}

/// Complete, immutable matched-arm observation set.
#[derive(Debug, PartialEq, Eq)]
pub struct MatchedObservationSet {
    contract_version: &'static str,
    evaluation_id: String,
    workload_provenance: String,
    arm_protocol_id: String,
    observations: Vec<MatchedArmObservation>,
}

/// Fail-closed validation errors for matched model-level observations.
#[derive(Clone, Debug, PartialEq, Eq)]
pub enum MatchedObservationError {
    EmptyEvaluationId,
    EmptyWorkloadProvenance,
    ObservationCountMismatch { expected: usize, actual: usize },
    EmptyArmId { index: usize },
    DuplicateArmId { arm_id: String },
    ArmOrderOrIdentityMismatch { index: usize, expected: String, actual: String },
    EmptyQualityMetricId { arm_id: String },
    QualityMetricMismatch { expected: String, actual: String, arm_id: String },
    RetainedCardinalityMismatch { arm_id: String, expected: usize, actual: usize },
    EmptyResourceProtocolId { arm_id: String },
    EmptyResourceProvenanceId { arm_id: String },
    ResourceKindMismatch { expected: ResourceEvidenceKind, actual: ResourceEvidenceKind, arm_id: String },
    ResourceProtocolMismatch { expected: String, actual: String, arm_id: String },
    ResourceProvenanceMismatch { expected: String, actual: String, arm_id: String },
    ReferenceModelLatencyForbidden { arm_id: String },
    MeasuredLatencyRequired { arm_id: String },
}

impl MatchedObservationSet {
    /// Contract version of the set.
    pub closed spec fn version(self) -> &'static str {
        self.contract_version
    }

    /// Evaluation identity.
    pub closed spec fn evaluation(self) -> String {
        self.evaluation_id
    }

    /// Workload provenance.
    pub closed spec fn workload(self) -> String {
        self.workload_provenance
    }

    /// Protocol identity of the bound arm set.
    pub closed spec fn protocol(self) -> String {
        self.arm_protocol_id
    }

    /// Bound observations in canonical arm order.
    pub closed spec fn bound(self) -> Seq<MatchedArmObservation> {
        self.observations@
    }

    /// Contract version of the set.
    pub fn contract_version(&self) -> (version: &'static str)
        ensures
            version == self.version(),
    {
        self.contract_version
    }

    /// Evaluation identity.
    pub fn evaluation_id(&self) -> (id: &str)
        ensures
            id@ == self.evaluation()@,
    {
        self.evaluation_id.as_str()
    }

    /// Workload provenance.
    pub fn workload_provenance(&self) -> (provenance: &str)
        ensures
            provenance@ == self.workload()@,
    {
        self.workload_provenance.as_str()
    }

    /// Protocol identity of the bound arm set.
    pub fn arm_protocol_id(&self) -> (id: &str)
        ensures
            id@ == self.protocol()@,
    {
        self.arm_protocol_id.as_str()
    }

    /// Bound observations in canonical arm order.
    pub fn observations(&self) -> (observations: &[MatchedArmObservation])
        ensures
            observations@ == self.bound(),
    {
        self.observations.as_slice()
    }
}

/// Observation `i` fails one of the per-arm checks, the shared contract being
/// that of observation 0.
pub open spec fn observation_rejected(arms: Seq<FrozenArm>, obs: Seq<MatchedArmObservation>, i: int) -> bool {
    let o = obs[i];
    let r = o.resources;
    let first = obs[0];
    ||| o.arm_id@.len() == 0
    ||| exists|j: int| 0 <= j < i && #[trigger] obs[j].arm_id@ == o.arm_id@
    ||| o.arm_id@ != arms[i].arm_id@
    ||| blank(o.quality_metric_id@)
    ||| (i > 0 && o.quality_metric_id@ != first.quality_metric_id@)
    ||| o.retained_units != arms[i].retained_units
    ||| blank(r.protocol_id@)
    ||| blank(r.provenance_id@)
    ||| (r.kind == ResourceEvidenceKind::ReferenceModel && r.latency_ns is Some)
    ||| (r.kind == ResourceEvidenceKind::Measured && r.latency_ns is None)
    ||| (i > 0 && r.kind != first.resources.kind)
    ||| (i > 0 && r.protocol_id@ != first.resources.protocol_id@)
    ||| (i > 0 && r.provenance_id@ != first.resources.provenance_id@)
}

/// `e` is the error of the first failing check of observation `i`.
pub open spec fn observation_error(
    arms: Seq<FrozenArm>,
    obs: Seq<MatchedArmObservation>,
    i: int,
    e: MatchedObservationError,
) -> bool {
    let o = obs[i];
    let r = o.resources;
    let first = obs[0];
    let id = o.arm_id;
    if o.arm_id@.len() == 0 {
        e == MatchedObservationError::EmptyArmId { index: i as usize }
    } else if exists|j: int| 0 <= j < i && #[trigger] obs[j].arm_id@ == o.arm_id@ {
        e == MatchedObservationError::DuplicateArmId { arm_id: id }
    } else if o.arm_id@ != arms[i].arm_id@ {
        e == MatchedObservationError::ArmOrderOrIdentityMismatch { index: i as usize, expected: arms[i].arm_id, actual: id }
    } else if blank(o.quality_metric_id@) {
        e == MatchedObservationError::EmptyQualityMetricId { arm_id: id }
    } else if i > 0 && o.quality_metric_id@ != first.quality_metric_id@ {
        e == MatchedObservationError::QualityMetricMismatch {
            expected: first.quality_metric_id,
            actual: o.quality_metric_id,
            arm_id: id,
        }
    } else if o.retained_units != arms[i].retained_units {
        e == MatchedObservationError::RetainedCardinalityMismatch {
            arm_id: id,
            expected: arms[i].retained_units,
            actual: o.retained_units,
        }
    } else if blank(r.protocol_id@) {
        e == MatchedObservationError::EmptyResourceProtocolId { arm_id: id }
    } else if blank(r.provenance_id@) {
        e == MatchedObservationError::EmptyResourceProvenanceId { arm_id: id }
    } else if r.kind == ResourceEvidenceKind::ReferenceModel && r.latency_ns is Some {
        e == MatchedObservationError::ReferenceModelLatencyForbidden { arm_id: id }
    } else if r.kind == ResourceEvidenceKind::Measured && r.latency_ns is None {
        e == MatchedObservationError::MeasuredLatencyRequired { arm_id: id }
    } else if i > 0 && r.kind != first.resources.kind {
        e == MatchedObservationError::ResourceKindMismatch {
            expected: first.resources.kind,
            actual: r.kind,
            arm_id: id,
        }
    } else if i > 0 && r.protocol_id@ != first.resources.protocol_id@ {
        e == MatchedObservationError::ResourceProtocolMismatch {
            expected: first.resources.protocol_id,
            actual: r.protocol_id,
            arm_id: id,
        }
    } else {
        e == MatchedObservationError::ResourceProvenanceMismatch {
            expected: first.resources.provenance_id,
            actual: r.provenance_id,
            arm_id: id,
        }
    }
}

/// Every observation passes the per-arm checks.
pub open spec fn observations_valid(arms: Seq<FrozenArm>, obs: Seq<MatchedArmObservation>) -> bool {
    forall|i: int| 0 <= i < obs.len() ==> !#[trigger] observation_rejected(arms, obs, i)
}

/// `e` is the error of the first rejected observation.
pub open spec fn observations_error(arms: Seq<FrozenArm>, obs: Seq<MatchedArmObservation>, e: MatchedObservationError) -> bool {
    exists|i: int|
        0 <= i < obs.len() && #[trigger] observation_rejected(arms, obs, i) && (forall|j: int|
            0 <= j < i ==> !#[trigger] observation_rejected(arms, obs, j)) && observation_error(arms, obs, i, e)
}


/// Binds one independently produced observation to every frozen arm.
///
/// The observation order must equal the canonical arm order, so dropping an
/// arm, appending a comparator or relabelling a result fails closed. All arms
/// share one quality metric and one resource evidence contract, those of the
/// first observation. Reference-model accounting cannot carry latency;
/// measured hardware evidence must carry it. Optional traffic stays
/// unavailable instead of being turned into zero. Arms are not ranked.
///
/// # Errors
///
/// [`MatchedObservationError::EmptyEvaluationId`] and
/// [`MatchedObservationError::EmptyWorkloadProvenance`] for blank identities,
/// [`MatchedObservationError::ObservationCountMismatch`] when the counts
/// differ, and then the first failing per-arm check, in the order of
/// [`observation_error`].
pub fn bind_matched_observations(
    arms: &FrozenArmSet,
    evaluation_id: String,
    workload_provenance: String,
    observations: Vec<MatchedArmObservation>,
) -> (result: Result<MatchedObservationSet, MatchedObservationError>)
    ensures
        blank(evaluation_id@) ==> result == Err::<MatchedObservationSet, MatchedObservationError>(
            MatchedObservationError::EmptyEvaluationId,
        ),
        !blank(evaluation_id@) && blank(workload_provenance@) ==> result == Err::<
            MatchedObservationSet,
            MatchedObservationError,
        >(MatchedObservationError::EmptyWorkloadProvenance),
        !blank(evaluation_id@) && !blank(workload_provenance@) && observations@.len() != arms.arms@.len() ==> result
            == Err::<MatchedObservationSet, MatchedObservationError>(
            MatchedObservationError::ObservationCountMismatch {
                expected: arms.arms@.len() as usize,
                actual: observations@.len() as usize,
            },
        ),
        !blank(evaluation_id@) && !blank(workload_provenance@) && observations@.len() == arms.arms@.len() ==> (
        result is Ok <==> observations_valid(arms.arms@, observations@)),
        !blank(evaluation_id@) && !blank(workload_provenance@) && observations@.len() == arms.arms@.len() ==> (
        result matches Err(e) ==> observations_error(arms.arms@, observations@, e)),
        result matches Ok(set) ==> set.version()@ == MATCHED_OBSERVATION_CONTRACT_VERSION@ && set.evaluation()
            == evaluation_id && set.workload() == workload_provenance && set.protocol()@ == arms.protocol_id@
            && set.bound() == observations@,
{
    if is_blank(evaluation_id.as_str()) {
        return Err(MatchedObservationError::EmptyEvaluationId);
    }
    if is_blank(workload_provenance.as_str()) {
        return Err(MatchedObservationError::EmptyWorkloadProvenance);
    }
    if observations.len() != arms.arms.len() {
        return Err(
            MatchedObservationError::ObservationCountMismatch {
                expected: arms.arms.len(),
                actual: observations.len(),
            },
        );
    }
    let ghost a = arms.arms@;
    let ghost obs = observations@;
    let mut ids: Vec<String> = Vec::new();
    let mut index: usize = 0;
    while index < observations.len()
        invariant
            a == arms.arms@,
            obs == observations@,
            obs.len() == a.len(),
            !blank(evaluation_id@),
            !blank(workload_provenance@),
            index <= obs.len(),
            ids@.len() == index,
            forall|k: int| 0 <= k < index ==> #[trigger] ids@[k]@ == obs[k].arm_id@,
            forall|j: int| 0 <= j < index ==> !#[trigger] observation_rejected(a, obs, j),
        decreases obs.len() - index,
    {
        let observation = &observations[index];
        let arm = &arms.arms[index];
        let first = &observations[0];
        let id = &observation.arm_id;
        let ghost i = index as int;
        if id.as_str().unicode_len() == 0 {
            proof {
                assert(observation_rejected(a, obs, i));
            }
            return Err(MatchedObservationError::EmptyArmId { index });
        }
        if contains_id(ids.as_slice(), id) {
            proof {
                let k = choose|k: int| 0 <= k < ids@.len() && #[trigger] ids@[k]@ == id@;
                assert(obs[k].arm_id@ == obs[i].arm_id@);
                assert(observation_rejected(a, obs, i));
            }
            return Err(MatchedObservationError::DuplicateArmId { arm_id: id.clone() });
        }
        proof {
            assert forall|j: int| 0 <= j < i implies #[trigger] obs[j].arm_id@ != obs[i].arm_id@ by {
                assert(ids@[j]@ == obs[j].arm_id@);
            }
        }
        if !(*id == arm.arm_id) {
            proof {
                assert(observation_rejected(a, obs, i));
            }
            return Err(
                MatchedObservationError::ArmOrderOrIdentityMismatch {
                    index,
                    expected: arm.arm_id.clone(),
                    actual: id.clone(),
                },
            );
        }
        if is_blank(observation.quality_metric_id.as_str()) {
            proof {
                assert(observation_rejected(a, obs, i));
            }
            return Err(MatchedObservationError::EmptyQualityMetricId { arm_id: id.clone() });
        }
        if index > 0 && !(observation.quality_metric_id == first.quality_metric_id) {
            proof {
                assert(observation_rejected(a, obs, i));
            }
            return Err(
                MatchedObservationError::QualityMetricMismatch {
                    expected: first.quality_metric_id.clone(),
                    actual: observation.quality_metric_id.clone(),
                    arm_id: id.clone(),
                },
            );
        }
        if observation.retained_units != arm.retained_units {
            proof {
                assert(observation_rejected(a, obs, i));
            }
            return Err(
                MatchedObservationError::RetainedCardinalityMismatch {
                    arm_id: id.clone(),
                    expected: arm.retained_units,
                    actual: observation.retained_units,
                },
            );
        }
        let resource = &observation.resources;
        if is_blank(resource.protocol_id.as_str()) {
            proof {
                assert(observation_rejected(a, obs, i));
            }
            return Err(MatchedObservationError::EmptyResourceProtocolId { arm_id: id.clone() });
        }
        if is_blank(resource.provenance_id.as_str()) {
            proof {
                assert(observation_rejected(a, obs, i));
            }
            return Err(MatchedObservationError::EmptyResourceProvenanceId { arm_id: id.clone() });
        }
        if resource.kind == ResourceEvidenceKind::ReferenceModel && resource.latency_ns.is_some() {
            proof {
                assert(observation_rejected(a, obs, i));
            }
            return Err(MatchedObservationError::ReferenceModelLatencyForbidden { arm_id: id.clone() });
        }
        if resource.kind == ResourceEvidenceKind::Measured && resource.latency_ns.is_none() {
            proof {
                assert(observation_rejected(a, obs, i));
            }
            return Err(MatchedObservationError::MeasuredLatencyRequired { arm_id: id.clone() });
        }
        if index > 0 && resource.kind != first.resources.kind {
            proof {
                assert(observation_rejected(a, obs, i));
            }
            return Err(
                MatchedObservationError::ResourceKindMismatch {
                    expected: first.resources.kind,
                    actual: resource.kind,
                    arm_id: id.clone(),
                },
            );
        }
        if index > 0 && !(resource.protocol_id == first.resources.protocol_id) {
            proof {
                assert(observation_rejected(a, obs, i));
            }
            return Err(
                MatchedObservationError::ResourceProtocolMismatch {
                    expected: first.resources.protocol_id.clone(),
                    actual: resource.protocol_id.clone(),
                    arm_id: id.clone(),
                },
            );
        }
        if index > 0 && !(resource.provenance_id == first.resources.provenance_id) {
            proof {
                assert(observation_rejected(a, obs, i));
            }
            return Err(
                MatchedObservationError::ResourceProvenanceMismatch {
                    expected: first.resources.provenance_id.clone(),
                    actual: resource.provenance_id.clone(),
                    arm_id: id.clone(),
                },
            );
        }
        proof {
            assert(!observation_rejected(a, obs, i));
        }
        ids.push(id.clone());
        index += 1;
    }
    Ok(
        MatchedObservationSet {
            contract_version: MATCHED_OBSERVATION_CONTRACT_VERSION,
            evaluation_id,
            workload_provenance,
            arm_protocol_id: arms.protocol_id.clone(),
            observations,
        },
    )
}

} // verus!
