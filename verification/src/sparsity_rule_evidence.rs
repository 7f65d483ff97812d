//! Resource-provenance guard for Pareto screening of sparsity rules.
//!
//! Resource objectives are only comparable under one evidence contract: the
//! same kind (reference model or measurement), protocol and provenance. Mixed
//! evidence, blank provenance and holdout evidence are rejected before any
//! dominance comparison.

use vstd::prelude::*;
use vstd::string::StrSliceExecFns;
use crate::sparsity_rule_search::{
    pareto_outcome,
    SparsityEvaluationPhase, SparsityRuleCandidate, SparsityRuleSearchError,
    pareto_frontier_indices, candidates_valid, is_frontier, validation_error,
};

verus! {

/// Origin of the resource objectives of a candidate.
#[derive(Clone, Copy, Debug, PartialEq, Eq, Hash, Structural)]
pub enum ResourceEvidenceKind {
    /// Deterministic accounting under a declared reference model.
    ReferenceModel,
    /// Measurements under a declared hardware or timing protocol.
    Measured,
}

/// Provenance that makes resource comparisons interpretable.
#[derive(Debug, PartialEq, Eq)]
pub struct ResourceEvidenceProvenance {
    pub kind: ResourceEvidenceKind,
    pub protocol_id: String,
    pub provenance_id: String,
}

/// One candidate together with the provenance of its resource objectives.
#[derive(Debug, PartialEq, Eq)]
pub struct ProvenancedSparsityRuleCandidate {
    pub candidate: SparsityRuleCandidate,
    pub resource_evidence: ResourceEvidenceProvenance,
}

impl Clone for ResourceEvidenceProvenance {
    fn clone(&self) -> (copy: Self)
        ensures
            copy == *self,
    {
        ResourceEvidenceProvenance {
            kind: self.kind,
            protocol_id: self.protocol_id.clone(),
            provenance_id: self.provenance_id.clone(),
        }
    }
}

impl Clone for ProvenancedSparsityRuleCandidate {
    fn clone(&self) -> (copy: Self)
        ensures
            copy == *self,
    {
        ProvenancedSparsityRuleCandidate {
            candidate: self.candidate.clone(),
            resource_evidence: self.resource_evidence.clone(),
        }
    }
}

/// Fail-closed errors of provenance-aware screening.
#[derive(Clone, Debug, PartialEq, Eq)]
pub enum SparsityRuleEvidenceError {
    EmptyProtocolId { candidate_id: String },
    EmptyProvenanceId { candidate_id: String },
    HoldoutScreeningForbidden { candidate_id: String },
    MixedResourceEvidenceKind {
        expected: ResourceEvidenceKind,
        actual: ResourceEvidenceKind,
        candidate_id: String,
    },
    ResourceProtocolMismatch { expected: String, actual: String, candidate_id: String },
    ResourceProvenanceMismatch { expected: String, actual: String, candidate_id: String },
    Candidate(SparsityRuleSearchError),
}

/// Unicode `White_Space`, the property that `char::is_whitespace` tests.
pub open spec fn is_white_space(c: char) -> bool {
    let u = c as u32;
    ||| 0x09 <= u <= 0x0d
    ||| u == 0x20
    ||| u == 0x85
    ||| u == 0xa0
    ||| u == 0x1680
    ||| 0x2000 <= u <= 0x200a
    ||| u == 0x2028
    ||| u == 0x2029
    ||| u == 0x202f
    ||| u == 0x205f
    ||| u == 0x3000
}

/// Nothing but white space is left once `s` is trimmed.
pub open spec fn blank(s: Seq<char>) -> bool {
    forall|i: int| 0 <= i < s.len() ==> #[trigger] is_white_space(s[i])
}

/// Whether `c` is Unicode white space.
pub fn white_space(c: char) -> (result: bool)
    ensures
        result == is_white_space(c),
{
    let u = c as u32;
    (0x09 <= u && u <= 0x0d) || u == 0x20 || u == 0x85 || u == 0xa0 || u == 0x1680 || (0x2000
        <= u && u <= 0x200a) || u == 0x2028 || u == 0x2029 || u == 0x202f || u == 0x205f || u
        == 0x3000
}

/// Whether `s` is empty once leading and trailing white space are trimmed.
pub fn is_blank(s: &str) -> (result: bool)
    ensures
        result == blank(s@),
{
    let n = s.unicode_len();
    let mut i: usize = 0;
    while i < n
        invariant
            n == s@.len(),
            i <= n,
            forall|j: int| 0 <= j < i ==> #[trigger] is_white_space(s@[j]),
        decreases n - i,
    {
        if !white_space(s.get_char(i)) {
            return false;
        }
        i += 1;
    }
    true
}

/// The bare candidates of a provenanced population.
pub open spec fn bare_candidates(c: Seq<ProvenancedSparsityRuleCandidate>) -> Seq<SparsityRuleCandidate> {
    c.map_values(|x: ProvenancedSparsityRuleCandidate| x.candidate)
}

/// Item `i` has a blank protocol or provenance identifier.
pub open spec fn provenance_blank(x: ProvenancedSparsityRuleCandidate) -> bool {
    blank(x.resource_evidence.protocol_id@) || blank(x.resource_evidence.provenance_id@)
}

/// The error for blank provenance of `x`.
pub open spec fn blank_provenance_error(x: ProvenancedSparsityRuleCandidate) -> SparsityRuleEvidenceError {
    if blank(x.resource_evidence.protocol_id@) {
        SparsityRuleEvidenceError::EmptyProtocolId { candidate_id: x.candidate.candidate_id }
    } else {
        SparsityRuleEvidenceError::EmptyProvenanceId { candidate_id: x.candidate.candidate_id }
    }
}

/// Item `i` departs from the evidence contract of item 0.
pub open spec fn contract_drift(c: Seq<ProvenancedSparsityRuleCandidate>, i: int) -> bool {
    let expected = c[0].resource_evidence;
    let actual = c[i].resource_evidence;
    actual.kind != expected.kind || actual.protocol_id@ != expected.protocol_id@
        || actual.provenance_id@ != expected.provenance_id@
}

/// The error for the contract drift of item `i` against item 0.
pub open spec fn contract_drift_error(c: Seq<ProvenancedSparsityRuleCandidate>, i: int) -> SparsityRuleEvidenceError {
    let expected = c[0].resource_evidence;
    let actual = c[i].resource_evidence;
    let id = c[i].candidate.candidate_id;
    if actual.kind != expected.kind {
        SparsityRuleEvidenceError::MixedResourceEvidenceKind {
            expected: expected.kind,
            actual: actual.kind,
            candidate_id: id,
        }
    } else if actual.protocol_id@ != expected.protocol_id@ {
        SparsityRuleEvidenceError::ResourceProtocolMismatch {
            expected: expected.protocol_id,
            actual: actual.protocol_id,
            candidate_id: id,
        }
    } else {
        SparsityRuleEvidenceError::ResourceProvenanceMismatch {
            expected: expected.provenance_id,
            actual: actual.provenance_id,
            candidate_id: id,
        }
    }
}

/// Item `i` is rejected by the provenance checks.
pub open spec fn evidence_rejected(c: Seq<ProvenancedSparsityRuleCandidate>, i: int) -> bool {
    ||| provenance_blank(c[i])
    ||| i == 0 && c[0].candidate.phase == SparsityEvaluationPhase::Holdout
    ||| i > 0 && contract_drift(c, i)
}

/// The error reported for rejected item `i`, checks taken in order.
pub open spec fn evidence_error(c: Seq<ProvenancedSparsityRuleCandidate>, i: int) -> SparsityRuleEvidenceError {
    if provenance_blank(c[i]) {
        blank_provenance_error(c[i])
    } else if i == 0 {
        SparsityRuleEvidenceError::HoldoutScreeningForbidden { candidate_id: c[0].candidate.candidate_id }
    } else {
        contract_drift_error(c, i)
    }
}

/// No item of `c` is rejected by the provenance checks.
pub open spec fn evidence_consistent(c: Seq<ProvenancedSparsityRuleCandidate>) -> bool {
    forall|i: int| 0 <= i < c.len() ==> !#[trigger] evidence_rejected(c, i)
}

/// Builds the bare candidate population.
fn strip_provenance(candidates: &[ProvenancedSparsityRuleCandidate]) -> (bare: Vec<SparsityRuleCandidate>)
    ensures
        bare@ == bare_candidates(candidates@),
{
    let mut bare: Vec<SparsityRuleCandidate> = Vec::new();
    let mut i: usize = 0;
    while i < candidates.len()
        invariant
            i <= candidates@.len(),
            bare@ == bare_candidates(candidates@).take(i as int),
        decreases candidates@.len() - i,
    {
        bare.push(candidates[i].candidate.clone());
        proof {
            assert(bare_candidates(candidates@).take(i + 1) =~= bare_candidates(candidates@).take(
                i as int,
            ).push(candidates@[i as int].candidate));
        }
        i += 1;
    }
    proof {
        assert(bare_candidates(candidates@).take(i as int) =~= bare_candidates(candidates@));
    }
    bare
}

/// Computes the search Pareto frontier once every candidate is shown to use
/// one non-blank resource-evidence contract.
///
/// # Errors
///
/// Rejects blank or mixed provenance, holdout evidence, and any candidate
/// population that [`pareto_frontier_indices`] rejects.
pub fn pareto_frontier_indices_with_resource_provenance(
    candidates: &[ProvenancedSparsityRuleCandidate],
) -> (result: Result<Vec<usize>, SparsityRuleEvidenceError>)
    ensures
        result is Ok <==> candidates@.len() > 0 && evidence_consistent(candidates@) && candidates_valid(
            bare_candidates(candidates@),
        ),
        result matches Ok(frontier) ==> is_frontier(bare_candidates(candidates@), frontier@),
        candidates@.len() == 0 ==> result == Err::<Vec<usize>, SparsityRuleEvidenceError>(
            SparsityRuleEvidenceError::Candidate(SparsityRuleSearchError::EmptyCandidates),
        ),
        !evidence_consistent(candidates@) ==> exists|i: int|
            0 <= i < candidates@.len() && #[trigger] evidence_rejected(candidates@, i) && (forall|j: int|
                0 <= j < i ==> !#[trigger] evidence_rejected(candidates@, j)) && result == Err::<
                Vec<usize>,
                SparsityRuleEvidenceError,
            >(evidence_error(candidates@, i)),
        candidates@.len() > 0 && evidence_consistent(candidates@) && !candidates_valid(
            bare_candidates(candidates@),
        ) ==> exists|e: SparsityRuleSearchError|
            validation_error(bare_candidates(candidates@), e) && result == Err::<
                Vec<usize>,
                SparsityRuleEvidenceError,
            >(SparsityRuleEvidenceError::Candidate(e)),
        candidates@.len() > 0 && evidence_consistent(candidates@) ==> match pareto_outcome(bare_candidates(candidates@)) {
            Ok(s) => (result matches Ok(frontier) && frontier@ == s),
            Err(e) => result == Err::<Vec<usize>, SparsityRuleEvidenceError>(SparsityRuleEvidenceError::Candidate(e)),
        },
{
    let ghost c = candidates@;
    if candidates.len() == 0 {
        return Err(SparsityRuleEvidenceError::Candidate(SparsityRuleSearchError::EmptyCandidates));
    }
    let mut i: usize = 0;
    while i < candidates.len()
        invariant
            c == candidates@,
            c.len() > 0,
            i <= c.len(),
            forall|j: int| 0 <= j < i ==> !#[trigger] evidence_rejected(c, j),
        decreases c.len() - i,
    {
        let item = &candidates[i];
        let first = &candidates[0];
        let error = if is_blank(item.resource_evidence.protocol_id.as_str()) {
            Some(
                SparsityRuleEvidenceError::EmptyProtocolId {
                    candidate_id: item.candidate.candidate_id.clone(),
                },
            )
        } else if is_blank(item.resource_evidence.provenance_id.as_str()) {
            Some(
                SparsityRuleEvidenceError::EmptyProvenanceId {
                    candidate_id: item.candidate.candidate_id.clone(),
                },
            )
        } else if i == 0 {
            if item.candidate.phase == SparsityEvaluationPhase::Holdout {
                Some(
                    SparsityRuleEvidenceError::HoldoutScreeningForbidden {
                        candidate_id: item.candidate.candidate_id.clone(),
                    },
                )
            } else {
                None
            }
        } else if item.resource_evidence.kind != first.resource_evidence.kind {
            Some(
                SparsityRuleEvidenceError::MixedResourceEvidenceKind {
                    expected: first.resource_evidence.kind,
                    actual: item.resource_evidence.kind,
                    candidate_id: item.candidate.candidate_id.clone(),
                },
            )
        } else if item.resource_evidence.protocol_id != first.resource_evidence.protocol_id {
            Some(
                SparsityRuleEvidenceError::ResourceProtocolMismatch {
                    expected: first.resource_evidence.protocol_id.clone(),
                    actual: item.resource_evidence.protocol_id.clone(),
                    candidate_id: item.candidate.candidate_id.clone(),
                },
            )
        } else if item.resource_evidence.provenance_id != first.resource_evidence.provenance_id {
            Some(
                SparsityRuleEvidenceError::ResourceProvenanceMismatch {
                    expected: first.resource_evidence.provenance_id.clone(),
                    actual: item.resource_evidence.provenance_id.clone(),
                    candidate_id: item.candidate.candidate_id.clone(),
                },
            )
        } else {
            None
        };
        match error {
            Some(e) => {
                proof {
                    assert(evidence_rejected(c, i as int));
                    assert(e == evidence_error(c, i as int));
                }
                return Err(e);
            },
            None => {},
        }
        i += 1;
    }
    let bare = strip_provenance(candidates);
    match pareto_frontier_indices(bare.as_slice()) {
        Ok(frontier) => Ok(frontier),
        Err(e) => Err(SparsityRuleEvidenceError::Candidate(e)),
    }
}

} // verus!
