//! Post-freeze holdout reporting without reselection.
//!
//! Holdout observations are validated against the complete freeze boundary
//! and one resource-evidence contract, then reported in the frozen search
//! order. They are never ranked, screened or used to revise the selection.

use vstd::prelude::*;
use crate::sparsity_rule_evidence::{
    ProvenancedSparsityRuleCandidate, ResourceEvidenceKind, ResourceEvidenceProvenance,
    is_blank, bare_candidates, provenance_blank, contract_drift,
};
use crate::sparsity_rule_search::SparsityRuleCandidate;
use crate::sparsity_semantic_freeze::{
    ExactSparsityRuleBinding, FrozenSparsityRuleSelection, SparsitySemanticFreezeError,
    semantic_holdout_valid, semantic_holdout_error,
};
use crate::sparsity_freeze::frozen_missing;
use crate::sparsity_rule_evidence::blank;

verus! {

/// Final resource report for one frozen holdout evaluation contract.
///
/// `rows` follow the immutable search selection, never a holdout objective.
#[derive(Debug, PartialEq, Eq)]
pub struct HoldoutResourceReport {
    pub resource_evidence: ResourceEvidenceProvenance,
    pub rows: Vec<ProvenancedSparsityRuleCandidate>,
}

/// Fail-closed errors of post-freeze holdout reporting.
#[derive(Clone, Debug, PartialEq, Eq)]
pub enum HoldoutReportError {
    SemanticFreeze(SparsitySemanticFreezeError),
    EmptyProtocolId { candidate_id: String },
    EmptyProvenanceId { candidate_id: String },
    MixedResourceEvidenceKind {
        expected: ResourceEvidenceKind,
        actual: ResourceEvidenceKind,
        candidate_id: String,
    },
    ResourceProtocolMismatch { expected: String, actual: String, candidate_id: String },
    ResourceProvenanceMismatch { expected: String, actual: String, candidate_id: String },
    ValidatedCandidateMissing { candidate_id: String },
}

/// Item `i` has blank provenance, or departs from the contract of item 0.
pub open spec fn report_rejected(c: Seq<ProvenancedSparsityRuleCandidate>, i: int) -> bool {
    provenance_blank(c[i]) || (i > 0 && contract_drift(c, i))
}

/// The error for rejected item `i`, checks taken in order.
pub open spec fn report_error(c: Seq<ProvenancedSparsityRuleCandidate>, i: int) -> HoldoutReportError {
    let expected = c[0].resource_evidence;
    let actual = c[i].resource_evidence;
    let id = c[i].candidate.candidate_id;
    if blank(actual.protocol_id@) {
        HoldoutReportError::EmptyProtocolId { candidate_id: id }
    } else if blank(actual.provenance_id@) {
        HoldoutReportError::EmptyProvenanceId { candidate_id: id }
    } else if actual.kind != expected.kind {
        HoldoutReportError::MixedResourceEvidenceKind {
            expected: expected.kind,
            actual: actual.kind,
            candidate_id: id,
        }
    } else if actual.protocol_id@ != expected.protocol_id@ {
        HoldoutReportError::ResourceProtocolMismatch {
            expected: expected.protocol_id,
            actual: actual.protocol_id,
            candidate_id: id,
        }
    } else {
        HoldoutReportError::ResourceProvenanceMismatch {
            expected: expected.provenance_id,
            actual: actual.provenance_id,
            candidate_id: id,
        }
    }
}

/// `j` is the first item of `c` whose candidate has identifier `id`.
pub open spec fn first_item(c: Seq<ProvenancedSparsityRuleCandidate>, id: Seq<char>, j: int) -> bool {
    &&& 0 <= j < c.len()
    &&& c[j].candidate.candidate_id@ == id
    &&& forall|i: int| 0 <= i < j ==> #[trigger] c[i].candidate.candidate_id@ != id
}

/// `row` is the first holdout item carrying identifier `id`.
pub open spec fn row_matches(
    c: Seq<ProvenancedSparsityRuleCandidate>,
    id: Seq<char>,
    row: ProvenancedSparsityRuleCandidate,
) -> bool {
    exists|j: int| #[trigger] first_item(c, id, j) && row == c[j]
}

/// Row `k` is the holdout item carrying the `k`-th frozen identifier.
pub open spec fn rows_follow_selection(
    rows: Seq<ProvenancedSparsityRuleCandidate>,
    ids: Seq<String>,
    c: Seq<ProvenancedSparsityRuleCandidate>,
) -> bool {
    &&& rows.len() == ids.len()
    &&& forall|k: int| 0 <= k < rows.len() ==> #[trigger] row_matches(c, ids[k]@, rows[k])
}

/// Index of the first item whose candidate has identifier `id`, if any.
fn find_item(c: &[ProvenancedSparsityRuleCandidate], id: &String) -> (found: Option<usize>)
    ensures
        found is None <==> !exists|j: int| 0 <= j < c@.len() && #[trigger] c@[j].candidate.candidate_id@ == id@,
        found matches Some(j) ==> first_item(c@, id@, j as int),
{
    let mut j: usize = 0;
    while j < c.len()
        invariant
            j <= c@.len(),
            forall|i: int| 0 <= i < j ==> #[trigger] c@[i].candidate.candidate_id@ != id@,
        decreases c@.len() - j,
    {
        if c[j].candidate.candidate_id == *id {
            return Some(j);
        }
        j += 1;
    }
    None
}

/// Copies the bare candidates of the provenanced rows.
fn strip(candidates: &[ProvenancedSparsityRuleCandidate]) -> (bare: Vec<SparsityRuleCandidate>)
    ensures
        bare@ == bare_candidates(candidates@),
{
    let mut bare: Vec<SparsityRuleCandidate> = Vec::new();
    let mut i: usize = 0;
    while i < candidates.len()
        invariant
            i <= candidates@.len(),
            bare@ == bare_candidates(candidates@).take(i as int),
        decreases candidates@.len() - i,
    {
        bare.push(candidates[i].candidate.clone());
        proof {
            assert(bare_candidates(candidates@).take(i + 1) =~= bare_candidates(candidates@).take(
                i as int,
            ).push(candidates@[i as int].candidate));
        }
        i += 1;
    }
    proof {
        assert(bare_candidates(candidates@).take(i as int) =~= bare_candidates(candidates@));
    }
    bare
}

/// Validates and reports final holdout observations for one frozen search result.
///
/// Identity, phase, domain size and exact rule semantics are first checked by
/// [`FrozenSparsityRuleSelection::validate_holdout`]; then every row must use
/// one non-blank resource-evidence contract. Rows come back in frozen search
/// order; no holdout objective is read for ordering.
///
/// # Errors
///
/// Returns [`HoldoutReportError`] for freeze or semantic drift and for blank
/// or mixed resource provenance.
pub fn build_holdout_resource_report(
    frozen: &FrozenSparsityRuleSelection,
    candidates: &[ProvenancedSparsityRuleCandidate],
    bindings: &[ExactSparsityRuleBinding],
) -> (result: Result<HoldoutResourceReport, HoldoutReportError>)
    ensures
        result is Ok <==> semantic_holdout_valid(*frozen, bare_candidates(candidates@), bindings@)
            && forall|i: int| 0 <= i < candidates@.len() ==> !#[trigger] report_rejected(candidates@, i),
        !semantic_holdout_valid(*frozen, bare_candidates(candidates@), bindings@) ==> exists|
            e: SparsitySemanticFreezeError,
        |
            semantic_holdout_error(*frozen, bare_candidates(candidates@), bindings@, e) && result
                == Err::<HoldoutResourceReport, HoldoutReportError>(
                HoldoutReportError::SemanticFreeze(e),
            ),
        semantic_holdout_valid(*frozen, bare_candidates(candidates@), bindings@) && (exists|i: int|
            0 <= i < candidates@.len() && #[trigger] report_rejected(candidates@, i)) ==> exists|i: int|
            0 <= i < candidates@.len() && #[trigger] report_rejected(candidates@, i) && (forall|j: int|
                0 <= j < i ==> !#[trigger] report_rejected(candidates@, j)) && result == Err::<
                HoldoutResourceReport,
                HoldoutReportError,
            >(report_error(candidates@, i)),
        result matches Ok(report) ==> report.resource_evidence == candidates@[0].resource_evidence
            && rows_follow_selection(report.rows@, frozen.frozen().ids(), candidates@),
{
    let ghost c = candidates@;
    let bare = strip(candidates);
    match frozen.validate_holdout(bare.as_slice(), bindings) {
        Err(e) => {
            return Err(HoldoutReportError::SemanticFreeze(e));
        },
        Ok(()) => {},
    }
    let ghost ids = frozen.frozen().ids();
    proof {
        assert(c.len() > 0) by {
            assert(bare_candidates(c).len() == c.len());
        }
    }
    let mut i: usize = 0;
    while i < candidates.len()
        invariant
            c == candidates@,
            c.len() > 0,
            i <= c.len(),
            semantic_holdout_valid(*frozen, bare_candidates(c), bindings@),
            forall|j: int| 0 <= j < i ==> !#[trigger] report_rejected(c, j),
        decreases c.len() - i,
    {
        let item = &candidates[i];
        let first = &candidates[0];
        let error = if is_blank(item.resource_evidence.protocol_id.as_str()) {
            Some(HoldoutReportError::EmptyProtocolId { candidate_id: item.candidate.candidate_id.clone() })
        } else if is_blank(item.resource_evidence.provenance_id.as_str()) {
            Some(
                HoldoutReportError::EmptyProvenanceId { candidate_id: item.candidate.candidate_id.clone() },
            )
        } else if i == 0 {
            None
        } else if item.resource_evidence.kind != first.resource_evidence.kind {
            Some(
                HoldoutReportError::MixedResourceEvidenceKind {
                    expected: first.resource_evidence.kind,
                    actual: item.resource_evidence.kind,
                    candidate_id: item.candidate.candidate_id.clone(),
                },
            )
        } else if item.resource_evidence.protocol_id != first.resource_evidence.protocol_id {
            Some(
                HoldoutReportError::ResourceProtocolMismatch {
                    expected: first.resource_evidence.protocol_id.clone(),
                    actual: item.resource_evidence.protocol_id.clone(),
                    candidate_id: item.candidate.candidate_id.clone(),
                },
            )
        } else if item.resource_evidence.provenance_id != first.resource_evidence.provenance_id {
            Some(
                HoldoutReportError::ResourceProvenanceMismatch {
                    expected: first.resource_evidence.provenance_id.clone(),
                    actual: item.resource_evidence.provenance_id.clone(),
                    candidate_id: item.candidate.candidate_id.clone(),
                },
            )
        } else {
            None
        };
        match error {
            Some(e) => {
                proof {
                    assert(report_rejected(c, i as int));
                    assert(e == report_error(c, i as int));
                }
                return Err(e);
            },
            None => {},
        }
        i += 1;
    }
    let frozen_ids = frozen.selection().candidate_ids();
    let mut rows: Vec<ProvenancedSparsityRuleCandidate> = Vec::new();
    let ghost mut positions: Seq<int> = Seq::empty();
    let mut k: usize = 0;
    while k < frozen_ids.len()
        invariant
            c == candidates@,
            frozen_ids@ == ids,
            ids == frozen.frozen().ids(),
            semantic_holdout_valid(*frozen, bare_candidates(c), bindings@),
            c.len() > 0,
            forall|j: int| 0 <= j < c.len() ==> !#[trigger] report_rejected(c, j),
            k <= ids.len(),
            rows@.len() == k,
            positions.len() == k,
            forall|l: int| 0 <= l < k ==> #[trigger] first_item(c, ids[l]@, positions[l]) && rows@[l] == c[positions[l]],
        decreases ids.len() - k,
    {
        match find_item(candidates, &frozen_ids[k]) {
            None => {
                proof {
                    assert(!frozen_missing(ids, bare_candidates(c), k as int));
                    let j = choose|j: int| 0 <= j < bare_candidates(c).len() && #[trigger] bare_candidates(c)[j].candidate_id@ == ids[k as int]@;
                    assert(c[j].candidate.candidate_id@ == ids[k as int]@);
                }
                return Err(
                    HoldoutReportError::ValidatedCandidateMissing { candidate_id: frozen_ids[k].clone() },
                );
            },
            Some(j) => {
                rows.push(candidates[j].clone());
                proof {
                    positions = positions.push(j as int);
                }
            },
        }
        k += 1;
    }
    proof {
        assert forall|l: int| 0 <= l < rows@.len() implies #[trigger] row_matches(c, ids[l]@, rows@[l]) by {
            assert(first_item(c, ids[l]@, positions[l]));
        }
        assert(rows_follow_selection(rows@, ids, c));
    }
    Ok(HoldoutResourceReport { resource_evidence: candidates[0].resource_evidence.clone(), rows })
}

} // verus!
