//! Matched-density baseline requests.
//!
//! Boolean sparsity candidates may only be compared with magnitude, random and
//! structured controls materialised at exactly the same retained cardinality
//! and width. This module holds the frozen protocol of such a comparison and
//! decides, before any control mask is drawn, whether the request is admissible
//! and how many units each structured N:M group keeps.

use vstd::prelude::*;
use crate::sparsity_rule_evidence::{blank, is_blank};
use crate::sparsity_function_mask::MaskCardinality;

verus! {

/// Version of the matched-baseline construction contract.
pub const MATCHED_BASELINE_CONTRACT_VERSION: &'static str = "bl14.matched-baseline-set.v1";

/// Provenance and structure frozen before baseline construction.
#[derive(Clone, Debug, PartialEq, Eq)]
pub struct MatchedBaselineProtocol {
    /// Experiment-owned protocol identity.
    pub protocol_id: String,
    /// Identity of the already-materialised Boolean candidate mask.
    pub boolean_candidate_provenance: String,
    /// Identity of the exact score vector of the magnitude-like baseline.
    pub magnitude_score_provenance: String,
    /// Identity of the exact score vector of the structured baseline.
    pub structured_score_provenance: String,
    /// Identity of the rule that selected the declared random seeds.
    pub random_seed_provenance: String,
    /// Number of consecutive units per structured N:M group.
    pub structured_group_size: usize,
    /// Frozen random-control seeds. Duplicate seeds are rejected.
    pub random_seeds: Vec<u64>,
}

/// Fail-closed errors of a matched-baseline request.
#[derive(Clone, Debug, PartialEq, Eq)]
pub enum MatchedBaselineError {
    EmptyProtocolField { field: &'static str },
    EmptyRandomSeeds,
    DuplicateRandomSeed { seed: u64 },
    ScoreWidthMismatch { baseline: &'static str, expected: usize, actual: usize },
    ZeroStructuredGroupSize,
    StructuredGroupSizeDoesNotDivideTotal { total: usize, group_size: usize },
    StructuredRetainedNotDivisibleAcrossGroups { retained: usize, groups: usize },
}

/// Seed `j` repeats a seed declared before it.
pub open spec fn repeats(s: Seq<u64>, j: int) -> bool {
    exists|i: int| 0 <= i < j && s[i] == s[j]
}

/// Some seed repeats an earlier one.
pub open spec fn has_repeat(s: Seq<u64>) -> bool {
    exists|j: int| 0 <= j < s.len() && #[trigger] repeats(s, j)
}

/// `j` is the first seed that repeats an earlier one.
pub open spec fn is_first_repeat(s: Seq<u64>, j: int) -> bool {
    &&& 0 <= j < s.len()
    &&& repeats(s, j)
    &&& forall|k: int| 0 <= k < j ==> !#[trigger] repeats(s, k)
}

/// The first seed that repeats an earlier one.
pub open spec fn first_repeated_seed(s: Seq<u64>) -> u64 {
    s[choose|j: int| is_first_repeat(s, j)]
}

/// The first protocol defect, in the order the protocol is checked.
pub open spec fn protocol_defect(p: MatchedBaselineProtocol) -> Option<MatchedBaselineError> {
    if blank(p.protocol_id@) {
        Some(MatchedBaselineError::EmptyProtocolField { field: "protocol_id" })
    } else if blank(p.boolean_candidate_provenance@) {
        Some(MatchedBaselineError::EmptyProtocolField { field: "boolean_candidate_provenance" })
    } else if blank(p.magnitude_score_provenance@) {
        Some(MatchedBaselineError::EmptyProtocolField { field: "magnitude_score_provenance" })
    } else if blank(p.structured_score_provenance@) {
        Some(MatchedBaselineError::EmptyProtocolField { field: "structured_score_provenance" })
    } else if blank(p.random_seed_provenance@) {
        Some(MatchedBaselineError::EmptyProtocolField { field: "random_seed_provenance" })
    } else if p.random_seeds@.len() == 0 {
        Some(MatchedBaselineError::EmptyRandomSeeds)
    } else if has_repeat(p.random_seeds@) {
        Some(MatchedBaselineError::DuplicateRandomSeed { seed: first_repeated_seed(p.random_seeds@) })
    } else {
        None
    }
}

/// What a matched-baseline request gives: the units kept per structured group,
/// or its first defect.
pub open spec fn request_outcome(
    c: MaskCardinality,
    magnitude_len: nat,
    structured_len: nat,
    p: MatchedBaselineProtocol,
) -> Result<usize, MatchedBaselineError> {
    let g = p.structured_group_size;
    if protocol_defect(p) is Some {
        Err(protocol_defect(p)->0)
    } else if magnitude_len != c.total {
        Err(MatchedBaselineError::ScoreWidthMismatch {
            baseline: "magnitude",
            expected: c.total,
            actual: magnitude_len as usize,
        })
    } else if structured_len != c.total {
        Err(MatchedBaselineError::ScoreWidthMismatch {
            baseline: "structured",
            expected: c.total,
            actual: structured_len as usize,
        })
    } else if g == 0 {
        Err(MatchedBaselineError::ZeroStructuredGroupSize)
    } else if c.total % g != 0 {
        Err(MatchedBaselineError::StructuredGroupSizeDoesNotDivideTotal { total: c.total, group_size: g })
    } else if c.retained % ((c.total / g) as usize) != 0 {
        Err(MatchedBaselineError::StructuredRetainedNotDivisibleAcrossGroups {
            retained: c.retained,
            groups: (c.total / g) as usize,
        })
    } else {
        Ok((c.retained / ((c.total / g) as usize)) as usize)
    }
}

/// The index of the first seed that repeats an earlier one, if any.
fn first_repeat(seeds: &[u64]) -> (result: Option<usize>)
    ensures
        match result {
            Some(j) => is_first_repeat(seeds@, j as int),
            None => !has_repeat(seeds@),
        },
{
    let mut j: usize = 0;
    while j < seeds.len()
        invariant
            j <= seeds@.len(),
            forall|k: int| 0 <= k < j ==> !#[trigger] repeats(seeds@, k),
        decreases seeds@.len() - j,
    {
        let mut i: usize = 0;
        while i < j
            invariant
                j < seeds@.len(),
                i <= j,
                forall|k: int| 0 <= k < j ==> !#[trigger] repeats(seeds@, k),
                forall|k: int| 0 <= k < i ==> seeds@[k] != seeds@[j as int],
            decreases j - i,
        {
            if seeds[i] == seeds[j] {
                assert(repeats(seeds@, j as int));
                return Some(j);
            }
            i += 1;
        }
        assert(!repeats(seeds@, j as int));
        j += 1;
    }
    None
}

/// Checks the frozen protocol of a matched-baseline request.
///
/// # Errors
///
/// [`MatchedBaselineError::EmptyProtocolField`] names the first blank
/// provenance field; then [`MatchedBaselineError::EmptyRandomSeeds`] and
/// [`MatchedBaselineError::DuplicateRandomSeed`] (the first seed declared twice).
pub fn validate_protocol(protocol: &MatchedBaselineProtocol) -> (result: Result<(), MatchedBaselineError>)
    ensures
        match protocol_defect(*protocol) {
            Some(e) => result == Err::<(), MatchedBaselineError>(e),
            None => result is Ok,
        },
{
    if is_blank(protocol.protocol_id.as_str()) {
        return Err(MatchedBaselineError::EmptyProtocolField { field: "protocol_id" });
    }
    if is_blank(protocol.boolean_candidate_provenance.as_str()) {
        return Err(MatchedBaselineError::EmptyProtocolField { field: "boolean_candidate_provenance" });
    }
    if is_blank(protocol.magnitude_score_provenance.as_str()) {
        return Err(MatchedBaselineError::EmptyProtocolField { field: "magnitude_score_provenance" });
    }
    if is_blank(protocol.structured_score_provenance.as_str()) {
        return Err(MatchedBaselineError::EmptyProtocolField { field: "structured_score_provenance" });
    }
    if is_blank(protocol.random_seed_provenance.as_str()) {
        return Err(MatchedBaselineError::EmptyProtocolField { field: "random_seed_provenance" });
    }
    if protocol.random_seeds.len() == 0 {
        return Err(MatchedBaselineError::EmptyRandomSeeds);
    }
    match first_repeat(protocol.random_seeds.as_slice()) {
        Some(j) => {
            let ghost s = protocol.random_seeds@;
            proof {
                let c = choose|k: int| is_first_repeat(s, k);
                assert(is_first_repeat(s, c));
                if c < j {
                    assert(!repeats(s, c));
                } else if j < c {
                    assert(!repeats(s, j as int));
                }
            }
            Err(MatchedBaselineError::DuplicateRandomSeed { seed: protocol.random_seeds[j] })
        },
        None => Ok(()),
    }
}

/// Requires a score vector of exactly the candidate's width.
///
/// # Errors
///
/// [`MatchedBaselineError::ScoreWidthMismatch`] when the widths differ.
pub fn require_score_width(baseline: &'static str, actual: usize, expected: usize) -> (result: Result<(), MatchedBaselineError>)
    ensures
        actual == expected ==> result is Ok,
        actual != expected ==> result == Err::<(), MatchedBaselineError>(
            MatchedBaselineError::ScoreWidthMismatch { baseline, expected, actual },
        ),
{
    if actual != expected {
        return Err(MatchedBaselineError::ScoreWidthMismatch { baseline, expected, actual });
    }
    Ok(())
}

/// Admits a matched-baseline request for a Boolean candidate of cardinality
/// `candidate` and gives the number of units each structured N:M group keeps.
///
/// The structured shape is accepted only when the candidate's retained count
/// spreads uniformly over complete groups; density is never rounded to
/// manufacture a match.
///
/// # Errors
///
/// Protocol defects (see [`validate_protocol`]), then score-width drift of the
/// magnitude and structured scores, a zero group size, a group size that does
/// not divide the width, and a retained count that does not spread over the
/// groups.
pub fn plan_matched_baselines(
    candidate: MaskCardinality,
    magnitude_scores: &[u64],
    structured_scores: &[u64],
    protocol: &MatchedBaselineProtocol,
) -> (result: Result<usize, MatchedBaselineError>)
    requires
        candidate.total > 0,
    ensures
        result == request_outcome(candidate, magnitude_scores@.len(), structured_scores@.len(), *protocol),
{
    if let Err(e) = validate_protocol(protocol) {
        return Err(e);
    }
    let total = candidate.total;
    let retained = candidate.retained;
    if let Err(e) = require_score_width("magnitude", magnitude_scores.len(), total) {
        return Err(e);
    }
    if let Err(e) = require_score_width("structured", structured_scores.len(), total) {
        return Err(e);
    }
    let group_size = protocol.structured_group_size;
    if group_size == 0 {
        return Err(MatchedBaselineError::ZeroStructuredGroupSize);
    }
    if total % group_size != 0 {
        return Err(MatchedBaselineError::StructuredGroupSizeDoesNotDivideTotal { total, group_size });
    }
    let groups = total / group_size;
    proof {
        assert(groups > 0) by (nonlinear_arith)
            requires
                total > 0,
                group_size > 0,
                total % group_size == 0,
                groups == total / group_size,
        ;
    }
    if retained % groups != 0 {
        return Err(MatchedBaselineError::StructuredRetainedNotDivisibleAcrossGroups { retained, groups });
    }
    Ok(retained / groups)
}

} // verus!
