//! Exact multi-objective screening of evaluated Boolean sparsity rules.
//!
//! Search evidence and final holdout evidence are kept apart: a frontier is
//! only ever computed over one evidence phase and one evaluation-domain size.

use vstd::prelude::*;
use crate::baseline::{
    BaselineConfig, BaselineError, run_boolean_baseline, baseline_population, config_valid,
    config_error,
};
use crate::function::{BooleanFunction, function_fingerprint};
use crate::text::{push_text, push_decimal, push_hex, decimal_text, hex_text};

verus! {

/// Evidence partition of an evaluated candidate.
#[derive(Clone, Copy, Debug, PartialEq, Eq, Hash, Structural)]
pub enum SparsityEvaluationPhase {
    /// Evidence that a search procedure may inspect while selecting rules.
    Search,
    /// Frozen final evidence that must not feed back into rule selection.
    Holdout,
}

/// Exact objective vector for one already-evaluated Boolean sparsity rule.
///
/// Every objective is minimized; `quality_loss_units` is signed so that a
/// measured improvement over the reference can be represented.
#[derive(Debug, PartialEq, Eq)]
pub struct SparsityRuleCandidate {
    pub candidate_id: String,
    pub phase: SparsityEvaluationPhase,
    pub quality_loss_units: i64,
    pub retained_units: u64,
    pub total_units: u64,
    pub controller_cost_units: u64,
    pub effective_compute_units: u64,
    pub memory_traffic_bytes: u64,
    pub latency_ns: u64,
    pub rule_complexity_units: u64,
}

impl Clone for SparsityRuleCandidate {
    fn clone(&self) -> (copy: Self)
        ensures
            copy == *self,
    {
        SparsityRuleCandidate {
            candidate_id: self.candidate_id.clone(),
            phase: self.phase,
            quality_loss_units: self.quality_loss_units,
            retained_units: self.retained_units,
            total_units: self.total_units,
            controller_cost_units: self.controller_cost_units,
            effective_compute_units: self.effective_compute_units,
            memory_traffic_bytes: self.memory_traffic_bytes,
            latency_ns: self.latency_ns,
            rule_complexity_units: self.rule_complexity_units,
        }
    }
}

/// Fail-closed validation errors for candidate screening.
#[derive(Clone, Debug, PartialEq, Eq)]
pub enum SparsityRuleSearchError {
    EmptyCandidates,
    EmptyCandidateId { index: usize },
    DuplicateCandidateId { candidate_id: String },
    ZeroTotalUnits { candidate_id: String },
    RetainedUnitsExceedTotal { candidate_id: String, retained_units: u64, total_units: u64 },
    MixedEvaluationPhase {
        expected: SparsityEvaluationPhase,
        actual: SparsityEvaluationPhase,
        candidate_id: String,
    },
    EvaluationDomainSizeMismatch {
        expected_total_units: u64,
        actual_total_units: u64,
        candidate_id: String,
    },
}

/// `left` is no worse than `right` in every objective and strictly better in one.
pub open spec fn dominates_spec(left: SparsityRuleCandidate, right: SparsityRuleCandidate) -> bool {
    let no_worse = left.quality_loss_units <= right.quality_loss_units && left.retained_units
        <= right.retained_units && left.controller_cost_units <= right.controller_cost_units
        && left.effective_compute_units <= right.effective_compute_units
        && left.memory_traffic_bytes <= right.memory_traffic_bytes && left.latency_ns
        <= right.latency_ns && left.rule_complexity_units <= right.rule_complexity_units;
    let strictly_better = left.quality_loss_units < right.quality_loss_units || left.retained_units
        < right.retained_units || left.controller_cost_units < right.controller_cost_units
        || left.effective_compute_units < right.effective_compute_units
        || left.memory_traffic_bytes < right.memory_traffic_bytes || left.latency_ns
        < right.latency_ns || left.rule_complexity_units < right.rule_complexity_units;
    no_worse && strictly_better
}

/// No other candidate of `c` dominates candidate `i`.
pub open spec fn undominated(c: Seq<SparsityRuleCandidate>, i: int) -> bool {
    forall|j: int| 0 <= j < c.len() && j != i ==> !#[trigger] dominates_spec(c[j], c[i])
}

/// Pareto dominance over the seven objectives (quality loss, retained units,
/// controller cost, effective compute, memory traffic, latency, rule
/// complexity; all lower is better): `left` dominates `right` exactly when it
/// is no worse in all seven and strictly better in at least one, so a strict
/// gain in any single objective without a loss elsewhere is dominance.
pub proof fn lemma_dominance_is_pareto(left: SparsityRuleCandidate, right: SparsityRuleCandidate)
    ensures
        ({
            let no_worse = left.quality_loss_units <= right.quality_loss_units && left.retained_units
                <= right.retained_units && left.controller_cost_units <= right.controller_cost_units
                && left.effective_compute_units <= right.effective_compute_units && left.memory_traffic_bytes
                <= right.memory_traffic_bytes && left.latency_ns <= right.latency_ns && left.rule_complexity_units
                <= right.rule_complexity_units;
            &&& dominates_spec(left, right) ==> no_worse
            &&& dominates_spec(left, right) ==> left.quality_loss_units < right.quality_loss_units
                || left.retained_units < right.retained_units || left.controller_cost_units
                < right.controller_cost_units || left.effective_compute_units < right.effective_compute_units
                || left.memory_traffic_bytes < right.memory_traffic_bytes || left.latency_ns < right.latency_ns
                || left.rule_complexity_units < right.rule_complexity_units
            &&& no_worse && left.quality_loss_units < right.quality_loss_units ==> dominates_spec(left, right)
            &&& no_worse && left.retained_units < right.retained_units ==> dominates_spec(left, right)
            &&& no_worse && left.controller_cost_units < right.controller_cost_units ==> dominates_spec(left, right)
            &&& no_worse && left.effective_compute_units < right.effective_compute_units ==> dominates_spec(
                left,
                right,
            )
            &&& no_worse && left.memory_traffic_bytes < right.memory_traffic_bytes ==> dominates_spec(left, right)
            &&& no_worse && left.latency_ns < right.latency_ns ==> dominates_spec(left, right)
            &&& no_worse && left.rule_complexity_units < right.rule_complexity_units ==> dominates_spec(left, right)
            &&& !dominates_spec(left, left)
        }),
{
}

/// `s` lists, in increasing order, exactly the undominated indices of `c`.
pub open spec fn is_frontier(c: Seq<SparsityRuleCandidate>, s: Seq<usize>) -> bool {
    &&& forall|k: int| 0 <= k < s.len() ==> #[trigger] s[k] < c.len() && undominated(c, s[k] as int)
    &&& forall|k: int, l: int| 0 <= k < l < s.len() ==> #[trigger] s[k] < #[trigger] s[l]
    &&& forall|i: int|
        0 <= i < c.len() && undominated(c, i) ==> exists|k: int| 0 <= k < s.len() && #[trigger] s[k] == i
}

/// Candidate `i` repeats the identifier of an earlier candidate.
pub open spec fn id_seen_before(c: Seq<SparsityRuleCandidate>, i: int) -> bool {
    exists|j: int| 0 <= j < i && #[trigger] c[j].candidate_id@ == c[i].candidate_id@
}

/// Candidate `i` breaks one of the screening preconditions.
pub open spec fn candidate_rejected(c: Seq<SparsityRuleCandidate>, i: int) -> bool {
    ||| c[i].candidate_id@.len() == 0
    ||| id_seen_before(c, i)
    ||| c[i].total_units == 0
    ||| c[i].retained_units > c[i].total_units
    ||| c[i].phase != c[0].phase
    ||| c[i].total_units != c[0].total_units
}

/// A non-empty population in which no candidate is rejected.
pub open spec fn candidates_valid(c: Seq<SparsityRuleCandidate>) -> bool {
    c.len() > 0 && forall|i: int| 0 <= i < c.len() ==> !#[trigger] candidate_rejected(c, i)
}

/// The error reported for rejected candidate `i`, the checks taken in order.
pub open spec fn rejection_error(
    c: Seq<SparsityRuleCandidate>,
    i: int,
    e: SparsityRuleSearchError,
) -> bool {
    let x = c[i];
    if x.candidate_id@.len() == 0 {
        e == SparsityRuleSearchError::EmptyCandidateId { index: i as usize }
    } else if id_seen_before(c, i) {
        e == SparsityRuleSearchError::DuplicateCandidateId { candidate_id: x.candidate_id }
    } else if x.total_units == 0 {
        e == SparsityRuleSearchError::ZeroTotalUnits { candidate_id: x.candidate_id }
    } else if x.retained_units > x.total_units {
        e == SparsityRuleSearchError::RetainedUnitsExceedTotal {
            candidate_id: x.candidate_id,
            retained_units: x.retained_units,
            total_units: x.total_units,
        }
    } else if x.phase != c[0].phase {
        e == SparsityRuleSearchError::MixedEvaluationPhase {
            expected: c[0].phase,
            actual: x.phase,
            candidate_id: x.candidate_id,
        }
    } else {
        e == SparsityRuleSearchError::EvaluationDomainSizeMismatch {
            expected_total_units: c[0].total_units,
            actual_total_units: x.total_units,
            candidate_id: x.candidate_id,
        }
    }
}

/// `e` is the error for the first rejected candidate (or for an empty population).
pub open spec fn validation_error(c: Seq<SparsityRuleCandidate>, e: SparsityRuleSearchError) -> bool {
    if c.len() == 0 {
        e == SparsityRuleSearchError::EmptyCandidates
    } else {
        exists|i: int|
            0 <= i < c.len() && #[trigger] candidate_rejected(c, i) && (forall|j: int|
                0 <= j < i ==> !#[trigger] candidate_rejected(c, j)) && rejection_error(c, i, e)
    }
}

/// What screening `c` gives: its frontier when every candidate is admissible,
/// else the error for the first rejected candidate.
pub open spec fn pareto_outcome(c: Seq<SparsityRuleCandidate>) -> Result<Seq<usize>, SparsityRuleSearchError> {
    if candidates_valid(c) {
        Ok(choose|s: Seq<usize>| is_frontier(c, s))
    } else {
        Err(choose|e: SparsityRuleSearchError| validation_error(c, e))
    }
}

/// Two strictly increasing sequences with the same members are equal.
proof fn lemma_increasing_determined_by_members(a: Seq<usize>, b: Seq<usize>)
    requires
        forall|k: int, l: int| 0 <= k < l < a.len() ==> #[trigger] a[k] < #[trigger] a[l],
        forall|k: int, l: int| 0 <= k < l < b.len() ==> #[trigger] b[k] < #[trigger] b[l],
        forall|x: usize| a.contains(x) <==> b.contains(x),
    ensures
        a == b,
    decreases a.len(),
{
    if a.len() == 0 {
        if b.len() > 0 {
            assert(b.contains(b[0]));
        }
    } else if b.len() == 0 {
        assert(a.contains(a[0]));
    } else {
        let x = a.last();
        let y = b.last();
        assert(a.contains(x));
        assert(b.contains(y));
        let i = choose|i: int| 0 <= i < b.len() && b[i] == x;
        let j = choose|j: int| 0 <= j < a.len() && a[j] == y;
        if i < b.len() - 1 {
            assert(b[i] < b[b.len() - 1]);
        }
        if j < a.len() - 1 {
            assert(a[j] < a[a.len() - 1]);
        }
        assert(x == y);
        let a2 = a.drop_last();
        let b2 = b.drop_last();
        assert forall|z: usize| a2.contains(z) <==> b2.contains(z) by {
            if a2.contains(z) {
                let k = choose|k: int| 0 <= k < a2.len() && a2[k] == z;
                assert(a[k] < a[a.len() - 1]);
                assert(a.contains(z));
                let m = choose|m: int| 0 <= m < b.len() && b[m] == z;
                if m == b.len() - 1 {
                    assert(false);
                }
                assert(b2[m] == z);
            }
            if b2.contains(z) {
                let k = choose|k: int| 0 <= k < b2.len() && b2[k] == z;
                assert(b[k] < b[b.len() - 1]);
                assert(b.contains(z));
                let m = choose|m: int| 0 <= m < a.len() && a[m] == z;
                if m == a.len() - 1 {
                    assert(false);
                }
                assert(a2[m] == z);
            }
        }
        lemma_increasing_determined_by_members(a2, b2);
        assert(a =~= a2.push(x));
        assert(b =~= b2.push(y));
    }
}

/// A population has at most one frontier.
pub proof fn lemma_frontier_unique(c: Seq<SparsityRuleCandidate>, s1: Seq<usize>, s2: Seq<usize>)
    requires
        is_frontier(c, s1),
        is_frontier(c, s2),
    ensures
        s1 == s2,
{
    assert forall|x: usize| s1.contains(x) <==> s2.contains(x) by {
        if s1.contains(x) {
            let k = choose|k: int| 0 <= k < s1.len() && s1[k] == x;
            assert(s1[k] < c.len() && undominated(c, s1[k] as int));
            let l = choose|l: int| 0 <= l < s2.len() && #[trigger] s2[l] == x as int;
            assert(s2[l] == x);
        }
        if s2.contains(x) {
            let k = choose|k: int| 0 <= k < s2.len() && s2[k] == x;
            assert(s2[k] < c.len() && undominated(c, s2[k] as int));
            let l = choose|l: int| 0 <= l < s1.len() && #[trigger] s1[l] == x as int;
            assert(s1[l] == x);
        }
    }
    lemma_increasing_determined_by_members(s1, s2);
}

/// A population has at most one validation error.
pub proof fn lemma_validation_error_unique(c: Seq<SparsityRuleCandidate>, e1: SparsityRuleSearchError, e2: SparsityRuleSearchError)
    requires
        validation_error(c, e1),
        validation_error(c, e2),
    ensures
        e1 == e2,
{
    if c.len() > 0 {
        let i1 = choose|i: int|
            0 <= i < c.len() && #[trigger] candidate_rejected(c, i) && (forall|j: int|
                0 <= j < i ==> !#[trigger] candidate_rejected(c, j)) && rejection_error(c, i, e1);
        let i2 = choose|i: int|
            0 <= i < c.len() && #[trigger] candidate_rejected(c, i) && (forall|j: int|
                0 <= j < i ==> !#[trigger] candidate_rejected(c, j)) && rejection_error(c, i, e2);
        if i1 < i2 {
            assert(!candidate_rejected(c, i1));
        } else if i2 < i1 {
            assert(!candidate_rejected(c, i2));
        }
    }
}

/// Whether `left` Pareto-dominates `right`.
pub fn dominates(left: &SparsityRuleCandidate, right: &SparsityRuleCandidate) -> (result: bool)
    ensures
        result == dominates_spec(*left, *right),
{
    let no_worse = left.quality_loss_units <= right.quality_loss_units && left.retained_units
        <= right.retained_units && left.controller_cost_units <= right.controller_cost_units
        && left.effective_compute_units <= right.effective_compute_units
        && left.memory_traffic_bytes <= right.memory_traffic_bytes && left.latency_ns
        <= right.latency_ns && left.rule_complexity_units <= right.rule_complexity_units;
    let strictly_better = left.quality_loss_units < right.quality_loss_units || left.retained_units
        < right.retained_units || left.controller_cost_units < right.controller_cost_units
        || left.effective_compute_units < right.effective_compute_units
        || left.memory_traffic_bytes < right.memory_traffic_bytes || left.latency_ns
        < right.latency_ns || left.rule_complexity_units < right.rule_complexity_units;
    no_worse && strictly_better
}

/// Whether some candidate before index `i` carries the same identifier.
fn id_repeated(candidates: &[SparsityRuleCandidate], i: usize) -> (repeated: bool)
    requires
        i < candidates@.len(),
    ensures
        repeated == id_seen_before(candidates@, i as int),
{
    let mut j: usize = 0;
    while j < i
        invariant
            j <= i < candidates@.len(),
            forall|k: int| 0 <= k < j ==> candidates@[k].candidate_id@ != candidates@[i as int].candidate_id@,
        decreases i - j,
    {
        if candidates[j].candidate_id == candidates[i].candidate_id {
            return true;
        }
        j += 1;
    }
    false
}

/// Checks every screening precondition, reporting the first failure.
pub fn validate_candidates(candidates: &[SparsityRuleCandidate]) -> (result: Result<(), SparsityRuleSearchError>)
    ensures
        result is Ok <==> candidates_valid(candidates@),
        result matches Err(e) ==> validation_error(candidates@, e),
{
    if candidates.len() == 0 {
        return Err(SparsityRuleSearchError::EmptyCandidates);
    }
    let expected_phase = candidates[0].phase;
    let expected_total_units = candidates[0].total_units;
    let ghost c = candidates@;
    let mut index: usize = 0;
    while index < candidates.len()
        invariant
            c == candidates@,
            c.len() > 0,
            index <= c.len(),
            expected_phase == c[0].phase,
            expected_total_units == c[0].total_units,
            forall|j: int| 0 <= j < index ==> !#[trigger] candidate_rejected(c, j),
        decreases c.len() - index,
    {
        let candidate = &candidates[index];
        let bad = candidate.candidate_id.as_str().is_empty() || id_repeated(candidates, index)
            || candidate.total_units == 0 || candidate.retained_units > candidate.total_units
            || candidate.phase != expected_phase || candidate.total_units != expected_total_units;
        if bad {
            let error = if candidate.candidate_id.as_str().is_empty() {
                SparsityRuleSearchError::EmptyCandidateId { index }
            } else if id_repeated(candidates, index) {
                SparsityRuleSearchError::DuplicateCandidateId {
                    candidate_id: candidate.candidate_id.clone(),
                }
            } else if candidate.total_units == 0 {
                SparsityRuleSearchError::ZeroTotalUnits { candidate_id: candidate.candidate_id.clone() }
            } else if candidate.retained_units > candidate.total_units {
                SparsityRuleSearchError::RetainedUnitsExceedTotal {
                    candidate_id: candidate.candidate_id.clone(),
                    retained_units: candidate.retained_units,
                    total_units: candidate.total_units,
                }
            } else if candidate.phase != expected_phase {
                SparsityRuleSearchError::MixedEvaluationPhase {
                    expected: expected_phase,
                    actual: candidate.phase,
                    candidate_id: candidate.candidate_id.clone(),
                }
            } else {
                SparsityRuleSearchError::EvaluationDomainSizeMismatch {
                    expected_total_units,
                    actual_total_units: candidate.total_units,
                    candidate_id: candidate.candidate_id.clone(),
                }
            };
            proof {
                assert(candidate_rejected(c, index as int));
                assert(rejection_error(c, index as int, error));
            }
            return Err(error);
        }
        index += 1;
    }
    Ok(())
}

/// Returns the indices of the candidates that no other candidate dominates,
/// in their original order. Equal objective vectors do not dominate each other.
///
/// # Errors
///
/// Rejects an empty population, empty or duplicate identifiers, impossible
/// retained cardinality, mixed search/holdout evidence and mismatched
/// evaluation-domain sizes.
pub fn pareto_frontier_indices(candidates: &[SparsityRuleCandidate]) -> (result: Result<
    Vec<usize>,
    SparsityRuleSearchError,
>)
    ensures
        result is Ok <==> candidates_valid(candidates@),
        result matches Ok(frontier) ==> is_frontier(candidates@, frontier@),
        result matches Err(e) ==> validation_error(candidates@, e),
        match result {
            Ok(frontier) => pareto_outcome(candidates@) == Ok::<Seq<usize>, SparsityRuleSearchError>(frontier@),
            Err(e) => pareto_outcome(candidates@) == Err::<Seq<usize>, SparsityRuleSearchError>(e),
        },
{
    match validate_candidates(candidates) {
        Err(e) => {
            proof {
                let chosen = choose|e: SparsityRuleSearchError| validation_error(candidates@, e);
                lemma_validation_error_unique(candidates@, e, chosen);
            }
            return Err(e);
        },
        Ok(()) => {},
    }
    let ghost c = candidates@;
    let n = candidates.len();
    let mut frontier: Vec<usize> = Vec::new();
    let mut i: usize = 0;
    while i < n
        invariant
            c == candidates@,
            n == c.len(),
            i <= n,
            forall|k: int| 0 <= k < frontier@.len() ==> #[trigger] frontier@[k] < i && undominated(
                c,
                frontier@[k] as int,
            ),
            forall|k: int, l: int|
                0 <= k < l < frontier@.len() ==> #[trigger] frontier@[k] < #[trigger] frontier@[l],
            forall|m: int|
                0 <= m < i && undominated(c, m) ==> exists|k: int|
                    0 <= k < frontier@.len() && #[trigger] frontier@[k] == m,
        decreases n - i,
    {
        let mut j: usize = 0;
        let mut beaten = false;
        while j < n
            invariant
                c == candidates@,
                n == c.len(),
                i < n,
                j <= n,
                beaten ==> !undominated(c, i as int),
                !beaten ==> forall|m: int| 0 <= m < j && m != i ==> !#[trigger] dominates_spec(c[m], c[i as int]),
            decreases n - j,
        {
            if j != i && dominates(&candidates[j], &candidates[i]) {
                beaten = true;
            }
            j += 1;
        }
        if !beaten {
            let ghost before = frontier@;
            frontier.push(i);
            proof {
                assert(frontier@[before.len() as int] == i);
                assert forall|m: int| 0 <= m < i + 1 && undominated(c, m) implies exists|k: int|
                    0 <= k < frontier@.len() && #[trigger] frontier@[k] == m by {
                    if m < i {
                        let k = choose|k: int| 0 <= k < before.len() && #[trigger] before[k] == m;
                        assert(frontier@[k] == m);
                    } else {
                        assert(frontier@[before.len() as int] == m);
                    }
                }
            }
        }
        i += 1;
    }
    proof {
        assert(is_frontier(c, frontier@));
        let chosen = choose|s: Seq<usize>| is_frontier(c, s);
        lemma_frontier_unique(c, frontier@, chosen);
    }
    Ok(frontier)
}

/// One deterministic rule proposal, made before any sparsity evaluation.
///
/// Its gate count and depth are those of the retained random circuit whose
/// truth table is `function`; they are not its minimum circuit complexity.
#[derive(Debug, PartialEq, Eq)]
pub struct BoundedRuleProposal {
    pub proposal_id: String,
    pub function: BooleanFunction,
    pub generated_gate_count: usize,
    pub generated_depth: usize,
}

/// The identifier of the proposal at population index `index` with fingerprint `fingerprint`.
pub open spec fn bounded_label(index: nat, fingerprint: u64) -> Seq<char> {
    "bl14-bounded-"@ + decimal_text(index, 8) + "-"@ + hex_text(fingerprint as nat, 16)
}

/// `p` is the proposal at population index `index` for entry (table, gates, depth).
pub open spec fn proposal_of_entry(p: BoundedRuleProposal, index: nat, width: u32, entry: (Seq<u8>, usize, usize)) -> bool {
    &&& p.function.input_width() == width
    &&& p.function.table() == entry.0
    &&& p.generated_gate_count == entry.1
    &&& p.generated_depth == entry.2
    &&& p.proposal_id@ == bounded_label(index, function_fingerprint(width, entry.0))
}

/// The proposals of a valid configuration follow the summary of the same
/// campaign record by record: one proposal per population record, with the
/// record's function, gate count and depth; gate counts lie between
/// `min_gates` and `max_gates`, no depth exceeds its own gate count, and the
/// summary's Pareto front is no longer than the proposal list.
pub proof fn lemma_proposals_follow_summary(
    config: BaselineConfig,
    summary: crate::baseline::BaselineSummary,
    proposals: Seq<BoundedRuleProposal>,
)
    requires
        config_valid(config),
        config.max_gates < usize::MAX - 64,
        crate::baseline::is_baseline_summary(config, summary),
        proposals.len() == baseline_population(config).len(),
        forall|i: int| 0 <= i < proposals.len() ==> #[trigger] proposal_of_entry(
            proposals[i],
            i as nat,
            config.input_bits,
            baseline_population(config)[i],
        ),
    ensures
        proposals.len() == summary.population@.len(),
        summary.pareto_front@.len() <= proposals.len(),
        forall|i: int| 0 <= i < proposals.len() ==> {
            let r = #[trigger] summary.population@[i];
            let p = proposals[i];
            &&& p.function.input_width() == r.function.input_width()
            &&& p.function.table() == r.function.table()
            &&& p.generated_gate_count == r.gate_count
            &&& p.generated_depth == r.depth
            &&& config.min_gates <= p.generated_gate_count <= config.max_gates
            &&& p.generated_depth <= p.generated_gate_count
        },
{
    crate::baseline::lemma_summary_front_bounded(config, summary);
    crate::baseline::lemma_population_gate_bounds(config);
    assert forall|i: int| 0 <= i < proposals.len() implies {
        let r = #[trigger] summary.population@[i];
        let p = proposals[i];
        &&& p.function.input_width() == r.function.input_width()
        &&& p.function.table() == r.function.table()
        &&& p.generated_gate_count == r.gate_count
        &&& p.generated_depth == r.depth
        &&& config.min_gates <= p.generated_gate_count <= config.max_gates
        &&& p.generated_depth <= p.generated_gate_count
    } by {
        assert(proposal_of_entry(proposals[i], i as nat, config.input_bits, baseline_population(config)[i]));
        assert(crate::baseline::record_of_entry(
            summary.population@[i],
            config.input_bits as nat,
            baseline_population(config)[i],
        ));
    }
}

/// Proposes every unique function of the bounded circuit campaign of
/// `config`, in population order, as a candidate sparsity rule.
///
/// # Errors
///
/// Propagates [`BaselineError`] for a rejected configuration.
pub fn propose_bounded_rules(config: BaselineConfig) -> (result: Result<Vec<BoundedRuleProposal>, BaselineError>)
    requires
        config.max_gates < usize::MAX - 64,
    ensures
        !config_valid(config) ==> result == Err::<Vec<BoundedRuleProposal>, BaselineError>(config_error(config)),
        config_valid(config) ==> (result matches Ok(proposals) && proposals@.len() == baseline_population(config).len()
            && forall|i: int| 0 <= i < proposals@.len() ==> #[trigger] proposal_of_entry(
                proposals@[i],
                i as nat,
                config.input_bits,
                baseline_population(config)[i],
            )),
        config_valid(config) ==> (result matches Ok(proposals) && forall|i: int|
            0 <= i < proposals@.len() ==> config.min_gates <= #[trigger] proposals@[i].generated_gate_count
                <= config.max_gates && proposals@[i].generated_depth <= proposals@[i].generated_gate_count),
{
    let summary = match run_boolean_baseline(config) {
        Ok(summary) => summary,
        Err(e) => {
            return Err(e);
        },
    };
    let population = summary.population;
    let ghost recs = population@;
    let mut proposals: Vec<BoundedRuleProposal> = Vec::new();
    let mut i: usize = 0;
    while i < population.len()
        invariant
            config_valid(config),
            recs == population@,
            recs.len() == baseline_population(config).len(),
            forall|j: int| 0 <= j < recs.len() ==> #[trigger] crate::baseline::record_of_entry(recs[j], config.input_bits as nat, baseline_population(config)[j]),
            i <= recs.len(),
            proposals@.len() == i,
            forall|j: int| 0 <= j < i ==> #[trigger] proposal_of_entry(
                proposals@[j],
                j as nat,
                config.input_bits,
                baseline_population(config)[j],
            ),
        decreases recs.len() - i,
    {
        let record = &population[i];
        proof {
            assert(crate::baseline::record_of_entry(recs[i as int], config.input_bits as nat, baseline_population(config)[i as int]));
        }
        let fingerprint = record.function.stable_fingerprint();
        let mut proposal_id = String::new();
        push_text(&mut proposal_id, "bl14-bounded-");
        push_decimal(&mut proposal_id, i as u64, 8);
        push_text(&mut proposal_id, "-");
        push_hex(&mut proposal_id, fingerprint, 16);
        proposals.push(
            BoundedRuleProposal {
                proposal_id,
                function: record.function.clone(),
                generated_gate_count: record.gate_count,
                generated_depth: record.depth,
            },
        );
        i += 1;
    }
    proof {
        crate::baseline::lemma_population_gate_bounds(config);
        assert forall|i: int| 0 <= i < proposals@.len() implies config.min_gates
            <= #[trigger] proposals@[i].generated_gate_count <= config.max_gates
            && proposals@[i].generated_depth <= proposals@[i].generated_gate_count by {
            assert(proposal_of_entry(proposals@[i], i as nat, config.input_bits, baseline_population(config)[i]));
        }
    }
    Ok(proposals)
}

/// A score that every dominating candidate strictly lowers.
pub open spec fn candidate_score(c: SparsityRuleCandidate) -> int {
    c.quality_loss_units + c.retained_units + c.controller_cost_units + c.effective_compute_units
        + c.memory_traffic_bytes + c.latency_ns + c.rule_complexity_units
}

/// Dominance is irreflexive and transitive, and lowers the score.
pub proof fn lemma_rule_dominance_order(a: SparsityRuleCandidate, b: SparsityRuleCandidate, c: SparsityRuleCandidate)
    ensures
        dominates_spec(a, b) ==> candidate_score(a) < candidate_score(b),
        !dominates_spec(a, a),
        dominates_spec(a, b) && dominates_spec(b, c) ==> dominates_spec(a, c),
{
}

/// Among the dominators of `x` in `c[0..k]`, one of least score.
proof fn lemma_min_score_dominator(c: Seq<SparsityRuleCandidate>, x: int, k: int) -> (best: int)
    requires
        0 < k <= c.len(),
        0 <= x < c.len(),
        exists|j: int| 0 <= j < k && #[trigger] dominates_spec(c[j], c[x]),
    ensures
        0 <= best < k,
        dominates_spec(c[best], c[x]),
        forall|j: int| 0 <= j < k && #[trigger] dominates_spec(c[j], c[x]) ==> candidate_score(c[best]) <= candidate_score(c[j]),
    decreases k,
{
    if exists|j: int| 0 <= j < k - 1 && #[trigger] dominates_spec(c[j], c[x]) {
        let b = lemma_min_score_dominator(c, x, k - 1);
        if dominates_spec(c[k - 1], c[x]) && candidate_score(c[k - 1]) < candidate_score(c[b]) {
            k - 1
        } else {
            b
        }
    } else {
        k - 1
    }
}

/// Every candidate left off a Pareto frontier is dominated by a candidate on it.
pub proof fn lemma_frontier_covers(c: Seq<SparsityRuleCandidate>, s: Seq<usize>, x: int)
    requires
        is_frontier(c, s),
        0 <= x < c.len(),
        !s.contains(x as usize),
    ensures
        exists|k: int| 0 <= k < s.len() && #[trigger] dominates_spec(c[s[k] as int], c[x]),
{
    if undominated(c, x) {
        let k = choose|k: int| 0 <= k < s.len() && #[trigger] s[k] == x;
        assert(s[k] == x as usize);
    }
    let best = lemma_min_score_dominator(c, x, c.len() as int);
    assert forall|z: int| 0 <= z < c.len() && z != best implies !#[trigger] dominates_spec(c[z], c[best]) by {
        if dominates_spec(c[z], c[best]) {
            lemma_rule_dominance_order(c[z], c[best], c[x]);
            lemma_rule_dominance_order(c[best], c[x], c[x]);
        }
    }
    assert(undominated(c, best));
    let k = choose|k: int| 0 <= k < s.len() && #[trigger] s[k] == best;
    assert(dominates_spec(c[s[k] as int], c[x]));
}

/// No candidate on a Pareto frontier dominates another candidate on it.
pub proof fn lemma_frontier_antichain(c: Seq<SparsityRuleCandidate>, s: Seq<usize>, k: int, l: int)
    requires
        is_frontier(c, s),
        0 <= k < s.len(),
        0 <= l < s.len(),
    ensures
        !dominates_spec(c[s[k] as int], c[s[l] as int]),
{
    lemma_rule_dominance_order(c[s[k] as int], c[s[l] as int], c[s[l] as int]);
    if k != l {
        if k < l {
            assert(s[k] < s[l]);
        } else {
            assert(s[l] < s[k]);
        }
        assert(undominated(c, s[l] as int));
    }
}

} // verus!
