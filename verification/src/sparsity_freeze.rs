//! The search-to-holdout freeze boundary.
//!
//! Search evidence selects a set of rule identities. Once frozen, the final
//! holdout batch must contain exactly those identities, once each, on the same
//! evaluation-domain size. Holdout outcomes never revise the frozen set.

use vstd::prelude::*;
use crate::sparsity_rule_search::{
    SparsityEvaluationPhase, SparsityRuleCandidate, SparsityRuleSearchError,
    pareto_frontier_indices, candidates_valid, is_frontier, validation_error, undominated,
    dominates_spec, candidate_rejected, pareto_outcome,
};

verus! {

/// Immutable identity boundary between search selection and holdout.
#[derive(Debug, PartialEq, Eq)]
pub struct FrozenSparsitySelection {
    candidate_ids: Vec<String>,
    total_units: u64,
}

/// Fail-closed errors of the search-to-holdout boundary.
#[derive(Clone, Debug, PartialEq, Eq)]
pub enum SparsityFreezeError {
    Search(SparsityRuleSearchError),
    EmptyFrozenSelection,
    SearchPhaseRequired { candidate_id: String, actual: SparsityEvaluationPhase },
    HoldoutIsEmpty,
    HoldoutPhaseRequired { candidate_id: String, actual: SparsityEvaluationPhase },
    HoldoutDomainSizeMismatch { candidate_id: String, expected_total_units: u64, actual_total_units: u64 },
    HoldoutRetainedUnitsExceedTotal { candidate_id: String, retained_units: u64, total_units: u64 },
    DuplicateHoldoutCandidate { candidate_id: String },
    UnfrozenHoldoutCandidate { candidate_id: String },
    MissingFrozenCandidate { candidate_id: String },
}

/// The sum of all objectives; a dominating candidate has a strictly smaller sum.
pub open spec fn objective_sum(x: SparsityRuleCandidate) -> int {
    x.quality_loss_units + x.retained_units + x.controller_cost_units + x.effective_compute_units
        + x.memory_traffic_bytes + x.latency_ns + x.rule_complexity_units
}

/// Some candidate of `c[0..m]` has an objective sum no larger than any other in that prefix.
proof fn lemma_min_objective(c: Seq<SparsityRuleCandidate>, m: int) -> (best: int)
    requires
        0 < m <= c.len(),
    ensures
        0 <= best < m,
        forall|j: int| 0 <= j < m ==> objective_sum(c[best]) <= #[trigger] objective_sum(c[j]),
    decreases m,
{
    if m == 1 {
        0
    } else {
        let b = lemma_min_objective(c, m - 1);
        if objective_sum(c[m - 1]) < objective_sum(c[b]) {
            m - 1
        } else {
            b
        }
    }
}

/// Every non-empty population has at least one undominated candidate.
pub proof fn lemma_frontier_nonempty(c: Seq<SparsityRuleCandidate>)
    requires
        c.len() > 0,
    ensures
        exists|i: int| 0 <= i < c.len() && undominated(c, i),
{
    let best = lemma_min_objective(c, c.len() as int);
    assert forall|j: int| 0 <= j < c.len() && j != best implies !#[trigger] dominates_spec(c[j], c[best]) by {
        assert(objective_sum(c[best]) <= objective_sum(c[j]));
    }
    assert(undominated(c, best));
}

/// Every candidate is search evidence.
pub open spec fn all_search(c: Seq<SparsityRuleCandidate>) -> bool {
    forall|i: int| 0 <= i < c.len() ==> #[trigger] c[i].phase == SparsityEvaluationPhase::Search
}

/// Holdout candidate `i` breaks the frozen contract.
pub open spec fn holdout_rejected(
    ids: Seq<String>,
    units: u64,
    c: Seq<SparsityRuleCandidate>,
    i: int,
) -> bool {
    ||| c[i].phase != SparsityEvaluationPhase::Holdout
    ||| c[i].total_units != units
    ||| c[i].retained_units > c[i].total_units
    ||| exists|j: int| 0 <= j < i && #[trigger] c[j].candidate_id@ == c[i].candidate_id@
    ||| !exists|k: int| 0 <= k < ids.len() && #[trigger] ids[k]@ == c[i].candidate_id@
}

/// The error reported for rejected holdout candidate `i`, checks taken in order.
pub open spec fn holdout_error(
    ids: Seq<String>,
    units: u64,
    c: Seq<SparsityRuleCandidate>,
    i: int,
    e: SparsityFreezeError,
) -> bool {
    let x = c[i];
    if x.phase != SparsityEvaluationPhase::Holdout {
        e == SparsityFreezeError::HoldoutPhaseRequired { candidate_id: x.candidate_id, actual: x.phase }
    } else if x.total_units != units {
        e == SparsityFreezeError::HoldoutDomainSizeMismatch {
            candidate_id: x.candidate_id,
            expected_total_units: units,
            actual_total_units: x.total_units,
        }
    } else if x.retained_units > x.total_units {
        e == SparsityFreezeError::HoldoutRetainedUnitsExceedTotal {
            candidate_id: x.candidate_id,
            retained_units: x.retained_units,
            total_units: x.total_units,
        }
    } else if exists|j: int| 0 <= j < i && #[trigger] c[j].candidate_id@ == x.candidate_id@ {
        e == SparsityFreezeError::DuplicateHoldoutCandidate { candidate_id: x.candidate_id }
    } else {
        e == SparsityFreezeError::UnfrozenHoldoutCandidate { candidate_id: x.candidate_id }
    }
}

/// Frozen identifier `k` does not occur in the holdout batch.
pub open spec fn frozen_missing(ids: Seq<String>, c: Seq<SparsityRuleCandidate>, k: int) -> bool {
    !exists|j: int| 0 <= j < c.len() && #[trigger] c[j].candidate_id@ == ids[k]@
}

/// The holdout batch holds exactly the frozen identities, once each.
pub open spec fn holdout_valid(ids: Seq<String>, units: u64, c: Seq<SparsityRuleCandidate>) -> bool {
    &&& c.len() > 0
    &&& forall|i: int| 0 <= i < c.len() ==> !#[trigger] holdout_rejected(ids, units, c, i)
    &&& forall|k: int| 0 <= k < ids.len() ==> !#[trigger] frozen_missing(ids, c, k)
}

/// `a` and `b` agree on everything holdout acceptance reads: identifier,
/// phase, domain size and retained units.
pub open spec fn same_holdout_identity(a: SparsityRuleCandidate, b: SparsityRuleCandidate) -> bool {
    &&& a.candidate_id@ == b.candidate_id@
    &&& a.phase == b.phase
    &&& a.total_units == b.total_units
    &&& a.retained_units == b.retained_units
}

/// `order` and `back` are inverse bijections between the rows of `d` and
/// those of `c`, and row `i` of `d` agrees with row `order[i]` of `c` on what
/// holdout acceptance reads.
pub open spec fn reordered_batch(
    c: Seq<SparsityRuleCandidate>,
    d: Seq<SparsityRuleCandidate>,
    order: Seq<int>,
    back: Seq<int>,
) -> bool {
    &&& d.len() == c.len()
    &&& order.len() == d.len()
    &&& back.len() == c.len()
    &&& forall|i: int|
        0 <= i < d.len() ==> 0 <= #[trigger] order[i] < c.len() && back[order[i]] == i && same_holdout_identity(
            d[i],
            c[order[i]],
        )
    &&& forall|j: int| 0 <= j < c.len() ==> 0 <= #[trigger] back[j] < d.len() && order[back[j]] == j
}

/// A batch accepted by the holdout checks stays accepted when reordered.
proof fn lemma_holdout_valid_transfers(
    ids: Seq<String>,
    units: u64,
    c: Seq<SparsityRuleCandidate>,
    d: Seq<SparsityRuleCandidate>,
    order: Seq<int>,
    back: Seq<int>,
)
    requires
        reordered_batch(c, d, order, back),
        holdout_valid(ids, units, c),
    ensures
        holdout_valid(ids, units, d),
{
    assert forall|i: int| 0 <= i < d.len() implies !#[trigger] holdout_rejected(ids, units, d, i) by {
        let a = order[i];
        assert(!holdout_rejected(ids, units, c, a));
        if exists|j: int| 0 <= j < i && #[trigger] d[j].candidate_id@ == d[i].candidate_id@ {
            let j = choose|j: int| 0 <= j < i && #[trigger] d[j].candidate_id@ == d[i].candidate_id@;
            let b = order[j];
            assert(b != a);
            if b < a {
                assert(c[b].candidate_id@ == c[a].candidate_id@);
            } else {
                assert(!holdout_rejected(ids, units, c, b));
                assert(c[a].candidate_id@ == c[b].candidate_id@);
            }
        }
        let k = choose|k: int| 0 <= k < ids.len() && #[trigger] ids[k]@ == c[a].candidate_id@;
        assert(ids[k]@ == d[i].candidate_id@);
    }
    assert forall|k: int| 0 <= k < ids.len() implies !#[trigger] frozen_missing(ids, d, k) by {
        assert(!frozen_missing(ids, c, k));
        let j = choose|j: int| 0 <= j < c.len() && #[trigger] c[j].candidate_id@ == ids[k]@;
        let i = back[j];
        assert(same_holdout_identity(d[i], c[order[i]]));
        assert(d[i].candidate_id@ == ids[k]@);
    }
}

/// Holdout acceptance reads neither the order of the batch's rows nor their
/// objective values: a batch `d` made of the rows of `c` in another order,
/// with any quality, cost, compute, memory, latency and complexity values, is
/// accepted exactly when `c` is.
pub proof fn lemma_holdout_acceptance_ignores_order_and_objectives(
    ids: Seq<String>,
    units: u64,
    c: Seq<SparsityRuleCandidate>,
    d: Seq<SparsityRuleCandidate>,
    order: Seq<int>,
    back: Seq<int>,
)
    requires
        reordered_batch(c, d, order, back),
    ensures
        holdout_valid(ids, units, c) == holdout_valid(ids, units, d),
{
    if holdout_valid(ids, units, c) {
        lemma_holdout_valid_transfers(ids, units, c, d, order, back);
    }
    assert(reordered_batch(d, c, back, order)) by {
        assert forall|j: int| 0 <= j < c.len() implies 0 <= #[trigger] back[j] < d.len() && order[back[j]] == j
            && same_holdout_identity(c[j], d[back[j]]) by {
            assert(same_holdout_identity(d[back[j]], c[order[back[j]]]));
        }
    }
    if holdout_valid(ids, units, d) {
        lemma_holdout_valid_transfers(ids, units, d, c, back, order);
    }
}

/// `e` is the first failure of the holdout checks.
pub open spec fn holdout_validation_error(
    ids: Seq<String>,
    units: u64,
    c: Seq<SparsityRuleCandidate>,
    e: SparsityFreezeError,
) -> bool {
    if c.len() == 0 {
        e == SparsityFreezeError::HoldoutIsEmpty
    } else if exists|i: int| 0 <= i < c.len() && #[trigger] holdout_rejected(ids, units, c, i) {
        exists|i: int|
            0 <= i < c.len() && #[trigger] holdout_rejected(ids, units, c, i) && (forall|j: int|
                0 <= j < i ==> !#[trigger] holdout_rejected(ids, units, c, j)) && holdout_error(
                ids,
                units,
                c,
                i,
                e,
            )
    } else {
        exists|k: int|
            0 <= k < ids.len() && #[trigger] frozen_missing(ids, c, k) && (forall|l: int|
                0 <= l < k ==> !#[trigger] frozen_missing(ids, c, l))
                && e == SparsityFreezeError::MissingFrozenCandidate { candidate_id: ids[k] }
    }
}

/// Whether some candidate before `i` has the identifier of candidate `i`.
fn seen_before(candidates: &[SparsityRuleCandidate], i: usize) -> (seen: bool)
    requires
        i < candidates@.len(),
    ensures
        seen == exists|j: int| 0 <= j < i && #[trigger] candidates@[j].candidate_id@ == candidates@[i as int].candidate_id@,
{
    let mut j: usize = 0;
    while j < i
        invariant
            j <= i < candidates@.len(),
            forall|k: int| 0 <= k < j ==> #[trigger] candidates@[k].candidate_id@ != candidates@[i as int].candidate_id@,
        decreases i - j,
    {
        if candidates[j].candidate_id == candidates[i].candidate_id {
            return true;
        }
        j += 1;
    }
    false
}

/// Whether `id` is one of `ids`.
pub fn contains_id(ids: &[String], id: &String) -> (found: bool)
    ensures
        found == exists|k: int| 0 <= k < ids@.len() && #[trigger] ids@[k]@ == id@,
{
    let mut k: usize = 0;
    while k < ids.len()
        invariant
            k <= ids@.len(),
            forall|l: int| 0 <= l < k ==> #[trigger] ids@[l]@ != id@,
        decreases ids@.len() - k,
    {
        if ids[k] == *id {
            return true;
        }
        k += 1;
    }
    false
}

/// Whether some candidate carries identifier `id`.
fn observed_id(candidates: &[SparsityRuleCandidate], id: &String) -> (found: bool)
    ensures
        found == exists|j: int| 0 <= j < candidates@.len() && #[trigger] candidates@[j].candidate_id@ == id@,
{
    let mut j: usize = 0;
    while j < candidates.len()
        invariant
            j <= candidates@.len(),
            forall|l: int| 0 <= l < j ==> #[trigger] candidates@[l].candidate_id@ != id@,
        decreases candidates@.len() - j,
    {
        if candidates[j].candidate_id == *id {
            return true;
        }
        j += 1;
    }
    false
}

impl FrozenSparsitySelection {
    /// The frozen identifiers in search-frontier order.
    pub closed spec fn ids(self) -> Seq<String> {
        self.candidate_ids@
    }

    /// The frozen evaluation-domain size.
    pub closed spec fn units(self) -> u64 {
        self.total_units
    }

    /// Freezes exactly the undominated search candidates, in search order.
    ///
    /// # Errors
    ///
    /// Rejects any non-search row before objectives are compared, and
    /// propagates malformed search evidence as [`SparsityFreezeError::Search`].
    pub fn from_search_frontier(candidates: &[SparsityRuleCandidate]) -> (result: Result<
        Self,
        SparsityFreezeError,
    >)
        ensures
            result is Ok <==> all_search(candidates@) && candidates_valid(candidates@),
            !all_search(candidates@) ==> exists|i: int|
                0 <= i < candidates@.len() && #[trigger] candidates@[i].phase
                    != SparsityEvaluationPhase::Search && (forall|j: int|
                    0 <= j < i ==> #[trigger] candidates@[j].phase == SparsityEvaluationPhase::Search)
                    && result == Err::<Self, SparsityFreezeError>(
                    SparsityFreezeError::SearchPhaseRequired {
                        candidate_id: candidates@[i].candidate_id,
                        actual: candidates@[i].phase,
                    },
                ),
            all_search(candidates@) && !candidates_valid(candidates@) ==> exists|e: SparsityRuleSearchError|
                validation_error(candidates@, e) && result == Err::<Self, SparsityFreezeError>(
                    SparsityFreezeError::Search(e),
                ),
            result matches Ok(selection) ==> selection.units() == candidates@[0].total_units
                && exists|s: Seq<usize>|
                is_frontier(candidates@, s) && selection.ids().len() == s.len() && forall|k: int|
                    0 <= k < s.len() ==> #[trigger] selection.ids()[k] == candidates@[s[k] as int].candidate_id,
            all_search(candidates@) ==> match pareto_outcome(candidates@) {
                Ok(s) => (result matches Ok(selection) && selection.units() == candidates@[0].total_units
                    && selection.ids().len() == s.len() && forall|k: int|
                    0 <= k < s.len() ==> #[trigger] selection.ids()[k] == candidates@[s[k] as int].candidate_id),
                Err(e) => result == Err::<Self, SparsityFreezeError>(SparsityFreezeError::Search(e)),
            },
    {
        let mut i: usize = 0;
        while i < candidates.len()
            invariant
                i <= candidates@.len(),
                forall|j: int| 0 <= j < i ==> #[trigger] candidates@[j].phase == SparsityEvaluationPhase::Search,
            decreases candidates@.len() - i,
        {
            if candidates[i].phase != SparsityEvaluationPhase::Search {
                return Err(
                    SparsityFreezeError::SearchPhaseRequired {
                        candidate_id: candidates[i].candidate_id.clone(),
                        actual: candidates[i].phase,
                    },
                );
            }
            i += 1;
        }
        let frontier = match pareto_frontier_indices(candidates) {
            Ok(frontier) => frontier,
            Err(e) => {
                return Err(SparsityFreezeError::Search(e));
            },
        };
        if frontier.len() == 0 {
            proof {
                lemma_frontier_nonempty(candidates@);
                let m = choose|m: int| 0 <= m < candidates@.len() && undominated(candidates@, m);
                let k = choose|k: int| 0 <= k < frontier@.len() && #[trigger] frontier@[k] == m;
            }
            return Err(SparsityFreezeError::EmptyFrozenSelection);
        }
        let total_units = candidates[frontier[0]].total_units;
        let mut candidate_ids: Vec<String> = Vec::new();
        let mut k: usize = 0;
        while k < frontier.len()
            invariant
                k <= frontier@.len(),
                is_frontier(candidates@, frontier@),
                candidate_ids@.len() == k,
                forall|l: int| 0 <= l < k ==> #[trigger] candidate_ids@[l] == candidates@[frontier@[l] as int].candidate_id,
            decreases frontier@.len() - k,
        {
            candidate_ids.push(candidates[frontier[k]].candidate_id.clone());
            k += 1;
        }
        proof {
            assert(candidates_valid(candidates@));
            assert(!candidate_rejected(candidates@, frontier@[0] as int));
        }
        Ok(Self { candidate_ids, total_units })
    }

    /// A copy with the same identifiers and domain size.
    pub fn duplicate(&self) -> (copy: Self)
        ensures
            copy.ids() == self.ids(),
            copy.units() == self.units(),
    {
        let mut candidate_ids: Vec<String> = Vec::new();
        let mut k: usize = 0;
        while k < self.candidate_ids.len()
            invariant
                k <= self.candidate_ids@.len(),
                candidate_ids@ == self.candidate_ids@.take(k as int),
            decreases self.candidate_ids@.len() - k,
        {
            candidate_ids.push(self.candidate_ids[k].clone());
            proof {
                assert(self.candidate_ids@.take(k + 1) =~= self.candidate_ids@.take(k as int).push(self.candidate_ids@[k as int]));
            }
            k += 1;
        }
        proof {
            assert(self.candidate_ids@.take(k as int) =~= self.candidate_ids@);
        }
        Self { candidate_ids, total_units: self.total_units }
    }

    /// The frozen identifiers in search-frontier order.
    pub fn candidate_ids(&self) -> (ids: &[String])
        ensures
            ids@ == self.ids(),
    {
        self.candidate_ids.as_slice()
    }

    /// The evaluation-domain size frozen at selection time.
    pub fn total_units(&self) -> (units: u64)
        ensures
            units == self.units(),
    {
        self.total_units
    }

    /// Validates a final holdout batch: exactly the frozen identities, once
    /// each, on the frozen domain size, in any order. Objective values are
    /// never read for selection.
    ///
    /// # Errors
    ///
    /// Rejects an empty batch, non-holdout evidence, a changed domain size,
    /// impossible retained cardinality, duplicates, new and missing identities.
    pub fn validate_holdout(&self, candidates: &[SparsityRuleCandidate]) -> (result: Result<
        (),
        SparsityFreezeError,
    >)
        ensures
            result is Ok <==> holdout_valid(self.ids(), self.units(), candidates@),
            result matches Err(e) ==> holdout_validation_error(self.ids(), self.units(), candidates@, e),
    {
        let ghost ids = self.ids();
        let ghost units = self.units();
        let ghost c = candidates@;
        if candidates.len() == 0 {
            return Err(SparsityFreezeError::HoldoutIsEmpty);
        }
        let mut i: usize = 0;
        while i < candidates.len()
            invariant
                ids == self.ids(),
                units == self.units(),
                c == candidates@,
                i <= c.len(),
                forall|j: int| 0 <= j < i ==> !#[trigger] holdout_rejected(ids, units, c, j),
            decreases c.len() - i,
        {
            let candidate = &candidates[i];
            let error = if candidate.phase != SparsityEvaluationPhase::Holdout {
                Some(
                    SparsityFreezeError::HoldoutPhaseRequired {
                        candidate_id: candidate.candidate_id.clone(),
                        actual: candidate.phase,
                    },
                )
            } else if candidate.total_units != self.total_units {
                Some(
                    SparsityFreezeError::HoldoutDomainSizeMismatch {
                        candidate_id: candidate.candidate_id.clone(),
                        expected_total_units: self.total_units,
                        actual_total_units: candidate.total_units,
                    },
                )
            } else if candidate.retained_units > candidate.total_units {
                Some(
                    SparsityFreezeError::HoldoutRetainedUnitsExceedTotal {
                        candidate_id: candidate.candidate_id.clone(),
                        retained_units: candidate.retained_units,
                        total_units: candidate.total_units,
                    },
                )
            } else if seen_before(candidates, i) {
                Some(
                    SparsityFreezeError::DuplicateHoldoutCandidate {
                        candidate_id: candidate.candidate_id.clone(),
                    },
                )
            } else if !contains_id(self.candidate_ids.as_slice(), &candidate.candidate_id) {
                Some(
                    SparsityFreezeError::UnfrozenHoldoutCandidate {
                        candidate_id: candidate.candidate_id.clone(),
                    },
                )
            } else {
                None
            };
            match error {
                Some(e) => {
                    proof {
                        assert(holdout_rejected(ids, units, c, i as int));
                        assert(holdout_error(ids, units, c, i as int, e));
                    }
                    return Err(e);
                },
                None => {},
            }
            i += 1;
        }
        let mut k: usize = 0;
        while k < self.candidate_ids.len()
            invariant
                ids == self.ids(),
                units == self.units(),
                ids == self.candidate_ids@,
                c == candidates@,
                c.len() > 0,
                k <= ids.len(),
                forall|j: int| 0 <= j < c.len() ==> !#[trigger] holdout_rejected(ids, units, c, j),
                forall|l: int| 0 <= l < k ==> !#[trigger] frozen_missing(ids, c, l),
            decreases ids.len() - k,
        {
            if !observed_id(candidates, &self.candidate_ids[k]) {
                proof {
                    assert(frozen_missing(ids, c, k as int));
                }
                return Err(
                    SparsityFreezeError::MissingFrozenCandidate {
                        candidate_id: self.candidate_ids[k].clone(),
                    },
                );
            }
            k += 1;
        }
        Ok(())
    }
}

impl Clone for FrozenSparsitySelection {
    fn clone(&self) -> (copy: Self)
        ensures
            copy.ids() == self.ids(),
            copy.units() == self.units(),
    {
        self.duplicate()
    }
}

} // verus!
