//! Exact calibration of exhaustive Boolean rules against a declared mask.
//!
//! Each exhaustively enumerated rule is materialized over the predicate rows
//! and compared decision by decision with the target mask; mismatches and
//! retained cardinality are reported separately.

use vstd::prelude::*;
use vstd::arithmetic::power2::pow2;
use crate::sparsity_exhaustive_search::{
    ExhaustiveRuleSearchError, propose_exhaustive_rules, code_table, exhaustive_label,
    is_code_proposal, MAX_EXHAUSTIVE_SPARSITY_RULE_BITS,
};
use crate::sparsity_function_mask::{
    DynamicMaskError, materialize_boolean_function_mask, count_true, mask_of, rows_view,
    rows_have_arity,
};

verus! {

/// Exact fit evidence of one exhaustively enumerated rule.
#[derive(Clone, Debug, PartialEq, Eq)]
pub struct ExhaustiveMaskFit {
    pub proposal_id: String,
    pub truth_table_code: u64,
    pub mismatches: u64,
    pub retained_units: u64,
}

/// Fail-closed errors of exhaustive mask-fit calibration.
#[derive(Clone, Debug, PartialEq, Eq)]
pub enum ExhaustiveMaskFitError {
    EmptyTarget,
    TargetLengthMismatch { predicate_rows: usize, target: usize },
    Search(ExhaustiveRuleSearchError),
    Mask(DynamicMaskError),
    CounterOverflow,
}

/// Number of positions below `m` where `a` and `b` differ.
pub open spec fn mismatch_count(a: Seq<bool>, b: Seq<bool>, m: nat) -> nat
    decreases m,
{
    if m == 0 {
        0
    } else {
        mismatch_count(a, b, (m - 1) as nat) + if a[m - 1] != b[m - 1] { 1nat } else { 0nat }
    }
}

/// `f` is the fit of the rule with code `code` over `n` inputs.
pub open spec fn is_code_fit(
    f: ExhaustiveMaskFit,
    n: nat,
    code: nat,
    rows: Seq<Seq<bool>>,
    target: Seq<bool>,
) -> bool {
    let mask = mask_of(code_table(n, code), rows);
    &&& f.proposal_id@ == exhaustive_label(n, code)
    &&& f.truth_table_code == code
    &&& f.mismatches == mismatch_count(mask, target, target.len())
    &&& f.retained_units == count_true(mask, mask.len())
}

/// Evaluates every exhaustive rule of `input_bits` inputs against one target mask.
///
/// # Errors
///
/// Rejects an empty target, a target whose length differs from the number of
/// predicate rows, an inadmissible input width, and predicate rows whose
/// length is not `input_bits`.
pub fn evaluate_exhaustive_mask_fit(input_bits: u32, predicate_rows: &[&[bool]], target_keep: &[bool]) -> (result:
    Result<Vec<ExhaustiveMaskFit>, ExhaustiveMaskFitError>)
    ensures
        target_keep@.len() == 0 ==> result == Err::<Vec<ExhaustiveMaskFit>, ExhaustiveMaskFitError>(
            ExhaustiveMaskFitError::EmptyTarget,
        ),
        target_keep@.len() > 0 && predicate_rows@.len() != target_keep@.len() ==> result == Err::<
            Vec<ExhaustiveMaskFit>,
            ExhaustiveMaskFitError,
        >(
            ExhaustiveMaskFitError::TargetLengthMismatch {
                predicate_rows: predicate_rows@.len() as usize,
                target: target_keep@.len() as usize,
            },
        ),
        target_keep@.len() > 0 && predicate_rows@.len() == target_keep@.len() && input_bits == 0 ==> result
            == Err::<Vec<ExhaustiveMaskFit>, ExhaustiveMaskFitError>(
            ExhaustiveMaskFitError::Search(ExhaustiveRuleSearchError::ZeroInputs),
        ),
        target_keep@.len() > 0 && predicate_rows@.len() == target_keep@.len() && input_bits
            > MAX_EXHAUSTIVE_SPARSITY_RULE_BITS ==> result == Err::<Vec<ExhaustiveMaskFit>, ExhaustiveMaskFitError>(
            ExhaustiveMaskFitError::Search(
                ExhaustiveRuleSearchError::InputWidthTooLarge {
                    requested: input_bits,
                    maximum: MAX_EXHAUSTIVE_SPARSITY_RULE_BITS,
                },
            ),
        ),
        target_keep@.len() > 0 && predicate_rows@.len() == target_keep@.len() && 1 <= input_bits
            <= MAX_EXHAUSTIVE_SPARSITY_RULE_BITS && !rows_have_arity(
            rows_view(predicate_rows@),
            input_bits as nat,
        ) ==> exists|i: int|
            0 <= i < predicate_rows@.len() && #[trigger] predicate_rows@[i]@.len() != input_bits && (
            forall|j: int| 0 <= j < i ==> #[trigger] predicate_rows@[j]@.len() == input_bits)
                && result == Err::<Vec<ExhaustiveMaskFit>, ExhaustiveMaskFitError>(
                ExhaustiveMaskFitError::Mask(
                    DynamicMaskError::PredicateArityMismatch {
                        index: i as usize,
                        expected: input_bits as usize,
                        actual: predicate_rows@[i]@.len() as usize,
                    },
                ),
            ),
        target_keep@.len() > 0 && predicate_rows@.len() == target_keep@.len() && 1 <= input_bits
            <= MAX_EXHAUSTIVE_SPARSITY_RULE_BITS && rows_have_arity(
            rows_view(predicate_rows@),
            input_bits as nat,
        ) ==> (result matches Ok(evidence) && evidence@.len() == pow2(pow2(input_bits as nat))
            && forall|code: int|
            0 <= code < evidence@.len() ==> #[trigger] is_code_fit(
                evidence@[code],
                input_bits as nat,
                code as nat,
                rows_view(predicate_rows@),
                target_keep@,
            )),
{
    if target_keep.len() == 0 {
        return Err(ExhaustiveMaskFitError::EmptyTarget);
    }
    if predicate_rows.len() != target_keep.len() {
        return Err(
            ExhaustiveMaskFitError::TargetLengthMismatch {
                predicate_rows: predicate_rows.len(),
                target: target_keep.len(),
            },
        );
    }
    let proposals = match propose_exhaustive_rules(input_bits) {
        Ok(proposals) => proposals,
        Err(e) => {
            return Err(ExhaustiveMaskFitError::Search(e));
        },
    };
    let ghost rows = rows_view(predicate_rows@);
    let mut evidence: Vec<ExhaustiveMaskFit> = Vec::new();
    let mut k: usize = 0;
    while k < proposals.len()
        invariant
            1 <= input_bits <= MAX_EXHAUSTIVE_SPARSITY_RULE_BITS,
            rows == rows_view(predicate_rows@),
            predicate_rows@.len() == target_keep@.len(),
            target_keep@.len() > 0,
            proposals@.len() == pow2(pow2(input_bits as nat)),
            forall|c: int| 0 <= c < proposals@.len() ==> #[trigger] is_code_proposal(proposals@[c], input_bits as nat, c as nat),
            k <= proposals@.len(),
            k > 0 ==> rows_have_arity(rows, input_bits as nat),
            evidence@.len() == k,
            forall|c: int| 0 <= c < k ==> #[trigger] is_code_fit(evidence@[c], input_bits as nat, c as nat, rows, target_keep@),
        decreases proposals@.len() - k,
    {
        let proposal = &proposals[k];
        proof {
            let kk = k as int;
            assert(0 <= kk < proposals@.len());
            assert(is_code_proposal(proposals@[kk], input_bits as nat, kk as nat));
        }
        let mask = match materialize_boolean_function_mask(&proposal.function, predicate_rows) {
            Ok(mask) => mask,
            Err(e) => {
                return Err(ExhaustiveMaskFitError::Mask(e));
            },
        };
        let ghost decisions = mask_of(code_table(input_bits as nat, (k as int) as nat), rows);
        let keep = mask.as_slice();
        let mut mismatches: u64 = 0;
        let mut i: usize = 0;
        while i < keep.len()
            invariant
                keep@ == decisions,
                decisions.len() == target_keep@.len(),
                i <= keep@.len(),
                mismatches == mismatch_count(decisions, target_keep@, i as nat),
                mismatches <= i,
            decreases keep@.len() - i,
        {
            if keep[i] != target_keep[i] {
                mismatches += 1;
            }
            i += 1;
        }
        let cardinality = mask.cardinality();
        let retained_units = cardinality.retained() as u64;
        evidence.push(
            ExhaustiveMaskFit {
                proposal_id: proposal.proposal_id.clone(),
                truth_table_code: proposal.truth_table_code,
                mismatches,
                retained_units,
            },
        );
        k += 1;
    }
    proof {
        vstd::arithmetic::power2::lemma_pow2_pos(pow2(input_bits as nat));
    }
    Ok(evidence)
}

/// The least mismatch count among the first `m` evidence rows.
pub open spec fn least_mismatches(e: Seq<ExhaustiveMaskFit>, m: nat) -> u64
    decreases m,
{
    if m <= 1 {
        e[0].mismatches
    } else {
        let rest = least_mismatches(e, (m - 1) as nat);
        if e[m - 1].mismatches < rest {
            e[m - 1].mismatches
        } else {
            rest
        }
    }
}

/// `s` lists, in increasing order, exactly the rows attaining the least mismatch count.
pub open spec fn is_best_set(e: Seq<ExhaustiveMaskFit>, s: Seq<usize>) -> bool {
    let best = least_mismatches(e, e.len());
    &&& forall|k: int| 0 <= k < s.len() ==> #[trigger] s[k] < e.len() && e[s[k] as int].mismatches == best
    &&& forall|k: int, l: int| 0 <= k < l < s.len() ==> #[trigger] s[k] < #[trigger] s[l]
    &&& forall|i: int|
        0 <= i < e.len() && #[trigger] e[i].mismatches == best ==> exists|k: int|
            0 <= k < s.len() && #[trigger] s[k] == i
}

/// The least count is attained and bounds every row from below.
pub proof fn lemma_least_mismatches(e: Seq<ExhaustiveMaskFit>, m: nat)
    requires
        1 <= m <= e.len(),
    ensures
        exists|i: int| 0 <= i < m && #[trigger] e[i].mismatches == least_mismatches(e, m),
        forall|i: int| 0 <= i < m ==> least_mismatches(e, m) <= #[trigger] e[i].mismatches,
    decreases m,
{
    if m > 1 {
        lemma_least_mismatches(e, (m - 1) as nat);
        let i0 = choose|i: int| 0 <= i < m - 1 && #[trigger] e[i].mismatches == least_mismatches(e, (m - 1) as nat);
        if e[m - 1].mismatches < least_mismatches(e, (m - 1) as nat) {
            assert(e[m - 1].mismatches == least_mismatches(e, m));
        } else {
            assert(e[i0].mismatches == least_mismatches(e, m));
        }
    } else {
        assert(e[0].mismatches == least_mismatches(e, m));
    }
}

/// Returns every evidence index attaining the least mismatch count, in order.
///
/// # Errors
///
/// [`ExhaustiveMaskFitError::EmptyTarget`] when no evidence is supplied.
pub fn best_mismatch_indices(evidence: &[ExhaustiveMaskFit]) -> (result: Result<
    Vec<usize>,
    ExhaustiveMaskFitError,
>)
    ensures
        evidence@.len() == 0 ==> result == Err::<Vec<usize>, ExhaustiveMaskFitError>(
            ExhaustiveMaskFitError::EmptyTarget,
        ),
        evidence@.len() > 0 ==> (result matches Ok(best) && is_best_set(evidence@, best@)),
{
    if evidence.len() == 0 {
        return Err(ExhaustiveMaskFitError::EmptyTarget);
    }
    let ghost e = evidence@;
    let mut best = evidence[0].mismatches;
    let mut i: usize = 1;
    while i < evidence.len()
        invariant
            e == evidence@,
            1 <= i <= e.len(),
            best == least_mismatches(e, i as nat),
        decreases e.len() - i,
    {
        if evidence[i].mismatches < best {
            best = evidence[i].mismatches;
        }
        i += 1;
    }
    proof {
        lemma_least_mismatches(e, e.len());
    }
    let mut indices: Vec<usize> = Vec::new();
    let mut j: usize = 0;
    while j < evidence.len()
        invariant
            e == evidence@,
            e.len() > 0,
            best == least_mismatches(e, e.len()),
            j <= e.len(),
            forall|k: int| 0 <= k < indices@.len() ==> #[trigger] indices@[k] < j && e[indices@[k] as int].mismatches == best,
            forall|k: int, l: int| 0 <= k < l < indices@.len() ==> #[trigger] indices@[k] < #[trigger] indices@[l],
            forall|m: int| 0 <= m < j && #[trigger] e[m].mismatches == best ==> exists|k: int|
                0 <= k < indices@.len() && #[trigger] indices@[k] == m,
        decreases e.len() - j,
    {
        if evidence[j].mismatches == best {
            let ghost before = indices@;
            indices.push(j);
            proof {
                assert forall|m: int| 0 <= m < j + 1 && #[trigger] e[m].mismatches == best implies exists|k: int|
                    0 <= k < indices@.len() && #[trigger] indices@[k] == m by {
                    if m < j {
                        let k = choose|k: int| 0 <= k < before.len() && #[trigger] before[k] == m;
                        assert(indices@[k] == m);
                    } else {
                        assert(indices@[before.len() as int] == m);
                    }
                }
            }
        }
        j += 1;
    }
    Ok(indices)
}

} // verus!
