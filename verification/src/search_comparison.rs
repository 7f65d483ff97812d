//! Exact search-only comparison of finite Boolean-rule search methods.
//!
//! Full-population mask fitting reports every best-fit tie; a short-circuit
//! linear scan and CEGIS both look for the first exact rule. Counts are
//! logical rule and row checks, not time or model quality.

use vstd::prelude::*;
use vstd::arithmetic::power2::pow2;
use crate::sparsity_cegis_search::{
    cegis_final,
    CegisSearchError, CegisSearchResult, search_cegis, agrees_on, exact_candidate, first_exact,
    cegis_inputs_valid, evaluate,
};
use crate::sparsity_exhaustive_fit::{
    ExhaustiveMaskFitError, evaluate_exhaustive_mask_fit, best_mismatch_indices, is_code_fit,
    mismatch_count, least_mismatches, is_best_set,
};
use crate::sparsity_exhaustive_search::{
    ExhaustiveRuleProposal, ExhaustiveRuleSearchError, propose_exhaustive_rules, is_code_proposal,
    is_exhaustive_population, code_table, MAX_EXHAUSTIVE_SPARSITY_RULE_BITS,
};
use crate::sparsity_function_mask::{mask_of, rows_view, rows_have_arity, table_keeps, DynamicMaskError};

verus! {

/// Outcome and work of a short-circuit linear search for the first exact rule.
#[derive(Debug, PartialEq, Eq)]
pub struct LinearSearch {
    pub selected_index: Option<usize>,
    pub candidate_checks: u64,
    pub row_checks: u64,
}

/// Matched comparison of full fitting, linear search and CEGIS.
#[derive(Debug, PartialEq, Eq)]
pub struct Comparison {
    pub candidate_count: usize,
    pub example_count: usize,
    pub minimum_mismatches: u64,
    pub best_codes: Vec<u64>,
    pub exhaustive_mask_decisions: u64,
    pub linear: LinearSearch,
    pub cegis: Option<CegisSearchResult>,
}

/// Failures of the comparison.
#[derive(Debug, PartialEq, Eq)]
pub enum SearchComparisonError {
    Fit(ExhaustiveMaskFitError),
    Search(ExhaustiveRuleSearchError),
    Cegis(CegisSearchError),
    CandidatePopulationDrift,
    FirstSolutionDisagreement,
    SelectedRuleIdentityDrift,
    CounterOverflow,
}

/// Position of the first row below `m` from `i` on where candidate `k` disagrees, or `m`.
pub open spec fn first_disagreement(
    c: Seq<ExhaustiveRuleProposal>,
    k: int,
    rows: Seq<&[bool]>,
    target: Seq<bool>,
    i: nat,
    m: nat,
) -> nat
    decreases m - i,
{
    if i >= m {
        m
    } else if !agrees_on(c, k, rows, target, i as int) {
        i
    } else {
        first_disagreement(c, k, rows, target, i + 1, m)
    }
}

/// Row checks spent on candidate `k`: up to and including its first disagreement.
pub open spec fn row_checks_for(
    c: Seq<ExhaustiveRuleProposal>,
    k: int,
    rows: Seq<&[bool]>,
    target: Seq<bool>,
    m: nat,
) -> nat {
    let d = first_disagreement(c, k, rows, target, 0, m);
    if d < m {
        d + 1
    } else {
        m
    }
}

/// Row checks spent on the first `k` candidates.
pub open spec fn row_checks_upto(
    c: Seq<ExhaustiveRuleProposal>,
    rows: Seq<&[bool]>,
    target: Seq<bool>,
    m: nat,
    k: nat,
) -> nat
    decreases k,
{
    if k == 0 {
        0
    } else {
        row_checks_upto(c, rows, target, m, (k - 1) as nat) + row_checks_for(
            c,
            (k - 1) as int,
            rows,
            target,
            m,
        )
    }
}

/// Candidate `k` agrees with the target on the first `m` rows.
pub open spec fn exact_upto(
    c: Seq<ExhaustiveRuleProposal>,
    k: int,
    rows: Seq<&[bool]>,
    target: Seq<bool>,
    m: nat,
) -> bool {
    forall|r: int| 0 <= r < m ==> #[trigger] agrees_on(c, k, rows, target, r)
}

/// The first of candidates `0..j` that agrees with the target on the first `m` rows.
pub open spec fn first_exact_upto(
    c: Seq<ExhaustiveRuleProposal>,
    rows: Seq<&[bool]>,
    target: Seq<bool>,
    m: nat,
    j: nat,
) -> Option<int>
    decreases j,
{
    if j == 0 {
        None
    } else {
        match first_exact_upto(c, rows, target, m, (j - 1) as nat) {
            Some(k) => Some(k),
            None => if exact_upto(c, j - 1, rows, target, m) {
                Some(j - 1)
            } else {
                None
            },
        }
    }
}

/// Row checks of the whole linear scan over the first `m` rows, as an unbounded integer.
pub open spec fn linear_row_total(
    c: Seq<ExhaustiveRuleProposal>,
    rows: Seq<&[bool]>,
    target: Seq<bool>,
    m: nat,
) -> nat {
    row_checks_upto(
        c,
        rows,
        target,
        m,
        match first_exact_upto(c, rows, target, m, c.len()) {
            Some(k) => (k + 1) as nat,
            None => c.len(),
        },
    )
}

proof fn lemma_first_exact_upto(
    c: Seq<ExhaustiveRuleProposal>,
    rows: Seq<&[bool]>,
    target: Seq<bool>,
    m: nat,
    k: nat,
    j: nat,
)
    requires
        k <= j,
        forall|i: int| 0 <= i < k ==> !#[trigger] exact_upto(c, i, rows, target, m),
    ensures
        match first_exact_upto(c, rows, target, m, j) {
            Some(s) => k <= s < j && exact_upto(c, s, rows, target, m) && forall|i: int|
                0 <= i < s ==> !#[trigger] exact_upto(c, i, rows, target, m),
            None => forall|i: int| 0 <= i < j ==> !#[trigger] exact_upto(c, i, rows, target, m),
        },
    decreases j,
{
    if j > k {
        lemma_first_exact_upto(c, rows, target, m, k, (j - 1) as nat);
    } else if j > 0 {
        lemma_first_exact_upto(c, rows, target, m, (j - 1) as nat, (j - 1) as nat);
    }
}

proof fn lemma_row_checks_monotone(
    c: Seq<ExhaustiveRuleProposal>,
    rows: Seq<&[bool]>,
    target: Seq<bool>,
    m: nat,
    k: nat,
    j: nat,
)
    requires
        k <= j,
    ensures
        row_checks_upto(c, rows, target, m, k) <= row_checks_upto(c, rows, target, m, j),
    decreases j,
{
    if k < j {
        lemma_row_checks_monotone(c, rows, target, m, k, (j - 1) as nat);
    }
}

/// `s` is the outcome of the linear scan over the first `m` rows.
pub open spec fn is_linear_outcome(
    s: LinearSearch,
    c: Seq<ExhaustiveRuleProposal>,
    rows: Seq<&[bool]>,
    target: Seq<bool>,
    m: nat,
) -> bool {
    &&& match s.selected_index {
        Some(k) => 0 <= k < c.len() && exact_upto(c, k as int, rows, target, m) && (forall|j: int|
            0 <= j < k ==> !#[trigger] exact_upto(c, j, rows, target, m)) && s.candidate_checks == k
            + 1,
        None => (forall|j: int| 0 <= j < c.len() ==> !#[trigger] exact_upto(c, j, rows, target, m))
            && s.candidate_checks == c.len(),
    }
    &&& s.row_checks == row_checks_upto(c, rows, target, m, s.candidate_checks as nat)
}

/// The first disagreement lies at or after `i`, and every row before it agrees.
proof fn lemma_first_disagreement(
    c: Seq<ExhaustiveRuleProposal>,
    k: int,
    rows: Seq<&[bool]>,
    target: Seq<bool>,
    i: nat,
    m: nat,
)
    requires
        i <= m,
    ensures
        i <= first_disagreement(c, k, rows, target, i, m) <= m,
        forall|r: int|
            i <= r < first_disagreement(c, k, rows, target, i, m) ==> #[trigger] agrees_on(c, k, rows, target, r),
        first_disagreement(c, k, rows, target, i, m) < m ==> !agrees_on(
            c,
            k,
            rows,
            target,
            first_disagreement(c, k, rows, target, i, m) as int,
        ),
    decreases m - i,
{
    if i < m && agrees_on(c, k, rows, target, i as int) {
        lemma_first_disagreement(c, k, rows, target, i + 1, m);
    }
}

/// Short-circuit linear search for the first rule that agrees with the target
/// on every example row (rows and labels are paired up to the shorter list).
///
/// # Errors
///
/// [`SearchComparisonError::CounterOverflow`] if a logical check count
/// leaves `u64`.
pub fn linear_first_exact(
    candidates: &[ExhaustiveRuleProposal],
    rows: &[&[bool]],
    target: &[bool],
) -> (result: Result<LinearSearch, SearchComparisonError>)
    requires
        forall|k: int, r: int|
            0 <= k < candidates@.len() && 0 <= r < rows@.len() ==> #[trigger] rows@[r]@.len()
                == #[trigger] candidates@[k].function.input_width(),
    ensures
        result matches Ok(s) ==> is_linear_outcome(
            s,
            candidates@,
            rows@,
            target@,
            if rows@.len() < target@.len() { rows@.len() } else { target@.len() },
        ),
        result matches Err(e) ==> e == SearchComparisonError::CounterOverflow,
        linear_row_total(
            candidates@,
            rows@,
            target@,
            if rows@.len() < target@.len() { rows@.len() } else { target@.len() },
        ) <= u64::MAX <==> result is Ok,
{
    let ghost c = candidates@;
    let m = if rows.len() < target.len() {
        rows.len()
    } else {
        target.len()
    };
    let mut candidate_checks: u64 = 0;
    let mut row_checks: u64 = 0;
    let mut index: usize = 0;
    while index < candidates.len()
        invariant
            c == candidates@,
            m <= rows@.len(),
            m <= target@.len(),
            m == (if rows@.len() < target@.len() { rows@.len() } else { target@.len() }),
            forall|k: int, r: int|
                0 <= k < c.len() && 0 <= r < rows@.len() ==> #[trigger] rows@[r]@.len()
                    == #[trigger] c[k].function.input_width(),
            index <= c.len(),
            candidate_checks == index,
            row_checks == row_checks_upto(c, rows@, target@, m as nat, index as nat),
            forall|j: int| 0 <= j < index ==> !#[trigger] exact_upto(c, j, rows@, target@, m as nat),
        decreases c.len() - index,
    {
        candidate_checks = match candidate_checks.checked_add(1) {
            Some(v) => v,
            None => {
                proof {
                    assert(index + 1 <= usize::MAX);
                }
                return Err(SearchComparisonError::CounterOverflow);
            },
        };
        let candidate = &candidates[index];
        proof {
            lemma_first_disagreement(c, index as int, rows@, target@, 0, m as nat);
        }
        let mut exact = true;
        let mut r: usize = 0;
        let ghost base = row_checks;
        while r < m
            invariant_except_break
                exact,
                row_checks == base + r,
            invariant
                c == candidates@,
                m <= rows@.len(),
                m <= target@.len(),
                index < c.len(),
                *candidate == c[index as int],
                forall|k: int, q: int|
                    0 <= k < c.len() && 0 <= q < rows@.len() ==> #[trigger] rows@[q]@.len()
                        == #[trigger] c[k].function.input_width(),
                r <= m,
                m == (if rows@.len() < target@.len() { rows@.len() } else { target@.len() }),
                base == row_checks_upto(c, rows@, target@, m as nat, index as nat),
                forall|j: int| 0 <= j < index ==> !#[trigger] exact_upto(c, j, rows@, target@, m as nat),
                forall|q: int| 0 <= q < r ==> #[trigger] agrees_on(c, index as int, rows@, target@, q),
                first_disagreement(c, index as int, rows@, target@, 0, m as nat) >= r,
                forall|q: int|
                    0 <= q < first_disagreement(c, index as int, rows@, target@, 0, m as nat)
                        ==> #[trigger] agrees_on(c, index as int, rows@, target@, q),
                first_disagreement(c, index as int, rows@, target@, 0, m as nat) < m ==> !agrees_on(
                    c,
                    index as int,
                    rows@,
                    target@,
                    first_disagreement(c, index as int, rows@, target@, 0, m as nat) as int,
                ),
            ensures
                exact ==> exact_upto(c, index as int, rows@, target@, m as nat) && row_checks == base
                    + m,
                !exact ==> !exact_upto(c, index as int, rows@, target@, m as nat) && row_checks
                    == base + row_checks_for(c, index as int, rows@, target@, m as nat),
            decreases m - r,
        {
            row_checks = match row_checks.checked_add(1) {
                Some(v) => v,
                None => {
                    proof {
                        lemma_first_exact_upto(c, rows@, target@, m as nat, index as nat, c.len());
                        let kk: nat = match first_exact_upto(c, rows@, target@, m as nat, c.len()) {
                            Some(s) => (s + 1) as nat,
                            None => c.len(),
                        };
                        lemma_row_checks_monotone(c, rows@, target@, m as nat, (index + 1) as nat, kk);
                    }
                    return Err(SearchComparisonError::CounterOverflow);
                },
            };
            proof {
                assert(rows@[r as int]@.len() == c[index as int].function.input_width());
            }
            if evaluate(&candidate.function, rows[r]) != target[r] {
                proof {
                    assert(!agrees_on(c, index as int, rows@, target@, r as int));
                    assert(first_disagreement(c, index as int, rows@, target@, 0, m as nat) == r);
                }
                exact = false;
                break;
            }
            r += 1;
        }
        if exact {
            proof {
                assert(first_disagreement(c, index as int, rows@, target@, 0, m as nat) == m);
                lemma_first_exact_upto(c, rows@, target@, m as nat, index as nat, c.len());
            }
            return Ok(
                LinearSearch {
                    selected_index: Some(index),
                    candidate_checks,
                    row_checks,
                },
            );
        }
        index += 1;
    }
    proof {
        lemma_first_exact_upto(c, rows@, target@, m as nat, c.len(), c.len());
    }
    Ok(LinearSearch { selected_index: None, candidate_checks, row_checks })
}

/// A count of mismatches is zero exactly when the sequences agree on the prefix.
proof fn lemma_mismatch_count_zero(a: Seq<bool>, b: Seq<bool>, m: nat)
    requires
        m <= a.len(),
        m <= b.len(),
    ensures
        (mismatch_count(a, b, m) == 0) <==> forall|i: int| 0 <= i < m ==> #[trigger] a[i] == b[i],
    decreases m,
{
    if m > 0 {
        lemma_mismatch_count_zero(a, b, (m - 1) as nat);
    }
}

/// The fit of candidate `k` reports zero mismatches exactly when `k` is exact.
proof fn lemma_fit_zero_is_exact(
    fit: Seq<crate::sparsity_exhaustive_fit::ExhaustiveMaskFit>,
    c: Seq<ExhaustiveRuleProposal>,
    n: nat,
    rows: Seq<&[bool]>,
    target: Seq<bool>,
    k: int,
)
    requires
        0 <= k < c.len(),
        k < fit.len(),
        rows.len() == target.len(),
        is_code_fit(fit[k], n, k as nat, rows_view(rows), target),
        is_code_proposal(c[k], n, k as nat),
    ensures
        (fit[k].mismatches == 0) <==> exact_candidate(c, k, rows, target),
{
    let mask = mask_of(code_table(n, k as nat), rows_view(rows));
    lemma_mismatch_count_zero(mask, target, target.len());
    assert forall|r: int|
        #![trigger mask[r]]
        #![trigger agrees_on(c, k, rows, target, r)]
        0 <= r < target.len() implies (mask[r] == target[r]) == agrees_on(c, k, rows, target, r) by {
        assert(rows_view(rows)[r] == rows[r]@);
    }
}

/// Index of the first fit with zero mismatches, if any.
fn first_zero_mismatch(fit: &[crate::sparsity_exhaustive_fit::ExhaustiveMaskFit]) -> (found: Option<usize>)
    ensures
        found matches Some(k) ==> k < fit@.len() && fit@[k as int].mismatches == 0 && forall|j: int|
            0 <= j < k ==> #[trigger] fit@[j].mismatches != 0,
        found is None ==> forall|j: int| 0 <= j < fit@.len() ==> #[trigger] fit@[j].mismatches != 0,
{
    let mut k: usize = 0;
    while k < fit.len()
        invariant
            k <= fit@.len(),
            forall|j: int| 0 <= j < k ==> #[trigger] fit@[j].mismatches != 0,
        decreases fit@.len() - k,
    {
        if fit[k].mismatches == 0 {
            return Some(k);
        }
        k += 1;
    }
    None
}

/// The search inputs that every method accepts.
pub open spec fn comparison_inputs_valid(n: u32, rows: Seq<&[bool]>, target: Seq<bool>) -> bool {
    &&& target.len() > 0
    &&& rows.len() == target.len()
    &&& 1 <= n <= MAX_EXHAUSTIVE_SPARSITY_RULE_BITS
    &&& rows_have_arity(rows_view(rows), n as nat)
}

/// Every logical check count of the comparison over population `c` fits in `u64`.
pub open spec fn comparison_counts_fit(c: Seq<ExhaustiveRuleProposal>, rows: Seq<&[bool]>, target: Seq<bool>) -> bool {
    let o = cegis_final(c, rows, target);
    &&& linear_row_total(c, rows, target, target.len()) <= u64::MAX
    &&& o.2 <= u64::MAX
    &&& o.3 <= u64::MAX
    &&& o.4 <= u64::MAX
    &&& c.len() * rows.len() <= u64::MAX
}

/// `outcome` is the comparison of the three methods on valid inputs.
pub open spec fn is_comparison(outcome: Comparison, n: u32, rows: Seq<&[bool]>, target: Seq<bool>) -> bool {
    exists|fit: Seq<crate::sparsity_exhaustive_fit::ExhaustiveMaskFit>, c: Seq<ExhaustiveRuleProposal>, best: Seq<usize>|
        #![trigger is_exhaustive_population(c, n as nat), is_best_set(fit, best)]
        {
            &&& fit.len() == pow2(pow2(n as nat))
            &&& (forall|k: int| 0 <= k < fit.len() ==> #[trigger] is_code_fit(fit[k], n as nat, k as nat, rows_view(rows), target))
            &&& is_exhaustive_population(c, n as nat)
            &&& is_best_set(fit, best)
            &&& outcome.candidate_count == c.len()
            &&& outcome.example_count == rows.len()
            &&& outcome.minimum_mismatches == least_mismatches(fit, fit.len())
            &&& outcome.best_codes@.len() == best.len()
            &&& (forall|i: int| 0 <= i < best.len() ==> #[trigger] outcome.best_codes@[i] == best[i])
            &&& outcome.exhaustive_mask_decisions == c.len() * rows.len()
            &&& is_linear_outcome(outcome.linear, c, rows, target, target.len())
            &&& match outcome.cegis {
                Some(found) => first_exact(c, found.candidate_index as int, rows, target)
                    && found.candidate_id == c[found.candidate_index as int].proposal_id,
                None => forall|k: int| 0 <= k < c.len() ==> !#[trigger] exact_candidate(c, k, rows, target),
            }
        }
}

/// Compares full fitting, linear first-solution search and CEGIS on one
/// declared example table, over the complete population of `input_bits` inputs.
///
/// # Errors
///
/// Malformed inputs fail as [`SearchComparisonError::Fit`]; logical check
/// counts that leave `u64` fail as counter overflow.
pub fn compare(input_bits: u32, rows: &[&[bool]], target: &[bool]) -> (result: Result<
    Comparison,
    SearchComparisonError,
>)
    ensures
        !comparison_inputs_valid(input_bits, rows@, target@) ==> result matches Err(
            SearchComparisonError::Fit(_),
        ),
        target@.len() == 0 ==> result == Err::<Comparison, SearchComparisonError>(
            SearchComparisonError::Fit(ExhaustiveMaskFitError::EmptyTarget),
        ),
        target@.len() > 0 && rows@.len() != target@.len() ==> result == Err::<Comparison, SearchComparisonError>(
            SearchComparisonError::Fit(
                ExhaustiveMaskFitError::TargetLengthMismatch {
                    predicate_rows: rows@.len() as usize,
                    target: target@.len() as usize,
                },
            ),
        ),
        target@.len() > 0 && rows@.len() == target@.len() && input_bits == 0 ==> result == Err::<
            Comparison,
            SearchComparisonError,
        >(SearchComparisonError::Fit(ExhaustiveMaskFitError::Search(ExhaustiveRuleSearchError::ZeroInputs))),
        target@.len() > 0 && rows@.len() == target@.len() && input_bits > MAX_EXHAUSTIVE_SPARSITY_RULE_BITS
            ==> result == Err::<Comparison, SearchComparisonError>(
            SearchComparisonError::Fit(
                ExhaustiveMaskFitError::Search(
                    ExhaustiveRuleSearchError::InputWidthTooLarge {
                        requested: input_bits,
                        maximum: MAX_EXHAUSTIVE_SPARSITY_RULE_BITS,
                    },
                ),
            ),
        ),
        target@.len() > 0 && rows@.len() == target@.len() && 1 <= input_bits <= MAX_EXHAUSTIVE_SPARSITY_RULE_BITS
            && !rows_have_arity(rows_view(rows@), input_bits as nat) ==> exists|i: int|
            0 <= i < rows@.len() && #[trigger] rows@[i]@.len() != input_bits && (forall|j: int|
                0 <= j < i ==> #[trigger] rows@[j]@.len() == input_bits) && result == Err::<
                Comparison,
                SearchComparisonError,
            >(
                SearchComparisonError::Fit(
                    ExhaustiveMaskFitError::Mask(
                        DynamicMaskError::PredicateArityMismatch {
                            index: i as usize,
                            expected: input_bits as usize,
                            actual: rows@[i]@.len() as usize,
                        },
                    ),
                ),
            ),
        comparison_inputs_valid(input_bits, rows@, target@) ==> match result {
            Ok(outcome) => is_comparison(outcome, input_bits, rows@, target@),
            Err(e) => e == SearchComparisonError::CounterOverflow || e == SearchComparisonError::Cegis(
                CegisSearchError::CounterOverflow,
            ),
        },
        result is Ok ==> comparison_inputs_valid(input_bits, rows@, target@),
        comparison_inputs_valid(input_bits, rows@, target@) && (forall|c: Seq<ExhaustiveRuleProposal>|
            #[trigger] is_exhaustive_population(c, input_bits as nat) ==> comparison_counts_fit(c, rows@, target@))
            ==> result is Ok,
{
    let fit = match evaluate_exhaustive_mask_fit(input_bits, rows, target) {
        Ok(fit) => fit,
        Err(e) => {
            return Err(SearchComparisonError::Fit(e));
        },
    };
    proof {
        assert(comparison_inputs_valid(input_bits, rows@, target@));
    }
    proof {
        lemma2_pow_positive(input_bits as nat);
    }
    let best = match best_mismatch_indices(fit.as_slice()) {
        Ok(best) => best,
        Err(e) => {
            return Err(SearchComparisonError::Fit(e));
        },
    };
    let candidates = match propose_exhaustive_rules(input_bits) {
        Ok(candidates) => candidates,
        Err(e) => {
            return Err(SearchComparisonError::Search(e));
        },
    };
    if fit.len() != candidates.len() {
        return Err(SearchComparisonError::CandidatePopulationDrift);
    }
    let ghost c = candidates@;
    let ghost n = input_bits as nat;
    proof {
        assert forall|k: int| 0 <= k < c.len() implies (#[trigger] fit@[k].mismatches == 0) == exact_candidate(
            c,
            k,
            rows@,
            target@,
        ) by {
            assert(is_code_fit(fit@[k], n, k as nat, rows_view(rows@), target@));
            assert(is_code_proposal(c[k], n, k as nat));
            lemma_fit_zero_is_exact(fit@, c, n, rows@, target@, k);
        }
        assert forall|k: int, r: int| 0 <= k < c.len() && 0 <= r < rows@.len() implies #[trigger] rows@[r]@.len()
            == #[trigger] c[k].function.input_width() by {
            assert(is_code_proposal(c[k], n, k as nat));
            assert(rows_view(rows@)[r].len() == n);
        }
        assert(cegis_inputs_valid(c, rows@, target@)) by {
            lemma2_pow_positive(n);
            let z: int = 0;
            assert(is_code_proposal(c[z], n, z as nat));
            assert forall|k: int| 0 <= k < c.len() implies #[trigger] c[k].function.input_width()
                == c[0].function.input_width() by {
                assert(is_code_proposal(c[k], n, k as nat));
            }
            assert forall|r: int| 0 <= r < rows@.len() implies #[trigger] rows@[r]@.len()
                == c[0].function.input_width() by {
                assert(rows_view(rows@)[r].len() == n);
            }
        }
    }
    let linear = match linear_first_exact(candidates.as_slice(), rows, target) {
        Ok(linear) => linear,
        Err(e) => {
            return Err(e);
        },
    };
    let cegis = match search_cegis(candidates.as_slice(), rows, target) {
        Ok(found) => Some(found),
        Err(CegisSearchError::NoConsistentCandidate) => None,
        Err(e) => {
            return Err(SearchComparisonError::Cegis(e));
        },
    };
    let first = first_zero_mismatch(fit.as_slice());
    let cegis_index = match &cegis {
        Some(found) => Some(found.candidate_index),
        None => None,
    };
    proof {
        assert forall|k: int| 0 <= k < c.len() implies exact_upto(c, k, rows@, target@, target@.len())
            == #[trigger] exact_candidate(c, k, rows@, target@) by {}
        match first {
            Some(f) => {
                assert(exact_candidate(c, f as int, rows@, target@));
                assert(exact_upto(c, f as int, rows@, target@, target@.len()));
                match linear.selected_index {
                    Some(k) => {
                        if k < f {
                            assert(fit@[k as int].mismatches != 0);
                            assert(exact_candidate(c, k as int, rows@, target@));
                        }
                    },
                    None => {},
                }
                match cegis_index {
                    Some(k) => {
                        if k < f {
                            assert(fit@[k as int].mismatches != 0);
                        }
                    },
                    None => {},
                }
            },
            None => {
                match linear.selected_index {
                    Some(k) => {
                        assert(exact_candidate(c, k as int, rows@, target@));
                        assert(fit@[k as int].mismatches != 0);
                    },
                    None => {},
                }
                match cegis_index {
                    Some(k) => {
                        assert(fit@[k as int].mismatches != 0);
                    },
                    None => {},
                }
            },
        }
        assert(linear.selected_index == first);
        assert(cegis_index == first);
    }
    if linear.selected_index != first || cegis_index != first {
        return Err(SearchComparisonError::FirstSolutionDisagreement);
    }
    match &cegis {
        Some(found) => {
            let proposal = &candidates[found.candidate_index];
            if proposal.proposal_id != found.candidate_id || proposal.truth_table_code
                != fit[found.candidate_index].truth_table_code {
                proof {
                    assert(is_code_proposal(c[found.candidate_index as int], n, found.candidate_index as nat));
                    assert(is_code_fit(fit@[found.candidate_index as int], n, found.candidate_index as nat, rows_view(rows@), target@));
                }
                return Err(SearchComparisonError::SelectedRuleIdentityDrift);
            }
        },
        None => {},
    }
    let candidate_count = candidates.len() as u64;
    let example_count = rows.len() as u64;
    let exhaustive_mask_decisions = match candidate_count.checked_mul(example_count) {
        Some(v) => v,
        None => {
            return Err(SearchComparisonError::CounterOverflow);
        },
    };
    proof {
        crate::sparsity_exhaustive_fit::lemma_least_mismatches(fit@, fit@.len());
        let w = choose|w: int| 0 <= w < fit@.len() && #[trigger] fit@[w].mismatches == least_mismatches(fit@, fit@.len());
        let kk = choose|kk: int| 0 <= kk < best@.len() && #[trigger] best@[kk] == w;
    }
    let minimum_mismatches = fit[best[0]].mismatches;
    let mut best_codes: Vec<u64> = Vec::new();
    let mut i: usize = 0;
    while i < best.len()
        invariant
            is_best_set(fit@, best@),
            forall|k: int| 0 <= k < fit@.len() ==> #[trigger] is_code_fit(fit@[k], n, k as nat, rows_view(rows@), target@),
            i <= best@.len(),
            best_codes@.len() == i,
            forall|j: int| 0 <= j < i ==> #[trigger] best_codes@[j] == best@[j],
        decreases best@.len() - i,
    {
        proof {
            let b: int = best@[i as int] as int;
            assert(b < fit@.len());
            assert(is_code_fit(fit@[b], n, b as nat, rows_view(rows@), target@));
        }
        best_codes.push(fit[best[i]].truth_table_code);
        i += 1;
    }
    let comparison = Comparison {
        candidate_count: candidates.len(),
        example_count: rows.len(),
        minimum_mismatches,
        best_codes,
        exhaustive_mask_decisions,
        linear,
        cegis,
    };
    proof {
        assert(minimum_mismatches == least_mismatches(fit@, fit@.len())) by {
            crate::sparsity_exhaustive_fit::lemma_least_mismatches(fit@, fit@.len());
            lemma2_pow_positive(n);
        }
        assert(is_comparison(comparison, input_bits, rows@, target@));
    }
    Ok(comparison)
}

/// `2^(2^n)` is positive.
proof fn lemma2_pow_positive(n: nat)
    ensures
        pow2(pow2(n)) > 0,
{
    vstd::arithmetic::power2::lemma_pow2_pos(pow2(n));
}

} // verus!
