//! Bounded counterexample-guided Boolean rule search.
//!
//! A deterministic finite-domain synthesis loop over an explicit candidate
//! population and an explicit labelled predicate table, for search only.

use vstd::prelude::*;
use vstd::set_lib::{set_int_range, lemma_int_range, lemma_len_subset};
use crate::function::BooleanFunction;
use crate::sparsity_exhaustive_search::ExhaustiveRuleProposal;
use crate::sparsity_function_mask::{row_address, table_keeps, predicate_address, lemma_address_bound};
use crate::spectral::MAX_EXACT_BITS;

verus! {

/// Exact accounting of one deterministic finite-domain CEGIS run.
#[derive(Clone, Debug, PartialEq, Eq)]
pub struct CegisSearchResult {
    pub candidate_index: usize,
    pub candidate_id: String,
    pub counterexample_rows: Vec<usize>,
    pub synthesis_candidate_checks: u64,
    pub synthesis_row_checks: u64,
    pub verification_row_checks: u64,
}

/// Fail-closed errors of bounded CEGIS search.
#[derive(Clone, Debug, PartialEq, Eq)]
pub enum CegisSearchError {
    EmptyCandidateSet,
    EmptyExamples,
    ExampleLengthMismatch { predicate_rows: usize, target: usize },
    PredicateArityMismatch { row: usize, expected: usize, actual: usize },
    MixedCandidateArity { candidate_index: usize, expected: u32, actual: u32 },
    NoConsistentCandidate,
    CounterOverflow,
}

/// Candidate `k` agrees with the target on row `r`.
pub open spec fn agrees_on(
    c: Seq<ExhaustiveRuleProposal>,
    k: int,
    rows: Seq<&[bool]>,
    target: Seq<bool>,
    r: int,
) -> bool {
    table_keeps(c[k].function.table(), rows[r]@) == target[r]
}

/// Candidate `k` agrees with the target on every row.
pub open spec fn exact_candidate(
    c: Seq<ExhaustiveRuleProposal>,
    k: int,
    rows: Seq<&[bool]>,
    target: Seq<bool>,
) -> bool {
    forall|r: int| 0 <= r < target.len() ==> #[trigger] agrees_on(c, k, rows, target, r)
}

/// Candidate `k` is the first exact candidate.
pub open spec fn first_exact(
    c: Seq<ExhaustiveRuleProposal>,
    k: int,
    rows: Seq<&[bool]>,
    target: Seq<bool>,
) -> bool {
    &&& 0 <= k < c.len()
    &&& exact_candidate(c, k, rows, target)
    &&& forall|j: int| 0 <= j < k ==> !#[trigger] exact_candidate(c, j, rows, target)
}

/// The shape checks of the search inputs all pass.
pub open spec fn cegis_inputs_valid(c: Seq<ExhaustiveRuleProposal>, rows: Seq<&[bool]>, target: Seq<bool>) -> bool {
    &&& c.len() > 0
    &&& rows.len() > 0
    &&& rows.len() == target.len()
    &&& forall|k: int| 0 <= k < c.len() ==> #[trigger] c[k].function.input_width() == c[0].function.input_width()
    &&& forall|r: int| 0 <= r < rows.len() ==> #[trigger] rows[r]@.len() == c[0].function.input_width()
}

/// Candidate `k` agrees with the target on the first `m` counterexamples.
pub open spec fn agrees_prefix(
    c: Seq<ExhaustiveRuleProposal>,
    k: int,
    rows: Seq<&[bool]>,
    target: Seq<bool>,
    cex: Seq<usize>,
    m: int,
) -> bool {
    forall|l: int| 0 <= l < m ==> #[trigger] agrees_on(c, k, rows, target, cex[l] as int)
}

/// Row checks spent on candidate `k` scanning the first `m` counterexamples:
/// each is checked while every earlier one agrees.
pub open spec fn scan_cost(
    c: Seq<ExhaustiveRuleProposal>,
    k: int,
    rows: Seq<&[bool]>,
    target: Seq<bool>,
    cex: Seq<usize>,
    m: nat,
) -> nat
    decreases m,
{
    if m == 0 {
        0
    } else if agrees_prefix(c, k, rows, target, cex, m - 1) {
        scan_cost(c, k, rows, target, cex, (m - 1) as nat) + 1
    } else {
        scan_cost(c, k, rows, target, cex, (m - 1) as nat)
    }
}

/// Row checks spent on candidates `0..j` during one synthesis pass.
pub open spec fn synth_rows(
    c: Seq<ExhaustiveRuleProposal>,
    rows: Seq<&[bool]>,
    target: Seq<bool>,
    cex: Seq<usize>,
    j: nat,
) -> nat
    decreases j,
{
    if j == 0 {
        0
    } else {
        synth_rows(c, rows, target, cex, (j - 1) as nat) + scan_cost(c, j - 1, rows, target, cex, cex.len())
    }
}

/// The first of candidates `0..j` consistent with every counterexample.
pub open spec fn first_consistent(
    c: Seq<ExhaustiveRuleProposal>,
    rows: Seq<&[bool]>,
    target: Seq<bool>,
    cex: Seq<usize>,
    j: nat,
) -> Option<int>
    decreases j,
{
    if j == 0 {
        None
    } else {
        match first_consistent(c, rows, target, cex, (j - 1) as nat) {
            Some(s) => Some(s),
            None => if agrees_prefix(c, j - 1, rows, target, cex, cex.len() as int) {
                Some(j - 1)
            } else {
                None
            },
        }
    }
}

/// The first of rows `0..m` on which candidate `s` disagrees with the target.
pub open spec fn first_mismatch(
    c: Seq<ExhaustiveRuleProposal>,
    s: int,
    rows: Seq<&[bool]>,
    target: Seq<bool>,
    m: nat,
) -> Option<int>
    decreases m,
{
    if m == 0 {
        None
    } else {
        match first_mismatch(c, s, rows, target, (m - 1) as nat) {
            Some(r) => Some(r),
            None => if !agrees_on(c, s, rows, target, m - 1) {
                Some(m - 1)
            } else {
                None
            },
        }
    }
}

/// The end of a search run from counterexamples `cex` with counters `sc`, `sr`
/// and `vr` already spent: the selected candidate (none when the population is
/// exhausted), the counterexamples, and the three counters, as unbounded
/// integers.
pub open spec fn cegis_run(
    c: Seq<ExhaustiveRuleProposal>,
    rows: Seq<&[bool]>,
    target: Seq<bool>,
    cex: Seq<usize>,
    sc: int,
    sr: int,
    vr: int,
) -> (Option<int>, Seq<usize>, int, int, int)
    decreases target.len() - cex.len(),
{
    let n = target.len();
    match first_consistent(c, rows, target, cex, c.len()) {
        None => (None, cex, sc + c.len(), sr + synth_rows(c, rows, target, cex, c.len()), vr),
        Some(s) => {
            let sc2 = sc + s + 1;
            let sr2 = sr + synth_rows(c, rows, target, cex, s as nat) + scan_cost(c, s, rows, target, cex, cex.len());
            match first_mismatch(c, s, rows, target, n) {
                None => (Some(s), cex, sc2, sr2, vr + n),
                Some(r) => if cex.len() < n {
                    cegis_run(c, rows, target, cex.push(r as usize), sc2, sr2, vr + r + 1)
                } else {
                    (None, cex, sc2, sr2, vr + r + 1)
                },
            }
        },
    }
}

/// The end of a search run from no counterexample and zero counters.
pub open spec fn cegis_final(
    c: Seq<ExhaustiveRuleProposal>,
    rows: Seq<&[bool]>,
    target: Seq<bool>,
) -> (Option<int>, Seq<usize>, int, int, int) {
    cegis_run(c, rows, target, Seq::empty(), 0, 0, 0)
}

/// `result` is what the run `o` gives: counter overflow when a counter does
/// not fit in `u64`, else the selected candidate with its exact accounting, or
/// no consistent candidate.
pub open spec fn is_cegis_outcome(
    c: Seq<ExhaustiveRuleProposal>,
    o: (Option<int>, Seq<usize>, int, int, int),
    result: Result<CegisSearchResult, CegisSearchError>,
) -> bool {
    if o.2 > u64::MAX || o.3 > u64::MAX || o.4 > u64::MAX {
        result == Err::<CegisSearchResult, CegisSearchError>(CegisSearchError::CounterOverflow)
    } else {
        match o.0 {
            None => result == Err::<CegisSearchResult, CegisSearchError>(CegisSearchError::NoConsistentCandidate),
            Some(s) => result matches Ok(found) && found.candidate_index == s && found.candidate_id
                == c[s].proposal_id && found.counterexample_rows@ == o.1 && found.synthesis_candidate_checks
                == o.2 && found.synthesis_row_checks == o.3 && found.verification_row_checks == o.4,
        }
    }
}

proof fn lemma_scan_cost_bounds(
    c: Seq<ExhaustiveRuleProposal>,
    k: int,
    rows: Seq<&[bool]>,
    target: Seq<bool>,
    cex: Seq<usize>,
    i: int,
    m: nat,
)
    requires
        0 <= i <= m,
        agrees_prefix(c, k, rows, target, cex, i),
    ensures
        scan_cost(c, k, rows, target, cex, m) >= (if i < m { i + 1 } else { i }),
        i == m ==> scan_cost(c, k, rows, target, cex, m) == m,
        i < m && !agrees_on(c, k, rows, target, cex[i] as int) ==> scan_cost(c, k, rows, target, cex, m) == i + 1,
    decreases m,
{
    if m > 0 {
        if i == m {
            assert(agrees_prefix(c, k, rows, target, cex, m - 1));
            lemma_scan_cost_bounds(c, k, rows, target, cex, m - 1, (m - 1) as nat);
        } else {
            lemma_scan_cost_bounds(c, k, rows, target, cex, i, (m - 1) as nat);
            if i < m - 1 && !agrees_on(c, k, rows, target, cex[i] as int) {
                assert(!agrees_prefix(c, k, rows, target, cex, m - 1));
            }
        }
    }
}

proof fn lemma_synth_rows_monotone(
    c: Seq<ExhaustiveRuleProposal>,
    rows: Seq<&[bool]>,
    target: Seq<bool>,
    cex: Seq<usize>,
    j: nat,
    m: nat,
)
    requires
        j <= m,
    ensures
        synth_rows(c, rows, target, cex, j) <= synth_rows(c, rows, target, cex, m),
    decreases m,
{
    if j < m {
        lemma_synth_rows_monotone(c, rows, target, cex, j, (m - 1) as nat);
    }
}

proof fn lemma_first_consistent_after(
    c: Seq<ExhaustiveRuleProposal>,
    rows: Seq<&[bool]>,
    target: Seq<bool>,
    cex: Seq<usize>,
    k: nat,
    m: nat,
)
    requires
        k <= m,
        first_consistent(c, rows, target, cex, k) is None,
    ensures
        match first_consistent(c, rows, target, cex, m) {
            Some(s) => k <= s < m && agrees_prefix(c, s, rows, target, cex, cex.len() as int) && forall|j: int|
                0 <= j < s ==> !#[trigger] agrees_prefix(c, j, rows, target, cex, cex.len() as int),
            None => forall|j: int| 0 <= j < m ==> !#[trigger] agrees_prefix(c, j, rows, target, cex, cex.len() as int),
        },
    decreases m,
{
    if m > k {
        lemma_first_consistent_after(c, rows, target, cex, k, (m - 1) as nat);
    } else {
        lemma_first_consistent_none(c, rows, target, cex, m);
    }
}

proof fn lemma_first_consistent_none(
    c: Seq<ExhaustiveRuleProposal>,
    rows: Seq<&[bool]>,
    target: Seq<bool>,
    cex: Seq<usize>,
    m: nat,
)
    requires
        first_consistent(c, rows, target, cex, m) is None,
    ensures
        forall|j: int| 0 <= j < m ==> !#[trigger] agrees_prefix(c, j, rows, target, cex, cex.len() as int),
    decreases m,
{
    if m > 0 {
        lemma_first_consistent_none(c, rows, target, cex, (m - 1) as nat);
    }
}

proof fn lemma_first_mismatch_after(
    c: Seq<ExhaustiveRuleProposal>,
    s: int,
    rows: Seq<&[bool]>,
    target: Seq<bool>,
    r: nat,
    m: nat,
)
    requires
        r <= m,
        forall|l: int| 0 <= l < r ==> #[trigger] agrees_on(c, s, rows, target, l),
    ensures
        match first_mismatch(c, s, rows, target, m) {
            Some(x) => r <= x < m && !agrees_on(c, s, rows, target, x) && forall|l: int|
                0 <= l < x ==> #[trigger] agrees_on(c, s, rows, target, l),
            None => forall|l: int| 0 <= l < m ==> #[trigger] agrees_on(c, s, rows, target, l),
        },
    decreases m,
{
    if m > r {
        lemma_first_mismatch_after(c, s, rows, target, r, (m - 1) as nat);
    } else if m > 0 {
        lemma_first_mismatch_after(c, s, rows, target, (m - 1) as nat, (m - 1) as nat);
    }
}

proof fn lemma_run_monotone(
    c: Seq<ExhaustiveRuleProposal>,
    rows: Seq<&[bool]>,
    target: Seq<bool>,
    cex: Seq<usize>,
    sc: int,
    sr: int,
    vr: int,
)
    ensures
        cegis_run(c, rows, target, cex, sc, sr, vr).2 >= sc,
        cegis_run(c, rows, target, cex, sc, sr, vr).3 >= sr,
        cegis_run(c, rows, target, cex, sc, sr, vr).4 >= vr,
    decreases target.len() - cex.len(),
{
    let n = target.len();
    match first_consistent(c, rows, target, cex, c.len()) {
        None => {},
        Some(s) => {
            lemma_first_consistent_after(c, rows, target, cex, 0, c.len());
            let sc2 = sc + s + 1;
            let sr2 = sr + synth_rows(c, rows, target, cex, s as nat) + scan_cost(c, s, rows, target, cex, cex.len());
            match first_mismatch(c, s, rows, target, n) {
                None => {},
                Some(r) => {
                    lemma_first_mismatch_after(c, s, rows, target, 0, n);
                    if cex.len() < n {
                        lemma_run_monotone(c, rows, target, cex.push(r as usize), sc2, sr2, vr + r + 1);
                    }
                },
            }
        },
    }
}

/// Whether `function` keeps the unit described by `predicates`.
pub fn evaluate(function: &BooleanFunction, predicates: &[bool]) -> (keep: bool)
    requires
        predicates@.len() == function.input_width(),
    ensures
        keep == table_keeps(function.table(), predicates@),
{
    let table = function.truth_table();
    let address = row_address(predicates);
    table[address] == 1
}

/// Distinct row indices below `n` number at most `n`.
pub proof fn lemma_distinct_rows_bound(s: Seq<usize>, n: int)
    requires
        0 <= n,
        forall|i: int| 0 <= i < s.len() ==> #[trigger] s[i] < n,
        forall|i: int, j: int| 0 <= i < j < s.len() ==> #[trigger] s[i] != #[trigger] s[j],
    ensures
        s.len() <= n,
{
    let t = s.map_values(|x: usize| x as int);
    assert(t.no_duplicates()) by {
        assert forall|i: int, j: int| 0 <= i < t.len() && 0 <= j < t.len() && i != j implies t[i] != t[j] by {
            if i < j {
                assert(s[i] != s[j]);
            } else {
                assert(s[j] != s[i]);
            }
        }
    }
    t.unique_seq_to_set();
    lemma_int_range(0, n);
    assert(t.to_set().subset_of(set_int_range(0, n))) by {
        assert forall|x: int| t.to_set().contains(x) implies set_int_range(0, n).contains(x) by {
            let i = choose|i: int| 0 <= i < t.len() && t[i] == x;
            assert(s[i] < n);
        }
    }
    lemma_len_subset(t.to_set(), set_int_range(0, n));
}

/// Runs deterministic counterexample-guided synthesis over a finite population.
///
/// The synthesizer picks the first candidate consistent with every
/// accumulated counterexample; the verifier scans the complete table in row
/// order and adds the first mismatch. The run ends with the first candidate
/// that matches every row, or when no candidate is consistent.
///
/// # Errors
///
/// Rejects empty candidate or example sets, target length drift, mixed
/// candidate arity, predicate arity drift, an exhausted population and
/// counter overflow.
pub fn search_cegis(
    candidates: &[ExhaustiveRuleProposal],
    predicate_rows: &[&[bool]],
    target_keep: &[bool],
) -> (result: Result<CegisSearchResult, CegisSearchError>)
    ensures
        candidates@.len() == 0 ==> result == Err::<CegisSearchResult, CegisSearchError>(
            CegisSearchError::EmptyCandidateSet,
        ),
        candidates@.len() > 0 && (predicate_rows@.len() == 0 || target_keep@.len() == 0) ==> result
            == Err::<CegisSearchResult, CegisSearchError>(CegisSearchError::EmptyExamples),
        candidates@.len() > 0 && predicate_rows@.len() > 0 && target_keep@.len() > 0
            && predicate_rows@.len() != target_keep@.len() ==> result == Err::<
            CegisSearchResult,
            CegisSearchError,
        >(
            CegisSearchError::ExampleLengthMismatch {
                predicate_rows: predicate_rows@.len() as usize,
                target: target_keep@.len() as usize,
            },
        ),
        candidates@.len() > 0 && predicate_rows@.len() > 0 && predicate_rows@.len() == target_keep@.len()
            && !(forall|k: int|
            0 <= k < candidates@.len() ==> #[trigger] candidates@[k].function.input_width()
                == candidates@[0].function.input_width()) ==> exists|k: int|
            0 <= k < candidates@.len() && #[trigger] candidates@[k].function.input_width()
                != candidates@[0].function.input_width() && (forall|j: int|
                0 <= j < k ==> #[trigger] candidates@[j].function.input_width()
                    == candidates@[0].function.input_width()) && result == Err::<
                CegisSearchResult,
                CegisSearchError,
            >(
                CegisSearchError::MixedCandidateArity {
                    candidate_index: k as usize,
                    expected: candidates@[0].function.input_width() as u32,
                    actual: candidates@[k].function.input_width() as u32,
                },
            ),
        candidates@.len() > 0 && predicate_rows@.len() > 0 && predicate_rows@.len() == target_keep@.len()
            && (forall|k: int|
            0 <= k < candidates@.len() ==> #[trigger] candidates@[k].function.input_width()
                == candidates@[0].function.input_width()) && !cegis_inputs_valid(
            candidates@,
            predicate_rows@,
            target_keep@,
        ) ==> exists|r: int|
            0 <= r < predicate_rows@.len() && #[trigger] predicate_rows@[r]@.len()
                != candidates@[0].function.input_width() && (forall|j: int|
                0 <= j < r ==> #[trigger] predicate_rows@[j]@.len()
                    == candidates@[0].function.input_width()) && result == Err::<
                CegisSearchResult,
                CegisSearchError,
            >(
                CegisSearchError::PredicateArityMismatch {
                    row: r as usize,
                    expected: candidates@[0].function.input_width() as usize,
                    actual: predicate_rows@[r]@.len() as usize,
                },
            ),
        result matches Ok(found) ==> cegis_inputs_valid(candidates@, predicate_rows@, target_keep@)
            && first_exact(candidates@, found.candidate_index as int, predicate_rows@, target_keep@)
            && found.candidate_id == candidates@[found.candidate_index as int].proposal_id && (forall|
            i: int,
        |
            0 <= i < found.counterexample_rows@.len() ==> #[trigger] found.counterexample_rows@[i]
                < target_keep@.len()) && (forall|i: int, j: int|
            0 <= i < j < found.counterexample_rows@.len() ==> #[trigger] found.counterexample_rows@[i]
                != #[trigger] found.counterexample_rows@[j]),
        result == Err::<CegisSearchResult, CegisSearchError>(CegisSearchError::NoConsistentCandidate)
            ==> cegis_inputs_valid(candidates@, predicate_rows@, target_keep@) && forall|k: int|
            0 <= k < candidates@.len() ==> !#[trigger] exact_candidate(
                candidates@,
                k,
                predicate_rows@,
                target_keep@,
            ),
        cegis_inputs_valid(candidates@, predicate_rows@, target_keep@) ==> is_cegis_outcome(
            candidates@,
            cegis_final(candidates@, predicate_rows@, target_keep@),
            result,
        ),
{
    let ghost c = candidates@;
    let ghost rows = predicate_rows@;
    let ghost target = target_keep@;
    if candidates.len() == 0 {
        return Err(CegisSearchError::EmptyCandidateSet);
    }
    if predicate_rows.len() == 0 || target_keep.len() == 0 {
        return Err(CegisSearchError::EmptyExamples);
    }
    if predicate_rows.len() != target_keep.len() {
        return Err(
            CegisSearchError::ExampleLengthMismatch {
                predicate_rows: predicate_rows.len(),
                target: target_keep.len(),
            },
        );
    }
    let input_bits = candidates[0].function.input_bits();
    let expected_arity = input_bits as usize;
    let mut k: usize = 0;
    while k < candidates.len()
        invariant
            c == candidates@,
            c.len() > 0,
            rows == predicate_rows@,
            rows.len() > 0,
            rows.len() == target_keep@.len(),
            input_bits == c[0].function.input_width(),
            k <= c.len(),
            forall|j: int| 0 <= j < k ==> #[trigger] c[j].function.input_width() == c[0].function.input_width(),
        decreases c.len() - k,
    {
        let actual = candidates[k].function.input_bits();
        if actual != input_bits {
            return Err(
                CegisSearchError::MixedCandidateArity { candidate_index: k, expected: input_bits, actual },
            );
        }
        k += 1;
    }
    let mut r: usize = 0;
    while r < predicate_rows.len()
        invariant
            rows == predicate_rows@,
            c == candidates@,
            c.len() > 0,
            rows.len() > 0,
            rows.len() == target_keep@.len(),
            forall|j: int| 0 <= j < c.len() ==> #[trigger] c[j].function.input_width() == c[0].function.input_width(),
            expected_arity == c[0].function.input_width(),
            r <= rows.len(),
            forall|j: int| 0 <= j < r ==> #[trigger] rows[j]@.len() == c[0].function.input_width(),
        decreases rows.len() - r,
    {
        if predicate_rows[r].len() != expected_arity {
            return Err(
                CegisSearchError::PredicateArityMismatch {
                    row: r,
                    expected: expected_arity,
                    actual: predicate_rows[r].len(),
                },
            );
        }
        r += 1;
    }
    proof {
        assert(cegis_inputs_valid(c, rows, target));
    }
    let n = target_keep.len();
    let mut counterexamples: Vec<usize> = Vec::new();
    let mut synthesis_candidate_checks: u64 = 0;
    let mut synthesis_row_checks: u64 = 0;
    let mut verification_row_checks: u64 = 0;
    proof {
        assert(counterexamples@ =~= Seq::<usize>::empty());
    }
    loop
        invariant
            c == candidates@,
            rows == predicate_rows@,
            target == target_keep@,
            n == target.len(),
            cegis_inputs_valid(c, rows, target),
            forall|i: int| 0 <= i < counterexamples@.len() ==> #[trigger] counterexamples@[i] < n,
            forall|i: int, j: int|
                0 <= i < j < counterexamples@.len() ==> #[trigger] counterexamples@[i]
                    != #[trigger] counterexamples@[j],
            cegis_run(
                c,
                rows,
                target,
                counterexamples@,
                synthesis_candidate_checks as int,
                synthesis_row_checks as int,
                verification_row_checks as int,
            ) == cegis_final(c, rows, target),
        decreases n - counterexamples@.len(),
    {
        proof {
            lemma_distinct_rows_bound(counterexamples@, n as int);
        }
        let ghost cx = counterexamples@;
        let ghost sc0 = synthesis_candidate_checks as int;
        let ghost sr0 = synthesis_row_checks as int;
        let ghost vr0 = verification_row_checks as int;
        let mut selected: Option<usize> = None;
        let mut k: usize = 0;
        while k < candidates.len()
            invariant_except_break
                selected is None,
                first_consistent(c, rows, target, cx, k as nat) is None,
                synthesis_candidate_checks == sc0 + k,
                synthesis_row_checks == sr0 + synth_rows(c, rows, target, cx, k as nat),
            invariant
                c == candidates@,
                rows == predicate_rows@,
                target == target_keep@,
                n == target.len(),
                cegis_inputs_valid(c, rows, target),
                counterexamples@ == cx,
                forall|i: int| 0 <= i < counterexamples@.len() ==> #[trigger] counterexamples@[i] < n,
                k <= c.len(),
                forall|j: int| 0 <= j < k ==> !#[trigger] exact_candidate(c, j, rows, target),
                verification_row_checks == vr0,
                cegis_run(c, rows, target, cx, sc0, sr0, vr0) == cegis_final(c, rows, target),
            ensures
                selected matches Some(s) ==> s < c.len() && (forall|j: int|
                    0 <= j < s ==> !#[trigger] exact_candidate(c, j, rows, target)) && (forall|i: int|
                    0 <= i < counterexamples@.len() ==> #[trigger] agrees_on(
                        c,
                        s as int,
                        rows,
                        target,
                        counterexamples@[i] as int,
                    )) && first_consistent(c, rows, target, cx, c.len()) == Some(s as int)
                    && synthesis_candidate_checks == sc0 + s + 1 && synthesis_row_checks == sr0 + synth_rows(
                    c,
                    rows,
                    target,
                    cx,
                    s as nat,
                ) + scan_cost(c, s as int, rows, target, cx, cx.len()),
                selected is None ==> (forall|j: int| 0 <= j < c.len() ==> !#[trigger] exact_candidate(c, j, rows, target))
                    && first_consistent(c, rows, target, cx, c.len()) is None && synthesis_candidate_checks
                    == sc0 + c.len() && synthesis_row_checks == sr0 + synth_rows(c, rows, target, cx, c.len()),
            decreases c.len() - k,
        {
            synthesis_candidate_checks = match synthesis_candidate_checks.checked_add(1) {
                Some(v) => v,
                None => {
                    proof {
                        lemma_round_bounds(c, rows, target, cx, sc0, sr0, vr0, k as nat);
                    }
                    return Err(CegisSearchError::CounterOverflow);
                },
            };
            let candidate = &candidates[k];
            let mut consistent = true;
            let mut i: usize = 0;
            while i < counterexamples.len()
                invariant_except_break
                    consistent,
                    synthesis_row_checks == sr0 + synth_rows(c, rows, target, cx, k as nat) + i,
                invariant
                    c == candidates@,
                    rows == predicate_rows@,
                    target == target_keep@,
                    n == target.len(),
                    cegis_inputs_valid(c, rows, target),
                    counterexamples@ == cx,
                    forall|l: int| 0 <= l < counterexamples@.len() ==> #[trigger] counterexamples@[l] < n,
                    k < c.len(),
                    *candidate == c[k as int],
                    i <= counterexamples@.len(),
                    forall|l: int| 0 <= l < i ==> #[trigger] agrees_on(
                        c,
                        k as int,
                        rows,
                        target,
                        counterexamples@[l] as int,
                    ),
                    first_consistent(c, rows, target, cx, k as nat) is None,
                    cegis_run(c, rows, target, cx, sc0, sr0, vr0) == cegis_final(c, rows, target),
                ensures
                    consistent ==> forall|l: int| 0 <= l < counterexamples@.len() ==> #[trigger] agrees_on(
                        c,
                        k as int,
                        rows,
                        target,
                        counterexamples@[l] as int,
                    ),
                    !consistent ==> !exact_candidate(c, k as int, rows, target),
                    !consistent ==> !agrees_prefix(c, k as int, rows, target, cx, cx.len() as int),
                    consistent ==> synthesis_row_checks == sr0 + synth_rows(c, rows, target, cx, k as nat) + cx.len(),
                    !consistent ==> synthesis_row_checks == sr0 + synth_rows(c, rows, target, cx, k as nat) + scan_cost(
                        c,
                        k as int,
                        rows,
                        target,
                        cx,
                        cx.len(),
                    ),
                decreases counterexamples@.len() - i,
            {
                synthesis_row_checks = match synthesis_row_checks.checked_add(1) {
                    Some(v) => v,
                    None => {
                        proof {
                            lemma_scan_cost_bounds(c, k as int, rows, target, cx, i as int, cx.len());
                            lemma_round_bounds(c, rows, target, cx, sc0, sr0, vr0, k as nat);
                        }
                        return Err(CegisSearchError::CounterOverflow);
                    },
                };
                let row = counterexamples[i];
                let keep = evaluate(&candidate.function, predicate_rows[row]);
                if keep != target_keep[row] {
                    proof {
                        assert(!agrees_on(c, k as int, rows, target, row as int));
                        lemma_scan_cost_bounds(c, k as int, rows, target, cx, i as int, cx.len());
                    }
                    consistent = false;
                    break;
                }
                i += 1;
            }
            proof {
                if consistent {
                    lemma_scan_cost_bounds(c, k as int, rows, target, cx, cx.len() as int, cx.len());
                }
            }
            if consistent {
                proof {
                    assert(agrees_prefix(c, k as int, rows, target, cx, cx.len() as int));
                    lemma_first_consistent_after(c, rows, target, cx, k as nat, c.len());
                    lemma_first_consistent_after(c, rows, target, cx, k as nat, (k + 1) as nat);
                }
                selected = Some(k);
                break;
            }
            k += 1;
        }
        let selected_index = match selected {
            Some(s) => s,
            None => {
                return Err(CegisSearchError::NoConsistentCandidate);
            },
        };
        let candidate = &candidates[selected_index];
        let mut mismatch: Option<usize> = None;
        let mut r: usize = 0;
        while r < predicate_rows.len()
            invariant_except_break
                mismatch is None,
                verification_row_checks == vr0 + r,
            invariant
                c == candidates@,
                rows == predicate_rows@,
                target == target_keep@,
                n == target.len(),
                cegis_inputs_valid(c, rows, target),
                selected_index < c.len(),
                *candidate == c[selected_index as int],
                r <= rows.len(),
                forall|l: int| 0 <= l < r ==> #[trigger] agrees_on(c, selected_index as int, rows, target, l),
                first_consistent(c, rows, target, cx, c.len()) == Some(selected_index as int),
                cegis_run(c, rows, target, cx, sc0, sr0, vr0) == cegis_final(c, rows, target),
            ensures
                mismatch matches Some(m) ==> m < n && !agrees_on(c, selected_index as int, rows, target, m as int)
                    && first_mismatch(c, selected_index as int, rows, target, n as nat) == Some(m as int)
                    && verification_row_checks == vr0 + m + 1,
                mismatch is None ==> exact_candidate(c, selected_index as int, rows, target)
                    && verification_row_checks == vr0 + n,
            decreases rows.len() - r,
        {
            verification_row_checks = match verification_row_checks.checked_add(1) {
                Some(v) => v,
                None => {
                    proof {
                        lemma_verify_bound(c, rows, target, cx, sc0, sr0, vr0, selected_index as int, r as nat);
                    }
                    return Err(CegisSearchError::CounterOverflow);
                },
            };
            if evaluate(&candidate.function, predicate_rows[r]) != target_keep[r] {
                proof {
                    assert(!agrees_on(c, selected_index as int, rows, target, r as int));
                    lemma_first_mismatch_after(c, selected_index as int, rows, target, r as nat, n as nat);
                }
                mismatch = Some(r);
                break;
            }
            r += 1;
        }
        proof {
            if mismatch is None {
                assert forall|l: int| 0 <= l < n implies #[trigger] agrees_on(c, selected_index as int, rows, target, l) by {
                    assert(exact_candidate(c, selected_index as int, rows, target));
                }
                lemma_first_mismatch_after(c, selected_index as int, rows, target, n as nat, n as nat);
            }
        }
        match mismatch {
            Some(row) => {
                let mut present = false;
                let mut i: usize = 0;
                while i < counterexamples.len()
                    invariant_except_break
                        !present,
                    invariant
                        i <= counterexamples@.len(),
                        forall|l: int| 0 <= l < i ==> #[trigger] counterexamples@[l] != row,
                    ensures
                        present ==> exists|l: int| 0 <= l < counterexamples@.len() && #[trigger] counterexamples@[l] == row,
                        !present ==> forall|l: int| 0 <= l < counterexamples@.len() ==> #[trigger] counterexamples@[l] != row,
                    decreases counterexamples@.len() - i,
                {
                    if counterexamples[i] == row {
                        present = true;
                        break;
                    }
                    i += 1;
                }
                proof {
                    if present {
                        let l = choose|l: int| 0 <= l < counterexamples@.len() && #[trigger] counterexamples@[l] == row;
                        assert(agrees_on(c, selected_index as int, rows, target, counterexamples@[l] as int));
                        assert(false);
                    }
                }
                if !present {
                    counterexamples.push(row);
                }
                proof {
                    lemma_distinct_rows_bound(counterexamples@, n as int);
                    assert(counterexamples@ == cx.push(row));
                    assert(cx.len() < n);
                }
            },
            None => {
                return Ok(
                    CegisSearchResult {
                        candidate_index: selected_index,
                        candidate_id: candidate.proposal_id.clone(),
                        counterexample_rows: counterexamples,
                        synthesis_candidate_checks,
                        synthesis_row_checks,
                        verification_row_checks,
                    },
                );
            },
        }
    }
}

/// A round that scans candidate `k` spends at least the checks of candidates
/// `0..=k`.
proof fn lemma_round_bounds(
    c: Seq<ExhaustiveRuleProposal>,
    rows: Seq<&[bool]>,
    target: Seq<bool>,
    cx: Seq<usize>,
    sc0: int,
    sr0: int,
    vr0: int,
    k: nat,
)
    requires
        k < c.len(),
        first_consistent(c, rows, target, cx, k) is None,
    ensures
        cegis_run(c, rows, target, cx, sc0, sr0, vr0).2 >= sc0 + k + 1,
        cegis_run(c, rows, target, cx, sc0, sr0, vr0).3 >= sr0 + synth_rows(c, rows, target, cx, k) + scan_cost(
            c,
            k as int,
            rows,
            target,
            cx,
            cx.len(),
        ),
{
    let n = target.len();
    lemma_first_consistent_after(c, rows, target, cx, k, c.len());
    match first_consistent(c, rows, target, cx, c.len()) {
        None => {
            lemma_synth_rows_monotone(c, rows, target, cx, (k + 1) as nat, c.len());
        },
        Some(s) => {
            if s > k {
                lemma_synth_rows_monotone(c, rows, target, cx, (k + 1) as nat, s as nat);
            }
            let sc2 = sc0 + s + 1;
            let sr2 = sr0 + synth_rows(c, rows, target, cx, s as nat) + scan_cost(c, s, rows, target, cx, cx.len());
            match first_mismatch(c, s, rows, target, n) {
                None => {},
                Some(r) => {
                    if cx.len() < n {
                        lemma_run_monotone(c, rows, target, cx.push(r as usize), sc2, sr2, vr0 + r + 1);
                    }
                },
            }
        },
    }
}

/// A round whose verification reaches row `r` spends at least `r + 1` checks on it.
proof fn lemma_verify_bound(
    c: Seq<ExhaustiveRuleProposal>,
    rows: Seq<&[bool]>,
    target: Seq<bool>,
    cx: Seq<usize>,
    sc0: int,
    sr0: int,
    vr0: int,
    s: int,
    r: nat,
)
    requires
        r < target.len(),
        first_consistent(c, rows, target, cx, c.len()) == Some(s),
        forall|l: int| 0 <= l < r ==> #[trigger] agrees_on(c, s, rows, target, l),
    ensures
        cegis_run(c, rows, target, cx, sc0, sr0, vr0).4 >= vr0 + r + 1,
{
    let n = target.len();
    lemma_first_mismatch_after(c, s, rows, target, r, n);
    let sc2 = sc0 + s + 1;
    let sr2 = sr0 + synth_rows(c, rows, target, cx, s as nat) + scan_cost(c, s, rows, target, cx, cx.len());
    match first_mismatch(c, s, rows, target, n) {
        None => {},
        Some(x) => {
            if cx.len() < n {
                lemma_run_monotone(c, rows, target, cx.push(x as usize), sc2, sr2, vr0 + x + 1);
            }
        },
    }
}

} // verus!
