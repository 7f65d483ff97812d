//! Exact Boolean-function to dynamic-mask materialization.
//!
//! Row `i` of a mask keeps its unit exactly when the function's truth table
//! holds a one at the address packed from predicate row `i`, predicate `b`
//! being bit `b` of the address.

use vstd::prelude::*;
use vstd::arithmetic::power2::{pow2, lemma_pow2_pos, lemma2_to64, lemma_pow2_strictly_increases};
use crate::function::{BooleanFunction, valid_truth_table};
use crate::spectral::MAX_EXACT_BITS;

verus! {

/// Fail-closed errors of mask materialization.
#[derive(Clone, Copy, Debug, PartialEq, Eq, Structural)]
pub enum DynamicMaskError {
    EmptyPredicateRows,
    PredicateArityMismatch { index: usize, expected: usize, actual: usize },
}

/// Retained and total unit counts of a mask.
#[derive(Clone, Copy, Debug, PartialEq, Eq, Structural)]
pub struct MaskCardinality {
    pub retained: usize,
    pub total: usize,
}

impl MaskCardinality {
    /// Number of kept units.
    pub fn retained(&self) -> (retained: usize)
        ensures
            retained == self.retained,
    {
        self.retained
    }

    /// Number of units.
    pub fn total(&self) -> (total: usize)
        ensures
            total == self.total,
    {
        self.total
    }
}

/// An exact keep/skip decision per unit.
#[derive(Clone, Debug, PartialEq, Eq)]
pub struct ExactMask {
    keep: Vec<bool>,
}

/// Number of `true` entries among the first `m` of `s`.
pub open spec fn count_true(s: Seq<bool>, m: nat) -> nat
    decreases m,
{
    if m == 0 {
        0
    } else {
        count_true(s, (m - 1) as nat) + if s[m - 1] { 1nat } else { 0nat }
    }
}

/// The truth-table address of a predicate row: predicate `b` is bit `b`.
pub open spec fn predicate_address(p: Seq<bool>) -> nat
    decreases p.len(),
{
    if p.len() == 0 {
        0
    } else {
        predicate_address(p.drop_last()) + if p.last() {
            pow2((p.len() - 1) as nat)
        } else {
            0
        }
    }
}

/// The decision of truth table `t` on predicate row `p`.
pub open spec fn table_keeps(t: Seq<u8>, p: Seq<bool>) -> bool {
    t[predicate_address(p) as int] == 1
}

/// The views of a list of predicate rows.
pub open spec fn rows_view(rows: Seq<&[bool]>) -> Seq<Seq<bool>> {
    rows.map_values(|r: &[bool]| r@)
}

/// Every predicate row has `n` predicates.
pub open spec fn rows_have_arity(rows: Seq<Seq<bool>>, n: nat) -> bool {
    forall|i: int| 0 <= i < rows.len() ==> #[trigger] rows[i].len() == n
}

/// The decisions of truth table `t` on every row.
pub open spec fn mask_of(t: Seq<u8>, rows: Seq<Seq<bool>>) -> Seq<bool> {
    Seq::new(rows.len(), |i: int| table_keeps(t, rows[i]))
}

/// An address built from `k` predicates lies below `2^k`.
pub proof fn lemma_address_bound(p: Seq<bool>)
    ensures
        predicate_address(p) < pow2(p.len()),
    decreases p.len(),
{
    if p.len() > 0 {
        lemma_address_bound(p.drop_last());
        vstd::arithmetic::power2::lemma_pow2_unfold(p.len());
    } else {
        lemma_pow2_pos(0);
        assert(pow2(0) == 1) by {
            lemma2_to64();
        }
    }
}

/// The truth-table address of a predicate row.
pub fn row_address(predicates: &[bool]) -> (address: usize)
    requires
        predicates@.len() <= MAX_EXACT_BITS,
    ensures
        address == predicate_address(predicates@),
        address < pow2(predicates@.len()),
{
    let mut address: usize = 0;
    let mut b: usize = 0;
    proof {
        lemma2_to64();
    }
    while b < predicates.len()
        invariant
            predicates@.len() <= MAX_EXACT_BITS,
            b <= predicates@.len(),
            address == predicate_address(predicates@.take(b as int)),
            address < pow2(b as nat),
        decreases predicates@.len() - b,
    {
        proof {
            lemma2_to64();
            assert(predicates@.take(b + 1).drop_last() =~= predicates@.take(b as int));
            lemma_pow2_strictly_increases(b as nat, MAX_EXACT_BITS as nat);
            vstd::bits::lemma_usize_shl_is_mul(1, b);
            vstd::arithmetic::power2::lemma_pow2_unfold((b + 1) as nat);
        }
        if predicates[b] {
            address = address + (1usize << b);
        }
        b += 1;
    }
    proof {
        assert(predicates@.take(b as int) =~= predicates@);
    }
    address
}

impl ExactMask {
    /// The decisions, one per unit.
    pub closed spec fn decisions(self) -> Seq<bool> {
        self.keep@
    }

    /// The decisions, one per unit.
    pub fn as_slice(&self) -> (keep: &[bool])
        ensures
            keep@ == self.decisions(),
    {
        self.keep.as_slice()
    }

    /// Retained and total unit counts.
    pub fn cardinality(&self) -> (cardinality: MaskCardinality)
        ensures
            cardinality.retained == count_true(self.decisions(), self.decisions().len()),
            cardinality.total == self.decisions().len(),
    {
        let mut retained: usize = 0;
        let mut i: usize = 0;
        while i < self.keep.len()
            invariant
                i <= self.keep@.len(),
                retained == count_true(self.keep@, i as nat),
                retained <= i,
            decreases self.keep@.len() - i,
        {
            if self.keep[i] {
                retained += 1;
            }
            i += 1;
        }
        MaskCardinality { retained, total: self.keep.len() }
    }
}

/// Materializes one exact Boolean function over explicit predicate rows.
///
/// # Errors
///
/// [`DynamicMaskError::EmptyPredicateRows`] for no rows, and
/// [`DynamicMaskError::PredicateArityMismatch`] for the first row whose
/// length is not the function's input width.
pub fn materialize_boolean_function_mask(function: &BooleanFunction, predicate_rows: &[&[bool]]) -> (result:
    Result<ExactMask, DynamicMaskError>)
    ensures
        predicate_rows@.len() == 0 ==> result == Err::<ExactMask, DynamicMaskError>(
            DynamicMaskError::EmptyPredicateRows,
        ),
        predicate_rows@.len() > 0 && !rows_have_arity(rows_view(predicate_rows@), function.input_width())
            ==> exists|i: int|
            0 <= i < predicate_rows@.len() && #[trigger] predicate_rows@[i]@.len()
                != function.input_width() && (forall|j: int|
                0 <= j < i ==> #[trigger] predicate_rows@[j]@.len() == function.input_width())
                && result == Err::<ExactMask, DynamicMaskError>(
                DynamicMaskError::PredicateArityMismatch {
                    index: i as usize,
                    expected: function.input_width() as usize,
                    actual: predicate_rows@[i]@.len() as usize,
                },
            ),
        predicate_rows@.len() > 0 && rows_have_arity(rows_view(predicate_rows@), function.input_width())
            ==> (result matches Ok(mask) && mask.decisions() == mask_of(
            function.table(),
            rows_view(predicate_rows@),
        )),
{
    let n = function.input_bits();
    let table = function.truth_table();
    if predicate_rows.len() == 0 {
        return Err(DynamicMaskError::EmptyPredicateRows);
    }
    let arity = n as usize;
    let mut i: usize = 0;
    while i < predicate_rows.len()
        invariant
            arity == function.input_width(),
            i <= predicate_rows@.len(),
            forall|j: int| 0 <= j < i ==> #[trigger] predicate_rows@[j]@.len() == arity,
        decreases predicate_rows@.len() - i,
    {
        if predicate_rows[i].len() != arity {
            proof {
                assert(rows_view(predicate_rows@)[i as int].len() != function.input_width());
            }
            return Err(
                DynamicMaskError::PredicateArityMismatch {
                    index: i,
                    expected: arity,
                    actual: predicate_rows[i].len(),
                },
            );
        }
        i += 1;
    }
    let ghost rows = rows_view(predicate_rows@);
    let mut keep: Vec<bool> = Vec::new();
    let mut k: usize = 0;
    while k < predicate_rows.len()
        invariant
            rows == rows_view(predicate_rows@),
            arity == function.input_width(),
            table@ == function.table(),
            valid_truth_table(function.input_width(), function.table()),
            forall|j: int| 0 <= j < predicate_rows@.len() ==> #[trigger] predicate_rows@[j]@.len() == arity,
            k <= predicate_rows@.len(),
            keep@.len() == k,
            forall|j: int| 0 <= j < k ==> #[trigger] keep@[j] == table_keeps(table@, rows[j]),
        decreases predicate_rows@.len() - k,
    {
        let address = row_address(predicate_rows[k]);
        keep.push(table[address] == 1);
        k += 1;
    }
    proof {
        assert(keep@ =~= mask_of(function.table(), rows));
        assert forall|j: int| 0 <= j < rows.len() implies #[trigger] rows[j].len() == function.input_width() by {}
    }
    Ok(ExactMask { keep })
}

} // verus!
