//! Preregistered exhaustive search over a frozen four-input max-plus grammar.
//!
//! The grammar has 33 monomials (constants `-1, 0, 1` over every variable
//! mask with at most two variables), 528 two-monomial polynomials and all
//! ordered comparisons `P_l > P_r` and `P_l >= P_r` with `l < r`. It is not a
//! novelty, equivalence, matched-cost, hardware or performance screen.

use vstd::prelude::*;
use vstd::arithmetic::power2::pow2;
use crate::bitwise::bit_weight;
use crate::function::{
    BooleanFunction, ExactMetrics, metrics_of, function_fingerprint, lex_less, less_lexicographic, copy_bytes,
    valid_truth_table, lemma_lex_irreflexive, lemma_lex_transitive, lemma_lex_total,
};
use crate::spectral::{row_weight, mobius_transform, walsh_hadamard, anf_coefficient, walsh_coefficient};
use crate::tropical::{
    TropicalComparison, TropicalError, TropicalMonomial, TropicalPolynomial, TropicalPredicate, monomial_value,
    max_plus, max_plus_upto, overflows, comparison_holds, control_terms, control_relation, is_control_family,
    predicate_table, predicate_holds, predicate_overflows, bl13_4_control_predicates,
};

verus! {

/// Input width of the frozen grammar.
pub const BL13_4_1_INPUT_BITS: u32 = 4;

/// Largest number of witness records retained in a report.
pub const BL13_4_1_MAX_REPORTED_WITNESSES: usize = 16;

/// Truth-table rows over the frozen input width.
pub const ROWS: usize = 16;

/// The polynomial pair and observation boundary that first produced a table.
#[derive(Clone, Copy, Debug, PartialEq, Eq, Structural)]
pub struct TropicalSearchSource {
    pub left_polynomial: usize,
    pub right_polynomial: usize,
    pub comparison: TropicalComparison,
}

/// One reported table with its exact spectral record.
#[derive(Clone, Debug, PartialEq, Eq)]
pub struct TropicalSearchWitness {
    pub source: TropicalSearchSource,
    pub truth_table: Vec<u8>,
    pub fingerprint: u64,
    pub anf_coefficients: Vec<u8>,
    pub walsh_spectrum: Vec<i64>,
    pub metrics: ExactMetrics,
}

/// Exact counts over the whole enumeration.
#[derive(Clone, Debug, PartialEq, Eq)]
pub struct TropicalSearchSummary {
    pub syntactic_terms: usize,
    pub polynomials: usize,
    pub predicates_evaluated: usize,
    pub unique_truth_tables: usize,
    pub duplicate_predicates: usize,
    pub constant_functions: usize,
    pub nonconstant_functions: usize,
    pub balanced_functions: usize,
    pub max_nonlinearity: u64,
    pub max_algebraic_degree: u32,
    pub h1_witness_count: usize,
    pub control_present: [bool; 4],
}

/// Summary and retained witnesses.
#[derive(Clone, Debug, PartialEq, Eq)]
pub struct TropicalSearchReport {
    pub summary: TropicalSearchSummary,
    pub witnesses: Vec<TropicalSearchWitness>,
}

/// A two-monomial polynomial evaluated on every row.
#[derive(Clone, Debug)]
pub struct EvaluatedPolynomial {
    pub values: Vec<i64>,
}

/// Hamming weight of the low `k` bits is at most `k`.
proof fn lemma_bit_weight_bound(x: int, k: nat)
    ensures
        bit_weight(x, k) <= k,
    decreases k,
{
    if k > 0 {
        lemma_bit_weight_bound(x, (k - 1) as nat);
    }
}

/// Masks below `k` with at most two of the four variables, in increasing order.
pub open spec fn small_masks_upto(k: nat) -> Seq<u64>
    decreases k,
{
    if k == 0 {
        seq![]
    } else {
        let previous = small_masks_upto((k - 1) as nat);
        if bit_weight((k - 1) as int, 4) <= 2 {
            previous.push((k - 1) as u64)
        } else {
            previous
        }
    }
}

/// Monomials with constant `c` over `masks`, in mask order.
pub open spec fn terms_with_constant(c: i64, masks: Seq<u64>) -> Seq<TropicalMonomial> {
    masks.map_values(|v: u64| TropicalMonomial { constant: c, variables: v })
}

/// The frozen monomials: constant `-1`, then `0`, then `1`, each over every small mask.
pub open spec fn frozen_term_seq() -> Seq<TropicalMonomial> {
    let masks = small_masks_upto(16);
    terms_with_constant(-1i64, masks) + terms_with_constant(0i64, masks) + terms_with_constant(1i64, masks)
}

proof fn lemma_small_masks(k: nat)
    requires
        k <= 16,
    ensures
        forall|i: int| 0 <= i < small_masks_upto(k).len() ==> #[trigger] small_masks_upto(k)[i] < k,
    decreases k,
{
    if k > 0 {
        lemma_small_masks((k - 1) as nat);
        let previous = small_masks_upto((k - 1) as nat);
        if bit_weight((k - 1) as int, 4) <= 2 {
            assert forall|i: int| 0 <= i < small_masks_upto(k).len() implies #[trigger] small_masks_upto(k)[i] < k by {
                if i < previous.len() {
                    assert(small_masks_upto(k)[i] == previous[i]);
                }
            }
        }
    }
}

/// Appends the monomials with constant `c` over `masks`.
fn push_terms(terms: &mut Vec<TropicalMonomial>, c: i64, masks: &[u64])
    ensures
        final(terms)@ == old(terms)@ + terms_with_constant(c, masks@),
{
    let ghost start = terms@;
    let mut i: usize = 0;
    while i < masks.len()
        invariant
            i <= masks@.len(),
            terms@ == start + terms_with_constant(c, masks@.take(i as int)),
        decreases masks@.len() - i,
    {
        terms.push(TropicalMonomial { constant: c, variables: masks[i] });
        proof {
            assert(terms_with_constant(c, masks@.take(i + 1)) =~= terms_with_constant(c, masks@.take(i as int))
                .push(TropicalMonomial { constant: c, variables: masks@[i as int] }));
        }
        i += 1;
    }
    proof {
        assert(masks@.take(i as int) =~= masks@);
    }
}

/// The frozen grammar's monomials.
pub fn frozen_terms() -> (terms: Vec<TropicalMonomial>)
    ensures
        terms@ == frozen_term_seq(),
{
    let mut masks: Vec<u64> = Vec::new();
    let mut mask: u64 = 0;
    while mask < 16
        invariant
            mask <= 16,
            masks@ == small_masks_upto(mask as nat),
        decreases 16 - mask,
    {
        if row_weight(mask, 4) <= 2 {
            masks.push(mask);
        }
        mask += 1;
    }
    let mut terms: Vec<TropicalMonomial> = Vec::new();
    push_terms(&mut terms, -1, masks.as_slice());
    push_terms(&mut terms, 0, masks.as_slice());
    push_terms(&mut terms, 1, masks.as_slice());
    proof {
        assert(terms@ =~= frozen_term_seq());
    }
    terms
}

/// `max(a(x), b(x))` on every row.
pub open spec fn pair_values(a: TropicalMonomial, b: TropicalMonomial) -> Seq<int> {
    Seq::new(ROWS as nat, |x: int| max_plus(seq![a, b], x as u64))
}

/// Row `l` of the pair enumeration: `(l, r)` for `l < r < r_end`.
pub open spec fn pair_row(terms: Seq<TropicalMonomial>, l: int, r_end: int) -> Seq<Seq<int>>
    decreases r_end - l,
{
    if r_end <= l + 1 {
        seq![]
    } else {
        pair_row(terms, l, r_end - 1).push(pair_values(terms[l], terms[r_end - 1]))
    }
}

/// The complete rows `0..l` of the pair enumeration.
pub open spec fn pairs_before(terms: Seq<TropicalMonomial>, l: nat) -> Seq<Seq<int>>
    decreases l,
{
    if l == 0 {
        seq![]
    } else {
        pairs_before(terms, (l - 1) as nat) + pair_row(terms, l - 1, terms.len() as int)
    }
}

/// Values of every two-monomial polynomial `[terms[l], terms[r]]`, `l < r`, in order.
pub open spec fn evaluated_pairs(terms: Seq<TropicalMonomial>) -> Seq<Seq<int>> {
    pairs_before(terms, terms.len())
}

/// A monomial whose mask leaves the four inputs or whose value overflows on some row.
pub open spec fn term_fails(t: TropicalMonomial) -> bool {
    t.variables >= 16 || exists|x: int| 0 <= x < ROWS && #[trigger] monomial_value(t, x as u64) > i64::MAX
}

/// The error of the polynomial `[a, b]` when one of them fails.
pub open spec fn pair_error(a: TropicalMonomial, b: TropicalMonomial) -> TropicalError {
    if a.variables >= 16 {
        TropicalError::VariableOutOfRange { variables: a.variables, input_bits: 4 }
    } else if b.variables >= 16 {
        TropicalError::VariableOutOfRange { variables: b.variables, input_bits: 4 }
    } else {
        TropicalError::ArithmeticOverflow
    }
}

/// `k` is the first failing monomial of `terms`.
pub open spec fn first_failing_term(terms: Seq<TropicalMonomial>, k: int) -> bool {
    &&& 0 <= k < terms.len()
    &&& term_fails(terms[k])
    &&& forall|j: int| 0 <= j < k ==> !#[trigger] term_fails(terms[j])
}

/// Exact integer values of evaluated polynomials.
pub open spec fn values_of(polys: Seq<EvaluatedPolynomial>) -> Seq<Seq<int>> {
    polys.map_values(|p: EvaluatedPolynomial| p.values@.map_values(|v: i64| v as int))
}

/// Evaluates the polynomial `[a, b]` on every row.
fn evaluate_pair(a: TropicalMonomial, b: TropicalMonomial) -> (result: Result<EvaluatedPolynomial, TropicalError>)
    ensures
        !term_fails(a) && !term_fails(b) ==> (result matches Ok(p) && p.values@.map_values(|v: i64| v as int)
            == pair_values(a, b)),
        term_fails(a) || term_fails(b) ==> result == Err::<EvaluatedPolynomial, TropicalError>(pair_error(a, b)),
{
    proof {
        vstd::arithmetic::power2::lemma2_to64();
    }
    let monomials = vec![a, b];
    let polynomial = match TropicalPolynomial::new(BL13_4_1_INPUT_BITS, monomials) {
        Ok(p) => p,
        Err(e) => {
            proof {
                let k = choose|k: int| crate::tropical::first_mask_out_of_range(seq![a, b], 4, k);
                assert(k == 0 || k == 1);
            }
            return Err(e);
        },
    };
    let ghost pair = seq![a, b];
    let mut values: Vec<i64> = Vec::new();
    let mut x: u64 = 0;
    while x < 16
        invariant
            polynomial.width() == 4,
            pow2(4) == 16,
            polynomial.terms() == pair,
            pair == seq![a, b],
            a.variables < 16,
            b.variables < 16,
            x <= 16,
            values@.len() == x,
            forall|y: int| 0 <= y < x ==> #[trigger] values@[y] == max_plus(pair, y as u64),
            forall|y: int| 0 <= y < x ==> !overflows(pair, #[trigger] (y as u64)),
        decreases 16 - x,
    {
        match polynomial.evaluate(x) {
            Ok(v) => {
                values.push(v);
            },
            Err(e) => {
                proof {
                    assert(overflows(pair, x));
                    let i = choose|i: int| 0 <= i < pair.len() && #[trigger] monomial_value(pair[i], x) > i64::MAX;
                    let xi = x as int;
                    assert(xi as u64 == x);
                    if i == 0 {
                        assert(monomial_value(a, xi as u64) > i64::MAX);
                    } else {
                        assert(monomial_value(b, xi as u64) > i64::MAX);
                    }
                }
                return Err(e);
            },
        }
        x += 1;
    }
    proof {
        assert(values@.map_values(|v: i64| v as int) =~= pair_values(a, b));
        assert forall|y: int| 0 <= y < ROWS implies #[trigger] monomial_value(a, y as u64) <= i64::MAX by {
            assert(!overflows(pair, y as u64));
            assert(pair[0] == a);
        }
        assert forall|y: int| 0 <= y < ROWS implies #[trigger] monomial_value(b, y as u64) <= i64::MAX by {
            assert(!overflows(pair, y as u64));
            assert(pair[1] == b);
        }
    }
    Ok(EvaluatedPolynomial { values })
}

/// Evaluates every polynomial `[terms[l], terms[r]]` with `l < r`, in order.
///
/// # Errors
///
/// The error of the first failing pair: with `k` the first monomial whose
/// mask leaves the four inputs or whose value overflows, the pair `(0, 1)`
/// when `k` is `0` and `(0, k)` otherwise.
pub fn frozen_polynomials(terms: &[TropicalMonomial]) -> (result: Result<Vec<EvaluatedPolynomial>, TropicalError>)
    ensures
        (terms@.len() < 2 || forall|k: int| 0 <= k < terms@.len() ==> !#[trigger] term_fails(terms@[k]))
            ==> (result matches Ok(polys) && values_of(polys@) == evaluated_pairs(terms@)),
        forall|k: int|
            terms@.len() >= 2 && #[trigger] first_failing_term(terms@, k) ==> result == Err::<
                Vec<EvaluatedPolynomial>,
                TropicalError,
            >(if k == 0 { pair_error(terms@[0], terms@[1]) } else { pair_error(terms@[0], terms@[k]) }),
{
    let n = terms.len();
    let ghost t = terms@;
    let mut polys: Vec<EvaluatedPolynomial> = Vec::new();
    let mut l: usize = 0;
    while l < n
        invariant
            t == terms@,
            n == t.len(),
            l <= n,
            values_of(polys@) == pairs_before(t, l as nat),
            l >= 1 && n >= 2 ==> forall|j: int| 0 <= j < n ==> !#[trigger] term_fails(t[j]),
        decreases n - l,
    {
        let mut r: usize = l + 1;
        while r < n
            invariant
                t == terms@,
                n == t.len(),
                l < n,
                l + 1 <= r <= n,
                values_of(polys@) == pairs_before(t, l as nat) + pair_row(t, l as int, r as int),
                l >= 1 && n >= 2 ==> forall|j: int| 0 <= j < n ==> !#[trigger] term_fails(t[j]),
                l == 0 && r >= 2 ==> forall|j: int| 0 <= j < r ==> !#[trigger] term_fails(t[j]),
            decreases n - r,
        {
            match evaluate_pair(terms[l], terms[r]) {
                Ok(p) => {
                    let ghost before = polys@;
                    polys.push(p);
                    proof {
                        assert(values_of(polys@) =~= values_of(before).push(pair_values(t[l as int], t[r as int])));
                        assert(pair_row(t, l as int, r + 1) == pair_row(t, l as int, r as int).push(
                            pair_values(t[l as int], t[r as int]),
                        ));
                        assert(values_of(polys@) =~= pairs_before(t, l as nat) + pair_row(t, l as int, r + 1));
                        if l == 0 {
                            assert forall|j: int| 0 <= j < r + 1 implies !#[trigger] term_fails(t[j]) by {
                                if j == 0 {
                                    assert(!term_fails(t[0]));
                                }
                            }
                        }
                    }
                },
                Err(e) => {
                    proof {
                        assert(l == 0);
                        assert forall|k: int| #[trigger] first_failing_term(t, k) implies e == (if k == 0 {
                            pair_error(t[0], t[1])
                        } else {
                            pair_error(t[0], t[k])
                        }) by {
                            if r >= 2 {
                                assert(term_fails(t[r as int]));
                                if k < r {
                                } else if k > r {
                                    assert(!term_fails(t[r as int]));
                                }
                            } else {
                                if k > 1 {
                                    assert(!term_fails(t[0]));
                                    assert(!term_fails(t[1]));
                                }
                            }
                        }
                    }
                    return Err(e);
                },
            }
            r += 1;
        }
        proof {
            assert(pairs_before(t, (l + 1) as nat) == pairs_before(t, l as nat) + pair_row(t, l as int, n as int));
        }
        l += 1;
    }
    Ok(polys)
}


/// Truth table of `left (c) right` on the rows both value lists cover.
pub open spec fn pair_table(left: Seq<int>, right: Seq<int>, c: TropicalComparison) -> Seq<u8> {
    let rows = if left.len() < right.len() { left.len() } else { right.len() };
    Seq::new(rows, |x: int| if comparison_holds(left[x], right[x], c) { 1u8 } else { 0u8 })
}

/// Bit `x` of `code` as a table entry.
pub open spec fn code_row(code: u32, x: u32) -> u8 {
    ((code >> x) & 1u32) as u8
}

/// The 16-row table whose row `x` is bit `x` of `code`.
pub open spec fn code_table(code: u32) -> Seq<u8> {
    Seq::new(ROWS as nat, |x: int| code_row(code, x as u32))
}

/// Equal rows of two code tables are equal bits.
proof fn lemma_code_bit(c: u32, d: u32, k: u32)
    by (bit_vector)
    requires
        ((c >> k) & 1u32) as u8 == ((d >> k) & 1u32) as u8,
    ensures
        (c >> k) & 1u32 == (d >> k) & 1u32,
{
}

/// Two codes below `2^16` with the same table are equal.
proof fn lemma_code_table_injective(c: u32, d: u32)
    requires
        c < 0x10000,
        d < 0x10000,
        code_table(c) == code_table(d),
    ensures
        c == d,
{
    assert forall|k: u32| k < 16 implies #[trigger] ((c >> k) & 1u32) == (d >> k) & 1u32 by {
        let i = k as int;
        assert(i as u32 == k);
        assert(code_table(c)[i] == code_row(c, i as u32));
        assert(code_table(c)[i] == code_table(d)[i]);
        assert(code_row(c, k) == code_row(d, k));
        lemma_code_bit(c, d, k);
    }
    assert(c == d) by (bit_vector)
        requires
            c < 0x10000u32,
            d < 0x10000u32,
            (c >> 0u32) & 1u32 == (d >> 0u32) & 1u32,
            (c >> 1u32) & 1u32 == (d >> 1u32) & 1u32,
            (c >> 2u32) & 1u32 == (d >> 2u32) & 1u32,
            (c >> 3u32) & 1u32 == (d >> 3u32) & 1u32,
            (c >> 4u32) & 1u32 == (d >> 4u32) & 1u32,
            (c >> 5u32) & 1u32 == (d >> 5u32) & 1u32,
            (c >> 6u32) & 1u32 == (d >> 6u32) & 1u32,
            (c >> 7u32) & 1u32 == (d >> 7u32) & 1u32,
            (c >> 8u32) & 1u32 == (d >> 8u32) & 1u32,
            (c >> 9u32) & 1u32 == (d >> 9u32) & 1u32,
            (c >> 10u32) & 1u32 == (d >> 10u32) & 1u32,
            (c >> 11u32) & 1u32 == (d >> 11u32) & 1u32,
            (c >> 12u32) & 1u32 == (d >> 12u32) & 1u32,
            (c >> 13u32) & 1u32 == (d >> 13u32) & 1u32,
            (c >> 14u32) & 1u32 == (d >> 14u32) & 1u32,
            (c >> 15u32) & 1u32 == (d >> 15u32) & 1u32,
    ;
}

/// Setting bit `x` of a code below `2^x` keeps the lower bits.
proof fn lemma_set_code_bit_low(c: u32, b: u32, x: u32, y: u32)
    by (bit_vector)
    requires
        c >> x == 0,
        b <= 1,
        x < 16,
        y < x,
    ensures
        ((c | (b << x)) >> y) & 1 == (c >> y) & 1,
{
}

/// Setting bit `x` of a code below `2^x` stores `b` there and nothing above.
proof fn lemma_set_code_bit_top(c: u32, b: u32, x: u32)
    by (bit_vector)
    requires
        c >> x == 0,
        b <= 1,
        x < 16,
    ensures
        ((c | (b << x)) >> x) & 1 == b,
        (c | (b << x)) >> ((x + 1) as u32) == 0,
{
}

/// The code of a 16-row 0/1 table: bit `x` is row `x`.
fn table_code(table: &[u8]) -> (code: u32)
    requires
        table@.len() == ROWS,
        forall|x: int| 0 <= x < ROWS ==> #[trigger] table@[x] <= 1,
    ensures
        code < 0x10000,
        code_table(code) == table@,
{
    let mut code: u32 = 0;
    let mut x: u32 = 0;
    assert(0u32 >> 0u32 == 0) by (bit_vector);
    while x < 16
        invariant
            table@.len() == ROWS,
            forall|z: int| 0 <= z < ROWS ==> #[trigger] table@[z] <= 1,
            x <= 16,
            code >> x == 0,
            forall|y: int| 0 <= y < x ==> code_row(code, y as u32) == #[trigger] table@[y],
        decreases 16 - x,
    {
        let b = table[x as usize] as u32;
        let next = code | (b << x);
        proof {
            lemma_set_code_bit_top(code, b, x);
            assert forall|y: int| 0 <= y < x + 1 implies code_row(next, y as u32) == #[trigger] table@[y] by {
                if y < x {
                    lemma_set_code_bit_low(code, b, x, y as u32);
                }
            }
        }
        code = next;
        x += 1;
    }
    proof {
        assert(code >> 16u32 == 0 ==> code < 0x10000) by (bit_vector);
        assert(code_table(code) =~= table@);
    }
    code
}

/// The 16-row table of `code`.
fn decode_table(code: u32) -> (table: Vec<u8>)
    ensures
        table@ == code_table(code),
{
    let mut table: Vec<u8> = Vec::new();
    let mut x: u32 = 0;
    while x < 16
        invariant
            x <= 16,
            table@ == code_table(code).take(x as int),
        decreases 16 - x,
    {
        table.push(((code >> x) & 1) as u8);
        proof {
            assert(code_table(code).take(x + 1) =~= code_table(code).take(x as int).push(code_row(code, x)));
        }
        x += 1;
    }
    proof {
        assert(code_table(code).take(16) =~= code_table(code));
    }
    table
}

/// Truth table of `left (comparison) right` on the rows both cover.
pub fn table_for_pair(left: &EvaluatedPolynomial, right: &EvaluatedPolynomial, comparison: TropicalComparison) -> (table: Vec<u8>)
    ensures
        table@ == pair_table(
            left.values@.map_values(|v: i64| v as int),
            right.values@.map_values(|v: i64| v as int),
            comparison,
        ),
{
    let ghost lv = left.values@.map_values(|v: i64| v as int);
    let ghost rv = right.values@.map_values(|v: i64| v as int);
    let rows = if left.values.len() < right.values.len() { left.values.len() } else { right.values.len() };
    let mut table: Vec<u8> = Vec::new();
    let mut x: usize = 0;
    while x < rows
        invariant
            rows <= left.values@.len(),
            rows <= right.values@.len(),
            rows == pair_table(lv, rv, comparison).len(),
            lv == left.values@.map_values(|v: i64| v as int),
            rv == right.values@.map_values(|v: i64| v as int),
            x <= rows,
            table@ == pair_table(lv, rv, comparison).take(x as int),
        decreases rows - x,
    {
        let lhs = left.values[x];
        let rhs = right.values[x];
        let holds = match comparison {
            TropicalComparison::Greater => lhs > rhs,
            TropicalComparison::GreaterOrEqual => lhs >= rhs,
        };
        table.push(if holds { 1u8 } else { 0u8 });
        proof {
            assert(pair_table(lv, rv, comparison).take(x + 1) =~= pair_table(lv, rv, comparison).take(x as int).push(
                if holds { 1u8 } else { 0u8 },
            ));
        }
        x += 1;
    }
    proof {
        assert(pair_table(lv, rv, comparison).take(rows as int) =~= pair_table(lv, rv, comparison));
    }
    table
}


/// Values of the frozen grammar's polynomials, in enumeration order.
pub open spec fn frozen_evaluations() -> Seq<Seq<int>> {
    evaluated_pairs(frozen_term_seq())
}

/// The source `(l, r, c)`.
pub open spec fn source_at(l: int, r: int, c: TropicalComparison) -> TropicalSearchSource {
    TropicalSearchSource { left_polynomial: l as usize, right_polynomial: r as usize, comparison: c }
}

/// Truth table produced by a source of the frozen grammar.
pub open spec fn source_table(s: TropicalSearchSource) -> Seq<u8> {
    let e = frozen_evaluations();
    pair_table(e[s.left_polynomial as int], e[s.right_polynomial as int], s.comparison)
}

/// Sources `(l, r, >)` then `(l, r, >=)` for `l < r < r_end`.
pub open spec fn source_row(l: int, r_end: int) -> Seq<TropicalSearchSource>
    decreases r_end - l,
{
    if r_end <= l + 1 {
        seq![]
    } else {
        source_row(l, r_end - 1) + seq![
            source_at(l, r_end - 1, TropicalComparison::Greater),
            source_at(l, r_end - 1, TropicalComparison::GreaterOrEqual),
        ]
    }
}

/// The complete source rows `0..l` over `n` polynomials.
pub open spec fn sources_before(l: nat, n: int) -> Seq<TropicalSearchSource>
    decreases l,
{
    if l == 0 {
        seq![]
    } else {
        sources_before((l - 1) as nat, n) + source_row(l - 1, n)
    }
}

/// Every predicate of the frozen grammar, in enumeration order.
pub open spec fn frozen_sources() -> Seq<TropicalSearchSource> {
    let n = frozen_evaluations().len();
    sources_before(n, n as int)
}

/// The first source in `s` whose table is `t`.
pub open spec fn first_source(s: Seq<TropicalSearchSource>, t: Seq<u8>) -> Option<TropicalSearchSource>
    decreases s.len(),
{
    if s.len() == 0 {
        None
    } else {
        let earlier = first_source(s.drop_last(), t);
        if earlier is Some {
            earlier
        } else if source_table(s.last()) == t {
            Some(s.last())
        } else {
            None
        }
    }
}

proof fn lemma_small_masks_len(k: nat)
    ensures
        small_masks_upto(k).len() <= k,
    decreases k,
{
    if k > 0 {
        lemma_small_masks_len((k - 1) as nat);
    }
}

proof fn lemma_pair_row(terms: Seq<TropicalMonomial>, l: int, r: int)
    requires
        l + 1 <= r,
    ensures
        pair_row(terms, l, r).len() == r - l - 1,
        forall|p: int| 0 <= p < pair_row(terms, l, r).len() ==> (#[trigger] pair_row(terms, l, r)[p]).len() == ROWS,
    decreases r - l,
{
    if r > l + 1 {
        lemma_pair_row(terms, l, r - 1);
        let row = pair_row(terms, l, r);
        assert forall|p: int| 0 <= p < row.len() implies (#[trigger] row[p]).len() == ROWS by {
            if p < row.len() - 1 {
                assert(row[p] == pair_row(terms, l, r - 1)[p]);
            }
        }
    }
}

proof fn lemma_pairs_before(terms: Seq<TropicalMonomial>, l: nat)
    requires
        l <= terms.len(),
    ensures
        2 * pairs_before(terms, l).len() == l * (2 * terms.len() - l - 1),
        forall|p: int| 0 <= p < pairs_before(terms, l).len() ==> (#[trigger] pairs_before(terms, l)[p]).len() == ROWS,
    decreases l,
{
    if l > 0 {
        let n = terms.len() as int;
        lemma_pairs_before(terms, (l - 1) as nat);
        lemma_pair_row(terms, l - 1, n);
        let before = pairs_before(terms, (l - 1) as nat);
        let row = pair_row(terms, l - 1, n);
        assert((l - 1) * (2 * n - (l - 1) - 1) + 2 * (n - l) == l * (2 * n - l - 1)) by (nonlinear_arith);
        let all = pairs_before(terms, l);
        assert forall|p: int| 0 <= p < all.len() implies (#[trigger] all[p]).len() == ROWS by {
            if p < before.len() {
                assert(all[p] == before[p]);
            } else {
                assert(all[p] == row[p - before.len()]);
            }
        }
    }
}

proof fn lemma_source_row_len(l: int, r: int)
    requires
        l + 1 <= r,
    ensures
        source_row(l, r).len() == 2 * (r - l - 1),
    decreases r - l,
{
    if r > l + 1 {
        lemma_source_row_len(l, r - 1);
    }
}

proof fn lemma_sources_before_len(l: nat, n: int)
    requires
        l <= n,
    ensures
        sources_before(l, n).len() == l * (2 * n - l - 1),
    decreases l,
{
    if l > 0 {
        let k = (l - 1) as nat;
        lemma_sources_before_len(k, n);
        lemma_source_row_len(l - 1, n);
        assert(sources_before(l, n).len() == sources_before(k, n).len() + source_row(l - 1, n).len());
        assert(k * (2 * n - k - 1) + 2 * (n - l) == l * (2 * n - l - 1)) by (nonlinear_arith)
            requires
                k == l - 1,
        ;
    } else {
        assert(l * (2 * n - l - 1) == 0) by (nonlinear_arith)
            requires
                l == 0,
        ;
    }
}

/// No frozen monomial leaves the four inputs or overflows.
proof fn lemma_frozen_terms_valid()
    ensures
        forall|k: int| 0 <= k < frozen_term_seq().len() ==> !#[trigger] term_fails(frozen_term_seq()[k]),
        frozen_term_seq().len() <= 48,
{
    let masks = small_masks_upto(16);
    lemma_small_masks(16);
    lemma_small_masks_len(16);
    let t = frozen_term_seq();
    assert forall|k: int| 0 <= k < t.len() implies !#[trigger] term_fails(t[k]) by {
        let m = masks.len() as int;
        if k < m {
            assert(t[k] == TropicalMonomial { constant: -1i64, variables: masks[k] });
        } else if k < 2 * m {
            assert(t[k] == TropicalMonomial { constant: 0i64, variables: masks[k - m] });
        } else {
            assert(t[k] == TropicalMonomial { constant: 1i64, variables: masks[k - 2 * m] });
        }
        assert forall|x: int| 0 <= x < ROWS implies #[trigger] monomial_value(t[k], x as u64) <= i64::MAX by {
            lemma_bit_weight_bound((x as u64 & t[k].variables) as int, 64);
        }
    }
}

/// Codes whose table some source of `s` produces.
pub open spec fn reached_in(s: Seq<TropicalSearchSource>) -> spec_fn(u32) -> bool {
    |c: u32| first_source(s, code_table(c)) is Some
}

/// Counts agree for predicates that agree below `k`.
proof fn lemma_count_ext(k: nat, p: spec_fn(u32) -> bool, q: spec_fn(u32) -> bool)
    requires
        k <= 0x10000,
        forall|c: u32| c < k ==> #[trigger] p(c) == q(c),
    ensures
        count_codes(k, p) == count_codes(k, q),
    decreases k,
{
    if k > 0 {
        lemma_count_ext((k - 1) as nat, p, q);
        assert(p((k - 1) as u32) == q((k - 1) as u32));
    }
}

/// Adding one code below `k` to a predicate adds one to its count.
proof fn lemma_count_insert(k: nat, p: spec_fn(u32) -> bool, q: spec_fn(u32) -> bool, x: u32)
    requires
        k <= 0x10000,
        forall|c: u32| c < k && c != x ==> #[trigger] p(c) == q(c),
        !p(x),
        q(x),
    ensures
        x < k ==> count_codes(k, q) == count_codes(k, p) + 1,
        x >= k ==> count_codes(k, q) == count_codes(k, p),
    decreases k,
{
    if k > 0 {
        lemma_count_insert((k - 1) as nat, p, q, x);
    }
}

/// The empty predicate counts nothing.
proof fn lemma_count_zero(k: nat)
    ensures
        count_codes(k, |c: u32| false) == 0,
    decreases k,
{
    if k > 0 {
        lemma_count_zero((k - 1) as nat);
    }
}

/// A count is at most the number of codes considered.
proof fn lemma_count_bound(k: nat, p: spec_fn(u32) -> bool)
    ensures
        count_codes(k, p) <= k,
    decreases k,
{
    if k > 0 {
        lemma_count_bound((k - 1) as nat, p);
    }
}

/// Records `src` with its table `table` in the first-source index.
fn record_source(
    seen: &mut Vec<Option<TropicalSearchSource>>,
    src: TropicalSearchSource,
    table: &[u8],
    Ghost(processed): Ghost<Seq<TropicalSearchSource>>,
) -> (new_table: bool)
    requires
        old(seen)@.len() == 0x10000,
        table@ == source_table(src),
        table@.len() == ROWS,
        forall|x: int| 0 <= x < ROWS ==> #[trigger] table@[x] <= 1,
        forall|c: int| 0 <= c < 0x10000 ==> #[trigger] old(seen)@[c] == first_source(processed, code_table(c as u32)),
    ensures
        final(seen)@.len() == 0x10000,
        forall|c: int| 0 <= c < 0x10000 ==> #[trigger] final(seen)@[c] == first_source(processed.push(src), code_table(c as u32)),
        new_table ==> count_codes(0x10000, reached_in(processed.push(src))) == count_codes(0x10000, reached_in(processed)) + 1,
        !new_table ==> count_codes(0x10000, reached_in(processed.push(src))) == count_codes(0x10000, reached_in(processed)),
{
    let code = table_code(table);
    let ghost after = processed.push(src);
    proof {
        assert(after.drop_last() =~= processed);
        assert(after.last() == src);
    }
    let new_table = seen[code as usize].is_none();
    if new_table {
        seen.set(code as usize, Some(src));
    }
    proof {
        assert forall|c: int| 0 <= c < 0x10000 implies #[trigger] seen@[c] == first_source(after, code_table(c as u32)) by {
            if c != code as int && source_table(src) == code_table(c as u32) {
                lemma_code_table_injective(c as u32, code);
            }
        }
        let p = reached_in(processed);
        let q = reached_in(after);
        assert forall|c: u32| c < 0x10000 && c != code implies #[trigger] p(c) == q(c) by {
            assert(seen@[c as int] == first_source(after, code_table(c)));
        }
        if new_table {
            assert(seen@[code as int] == first_source(after, code_table(code)));
            lemma_count_insert(0x10000, p, q, code);
        } else {
            lemma_count_ext(0x10000, p, q);
        }
    }
    new_table
}

/// For every 16-row table, the first source of the frozen enumeration that produces it.
fn first_sources_by_table(polys: &Vec<EvaluatedPolynomial>) -> (result: (Vec<Option<TropicalSearchSource>>, usize, usize))
    requires
        values_of(polys@) == frozen_evaluations(),
        polys@.len() <= 1128,
    ensures
        result.0@.len() == 0x10000,
        forall|c: int| 0 <= c < 0x10000 ==> #[trigger] result.0@[c] == first_source(frozen_sources(), code_table(c as u32)),
        result.1 == frozen_sources().len(),
        result.2 == count_codes(0x10000, reached_in(frozen_sources())),
        result.2 <= result.1,
{
    let n = polys.len();
    let ghost e = frozen_evaluations();
    proof {
        lemma_frozen_terms_valid();
        lemma_pairs_before(frozen_term_seq(), frozen_term_seq().len());
        assert(e.len() == polys@.len());
    }
    let mut seen: Vec<Option<TropicalSearchSource>> = Vec::new();
    let mut c: usize = 0;
    while c < 0x10000
        invariant
            c <= 0x10000,
            seen@.len() == c,
            forall|d: int| 0 <= d < c ==> #[trigger] seen@[d] == first_source(seq![], code_table(d as u32)),
        decreases 0x10000 - c,
    {
        seen.push(None);
        c += 1;
    }
    let mut count: usize = 0;
    let mut distinct: usize = 0;
    let ghost mut processed: Seq<TropicalSearchSource> = seq![];
    proof {
        lemma_count_ext(0x10000, reached_in(processed), |c: u32| false);
        assert(count_codes(0x10000, |c: u32| false) == 0) by {
            lemma_count_zero(0x10000);
        }
    }
    let mut l: usize = 0;
    while l < n
        invariant
            n == polys@.len(),
            n <= 1128,
            e == frozen_evaluations(),
            values_of(polys@) == e,
            forall|p: int| 0 <= p < e.len() ==> (#[trigger] e[p]).len() == ROWS,
            l <= n,
            processed == sources_before(l as nat, n as int),
            count == processed.len(),
            distinct == count_codes(0x10000, reached_in(processed)),
            distinct <= count,
            seen@.len() == 0x10000,
            forall|d: int| 0 <= d < 0x10000 ==> #[trigger] seen@[d] == first_source(processed, code_table(d as u32)),
        decreases n - l,
    {
        proof {
            lemma_sources_before_len(l as nat, n as int);
            assert(l * (2 * n - l - 1) <= 2 * 1128 * 1128) by (nonlinear_arith)
                requires
                    l <= n,
                    n <= 1128,
            ;
        }
        let mut r: usize = l + 1;
        while r < n
            invariant
                n == polys@.len(),
                n <= 1128,
                e == frozen_evaluations(),
                values_of(polys@) == e,
                forall|p: int| 0 <= p < e.len() ==> (#[trigger] e[p]).len() == ROWS,
                l < n,
                l + 1 <= r <= n,
                processed == sources_before(l as nat, n as int) + source_row(l as int, r as int),
                count == processed.len(),
                distinct == count_codes(0x10000, reached_in(processed)),
                distinct <= count,
                count <= 2 * 1128 * 1128 + 2 * r,
                seen@.len() == 0x10000,
                forall|d: int| 0 <= d < 0x10000 ==> #[trigger] seen@[d] == first_source(processed, code_table(d as u32)),
            decreases n - r,
        {
            proof {
                assert(values_of(polys@)[l as int] == polys@[l as int].values@.map_values(|v: i64| v as int));
                assert(values_of(polys@)[r as int] == polys@[r as int].values@.map_values(|v: i64| v as int));
            }
            let greater = TropicalSearchSource { left_polynomial: l, right_polynomial: r, comparison: TropicalComparison::Greater };
            let table = table_for_pair(&polys[l], &polys[r], TropicalComparison::Greater);
            if record_source(&mut seen, greater, table.as_slice(), Ghost(processed)) {
                distinct += 1;
            }
            proof {
                processed = processed.push(greater);
            }
            count += 1;
            let at_least = TropicalSearchSource { left_polynomial: l, right_polynomial: r, comparison: TropicalComparison::GreaterOrEqual };
            let table = table_for_pair(&polys[l], &polys[r], TropicalComparison::GreaterOrEqual);
            if record_source(&mut seen, at_least, table.as_slice(), Ghost(processed)) {
                distinct += 1;
            }
            proof {
                processed = processed.push(at_least);
                assert(source_row(l as int, r + 1) =~= source_row(l as int, r as int) + seq![greater, at_least]);
                assert(processed =~= sources_before(l as nat, n as int) + source_row(l as int, r + 1));
            }
            count += 1;
            r += 1;
        }
        proof {
            assert(sources_before((l + 1) as nat, n as int) == sources_before(l as nat, n as int) + source_row(l as int, n as int));
        }
        l += 1;
    }
    (seen, count, distinct)
}


/// A 0/1 table all of whose rows equal the first.
pub open spec fn is_constant_table(t: Seq<u8>) -> bool {
    forall|x: int| 0 <= x < t.len() ==> #[trigger] t[x] == t[0]
}

/// Whether every row of `table` equals its first row.
fn is_constant(table: &[u8]) -> (constant: bool)
    requires
        table@.len() >= 1,
    ensures
        constant == is_constant_table(table@),
{
    let mut x: usize = 0;
    while x < table.len()
        invariant
            table@.len() >= 1,
            x <= table@.len(),
            forall|y: int| 0 <= y < x ==> #[trigger] table@[y] == table@[0],
        decreases table@.len() - x,
    {
        if table[x] != table[0] {
            return false;
        }
        x += 1;
    }
    true
}

/// Truth table of frozen control `i`.
pub open spec fn control_table(i: int) -> Seq<u8> {
    Seq::new(
        ROWS as nat,
        |x: int|
            if comparison_holds(
                max_plus(control_terms(i, false), x as u64),
                max_plus(control_terms(i, true), x as u64),
                control_relation(i),
            ) {
                1u8
            } else {
                0u8
            },
    )
}

/// Some source of the frozen enumeration produces the table of `c`.
pub open spec fn code_reached(c: u32) -> bool {
    first_source(frozen_sources(), code_table(c)) is Some
}

/// Exact metrics of the table of `c`.
pub open spec fn code_metrics(c: u32) -> ExactMetrics {
    metrics_of(BL13_4_1_INPUT_BITS as nat, code_table(c))
}

/// The table of `c` is one of the frozen controls.
pub open spec fn is_control_code(c: u32) -> bool {
    exists|i: int| 0 <= i < 4 && code_table(c) == #[trigger] control_table(i)
}

/// A reached, non-control, balanced table with nonlinearity at least four.
pub open spec fn code_gated(c: u32) -> bool {
    &&& code_reached(c)
    &&& !is_control_code(c)
    &&& code_metrics(c).balanced
    &&& code_metrics(c).nonlinearity >= 4
}

/// Number of codes below `k` satisfying `p`.
pub open spec fn count_codes(k: nat, p: spec_fn(u32) -> bool) -> nat
    decreases k,
{
    if k == 0 {
        0
    } else {
        count_codes((k - 1) as nat, p) + if p((k - 1) as u32) { 1nat } else { 0nat }
    }
}

/// Largest `f(c)` over codes `c < k` satisfying `p`, and `0` when there are none.
pub open spec fn max_over_codes(k: nat, p: spec_fn(u32) -> bool, f: spec_fn(u32) -> int) -> int
    decreases k,
{
    if k == 0 {
        0
    } else {
        let previous = max_over_codes((k - 1) as nat, p, f);
        if p((k - 1) as u32) && f((k - 1) as u32) > previous {
            f((k - 1) as u32)
        } else {
            previous
        }
    }
}

/// Report order: higher nonlinearity, then higher correlation immunity, then
/// higher algebraic degree, then the lexicographically smaller table.
pub open spec fn witness_precedes(a: u32, b: u32) -> bool {
    let ma = code_metrics(a);
    let mb = code_metrics(b);
    if ma.nonlinearity != mb.nonlinearity {
        ma.nonlinearity > mb.nonlinearity
    } else if ma.correlation_immunity != mb.correlation_immunity {
        ma.correlation_immunity > mb.correlation_immunity
    } else if ma.algebraic_degree != mb.algebraic_degree {
        ma.algebraic_degree > mb.algebraic_degree
    } else {
        lex_less(code_table(a), code_table(b))
    }
}

/// `w` is the exact record of `table` first produced by `source`.
pub open spec fn is_witness_record(w: TropicalSearchWitness, table: Seq<u8>, source: TropicalSearchSource) -> bool {
    let n = BL13_4_1_INPUT_BITS as nat;
    &&& w.source == source
    &&& w.truth_table@ == table
    &&& w.fingerprint == function_fingerprint(BL13_4_1_INPUT_BITS, table)
    &&& w.anf_coefficients@ == Seq::new(
        ROWS as nat,
        |u: int| if anf_coefficient(table, n, u) { 1u8 } else { 0u8 },
    )
    &&& w.walsh_spectrum@.len() == ROWS
    &&& forall|a: int| 0 <= a < ROWS ==> #[trigger] w.walsh_spectrum@[a] == walsh_coefficient(table, n, a)
    &&& w.metrics == metrics_of(n, table)
}

/// `cs` are the codes of the retained witnesses: gated, strictly in report
/// order, at most the reporting limit, and each gated code left out follows
/// all of them in a full list.
pub open spec fn is_top_codes(cs: Seq<u32>) -> bool {
    &&& cs.len() <= BL13_4_1_MAX_REPORTED_WITNESSES
    &&& forall|i: int| 0 <= i < cs.len() ==> #[trigger] cs[i] < 0x10000 && code_gated(cs[i])
    &&& forall|i: int, j: int| 0 <= i < j < cs.len() ==> witness_precedes(#[trigger] cs[i], #[trigger] cs[j])
    &&& forall|c: u32|
        c < 0x10000 && #[trigger] code_gated(c) && !cs.contains(c) ==> cs.len() == BL13_4_1_MAX_REPORTED_WITNESSES
            && forall|i: int| 0 <= i < cs.len() ==> witness_precedes(#[trigger] cs[i], c)
}

/// The retained witnesses are the records of the top gated codes, in report order.
pub open spec fn is_reported_witnesses(ws: Seq<TropicalSearchWitness>) -> bool {
    exists|cs: Seq<u32>|
        #[trigger] is_top_codes(cs) && cs.len() == ws.len() && forall|i: int|
            0 <= i < ws.len() ==> is_witness_record(
                #[trigger] ws[i],
                code_table(cs[i]),
                first_source(frozen_sources(), code_table(cs[i]))->0,
            )
}

/// Reached codes.
pub open spec fn reached_pred() -> spec_fn(u32) -> bool {
    |c: u32| code_reached(c)
}

/// Reached codes with a constant table.
pub open spec fn constant_pred() -> spec_fn(u32) -> bool {
    |c: u32| code_reached(c) && is_constant_table(code_table(c))
}

/// Reached codes with a balanced table.
pub open spec fn balanced_pred() -> spec_fn(u32) -> bool {
    |c: u32| code_reached(c) && code_metrics(c).balanced
}

/// Codes that pass the witness gate.
pub open spec fn gated_pred() -> spec_fn(u32) -> bool {
    |c: u32| code_gated(c)
}

/// Nonlinearity of a code's table.
pub open spec fn code_nonlinearity() -> spec_fn(u32) -> int {
    |c: u32| code_metrics(c).nonlinearity as int
}

/// Algebraic degree of a code's table.
pub open spec fn code_degree() -> spec_fn(u32) -> int {
    |c: u32| code_metrics(c).algebraic_degree as int
}

/// `s` is the exact summary of the frozen enumeration.
pub open spec fn is_search_summary(s: TropicalSearchSummary) -> bool {
    let unique = count_codes(0x10000, reached_pred());
    let constant = count_codes(0x10000, constant_pred());
    &&& s.syntactic_terms == frozen_term_seq().len()
    &&& s.polynomials == frozen_evaluations().len()
    &&& s.predicates_evaluated == frozen_sources().len()
    &&& s.unique_truth_tables == unique
    &&& s.duplicate_predicates == frozen_sources().len() - unique
    &&& s.constant_functions == constant
    &&& s.nonconstant_functions == unique - constant
    &&& s.balanced_functions == count_codes(0x10000, balanced_pred())
    &&& s.max_nonlinearity == max_over_codes(0x10000, reached_pred(), code_nonlinearity())
    &&& s.max_algebraic_degree == max_over_codes(0x10000, reached_pred(), code_degree())
    &&& s.h1_witness_count == count_codes(0x10000, gated_pred())
    &&& s.control_present@.len() == 4
    &&& forall|i: int| 0 <= i < 4 ==> #[trigger] s.control_present@[i] == (first_source(frozen_sources(), control_table(i)) is Some)
}

/// Report order is a strict total order on codes below `2^16`.
proof fn lemma_witness_order(a: u32, b: u32, c: u32)
    requires
        a < 0x10000,
        b < 0x10000,
    ensures
        !witness_precedes(a, a),
        a != b ==> witness_precedes(a, b) || witness_precedes(b, a),
        witness_precedes(a, b) && witness_precedes(b, c) ==> witness_precedes(a, c),
{
    lemma_lex_irreflexive(code_table(a));
    if a != b {
        if code_table(a) == code_table(b) {
            lemma_code_table_injective(a, b);
        }
        lemma_lex_total(code_table(a), code_table(b));
    }
    if witness_precedes(a, b) && witness_precedes(b, c) && lex_less(code_table(a), code_table(b)) && lex_less(
        code_table(b),
        code_table(c),
    ) {
        lemma_lex_transitive(code_table(a), code_table(b), code_table(c));
    }
}

/// Whether the code with metrics `ma` and table `ta` precedes that with `mb` and `tb`.
fn precedes(ma: &ExactMetrics, ta: &[u8], mb: &ExactMetrics, tb: &[u8], Ghost(a): Ghost<u32>, Ghost(b): Ghost<u32>) -> (less: bool)
    requires
        *ma == code_metrics(a),
        *mb == code_metrics(b),
        ta@ == code_table(a),
        tb@ == code_table(b),
    ensures
        less == witness_precedes(a, b),
{
    if ma.nonlinearity != mb.nonlinearity {
        ma.nonlinearity > mb.nonlinearity
    } else if ma.correlation_immunity != mb.correlation_immunity {
        ma.correlation_immunity > mb.correlation_immunity
    } else if ma.algebraic_degree != mb.algebraic_degree {
        ma.algebraic_degree > mb.algebraic_degree
    } else {
        less_lexicographic(ta, tb)
    }
}

/// Builds the exact witness record of a four-input table.
///
/// # Errors
///
/// [`TropicalError::Function`] with the table's validation error.
fn exact_witness(truth_table: Vec<u8>, source: TropicalSearchSource) -> (result: Result<TropicalSearchWitness, TropicalError>)
    ensures
        valid_truth_table(BL13_4_1_INPUT_BITS as nat, truth_table@) ==> (result matches Ok(w) && is_witness_record(
            w,
            truth_table@,
            source,
        )),
        !valid_truth_table(BL13_4_1_INPUT_BITS as nat, truth_table@) ==> result matches Err(
            TropicalError::Function(_),
        ),
{
    proof {
        vstd::arithmetic::power2::lemma2_to64();
    }
    let function = match BooleanFunction::new(BL13_4_1_INPUT_BITS, copy_bytes(truth_table.as_slice())) {
        Ok(f) => f,
        Err(e) => return Err(TropicalError::Function(e)),
    };
    let metrics = function.exact_metrics();
    let mut anf_coefficients = copy_bytes(truth_table.as_slice());
    mobius_transform(&mut anf_coefficients, BL13_4_1_INPUT_BITS);
    let walsh_spectrum = walsh_hadamard(truth_table.as_slice(), BL13_4_1_INPUT_BITS);
    let fingerprint = function.stable_fingerprint();
    proof {
        assert(anf_coefficients@ =~= Seq::new(
            ROWS as nat,
            |u: int| if anf_coefficient(truth_table@, 4, u) { 1u8 } else { 0u8 },
        ));
    }
    Ok(TropicalSearchWitness { source, truth_table, fingerprint, anf_coefficients, walsh_spectrum, metrics })
}


/// Rows of a code table are bits.
proof fn lemma_code_row_bit(c: u32, x: u32)
    by (bit_vector)
    ensures
        ((c >> x) & 1u32) as u8 <= 1u8,
{
}

/// A code table is a valid four-input truth table.
proof fn lemma_code_table_valid(c: u32)
    ensures
        valid_truth_table(BL13_4_1_INPUT_BITS as nat, code_table(c)),
{
    vstd::arithmetic::power2::lemma2_to64();
    assert forall|x: int| 0 <= x < code_table(c).len() implies #[trigger] code_table(c)[x] <= 1 by {
        lemma_code_row_bit(c, x as u32);
    }
}

/// Every monomial of a frozen control stays far from the `i64` bound.
proof fn lemma_control_terms_small(i: int, side: bool)
    ensures
        forall|k: int, x: u64|
            0 <= k < control_terms(i, side).len() ==> #[trigger] monomial_value(control_terms(i, side)[k], x) <= 65,
{
    let t = control_terms(i, side);
    assert forall|k: int, x: u64| 0 <= k < t.len() implies #[trigger] monomial_value(t[k], x) <= 65 by {
        lemma_bit_weight_bound((x & t[k].variables) as int, 64);
        assert(t[k].constant <= 1);
    }
}

/// The codes of the four frozen control tables.
fn control_codes() -> (result: Result<Vec<u32>, TropicalError>)
    ensures
        result matches Ok(v) && v@.len() == 4 && forall|i: int|
            0 <= i < 4 ==> #[trigger] v@[i] < 0x10000 && code_table(v@[i]) == control_table(i),
{
    let family = match bl13_4_control_predicates() {
        Ok(f) => f,
        Err(e) => return Err(e),
    };
    proof {
        vstd::arithmetic::power2::lemma2_to64();
    }
    let mut codes: Vec<u32> = Vec::new();
    let mut i: usize = 0;
    while i < 4
        invariant
            is_control_family(family@),
            pow2(4) == 16,
            i <= 4,
            codes@.len() == i,
            forall|j: int| 0 <= j < i ==> #[trigger] codes@[j] < 0x10000 && code_table(codes@[j]) == control_table(j),
        decreases 4 - i,
    {
        let ghost p = family@[i as int];
        proof {
            lemma_control_terms_small(i as int, false);
            lemma_control_terms_small(i as int, true);
            assert forall|x: int| 0 <= x < pow2(p.left_polynomial().width()) implies !#[trigger] predicate_overflows(
                p,
                x as u64,
            ) by {
                assert forall|k: int| 0 <= k < p.left_polynomial().terms().len() implies #[trigger] monomial_value(
                    p.left_polynomial().terms()[k],
                    x as u64,
                ) <= i64::MAX by {
                    assert(monomial_value(control_terms(i as int, false)[k], x as u64) <= 65);
                }
                assert forall|k: int| 0 <= k < p.right_polynomial().terms().len() implies #[trigger] monomial_value(
                    p.right_polynomial().terms()[k],
                    x as u64,
                ) <= i64::MAX by {
                    assert(monomial_value(control_terms(i as int, true)[k], x as u64) <= 65);
                }
            }
        }
        let function = match family[i].boolean_function() {
            Ok(f) => f,
            Err(e) => return Err(e),
        };
        let code = table_code(function.truth_table());
        proof {
            assert(predicate_table(p) =~= control_table(i as int));
        }
        codes.push(code);
        i += 1;
    }
    Ok(codes)
}

/// Per-code counts and the gated candidates, in increasing code order.
struct CodeScan {
    unique: usize,
    constant: usize,
    balanced: usize,
    max_nonlinearity: u64,
    max_degree: u32,
    codes: Vec<u32>,
    sources: Vec<TropicalSearchSource>,
    metrics: Vec<ExactMetrics>,
}

/// Scans every code below `2^16` in increasing order.
fn scan_codes(seen: &Vec<Option<TropicalSearchSource>>, controls: &Vec<u32>) -> (scan: CodeScan)
    requires
        seen@.len() == 0x10000,
        forall|c: int| 0 <= c < 0x10000 ==> #[trigger] seen@[c] == first_source(frozen_sources(), code_table(c as u32)),
        controls@.len() == 4,
        forall|i: int| 0 <= i < 4 ==> #[trigger] controls@[i] < 0x10000 && code_table(controls@[i]) == control_table(i),
    ensures
        scan.unique == count_codes(0x10000, reached_pred()),
        scan.constant == count_codes(0x10000, constant_pred()),
        scan.constant <= scan.unique,
        scan.balanced == count_codes(0x10000, balanced_pred()),
        scan.max_nonlinearity == max_over_codes(0x10000, reached_pred(), code_nonlinearity()),
        scan.max_degree == max_over_codes(0x10000, reached_pred(), code_degree()),
        scan.codes@.len() == count_codes(0x10000, gated_pred()),
        scan.sources@.len() == scan.codes@.len(),
        scan.metrics@.len() == scan.codes@.len(),
        forall|i: int| 0 <= i < scan.codes@.len() ==> #[trigger] scan.codes@[i] < 0x10000 && code_gated(scan.codes@[i])
            && scan.metrics@[i] == code_metrics(scan.codes@[i]) && first_source(
            frozen_sources(),
            code_table(scan.codes@[i]),
        ) == Some(scan.sources@[i]),
        forall|i: int, j: int| 0 <= i < j < scan.codes@.len() ==> #[trigger] scan.codes@[i] < #[trigger] scan.codes@[j],
        forall|c: u32| c < 0x10000 && #[trigger] code_gated(c) ==> scan.codes@.contains(c),
{
    let mut scan = CodeScan {
        unique: 0,
        constant: 0,
        balanced: 0,
        max_nonlinearity: 0,
        max_degree: 0,
        codes: Vec::new(),
        sources: Vec::new(),
        metrics: Vec::new(),
    };
    let mut c: u32 = 0;
    while c < 0x10000
        invariant
            seen@.len() == 0x10000,
            forall|d: int| 0 <= d < 0x10000 ==> #[trigger] seen@[d] == first_source(frozen_sources(), code_table(d as u32)),
            controls@.len() == 4,
            forall|i: int| 0 <= i < 4 ==> #[trigger] controls@[i] < 0x10000 && code_table(controls@[i]) == control_table(i),
            c <= 0x10000,
            scan.unique == count_codes(c as nat, reached_pred()),
            scan.constant == count_codes(c as nat, constant_pred()),
            scan.constant <= scan.unique,
            scan.unique <= c,
            scan.balanced == count_codes(c as nat, balanced_pred()),
            scan.balanced <= c,
            scan.max_nonlinearity == max_over_codes(c as nat, reached_pred(), code_nonlinearity()),
            scan.max_degree == max_over_codes(c as nat, reached_pred(), code_degree()),
            scan.codes@.len() == count_codes(c as nat, gated_pred()),
            scan.codes@.len() <= c,
            scan.sources@.len() == scan.codes@.len(),
            scan.metrics@.len() == scan.codes@.len(),
            forall|i: int| 0 <= i < scan.codes@.len() ==> #[trigger] scan.codes@[i] < c && code_gated(scan.codes@[i])
                && scan.metrics@[i] == code_metrics(scan.codes@[i]) && first_source(
                frozen_sources(),
                code_table(scan.codes@[i]),
            ) == Some(scan.sources@[i]),
            forall|i: int, j: int| 0 <= i < j < scan.codes@.len() ==> #[trigger] scan.codes@[i] < #[trigger] scan.codes@[j],
            forall|d: u32| d < c && #[trigger] code_gated(d) ==> scan.codes@.contains(d),
        decreases 0x10000 - c,
    {
        let entry = seen[c as usize];
        let ghost old_codes = scan.codes@;
        proof {
            assert(seen@[c as int] == first_source(frozen_sources(), code_table(c)));
        }
        match entry {
            None => {},
            Some(source) => {
                proof {
                    lemma_code_table_valid(c);
                }
                let table = decode_table(c);
                let function = match BooleanFunction::new(BL13_4_1_INPUT_BITS, copy_bytes(table.as_slice())) {
                    Ok(f) => f,
                    Err(_) => {
                        proof {
                            assert(false);
                        }
                        return scan;
                    },
                };
                let metrics = function.exact_metrics();
                scan.unique = scan.unique + 1;
                if is_constant(table.as_slice()) {
                    scan.constant = scan.constant + 1;
                }
                if metrics.balanced {
                    scan.balanced = scan.balanced + 1;
                }
                if metrics.nonlinearity > scan.max_nonlinearity {
                    scan.max_nonlinearity = metrics.nonlinearity;
                }
                if metrics.algebraic_degree > scan.max_degree {
                    scan.max_degree = metrics.algebraic_degree;
                }
                let control = c == controls[0] || c == controls[1] || c == controls[2] || c == controls[3];
                proof {
                    if is_control_code(c) {
                        let i = choose|i: int| 0 <= i < 4 && code_table(c) == #[trigger] control_table(i);
                        lemma_code_table_injective(c, controls@[i]);
                    }
                    if control {
                        if c == controls@[0] {
                            assert(code_table(c) == control_table(0));
                        } else if c == controls@[1] {
                            assert(code_table(c) == control_table(1));
                        } else if c == controls@[2] {
                            assert(code_table(c) == control_table(2));
                        } else {
                            assert(code_table(c) == control_table(3));
                        }
                    }
                }
                if !control && metrics.balanced && metrics.nonlinearity >= 4 {
                    scan.codes.push(c);
                    scan.sources.push(source);
                    scan.metrics.push(metrics);
                }
            },
        }
        proof {
            assert forall|d: u32| d < c + 1 && #[trigger] code_gated(d) implies scan.codes@.contains(d) by {
                if d == c {
                    assert(scan.codes@[scan.codes@.len() - 1] == c);
                } else {
                    assert(old_codes.contains(d));
                    let i = choose|i: int| 0 <= i < old_codes.len() && old_codes[i] == d;
                    assert(scan.codes@[i] == d);
                }
            }
        }
        c = c + 1;
    }
    scan
}


/// Positions of at most the reporting limit of `codes`, best first in report order.
fn select_top(codes: &Vec<u32>, metrics: &Vec<ExactMetrics>) -> (order: Vec<usize>)
    requires
        metrics@.len() == codes@.len(),
        forall|j: int| 0 <= j < codes@.len() ==> #[trigger] codes@[j] < 0x10000 && metrics@[j] == code_metrics(codes@[j]),
        forall|i: int, j: int| 0 <= i < j < codes@.len() ==> #[trigger] codes@[i] < #[trigger] codes@[j],
    ensures
        order@.len() <= BL13_4_1_MAX_REPORTED_WITNESSES,
        forall|i: int| 0 <= i < order@.len() ==> #[trigger] order@[i] < codes@.len(),
        forall|i: int, j: int| 0 <= i < j < order@.len() ==> witness_precedes(codes@[#[trigger] order@[i] as int], codes@[#[trigger] order@[j] as int]),
        forall|j: int| 0 <= j < codes@.len() && !#[trigger] order@.contains(j as usize) ==> order@.len() == BL13_4_1_MAX_REPORTED_WITNESSES
            && forall|i: int| 0 <= i < order@.len() ==> witness_precedes(codes@[#[trigger] order@[i] as int], codes@[j]),
{
    let k = codes.len();
    let mut taken: Vec<bool> = Vec::new();
    let mut t: usize = 0;
    while t < k
        invariant
            t <= k,
            taken@.len() == t,
            forall|j: int| 0 <= j < t ==> !#[trigger] taken@[j],
        decreases k - t,
    {
        taken.push(false);
        t += 1;
    }
    let mut order: Vec<usize> = Vec::new();
    while order.len() < BL13_4_1_MAX_REPORTED_WITNESSES
        invariant
            k == codes@.len(),
            metrics@.len() == k,
            forall|j: int| 0 <= j < k ==> #[trigger] codes@[j] < 0x10000 && metrics@[j] == code_metrics(codes@[j]),
            forall|i: int, j: int| 0 <= i < j < k ==> #[trigger] codes@[i] < #[trigger] codes@[j],
            taken@.len() == k,
            order@.len() <= BL13_4_1_MAX_REPORTED_WITNESSES,
            forall|j: int| 0 <= j < k ==> (#[trigger] taken@[j] <==> order@.contains(j as usize)),
            forall|i: int| 0 <= i < order@.len() ==> #[trigger] order@[i] < k,
            forall|i: int, j: int| 0 <= i < j < order@.len() ==> witness_precedes(codes@[#[trigger] order@[i] as int], codes@[#[trigger] order@[j] as int]),
            forall|i: int, j: int| 0 <= i < order@.len() && 0 <= j < k && !#[trigger] taken@[j] ==> witness_precedes(codes@[#[trigger] order@[i] as int], codes@[j]),
        ensures
            order@.len() == BL13_4_1_MAX_REPORTED_WITNESSES || forall|j: int| 0 <= j < k ==> #[trigger] taken@[j],
        decreases BL13_4_1_MAX_REPORTED_WITNESSES - order@.len(),
    {
        let mut best: usize = k;
        let mut j: usize = 0;
        while j < k
            invariant
                k == codes@.len(),
                metrics@.len() == k,
                forall|x: int| 0 <= x < k ==> #[trigger] codes@[x] < 0x10000 && metrics@[x] == code_metrics(codes@[x]),
                forall|x: int, y: int| 0 <= x < y < k ==> #[trigger] codes@[x] < #[trigger] codes@[y],
                taken@.len() == k,
                j <= k,
                best == k || (best < j && !taken@[best as int]),
                best == k ==> forall|x: int| 0 <= x < j ==> #[trigger] taken@[x],
                best < k ==> forall|x: int| 0 <= x < j && !#[trigger] taken@[x] && x != best ==> witness_precedes(codes@[best as int], codes@[x]),
            decreases k - j,
        {
            if !taken[j] {
                if best == k {
                    best = j;
                } else {
                    let tj = decode_table(codes[j]);
                    let tb = decode_table(codes[best]);
                    let better = precedes(&metrics[j], tj.as_slice(), &metrics[best], tb.as_slice(), Ghost(codes@[j as int]), Ghost(codes@[best as int]));
                    proof {
                        lemma_witness_order(codes@[j as int], codes@[best as int], codes@[j as int]);
                        assert(codes@[j as int] != codes@[best as int]);
                        assert forall|x: int| 0 <= x < j && !#[trigger] taken@[x] && x != best implies
                            (better ==> witness_precedes(codes@[j as int], codes@[x])) by {
                            if better {
                                lemma_witness_order(codes@[j as int], codes@[best as int], codes@[x]);
                            }
                        }
                    }
                    if better {
                        best = j;
                    }
                }
            }
            j += 1;
        }
        if best == k {
            break;
        }
        let ghost before = order@;
        taken.set(best, true);
        order.push(best);
        proof {
            assert forall|x: int| 0 <= x < k implies (#[trigger] taken@[x] <==> order@.contains(x as usize)) by {
                if x == best as int {
                    assert(order@[order@.len() - 1] == best);
                } else if before.contains(x as usize) {
                    let i = choose|i: int| 0 <= i < before.len() && before[i] == x as usize;
                    assert(order@[i] == x as usize);
                } else if order@.contains(x as usize) {
                    let i = choose|i: int| 0 <= i < order@.len() && order@[i] == x as usize;
                    assert(i < before.len());
                    assert(before[i] == x as usize);
                }
            }
        }
    }
    proof {
        assert forall|j: int| 0 <= j < codes@.len() && !#[trigger] order@.contains(j as usize) implies order@.len() == BL13_4_1_MAX_REPORTED_WITNESSES
            && forall|i: int| 0 <= i < order@.len() ==> witness_precedes(codes@[#[trigger] order@[i] as int], codes@[j]) by {
            assert(!taken@[j]);
        }
    }
    order
}

/// Runs the exact preregistered search over the frozen grammar.
///
/// Enumerates all frozen syntax before inspecting Boolean metrics,
/// deduplicates by exact truth table, excludes the four frozen control tables
/// from the witness gate (balanced, nonlinearity at least four), and keeps at
/// most sixteen witness records in report order.
///
/// # Errors
///
/// A [`TropicalError`] from the frozen grammar, the control family or the
/// exact Boolean materialization; none occurs on the frozen data.
pub fn bl13_4_1_bounded_search() -> (result: Result<TropicalSearchReport, TropicalError>)
    ensures
        result matches Ok(report) && is_search_summary(report.summary) && is_reported_witnesses(report.witnesses@),
{
    let terms = frozen_terms();
    proof {
        lemma_frozen_terms_valid();
        let t = frozen_term_seq().len();
        lemma_pairs_before(frozen_term_seq(), t);
        assert(t * (2 * t - t - 1) <= 2 * 1128) by (nonlinear_arith)
            requires
                t <= 48,
        ;
    }
    let polys = match frozen_polynomials(terms.as_slice()) {
        Ok(p) => p,
        Err(e) => return Err(e),
    };
    proof {
        assert(polys@.len() == values_of(polys@).len());
    }
    let (seen, predicates_evaluated, distinct) = first_sources_by_table(&polys);
    let controls = match control_codes() {
        Ok(c) => c,
        Err(e) => return Err(e),
    };
    let scan = scan_codes(&seen, &controls);
    proof {
        lemma_count_ext(0x10000, reached_in(frozen_sources()), reached_pred());
        assert(seen@[controls@[0] as int] == first_source(frozen_sources(), code_table(controls@[0])));
        assert(seen@[controls@[1] as int] == first_source(frozen_sources(), code_table(controls@[1])));
        assert(seen@[controls@[2] as int] == first_source(frozen_sources(), code_table(controls@[2])));
        assert(seen@[controls@[3] as int] == first_source(frozen_sources(), code_table(controls@[3])));
    }
    let control_present = [
        seen[controls[0] as usize].is_some(),
        seen[controls[1] as usize].is_some(),
        seen[controls[2] as usize].is_some(),
        seen[controls[3] as usize].is_some(),
    ];
    let order = select_top(&scan.codes, &scan.metrics);
    let mut witnesses: Vec<TropicalSearchWitness> = Vec::new();
    let ghost mut chosen: Seq<u32> = seq![];
    let mut i: usize = 0;
    while i < order.len()
        invariant
            i <= order@.len(),
            order@.len() <= BL13_4_1_MAX_REPORTED_WITNESSES,
            forall|x: int| 0 <= x < order@.len() ==> #[trigger] order@[x] < scan.codes@.len(),
            scan.sources@.len() == scan.codes@.len(),
            forall|x: int| 0 <= x < scan.codes@.len() ==> #[trigger] scan.codes@[x] < 0x10000 && code_gated(scan.codes@[x])
                && first_source(frozen_sources(), code_table(scan.codes@[x])) == Some(scan.sources@[x]),
            chosen.len() == i,
            witnesses@.len() == i,
            forall|x: int| 0 <= x < i ==> #[trigger] chosen[x] == scan.codes@[order@[x] as int],
            forall|x: int| 0 <= x < i ==> is_witness_record(
                #[trigger] witnesses@[x],
                code_table(chosen[x]),
                first_source(frozen_sources(), code_table(chosen[x]))->0,
            ),
        decreases order@.len() - i,
    {
        let position = order[i];
        let code = scan.codes[position];
        proof {
            lemma_code_table_valid(code);
        }
        let witness = match exact_witness(decode_table(code), scan.sources[position]) {
            Ok(w) => w,
            Err(e) => return Err(e),
        };
        witnesses.push(witness);
        proof {
            chosen = chosen.push(code);
        }
        i += 1;
    }
    proof {
        assert(is_top_codes(chosen)) by {
            assert forall|c: u32| c < 0x10000 && #[trigger] code_gated(c) && !chosen.contains(c) implies chosen.len()
                == BL13_4_1_MAX_REPORTED_WITNESSES && forall|x: int| 0 <= x < chosen.len() ==> witness_precedes(#[trigger] chosen[x], c) by {
                assert(scan.codes@.contains(c));
                let j = choose|j: int| 0 <= j < scan.codes@.len() && scan.codes@[j] == c;
                if order@.contains(j as usize) {
                    let x = choose|x: int| 0 <= x < order@.len() && order@[x] == j as usize;
                    assert(chosen[x] == c);
                }
            }
        }
    }
    let unique = scan.unique;
    let summary = TropicalSearchSummary {
        syntactic_terms: terms.len(),
        polynomials: polys.len(),
        predicates_evaluated,
        unique_truth_tables: unique,
        duplicate_predicates: predicates_evaluated - unique,
        constant_functions: scan.constant,
        nonconstant_functions: unique - scan.constant,
        balanced_functions: scan.balanced,
        max_nonlinearity: scan.max_nonlinearity,
        max_algebraic_degree: scan.max_degree,
        h1_witness_count: scan.codes.len(),
        control_present,
    };
    proof {
        assert(summary.control_present@ =~= seq![
            control_present[0],
            control_present[1],
            control_present[2],
            control_present[3],
        ]);
    }
    Ok(TropicalSearchReport { summary, witnesses })
}

} // verus!
