//! Bounded equivalence screens.
//!
//! Exact equality and output complementation can establish a match. The
//! affine-invariant screen is one-way: differing exact invariants exclude
//! affine-input equivalence (with optional output complement), while equal
//! invariants stay inconclusive.

use vstd::prelude::*;
use vstd::arithmetic::power2::pow2;
use crate::baseline::{BaselineRecord, BaselineSummary, abs_int};
use crate::function::{
    BooleanFunction, same_key, canonical_complement_table, complement_table, valid_truth_table,
    lemma_complement_involution,
};
use crate::sorting::{sort_u64, u64_leq};
use crate::spectral::{
    algebraic_degree, ones_upto, walsh_coefficient, walsh_hadamard, lemma_walsh_coefficient_bound,
    lemma_rows_bound, MAX_EXACT_BITS, anf_coefficient, anf_degree_upto, pm, table_bit,
};
use crate::bitwise::{
    bit, bit_weight, bits_subset, dot_parity, sum, lemma_shr_is_div, lemma_shr_small, lemma_sum_ext,
    lemma_sum_split, lemma_sum_neg, lemma_sum_zero, lemma_low_bits_after_add, lemma_bits_subset_low_bits,
};
use vstd::arithmetic::power2::{lemma_pow2_pos, lemma_pow2_unfold, lemma2_to64};
use vstd::arithmetic::div_mod::{lemma_fundamental_div_mod, lemma_mod_bound};

verus! {

/// The strongest relation the exact screen demonstrated.
#[derive(Clone, Copy, Debug, PartialEq, Eq, Structural)]
pub enum ScreenedEquivalence {
    /// Same complete truth table.
    Exact,
    /// Equal only after output-complement canonicalisation.
    OutputComplement,
}

/// A reference match with the index that established it.
#[derive(Clone, Copy, Debug, PartialEq, Eq, Structural)]
pub struct EquivalenceMatch {
    pub reference_index: usize,
    pub relation: ScreenedEquivalence,
}

/// Exact invariants of `g(x) = f(Ax + b) XOR c` with `A` invertible: input
/// width, algebraic degree, the smaller of the weights of `f` and its
/// complement, and the sorted absolute Walsh spectrum. Equality is necessary,
/// not sufficient, for the relation.
#[derive(Debug, PartialEq, Eq)]
pub struct AffineInvariantSignature {
    pub input_bits: u32,
    pub algebraic_degree: u32,
    pub canonical_weight: usize,
    pub walsh_abs_spectrum: Vec<u64>,
}

/// Outcome of the necessary-condition affine-invariant screen.
#[derive(Debug, PartialEq, Eq)]
pub enum AffineInvariantScreen {
    /// No reference shares the invariants: affine equivalence is excluded
    /// against the supplied corpus.
    Excluded,
    /// These references share every screened invariant; this is no match.
    Inconclusive { compatible_reference_indices: Vec<usize> },
}

/// Same width, and equal truth tables once each is canonicalised under output complement.
pub open spec fn complement_related(f: BooleanFunction, g: BooleanFunction) -> bool {
    f.input_width() == g.input_width() && canonical_complement_table(f.table())
        == canonical_complement_table(g.table())
}

/// `result` is the outcome of screening `c` against `refs`: the first exact
/// match if any, else the first match under output complement, else none.
pub open spec fn is_screen_outcome(c: BooleanFunction, refs: Seq<BooleanFunction>, result: Option<EquivalenceMatch>) -> bool {
    match result {
        Some(found) => {
            let i = found.reference_index as int;
            &&& 0 <= i < refs.len()
            &&& found.relation == ScreenedEquivalence::Exact ==> same_key(refs[i], c) && forall|j: int|
                0 <= j < i ==> !#[trigger] same_key(refs[j], c)
            &&& found.relation == ScreenedEquivalence::OutputComplement ==> complement_related(refs[i], c)
                && (forall|j: int| 0 <= j < refs.len() ==> !#[trigger] same_key(refs[j], c)) && forall|j: int|
                0 <= j < i ==> !#[trigger] complement_related(refs[j], c)
        },
        None => forall|j: int|
            0 <= j < refs.len() ==> !#[trigger] same_key(refs[j], c) && !complement_related(refs[j], c),
    }
}

/// The functions of a list of records.
pub open spec fn record_functions(recs: Seq<BaselineRecord>) -> Seq<BooleanFunction> {
    recs.map_values(|r: BaselineRecord| r.function)
}

/// Screens one function against a bounded reference corpus: exact equality
/// first, then equality under output complement. References of another input
/// width are skipped. `None` only means "not found here under these two
/// relations"; it is no evidence of novelty.
pub fn screen_exact_or_complement(candidate: &BooleanFunction, reference: &[BooleanFunction]) -> (result: Option<EquivalenceMatch>)
    ensures
        is_screen_outcome(*candidate, reference@, result),
{
    let ghost refs = reference@;
    let mut i: usize = 0;
    while i < reference.len()
        invariant
            refs == reference@,
            i <= refs.len(),
            forall|j: int| 0 <= j < i ==> !#[trigger] same_key(refs[j], *candidate),
        decreases refs.len() - i,
    {
        if reference[i].same_function(candidate) {
            return Some(EquivalenceMatch { reference_index: i, relation: ScreenedEquivalence::Exact });
        }
        i += 1;
    }
    let canonical = candidate.canonical_under_complement();
    let mut k: usize = 0;
    while k < reference.len()
        invariant
            refs == reference@,
            k <= refs.len(),
            canonical.input_width() == candidate.input_width(),
            canonical.table() == canonical_complement_table(candidate.table()),
            forall|j: int| 0 <= j < refs.len() ==> !#[trigger] same_key(refs[j], *candidate),
            forall|j: int| 0 <= j < k ==> !#[trigger] complement_related(refs[j], *candidate),
        decreases refs.len() - k,
    {
        let known = &reference[k];
        if known.input_bits() == candidate.input_bits() {
            let known_canonical = known.canonical_under_complement();
            if known_canonical.same_function(&canonical) {
                return Some(
                    EquivalenceMatch { reference_index: k, relation: ScreenedEquivalence::OutputComplement },
                );
            }
        }
        k += 1;
    }
    None
}

/// Screens one function against retained baseline records; the index
/// addresses the records themselves.
pub fn screen_baseline_records(candidate: &BooleanFunction, reference: &[BaselineRecord]) -> (result: Option<EquivalenceMatch>)
    ensures
        is_screen_outcome(*candidate, record_functions(reference@), result),
{
    let ghost refs = record_functions(reference@);
    let mut i: usize = 0;
    while i < reference.len()
        invariant
            refs == record_functions(reference@),
            i <= refs.len(),
            forall|j: int| 0 <= j < i ==> !#[trigger] same_key(refs[j], *candidate),
        decreases refs.len() - i,
    {
        if reference[i].function.same_function(candidate) {
            return Some(EquivalenceMatch { reference_index: i, relation: ScreenedEquivalence::Exact });
        }
        i += 1;
    }
    let canonical = candidate.canonical_under_complement();
    let mut k: usize = 0;
    while k < reference.len()
        invariant
            refs == record_functions(reference@),
            k <= refs.len(),
            canonical.input_width() == candidate.input_width(),
            canonical.table() == canonical_complement_table(candidate.table()),
            forall|j: int| 0 <= j < refs.len() ==> !#[trigger] same_key(refs[j], *candidate),
            forall|j: int| 0 <= j < k ==> !#[trigger] complement_related(refs[j], *candidate),
        decreases refs.len() - k,
    {
        let known = &reference[k].function;
        if known.input_bits() == candidate.input_bits() {
            let known_canonical = known.canonical_under_complement();
            if known_canonical.same_function(&canonical) {
                return Some(
                    EquivalenceMatch { reference_index: k, relation: ScreenedEquivalence::OutputComplement },
                );
            }
        }
        k += 1;
    }
    None
}

/// Screens one function against the complete deduplicated population of a
/// baseline campaign (not its Pareto projection).
pub fn screen_full_baseline(candidate: &BooleanFunction, baseline: &BaselineSummary) -> (result: Option<EquivalenceMatch>)
    ensures
        is_screen_outcome(*candidate, record_functions(baseline.population@), result),
{
    screen_baseline_records(candidate, baseline.population.as_slice())
}

/// Screens each candidate independently, in order.
pub fn screen_candidate_set(candidates: &[BooleanFunction], reference: &[BooleanFunction]) -> (results: Vec<Option<EquivalenceMatch>>)
    ensures
        results@.len() == candidates@.len(),
        forall|i: int| 0 <= i < candidates@.len() ==> #[trigger] is_screen_outcome(candidates@[i], reference@, results@[i]),
{
    let mut results: Vec<Option<EquivalenceMatch>> = Vec::new();
    let mut i: usize = 0;
    while i < candidates.len()
        invariant
            i <= candidates@.len(),
            results@.len() == i,
            forall|j: int| 0 <= j < i ==> #[trigger] is_screen_outcome(candidates@[j], reference@, results@[j]),
        decreases candidates@.len() - i,
    {
        results.push(screen_exact_or_complement(&candidates[i], reference));
        i += 1;
    }
    results
}

/// Absolute Walsh coefficients in row order.
pub open spec fn abs_walsh_spectrum(t: Seq<u8>, n: nat) -> Seq<u64> {
    Seq::new(pow2(n), |a: int| abs_int(walsh_coefficient(t, n, a)) as u64)
}

/// The affine-invariant signature of a function, as plain values.
pub open spec fn signature_of(f: BooleanFunction) -> (u32, u32, int, Seq<u64>) {
    let t = f.table();
    let n = f.input_width();
    let weight = ones_upto(t, t.len());
    let rest = t.len() - weight;
    (
        n as u32,
        algebraic_degree(t, n) as u32,
        if weight <= rest { weight } else { rest },
        abs_walsh_spectrum(t, n).sort_by(u64_leq()),
    )
}

/// The plain values of a signature.
pub open spec fn signature_view(s: AffineInvariantSignature) -> (u32, u32, int, Seq<u64>) {
    (s.input_bits, s.algebraic_degree, s.canonical_weight as int, s.walsh_abs_spectrum@)
}

/// Computes the necessary-condition signature of the affine screen.
pub fn affine_invariant_signature(function: &BooleanFunction) -> (signature: AffineInvariantSignature)
    ensures
        signature_view(signature) == signature_of(*function),
{
    let table = function.truth_table();
    let n = function.input_bits();
    let ghost t = table@;
    proof {
        lemma_rows_bound(n as nat);
    }
    let rows = table.len();
    let mut weight: usize = 0;
    let mut x: usize = 0;
    while x < rows
        invariant
            t == table@,
            rows == t.len(),
            x <= rows,
            weight <= x,
            weight == ones_upto(t, x as nat),
        decreases rows - x,
    {
        if table[x] != 0 {
            weight += 1;
        }
        x += 1;
    }
    let canonical_weight = if weight <= rows - weight {
        weight
    } else {
        rows - weight
    };
    let spectrum = walsh_hadamard(table, n);
    let mut magnitudes: Vec<u64> = Vec::new();
    let mut a: usize = 0;
    while a < spectrum.len()
        invariant
            t == table@,
            n == function.input_width(),
            n <= MAX_EXACT_BITS,
            spectrum@.len() == pow2(n as nat),
            forall|b: int| 0 <= b < spectrum@.len() ==> #[trigger] spectrum@[b] == walsh_coefficient(t, n as nat, b),
            a <= spectrum@.len(),
            magnitudes@.len() == a,
            forall|b: int| 0 <= b < a ==> #[trigger] magnitudes@[b] == abs_walsh_spectrum(t, n as nat)[b],
        decreases spectrum@.len() - a,
    {
        let value = spectrum[a];
        proof {
            lemma_walsh_coefficient_bound(t, n as nat, a as int);
            lemma_rows_bound(n as nat);
        }
        let absolute: u64 = if value < 0 {
            (0 - value) as u64
        } else {
            value as u64
        };
        magnitudes.push(absolute);
        a += 1;
    }
    proof {
        assert(magnitudes@ =~= abs_walsh_spectrum(t, n as nat));
    }
    sort_u64(&mut magnitudes);
    let metrics = function.exact_metrics();
    AffineInvariantSignature {
        input_bits: n,
        algebraic_degree: metrics.algebraic_degree,
        canonical_weight,
        walsh_abs_spectrum: magnitudes,
    }
}

/// Whether two signatures are equal.
fn same_signature(a: &AffineInvariantSignature, b: &AffineInvariantSignature) -> (same: bool)
    ensures
        same == (signature_view(*a) == signature_view(*b)),
{
    if a.input_bits != b.input_bits || a.algebraic_degree != b.algebraic_degree || a.canonical_weight
        != b.canonical_weight || a.walsh_abs_spectrum.len() != b.walsh_abs_spectrum.len() {
        return false;
    }
    let mut i: usize = 0;
    while i < a.walsh_abs_spectrum.len()
        invariant
            a.walsh_abs_spectrum@.len() == b.walsh_abs_spectrum@.len(),
            i <= a.walsh_abs_spectrum@.len(),
            forall|j: int| 0 <= j < i ==> #[trigger] a.walsh_abs_spectrum@[j] == b.walsh_abs_spectrum@[j],
        decreases a.walsh_abs_spectrum@.len() - i,
    {
        if a.walsh_abs_spectrum[i] != b.walsh_abs_spectrum[i] {
            return false;
        }
        i += 1;
    }
    proof {
        assert(a.walsh_abs_spectrum@ =~= b.walsh_abs_spectrum@);
    }
    true
}

/// Two functions have the same affine-invariant signature.
pub open spec fn signatures_agree(f: BooleanFunction, g: BooleanFunction) -> bool {
    signature_of(f) == signature_of(g)
}

/// Signatures computed for `f` and `g` by [`affine_invariant_signature`] are
/// equal field by field (the spectra element by element) exactly when the two
/// functions' signatures agree, so the screen's exclusions are exactly the
/// references whose computed signature differs from the candidate's.
pub proof fn lemma_computed_signatures_equal_iff_agree(
    f: BooleanFunction,
    g: BooleanFunction,
    a: AffineInvariantSignature,
    b: AffineInvariantSignature,
)
    requires
        signature_view(a) == signature_of(f),
        signature_view(b) == signature_of(g),
    ensures
        (a.input_bits == b.input_bits && a.algebraic_degree == b.algebraic_degree && a.canonical_weight
            == b.canonical_weight && a.walsh_abs_spectrum@ == b.walsh_abs_spectrum@) <==> signatures_agree(f, g),
{
}

/// `screen` is the affine screen of `c` against `refs`.
pub open spec fn is_affine_screen(screen: AffineInvariantScreen, c: BooleanFunction, refs: Seq<BooleanFunction>) -> bool {
    match screen {
        AffineInvariantScreen::Excluded => forall|j: int|
            0 <= j < refs.len() ==> !#[trigger] signatures_agree(refs[j], c),
        AffineInvariantScreen::Inconclusive { compatible_reference_indices } => {
            let s = compatible_reference_indices@;
            &&& s.len() > 0
            &&& forall|k: int| 0 <= k < s.len() ==> #[trigger] s[k] < refs.len() && signatures_agree(refs[s[k] as int], c)
            &&& forall|k: int, l: int| 0 <= k < l < s.len() ==> #[trigger] s[k] < #[trigger] s[l]
            &&& forall|j: int| 0 <= j < refs.len() && #[trigger] signatures_agree(refs[j], c) ==> exists|k: int| 0 <= k < s.len() && #[trigger] s[k] == j
        },
    }
}

/// Applies the necessary-condition screen for affine-input equivalence
/// (with optional output complement): `Excluded` when no reference shares
/// the candidate's signature, else the references that do, in order.
pub fn screen_affine_invariants(candidate: &BooleanFunction, reference: &[BooleanFunction]) -> (screen: AffineInvariantScreen)
    ensures
        is_affine_screen(screen, *candidate, reference@),
{
    let candidate_signature = affine_invariant_signature(candidate);
    let ghost refs = reference@;
    let mut compatible: Vec<usize> = Vec::new();
    let mut j: usize = 0;
    while j < reference.len()
        invariant
            refs == reference@,
            signature_view(candidate_signature) == signature_of(*candidate),
            j <= refs.len(),
            forall|k: int| 0 <= k < compatible@.len() ==> #[trigger] compatible@[k] < j && signatures_agree(refs[compatible@[k] as int], *candidate),
            forall|k: int, l: int| 0 <= k < l < compatible@.len() ==> #[trigger] compatible@[k] < #[trigger] compatible@[l],
            forall|m: int| 0 <= m < j && #[trigger] signatures_agree(refs[m], *candidate) ==> exists|k: int| 0 <= k < compatible@.len() && #[trigger] compatible@[k] == m,
        decreases refs.len() - j,
    {
        let signature = affine_invariant_signature(&reference[j]);
        let agree = same_signature(&signature, &candidate_signature);
        proof {
            assert(agree == signatures_agree(refs[j as int], *candidate));
        }
        if agree {
            let ghost before = compatible@;
            compatible.push(j);
            proof {
                assert forall|m: int| 0 <= m < j + 1 && #[trigger] signatures_agree(refs[m], *candidate) implies exists|k: int| 0 <= k < compatible@.len() && #[trigger] compatible@[k] == m by {
                    if m < j {
                        let k = choose|k: int| 0 <= k < before.len() && #[trigger] before[k] == m;
                        assert(compatible@[k] == m);
                    } else {
                        assert(compatible@[before.len() as int] == m);
                    }
                }
            }
        }
        j += 1;
    }
    if compatible.len() == 0 {
        proof {
            assert forall|m: int| 0 <= m < refs.len() implies !#[trigger] signatures_agree(refs[m], *candidate) by {
                if signatures_agree(refs[m], *candidate) {
                    let k = choose|k: int| 0 <= k < compatible@.len() && #[trigger] compatible@[k] == m;
                }
            }
        }
        let screen = AffineInvariantScreen::Excluded;
        proof {
            assert(is_affine_screen(screen, *candidate, refs));
        }
        screen
    } else {
        let ghost cs = compatible@;
        proof {
            assert(cs.len() > 0);
            assert(forall|k: int| 0 <= k < cs.len() ==> #[trigger] cs[k] < refs.len() && signatures_agree(refs[cs[k] as int], *candidate));
            assert(forall|k: int, l: int| 0 <= k < l < cs.len() ==> #[trigger] cs[k] < #[trigger] cs[l]);
            assert(forall|m: int| 0 <= m < refs.len() && #[trigger] signatures_agree(refs[m], *candidate) ==> exists|k: int| 0 <= k < cs.len() && #[trigger] cs[k] == m);
        }
        let screen = AffineInvariantScreen::Inconclusive { compatible_reference_indices: compatible };
        proof {
            assert(screen->compatible_reference_indices@ == cs);
            assert(is_affine_screen(screen, *candidate, refs));
        }
        screen
    }
}

/// `sum(f + g) == sum(f) + sum(g)`.
pub proof fn lemma_sum_add(f: spec_fn(int) -> int, g: spec_fn(int) -> int, m: nat)
    ensures
        sum(|i: int| f(i) + g(i), m) == sum(f, m) + sum(g, m),
    decreases m,
{
    if m > 0 {
        lemma_sum_add(f, g, (m - 1) as nat);
    }
}

/// Bit `m` of `2^m + i` is set when `i < 2^m`.
proof fn lemma_top_bit(i: int, m: nat)
    requires
        0 <= i < pow2(m),
    ensures
        bit(pow2(m) + i, m),
{
    lemma_pow2_pos(m);
    let p = pow2(m) as int;
    lemma_shr_is_div(p + i, m);
    lemma_fundamental_div_mod(p + i, p);
    let q = (p + i) / p;
    let r = (p + i) % p;
    lemma_mod_bound(p + i, p);
    assert(q == 1) by (nonlinear_arith)
        requires
            p * q + r == p + i,
            0 <= r < p,
            0 <= i < p,
            p > 0,
    ;
}

/// The rows below `2^n` that are bit-subsets of `u` number `2^w`, `w` the weight of `u`.
proof fn lemma_subset_count(u: int, n: nat)
    ensures
        sum(|x: int| if bits_subset(x, u, n) { 1int } else { 0int }, pow2(n)) == pow2(bit_weight(u, n)),
    decreases n,
{
    let f = |x: int| if bits_subset(x, u, n) { 1int } else { 0int };
    if n == 0 {
        lemma2_to64();
        assert(sum(f, 0) == 0);
        assert(sum(f, 1) == 1);
    } else {
        let m = (n - 1) as nat;
        let g = |x: int| if bits_subset(x, u, m) { 1int } else { 0int };
        lemma_subset_count(u, m);
        lemma_pow2_unfold(n);
        let p = pow2(m);
        lemma_sum_split(f, p, p);
        let upper = |i: int| f(p + i);
        assert(sum(f, p + p) == sum(f, p) + sum(upper, p));
        assert(sum(f, p) == sum(g, p)) by {
            assert forall|x: int| 0 <= x < p implies #[trigger] f(x) == g(x) by {
                lemma_shr_small(x, m);
            }
            lemma_sum_ext(f, g, p);
        }
        if bit(u, m) {
            assert forall|i: int| 0 <= i < p implies #[trigger] upper(i) == g(i) by {
                lemma_top_bit(i, m);
                lemma_low_bits_after_add(i, m);
                lemma_bits_subset_low_bits(p + i, i, u, u, m);
            }
            lemma_sum_ext(upper, g, p);
            assert(bit_weight(u, n) == bit_weight(u, m) + 1);
            lemma_pow2_unfold(bit_weight(u, n));
            assert(pow2(bit_weight(u, n)) == 2 * pow2(bit_weight(u, m)));
        } else {
            assert forall|i: int| 0 <= i < p implies #[trigger] upper(i) == 0 by {
                lemma_top_bit(i, m);
            }
            lemma_sum_ext(upper, |i: int| 0int, p);
            lemma_sum_zero(p);
            assert(bit_weight(u, n) == bit_weight(u, m));
        }
        assert((p + p) as nat == pow2(n));
        assert(sum(f, pow2(n)) == sum(f, p + p));
    }
}

/// A value below `2^n` with no set bit below `n` is zero.
proof fn lemma_no_bits_is_zero(u: int, n: nat)
    requires
        0 <= u < pow2(n),
        bit_weight(u, n) == 0,
    ensures
        u == 0,
    decreases n,
{
    if n == 0 {
        lemma2_to64();
    } else {
        let m = (n - 1) as nat;
        lemma_pow2_unfold(n);
        assert(!bit(u, m));
        if u >= pow2(m) {
            lemma_shr_is_div(u, m);
            lemma_pow2_pos(m);
            let p = pow2(m) as int;
            lemma_fundamental_div_mod(u, p);
            lemma_mod_bound(u, p);
            let q = u / p;
            assert(q == 1) by (nonlinear_arith)
                requires
                    p * q + u % p == u,
                    0 <= u % p < p,
                    p <= u < 2 * p,
            ;
        }
        lemma_no_bits_is_zero(u, m);
    }
}

/// Zero has no set bit.
proof fn lemma_zero_weight(n: nat)
    ensures
        bit_weight(0, n) == 0,
    decreases n,
{
    if n > 0 {
        lemma_zero_weight((n - 1) as nat);
        lemma_pow2_pos((n - 1) as nat);
        lemma_shr_small(0, (n - 1) as nat);
    }
}

/// Output complement keeps every algebraic-normal-form coefficient but the constant one.
proof fn lemma_anf_complement(t: Seq<u8>, n: nat, u: int)
    requires
        valid_truth_table(n, t),
        0 < u < pow2(n),
    ensures
        anf_coefficient(complement_table(t), n, u) == anf_coefficient(t, n, u),
{
    let c = complement_table(t);
    let ft = |x: int| if bits_subset(x, u, n) && table_bit(t, x) { 1int } else { 0int };
    let fc = |x: int| if bits_subset(x, u, n) && table_bit(c, x) { 1int } else { 0int };
    let all = |x: int| if bits_subset(x, u, n) { 1int } else { 0int };
    assert forall|x: int| 0 <= x < pow2(n) implies #[trigger] all(x) == ft(x) + fc(x) by {
        assert(c[x] == (1 - t[x]) as u8);
    }
    lemma_sum_ext(all, |x: int| ft(x) + fc(x), pow2(n));
    lemma_sum_add(ft, fc, pow2(n));
    lemma_subset_count(u, n);
    if bit_weight(u, n) == 0 {
        lemma_no_bits_is_zero(u, n);
    }
    lemma_pow2_unfold(bit_weight(u, n));
    let w = pow2((bit_weight(u, n) - 1) as nat) as int;
    let st = sum(ft, pow2(n));
    let sc = sum(fc, pow2(n));
    assert(st % 2 == sc % 2) by (nonlinear_arith)
        requires
            st + sc == 2 * w,
    ;
}

/// Output complement keeps the algebraic degree.
pub proof fn lemma_degree_complement(t: Seq<u8>, n: nat, m: nat)
    requires
        valid_truth_table(n, t),
        m <= pow2(n),
    ensures
        anf_degree_upto(complement_table(t), n, m) == anf_degree_upto(t, n, m),
    decreases m,
{
    if m > 0 {
        lemma_degree_complement(t, n, (m - 1) as nat);
        if m - 1 == 0 {
            lemma_zero_weight(n);
        } else {
            lemma_anf_complement(t, n, m - 1);
        }
    }
}

/// Output complement negates every Walsh coefficient.
pub proof fn lemma_walsh_complement(t: Seq<u8>, n: nat, a: int)
    requires
        valid_truth_table(n, t),
    ensures
        walsh_coefficient(complement_table(t), n, a) == -walsh_coefficient(t, n, a),
{
    let c = complement_table(t);
    let ft = |x: int| pm(table_bit(t, x) != dot_parity(a, x, n));
    let fc = |x: int| pm(table_bit(c, x) != dot_parity(a, x, n));
    assert forall|x: int| 0 <= x < pow2(n) implies #[trigger] fc(x) == -ft(x) by {
        assert(c[x] == (1 - t[x]) as u8);
    }
    lemma_sum_ext(fc, |x: int| -ft(x), pow2(n));
    lemma_sum_neg(ft, pow2(n));
}

/// Output complement turns the weight `w` of the first `m` rows into `m - w`.
pub proof fn lemma_ones_complement(t: Seq<u8>, m: nat)
    requires
        m <= t.len(),
        forall|i: int| 0 <= i < t.len() ==> #[trigger] t[i] <= 1,
    ensures
        ones_upto(complement_table(t), m) == m - ones_upto(t, m),
    decreases m,
{
    if m > 0 {
        lemma_ones_complement(t, (m - 1) as nat);
        assert(complement_table(t)[m - 1] == (1 - t[m - 1]) as u8);
    }
}

/// The affine-invariant signature of a function equals that of its output complement.
pub proof fn lemma_signature_complement_invariant(f: BooleanFunction, g: BooleanFunction)
    requires
        valid_truth_table(f.input_width(), f.table()),
        g.input_width() == f.input_width(),
        g.table() == complement_table(f.table()),
    ensures
        signature_of(g) == signature_of(f),
{
    let t = f.table();
    let n = f.input_width();
    let c = g.table();
    lemma_degree_complement(t, n, pow2(n));
    lemma_ones_complement(t, t.len());
    assert(abs_walsh_spectrum(c, n) =~= abs_walsh_spectrum(t, n)) by {
        assert forall|a: int| 0 <= a < pow2(n) implies #[trigger] abs_walsh_spectrum(c, n)[a] == abs_walsh_spectrum(t, n)[a] by {
            lemma_walsh_complement(t, n, a);
        }
    }
}

/// Functions that the exact-or-complement screen relates share one
/// affine-invariant signature: that screen and the affine-invariant screen
/// never disagree on a pair.
pub proof fn lemma_complement_related_same_signature(f: BooleanFunction, g: BooleanFunction)
    requires
        valid_truth_table(f.input_width(), f.table()),
        valid_truth_table(g.input_width(), g.table()),
        complement_related(f, g),
    ensures
        signature_of(f) == signature_of(g),
{
    let tf = f.table();
    let tg = g.table();
    lemma_complement_involution(tf);
    lemma_complement_involution(tg);
    if tf != tg {
        if canonical_complement_table(tf) == tf {
            assert(canonical_complement_table(tg) == complement_table(tg));
            assert(tf == complement_table(tg));
            lemma_signature_complement_invariant(g, f);
        } else {
            assert(tf =~= complement_table(canonical_complement_table(tf)));
            if canonical_complement_table(tg) == tg {
                assert(complement_table(tf) == tg);
                lemma_signature_complement_invariant(f, g);
            } else {
                assert(tg =~= complement_table(canonical_complement_table(tg)));
                assert(tf == tg);
            }
        }
    }
}

} // verus!
