//! Bounded input-permutation equivalence screen.
//!
//! Extends the exact and output-complement screen with one more declared
//! relation: renaming of input variables, optionally followed by output
//! complementation. No affine, EA, CCZ, algebraic or circuit equivalence is
//! claimed.

use vstd::prelude::*;
use vstd::arithmetic::power2::pow2;
use crate::equivalence_screen::{
    ScreenedEquivalence, screen_exact_or_complement, is_screen_outcome, complement_related,
};
use crate::function::{BooleanFunction, same_key, valid_truth_table};
use crate::permutation::{
    is_permutation, lex_less, identity_permutation, next_permutation, lemma_lex_total,
    numeral_value, lemma_numeral_bound, lemma_lex_numeral, lemma_lex_asymmetric,
};
use vstd::arithmetic::power::pow;
use crate::spectral::lemma_rows_bound;

verus! {

/// Largest input width for exhaustive permutation screening (`8! = 40320` permutations).
pub const MAX_EXHAUSTIVE_PERMUTATION_BITS: u32 = 8;

/// The strongest relation the expanded screen demonstrated.
#[derive(Clone, Debug, PartialEq, Eq)]
pub enum PermutationScreenedEquivalence {
    Exact,
    OutputComplement,
    InputPermutation { permutation: Vec<u32> },
    InputPermutationWithOutputComplement { permutation: Vec<u32> },
}

/// A reference match and the relation that established it.
#[derive(Clone, Debug, PartialEq, Eq)]
pub struct PermutationEquivalenceMatch {
    pub reference_index: usize,
    pub relation: PermutationScreenedEquivalence,
}

/// Inputs on which exhaustive permutation screening is refused.
#[derive(Clone, Copy, Debug, PartialEq, Eq, Structural)]
pub enum PermutationScreenError {
    InputWidthTooLarge { width: u32, maximum: u32 },
}

/// The row read for `row` under `p`: its bit `p[t]` is set exactly when bit
/// `t` of `row` is, for the first `t` input positions.
pub open spec fn remapped_row(row: usize, p: Seq<u32>, t: nat) -> usize
    decreases t,
{
    if t == 0 {
        0
    } else {
        let previous = remapped_row(row, p, (t - 1) as nat);
        if row & (1usize << ((t - 1) as usize)) != 0 {
            previous | (1usize << (p[t - 1] as usize))
        } else {
            previous
        }
    }
}

proof fn lemma_or_other_bit(a: usize, b: usize, c: usize)
    by (bit_vector)
    requires
        b < 8,
        c < 8,
        b != c,
    ensures
        ((a | (1usize << b)) >> c) & 1 == (a >> c) & 1,
{
}

proof fn lemma_or_same_bit(a: usize, b: usize)
    by (bit_vector)
    requires
        b < 8,
    ensures
        ((a | (1usize << b)) >> b) & 1 == 1,
{
}

proof fn lemma_masked_bit(row: usize, t: usize)
    by (bit_vector)
    requires
        t < 8,
    ensures
        (row & (1usize << t) != 0) == ((row >> t) & 1 == 1),
        (row >> t) & 1 == 0 || (row >> t) & 1 == 1,
{
}

/// After the first `t` inputs of a permutation, bit `p[s]` of the row read
/// holds bit `s` of `row` for each `s < t`, and the other low bits are clear.
proof fn lemma_remapped_prefix(row: usize, p: Seq<u32>, t: nat)
    requires
        is_permutation(p, p.len()),
        p.len() <= 8,
        t <= p.len(),
    ensures
        forall|s: int| 0 <= s < t ==> (#[trigger] (remapped_row(row, p, t) >> (p[s] as usize)) & 1) == (row >> (
        s as usize)) & 1,
        forall|q: usize| q < 8 && !p.take(t as int).contains(q as u32) ==> (#[trigger] (remapped_row(row, p, t) >> q) & 1)
            == 0,
    decreases t,
{
    if t == 0 {
        assert forall|q: usize| q < 8 implies (#[trigger] (remapped_row(row, p, 0) >> q) & 1) == 0 by {
            assert((0usize >> q) & 1 == 0) by (bit_vector);
        }
    } else {
        let u = (t - 1) as nat;
        lemma_remapped_prefix(row, p, u);
        let previous = remapped_row(row, p, u);
        let b = p[u as int] as usize;
        lemma_masked_bit(row, u as usize);
        assert(!p.take(u as int).contains(p[u as int])) by {
            if p.take(u as int).contains(p[u as int]) {
                let k = choose|k: int| 0 <= k < u && p.take(u as int)[k] == p[u as int];
                assert(p[k] == p[u as int]);
            }
        }
        assert((previous >> b) & 1 == 0);
        assert forall|s: int| 0 <= s < t implies (#[trigger] (remapped_row(row, p, t) >> (p[s] as usize)) & 1) == (row >> (
        s as usize)) & 1 by {
            if s < u {
                assert(p[s] != p[u as int]);
                if row & (1usize << (u as usize)) != 0 {
                    lemma_or_other_bit(previous, b, p[s] as usize);
                }
            } else {
                if row & (1usize << (u as usize)) != 0 {
                    lemma_or_same_bit(previous, b);
                }
            }
        }
        assert forall|q: usize| q < 8 && !p.take(t as int).contains(q as u32) implies (#[trigger] (remapped_row(
            row,
            p,
            t,
        ) >> q) & 1) == 0 by {
            assert(p.take(t as int)[u as int] == p[u as int]);
            assert(q != b);
            assert(!p.take(u as int).contains(q as u32)) by {
                if p.take(u as int).contains(q as u32) {
                    let k = choose|k: int| 0 <= k < u && p.take(u as int)[k] == q as u32;
                    assert(p.take(t as int)[k] == q as u32);
                }
            }
            if row & (1usize << (u as usize)) != 0 {
                lemma_or_other_bit(previous, b, q);
            }
        }
    }
}

/// Under a permutation `p` of the inputs, the row read for `row` is `row`
/// with input `t` moved to position `p[t]`: its bit `p[t]` is bit `t` of
/// `row`, for every input `t`.
pub proof fn lemma_remapped_row_moves_bits(row: usize, p: Seq<u32>)
    requires
        is_permutation(p, p.len()),
        p.len() <= 8,
    ensures
        forall|t: int| 0 <= t < p.len() ==> (#[trigger] (remapped_row(row, p, p.len()) >> (p[t] as usize)) & 1) == (row
            >> (t as usize)) & 1,
{
    lemma_remapped_prefix(row, p, p.len());
}

/// `c(x) = k(x permuted by p)`, complemented when `complement` holds, for every row.
pub open spec fn relates_under(c: BooleanFunction, k: BooleanFunction, p: Seq<u32>, complement: bool) -> bool {
    &&& k.input_width() == c.input_width()
    &&& forall|x: int|
        0 <= x < c.table().len() ==> #[trigger] c.table()[x] == if complement {
            k.table()[remapped_row(x as usize, p, p.len()) as int] ^ 1u8
        } else {
            k.table()[remapped_row(x as usize, p, p.len()) as int]
        }
}

/// No reference relates to `c` under `p`, with or without complement.
pub open spec fn no_reference_under(c: BooleanFunction, refs: Seq<BooleanFunction>, p: Seq<u32>) -> bool {
    forall|j: int|
        0 <= j < refs.len() ==> !#[trigger] relates_under(c, refs[j], p, false) && !relates_under(c, refs[j], p, true)
}

/// No permutation strictly between the identity and `p` relates any reference to `c`.
pub open spec fn none_before(c: BooleanFunction, refs: Seq<BooleanFunction>, p: Seq<u32>) -> bool {
    let n = c.input_width();
    forall|q: Seq<u32>|
        is_permutation(q, n) && lex_less(identity_permutation(n), q) && #[trigger] lex_less(q, p)
            ==> no_reference_under(c, refs, q)
}

/// `found` is the outcome of the expanded screen of `c` against `refs`.
pub open spec fn is_permutation_outcome(
    c: BooleanFunction,
    refs: Seq<BooleanFunction>,
    found: Option<PermutationEquivalenceMatch>,
) -> bool {
    let n = c.input_width();
    if !first_stage_misses(c, refs) {
        match found {
            Some(m) => match m.relation {
                PermutationScreenedEquivalence::Exact => is_screen_outcome(c, refs, Some(crate::equivalence_screen::EquivalenceMatch {
                    reference_index: m.reference_index,
                    relation: ScreenedEquivalence::Exact,
                })),
                PermutationScreenedEquivalence::OutputComplement => is_screen_outcome(c, refs, Some(crate::equivalence_screen::EquivalenceMatch {
                    reference_index: m.reference_index,
                    relation: ScreenedEquivalence::OutputComplement,
                })),
                _ => false,
            },
            None => false,
        }
    } else {
        match found {
            None => forall|q: Seq<u32>|
                is_permutation(q, n) && #[trigger] lex_less(identity_permutation(n), q) ==> no_reference_under(c, refs, q),
            Some(m) => {
                let i = m.reference_index as int;
                match m.relation {
                    PermutationScreenedEquivalence::InputPermutation { permutation } => {
                        let p = permutation@;
                        &&& 0 <= i < refs.len()
                        &&& is_permutation(p, n)
                        &&& lex_less(identity_permutation(n), p)
                        &&& relates_under(c, refs[i], p, false)
                        &&& none_before(c, refs, p)
                        &&& forall|j: int| 0 <= j < i ==> !#[trigger] relates_under(c, refs[j], p, false) && !relates_under(c, refs[j], p, true)
                    },
                    PermutationScreenedEquivalence::InputPermutationWithOutputComplement { permutation } => {
                        let p = permutation@;
                        &&& 0 <= i < refs.len()
                        &&& is_permutation(p, n)
                        &&& lex_less(identity_permutation(n), p)
                        &&& relates_under(c, refs[i], p, true)
                        &&& !relates_under(c, refs[i], p, false)
                        &&& none_before(c, refs, p)
                        &&& forall|j: int| 0 <= j < i ==> !#[trigger] relates_under(c, refs[j], p, false) && !relates_under(c, refs[j], p, true)
                    },
                    _ => false,
                }
            },
        }
    }
}

/// No reference equals `c` or its output complement.
pub open spec fn first_stage_misses(c: BooleanFunction, refs: Seq<BooleanFunction>) -> bool {
    !exists|j: int| 0 <= j < refs.len() && (same_key(refs[j], c) || complement_related(refs[j], c))
}

/// The row read for `row` when input `t` is renamed to `permutation[t]`.
pub fn remap_row(row: usize, permutation: &[u32]) -> (remapped: usize)
    requires
        permutation@.len() <= 8,
        forall|t: int| 0 <= t < permutation@.len() ==> #[trigger] permutation@[t] < permutation@.len(),
    ensures
        remapped == remapped_row(row, permutation@, permutation@.len()),
        remapped < pow2(permutation@.len()),
{
    let n = permutation.len();
    let mut remapped: usize = 0;
    let mut t: usize = 0;
    proof {
        vstd::arithmetic::power2::lemma2_to64();
    }
    assert(0usize < (1usize << n)) by (bit_vector)
        requires
            n <= 8,
    ;
    while t < n
        invariant
            n == permutation@.len(),
            n <= 8,
            forall|s: int| 0 <= s < n ==> #[trigger] permutation@[s] < n,
            t <= n,
            remapped == remapped_row(row, permutation@, t as nat),
            remapped < (1usize << n),
        decreases n - t,
    {
        let source = permutation[t] as usize;
        if row & (1usize << t) != 0 {
            let before = remapped;
            assert((before | (1usize << source)) < (1usize << n)) by (bit_vector)
                requires
                    before < (1usize << n),
                    source < n,
                    n <= 8,
            ;
            remapped = remapped | (1usize << source);
        }
        t += 1;
    }
    proof {
        vstd::bits::lemma_usize_shl_is_mul(1, n);
        vstd::arithmetic::power2::lemma2_to64();
    }
    remapped
}

/// Whether `candidate(x) = known(x permuted)`, complemented if asked, on every row.
pub fn matches_under_permutation(
    candidate: &BooleanFunction,
    known: &BooleanFunction,
    permutation: &[u32],
    complement_output: bool,
) -> (matched: bool)
    requires
        candidate.input_width() == known.input_width(),
        permutation@.len() == candidate.input_width(),
        candidate.input_width() <= 8,
        forall|t: int| 0 <= t < permutation@.len() ==> #[trigger] permutation@[t] < permutation@.len(),
    ensures
        matched == relates_under(*candidate, *known, permutation@, complement_output),
{
    let table = candidate.truth_table();
    let known_table = known.truth_table();
    let mut row: usize = 0;
    while row < table.len()
        invariant
            table@ == candidate.table(),
            known_table@ == known.table(),
            valid_truth_table(candidate.input_width(), candidate.table()),
            valid_truth_table(known.input_width(), known.table()),
            candidate.input_width() == known.input_width(),
            permutation@.len() == candidate.input_width(),
            candidate.input_width() <= 8,
            forall|t: int| 0 <= t < permutation@.len() ==> #[trigger] permutation@[t] < permutation@.len(),
            row <= table@.len(),
            forall|x: int| 0 <= x < row ==> #[trigger] table@[x] == if complement_output {
                known_table@[remapped_row(x as usize, permutation@, permutation@.len()) as int] ^ 1u8
            } else {
                known_table@[remapped_row(x as usize, permutation@, permutation@.len()) as int]
            },
        decreases table@.len() - row,
    {
        let source_row = remap_row(row, permutation);
        let mut known_value = known_table[source_row];
        if complement_output {
            known_value = known_value ^ 1;
        }
        if known_value != table[row] {
            return false;
        }
        row += 1;
    }
    true
}

/// A copy of a permutation.
fn copy_permutation(p: &[u32]) -> (copy: Vec<u32>)
    ensures
        copy@ == p@,
{
    let mut copy: Vec<u32> = Vec::new();
    let mut i: usize = 0;
    while i < p.len()
        invariant
            i <= p@.len(),
            copy@ == p@.take(i as int),
        decreases p@.len() - i,
    {
        copy.push(p[i]);
        proof {
            assert(p@.take(i + 1) =~= p@.take(i as int).push(p@[i as int]));
        }
        i += 1;
    }
    proof {
        assert(p@.take(i as int) =~= p@);
    }
    copy
}

/// Screens one function under exact, complement and bounded input-permutation
/// equivalence. Exact and complement matches keep precedence; then every
/// non-identity permutation is tried in lexicographic order, and for each the
/// references in order, plain before complemented. References of another
/// width are skipped. `Ok(None)` is no evidence of novelty.
///
/// # Errors
///
/// [`PermutationScreenError::InputWidthTooLarge`] above
/// [`MAX_EXHAUSTIVE_PERMUTATION_BITS`] inputs.
pub fn screen_with_input_permutations(candidate: &BooleanFunction, reference: &[BooleanFunction]) -> (result: Result<
    Option<PermutationEquivalenceMatch>,
    PermutationScreenError,
>)
    ensures
        candidate.input_width() > MAX_EXHAUSTIVE_PERMUTATION_BITS ==> result == Err::<
            Option<PermutationEquivalenceMatch>,
            PermutationScreenError,
        >(
            PermutationScreenError::InputWidthTooLarge {
                width: candidate.input_width() as u32,
                maximum: MAX_EXHAUSTIVE_PERMUTATION_BITS,
            },
        ),
        candidate.input_width() <= MAX_EXHAUSTIVE_PERMUTATION_BITS ==> (result matches Ok(found)
            && is_permutation_outcome(*candidate, reference@, found)),
{
    let width = candidate.input_bits();
    if width > MAX_EXHAUSTIVE_PERMUTATION_BITS {
        return Err(
            PermutationScreenError::InputWidthTooLarge { width, maximum: MAX_EXHAUSTIVE_PERMUTATION_BITS },
        );
    }
    let ghost refs = reference@;
    let ghost c = *candidate;
    let ghost n = width as nat;
    match screen_exact_or_complement(candidate, reference) {
        Some(first_stage) => {
            let relation = match first_stage.relation {
                ScreenedEquivalence::Exact => PermutationScreenedEquivalence::Exact,
                ScreenedEquivalence::OutputComplement => PermutationScreenedEquivalence::OutputComplement,
            };
            let found = PermutationEquivalenceMatch { reference_index: first_stage.reference_index, relation };
            proof {
                let i = first_stage.reference_index as int;
                if first_stage.relation == ScreenedEquivalence::Exact {
                    assert(same_key(refs[i], c));
                } else {
                    assert(complement_related(refs[i], c));
                }
            }
            return Ok(Some(found));
        },
        None => {},
    }
    let mut permutation: Vec<u32> = Vec::new();
    let mut i: u32 = 0;
    while i < width
        invariant
            i <= width,
            permutation@ == identity_permutation(i as nat),
        decreases width - i,
    {
        permutation.push(i);
        proof {
            assert(permutation@ =~= identity_permutation((i + 1) as nat));
        }
        i += 1;
    }
    proof {
        assert(is_permutation(permutation@, n));
        assert forall|q: Seq<u32>|
            is_permutation(q, n) && lex_less(identity_permutation(n), q) && #[trigger] lex_less(q, permutation@) implies no_reference_under(c, refs, q) by {
            crate::permutation::lemma_lex_asymmetric(identity_permutation(n), q);
        }
    }
    if width == 0 {
        proof {
            assert forall|q: Seq<u32>| is_permutation(q, n) && #[trigger] lex_less(identity_permutation(n), q) implies no_reference_under(c, refs, q) by {
                assert(identity_permutation(n).len() == 0);
            }
        }
        return Ok(None);
    }
    loop
        invariant
            refs == reference@,
            c == *candidate,
            n == candidate.input_width(),
            width == n,
            1 <= width <= MAX_EXHAUSTIVE_PERMUTATION_BITS,
            first_stage_misses(c, refs),
            is_permutation(permutation@, n),
            permutation@ == identity_permutation(n) || lex_less(identity_permutation(n), permutation@),
            forall|q: Seq<u32>|
                is_permutation(q, n) && lex_less(identity_permutation(n), q) && !#[trigger] lex_less(permutation@, q) && q != permutation@
                    ==> no_reference_under(c, refs, q),
            permutation@ != identity_permutation(n) ==> no_reference_under(c, refs, permutation@),
        ensures
            forall|q: Seq<u32>|
                is_permutation(q, n) && #[trigger] lex_less(identity_permutation(n), q) ==> no_reference_under(c, refs, q),
        decreases pow(n as int, n) - numeral_value(permutation@, n),
    {
        let ghost previous = permutation@;
        let advanced = next_permutation(permutation.as_mut_slice());
        if !advanced {
            proof {
                assert forall|q: Seq<u32>| is_permutation(q, n) && #[trigger] lex_less(identity_permutation(n), q) implies no_reference_under(c, refs, q) by {
                    assert(!lex_less(previous, q));
                }
            }
            break;
        }
        let ghost current = permutation@;
        proof {
            if previous != identity_permutation(n) {
                crate::permutation::lemma_lex_transitive(identity_permutation(n), previous, current);
            }
            assert(none_before(c, refs, current)) by {
                assert forall|q: Seq<u32>|
                    is_permutation(q, n) && lex_less(identity_permutation(n), q) && #[trigger] lex_less(q, current) implies no_reference_under(c, refs, q) by {
                    // `next_permutation` leaves no permutation strictly between `previous` and `current`.
                    assert(!lex_less(previous, q) || !lex_less(q, current));
                }
            }
        }
        let mut j: usize = 0;
        while j < reference.len()
            invariant
                refs == reference@,
                c == *candidate,
                n == candidate.input_width(),
                width == n,
                1 <= width <= MAX_EXHAUSTIVE_PERMUTATION_BITS,
                first_stage_misses(c, refs),
                current == permutation@,
                is_permutation(current, n),
                lex_less(identity_permutation(n), current),
                none_before(c, refs, current),
                j <= refs.len(),
                forall|l: int| 0 <= l < j ==> !#[trigger] relates_under(c, refs[l], current, false) && !relates_under(c, refs[l], current, true),
            decreases refs.len() - j,
        {
            let known = &reference[j];
            if known.input_bits() == width {
                if matches_under_permutation(candidate, known, permutation.as_slice(), false) {
                    let found = PermutationEquivalenceMatch {
                        reference_index: j,
                        relation: PermutationScreenedEquivalence::InputPermutation {
                            permutation: copy_permutation(permutation.as_slice()),
                        },
                    };
                    proof {
                        assert(is_permutation_outcome(c, refs, Some(found)));
                    }
                    return Ok(Some(found));
                }
                if matches_under_permutation(candidate, known, permutation.as_slice(), true) {
                    let found = PermutationEquivalenceMatch {
                        reference_index: j,
                        relation: PermutationScreenedEquivalence::InputPermutationWithOutputComplement {
                            permutation: copy_permutation(permutation.as_slice()),
                        },
                    };
                    proof {
                        assert(is_permutation_outcome(c, refs, Some(found)));
                    }
                    return Ok(Some(found));
                }
            }
            assert(!relates_under(c, refs[j as int], current, false));
            assert(!relates_under(c, refs[j as int], current, true));
            j += 1;
        }
        proof {
            lemma_numeral_bound(current, n);
            lemma_lex_numeral(previous, current, n);
            assert forall|q: Seq<u32>|
                is_permutation(q, n) && lex_less(identity_permutation(n), q) && !#[trigger] lex_less(current, q) && q != current
                    implies no_reference_under(c, refs, q) by {
                lemma_lex_total(q, current);
            }
        }
    }
    Ok(None)
}

} // verus!
