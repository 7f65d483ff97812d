//! Invariance of the exact screening invariants under affine input changes.
//!
//! A permutation of the input variables permutes the rows of a truth table,
//! the Walsh coefficients and the algebraic-normal-form monomials; a
//! translation `x -> x XOR b` permutes the rows and changes only the signs of
//! the Walsh coefficients; an elementary change `x_i <- x_i XOR x_j` permutes
//! the rows and the Walsh coefficients and mixes each monomial with monomials
//! of no smaller weight. Gaussian elimination writes every invertible linear
//! map as a product of elementary changes. Weight, algebraic degree and the
//! sorted absolute Walsh spectrum are therefore unchanged by
//! `g(x) = f(Ax + b) XOR c`, and so is the affine-invariant signature.

use vstd::prelude::*;
use vstd::arithmetic::power2::{pow2, lemma_pow2_pos, lemma_pow2_unfold, lemma2_to64};
use crate::bitwise::{
    bit, shr, sum, dot_parity, bits_subset, bit_weight, lemma_sum_split, lemma_sum_ext, lemma_shr_is_div,
};
use crate::input_permutation_screen::{remapped_row, relates_under};
use crate::permutation::{is_permutation, lemma_permutation_covers};
use crate::spectral::{
    algebraic_degree, anf_coefficient, anf_degree_upto, ones_upto, pm, table_bit, walsh_coefficient,
};
use crate::equivalence_screen::{
    AffineInvariantScreen, is_affine_screen, complement_related, lemma_complement_related_same_signature,
    abs_walsh_spectrum, signature_of, lemma_sum_add, lemma_degree_complement, lemma_walsh_complement, lemma_ones_complement,
};
use crate::function::{BooleanFunction, complement_table, valid_truth_table};
use crate::baseline::abs_int;
use crate::sorting::{u64_leq, lemma_u64_leq_total};

verus! {

broadcast use vstd::seq_lib::group_to_multiset_ensures, vstd::multiset::group_multiset_axioms;

/// `f` maps `0..m` onto `0..m` with inverse `g`.
pub open spec fn is_bijection(f: spec_fn(int) -> int, g: spec_fn(int) -> int, m: int) -> bool {
    &&& forall|i: int| 0 <= i < m ==> 0 <= #[trigger] f(i) < m && g(f(i)) == i
    &&& forall|j: int| 0 <= j < m ==> 0 <= #[trigger] g(j) < m && f(g(j)) == j
}

/// `f` with the point `k` taken out of its domain and `m - 1` out of its range.
pub open spec fn drop_point(f: spec_fn(int) -> int, k: int) -> spec_fn(int) -> int {
    |i: int| if i < k { f(i) } else { f(i + 1) }
}

/// The inverse of [`drop_point`].
pub open spec fn drop_point_inverse(g: spec_fn(int) -> int, k: int) -> spec_fn(int) -> int {
    |j: int| if g(j) < k { g(j) } else { g(j) - 1 }
}

proof fn lemma_drop_point(f: spec_fn(int) -> int, g: spec_fn(int) -> int, m: int)
    requires
        m > 0,
        is_bijection(f, g, m),
    ensures
        is_bijection(drop_point(f, g(m - 1)), drop_point_inverse(g, g(m - 1)), m - 1),
{
    let k = g(m - 1);
    let f2 = drop_point(f, k);
    let g2 = drop_point_inverse(g, k);
    assert forall|i: int| 0 <= i < m - 1 implies 0 <= #[trigger] f2(i) < m - 1 && g2(f2(i)) == i by {
        let x = if i < k { i } else { i + 1 };
        assert(f2(i) == f(x));
        assert(x != k);
        assert(f(x) != m - 1);
    }
    assert forall|j: int| 0 <= j < m - 1 implies 0 <= #[trigger] g2(j) < m - 1 && f2(g2(j)) == j by {
        assert(g(j) != k);
    }
}

/// Summing over a bijection of `0..m` reorders the terms only.
pub proof fn lemma_sum_bijection(h: spec_fn(int) -> int, f: spec_fn(int) -> int, g: spec_fn(int) -> int, m: nat)
    requires
        is_bijection(f, g, m as int),
    ensures
        sum(|i: int| h(f(i)), m) == sum(h, m),
    decreases m,
{
    if m > 0 {
        let k = g(m - 1);
        let f2 = drop_point(f, k);
        lemma_drop_point(f, g, m as int);
        lemma_sum_bijection(h, f2, drop_point_inverse(g, k), (m - 1) as nat);
        let hf = |i: int| h(f(i));
        let hf2 = |i: int| h(f2(i));
        let kk = k as nat;
        lemma_sum_split(hf, kk, (m - kk) as nat);
        lemma_sum_split(hf2, kk, (m - 1 - kk) as nat);
        lemma_sum_split(|i: int| hf(kk + i), 1, (m - kk - 1) as nat);
        lemma_sum_ext(hf, hf2, kk);
        lemma_sum_ext(
            |i: int| (|i: int| hf(kk + i))(1 + i),
            |i: int| hf2(kk + i),
            (m - kk - 1) as nat,
        );
        let g1 = |i: int| hf(kk + i);
        assert(sum(g1, 0) == 0);
        assert(sum(g1, 1) == hf(kk as int));
        assert((kk + (m - kk)) as nat == m);
        assert((kk + (m - 1 - kk)) as nat == (m - 1) as nat);
        assert((1 + (m - kk - 1)) as nat == (m - kk) as nat);
    }
}

/// Reordering a sequence by a bijection of its indices keeps its multiset.
pub proof fn lemma_multiset_bijection(s: Seq<u64>, f: spec_fn(int) -> int, g: spec_fn(int) -> int)
    requires
        is_bijection(f, g, s.len() as int),
    ensures
        Seq::new(s.len(), |i: int| s[f(i)]).to_multiset() == s.to_multiset(),
    decreases s.len(),
{
    let m = s.len() as int;
    let t = Seq::new(s.len(), |i: int| s[f(i)]);
    if m > 0 {
        let k = g(m - 1);
        let f2 = drop_point(f, k);
        let d = s.drop_last();
        lemma_drop_point(f, g, m);
        lemma_multiset_bijection(d, f2, drop_point_inverse(g, k));
        let t2 = Seq::new(d.len(), |i: int| d[f2(i)]);
        assert(t.remove(k) =~= t2) by {
            assert forall|i: int| 0 <= i < m - 1 implies t.remove(k)[i] == t2[i] by {
                if i < k {
                    assert(f(i) != m - 1);
                } else {
                    assert(f(i + 1) != m - 1);
                }
            }
        }
        assert(t[k] == s[m - 1]);
        assert(s =~= d.push(s[m - 1]));
        let v = s[m - 1];
        assert(t.contains(v));
        assert(t.to_multiset().count(v) > 0);
        assert(t.to_multiset() =~= t.to_multiset().remove(v).insert(v));
    } else {
        assert(t =~= s);
    }
}

/// Bit `j` of a `usize`, read with machine shifts.
proof fn lemma_bit_usize(x: usize, j: usize)
    requires
        j < 32,
    ensures
        bit(x as int, j as nat) == ((x >> j) & 1 == 1),
{
    vstd::bits::lemma_usize_shr_is_div(x, j);
    lemma_shr_is_div(x as int, j as nat);
    let y = x >> j;
    assert((y & 1 == 1) == (y % 2 == 1)) by (bit_vector);
}

/// Setting bit `m` of `a` changes bit `m` alone.
proof fn lemma_bit_or(a: usize, m: usize, j: usize)
    requires
        m < 32,
        j < 32,
    ensures
        bit((a | (1usize << m)) as int, j as nat) == (bit(a as int, j as nat) || j == m),
{
    lemma_bit_usize(a | (1usize << m), j);
    lemma_bit_usize(a, j);
    assert((((a | (1usize << m)) >> j) & 1 == 1) == (((a >> j) & 1 == 1) || j == m)) by (bit_vector)
        requires
            m < 32,
            j < 32,
    ;
}

/// The machine test of bit `t` of `row`.
proof fn lemma_bit_test(row: usize, t: usize)
    requires
        t < 32,
    ensures
        ((row & (1usize << t)) != 0) == bit(row as int, t as nat),
{
    lemma_bit_usize(row, t);
    assert(((row & (1usize << t)) != 0) == ((row >> t) & 1 == 1)) by (bit_vector)
        requires
            t < 32,
    ;
}

/// Bit `j + 1` of `a` is bit `j` of `a / 2`.
proof fn lemma_bit_half(a: int, j: nat)
    ensures
        bit(a, j + 1) == bit(a / 2, j),
{
    assert(shr(a, j + 1) == shr(a / 2, j));
}

/// Two values below `2^n` with the same low `n` bits are equal.
pub proof fn lemma_bits_determine(a: int, b: int, n: nat)
    requires
        0 <= a < pow2(n),
        0 <= b < pow2(n),
        forall|j: nat| j < n ==> #[trigger] bit(a, j) == bit(b, j),
    ensures
        a == b,
    decreases n,
{
    if n == 0 {
        lemma2_to64();
    } else {
        lemma_pow2_unfold(n);
        lemma_pow2_pos((n - 1) as nat);
        assert forall|j: nat| j < (n - 1) as nat implies #[trigger] bit(a / 2, j) == bit(b / 2, j) by {
            lemma_bit_half(a, j);
            lemma_bit_half(b, j);
            assert(bit(a, j + 1) == bit(b, j + 1));
        }
        lemma_bits_determine(a / 2, b / 2, (n - 1) as nat);
        assert(bit(a, 0) == bit(b, 0));
        assert(shr(a, 0) == a);
        assert(shr(b, 0) == b);
    }
}

/// The bits of the row read under `p` after its first `t` inputs.
proof fn lemma_remapped_bits(row: usize, p: Seq<u32>, t: nat)
    requires
        t <= p.len(),
        p.len() <= 32,
        forall|s: int| 0 <= s < p.len() ==> #[trigger] p[s] < 32,
        forall|s: int, r: int| 0 <= s < r < p.len() ==> #[trigger] p[s] != #[trigger] p[r],
    ensures
        forall|s: int| 0 <= s < p.len() ==> #[trigger] bit(remapped_row(row, p, t) as int, p[s] as nat) == (s < t
            && bit(row as int, s as nat)),
        forall|j: nat| j < 32 && (forall|s: int| 0 <= s < t ==> p[s] != j) ==> !#[trigger] bit(
            remapped_row(row, p, t) as int,
            j,
        ),
    decreases t,
{
    if t == 0 {
        assert forall|j: nat| true implies !#[trigger] bit(0int, j) by {
            lemma_shr_is_div(0, j);
            lemma_pow2_pos(j);
        }
    } else {
        let u = (t - 1) as nat;
        lemma_remapped_bits(row, p, u);
        let prev = remapped_row(row, p, u);
        let m = p[u as int] as usize;
        lemma_bit_test(row, u as usize);
        assert forall|s: int| 0 <= s < p.len() implies #[trigger] bit(remapped_row(row, p, t) as int, p[s] as nat)
            == (s < t && bit(row as int, s as nat)) by {
            lemma_bit_or(prev, m, p[s] as usize);
            if s != u {
                assert(p[s] != p[u as int]) by {
                    if s < u {
                    } else {
                        assert(p[u as int] != p[s]);
                    }
                }
            }
        }
        assert forall|j: nat| j < 32 && (forall|s: int| 0 <= s < t ==> p[s] != j) implies !#[trigger] bit(
            remapped_row(row, p, t) as int,
            j,
        ) by {
            lemma_bit_or(prev, m, j as usize);
            assert(p[u as int] != j);
        }
    }
}

/// The row read under `p` stays below `2^n` when `p` names inputs below `n`.
proof fn lemma_remapped_bound(row: usize, p: Seq<u32>, t: nat, n: nat)
    requires
        t <= p.len(),
        n <= 20,
        forall|s: int| 0 <= s < p.len() ==> #[trigger] p[s] < n,
    ensures
        remapped_row(row, p, t) < pow2(n),
    decreases t,
{
    let nn = n as usize;
    lemma_pow2_small(n);
    vstd::bits::lemma_usize_shl_is_mul(1, nn);
    if t == 0 {
        lemma_pow2_pos(n);
    } else {
        let u = (t - 1) as nat;
        lemma_remapped_bound(row, p, u, n);
        let prev = remapped_row(row, p, u);
        let m = p[u as int] as usize;
        assert((prev | (1usize << m)) < (1usize << nn)) by (bit_vector)
            requires
                prev < (1usize << nn),
                m < nn,
                nn <= 20,
        ;
    }
}

/// `2^n` is at most `2^20` for `n <= 20`.
proof fn lemma_pow2_small(n: nat)
    requires
        n <= 20,
    ensures
        0 < pow2(n) <= 0x100000,
{
    lemma2_to64();
    if n < 20 {
        vstd::arithmetic::power2::lemma_pow2_strictly_increases(n, 20);
    }
}

/// The inverse of a permutation of `0..n`.
pub open spec fn inverse_permutation(p: Seq<u32>, n: nat) -> Seq<u32> {
    Seq::new(n, |j: int| (choose|s: int| 0 <= s < n && p[s] == j) as u32)
}

proof fn lemma_inverse_permutation(p: Seq<u32>, n: nat)
    requires
        is_permutation(p, n),
        n <= 20,
    ensures
        is_permutation(inverse_permutation(p, n), n),
        forall|s: int| 0 <= s < n ==> #[trigger] inverse_permutation(p, n)[p[s] as int] == s,
        forall|j: int| 0 <= j < n ==> #[trigger] p[inverse_permutation(p, n)[j] as int] == j,
{
    let q = inverse_permutation(p, n);
    assert forall|j: int| 0 <= j < n implies #[trigger] p[q[j] as int] == j && q[j] < n by {
        lemma_permutation_covers(p, n, j);
        let s = choose|s: int| 0 <= s < n && p[s] == j;
        assert(q[j] == s as u32);
    }
    assert forall|s: int| 0 <= s < n implies #[trigger] q[p[s] as int] == s by {
        let j = p[s] as int;
        assert(p[q[j] as int] == j);
        if q[j] as int != s {
            if (q[j] as int) < s {
                assert(p[q[j] as int] != p[s]);
            } else {
                assert(p[s] != p[q[j] as int]);
            }
        }
    }
    assert forall|i: int| 0 <= i < q.len() implies #[trigger] q[i] < n by {
        assert(p[q[i] as int] == i);
    }
    assert forall|i: int, j: int| 0 <= i < j < q.len() implies #[trigger] q[i] != #[trigger] q[j] by {
        assert(p[q[i] as int] == i);
        assert(p[q[j] as int] == j);
    }
}

/// Row `x` read under the permutation `p` of `0..n`, as an integer.
pub open spec fn permuted_row(p: Seq<u32>, n: nat) -> spec_fn(int) -> int {
    |x: int| remapped_row(x as usize, p, n) as int
}

/// The bits of a row read under a permutation: input `s` lands on `p[s]`.
proof fn lemma_permuted_row(p: Seq<u32>, n: nat, x: int)
    requires
        is_permutation(p, n),
        n <= 20,
        0 <= x < pow2(n),
    ensures
        0 <= permuted_row(p, n)(x) < pow2(n),
        forall|s: int| 0 <= s < n ==> #[trigger] bit(permuted_row(p, n)(x), p[s] as nat) == bit(x, s as nat),
{
    lemma_pow2_small(n);
    lemma_remapped_bound(x as usize, p, n, n);
    lemma_remapped_bits(x as usize, p, n);
    assert((x as usize) as int == x);
}

/// Reading rows under a permutation of the inputs is a bijection of `0..2^n`,
/// undone by the inverse permutation.
pub proof fn lemma_permuted_row_bijection(p: Seq<u32>, n: nat)
    requires
        is_permutation(p, n),
        n <= 20,
    ensures
        is_bijection(permuted_row(p, n), permuted_row(inverse_permutation(p, n), n), pow2(n) as int),
{
    let q = inverse_permutation(p, n);
    lemma_inverse_permutation(p, n);
    let f = permuted_row(p, n);
    let g = permuted_row(q, n);
    assert forall|x: int| 0 <= x < pow2(n) implies 0 <= #[trigger] f(x) < pow2(n) && g(f(x)) == x by {
        lemma_permuted_row(p, n, x);
        lemma_permuted_row(q, n, f(x));
        assert forall|j: nat| j < n implies #[trigger] bit(g(f(x)), j) == bit(x, j) by {
            let r = p[j as int] as int;
            assert(q[r] == j);
            assert(bit(g(f(x)), q[r] as nat) == bit(f(x), r as nat));
            assert(bit(f(x), p[j as int] as nat) == bit(x, j));
        }
        lemma_bits_determine(g(f(x)), x, n);
    }
    assert forall|y: int| 0 <= y < pow2(n) implies 0 <= #[trigger] g(y) < pow2(n) && f(g(y)) == y by {
        lemma_permuted_row(q, n, y);
        lemma_permuted_row(p, n, g(y));
        assert forall|j: nat| j < n implies #[trigger] bit(f(g(y)), j) == bit(y, j) by {
            let r = q[j as int] as int;
            assert(p[r] == j);
            assert(bit(f(g(y)), p[r] as nat) == bit(g(y), r as nat));
            assert(bit(g(y), q[j as int] as nat) == bit(y, j));
        }
        lemma_bits_determine(f(g(y)), y, n);
    }
}

/// `1` when `b` holds, else `0`.
pub open spec fn ind(b: bool) -> int {
    if b {
        1
    } else {
        0
    }
}

/// The GF(2) inner product is the parity of the common set bits.
proof fn lemma_dot_parity_sum(a: int, x: int, k: nat)
    ensures
        dot_parity(a, x, k) == (sum(|t: int| ind(bit(a, t as nat) && bit(x, t as nat)), k) % 2 == 1),
    decreases k,
{
    if k > 0 {
        lemma_dot_parity_sum(a, x, (k - 1) as nat);
    }
}

/// Subset of bits, position by position.
proof fn lemma_bits_subset_forall(x: int, u: int, k: nat)
    ensures
        bits_subset(x, u, k) == forall|t: nat| t < k ==> (#[trigger] bit(x, t) ==> bit(u, t)),
    decreases k,
{
    if k > 0 {
        lemma_bits_subset_forall(x, u, (k - 1) as nat);
        if !bits_subset(x, u, k) {
            if bits_subset(x, u, (k - 1) as nat) {
                assert(bit(x, (k - 1) as nat) && !bit(u, (k - 1) as nat));
            } else {
                let t = choose|t: nat| t < (k - 1) as nat && !(bit(x, t) ==> bit(u, t));
                assert(t < k && !(bit(x, t) ==> bit(u, t)));
            }
        }
    }
}

/// The Hamming weight as a sum over positions.
proof fn lemma_bit_weight_sum(u: int, k: nat)
    ensures
        bit_weight(u, k) == sum(|t: int| ind(bit(u, t as nat)), k),
    decreases k,
{
    if k > 0 {
        lemma_bit_weight_sum(u, (k - 1) as nat);
    }
}

/// The positions `0..n` in the order a permutation names them.
pub open spec fn position_map(p: Seq<u32>) -> spec_fn(int) -> int {
    |s: int| p[s] as int
}

proof fn lemma_position_bijection(p: Seq<u32>, n: nat)
    requires
        is_permutation(p, n),
        n <= 20,
    ensures
        is_bijection(position_map(p), position_map(inverse_permutation(p, n)), n as int),
{
    lemma_inverse_permutation(p, n);
}

/// Permuting the inputs keeps inner products, bit subsets and weights.
pub proof fn lemma_permuted_row_positions(p: Seq<u32>, n: nat, a: int, x: int)
    requires
        is_permutation(p, n),
        n <= 20,
        0 <= a < pow2(n),
        0 <= x < pow2(n),
    ensures
        dot_parity(permuted_row(p, n)(a), permuted_row(p, n)(x), n) == dot_parity(a, x, n),
        bits_subset(permuted_row(p, n)(x), permuted_row(p, n)(a), n) == bits_subset(x, a, n),
        bit_weight(permuted_row(p, n)(a), n) == bit_weight(a, n),
{
    let f = permuted_row(p, n);
    let fa = f(a);
    let fx = f(x);
    lemma_permuted_row(p, n, a);
    lemma_permuted_row(p, n, x);
    lemma_position_bijection(p, n);
    let q = inverse_permutation(p, n);
    lemma_inverse_permutation(p, n);
    let pm_ = position_map(p);
    let hd = |j: int| ind(bit(fa, j as nat) && bit(fx, j as nat));
    lemma_sum_bijection(hd, pm_, position_map(q), n);
    lemma_sum_ext(|s: int| hd(pm_(s)), |t: int| ind(bit(a, t as nat) && bit(x, t as nat)), n);
    lemma_dot_parity_sum(fa, fx, n);
    lemma_dot_parity_sum(a, x, n);
    let hw = |j: int| ind(bit(fa, j as nat));
    lemma_sum_bijection(hw, pm_, position_map(q), n);
    lemma_sum_ext(|s: int| hw(pm_(s)), |t: int| ind(bit(a, t as nat)), n);
    lemma_bit_weight_sum(fa, n);
    lemma_bit_weight_sum(a, n);
    lemma_bits_subset_forall(fx, fa, n);
    lemma_bits_subset_forall(x, a, n);
    if bits_subset(x, a, n) {
        assert forall|j: nat| j < n implies (#[trigger] bit(fx, j) ==> bit(fa, j)) by {
            let s = q[j as int] as int;
            assert(p[s] == j);
            assert(bit(x, s as nat) ==> bit(a, s as nat));
        }
    }
    if bits_subset(fx, fa, n) {
        assert forall|t: nat| t < n implies (#[trigger] bit(x, t) ==> bit(a, t)) by {
            assert(bit(fx, p[t as int] as nat) ==> bit(fa, p[t as int] as nat));
        }
    }
}

/// The truth table read with the inputs permuted by `p`: row `x` holds row
/// `permuted_row(p, n)(x)` of `t`.
pub open spec fn permuted_table(t: Seq<u8>, p: Seq<u32>, n: nat) -> Seq<u8> {
    Seq::new(pow2(n), |x: int| t[permuted_row(p, n)(x)])
}

/// The weight as a sum of row indicators.
proof fn lemma_ones_sum(t: Seq<u8>, m: nat)
    ensures
        ones_upto(t, m) == sum(|x: int| ind(table_bit(t, x)), m),
    decreases m,
{
    if m > 0 {
        lemma_ones_sum(t, (m - 1) as nat);
    }
}

/// Permuting the inputs keeps the weight.
pub proof fn lemma_permuted_weight(t: Seq<u8>, p: Seq<u32>, n: nat)
    requires
        is_permutation(p, n),
        n <= 20,
    ensures
        ones_upto(permuted_table(t, p, n), pow2(n)) == ones_upto(t, pow2(n)),
{
    let f = permuted_row(p, n);
    let pt = permuted_table(t, p, n);
    lemma_permuted_row_bijection(p, n);
    let h = |y: int| ind(table_bit(t, y));
    lemma_sum_bijection(h, f, permuted_row(inverse_permutation(p, n), n), pow2(n));
    lemma_sum_ext(|x: int| h(f(x)), |x: int| ind(table_bit(pt, x)), pow2(n));
    lemma_ones_sum(pt, pow2(n));
    lemma_ones_sum(t, pow2(n));
}

/// Permuting the inputs moves Walsh coefficient `a` to the permuted `a`.
pub proof fn lemma_permuted_walsh(t: Seq<u8>, p: Seq<u32>, n: nat, a: int)
    requires
        is_permutation(p, n),
        n <= 20,
        0 <= a < pow2(n),
    ensures
        walsh_coefficient(permuted_table(t, p, n), n, a) == walsh_coefficient(t, n, permuted_row(p, n)(a)),
{
    let f = permuted_row(p, n);
    let pt = permuted_table(t, p, n);
    let fa = f(a);
    lemma_permuted_row_bijection(p, n);
    let h = |y: int| pm(table_bit(t, y) != dot_parity(fa, y, n));
    lemma_sum_bijection(h, f, permuted_row(inverse_permutation(p, n), n), pow2(n));
    assert forall|x: int| 0 <= x < pow2(n) implies #[trigger] h(f(x)) == pm(table_bit(pt, x) != dot_parity(a, x, n)) by {
        lemma_permuted_row_positions(p, n, a, x);
    }
    lemma_sum_ext(|x: int| h(f(x)), |x: int| pm(table_bit(pt, x) != dot_parity(a, x, n)), pow2(n));
}

/// Permuting the inputs moves the monomial `u` to the permuted `u`.
pub proof fn lemma_permuted_anf(t: Seq<u8>, p: Seq<u32>, n: nat, u: int)
    requires
        is_permutation(p, n),
        n <= 20,
        0 <= u < pow2(n),
    ensures
        anf_coefficient(permuted_table(t, p, n), n, u) == anf_coefficient(t, n, permuted_row(p, n)(u)),
{
    let f = permuted_row(p, n);
    let pt = permuted_table(t, p, n);
    let fu = f(u);
    lemma_permuted_row_bijection(p, n);
    let h = |y: int| if bits_subset(y, fu, n) && table_bit(t, y) { 1int } else { 0int };
    lemma_sum_bijection(h, f, permuted_row(inverse_permutation(p, n), n), pow2(n));
    let hc = |x: int| if bits_subset(x, u, n) && table_bit(pt, x) { 1int } else { 0int };
    assert forall|x: int| 0 <= x < pow2(n) implies #[trigger] h(f(x)) == hc(x) by {
        lemma_permuted_row_positions(p, n, u, x);
    }
    lemma_sum_ext(|x: int| h(f(x)), hc, pow2(n));
}

/// The degree bounds the weight of every monomial present, and is the weight
/// of one of them unless it is zero.
proof fn lemma_degree_is_max(t: Seq<u8>, n: nat, m: nat)
    ensures
        forall|u: int| 0 <= u < m && #[trigger] anf_coefficient(t, n, u) ==> bit_weight(u, n) <= anf_degree_upto(t, n, m),
        anf_degree_upto(t, n, m) == 0 || exists|u: int|
            0 <= u < m && #[trigger] anf_coefficient(t, n, u) && bit_weight(u, n) == anf_degree_upto(t, n, m),
    decreases m,
{
    if m > 0 {
        lemma_degree_is_max(t, n, (m - 1) as nat);
        if anf_degree_upto(t, n, m) != anf_degree_upto(t, n, (m - 1) as nat) {
            assert(anf_coefficient(t, n, m - 1) && bit_weight((m - 1) as int, n) == anf_degree_upto(t, n, m));
        }
    }
}

/// Permuting the inputs keeps the algebraic degree.
pub proof fn lemma_permuted_degree(t: Seq<u8>, p: Seq<u32>, n: nat)
    requires
        is_permutation(p, n),
        n <= 20,
    ensures
        algebraic_degree(permuted_table(t, p, n), n) == algebraic_degree(t, n),
{
    let f = permuted_row(p, n);
    let g = permuted_row(inverse_permutation(p, n), n);
    let pt = permuted_table(t, p, n);
    let big = pow2(n);
    lemma_permuted_row_bijection(p, n);
    lemma_degree_is_max(pt, n, big);
    lemma_degree_is_max(t, n, big);
    let dc = algebraic_degree(pt, n);
    let dk = algebraic_degree(t, n);
    if dc != 0 {
        let u = choose|u: int| 0 <= u < big && #[trigger] anf_coefficient(pt, n, u) && bit_weight(u, n) == dc;
        lemma_permuted_anf(t, p, n, u);
        lemma_permuted_row_positions(p, n, u, u);
        assert(anf_coefficient(t, n, f(u)));
    }
    if dk != 0 {
        let v = choose|v: int| 0 <= v < big && #[trigger] anf_coefficient(t, n, v) && bit_weight(v, n) == dk;
        let w = g(v);
        lemma_permuted_anf(t, p, n, w);
        lemma_permuted_row_positions(p, n, w, w);
        assert(anf_coefficient(pt, n, w));
    }
}

/// Permuting the inputs keeps the sorted absolute Walsh spectrum.
pub proof fn lemma_permuted_spectrum(t: Seq<u8>, p: Seq<u32>, n: nat)
    requires
        is_permutation(p, n),
        n <= 20,
    ensures
        abs_walsh_spectrum(permuted_table(t, p, n), n).sort_by(u64_leq()) == abs_walsh_spectrum(t, n).sort_by(
            u64_leq(),
        ),
{
    let f = permuted_row(p, n);
    let g = permuted_row(inverse_permutation(p, n), n);
    let pt = permuted_table(t, p, n);
    let sc = abs_walsh_spectrum(pt, n);
    let sk = abs_walsh_spectrum(t, n);
    lemma_permuted_row_bijection(p, n);
    assert(sc =~= Seq::new(sk.len(), |a: int| sk[f(a)])) by {
        assert forall|a: int| 0 <= a < sc.len() implies sc[a] == sk[f(a)] by {
            lemma_permuted_walsh(t, p, n, a);
        }
    }
    lemma_multiset_bijection(sk, f, g);
    lemma_u64_leq_total();
    sc.lemma_sort_by_ensures(u64_leq());
    sk.lemma_sort_by_ensures(u64_leq());
    vstd::seq_lib::lemma_sorted_unique(sc.sort_by(u64_leq()), sk.sort_by(u64_leq()), u64_leq());
}

/// Functions related by a permutation of the inputs, with or without output
/// complement, share one affine-invariant signature: an input-permutation
/// match is never excluded by the affine-invariant screen.
pub proof fn lemma_signature_permutation_invariant(
    c: BooleanFunction,
    k: BooleanFunction,
    p: Seq<u32>,
    complement: bool,
)
    requires
        valid_truth_table(c.input_width(), c.table()),
        valid_truth_table(k.input_width(), k.table()),
        is_permutation(p, c.input_width()),
        relates_under(c, k, p, complement),
    ensures
        signature_of(c) == signature_of(k),
{
    let n = c.input_width();
    let big = pow2(n);
    let tk = k.table();
    let tm = permuted_table(tk, p, n);
    let f = permuted_row(p, n);
    lemma_permuted_degree(tk, p, n);
    lemma_permuted_weight(tk, p, n);
    lemma_permuted_spectrum(tk, p, n);
    assert forall|x: int| 0 <= x < big implies #[trigger] tm[x] <= 1 && 0 <= f(x) < big by {
        lemma_permuted_row(p, n, x);
    }
    assert(valid_truth_table(n, tm));
    if complement {
        let ct = complement_table(tm);
        assert(c.table() =~= ct) by {
            assert forall|x: int| 0 <= x < big implies c.table()[x] == ct[x] by {
                let v = tm[x];
                assert(c.table()[x] == v ^ 1u8);
                assert(v ^ 1u8 == (1 - v) as u8) by (bit_vector)
                    requires
                        v <= 1,
                ;
            }
        }
        lemma_degree_complement(tm, n, big);
        lemma_ones_complement(tm, tm.len());
        assert(abs_walsh_spectrum(ct, n) =~= abs_walsh_spectrum(tm, n)) by {
            assert forall|a: int| 0 <= a < big implies #[trigger] abs_walsh_spectrum(ct, n)[a] == abs_walsh_spectrum(
                tm,
                n,
            )[a] by {
                lemma_walsh_complement(tm, n, a);
            }
        }
    } else {
        assert(c.table() =~= tm);
    }
}

/// Row `x` translated by `b`: `x XOR b`.
pub open spec fn translated_row(b: int) -> spec_fn(int) -> int {
    |x: int| ((x as usize) ^ (b as usize)) as int
}

/// The truth table of `x -> t(x XOR b)`.
pub open spec fn translated_table(t: Seq<u8>, b: int, n: nat) -> Seq<u8> {
    Seq::new(pow2(n), |x: int| t[translated_row(b)(x)])
}

/// `(1 << i)`, the row with bit `i` alone set, equals `2^i`.
proof fn lemma_unit_row(i: nat)
    requires
        i < 20,
    ensures
        (1usize << (i as usize)) as int == pow2(i),
        forall|j: nat| j < 20 ==> #[trigger] bit(pow2(i) as int, j) == (j == i),
{
    lemma_pow2_small(i);
    vstd::bits::lemma_usize_shl_is_mul(1, i as usize);
    let iu = i as usize;
    assert forall|j: nat| j < 20 implies #[trigger] bit(pow2(i) as int, j) == (j == i) by {
        let ju = j as usize;
        lemma_bit_usize(1usize << iu, ju);
        assert((((1usize << iu) >> ju) & 1 == 1) == (ju == iu)) by (bit_vector)
            requires
                iu < 20,
                ju < 20,
        ;
    }
}

/// Translating a row below `2^n` by `b < 2^n` flips the bits that `b` sets,
/// stays below `2^n`, and is undone by translating again.
proof fn lemma_translated_row(b: int, n: nat, x: int)
    requires
        n <= 20,
        0 <= b < pow2(n),
        0 <= x < pow2(n),
    ensures
        0 <= translated_row(b)(x) < pow2(n),
        translated_row(b)(translated_row(b)(x)) == x,
        forall|j: nat| j < n ==> #[trigger] bit(translated_row(b)(x), j) == (bit(x, j) != bit(b, j)),
{
    lemma_pow2_small(n);
    let xu = x as usize;
    let bu = b as usize;
    let nn = n as usize;
    vstd::bits::lemma_usize_shl_is_mul(1, nn);
    assert((xu ^ bu) < (1usize << nn)) by (bit_vector)
        requires
            xu < (1usize << nn),
            bu < (1usize << nn),
            nn <= 20,
    ;
    assert((xu ^ bu) ^ bu == xu) by (bit_vector);
    assert forall|j: nat| j < n implies #[trigger] bit(translated_row(b)(x), j) == (bit(x, j) != bit(b, j)) by {
        let ju = j as usize;
        lemma_bit_usize(xu ^ bu, ju);
        lemma_bit_usize(xu, ju);
        lemma_bit_usize(bu, ju);
        assert((((xu ^ bu) >> ju) & 1 == 1) == (((xu >> ju) & 1 == 1) != ((bu >> ju) & 1 == 1))) by (bit_vector)
            requires
                ju < 32,
        ;
    }
}

/// Translation by `b` is a bijection of `0..2^n` and its own inverse.
proof fn lemma_translated_row_bijection(b: int, n: nat)
    requires
        n <= 20,
        0 <= b < pow2(n),
    ensures
        is_bijection(translated_row(b), translated_row(b), pow2(n) as int),
{
    let f = translated_row(b);
    assert forall|x: int| 0 <= x < pow2(n) implies 0 <= #[trigger] f(x) < pow2(n) && f(f(x)) == x by {
        lemma_translated_row(b, n, x);
    }
}

/// The inner product with a translated row: `a.(y XOR b) = a.y XOR a.b`.
proof fn lemma_dot_parity_xor(a: int, y: int, b: int, z: int, k: nat)
    requires
        forall|j: nat| j < k ==> #[trigger] bit(z, j) == (bit(y, j) != bit(b, j)),
    ensures
        dot_parity(a, z, k) == (dot_parity(a, y, k) != dot_parity(a, b, k)),
    decreases k,
{
    if k > 0 {
        lemma_dot_parity_xor(a, y, b, z, (k - 1) as nat);
        assert(bit(z, (k - 1) as nat) == (bit(y, (k - 1) as nat) != bit(b, (k - 1) as nat)));
    }
}

/// Translating the inputs keeps the weight.
pub proof fn lemma_translated_weight(t: Seq<u8>, b: int, n: nat)
    requires
        n <= 20,
        0 <= b < pow2(n),
    ensures
        ones_upto(translated_table(t, b, n), pow2(n)) == ones_upto(t, pow2(n)),
{
    let f = translated_row(b);
    let g = translated_table(t, b, n);
    lemma_translated_row_bijection(b, n);
    let h = |y: int| ind(table_bit(t, y));
    lemma_sum_bijection(h, f, f, pow2(n));
    lemma_sum_ext(|x: int| h(f(x)), |x: int| ind(table_bit(g, x)), pow2(n));
    lemma_ones_sum(g, pow2(n));
    lemma_ones_sum(t, pow2(n));
}

/// Translating the inputs by `b` multiplies Walsh coefficient `a` by `(-1)^(a.b)`.
pub proof fn lemma_translated_walsh(t: Seq<u8>, b: int, n: nat, a: int)
    requires
        n <= 20,
        0 <= b < pow2(n),
    ensures
        walsh_coefficient(translated_table(t, b, n), n, a) == pm(dot_parity(a, b, n)) * walsh_coefficient(t, n, a),
{
    let f = translated_row(b);
    let g = translated_table(t, b, n);
    let big = pow2(n);
    lemma_translated_row_bijection(b, n);
    let h = |y: int| pm(table_bit(t, y) != dot_parity(a, f(y), n));
    lemma_sum_bijection(h, f, f, big);
    let wg = |x: int| pm(table_bit(g, x) != dot_parity(a, x, n));
    assert forall|x: int| 0 <= x < big implies #[trigger] h(f(x)) == wg(x) by {
        lemma_translated_row(b, n, x);
    }
    lemma_sum_ext(|x: int| h(f(x)), wg, big);
    let wt = |y: int| pm(table_bit(t, y) != dot_parity(a, y, n));
    assert forall|y: int| 0 <= y < big implies #[trigger] h(y) == pm(dot_parity(a, b, n)) * wt(y) by {
        lemma_translated_row(b, n, y);
        lemma_dot_parity_xor(a, y, b, f(y), n);
    }
    assert(walsh_coefficient(g, n, a) == sum(wg, big));
    assert(walsh_coefficient(t, n, a) == sum(wt, big));
    assert(sum(wg, big) == sum(h, big));
    if dot_parity(a, b, n) {
        lemma_sum_ext(h, |y: int| -wt(y), big);
        crate::bitwise::lemma_sum_neg(wt, big);
        assert(sum(h, big) == -sum(wt, big));
    } else {
        lemma_sum_ext(h, wt, big);
        assert(sum(h, big) == sum(wt, big));
    }
}

/// Translating the inputs keeps the absolute Walsh spectrum.
pub proof fn lemma_translated_spectrum(t: Seq<u8>, b: int, n: nat)
    requires
        n <= 20,
        0 <= b < pow2(n),
    ensures
        abs_walsh_spectrum(translated_table(t, b, n), n) == abs_walsh_spectrum(t, n),
{
    let g = translated_table(t, b, n);
    assert forall|a: int| 0 <= a < pow2(n) implies #[trigger] abs_walsh_spectrum(g, n)[a] == abs_walsh_spectrum(t, n)[a] by {
        lemma_translated_walsh(t, b, n, a);
    }
    assert(abs_walsh_spectrum(g, n) =~= abs_walsh_spectrum(t, n));
}

/// `u` with bit `i` set.
pub open spec fn set_bit(u: int, i: nat) -> int {
    ((u as usize) | (1usize << (i as usize))) as int
}

proof fn lemma_set_bit(u: int, i: nat, n: nat)
    requires
        n <= 20,
        i < n,
        0 <= u < pow2(n),
    ensures
        0 <= set_bit(u, i) < pow2(n),
        forall|j: nat| j < n ==> #[trigger] bit(set_bit(u, i), j) == (bit(u, j) || j == i),
{
    lemma_pow2_small(n);
    let uu = u as usize;
    let iu = i as usize;
    let nn = n as usize;
    vstd::bits::lemma_usize_shl_is_mul(1, nn);
    assert((uu | (1usize << iu)) < (1usize << nn)) by (bit_vector)
        requires
            uu < (1usize << nn),
            iu < nn,
            nn <= 20,
    ;
    assert forall|j: nat| j < n implies #[trigger] bit(set_bit(u, i), j) == (bit(u, j) || j == i) by {
        lemma_bit_or(uu, iu, j as usize);
    }
}

/// How flipping input `i` acts on the bit-subset tests of monomial `u`.
proof fn lemma_subset_flip(y: int, fy: int, u: int, v: int, i: nat, n: nat)
    requires
        i < n,
        forall|j: nat| j < n ==> #[trigger] bit(fy, j) == (bit(y, j) != (j == i)),
        forall|j: nat| j < n ==> #[trigger] bit(v, j) == (bit(u, j) || j == i),
    ensures
        bit(u, i) ==> bits_subset(fy, u, n) == bits_subset(y, u, n),
        !bit(u, i) ==> bits_subset(y, v, n) == (bits_subset(y, u, n) || bits_subset(fy, u, n)),
        !bit(u, i) ==> !(bits_subset(y, u, n) && bits_subset(fy, u, n)),
{
    lemma_bits_subset_forall(fy, u, n);
    lemma_bits_subset_forall(y, u, n);
    lemma_bits_subset_forall(y, v, n);
    if bit(u, i) {
        if bits_subset(y, u, n) {
            assert forall|j: nat| j < n implies (#[trigger] bit(fy, j) ==> bit(u, j)) by {
                if j != i {
                    assert(bit(y, j) ==> bit(u, j));
                }
            }
        }
        if bits_subset(fy, u, n) {
            assert forall|j: nat| j < n implies (#[trigger] bit(y, j) ==> bit(u, j)) by {
                if j != i {
                    assert(bit(fy, j) ==> bit(u, j));
                }
            }
        }
    } else {
        if bits_subset(y, u, n) && bits_subset(fy, u, n) {
            assert(bit(y, i) ==> bit(u, i));
            assert(bit(fy, i) ==> bit(u, i));
        }
        if bits_subset(y, v, n) {
            if bit(y, i) {
                assert forall|j: nat| j < n implies (#[trigger] bit(fy, j) ==> bit(u, j)) by {
                    assert(bit(y, j) ==> bit(v, j));
                }
            } else {
                assert forall|j: nat| j < n implies (#[trigger] bit(y, j) ==> bit(u, j)) by {
                    assert(bit(y, j) ==> bit(v, j));
                }
            }
        }
        if bits_subset(y, u, n) {
            assert forall|j: nat| j < n implies (#[trigger] bit(y, j) ==> bit(v, j)) by {
                assert(bit(y, j) ==> bit(u, j));
            }
        }
        if bits_subset(fy, u, n) {
            assert forall|j: nat| j < n implies (#[trigger] bit(y, j) ==> bit(v, j)) by {
                assert(bit(fy, j) ==> bit(u, j));
            }
        }
    }
}

/// Flipping input `i` keeps the coefficient of a monomial containing `x_i`,
/// and adds to that of any other monomial `u` the coefficient of `u x_i`.
proof fn lemma_anf_flip(t: Seq<u8>, n: nat, i: nat, u: int)
    requires
        n <= 20,
        i < n,
        0 <= u < pow2(n),
    ensures
        anf_coefficient(translated_table(t, pow2(i) as int, n), n, u) == (anf_coefficient(t, n, u) != (!bit(u, i)
            && anf_coefficient(t, n, set_bit(u, i)))),
{
    let big = pow2(n);
    let e = pow2(i) as int;
    vstd::arithmetic::power2::lemma_pow2_strictly_increases(i, n);
    lemma_pow2_pos(i);
    lemma_unit_row(i);
    let f = translated_row(e);
    let g = translated_table(t, e, n);
    lemma_translated_row_bijection(e, n);
    let v = set_bit(u, i);
    lemma_set_bit(u, i, n);
    let h = |y: int| if bits_subset(f(y), u, n) && table_bit(t, y) { 1int } else { 0int };
    let cg = |x: int| if bits_subset(x, u, n) && table_bit(g, x) { 1int } else { 0int };
    let ct = |y: int| if bits_subset(y, u, n) && table_bit(t, y) { 1int } else { 0int };
    let cv = |y: int| if bits_subset(y, v, n) && table_bit(t, y) { 1int } else { 0int };
    lemma_sum_bijection(h, f, f, big);
    assert forall|x: int| 0 <= x < big implies #[trigger] h(f(x)) == cg(x) by {
        lemma_translated_row(e, n, x);
    }
    lemma_sum_ext(|x: int| h(f(x)), cg, big);
    assert forall|y: int| 0 <= y < big implies (bit(u, i) ==> #[trigger] h(y) == ct(y)) && (!bit(u, i) ==> cv(y)
        == ct(y) + h(y)) by {
        lemma_translated_row(e, n, y);
        assert forall|j: nat| j < n implies #[trigger] bit(f(y), j) == (bit(y, j) != (j == i)) by {
            assert(bit(e, j) == (j == i));
        }
        lemma_subset_flip(y, f(y), u, v, i, n);
    }
    if bit(u, i) {
        lemma_sum_ext(h, ct, big);
    } else {
        lemma_sum_ext(cv, |y: int| ct(y) + h(y), big);
        lemma_sum_add(ct, h, big);
        let sv = sum(cv, big);
        let st = sum(ct, big);
        let sh = sum(h, big);
        assert((sh % 2 == 1) == ((sv % 2 == 1) != (st % 2 == 1))) by {
            assert(sv == st + sh);
        }
    }
}

proof fn lemma_sum_mono(f: spec_fn(int) -> int, g: spec_fn(int) -> int, m: nat)
    requires
        forall|i: int| 0 <= i < m ==> #[trigger] f(i) <= g(i),
    ensures
        sum(f, m) <= sum(g, m),
    decreases m,
{
    if m > 0 {
        lemma_sum_mono(f, g, (m - 1) as nat);
    }
}

/// Translating twice by the same row gives the table back.
proof fn lemma_translate_twice(t: Seq<u8>, b: int, n: nat)
    requires
        n <= 20,
        0 <= b < pow2(n),
        t.len() == pow2(n),
    ensures
        translated_table(translated_table(t, b, n), b, n) == t,
{
    assert forall|x: int| 0 <= x < pow2(n) implies #[trigger] translated_table(translated_table(t, b, n), b, n)[x]
        == t[x] by {
        lemma_translated_row(b, n, x);
    }
    assert(translated_table(translated_table(t, b, n), b, n) =~= t);
}

/// Flipping input `i` does not raise the algebraic degree.
proof fn lemma_degree_flip_le(t: Seq<u8>, n: nat, i: nat)
    requires
        n <= 20,
        i < n,
    ensures
        algebraic_degree(translated_table(t, pow2(i) as int, n), n) <= algebraic_degree(t, n),
{
    let big = pow2(n);
    let g = translated_table(t, pow2(i) as int, n);
    lemma_degree_is_max(g, n, big);
    lemma_degree_is_max(t, n, big);
    let dg = algebraic_degree(g, n);
    if dg != 0 {
        let u = choose|u: int| 0 <= u < big && #[trigger] anf_coefficient(g, n, u) && bit_weight(u, n) == dg;
        lemma_anf_flip(t, n, i, u);
        if !anf_coefficient(t, n, u) {
            let v = set_bit(u, i);
            lemma_set_bit(u, i, n);
            assert(anf_coefficient(t, n, v));
            lemma_bit_weight_sum(u, n);
            lemma_bit_weight_sum(v, n);
            lemma_sum_mono(|j: int| ind(bit(u, j as nat)), |j: int| ind(bit(v, j as nat)), n);
        }
    }
}

/// Flipping input `i` keeps the algebraic degree.
proof fn lemma_degree_flip(t: Seq<u8>, n: nat, i: nat)
    requires
        n <= 20,
        i < n,
        t.len() == pow2(n),
    ensures
        algebraic_degree(translated_table(t, pow2(i) as int, n), n) == algebraic_degree(t, n),
{
    let e = pow2(i) as int;
    vstd::arithmetic::power2::lemma_pow2_strictly_increases(i, n);
    lemma_pow2_pos(i);
    let g = translated_table(t, e, n);
    lemma_degree_flip_le(t, n, i);
    lemma_degree_flip_le(g, n, i);
    lemma_translate_twice(t, e, n);
}

/// The low `k` bits of `b`.
pub open spec fn low_bits(b: int, k: nat) -> int {
    ((b as usize) & !((!0usize) << (k as usize))) as int
}

/// Translating by the low `k` bits of `b` keeps the algebraic degree.
proof fn lemma_degree_translate_low(t: Seq<u8>, b: int, n: nat, k: nat)
    requires
        n <= 20,
        k <= n,
        0 <= b < pow2(n),
        t.len() == pow2(n),
    ensures
        0 <= low_bits(b, k) <= b,
        algebraic_degree(translated_table(t, low_bits(b, k), n), n) == algebraic_degree(t, n),
    decreases k,
{
    let big = pow2(n);
    lemma_pow2_small(n);
    let bu = b as usize;
    let ku = k as usize;
    assert((bu & !((!0usize) << ku)) <= bu) by (bit_vector)
        requires
            ku <= 20,
    ;
    if k == 0 {
        assert((bu & !((!0usize) << 0usize)) == 0usize) by (bit_vector);
        assert(translated_table(t, 0, n) =~= t) by {
            assert forall|x: int| 0 <= x < big implies #[trigger] translated_table(t, 0, n)[x] == t[x] by {
                let xu = x as usize;
                assert(xu ^ 0usize == xu) by (bit_vector);
            }
        }
    } else {
        let j = (k - 1) as nat;
        let ju = j as usize;
        lemma_degree_translate_low(t, b, n, j);
        let l = low_bits(b, j);
        let lu = l as usize;
        let t1 = translated_table(t, l, n);
        lemma_bit_usize(bu, ju);
        if (bu >> ju) & 1 == 1 {
            assert((bu & !((!0usize) << ku)) == ((bu & !((!0usize) << ju)) ^ (1usize << ju))) by (bit_vector)
                requires
                    ku == ju + 1,
                    ku <= 20,
                    (bu >> ju) & 1 == 1,
            ;
            lemma_unit_row(j);
            let e = pow2(j) as int;
            vstd::arithmetic::power2::lemma_pow2_strictly_increases(j, n);
            lemma_degree_flip(t1, n, j);
            assert(translated_table(t1, e, n) =~= translated_table(t, low_bits(b, k), n)) by {
                assert forall|x: int| 0 <= x < big implies #[trigger] translated_table(t1, e, n)[x] == translated_table(
                    t,
                    low_bits(b, k),
                    n,
                )[x] by {
                    lemma_translated_row(e, n, x);
                    let xu = x as usize;
                    assert((xu ^ (1usize << ju)) ^ lu == xu ^ (lu ^ (1usize << ju))) by (bit_vector);
                }
            }
        } else {
            assert((bu & !((!0usize) << ku)) == (bu & !((!0usize) << ju))) by (bit_vector)
                requires
                    ku == ju + 1,
                    ku <= 20,
                    (bu >> ju) & 1 != 1,
            ;
        }
    }
}

/// Translating the inputs keeps the algebraic degree.
pub proof fn lemma_translated_degree(t: Seq<u8>, b: int, n: nat)
    requires
        n <= 20,
        0 <= b < pow2(n),
        t.len() == pow2(n),
    ensures
        algebraic_degree(translated_table(t, b, n), n) == algebraic_degree(t, n),
{
    lemma_degree_translate_low(t, b, n, n);
    lemma_pow2_small(n);
    let bu = b as usize;
    let nn = n as usize;
    vstd::bits::lemma_usize_shl_is_mul(1, nn);
    assert((bu & !((!0usize) << nn)) == bu) by (bit_vector)
        requires
            bu < (1usize << nn),
            nn <= 20,
    ;
}

/// Row `x` after the elementary change `x_i <- x_i XOR x_j` of its inputs.
pub open spec fn transvected_row(i: nat, j: nat) -> spec_fn(int) -> int {
    |x: int| if bit(x, j) { translated_row(pow2(i) as int)(x) } else { x }
}

/// The truth table of `x -> t(x with x_i replaced by x_i XOR x_j)`.
pub open spec fn transvected_table(t: Seq<u8>, i: nat, j: nat, n: nat) -> Seq<u8> {
    Seq::new(pow2(n), |x: int| t[transvected_row(i, j)(x)])
}

proof fn lemma_transvected_row(i: nat, j: nat, n: nat, x: int)
    requires
        n <= 20,
        i < n,
        j < n,
        i != j,
        0 <= x < pow2(n),
    ensures
        0 <= transvected_row(i, j)(x) < pow2(n),
        transvected_row(i, j)(transvected_row(i, j)(x)) == x,
        forall|k: nat| k < n ==> #[trigger] bit(transvected_row(i, j)(x), k) == (bit(x, k) != (k == i && bit(x, j))),
{
    let e = pow2(i) as int;
    vstd::arithmetic::power2::lemma_pow2_strictly_increases(i, n);
    lemma_pow2_pos(i);
    lemma_unit_row(i);
    let f = translated_row(e);
    lemma_translated_row(e, n, x);
    if bit(x, j) {
        assert forall|k: nat| k < n implies #[trigger] bit(f(x), k) == (bit(x, k) != (k == i)) by {
            assert(bit(e, k) == (k == i));
        }
        assert(bit(f(x), j));
        lemma_translated_row(e, n, f(x));
    }
}

proof fn lemma_transvected_row_bijection(i: nat, j: nat, n: nat)
    requires
        n <= 20,
        i < n,
        j < n,
        i != j,
    ensures
        is_bijection(transvected_row(i, j), transvected_row(i, j), pow2(n) as int),
{
    let f = transvected_row(i, j);
    assert forall|x: int| 0 <= x < pow2(n) implies 0 <= #[trigger] f(x) < pow2(n) && f(f(x)) == x by {
        lemma_transvected_row(i, j, n, x);
    }
}

/// The inner product after flipping bit `i` of the second argument when `beta` holds.
proof fn lemma_dot_flip_right(a: int, y: int, z: int, i: nat, beta: bool, k: nat)
    requires
        forall|l: nat| l < k ==> #[trigger] bit(z, l) == (bit(y, l) != (l == i && beta)),
    ensures
        dot_parity(a, z, k) == (dot_parity(a, y, k) != (i < k && bit(a, i) && beta)),
    decreases k,
{
    if k > 0 {
        lemma_dot_flip_right(a, y, z, i, beta, (k - 1) as nat);
        assert(bit(z, (k - 1) as nat) == (bit(y, (k - 1) as nat) != ((k - 1) as nat == i && beta)));
    }
}

/// The inner product after flipping bit `j` of the first argument when `alpha` holds.
proof fn lemma_dot_flip_left(a: int, w: int, y: int, j: nat, alpha: bool, k: nat)
    requires
        forall|l: nat| l < k ==> #[trigger] bit(w, l) == (bit(a, l) != (l == j && alpha)),
    ensures
        dot_parity(w, y, k) == (dot_parity(a, y, k) != (j < k && alpha && bit(y, j))),
    decreases k,
{
    if k > 0 {
        lemma_dot_flip_left(a, w, y, j, alpha, (k - 1) as nat);
        assert(bit(w, (k - 1) as nat) == (bit(a, (k - 1) as nat) != ((k - 1) as nat == j && alpha)));
    }
}

/// Transvections move across the inner product as their transposes:
/// `a . T_ij(y) = T_ji(a) . y`.
proof fn lemma_dot_transvection(a: int, y: int, i: nat, j: nat, n: nat)
    requires
        n <= 20,
        i < n,
        j < n,
        i != j,
        0 <= a < pow2(n),
        0 <= y < pow2(n),
    ensures
        dot_parity(a, transvected_row(i, j)(y), n) == dot_parity(transvected_row(j, i)(a), y, n),
{
    lemma_transvected_row(i, j, n, y);
    lemma_transvected_row(j, i, n, a);
    lemma_dot_flip_right(a, y, transvected_row(i, j)(y), i, bit(y, j), n);
    lemma_dot_flip_left(a, transvected_row(j, i)(a), y, j, bit(a, i), n);
}

/// A transvection of the inputs keeps the weight.
pub proof fn lemma_transvected_weight(t: Seq<u8>, i: nat, j: nat, n: nat)
    requires
        n <= 20,
        i < n,
        j < n,
        i != j,
    ensures
        ones_upto(transvected_table(t, i, j, n), pow2(n)) == ones_upto(t, pow2(n)),
{
    let f = transvected_row(i, j);
    let g = transvected_table(t, i, j, n);
    lemma_transvected_row_bijection(i, j, n);
    let h = |y: int| ind(table_bit(t, y));
    lemma_sum_bijection(h, f, f, pow2(n));
    lemma_sum_ext(|x: int| h(f(x)), |x: int| ind(table_bit(g, x)), pow2(n));
    lemma_ones_sum(g, pow2(n));
    lemma_ones_sum(t, pow2(n));
}

/// A transvection `T_ij` of the inputs moves Walsh coefficient `a` to `T_ji(a)`.
pub proof fn lemma_transvected_walsh(t: Seq<u8>, i: nat, j: nat, n: nat, a: int)
    requires
        n <= 20,
        i < n,
        j < n,
        i != j,
        0 <= a < pow2(n),
    ensures
        walsh_coefficient(transvected_table(t, i, j, n), n, a) == walsh_coefficient(t, n, transvected_row(j, i)(a)),
{
    let f = transvected_row(i, j);
    let g = transvected_table(t, i, j, n);
    let ta = transvected_row(j, i)(a);
    let big = pow2(n);
    lemma_transvected_row_bijection(i, j, n);
    let h = |y: int| pm(table_bit(t, y) != dot_parity(ta, y, n));
    lemma_sum_bijection(h, f, f, big);
    let wg = |x: int| pm(table_bit(g, x) != dot_parity(a, x, n));
    assert forall|x: int| 0 <= x < big implies #[trigger] h(f(x)) == wg(x) by {
        lemma_transvected_row(i, j, n, x);
        lemma_dot_transvection(a, f(x), i, j, n);
    }
    lemma_sum_ext(|x: int| h(f(x)), wg, big);
}

/// A transvection of the inputs keeps the sorted absolute Walsh spectrum.
pub proof fn lemma_transvected_spectrum(t: Seq<u8>, i: nat, j: nat, n: nat)
    requires
        n <= 20,
        i < n,
        j < n,
        i != j,
    ensures
        abs_walsh_spectrum(transvected_table(t, i, j, n), n).sort_by(u64_leq()) == abs_walsh_spectrum(t, n).sort_by(
            u64_leq(),
        ),
{
    let f = transvected_row(j, i);
    let g = transvected_table(t, i, j, n);
    let sc = abs_walsh_spectrum(g, n);
    let sk = abs_walsh_spectrum(t, n);
    lemma_transvected_row_bijection(j, i, n);
    assert(sc =~= Seq::new(sk.len(), |a: int| sk[f(a)])) by {
        assert forall|a: int| 0 <= a < sc.len() implies sc[a] == sk[f(a)] by {
            lemma_transvected_walsh(t, i, j, n, a);
        }
    }
    lemma_multiset_bijection(sk, f, f);
    lemma_u64_leq_total();
    sc.lemma_sort_by_ensures(u64_leq());
    sk.lemma_sort_by_ensures(u64_leq());
    vstd::seq_lib::lemma_sorted_unique(sc.sort_by(u64_leq()), sk.sort_by(u64_leq()), u64_leq());
}

/// Every set bit of `y` outside positions `i` and `j` is set in `u`.
pub open spec fn others_within(y: int, u: int, i: nat, j: nat, n: nat) -> bool {
    forall|k: nat| k < n && k != i && k != j ==> (#[trigger] bit(y, k) ==> bit(u, k))
}

/// A bit-subset test read off positions `i` and `j` and the rest.
proof fn lemma_subset_two_positions(z: int, w: int, y: int, u: int, i: nat, j: nat, n: nat)
    requires
        i < n,
        j < n,
        i != j,
        forall|k: nat| k < n && k != i && k != j ==> #[trigger] bit(z, k) == bit(y, k),
        forall|k: nat| k < n && k != i && k != j ==> #[trigger] bit(w, k) == bit(u, k),
    ensures
        bits_subset(z, w, n) == (others_within(y, u, i, j, n) && (bit(z, i) ==> bit(w, i)) && (bit(z, j) ==> bit(
            w,
            j,
        ))),
{
    lemma_bits_subset_forall(z, w, n);
    if bits_subset(z, w, n) {
        assert forall|k: nat| k < n && k != i && k != j implies (#[trigger] bit(y, k) ==> bit(u, k)) by {
            assert(bit(z, k) ==> bit(w, k));
        }
    }
    if others_within(y, u, i, j, n) && (bit(z, i) ==> bit(w, i)) && (bit(z, j) ==> bit(w, j)) {
        assert forall|k: nat| k < n implies (#[trigger] bit(z, k) ==> bit(w, k)) by {
            if k != i && k != j {
                assert(bit(y, k) ==> bit(u, k));
            }
        }
    }
}

/// How a transvection of the inputs acts on the coefficient of monomial `u`:
/// unchanged unless `u` holds `x_j` and not `x_i`, in which case the
/// coefficients of `u x_i` and of `u x_i / x_j` are added to it.
proof fn lemma_anf_transvection(t: Seq<u8>, n: nat, i: nat, j: nat, u: int)
    requires
        n <= 20,
        i < n,
        j < n,
        i != j,
        0 <= u < pow2(n),
    ensures
        (bit(u, i) || !bit(u, j)) ==> anf_coefficient(transvected_table(t, i, j, n), n, u) == anf_coefficient(
            t,
            n,
            u,
        ),
        (!bit(u, i) && bit(u, j)) ==> anf_coefficient(transvected_table(t, i, j, n), n, u) == ((anf_coefficient(
            t,
            n,
            u,
        ) != anf_coefficient(t, n, set_bit(u, i))) != anf_coefficient(
            t,
            n,
            set_bit(translated_row(pow2(j) as int)(u), i),
        )),
{
    let big = pow2(n);
    let f = transvected_row(i, j);
    let g = transvected_table(t, i, j, n);
    lemma_transvected_row_bijection(i, j, n);
    let h = |y: int| if bits_subset(f(y), u, n) && table_bit(t, y) { 1int } else { 0int };
    let cg = |x: int| if bits_subset(x, u, n) && table_bit(g, x) { 1int } else { 0int };
    let ct = |y: int| if bits_subset(y, u, n) && table_bit(t, y) { 1int } else { 0int };
    lemma_sum_bijection(h, f, f, big);
    assert forall|x: int| 0 <= x < big implies #[trigger] h(f(x)) == cg(x) by {
        lemma_transvected_row(i, j, n, x);
    }
    lemma_sum_ext(|x: int| h(f(x)), cg, big);
    if bit(u, i) || !bit(u, j) {
        assert forall|y: int| 0 <= y < big implies #[trigger] h(y) == ct(y) by {
            lemma_transvected_row(i, j, n, y);
            lemma_subset_two_positions(f(y), u, y, u, i, j, n);
            lemma_subset_two_positions(y, u, y, u, i, j, n);
        }
        lemma_sum_ext(h, ct, big);
    } else {
        let ej = pow2(j) as int;
        vstd::arithmetic::power2::lemma_pow2_strictly_increases(j, n);
        lemma_pow2_pos(j);
        lemma_unit_row(j);
        let u1 = translated_row(ej)(u);
        lemma_translated_row(ej, n, u);
        let u2 = set_bit(u, i);
        lemma_set_bit(u, i, n);
        let u3 = set_bit(u1, i);
        lemma_set_bit(u1, i, n);
        assert forall|k: nat| k < n implies #[trigger] bit(u1, k) == (bit(u, k) && k != j) by {
            assert(bit(ej, k) == (k == j));
        }
        let c1 = |y: int| if bits_subset(y, u1, n) && table_bit(t, y) { 1int } else { 0int };
        let c2 = |y: int| if bits_subset(y, u2, n) && table_bit(t, y) { 1int } else { 0int };
        let c3 = |y: int| if bits_subset(y, u3, n) && table_bit(t, y) { 1int } else { 0int };
        let lhs = |y: int| (h(y) + ct(y)) + c3(y);
        let rhs = |y: int| (c1(y) + c1(y)) + c2(y);
        assert forall|y: int| 0 <= y < big implies #[trigger] lhs(y) == rhs(y) by {
            lemma_transvected_row(i, j, n, y);
            lemma_subset_two_positions(f(y), u, y, u, i, j, n);
            lemma_subset_two_positions(y, u, y, u, i, j, n);
            lemma_subset_two_positions(y, u1, y, u, i, j, n);
            lemma_subset_two_positions(y, u2, y, u, i, j, n);
            lemma_subset_two_positions(y, u3, y, u, i, j, n);
        }
        lemma_sum_ext(lhs, rhs, big);
        let a1 = |y: int| h(y) + ct(y);
        let b1 = |y: int| c1(y) + c1(y);
        lemma_sum_add(a1, c3, big);
        lemma_sum_add(h, ct, big);
        lemma_sum_add(b1, c2, big);
        lemma_sum_add(c1, c1, big);
        lemma_sum_ext(lhs, |y: int| a1(y) + c3(y), big);
        lemma_sum_ext(rhs, |y: int| b1(y) + c2(y), big);
        lemma_sum_ext(a1, |y: int| h(y) + ct(y), big);
        lemma_sum_ext(b1, |y: int| c1(y) + c1(y), big);
        let sh = sum(h, big);
        let st = sum(ct, big);
        let s1 = sum(c1, big);
        let s2 = sum(c2, big);
        let s3 = sum(c3, big);
        assert(sh + st + s3 == s1 + s1 + s2);
        assert((sh % 2 == 1) == (((st % 2 == 1) != (s2 % 2 == 1)) != (s3 % 2 == 1)));
    }
}

/// Positions `i` and `j` exchanged.
pub open spec fn swap_positions(i: nat, j: nat) -> spec_fn(int) -> int {
    |k: int| if k == i { j as int } else if k == j { i as int } else { k }
}

/// Values whose bits differ by exchanging positions `i` and `j` have one weight.
proof fn lemma_weight_swap(u: int, w: int, i: nat, j: nat, n: nat)
    requires
        i < n,
        j < n,
        i != j,
        forall|k: int| 0 <= k < n ==> #[trigger] bit(w, swap_positions(i, j)(k) as nat) == bit(u, k as nat),
    ensures
        bit_weight(w, n) == bit_weight(u, n),
{
    let sw = swap_positions(i, j);
    assert(is_bijection(sw, sw, n as int));
    let h = |k: int| ind(bit(w, k as nat));
    lemma_sum_bijection(h, sw, sw, n);
    lemma_sum_ext(|k: int| h(sw(k)), |k: int| ind(bit(u, k as nat)), n);
    lemma_bit_weight_sum(w, n);
    lemma_bit_weight_sum(u, n);
}

/// A transvection of the inputs does not raise the algebraic degree.
proof fn lemma_degree_transvection_le(t: Seq<u8>, n: nat, i: nat, j: nat)
    requires
        n <= 20,
        i < n,
        j < n,
        i != j,
    ensures
        algebraic_degree(transvected_table(t, i, j, n), n) <= algebraic_degree(t, n),
{
    let big = pow2(n);
    let g = transvected_table(t, i, j, n);
    lemma_degree_is_max(g, n, big);
    lemma_degree_is_max(t, n, big);
    let dg = algebraic_degree(g, n);
    if dg != 0 {
        let u = choose|u: int| 0 <= u < big && #[trigger] anf_coefficient(g, n, u) && bit_weight(u, n) == dg;
        lemma_anf_transvection(t, n, i, j, u);
        if !bit(u, i) && bit(u, j) && !anf_coefficient(t, n, u) {
            let ej = pow2(j) as int;
            vstd::arithmetic::power2::lemma_pow2_strictly_increases(j, n);
            lemma_pow2_pos(j);
            lemma_unit_row(j);
            let u1 = translated_row(ej)(u);
            lemma_translated_row(ej, n, u);
            let u2 = set_bit(u, i);
            lemma_set_bit(u, i, n);
            let u3 = set_bit(u1, i);
            lemma_set_bit(u1, i, n);
            assert forall|k: nat| k < n implies #[trigger] bit(u1, k) == (bit(u, k) && k != j) by {
                assert(bit(ej, k) == (k == j));
            }
            if anf_coefficient(t, n, u2) {
                lemma_bit_weight_sum(u, n);
                lemma_bit_weight_sum(u2, n);
                lemma_sum_mono(|k: int| ind(bit(u, k as nat)), |k: int| ind(bit(u2, k as nat)), n);
            } else {
                assert(anf_coefficient(t, n, u3));
                assert forall|k: int| 0 <= k < n implies #[trigger] bit(u3, swap_positions(i, j)(k) as nat) == bit(
                    u,
                    k as nat,
                ) by {
                    let s = swap_positions(i, j)(k);
                    assert(bit(u3, s as nat) == (bit(u1, s as nat) || s == i));
                }
                lemma_weight_swap(u, u3, i, j, n);
            }
        }
    }
}

/// A transvection of the inputs keeps the algebraic degree.
pub proof fn lemma_transvected_degree(t: Seq<u8>, n: nat, i: nat, j: nat)
    requires
        n <= 20,
        i < n,
        j < n,
        i != j,
        t.len() == pow2(n),
    ensures
        algebraic_degree(transvected_table(t, i, j, n), n) == algebraic_degree(t, n),
{
    let g = transvected_table(t, i, j, n);
    lemma_degree_transvection_le(t, n, i, j);
    lemma_degree_transvection_le(g, n, i, j);
    assert(transvected_table(g, i, j, n) =~= t) by {
        assert forall|x: int| 0 <= x < pow2(n) implies #[trigger] transvected_table(g, i, j, n)[x] == t[x] by {
            lemma_transvected_row(i, j, n, x);
        }
    }
}

/// `op = (i, j)` names the elementary input change `x_i <- x_i XOR x_j` on `n` inputs.
pub open spec fn valid_transvection(op: (nat, nat), n: nat) -> bool {
    op.0 < n && op.1 < n && op.0 != op.1
}

/// Row `x` after the elementary input changes `ops`, the last one applied first.
pub open spec fn linear_row(ops: Seq<(nat, nat)>, x: int) -> int
    decreases ops.len(),
{
    if ops.len() == 0 {
        x
    } else {
        linear_row(ops.drop_last(), transvected_row(ops.last().0, ops.last().1)(x))
    }
}

/// The truth table of `x -> t(linear_row(ops, x))`.
pub open spec fn linear_table(t: Seq<u8>, ops: Seq<(nat, nat)>, n: nat) -> Seq<u8>
    decreases ops.len(),
{
    if ops.len() == 0 {
        t
    } else {
        transvected_table(linear_table(t, ops.drop_last(), n), ops.last().0, ops.last().1, n)
    }
}

/// A product of elementary input changes keeps the degree, the weight and the
/// sorted absolute Walsh spectrum.
proof fn lemma_linear_table(t: Seq<u8>, ops: Seq<(nat, nat)>, n: nat)
    requires
        n <= 20,
        t.len() == pow2(n),
        forall|k: int| 0 <= k < ops.len() ==> #[trigger] valid_transvection(ops[k], n),
    ensures
        linear_table(t, ops, n).len() == pow2(n),
        forall|x: int| 0 <= x < pow2(n) ==> 0 <= #[trigger] linear_row(ops, x) < pow2(n) && linear_table(t, ops, n)[x]
            == t[linear_row(ops, x)],
        algebraic_degree(linear_table(t, ops, n), n) == algebraic_degree(t, n),
        ones_upto(linear_table(t, ops, n), pow2(n)) == ones_upto(t, pow2(n)),
        abs_walsh_spectrum(linear_table(t, ops, n), n).sort_by(u64_leq()) == abs_walsh_spectrum(t, n).sort_by(
            u64_leq(),
        ),
    decreases ops.len(),
{
    if ops.len() > 0 {
        let rest = ops.drop_last();
        let (i, j) = ops.last();
        assert(valid_transvection(ops[ops.len() - 1], n));
        assert forall|k: int| 0 <= k < rest.len() implies #[trigger] valid_transvection(rest[k], n) by {
            assert(valid_transvection(ops[k], n));
        }
        lemma_linear_table(t, rest, n);
        let t1 = linear_table(t, rest, n);
        lemma_transvected_degree(t1, n, i, j);
        lemma_transvected_weight(t1, i, j, n);
        lemma_transvected_spectrum(t1, i, j, n);
        assert forall|x: int| 0 <= x < pow2(n) implies 0 <= #[trigger] linear_row(ops, x) < pow2(n) && linear_table(
            t,
            ops,
            n,
        )[x] == t[linear_row(ops, x)] by {
            lemma_transvected_row(i, j, n, x);
            let y = transvected_row(i, j)(x);
            assert(linear_row(ops, x) == linear_row(rest, y));
        }
    }
}

/// `c(x) = k(A(p(x)) XOR b)`, complemented when `complement` holds, on every
/// row, with `A` the product of the elementary input changes `ops`: `c` is
/// `k` after an affine change of its inputs and an optional output complement.
pub open spec fn affine_related(
    c: BooleanFunction,
    k: BooleanFunction,
    p: Seq<u32>,
    ops: Seq<(nat, nat)>,
    b: int,
    complement: bool,
) -> bool {
    let n = c.input_width();
    &&& k.input_width() == n
    &&& forall|x: int|
        0 <= x < c.table().len() ==> #[trigger] c.table()[x] == if complement {
            k.table()[translated_row(b)(linear_row(ops, permuted_row(p, n)(x)))] ^ 1u8
        } else {
            k.table()[translated_row(b)(linear_row(ops, permuted_row(p, n)(x)))]
        }
}

/// Functions related by an affine change of the inputs, `x -> A(p(x)) XOR b`
/// with `A` a product of elementary input changes `x_i <- x_i XOR x_j`, and
/// an optional output complement share one affine-invariant signature.
pub proof fn lemma_signature_affine_invariant(
    c: BooleanFunction,
    k: BooleanFunction,
    p: Seq<u32>,
    ops: Seq<(nat, nat)>,
    b: int,
    complement: bool,
)
    requires
        valid_truth_table(c.input_width(), c.table()),
        valid_truth_table(k.input_width(), k.table()),
        is_permutation(p, c.input_width()),
        forall|i: int| 0 <= i < ops.len() ==> #[trigger] valid_transvection(ops[i], c.input_width()),
        0 <= b < pow2(c.input_width()),
        affine_related(c, k, p, ops, b, complement),
    ensures
        signature_of(c) == signature_of(k),
{
    let n = c.input_width();
    let big = pow2(n);
    let tk = k.table();
    let t0 = translated_table(tk, b, n);
    let t1 = linear_table(t0, ops, n);
    let tm = permuted_table(t1, p, n);
    let f = permuted_row(p, n);
    lemma_translated_degree(tk, b, n);
    lemma_translated_weight(tk, b, n);
    lemma_translated_spectrum(tk, b, n);
    lemma_linear_table(t0, ops, n);
    lemma_permuted_degree(t1, p, n);
    lemma_permuted_weight(t1, p, n);
    lemma_permuted_spectrum(t1, p, n);
    assert forall|x: int| 0 <= x < big implies #[trigger] tm[x] == tk[translated_row(b)(linear_row(ops, f(x)))]
        && tm[x] <= 1 by {
        lemma_permuted_row(p, n, x);
        lemma_translated_row(b, n, linear_row(ops, f(x)));
    }
    assert(valid_truth_table(n, tm));
    if complement {
        let ct = complement_table(tm);
        assert(c.table() =~= ct) by {
            assert forall|x: int| 0 <= x < big implies c.table()[x] == ct[x] by {
                let v = tm[x];
                assert(c.table()[x] == v ^ 1u8);
                assert(v ^ 1u8 == (1 - v) as u8) by (bit_vector)
                    requires
                        v <= 1,
                ;
            }
        }
        lemma_degree_complement(tm, n, big);
        lemma_ones_complement(tm, tm.len());
        assert(abs_walsh_spectrum(ct, n) =~= abs_walsh_spectrum(tm, n)) by {
            assert forall|a: int| 0 <= a < big implies #[trigger] abs_walsh_spectrum(ct, n)[a] == abs_walsh_spectrum(
                tm,
                n,
            )[a] by {
                lemma_walsh_complement(tm, n, a);
            }
        }
    } else {
        assert(c.table() =~= tm);
    }
}


/// The image of row `x` under the linear map whose column `k` is `cols[k]`,
/// summed over the first `m` columns: the XOR of the columns that `x` selects.
pub open spec fn matrix_row(cols: Seq<int>, x: int, m: nat) -> int
    decreases m,
{
    if m == 0 {
        0
    } else {
        let previous = matrix_row(cols, x, (m - 1) as nat);
        if bit(x, (m - 1) as nat) {
            translated_row(cols[m - 1])(previous)
        } else {
            previous
        }
    }
}

/// Parity of the columns below `m` selected by `x` that have bit `q` set.
pub open spec fn column_parity(cols: Seq<int>, x: int, q: nat, m: nat) -> bool
    decreases m,
{
    if m == 0 {
        false
    } else {
        column_parity(cols, x, q, (m - 1) as nat) != (bit(x, (m - 1) as nat) && bit(cols[m - 1], q))
    }
}

/// `n` columns, each a row below `2^n`.
pub open spec fn columns_in_range(cols: Seq<int>, n: nat) -> bool {
    &&& cols.len() == n
    &&& forall|k: int| 0 <= k < n ==> 0 <= #[trigger] cols[k] < pow2(n)
}

/// Bit `q` of the image is the parity of the selected columns' bit `q`.
proof fn lemma_matrix_row(cols: Seq<int>, x: int, m: nat, n: nat)
    requires
        n <= 20,
        m <= n,
        columns_in_range(cols, n),
    ensures
        0 <= matrix_row(cols, x, m) < pow2(n),
        forall|q: nat| q < n ==> #[trigger] bit(matrix_row(cols, x, m), q) == column_parity(cols, x, q, m),
    decreases m,
{
    if m == 0 {
        lemma_pow2_pos(n);
        assert forall|q: nat| q < n implies #[trigger] bit(matrix_row(cols, x, m), q) == column_parity(cols, x, q, m) by {
            lemma_shr_is_div(0, q);
            lemma_pow2_pos(q);
        }
    } else {
        let l = (m - 1) as nat;
        lemma_matrix_row(cols, x, l, n);
        let previous = matrix_row(cols, x, l);
        if bit(x, l) {
            lemma_translated_row(cols[l as int], n, previous);
        }
    }
}

/// Column `j` replaced by `cols[j] XOR cols[i]`.
pub open spec fn column_op(cols: Seq<int>, i: nat, j: nat) -> Seq<int> {
    cols.update(j as int, translated_row(cols[i as int])(cols[j as int]))
}

proof fn lemma_column_op_parity(cols: Seq<int>, x: int, q: nat, i: nat, j: nat, m: nat, n: nat)
    requires
        n <= 20,
        i < n,
        j < n,
        i != j,
        q < n,
        m <= n,
        columns_in_range(cols, n),
    ensures
        column_parity(column_op(cols, i, j), x, q, m) == (column_parity(cols, x, q, m) != (j < m && bit(x, j) && bit(
            cols[i as int],
            q,
        ))),
    decreases m,
{
    if m > 0 {
        let l = (m - 1) as nat;
        lemma_column_op_parity(cols, x, q, i, j, l, n);
        if l == j {
            lemma_translated_row(cols[i as int], n, cols[j as int]);
        }
    }
}

proof fn lemma_transvected_parity(cols: Seq<int>, x: int, q: nat, i: nat, j: nat, m: nat, n: nat)
    requires
        n <= 20,
        i < n,
        j < n,
        i != j,
        m <= n,
        0 <= x < pow2(n),
    ensures
        column_parity(cols, transvected_row(i, j)(x), q, m) == (column_parity(cols, x, q, m) != (i < m && bit(x, j)
            && bit(cols[i as int], q))),
    decreases m,
{
    if m > 0 {
        let l = (m - 1) as nat;
        lemma_transvected_parity(cols, x, q, i, j, l, n);
        lemma_transvected_row(i, j, n, x);
        assert(bit(transvected_row(i, j)(x), l) == (bit(x, l) != (l == i && bit(x, j))));
    }
}

/// A column operation `c_j <- c_j XOR c_i` composes the map with the input
/// change `x_i <- x_i XOR x_j`.
proof fn lemma_column_op_row(cols: Seq<int>, x: int, i: nat, j: nat, n: nat)
    requires
        n <= 20,
        i < n,
        j < n,
        i != j,
        0 <= x < pow2(n),
        columns_in_range(cols, n),
    ensures
        columns_in_range(column_op(cols, i, j), n),
        matrix_row(column_op(cols, i, j), x, n) == matrix_row(cols, transvected_row(i, j)(x), n),
{
    let c2 = column_op(cols, i, j);
    lemma_translated_row(cols[i as int], n, cols[j as int]);
    assert(columns_in_range(c2, n));
    lemma_transvected_row(i, j, n, x);
    let tx = transvected_row(i, j)(x);
    lemma_matrix_row(c2, x, n, n);
    lemma_matrix_row(cols, tx, n, n);
    assert forall|q: nat| q < n implies #[trigger] bit(matrix_row(c2, x, n), q) == bit(matrix_row(cols, tx, n), q) by {
        lemma_column_op_parity(cols, x, q, i, j, n, n);
        lemma_transvected_parity(cols, x, q, i, j, n, n);
    }
    lemma_bits_determine(matrix_row(c2, x, n), matrix_row(cols, tx, n), n);
}

/// The identity columns `2^0, ..., 2^(n-1)`.
pub open spec fn identity_columns(n: nat) -> Seq<int> {
    Seq::new(n, |k: int| pow2(k as nat) as int)
}

/// The identity map sends every row below `2^n` to itself.
proof fn lemma_identity_columns(x: int, n: nat)
    requires
        n <= 20,
        0 <= x < pow2(n),
    ensures
        columns_in_range(identity_columns(n), n),
        matrix_row(identity_columns(n), x, n) == x,
{
    let id = identity_columns(n);
    assert forall|k: int| 0 <= k < n implies 0 <= #[trigger] id[k] < pow2(n) by {
        lemma_pow2_pos(k as nat);
        vstd::arithmetic::power2::lemma_pow2_strictly_increases(k as nat, n);
    }
    lemma_matrix_row(id, x, n, n);
    assert forall|q: nat| q < n implies #[trigger] bit(matrix_row(id, x, n), q) == bit(x, q) by {
        lemma_identity_parity(x, q, n, n);
    }
    lemma_bits_determine(matrix_row(id, x, n), x, n);
}

proof fn lemma_identity_parity(x: int, q: nat, m: nat, n: nat)
    requires
        n <= 20,
        q < n,
        m <= n,
    ensures
        column_parity(identity_columns(n), x, q, m) == (q < m && bit(x, q)),
    decreases m,
{
    if m > 0 {
        let l = (m - 1) as nat;
        lemma_identity_parity(x, q, l, n);
        lemma_unit_row(l);
        assert(bit(pow2(l) as int, q) == (q == l));
    }
}

/// Rows below `r` of the columns are rows of the identity.
pub open spec fn rows_reduced(cols: Seq<int>, r: nat, n: nat) -> bool {
    forall|q: nat, k: int| q < r && 0 <= k < n ==> #[trigger] bit(cols[k], q) == (k == q)
}

/// Some row below `2^n` is mapped to `y`.
pub open spec fn reaches(cols: Seq<int>, n: nat, y: int) -> bool {
    exists|x: int| 0 <= x < pow2(n) && #[trigger] matrix_row(cols, x, n) == y
}

/// The linear map with columns `cols` reaches every row below `2^n`: it is invertible.
pub open spec fn is_surjective_map(cols: Seq<int>, n: nat) -> bool {
    forall|y: int| 0 <= y < pow2(n) ==> #[trigger] reaches(cols, n, y)
}

/// The column operations `ops` applied in order, `(i, j)` meaning `c_j <- c_j XOR c_i`.
pub open spec fn apply_column_ops(cols: Seq<int>, ops: Seq<(nat, nat)>) -> Seq<int>
    decreases ops.len(),
{
    if ops.len() == 0 {
        cols
    } else {
        apply_column_ops(column_op(cols, ops[0].0, ops[0].1), ops.drop_first())
    }
}

/// Every operation of `ops` is an elementary change on `n` inputs.
pub open spec fn valid_ops(ops: Seq<(nat, nat)>, n: nat) -> bool {
    forall|k: int| 0 <= k < ops.len() ==> #[trigger] valid_transvection(ops[k], n)
}

proof fn lemma_linear_row_cons(op: (nat, nat), rest: Seq<(nat, nat)>, x: int)
    ensures
        linear_row(seq![op] + rest, x) == transvected_row(op.0, op.1)(linear_row(rest, x)),
    decreases rest.len(),
{
    let ops = seq![op] + rest;
    if rest.len() == 0 {
        assert(ops.drop_last() =~= Seq::<(nat, nat)>::empty());
        assert(linear_row(ops.drop_last(), transvected_row(op.0, op.1)(x)) == transvected_row(op.0, op.1)(x));
    } else {
        let (i, j) = rest.last();
        assert(ops.drop_last() =~= seq![op] + rest.drop_last());
        assert(ops.last() == rest.last());
        lemma_linear_row_cons(op, rest.drop_last(), transvected_row(i, j)(x));
    }
}

/// Applying column operations composes the map with the product of the
/// matching input changes.
proof fn lemma_apply_column_ops(cols: Seq<int>, ops: Seq<(nat, nat)>, n: nat)
    requires
        n <= 20,
        columns_in_range(cols, n),
        valid_ops(ops, n),
    ensures
        columns_in_range(apply_column_ops(cols, ops), n),
        forall|x: int| 0 <= x < pow2(n) ==> 0 <= #[trigger] linear_row(ops, x) < pow2(n) && matrix_row(
            apply_column_ops(cols, ops),
            x,
            n,
        ) == matrix_row(cols, linear_row(ops, x), n),
    decreases ops.len(),
{
    if ops.len() > 0 {
        let (i, j) = ops[0];
        let rest = ops.drop_first();
        assert(valid_transvection(ops[0], n));
        assert(valid_ops(rest, n)) by {
            assert forall|k: int| 0 <= k < rest.len() implies #[trigger] valid_transvection(rest[k], n) by {
                assert(valid_transvection(ops[k + 1], n));
            }
        }
        let c1 = column_op(cols, i, j);
        lemma_translated_row(cols[i as int], n, cols[j as int]);
        assert(columns_in_range(c1, n));
        lemma_apply_column_ops(c1, rest, n);
        assert(ops =~= seq![ops[0]] + rest);
        assert forall|x: int| 0 <= x < pow2(n) implies 0 <= #[trigger] linear_row(ops, x) < pow2(n) && matrix_row(
            apply_column_ops(cols, ops),
            x,
            n,
        ) == matrix_row(cols, linear_row(ops, x), n) by {
            let y = linear_row(rest, x);
            lemma_linear_row_cons(ops[0], rest, x);
            lemma_column_op_row(cols, y, i, j, n);
            lemma_transvected_row(i, j, n, y);
        }
    }
}

/// Column operations keep the map invertible.
proof fn lemma_column_op_surjective(cols: Seq<int>, i: nat, j: nat, n: nat)
    requires
        n <= 20,
        i < n,
        j < n,
        i != j,
        columns_in_range(cols, n),
        is_surjective_map(cols, n),
    ensures
        is_surjective_map(column_op(cols, i, j), n),
{
    let c1 = column_op(cols, i, j);
    assert forall|y: int| 0 <= y < pow2(n) implies #[trigger] reaches(c1, n, y) by {
        assert(reaches(cols, n, y));
        let x = choose|x: int| 0 <= x < pow2(n) && #[trigger] matrix_row(cols, x, n) == y;
        let x2 = transvected_row(i, j)(x);
        lemma_transvected_row(i, j, n, x);
        lemma_column_op_row(cols, x2, i, j, n);
        assert(matrix_row(c1, x2, n) == y);
    }
}

proof fn lemma_reduced_parity(cols: Seq<int>, x: int, q: nat, r: nat, m: nat, n: nat)
    requires
        rows_reduced(cols, r, n),
        q < r,
        m <= n,
    ensures
        column_parity(cols, x, q, m) == (q < m && bit(x, q)),
    decreases m,
{
    if m > 0 {
        lemma_reduced_parity(cols, x, q, r, (m - 1) as nat, n);
        assert(bit(cols[m - 1], q) == (m - 1 == q));
    }
}

proof fn lemma_silent_parity(cols: Seq<int>, x: int, q: nat, m: nat)
    requires
        forall|l: int| 0 <= l < m ==> !(bit(x, l as nat) && #[trigger] bit(cols[l], q)),
    ensures
        !column_parity(cols, x, q, m),
    decreases m,
{
    if m > 0 {
        lemma_silent_parity(cols, x, q, (m - 1) as nat);
        assert(!(bit(x, (m - 1) as nat) && bit(cols[m - 1], q)));
    }
}

/// An invertible map reduced on the rows below `r` has a column at or after
/// `r` with bit `r` set.
proof fn lemma_pivot_exists(cols: Seq<int>, r: nat, n: nat)
    requires
        n <= 20,
        r < n,
        columns_in_range(cols, n),
        rows_reduced(cols, r, n),
        is_surjective_map(cols, n),
    ensures
        exists|k: int| r <= k < n && #[trigger] bit(cols[k], r),
{
    if !exists|k: int| r <= k < n && #[trigger] bit(cols[k], r) {
        lemma_unit_row(r);
        vstd::arithmetic::power2::lemma_pow2_strictly_increases(r, n);
        lemma_pow2_pos(r);
        let y = pow2(r) as int;
        assert(reaches(cols, n, y));
        let x = choose|x: int| 0 <= x < pow2(n) && #[trigger] matrix_row(cols, x, n) == y;
        lemma_matrix_row(cols, x, n, n);
        assert forall|q: nat| q < r implies !#[trigger] bit(x, q) by {
            lemma_reduced_parity(cols, x, q, r, n, n);
            assert(bit(y, q) == (q == r));
        }
        assert forall|l: int| 0 <= l < n implies !(bit(x, l as nat) && #[trigger] bit(cols[l], r)) by {
            if l < r {
                assert(!bit(x, l as nat));
            } else {
                assert(!bit(cols[l], r));
            }
        }
        lemma_silent_parity(cols, x, r, n);
        assert(bit(y, r));
    }
}

proof fn lemma_apply_column_ops_concat(cols: Seq<int>, a: Seq<(nat, nat)>, b: Seq<(nat, nat)>)
    ensures
        apply_column_ops(cols, a + b) == apply_column_ops(apply_column_ops(cols, a), b),
    decreases a.len(),
{
    if a.len() == 0 {
        assert(a + b =~= b);
    } else {
        assert((a + b).drop_first() =~= a.drop_first() + b);
        assert((a + b)[0] == a[0]);
        lemma_apply_column_ops_concat(column_op(cols, a[0].0, a[0].1), a.drop_first(), b);
    }
}

/// Makes bit `r` of column `r` one, keeping the rows below `r` reduced.
proof fn lemma_fix_pivot(cols: Seq<int>, r: nat, n: nat) -> (ops: Seq<(nat, nat)>)
    requires
        n <= 20,
        r < n,
        columns_in_range(cols, n),
        rows_reduced(cols, r, n),
        is_surjective_map(cols, n),
    ensures
        valid_ops(ops, n),
        columns_in_range(apply_column_ops(cols, ops), n),
        rows_reduced(apply_column_ops(cols, ops), r, n),
        bit(apply_column_ops(cols, ops)[r as int], r),
        is_surjective_map(apply_column_ops(cols, ops), n),
{
    if bit(cols[r as int], r) {
        let ops = Seq::<(nat, nat)>::empty();
        assert(apply_column_ops(cols, ops) == cols);
        ops
    } else {
        lemma_pivot_exists(cols, r, n);
        let k = choose|k: int| r <= k < n && #[trigger] bit(cols[k], r);
        let op: (nat, nat) = (k as nat, r);
        let ops = seq![op];
        let c1 = column_op(cols, k as nat, r);
        assert(apply_column_ops(cols, ops) == apply_column_ops(c1, ops.drop_first()));
        assert(ops.drop_first() =~= Seq::<(nat, nat)>::empty());
        lemma_translated_row(cols[k], n, cols[r as int]);
        assert(columns_in_range(c1, n));
        assert forall|q: nat, l: int| q < r && 0 <= l < n implies #[trigger] bit(c1[l], q) == (l == q) by {
            assert(bit(cols[k], q) == (k == q));
            assert(bit(cols[l], q) == (l == q));
        }
        lemma_column_op_surjective(cols, k as nat, r, n);
        ops
    }
}

/// Clears bit `r` from every column but column `r`, from column `j` on.
proof fn lemma_clear_row(cols: Seq<int>, r: nat, j: nat, n: nat) -> (ops: Seq<(nat, nat)>)
    requires
        n <= 20,
        r < n,
        j <= n,
        columns_in_range(cols, n),
        rows_reduced(cols, r, n),
        bit(cols[r as int], r),
        is_surjective_map(cols, n),
        forall|k: int| 0 <= k < j && k != r ==> !#[trigger] bit(cols[k], r),
    ensures
        valid_ops(ops, n),
        columns_in_range(apply_column_ops(cols, ops), n),
        rows_reduced(apply_column_ops(cols, ops), r + 1, n),
        is_surjective_map(apply_column_ops(cols, ops), n),
    decreases n - j,
{
    if j == n {
        let ops = Seq::<(nat, nat)>::empty();
        assert(apply_column_ops(cols, ops) == cols);
        assert forall|q: nat, k: int| q < r + 1 && 0 <= k < n implies #[trigger] bit(cols[k], q) == (k == q) by {
            if q == r && k != r {
                assert(!bit(cols[k], r));
            }
        }
        ops
    } else if j != r && bit(cols[j as int], r) {
        let c1 = column_op(cols, r, j);
        lemma_translated_row(cols[r as int], n, cols[j as int]);
        assert(columns_in_range(c1, n));
        assert forall|q: nat, l: int| q < r && 0 <= l < n implies #[trigger] bit(c1[l], q) == (l == q) by {
            assert(bit(cols[r as int], q) == (r == q));
            assert(bit(cols[l], q) == (l == q));
        }
        assert forall|k: int| 0 <= k < j + 1 && k != r implies !#[trigger] bit(c1[k], r) by {
            if k < j {
                assert(!bit(cols[k], r));
            }
        }
        lemma_column_op_surjective(cols, r, j, n);
        let rest = lemma_clear_row(c1, r, j + 1, n);
        let op: (nat, nat) = (r, j);
        let ops = seq![op] + rest;
        assert(ops.drop_first() =~= rest);
        assert(valid_ops(ops, n)) by {
            assert forall|k: int| 0 <= k < ops.len() implies #[trigger] valid_transvection(ops[k], n) by {
                if k > 0 {
                    assert(ops[k] == rest[k - 1]);
                }
            }
        }
        ops
    } else {
        assert forall|k: int| 0 <= k < j + 1 && k != r implies !#[trigger] bit(cols[k], r) by {}
        lemma_clear_row(cols, r, j + 1, n)
    }
}

/// Gaussian elimination by column operations: an invertible map reduced on
/// the rows below `r` is brought to the identity.
proof fn lemma_eliminate(cols: Seq<int>, r: nat, n: nat) -> (ops: Seq<(nat, nat)>)
    requires
        n <= 20,
        r <= n,
        columns_in_range(cols, n),
        rows_reduced(cols, r, n),
        is_surjective_map(cols, n),
    ensures
        valid_ops(ops, n),
        columns_in_range(apply_column_ops(cols, ops), n),
        rows_reduced(apply_column_ops(cols, ops), n, n),
    decreases n - r,
{
    if r == n {
        let ops = Seq::<(nat, nat)>::empty();
        assert(apply_column_ops(cols, ops) == cols);
        ops
    } else {
        let o1 = lemma_fix_pivot(cols, r, n);
        let c1 = apply_column_ops(cols, o1);
        let o2 = lemma_clear_row(c1, r, 0, n);
        let c2 = apply_column_ops(c1, o2);
        let o3 = lemma_eliminate(c2, r + 1, n);
        lemma_apply_column_ops_concat(cols, o1, o2);
        lemma_apply_column_ops_concat(cols, o1 + o2, o3);
        let ops = o1 + o2 + o3;
        assert(valid_ops(ops, n)) by {
            assert forall|k: int| 0 <= k < ops.len() implies #[trigger] valid_transvection(ops[k], n) by {
                if k < o1.len() {
                    assert(ops[k] == o1[k]);
                } else if k < o1.len() + o2.len() {
                    assert(ops[k] == o2[k - o1.len()]);
                } else {
                    assert(ops[k] == o3[k - o1.len() - o2.len()]);
                }
            }
        }
        ops
    }
}

/// Columns reduced on every row are the identity columns.
proof fn lemma_reduced_is_identity(cols: Seq<int>, n: nat)
    requires
        n <= 20,
        columns_in_range(cols, n),
        rows_reduced(cols, n, n),
    ensures
        cols == identity_columns(n),
{
    let id = identity_columns(n);
    assert forall|k: int| 0 <= k < n implies cols[k] == #[trigger] id[k] by {
        lemma_unit_row(k as nat);
        vstd::arithmetic::power2::lemma_pow2_strictly_increases(k as nat, n);
        lemma_pow2_pos(k as nat);
        assert forall|q: nat| q < n implies #[trigger] bit(cols[k], q) == bit(id[k], q) by {
            assert(bit(cols[k], q) == (k == q));
        }
        lemma_bits_determine(cols[k], id[k], n);
    }
    assert(cols =~= id);
}

/// `ops` in reverse order.
pub open spec fn rev_ops(ops: Seq<(nat, nat)>) -> Seq<(nat, nat)>
    decreases ops.len(),
{
    if ops.len() == 0 {
        ops
    } else {
        rev_ops(ops.drop_first()).push(ops[0])
    }
}

proof fn lemma_linear_row_range(ops: Seq<(nat, nat)>, n: nat, x: int)
    requires
        n <= 20,
        valid_ops(ops, n),
        0 <= x < pow2(n),
    ensures
        0 <= linear_row(ops, x) < pow2(n),
{
    let id = identity_columns(n);
    lemma_identity_columns(0, n);
    lemma_apply_column_ops(id, ops, n);
}

/// The input changes `ops` undone by the same changes in reverse order.
proof fn lemma_rev_ops(ops: Seq<(nat, nat)>, n: nat)
    requires
        n <= 20,
        valid_ops(ops, n),
    ensures
        valid_ops(rev_ops(ops), n),
        forall|x: int| 0 <= x < pow2(n) ==> #[trigger] linear_row(rev_ops(ops), linear_row(ops, x)) == x,
        forall|x: int| 0 <= x < pow2(n) ==> #[trigger] linear_row(ops, linear_row(rev_ops(ops), x)) == x,
    decreases ops.len(),
{
    if ops.len() == 0 {
        assert forall|x: int| 0 <= x < pow2(n) implies #[trigger] linear_row(rev_ops(ops), linear_row(ops, x)) == x by {}
        assert forall|x: int| 0 <= x < pow2(n) implies #[trigger] linear_row(ops, linear_row(rev_ops(ops), x)) == x by {}
    } else {
        let op = ops[0];
        let (i, j) = op;
        let rest = ops.drop_first();
        assert(valid_transvection(ops[0], n));
        assert(valid_ops(rest, n)) by {
            assert forall|k: int| 0 <= k < rest.len() implies #[trigger] valid_transvection(rest[k], n) by {
                assert(valid_transvection(ops[k + 1], n));
            }
        }
        lemma_rev_ops(rest, n);
        let rv = rev_ops(ops);
        let rr = rev_ops(rest);
        assert(rv == rr.push(op));
        assert(rv.drop_last() =~= rr);
        assert(valid_ops(rv, n)) by {
            assert forall|k: int| 0 <= k < rv.len() implies #[trigger] valid_transvection(rv[k], n) by {
                if k < rr.len() {
                    assert(rv[k] == rr[k]);
                }
            }
        }
        assert(ops =~= seq![op] + rest);
        assert forall|x: int| 0 <= x < pow2(n) implies #[trigger] linear_row(rv, linear_row(ops, x)) == x by {
            let y = linear_row(rest, x);
            lemma_linear_row_range(rest, n, x);
            lemma_linear_row_cons(op, rest, x);
            lemma_transvected_row(i, j, n, y);
            assert(linear_row(rv, transvected_row(i, j)(y)) == linear_row(rr, transvected_row(i, j)(
                transvected_row(i, j)(y),
            )));
            assert(linear_row(rr, linear_row(rest, x)) == x);
        }
        assert forall|x: int| 0 <= x < pow2(n) implies #[trigger] linear_row(ops, linear_row(rv, x)) == x by {
            let tx = transvected_row(i, j)(x);
            lemma_transvected_row(i, j, n, x);
            assert(linear_row(rv, x) == linear_row(rr, tx));
            lemma_linear_row_cons(op, rest, linear_row(rr, tx));
            assert(linear_row(rest, linear_row(rr, tx)) == tx);
        }
    }
}

/// Every invertible linear map is a product of elementary input changes.
pub proof fn lemma_invertible_map_decomposes(cols: Seq<int>, n: nat) -> (ops: Seq<(nat, nat)>)
    requires
        n <= 20,
        columns_in_range(cols, n),
        is_surjective_map(cols, n),
    ensures
        valid_ops(ops, n),
        forall|x: int| 0 <= x < pow2(n) ==> #[trigger] matrix_row(cols, x, n) == linear_row(ops, x),
{
    let elim = lemma_eliminate(cols, 0, n);
    let reduced = apply_column_ops(cols, elim);
    lemma_apply_column_ops(cols, elim, n);
    lemma_reduced_is_identity(reduced, n);
    let ops = rev_ops(elim);
    lemma_rev_ops(elim, n);
    assert forall|x: int| 0 <= x < pow2(n) implies #[trigger] matrix_row(cols, x, n) == linear_row(ops, x) by {
        let y = linear_row(ops, x);
        lemma_linear_row_range(ops, n, x);
        lemma_identity_columns(y, n);
        assert(matrix_row(reduced, y, n) == matrix_row(cols, linear_row(elim, y), n));
        assert(linear_row(elim, y) == x);
    }
    ops
}

/// The identity permutation reads every row as itself.
proof fn lemma_identity_permutation(n: nat, x: int)
    requires
        n <= 20,
        0 <= x < pow2(n),
    ensures
        is_permutation(crate::permutation::identity_permutation(n), n),
        permuted_row(crate::permutation::identity_permutation(n), n)(x) == x,
{
    let p = crate::permutation::identity_permutation(n);
    assert(is_permutation(p, n));
    lemma_permuted_row(p, n, x);
    assert forall|s: nat| s < n implies #[trigger] bit(permuted_row(p, n)(x), s) == bit(x, s) by {
        assert(p[s as int] == s);
    }
    lemma_bits_determine(permuted_row(p, n)(x), x, n);
}

/// `c(x) = k(A(x) XOR b)`, complemented when `complement` holds, on every
/// row, with `A` the linear map whose columns are `cols`.
pub open spec fn linear_map_related(
    c: BooleanFunction,
    k: BooleanFunction,
    cols: Seq<int>,
    b: int,
    complement: bool,
) -> bool {
    let n = c.input_width();
    &&& k.input_width() == n
    &&& forall|x: int|
        0 <= x < c.table().len() ==> #[trigger] c.table()[x] == if complement {
            k.table()[translated_row(b)(matrix_row(cols, x, n))] ^ 1u8
        } else {
            k.table()[translated_row(b)(matrix_row(cols, x, n))]
        }
}

/// The affine-invariant signature is invariant under `g(x) = f(Ax + b) XOR c`
/// for every invertible linear map `A`, translation `b` and output complement
/// `c`: functions so related share one signature.
pub proof fn lemma_signature_invertible_affine_invariant(
    c: BooleanFunction,
    k: BooleanFunction,
    cols: Seq<int>,
    b: int,
    complement: bool,
)
    requires
        valid_truth_table(c.input_width(), c.table()),
        valid_truth_table(k.input_width(), k.table()),
        columns_in_range(cols, c.input_width()),
        is_surjective_map(cols, c.input_width()),
        0 <= b < pow2(c.input_width()),
        linear_map_related(c, k, cols, b, complement),
    ensures
        signature_of(c) == signature_of(k),
{
    let n = c.input_width();
    let ops = lemma_invertible_map_decomposes(cols, n);
    let p = crate::permutation::identity_permutation(n);
    lemma_identity_permutation(n, 0);
    assert forall|x: int| 0 <= x < c.table().len() implies #[trigger] c.table()[x] == if complement {
        k.table()[translated_row(b)(linear_row(ops, permuted_row(p, n)(x)))] ^ 1u8
    } else {
        k.table()[translated_row(b)(linear_row(ops, permuted_row(p, n)(x)))]
    } by {
        lemma_identity_permutation(n, x);
        assert(matrix_row(cols, x, n) == linear_row(ops, x));
    }
    assert(affine_related(c, k, p, ops, b, complement));
    lemma_signature_affine_invariant(c, k, p, ops, b, complement);
}

/// When the affine-invariant screen excludes every reference, no reference
/// equals the candidate up to output complement, up to a permutation of the
/// inputs, or up to `g(x) = f(Ax + b) XOR c` for any invertible linear map
/// `A`, translation `b` and output complement `c`.
pub proof fn lemma_excluded_is_sound(
    c: BooleanFunction,
    refs: Seq<BooleanFunction>,
    j: int,
    p: Seq<u32>,
    cols: Seq<int>,
    b: int,
    complement: bool,
)
    requires
        is_affine_screen(AffineInvariantScreen::Excluded, c, refs),
        0 <= j < refs.len(),
        valid_truth_table(c.input_width(), c.table()),
        valid_truth_table(refs[j].input_width(), refs[j].table()),
        is_permutation(p, c.input_width()),
        columns_in_range(cols, c.input_width()),
        is_surjective_map(cols, c.input_width()),
        0 <= b < pow2(c.input_width()),
    ensures
        !complement_related(refs[j], c),
        !relates_under(c, refs[j], p, complement),
        !linear_map_related(c, refs[j], cols, b, complement),
{
    assert(!crate::equivalence_screen::signatures_agree(refs[j], c));
    if complement_related(refs[j], c) {
        lemma_complement_related_same_signature(refs[j], c);
    }
    if relates_under(c, refs[j], p, complement) {
        lemma_signature_permutation_invariant(c, refs[j], p, complement);
    }
    if linear_map_related(c, refs[j], cols, b, complement) {
        lemma_signature_invertible_affine_invariant(c, refs[j], cols, b, complement);
    }
}

} // verus!
