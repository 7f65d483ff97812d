//! Arithmetic model of packed Boolean inputs.
//!
//! A row index `x` of a truth table packs the Boolean inputs `x_0, x_1, ...`
//! with `x_i` stored in bit `i`. The spec functions below describe those bits
//! with plain integer arithmetic so that proofs about truth-table transforms can
//! be carried out by induction on the number of bits.

use vstd::prelude::*;
use vstd::arithmetic::power2::{pow2, lemma_pow2_pos, lemma_pow2_unfold, lemma_pow2_adds, lemma2_to64};
use vstd::arithmetic::div_mod::{lemma_div_denominator, lemma_fundamental_div_mod, lemma_basic_div};

verus! {

/// `x` shifted right by `k` bit positions.
pub open spec fn shr(x: int, k: nat) -> int
    decreases k,
{
    if k == 0 {
        x
    } else {
        shr(x / 2, (k - 1) as nat)
    }
}

/// Bit `i` of the packed value `x`.
pub open spec fn bit(x: int, i: nat) -> bool {
    shr(x, i) % 2 == 1
}

/// First row of the aligned block of `2^k` rows that contains row `x`.
pub open spec fn block_base(x: int, k: nat) -> int {
    shr(x, k) * pow2(k)
}

/// Parity of `popcount(a & x)` over the low `k` bits: the GF(2) inner product `a . x`.
pub open spec fn dot_parity(a: int, x: int, k: nat) -> bool
    decreases k,
{
    if k == 0 {
        false
    } else {
        dot_parity(a, x, (k - 1) as nat) != (bit(a, (k - 1) as nat) && bit(x, (k - 1) as nat))
    }
}

/// Every set bit of `x` below bit `k` is also set in `u`.
pub open spec fn bits_subset(x: int, u: int, k: nat) -> bool
    decreases k,
{
    if k == 0 {
        true
    } else {
        bits_subset(x, u, (k - 1) as nat) && (bit(x, (k - 1) as nat) ==> bit(u, (k - 1) as nat))
    }
}

/// Number of set bits of `x` below bit `k` (the Hamming weight of the low `k` bits).
pub open spec fn bit_weight(x: int, k: nat) -> nat
    decreases k,
{
    if k == 0 {
        0
    } else {
        bit_weight(x, (k - 1) as nat) + if bit(x, (k - 1) as nat) { 1nat } else { 0nat }
    }
}

/// `f(0) + f(1) + ... + f(m - 1)`.
pub open spec fn sum(f: spec_fn(int) -> int, m: nat) -> int
    decreases m,
{
    if m == 0 {
        0
    } else {
        sum(f, (m - 1) as nat) + f(m - 1)
    }
}

pub proof fn lemma_shr_is_div(x: int, k: nat)
    requires
        0 <= x,
    ensures
        shr(x, k) == x / (pow2(k) as int),
        shr(x, k) >= 0,
    decreases k,
{
    lemma_pow2_pos(k);
    if k == 0 {
        lemma2_to64();
    } else {
        lemma_shr_is_div(x / 2, (k - 1) as nat);
        lemma_pow2_unfold(k);
        lemma_pow2_pos((k - 1) as nat);
        lemma_div_denominator(x, 2, pow2((k - 1) as nat) as int);
    }
}

pub proof fn lemma_shr_half(x: int, k: nat)
    ensures
        shr(x / 2, k) == shr(x, k) / 2,
    decreases k,
{
    if k > 0 {
        lemma_shr_half(x / 2, (k - 1) as nat);
    }
}

/// `shr(x, k + 1) == shr(x, k) / 2`.
pub proof fn lemma_shr_succ(x: int, k: nat)
    ensures
        shr(x, k + 1) == shr(x, k) / 2,
{
    lemma_shr_half(x, k);
}

/// Adding a multiple of `2^m` shifts cleanly through the low bits.
pub proof fn lemma_shr_add_multiple(x: int, c: int, m: nat, i: nat)
    requires
        i <= m,
        0 <= c,
    ensures
        shr(x + c * pow2(m), i) == shr(x, i) + c * pow2((m - i) as nat),
    decreases i,
{
    if i == 0 {
    } else {
        lemma_pow2_unfold(m);
        let z = c * pow2((m - 1) as nat);
        assert(c * pow2(m) == 2 * z) by (nonlinear_arith)
            requires
                pow2(m) == 2 * pow2((m - 1) as nat),
                z == c * pow2((m - 1) as nat),
        ;
        assert((x + 2 * z) / 2 == x / 2 + z);
        lemma_shr_add_multiple(x / 2, c, (m - 1) as nat, (i - 1) as nat);
    }
}

/// The low bits below `m` are unchanged by adding a multiple of `2^m`.
pub proof fn lemma_bit_add_multiple(x: int, c: int, m: nat, i: nat)
    requires
        i < m,
        0 <= c,
    ensures
        bit(x + c * pow2(m), i) == bit(x, i),
{
    lemma_shr_add_multiple(x, c, m, i);
    lemma_pow2_unfold((m - i) as nat);
    let e = c * pow2((m - i) as nat);
    assert(e == 2 * (c * pow2((m - i - 1) as nat))) by (nonlinear_arith)
        requires
            e == c * pow2((m - i) as nat),
            pow2((m - i) as nat) == 2 * pow2((m - i - 1) as nat),
    ;
}

/// Values below `2^k` have no bits at or above position `k`.
pub proof fn lemma_shr_small(y: int, k: nat)
    requires
        0 <= y < pow2(k),
    ensures
        shr(y, k) == 0,
        !bit(y, k),
{
    lemma_shr_is_div(y, k);
    lemma_pow2_pos(k);
    lemma_basic_div(y, pow2(k) as int);
}

/// `x < 2^n` exactly when its shift by `k <= n` is below `2^(n-k)`.
pub proof fn lemma_shr_bound(x: int, k: nat, n: nat)
    requires
        0 <= x,
        k <= n,
    ensures
        (x < pow2(n) as int) == (shr(x, k) < pow2((n - k) as nat) as int),
{
    lemma_shr_is_div(x, k);
    lemma_pow2_pos(k);
    lemma_pow2_pos((n - k) as nat);
    lemma_pow2_adds(k, (n - k) as nat);
    let p = pow2(k) as int;
    let q = pow2((n - k) as nat) as int;
    lemma_fundamental_div_mod(x, p);
    assert((x < p * q) == (x / p < q)) by (nonlinear_arith)
        requires
            p > 0,
            q > 0,
            x == p * (x / p) + x % p,
            0 <= x % p < p,
    ;
}

/// Decomposition of a row around bit `k - 1` (the bit a butterfly stage pairs on).
pub proof fn lemma_split_bit(j: int, k: nat)
    requires
        0 <= j,
        k >= 1,
    ensures
        ({
            let h = pow2((k - 1) as nat);
            let b = block_base(j, k);
            &&& !bit(j, (k - 1) as nat) ==> block_base(j, (k - 1) as nat) == b
                && block_base(j + h, (k - 1) as nat) == b + h && bit(j + h, (k - 1) as nat)
                && b <= j < b + h
            &&& bit(j, (k - 1) as nat) ==> j - h >= 0 && block_base(j - h, (k - 1) as nat) == b
                && block_base(j, (k - 1) as nat) == b + h && !bit(j - h, (k - 1) as nat)
                && b + h <= j < b + 2 * h
        }),
{
    let m = (k - 1) as nat;
    let h = pow2(m) as int;
    lemma_pow2_pos(m);
    lemma_pow2_unfold(k);
    lemma_shr_succ(j, m);
    lemma_shr_is_div(j, m);
    let q = shr(j, m);
    assert(shr(j, k) == q / 2);
    lemma_fundamental_div_mod(j, h);
    assert(j == h * q + j % h && 0 <= j % h < h);
    // Shifting `j + h` adds one to the quotient.
    lemma_shr_add_multiple(j, 1, m, m);
    assert(pow2((m - m) as nat) == 1) by {
        lemma2_to64();
    }
    assert(shr(j + h, m) == q + 1) by {
        assert(j + 1 * h == j + h);
    }
    if !bit(j, m) {
        assert(q % 2 == 0);
        assert(q == 2 * (q / 2));
        assert(block_base(j, m) == q * h);
        assert(block_base(j, k) == (q / 2) * pow2(k));
        assert((q / 2) * (2 * h) == q * h) by (nonlinear_arith)
            requires
                q == 2 * (q / 2),
        ;
        assert(block_base(j + h, m) == (q + 1) * h);
        assert((q + 1) * h == q * h + h) by (nonlinear_arith);
        assert(j < q * h + h) by (nonlinear_arith)
            requires
                j == h * q + j % h,
                j % h < h,
        ;
        assert(q * h <= j) by (nonlinear_arith)
            requires
                j == h * q + j % h,
                0 <= j % h,
        ;
    } else {
        assert(q % 2 == 1);
        assert(q >= 1);
        assert(j - h >= 0) by (nonlinear_arith)
            requires
                j == h * q + j % h,
                j % h >= 0,
                q >= 1,
                h > 0,
        ;
        lemma_shr_add_multiple(j - h, 1, m, m);
        assert(shr(j - h, m) == q - 1) by {
            assert(j - h + 1 * h == j);
        }
        assert(q == 2 * (q / 2) + 1);
        assert(block_base(j - h, m) == (q - 1) * h);
        assert(block_base(j, k) == (q / 2) * pow2(k));
        assert((q / 2) * (2 * h) == (q - 1) * h) by (nonlinear_arith)
            requires
                q == 2 * (q / 2) + 1,
        ;
        assert(block_base(j, m) == q * h);
        assert(q * h == (q - 1) * h + h) by (nonlinear_arith);
        assert(j < q * h + h) by (nonlinear_arith)
            requires
                j == h * q + j % h,
                j % h < h,
        ;
        assert(q * h <= j) by (nonlinear_arith)
            requires
                j == h * q + j % h,
                0 <= j % h,
        ;
    }
}

/// Rows that agree on bits below `m` have the same inner-product parity.
pub proof fn lemma_dot_parity_low_bits(a: int, a2: int, x: int, x2: int, m: nat)
    requires
        forall|i: nat| i < m ==> bit(a, i) == bit(a2, i),
        forall|i: nat| i < m ==> bit(x, i) == bit(x2, i),
    ensures
        dot_parity(a, x, m) == dot_parity(a2, x2, m),
    decreases m,
{
    if m > 0 {
        lemma_dot_parity_low_bits(a, a2, x, x2, (m - 1) as nat);
        assert(bit(a, (m - 1) as nat) == bit(a2, (m - 1) as nat));
        assert(bit(x, (m - 1) as nat) == bit(x2, (m - 1) as nat));
    }
}

/// Rows that agree on bits below `m` have the same subset relation.
pub proof fn lemma_bits_subset_low_bits(x: int, x2: int, u: int, u2: int, m: nat)
    requires
        forall|i: nat| i < m ==> bit(x, i) == bit(x2, i),
        forall|i: nat| i < m ==> bit(u, i) == bit(u2, i),
    ensures
        bits_subset(x, u, m) == bits_subset(x2, u2, m),
    decreases m,
{
    if m > 0 {
        lemma_bits_subset_low_bits(x, x2, u, u2, (m - 1) as nat);
        assert(bit(x, (m - 1) as nat) == bit(x2, (m - 1) as nat));
        assert(bit(u, (m - 1) as nat) == bit(u2, (m - 1) as nat));
    }
}

/// Adding `2^m` leaves every bit below `m` unchanged.
pub proof fn lemma_low_bits_after_add(x: int, m: nat)
    ensures
        forall|i: nat| i < m ==> bit(x + pow2(m), i) == bit(x, i),
{
    assert forall|i: nat| i < m implies bit(x + pow2(m), i) == bit(x, i) by {
        lemma_bit_add_multiple(x, 1, m, i);
        assert(x + 1 * pow2(m) == x + pow2(m));
    }
}

pub proof fn lemma_sum_ext(f: spec_fn(int) -> int, g: spec_fn(int) -> int, m: nat)
    requires
        forall|i: int| 0 <= i < m ==> #[trigger] f(i) == g(i),
    ensures
        sum(f, m) == sum(g, m),
    decreases m,
{
    if m > 0 {
        lemma_sum_ext(f, g, (m - 1) as nat);
    }
}

pub proof fn lemma_sum_split(f: spec_fn(int) -> int, a: nat, b: nat)
    ensures
        sum(f, a + b) == sum(f, a) + sum(|i: int| f(a + i), b),
    decreases b,
{
    if b > 0 {
        lemma_sum_split(f, a, (b - 1) as nat);
        assert((a + b - 1) as nat == (a + (b - 1)) as nat);
    }
}

pub proof fn lemma_sum_neg(f: spec_fn(int) -> int, m: nat)
    ensures
        sum(|i: int| -f(i), m) == -sum(f, m),
    decreases m,
{
    if m > 0 {
        lemma_sum_neg(f, (m - 1) as nat);
    }
}

pub proof fn lemma_sum_zero(m: nat)
    ensures
        sum(|i: int| 0, m) == 0,
    decreases m,
{
    if m > 0 {
        lemma_sum_zero((m - 1) as nat);
    }
}

pub proof fn lemma_sum_bounds(f: spec_fn(int) -> int, m: nat, lo: int, hi: int)
    requires
        forall|i: int| 0 <= i < m ==> lo <= #[trigger] f(i) <= hi,
    ensures
        m * lo <= sum(f, m) <= m * hi,
    decreases m,
{
    if m > 0 {
        lemma_sum_bounds(f, (m - 1) as nat, lo, hi);
        assert(lo <= f(m - 1) <= hi);
        assert(sum(f, m) == sum(f, (m - 1) as nat) + f(m - 1));
        let p = (m - 1) as nat;
        assert(p * lo + lo == m * lo) by (nonlinear_arith)
            requires
                p + 1 == m,
        ;
        assert(p * hi + hi == m * hi) by (nonlinear_arith)
            requires
                p + 1 == m,
        ;
        assert(m * lo <= sum(f, m));
        assert(sum(f, m) <= m * hi);
    } else {
        assert(sum(f, 0) == 0);
        assert(m * lo == 0) by (nonlinear_arith)
            requires
                m == 0,
        ;
        assert(m * hi == 0) by (nonlinear_arith)
            requires
                m == 0,
        ;
    }
}

} // verus!
