//! Exact Walsh and algebraic-normal-form analysis of truth tables.
//!
//! Row `x` of a truth table holds `f(x)`; a byte counts as the Boolean value
//! `true` when it is non-zero. The Walsh coefficient of `f` at `a` is
//! `W_f(a) = sum_x (-1)^(f(x) XOR a.x)` and the algebraic-normal-form
//! coefficient at `u` is the XOR of `f(x)` over every `x` whose set bits lie in `u`.
//! The fast transforms below are proved equal to those sums.

use vstd::prelude::*;
use vstd::arithmetic::power2::{pow2, lemma_pow2_pos, lemma_pow2_unfold, lemma_pow2_adds};
use crate::bitwise::{
    shr, bit, block_base, dot_parity, bits_subset, bit_weight, sum, lemma_shr_is_div, lemma_shr_add_multiple,
    lemma_shr_small, lemma_shr_bound, lemma_split_bit, lemma_dot_parity_low_bits,
    lemma_bits_subset_low_bits, lemma_low_bits_after_add, lemma_sum_ext, lemma_sum_split,
    lemma_sum_neg, lemma_sum_zero,
};

verus! {

/// `(-1)^b`.
pub open spec fn pm(b: bool) -> int {
    if b {
        -1
    } else {
        1
    }
}

/// Row `x` of the truth table read as a Boolean.
pub open spec fn table_bit(t: Seq<u8>, x: int) -> bool {
    t[x] != 0
}

/// `W_f(a) = sum over x < 2^n of (-1)^(f(x) XOR a.x)`.
pub open spec fn walsh_coefficient(t: Seq<u8>, n: nat, a: int) -> int {
    sum(|x: int| pm(table_bit(t, x) != dot_parity(a, x, n)), pow2(n))
}

/// Algebraic-normal-form coefficient of the monomial `u`: the parity of the number of
/// rows `x` below `2^n` with `x` a bit-subset of `u` and `f(x) = 1`.
pub open spec fn anf_coefficient(t: Seq<u8>, n: nat, u: int) -> bool {
    sum(|x: int| if bits_subset(x, u, n) && table_bit(t, x) { 1int } else { 0int }, pow2(n)) % 2
        == 1
}

/// Value held at row `j` after `k` butterfly stages of the Walsh-Hadamard transform.
pub open spec fn walsh_stage(t: Seq<u8>, k: nat, j: int) -> int
    decreases k,
{
    if k == 0 {
        pm(table_bit(t, j))
    } else {
        let h = pow2((k - 1) as nat) as int;
        if !bit(j, (k - 1) as nat) {
            walsh_stage(t, (k - 1) as nat, j) + walsh_stage(t, (k - 1) as nat, j + h)
        } else {
            walsh_stage(t, (k - 1) as nat, j - h) - walsh_stage(t, (k - 1) as nat, j)
        }
    }
}

/// Value held at row `j` after `k` butterfly stages of the Moebius transform.
pub open spec fn mobius_stage(t: Seq<u8>, k: nat, j: int) -> bool
    decreases k,
{
    if k == 0 {
        table_bit(t, j)
    } else {
        let h = pow2((k - 1) as nat) as int;
        if !bit(j, (k - 1) as nat) {
            mobius_stage(t, (k - 1) as nat, j)
        } else {
            mobius_stage(t, (k - 1) as nat, j - h) != mobius_stage(t, (k - 1) as nat, j)
        }
    }
}

pub proof fn lemma_walsh_stage_bound(t: Seq<u8>, k: nat, j: int)
    ensures
        -pow2(k) <= walsh_stage(t, k, j) <= pow2(k),
    decreases k,
{
    if k == 0 {
        vstd::arithmetic::power2::lemma2_to64();
    } else {
        let h = pow2((k - 1) as nat) as int;
        lemma_pow2_unfold(k);
        lemma_walsh_stage_bound(t, (k - 1) as nat, j);
        lemma_walsh_stage_bound(t, (k - 1) as nat, j + h);
        lemma_walsh_stage_bound(t, (k - 1) as nat, j - h);
    }
}

/// Facts about the two halves of an aligned block of `2^k` rows.
proof fn lemma_half_block_bits(y: int, m: nat)
    requires
        0 <= y < pow2(m),
    ensures
        !bit(y, m),
        bit(y + pow2(m), m),
        forall|i: nat| i < m ==> bit(y + pow2(m), i) == bit(y, i),
{
    lemma_shr_small(y, m);
    lemma_shr_add_multiple(y, 1, m, m);
    assert(y + 1 * pow2(m) == y + pow2(m));
    vstd::arithmetic::power2::lemma2_to64();
    assert(pow2((m - m) as nat) == 1);
    lemma_low_bits_after_add(y, m);
}

/// After `k` butterfly stages, row `j` holds the Walsh sum over the low `k` bits of
/// the block of `2^k` rows containing `j`.
pub proof fn lemma_walsh_stage_sum(t: Seq<u8>, k: nat, j: int)
    requires
        0 <= j,
    ensures
        walsh_stage(t, k, j) == sum(
            |y: int| pm(dot_parity(j, y, k)) * pm(table_bit(t, block_base(j, k) + y)),
            pow2(k),
        ),
    decreases k,
{
    let f = |y: int| pm(dot_parity(j, y, k)) * pm(table_bit(t, block_base(j, k) + y));
    if k == 0 {
        vstd::arithmetic::power2::lemma2_to64();
        assert(block_base(j, 0) == j);
        assert(sum(f, 0) == 0);
        assert(sum(f, 1) == f(0));
    } else {
        let m = (k - 1) as nat;
        let h = pow2(m) as int;
        let b = block_base(j, k);
        lemma_pow2_pos(m);
        lemma_pow2_unfold(k);
        lemma_split_bit(j, k);
        lemma_sum_split(f, h as nat, h as nat);
        assert((h + h) as nat == pow2(k));
        let upper = |y: int| f(h + y);
        assert forall|y: int| 0 <= y < h implies dot_parity(j, y, k) == dot_parity(j, y, m) by {
            lemma_half_block_bits(y, m);
        }
        assert forall|y: int| 0 <= y < h implies dot_parity(j, h + y, k) == (dot_parity(j, y, m)
            != bit(j, m)) by {
            lemma_half_block_bits(y, m);
            lemma_dot_parity_low_bits(j, j, y + h, y, m);
            assert(h + y == y + h);
        }
        if !bit(j, m) {
            lemma_walsh_stage_sum(t, m, j);
            lemma_walsh_stage_sum(t, m, j + h);
            lemma_low_bits_after_add(j, m);
            let g1 = |y: int| pm(dot_parity(j, y, m)) * pm(table_bit(t, block_base(j, m) + y));
            let g2 = |y: int|
                pm(dot_parity(j + h, y, m)) * pm(table_bit(t, block_base(j + h, m) + y));
            assert forall|y: int| 0 <= y < h implies #[trigger] f(y) == g1(y) by {}
            assert forall|y: int| 0 <= y < h implies #[trigger] upper(y) == g2(y) by {
                lemma_dot_parity_low_bits(j + h, j, y, y, m);
                assert(b + (h + y) == block_base(j + h, m) + y);
            }
            lemma_sum_ext(f, g1, h as nat);
            lemma_sum_ext(upper, g2, h as nat);
        } else {
            lemma_walsh_stage_sum(t, m, j - h);
            lemma_walsh_stage_sum(t, m, j);
            lemma_low_bits_after_add(j - h, m);
            let g1 = |y: int| pm(dot_parity(j - h, y, m)) * pm(table_bit(t, block_base(j - h, m) + y));
            let g2 = |y: int| pm(dot_parity(j, y, m)) * pm(table_bit(t, block_base(j, m) + y));
            let neg2 = |y: int| -g2(y);
            assert forall|y: int| 0 <= y < h implies #[trigger] f(y) == g1(y) by {
                assert(j - h + h == j);
                lemma_dot_parity_low_bits(j - h, j, y, y, m);
            }
            assert forall|y: int| 0 <= y < h implies #[trigger] upper(y) == neg2(y) by {
                assert(b + (h + y) == block_base(j, m) + y);
                lemma_half_block_bits(y, m);
                lemma_dot_parity_low_bits(j, j, y + h, y, m);
                assert(h + y == y + h);
                assert(dot_parity(j, h + y, k) == !dot_parity(j, y, m));
                let d = dot_parity(j, y, m);
                let tb = pm(table_bit(t, block_base(j, m) + y));
                assert(upper(y) == pm(!d) * tb);
                assert(neg2(y) == -(pm(d) * tb));
                assert(pm(!d) * tb == -(pm(d) * tb)) by (nonlinear_arith)
                    requires
                        pm(!d) == -pm(d),
                ;
            }
            lemma_sum_ext(f, g1, h as nat);
            lemma_sum_ext(upper, neg2, h as nat);
            lemma_sum_neg(g2, h as nat);
        }
    }
}

/// After `k` Moebius stages, row `j` holds the parity of the rows of its block whose
/// low `k` bits form a subset of the low bits of `j`.
pub proof fn lemma_mobius_stage_sum(t: Seq<u8>, k: nat, j: int)
    requires
        0 <= j,
    ensures
        mobius_stage(t, k, j) == (sum(
            |y: int|
                if bits_subset(y, j, k) && table_bit(t, block_base(j, k) + y) {
                    1int
                } else {
                    0int
                },
            pow2(k),
        ) % 2 == 1),
    decreases k,
{
    let f = |y: int|
        if bits_subset(y, j, k) && table_bit(t, block_base(j, k) + y) {
            1int
        } else {
            0int
        };
    if k == 0 {
        vstd::arithmetic::power2::lemma2_to64();
        assert(block_base(j, 0) == j);
        assert(sum(f, 0) == 0);
        assert(sum(f, 1) == f(0));
    } else {
        let m = (k - 1) as nat;
        let h = pow2(m) as int;
        let b = block_base(j, k);
        lemma_pow2_pos(m);
        lemma_pow2_unfold(k);
        lemma_split_bit(j, k);
        lemma_sum_split(f, h as nat, h as nat);
        assert((h + h) as nat == pow2(k));
        let upper = |y: int| f(h + y);
        assert forall|y: int| 0 <= y < h implies bits_subset(y, j, k) == bits_subset(y, j, m) by {
            lemma_half_block_bits(y, m);
        }
        assert forall|y: int| 0 <= y < h implies bits_subset(h + y, j, k) == (bits_subset(y, j, m)
            && bit(j, m)) by {
            lemma_half_block_bits(y, m);
            lemma_bits_subset_low_bits(y + h, y, j, j, m);
            assert(h + y == y + h);
        }
        if !bit(j, m) {
            lemma_mobius_stage_sum(t, m, j);
            let g1 = |y: int|
                if bits_subset(y, j, m) && table_bit(t, block_base(j, m) + y) {
                    1int
                } else {
                    0int
                };
            assert forall|y: int| 0 <= y < h implies #[trigger] f(y) == g1(y) by {}
            assert forall|y: int| 0 <= y < h implies #[trigger] upper(y) == 0 by {
                lemma_half_block_bits(y, m);
                lemma_bits_subset_low_bits(y + h, y, j, j, m);
                assert(h + y == y + h);
                assert(!bits_subset(h + y, j, k));
            }
            lemma_sum_ext(f, g1, h as nat);
            lemma_sum_ext(upper, |y: int| 0int, h as nat);
            lemma_sum_zero(h as nat);
        } else {
            lemma_mobius_stage_sum(t, m, j - h);
            lemma_mobius_stage_sum(t, m, j);
            lemma_low_bits_after_add(j - h, m);
            let g1 = |y: int|
                if bits_subset(y, j - h, m) && table_bit(t, block_base(j - h, m) + y) {
                    1int
                } else {
                    0int
                };
            let g2 = |y: int|
                if bits_subset(y, j, m) && table_bit(t, block_base(j, m) + y) {
                    1int
                } else {
                    0int
                };
            assert forall|y: int| 0 <= y < h implies #[trigger] f(y) == g1(y) by {
                assert(j - h + h == j);
                lemma_bits_subset_low_bits(y, y, j - h, j, m);
            }
            assert forall|y: int| 0 <= y < h implies #[trigger] upper(y) == g2(y) by {
                assert(b + (h + y) == block_base(j, m) + y);
            }
            lemma_sum_ext(f, g1, h as nat);
            lemma_sum_ext(upper, g2, h as nat);
            let s1 = sum(g1, h as nat);
            let s2 = sum(g2, h as nat);
            assert(((s1 + s2) % 2 == 1) == ((s1 % 2 == 1) != (s2 % 2 == 1)));
        }
    }
}

/// The last butterfly stage of an `n`-input table is the Walsh spectrum.
pub proof fn lemma_walsh_stage_full(t: Seq<u8>, n: nat, a: int)
    requires
        0 <= a < pow2(n),
    ensures
        walsh_stage(t, n, a) == walsh_coefficient(t, n, a),
{
    lemma_walsh_stage_sum(t, n, a);
    lemma_shr_small(a, n);
    assert(block_base(a, n) == 0);
    let f = |y: int| pm(dot_parity(a, y, n)) * pm(table_bit(t, block_base(a, n) + y));
    let g = |x: int| pm(table_bit(t, x) != dot_parity(a, x, n));
    assert forall|y: int| 0 <= y < pow2(n) implies #[trigger] f(y) == g(y) by {
        assert(block_base(a, n) + y == y);
    }
    lemma_sum_ext(f, g, pow2(n));
}

/// The last Moebius stage of an `n`-input table is the algebraic normal form.
pub proof fn lemma_mobius_stage_full(t: Seq<u8>, n: nat, u: int)
    requires
        0 <= u < pow2(n),
    ensures
        mobius_stage(t, n, u) == anf_coefficient(t, n, u),
{
    lemma_mobius_stage_sum(t, n, u);
    lemma_shr_small(u, n);
    assert(block_base(u, n) == 0);
    let f = |y: int|
        if bits_subset(y, u, n) && table_bit(t, block_base(u, n) + y) {
            1int
        } else {
            0int
        };
    let g = |x: int| if bits_subset(x, u, n) && table_bit(t, x) { 1int } else { 0int };
    assert forall|y: int| 0 <= y < pow2(n) implies #[trigger] f(y) == g(y) by {
        assert(block_base(u, n) + y == y);
    }
    lemma_sum_ext(f, g, pow2(n));
}

/// A row without bit `k` set still has its partner `j + 2^k` inside the table.
proof fn lemma_partner_in_range(j: int, k: nat, n: nat)
    requires
        0 <= j < pow2(n),
        k < n,
        !bit(j, k),
    ensures
        j + pow2(k) < pow2(n),
        bit(j + pow2(k), k),
        j + pow2(k) - pow2(k) == j,
{
    lemma_split_bit(j, k + 1);
    assert((k + 1 - 1) as nat == k);
    lemma_shr_bound(j, k + 1, n);
    let q = shr(j, k + 1);
    let e = (n - (k + 1)) as nat;
    lemma_shr_is_div(j, k + 1);
    lemma_pow2_adds(k + 1, e);
    assert((k + 1 + e) as nat == n);
    lemma_pow2_unfold(k + 1);
    lemma_pow2_pos(k);
    assert(block_base(j, k + 1) == q * pow2(k + 1));
    assert(q < pow2(e));
    assert(q * pow2(k + 1) + pow2(k + 1) <= pow2(k + 1) * pow2(e)) by (nonlinear_arith)
        requires
            q < pow2(e),
            pow2(k + 1) > 0,
    ;
    assert(pow2(n) == pow2(k + 1) * pow2(e));
    assert(pow2(k + 1) == 2 * pow2(k));
}

/// Exact Walsh-Hadamard spectrum of an `n`-input truth table.
///
/// Entry `a` of the result is `W_f(a) = sum_x (-1)^(f(x) XOR a.x)`.
pub fn walsh_hadamard(table: &[u8], input_bits: u32) -> (spectrum: Vec<i64>)
    requires
        input_bits < 62,
        table@.len() == pow2(input_bits as nat),
    ensures
        spectrum@.len() == table@.len(),
        forall|a: int| 0 <= a < table@.len() ==> #[trigger] spectrum@[a] == walsh_coefficient(
            table@,
            input_bits as nat,
            a,
        ),
{
    let ghost t = table@;
    let ghost n = input_bits as nat;
    let rows = table.len();
    let mut w: Vec<i64> = Vec::with_capacity(rows);
    let mut x: usize = 0;
    while x < rows
        invariant
            rows == t.len(),
            t == table@,
            x <= rows,
            w@.len() == x,
            forall|i: int| 0 <= i < x ==> w@[i] == walsh_stage(t, 0, i),
        decreases rows - x,
    {
        if table[x] != 0 {
            w.push(-1);
        } else {
            w.push(1);
        }
        x += 1;
    }
    let mut stride: usize = 1;
    let ghost mut k: nat = 0;
    proof {
        vstd::arithmetic::power2::lemma2_to64();
    }
    while stride < rows
        invariant
            rows == t.len(),
            t == table@,
            rows == pow2(n),
            n < 62,
            stride == pow2(k),
            k <= n,
            w@.len() == rows,
            forall|i: int| 0 <= i < rows ==> w@[i] == walsh_stage(t, k, i),
        decreases rows - stride,
    {
        proof {
            if k > n {
                vstd::arithmetic::power2::lemma_pow2_strictly_increases(n, k);
            }
            assert(k < n);
        }
        proof {
            lemma_pow2_pos(k);
            assert forall|i: int| 0 <= i < rows && bit(i, k) implies i - stride >= 0 by {
                lemma_split_bit(i, k + 1);
                assert((k + 1 - 1) as nat == k);
                lemma_shr_is_div(i, k + 1);
                lemma_pow2_pos(k + 1);
                assert(block_base(i, k + 1) >= 0) by (nonlinear_arith)
                    requires
                        shr(i, k + 1) >= 0,
                        pow2(k + 1) > 0,
                        block_base(i, k + 1) == shr(i, k + 1) * pow2(k + 1),
                ;
            }
        }
        let mut j: usize = 0;
        while j < rows
            invariant
                rows == t.len(),
                rows == pow2(n),
                n < 62,
                stride == pow2(k),
                k < n,
                j <= rows,
                w@.len() == rows,
                forall|i: int|
                    0 <= i < rows ==> w@[i] == if (if !bit(i, k) {
                        i < j
                    } else {
                        i - stride < j
                    }) {
                        walsh_stage(t, k + 1, i)
                    } else {
                        walsh_stage(t, k, i)
                    },
            decreases rows - j,
        {
            proof {
                lemma_shr_is_div(j as int, k);
                lemma_pow2_pos(k);
            }
            if (j / stride) % 2 == 0 {
                proof {
                    lemma_partner_in_range(j as int, k, n);
                    lemma_walsh_stage_bound(t, k, j as int);
                    lemma_walsh_stage_bound(t, k, j + stride);
                    if k < 61 {
                        vstd::arithmetic::power2::lemma_pow2_strictly_increases(k, 61);
                    }
                    vstd::arithmetic::power2::lemma2_to64();
                    vstd::arithmetic::power2::lemma2_to64_rest();
                    assert(pow2(61) * 2 <= i64::MAX + 1);
                    assert((k + 1 - 1) as nat == k);
                }
                assert(!bit(j as int, k));
                assert(w@[j as int] == walsh_stage(t, k, j as int));
                let left = w[j];
                let right = w[j + stride];
                assert(-pow2(61) <= left <= pow2(61));
                assert(-pow2(61) <= right <= pow2(61));
                w.set(j, left + right);
                w.set(j + stride, left - right);
                proof {
                    assert forall|i: int| 0 <= i < rows && i != j && i != j + stride implies w@[i]
                        == if (if !bit(i, k) {
                        i < j + 1
                    } else {
                        i - stride < j + 1
                    }) {
                        walsh_stage(t, k + 1, i)
                    } else {
                        walsh_stage(t, k, i)
                    } by {}
                }
            } else {
                proof {
                    assert forall|i: int| 0 <= i < rows implies w@[i] == if (if !bit(i, k) {
                        i < j + 1
                    } else {
                        i - stride < j + 1
                    }) {
                        walsh_stage(t, k + 1, i)
                    } else {
                        walsh_stage(t, k, i)
                    } by {
                        if bit(i, k) && i - stride == j {
                            lemma_split_bit(i, k + 1);
                            assert((k + 1 - 1) as nat == k);
                        }
                    }
                }
            }
            j += 1;
        }
        proof {
            lemma_pow2_unfold(k + 1);
            assert((k + 1 - 1) as nat == k);
            if k + 1 < n {
                vstd::arithmetic::power2::lemma_pow2_strictly_increases(k + 1, n);
            }
        }
        stride = stride * 2;
        proof {
            k = k + 1;
        }
    }
    proof {
        if k < n {
            vstd::arithmetic::power2::lemma_pow2_strictly_increases(k, n);
        }
        assert(k == n);
        assert forall|a: int| 0 <= a < rows implies #[trigger] w@[a] == walsh_coefficient(t, n, a) by {
            lemma_walsh_stage_full(t, n, a);
        }
    }
    w
}


/// In-place fast Moebius transform: turns a 0/1 truth table into the coefficients of
/// its algebraic normal form.
pub fn mobius_transform(table: &mut Vec<u8>, input_bits: u32)
    requires
        input_bits < 62,
        old(table)@.len() == pow2(input_bits as nat),
        forall|i: int| 0 <= i < old(table)@.len() ==> #[trigger] old(table)@[i] <= 1,
    ensures
        final(table)@.len() == old(table)@.len(),
        forall|u: int|
            0 <= u < final(table)@.len() ==> #[trigger] final(table)@[u] == if anf_coefficient(
                old(table)@,
                input_bits as nat,
                u,
            ) {
                1u8
            } else {
                0u8
            },
{
    let ghost t = table@;
    let ghost n = input_bits as nat;
    let rows = table.len();
    let mut stride: usize = 1;
    let ghost mut k: nat = 0;
    proof {
        vstd::arithmetic::power2::lemma2_to64();
        assert forall|i: int| 0 <= i < rows implies table@[i] == if mobius_stage(t, 0, i) {
            1u8
        } else {
            0u8
        } by {}
    }
    while stride < rows
        invariant
            rows == t.len(),
            rows == pow2(n),
            n < 62,
            stride == pow2(k),
            k <= n,
            table@.len() == rows,
            forall|i: int|
                0 <= i < rows ==> table@[i] == if mobius_stage(t, k, i) {
                    1u8
                } else {
                    0u8
                },
        decreases rows - stride,
    {
        proof {
            if k > n {
                vstd::arithmetic::power2::lemma_pow2_strictly_increases(n, k);
            }
            assert(k < n);
            lemma_pow2_pos(k);
            assert forall|i: int| 0 <= i < rows && bit(i, k) implies i - stride >= 0 by {
                lemma_split_bit(i, k + 1);
                assert((k + 1 - 1) as nat == k);
                lemma_shr_is_div(i, k + 1);
                lemma_pow2_pos(k + 1);
                assert(block_base(i, k + 1) >= 0) by (nonlinear_arith)
                    requires
                        shr(i, k + 1) >= 0,
                        pow2(k + 1) > 0,
                        block_base(i, k + 1) == shr(i, k + 1) * pow2(k + 1),
                ;
            }
        }
        let mut j: usize = 0;
        while j < rows
            invariant
                rows == t.len(),
                rows == pow2(n),
                n < 62,
                stride == pow2(k),
                k < n,
                j <= rows,
                table@.len() == rows,
                forall|i: int|
                    0 <= i < rows ==> table@[i] == if (if (if !bit(i, k) {
                        i < j
                    } else {
                        i - stride < j
                    }) {
                        mobius_stage(t, k + 1, i)
                    } else {
                        mobius_stage(t, k, i)
                    }) {
                        1u8
                    } else {
                        0u8
                    },
            decreases rows - j,
        {
            proof {
                lemma_shr_is_div(j as int, k);
                lemma_pow2_pos(k);
            }
            if (j / stride) % 2 == 0 {
                proof {
                    lemma_partner_in_range(j as int, k, n);
                    assert((k + 1 - 1) as nat == k);
                    assert(!bit(j as int, k));
                }
                let low = table[j];
                let high = table[j + stride];
                proof {
                    assert(low <= 1 && high <= 1 ==> ((low ^ high) == 1) == ((low == 1) != (high
                        == 1)) && (low ^ high) <= 1) by (bit_vector);
                }
                table.set(j + stride, low ^ high);
                proof {
                    assert forall|i: int| 0 <= i < rows implies table@[i] == if (if (if !bit(i, k) {
                        i < j + 1
                    } else {
                        i - stride < j + 1
                    }) {
                        mobius_stage(t, k + 1, i)
                    } else {
                        mobius_stage(t, k, i)
                    }) {
                        1u8
                    } else {
                        0u8
                    } by {}
                }
            } else {
                proof {
                    assert forall|i: int| 0 <= i < rows implies table@[i] == if (if (if !bit(i, k) {
                        i < j + 1
                    } else {
                        i - stride < j + 1
                    }) {
                        mobius_stage(t, k + 1, i)
                    } else {
                        mobius_stage(t, k, i)
                    }) {
                        1u8
                    } else {
                        0u8
                    } by {
                        if bit(i, k) && i - stride == j {
                            lemma_split_bit(i, k + 1);
                            assert((k + 1 - 1) as nat == k);
                        }
                    }
                }
            }
            j += 1;
        }
        proof {
            lemma_pow2_unfold(k + 1);
            assert((k + 1 - 1) as nat == k);
            if k + 1 < n {
                vstd::arithmetic::power2::lemma_pow2_strictly_increases(k + 1, n);
            }
        }
        stride = stride * 2;
        proof {
            k = k + 1;
        }
    }
    proof {
        if k < n {
            vstd::arithmetic::power2::lemma_pow2_strictly_increases(k, n);
        }
        assert(k == n);
        assert forall|u: int| 0 <= u < rows implies #[trigger] table@[u] == if anf_coefficient(
            t,
            n,
            u,
        ) {
            1u8
        } else {
            0u8
        } by {
            lemma_mobius_stage_full(t, n, u);
        }
    }
}

/// Hamming weight of the low `n` bits of `x`.
pub fn row_weight(x: u64, n: u32) -> (w: u32)
    requires
        n <= 64,
    ensures
        w == bit_weight(x as int, n as nat),
        w <= n,
{
    let mut w: u32 = 0;
    let mut i: u32 = 0;
    while i < n
        invariant
            i <= n,
            n <= 64,
            w == bit_weight(x as int, i as nat),
            w <= i,
        decreases n - i,
    {
        proof {
            vstd::bits::lemma_u64_shr_is_div(x, i as u64);
            lemma_shr_is_div(x as int, i as nat);
        }
        if (x >> (i as u64)) % 2 == 1 {
            w += 1;
        }
        i += 1;
    }
    w
}

/// Largest weight of a monomial in the algebraic normal form among rows below `m`.
pub open spec fn anf_degree_upto(t: Seq<u8>, n: nat, m: nat) -> nat
    decreases m,
{
    if m == 0 {
        0
    } else {
        let previous = anf_degree_upto(t, n, (m - 1) as nat);
        let u = m - 1;
        if anf_coefficient(t, n, u) && bit_weight(u, n) > previous {
            bit_weight(u, n)
        } else {
            previous
        }
    }
}

/// Algebraic degree: the largest monomial weight with a non-zero ANF coefficient
/// (zero for the constant-zero function).
pub open spec fn algebraic_degree(t: Seq<u8>, n: nat) -> nat {
    anf_degree_upto(t, n, pow2(n))
}

/// Largest `|W_f(a)|` among rows `a < m`.
pub open spec fn max_abs_walsh_upto(t: Seq<u8>, n: nat, m: nat) -> int
    decreases m,
{
    if m == 0 {
        0
    } else {
        let previous = max_abs_walsh_upto(t, n, (m - 1) as nat);
        let w = walsh_coefficient(t, n, m - 1);
        let a = if w < 0 { -w } else { w };
        if a > previous {
            a
        } else {
            previous
        }
    }
}

/// Nonlinearity: `2^(n-1) - max_a |W_f(a)| / 2`, the distance to the nearest affine function.
pub open spec fn nonlinearity_of(t: Seq<u8>, n: nat) -> int {
    (pow2(n) - max_abs_walsh_upto(t, n, pow2(n))) / 2
}

/// Number of rows below `m` where the function is one.
pub open spec fn ones_upto(t: Seq<u8>, m: nat) -> int
    decreases m,
{
    if m == 0 {
        0
    } else {
        ones_upto(t, (m - 1) as nat) + if table_bit(t, m - 1) { 1int } else { 0int }
    }
}

/// Number of rows below `2^n` where the function is one (its Hamming weight).
pub open spec fn table_weight(t: Seq<u8>, n: nat) -> int {
    ones_upto(t, pow2(n))
}

/// Balanced: exactly half of the `2^n` rows are one.
pub open spec fn is_balanced_table(t: Seq<u8>, n: nat) -> bool {
    2 * table_weight(t, n) == pow2(n)
}

/// Bent: every Walsh coefficient has magnitude `2^(n/2)`, i.e. `W_f(a)^2 = 2^n` for all `a`.
pub open spec fn is_bent_table(t: Seq<u8>, n: nat) -> bool {
    forall|a: int|
        0 <= a < pow2(n) ==> #[trigger] walsh_coefficient(t, n, a) * walsh_coefficient(t, n, a)
            == pow2(n)
}

/// Least weight `1..=n` of an `a` with `W_f(a) != 0` among rows below `m`, or `n + 1`.
pub open spec fn min_nonzero_walsh_weight_upto(t: Seq<u8>, n: nat, m: nat) -> nat
    decreases m,
{
    if m == 0 {
        n + 1
    } else {
        let previous = min_nonzero_walsh_weight_upto(t, n, (m - 1) as nat);
        let a = m - 1;
        let w = bit_weight(a, n);
        if w >= 1 && walsh_coefficient(t, n, a) != 0 && w < previous {
            w
        } else {
            previous
        }
    }
}

/// Correlation-immunity order: the largest `m <= n` such that `W_f(a) = 0` for every
/// `a` of weight `1..=m`.
pub open spec fn correlation_immunity_of(t: Seq<u8>, n: nat) -> nat {
    (min_nonzero_walsh_weight_upto(t, n, pow2(n)) - 1) as nat
}

/// The least nonzero-Walsh weight among the first `m` masks is at least two
/// exactly when no mask of weight one below `m` has a nonzero coefficient.
proof fn lemma_min_weight_at_least_two(t: Seq<u8>, n: nat, m: nat)
    requires
        n >= 1,
    ensures
        1 <= min_nonzero_walsh_weight_upto(t, n, m) <= n + 1,
        min_nonzero_walsh_weight_upto(t, n, m) >= 2 <==> forall|a: int|
            0 <= a < m && bit_weight(a, n) == 1 ==> #[trigger] walsh_coefficient(t, n, a) == 0,
    decreases m,
{
    if m > 0 {
        lemma_min_weight_at_least_two(t, n, (m - 1) as nat);
        let a = m - 1;
        if min_nonzero_walsh_weight_upto(t, n, m) >= 2 {
            assert forall|b: int| 0 <= b < m && bit_weight(b, n) == 1 implies #[trigger] walsh_coefficient(t, n, b) == 0 by {
                if b < a {
                    assert(min_nonzero_walsh_weight_upto(t, n, (m - 1) as nat) >= 2);
                }
            }
        }
    }
}

/// A table is correlation immune of order at least one exactly when its Walsh
/// coefficient vanishes at every mask of a single input.
pub proof fn lemma_correlation_immune_iff_single_input_masks_vanish(t: Seq<u8>, n: nat)
    requires
        n >= 1,
    ensures
        correlation_immunity_of(t, n) <= n,
        correlation_immunity_of(t, n) >= 1 <==> forall|a: int|
            0 <= a < pow2(n) && bit_weight(a, n) == 1 ==> #[trigger] walsh_coefficient(t, n, a) == 0,
{
    lemma_min_weight_at_least_two(t, n, pow2(n));
}

pub proof fn lemma_walsh_coefficient_bound(t: Seq<u8>, n: nat, a: int)
    requires
        0 <= a < pow2(n),
    ensures
        -pow2(n) <= walsh_coefficient(t, n, a) <= pow2(n),
{
    lemma_walsh_stage_full(t, n, a);
    lemma_walsh_stage_bound(t, n, a);
}


/// Widest truth table admitted by the exact analysis routines.
pub const MAX_EXACT_BITS: u32 = 20;

pub proof fn lemma_rows_bound(n: nat)
    requires
        n <= MAX_EXACT_BITS,
    ensures
        1 <= pow2(n) <= 0x100000,
{
    vstd::arithmetic::power2::lemma2_to64();
    lemma_pow2_pos(n);
    if n < 20 {
        vstd::arithmetic::power2::lemma_pow2_strictly_increases(n, 20);
    }
}

/// Replaces `table` by its algebraic normal form and returns the algebraic degree.
pub fn anf_degree_of_table(table: &mut Vec<u8>, input_bits: u32) -> (degree: u32)
    requires
        input_bits <= MAX_EXACT_BITS,
        old(table)@.len() == pow2(input_bits as nat),
        forall|i: int| 0 <= i < old(table)@.len() ==> #[trigger] old(table)@[i] <= 1,
    ensures
        degree == algebraic_degree(old(table)@, input_bits as nat),
        final(table)@.len() == old(table)@.len(),
        forall|u: int|
            0 <= u < final(table)@.len() ==> #[trigger] final(table)@[u] == if anf_coefficient(
                old(table)@,
                input_bits as nat,
                u,
            ) {
                1u8
            } else {
                0u8
            },
{
    let ghost t = table@;
    let ghost n = input_bits as nat;
    mobius_transform(table, input_bits);
    let rows = table.len();
    let mut best: u32 = 0;
    let mut u: usize = 0;
    proof {
        lemma_rows_bound(n);
    }
    while u < rows
        invariant
            rows == t.len(),
            rows == pow2(n),
            rows <= 0x100000,
            n == input_bits,
            n <= MAX_EXACT_BITS,
            best <= n,
            u <= rows,
            table@.len() == rows,
            forall|v: int|
                0 <= v < rows ==> #[trigger] table@[v] == if anf_coefficient(t, n, v) {
                    1u8
                } else {
                    0u8
                },
            best == anf_degree_upto(t, n, u as nat),
        decreases rows - u,
    {
        if table[u] == 1 {
            let weight = row_weight(u as u64, input_bits);
            if weight > best {
                best = weight;
            }
        }
        u += 1;
    }
    best
}

/// Exact nonlinearity `2^(n-1) - max_a |W_f(a)| / 2`.
pub fn nonlinearity(table: &[u8], input_bits: u32) -> (nl: u64)
    requires
        input_bits <= MAX_EXACT_BITS,
        table@.len() == pow2(input_bits as nat),
    ensures
        nl == nonlinearity_of(table@, input_bits as nat),
{
    let ghost t = table@;
    let ghost n = input_bits as nat;
    let spectrum = walsh_hadamard(table, input_bits);
    let rows = table.len();
    let mut max_abs: i64 = 0;
    let mut a: usize = 0;
    proof {
        lemma_rows_bound(n);
    }
    while a < rows
        invariant
            rows == t.len(),
            rows == pow2(n),
            rows <= 0x100000,
            n <= MAX_EXACT_BITS,
            a <= rows,
            spectrum@.len() == rows,
            forall|b: int| 0 <= b < rows ==> #[trigger] spectrum@[b] == walsh_coefficient(t, n, b),
            max_abs == max_abs_walsh_upto(t, n, a as nat),
            0 <= max_abs <= rows,
        decreases rows - a,
    {
        proof {
            lemma_walsh_coefficient_bound(t, n, a as int);
        }
        let w = spectrum[a];
        let magnitude = if w < 0 { -w } else { w };
        if magnitude > max_abs {
            max_abs = magnitude;
        }
        a += 1;
    }
    ((rows as i64 - max_abs) / 2) as u64
}

/// Whether exactly half of the rows are one.
pub fn is_balanced(table: &[u8], input_bits: u32) -> (balanced: bool)
    requires
        input_bits <= MAX_EXACT_BITS,
        table@.len() == pow2(input_bits as nat),
    ensures
        balanced == is_balanced_table(table@, input_bits as nat),
{
    let ghost t = table@;
    let rows = table.len();
    let mut ones: usize = 0;
    let mut x: usize = 0;
    proof {
        lemma_rows_bound(input_bits as nat);
    }
    while x < rows
        invariant
            rows == t.len(),
            rows == pow2(input_bits as nat),
            rows <= 0x100000,
            t == table@,
            x <= rows,
            ones <= x,
            ones == ones_upto(t, x as nat),
        decreases rows - x,
    {
        if table[x] != 0 {
            ones += 1;
        }
        x += 1;
    }
    ones * 2 == rows
}

/// Whether every Walsh coefficient has magnitude `2^(n/2)`.
pub fn is_bent(table: &[u8], input_bits: u32) -> (bent: bool)
    requires
        input_bits <= MAX_EXACT_BITS,
        table@.len() == pow2(input_bits as nat),
    ensures
        bent == is_bent_table(table@, input_bits as nat),
{
    let ghost t = table@;
    let ghost n = input_bits as nat;
    let spectrum = walsh_hadamard(table, input_bits);
    let rows = table.len();
    proof {
        vstd::arithmetic::power2::lemma2_to64();
        if n < 20 {
            vstd::arithmetic::power2::lemma_pow2_strictly_increases(n, 20);
        }
    }
    let mut a: usize = 0;
    while a < rows
        invariant
            rows == t.len(),
            rows == pow2(n),
            rows <= 0x100000,
            t == table@,
            n == input_bits,
            n <= MAX_EXACT_BITS,
            a <= rows,
            spectrum@.len() == rows,
            forall|b: int| 0 <= b < rows ==> #[trigger] spectrum@[b] == walsh_coefficient(t, n, b),
            forall|b: int|
                0 <= b < a ==> #[trigger] walsh_coefficient(t, n, b) * walsh_coefficient(t, n, b)
                    == pow2(n),
        decreases rows - a,
    {
        proof {
            lemma_walsh_coefficient_bound(t, n, a as int);
        }
        let w = spectrum[a];
        assert(-0x100000 <= w <= 0x100000);
        assert(0 <= w * w <= 0x100000 * 0x100000) by (nonlinear_arith)
            requires
                -0x100000 <= w <= 0x100000,
        ;
        let square = w * w;
        if square != rows as i64 {
            assert(walsh_coefficient(t, n, a as int) * walsh_coefficient(t, n, a as int) != pow2(n));
            assert(!is_bent_table(t, n));
            return false;
        }
        a += 1;
    }
    true
}

/// Correlation-immunity order of the function.
pub fn correlation_immunity(table: &[u8], input_bits: u32) -> (order: u32)
    requires
        input_bits <= MAX_EXACT_BITS,
        table@.len() == pow2(input_bits as nat),
    ensures
        order == correlation_immunity_of(table@, input_bits as nat),
{
    let ghost t = table@;
    let ghost n = input_bits as nat;
    let spectrum = walsh_hadamard(table, input_bits);
    let rows = table.len();
    let mut least: u32 = input_bits + 1;
    let mut a: usize = 0;
    proof {
        lemma_rows_bound(n);
    }
    while a < rows
        invariant
            rows == t.len(),
            rows == pow2(n),
            rows <= 0x100000,
            n == input_bits,
            n <= MAX_EXACT_BITS,
            a <= rows,
            spectrum@.len() == rows,
            forall|b: int| 0 <= b < rows ==> #[trigger] spectrum@[b] == walsh_coefficient(t, n, b),
            least == min_nonzero_walsh_weight_upto(t, n, a as nat),
            1 <= least <= n + 1,
        decreases rows - a,
    {
        let weight = row_weight(a as u64, input_bits);
        if weight >= 1 && spectrum[a] != 0 && weight < least {
            least = weight;
        }
        a += 1;
    }
    least - 1
}

} // verus!
