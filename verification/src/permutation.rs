//! Permutations of `0..n` in lexicographic order.

use vstd::prelude::*;
use vstd::set_lib::{set_int_range, lemma_int_range, lemma_subset_equality};
use vstd::arithmetic::power::{pow, lemma_pow_positive};

verus! {

/// `p` lists each of `0..n` exactly once.
pub open spec fn is_permutation(p: Seq<u32>, n: nat) -> bool {
    &&& p.len() == n
    &&& forall|i: int| 0 <= i < p.len() ==> #[trigger] p[i] < n
    &&& forall|i: int, j: int| 0 <= i < j < p.len() ==> #[trigger] p[i] != #[trigger] p[j]
}

/// `a` and `b` agree on every position before `j`.
pub open spec fn agree_before(a: Seq<u32>, b: Seq<u32>, j: int) -> bool {
    forall|i: int| 0 <= i < j ==> #[trigger] a[i] == #[trigger] b[i]
}

/// Strict lexicographic order.
pub open spec fn lex_less(a: Seq<u32>, b: Seq<u32>) -> bool {
    exists|j: int| 0 <= j < a.len() && j < b.len() && #[trigger] agree_before(a, b, j) && a[j] < b[j]
}

/// The identity permutation `0, 1, ..., n - 1`.
pub open spec fn identity_permutation(n: nat) -> Seq<u32> {
    Seq::new(n, |i: int| i as u32)
}

/// Every value below `n` occurs in a permutation of `0..n`.
pub proof fn lemma_permutation_covers(p: Seq<u32>, n: nat, x: int)
    requires
        is_permutation(p, n),
        0 <= x < n,
    ensures
        exists|i: int| 0 <= i < p.len() && p[i] == x,
{
    let q = p.map_values(|v: u32| v as int);
    assert(q.no_duplicates()) by {
        assert forall|i: int, j: int| 0 <= i < q.len() && 0 <= j < q.len() && i != j implies q[i] != q[j] by {
            if i < j {
                assert(p[i] != p[j]);
            } else {
                assert(p[j] != p[i]);
            }
        }
    }
    q.unique_seq_to_set();
    lemma_int_range(0, n as int);
    assert(q.to_set().subset_of(set_int_range(0, n as int))) by {
        assert forall|v: int| q.to_set().contains(v) implies set_int_range(0, n as int).contains(v) by {
            let i = choose|i: int| 0 <= i < q.len() && q[i] == v;
            assert(p[i] < n);
        }
    }
    lemma_subset_equality(q.to_set(), set_int_range(0, n as int));
    assert(set_int_range(0, n as int).contains(x));
    assert(q.to_set().contains(x));
    let i = choose|i: int| 0 <= i < q.len() && q[i] == x;
    assert(p[i] == x);
}

/// The order is asymmetric.
pub proof fn lemma_lex_asymmetric(a: Seq<u32>, b: Seq<u32>)
    ensures
        !(lex_less(a, b) && lex_less(b, a)),
{
    if lex_less(a, b) && lex_less(b, a) {
        let j1 = choose|j: int| 0 <= j < a.len() && j < b.len() && #[trigger] agree_before(a, b, j) && a[j] < b[j];
        let j2 = choose|j: int| 0 <= j < b.len() && j < a.len() && #[trigger] agree_before(b, a, j) && b[j] < a[j];
        if j1 < j2 {
            assert(b[j1] == a[j1]);
        } else if j2 < j1 {
            assert(a[j2] == b[j2]);
        }
    }
}

/// The order is transitive.
pub proof fn lemma_lex_transitive(a: Seq<u32>, b: Seq<u32>, c: Seq<u32>)
    requires
        lex_less(a, b),
        lex_less(b, c),
    ensures
        lex_less(a, c),
{
    let j1 = choose|j: int| 0 <= j < a.len() && j < b.len() && #[trigger] agree_before(a, b, j) && a[j] < b[j];
    let j2 = choose|j: int| 0 <= j < b.len() && j < c.len() && #[trigger] agree_before(b, c, j) && b[j] < c[j];
    if j1 <= j2 {
        assert forall|i: int| 0 <= i < j1 implies #[trigger] a[i] == #[trigger] c[i] by {
            assert(a[i] == b[i]);
            assert(b[i] == c[i]);
        }
        assert(agree_before(a, c, j1));
        if j1 < j2 {
            assert(b[j1] == c[j1]);
        }
    } else {
        assert forall|i: int| 0 <= i < j2 implies #[trigger] a[i] == #[trigger] c[i] by {
            assert(a[i] == b[i]);
            assert(b[i] == c[i]);
        }
        assert(agree_before(a, c, j2));
        assert(a[j2] == b[j2]);
    }
}

/// Distinct sequences of one length are ordered one way or the other.
pub proof fn lemma_lex_total(a: Seq<u32>, b: Seq<u32>)
    requires
        a.len() == b.len(),
        a != b,
    ensures
        lex_less(a, b) || lex_less(b, a),
{
    assert(!(a =~= b));
    let k = choose|k: int| 0 <= k < a.len() && a[k] != b[k];
    let j = lemma_first_difference(a, b, k);
    assert(agree_before(a, b, j));
    assert(agree_before(b, a, j));
}

/// The first position where `a` and `b` differ, given that they differ at `k`.
proof fn lemma_first_difference(a: Seq<u32>, b: Seq<u32>, k: int) -> (j: int)
    requires
        0 <= k < a.len(),
        k < b.len(),
        a[k] != b[k],
    ensures
        0 <= j <= k,
        a[j] != b[j],
        forall|i: int| 0 <= i < j ==> a[i] == b[i],
    decreases k,
{
    if exists|i: int| 0 <= i < k && a[i] != b[i] {
        let i = choose|i: int| 0 <= i < k && a[i] != b[i];
        lemma_first_difference(a, b, i)
    } else {
        k
    }
}

/// In a permutation whose entries strictly decrease from position `k` on, no
/// permutation agreeing with it before some `j >= k` holds more at `j`.
proof fn lemma_decreasing_suffix_is_maximal(v: Seq<u32>, p: Seq<u32>, n: nat, k: int, j: int)
    requires
        is_permutation(v, n),
        is_permutation(p, n),
        0 <= k <= j < n,
        forall|a: int, b: int| k <= a < b < n ==> #[trigger] v[a] > #[trigger] v[b],
        agree_before(v, p, j),
    ensures
        p[j] <= v[j],
{
    lemma_permutation_covers(v, n, p[j] as int);
    let i = choose|i: int| 0 <= i < v.len() && v[i] == p[j];
    if i < j {
        assert(v[i] == p[i]);
        assert(p[i] != p[j]);
    } else if i > j {
        assert(v[j] > v[i]);
    }
}

/// In a permutation whose entries strictly increase from position `k` on, no
/// permutation agreeing with it before some `j >= k` holds less at `j`.
proof fn lemma_increasing_suffix_is_minimal(w: Seq<u32>, p: Seq<u32>, n: nat, k: int, j: int)
    requires
        is_permutation(w, n),
        is_permutation(p, n),
        0 <= k <= j < n,
        forall|a: int, b: int| k <= a < b < n ==> #[trigger] w[a] < #[trigger] w[b],
        agree_before(w, p, j),
    ensures
        p[j] >= w[j],
{
    lemma_permutation_covers(w, n, p[j] as int);
    let i = choose|i: int| 0 <= i < w.len() && w[i] == p[j];
    if i < j {
        assert(w[i] == p[i]);
        assert(p[i] != p[j]);
    } else if i > j {
        assert(w[j] < w[i]);
    }
}

/// The value of `p` read as a base-`n` numeral, most significant entry first.
pub open spec fn numeral_value(p: Seq<u32>, n: nat) -> int
    decreases p.len(),
{
    if p.len() == 0 {
        0
    } else {
        p[0] * pow(n as int, (p.len() - 1) as nat) + numeral_value(p.drop_first(), n)
    }
}

/// A numeral of digits below `n` lies in `0..n^len`.
pub proof fn lemma_numeral_bound(p: Seq<u32>, n: nat)
    requires
        n >= 1,
        forall|i: int| 0 <= i < p.len() ==> #[trigger] p[i] < n,
    ensures
        0 <= numeral_value(p, n) < pow(n as int, p.len()),
    decreases p.len(),
{
    if p.len() == 0 {
        assert(pow(n as int, 0) == 1) by {
            vstd::arithmetic::power::lemma_pow0(n as int);
        }
    } else {
        let rest = p.drop_first();
        assert forall|i: int| 0 <= i < rest.len() implies #[trigger] rest[i] < n by {
            assert(rest[i] == p[i + 1]);
        }
        lemma_numeral_bound(rest, n);
        let e = (p.len() - 1) as nat;
        let w = pow(n as int, e);
        lemma_pow_positive(n as int, e);
        vstd::arithmetic::power::lemma_pow_adds(n as int, e, 1);
        vstd::arithmetic::power::lemma_pow1(n as int);
        assert(pow(n as int, p.len()) == w * n);
        let d = p[0] as int;
        assert(d * w + numeral_value(rest, n) < w * n) by (nonlinear_arith)
            requires
                0 <= d < n,
                w > 0,
                0 <= numeral_value(rest, n) < w,
        ;
        assert(0 <= d * w) by (nonlinear_arith)
            requires
                0 <= d,
                w > 0,
        ;
    }
}

/// Lexicographic order of equal-length numerals is numeric order.
pub proof fn lemma_lex_numeral(a: Seq<u32>, b: Seq<u32>, n: nat)
    requires
        n >= 1,
        a.len() == b.len(),
        forall|i: int| 0 <= i < a.len() ==> #[trigger] a[i] < n,
        forall|i: int| 0 <= i < b.len() ==> #[trigger] b[i] < n,
        lex_less(a, b),
    ensures
        numeral_value(a, n) < numeral_value(b, n),
    decreases a.len(),
{
    let j = choose|j: int| 0 <= j < a.len() && j < b.len() && #[trigger] agree_before(a, b, j) && a[j] < b[j];
    let ra = a.drop_first();
    let rb = b.drop_first();
    let e = (a.len() - 1) as nat;
    let w = pow(n as int, e);
    lemma_pow_positive(n as int, e);
    assert forall|i: int| 0 <= i < ra.len() implies #[trigger] ra[i] < n by {
        assert(ra[i] == a[i + 1]);
    }
    assert forall|i: int| 0 <= i < rb.len() implies #[trigger] rb[i] < n by {
        assert(rb[i] == b[i + 1]);
    }
    if j == 0 {
        lemma_numeral_bound(ra, n);
        lemma_numeral_bound(rb, n);
        let x = a[0] as int;
        let y = b[0] as int;
        assert(x * w + numeral_value(ra, n) < y * w + numeral_value(rb, n)) by (nonlinear_arith)
            requires
                0 <= x < y,
                w > 0,
                0 <= numeral_value(ra, n) < w,
                0 <= numeral_value(rb, n),
        ;
    } else {
        assert(a[0] == b[0]);
        assert(agree_before(ra, rb, j - 1)) by {
            assert forall|i: int| 0 <= i < j - 1 implies #[trigger] ra[i] == #[trigger] rb[i] by {
                assert(a[i + 1] == b[i + 1]);
            }
        }
        assert(ra[j - 1] < rb[j - 1]);
        assert(lex_less(ra, rb));
        lemma_lex_numeral(ra, rb, n);
    }
}

/// Rearranges `values` into the next permutation in lexicographic order and
/// returns `true`; when `values` is already the last one, leaves it unchanged
/// and returns `false`.
pub fn next_permutation(values: &mut [u32]) -> (advanced: bool)
    requires
        is_permutation(old(values)@, old(values)@.len()),
    ensures
        final(values)@.len() == old(values)@.len(),
        advanced ==> is_permutation(final(values)@, old(values)@.len()) && lex_less(old(values)@, final(values)@)
            && forall|p: Seq<u32>|
            is_permutation(p, old(values)@.len()) && #[trigger] lex_less(old(values)@, p) ==> !lex_less(p, final(values)@),
        !advanced ==> final(values)@ == old(values)@ && forall|p: Seq<u32>|
            is_permutation(p, old(values)@.len()) ==> !#[trigger] lex_less(old(values)@, p),
{
    let ghost v = values@;
    let ghost n = v.len();
    let len = values.len();
    if len < 2 {
        proof {
            assert forall|p: Seq<u32>| is_permutation(p, n) implies !#[trigger] lex_less(v, p) by {
                if lex_less(v, p) {
                    let j = choose|j: int| 0 <= j < v.len() && j < p.len() && #[trigger] agree_before(v, p, j) && v[j] < p[j];
                    lemma_decreasing_suffix_is_maximal(v, p, n, 0, j);
                }
            }
        }
        return false;
    }
    // Scan from the right for the pivot: the last position holding less than its successor.
    let mut pivot: usize = len - 1;
    let mut found = false;
    while pivot > 0
        invariant_except_break
            !found,
            forall|a: int, b: int| pivot <= a < b < n ==> #[trigger] v[a] > #[trigger] v[b],
        invariant
            v == values@,
            n == len,
            v.len() == n,
            is_permutation(v, n),
            len >= 2,
            pivot < len,
        ensures
            found ==> pivot + 1 < len && v[pivot as int] < v[pivot + 1] && forall|a: int, b: int| pivot + 1 <= a < b < n ==> #[trigger] v[a] > #[trigger] v[b],
            !found ==> forall|a: int, b: int| 0 <= a < b < n ==> #[trigger] v[a] > #[trigger] v[b],
        decreases pivot,
    {
        let i = pivot - 1;
        if values[i] < values[i + 1] {
            proof {
                assert forall|a: int, b: int| i + 1 <= a < b < n implies #[trigger] v[a] > #[trigger] v[b] by {
                    assert(pivot <= a);
                }
            }
            pivot = i;
            found = true;
            break;
        }
        proof {
            assert(v[i as int] != v[i + 1]);
            assert forall|a: int, b: int| i <= a < b < n implies #[trigger] v[a] > #[trigger] v[b] by {
                if a == i && b > i + 1 {
                    assert(v[i + 1] > v[b]);
                }
            }
        }
        pivot = i;
    }
    if !found {
        proof {
            assert forall|p: Seq<u32>| is_permutation(p, n) implies !#[trigger] lex_less(v, p) by {
                if lex_less(v, p) {
                    let j = choose|j: int| 0 <= j < v.len() && j < p.len() && #[trigger] agree_before(v, p, j) && v[j] < p[j];
                    lemma_decreasing_suffix_is_maximal(v, p, n, 0, j);
                }
            }
        }
        return false;
    }
    let k = pivot;
    // The successor: the last position after the pivot holding more than it.
    let mut m: usize = len - 1;
    while values[m] <= values[k]
        invariant
            v == values@,
            n == len,
            v.len() == n,
            is_permutation(v, n),
            k + 1 < len,
            v[k as int] < v[k + 1],
            k < m < len,
            forall|i: int| m < i < n ==> #[trigger] v[i] < v[k as int],
        decreases m,
    {
        proof {
            assert(v[m as int] != v[k as int]);
        }
        m = m - 1;
    }
    let ghost after_swap = v.update(k as int, v[m as int]).update(m as int, v[k as int]);
    let held = values[k];
    values[k] = values[m];
    values[m] = held;
    proof {
        assert(values@ == after_swap);
        assert forall|a: int, b: int| k + 1 <= a < b < n implies #[trigger] after_swap[a] > #[trigger] after_swap[b] by {
            if a == m {
                assert(v[b] < v[k as int]);
            } else if b == m {
                assert(v[a] > v[m as int]);
            } else {
                assert(v[a] > v[b]);
            }
        }
    }
    // Reverse the suffix after the pivot.
    let mut lo: usize = k + 1;
    let mut hi: usize = len - 1;
    while lo < hi
        invariant
            n == len,
            after_swap.len() == n,
            k + 1 <= lo,
            hi < len,
            lo + hi == n + k,
            values@.len() == n,
            forall|i: int| 0 <= i <= k ==> #[trigger] values@[i] == after_swap[i],
            forall|i: int| k < i < lo ==> #[trigger] values@[i] == after_swap[n + k - i],
            forall|i: int| hi < i < n ==> #[trigger] values@[i] == after_swap[n + k - i],
            forall|i: int| lo <= i <= hi ==> #[trigger] values@[i] == after_swap[i],
        decreases hi + 1 - lo,
    {
        let held = values[lo];
        values[lo] = values[hi];
        values[hi] = held;
        lo += 1;
        hi -= 1;
    }
    let ghost w = values@;
    proof {
        assert forall|i: int| k < i < n implies #[trigger] w[i] == after_swap[n + k - i] by {
            if lo <= i <= hi {
                assert(i == n + k - i);
            }
        }
        assert(is_permutation(w, n)) by {
            assert forall|i: int| 0 <= i < w.len() implies #[trigger] w[i] < n by {
                if i > k {
                    assert(w[i] == after_swap[n + k - i]);
                }
            }
            assert forall|a: int, b: int| 0 <= a < b < w.len() implies #[trigger] w[a] != #[trigger] w[b] by {
                let sa = if a <= k { a } else { n + k - a };
                let sb = if b <= k { b } else { n + k - b };
                assert(w[a] == after_swap[sa]);
                assert(w[b] == after_swap[sb]);
                assert(sa != sb);
                if sa < sb {
                    assert(after_swap[sa] != after_swap[sb]) by {
                        if sa == k && sb == m {
                        } else if sa == k {
                            assert(v[m as int] != v[sb]);
                        } else if sb == m {
                            assert(v[sa] != v[k as int]);
                        } else if sb == k {
                            assert(v[sa] != v[m as int]);
                        } else if sa == m {
                            assert(v[k as int] != v[sb]);
                        } else {
                            assert(v[sa] != v[sb]);
                        }
                    }
                } else {
                    assert(after_swap[sb] != after_swap[sa]) by {
                        if sb == k && sa == m {
                        } else if sb == k {
                            assert(v[m as int] != v[sa]);
                        } else if sa == m {
                            assert(v[sb] != v[k as int]);
                        } else if sa == k {
                            assert(v[sb] != v[m as int]);
                        } else if sb == m {
                            assert(v[k as int] != v[sa]);
                        } else {
                            assert(v[sb] != v[sa]);
                        }
                    }
                }
            }
        }
        assert forall|a: int, b: int| k + 1 <= a < b < n implies #[trigger] w[a] < #[trigger] w[b] by {
            assert(after_swap[n + k - b] > after_swap[n + k - a]);
        }
        assert(agree_before(v, w, k as int));
        assert(w[k as int] == v[m as int]);
        assert(lex_less(v, w));
        assert forall|p: Seq<u32>| is_permutation(p, n) && #[trigger] lex_less(v, p) implies !lex_less(p, w) by {
            let j = choose|j: int| 0 <= j < v.len() && j < p.len() && #[trigger] agree_before(v, p, j) && v[j] < p[j];
            if j < k {
                assert(agree_before(w, p, j));
                assert(lex_less(w, p));
                lemma_lex_asymmetric(w, p);
            } else if j > k {
                lemma_decreasing_suffix_is_maximal(v, p, n, k + 1, j);
            } else {
                lemma_permutation_covers(v, n, p[j] as int);
                let i = choose|i: int| 0 <= i < v.len() && v[i] == p[j];
                if i < k {
                    assert(v[i] == p[i]);
                    assert(p[i] != p[j]);
                }
                assert(i > k);
                if i > m {
                    assert(v[i] < v[k as int]);
                }
                if i < m {
                    assert(v[i] > v[m as int]);
                }
                assert(p[k as int] >= w[k as int]);
                if p[k as int] > w[k as int] {
                    assert(agree_before(w, p, k as int));
                    assert(lex_less(w, p));
                    lemma_lex_asymmetric(w, p);
                } else {
                    if lex_less(p, w) {
                        let j2 = choose|j2: int| 0 <= j2 < p.len() && j2 < w.len() && #[trigger] agree_before(p, w, j2) && p[j2] < w[j2];
                        if j2 <= k {
                            assert(p[j2] == w[j2]);
                        } else {
                            assert(agree_before(w, p, j2));
                            lemma_increasing_suffix_is_minimal(w, p, n, k + 1, j2);
                        }
                    }
                }
            }
        }
    }
    true
}

} // verus!
