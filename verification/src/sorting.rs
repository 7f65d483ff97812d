//! Ascending sort of unsigned integers.

use vstd::prelude::*;
use vstd::relations::{sorted_by, total_ordering};
use vstd::seq_lib::lemma_sorted_unique;

verus! {

broadcast use vstd::seq_lib::group_to_multiset_ensures, vstd::multiset::group_multiset_axioms;

/// The usual order of `u64`.
pub open spec fn u64_leq() -> spec_fn(u64, u64) -> bool {
    |x: u64, y: u64| x <= y
}

/// `<=` on `u64` is a total order.
pub proof fn lemma_u64_leq_total()
    ensures
        total_ordering(u64_leq()),
{
}

/// Exchanging two entries keeps the multiset of entries.
proof fn lemma_swap_multiset(s: Seq<u64>, i: int, j: int)
    requires
        0 <= i < s.len(),
        0 <= j < s.len(),
        i != j,
    ensures
        s.update(i, s[j]).update(j, s[i]).to_multiset() =~= s.to_multiset(),
{
    let m = s.to_multiset();
    let s1 = s.update(i, s[j]);
    assert(s1.to_multiset() == m.insert(s[j]).remove(s[i]));
    assert(s1[j] == s[j]);
    assert(s1.update(j, s[i]).to_multiset() == s1.to_multiset().insert(s[i]).remove(s[j]));
}

/// Sorts `v` in ascending order: the result is `v`'s sequence sorted.
pub fn sort_u64(v: &mut Vec<u64>)
    ensures
        final(v)@ == old(v)@.sort_by(u64_leq()),
{
    let ghost original = v@;
    let n = v.len();
    let mut i: usize = 1;
    while i < n
        invariant
            n == v@.len(),
            1 <= i || n == 0,
            i <= n || n == 0,
            v@.to_multiset() == original.to_multiset(),
            forall|a: int, b: int| 0 <= a < b < i && b < n ==> #[trigger] v@[a] <= #[trigger] v@[b],
        decreases n - i,
    {
        let mut j: usize = i;
        while j > 0 && v[j - 1] > v[j]
            invariant
                n == v@.len(),
                1 <= i < n,
                j <= i,
                v@.to_multiset() == original.to_multiset(),
                forall|a: int, b: int| 0 <= a < b <= i && b != j ==> #[trigger] v@[a] <= #[trigger] v@[b],
                forall|b: int| j < b <= i ==> v@[j as int] < #[trigger] v@[b],
            decreases j,
        {
            let left = v[j - 1];
            let right = v[j];
            let ghost before = v@;
            v.set(j - 1, right);
            v.set(j, left);
            proof {
                lemma_swap_multiset(before, j - 1, j as int);
                assert(v@ == before.update(j - 1, before[j as int]).update(j as int, before[j - 1]));
            }
            j -= 1;
        }
        i += 1;
    }
    proof {
        lemma_u64_leq_total();
        original.lemma_sort_by_ensures(u64_leq());
        assert(sorted_by(v@, u64_leq()));
        lemma_sorted_unique(v@, original.sort_by(u64_leq()), u64_leq());
    }
}

} // verus!
