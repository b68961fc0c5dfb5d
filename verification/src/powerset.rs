use vstd::prelude::*;
use vstd::arithmetic::power2::pow2;
use crate::enumeration::{assignment_count, bit, bit_is_set};

verus! {

/// The elements of `set` at the places where `mask` has a bit set, in their
/// order.
pub open spec fn subset_of(set: Seq<i32>, mask: nat) -> Seq<i32>
    decreases set.len(),
{
    if set.len() == 0 {
        Seq::empty()
    } else if bit(mask, (set.len() - 1) as nat) {
        subset_of(set.drop_last(), mask).push(set.last())
    } else {
        subset_of(set.drop_last(), mask)
    }
}

/// All subsets of a list of `n` elements: the subset at place `mask` holds
/// the elements whose place is a set bit of `mask`, for `mask` from `0` to
/// `2^n - 1`.
pub fn powerset(set: &[i32]) -> (r: Vec<Vec<i32>>)
    requires
        set@.len() < 32,
    ensures
        r.len() == pow2(set@.len()),
        forall|mask: int|
            0 <= mask < r.len() ==> (#[trigger] r[mask])@ == subset_of(set@, mask as nat),
{
    let n = set.len();
    let limit = assignment_count(n);
    let mut subsets: Vec<Vec<i32>> = Vec::new();
    let mut mask: u32 = 0;
    while mask < limit
        invariant
            mask <= limit,
            limit == pow2(set@.len()),
            n == set@.len(),
            n < 32,
            subsets.len() == mask,
            forall|m: int| 0 <= m < mask ==> (#[trigger] subsets[m])@ == subset_of(set@, m as nat),
        decreases limit - mask,
    {
        let mut subset: Vec<i32> = Vec::new();
        let mut t: usize = 0;
        while t < n
            invariant
                t <= n,
                n == set@.len(),
                n < 32,
                subset@ == subset_of(set@.take(t as int), mask as nat),
            decreases n - t,
        {
            proof {
                let next = set@.take(t + 1);
                assert(next.drop_last() =~= set@.take(t as int));
            }
            if bit_is_set(mask, t) {
                subset.push(set[t]);
            }
            t += 1;
        }
        assert(set@.take(n as int) =~= set@);
        subsets.push(subset);
        mask += 1;
    }
    subsets
}

} // verus!
