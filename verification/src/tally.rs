//! Counting over the six directions: the indices below `k` at which a
//! property holds, as a set, and how its size grows one index at a time.

use vstd::prelude::*;

verus! {

/// The indices in `0..k` at which `p` holds.
pub open spec fn hits(p: spec_fn(int) -> bool, k: int) -> Set<int> {
    Set::new(|d: int| 0 <= d < k && p(d))
}

/// The hits below `k` are finite, at most `k`, and each further index adds
/// one exactly when the property holds there.
pub proof fn lemma_hits_step(p: spec_fn(int) -> bool, k: int)
    requires
        0 <= k,
    ensures
        hits(p, k).finite(),
        hits(p, k).len() <= k,
        hits(p, k + 1).finite(),
        hits(p, k + 1).len() == hits(p, k).len() + (if p(k) { 1int } else { 0int }),
    decreases k,
{
    if k == 0 {
        assert(hits(p, 0) =~= Set::<int>::empty());
    } else {
        lemma_hits_step(p, k - 1);
    }
    if p(k) {
        assert(hits(p, k + 1) =~= hits(p, k).insert(k));
    } else {
        assert(hits(p, k + 1) =~= hits(p, k));
    }
}

} // verus!
