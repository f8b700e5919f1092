//! A counting argument shared by the proofs of termination.

use vstd::prelude::*;

verus! {

/// A sequence of distinct numbers below `n` has at most `n` elements.
pub proof fn lemma_distinct_bounded(s: Seq<usize>, n: nat)
    requires
        s.no_duplicates(),
        forall|i: int| 0 <= i < s.len() ==> (#[trigger] s[i]) < n,
    ensures
        s.len() <= n,
    decreases n,
{
    if s.len() > 0 {
        if n == 0 {
            assert(s[0] < n);
        } else {
            let top = (n - 1) as usize;
            if s.contains(top) {
                let i = choose|i: int| 0 <= i < s.len() && s[i] == top;
                let r = s.remove(i);
                lemma_distinct_bounded(r, (n - 1) as nat);
            } else {
                lemma_distinct_bounded(s, (n - 1) as nat);
            }
        }
    }
}

} // verus!
