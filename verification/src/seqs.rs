//! A small sequence-search helper used to mirror linear lookups.

use vstd::prelude::*;

verus! {

/// Index of the first element satisfying `p`, or the length when none does.
pub open spec fn find_first<A>(s: Seq<A>, p: spec_fn(A) -> bool) -> int
    decreases s.len(),
{
    if s.len() == 0 {
        0
    } else if p(s[0]) {
        0
    } else {
        1 + find_first(s.drop_first(), p)
    }
}

pub proof fn lemma_find_first<A>(s: Seq<A>, p: spec_fn(A) -> bool)
    ensures
        0 <= find_first(s, p) <= s.len(),
        find_first(s, p) < s.len() ==> p(s[find_first(s, p)]),
        forall|j: int| 0 <= j < find_first(s, p) ==> !p(s[j]),
    decreases s.len(),
{
    if s.len() > 0 && !p(s[0]) {
        lemma_find_first(s.drop_first(), p);
        assert forall|j: int| 0 <= j < find_first(s, p) implies !p(s[j]) by {
            if j > 0 {
                assert(s.drop_first()[j - 1] == s[j]);
            }
        }
    }
}

} // verus!
