use rayon::slice::ParallelSliceMut;
use vstd::prelude::*;

use crate::combine::key_le;

verus! {

/// Whether the indices in `p` are in non-descending order of their keys.
pub open spec fn sorted_by_keys(p: Seq<usize>, keys: Seq<(usize, usize, usize)>) -> bool {
    forall|i: int, j: int|
        0 <= i < j < p.len() ==> key_le(#[trigger] keys[p[i] as int], #[trigger] keys[p[j] as int])
}

/// Relies on rayon's `par_sort_by_key`: the slice is sorted by the key that
/// the closure gives each element, and keeps its elements.
#[verifier::external_body]
pub(crate) fn sort_by_keys(p: &mut Vec<usize>, keys: &Vec<(usize, usize, usize)>)
    requires
        forall|i: int| 0 <= i < old(p)@.len() ==> (#[trigger] old(p)@[i] as int) < keys@.len(),
    ensures
        final(p)@.to_multiset() == old(p)@.to_multiset(),
        sorted_by_keys(final(p)@, keys@),
{
    p.par_sort_by_key(|&a| keys[a]);
}

} // verus!
