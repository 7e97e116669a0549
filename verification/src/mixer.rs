//! The length of a mix of rendered tracks of different lengths.

use vstd::prelude::*;

verus! {

/// `n` is the length of the longest of the tracks: one track has that
/// length and none is longer.
pub open spec fn is_longest(lengths: Seq<usize>, n: usize) -> bool {
    &&& exists|i: int| 0 <= i < lengths.len() && lengths[i] == n
    &&& forall|i: int| 0 <= i < lengths.len() ==> lengths[i] <= n
}

/// The number of samples in each channel of the mix of tracks of the given
/// lengths: the length of the longest track. There is none where there is no
/// track.
pub fn mix_length(lengths: &Vec<usize>) -> (r: Option<usize>)
    ensures
        r is None <==> lengths@.len() == 0,
        r matches Some(n) ==> is_longest(lengths@, n),
{
    if lengths.len() == 0 {
        return None;
    }
    let mut longest: usize = lengths[0];
    let mut i: usize = 1;
    assert(lengths@.subrange(0, 1)[0] == longest);
    while i < lengths.len()
        invariant
            1 <= i <= lengths@.len(),
            is_longest(lengths@.subrange(0, i as int), longest),
        decreases lengths@.len() - i,
    {
        let ghost seen = lengths@.subrange(0, i as int);
        let ghost more = lengths@.subrange(0, i + 1);
        let ghost w = choose|k: int| 0 <= k < seen.len() && seen[k] == longest;
        if lengths[i] > longest {
            longest = lengths[i];
            assert(more[i as int] == longest);
        } else {
            assert(more[w] == longest);
        }
        assert forall|k: int| 0 <= k < more.len() implies more[k] <= longest by {
            if k < i {
                assert(seen[k] == more[k]);
            }
        }
        i = i + 1;
    }
    assert(lengths@.subrange(0, i as int) =~= lengths@);
    Some(longest)
}

} // verus!
