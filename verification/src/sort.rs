//! Numbered keys in ascending order.

use vstd::prelude::*;

verus! {

/// The order of keys, and by number among equal keys.
pub open spec fn pair_le(a: (u64, usize), b: (u64, usize)) -> bool {
    a.0 < b.0 || (a.0 == b.0 && a.1 <= b.1)
}

/// Sorts with `sort_unstable` of std, which keeps the items and puts them in
/// ascending order; tuples are ordered by their first component, then by their
/// second.
#[verifier::external_body]
pub(crate) fn sort_pairs(pairs: &mut Vec<(u64, usize)>)
    ensures
        final(pairs)@.to_multiset() == old(pairs)@.to_multiset(),
        forall|i: int, j: int|
            0 <= i <= j < final(pairs)@.len() ==> pair_le(final(pairs)@[i], final(pairs)@[j]),
{
    pairs.sort_unstable();
}

/// The keys with their positions, in ascending order.
pub open spec fn numbered_in_order(pairs: Seq<(u64, usize)>, keys: Seq<u64>) -> bool {
    &&& pairs.len() == keys.len()
    &&& forall|i: int|
        0 <= i < pairs.len() ==> (#[trigger] pairs[i]).1 < keys.len() && pairs[i].0
            == keys[pairs[i].1 as int]
    &&& forall|i: int, j: int| 0 <= i < j < pairs.len() ==> pair_le(pairs[i], pairs[j])
    &&& forall|i: int, j: int|
        0 <= i < j < pairs.len() ==> (#[trigger] pairs[i]).1 != (#[trigger] pairs[j]).1
    &&& forall|k: int|
        0 <= k < keys.len() ==> pairs.contains((#[trigger] keys[k], k as usize))
}

/// Numbers the keys by their positions and puts them in ascending order.
pub(crate) fn number_in_order(keys: &Vec<u64>) -> (pairs: Vec<(u64, usize)>)
    ensures
        numbered_in_order(pairs@, keys@),
{
    let mut pairs: Vec<(u64, usize)> = Vec::with_capacity(keys.len());
    let mut i: usize = 0;
    while i < keys.len()
        invariant
            i <= keys@.len(),
            pairs@ == Seq::new(i as nat, |k: int| (keys@[k], k as usize)),
        decreases keys@.len() - i,
    {
        pairs.push((keys[i], i));
        i += 1;
        assert(pairs@ =~= Seq::new(i as nat, |k: int| (keys@[k], k as usize)));
    }
    let ghost before = pairs@;
    sort_pairs(&mut pairs);
    proof {
        broadcast use vstd::seq_lib::group_to_multiset_ensures;

        assert(pairs@.len() == pairs@.to_multiset().len());
        assert(before.len() == before.to_multiset().len());
        assert(before.len() == keys@.len());
        assert forall|i: int| 0 <= i < pairs@.len() implies (#[trigger] pairs@[i]).1 < keys@.len()
            && pairs@[i].0 == keys@[pairs@[i].1 as int] by {
            assert(pairs@.contains(pairs@[i]));
            assert(before.to_multiset().contains(pairs@[i]));
            assert(before.contains(pairs@[i]));
        }
        before.lemma_multiset_has_no_duplicates();
        pairs@.lemma_multiset_has_no_duplicates_conv();
        assert forall|k: int| 0 <= k < keys@.len() implies pairs@.contains(
            (#[trigger] keys@[k], k as usize),
        ) by {
            assert(before[k] == (keys@[k], k as usize));
            assert(before.contains(before[k]));
            assert(pairs@.to_multiset().contains(before[k]));
        }
        assert forall|i: int, j: int| 0 <= i < j < pairs@.len() implies (#[trigger] pairs@[i]).1 != (
        #[trigger] pairs@[j]).1 by {
            assert(pairs@[i] != pairs@[j]);
        }
    }
    pairs
}

} // verus!
