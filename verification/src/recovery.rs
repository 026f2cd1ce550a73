//! Choosing among frames that were found out of order.

use crate::frame::Frame;
use crate::sort;
use crate::sort::number_in_order;
use vstd::prelude::*;

verus! {

/// A message found in a slot.
#[verifier::ext_equal]
pub struct Found {
    pub sequence: u64,
    pub data: Seq<u8>,
}

impl View for Frame {
    type V = Found;

    open spec fn view(&self) -> Found {
        Found { sequence: self.sequence, data: self.data@ }
    }
}

/// The messages of frames.
pub open spec fn found(frames: Seq<Frame>) -> Seq<Found> {
    Seq::new(frames.len(), |i: int| frames[i]@)
}

/// Whether `item` is the first in the list with its sequence.
pub open spec fn is_first(list: Seq<Found>, item: Found) -> bool {
    exists|i: int|
        0 <= i < list.len() && list[i] == item && forall|j: int|
            0 <= j < i ==> (#[trigger] list[j]).sequence != item.sequence
}

/// Whether some item of the list has the sequence.
pub open spec fn has_sequence(list: Seq<Found>, sequence: u64) -> bool {
    exists|i: int| 0 <= i < list.len() && (#[trigger] list[i]).sequence == sequence
}

/// Whether `chosen` holds, in ascending order, one item for each sequence in the
/// list: the first that has it.
pub open spec fn selects(list: Seq<Found>, chosen: Seq<Found>) -> bool {
    &&& forall|i: int, j: int|
        0 <= i < j < chosen.len() ==> (#[trigger] chosen[i]).sequence < (
        #[trigger] chosen[j]).sequence
    &&& forall|i: int| 0 <= i < chosen.len() ==> is_first(list, #[trigger] chosen[i])
    &&& forall|k: int|
        0 <= k < list.len() ==> has_sequence(chosen, (#[trigger] list[k]).sequence)
}

/// The items of the list in ascending order of sequence, one for each: the first
/// that has it.
pub open spec fn in_sequence(list: Seq<Found>) -> Seq<Found> {
    choose|chosen: Seq<Found>| selects(list, chosen)
}

proof fn selections_agree_up_to(list: Seq<Found>, a: Seq<Found>, b: Seq<Found>, n: nat)
    requires
        selects(list, a),
        selects(list, b),
        n <= a.len(),
    ensures
        n <= b.len(),
        forall|i: int| 0 <= i < n ==> a[i] == b[i],
    decreases n,
{
    if n > 0 {
        let k = n - 1;
        selections_agree_up_to(list, a, b, k as nat);
        assert(is_first(list, a[k]));
        let p = choose|p: int|
            0 <= p < list.len() && list[p] == a[k] && forall|j: int|
                0 <= j < p ==> (#[trigger] list[j]).sequence != a[k].sequence;
        assert(has_sequence(b, list[p].sequence));
        let i = choose|i: int| 0 <= i < b.len() && (#[trigger] b[i]).sequence == list[p].sequence;
        if i < k {
            assert(a[i].sequence < a[k].sequence);
        }
        assert(is_first(list, b[k]));
        let q = choose|q: int|
            0 <= q < list.len() && list[q] == b[k] && forall|j: int|
                0 <= j < q ==> (#[trigger] list[j]).sequence != b[k].sequence;
        assert(has_sequence(a, list[q].sequence));
        let m = choose|m: int| 0 <= m < a.len() && (#[trigger] a[m]).sequence == list[q].sequence;
        if m < k {
            assert(a[m] == b[m]);
            assert(b[m].sequence < b[k].sequence);
        }
        assert(b[k].sequence <= b[i].sequence);
        assert(a[k].sequence <= a[m].sequence);
        assert(a[k].sequence == b[k].sequence);
        if p < q {
            assert(list[p].sequence != b[k].sequence);
        } else if q < p {
            assert(list[q].sequence != a[k].sequence);
        }
    }
}

/// At most one selection can be made of a list.
pub proof fn selection_is_unique(list: Seq<Found>, chosen: Seq<Found>)
    requires
        selects(list, chosen),
    ensures
        in_sequence(list) == chosen,
{
    let other = in_sequence(list);
    assert(selects(list, other));
    selections_agree_up_to(list, chosen, other, chosen.len());
    selections_agree_up_to(list, other, chosen, other.len());
    assert(chosen =~= other);
}

/// The place in an ascending list in front of which a sequence that it lacks stands.
proof fn place_of(chosen: Seq<Found>, sequence: u64) -> (place: int)
    requires
        forall|i: int, j: int|
            0 <= i < j < chosen.len() ==> (#[trigger] chosen[i]).sequence < (
            #[trigger] chosen[j]).sequence,
        !has_sequence(chosen, sequence),
    ensures
        0 <= place <= chosen.len(),
        forall|i: int| 0 <= i < place ==> (#[trigger] chosen[i]).sequence < sequence,
        forall|i: int| place <= i < chosen.len() ==> sequence < (#[trigger] chosen[i]).sequence,
    decreases chosen.len(),
{
    if chosen.len() == 0 {
        0
    } else {
        let last = chosen.len() - 1;
        assert(chosen[last].sequence != sequence);
        if chosen[last].sequence < sequence {
            assert forall|i: int| 0 <= i < chosen.len() implies (#[trigger] chosen[i]).sequence
                < sequence by {
                assert(i < last ==> chosen[i].sequence < chosen[last].sequence);
            }
            chosen.len() as int
        } else {
            let rest = chosen.drop_last();
            assert forall|i: int| 0 <= i < rest.len() implies (#[trigger] rest[i]).sequence
                != sequence by {
                assert(rest[i] == chosen[i]);
            }
            let place = place_of(rest, sequence);
            assert forall|i: int| 0 <= i < place implies (#[trigger] chosen[i]).sequence
                < sequence by {
                assert(rest[i] == chosen[i]);
            }
            assert forall|i: int| place <= i < chosen.len() implies sequence < (
            #[trigger] chosen[i]).sequence by {
                if i < last {
                    assert(rest[i] == chosen[i]);
                }
            }
            place
        }
    }
}

/// A selection can be made of every list, and `in_sequence` is one.
pub proof fn selections_exist(list: Seq<Found>)
    ensures
        selects(list, in_sequence(list)),
    decreases list.len(),
{
    if list.len() == 0 {
        assert(selects(list, Seq::<Found>::empty()));
    } else {
        let rest = list.drop_last();
        let item = list.last();
        let before = in_sequence(rest);
        selections_exist(rest);
        assert forall|x: Found| #[trigger] is_first(rest, x) implies is_first(list, x) by {
            let i = choose|i: int|
                0 <= i < rest.len() && rest[i] == x && forall|j: int|
                    0 <= j < i ==> (#[trigger] rest[j]).sequence != x.sequence;
            assert(list[i] == x);
            assert forall|j: int| 0 <= j < i implies (#[trigger] list[j]).sequence
                != x.sequence by {
                assert(rest[j] == list[j]);
            }
        }
        if has_sequence(before, item.sequence) {
            assert forall|k: int| 0 <= k < list.len() implies has_sequence(
                before,
                (#[trigger] list[k]).sequence,
            ) by {
                if k < rest.len() {
                    assert(rest[k] == list[k]);
                }
            }
            assert(selects(list, before));
        } else {
            let place = place_of(before, item.sequence);
            let after = before.insert(place, item);
            assert forall|i: int| 0 <= i < after.len() implies is_first(
                list,
                #[trigger] after[i],
            ) by {
                if i < place {
                    assert(after[i] == before[i]);
                    assert(is_first(rest, before[i]));
                } else if i > place {
                    assert(after[i] == before[i - 1]);
                    assert(is_first(rest, before[i - 1]));
                } else {
                    assert(list[list.len() - 1] == item);
                    assert forall|j: int| 0 <= j < list.len() - 1 implies (
                    #[trigger] list[j]).sequence != item.sequence by {
                        assert(rest[j] == list[j]);
                        assert(has_sequence(before, rest[j].sequence));
                    }
                }
            }
            assert forall|i: int, j: int| 0 <= i < j < after.len() implies (
            #[trigger] after[i]).sequence < (#[trigger] after[j]).sequence by {
                let a = if i < place {
                    i
                } else {
                    i - 1
                };
                let b = if j < place {
                    j
                } else {
                    j - 1
                };
                assert(i != place ==> after[i] == before[a]);
                assert(j != place ==> after[j] == before[b]);
            }
            assert forall|k: int| 0 <= k < list.len() implies has_sequence(
                after,
                (#[trigger] list[k]).sequence,
            ) by {
                if k < rest.len() {
                    assert(rest[k] == list[k]);
                    assert(has_sequence(before, rest[k].sequence));
                    let m = choose|m: int|
                        0 <= m < before.len() && (#[trigger] before[m]).sequence
                            == rest[k].sequence;
                    if m < place {
                        assert(after[m] == before[m]);
                    } else {
                        assert(after[m + 1] == before[m]);
                    }
                } else {
                    assert(after[place] == item);
                }
            }
            assert(selects(list, after));
        }
    }
}

/// Takes a frame out of its place.
pub(crate) fn take_frame(frames: &mut Vec<Frame>, i: usize) -> (frame: Frame)
    requires
        i < old(frames)@.len(),
    ensures
        frame == old(frames)@[i as int],
        final(frames)@.len() == old(frames)@.len(),
        forall|k: int|
            0 <= k < old(frames)@.len() && k != i ==> final(frames)@[k] == old(frames)@[k],
{
    frames.push(Frame { sequence: 0, data: Vec::new() });
    frames.swap_remove(i)
}

/// Puts frames in ascending order of sequence and drops repetitions.
pub fn select(frames: Vec<Frame>) -> (chosen: Vec<Frame>)
    ensures
        selects(found(frames@), found(chosen@)),
{
    let ghost list = found(frames@);
    let ghost given = frames@;
    let mut frames: Vec<Frame> = frames;
    let mut keys: Vec<u64> = Vec::with_capacity(frames.len());
    let mut i: usize = 0;
    while i < frames.len()
        invariant
            i <= frames@.len(),
            frames@ == given,
            keys@ == Seq::new(i as nat, |k: int| given[k].sequence),
        decreases frames@.len() - i,
    {
        keys.push(frames[i].sequence);
        i += 1;
        assert(keys@ =~= Seq::new(i as nat, |k: int| given[k].sequence));
    }
    let pairs: Vec<(u64, usize)> = number_in_order(&keys);
    let mut chosen: Vec<Frame> = Vec::with_capacity(pairs.len());
    let mut i: usize = 0;
    while i < pairs.len()
        invariant
            i <= pairs@.len(),
            list == found(given),
            frames@.len() == given.len(),
            keys@ == Seq::new(given.len(), |k: int| given[k].sequence),
            sort::numbered_in_order(pairs@, keys@),
            forall|k: int|
                i <= k < pairs@.len() ==> frames@[(#[trigger] pairs@[k]).1 as int]
                    == given[pairs@[k].1 as int],
            forall|a: int, b: int|
                0 <= a < b < chosen@.len() ==> (#[trigger] chosen@[a]).sequence < (
                #[trigger] chosen@[b]).sequence,
            forall|a: int| 0 <= a < chosen@.len() ==> is_first(list, (#[trigger] chosen@[a])@),
            i == 0 ==> chosen@.len() == 0,
            i > 0 ==> chosen@.len() > 0 && chosen@.last().sequence == pairs@[i - 1].0,
            forall|k: int|
                0 <= k < i ==> has_sequence(found(chosen@), (#[trigger] pairs@[k]).0),
        decreases pairs@.len() - i,
    {
        let fresh: bool = i == 0 || pairs[i - 1].0 != pairs[i].0;
        let ghost before = chosen@;
        if fresh {
            let at: usize = pairs[i].1;
            let frame: Frame = take_frame(&mut frames, at);
            proof {
                assert(keys@[at as int] == given[at as int].sequence);
                assert(frame == given[at as int]);
                assert(is_first(list, frame@)) by {
                    assert(list[at as int] == frame@);
                    assert forall|j: int| 0 <= j < at implies (#[trigger] list[j]).sequence
                        != frame.sequence by {
                        assert(keys@[j] == given[j].sequence);
                        assert(pairs@.contains((keys@[j], j as usize)));
                        let m = choose|m: int|
                            0 <= m < pairs@.len() && pairs@[m] == (keys@[j], j as usize);
                        if m < i {
                            assert(sort::pair_le(pairs@[m], pairs@[i - 1]) || m == i - 1);
                            assert(sort::pair_le(pairs@[i - 1], pairs@[i as int]));
                        } else if m > i {
                            assert(sort::pair_le(pairs@[i as int], pairs@[m]));
                        }
                    }
                }
                assert forall|k: int| i < k < pairs@.len() implies frames@[(
                #[trigger] pairs@[k]).1 as int] == given[pairs@[k].1 as int] by {
                    assert(pairs@[k].1 != pairs@[i as int].1);
                }
                if i > 0 {
                    assert(sort::pair_le(pairs@[i - 1], pairs@[i as int]));
                }
            }
            chosen.push(frame);
            proof {
                assert forall|a: int, b: int| 0 <= a < b < chosen@.len() implies (
                #[trigger] chosen@[a]).sequence < (#[trigger] chosen@[b]).sequence by {
                    if b == before.len() && a < before.len() - 1 {
                        assert(before[a].sequence < before[before.len() - 1].sequence);
                    }
                }
            }
        }
        proof {
            assert forall|k: int| 0 <= k < i + 1 implies has_sequence(
                found(chosen@),
                (#[trigger] pairs@[k]).0,
            ) by {
                if k < i {
                    assert(has_sequence(found(before), pairs@[k].0));
                    let n = choose|n: int|
                        0 <= n < found(before).len() && (#[trigger] found(before)[n]).sequence
                            == pairs@[k].0;
                    assert(found(chosen@)[n].sequence == pairs@[k].0);
                } else {
                    assert(found(chosen@)[chosen@.len() - 1].sequence == pairs@[k].0);
                }
            }
        }
        i += 1;
    }
    proof {
        let out = found(chosen@);
        assert forall|k: int| 0 <= k < list.len() implies has_sequence(
            out,
            (#[trigger] list[k]).sequence,
        ) by {
            assert(keys@[k] == given[k].sequence);
            assert(pairs@.contains((keys@[k], k as usize)));
            let m = choose|m: int| 0 <= m < pairs@.len() && pairs@[m] == (keys@[k], k as usize);
            assert(has_sequence(out, pairs@[m].0));
        }
        assert forall|i: int| 0 <= i < out.len() implies is_first(list, #[trigger] out[i]) by {
            assert(out[i] == chosen@[i]@);
        }
        assert forall|i: int, j: int| 0 <= i < j < out.len() implies (#[trigger] out[i]).sequence
            < (#[trigger] out[j]).sequence by {
            assert(chosen@[i].sequence < chosen@[j].sequence);
        }
    }
    chosen
}

/// Out of order or repeated, no sequence is left behind: each item with a sequence that
/// none before it has is chosen.
pub proof fn no_sequence_is_left_behind(list: Seq<Found>, k: int)
    requires
        0 <= k < list.len(),
        forall|j: int| 0 <= j < k ==> (#[trigger] list[j]).sequence != list[k].sequence,
    ensures
        in_sequence(list).contains(list[k]),
{
    selections_exist(list);
    let chosen = in_sequence(list);
    assert(has_sequence(chosen, list[k].sequence));
    let i = choose|i: int|
        0 <= i < chosen.len() && (#[trigger] chosen[i]).sequence == list[k].sequence;
    assert(is_first(list, chosen[i]));
    let p = choose|p: int|
        0 <= p < list.len() && list[p] == chosen[i] && forall|j: int|
            0 <= j < p ==> (#[trigger] list[j]).sequence != chosen[i].sequence;
    if p < k {
        assert(list[p].sequence != list[k].sequence);
    } else if k < p {
        assert(list[k].sequence != chosen[i].sequence);
    }
    assert(chosen[i] == list[k]);
}

/// Nothing is made up: what is chosen is in the list, and it ascends.
pub proof fn nothing_is_made_up(list: Seq<Found>, i: int, j: int)
    requires
        0 <= i < in_sequence(list).len(),
    ensures
        list.contains(in_sequence(list)[i]),
        i < j < in_sequence(list).len() ==> in_sequence(list)[i].sequence < in_sequence(
            list,
        )[j].sequence,
{
    selections_exist(list);
    assert(is_first(list, in_sequence(list)[i]));
    assert(i < j < in_sequence(list).len() ==> in_sequence(list)[i].sequence < in_sequence(
        list,
    )[j].sequence);
}

} // verus!
