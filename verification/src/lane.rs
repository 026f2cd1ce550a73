//! Lanes: which rank sends to which, and where the slots lie.
//!
//! A lane leads from a source to a destination and has a number of slots, the
//! depth, each with room for a number of payload bytes, the capacity. The slots
//! of all lanes into one rank are packed into one window of that rank, lane by
//! lane; the acknowledgement counters of all lanes out of one rank are packed
//! into another.

use crate::error::Error;
use crate::frame::OVERHEAD;
use vstd::prelude::*;
use vstd::relations::*;
use vstd::seq_lib::*;

verus! {

/// `(source, destination, depth, capacity)`.
pub type LaneConfig = (i32, i32, usize, usize);

/// Where the slots and the counter of a lane lie.
#[derive(Debug, Clone, Copy, PartialEq, Eq, Structural)]
pub struct Lane {
    /// The first byte of the lane in the slot window of its destination.
    pub offset: usize,
    /// The number of slots.
    pub depth: usize,
    /// The payload bytes of a slot.
    pub capacity: usize,
    /// The bytes of a slot.
    pub slot: usize,
    /// The index of the lane's counter in the counter window of its source.
    pub ack: usize,
}

impl Lane {
    /// Slots that exist, fit a transfer count, and lie where an address reaches.
    pub open spec fn wf(self) -> bool {
        &&& self.depth > 0
        &&& self.capacity > 0
        &&& self.slot == self.capacity + OVERHEAD
        &&& self.slot <= i32::MAX
        &&& self.offset + self.depth * self.slot <= usize::MAX
    }

    /// Whether a memory of `len` bytes holds the lane.
    pub open spec fn lies_in(self, len: nat) -> bool {
        self.offset + self.depth * self.slot <= len
    }

    /// The slot that a sequence number occupies.
    pub open spec fn position_of(self, sequence: int) -> int {
        (sequence - 1) % (self.depth as int)
    }

    /// The first byte of a slot.
    pub open spec fn slot_at(self, position: int) -> int {
        self.offset + position * self.slot
    }

    /// The slot that a sequence number occupies.
    pub fn position(&self, sequence: u64) -> (position: usize)
        requires
            self.depth > 0,
            sequence > 0,
        ensures
            position == self.position_of(sequence as int),
            position < self.depth,
    {
        ((sequence - 1) % self.depth as u64) as usize
    }

    /// The first byte of a slot.
    pub fn slot_offset(&self, position: usize) -> (offset: usize)
        requires
            self.wf(),
            position < self.depth,
        ensures
            offset == self.slot_at(position as int),
            self.offset <= offset,
            offset + self.slot <= self.offset + self.depth * self.slot,
    {
        proof {
            slots_lie_in_the_lane(*self, position as int);
        }
        self.offset + position * self.slot
    }
}

/// Every slot lies between the start and the end of its lane.
pub proof fn slots_lie_in_the_lane(lane: Lane, position: int)
    requires
        lane.wf(),
        0 <= position < lane.depth,
    ensures
        lane.offset <= lane.slot_at(position),
        lane.slot_at(position) + lane.slot <= lane.offset + lane.depth * lane.slot,
        0 <= position * lane.slot <= usize::MAX,
{
    assert(0 <= position * lane.slot && position * lane.slot + lane.slot <= lane.depth * lane.slot)
        by (nonlinear_arith)
        requires
            0 <= position < lane.depth,
            lane.slot >= 0,
    ;
}

/// Two slots of a lane share no byte.
pub proof fn slots_do_not_overlap(lane: Lane, a: int, b: int)
    requires
        lane.wf(),
        0 <= a < lane.depth,
        0 <= b < lane.depth,
        a != b,
    ensures
        lane.slot_at(a) + lane.slot <= lane.slot_at(b) || lane.slot_at(b) + lane.slot
            <= lane.slot_at(a),
{
    assert(a * lane.slot + lane.slot <= b * lane.slot || b * lane.slot + lane.slot <= a
        * lane.slot) by (nonlinear_arith)
        requires
            a != b,
            lane.slot > 0,
    ;
}

/// The order in which lanes are laid out: by source, destination, depth and
/// capacity.
pub open spec fn lane_le(a: LaneConfig, b: LaneConfig) -> bool {
    a.0 < b.0 || (a.0 == b.0 && (a.1 < b.1 || (a.1 == b.1 && (a.2 < b.2 || (a.2 == b.2 && a.3
        <= b.3)))))
}

/// The lanes in the order in which they are laid out.
pub open spec fn in_order(lanes: Seq<LaneConfig>) -> Seq<LaneConfig> {
    lanes.sort_by(|a: LaneConfig, b: LaneConfig| lane_le(a, b))
}

/// Sorts with `sort_unstable` of std, which keeps the items and puts them in
/// ascending order; tuples are ordered by their components, the first that
/// differs deciding.
#[verifier::external_body]
fn sort_lanes(lanes: &mut Vec<LaneConfig>)
    ensures
        final(lanes)@.to_multiset() == old(lanes)@.to_multiset(),
        forall|i: int, j: int|
            0 <= i < j < final(lanes)@.len() ==> lane_le(final(lanes)@[i], final(lanes)@[j]),
{
    lanes.sort_unstable();
}

/// What `in_order` consists of.
pub proof fn in_order_sorts(lanes: Seq<LaneConfig>)
    ensures
        in_order(lanes).to_multiset() == lanes.to_multiset(),
        in_order(lanes).len() == lanes.len(),
        forall|i: int, j: int|
            0 <= i < j < in_order(lanes).len() ==> lane_le(in_order(lanes)[i], in_order(lanes)[j]),
{
    let le = |a: LaneConfig, b: LaneConfig| lane_le(a, b);
    assert(total_ordering(le));
    lanes.lemma_sort_by_ensures(le);
    lanes.to_multiset_ensures();
    in_order(lanes).to_multiset_ensures();
    assert forall|i: int, j: int| 0 <= i < j < in_order(lanes).len() implies lane_le(
        in_order(lanes)[i],
        in_order(lanes)[j],
    ) by {
        assert(le(in_order(lanes)[i], in_order(lanes)[j]));
    }
}

/// The order in which lanes are named does not matter: lists of the same lanes
/// are laid out alike.
pub proof fn order_of_naming_is_irrelevant(a: Seq<LaneConfig>, b: Seq<LaneConfig>)
    requires
        a.to_multiset() == b.to_multiset(),
    ensures
        in_order(a) == in_order(b),
{
    let le = |x: LaneConfig, y: LaneConfig| lane_le(x, y);
    assert(total_ordering(le));
    a.lemma_sort_by_ensures(le);
    b.lemma_sort_by_ensures(le);
    lemma_sorted_unique(in_order(a), in_order(b), le);
}

/// Puts lanes in the order in which they are laid out.
pub fn put_in_order(lanes: &[LaneConfig]) -> (ordered: Vec<LaneConfig>)
    ensures
        ordered@ == in_order(lanes@),
{
    let mut ordered: Vec<LaneConfig> = Vec::with_capacity(lanes.len());
    let mut i: usize = 0;
    while i < lanes.len()
        invariant
            i <= lanes@.len(),
            ordered@ == lanes@.subrange(0, i as int),
        decreases lanes@.len() - i,
    {
        ordered.push(lanes[i]);
        i += 1;
        assert(ordered@ =~= lanes@.subrange(0, i as int));
    }
    assert(ordered@ =~= lanes@);
    sort_lanes(&mut ordered);
    proof {
        let le = |a: LaneConfig, b: LaneConfig| lane_le(a, b);
        assert(total_ordering(le));
        lanes@.lemma_sort_by_ensures(le);
        assert(sorted_by(ordered@, le));
        lemma_sorted_unique(ordered@, in_order(lanes@), le);
    }
    ordered
}

/// The slots of a lane are taken in turn: the first message is put into the first slot,
/// and each message into the slot after that of the message before it, or into the first
/// where there is none.
pub proof fn slots_are_taken_in_turn(lane: Lane, sequence: int)
    requires
        lane.depth > 0,
        sequence >= 1,
    ensures
        lane.position_of(1) == 0,
        lane.position_of(sequence + 1) == if lane.position_of(sequence) + 1 == lane.depth {
            0
        } else {
            lane.position_of(sequence) + 1
        },
        0 <= lane.position_of(sequence) < lane.depth,
{
    let d = lane.depth as int;
    let x = sequence - 1;
    vstd::arithmetic::div_mod::lemma_mod_bound(x, d);
    vstd::arithmetic::div_mod::lemma_small_mod(0, d as nat);
    vstd::arithmetic::div_mod::lemma_add_mod_noop(x, 1, d);
    if d == 1 {
        assert((x + 1) % d == 0) by (nonlinear_arith)
            requires
                d == 1,
        ;
    } else {
        vstd::arithmetic::div_mod::lemma_small_mod(1, d as nat);
        if x % d + 1 == d {
            vstd::arithmetic::div_mod::lemma_mod_self_0(d);
        } else {
            vstd::arithmetic::div_mod::lemma_small_mod((x % d + 1) as nat, d as nat);
        }
    }
}

/// The slots of a lane lie side by side: the first at its offset, and each where the one
/// before it ends.
pub proof fn slots_lie_side_by_side(lane: Lane, position: int)
    ensures
        lane.slot_at(0) == lane.offset,
        lane.slot_at(position + 1) == lane.slot_at(position) + lane.slot,
{
    assert(0 * lane.slot == 0);
    assert((position + 1) * lane.slot == position * lane.slot + lane.slot) by (nonlinear_arith);
}

/// Lanes are laid out by source, then by destination, then by depth, then by capacity.
pub proof fn lanes_are_ordered_by_their_ends(lanes: Seq<LaneConfig>, i: int, j: int)
    requires
        0 <= i < j < lanes.len(),
    ensures
        in_order(lanes)[i].0 <= in_order(lanes)[j].0,
        in_order(lanes)[i].0 == in_order(lanes)[j].0 ==> in_order(lanes)[i].1
            <= in_order(lanes)[j].1,
        in_order(lanes)[i].0 == in_order(lanes)[j].0 && in_order(lanes)[i].1
            == in_order(lanes)[j].1 ==> in_order(lanes)[i].2 <= in_order(lanes)[j].2,
{
    in_order_sorts(lanes);
    assert(lane_le(in_order(lanes)[i], in_order(lanes)[j]));
}

} // verus!
