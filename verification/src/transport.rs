//! Rings and links: what two rings promise that share a lane.
//!
//! The rings at the ends of a lane, the memory of the destination and the counter
//! at the source make up a link. Every step that the rings take is an action of
//! the link, so what holds of links holds of rings.

use crate::config;
use crate::config::ProposalState;
use crate::frame;
use crate::lane;
use crate::lane::Lane;
use crate::link;
use crate::link::{Action, Link};
use crate::receive;
use crate::recovery::Found;
use crate::ring;
use crate::ring::{AckStep, RingState};
use crate::window::WindowState;
use vstd::prelude::*;

verus! {

impl Link {
    /// Whether the ring `source` of rank `from` and the ring `destination` of rank
    /// `to` are the ends of the link.
    pub open spec fn joins(
        self,
        source: RingState,
        from: i32,
        destination: RingState,
        to: i32,
    ) -> bool {
        &&& source.wf()
        &&& destination.wf()
        &&& source.plan.safe == self.safe
        &&& destination.plan.safe == self.safe
        &&& source.lane_to(to) == Some(self.lane)
        &&& destination.lane_from(from) == Some(self.lane)
        &&& source.sent[to as int].sent == self.sent.len()
        &&& source.sent[to as int].acked == self.known
        &&& destination.seen[from as int] == self.seen
        &&& destination.acked[from as int] == self.counter
    }
}

/// Rings that were made from the same lanes are joined by a link over zeroed
/// memory, wherever there is a lane from one to the other.
pub proof fn new_rings_are_joined(a: ProposalState, b: ProposalState)
    requires
        a.wf(),
        b.wf(),
        a.safe == b.safe,
        a.ranks == b.ranks,
        a.lanes == b.lanes,
        config::plan_fault(a.lanes, a.ranks) is None,
        a.planned().to[b.rank as int] is Some,
    ensures
        ({
            let lane = a.planned().to[b.rank as int]->0;
            let link = Link::fresh(lane, a.safe, b.planned().slot_bytes as nat);
            &&& link.sound()
            &&& link.joins(
                RingState::fresh(a.planned()),
                a.rank,
                RingState::fresh(b.planned()),
                b.rank,
            )
        }),
{
    config::both_ends_agree(a, b);
    config::plans_are_sound(a);
    config::plans_are_sound(b);
    let lane = a.planned().to[b.rank as int]->0;
    link::fresh_links_are_sound(lane, a.safe, b.planned().slot_bytes as nat);
}

/// A message that a ring puts is sent over the link: with the put made, the next
/// message has the next sequence, and the link stays sound.
pub proof fn sending_is_an_action(
    link: Link,
    source: RingState,
    from: i32,
    destination: RingState,
    to: i32,
    data: Seq<u8>,
    waited: bool,
)
    requires
        link.sound(),
        link.joins(source, from, destination, to),
        source.send_fault(to, data.len()) is None,
        !source.gate_shut(to),
    ensures
        ({
            let (rest, put) = source.staged(to, data, waited);
            let padding = frame::padding_of(
                source.sent[to as int].image,
                link.lane.slot as nat,
                data.len(),
            );
            let action = Action::Send { data, padding };
            &&& put.sequence == link.sent.len() + 1
            &&& rest.awaits_put(put)
            &&& link.allows(action)
            &&& link.after(action).memory == frame::overwritten(
                link.memory,
                put.displacement,
                put.image,
            )
            &&& link.after(action).joins(rest.put_reported(put, true), from, destination, to)
            &&& link.after(action).sound()
        }),
{
    let (rest, put) = source.staged(to, data, waited);
    let padding = frame::padding_of(
        source.sent[to as int].image,
        link.lane.slot as nat,
        data.len(),
    );
    let action = Action::Send { data, padding };
    link::staged_images_fill_their_slot(source, to, data, waited);
    assert(link.allows(action));
    link::actions_keep_links_sound(link, action);
}

/// A put that failed is as if it had not been tried: the next message has the same
/// sequence.
pub proof fn failed_puts_use_no_sequence(
    source: RingState,
    to: i32,
    data: Seq<u8>,
    waited: bool,
)
    requires
        source.wf(),
        source.send_fault(to, data.len()) is None,
    ensures
        ({
            let (rest, put) = source.staged(to, data, waited);
            let after = rest.put_reported(put, false);
            &&& after.next_sequence(to) == source.next_sequence(to)
            &&& after.sent[to as int].acked == source.sent[to as int].acked
            &&& after.gate_shut(to) == source.gate_shut(to)
        }),
{
}

/// A sender that reads the counter of a sound link never finds that it went
/// backwards or ran past what was sent.
pub proof fn refreshing_is_an_action(
    link: Link,
    source: RingState,
    from: i32,
    destination: RingState,
    to: i32,
)
    requires
        link.sound(),
        link.joins(source, from, destination, to),
    ensures
        source.counter_fault(to, link.counter) is None,
        link.after(Action::Refresh).joins(
            source.refreshed(to, link.counter),
            from,
            destination,
            to,
        ),
        link.after(Action::Refresh).sound(),
{
    link::actions_keep_links_sound(link, Action::Refresh);
}

/// A waiting send goes on exactly when the message that last occupied its slot is
/// acknowledged; where nothing more is acknowledged it waits for ever.
pub proof fn waiting_sends_go_on_when_their_slot_is_free(source: RingState, to: i32, value: u64)
    requires
        source.wf(),
        source.plan.safe,
        source.send_fault(to, 0) is None,
        source.gate_shut(to),
        source.counter_fault(to, value) is None,
    ensures
        !source.refreshed(to, value).gate_shut(to) <==> value >= source.next_sequence(to)
            - source.lane_to(to)->0.depth,
        value == source.sent[to as int].acked ==> source.refreshed(to, value).gate_shut(to),
{
}

/// An acknowledgement brings the counter to the acknowledged sequence, and finds
/// it where the receiver left it.
pub proof fn acknowledging_is_an_action(
    link: Link,
    source: RingState,
    from: i32,
    destination: RingState,
    to: i32,
    sequence: u64,
)
    requires
        link.sound(),
        link.joins(source, from, destination, to),
        link.safe,
    ensures
        destination.ack_fault(from, sequence) is Some <==> sequence > link.seen,
        destination.ack_fault(from, sequence) is None ==> match destination.ack_step(
            from,
            sequence,
        ) {
            AckStep::Done => sequence <= link.counter,
            AckStep::FetchAdd(addition) => {
                let action = Action::Ack { sequence };
                let after = RingState {
                    acked: destination.acked.update(from as int, sequence),
                    ..destination
                };
                &&& addition.index == link.lane.ack
                &&& link.counter + addition.delta == sequence
                &&& link.allows(action)
                &&& link.after(action).joins(source, from, after, to)
                &&& link.after(action).sound()
            },
        },
{
    if link.counter < sequence <= link.seen {
        link::actions_keep_links_sound(link, Action::Ack { sequence });
    }
}

/// Acknowledgements are cumulative and idempotent: once a sequence was
/// acknowledged, neither it nor an earlier one needs anything more.
pub proof fn acknowledgements_are_cumulative(
    ring: RingState,
    origin: i32,
    sequence: u64,
    earlier: u64,
)
    requires
        ring.wf(),
        ring.ack_fault(origin, sequence) is None,
        earlier <= sequence,
    ensures
        ring.ack_step(origin, sequence) is Done ==> ring.ack_step(origin, earlier) is Done,
        ring.ack_step(origin, sequence) is FetchAdd ==> {
            let after = RingState {
                acked: ring.acked.update(origin as int, sequence),
                ..ring
            };
            &&& after.ack_fault(origin, earlier) is None
            &&& after.ack_step(origin, earlier) is Done
        },
{
}

/// On a raw ring an acknowledgement of any sequence from any rank comes to
/// nothing, and no send waits.
pub proof fn raw_acknowledgements_come_to_nothing(ring: RingState, origin: i32, sequence: u64)
    requires
        !ring.plan.safe,
        ring.has_rank(origin),
    ensures
        ring.ack_fault(origin, sequence) is None,
        ring.ack_step(origin, sequence) is Done,
        !ring.gate_shut(origin),
{
}

/// Whether `links` are the links of the incoming lanes of `ring`, in the order in
/// which it walks over them, over one memory.
pub open spec fn attended(ring: RingState, links: Seq<Link>, memory: Seq<u8>) -> bool {
    &&& ring.wf()
    &&& links.len() == ring.plan.incoming.len()
    &&& forall|i: int|
        0 <= i < links.len() ==> {
            let origin = ring.plan.incoming[i];
            &&& (#[trigger] links[i]).sound()
            &&& links[i].memory == memory
            &&& links[i].safe == ring.plan.safe
            &&& ring.lane_from(origin) == Some(links[i].lane)
            &&& links[i].seen == ring.seen[origin as int]
            &&& links[i].counter == ring.acked[origin as int]
        }
}

/// What is delivered over each link.
pub open spec fn groups(links: Seq<Link>) -> Seq<Seq<Found>> {
    Seq::new(links.len(), |i: int| links[i].walk().delivered)
}

/// The links after each was polled.
pub open spec fn all_polled(links: Seq<Link>) -> Seq<Link> {
    Seq::new(links.len(), |i: int| links[i].after(Action::Poll))
}

/// What polling the first `n` lanes comes to where their links are sound.
proof fn polls_walk_over_lanes(ring: RingState, links: Seq<Link>, memory: Seq<u8>, n: nat)
    requires
        attended(ring, links, memory),
        n <= links.len(),
    ensures
        ({
            let polled = ring.polled(memory, n);
            let after = polled.ring;
            &&& polled.fault is None
            &&& polled.messages == ring::in_a_row(ring.plan.incoming, groups(links), n)
            &&& after == (RingState {
                seen: after.seen,
                lost: after.lost,
                corrupt: ring.corrupt,
                max_lag: after.max_lag,
                ..ring
            })
            &&& after.seen.len() == ring.seen.len()
            &&& ring.plan.safe ==> after.lost == ring.lost
            &&& forall|i: int|
                0 <= i < links.len() ==> after.seen[ring.plan.incoming[i] as int] == if i < n {
                    (#[trigger] links[i]).walk().seen
                } else {
                    ring.seen[ring.plan.incoming[i] as int]
                }
            &&& forall|s: int|
                0 <= s < ring.seen.len() ==> ring.seen[s] <= #[trigger] after.seen[s]
            &&& forall|i: int|
                0 <= i < n ==> links[i].walk().seen - (#[trigger] links[i]).seen <= after.max_lag
            &&& after.max_lag == ring.max_lag || exists|i: int|
                0 <= i < n && after.max_lag == links[i].walk().seen - (#[trigger] links[i]).seen
            &&& ring.max_lag <= after.max_lag
        }),
    decreases n,
{
    if n > 0 {
        let m = (n - 1) as nat;
        polls_walk_over_lanes(ring, links, memory, m);
        let before = ring.polled(memory, m);
        let link = links[m as int];
        let origin = ring.plan.incoming[m as int];
        assert(link.sound());
        link::polls_deliver_what_the_slots_hold(link);
        let walk = link.walk();
        let after = ring.polled(memory, n).ring;
        assert(after == before.ring.walked(origin, walk));
        assert(groups(links)[m as int] == walk.delivered);
        assert(after.corrupt == ring.corrupt);
        assert forall|i: int| 0 <= i < links.len() implies after.seen[ring.plan.incoming[i] as int]
            == if i < n {
            (#[trigger] links[i]).walk().seen
        } else {
            ring.seen[ring.plan.incoming[i] as int]
        } by {
            if i < m {
                assert(ring.plan.incoming[i] < ring.plan.incoming[m as int]);
            } else if i > m {
                assert(ring.plan.incoming[m as int] < ring.plan.incoming[i]);
            }
        }
        if after.max_lag == before.ring.max_lag && before.ring.max_lag != ring.max_lag {
            let i = choose|i: int|
                0 <= i < m && before.ring.max_lag == links[i].walk().seen - (
                #[trigger] links[i]).seen;
            assert(after.max_lag == links[i].walk().seen - links[i].seen);
        } else if after.max_lag != before.ring.max_lag {
            assert(after.max_lag == links[m as int].walk().seen - links[m as int].seen);
        }
    }
}

/// Polling is an action of every incoming link. Where the links are sound, a poll
/// never fails. It delivers, lane by lane in ascending order of the origins, what
/// the links deliver, finds nothing corrupt, and on a safe ring loses nothing. The
/// links stay sound and attended.
pub proof fn polling_is_an_action(ring: RingState, links: Seq<Link>, memory: Seq<u8>)
    requires
        attended(ring, links, memory),
    ensures
        ({
            let polled = ring.polled(memory, ring.plan.incoming.len());
            &&& polled.fault is None
            &&& polled.messages == ring::in_a_row(
                ring.plan.incoming,
                groups(links),
                links.len(),
            )
            &&& polled.ring.corrupt == ring.corrupt
            &&& ring.plan.safe ==> polled.ring.lost == ring.lost
            &&& attended(polled.ring, all_polled(links), memory)
        }),
{
    let n = links.len();
    polls_walk_over_lanes(ring, links, memory, n);
    let after = ring.polled(memory, n).ring;
    let next = all_polled(links);
    assert forall|i: int| 0 <= i < next.len() implies ({
        let origin = after.plan.incoming[i];
        &&& (#[trigger] next[i]).sound()
        &&& next[i].memory == memory
        &&& next[i].safe == after.plan.safe
        &&& after.lane_from(origin) == Some(next[i].lane)
        &&& next[i].seen == after.seen[origin as int]
        &&& next[i].counter == after.acked[origin as int]
    }) by {
        assert(links[i].sound());
        link::actions_keep_links_sound(links[i], Action::Poll);
        assert(next[i] == links[i].after(Action::Poll));
    }
    assert forall|s: int| 0 <= s < after.acked.len() implies #[trigger] after.acked[s]
        <= after.seen[s] by {
        assert(ring.acked[s] <= ring.seen[s]);
    }
}

/// `max_lag` is the greatest advance that a poll made on a lane: on a safe ring
/// the greatest number of messages that it delivered from one, on a raw ring
/// those that it found lost besides.
pub proof fn max_lag_is_the_greatest_advance(
    ring: RingState,
    links: Seq<Link>,
    memory: Seq<u8>,
    i: int,
)
    requires
        attended(ring, links, memory),
        0 <= i < links.len(),
    ensures
        ({
            let after = ring.polled(memory, ring.plan.incoming.len()).ring;
            let walk = links[i].walk();
            &&& ring.max_lag <= after.max_lag
            &&& walk.delivered.len() + walk.lost <= after.max_lag
            &&& after.max_lag == ring.max_lag || exists|k: int|
                0 <= k < links.len() && after.max_lag == (#[trigger] links[k]).walk().delivered.len()
                    + links[k].walk().lost
            &&& ring.plan.safe ==> walk.lost == 0
        }),
{
    polls_walk_over_lanes(ring, links, memory, links.len());
    let after = ring.polled(memory, ring.plan.incoming.len()).ring;
    assert forall|k: int| 0 <= k < links.len() implies (#[trigger] links[k]).walk().seen
        - links[k].seen == links[k].walk().delivered.len() + links[k].walk().lost by {
        assert(links[k].sound());
        link::polls_deliver_what_the_slots_hold(links[k]);
    }
    if after.max_lag != ring.max_lag {
        let k = choose|k: int|
            0 <= k < links.len() && after.max_lag == links[k].walk().seen - (
            #[trigger] links[k]).seen;
        assert(after.max_lag == links[k].walk().delivered.len() + links[k].walk().lost);
    }
    assert(links[i].sound());
    link::polls_deliver_what_the_slots_hold(links[i]);
}

/// Whether two lanes of a window share no byte.
pub open spec fn apart(a: Lane, b: Lane) -> bool {
    a.lies_in(b.offset as nat) || b.lies_in(a.offset as nat)
}

/// What is put into one lane leaves the other lanes of the window as they are.
pub proof fn puts_into_other_lanes_change_nothing(
    link: Link,
    other: Lane,
    position: int,
    image: Seq<u8>,
)
    requires
        link.sound(),
        other.wf(),
        other.lies_in(link.memory.len()),
        apart(link.lane, other),
        0 <= position < other.depth,
        image.len() == other.slot,
    ensures
        ({
            let after = Link {
                memory: frame::overwritten(link.memory, other.slot_at(position), image),
                ..link
            };
            &&& after.sound()
            &&& after.walk() == link.walk()
        }),
{
    let after = Link {
        memory: frame::overwritten(link.memory, other.slot_at(position), image),
        ..link
    };
    let lane = link.lane;
    lane::slots_lie_in_the_lane(other, position);
    assert forall|p: int| 0 <= p < lane.depth implies #[trigger] receive::slot_bytes(
        after.memory,
        lane,
        p,
    ) == receive::slot_bytes(link.memory, lane, p) by {
        lane::slots_lie_in_the_lane(lane, p);
        assert(receive::slot_bytes(after.memory, lane, p) =~= receive::slot_bytes(
            link.memory,
            lane,
            p,
        ));
    }
    assert forall|s: int|
        1 <= s <= after.sent.len() && after.sent.len() - lane.depth < s implies #[trigger] after.holds(
        s,
    ) by {
        link::slots_are_reused_after_depth(lane, s);
        assert(link.holds(s));
        assert(receive::slot_bytes(after.memory, lane, lane.position_of(s)) == receive::slot_bytes(
            link.memory,
            lane,
            lane.position_of(s),
        ));
    }
    assert forall|s: int| after.sent.len() < s <= lane.depth implies #[trigger] after.vacant(s) by {
        link::slots_are_reused_after_depth(lane, s);
        assert(link.vacant(s));
        assert(receive::slot_bytes(after.memory, lane, lane.position_of(s)) == receive::slot_bytes(
            link.memory,
            lane,
            lane.position_of(s),
        ));
    }
    link::polls_deliver_what_the_slots_hold(link);
    link::polls_deliver_what_the_slots_hold(after);
}

/// The lanes that a rank plans into its window lie apart.
pub proof fn planned_lanes_lie_apart(proposal: ProposalState, a: i32, b: i32)
    requires
        proposal.wf(),
        config::plan_fault(proposal.lanes, proposal.ranks) is None,
        0 <= a < proposal.ranks,
        0 <= b < proposal.ranks,
        a != b,
        proposal.planned().from[a as int] is Some,
        proposal.planned().from[b as int] is Some,
    ensures
        apart(proposal.planned().from[a as int]->0, proposal.planned().from[b as int]->0),
{
    let lanes = proposal.lanes;
    let i = config::route_index(lanes, a as int, proposal.rank as int);
    let j = config::route_index(lanes, b as int, proposal.rank as int);
    if i < j {
        config::lanes_do_not_overlap(lanes, proposal.ranks, i, j);
    } else {
        config::lanes_do_not_overlap(lanes, proposal.ranks, j, i);
    }
}

/// The transfers of a ring are let through by windows of the planned lengths: the
/// put of an image, the addition to a counter, and the local reads of slots and
/// counters.
pub proof fn planned_transfers_pass(
    a: ProposalState,
    b: ProposalState,
    slots: WindowState,
    counters: WindowState,
    source: RingState,
    data: Seq<u8>,
    waited: bool,
)
    requires
        a.wf(),
        b.wf(),
        a.ranks == b.ranks,
        a.lanes == b.lanes,
        config::plan_fault(a.lanes, a.ranks) is None,
        source.wf(),
        source.plan == a.planned(),
        source.send_fault(b.rank, data.len()) is None,
        slots.epoch,
        counters.epoch,
        slots.lengths.len() == a.ranks,
        counters.lengths.len() == a.ranks,
        slots.lengths[b.rank as int] == b.planned().slot_bytes,
        counters.lengths[a.rank as int] == a.planned().counters,
    ensures
        ({
            let lane = source.lane_to(b.rank)->0;
            let put = source.staged(b.rank, data, waited).1;
            &&& slots.transfer_fault(
                b.rank,
                put.displacement as usize,
                put.image.len() as usize,
            ) is None
            &&& counters.transfer_fault(a.rank, lane.ack, 1) is None
            &&& counters.range_fault(a.rank, lane.ack, 1) is None
            &&& forall|position: int|
                0 <= position < lane.depth ==> slots.range_fault(
                    b.rank,
                    #[trigger] lane.slot_at(position) as usize,
                    lane.slot,
                ) is None
        }),
{
    let lane = source.lane_to(b.rank)->0;
    config::both_ends_agree(a, b);
    link::staged_images_fill_their_slot(source, b.rank, data, waited);
    assert forall|position: int| 0 <= position < lane.depth implies slots.range_fault(
        b.rank,
        #[trigger] lane.slot_at(position) as usize,
        lane.slot,
    ) is None by {
        lane::slots_lie_in_the_lane(lane, position);
    }
}

/// Sending and receiving are apart: what a ring sends does not depend on what it
/// received.
pub proof fn sends_depend_on_sends_alone(
    a: RingState,
    b: RingState,
    to: i32,
    data: Seq<u8>,
    waited: bool,
    value: u64,
)
    requires
        a.plan == b.plan,
        a.sent == b.sent,
    ensures
        a.send_fault(to, data.len()) == b.send_fault(to, data.len()),
        a.gate_shut(to) == b.gate_shut(to),
        a.counter_fault(to, value) == b.counter_fault(to, value),
        a.staged(to, data, waited).1 == b.staged(to, data, waited).1,
        a.staged(to, data, waited).0.sent == b.staged(to, data, waited).0.sent,
{
}

/// Sending and receiving are apart: what a ring receives and acknowledges does not
/// depend on what it sent.
pub proof fn receipts_depend_on_receipts_alone(
    a: RingState,
    b: RingState,
    memory: Seq<u8>,
    n: nat,
    origin: i32,
    sequence: u64,
)
    requires
        a.plan == b.plan,
        a.seen == b.seen,
        a.acked == b.acked,
    ensures
        a.polled(memory, n).messages == b.polled(memory, n).messages,
        a.polled(memory, n).fault == b.polled(memory, n).fault,
        a.polled(memory, n).ring.seen == b.polled(memory, n).ring.seen,
        a.ack_fault(origin, sequence) == b.ack_fault(origin, sequence),
        a.ack_step(origin, sequence) == b.ack_step(origin, sequence),
    decreases n,
{
    if n > 0 {
        receipts_depend_on_receipts_alone(a, b, memory, (n - 1) as nat, origin, sequence);
    }
}

/// A poll of a planned ring delivers what was sent on every lane into its rank: where
/// there is a lane from `origin`, it is one of those that the ring walks over, and every
/// message that its link delivers is among those that the poll delivers.
pub proof fn polls_deliver_what_was_sent_on_every_lane(
    proposal: ProposalState,
    ring: RingState,
    links: Seq<Link>,
    memory: Seq<u8>,
    origin: i32,
    j: int,
) -> (i: int)
    requires
        proposal.wf(),
        config::plan_fault(proposal.lanes, proposal.ranks) is None,
        ring.plan == proposal.planned(),
        attended(ring, links, memory),
        exists|k: int|
            0 <= k < proposal.lanes.len() && (#[trigger] proposal.lanes[k]).0 == origin
                && proposal.lanes[k].1 == proposal.rank,
    ensures
        ({
            let polled = ring.polled(memory, ring.plan.incoming.len());
            &&& 0 <= i < links.len()
            &&& ring.plan.incoming[i] == origin
            &&& polled.fault is None
            &&& 0 <= j < links[i].walk().delivered.len() ==> polled.messages.contains(
                receive::Delivery {
                    origin,
                    sequence: links[i].walk().delivered[j].sequence,
                    data: links[i].walk().delivered[j].data,
                },
            )
        }),
{
    let k = choose|k: int|
        0 <= k < proposal.lanes.len() && (#[trigger] proposal.lanes[k]).0 == origin
            && proposal.lanes[k].1 == proposal.rank;
    config::sound_lanes_are_planned(proposal.lanes, proposal.ranks);
    assert(0 <= proposal.lanes[k].0 < proposal.ranks);
    config::every_incoming_lane_is_walked(proposal, origin);
    let incoming = ring.plan.incoming;
    let i = choose|i: int| 0 <= i < incoming.len() && incoming[i] == origin;
    polling_is_an_action(ring, links, memory);
    if 0 <= j < links[i].walk().delivered.len() {
        rows_hold_their_groups(incoming, groups(links), links.len(), i, j);
    }
    i
}

proof fn rows_hold_their_groups(
    origins: Seq<i32>,
    groups: Seq<Seq<Found>>,
    n: nat,
    i: int,
    j: int,
)
    requires
        0 <= i < n <= groups.len(),
        0 <= j < groups[i].len(),
    ensures
        ring::in_a_row(origins, groups, n).contains(
            receive::Delivery {
                origin: origins[i],
                sequence: groups[i][j].sequence,
                data: groups[i][j].data,
            },
        ),
    decreases n,
{
    let message = receive::Delivery {
        origin: origins[i],
        sequence: groups[i][j].sequence,
        data: groups[i][j].data,
    };
    let before = ring::in_a_row(origins, groups, (n - 1) as nat);
    let after = ring::in_a_row(origins, groups, n);
    if i < n - 1 {
        rows_hold_their_groups(origins, groups, (n - 1) as nat, i, j);
        let k = choose|k: int| 0 <= k < before.len() && before[k] == message;
        assert(after[k] == message);
    } else {
        assert(after[before.len() + j] == message);
    }
}

} // verus!
