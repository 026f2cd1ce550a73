//! What a lane promises from end to end.
//!
//! A link is a lane together with both of its ends: the memory of the
//! destination, the counter at the source, and what the sender and the receiver
//! know. Each end acts by the same rules as a ring: a message is put where
//! `RingState::staged` puts it and only where `RingState::gate_shut` does not
//! forbid it, the receiver walks as `drained` does, and an acknowledgement covers
//! no more than what was seen. A put is taken as completed before the receiver
//! walks on.

use crate::frame;
use crate::frame::{Probe, Slot};
use crate::lane;
use crate::lane::Lane;
use crate::receive;
use crate::receive::Drained;
use crate::recovery;
use crate::recovery::Found;
use crate::ring::RingState;
use vstd::arithmetic::div_mod::*;
use vstd::prelude::*;

verus! {

/// A lane with both of its ends.
#[verifier::ext_equal]
pub struct Link {
    pub lane: Lane,
    pub safe: bool,
    /// The destination's slot window.
    pub memory: Seq<u8>,
    /// The payloads sent, in order; the first has sequence 1.
    pub sent: Seq<Seq<u8>>,
    /// The acknowledgement as the sender last read it.
    pub known: u64,
    /// The counter at the source.
    pub counter: u64,
    /// The last sequence that the receiver accounted for.
    pub seen: u64,
    /// What the receiver delivered.
    pub delivered: Seq<Found>,
    /// What the receiver counted as lost.
    pub lost: nat,
}

/// What an end of a link does.
pub enum Action {
    /// The sender puts a message, over whatever its buffer left as padding.
    Send { data: Seq<u8>, padding: Seq<u8> },
    /// The sender reads the counter.
    Refresh,
    /// The receiver walks over the lane.
    Poll,
    /// The receiver acknowledges through a sequence.
    Ack { sequence: u64 },
}

/// The messages past `from` up to `to`.
pub open spec fn messages(sent: Seq<Seq<u8>>, from: int, to: int) -> Seq<Found> {
    Seq::new(
        (to - from) as nat,
        |i: int| Found { sequence: (from + 1 + i) as u64, data: sent[from + i] },
    )
}

impl Link {
    /// Whether the slot of `sequence` holds that message.
    pub open spec fn holds(self, sequence: int) -> bool {
        let position = self.lane.position_of(sequence);
        &&& receive::probe_of(self.memory, self.lane, position) == Probe::Sequence(sequence as u64)
        &&& receive::slot_of(self.memory, self.lane, position) == (Slot::Message {
            sequence: sequence as u64,
            data: self.sent[sequence - 1],
        })
    }

    /// Whether the slot of `sequence` was never written.
    pub open spec fn vacant(self, sequence: int) -> bool {
        receive::probe_of(self.memory, self.lane, self.lane.position_of(sequence)) == Probe::Vacant
    }

    /// The slots hold the last messages sent, as many as there are slots, and
    /// nothing else.
    pub open spec fn intact(self) -> bool {
        &&& self.lane.wf()
        &&& self.lane.lies_in(self.memory.len())
        &&& self.sent.len() <= u64::MAX
        &&& forall|s: int|
            1 <= s <= self.sent.len() && self.sent.len() - self.lane.depth < s
                ==> #[trigger] self.holds(s)
        &&& forall|s: int|
            self.sent.len() < s <= self.lane.depth ==> #[trigger] self.vacant(s)
    }

    /// The receiver is behind the sender, acknowledgements are behind the
    /// receiver, and what the sender knows of them is behind the acknowledgements;
    /// on a safe lane the sender is ahead of the acknowledgements by no more than
    /// there are slots.
    pub open spec fn ordered(self) -> bool {
        &&& self.known <= self.counter <= self.seen <= self.sent.len()
        &&& self.safe ==> self.sent.len() <= self.counter + self.lane.depth
    }

    /// What was delivered is what was sent, in ascending order; with what was lost
    /// it makes up everything seen, and a safe lane lost nothing.
    pub open spec fn faithful(self) -> bool {
        &&& forall|i: int|
            0 <= i < self.delivered.len() ==> {
                &&& 1 <= (#[trigger] self.delivered[i]).sequence <= self.seen
                &&& self.delivered[i].data == self.sent[self.delivered[i].sequence - 1]
            }
        &&& forall|i: int, j: int|
            0 <= i < j < self.delivered.len() ==> (#[trigger] self.delivered[i]).sequence < (
            #[trigger] self.delivered[j]).sequence
        &&& self.delivered.len() + self.lost == self.seen
        &&& self.safe ==> self.lost == 0 && self.delivered == messages(
            self.sent,
            0,
            self.seen as int,
        )
    }

    pub open spec fn sound(self) -> bool {
        self.intact() && self.ordered() && self.faithful()
    }

    /// A link on which nothing happened, over zeroed memory.
    pub open spec fn fresh(lane: Lane, safe: bool, len: nat) -> Link {
        Link {
            lane,
            safe,
            memory: Seq::new(len, |i: int| 0u8),
            sent: Seq::empty(),
            known: 0,
            counter: 0,
            seen: 0,
            delivered: Seq::empty(),
            lost: 0,
        }
    }

    /// Whether an end may act so.
    pub open spec fn allows(self, action: Action) -> bool {
        match action {
            Action::Send { data, padding } => {
                &&& data.len() <= self.lane.capacity
                &&& padding.len() == self.lane.capacity - data.len()
                &&& self.sent.len() < u64::MAX
                &&& self.safe ==> self.sent.len() + 1 - self.known <= self.lane.depth
            },
            Action::Refresh => true,
            Action::Poll => true,
            Action::Ack { sequence } => self.safe && self.counter < sequence <= self.seen,
        }
    }

    /// What a walk over the lane comes to.
    pub open spec fn walk(self) -> Drained {
        receive::drained(self.memory, self.lane, self.safe, self.seen, self.lane.depth as nat)
    }

    /// The link after an end acted.
    pub open spec fn after(self, action: Action) -> Link {
        match action {
            Action::Send { data, padding } => {
                let sequence = (self.sent.len() + 1) as u64;
                Link {
                    memory: frame::overwritten(
                        self.memory,
                        self.lane.slot_at(self.lane.position_of(sequence as int)),
                        frame::slot_image(sequence, data, padding),
                    ),
                    sent: self.sent.push(data),
                    ..self
                }
            },
            Action::Refresh => Link { known: self.counter, ..self },
            Action::Poll => Link {
                seen: self.walk().seen,
                delivered: self.delivered + self.walk().delivered,
                lost: self.lost + self.walk().lost,
                ..self
            },
            Action::Ack { sequence } => Link { counter: sequence, ..self },
        }
    }

    /// Whether each action in turn is allowed.
    pub open spec fn allows_all(self, actions: Seq<Action>) -> bool
        decreases actions.len(),
    {
        actions.len() > 0 ==> {
            &&& self.allows_all(actions.drop_last())
            &&& self.after_all(actions.drop_last()).allows(actions.last())
        }
    }

    /// The link after a series of actions.
    pub open spec fn after_all(self, actions: Seq<Action>) -> Link
        decreases actions.len(),
    {
        if actions.len() == 0 {
            self
        } else {
            self.after_all(actions.drop_last()).after(actions.last())
        }
    }
}

/// Fewer than `depth` sequences apart, two messages occupy different slots.
pub proof fn near_sequences_occupy_different_slots(lane: Lane, a: int, b: int)
    requires
        lane.depth > 0,
        0 < b - a < lane.depth,
    ensures
        lane.position_of(a) != lane.position_of(b),
{
    let d = lane.depth as int;
    if (a - 1) % d == (b - 1) % d {
        lemma_mod_equivalence(b - 1, a - 1, d);
        lemma_small_mod((b - a) as nat, d as nat);
    }
}

/// The previous occupant of the slot of `sequence` is `sequence - depth`.
pub proof fn slots_are_reused_after_depth(lane: Lane, sequence: int)
    requires
        lane.depth > 0,
    ensures
        lane.position_of(sequence) == lane.position_of(sequence - lane.depth),
        0 <= lane.position_of(sequence) < lane.depth,
{
    let d = lane.depth as int;
    lemma_mod_sub_multiples_vanish(sequence - 1, d);
    lemma_mod_bound(sequence - 1, d);
}

/// Overwrites are gated with no slack in either direction: a send is let through
/// exactly where the message that last occupied its slot was acknowledged.
pub proof fn gate_is_tight(ring: RingState, destination: i32)
    requires
        ring.wf(),
        ring.plan.safe,
        ring.send_fault(destination, 0) is None,
    ensures
        ({
            let lane = ring.lane_to(destination)->0;
            let sequence = ring.next_sequence(destination);
            &&& !ring.gate_shut(destination) <==> ring.sent[destination as int].acked
                >= sequence - lane.depth
            &&& lane.position_of(sequence as int) == lane.position_of(sequence - lane.depth)
            &&& forall|s: int|
                sequence - lane.depth < s < sequence ==> #[trigger] lane.position_of(s)
                    != lane.position_of(sequence as int)
        }),
{
    let lane = ring.lane_to(destination)->0;
    let sequence = ring.next_sequence(destination);
    slots_are_reused_after_depth(lane, sequence as int);
    assert forall|s: int| sequence - lane.depth < s < sequence implies #[trigger] lane.position_of(s)
        != lane.position_of(sequence as int) by {
        near_sequences_occupy_different_slots(lane, s, sequence as int);
    }
}

/// What a ring stages fills a slot exactly.
pub proof fn staged_images_fill_their_slot(
    ring: RingState,
    destination: i32,
    data: Seq<u8>,
    waited: bool,
)
    requires
        ring.wf(),
        ring.send_fault(destination, data.len()) is None,
    ensures
        ({
            let lane = ring.lane_to(destination)->0;
            let put = ring.staged(destination, data, waited).1;
            let padding = frame::padding_of(
                ring.sent[destination as int].image,
                lane.slot as nat,
                data.len(),
            );
            &&& put.sequence == ring.sent[destination as int].sent + 1
            &&& put.displacement == lane.slot_at(lane.position_of(put.sequence as int))
            &&& put.image == frame::slot_image(put.sequence, data, padding)
            &&& padding.len() == lane.capacity - data.len()
            &&& put.image.len() == lane.slot
            &&& lane.offset <= put.displacement
            &&& put.displacement + put.image.len() <= lane.offset + lane.depth * lane.slot
        }),
{
    let lane = ring.lane_to(destination)->0;
    let put = ring.staged(destination, data, waited).1;
    let padding = frame::padding_of(
        ring.sent[destination as int].image,
        lane.slot as nat,
        data.len(),
    );
    frame::images_have_lengths(put.sequence, data, padding);
    slots_are_reused_after_depth(lane, put.sequence as int);
    lane::slots_lie_in_the_lane(lane, lane.position_of(put.sequence as int));
}

/// A put changes its slot and no other.
proof fn puts_change_one_slot(memory: Seq<u8>, lane: Lane, position: int, image: Seq<u8>)
    requires
        lane.wf(),
        lane.lies_in(memory.len()),
        0 <= position < lane.depth,
        image.len() == lane.slot,
    ensures
        receive::slot_bytes(
            frame::overwritten(memory, lane.slot_at(position), image),
            lane,
            position,
        ) == image,
        forall|other: int|
            0 <= other < lane.depth && other != position ==> #[trigger] receive::slot_bytes(
                frame::overwritten(memory, lane.slot_at(position), image),
                lane,
                other,
            ) == receive::slot_bytes(memory, lane, other),
{
    let written = frame::overwritten(memory, lane.slot_at(position), image);
    lane::slots_lie_in_the_lane(lane, position);
    assert(receive::slot_bytes(written, lane, position) =~= image);
    assert forall|other: int| 0 <= other < lane.depth && other != position implies #[trigger] receive::slot_bytes(
        written,
        lane,
        other,
    ) == receive::slot_bytes(memory, lane, other) by {
        lane::slots_lie_in_the_lane(lane, other);
        lane::slots_do_not_overlap(lane, position, other);
        assert(receive::slot_bytes(written, lane, other) =~= receive::slot_bytes(
            memory,
            lane,
            other,
        ));
    }
}

proof fn send_keeps_intact(link: Link, data: Seq<u8>, padding: Seq<u8>)
    requires
        link.intact(),
        link.allows(Action::Send { data, padding }),
    ensures
        link.after(Action::Send { data, padding }).intact(),
{
    let next = link.after(Action::Send { data, padding });
    let lane = link.lane;
    let n = link.sent.len();
    let sequence = (n + 1) as u64;
    let position = lane.position_of(sequence as int);
    let image = frame::slot_image(sequence, data, padding);
    slots_are_reused_after_depth(lane, sequence as int);
    frame::images_have_lengths(sequence, data, padding);
    frame::decode_gives_back_encode(sequence, data, padding, lane.capacity as nat);
    puts_change_one_slot(link.memory, lane, position, image);
    assert forall|s: int|
        1 <= s <= next.sent.len() && next.sent.len() - lane.depth < s implies #[trigger] next.holds(
        s,
    ) by {
        slots_are_reused_after_depth(lane, s);
        if s < sequence {
            near_sequences_occupy_different_slots(lane, s, sequence as int);
            assert(link.holds(s));
            assert(receive::slot_bytes(next.memory, lane, lane.position_of(s))
                == receive::slot_bytes(link.memory, lane, lane.position_of(s)));
            assert(next.sent[s - 1] == link.sent[s - 1]);
        }
    }
    assert forall|s: int| next.sent.len() < s <= lane.depth implies #[trigger] next.vacant(s) by {
        slots_are_reused_after_depth(lane, s);
        near_sequences_occupy_different_slots(lane, sequence as int, s);
        assert(link.vacant(s));
        assert(receive::slot_bytes(next.memory, lane, lane.position_of(s)) == receive::slot_bytes(
            link.memory,
            lane,
            lane.position_of(s),
        ));
    }
}

impl Link {
    /// The last message whose slot is `position`, once every slot was written.
    pub open spec fn occupant(self, position: int) -> int {
        self.sent.len() - (self.sent.len() - 1 - position) % (self.lane.depth as int)
    }
}

proof fn occupants_are_the_last_messages(link: Link, position: int)
    requires
        link.intact(),
        0 <= position < link.lane.depth <= link.sent.len(),
    ensures
        link.sent.len() - link.lane.depth < link.occupant(position) <= link.sent.len(),
        link.lane.position_of(link.occupant(position)) == position,
        link.holds(link.occupant(position)),
{
    let d = link.lane.depth as int;
    let gap = link.sent.len() - 1 - position;
    lemma_mod_bound(gap, d);
    lemma_fundamental_div_mod(gap, d);
    assert(link.occupant(position) - 1 == d * (gap / d) + position);
    lemma_mod_multiples_vanish(gap / d, position, d);
    lemma_small_mod(position as nat, d as nat);
}

/// A walk that is behind by no more than the slots hold delivers what was sent
/// since, and ends there.
proof fn walk_in_order(link: Link, seen: u64, left: nat)
    requires
        link.intact(),
        seen <= link.sent.len() <= seen + left,
        link.sent.len() <= seen + link.lane.depth,
    ensures
        receive::drained(link.memory, link.lane, link.safe, seen, left) == (Drained {
            seen: link.sent.len() as u64,
            delivered: messages(link.sent, seen as int, link.sent.len() as int),
            lost: 0,
            corrupt: 0,
            lapped: None,
        }),
    decreases left,
{
    let n = link.sent.len();
    let lane = link.lane;
    if left == 0 || seen == u64::MAX {
        assert(messages(link.sent, seen as int, n as int) =~= Seq::<Found>::empty());
    } else if seen == n {
        assert(messages(link.sent, seen as int, n as int) =~= Seq::<Found>::empty());
        slots_are_reused_after_depth(lane, (n + 1) as int);
        if n < lane.depth {
            assert(link.vacant((n + 1) as int));
        } else {
            assert(link.holds(n + 1 - lane.depth));
        }
    } else {
        assert(link.holds(seen + 1));
        walk_in_order(link, (seen + 1) as u64, (left - 1) as nat);
        assert(messages(link.sent, seen as int, n as int) =~= seq![
            Found { sequence: (seen + 1) as u64, data: link.sent[seen as int] },
        ] + messages(link.sent, seen + 1, n as int));
    }
}

proof fn every_slot_is_retained(link: Link, seen: u64, n: nat)
    requires
        link.intact(),
        n <= link.lane.depth,
        seen + link.lane.depth <= link.sent.len(),
    ensures
        receive::retained(link.memory, link.lane, seen, n) == Seq::new(
            n,
            |p: int| Found {
                sequence: link.occupant(p) as u64,
                data: link.sent[link.occupant(p) - 1],
            },
        ),
        receive::damaged(link.memory, link.lane, seen, n) == 0,
    decreases n,
{
    let list = receive::retained(link.memory, link.lane, seen, n);
    let expected = Seq::new(
        n,
        |p: int| Found {
            sequence: link.occupant(p) as u64,
            data: link.sent[link.occupant(p) - 1],
        },
    );
    if n > 0 {
        every_slot_is_retained(link, seen, (n - 1) as nat);
        occupants_are_the_last_messages(link, n - 1);
    }
    assert(list =~= expected);
}

/// A raw walk that was lapped delivers what the slots hold and counts the rest
/// as lost.
proof fn walk_after_a_lap(link: Link, seen: u64)
    requires
        link.intact(),
        !link.safe,
        seen + link.lane.depth < link.sent.len(),
    ensures
        receive::drained(
            link.memory,
            link.lane,
            link.safe,
            seen,
            link.lane.depth as nat,
        ) == (Drained {
            seen: link.sent.len() as u64,
            delivered: messages(
                link.sent,
                link.sent.len() - link.lane.depth,
                link.sent.len() as int,
            ),
            lost: (link.sent.len() - link.lane.depth - seen) as nat,
            corrupt: 0,
            lapped: None,
        }),
{
    let n = link.sent.len();
    let lane = link.lane;
    let d = lane.depth as int;
    slots_are_reused_after_depth(lane, seen + 1);
    occupants_are_the_last_messages(link, lane.position_of(seen + 1));
    every_slot_is_retained(link, seen, lane.depth as nat);
    let list = receive::retained(link.memory, lane, seen, lane.depth as nat);
    let chosen = messages(link.sent, n - d, n as int);
    assert forall|i: int| 0 <= i < chosen.len() implies recovery::is_first(
        list,
        #[trigger] chosen[i],
    ) by {
        let s = n - d + 1 + i;
        let p = lane.position_of(s);
        slots_are_reused_after_depth(lane, s);
        occupants_are_the_last_messages(link, p);
        let o = link.occupant(p);
        if o < s {
            near_sequences_occupy_different_slots(lane, o, s);
        } else if s < o {
            near_sequences_occupy_different_slots(lane, s, o);
        }
        assert(list[p] == chosen[i]);
        assert forall|j: int| 0 <= j < p implies (#[trigger] list[j]).sequence
            != chosen[i].sequence by {
            occupants_are_the_last_messages(link, j);
        }
    }
    assert forall|k: int| 0 <= k < list.len() implies recovery::has_sequence(
        chosen,
        (#[trigger] list[k]).sequence,
    ) by {
        occupants_are_the_last_messages(link, k);
        assert(chosen[link.occupant(k) - (n - d) - 1].sequence == list[k].sequence);
    }
    recovery::selection_is_unique(list, chosen);
}

/// What polling a lane comes to. A receiver that is behind by no more messages
/// than there are slots is given all of them, in order; one that is further behind
/// is given the last ones, as many as there are slots, and the others are counted
/// as lost. Nothing is found corrupt, and a safe lane is never found overwritten.
pub proof fn polls_deliver_what_the_slots_hold(link: Link)
    requires
        link.intact(),
        link.ordered(),
    ensures
        link.walk() == (Drained {
            seen: link.sent.len() as u64,
            delivered: messages(
                link.sent,
                if link.sent.len() <= link.seen + link.lane.depth {
                    link.seen as int
                } else {
                    link.sent.len() - link.lane.depth
                },
                link.sent.len() as int,
            ),
            lost: if link.sent.len() <= link.seen + link.lane.depth {
                0
            } else {
                (link.sent.len() - link.lane.depth - link.seen) as nat
            },
            corrupt: 0,
            lapped: None,
        }),
        link.safe ==> link.sent.len() <= link.seen + link.lane.depth,
{
    if link.sent.len() <= link.seen + link.lane.depth {
        walk_in_order(link, link.seen, link.lane.depth as nat);
    } else {
        walk_after_a_lap(link, link.seen);
    }
}

/// Polling twice with nothing sent in between delivers nothing the second time.
pub proof fn a_second_poll_delivers_nothing(link: Link)
    requires
        link.intact(),
        link.ordered(),
    ensures
        link.after(Action::Poll).walk() == receive::stopped(link.sent.len() as u64, 0),
        link.after(Action::Poll).after(Action::Poll) == link.after(Action::Poll),
{
    let next = link.after(Action::Poll);
    polls_deliver_what_the_slots_hold(link);
    assert forall|s: int|
        1 <= s <= next.sent.len() && next.sent.len() - next.lane.depth < s implies #[trigger] next.holds(
        s,
    ) by {
        assert(link.holds(s));
    }
    assert forall|s: int| next.sent.len() < s <= next.lane.depth implies #[trigger] next.vacant(
        s,
    ) by {
        assert(link.vacant(s));
    }
    polls_deliver_what_the_slots_hold(next);
    assert(next.walk().delivered =~= Seq::<Found>::empty());
    assert(next.after(Action::Poll).delivered =~= next.delivered);
}

/// A safe sender overwrites no message that was not acknowledged, nor one that was
/// not delivered.
pub proof fn safe_sends_overwrite_nothing_unread(link: Link, data: Seq<u8>, padding: Seq<u8>)
    requires
        link.sound(),
        link.safe,
        link.allows(Action::Send { data, padding }),
    ensures
        ({
            let sequence = (link.sent.len() + 1) as int;
            let previous = sequence - link.lane.depth;
            &&& link.lane.position_of(sequence) == link.lane.position_of(previous)
            &&& previous <= link.counter <= link.seen
            &&& previous > 0 ==> link.delivered[previous - 1] == (Found {
                sequence: previous as u64,
                data: link.sent[previous - 1],
            })
        }),
{
    slots_are_reused_after_depth(link.lane, (link.sent.len() + 1) as int);
}

/// A lane over zeroed memory holds nothing, and nothing was sent, seen or lost.
pub proof fn fresh_links_are_sound(lane: Lane, safe: bool, len: nat)
    requires
        lane.wf(),
        lane.lies_in(len),
    ensures
        Link::fresh(lane, safe, len).sound(),
{
    let link = Link::fresh(lane, safe, len);
    assert forall|s: int| link.sent.len() < s <= lane.depth implies #[trigger] link.vacant(s) by {
        slots_are_reused_after_depth(lane, s);
        lane::slots_lie_in_the_lane(lane, lane.position_of(s));
        frame::zeroed_slots_are_vacant(
            receive::slot_bytes(link.memory, lane, lane.position_of(s)),
            lane.capacity as nat,
        );
    }
    assert(link.delivered =~= messages(link.sent, 0, 0));
}

/// Whatever an end of a lane does, the lane stays sound.
pub proof fn actions_keep_links_sound(link: Link, action: Action)
    requires
        link.sound(),
        link.allows(action),
    ensures
        link.after(action).sound(),
{
    let next = link.after(action);
    if let Action::Send { data, padding } = action {
        send_keeps_intact(link, data, padding);
        assert(messages(next.sent, 0, next.seen as int) =~= messages(
            link.sent,
            0,
            link.seen as int,
        ));
    } else {
        assert forall|s: int|
            1 <= s <= next.sent.len() && next.sent.len() - next.lane.depth < s implies #[trigger] next.holds(
            s,
        ) by {
            assert(link.holds(s));
        }
        assert forall|s: int| next.sent.len() < s <= next.lane.depth implies #[trigger] next.vacant(
            s,
        ) by {
            assert(link.vacant(s));
        }
        if action is Poll {
            polls_deliver_what_the_slots_hold(link);
            let more = link.walk().delivered;
            let k = link.delivered.len();
            assert forall|i: int| 0 <= i < next.delivered.len() implies 1 <= (
            #[trigger] next.delivered[i]).sequence <= next.seen && next.delivered[i].data
                == next.sent[next.delivered[i].sequence - 1] by {
                if i >= k {
                    assert(next.delivered[i] == more[i - k]);
                } else {
                    assert(next.delivered[i] == link.delivered[i]);
                }
            }
            assert forall|i: int, j: int| 0 <= i < j < next.delivered.len() implies (
            #[trigger] next.delivered[i]).sequence < (#[trigger] next.delivered[j]).sequence by {
                if j < k {
                    assert(next.delivered[j] == link.delivered[j]);
                } else {
                    assert(next.delivered[j] == more[j - k]);
                }
                if i < k {
                    assert(next.delivered[i] == link.delivered[i]);
                } else {
                    assert(next.delivered[i] == more[i - k]);
                }
            }
            if link.safe {
                assert(next.delivered =~= messages(next.sent, 0, next.seen as int));
            }
        }
    }
}

/// Whatever the ends of a lane do, from the start on and in whatever order, the
/// lane stays sound.
pub proof fn runs_are_sound(lane: Lane, safe: bool, len: nat, actions: Seq<Action>)
    requires
        lane.wf(),
        lane.lies_in(len),
        Link::fresh(lane, safe, len).allows_all(actions),
    ensures
        Link::fresh(lane, safe, len).after_all(actions).sound(),
        Link::fresh(lane, safe, len).after_all(actions).lane == lane,
        Link::fresh(lane, safe, len).after_all(actions).safe == safe,
    decreases actions.len(),
{
    let link = Link::fresh(lane, safe, len);
    if actions.len() == 0 {
        fresh_links_are_sound(lane, safe, len);
    } else {
        runs_are_sound(lane, safe, len, actions.drop_last());
        actions_keep_links_sound(link.after_all(actions.drop_last()), actions.last());
    }
}

/// A safe lane delivers every message exactly once, in the order in which they
/// were sent and with the payloads that were sent: at any time what was delivered
/// is a beginning of what was sent, the next poll delivers all the rest, nothing is
/// lost, and the lane is never found overwritten or corrupt.
pub proof fn safe_lanes_deliver_everything_in_order(
    lane: Lane,
    len: nat,
    actions: Seq<Action>,
)
    requires
        lane.wf(),
        lane.lies_in(len),
        Link::fresh(lane, true, len).allows_all(actions),
    ensures
        ({
            let link = Link::fresh(lane, true, len).after_all(actions);
            let next = link.after(Action::Poll);
            &&& link.delivered == messages(link.sent, 0, link.delivered.len() as int)
            &&& link.delivered.len() <= link.sent.len()
            &&& next.delivered == messages(link.sent, 0, link.sent.len() as int)
            &&& next.lost == 0
            &&& link.walk().lapped is None
            &&& link.walk().corrupt == 0
        }),
{
    let link = Link::fresh(lane, true, len).after_all(actions);
    runs_are_sound(lane, true, len, actions);
    actions_keep_links_sound(link, Action::Poll);
    polls_deliver_what_the_slots_hold(link);
}

/// A raw lane delivers no message twice, out of order or altered, and accounts for
/// every other: after a poll, the messages delivered and those counted as lost are
/// together all that were sent.
pub proof fn raw_lanes_account_for_everything(lane: Lane, len: nat, actions: Seq<Action>)
    requires
        lane.wf(),
        lane.lies_in(len),
        Link::fresh(lane, false, len).allows_all(actions),
    ensures
        ({
            let link = Link::fresh(lane, false, len).after_all(actions);
            let next = link.after(Action::Poll);
            &&& next.delivered.len() + next.lost == link.sent.len()
            &&& forall|i: int|
                0 <= i < next.delivered.len() ==> (#[trigger] next.delivered[i]).data
                    == link.sent[next.delivered[i].sequence - 1]
            &&& forall|i: int, j: int|
                0 <= i < j < next.delivered.len() ==> (#[trigger] next.delivered[i]).sequence < (
                #[trigger] next.delivered[j]).sequence
            &&& link.walk().corrupt == 0
        }),
{
    let link = Link::fresh(lane, false, len).after_all(actions);
    runs_are_sound(lane, false, len, actions);
    actions_keep_links_sound(link, Action::Poll);
    polls_deliver_what_the_slots_hold(link);
}

} // verus!
