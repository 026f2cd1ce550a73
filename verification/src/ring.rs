//! Fixed-slot message transport.
//!
//! A ring holds what one rank knows of its lanes: how far it has sent,
//! acknowledged and seen. Sending, receiving and acknowledging decide here;
//! transfers and counter reads are made by the caller in between.

use crate::config;
use crate::config::{Plan, Proposal};
use crate::error::Error;
use crate::frame;
use crate::frame::encode;
use crate::lane;
use crate::lane::{Lane, LaneConfig};
use crate::receive;
use crate::receive::{drain, Drain, Message};
use crate::recovery::Found;
use vstd::prelude::*;

verus! {

/// What a sender knows of one lane.
#[verifier::ext_equal]
pub struct OutgoingState {
    /// The highest sequence put on the wire.
    pub sent: u64,
    /// The cumulative acknowledgement, as last read.
    pub acked: u64,
    /// The bytes left over in the scratch buffer.
    pub image: Seq<u8>,
}

/// What one rank knows of a ring.
#[verifier::ext_equal]
pub struct RingState {
    pub plan: config::PlanState,
    /// Outgoing lanes, by destination.
    pub sent: Seq<OutgoingState>,
    /// The last sequence accounted for, by origin.
    pub seen: Seq<u64>,
    /// The last sequence acknowledged, by origin.
    pub acked: Seq<u64>,
    pub lost: u64,
    pub corrupt: u64,
    pub max_lag: u64,
    pub waits: u64,
    pub wait_ns: u64,
}

/// A count that wraps around.
pub open spec fn wrapped(n: nat) -> u64 {
    (n % 0x1_0000_0000_0000_0000) as u64
}

/// A send that waits for a counter.
#[derive(Debug, Clone, Copy, PartialEq, Eq, Structural)]
pub struct Sending {
    pub destination: i32,
    pub sequence: u64,
    /// Whether no slot was free after a refresh.
    pub waiting: bool,
}

/// A slot image on its way to the destination.
#[derive(Debug, PartialEq, Eq)]
pub struct Put {
    pub destination: i32,
    pub sequence: u64,
    /// The first byte of the slot in the destination's window.
    pub displacement: usize,
    pub image: Vec<u8>,
    /// Whether the sender had to wait.
    pub waited: bool,
}

#[verifier::ext_equal]
pub struct PutState {
    pub destination: i32,
    pub sequence: u64,
    pub displacement: int,
    pub image: Seq<u8>,
    pub waited: bool,
}

impl View for Put {
    type V = PutState;

    open spec fn view(&self) -> PutState {
        PutState {
            destination: self.destination,
            sequence: self.sequence,
            displacement: self.displacement as int,
            image: self.image@,
            waited: self.waited,
        }
    }
}

/// What a send needs next.
#[derive(Debug, PartialEq, Eq)]
pub enum SendStep {
    /// Read the lane's counter from local memory; yield first if the send is
    /// waiting.
    ReadCounter { sending: Sending, index: usize },
    /// Put the image, complete the put, and report.
    Put(Put),
}

/// An addition to a counter at the origin of messages.
#[derive(Debug, Clone, Copy, PartialEq, Eq, Structural)]
pub struct Addition {
    pub origin: i32,
    /// The index of the counter in the origin's window.
    pub index: usize,
    pub delta: u64,
    /// The sequence acknowledged by it.
    pub sequence: u64,
}

/// What an acknowledgement needs next.
#[derive(Debug, Clone, Copy, PartialEq, Eq, Structural)]
pub enum AckStep {
    /// Nothing.
    Done,
    /// Add to the counter and report its previous value.
    FetchAdd(Addition),
}

/// What polling comes to.
#[verifier::ext_equal]
pub struct Polled {
    pub ring: RingState,
    pub messages: Seq<receive::Delivery>,
    pub fault: Option<Error>,
}

impl RingState {
    pub open spec fn wf(self) -> bool {
        &&& self.plan.wf()
        &&& self.sent.len() == self.plan.ranks
        &&& self.seen.len() == self.plan.ranks
        &&& self.acked.len() == self.plan.ranks
        &&& forall|d: int|
            0 <= d < self.sent.len() ==> (#[trigger] self.sent[d]).acked <= self.sent[d].sent
        &&& forall|s: int|
            0 <= s < self.acked.len() ==> #[trigger] self.acked[s] <= self.seen[s]
    }

    /// A ring on which nothing was sent or received.
    pub open spec fn fresh(plan: config::PlanState) -> RingState {
        RingState {
            plan,
            sent: Seq::new(
                plan.ranks,
                |d: int| OutgoingState { sent: 0, acked: 0, image: Seq::empty() },
            ),
            seen: Seq::new(plan.ranks, |s: int| 0u64),
            acked: Seq::new(plan.ranks, |s: int| 0u64),
            lost: 0,
            corrupt: 0,
            max_lag: 0,
            waits: 0,
            wait_ns: 0,
        }
    }

    /// Whether `rank` is a rank of the ring.
    pub open spec fn has_rank(self, rank: i32) -> bool {
        0 <= rank < self.plan.ranks
    }

    /// The lane to `destination`.
    pub open spec fn lane_to(self, destination: i32) -> Option<Lane> {
        if self.has_rank(destination) {
            self.plan.to[destination as int]
        } else {
            None
        }
    }

    /// The lane from `origin`.
    pub open spec fn lane_from(self, origin: i32) -> Option<Lane> {
        if self.has_rank(origin) {
            self.plan.from[origin as int]
        } else {
            None
        }
    }

    /// Why no message of `len` bytes has a lane to `destination`.
    pub open spec fn lane_fault(self, destination: i32, len: nat) -> Option<Error> {
        if !self.has_rank(destination) {
            Some(Error::Rank(destination))
        } else {
            match self.lane_to(destination) {
                None => Some(Error::Ring("directed lane is not configured")),
                Some(lane) => if len > lane.capacity {
                    Some(Error::Payload { len: len as usize, capacity: lane.capacity })
                } else {
                    None
                },
            }
        }
    }

    /// Why no message of `len` bytes can be sent to `destination`.
    pub open spec fn send_fault(self, destination: i32, len: nat) -> Option<Error> {
        if self.lane_fault(destination, len) is Some {
            self.lane_fault(destination, len)
        } else if self.sent[destination as int].sent == u64::MAX {
            Some(Error::Ring("sequence number exhausted"))
        } else {
            None
        }
    }

    /// The sequence of the next message to `destination`.
    pub open spec fn next_sequence(self, destination: i32) -> u64 {
        (self.sent[destination as int].sent + 1) as u64
    }

    /// Whether the next message to `destination` would overwrite a slot that was
    /// not acknowledged, as far as the ring knows.
    pub open spec fn gate_shut(self, destination: i32) -> bool {
        self.plan.safe && self.next_sequence(destination) - self.sent[destination as int].acked
            > self.lane_to(destination)->0.depth
    }

    /// The ring after the acknowledgement of a lane was read.
    pub open spec fn refreshed(self, destination: i32, acked: u64) -> RingState {
        RingState {
            sent: self.sent.update(
                destination as int,
                OutgoingState { acked, ..self.sent[destination as int] },
            ),
            ..self
        }
    }

    /// The image of the next message to `destination`, and the ring without the
    /// buffer that holds it.
    pub open spec fn staged(self, destination: i32, data: Seq<u8>, waited: bool) -> (
        RingState,
        PutState,
    ) {
        let lane = self.lane_to(destination)->0;
        let outgoing = self.sent[destination as int];
        let sequence = self.next_sequence(destination);
        (
            RingState {
                sent: self.sent.update(
                    destination as int,
                    OutgoingState { image: Seq::empty(), ..outgoing },
                ),
                ..self
            },
            PutState {
                destination,
                sequence,
                displacement: lane.slot_at(lane.position_of(sequence as int)),
                image: frame::slot_image(
                    sequence,
                    data,
                    frame::padding_of(outgoing.image, lane.slot as nat, data.len()),
                ),
                waited,
            },
        )
    }

    /// Whether a send may go on with a counter that was read.
    pub open spec fn awaits_counter(self, sending: Sending, len: nat) -> bool {
        &&& self.plan.safe
        &&& self.send_fault(sending.destination, len) is None
        &&& sending.sequence == self.next_sequence(sending.destination)
    }

    /// Why a counter cannot be what the receiver of the lane made of it.
    pub open spec fn counter_fault(self, destination: i32, value: u64) -> Option<Error> {
        if value < self.sent[destination as int].acked {
            Some(Error::Ring("acknowledgement counter regressed"))
        } else if value > self.sent[destination as int].sent {
            Some(Error::Ring("acknowledgement exceeds sent sequence"))
        } else {
            None
        }
    }

    /// Whether a put that was staged may be reported.
    pub open spec fn awaits_put(self, put: PutState) -> bool {
        &&& self.has_rank(put.destination)
        &&& self.sent[put.destination as int].sent < u64::MAX
        &&& put.sequence == self.next_sequence(put.destination)
    }

    /// The ring after a put was reported.
    pub open spec fn put_reported(self, put: PutState, done: bool) -> RingState {
        let outgoing = self.sent[put.destination as int];
        RingState {
            sent: self.sent.update(
                put.destination as int,
                OutgoingState {
                    sent: if done {
                        put.sequence
                    } else {
                        outgoing.sent
                    },
                    image: put.image,
                    ..outgoing
                },
            ),
            ..self
        }
    }

    /// The ring after one walk over the lane from `origin`.
    pub open spec fn walked(self, origin: i32, walk: receive::Drained) -> RingState {
        let advance = walk.seen - self.seen[origin as int];
        RingState {
            seen: self.seen.update(origin as int, walk.seen),
            lost: wrapped((self.lost + walk.lost) as nat),
            corrupt: wrapped((self.corrupt + walk.corrupt) as nat),
            max_lag: if walk.lapped is None && advance > self.max_lag {
                advance as u64
            } else {
                self.max_lag
            },
            ..self
        }
    }

    /// The ring after one walk over the lane from `origin`, which may have failed.
    pub open spec fn advanced(self, origin: i32, walk: receive::Survey) -> RingState {
        let advance = walk.seen - self.seen[origin as int];
        RingState {
            seen: self.seen.update(origin as int, walk.seen),
            lost: wrapped((self.lost + walk.lost) as nat),
            corrupt: wrapped((self.corrupt + walk.corrupt) as nat),
            max_lag: if walk.fault is None && advance > self.max_lag {
                advance as u64
            } else {
                self.max_lag
            },
            ..self
        }
    }

    /// What polling the first `n` incoming lanes comes to, given what the reads
    /// answer. A lane whose walk fails ends the poll.
    pub open spec fn polled_by(self, reads: receive::Reads, n: nat) -> Polled
        decreases n,
    {
        if n == 0 {
            Polled { ring: self, messages: Seq::empty(), fault: None }
        } else {
            let before = self.polled_by(reads, (n - 1) as nat);
            if before.fault is Some {
                before
            } else {
                let origin = self.plan.incoming[n - 1];
                let lane = self.lane_from(origin)->0;
                let walk = receive::surveyed(
                    reads,
                    origin,
                    lane,
                    self.plan.safe,
                    before.ring.seen[origin as int],
                    lane.depth as nat,
                );
                Polled {
                    ring: before.ring.advanced(origin, walk),
                    messages: before.messages + receive::delivered_from(origin, walk.delivered),
                    fault: walk.fault,
                }
            }
        }
    }

    /// What polling the first `n` incoming lanes comes to, where local memory
    /// stays as it is.
    pub open spec fn polled(self, memory: Seq<u8>, n: nat) -> Polled
        decreases n,
    {
        if n == 0 {
            Polled { ring: self, messages: Seq::empty(), fault: None }
        } else {
            let before = self.polled(memory, (n - 1) as nat);
            if before.fault is Some {
                before
            } else {
                let origin = self.plan.incoming[n - 1];
                let lane = self.lane_from(origin)->0;
                let walk = receive::drained(
                    memory,
                    lane,
                    self.plan.safe,
                    before.ring.seen[origin as int],
                    lane.depth as nat,
                );
                Polled {
                    ring: before.ring.walked(origin, walk),
                    messages: before.messages + receive::delivered_from(origin, walk.delivered),
                    fault: receive::lapped_error(origin, walk.lapped),
                }
            }
        }
    }

    /// Whether a memory holds every incoming lane.
    pub open spec fn lanes_lie_in(self, len: nat) -> bool {
        forall|i: int|
            0 <= i < self.plan.incoming.len() ==> self.lane_from(
                #[trigger] self.plan.incoming[i],
            )->0.lies_in(len)
    }

    /// Why messages from `origin` cannot be acknowledged through `sequence`.
    pub open spec fn ack_fault(self, origin: i32, sequence: u64) -> Option<Error> {
        if !self.has_rank(origin) {
            Some(Error::Rank(origin))
        } else if !self.plan.safe {
            None
        } else if self.lane_from(origin) is None {
            Some(Error::Ring("directed lane is not configured"))
        } else if sequence > self.acked[origin as int] && sequence > self.seen[origin as int] {
            Some(Error::Ack { origin, sequence, received: self.seen[origin as int] })
        } else {
            None
        }
    }

    /// What an acknowledgement needs.
    pub open spec fn ack_step(self, origin: i32, sequence: u64) -> AckStep {
        if !self.plan.safe || sequence <= self.acked[origin as int] {
            AckStep::Done
        } else {
            AckStep::FetchAdd(
                Addition {
                    origin,
                    index: self.lane_from(origin)->0.ack,
                    delta: (sequence - self.acked[origin as int]) as u64,
                    sequence,
                },
            )
        }
    }

    /// Whether an addition that was asked for may be reported.
    pub open spec fn awaits_addition(self, addition: Addition) -> bool {
        &&& self.has_rank(addition.origin)
        &&& self.acked[addition.origin as int] < addition.sequence
            <= self.seen[addition.origin as int]
    }
}

/// Whether both reads return what `memory` holds, and it holds every incoming
/// lane.
pub open spec fn still<
    V: Fn(usize, usize) -> Result<Vec<u8>, Error>,
    C: Fn(usize, usize) -> Result<Vec<u8>, Error>,
>(volatile: V, copy: C, memory: Seq<u8>, ring: RingState) -> bool {
    &&& receive::serves(volatile, memory)
    &&& receive::serves(copy, memory)
    &&& ring.lanes_lie_in(memory.len())
}

/// Whether both reads answer so, wherever an incoming lane lies.
pub open spec fn told<
    V: Fn(usize, usize) -> Result<Vec<u8>, Error>,
    C: Fn(usize, usize) -> Result<Vec<u8>, Error>,
>(volatile: V, copy: C, reads: receive::Reads, ring: RingState) -> bool {
    &&& receive::volatile_answers(volatile, reads)
    &&& receive::copy_answers(copy, reads)
    &&& ring.lanes_lie_in(reads.end)
}

/// Over memory that stays as it is, a poll comes to what `RingState::polled` says.
pub proof fn held_lanes_are_polled(ring: RingState, memory: Seq<u8>, n: nat)
    requires
        ring.wf(),
        ring.lanes_lie_in(memory.len()),
        n <= ring.plan.incoming.len(),
    ensures
        ring.polled_by(receive::held(memory), n) == ring.polled(memory, n),
    decreases n,
{
    if n > 0 {
        held_lanes_are_polled(ring, memory, (n - 1) as nat);
        let before = ring.polled(memory, (n - 1) as nat);
        let origin = ring.plan.incoming[n - 1];
        let lane = ring.lane_from(origin)->0;
        assert(lane.lies_in(memory.len()));
        receive::held_lanes_are_drained(
            memory,
            origin,
            lane,
            ring.plan.safe,
            before.ring.seen[origin as int],
            lane.depth as nat,
        );
    }
}

/// The messages of the first `n` groups in a row, each from its origin.
pub open spec fn in_a_row(origins: Seq<i32>, groups: Seq<Seq<Found>>, n: nat) -> Seq<
    receive::Delivery,
>
    decreases n,
{
    if n == 0 {
        Seq::empty()
    } else {
        in_a_row(origins, groups, (n - 1) as nat) + receive::delivered_from(
            origins[n - 1],
            groups[n - 1],
        )
    }
}

/// How far the lane from origin `i` of the incoming ones advanced.
pub open spec fn advance(before: RingState, after: RingState, i: int) -> int {
    let origin = before.plan.incoming[i] as int;
    after.seen[origin] - before.seen[origin]
}

/// The sequence numbers that the first `n` lanes passed over.
pub open spec fn passed_over(
    before: RingState,
    after: RingState,
    groups: Seq<Seq<Found>>,
    n: nat,
) -> int
    decreases n,
{
    if n == 0 {
        0
    } else {
        passed_over(before, after, groups, (n - 1) as nat) + advance(before, after, n - 1)
            - groups[n - 1].len()
    }
}

/// The greater of `least` and the greatest advance of the first `n` lanes.
pub open spec fn greatest_advance(
    before: RingState,
    after: RingState,
    least: int,
    n: nat,
) -> int
    decreases n,
{
    if n == 0 {
        least
    } else {
        let rest = greatest_advance(before, after, least, (n - 1) as nat);
        if advance(before, after, n - 1) > rest {
            advance(before, after, n - 1)
        } else {
            rest
        }
    }
}

/// Whether a count that was `before` is `after` once `n` were added.
pub open spec fn counted(before: u64, after: u64, n: nat) -> bool {
    after == wrapped((before + n) as nat)
}

/// Whether at most `most` were added to a count.
pub open spec fn counted_at_most(before: u64, after: u64, most: nat) -> bool {
    exists|n: nat| n <= most && #[trigger] counted(before, after, n)
}

/// The damaged reads that walks over the first `n` incoming lanes may find: no more
/// than one for each slot of a lane, and one more.
pub open spec fn most_damaged(ring: RingState, n: nat) -> nat
    decreases n,
{
    if n == 0 {
        0
    } else {
        most_damaged(ring, (n - 1) as nat) + ring.lane_from(ring.plan.incoming[n - 1])->0.depth
            as nat + 1
    }
}

/// What walks over the first `n` incoming lanes may have come to, whatever the
/// reads returned: each found a group of messages that account for the advance of
/// its lane, and the other lanes stayed where they were.
pub open spec fn walked_over<C: Fn(usize, usize) -> Result<Vec<u8>, Error>>(
    copy: C,
    before: RingState,
    after: RingState,
    groups: Seq<Seq<Found>>,
    n: nat,
) -> bool {
    &&& groups.len() == n
    &&& forall|i: int|
        0 <= i < n ==> receive::accounts(
            copy,
            before.lane_from(before.plan.incoming[i])->0,
            before.plan.safe,
            before.seen[before.plan.incoming[i] as int],
            #[trigger] groups[i],
            after.seen[before.plan.incoming[i] as int],
            (advance(before, after, i) - groups[i].len()) as nat,
        )
    &&& forall|s: int|
        0 <= s < before.seen.len() && !before.plan.incoming.take(n as int).contains(s as i32)
            ==> after.seen[s] == before.seen[s]
    &&& passed_over(before, after, groups, n) >= 0
    &&& after.lost == wrapped((before.lost + passed_over(before, after, groups, n)) as nat)
    &&& counted_at_most(before.corrupt, after.corrupt, most_damaged(before, n))
}

/// What a poll may have come to that passed the first `n` incoming lanes, whatever
/// the reads returned: it delivered the groups in a row.
pub open spec fn accounted<C: Fn(usize, usize) -> Result<Vec<u8>, Error>>(
    copy: C,
    before: RingState,
    after: RingState,
    messages: Seq<receive::Delivery>,
    groups: Seq<Seq<Found>>,
    n: nat,
) -> bool {
    &&& walked_over(copy, before, after, groups, n)
    &&& messages == in_a_row(before.plan.incoming, groups, n)
    &&& after.max_lag == greatest_advance(before, after, before.max_lag as int, n)
}

/// What a poll may have come to, whatever the reads returned.
pub open spec fn poll_accounts<C: Fn(usize, usize) -> Result<Vec<u8>, Error>>(
    copy: C,
    before: RingState,
    after: RingState,
    messages: Seq<receive::Delivery>,
) -> bool {
    exists|groups: Seq<Seq<Found>>| #[trigger]
        accounted(copy, before, after, messages, groups, before.plan.incoming.len())
}

/// What a poll may have come to that failed on the last of the first `n` incoming
/// lanes, whatever the reads returned: that lane is accounted for up to where the
/// walk over it ended, and its advance is not held against the greatest.
pub open spec fn failed_on<
    V: Fn(usize, usize) -> Result<Vec<u8>, Error>,
    C: Fn(usize, usize) -> Result<Vec<u8>, Error>,
>(
    volatile: V,
    copy: C,
    before: RingState,
    after: RingState,
    groups: Seq<Seq<Found>>,
    n: nat,
    error: Error,
) -> bool {
    &&& 0 < n <= before.plan.incoming.len()
    &&& walked_over(copy, before, after, groups, n)
    &&& after.max_lag == greatest_advance(
        before,
        after,
        before.max_lag as int,
        (n - 1) as nat,
    )
    &&& receive::read_failed(volatile, copy, error) || (before.plan.safe && receive::says_lapped(
        error,
        before.plan.incoming[n - 1],
        after.seen[before.plan.incoming[n - 1] as int],
    ))
}

/// What a poll may have come to that failed, whatever the reads returned.
pub open spec fn poll_fails<
    V: Fn(usize, usize) -> Result<Vec<u8>, Error>,
    C: Fn(usize, usize) -> Result<Vec<u8>, Error>,
>(volatile: V, copy: C, before: RingState, after: RingState, error: Error) -> bool {
    exists|groups: Seq<Seq<Found>>, n: nat| #[trigger]
        failed_on(volatile, copy, before, after, groups, n, error)
}

/// Whether only what polling may change differs, and nothing that was seen is
/// forgotten.
pub open spec fn poll_keeps(before: RingState, after: RingState) -> bool {
    &&& after == (RingState {
        seen: after.seen,
        lost: after.lost,
        corrupt: after.corrupt,
        max_lag: after.max_lag,
        ..before
    })
    &&& after.seen.len() == before.seen.len()
    &&& forall|s: int| 0 <= s < before.seen.len() ==> before.seen[s] <= #[trigger] after.seen[s]
}

/// Accounts of lanes depend on those lanes alone.
proof fn accounts_stay(
    before: RingState,
    a: RingState,
    b: RingState,
    groups: Seq<Seq<Found>>,
    more: Seq<Seq<Found>>,
    n: nat,
)
    requires
        n <= groups.len(),
        n <= more.len(),
        n <= before.plan.incoming.len(),
        forall|i: int| 0 <= i < n ==> groups[i] == more[i],
        forall|i: int|
            0 <= i < n ==> a.seen[#[trigger] before.plan.incoming[i] as int]
                == b.seen[before.plan.incoming[i] as int],
    ensures
        passed_over(before, a, groups, n) == passed_over(before, b, more, n),
        greatest_advance(before, a, before.max_lag as int, n) == greatest_advance(
            before,
            b,
            before.max_lag as int,
            n,
        ),
        in_a_row(before.plan.incoming, groups, n) == in_a_row(before.plan.incoming, more, n),
    decreases n,
{
    if n > 0 {
        accounts_stay(before, a, b, groups, more, (n - 1) as nat);
        assert(a.seen[before.plan.incoming[n - 1] as int]
            == b.seen[before.plan.incoming[n - 1] as int]);
    }
}

/// Counts add up.
proof fn counts_add_up(a: u64, b: u64, c: u64, most: nat, more: nat)
    requires
        counted_at_most(a, b, most),
        counted_at_most(b, c, more),
    ensures
        counted_at_most(a, c, most + more),
{
    let m = choose|m: nat| m <= most && #[trigger] counted(a, b, m);
    let n = choose|n: nat| n <= more && #[trigger] counted(b, c, n);
    assert(counted(a, c, m + n));
}

/// One more lane is accounted for by the walk over it.
proof fn lane_is_accounted<C: Fn(usize, usize) -> Result<Vec<u8>, Error>>(
    copy: C,
    before: RingState,
    prior: RingState,
    after: RingState,
    groups: Seq<Seq<Found>>,
    group: Seq<Found>,
    i: nat,
)
    requires
        before.wf(),
        i < before.plan.incoming.len(),
        poll_keeps(before, prior),
        walked_over(copy, before, prior, groups, i),
        ({
            let origin = before.plan.incoming[i as int];
            let lane = before.lane_from(origin)->0;
            let seen = prior.seen[origin as int];
            let now = after.seen[origin as int];
            let lost = (now - seen - group.len()) as nat;
            &&& receive::accounts(copy, lane, before.plan.safe, seen, group, now, lost)
            &&& after.seen == prior.seen.update(origin as int, now)
            &&& after.lost == wrapped((prior.lost + lost) as nat)
            &&& counted_at_most(prior.corrupt, after.corrupt, (lane.depth + 1) as nat)
        }),
    ensures
        walked_over(copy, before, after, groups.push(group), i + 1),
        in_a_row(before.plan.incoming, groups.push(group), i + 1) == in_a_row(
            before.plan.incoming,
            groups,
            i,
        ) + receive::delivered_from(before.plan.incoming[i as int], group),
        greatest_advance(before, after, before.max_lag as int, i) == greatest_advance(
            before,
            prior,
            before.max_lag as int,
            i,
        ),
        advance(before, after, i as int) == after.seen[before.plan.incoming[i as int] as int]
            - prior.seen[before.plan.incoming[i as int] as int],
{
    let origin = before.plan.incoming[i as int];
    let lane = before.lane_from(origin)->0;
    let more = groups.push(group);
    let lost = (after.seen[origin as int] - prior.seen[origin as int] - group.len()) as nat;
    let taken = before.plan.incoming.take(i as int);
    let next = before.plan.incoming.take((i + 1) as int);
    if taken.contains(origin) {
        let k = choose|k: int| 0 <= k < taken.len() && taken[k] == origin;
        assert(before.plan.incoming[k] < before.plan.incoming[i as int]);
    }
    assert(prior.seen[origin as int] == before.seen[origin as int]);
    assert forall|k: int| 0 <= k < i implies prior.seen[
        #[trigger] before.plan.incoming[k] as int
    ] == after.seen[before.plan.incoming[k] as int] by {
        assert(before.plan.incoming[k] < before.plan.incoming[i as int]);
    }
    accounts_stay(before, prior, after, groups, more, i);
    assert forall|k: int| 0 <= k < i + 1 implies receive::accounts(
        copy,
        before.lane_from(before.plan.incoming[k])->0,
        before.plan.safe,
        before.seen[before.plan.incoming[k] as int],
        #[trigger] more[k],
        after.seen[before.plan.incoming[k] as int],
        (advance(before, after, k) - more[k].len()) as nat,
    ) by {
        if k < i {
            assert(more[k] == groups[k]);
            assert(before.plan.incoming[k] < before.plan.incoming[i as int]);
            assert(advance(before, after, k) == advance(before, prior, k));
        }
    }
    assert forall|s: int| 0 <= s < before.seen.len() && !next.contains(s as i32) implies after.seen[s]
        == before.seen[s] by {
        assert(next[i as int] == origin);
        if taken.contains(s as i32) {
            let k = choose|k: int| 0 <= k < taken.len() && taken[k] == s as i32;
            assert(next[k] == s as i32);
        }
    }
    assert(passed_over(before, after, more, i + 1) == passed_over(before, prior, groups, i) + lost);
    counts_add_up(
        before.corrupt,
        prior.corrupt,
        after.corrupt,
        most_damaged(before, i),
        (lane.depth + 1) as nat,
    );
}

/// A poll that failed on some lanes has failed on all.
proof fn poll_faults_stay(ring: RingState, reads: receive::Reads, n: nat, m: nat)
    requires
        n <= m,
        ring.polled_by(reads, n).fault is Some,
    ensures
        ring.polled_by(reads, m) == ring.polled_by(reads, n),
    decreases m,
{
    if n < m {
        poll_faults_stay(ring, reads, n, (m - 1) as nat);
    }
}

/// A sender's end of one lane.
struct Outgoing {
    sent: u64,
    acked: u64,
    /// Slot-sized scratch for the image, reused across sends. The padding
    /// between payload and guard is not zeroed because nothing reads it.
    image: Vec<u8>,
}

impl View for Outgoing {
    type V = OutgoingState;

    closed spec fn view(&self) -> OutgoingState {
        OutgoingState { sent: self.sent, acked: self.acked, image: self.image@ }
    }
}

/// One rank's end of sparse directed message rings.
pub struct Ring {
    plan: Plan,
    sent: Vec<Outgoing>,
    seen: Vec<u64>,
    acked: Vec<u64>,
    lost: u64,
    corrupt: u64,
    max_lag: u64,
    waits: u64,
    wait_ns: u64,
}

impl View for Ring {
    type V = RingState;

    closed spec fn view(&self) -> RingState {
        RingState {
            plan: self.plan@,
            sent: Seq::new(self.sent@.len(), |d: int| self.sent@[d]@),
            seen: self.seen@,
            acked: self.acked@,
            lost: self.lost,
            corrupt: self.corrupt,
            max_lag: self.max_lag,
            waits: self.waits,
            wait_ns: self.wait_ns,
        }
    }
}

impl Plan {
    /// Makes the ring, once the ranks gathered whether their windows are unified.
    pub fn finish(self, models: &[u8]) -> (ring: Result<Ring, Error>)
        requires
            self@.wf(),
        ensures
            if models@.contains(0) {
                ring == Err::<Ring, Error>(
                    Error::Window("local ring access requires unified memory"),
                )
            } else {
                &&& ring matches Ok(made)
                &&& made@ == RingState::fresh(self@)
                &&& made@.wf()
            },
    {
        let mut r: usize = 0;
        while r < models.len()
            invariant
                r <= models@.len(),
                forall|k: int| 0 <= k < r ==> models@[k] != 0,
            decreases models@.len() - r,
        {
            if models[r] == 0 {
                return Err(Error::Window("local ring access requires unified memory"));
            }
            r += 1;
        }
        let ranks: usize = self.ranks();
        let mut sent: Vec<Outgoing> = Vec::with_capacity(ranks);
        let mut seen: Vec<u64> = Vec::with_capacity(ranks);
        let mut acked: Vec<u64> = Vec::with_capacity(ranks);
        let mut r: usize = 0;
        while r < ranks
            invariant
                r <= ranks,
                sent@.len() == r,
                seen@.len() == r,
                acked@.len() == r,
                forall|k: int|
                    0 <= k < r ==> (#[trigger] sent@[k])@ == (OutgoingState {
                        sent: 0,
                        acked: 0,
                        image: Seq::empty(),
                    }),
                forall|k: int| 0 <= k < r ==> seen@[k] == 0,
                forall|k: int| 0 <= k < r ==> acked@[k] == 0,
            decreases ranks - r,
        {
            sent.push(Outgoing { sent: 0, acked: 0, image: Vec::new() });
            seen.push(0);
            acked.push(0);
            r += 1;
        }
        let ring: Ring = Ring {
            plan: self,
            sent,
            seen,
            acked,
            lost: 0,
            corrupt: 0,
            max_lag: 0,
            waits: 0,
            wait_ns: 0,
        };
        assert(ring@ =~= RingState::fresh(self@));
        Ok(ring)
    }
}

impl Ring {
    /// Proposes a safe ring: a sender waits until the slot that it needs was
    /// acknowledged.
    pub fn safe(inter: bool, size: i32, rank: i32, rings: &[LaneConfig]) -> (proposal: Result<
        Proposal,
        Error,
    >)
        requires
            config::proposal_fault(inter, size, rank) is None ==> rank < size,
        ensures
            match config::proposal_fault(inter, size, rank) {
                Some(error) => proposal == Err::<Proposal, Error>(error),
                None => {
                    &&& proposal matches Ok(made)
                    &&& made@ == (config::ProposalState {
                        safe: true,
                        ranks: size as nat,
                        rank,
                        lanes: lane::in_order(rings@),
                    })
                    &&& made@.wf()
                },
            },
    {
        Proposal::new(inter, size, rank, rings, true)
    }

    /// Proposes a raw ring: a sender never waits, and a receiver counts what was
    /// overwritten as lost.
    pub fn raw(inter: bool, size: i32, rank: i32, rings: &[LaneConfig]) -> (proposal: Result<
        Proposal,
        Error,
    >)
        requires
            config::proposal_fault(inter, size, rank) is None ==> rank < size,
        ensures
            match config::proposal_fault(inter, size, rank) {
                Some(error) => proposal == Err::<Proposal, Error>(error),
                None => {
                    &&& proposal matches Ok(made)
                    &&& made@ == (config::ProposalState {
                        safe: false,
                        ranks: size as nat,
                        rank,
                        lanes: lane::in_order(rings@),
                    })
                    &&& made@.wf()
                },
            },
    {
        Proposal::new(inter, size, rank, rings, false)
    }

    /// Whether overwrites are gated by acknowledgements.
    pub fn is_safe(&self) -> (safe: bool)
        ensures
            safe == self@.plan.safe,
    {
        self.plan.is_safe()
    }

    fn peer(&self, rank: i32) -> (index: Result<usize, Error>)
        ensures
            index == if self@.has_rank(rank) {
                Ok::<usize, Error>(rank as usize)
            } else {
                Err(Error::Rank(rank))
            },
    {
        if rank < 0 || rank as usize >= self.plan.ranks() {
            Err(Error::Rank(rank))
        } else {
            Ok(rank as usize)
        }
    }

    fn outgoing_lane(&self, destination: i32) -> (lane: Option<Lane>)
        requires
            self@.wf(),
        ensures
            lane == self@.lane_to(destination),
    {
        match self.peer(destination) {
            Ok(index) => self.plan.lane_to(index),
            Err(_) => None,
        }
    }

    /// The number of slots of the lane to `destination`, if there is one.
    pub fn depth(&self, destination: i32) -> (depth: Option<usize>)
        requires
            self@.wf(),
        ensures
            depth == match self@.lane_to(destination) {
                Some(lane) => Some(lane.depth),
                None => None::<usize>,
            },
    {
        match self.outgoing_lane(destination) {
            Some(lane) => Some(lane.depth),
            None => None,
        }
    }

    /// The payload bytes of a slot of the lane to `destination`, if there is one.
    pub fn capacity(&self, destination: i32) -> (capacity: Option<usize>)
        requires
            self@.wf(),
        ensures
            capacity == match self@.lane_to(destination) {
                Some(lane) => Some(lane.capacity),
                None => None::<usize>,
            },
    {
        match self.outgoing_lane(destination) {
            Some(lane) => Some(lane.capacity),
            None => None,
        }
    }

    /// The messages observed as lost.
    pub fn lost(&self) -> (lost: u64)
        ensures
            lost == self@.lost,
    {
        self.lost
    }

    /// The slot reads that found a torn header or footer, a bad length, or a
    /// checksum that does not match.
    pub fn corrupt(&self) -> (corrupt: u64)
        ensures
            corrupt == self@.corrupt,
    {
        self.corrupt
    }

    /// The greatest advance that one poll made on one lane.
    pub fn max_lag(&self) -> (max_lag: u64)
        ensures
            max_lag == self@.max_lag,
    {
        self.max_lag
    }

    /// The sends that found no headroom after a refresh and had to wait.
    pub fn waits(&self) -> (waits: u64)
        ensures
            waits == self@.waits,
    {
        self.waits
    }

    /// The nanoseconds that sends spent waiting.
    pub fn wait_ns(&self) -> (wait_ns: u64)
        ensures
            wait_ns == self@.wait_ns,
    {
        self.wait_ns
    }

    /// Builds the image of the next message to `destination`.
    fn stage(&mut self, destination: i32, lane: Lane, data: &[u8], waited: bool) -> (put: Put)
        requires
            old(self)@.wf(),
            old(self)@.send_fault(destination, data@.len()) is None,
            old(self)@.lane_to(destination) == Some(lane),
        ensures
            (final(self)@, put@) == old(self)@.staged(destination, data@, waited),
            put.displacement == put@.displacement,
            final(self)@.wf(),
    {
        let index: usize = destination as usize;
        let ghost before = self@;
        proof {
            assert(self@.sent[index as int] == self.sent@[index as int]@);
        }
        assert(lane.wf());
        let sent: u64 = self.sent[index].sent;
        let acked: u64 = self.sent[index].acked;
        let sequence: u64 = sent + 1;
        let mut outgoing: Outgoing = Outgoing { sent, acked, image: Vec::new() };
        std::mem::swap(&mut outgoing, &mut self.sent[index]);
        let mut image: Vec<u8> = outgoing.image;
        encode(&mut image, lane.slot, sequence, data);
        let position: usize = lane.position(sequence);
        let displacement: usize = lane.slot_offset(position);
        proof {
            assert(self@.sent =~= before.sent.update(
                index as int,
                OutgoingState { image: Seq::empty(), ..before.sent[index as int] },
            ));
            assert(self@ =~= before.staged(destination, data@, waited).0);
        }
        Put { destination, sequence, displacement, image, waited }
    }

    /// Finds the lane for a message of `len` bytes to `destination`. What is refused
    /// here is refused whatever was sent before.
    pub fn find_lane(&self, destination: i32, len: usize) -> (lane: Result<Lane, Error>)
        requires
            self@.wf(),
        ensures
            lane == match self@.lane_fault(destination, len as nat) {
                Some(error) => Err::<Lane, Error>(error),
                None => Ok(self@.lane_to(destination)->0),
            },
    {
        let index: usize = match self.peer(destination) {
            Ok(index) => index,
            Err(error) => {
                return Err(error);
            },
        };
        match self.plan.lane_to(index) {
            None => Err(Error::Ring("directed lane is not configured")),
            Some(lane) => {
                if len > lane.capacity {
                    Err(Error::Payload { len, capacity: lane.capacity })
                } else {
                    Ok(lane)
                }
            },
        }
    }

    /// Begins to send one message.
    ///
    /// On a safe ring the counter of the lane is read first where the slot that
    /// the message needs may still be unread. Else the image is put at once.
    pub fn send(&mut self, destination: i32, data: &[u8]) -> (step: Result<SendStep, Error>)
        requires
            old(self)@.wf(),
        ensures
            final(self)@.wf(),
            match old(self)@.send_fault(destination, data@.len()) {
                Some(error) => step == Err::<SendStep, Error>(error) && final(self)@ == old(
                    self,
                )@,
                None => if old(self)@.gate_shut(destination) {
                    &&& step == Ok::<SendStep, Error>(
                        SendStep::ReadCounter {
                            sending: Sending {
                                destination,
                                sequence: old(self)@.next_sequence(destination),
                                waiting: false,
                            },
                            index: old(self)@.lane_to(destination)->0.ack,
                        },
                    )
                    &&& final(self)@ == old(self)@
                } else {
                    &&& step matches Ok(SendStep::Put(put))
                    &&& (final(self)@, put@) == old(self)@.staged(destination, data@, false)
                },
            },
    {
        let lane: Lane = match self.find_lane(destination, data.len()) {
            Ok(lane) => lane,
            Err(error) => {
                return Err(error);
            },
        };
        let index: usize = destination as usize;
        proof {
            assert(self@.sent[index as int] == self.sent@[index as int]@);
        }
        let sent: u64 = self.sent[index].sent;
        if sent == u64::MAX {
            return Err(Error::Ring("sequence number exhausted"));
        }
        let sequence: u64 = sent + 1;
        if self.is_safe() && sequence - self.sent[index].acked > lane.depth as u64 {
            return Ok(
                SendStep::ReadCounter {
                    sending: Sending { destination, sequence, waiting: false },
                    index: lane.ack,
                },
            );
        }
        Ok(SendStep::Put(self.stage(destination, lane, data, false)))
    }

    /// Goes on with a send after the counter of its lane was read.
    ///
    /// A counter that went backwards or ran past what was sent is refused.
    pub fn acknowledged(&mut self, sending: Sending, data: &[u8], value: u64) -> (step: Result<
        SendStep,
        Error,
    >)
        requires
            old(self)@.wf(),
            old(self)@.awaits_counter(sending, data@.len()),
        ensures
            final(self)@.wf(),
            match old(self)@.counter_fault(sending.destination, value) {
                Some(error) => step == Err::<SendStep, Error>(error) && final(self)@ == old(
                    self,
                )@,
                None => {
                    let now = old(self)@.refreshed(sending.destination, value);
                    if now.gate_shut(sending.destination) {
                        &&& step == Ok::<SendStep, Error>(
                            SendStep::ReadCounter {
                                sending: Sending { waiting: true, ..sending },
                                index: now.lane_to(sending.destination)->0.ack,
                            },
                        )
                        &&& final(self)@ == (RingState {
                            waits: if sending.waiting {
                                now.waits
                            } else {
                                wrapped((now.waits + 1) as nat)
                            },
                            ..now
                        })
                    } else {
                        &&& step matches Ok(SendStep::Put(put))
                        &&& (final(self)@, put@) == now.staged(
                            sending.destination,
                            data@,
                            sending.waiting,
                        )
                    }
                },
            },
    {
        let destination: i32 = sending.destination;
        let index: usize = destination as usize;
        let ghost before = self@;
        proof {
            assert(self@.sent[index as int] == self.sent@[index as int]@);
        }
        let lane: Lane = match self.plan.lane_to(index) {
            Some(lane) => lane,
            None => {
                return Err(Error::Ring("directed lane is not configured"));
            },
        };
        let sent: u64 = self.sent[index].sent;
        if value < self.sent[index].acked {
            return Err(Error::Ring("acknowledgement counter regressed"));
        }
        if value > sent {
            return Err(Error::Ring("acknowledgement exceeds sent sequence"));
        }
        self.sent[index].acked = value;
        proof {
            assert(self@.sent =~= before.refreshed(destination, value).sent);
            assert(self@ =~= before.refreshed(destination, value));
        }
        if sent + 1 - value > lane.depth as u64 {
            if !sending.waiting {
                self.waits = self.waits.wrapping_add(1);
            }
            return Ok(
                SendStep::ReadCounter {
                    sending: Sending { waiting: true, ..sending },
                    index: lane.ack,
                },
            );
        }
        Ok(SendStep::Put(self.stage(destination, lane, data, sending.waiting)))
    }

    /// Takes note of the time that a send waited.
    pub fn record_wait(&mut self, nanos: u128)
        ensures
            final(self)@ == (RingState {
                wait_ns: wrapped(
                    (old(self)@.wait_ns + if nanos > u64::MAX {
                        u64::MAX as nat
                    } else {
                        nanos as nat
                    }) as nat,
                ),
                ..old(self)@
            }),
    {
        let ghost before = self@;
        let nanos: u64 = if nanos > u64::MAX as u128 {
            u64::MAX
        } else {
            nanos as u64
        };
        self.wait_ns = self.wait_ns.wrapping_add(nanos);
        assert(self@.sent =~= before.sent);
    }

    /// Ends a send after its put was made, and gives its sequence number.
    pub fn complete(&mut self, put: Put, outcome: Result<(), Error>) -> (sequence: Result<
        u64,
        Error,
    >)
        requires
            old(self)@.wf(),
            old(self)@.awaits_put(put@),
        ensures
            final(self)@.wf(),
            final(self)@ == old(self)@.put_reported(put@, outcome is Ok),
            sequence == match outcome {
                Ok(()) => Ok::<u64, Error>(put.sequence),
                Err(error) => Err(error),
            },
    {
        let index: usize = put.destination as usize;
        let ghost before = self@;
        let ghost reported = put@;
        proof {
            assert(self@.sent[index as int] == self.sent@[index as int]@);
        }
        self.sent[index].image = put.image;
        match outcome {
            Ok(()) => {
                self.sent[index].sent = put.sequence;
                assert(self@.sent =~= before.put_reported(reported, true).sent);
                assert(self@ =~= before.put_reported(reported, true));
                Ok(put.sequence)
            },
            Err(error) => {
                assert(self@.sent =~= before.put_reported(reported, false).sent);
                assert(self@ =~= before.put_reported(reported, false));
                Err(error)
            },
        }
    }

    /// Begins to acknowledge all messages from `origin` through `sequence`.
    ///
    /// Acknowledgements are cumulative and idempotent. On a raw ring they come to
    /// nothing.
    pub fn ack(&self, origin: i32, sequence: u64) -> (step: Result<AckStep, Error>)
        requires
            self@.wf(),
        ensures
            step == match self@.ack_fault(origin, sequence) {
                Some(error) => Err::<AckStep, Error>(error),
                None => Ok(self@.ack_step(origin, sequence)),
            },
            step matches Ok(AckStep::FetchAdd(addition)) ==> self@.awaits_addition(addition),
    {
        let index: usize = match self.peer(origin) {
            Ok(index) => index,
            Err(error) => {
                return Err(error);
            },
        };
        if !self.is_safe() {
            return Ok(AckStep::Done);
        }
        let lane: Lane = match self.plan.lane_from(index) {
            Some(lane) => lane,
            None => {
                return Err(Error::Ring("directed lane is not configured"));
            },
        };
        let acked: u64 = self.acked[index];
        if sequence <= acked {
            return Ok(AckStep::Done);
        }
        if sequence > self.seen[index] {
            return Err(Error::Ack { origin, sequence, received: self.seen[index] });
        }
        Ok(
            AckStep::FetchAdd(
                Addition { origin, index: lane.ack, delta: sequence - acked, sequence },
            ),
        )
    }

    /// Ends an acknowledgement after the counter was added to.
    pub fn added(&mut self, addition: Addition, previous: u64) -> (result: Result<(), Error>)
        requires
            old(self)@.wf(),
            old(self)@.awaits_addition(addition),
        ensures
            final(self)@.wf(),
            if previous == old(self)@.acked[addition.origin as int] {
                &&& result == Ok::<(), Error>(())
                &&& final(self)@ == (RingState {
                    acked: old(self)@.acked.update(addition.origin as int, addition.sequence),
                    ..old(self)@
                })
            } else {
                &&& result == Err::<(), Error>(Error::Ring("acknowledgement counter diverged"))
                &&& final(self)@ == old(self)@
            },
    {
        let index: usize = addition.origin as usize;
        let ghost before = self@;
        if previous != self.acked[index] {
            return Err(Error::Ring("acknowledgement counter diverged"));
        }
        self.acked[index] = addition.sequence;
        assert(self@.sent =~= before.sent);
        Ok(())
    }

    /// Ends the ring after its windows were closed: the slot window first, then
    /// the counter window if there is one. The first failure is reported.
    pub fn close(self, slots: Result<(), Error>, acks: Option<Result<(), Error>>) -> (result:
        Result<(), Error>)
        ensures
            result == match (slots, acks) {
                (Err(error), _) => Err::<(), Error>(error),
                (Ok(()), Some(closed)) => closed,
                (Ok(()), None) => Ok(()),
            },
    {
        match slots {
            Err(error) => Err(error),
            Ok(()) => match acks {
                Some(closed) => closed,
                None => Ok(()),
            },
        }
    }

    /// Walks over the lane from `origin`.
    fn walk<V, C>(
        &mut self,
        origin: i32,
        lane: Lane,
        volatile: &V,
        copy: &C,
        messages: &mut Vec<Message>,
    ) -> (fault: Option<Error>) where
        V: Fn(usize, usize) -> Result<Vec<u8>, Error>,
        C: Fn(usize, usize) -> Result<Vec<u8>, Error>,

        requires
            old(self)@.wf(),
            old(self)@.lane_from(origin) == Some(lane),
            receive::reads_lengths(*volatile),
            receive::reads_lengths(*copy),
        ensures
            final(self)@.wf(),
            final(messages)@.len() >= old(messages)@.len(),
            receive::deliveries(final(messages)@) == receive::deliveries(old(messages)@)
                + receive::delivered_from(
                origin,
                receive::fresh(final(messages)@, old(messages)@.len()),
            ),
            ({
                let group = receive::fresh(final(messages)@, old(messages)@.len());
                let seen = old(self)@.seen[origin as int];
                let now = final(self)@.seen[origin as int];
                let lost = (now - seen - group.len()) as nat;
                &&& seen <= now
                &&& receive::accounts(*copy, lane, old(self)@.plan.safe, seen, group, now, lost)
                &&& counted_at_most(
                    old(self)@.corrupt,
                    final(self)@.corrupt,
                    (lane.depth + 1) as nat,
                )
                &&& final(self)@ == (RingState {
                    seen: old(self)@.seen.update(origin as int, now),
                    lost: wrapped((old(self)@.lost + lost) as nat),
                    corrupt: final(self)@.corrupt,
                    max_lag: if fault is None && now - seen > old(self)@.max_lag {
                        (now - seen) as u64
                    } else {
                        old(self)@.max_lag
                    },
                    ..old(self)@
                })
            }),
            fault matches Some(error) ==> receive::read_failed(*volatile, *copy, error) || (
            old(self)@.plan.safe && receive::says_lapped(
                error,
                origin,
                final(self)@.seen[origin as int],
            )),
            old(self)@.seen[origin as int] < u64::MAX && receive::unreadable(*volatile)
                ==> fault is Some,
            forall|reads: receive::Reads| #[trigger]
                receive::answered(*volatile, *copy, reads, lane) ==> {
                    let exact = receive::surveyed(
                        reads,
                        origin,
                        lane,
                        old(self)@.plan.safe,
                        old(self)@.seen[origin as int],
                        lane.depth as nat,
                    );
                    &&& receive::fresh(final(messages)@, old(messages)@.len()) == exact.delivered
                    &&& final(self)@ == old(self)@.advanced(origin, exact)
                    &&& fault == exact.fault
                },
    {
        let ghost prior = self@;
        let index: usize = origin as usize;
        let seen: u64 = self.seen[index];
        let safe: bool = self.is_safe();
        let walk: Drain = drain(origin, lane, safe, seen, volatile, copy, messages);
        self.seen[index] = walk.seen;
        self.lost = self.lost.wrapping_add(walk.lost);
        self.corrupt = self.corrupt.wrapping_add(walk.corrupt);
        if walk.fault.is_none() && walk.seen - seen > self.max_lag {
            self.max_lag = walk.seen - seen;
        }
        assert(self@.sent =~= prior.sent);
        assert(counted(prior.corrupt, self@.corrupt, walk.corrupt as nat));
        walk.fault
    }

    /// Walks over every incoming lane and delivers the messages that were not
    /// seen before.
    ///
    /// A safe ring delivers in order and fails where a slot was overwritten
    /// before it was consumed. A raw ring searches all slots of a lane where it
    /// was lapped and counts the gaps as lost. What was seen only advances, also
    /// where the poll fails. A poll fails only with the error of a read, or, on a
    /// safe ring, because a lane was overwritten.
    pub fn poll<V, C>(&mut self, volatile: V, copy: C) -> (result: Result<
        Vec<Message>,
        Error,
    >) where
        V: Fn(usize, usize) -> Result<Vec<u8>, Error>,
        C: Fn(usize, usize) -> Result<Vec<u8>, Error>,

        requires
            old(self)@.wf(),
            receive::reads_lengths(volatile),
            receive::reads_lengths(copy),
        ensures
            final(self)@.wf(),
            poll_keeps(old(self)@, final(self)@),
            receive::unreadable(volatile) && (exists|i: int|
                0 <= i < old(self)@.plan.incoming.len() && old(
                    self,
                )@.seen[#[trigger] old(self)@.plan.incoming[i] as int] < u64::MAX) ==> result is Err,
            forall|reads: receive::Reads| #[trigger]
                told(volatile, copy, reads, old(self)@) ==> {
                    let exact = old(self)@.polled_by(reads, old(self)@.plan.incoming.len());
                    &&& final(self)@ == exact.ring
                    &&& match exact.fault {
                        Some(error) => result == Err::<Vec<Message>, Error>(error),
                        None => result matches Ok(messages) && receive::deliveries(messages@)
                            == exact.messages,
                    }
                },
            forall|memory: Seq<u8>| #[trigger]
                still(volatile, copy, memory, old(self)@) ==> {
                    let exact = old(self)@.polled(memory, old(self)@.plan.incoming.len());
                    &&& final(self)@ == exact.ring
                    &&& match exact.fault {
                        Some(error) => result == Err::<Vec<Message>, Error>(error),
                        None => result matches Ok(messages) && receive::deliveries(messages@)
                            == exact.messages,
                    }
                },
            result matches Ok(messages) ==> poll_accounts(
                copy,
                old(self)@,
                final(self)@,
                receive::deliveries(messages@),
            ),
            result matches Err(error) ==> poll_fails(
                volatile,
                copy,
                old(self)@,
                final(self)@,
                error,
            ),
    {
        let ghost before = self@;
        let ghost mut groups: Seq<Seq<Found>> = Seq::empty();
        let safe: bool = self.is_safe();
        let lanes: usize = self.plan.incoming().len();
        let mut messages: Vec<Message> = Vec::new();
        assert(receive::deliveries(messages@) =~= Seq::<receive::Delivery>::empty());
        let mut i: usize = 0;
        assert(counted(before.corrupt, self@.corrupt, 0));
        proof {
            assert forall|memory: Seq<u8>| #[trigger] still(volatile, copy, memory, before) implies {
                &&& told(volatile, copy, receive::held(memory), before)
                &&& before.polled_by(receive::held(memory), before.plan.incoming.len())
                    == before.polled(memory, before.plan.incoming.len())
            } by {
                held_lanes_are_polled(before, memory, before.plan.incoming.len());
            }
        }
        while i < lanes
            invariant
                before == old(self)@,
                before.wf(),
                self@.wf(),
                safe == before.plan.safe,
                lanes == before.plan.incoming.len(),
                i <= lanes,
                receive::reads_lengths(volatile),
                receive::reads_lengths(copy),
                poll_keeps(before, self@),
                accounted(
                    copy,
                    before,
                    self@,
                    receive::deliveries(messages@),
                    groups,
                    i as nat,
                ),
                forall|memory: Seq<u8>| #[trigger]
                    still(volatile, copy, memory, before) ==> {
                        &&& told(volatile, copy, receive::held(memory), before)
                        &&& before.polled_by(receive::held(memory), before.plan.incoming.len())
                            == before.polled(memory, before.plan.incoming.len())
                    },
                receive::unreadable(volatile) ==> forall|k: int|
                    0 <= k < i ==> before.seen[#[trigger] before.plan.incoming[k] as int]
                        == u64::MAX,
                forall|reads: receive::Reads| #[trigger]
                    told(volatile, copy, reads, before) ==> before.polled_by(reads, i as nat)
                        == (Polled {
                        ring: self@,
                        messages: receive::deliveries(messages@),
                        fault: None,
                    }),
            decreases lanes - i,
        {
            let ghost prior = self@;
            let ghost prior_messages = messages@;
            let origin: i32 = self.plan.incoming()[i];
            let index: usize = origin as usize;
            assert(before.plan.incoming[i as int] == origin);
            let lane: Lane = match self.plan.lane_from(index) {
                Some(lane) => lane,
                None => {
                    return Err(Error::Ring("directed lane is not configured"));
                },
            };
            let fault: Option<Error> = self.walk(origin, lane, &volatile, &copy, &mut messages);
            let ghost group = receive::fresh(messages@, prior_messages.len());
            proof {
                assert forall|reads: receive::Reads| #[trigger]
                    told(volatile, copy, reads, before) implies receive::answered(
                    volatile,
                    copy,
                    reads,
                    lane,
                ) by {
                    assert(before.lane_from(before.plan.incoming[i as int])->0.lies_in(
                        reads.end,
                    ));
                }
            }
            proof {
                lane_is_accounted(copy, before, prior, self@, groups, group, i as nat);
            }
            if let Some(error) = fault {
                proof {
                    assert(failed_on(
                        volatile,
                        copy,
                        before,
                        self@,
                        groups.push(group),
                        (i + 1) as nat,
                        error,
                    ));
                    assert forall|reads: receive::Reads| #[trigger]
                        told(volatile, copy, reads, before) implies {
                        let exact = before.polled_by(reads, before.plan.incoming.len());
                        self@ == exact.ring && exact.fault == Some(error)
                    } by {
                        assert(receive::answered(volatile, copy, reads, lane));
                        poll_faults_stay(
                            before,
                            reads,
                            (i + 1) as nat,
                            before.plan.incoming.len(),
                        );
                    }
                }
                return Err(error);
            }
            proof {
                assert forall|reads: receive::Reads| #[trigger]
                    told(volatile, copy, reads, before) implies before.polled_by(
                    reads,
                    (i + 1) as nat,
                ) == (Polled {
                    ring: self@,
                    messages: receive::deliveries(messages@),
                    fault: None,
                }) by {
                    assert(receive::answered(volatile, copy, reads, lane));
                    let exact = before.polled_by(reads, (i + 1) as nat);
                    assert(self@ =~= exact.ring);
                    assert(exact.messages =~= receive::deliveries(messages@));
                }
                groups = groups.push(group);
            }
            i += 1;
        }
        assert(accounted(
            copy,
            before,
            self@,
            receive::deliveries(messages@),
            groups,
            before.plan.incoming.len(),
        ));
        Ok(messages)
    }
}

/// A count is exact up to the greatest `u64`, and wraps around past it.
pub proof fn counts_wrap_around(n: nat)
    ensures
        n <= u64::MAX ==> wrapped(n) == n,
        wrapped(n + 0x1_0000_0000_0000_0000) == wrapped(n),
{
}

/// A new ring has sent, received, acknowledged and counted nothing.
pub proof fn new_rings_hold_nothing(plan: config::PlanState, peer: int)
    requires
        plan.wf(),
        0 <= peer < plan.ranks,
    ensures
        ({
            let ring = RingState::fresh(plan);
            &&& ring.wf()
            &&& ring.plan == plan
            &&& ring.sent[peer].sent == 0
            &&& ring.sent[peer].acked == 0
            &&& ring.sent[peer].image.len() == 0
            &&& ring.seen[peer] == 0
            &&& ring.acked[peer] == 0
            &&& ring.lost == 0
            &&& ring.corrupt == 0
            &&& ring.max_lag == 0
            &&& ring.waits == 0
            &&& ring.wait_ns == 0
        }),
{
}

/// A message can be sent exactly where its destination is a rank with a lane to it, the
/// payload fits a slot, and a sequence number is left. Else it is refused for what is
/// wrong, in this order.
pub proof fn messages_that_fit_their_lane_are_sent(ring: RingState, destination: i32, len: usize)
    requires
        ring.wf(),
    ensures
        ({
            let fault = ring.send_fault(destination, len as nat);
            let known = 0 <= destination < ring.plan.ranks;
            let lane = ring.plan.to[destination as int];
            let fits = lane is Some && len <= lane->0.capacity;
            let left = ring.sent[destination as int].sent < u64::MAX;
            &&& known && fits && left <==> fault is None
            &&& !known ==> fault == Some(Error::Rank(destination))
            &&& known && lane is None ==> fault == Some(
                Error::Ring("directed lane is not configured"),
            )
            &&& known && lane is Some && len > lane->0.capacity ==> fault == Some(
                Error::Payload { len, capacity: lane->0.capacity },
            )
            &&& known && fits && !left ==> fault == Some(Error::Ring("sequence number exhausted"))
            &&& known && fits <==> ring.lane_fault(destination, len as nat) is None
            &&& ring.lane_fault(destination, len as nat) is Some ==> ring.lane_fault(
                destination,
                len as nat,
            ) == fault
            &&& known && lane is Some ==> ring.lane_to(destination) == lane
        }),
{
}

/// A raw ring lets every message through. A safe ring holds back exactly those whose slot
/// was last used by a message that is not acknowledged.
pub proof fn only_unacknowledged_slots_hold_back(ring: RingState, destination: i32)
    requires
        ring.wf(),
        ring.send_fault(destination, 0) is None,
    ensures
        !ring.plan.safe ==> !ring.gate_shut(destination),
        ring.plan.safe ==> (ring.gate_shut(destination) <==> ring.sent[destination as int].sent + 1
            - ring.plan.to[destination as int]->0.depth > ring.sent[destination as int].acked),
{
}

/// The next message to a destination is put at the slot of its number, `sent % depth`
/// counted from zero, with the next number; the image is that of its payload. Staging
/// it changes nothing but the buffer that it takes.
pub proof fn messages_are_put_at_their_slot(
    ring: RingState,
    destination: i32,
    data: Seq<u8>,
    waited: bool,
    other: int,
)
    requires
        ring.wf(),
        ring.send_fault(destination, data.len()) is None,
        0 <= other < ring.plan.ranks,
    ensures
        ({
            let sent = ring.sent[destination as int].sent;
            let lane = ring.plan.to[destination as int]->0;
            let (rest, put) = ring.staged(destination, data, waited);
            &&& put.destination == destination
            &&& put.sequence == sent + 1
            &&& put.displacement == lane.offset + (sent as int % lane.depth as int) * lane.slot
            &&& frame::decoded(put.image, lane.capacity as nat) == (frame::Slot::Message {
                sequence: put.sequence,
                data,
            })
            &&& put.waited == waited
            &&& rest.sent.len() == ring.sent.len()
            &&& rest.sent[other].sent == ring.sent[other].sent
            &&& rest.sent[other].acked == ring.sent[other].acked
            &&& other != destination ==> rest.sent[other] == ring.sent[other]
            &&& rest == (RingState { sent: rest.sent, ..ring })
        }),
{
    let lane = ring.plan.to[destination as int]->0;
    let outgoing = ring.sent[destination as int];
    frame::decode_gives_back_encode(
        ring.next_sequence(destination),
        data,
        frame::padding_of(outgoing.image, lane.slot as nat, data.len()),
        lane.capacity as nat,
    );
}

/// A put that was made counts as sent, one that failed does not; either way the buffer
/// comes back. Nothing else changes.
pub proof fn puts_that_were_made_count(
    ring: RingState,
    put: PutState,
    done: bool,
    other: int,
)
    requires
        ring.wf(),
        ring.awaits_put(put),
        0 <= other < ring.plan.ranks,
    ensures
        ({
            let after = ring.put_reported(put, done);
            let d = put.destination as int;
            &&& done ==> after.sent[d].sent == ring.sent[d].sent + 1
            &&& !done ==> after.sent[d].sent == ring.sent[d].sent
            &&& after.sent[d].acked == ring.sent[d].acked
            &&& after.sent[d].image == put.image
            &&& other != d ==> after.sent[other] == ring.sent[other]
            &&& after.sent.len() == ring.sent.len()
            &&& after == (RingState { sent: after.sent, ..ring })
        }),
{
}

/// A counter is believed exactly where it did not fall and does not exceed what was sent.
/// It is then what the ring knows of that lane; nothing else changes.
pub proof fn counters_between_known_and_sent_are_believed(
    ring: RingState,
    destination: i32,
    value: u64,
    other: int,
)
    requires
        ring.wf(),
        ring.has_rank(destination),
        0 <= other < ring.plan.ranks,
    ensures
        ({
            let known = ring.sent[destination as int].acked;
            let sent = ring.sent[destination as int].sent;
            let fault = ring.counter_fault(destination, value);
            let after = ring.refreshed(destination, value);
            &&& known <= value <= sent <==> fault is None
            &&& value < known ==> fault == Some(Error::Ring("acknowledgement counter regressed"))
            &&& value > sent ==> fault == Some(
                Error::Ring("acknowledgement exceeds sent sequence"),
            )
            &&& after.sent[destination as int].acked == value
            &&& after.sent[destination as int].sent == sent
            &&& after.sent[destination as int].image == ring.sent[destination as int].image
            &&& other != destination ==> after.sent[other] == ring.sent[other]
            &&& after.sent.len() == ring.sent.len()
            &&& after == (RingState { sent: after.sent, ..ring })
        }),
{
}

/// What was received can be acknowledged, on a lane of the ring, and nothing past it. On a
/// safe ring one addition brings the counter of the lane from the last acknowledgement
/// to this one, where it is a later one; else nothing is needed.
pub proof fn what_was_received_can_be_acknowledged(ring: RingState, origin: i32, sequence: u64)
    requires
        ring.wf(),
    ensures
        ({
            let fault = ring.ack_fault(origin, sequence);
            let step = ring.ack_step(origin, sequence);
            let known = 0 <= origin < ring.plan.ranks;
            let lane = ring.plan.from[origin as int];
            let acked = ring.acked[origin as int];
            let seen = ring.seen[origin as int];
            &&& known && (!ring.plan.safe || (lane is Some && sequence <= seen)) <==> fault is None
            &&& !known ==> fault == Some(Error::Rank(origin))
            &&& known && ring.plan.safe && lane is None ==> fault == Some(
                Error::Ring("directed lane is not configured"),
            )
            &&& known && ring.plan.safe && lane is Some && sequence > seen ==> fault == Some(
                Error::Ack { origin, sequence, received: seen },
            )
            &&& known && ring.plan.safe && lane is Some && acked < sequence <= seen ==> {
                &&& step matches AckStep::FetchAdd(addition)
                &&& addition.origin == origin
                &&& addition.index == lane->0.ack
                &&& acked + addition.delta == sequence
                &&& addition.sequence == sequence
                &&& ring.awaits_addition(addition)
            }
            &&& !ring.plan.safe || sequence <= acked ==> step is Done
        }),
{
}

/// Whatever a send needs next can be given to it: a counter where it is to be read, the
/// report of its put where it is staged.
pub proof fn sends_can_go_on(
    ring: RingState,
    destination: i32,
    data: Seq<u8>,
    waiting: bool,
    waited: bool,
    value: u64,
)
    requires
        ring.wf(),
        ring.send_fault(destination, data.len()) is None,
    ensures
        ({
            let sending = Sending {
                destination,
                sequence: (ring.sent[destination as int].sent + 1) as u64,
                waiting,
            };
            let (rest, put) = ring.staged(destination, data, waited);
            &&& ring.plan.safe ==> ring.awaits_counter(sending, data.len())
            &&& ring.plan.safe ==> ring.refreshed(destination, value).awaits_counter(
                sending,
                data.len(),
            )
            &&& rest.awaits_put(put)
        }),
{
}

/// A walk moves the cursor of its own lane to where it ended, and adds what it counted;
/// the greatest advance is the greater of itself and this one, where the walk did not
/// fail. Nothing else changes.
pub proof fn walks_move_their_own_lane(
    ring: RingState,
    origin: i32,
    walk: receive::Survey,
    other: int,
)
    requires
        ring.wf(),
        ring.has_rank(origin),
        ring.seen[origin as int] <= walk.seen,
        0 <= other < ring.plan.ranks,
    ensures
        ({
            let after = ring.advanced(origin, walk);
            let advance = walk.seen - ring.seen[origin as int];
            &&& after.seen.len() == ring.seen.len()
            &&& after.seen[origin as int] == walk.seen
            &&& other != origin ==> after.seen[other] == ring.seen[other]
            &&& ring.lost + walk.lost <= u64::MAX ==> after.lost == ring.lost + walk.lost
            &&& after.lost == wrapped((ring.lost + walk.lost) as nat)
            &&& ring.corrupt + walk.corrupt <= u64::MAX ==> after.corrupt == ring.corrupt
                + walk.corrupt
            &&& after.corrupt == wrapped((ring.corrupt + walk.corrupt) as nat)
            &&& walk.fault is Some ==> after.max_lag == ring.max_lag
            &&& walk.fault is None ==> after.max_lag >= ring.max_lag && after.max_lag >= advance
                && (after.max_lag == ring.max_lag || after.max_lag == advance)
            &&& after == (RingState {
                seen: after.seen,
                lost: after.lost,
                corrupt: after.corrupt,
                max_lag: after.max_lag,
                ..ring
            })
        }),
{
}

/// Polling one more lane walks over the next in the order of the incoming ones, from where
/// its cursor stands, and adds what the walk delivers; a walk that failed ends the poll.
pub proof fn polls_take_one_lane_after_another(ring: RingState, reads: receive::Reads, n: nat)
    requires
        n < ring.plan.incoming.len(),
    ensures
        ({
            let before = ring.polled_by(reads, n);
            let after = ring.polled_by(reads, n + 1);
            let origin = ring.plan.incoming[n as int];
            let lane = ring.plan.from[origin as int]->0;
            let walk = receive::surveyed(
                reads,
                origin,
                lane,
                ring.plan.safe,
                before.ring.seen[origin as int],
                lane.depth as nat,
            );
            &&& before.fault is Some ==> after == before
            &&& before.fault is None && ring.has_rank(origin) ==> {
                &&& after.ring == before.ring.advanced(origin, walk)
                &&& after.messages == before.messages + receive::delivered_from(
                    origin,
                    walk.delivered,
                )
                &&& after.fault == walk.fault
            }
        }),
        ring.polled_by(reads, 0).ring == ring,
        ring.polled_by(reads, 0).messages.len() == 0,
        ring.polled_by(reads, 0).fault is None,
{
}

/// The messages of groups that come before group `n`.
pub open spec fn total(groups: Seq<Seq<Found>>, n: nat) -> nat
    decreases n,
{
    if n == 0 {
        0
    } else {
        total(groups, (n - 1) as nat) + groups[n - 1].len()
    }
}

/// The groups that the lanes of a ring deliver, each walked from where its cursor stands.
pub open spec fn lane_groups(ring: RingState, reads: receive::Reads) -> Seq<Seq<Found>> {
    Seq::new(
        ring.plan.incoming.len(),
        |i: int|
            {
                let origin = ring.plan.incoming[i];
                let lane = ring.plan.from[origin as int]->0;
                receive::surveyed(
                    reads,
                    origin,
                    lane,
                    ring.plan.safe,
                    ring.seen[origin as int],
                    lane.depth as nat,
                ).delivered
            },
    )
}

proof fn cursors_wait_for_their_turn(ring: RingState, reads: receive::Reads, n: nat, i: int)
    requires
        ring.wf(),
        n <= i < ring.plan.incoming.len(),
    ensures
        ring.polled_by(reads, n).ring.seen.len() == ring.seen.len(),
        ring.polled_by(reads, n).ring.seen[ring.plan.incoming[i] as int]
            == ring.seen[ring.plan.incoming[i] as int],
    decreases n,
{
    if n > 0 {
        cursors_wait_for_their_turn(ring, reads, (n - 1) as nat, i);
        assert(ring.plan.incoming[n - 1] < ring.plan.incoming[i]);
    }
}

proof fn polls_count_their_messages(ring: RingState, reads: receive::Reads, n: nat)
    requires
        ring.wf(),
        n <= ring.plan.incoming.len(),
        ring.polled_by(reads, n).fault is None,
    ensures
        ring.polled_by(reads, n).messages.len() == total(lane_groups(ring, reads), n),
        n > 0 ==> ring.polled_by(reads, (n - 1) as nat).fault is None,
    decreases n,
{
    if n > 0 {
        polls_count_their_messages(ring, reads, (n - 1) as nat);
        cursors_wait_for_their_turn(ring, reads, (n - 1) as nat, n - 1);
    }
}

/// A poll that succeeds walks over every lane into its rank and delivers everything that
/// each walk delivers, the lanes in ascending order of their origins and the messages of a
/// lane in a row.
pub proof fn polls_deliver_from_every_lane(
    ring: RingState,
    reads: receive::Reads,
    n: nat,
    i: int,
    j: int,
)
    requires
        ring.wf(),
        0 <= i < n <= ring.plan.incoming.len(),
        ring.polled_by(reads, n).fault is None,
        0 <= j < lane_groups(ring, reads)[i].len(),
    ensures
        ({
            let groups = lane_groups(ring, reads);
            let messages = ring.polled_by(reads, n).messages;
            let at = total(groups, i as nat) + j;
            &&& messages.len() == total(groups, n)
            &&& at < messages.len()
            &&& messages[at] == (receive::Delivery {
                origin: ring.plan.incoming[i],
                sequence: groups[i][j].sequence,
                data: groups[i][j].data,
            })
        }),
    decreases n,
{
    let groups = lane_groups(ring, reads);
    let before = ring.polled_by(reads, (n - 1) as nat);
    polls_count_their_messages(ring, reads, n);
    polls_count_their_messages(ring, reads, (n - 1) as nat);
    cursors_wait_for_their_turn(ring, reads, (n - 1) as nat, n - 1);
    if i < n - 1 {
        polls_deliver_from_every_lane(ring, reads, (n - 1) as nat, i, j);
    }
}

/// A poll that succeeds leaves every cursor of an incoming lane where the walk over that
/// lane ended.
pub proof fn polls_move_every_cursor(ring: RingState, reads: receive::Reads, n: nat, i: int)
    requires
        ring.wf(),
        0 <= i < n <= ring.plan.incoming.len(),
        ring.polled_by(reads, n).fault is None,
    ensures
        ({
            let origin = ring.plan.incoming[i];
            let lane = ring.plan.from[origin as int]->0;
            let walk = receive::surveyed(
                reads,
                origin,
                lane,
                ring.plan.safe,
                ring.seen[origin as int],
                lane.depth as nat,
            );
            &&& ring.polled_by(reads, n).ring.seen[origin as int] == walk.seen
            &&& walk.fault is None
        }),
    decreases n,
{
    polls_count_their_messages(ring, reads, n);
    cursors_wait_for_their_turn(ring, reads, (n - 1) as nat, n - 1);
    if i < n - 1 {
        polls_move_every_cursor(ring, reads, (n - 1) as nat, i);
        assert(ring.plan.incoming[i] < ring.plan.incoming[n - 1]);
    }
}

} // verus!
