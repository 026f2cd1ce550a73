//! Receiving from one lane.
//!
//! A receiver walks the slots of a lane in the order of the sequence numbers that
//! it expects. A slot that holds the expected message is delivered. A slot that
//! holds a later one shows that the receiver was lapped: on a safe lane that is a
//! failure, on a raw lane every slot is searched and the gaps are counted as
//! lost.
//!
//! The memory may change between two reads, so the functions that read take the
//! reads as arguments: `volatile` for the two ends of a slot, `copy` for a whole
//! slot. What they promise of whatever the reads return is stated apart from what
//! they promise of reads whose answers are known, such as those of memory that
//! stays as it is.

use crate::error::Error;
use crate::frame;
use crate::frame::{decode, probe, Frame, Probe, Slot, Snapshot, WORD};
use crate::lane;
use crate::lane::Lane;
use crate::recovery;
use crate::recovery::{select, take_frame, Found};
use vstd::arithmetic::div_mod::*;
use vstd::bytes::*;
use vstd::prelude::*;

verus! {

/// One message observed in a ring.
#[derive(Debug, Clone, PartialEq, Eq)]
pub struct Message {
    /// The rank that sent the message.
    pub origin: i32,
    /// The sequence number of the message in its lane.
    pub sequence: u64,
    /// The payload.
    pub data: Vec<u8>,
}

/// What a message consists of.
#[verifier::ext_equal]
pub struct Delivery {
    pub origin: i32,
    pub sequence: u64,
    pub data: Seq<u8>,
}

impl View for Message {
    type V = Delivery;

    open spec fn view(&self) -> Delivery {
        Delivery { origin: self.origin, sequence: self.sequence, data: self.data@ }
    }
}

/// What messages consist of.
pub open spec fn deliveries(messages: Seq<Message>) -> Seq<Delivery> {
    Seq::new(messages.len(), |i: int| messages[i]@)
}

/// The messages found in a lane, as deliveries of its origin.
pub open spec fn delivered_from(origin: i32, list: Seq<Found>) -> Seq<Delivery> {
    Seq::new(
        list.len(),
        |i: int| Delivery { origin, sequence: list[i].sequence, data: list[i].data },
    )
}

/// The bytes of a slot.
pub open spec fn slot_bytes(memory: Seq<u8>, lane: Lane, position: int) -> Seq<u8> {
    memory.subrange(lane.slot_at(position), lane.slot_at(position) + lane.slot)
}

/// What the ends of a slot say.
pub open spec fn probe_of(memory: Seq<u8>, lane: Lane, position: int) -> Probe {
    let image = slot_bytes(memory, lane, position);
    frame::probed(frame::word_at(image, 0), frame::word_at(image, image.len() - WORD))
}

/// What a slot holds.
pub open spec fn slot_of(memory: Seq<u8>, lane: Lane, position: int) -> Slot {
    frame::decoded(slot_bytes(memory, lane, position), lane.capacity as nat)
}

/// The messages past `seen` in the first `n` slots, by position.
pub open spec fn retained(memory: Seq<u8>, lane: Lane, seen: u64, n: nat) -> Seq<Found>
    decreases n,
{
    if n == 0 {
        Seq::empty()
    } else {
        let before = retained(memory, lane, seen, (n - 1) as nat);
        match slot_of(memory, lane, n - 1) {
            Slot::Message { sequence, data } => if sequence > seen {
                before.push(Found { sequence, data })
            } else {
                before
            },
            _ => before,
        }
    }
}

/// Whether a search past `seen` finds the slot damaged. A slot that names a
/// sequence that was seen is not looked into.
pub open spec fn is_damaged(memory: Seq<u8>, lane: Lane, seen: u64, position: int) -> bool {
    match probe_of(memory, lane, position) {
        Probe::Vacant => false,
        Probe::Corrupt => true,
        Probe::Sequence(sequence) => sequence > seen && slot_of(memory, lane, position) is Corrupt,
    }
}

/// The damaged slots that a search past `seen` finds among the first `n`.
pub open spec fn damaged(memory: Seq<u8>, lane: Lane, seen: u64, n: nat) -> nat
    decreases n,
{
    if n == 0 {
        0
    } else {
        damaged(memory, lane, seen, (n - 1) as nat) + if is_damaged(memory, lane, seen, n - 1) {
            1nat
        } else {
            0nat
        }
    }
}

/// What one walk over a lane comes to.
#[verifier::ext_equal]
pub struct Drained {
    /// The last sequence number accounted for.
    pub seen: u64,
    /// What is delivered, in order.
    pub delivered: Seq<Found>,
    /// The sequence numbers passed over.
    pub lost: nat,
    /// The slots found damaged.
    pub corrupt: nat,
    /// The expected and the found sequence, where a safe lane was overwritten.
    pub lapped: Option<(u64, u64)>,
}

/// A walk that ends where it stands.
pub open spec fn stopped(seen: u64, corrupt: nat) -> Drained {
    Drained { seen, delivered: Seq::empty(), lost: 0, corrupt, lapped: None }
}

/// What a search over all slots of a lane comes to.
pub open spec fn recovered(memory: Seq<u8>, lane: Lane, seen: u64) -> Drained {
    let list = recovery::in_sequence(retained(memory, lane, seen, lane.depth as nat));
    let corrupt = damaged(memory, lane, seen, lane.depth as nat);
    if list.len() == 0 {
        stopped(seen, corrupt)
    } else {
        Drained {
            seen: list.last().sequence,
            delivered: list,
            lost: (list.last().sequence - seen - list.len()) as nat,
            corrupt,
            lapped: None,
        }
    }
}

/// A walk that delivers `first` and goes on as `rest`.
pub open spec fn preceded(first: Seq<Found>, rest: Drained) -> Drained {
    Drained { delivered: first + rest.delivered, ..rest }
}

/// What a walk over at most `left` messages past `seen` comes to.
pub open spec fn drained(memory: Seq<u8>, lane: Lane, safe: bool, seen: u64, left: nat) -> Drained
    decreases left,
{
    if left == 0 || seen == u64::MAX {
        stopped(seen, 0)
    } else {
        let expected = (seen + 1) as u64;
        let position = lane.position_of(expected as int);
        match probe_of(memory, lane, position) {
            Probe::Vacant => stopped(seen, 0),
            Probe::Corrupt => stopped(seen, 1),
            Probe::Sequence(sequence) => if sequence < expected {
                stopped(seen, 0)
            } else if sequence > expected {
                if safe {
                    Drained { lapped: Some((expected, sequence)), ..stopped(seen, 0) }
                } else {
                    recovered(memory, lane, seen)
                }
            } else {
                match slot_of(memory, lane, position) {
                    Slot::Vacant => stopped(seen, 0),
                    Slot::Corrupt => stopped(seen, 1),
                    Slot::Message { sequence, data } => preceded(
                        seq![Found { sequence, data }],
                        drained(memory, lane, safe, expected, (left - 1) as nat),
                    ),
                }
            },
        }
    }
}

/// A damaged slot is counted and tried again: the walk ends in front of it, and the
/// next one looks at it first.
pub proof fn damaged_slots_are_tried_again(
    memory: Seq<u8>,
    lane: Lane,
    safe: bool,
    seen: u64,
    left: nat,
)
    requires
        left > 0,
        seen < u64::MAX,
        ({
            let position = lane.position_of(seen + 1);
            let ends = probe_of(memory, lane, position);
            ends == Probe::Corrupt || (ends == Probe::Sequence((seen + 1) as u64) && slot_of(
                memory,
                lane,
                position,
            ) is Corrupt)
        }),
    ensures
        drained(memory, lane, safe, seen, left) == stopped(seen, 1),
{
}

/// Whether the reads return as many bytes as they were asked for, or fail.
pub open spec fn reads_lengths<F: Fn(usize, usize) -> Result<Vec<u8>, Error>>(read: F) -> bool {
    &&& forall|at: usize, len: usize| call_requires(read, (at, len))
    &&& forall|at: usize, len: usize, bytes: Vec<u8>| #[trigger]
        call_ensures(read, (at, len), Ok::<Vec<u8>, Error>(bytes)) ==> bytes@.len() == len
}

/// Whether the reads return what `memory` holds.
pub open spec fn serves<F: Fn(usize, usize) -> Result<Vec<u8>, Error>>(
    read: F,
    memory: Seq<u8>,
) -> bool {
    forall|at: usize, len: usize, result: Result<Vec<u8>, Error>|
        at + len <= memory.len() && #[trigger] call_ensures(read, (at, len), result) ==> (
        result matches Ok(bytes) && bytes@ == memory.subrange(at as int, at + len))
}

/// Whether both reads return what `memory` holds, and it holds the lane.
pub open spec fn steady<
    V: Fn(usize, usize) -> Result<Vec<u8>, Error>,
    C: Fn(usize, usize) -> Result<Vec<u8>, Error>,
>(volatile: V, copy: C, memory: Seq<u8>, lane: Lane) -> bool {
    &&& serves(volatile, memory)
    &&& serves(copy, memory)
    &&& lane.lies_in(memory.len())
}

/// What reads answer, with bytes or with an error, within the first `end` bytes.
pub struct Reads {
    pub volatile: spec_fn(usize, usize) -> Result<Seq<u8>, Error>,
    pub copy: spec_fn(usize, usize) -> Result<Seq<u8>, Error>,
    pub end: nat,
}

/// Whether a read answers so within the first `end` bytes.
pub open spec fn answers<F: Fn(usize, usize) -> Result<Vec<u8>, Error>>(
    read: F,
    answer: spec_fn(usize, usize) -> Result<Seq<u8>, Error>,
    end: nat,
) -> bool {
    forall|at: usize, len: usize, result: Result<Vec<u8>, Error>|
        at + len <= end && #[trigger] call_ensures(read, (at, len), result) ==> answer(at, len)
            == match result {
            Ok(bytes) => Ok::<Seq<u8>, Error>(bytes@),
            Err(error) => Err(error),
        }
}

/// Whether volatile reads answer so.
pub open spec fn volatile_answers<V: Fn(usize, usize) -> Result<Vec<u8>, Error>>(
    volatile: V,
    reads: Reads,
) -> bool {
    answers(volatile, reads.volatile, reads.end)
}

/// Whether copies answer so.
pub open spec fn copy_answers<C: Fn(usize, usize) -> Result<Vec<u8>, Error>>(
    copy: C,
    reads: Reads,
) -> bool {
    answers(copy, reads.copy, reads.end)
}

/// Whether both reads answer so, wherever the lane lies.
pub open spec fn answered<
    V: Fn(usize, usize) -> Result<Vec<u8>, Error>,
    C: Fn(usize, usize) -> Result<Vec<u8>, Error>,
>(volatile: V, copy: C, reads: Reads, lane: Lane) -> bool {
    &&& volatile_answers(volatile, reads)
    &&& copy_answers(copy, reads)
    &&& lane.lies_in(reads.end)
}

/// Whether no read succeeds.
pub open spec fn unreadable<F: Fn(usize, usize) -> Result<Vec<u8>, Error>>(read: F) -> bool {
    forall|at: usize, len: usize, result: Result<Vec<u8>, Error>| #[trigger]
        call_ensures(read, (at, len), result) ==> result is Err
}

/// The answers of memory that stays as it is.
pub open spec fn held(memory: Seq<u8>) -> Reads {
    let answer = |at: usize, len: usize|
        Ok::<Seq<u8>, Error>(memory.subrange(at as int, at + len));
    Reads { volatile: answer, copy: answer, end: memory.len() }
}

/// What a look at the ends of a slot comes to: the head is read first.
pub open spec fn probe_read(reads: Reads, lane: Lane, position: int) -> Result<Probe, Error> {
    match (reads.volatile)(lane.slot_at(position) as usize, WORD) {
        Err(error) => Err(error),
        Ok(head) => match (reads.volatile)(
            (lane.slot_at(position) + lane.slot - WORD) as usize,
            WORD,
        ) {
            Err(error) => Err(error),
            Ok(tail) => Ok(
                frame::probed(spec_u64_from_le_bytes(head), spec_u64_from_le_bytes(tail)),
            ),
        },
    }
}

/// What a copy of a slot comes to.
pub open spec fn slot_read(reads: Reads, lane: Lane, position: int) -> Result<Slot, Error> {
    match (reads.copy)(lane.slot_at(position) as usize, lane.slot) {
        Err(error) => Err(error),
        Ok(image) => Ok(frame::decoded(image, lane.capacity as nat)),
    }
}

/// What a search over the first slots of a lane comes to.
#[verifier::ext_equal]
pub struct Searched {
    /// The messages found, by position.
    pub found: Seq<Found>,
    /// The slots found damaged.
    pub corrupt: nat,
    /// The read that failed and ended the search, if one did.
    pub fault: Option<Error>,
}

/// What a search past `seen` over the first `n` slots comes to.
pub open spec fn searched(reads: Reads, lane: Lane, seen: u64, n: nat) -> Searched
    decreases n,
{
    if n == 0 {
        Searched { found: Seq::empty(), corrupt: 0, fault: None }
    } else {
        let before = searched(reads, lane, seen, (n - 1) as nat);
        let damaged = Searched { corrupt: before.corrupt + 1, ..before };
        if before.fault is Some {
            before
        } else {
            match probe_read(reads, lane, n - 1) {
                Err(error) => Searched { fault: Some(error), ..before },
                Ok(Probe::Vacant) => before,
                Ok(Probe::Corrupt) => damaged,
                Ok(Probe::Sequence(named)) => if named <= seen {
                    before
                } else {
                    match slot_read(reads, lane, n - 1) {
                        Err(error) => Searched { fault: Some(error), ..before },
                        Ok(Slot::Vacant) => before,
                        Ok(Slot::Corrupt) => damaged,
                        Ok(Slot::Message { sequence, data }) => if sequence > seen {
                            Searched {
                                found: before.found.push(Found { sequence, data }),
                                ..before
                            }
                        } else {
                            before
                        },
                    }
                },
            }
        }
    }
}

/// What one walk over a lane comes to, failed reads among it.
#[verifier::ext_equal]
pub struct Survey {
    /// The last sequence number accounted for.
    pub seen: u64,
    /// What is delivered, in order.
    pub delivered: Seq<Found>,
    /// The sequence numbers passed over.
    pub lost: nat,
    /// The slots found damaged.
    pub corrupt: nat,
    /// Why the walk failed, if it did.
    pub fault: Option<Error>,
}

/// A walk that ends where it stands.
pub open spec fn ended(seen: u64, corrupt: nat, fault: Option<Error>) -> Survey {
    Survey { seen, delivered: Seq::empty(), lost: 0, corrupt, fault }
}

/// What a walk comes to that searches all slots. A search that failed delivers
/// nothing.
pub open spec fn caught_up(reads: Reads, lane: Lane, seen: u64) -> Survey {
    let search = searched(reads, lane, seen, lane.depth as nat);
    let list = recovery::in_sequence(search.found);
    if search.fault is Some || list.len() == 0 {
        ended(seen, search.corrupt, search.fault)
    } else {
        Survey {
            seen: list.last().sequence,
            delivered: list,
            lost: (list.last().sequence - seen - list.len()) as nat,
            corrupt: search.corrupt,
            fault: None,
        }
    }
}

/// A walk that delivers `first` and goes on as `rest`.
pub open spec fn led_by(first: Seq<Found>, rest: Survey) -> Survey {
    Survey { delivered: first + rest.delivered, ..rest }
}

/// What a walk over at most `left` messages from `origin` past `seen` comes to.
pub open spec fn surveyed(
    reads: Reads,
    origin: i32,
    lane: Lane,
    safe: bool,
    seen: u64,
    left: nat,
) -> Survey
    decreases left,
{
    if left == 0 || seen == u64::MAX {
        ended(seen, 0, None)
    } else {
        let expected = (seen + 1) as u64;
        let position = lane.position_of(expected as int);
        match probe_read(reads, lane, position) {
            Err(error) => ended(seen, 0, Some(error)),
            Ok(Probe::Vacant) => ended(seen, 0, None),
            Ok(Probe::Corrupt) => ended(seen, 1, None),
            Ok(Probe::Sequence(found)) => if found < expected {
                ended(seen, 0, None)
            } else if found > expected {
                if safe {
                    ended(seen, 0, Some(Error::Lapped { origin, expected, found }))
                } else {
                    caught_up(reads, lane, seen)
                }
            } else {
                match slot_read(reads, lane, position) {
                    Err(error) => ended(seen, 0, Some(error)),
                    Ok(Slot::Vacant) => ended(seen, 0, None),
                    Ok(Slot::Corrupt) => ended(seen, 1, None),
                    Ok(Slot::Message { sequence, data }) => if sequence != expected {
                        ended(seen, 0, None)
                    } else {
                        led_by(
                            seq![Found { sequence, data }],
                            surveyed(reads, origin, lane, safe, expected, (left - 1) as nat),
                        )
                    },
                }
            },
        }
    }
}

/// A walk over memory that stays as it is, as a survey.
pub open spec fn as_survey(origin: i32, walk: Drained) -> Survey {
    Survey {
        seen: walk.seen,
        delivered: walk.delivered,
        lost: walk.lost,
        corrupt: walk.corrupt,
        fault: lapped_error(origin, walk.lapped),
    }
}

proof fn held_slots_are_read(memory: Seq<u8>, lane: Lane, position: int)
    requires
        lane.wf(),
        lane.lies_in(memory.len()),
        0 <= position < lane.depth,
    ensures
        probe_read(held(memory), lane, position) == Ok::<Probe, Error>(
            probe_of(memory, lane, position),
        ),
        slot_read(held(memory), lane, position) == Ok::<Slot, Error>(
            slot_of(memory, lane, position),
        ),
{
    lane::slots_lie_in_the_lane(lane, position);
    let image = slot_bytes(memory, lane, position);
    let start = lane.slot_at(position);
    assert(memory.subrange(start, start + WORD) =~= image.subrange(0, 0 + WORD as int));
    assert(memory.subrange(start + lane.slot - WORD, start + lane.slot) =~= image.subrange(
        image.len() - WORD,
        image.len() - WORD + WORD,
    ));
}

proof fn held_slots_are_searched(memory: Seq<u8>, lane: Lane, seen: u64, n: nat)
    requires
        lane.wf(),
        lane.lies_in(memory.len()),
        n <= lane.depth,
    ensures
        searched(held(memory), lane, seen, n) == (Searched {
            found: retained(memory, lane, seen, n),
            corrupt: damaged(memory, lane, seen, n),
            fault: None,
        }),
    decreases n,
{
    if n > 0 {
        held_slots_are_searched(memory, lane, seen, (n - 1) as nat);
        held_slots_are_read(memory, lane, n - 1);
    }
}

/// Over memory that stays as it is, a walk comes to what `drained` says: only an
/// overwritten safe lane fails it.
pub proof fn held_lanes_are_drained(
    memory: Seq<u8>,
    origin: i32,
    lane: Lane,
    safe: bool,
    seen: u64,
    left: nat,
)
    requires
        lane.wf(),
        lane.lies_in(memory.len()),
    ensures
        surveyed(held(memory), origin, lane, safe, seen, left) == as_survey(
            origin,
            drained(memory, lane, safe, seen, left),
        ),
    decreases left,
{
    if left > 0 && seen < u64::MAX {
        let position = lane.position_of(seen + 1);
        lemma_mod_bound(seen as int, lane.depth as int);
        held_slots_are_read(memory, lane, position);
        held_slots_are_searched(memory, lane, seen, lane.depth as nat);
        held_lanes_are_drained(memory, origin, lane, safe, (seen + 1) as u64, (left - 1) as nat);
    }
}

/// Whether a read of a slot of the lane returned an image that holds the message.
pub open spec fn was_read<C: Fn(usize, usize) -> Result<Vec<u8>, Error>>(
    copy: C,
    lane: Lane,
    message: Found,
) -> bool {
    exists|position: int, image: Vec<u8>|
        0 <= position < lane.depth && #[trigger] call_ensures(
            copy,
            (lane.slot_at(position) as usize, lane.slot),
            Ok::<Vec<u8>, Error>(image),
        ) && frame::decoded(image@, lane.capacity as nat) == (Slot::Message {
            sequence: message.sequence,
            data: message.data,
        })
}

/// Whether a read failed with the error.
pub open spec fn read_failed<
    V: Fn(usize, usize) -> Result<Vec<u8>, Error>,
    C: Fn(usize, usize) -> Result<Vec<u8>, Error>,
>(volatile: V, copy: C, error: Error) -> bool {
    ||| exists|at: usize, len: usize| #[trigger]
        call_ensures(volatile, (at, len), Err::<Vec<u8>, Error>(error))
    ||| exists|at: usize, len: usize| #[trigger]
        call_ensures(copy, (at, len), Err::<Vec<u8>, Error>(error))
}

/// Whether the error says that a walk found the slot past `seen` overwritten.
pub open spec fn says_lapped(error: Error, origin: i32, seen: u64) -> bool {
    error matches Error::Lapped { origin: named, expected, found } && named == origin && expected
        == seen + 1 && found > expected
}

/// Reads the two ends of a slot.
pub fn probe_slot<V>(lane: Lane, position: usize, volatile: &V) -> (result: Result<
    Probe,
    Error,
>) where V: Fn(usize, usize) -> Result<Vec<u8>, Error>
    requires
        lane.wf(),
        position < lane.depth,
        reads_lengths(*volatile),
    ensures
        match result {
            Ok(probe) => exists|head: Vec<u8>, tail: Vec<u8>| #[trigger]
                call_ensures(
                    *volatile,
                    (lane.slot_at(position as int) as usize, WORD),
                    Ok::<Vec<u8>, Error>(head),
                ) && #[trigger] call_ensures(
                    *volatile,
                    ((lane.slot_at(position as int) + lane.slot - WORD) as usize, WORD),
                    Ok::<Vec<u8>, Error>(tail),
                ) && probe == frame::probed(
                    spec_u64_from_le_bytes(head@),
                    spec_u64_from_le_bytes(tail@),
                ),
            Err(error) => exists|at: usize| #[trigger]
                call_ensures(*volatile, (at, WORD), Err::<Vec<u8>, Error>(error)),
        },
        unreadable(*volatile) ==> result is Err,
        forall|reads: Reads| #[trigger]
            volatile_answers(*volatile, reads) && lane.lies_in(reads.end) ==> result == probe_read(
                reads,
                lane,
                position as int,
            ),
        forall|memory: Seq<u8>| #[trigger]
            serves(*volatile, memory) && lane.lies_in(memory.len()) ==> result == Ok::<Probe, Error>(
                probe_of(memory, lane, position as int),
            ),
{
    let offset: usize = lane.slot_offset(position);
    let head: Vec<u8> = match volatile(offset, WORD) {
        Ok(bytes) => bytes,
        Err(error) => {
            assert forall|memory: Seq<u8>| #[trigger]
                serves(*volatile, memory) && lane.lies_in(memory.len()) implies false by {
                assert(offset + WORD <= memory.len());
            }
            return Err(error);
        },
    };
    let tail: Vec<u8> = match volatile(offset + lane.slot - WORD, WORD) {
        Ok(bytes) => bytes,
        Err(error) => {
            assert forall|memory: Seq<u8>| #[trigger]
                serves(*volatile, memory) && lane.lies_in(memory.len()) implies false by {
                assert(offset + lane.slot <= memory.len());
            }
            return Err(error);
        },
    };
    proof {
        assert forall|memory: Seq<u8>| #[trigger]
            serves(*volatile, memory) && lane.lies_in(memory.len()) implies frame::probed(
            spec_u64_from_le_bytes(head@),
            spec_u64_from_le_bytes(tail@),
        ) == probe_of(memory, lane, position as int) by {
            let image = slot_bytes(memory, lane, position as int);
            assert(head@ =~= image.subrange(0, 0 + WORD as int));
            assert(tail@ =~= image.subrange(image.len() - WORD, image.len() - WORD + WORD));
        }
    }
    Ok(probe(head.as_slice(), tail.as_slice()))
}

/// Copies a slot and judges the copy.
pub fn frame_slot<C>(lane: Lane, position: usize, copy: &C) -> (result: Result<
    Snapshot,
    Error,
>) where C: Fn(usize, usize) -> Result<Vec<u8>, Error>
    requires
        lane.wf(),
        position < lane.depth,
        reads_lengths(*copy),
    ensures
        match result {
            Ok(snapshot) => exists|image: Vec<u8>| #[trigger]
                call_ensures(
                    *copy,
                    (lane.slot_at(position as int) as usize, lane.slot),
                    Ok::<Vec<u8>, Error>(image),
                ) && snapshot@ == frame::decoded(image@, lane.capacity as nat),
            Err(error) => call_ensures(
                *copy,
                (lane.slot_at(position as int) as usize, lane.slot),
                Err::<Vec<u8>, Error>(error),
            ),
        },
        result matches Ok(Snapshot::Message(frame)) ==> was_read(*copy, lane, frame@),
        forall|reads: Reads| #[trigger]
            copy_answers(*copy, reads) && lane.lies_in(reads.end) ==> match result {
                Ok(snapshot) => slot_read(reads, lane, position as int) == Ok::<Slot, Error>(
                    snapshot@,
                ),
                Err(error) => slot_read(reads, lane, position as int) == Err::<Slot, Error>(
                    error,
                ),
            },
        forall|memory: Seq<u8>| #[trigger]
            serves(*copy, memory) && lane.lies_in(memory.len()) ==> (result matches Ok(snapshot) && snapshot@
                == slot_of(memory, lane, position as int)),
{
    let offset: usize = lane.slot_offset(position);
    let image: Vec<u8> = match copy(offset, lane.slot) {
        Ok(bytes) => bytes,
        Err(error) => {
            assert forall|memory: Seq<u8>| #[trigger]
                serves(*copy, memory) && lane.lies_in(memory.len()) implies false by {
                assert(offset + lane.slot <= memory.len());
            }
            return Err(error);
        },
    };
    assert(call_ensures(
        *copy,
        (lane.slot_at(position as int) as usize, lane.slot),
        Ok::<Vec<u8>, Error>(image),
    ));
    proof {
        assert forall|memory: Seq<u8>| #[trigger]
            serves(*copy, memory) && lane.lies_in(memory.len()) implies image@ == slot_bytes(
            memory,
            lane,
            position as int,
        ) by {
            assert(offset + lane.slot <= memory.len());
        }
    }
    Ok(decode(&image, lane.capacity))
}

/// What a search over all slots of a lane found.
pub struct Search {
    /// The messages past the given sequence, in ascending order.
    pub frames: Vec<Frame>,
    /// The slots found damaged.
    pub corrupt: u64,
    /// The read that failed, if one did.
    pub fault: Option<Error>,
}

/// A search that failed on some slots has failed on all.
proof fn searches_stay_failed(reads: Reads, lane: Lane, seen: u64, n: nat, m: nat)
    requires
        n <= m,
        searched(reads, lane, seen, n).fault is Some,
    ensures
        searched(reads, lane, seen, m) == searched(reads, lane, seen, n),
    decreases m,
{
    if n < m {
        searches_stay_failed(reads, lane, seen, n, (m - 1) as nat);
    }
}

proof fn searches_stay_failed_for_all(lane: Lane, seen: u64, n: nat)
    requires
        n <= lane.depth,
    ensures
        forall|reads: Reads|
            (#[trigger] searched(reads, lane, seen, n)).fault is Some ==> searched(
                reads,
                lane,
                seen,
                lane.depth as nat,
            ) == searched(reads, lane, seen, n),
{
    assert forall|reads: Reads|
        (#[trigger] searched(reads, lane, seen, n)).fault is Some implies searched(
        reads,
        lane,
        seen,
        lane.depth as nat,
    ) == searched(reads, lane, seen, n) by {
        searches_stay_failed(reads, lane, seen, n, lane.depth as nat);
    }
}

/// Searches all slots of a lane for messages past `seen`, given what the reads
/// answer.
fn search_slots<V, C>(lane: Lane, seen: u64, volatile: &V, copy: &C) -> (search: Search) where
    V: Fn(usize, usize) -> Result<Vec<u8>, Error>,
    C: Fn(usize, usize) -> Result<Vec<u8>, Error>,

    requires
        lane.wf(),
        reads_lengths(*volatile),
        reads_lengths(*copy),
    ensures
        search.corrupt <= lane.depth,
        forall|i: int, j: int|
            0 <= i < j < search.frames@.len() ==> (#[trigger] search.frames@[i]).sequence < (
            #[trigger] search.frames@[j]).sequence,
        forall|i: int|
            0 <= i < search.frames@.len() ==> (#[trigger] search.frames@[i]).sequence > seen
                && was_read(*copy, lane, search.frames@[i]@),
        search.fault is Some ==> search.frames@.len() == 0,
        search.fault matches Some(error) ==> read_failed(*volatile, *copy, error),
        unreadable(*volatile) ==> search.fault is Some,
        forall|reads: Reads| #[trigger]
            answered(*volatile, *copy, reads, lane) ==> {
                let exact = searched(reads, lane, seen, lane.depth as nat);
                &&& search.fault == exact.fault
                &&& search.corrupt == exact.corrupt
                &&& search.fault is None ==> recovery::selects(
                    exact.found,
                    recovery::found(search.frames@),
                )
            },
{
    let mut list: Vec<Frame> = Vec::new();
    let mut corrupt: u64 = 0;
    let mut position: usize = 0;
    while position < lane.depth
        invariant
            lane.wf(),
            reads_lengths(*volatile),
            reads_lengths(*copy),
            position <= lane.depth,
            corrupt <= position,
            forall|i: int|
                0 <= i < list@.len() ==> (#[trigger] list@[i]).sequence > seen && was_read(
                    *copy,
                    lane,
                    list@[i]@,
                ),
            unreadable(*volatile) ==> position == 0,
            forall|reads: Reads| #[trigger]
                answered(*volatile, *copy, reads, lane) ==> searched(
                    reads,
                    lane,
                    seen,
                    position as nat,
                ) == (Searched {
                    found: recovery::found(list@),
                    corrupt: corrupt as nat,
                    fault: None,
                }),
        decreases lane.depth - position,
    {
        let ghost before = list@;
        let ends: Probe = match probe_slot(lane, position, volatile) {
            Ok(ends) => ends,
            Err(error) => {
                proof {
                    assert forall|reads: Reads| #[trigger]
                        answered(*volatile, *copy, reads, lane) implies searched(
                        reads,
                        lane,
                        seen,
                        (position + 1) as nat,
                    ) == (Searched {
                        found: recovery::found(list@),
                        corrupt: corrupt as nat,
                        fault: Some(error),
                    }) by {
                    }
                    searches_stay_failed_for_all(lane, seen, (position + 1) as nat);
                }
                return Search { frames: Vec::new(), corrupt, fault: Some(error) };
            },
        };
        match ends {
            Probe::Vacant => {},
            Probe::Corrupt => {
                corrupt += 1;
            },
            Probe::Sequence(sequence) => {
                if sequence > seen {
                    match frame_slot(lane, position, copy) {
                        Err(error) => {
                            proof {
                                assert forall|reads: Reads| #[trigger]
                                    answered(*volatile, *copy, reads, lane) implies searched(
                                    reads,
                                    lane,
                                    seen,
                                    (position + 1) as nat,
                                ) == (Searched {
                                    found: recovery::found(list@),
                                    corrupt: corrupt as nat,
                                    fault: Some(error),
                                }) by {
                                }
                                searches_stay_failed_for_all(lane, seen, (position + 1) as nat);
                            }
                            return Search { frames: Vec::new(), corrupt, fault: Some(error) };
                        },
                        Ok(Snapshot::Vacant) => {},
                        Ok(Snapshot::Corrupt) => {
                            corrupt += 1;
                        },
                        Ok(Snapshot::Message(frame)) => {
                            if frame.sequence > seen {
                                list.push(frame);
                            }
                        },
                    }
                }
            },
        }
        position += 1;
        proof {
            assert forall|reads: Reads| #[trigger]
                answered(*volatile, *copy, reads, lane) implies searched(
                reads,
                lane,
                seen,
                position as nat,
            ) == (Searched {
                found: recovery::found(list@),
                corrupt: corrupt as nat,
                fault: None,
            }) by {
                if list@.len() > before.len() {
                    assert(recovery::found(list@) =~= recovery::found(before).push(list@.last()@));
                } else {
                    assert(list@ == before);
                }
            }
        }
    }
    let ghost given = list@;
    let frames: Vec<Frame> = select(list);
    proof {
        let chosen = recovery::found(frames@);
        assert forall|i: int, j: int| 0 <= i < j < frames@.len() implies (
        #[trigger] frames@[i]).sequence < (#[trigger] frames@[j]).sequence by {
            assert(chosen[i].sequence < chosen[j].sequence);
        }
        assert forall|i: int| 0 <= i < frames@.len() implies (#[trigger] frames@[i]).sequence > seen
            && was_read(*copy, lane, frames@[i]@) by {
            assert(recovery::is_first(recovery::found(given), chosen[i]));
            let k = choose|k: int|
                0 <= k < given.len() && recovery::found(given)[k] == chosen[i];
            assert(given[k]@ == frames@[i]@);
        }
    }
    Search { frames, corrupt, fault: None }
}

/// Searches all slots of a lane for messages past `seen`.
pub fn recover<V, C>(lane: Lane, seen: u64, volatile: &V, copy: &C) -> (search: Search) where
    V: Fn(usize, usize) -> Result<Vec<u8>, Error>,
    C: Fn(usize, usize) -> Result<Vec<u8>, Error>,

    requires
        lane.wf(),
        reads_lengths(*volatile),
        reads_lengths(*copy),
    ensures
        search.corrupt <= lane.depth,
        forall|i: int, j: int|
            0 <= i < j < search.frames@.len() ==> (#[trigger] search.frames@[i]).sequence < (
            #[trigger] search.frames@[j]).sequence,
        forall|i: int|
            0 <= i < search.frames@.len() ==> (#[trigger] search.frames@[i]).sequence > seen
                && was_read(*copy, lane, search.frames@[i]@),
        search.fault is Some ==> search.frames@.len() == 0,
        search.fault matches Some(error) ==> read_failed(*volatile, *copy, error),
        unreadable(*volatile) ==> search.fault is Some,
        forall|reads: Reads| #[trigger]
            answered(*volatile, *copy, reads, lane) ==> {
                let exact = searched(reads, lane, seen, lane.depth as nat);
                &&& search.fault == exact.fault
                &&& search.corrupt == exact.corrupt
                &&& search.fault is None ==> recovery::selects(
                    exact.found,
                    recovery::found(search.frames@),
                )
            },
        forall|memory: Seq<u8>| #[trigger]
            steady(*volatile, *copy, memory, lane) ==> {
                &&& search.fault is None
                &&& recovery::selects(
                    retained(memory, lane, seen, lane.depth as nat),
                    recovery::found(search.frames@),
                )
                &&& recovery::found(search.frames@) == recovery::in_sequence(
                    retained(memory, lane, seen, lane.depth as nat),
                )
                &&& search.corrupt == damaged(memory, lane, seen, lane.depth as nat)
            },
{
    let search: Search = search_slots(lane, seen, volatile, copy);
    proof {
        assert forall|memory: Seq<u8>| #[trigger]
            steady(*volatile, *copy, memory, lane) implies {
            let list = retained(memory, lane, seen, lane.depth as nat);
            &&& search.fault is None
            &&& recovery::selects(list, recovery::found(search.frames@))
            &&& recovery::found(search.frames@) == recovery::in_sequence(list)
            &&& search.corrupt == damaged(memory, lane, seen, lane.depth as nat)
        } by {
            held_slots_are_searched(memory, lane, seen, lane.depth as nat);
            assert(answered(*volatile, *copy, held(memory), lane));
            recovery::selection_is_unique(
                retained(memory, lane, seen, lane.depth as nat),
                recovery::found(search.frames@),
            );
        }
    }
    search
}

/// What one walk over a lane came to.
pub struct Drain {
    /// The last sequence number accounted for.
    pub seen: u64,
    /// The sequence numbers passed over.
    pub lost: u64,
    /// The slots found damaged.
    pub corrupt: u64,
    /// Why the walk failed, if it did.
    pub fault: Option<Error>,
}

/// The messages from position `n` on.
pub open spec fn fresh(messages: Seq<Message>, n: nat) -> Seq<Found> {
    Seq::new(
        (messages.len() - n) as nat,
        |i: int| Found { sequence: messages[n + i].sequence, data: messages[n + i].data@ },
    )
}

/// What a walk may deliver past `seen`, whatever the reads returned: messages
/// that were read, in ascending order, up to the sequence that it reports; all
/// others up to there are counted as lost, and a safe lane loses none.
pub open spec fn accounts<C: Fn(usize, usize) -> Result<Vec<u8>, Error>>(
    copy: C,
    lane: Lane,
    safe: bool,
    seen: u64,
    list: Seq<Found>,
    now: u64,
    lost: nat,
) -> bool {
    &&& forall|i: int, j: int|
        0 <= i < j < list.len() ==> (#[trigger] list[i]).sequence < (#[trigger] list[j]).sequence
    &&& forall|i: int|
        0 <= i < list.len() ==> (#[trigger] list[i]).sequence > seen && was_read(
            copy,
            lane,
            list[i],
        )
    &&& now == if list.len() == 0 {
        seen
    } else {
        list.last().sequence
    }
    &&& lost == now - seen - list.len()
    &&& safe ==> lost == 0
    &&& safe ==> forall|i: int|
        0 <= i < list.len() ==> (#[trigger] list[i]).sequence == seen + 1 + i
}

/// The failure of a walk.
pub open spec fn lapped_error(origin: i32, lapped: Option<(u64, u64)>) -> Option<Error> {
    match lapped {
        None => None,
        Some((expected, found)) => Some(Error::Lapped { origin, expected, found }),
    }
}

/// Walks over a lane and appends what it delivers, given what the reads answer.
fn walk_slots<V, C>(
    origin: i32,
    lane: Lane,
    safe: bool,
    seen: u64,
    volatile: &V,
    copy: &C,
    messages: &mut Vec<Message>,
) -> (drain: Drain) where
    V: Fn(usize, usize) -> Result<Vec<u8>, Error>,
    C: Fn(usize, usize) -> Result<Vec<u8>, Error>,

    requires
        lane.wf(),
        reads_lengths(*volatile),
        reads_lengths(*copy),
    ensures
        final(messages)@.len() >= old(messages)@.len(),
        deliveries(final(messages)@) == deliveries(old(messages)@) + delivered_from(
            origin,
            fresh(final(messages)@, old(messages)@.len()),
        ),
        accounts(
            *copy,
            lane,
            safe,
            seen,
            fresh(final(messages)@, old(messages)@.len()),
            drain.seen,
            drain.lost as nat,
        ),
        drain.corrupt <= lane.depth + 1,
        drain.fault matches Some(error) ==> read_failed(*volatile, *copy, error) || (safe
            && says_lapped(error, origin, drain.seen)),
        seen < u64::MAX && unreadable(*volatile) ==> drain.fault is Some,
        forall|reads: Reads| #[trigger]
            answered(*volatile, *copy, reads, lane) ==> {
                let exact = surveyed(reads, origin, lane, safe, seen, lane.depth as nat);
                &&& fresh(final(messages)@, old(messages)@.len()) == exact.delivered
                &&& drain.seen == exact.seen
                &&& drain.lost == exact.lost
                &&& drain.corrupt == exact.corrupt
                &&& drain.fault == exact.fault
            },
{
    let ghost n = messages@.len();
    let ghost start = messages@;
    let mut now: u64 = seen;
    let mut read: usize = 0;
    assert(fresh(messages@, n) =~= Seq::<Found>::empty());
    assert(deliveries(messages@) =~= deliveries(start) + delivered_from(
        origin,
        fresh(messages@, n),
    ));
    proof {
        assert forall|reads: Reads| #[trigger]
            answered(*volatile, *copy, reads, lane) implies surveyed(
            reads,
            origin,
            lane,
            safe,
            seen,
            lane.depth as nat,
        ) == led_by(
            fresh(messages@, n),
            surveyed(reads, origin, lane, safe, now, (lane.depth - read) as nat),
        ) by {
            let exact = surveyed(reads, origin, lane, safe, seen, lane.depth as nat);
            assert(exact.delivered =~= fresh(messages@, n) + exact.delivered);
        }
    }
    while read < lane.depth
        invariant
            lane.wf(),
            reads_lengths(*volatile),
            reads_lengths(*copy),
            read <= lane.depth,
            n == start.len(),
            start == old(messages)@,
            messages@.len() == n + read,
            deliveries(messages@) == deliveries(start) + delivered_from(
                origin,
                fresh(messages@, n),
            ),
            now == seen + read,
            unreadable(*volatile) ==> read == 0,
            forall|i: int|
                0 <= i < read ==> (#[trigger] fresh(messages@, n)[i]).sequence == seen + 1 + i
                    && was_read(*copy, lane, fresh(messages@, n)[i]),
            forall|reads: Reads| #[trigger]
                answered(*volatile, *copy, reads, lane) ==> surveyed(
                    reads,
                    origin,
                    lane,
                    safe,
                    seen,
                    lane.depth as nat,
                ) == led_by(
                    fresh(messages@, n),
                    surveyed(reads, origin, lane, safe, now, (lane.depth - read) as nat),
                ),
        decreases lane.depth - read,
    {
        if now == u64::MAX {
            return Drain { seen: now, lost: 0, corrupt: 0, fault: None };
        }
        let expected: u64 = now + 1;
        let position: usize = lane.position(expected);
        let sequence: u64 = match probe_slot(lane, position, volatile) {
            Err(error) => {
                return Drain { seen: now, lost: 0, corrupt: 0, fault: Some(error) };
            },
            Ok(Probe::Vacant) => {
                return Drain { seen: now, lost: 0, corrupt: 0, fault: None };
            },
            Ok(Probe::Corrupt) => {
                return Drain { seen: now, lost: 0, corrupt: 1, fault: None };
            },
            Ok(Probe::Sequence(sequence)) => sequence,
        };
        if sequence < expected {
            return Drain { seen: now, lost: 0, corrupt: 0, fault: None };
        }
        if sequence > expected {
            if safe {
                return Drain {
                    seen: now,
                    lost: 0,
                    corrupt: 0,
                    fault: Some(Error::Lapped { origin, expected, found: sequence }),
                };
            }
            return catch_up(origin, lane, seen, now, volatile, copy, messages, Ghost(start));
        }
        let frame: Frame = match frame_slot(lane, position, copy) {
            Err(error) => {
                return Drain { seen: now, lost: 0, corrupt: 0, fault: Some(error) };
            },
            Ok(Snapshot::Vacant) => {
                return Drain { seen: now, lost: 0, corrupt: 0, fault: None };
            },
            Ok(Snapshot::Corrupt) => {
                return Drain { seen: now, lost: 0, corrupt: 1, fault: None };
            },
            Ok(Snapshot::Message(frame)) => frame,
        };
        if frame.sequence != expected {
            return Drain { seen: now, lost: 0, corrupt: 0, fault: None };
        }
        let ghost before = messages@;
        let ghost item = frame@;
        messages.push(Message { origin, sequence: expected, data: frame.data });
        proof {
            assert(fresh(messages@, n) =~= fresh(before, n).push(item));
            assert(deliveries(messages@) =~= deliveries(before).push(messages@.last()@));
            assert(delivered_from(origin, fresh(messages@, n)) =~= delivered_from(
                origin,
                fresh(before, n),
            ).push(messages@.last()@));
            assert(deliveries(messages@) =~= deliveries(start) + delivered_from(
                origin,
                fresh(messages@, n),
            ));
            assert forall|reads: Reads| #[trigger]
                answered(*volatile, *copy, reads, lane) implies surveyed(
                reads,
                origin,
                lane,
                safe,
                seen,
                lane.depth as nat,
            ) == led_by(
                fresh(messages@, n),
                surveyed(reads, origin, lane, safe, expected, (lane.depth - read - 1) as nat),
            ) by {
                let rest = surveyed(
                    reads,
                    origin,
                    lane,
                    safe,
                    expected,
                    (lane.depth - read - 1) as nat,
                );
                assert(surveyed(reads, origin, lane, safe, now, (lane.depth - read) as nat) == led_by(
                    seq![item],
                    rest,
                ));
                assert(fresh(before, n) + (seq![item] + rest.delivered) =~= fresh(messages@, n)
                    + rest.delivered);
            }
        }
        now = expected;
        read += 1;
    }
    Drain { seen: now, lost: 0, corrupt: 0, fault: None }
}

/// Walks over a lane and appends what it delivers.
pub fn drain<V, C>(
    origin: i32,
    lane: Lane,
    safe: bool,
    seen: u64,
    volatile: &V,
    copy: &C,
    messages: &mut Vec<Message>,
) -> (drain: Drain) where
    V: Fn(usize, usize) -> Result<Vec<u8>, Error>,
    C: Fn(usize, usize) -> Result<Vec<u8>, Error>,

    requires
        lane.wf(),
        reads_lengths(*volatile),
        reads_lengths(*copy),
    ensures
        final(messages)@.len() >= old(messages)@.len(),
        deliveries(final(messages)@) == deliveries(old(messages)@) + delivered_from(
            origin,
            fresh(final(messages)@, old(messages)@.len()),
        ),
        accounts(
            *copy,
            lane,
            safe,
            seen,
            fresh(final(messages)@, old(messages)@.len()),
            drain.seen,
            drain.lost as nat,
        ),
        drain.corrupt <= lane.depth + 1,
        drain.fault matches Some(error) ==> read_failed(*volatile, *copy, error) || (safe
            && says_lapped(error, origin, drain.seen)),
        seen < u64::MAX && unreadable(*volatile) ==> drain.fault is Some,
        forall|reads: Reads| #[trigger]
            answered(*volatile, *copy, reads, lane) ==> {
                let exact = surveyed(reads, origin, lane, safe, seen, lane.depth as nat);
                &&& fresh(final(messages)@, old(messages)@.len()) == exact.delivered
                &&& drain.seen == exact.seen
                &&& drain.lost == exact.lost
                &&& drain.corrupt == exact.corrupt
                &&& drain.fault == exact.fault
            },
        forall|memory: Seq<u8>| #[trigger]
            steady(*volatile, *copy, memory, lane) ==> {
                let exact = drained(memory, lane, safe, seen, lane.depth as nat);
                &&& fresh(final(messages)@, old(messages)@.len()) == exact.delivered
                &&& drain.seen == exact.seen
                &&& drain.lost == exact.lost
                &&& drain.corrupt == exact.corrupt
                &&& drain.fault == lapped_error(origin, exact.lapped)
            },
{
    let ghost n = messages@.len();
    let drain: Drain = walk_slots(origin, lane, safe, seen, volatile, copy, messages);
    proof {
        assert forall|memory: Seq<u8>| #[trigger]
            steady(*volatile, *copy, memory, lane) implies {
            let exact = drained(memory, lane, safe, seen, lane.depth as nat);
            &&& fresh(messages@, n) == exact.delivered
            &&& drain.seen == exact.seen
            &&& drain.lost == exact.lost
            &&& drain.corrupt == exact.corrupt
            &&& drain.fault == lapped_error(origin, exact.lapped)
        } by {
            held_lanes_are_drained(memory, origin, lane, safe, seen, lane.depth as nat);
            assert(answered(*volatile, *copy, held(memory), lane));
        }
    }
    drain
}

/// Delivers what a search past `now` finds, after a walk from `seen` to `now`.
fn catch_up<V, C>(
    origin: i32,
    lane: Lane,
    seen: u64,
    now: u64,
    volatile: &V,
    copy: &C,
    messages: &mut Vec<Message>,
    Ghost(start): Ghost<Seq<Message>>,
) -> (drain: Drain) where
    V: Fn(usize, usize) -> Result<Vec<u8>, Error>,
    C: Fn(usize, usize) -> Result<Vec<u8>, Error>,

    requires
        lane.wf(),
        reads_lengths(*volatile),
        reads_lengths(*copy),
        old(messages)@.len() == start.len() + (now - seen),
        seen <= now,
        deliveries(old(messages)@) == deliveries(start) + delivered_from(
            origin,
            fresh(old(messages)@, start.len()),
        ),
        forall|i: int|
            0 <= i < now - seen ==> (#[trigger] fresh(old(messages)@, start.len())[i]).sequence
                == seen + 1 + i && was_read(*copy, lane, fresh(old(messages)@, start.len())[i]),
    ensures
        final(messages)@.len() >= old(messages)@.len(),
        deliveries(final(messages)@) == deliveries(start) + delivered_from(
            origin,
            fresh(final(messages)@, start.len()),
        ),
        accounts(
            *copy,
            lane,
            false,
            seen,
            fresh(final(messages)@, start.len()),
            drain.seen,
            drain.lost as nat,
        ),
        drain.corrupt <= lane.depth,
        drain.fault matches Some(error) ==> read_failed(*volatile, *copy, error),
        forall|reads: Reads| #[trigger]
            answered(*volatile, *copy, reads, lane) ==> {
                let exact = caught_up(reads, lane, now);
                &&& fresh(final(messages)@, start.len()) == fresh(old(messages)@, start.len())
                    + exact.delivered
                &&& drain.seen == exact.seen
                &&& drain.lost == exact.lost
                &&& drain.corrupt == exact.corrupt
                &&& drain.fault == exact.fault
            },
{
    let ghost n = start.len();
    let ghost given = messages@;
    let search: Search = recover(lane, now, volatile, copy);
    let mut frames: Vec<Frame> = search.frames;
    let ghost list = frames@;
    let mut last: u64 = now;
    let mut lost: u64 = 0;
    let mut i: usize = 0;
    assert(fresh(given, n) + recovery::found(list).subrange(0, 0) =~= fresh(given, n));
    while i < frames.len()
        invariant
            i <= frames@.len(),
            frames@.len() == list.len(),
            n == start.len(),
            n <= given.len() <= messages@.len(),
            given.len() == n + (now - seen),
            seen <= now,
            forall|k: int| i <= k < list.len() ==> frames@[k] == list[k],
            forall|a: int, b: int|
                0 <= a < b < list.len() ==> (#[trigger] list[a]).sequence < (
                #[trigger] list[b]).sequence,
            forall|k: int| 0 <= k < list.len() ==> (#[trigger] list[k]).sequence > now,
            last == if i == 0 {
                now
            } else {
                list[i - 1].sequence
            },
            lost == last - now - i,
            fresh(messages@, n) == fresh(given, n) + recovery::found(list).subrange(0, i as int),
            deliveries(messages@) == deliveries(start) + delivered_from(
                origin,
                fresh(messages@, n),
            ),
        decreases frames@.len() - i,
    {
        let frame: Frame = take_frame(&mut frames, i);
        assert(frame == list[i as int]);
        assert(i > 0 ==> list[i - 1].sequence < list[i as int].sequence);
        let ghost before = messages@;
        lost += frame.sequence - (last + 1);
        last = frame.sequence;
        messages.push(Message { origin, sequence: frame.sequence, data: frame.data });
        i += 1;
        proof {
            assert(fresh(messages@, n) =~= fresh(before, n).push(list[i - 1]@));
            assert(fresh(messages@, n) =~= fresh(given, n) + recovery::found(list).subrange(
                0,
                i as int,
            ));
            assert(deliveries(messages@) =~= deliveries(before).push(messages@.last()@));
            assert(delivered_from(origin, fresh(messages@, n)) =~= delivered_from(
                origin,
                fresh(before, n),
            ).push(messages@.last()@));
            assert(deliveries(messages@) =~= deliveries(start) + delivered_from(
                origin,
                fresh(messages@, n),
            ));
        }
    }
    proof {
        assert forall|reads: Reads| #[trigger]
            answered(*volatile, *copy, reads, lane) && search.fault is None implies recovery::found(
            list,
        ) == recovery::in_sequence(searched(reads, lane, now, lane.depth as nat).found) by {
            recovery::selection_is_unique(
                searched(reads, lane, now, lane.depth as nat).found,
                recovery::found(list),
            );
        }
        let all = fresh(messages@, n);
        let early = fresh(given, n);
        assert(recovery::found(list).subrange(0, i as int) =~= recovery::found(list));
        assert forall|k: int| 0 <= k < all.len() implies (#[trigger] all[k]).sequence > seen
            && was_read(*copy, lane, all[k]) by {
            if k < early.len() {
                assert(all[k] == early[k]);
            } else {
                assert(all[k] == list[k - early.len()]@);
            }
        }
        assert forall|a: int, b: int| 0 <= a < b < all.len() implies (#[trigger] all[a]).sequence
            < (#[trigger] all[b]).sequence by {
            if a < early.len() {
                assert(all[a] == early[a]);
            } else {
                assert(all[a] == list[a - early.len()]@);
            }
            if b < early.len() {
                assert(all[b] == early[b]);
            } else {
                assert(all[b] == list[b - early.len()]@);
            }
        }
        if list.len() > 0 {
            assert(all.last() == list.last()@);
        } else if early.len() > 0 {
            assert(all.last() == early[early.len() - 1]);
        }
    }
    Drain { seen: last, lost, corrupt: search.corrupt, fault: search.fault }
}

/// What a walk does with the slot of the message that it expects. A read that fails ends
/// it with that error. A slot that is vacant, names an earlier message or changed under
/// the copy ends it with nothing. Damage ends it and is counted once. A later message
/// ends it with an error on a safe lane. The expected message is delivered, and the walk
/// goes on with the next.
pub proof fn walks_take_the_expected_slot(
    reads: Reads,
    origin: i32,
    lane: Lane,
    safe: bool,
    seen: u64,
    left: nat,
)
    requires
        left > 0,
        seen < u64::MAX,
    ensures
        ({
            let expected = (seen + 1) as u64;
            let position = lane.position_of(seen + 1);
            let look = probe_read(reads, lane, position);
            let copy = slot_read(reads, lane, position);
            let walk = surveyed(reads, origin, lane, safe, seen, left);
            let next = surveyed(reads, origin, lane, safe, expected, (left - 1) as nat);
            let still = walk.seen == seen && walk.delivered.len() == 0 && walk.lost == 0;
            let found = look->Ok_0->Sequence_0;
            let named = look is Ok && look->Ok_0 is Sequence;
            &&& look is Err ==> still && walk.corrupt == 0 && walk.fault == Some(look->Err_0)
            &&& look is Ok && look->Ok_0 is Vacant ==> still && walk.corrupt == 0
                && walk.fault is None
            &&& look is Ok && look->Ok_0 is Corrupt ==> still && walk.corrupt == 1
                && walk.fault is None
            &&& named && found < expected ==> still && walk.corrupt == 0 && walk.fault is None
            &&& named && found > expected && safe ==> still && walk.corrupt == 0 && walk.fault
                == Some(Error::Lapped { origin, expected, found })
            &&& named && found == expected && copy is Err ==> still && walk.corrupt == 0
                && walk.fault == Some(copy->Err_0)
            &&& named && found == expected && copy is Ok && copy->Ok_0 is Vacant ==> still
                && walk.corrupt == 0 && walk.fault is None
            &&& named && found == expected && copy is Ok && copy->Ok_0 is Corrupt ==> still
                && walk.corrupt == 1 && walk.fault is None
            &&& named && found == expected && copy is Ok && copy->Ok_0 is Message
                && copy->Ok_0->sequence != expected ==> still && walk.corrupt == 0
                && walk.fault is None
            &&& named && found == expected && copy is Ok && copy->Ok_0 is Message
                && copy->Ok_0->sequence == expected ==> {
                &&& walk.delivered.len() == next.delivered.len() + 1
                &&& walk.delivered[0] == (Found { sequence: expected, data: copy->Ok_0->data })
                &&& walk.delivered.skip(1) == next.delivered
                &&& walk.seen == next.seen
                &&& walk.lost == next.lost
                &&& walk.corrupt == next.corrupt
                &&& walk.fault == next.fault
            }
        }),
{
    let expected = (seen + 1) as u64;
    let walk = surveyed(reads, origin, lane, safe, seen, left);
    let next = surveyed(reads, origin, lane, safe, expected, (left - 1) as nat);
    if walk.delivered.len() == next.delivered.len() + 1 {
        let copy = slot_read(reads, lane, lane.position_of(seen + 1));
        assert((seq![Found { sequence: expected, data: copy->Ok_0->data }]
            + next.delivered).skip(1) =~= next.delivered);
    }
}

/// A walk that may read no more, or past which no sequence lies, comes to nothing.
pub proof fn walks_end(reads: Reads, origin: i32, lane: Lane, safe: bool, seen: u64, left: nat)
    requires
        left == 0 || seen == u64::MAX,
    ensures
        ({
            let walk = surveyed(reads, origin, lane, safe, seen, left);
            &&& walk.seen == seen
            &&& walk.delivered.len() == 0
            &&& walk.lost == 0
            &&& walk.corrupt == 0
            &&& walk.fault is None
        }),
{
}

/// Whether a slot, as the reads show it, holds a message past `seen`.
pub open spec fn survives(
    reads: Reads,
    lane: Lane,
    seen: u64,
    position: int,
    message: Found,
) -> bool {
    &&& probe_read(reads, lane, position) matches Ok(Probe::Sequence(named)) && named > seen
    &&& slot_read(reads, lane, position) == Ok::<Slot, Error>(
        Slot::Message { sequence: message.sequence, data: message.data },
    )
    &&& message.sequence > seen
}

/// What a search found stood in a slot.
proof fn found_where(reads: Reads, lane: Lane, seen: u64, n: nat, j: int) -> (q: int)
    requires
        0 <= j < searched(reads, lane, seen, n).found.len(),
    ensures
        0 <= q < n,
        survives(reads, lane, seen, q, searched(reads, lane, seen, n).found[j]),
    decreases n,
{
    let before = searched(reads, lane, seen, (n - 1) as nat);
    if j < before.found.len() {
        found_where(reads, lane, seen, (n - 1) as nat, j)
    } else {
        n - 1
    }
}

/// What survives is found, behind what survives in earlier slots alone.
proof fn survivor_is_found(
    reads: Reads,
    lane: Lane,
    seen: u64,
    n: nat,
    p: int,
    message: Found,
) -> (k: int)
    requires
        0 <= p < n,
        searched(reads, lane, seen, n).fault is None,
        survives(reads, lane, seen, p, message),
        forall|q: int, other: Found|
            0 <= q < p && #[trigger] survives(reads, lane, seen, q, other) ==> other.sequence
                != message.sequence,
    ensures
        0 <= k < searched(reads, lane, seen, n).found.len(),
        searched(reads, lane, seen, n).found[k] == message,
        forall|j: int|
            0 <= j < k ==> (#[trigger] searched(reads, lane, seen, n).found[j]).sequence
                != message.sequence,
    decreases n,
{
    let before = searched(reads, lane, seen, (n - 1) as nat);
    let after = searched(reads, lane, seen, n);
    if p < n - 1 {
        let k = survivor_is_found(reads, lane, seen, (n - 1) as nat, p, message);
        assert forall|j: int| 0 <= j < k implies (#[trigger] after.found[j]).sequence
            != message.sequence by {
            assert(after.found[j] == before.found[j]);
        }
        k
    } else {
        let k = before.found.len() as int;
        assert forall|j: int| 0 <= j < k implies (#[trigger] after.found[j]).sequence
            != message.sequence by {
            assert(after.found[j] == before.found[j]);
            let q = found_where(reads, lane, seen, (n - 1) as nat, j);
            assert(survives(reads, lane, seen, q, before.found[j]));
        }
        k
    }
}

/// A raw walk that was lapped delivers every message past `seen` that survives in a
/// slot, the first where a sequence stands twice.
pub proof fn lapped_walks_deliver_every_survivor(
    reads: Reads,
    origin: i32,
    lane: Lane,
    seen: u64,
    left: nat,
    position: int,
    message: Found,
)
    requires
        left > 0,
        seen < u64::MAX,
        probe_read(reads, lane, lane.position_of(seen + 1)) matches Ok(Probe::Sequence(found))
            && found > seen + 1,
        surveyed(reads, origin, lane, false, seen, left).fault is None,
        0 <= position < lane.depth,
        survives(reads, lane, seen, position, message),
        forall|q: int, other: Found|
            0 <= q < position && #[trigger] survives(reads, lane, seen, q, other)
                ==> other.sequence != message.sequence,
    ensures
        surveyed(reads, origin, lane, false, seen, left).delivered.contains(message),
{
    let search = searched(reads, lane, seen, lane.depth as nat);
    let k = survivor_is_found(reads, lane, seen, lane.depth as nat, position, message);
    recovery::no_sequence_is_left_behind(search.found, k);
}

/// A raw walk that was lapped delivers nothing but what stood in a slot, in ascending
/// order. It ends at the last that it delivers, and counts every sequence before it that
/// it does not deliver as lost.
pub proof fn lapped_walks_account_for_the_rest(
    reads: Reads,
    origin: i32,
    lane: Lane,
    seen: u64,
    left: nat,
    i: int,
    j: int,
) -> (position: int)
    requires
        left > 0,
        seen < u64::MAX,
        probe_read(reads, lane, lane.position_of(seen + 1)) matches Ok(Probe::Sequence(found))
            && found > seen + 1,
        0 <= i < surveyed(reads, origin, lane, false, seen, left).delivered.len(),
    ensures
        ({
            let walk = surveyed(reads, origin, lane, false, seen, left);
            &&& 0 <= position < lane.depth
            &&& survives(reads, lane, seen, position, walk.delivered[i])
            &&& i < j < walk.delivered.len() ==> walk.delivered[i].sequence
                < walk.delivered[j].sequence
            &&& walk.seen == walk.delivered.last().sequence
            &&& walk.lost + walk.delivered.len() == walk.seen - seen
            &&& walk.fault is None
        }),
{
    let search = searched(reads, lane, seen, lane.depth as nat);
    let walk = surveyed(reads, origin, lane, false, seen, left);
    recovery::nothing_is_made_up(search.found, i, j);
    let k = choose|k: int| 0 <= k < search.found.len() && search.found[k] == walk.delivered[i];
    let position = found_where(reads, lane, seen, lane.depth as nat, k);
    ascending_past(search.found, lane, reads, seen, walk.delivered.len());
    position
}

/// The sequences that a search chose are past `seen`, one apart or more.
proof fn ascending_past(list: Seq<Found>, lane: Lane, reads: Reads, seen: u64, n: nat)
    requires
        list == searched(reads, lane, seen, lane.depth as nat).found,
        0 < n <= recovery::in_sequence(list).len(),
    ensures
        recovery::in_sequence(list)[n - 1].sequence >= seen + n,
    decreases n,
{
    let chosen = recovery::in_sequence(list);
    recovery::nothing_is_made_up(list, n - 1, n as int);
    let k = choose|k: int| 0 <= k < list.len() && list[k] == chosen[n - 1];
    let q = found_where(reads, lane, seen, lane.depth as nat, k);
    if n > 1 {
        ascending_past(list, lane, reads, seen, (n - 1) as nat);
        recovery::nothing_is_made_up(list, n - 2, n - 1);
    }
}

/// A search counts every damaged slot once: one whose ends do not agree, and one that
/// names a message past `seen` and turns out corrupt. It counts no other.
pub proof fn searches_count_every_damaged_slot(reads: Reads, lane: Lane, seen: u64, n: nat)
    requires
        searched(reads, lane, seen, n + 1).fault is None,
    ensures
        searched(reads, lane, seen, 0).corrupt == 0,
        ({
            let look = probe_read(reads, lane, n as int);
            let damaged = look == Ok::<Probe, Error>(Probe::Corrupt) || ((look matches Ok(
                Probe::Sequence(named),
            ) && named > seen) && slot_read(reads, lane, n as int) == Ok::<Slot, Error>(
                Slot::Corrupt,
            ));
            searched(reads, lane, seen, n + 1).corrupt == searched(reads, lane, seen, n).corrupt
                + if damaged {
                1nat
            } else {
                0nat
            }
        }),
{
}

/// A search fails with the first read that fails: a look at a slot, or a copy of one that
/// names a message past `seen`. A lapped raw walk that searches in vain stays where it
/// is, with the damage that it counted so far.
pub proof fn searches_fail_with_the_first_failed_read(
    reads: Reads,
    lane: Lane,
    seen: u64,
    n: nat,
)
    ensures
        searched(reads, lane, seen, 0).fault is None,
        searched(reads, lane, seen, n).fault is Some ==> searched(reads, lane, seen, n + 1)
            == searched(reads, lane, seen, n),
        searched(reads, lane, seen, n).fault is None ==> {
            let look = probe_read(reads, lane, n as int);
            let copy = slot_read(reads, lane, n as int);
            let opened = look matches Ok(Probe::Sequence(named)) && named > seen;
            searched(reads, lane, seen, n + 1).fault == if look is Err {
                Some(look->Err_0)
            } else if opened && copy is Err {
                Some(copy->Err_0)
            } else {
                None::<Error>
            }
        },
{
}

/// A lapped raw walk whose search failed reports the failed read and stays where it is;
/// either way it reports the damage that the search counted.
pub proof fn lapped_walks_report_their_search(
    reads: Reads,
    origin: i32,
    lane: Lane,
    seen: u64,
    left: nat,
)
    requires
        left > 0,
        seen < u64::MAX,
        probe_read(reads, lane, lane.position_of(seen + 1)) matches Ok(Probe::Sequence(found))
            && found > seen + 1,
    ensures
        ({
            let walk = surveyed(reads, origin, lane, false, seen, left);
            let search = searched(reads, lane, seen, lane.depth as nat);
            &&& walk.fault == search.fault
            &&& walk.corrupt == search.corrupt
            &&& search.fault is Some ==> walk.seen == seen && walk.delivered.len() == 0
                && walk.lost == 0
            &&& walk.delivered.len() == 0 ==> walk.seen == seen && walk.lost == 0
        }),
{
}

/// What a look at a slot and a copy of it come to: the head is its first eight bytes, the
/// tail its last eight, and the copy all of it. The first read that fails decides.
pub proof fn slots_are_read_where_they_lie(reads: Reads, lane: Lane, position: int)
    ensures
        ({
            let start = lane.offset + position * lane.slot;
            let head = (reads.volatile)(start as usize, 8);
            let tail = (reads.volatile)((start + lane.slot - 8) as usize, 8);
            let image = (reads.copy)(start as usize, lane.slot);
            let look = probe_read(reads, lane, position);
            let copy = slot_read(reads, lane, position);
            &&& head is Err ==> look == Err::<Probe, Error>(head->Err_0)
            &&& head is Ok && tail is Err ==> look == Err::<Probe, Error>(tail->Err_0)
            &&& head is Ok && tail is Ok ==> look == Ok::<Probe, Error>(
                frame::probed(
                    spec_u64_from_le_bytes(head->Ok_0),
                    spec_u64_from_le_bytes(tail->Ok_0),
                ),
            )
            &&& image is Err ==> copy == Err::<Slot, Error>(image->Err_0)
            &&& image is Ok ==> copy == Ok::<Slot, Error>(
                frame::decoded(image->Ok_0, lane.capacity as nat),
            )
        }),
{
}

/// Messages are handed on as they were found, with the rank that they came from.
pub proof fn deliveries_name_their_origin(origin: i32, list: Seq<Found>, i: int)
    requires
        0 <= i < list.len(),
    ensures
        delivered_from(origin, list).len() == list.len(),
        delivered_from(origin, list)[i].origin == origin,
        delivered_from(origin, list)[i].sequence == list[i].sequence,
        delivered_from(origin, list)[i].data == list[i].data,
{
}

/// What messages consist of is what stands in them.
pub proof fn messages_consist_of_what_stands_in_them(messages: Seq<Message>, i: int)
    requires
        0 <= i < messages.len(),
    ensures
        deliveries(messages).len() == messages.len(),
        deliveries(messages)[i].origin == messages[i].origin,
        deliveries(messages)[i].sequence == messages[i].sequence,
        deliveries(messages)[i].data == messages[i].data@,
        fresh(messages, 0).len() == messages.len(),
        fresh(messages, 0)[i].sequence == messages[i].sequence,
        fresh(messages, 0)[i].data == messages[i].data@,
{
}

/// What a walk may deliver, whatever the reads returned: nothing that was not read, nothing
/// that was seen, nothing twice. Every sequence up to where it ended is delivered or
/// lost, and on a safe lane delivered.
pub proof fn walks_account_for_every_sequence<C: Fn(usize, usize) -> Result<Vec<u8>, Error>>(
    copy: C,
    lane: Lane,
    safe: bool,
    seen: u64,
    list: Seq<Found>,
    now: u64,
    lost: nat,
    i: int,
    j: int,
)
    requires
        accounts(copy, lane, safe, seen, list, now, lost),
        0 <= i < j <= list.len(),
    ensures
        was_read(copy, lane, list[i]),
        seen < list[i].sequence <= now,
        j < list.len() ==> list[i].sequence < list[j].sequence,
        list.len() + lost == now - seen,
        safe ==> lost == 0 && list[i].sequence == seen + 1 + i,
{
    if i < list.len() - 1 {
        assert(list[i].sequence < list[list.len() - 1].sequence);
    }
}

} // verus!
