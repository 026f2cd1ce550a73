use mpi_rma::config::{Plan, Proposal};
use mpi_rma::lane::LaneConfig;
use mpi_rma::ring::{Addition, AckStep, SendStep};
use mpi_rma::{Error, MemoryModel, Message, Ring};

/// Ranks that exchange by way of plain memory.
struct World {
    rings: Vec<Ring>,
    slots: Vec<Vec<u8>>,
    counters: Vec<Vec<u64>>,
}

/// What one send came to.
#[derive(Debug, PartialEq, Eq)]
enum Sent {
    Done(u64),
    Blocked,
}

fn propose(size: usize, rank: usize, lanes: &[LaneConfig], safe: bool) -> Proposal {
    let proposal = if safe {
        Ring::safe(false, size as i32, rank as i32, lanes)
    } else {
        Ring::raw(false, size as i32, rank as i32, lanes)
    };
    proposal.ok().unwrap()
}

/// What each rank comes to when rank `r` names `lanes[r]` and mode `safe[r]`.
fn plans(lanes: &[Vec<LaneConfig>], safe: &[bool]) -> Vec<Result<Plan, Error>> {
    let size = lanes.len();
    let proposals: Vec<Proposal> = (0..size)
        .map(|r| propose(size, r, &lanes[r], safe[r]))
        .collect();
    let counts: Vec<u64> = proposals.iter().map(Proposal::count).collect();
    let rows: Vec<Result<Vec<u64>, Error>> = proposals
        .iter()
        .map(|proposal| proposal.agree_on_count(&counts))
        .collect();
    if let Some(Err(error)) = rows.iter().find(|row| row.is_err()) {
        return rows.iter().map(|_| Err(*error)).collect();
    }
    let rows: Vec<Vec<u64>> = rows.into_iter().map(|row| row.ok().unwrap()).collect();
    let all = rows.concat();
    proposals
        .into_iter()
        .zip(rows)
        .map(|(proposal, row)| {
            proposal.agree_on_lanes(&row, &all)?;
            proposal.plan()
        })
        .collect()
}

fn world(size: usize, lanes: &[LaneConfig], safe: bool) -> World {
    let plans: Vec<Plan> = plans(&vec![lanes.to_vec(); size], &vec![safe; size])
        .into_iter()
        .map(|plan| plan.ok().unwrap())
        .collect();
    let slots = plans.iter().map(|plan| vec![0; plan.slot_bytes()]).collect();
    let counters = plans
        .iter()
        .map(|plan| vec![0; if safe { plan.counters() } else { 0 }])
        .collect();
    let models = vec![1; size];
    let rings = plans
        .into_iter()
        .map(|plan| plan.finish(&models).ok().unwrap())
        .collect();
    World {
        rings,
        slots,
        counters,
    }
}

impl World {
    /// Sends, and gives up where the sender would have to wait.
    fn try_send(&mut self, from: usize, to: i32, data: &[u8]) -> Result<Sent, Error> {
        let mut step = self.rings[from].send(to, data)?;
        loop {
            match step {
                SendStep::ReadCounter { sending, .. } if sending.waiting => {
                    return Ok(Sent::Blocked);
                }
                SendStep::ReadCounter { sending, index } => {
                    let value = self.counters[from][index];
                    step = self.rings[from].acknowledged(sending, data, value)?;
                }
                SendStep::Put(put) => {
                    let end = put.displacement + put.image.len();
                    self.slots[to as usize][put.displacement..end].copy_from_slice(&put.image);
                    return self.rings[from].complete(put, Ok(())).map(Sent::Done);
                }
            }
        }
    }

    fn send(&mut self, from: usize, to: i32, data: &[u8]) -> Result<u64, Error> {
        match self.try_send(from, to, data)? {
            Sent::Done(sequence) => Ok(sequence),
            Sent::Blocked => panic!("the sender would have to wait"),
        }
    }

    fn poll(&mut self, rank: usize) -> Result<Vec<Message>, Error> {
        let memory = &self.slots[rank];
        let read = |at: usize, len: usize| {
            memory
                .get(at..at + len)
                .map(|bytes| bytes.to_vec())
                .ok_or(Error::Range {
                    start: at,
                    len,
                    window: memory.len(),
                })
        };
        self.rings[rank].poll(read, read)
    }

    fn ack(&mut self, rank: usize, origin: i32, sequence: u64) -> Result<(), Error> {
        match self.rings[rank].ack(origin, sequence)? {
            AckStep::Done => Ok(()),
            AckStep::FetchAdd(addition) => {
                let counter = &mut self.counters[origin as usize][addition.index];
                let previous = *counter;
                *counter += addition.delta;
                self.rings[rank].added(addition, previous)
            }
        }
    }
}

fn pair(depth: usize, capacity: usize) -> Vec<LaneConfig> {
    vec![(0, 1, depth, capacity), (1, 0, depth, capacity)]
}

fn oneway(depth: usize, capacity: usize) -> Vec<LaneConfig> {
    vec![(0, 1, depth, capacity)]
}

fn message(origin: i32, sequence: u64, data: &[u8]) -> Message {
    Message {
        origin,
        sequence,
        data: data.to_vec(),
    }
}

#[test]
fn safe_rings_deliver_in_order() {
    let mut world = world(2, &pair(4, 8), true);
    for rank in 0..2 {
        let next = 1 - rank as i32;
        assert!(world.rings[rank].is_safe());
        assert_eq!(world.rings[rank].depth(next), Some(4));
        assert_eq!(world.rings[rank].capacity(next), Some(8));
        assert_eq!(
            world.send(rank, next, &[0; 9]),
            Err(Error::Payload {
                len: 9,
                capacity: 8
            })
        );
        assert_eq!(
            world.ack(rank, next, 1),
            Err(Error::Ack {
                origin: next,
                sequence: 1,
                received: 0
            })
        );
        for s in 1..=3u8 {
            assert_eq!(world.send(rank, next, &[rank as u8, s]), Ok(u64::from(s)));
        }
    }
    for rank in 0..2 {
        let prev = 1 - rank as i32;
        let expected: Vec<Message> = (1..=3)
            .map(|s| message(prev, s, &[prev as u8, s as u8]))
            .collect();
        assert_eq!(world.poll(rank), Ok(expected));
        assert_eq!(world.poll(rank), Ok(vec![]));
        assert_eq!(world.rings[rank].lost(), 0);
        assert_eq!(world.rings[rank].corrupt(), 0);
        assert_eq!(world.rings[rank].max_lag(), 3);
        assert_eq!(
            world.ack(rank, prev, 4),
            Err(Error::Ack {
                origin: prev,
                sequence: 4,
                received: 3
            })
        );
        assert_eq!(world.ack(rank, prev, 3), Ok(()));
        assert_eq!(world.ack(rank, prev, 3), Ok(()));
        assert_eq!(world.ack(rank, prev, 2), Ok(()));
    }
    assert_eq!(world.counters, vec![vec![3], vec![3]]);
}

#[test]
fn a_safe_sender_waits_for_a_free_slot() {
    let mut world = world(2, &oneway(2, 8), true);
    assert_eq!(world.send(0, 1, &[1]), Ok(1));
    assert_eq!(world.send(0, 1, &[2]), Ok(2));
    assert_eq!(world.rings[0].waits(), 0);

    let step = world.rings[0].send(1, &[3]).unwrap();
    let SendStep::ReadCounter { sending, index } = step else {
        panic!("no slot is free")
    };
    assert!(!sending.waiting);
    assert_eq!(index, 0);
    let SendStep::ReadCounter { sending, .. } =
        world.rings[0].acknowledged(sending, &[3], 0).unwrap()
    else {
        panic!("no slot is free")
    };
    assert!(sending.waiting);
    assert_eq!(world.rings[0].waits(), 1);
    // A wait is counted once, however often the counter is read.
    let SendStep::ReadCounter { sending, .. } =
        world.rings[0].acknowledged(sending, &[3], 0).unwrap()
    else {
        panic!("no slot is free")
    };
    assert_eq!(world.rings[0].waits(), 1);

    let messages = world.poll(1).unwrap();
    assert_eq!(messages, vec![message(0, 1, &[1]), message(0, 2, &[2])]);
    assert_eq!(
        world.ack(1, 0, 3),
        Err(Error::Ack {
            origin: 0,
            sequence: 3,
            received: 2
        })
    );
    assert_eq!(world.ack(1, 0, 2), Ok(()));
    assert_eq!(world.ack(1, 0, 2), Ok(()));

    let value = world.counters[0][index];
    let SendStep::Put(put) = world.rings[0].acknowledged(sending, &[3], value).unwrap() else {
        panic!("both slots are free")
    };
    assert!(put.waited);
    assert_eq!(put.displacement, 0);
    world.rings[0].record_wait(1500);
    let end = put.displacement + put.image.len();
    world.slots[1][put.displacement..end].copy_from_slice(&put.image);
    assert_eq!(world.rings[0].complete(put, Ok(())), Ok(3));
    assert_eq!(world.rings[0].wait_ns(), 1500);

    assert_eq!(world.poll(1), Ok(vec![message(0, 3, &[3])]));
    assert_eq!(world.ack(1, 0, 3), Ok(()));
}

#[test]
fn a_refresh_is_no_wait() {
    let mut world = world(2, &oneway(1, 4), true);
    for s in 1..=5u8 {
        assert_eq!(world.send(0, 1, &[s]), Ok(u64::from(s)));
        assert_eq!(world.poll(1), Ok(vec![message(0, u64::from(s), &[s])]));
        assert_eq!(world.ack(1, 0, u64::from(s)), Ok(()));
    }
    assert_eq!(world.rings[0].waits(), 0);
    assert_eq!(world.send(0, 1, &[6]), Ok(6));
    assert_eq!(world.try_send(0, 1, &[7]), Ok(Sent::Blocked));
    assert_eq!(world.rings[0].waits(), 1);
}

#[test]
fn the_last_free_slot_is_used() {
    // The previous occupant of the slot of message `s` is `s - depth`.
    let mut world = world(2, &oneway(3, 1), true);
    for s in 1..=3u8 {
        world.send(0, 1, &[s]).unwrap();
    }
    assert_eq!(world.try_send(0, 1, &[4]), Ok(Sent::Blocked));
    assert_eq!(world.poll(1).unwrap().len(), 3);
    world.ack(1, 0, 1).unwrap();
    assert_eq!(world.send(0, 1, &[4]), Ok(4));
    assert_eq!(world.try_send(0, 1, &[5]), Ok(Sent::Blocked));
    world.ack(1, 0, 3).unwrap();
    assert_eq!(world.send(0, 1, &[5]), Ok(5));
    assert_eq!(world.send(0, 1, &[6]), Ok(6));
    assert_eq!(
        world.poll(1),
        Ok(vec![
            message(0, 4, &[4]),
            message(0, 5, &[5]),
            message(0, 6, &[6])
        ])
    );
}

#[test]
fn a_lane_leads_one_way() {
    let mut world = world(2, &oneway(2, 8), true);
    assert_eq!(world.send(0, 1, &[7]), Ok(1));
    assert_eq!(world.poll(1), Ok(vec![message(0, 1, &[7])]));
    assert_eq!(world.ack(1, 0, 1), Ok(()));
    assert_eq!(world.poll(0), Ok(vec![]));
    assert_eq!(world.rings[1].depth(0), None);
    assert_eq!(world.rings[1].capacity(0), None);
    assert_eq!(world.rings[0].depth(-1), None);
    assert_eq!(world.rings[0].depth(2), None);
    assert_eq!(
        world.send(1, 0, &[1]),
        Err(Error::Ring("directed lane is not configured"))
    );
    assert_eq!(
        world.ack(0, 1, 0),
        Err(Error::Ring("directed lane is not configured"))
    );
    assert_eq!(world.send(0, -1, &[1]), Err(Error::Rank(-1)));
    assert_eq!(world.send(0, 2, &[1]), Err(Error::Rank(2)));
    assert_eq!(world.ack(1, 2, 0), Err(Error::Rank(2)));
}

#[test]
fn raw_rings_overwrite_and_count_the_loss() {
    let mut world = world(2, &pair(2, 8), false);
    for rank in 0..2 {
        let next = 1 - rank as i32;
        assert!(!world.rings[rank].is_safe());
        for s in 1..=3u8 {
            assert_eq!(world.send(rank, next, &[rank as u8, s]), Ok(u64::from(s)));
        }
    }
    for rank in 0..2 {
        let prev = 1 - rank as i32;
        assert_eq!(
            world.poll(rank),
            Ok(vec![
                message(prev, 2, &[prev as u8, 2]),
                message(prev, 3, &[prev as u8, 3])
            ])
        );
        assert_eq!(world.rings[rank].lost(), 1);
        assert_eq!(world.rings[rank].max_lag(), 3);
        // Raw acknowledgements come to nothing.
        assert_eq!(world.ack(rank, prev, u64::MAX), Ok(()));
        assert_eq!(world.ack(rank, 7, 1), Err(Error::Rank(7)));
    }
}

#[test]
fn a_lapped_raw_receiver_is_given_the_last_messages() {
    let mut world = world(2, &oneway(4, 2), false);
    for s in 1..=2u8 {
        world.send(0, 1, &[s]).unwrap();
    }
    assert_eq!(world.poll(1).unwrap().len(), 2);
    for s in 3..=11u8 {
        world.send(0, 1, &[s]).unwrap();
    }
    let expected: Vec<Message> = (8..=11u8)
        .map(|s| message(0, u64::from(s), &[s]))
        .collect();
    assert_eq!(world.poll(1), Ok(expected));
    assert_eq!(world.rings[1].lost(), 5);
    assert_eq!(world.rings[1].max_lag(), 9);
    assert_eq!(world.poll(1), Ok(vec![]));
    assert_eq!(world.send(0, 1, &[12]), Ok(12));
    assert_eq!(world.poll(1), Ok(vec![message(0, 12, &[12])]));
    assert_eq!(world.rings[1].lost(), 5);
}

#[test]
fn lanes_into_one_rank_share_its_window() {
    let lanes = vec![(0, 2, 2, 8), (1, 2, 2, 8), (2, 0, 2, 8), (2, 1, 2, 8)];
    for safe in [true, false] {
        let mut world = world(3, &lanes, safe);
        assert_eq!(world.slots[2].len(), 2 * 2 * (28 + 8));
        assert_eq!(world.slots[0].len(), 2 * (28 + 8));
        if safe {
            assert_eq!(world.counters[2].len(), 2);
            assert_eq!(world.counters[0].len(), 1);
        }
        for rank in 0..2 {
            world.send(rank, 2, &[rank as u8, 1]).unwrap();
        }
        assert_eq!(
            world.poll(2),
            Ok(vec![message(0, 1, &[0, 1]), message(1, 1, &[1, 1])])
        );
        world.ack(2, 0, 1).unwrap();
        world.ack(2, 1, 1).unwrap();
        world.send(2, 0, &[2, 1]).unwrap();
        world.send(2, 1, &[2, 1]).unwrap();
        for rank in 0..2 {
            assert_eq!(world.poll(rank), Ok(vec![message(2, 1, &[2, 1])]));
            world.ack(rank, 2, 1).unwrap();
        }
        if safe {
            assert_eq!(world.counters, vec![vec![1], vec![1], vec![1, 1]]);
        }
    }
}

#[test]
fn lanes_may_differ_in_depth_and_capacity() {
    let lanes = vec![(0, 1, 8, 64 * 1024), (2, 1, 32, 1024)];
    let mut world = world(3, &lanes, true);
    assert_eq!(
        world.slots[1].len(),
        8 * (28 + 64 * 1024) + 32 * (28 + 1024)
    );
    assert_eq!(world.slots[0].len(), 0);
    assert_eq!(world.counters, vec![vec![0], vec![], vec![0]]);
    let long = vec![0xab; 64 * 1024];
    assert_eq!(world.send(0, 1, &long), Ok(1));
    assert_eq!(world.send(2, 1, b"short"), Ok(1));
    assert_eq!(
        world.poll(1),
        Ok(vec![message(0, 1, &long), message(2, 1, b"short")])
    );
    assert_eq!(
        world.send(2, 1, &long),
        Err(Error::Payload {
            len: 65536,
            capacity: 1024
        })
    );
}

#[test]
fn a_damaged_slot_is_tried_again() {
    let mut world = world(2, &oneway(2, 4), true);
    world.send(0, 1, b"abcd").unwrap();
    world.slots[1][21] ^= 1;
    assert_eq!(world.poll(1), Ok(vec![]));
    assert_eq!(world.rings[1].corrupt(), 1);
    assert_eq!(world.poll(1), Ok(vec![]));
    assert_eq!(world.rings[1].corrupt(), 2);
    world.slots[1][21] ^= 1;
    assert_eq!(world.poll(1), Ok(vec![message(0, 1, b"abcd")]));
    assert_eq!(world.rings[1].corrupt(), 2);
    // A torn guard is found by the first look.
    world.send(0, 1, b"ef").unwrap();
    world.slots[1][63] ^= 1;
    assert_eq!(world.poll(1), Ok(vec![]));
    assert_eq!(world.rings[1].corrupt(), 3);
}

#[test]
fn an_overwritten_safe_lane_is_refused() {
    let mut safe = world(2, &oneway(2, 4), true);
    let mut raw = world(2, &oneway(2, 4), false);
    for s in 1..=3u8 {
        raw.send(0, 1, &[s]).unwrap();
    }
    safe.slots[1] = raw.slots[1].clone();
    let lapped = Error::Lapped {
        origin: 0,
        expected: 1,
        found: 3,
    };
    assert_eq!(safe.poll(1), Err(lapped));
    assert_eq!(safe.rings[1].lost(), 0);
    assert_eq!(safe.rings[1].max_lag(), 0);
}

#[test]
fn a_search_skips_what_is_damaged_or_repeated() {
    let mut world = world(2, &oneway(4, 1), false);
    for s in 1..=8u8 {
        world.send(0, 1, &[s]).unwrap();
    }
    // The slot of message 7 is damaged, that of 8 holds a copy of 6.
    world.slots[1][2 * 29 + 20] ^= 1;
    let six = world.slots[1][29..2 * 29].to_vec();
    world.slots[1][3 * 29..].copy_from_slice(&six);
    assert_eq!(
        world.poll(1),
        Ok(vec![message(0, 5, &[5]), message(0, 6, &[6])])
    );
    assert_eq!(world.rings[1].lost(), 4);
    assert_eq!(world.rings[1].corrupt(), 1);
}

#[test]
fn failed_reads_are_reported() {
    let mut world = world(2, &oneway(2, 4), true);
    let failing = |_: usize, _: usize| Err(Error::Mpi(9));
    assert_eq!(world.rings[1].poll(failing, failing), Err(Error::Mpi(9)));
    world.send(0, 1, &[1]).unwrap();
    let memory = world.slots[1].clone();
    let read = |at: usize, len: usize| Ok(memory[at..at + len].to_vec());
    assert_eq!(world.rings[1].poll(read, failing), Err(Error::Mpi(9)));
    assert_eq!(world.poll(1), Ok(vec![message(0, 1, &[1])]));
}

#[test]
fn a_failed_poll_accounts_for_what_it_walked_over() {
    // Lanes into rank 2 from 0 and 1, one slot of 29 bytes for each of 4 messages.
    let mut world = world(3, &[(0, 2, 4, 1), (1, 2, 4, 1)], false);
    for s in 1..=6u8 {
        world.send(0, 2, &[s]).unwrap();
    }
    for s in 1..=3u8 {
        world.send(1, 2, &[s]).unwrap();
    }
    let memory = world.slots[2].clone();
    let read = |at: usize, len: usize| Ok(memory[at..at + len].to_vec());
    // The third slot of the second lane cannot be read.
    let failing = |at: usize, len: usize| {
        if at == 4 * 29 + 2 * 29 {
            Err(Error::Mpi(3))
        } else {
            read(at, len)
        }
    };
    assert_eq!(world.rings[2].poll(read, failing), Err(Error::Mpi(3)));
    assert_eq!(world.rings[2].lost(), 2);
    assert_eq!(world.rings[2].max_lag(), 6);
    assert_eq!(world.rings[2].corrupt(), 0);
    // What was walked over is not delivered again, the rest is.
    assert_eq!(world.poll(2), Ok(vec![message(1, 3, &[3])]));
}

#[test]
fn a_failed_search_delivers_nothing_of_its_lane() {
    let mut world = world(2, &oneway(4, 1), false);
    for s in 1..=6u8 {
        world.send(0, 1, &[s]).unwrap();
    }
    // The first slot is damaged, the third cannot be read.
    world.slots[1][20] ^= 1;
    let memory = world.slots[1].clone();
    let read = |at: usize, len: usize| Ok(memory[at..at + len].to_vec());
    let failing = |at: usize, len: usize| {
        if at == 2 * 29 {
            Err(Error::Mpi(4))
        } else {
            read(at, len)
        }
    };
    // Message 5 stands where message 1 is expected.
    assert_eq!(world.rings[1].poll(failing, read), Err(Error::Mpi(4)));
    assert_eq!(world.rings[1].corrupt(), 1);
    assert_eq!(world.rings[1].lost(), 0);
    assert_eq!(world.rings[1].poll(read, failing), Err(Error::Mpi(4)));
    assert_eq!(world.rings[1].corrupt(), 2);
    assert_eq!(world.rings[1].max_lag(), 0);
    let expected: Vec<Message> = [3, 4, 6u8]
        .iter()
        .map(|s| message(0, u64::from(*s), &[*s]))
        .collect();
    assert_eq!(world.poll(1), Ok(expected));
    assert_eq!(world.rings[1].lost(), 3);
}

#[test]
fn lanes_are_found_before_anything_is_sent() {
    let world = world(2, &oneway(2, 4), true);
    let ring = &world.rings[0];
    let lane = ring.find_lane(1, 4).unwrap();
    assert_eq!((lane.depth, lane.capacity, lane.slot), (2, 4, 32));
    assert_eq!(ring.find_lane(-1, 9), Err(Error::Rank(-1)));
    assert_eq!(
        ring.find_lane(0, 9),
        Err(Error::Ring("directed lane is not configured"))
    );
    assert_eq!(
        ring.find_lane(1, 5),
        Err(Error::Payload {
            len: 5,
            capacity: 4
        })
    );
}

#[test]
fn a_failed_put_is_tried_under_the_same_sequence() {
    let mut world = world(2, &oneway(2, 4), true);
    let SendStep::Put(put) = world.rings[0].send(1, b"ab").unwrap() else {
        panic!("a slot is free")
    };
    assert_eq!(put.sequence, 1);
    assert!(!put.waited);
    assert_eq!(
        world.rings[0].complete(put, Err(Error::Mpi(5))),
        Err(Error::Mpi(5))
    );
    assert_eq!(world.send(0, 1, b"cd"), Ok(1));
    assert_eq!(world.poll(1), Ok(vec![message(0, 1, b"cd")]));
}

#[test]
fn counters_that_cannot_be_are_refused() {
    let mut world = world(2, &oneway(1, 4), true);
    world.send(0, 1, &[1]).unwrap();
    world.poll(1).unwrap();
    world.ack(1, 0, 1).unwrap();
    world.send(0, 1, &[2]).unwrap();
    let SendStep::ReadCounter { sending, .. } = world.rings[0].send(1, &[3]).unwrap() else {
        panic!("no slot is free")
    };
    assert_eq!(
        world.rings[0].acknowledged(sending, &[3], 0),
        Err(Error::Ring("acknowledgement counter regressed"))
    );
    assert_eq!(
        world.rings[0].acknowledged(sending, &[3], 3),
        Err(Error::Ring("acknowledgement exceeds sent sequence"))
    );
    assert!(matches!(
        world.rings[0].acknowledged(sending, &[3], 2),
        Ok(SendStep::Put(_))
    ));
}

#[test]
fn a_counter_that_diverged_is_refused() {
    let mut world = world(2, &oneway(2, 4), true);
    world.send(0, 1, &[1]).unwrap();
    world.poll(1).unwrap();
    let step = world.rings[1].ack(0, 1).unwrap();
    let addition = Addition {
        origin: 0,
        index: 0,
        delta: 1,
        sequence: 1,
    };
    assert_eq!(step, AckStep::FetchAdd(addition));
    assert_eq!(
        world.rings[1].added(addition, 5),
        Err(Error::Ring("acknowledgement counter diverged"))
    );
    assert_eq!(world.rings[1].ack(0, 1), Ok(AckStep::FetchAdd(addition)));
    assert_eq!(world.rings[1].added(addition, 0), Ok(()));
    assert_eq!(world.rings[1].ack(0, 1), Ok(AckStep::Done));
}

#[test]
fn waits_are_summed_and_capped() {
    let mut world = world(2, &oneway(1, 1), true);
    world.rings[0].record_wait(7);
    world.rings[0].record_wait(8);
    assert_eq!(world.rings[0].wait_ns(), 15);
    world.rings[0].record_wait(u128::MAX);
    // The sum wraps around.
    assert_eq!(world.rings[0].wait_ns(), 14);
}

#[test]
fn the_first_failure_of_closing_is_reported() {
    let made = || world(2, &oneway(1, 1), true).rings.remove(0);
    assert_eq!(made().close(Ok(()), Some(Ok(()))), Ok(()));
    assert_eq!(made().close(Ok(()), None), Ok(()));
    assert_eq!(
        made().close(Err(Error::Mpi(1)), Some(Err(Error::Mpi(2)))),
        Err(Error::Mpi(1))
    );
    assert_eq!(
        made().close(Ok(()), Some(Err(Error::Mpi(2)))),
        Err(Error::Mpi(2))
    );
}

#[test]
fn configurations_must_agree() {
    let differs = Error::Ring("configuration differs between ranks");
    // Depths differ.
    for plan in plans(&[pair(1, 8), pair(2, 8)], &[true, true]) {
        assert_eq!(plan.err(), Some(differs));
    }
    // Numbers of lanes differ.
    for plan in plans(&[pair(1, 8), oneway(1, 8)], &[true, true]) {
        assert_eq!(plan.err(), Some(differs));
    }
    // Modes differ.
    for plan in plans(&[pair(1, 8), pair(1, 8)], &[true, false]) {
        assert_eq!(plan.err(), Some(differs));
    }
    // The order of naming does not matter.
    let mut turned = pair(1, 8);
    turned.reverse();
    for plan in plans(&[pair(1, 8), turned], &[true, true]) {
        assert!(plan.is_ok());
    }
}

fn refusal(size: usize, lanes: &[LaneConfig]) -> Option<Error> {
    propose(size, 0, lanes, true).plan().err()
}

#[test]
fn lanes_that_cannot_be_are_refused() {
    assert_eq!(
        refusal(2, &pair(0, 8)),
        Some(Error::Ring("depth must be positive"))
    );
    assert_eq!(
        refusal(2, &pair(8, 0)),
        Some(Error::Ring("capacity must be positive"))
    );
    assert_eq!(
        refusal(2, &[(1, 1, 8, 8)]),
        Some(Error::Ring("self lanes are not transport"))
    );
    for lane in [(0, 2, 1, 1), (2, 0, 1, 1), (-1, 0, 1, 1), (0, -1, 1, 1)] {
        assert_eq!(
            refusal(2, &[lane]),
            Some(Error::Ring("lane rank is outside the communicator"))
        );
    }
    assert_eq!(
        refusal(2, &[(0, 1, 1, 1), (1, 0, 2, 2), (0, 1, 3, 3)]),
        Some(Error::Ring("a lane is configured twice"))
    );
    // A repetition is reported before anything else.
    assert_eq!(
        refusal(2, &[(0, 1, 0, 1), (0, 1, 0, 1)]),
        Some(Error::Ring("a lane is configured twice"))
    );
    assert_eq!(refusal(2, &[]), None);
}

#[test]
fn slots_must_fit() {
    assert_eq!(
        refusal(2, &[(0, 1, 1, usize::MAX)]),
        Some(Error::SizeOverflow)
    );
    assert_eq!(
        refusal(2, &[(0, 1, 1, i32::MAX as usize - 27)]),
        Some(Error::CountOverflow)
    );
    assert_eq!(refusal(2, &[(0, 1, 1, i32::MAX as usize - 28)]), None);
    assert_eq!(
        refusal(2, &[(0, 1, usize::MAX, 4)]),
        Some(Error::SizeOverflow)
    );
    // Each fits alone, not both.
    let most = usize::MAX / 32;
    assert_eq!(refusal(3, &[(0, 2, most, 4)]), None);
    assert_eq!(
        refusal(3, &[(0, 2, most, 4), (1, 2, most, 4)]),
        Some(Error::SizeOverflow)
    );
}

#[test]
fn lanes_are_packed_in_order() {
    // Named out of order.
    let lanes = [(2, 1, 3, 4), (0, 2, 1, 1), (0, 1, 2, 8), (2, 0, 1, 1)];
    let plan = propose(3, 1, &lanes, true).plan().ok().unwrap();
    assert_eq!(plan.incoming(), &vec![0, 2]);
    let first = plan.lane_from(0).unwrap();
    assert_eq!(
        (first.offset, first.depth, first.capacity, first.slot, first.ack),
        (0, 2, 8, 36, 0)
    );
    let second = plan.lane_from(2).unwrap();
    assert_eq!(
        (second.offset, second.depth, second.capacity, second.slot, second.ack),
        (72, 3, 4, 32, 1)
    );
    assert_eq!(plan.slot_bytes(), 72 + 96);
    assert_eq!(plan.counters(), 0);
    assert_eq!(plan.lane_to(0), None);

    let source = propose(3, 2, &lanes, true).plan().ok().unwrap();
    assert_eq!(source.lane_to(1), Some(second));
    assert_eq!(source.counters(), 2);
    assert_eq!(source.slot_bytes(), 29);
}

#[test]
fn communicators_that_do_not_fit_are_refused() {
    assert_eq!(
        Ring::safe(true, 2, 0, &[]).err(),
        Some(Error::Intercommunicator)
    );
    assert_eq!(Ring::raw(false, -1, 0, &[]).err(), Some(Error::SizeOverflow));
    assert_eq!(Ring::raw(false, 2, -1, &[]).err(), Some(Error::SizeOverflow));
}

#[test]
fn rings_need_unified_memory() {
    assert_eq!(Plan::unified(MemoryModel::Unified, None), 1);
    assert_eq!(
        Plan::unified(MemoryModel::Unified, Some(MemoryModel::Unified)),
        1
    );
    assert_eq!(
        Plan::unified(MemoryModel::Unified, Some(MemoryModel::Separate)),
        0
    );
    assert_eq!(
        Plan::unified(MemoryModel::Separate, Some(MemoryModel::Unified)),
        0
    );
    let plan = propose(2, 0, &oneway(1, 1), true).plan().ok().unwrap();
    assert!(matches!(
        plan.finish(&[1, 0]),
        Err(Error::Window("local ring access requires unified memory"))
    ));
}
