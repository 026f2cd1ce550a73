//! Constructing a ring.
//!
//! Every rank names the same lanes. The lists are gathered and compared before
//! anything is allocated; then the lanes are checked and laid out, and every rank
//! derives the same layout from the same list.

use crate::error::Error;
use crate::frame::OVERHEAD;
use crate::lane;
use crate::lane::{put_in_order, Lane, LaneConfig};
use crate::window::MemoryModel;
use vstd::prelude::*;

verus! {

/// The bytes of the lane's slots.
pub open spec fn lane_bytes(lane: LaneConfig) -> nat {
    lane.2 as nat * (lane.3 + OVERHEAD) as nat
}

/// The bytes that the first `n` lanes take in the window of `destination`.
pub open spec fn bytes_before(lanes: Seq<LaneConfig>, n: nat, destination: int) -> nat
    decreases n,
{
    if n == 0 {
        0
    } else {
        let before = bytes_before(lanes, (n - 1) as nat, destination);
        if lanes[n - 1].1 == destination {
            before + lane_bytes(lanes[n - 1])
        } else {
            before
        }
    }
}

/// The counters that the first `n` lanes take in the window of `source`.
pub open spec fn counters_before(lanes: Seq<LaneConfig>, n: nat, source: int) -> nat
    decreases n,
{
    if n == 0 {
        0
    } else {
        let before = counters_before(lanes, (n - 1) as nat, source);
        if lanes[n - 1].0 == source {
            before + 1
        } else {
            before
        }
    }
}

/// Where lane `k` lies.
pub open spec fn lane_at(lanes: Seq<LaneConfig>, k: int) -> Lane {
    Lane {
        offset: bytes_before(lanes, k as nat, lanes[k].1 as int) as usize,
        depth: lanes[k].2,
        capacity: lanes[k].3,
        slot: (lanes[k].3 + OVERHEAD) as usize,
        ack: counters_before(lanes, k as nat, lanes[k].0 as int) as usize,
    }
}

/// The lane from `source` to `destination` among the first `n`.
pub open spec fn route(lanes: Seq<LaneConfig>, n: nat, source: int, destination: int) -> Option<
    Lane,
>
    decreases n,
{
    if n == 0 {
        None
    } else if lanes[n - 1].0 == source && lanes[n - 1].1 == destination {
        Some(lane_at(lanes, n - 1))
    } else {
        route(lanes, (n - 1) as nat, source, destination)
    }
}

/// The sources of the lanes to `destination` among the first `n`.
pub open spec fn sources(lanes: Seq<LaneConfig>, n: nat, destination: int) -> Seq<i32>
    decreases n,
{
    if n == 0 {
        Seq::empty()
    } else {
        let before = sources(lanes, (n - 1) as nat, destination);
        if lanes[n - 1].1 == destination {
            before.push(lanes[n - 1].0)
        } else {
            before
        }
    }
}

/// Two lanes with the same ends.
pub open spec fn same_ends(a: LaneConfig, b: LaneConfig) -> bool {
    a.0 == b.0 && a.1 == b.1
}

/// Whether two of the lanes have the same ends.
pub open spec fn repeated(lanes: Seq<LaneConfig>) -> bool {
    exists|i: int, j: int| 0 <= i < j < lanes.len() && same_ends(lanes[i], lanes[j])
}

/// What is wrong with a lane between `ranks` ranks.
pub open spec fn lane_fault(lane: LaneConfig, ranks: nat) -> Option<Error> {
    if lane.0 < 0 || lane.1 < 0 || lane.0 >= ranks || lane.1 >= ranks {
        Some(Error::Ring("lane rank is outside the communicator"))
    } else if lane.0 == lane.1 {
        Some(Error::Ring("self lanes are not transport"))
    } else if lane.2 == 0 {
        Some(Error::Ring("depth must be positive"))
    } else if lane.3 == 0 {
        Some(Error::Ring("capacity must be positive"))
    } else {
        None
    }
}

/// The fault of the first faulty lane among the first `n`.
pub open spec fn first_lane_fault(lanes: Seq<LaneConfig>, n: nat, ranks: nat) -> Option<Error>
    decreases n,
{
    if n == 0 {
        None
    } else {
        match first_lane_fault(lanes, (n - 1) as nat, ranks) {
            Some(error) => Some(error),
            None => lane_fault(lanes[n - 1], ranks),
        }
    }
}

/// Why lane `k` cannot be laid out behind the lanes before it.
pub open spec fn packing_fault(lanes: Seq<LaneConfig>, k: int) -> Option<Error> {
    if lanes[k].3 + OVERHEAD > usize::MAX {
        Some(Error::SizeOverflow)
    } else if lanes[k].3 + OVERHEAD > i32::MAX {
        Some(Error::CountOverflow)
    } else if bytes_before(lanes, k as nat, lanes[k].1 as int) + lane_bytes(lanes[k])
        > usize::MAX {
        Some(Error::SizeOverflow)
    } else {
        None
    }
}

/// Why the first `n` lanes cannot be laid out.
pub open spec fn first_packing_fault(lanes: Seq<LaneConfig>, n: nat) -> Option<Error>
    decreases n,
{
    if n == 0 {
        None
    } else {
        match first_packing_fault(lanes, (n - 1) as nat) {
            Some(error) => Some(error),
            None => packing_fault(lanes, n - 1),
        }
    }
}

/// Why no ring is made of these lanes, given in the order of their layout.
pub open spec fn plan_fault(lanes: Seq<LaneConfig>, ranks: nat) -> Option<Error> {
    if repeated(lanes) {
        Some(Error::Ring("a lane is configured twice"))
    } else if first_lane_fault(lanes, lanes.len(), ranks) is Some {
        first_lane_fault(lanes, lanes.len(), ranks)
    } else {
        first_packing_fault(lanes, lanes.len())
    }
}

#[verifier::ext_equal]
pub struct ProposalState {
    pub safe: bool,
    pub ranks: nat,
    pub rank: i32,
    /// The lanes in the order of their layout.
    pub lanes: Seq<LaneConfig>,
}

/// A lane as the ranks compare it.
pub open spec fn lane_row(lane: LaneConfig) -> Seq<u64> {
    seq![lane.0 as u64, lane.1 as u64, lane.2 as u64, lane.3 as u64]
}

/// The first `n` lanes as the ranks compare them.
pub open spec fn lane_rows(lanes: Seq<LaneConfig>, n: nat) -> Seq<u64>
    decreases n,
{
    if n == 0 {
        Seq::empty()
    } else {
        lane_rows(lanes, (n - 1) as nat) + lane_row(lanes[n - 1])
    }
}

impl ProposalState {
    pub open spec fn wf(self) -> bool {
        &&& 0 <= self.rank < self.ranks <= i32::MAX
        &&& self.lanes.len() <= usize::MAX
        &&& forall|i: int, j: int|
            0 <= i < j < self.lanes.len() ==> lane::lane_le(self.lanes[i], self.lanes[j])
    }

    /// What the ranks gather to compare mode and lanes.
    pub open spec fn row(self) -> Seq<u64> {
        seq![
            if self.safe {
                1u64
            } else {
                0u64
            },
        ] + lane_rows(self.lanes, self.lanes.len())
    }

    /// Why the gathered numbers of lanes do not agree.
    pub open spec fn count_fault(self, counts: Seq<u64>) -> Option<Error> {
        if exists|r: int| 0 <= r < counts.len() && counts[r] != self.lanes.len() {
            Some(Error::Ring("configuration differs between ranks"))
        } else {
            None
        }
    }

    /// The part of what was gathered that rank `r` contributed.
    pub open spec fn row_of(self, all: Seq<u64>, r: int) -> Seq<u64> {
        all.subrange(r * self.row().len(), r * self.row().len() + self.row().len())
    }

    /// Why the gathered modes and lanes do not agree.
    pub open spec fn row_fault(self, all: Seq<u64>) -> Option<Error> {
        if exists|r: int| 0 <= r < self.ranks && #[trigger] self.row_of(all, r) != self.row() {
            Some(Error::Ring("configuration differs between ranks"))
        } else {
            None
        }
    }

    /// What is laid out for this rank.
    pub open spec fn planned(self) -> PlanState {
        let n = self.lanes.len();
        PlanState {
            safe: self.safe,
            ranks: self.ranks,
            rank: self.rank,
            to: Seq::new(self.ranks, |d: int| route(self.lanes, n, self.rank as int, d)),
            from: Seq::new(self.ranks, |s: int| route(self.lanes, n, s, self.rank as int)),
            incoming: sources(self.lanes, n, self.rank as int),
            slot_bytes: bytes_before(self.lanes, n, self.rank as int) as usize,
            counters: counters_before(self.lanes, n, self.rank as int) as usize,
        }
    }
}

/// The tables of a rank, and the windows that it needs.
#[verifier::ext_equal]
pub struct PlanState {
    pub safe: bool,
    pub ranks: nat,
    pub rank: i32,
    /// The lane to each destination.
    pub to: Seq<Option<Lane>>,
    /// The lane from each source.
    pub from: Seq<Option<Lane>>,
    /// The ranks with a lane to this one, ascending.
    pub incoming: Seq<i32>,
    /// The bytes of this rank's slot window.
    pub slot_bytes: usize,
    /// The counters of this rank's counter window.
    pub counters: usize,
}

impl PlanState {
    pub open spec fn wf(self) -> bool {
        &&& self.ranks <= i32::MAX
        &&& self.to.len() == self.ranks
        &&& self.from.len() == self.ranks
        &&& forall|d: int| 0 <= d < self.ranks && (#[trigger] self.to[d]) is Some ==> self.to[d]->0.wf()
        &&& forall|s: int|
            0 <= s < self.ranks && (#[trigger] self.from[s]) is Some ==> self.from[s]->0.wf()
        &&& forall|i: int|
            0 <= i < self.incoming.len() ==> 0 <= #[trigger] self.incoming[i] < self.ranks
                && self.from[self.incoming[i] as int] is Some
        &&& forall|i: int, j: int|
            0 <= i < j < self.incoming.len() ==> self.incoming[i] < self.incoming[j]
    }
}

/// Why no proposal is made.
pub open spec fn proposal_fault(inter: bool, size: i32, rank: i32) -> Option<Error> {
    if inter {
        Some(Error::Intercommunicator)
    } else if size < 0 || rank < 0 {
        Some(Error::SizeOverflow)
    } else {
        None
    }
}

/// The ring that a rank proposes.
pub struct Proposal {
    safe: bool,
    ranks: usize,
    rank: i32,
    lanes: Vec<LaneConfig>,
}

impl View for Proposal {
    type V = ProposalState;

    closed spec fn view(&self) -> ProposalState {
        ProposalState {
            safe: self.safe,
            ranks: self.ranks as nat,
            rank: self.rank,
            lanes: self.lanes@,
        }
    }
}

impl Proposal {
    /// Proposes lanes on `rank` of a communicator of `size`.
    pub fn new(
        inter: bool,
        size: i32,
        rank: i32,
        lanes: &[LaneConfig],
        safe: bool,
    ) -> (proposal: Result<Proposal, Error>)
        requires
            proposal_fault(inter, size, rank) is None ==> rank < size,
        ensures
            match proposal_fault(inter, size, rank) {
                Some(error) => proposal == Err::<Proposal, Error>(error),
                None => {
                    &&& proposal matches Ok(made)
                    &&& made@ == (ProposalState {
                        safe,
                        ranks: size as nat,
                        rank,
                        lanes: lane::in_order(lanes@),
                    })
                    &&& made@.wf()
                },
            },
    {
        if inter {
            return Err(Error::Intercommunicator);
        }
        if size < 0 || rank < 0 {
            return Err(Error::SizeOverflow);
        }
        proof {
            lane::in_order_sorts(lanes@);
        }
        let ordered: Vec<LaneConfig> = put_in_order(lanes);
        assert(ordered.len() <= usize::MAX);
        Ok(Proposal { safe, ranks: size as usize, rank, lanes: ordered })
    }

    /// The number of lanes, which the ranks gather first.
    pub fn count(&self) -> (count: u64)
        ensures
            count == self@.lanes.len(),
    {
        self.lanes.len() as u64
    }

    /// Compares the numbers of lanes. Where they agree, the mode and the lanes
    /// are gathered next.
    pub fn agree_on_count(&self, counts: &[u64]) -> (row: Result<Vec<u64>, Error>)
        requires
            counts@.len() == self@.ranks,
        ensures
            match self@.count_fault(counts@) {
                Some(error) => row == Err::<Vec<u64>, Error>(error),
                None => row matches Ok(made) && made@ == self@.row(),
            },
    {
        let count: u64 = self.count();
        let mut r: usize = 0;
        while r < counts.len()
            invariant
                r <= counts@.len(),
                count == self@.lanes.len(),
                forall|k: int| 0 <= k < r ==> counts@[k] == count,
            decreases counts@.len() - r,
        {
            if counts[r] != count {
                return Err(Error::Ring("configuration differs between ranks"));
            }
            r += 1;
        }
        let mut row: Vec<u64> = Vec::new();
        row.push(
            if self.safe {
                1
            } else {
                0
            },
        );
        let ghost mode = row@;
        assert(mode + lane_rows(self.lanes@, 0) =~= mode);
        let mut k: usize = 0;
        while k < self.lanes.len()
            invariant
                k <= self.lanes@.len(),
                row@ == mode + lane_rows(self.lanes@, k as nat),
            decreases self.lanes@.len() - k,
        {
            let (source, destination, depth, capacity) = self.lanes[k];
            row.push(source as u64);
            row.push(destination as u64);
            row.push(depth as u64);
            row.push(capacity as u64);
            k += 1;
            assert(lane_rows(self.lanes@, k as nat) == lane_rows(self.lanes@, (k - 1) as nat)
                + lane_row(self.lanes@[k - 1]));
            assert(row@ =~= mode + lane_rows(self.lanes@, k as nat));
        }
        assert(row@ =~= self@.row());
        Ok(row)
    }

    /// Compares the modes and the lanes.
    pub fn agree_on_lanes(&self, row: &[u64], all: &[u64]) -> (result: Result<(), Error>)
        requires
            row@ == self@.row(),
            all@.len() == row@.len() * self@.ranks,
        ensures
            result == match self@.row_fault(all@) {
                Some(error) => Err::<(), Error>(error),
                None => Ok(()),
            },
    {
        let width: usize = row.len();
        let gathered: usize = all.len();
        let mut r: usize = 0;
        let mut start: usize = 0;
        while r < self.ranks
            invariant
                r <= self.ranks,
                row@ == self@.row(),
                width == row@.len(),
                all@.len() == gathered == width * self@.ranks,
                start == r * width,
                forall|k: int| 0 <= k < r ==> #[trigger] self@.row_of(all@, k) == row@,
            decreases self.ranks - r,
        {
            proof {
                assert(r * width + width <= width * self.ranks) by (nonlinear_arith)
                    requires
                        r < self.ranks,
                        width >= 0,
                ;
            }
            let mut i: usize = 0;
            while i < width
                invariant
                    i <= width,
                    row@ == self@.row(),
                    width == row@.len(),
                    r < self.ranks,
                    start == r * width,
                    start + width <= all@.len() == gathered,
                    forall|k: int| 0 <= k < i ==> all@[start + k] == row@[k],
                decreases width - i,
            {
                if all[start + i] != row[i] {
                    assert(self@.row_of(all@, r as int)[i as int] == all@[start + i]);
                    assert(self@.row_of(all@, r as int) != self@.row());
                    return Err(Error::Ring("configuration differs between ranks"));
                }
                i += 1;
            }
            assert(self@.row_of(all@, r as int) =~= row@);
            assert((r + 1) * width == r * width + width) by (nonlinear_arith);
            start += width;
            r += 1;
        }
        Ok(())
    }
}

/// Lanes that were laid out fit their window, each behind those before it.
pub proof fn packed_lanes_fit(lanes: Seq<LaneConfig>, n: nat, k: int, destination: int)
    requires
        n <= lanes.len(),
        first_packing_fault(lanes, n) is None,
    ensures
        0 <= k < n ==> packing_fault(lanes, k) is None,
        bytes_before(lanes, n, destination) <= usize::MAX,
        counters_before(lanes, n, destination) <= n,
    decreases n,
{
    if n > 0 {
        packed_lanes_fit(lanes, (n - 1) as nat, k, destination);
    }
}

/// A list without a faulty lane has no faulty lane.
proof fn sound_lanes(lanes: Seq<LaneConfig>, n: nat, ranks: nat, k: int)
    requires
        n <= lanes.len(),
        first_lane_fault(lanes, n, ranks) is None,
        0 <= k < n,
    ensures
        lane_fault(lanes[k], ranks) is None,
    decreases n,
{
    if k < n - 1 {
        sound_lanes(lanes, (n - 1) as nat, ranks, k);
    }
}

/// A lane that is found is one of the list.
proof fn route_finds(lanes: Seq<LaneConfig>, n: nat, source: int, destination: int)
    requires
        n <= lanes.len(),
    ensures
        route(lanes, n, source, destination) is Some ==> exists|k: int|
            0 <= k < n && lanes[k].0 == source && lanes[k].1 == destination && route(
                lanes,
                n,
                source,
                destination,
            ) == Some(#[trigger] lane_at(lanes, k)),
        route(lanes, n, source, destination) is None ==> forall|k: int|
            0 <= k < n ==> !(#[trigger] lanes[k].0 == source && lanes[k].1 == destination),
    decreases n,
{
    if n > 0 {
        if lanes[n - 1].0 == source && lanes[n - 1].1 == destination {
            assert(route(lanes, n, source, destination) == Some(lane_at(lanes, n - 1)));
        } else {
            route_finds(lanes, (n - 1) as nat, source, destination);
        }
    }
}

/// The place in the list of a lane that is found.
pub proof fn route_index(lanes: Seq<LaneConfig>, source: int, destination: int) -> (k: int)
    requires
        route(lanes, lanes.len(), source, destination) is Some,
    ensures
        0 <= k < lanes.len(),
        lanes[k].0 == source,
        lanes[k].1 == destination,
        route(lanes, lanes.len(), source, destination) == Some(lane_at(lanes, k)),
{
    route_finds(lanes, lanes.len(), source, destination);
    choose|k: int|
        0 <= k < lanes.len() && lanes[k].0 == source && lanes[k].1 == destination && route(
            lanes,
            lanes.len(),
            source,
            destination,
        ) == Some(#[trigger] lane_at(lanes, k))
}

/// The sources of the lanes to a rank ascend, and each has its lane.
proof fn sources_ascend(lanes: Seq<LaneConfig>, n: nat, destination: int)
    requires
        n <= lanes.len(),
        !repeated(lanes),
        forall|i: int, j: int| 0 <= i < j < lanes.len() ==> lane::lane_le(lanes[i], lanes[j]),
    ensures
        forall|i: int, j: int|
            0 <= i < j < sources(lanes, n, destination).len() ==> sources(lanes, n, destination)[i]
                < sources(lanes, n, destination)[j],
        forall|i: int|
            0 <= i < sources(lanes, n, destination).len() ==> exists|k: int|
                0 <= k < n && (#[trigger] lanes[k]).0 == #[trigger] sources(
                    lanes,
                    n,
                    destination,
                )[i] && lanes[k].1 == destination,
    decreases n,
{
    if n > 0 {
        let before = sources(lanes, (n - 1) as nat, destination);
        let after = sources(lanes, n, destination);
        sources_ascend(lanes, (n - 1) as nat, destination);
        if lanes[n - 1].1 == destination {
            assert forall|i: int| 0 <= i < before.len() implies before[i] < lanes[n - 1].0 by {
                let k = choose|k: int|
                    0 <= k < n - 1 && (#[trigger] lanes[k]).0 == before[i] && lanes[k].1
                        == destination;
                assert(lane::lane_le(lanes[k], lanes[n - 1]));
                assert(!same_ends(lanes[k], lanes[n - 1]));
            }
            assert forall|i: int| 0 <= i < after.len() implies exists|k: int|
                0 <= k < n && (#[trigger] lanes[k]).0 == #[trigger] after[i] && lanes[k].1
                    == destination by {
                if i < before.len() {
                    assert(after[i] == before[i]);
                    let k = choose|k: int|
                        0 <= k < n - 1 && (#[trigger] lanes[k]).0 == before[i] && lanes[k].1
                            == destination;
                    assert(lanes[k].0 == after[i]);
                } else {
                    assert(lanes[n - 1].0 == after[i]);
                }
            }
        }
    }
}

/// Tables made of sound lanes are sound.
pub proof fn plans_are_sound(proposal: ProposalState)
    requires
        proposal.wf(),
        plan_fault(proposal.lanes, proposal.ranks) is None,
    ensures
        proposal.planned().wf(),
{
    let lanes = proposal.lanes;
    let n = lanes.len();
    let plan = proposal.planned();
    assert forall|k: int| 0 <= k < n implies (#[trigger] lane_at(lanes, k)).wf() by {
        sound_lanes(lanes, n, proposal.ranks, k);
        packed_lanes_fit(lanes, n, k, lanes[k].1 as int);
    }
    assert forall|d: int| 0 <= d < plan.ranks && (#[trigger] plan.to[d]) is Some implies plan.to[d]->0.wf() by {
        route_finds(lanes, n, proposal.rank as int, d);
    }
    assert forall|s: int| 0 <= s < plan.ranks && (#[trigger] plan.from[s]) is Some implies plan.from[s]->0.wf() by {
        route_finds(lanes, n, s, proposal.rank as int);
    }
    sources_ascend(lanes, n, proposal.rank as int);
    assert forall|i: int| 0 <= i < plan.incoming.len() implies 0 <= #[trigger] plan.incoming[i]
        < plan.ranks && plan.from[plan.incoming[i] as int] is Some by {
        let k = choose|k: int|
            0 <= k < n && (#[trigger] lanes[k]).0 == plan.incoming[i] && lanes[k].1
                == proposal.rank as int;
        sound_lanes(lanes, n, proposal.ranks, k);
        route_finds(lanes, n, plan.incoming[i] as int, proposal.rank as int);
    }
}

/// What a rank needs to make its ring.
pub struct Plan {
    safe: bool,
    ranks: usize,
    rank: i32,
    to: Vec<Option<Lane>>,
    from: Vec<Option<Lane>>,
    incoming: Vec<i32>,
    slot_bytes: usize,
    counters: usize,
}

impl View for Plan {
    type V = PlanState;

    closed spec fn view(&self) -> PlanState {
        PlanState {
            safe: self.safe,
            ranks: self.ranks as nat,
            rank: self.rank,
            to: self.to@,
            from: self.from@,
            incoming: self.incoming@,
            slot_bytes: self.slot_bytes,
            counters: self.counters,
        }
    }
}

impl Proposal {
    /// Refuses lanes with the same ends.
    fn check_repetition(&self) -> (result: Result<(), Error>)
        requires
            self@.wf(),
        ensures
            result == if repeated(self@.lanes) {
                Err::<(), Error>(Error::Ring("a lane is configured twice"))
            } else {
                Ok(())
            },
    {
        let mut k: usize = 1;
        while k < self.lanes.len()
            invariant
                self@.wf(),
                1 <= k,
                k <= self.lanes@.len() || self.lanes@.len() == 0,
                forall|i: int, j: int|
                    0 <= i < j < k && j < self.lanes@.len() ==> !same_ends(
                        #[trigger] self.lanes@[i],
                        #[trigger] self.lanes@[j],
                    ),
            decreases self.lanes@.len() - k,
        {
            let a: LaneConfig = self.lanes[k - 1];
            let b: LaneConfig = self.lanes[k];
            if a.0 == b.0 && a.1 == b.1 {
                assert(same_ends(self@.lanes[k - 1], self@.lanes[k as int]));
                return Err(Error::Ring("a lane is configured twice"));
            }
            assert forall|i: int| 0 <= i < k implies !same_ends(
                #[trigger] self.lanes@[i],
                self.lanes@[k as int],
            ) by {
                assert(lane::lane_le(self@.lanes[k - 1], self@.lanes[k as int]));
                if i < k - 1 {
                    assert(lane::lane_le(self@.lanes[i], self@.lanes[k - 1]));
                }
            }
            k += 1;
        }
        Ok(())
    }

    /// Refuses lanes that cannot be.
    fn check_lanes(&self) -> (result: Result<(), Error>)
        ensures
            result == match first_lane_fault(self@.lanes, self@.lanes.len(), self@.ranks) {
                Some(error) => Err::<(), Error>(error),
                None => Ok(()),
            },
    {
        let mut k: usize = 0;
        while k < self.lanes.len()
            invariant
                k <= self.lanes@.len(),
                first_lane_fault(self@.lanes, k as nat, self@.ranks) is None,
            decreases self.lanes@.len() - k,
        {
            let (source, destination, depth, capacity) = self.lanes[k];
            let fault: Option<Error> = if source < 0 || destination < 0 || source as usize
                >= self.ranks || destination as usize >= self.ranks {
                Some(Error::Ring("lane rank is outside the communicator"))
            } else if source == destination {
                Some(Error::Ring("self lanes are not transport"))
            } else if depth == 0 {
                Some(Error::Ring("depth must be positive"))
            } else if capacity == 0 {
                Some(Error::Ring("capacity must be positive"))
            } else {
                None
            };
            assert(fault == lane_fault(self@.lanes[k as int], self@.ranks));
            if let Some(error) = fault {
                proof {
                    faults_stay(self@.lanes, (k + 1) as nat, self@.lanes.len(), self@.ranks);
                }
                return Err(error);
            }
            k += 1;
        }
        Ok(())
    }

    /// Checks the lanes and lays them out.
    pub fn plan(&self) -> (plan: Result<Plan, Error>)
        requires
            self@.wf(),
        ensures
            match plan_fault(self@.lanes, self@.ranks) {
                Some(error) => plan == Err::<Plan, Error>(error),
                None => {
                    &&& plan matches Ok(made)
                    &&& made@ == self@.planned()
                    &&& made@.wf()
                    &&& forall|s: int|
                        0 <= s < made@.ranks ==> ((#[trigger] made@.from[s]) is Some
                            <==> made@.incoming.contains(s as i32))
                },
            },
    {
        match self.check_repetition() {
            Ok(()) => {},
            Err(error) => {
                return Err(error);
            },
        }
        match self.check_lanes() {
            Ok(()) => {},
            Err(error) => {
                return Err(error);
            },
        }
        let ghost lanes = self.lanes@;
        let ranks: usize = self.ranks;
        let me: usize = self.rank as usize;
        let mut lengths: Vec<usize> = Vec::with_capacity(ranks);
        let mut counters: Vec<usize> = Vec::with_capacity(ranks);
        let mut to: Vec<Option<Lane>> = Vec::with_capacity(ranks);
        let mut from: Vec<Option<Lane>> = Vec::with_capacity(ranks);
        let mut incoming: Vec<i32> = Vec::new();
        let mut r: usize = 0;
        while r < ranks
            invariant
                r <= ranks,
                lengths@.len() == r,
                counters@.len() == r,
                to@.len() == r,
                from@.len() == r,
                forall|k: int| 0 <= k < r ==> lengths@[k] == 0,
                forall|k: int| 0 <= k < r ==> counters@[k] == 0,
                forall|k: int| 0 <= k < r ==> (#[trigger] to@[k]) is None,
                forall|k: int| 0 <= k < r ==> (#[trigger] from@[k]) is None,
            decreases ranks - r,
        {
            lengths.push(0);
            counters.push(0);
            to.push(None);
            from.push(None);
            r += 1;
        }
        let mut k: usize = 0;
        while k < self.lanes.len()
            invariant
                self@.wf(),
                lanes == self.lanes@,
                ranks == self@.ranks,
                me == self@.rank,
                k <= lanes.len(),
                !repeated(lanes),
                first_lane_fault(lanes, lanes.len(), self@.ranks) is None,
                first_packing_fault(lanes, k as nat) is None,
                lengths@.len() == ranks,
                counters@.len() == ranks,
                to@.len() == ranks,
                from@.len() == ranks,
                forall|d: int|
                    0 <= d < ranks ==> (#[trigger] lengths@[d]) == bytes_before(
                        lanes,
                        k as nat,
                        d,
                    ),
                forall|s: int|
                    0 <= s < ranks ==> (#[trigger] counters@[s]) == counters_before(
                        lanes,
                        k as nat,
                        s,
                    ),
                forall|d: int|
                    0 <= d < ranks ==> (#[trigger] to@[d]) == route(
                        lanes,
                        k as nat,
                        self@.rank as int,
                        d,
                    ),
                forall|s: int|
                    0 <= s < ranks ==> (#[trigger] from@[s]) == route(
                        lanes,
                        k as nat,
                        s,
                        self@.rank as int,
                    ),
                incoming@ == sources(lanes, k as nat, self@.rank as int),
            decreases lanes.len() - k,
        {
            let (source, destination, depth, capacity) = self.lanes[k];
            proof {
                sound_lanes(lanes, lanes.len(), self@.ranks, k as int);
                packed_lanes_fit(lanes, k as nat, 0, source as int);
            }
            let fault: Option<Error> = packing_error(capacity, depth, lengths[destination as usize]);
            assert(fault == packing_fault(lanes, k as int));
            if let Some(error) = fault {
                proof {
                    packing_faults_stay(lanes, (k + 1) as nat, lanes.len());
                }
                return Err(error);
            }
            let slot: usize = capacity + OVERHEAD;
            let target: usize = destination as usize;
            let origin: usize = source as usize;
            let offset: usize = lengths[target];
            proof {
                assert(depth * slot == lane_bytes(lanes[k as int]));
            }
            lengths[target] = offset + depth * slot;
            let ack: usize = counters[origin];
            counters[origin] = ack + 1;
            let lane: Lane = Lane { offset, depth, capacity, slot, ack };
            assert(lane == lane_at(lanes, k as int));
            if origin == me {
                to[target] = Some(lane);
            }
            if target == me {
                from[origin] = Some(lane);
                incoming.push(source);
            }
            k += 1;
        }
        assert(to@ =~= self@.planned().to);
        assert(from@ =~= self@.planned().from);
        proof {
            plans_are_sound(self@);
            assert forall|s: int| 0 <= s < self@.ranks implies ((
            #[trigger] self@.planned().from[s]) is Some <==> self@.planned().incoming.contains(
                s as i32,
            )) by {
                every_incoming_lane_is_walked(self@, s as i32);
            }
        }
        let slot_bytes: usize = lengths[me];
        let counter: usize = counters[me];
        Ok(
            Plan {
                safe: self.safe,
                ranks,
                rank: self.rank,
                to,
                from,
                incoming,
                slot_bytes,
                counters: counter,
            },
        )
    }
}

/// The contribution of a rank to the comparison of memory models: one where its
/// windows are unified, else zero.
pub open spec fn model_flag(slots: MemoryModel, acks: Option<MemoryModel>) -> u8 {
    if slots == MemoryModel::Unified && acks != Some(MemoryModel::Separate) {
        1
    } else {
        0
    }
}

impl Plan {
    pub fn is_safe(&self) -> (safe: bool)
        ensures
            safe == self@.safe,
    {
        self.safe
    }

    /// The number of ranks.
    pub fn ranks(&self) -> (ranks: usize)
        ensures
            ranks == self@.ranks,
    {
        self.ranks
    }

    /// The bytes that this rank's slot window needs.
    pub fn slot_bytes(&self) -> (bytes: usize)
        ensures
            bytes == self@.slot_bytes,
    {
        self.slot_bytes
    }

    /// The counters that this rank's counter window needs, on a safe ring.
    pub fn counters(&self) -> (counters: usize)
        ensures
            counters == self@.counters,
    {
        self.counters
    }

    /// The lane to a destination.
    pub fn lane_to(&self, destination: usize) -> (lane: Option<Lane>)
        requires
            destination < self@.to.len(),
        ensures
            lane == self@.to[destination as int],
    {
        self.to[destination]
    }

    /// The lane from a source.
    pub fn lane_from(&self, source: usize) -> (lane: Option<Lane>)
        requires
            source < self@.from.len(),
        ensures
            lane == self@.from[source as int],
    {
        self.from[source]
    }

    /// The ranks with a lane to this one, ascending.
    pub fn incoming(&self) -> (incoming: &Vec<i32>)
        ensures
            incoming@ == self@.incoming,
    {
        &self.incoming
    }

    /// Says whether this rank's windows are unified; the ranks gather it.
    pub fn unified(slots: MemoryModel, acks: Option<MemoryModel>) -> (flag: u8)
        ensures
            flag == model_flag(slots, acks),
            flag != 0 <==> slots == MemoryModel::Unified && (acks is None || acks == Some(
                MemoryModel::Unified,
            )),
    {
        let counters_unified: bool = match acks {
            None => true,
            Some(model) => model == MemoryModel::Unified,
        };
        if slots == MemoryModel::Unified && counters_unified {
            1
        } else {
            0
        }
    }
}

/// What keeps a lane from being laid out at `offset`.
fn packing_error(capacity: usize, depth: usize, offset: usize) -> (fault: Option<Error>)
    ensures
        fault == if capacity + OVERHEAD > usize::MAX {
            Some(Error::SizeOverflow)
        } else if capacity + OVERHEAD > i32::MAX {
            Some(Error::CountOverflow)
        } else if offset + depth * (capacity + OVERHEAD) > usize::MAX {
            Some(Error::SizeOverflow)
        } else {
            None
        },
{
    let slot: usize = match capacity.checked_add(OVERHEAD) {
        Some(slot) => slot,
        None => {
            return Some(Error::SizeOverflow);
        },
    };
    if slot > i32::MAX as usize {
        return Some(Error::CountOverflow);
    }
    match depth.checked_mul(slot) {
        None => Some(Error::SizeOverflow),
        Some(bytes) => match offset.checked_add(bytes) {
            None => Some(Error::SizeOverflow),
            Some(_) => None,
        },
    }
}

/// The first fault among some lanes is the first among more.
proof fn faults_stay(lanes: Seq<LaneConfig>, n: nat, m: nat, ranks: nat)
    requires
        n <= m <= lanes.len(),
        first_lane_fault(lanes, n, ranks) is Some,
    ensures
        first_lane_fault(lanes, m, ranks) == first_lane_fault(lanes, n, ranks),
    decreases m,
{
    if n < m {
        faults_stay(lanes, n, (m - 1) as nat, ranks);
    }
}

/// The first fault among some lanes is the first among more.
proof fn packing_faults_stay(lanes: Seq<LaneConfig>, n: nat, m: nat)
    requires
        n <= m <= lanes.len(),
        first_packing_fault(lanes, n) is Some,
    ensures
        first_packing_fault(lanes, m) == first_packing_fault(lanes, n),
    decreases m,
{
    if n < m {
        packing_faults_stay(lanes, n, (m - 1) as nat);
    }
}

/// What more lanes take is behind what fewer take.
proof fn packing_grows(lanes: Seq<LaneConfig>, n: nat, m: nat, rank: int)
    requires
        n <= m <= lanes.len(),
    ensures
        bytes_before(lanes, n, rank) <= bytes_before(lanes, m, rank),
        counters_before(lanes, n, rank) <= counters_before(lanes, m, rank),
    decreases m,
{
    if n < m {
        packing_grows(lanes, n, (m - 1) as nat, rank);
    }
}

/// A lane that was laid out lies in the slot window of its destination, and its
/// counter in the counter window of its source: as long as those ranks plan them.
pub proof fn lanes_lie_in_their_windows(lanes: Seq<LaneConfig>, ranks: nat, k: int)
    requires
        lanes.len() <= usize::MAX,
        plan_fault(lanes, ranks) is None,
        0 <= k < lanes.len(),
    ensures
        lane_at(lanes, k).wf(),
        lane_at(lanes, k).lies_in(bytes_before(lanes, lanes.len(), lanes[k].1 as int)),
        lane_at(lanes, k).ack < counters_before(lanes, lanes.len(), lanes[k].0 as int),
        bytes_before(lanes, lanes.len(), lanes[k].1 as int) <= usize::MAX,
        counters_before(lanes, lanes.len(), lanes[k].0 as int) <= lanes.len(),
{
    let n = lanes.len();
    sound_lanes(lanes, n, ranks, k);
    packed_lanes_fit(lanes, n, k, lanes[k].1 as int);
    packed_lanes_fit(lanes, n, k, lanes[k].0 as int);
    packing_grows(lanes, (k + 1) as nat, n, lanes[k].1 as int);
    packing_grows(lanes, (k + 1) as nat, n, lanes[k].0 as int);
}

/// Lanes into one rank share no byte, and lanes out of one rank share no counter.
pub proof fn lanes_do_not_overlap(lanes: Seq<LaneConfig>, ranks: nat, i: int, j: int)
    requires
        lanes.len() <= usize::MAX,
        plan_fault(lanes, ranks) is None,
        0 <= i < j < lanes.len(),
    ensures
        lanes[i].1 == lanes[j].1 ==> lane_at(lanes, i).lies_in(lane_at(lanes, j).offset as nat),
        lanes[i].0 == lanes[j].0 ==> lane_at(lanes, i).ack < lane_at(lanes, j).ack,
{
    lanes_lie_in_their_windows(lanes, ranks, i);
    lanes_lie_in_their_windows(lanes, ranks, j);
    packed_lanes_fit(lanes, lanes.len(), i, lanes[i].1 as int);
    packed_lanes_fit(lanes, lanes.len(), j, lanes[j].1 as int);
    packing_grows(lanes, (i + 1) as nat, j as nat, lanes[i].1 as int);
    packing_grows(lanes, (i + 1) as nat, j as nat, lanes[i].0 as int);
    packing_grows(lanes, j as nat, lanes.len(), lanes[i].0 as int);
}

/// The window of a rank holds its incoming lanes and nothing else: its bytes are
/// those of the slots, `28 + capacity` for each, and a rank without an incoming
/// lane needs none.
pub proof fn windows_hold_the_lanes_alone(lanes: Seq<LaneConfig>, n: nat, rank: int)
    requires
        n <= lanes.len(),
    ensures
        n > 0 && lanes[n - 1].1 == rank ==> bytes_before(lanes, n, rank) == bytes_before(
            lanes,
            (n - 1) as nat,
            rank,
        ) + lanes[n - 1].2 * (28 + lanes[n - 1].3),
        (forall|k: int| 0 <= k < n ==> (#[trigger] lanes[k]).1 != rank) ==> bytes_before(
            lanes,
            n,
            rank,
        ) == 0,
    decreases n,
{
    if n > 0 {
        windows_hold_the_lanes_alone(lanes, (n - 1) as nat, rank);
        let lane = lanes[n - 1];
        assert(lane.2 as nat * (lane.3 + OVERHEAD) as nat == lane.2 * (28 + lane.3))
            by (nonlinear_arith)
            requires
                OVERHEAD == 28,
        ;
    }
}

/// Both ends of a lane find the same slots and the same counter, and the source
/// puts into the window that the destination reads.
pub proof fn both_ends_agree(a: ProposalState, b: ProposalState)
    requires
        a.wf(),
        b.wf(),
        a.lanes == b.lanes,
        a.ranks == b.ranks,
        plan_fault(a.lanes, a.ranks) is None,
    ensures
        a.planned().to[b.rank as int] == b.planned().from[a.rank as int],
        a.planned().to[b.rank as int] is Some ==> {
            let lane = a.planned().to[b.rank as int]->0;
            &&& lane.lies_in(b.planned().slot_bytes as nat)
            &&& lane.ack < a.planned().counters
        },
{
    let lanes = a.lanes;
    if a.planned().to[b.rank as int] is Some {
        let k = route_index(lanes, a.rank as int, b.rank as int);
        lanes_lie_in_their_windows(lanes, a.ranks, k);
        packed_lanes_fit(lanes, lanes.len(), k, a.rank as int);
        assert(bytes_before(lanes, lanes.len(), b.rank as int) <= usize::MAX);
    }
}

/// What the ranks gather when each contributes its number of lanes.
pub open spec fn gathers_counts(counts: Seq<u64>, proposals: Seq<ProposalState>) -> bool {
    &&& counts.len() == proposals.len()
    &&& forall|r: int|
        0 <= r < proposals.len() ==> counts[r] == (#[trigger] proposals[r]).lanes.len()
}

/// What the ranks gather when each contributes its mode and its lanes, of which
/// all have the same number.
pub open spec fn gathers_rows(all: Seq<u64>, proposals: Seq<ProposalState>) -> bool {
    forall|r: int, s: int|
        0 <= r < proposals.len() && 0 <= s < proposals.len() ==> {
            &&& (#[trigger] proposals[r]).ranks == proposals.len()
            &&& proposals[r].lanes.len() == (#[trigger] proposals[s]).lanes.len()
            &&& proposals[r].row_of(all, s) == proposals[s].row()
        }
}

/// Lanes are told apart by what the ranks compare.
proof fn rows_tell_lanes_apart(a: Seq<LaneConfig>, b: Seq<LaneConfig>, n: nat)
    requires
        n <= a.len(),
        n <= b.len(),
        lane_rows(a, n) == lane_rows(b, n),
    ensures
        forall|k: int| 0 <= k < n ==> a[k] == b[k],
    decreases n,
{
    if n > 0 {
        let m = (n - 1) as nat;
        let end: int = 4 * (n - 1);
        rows_have_lengths(a, m);
        rows_have_lengths(b, m);
        assert(lane_rows(a, m) =~= lane_rows(a, n).subrange(0, end));
        assert(lane_rows(b, m) =~= lane_rows(b, n).subrange(0, end));
        rows_tell_lanes_apart(a, b, m);
        let x = a[m as int];
        let y = b[m as int];
        assert(lane_rows(a, n)[end] == x.0 as u64);
        assert(lane_rows(b, n)[end] == y.0 as u64);
        assert(lane_rows(a, n)[end + 1] == x.1 as u64);
        assert(lane_rows(b, n)[end + 1] == y.1 as u64);
        assert(lane_rows(a, n)[end + 2] == x.2 as u64);
        assert(lane_rows(b, n)[end + 2] == y.2 as u64);
        assert(lane_rows(a, n)[end + 3] == x.3 as u64);
        assert(lane_rows(b, n)[end + 3] == y.3 as u64);
        let (x0, y0, x1, y1) = (x.0, y.0, x.1, y.1);
        assert(x0 as u64 == y0 as u64 ==> x0 == y0) by (bit_vector);
        assert(x1 as u64 == y1 as u64 ==> x1 == y1) by (bit_vector);
    }
}

proof fn rows_have_lengths(lanes: Seq<LaneConfig>, n: nat)
    requires
        n <= lanes.len(),
    ensures
        lane_rows(lanes, n).len() == 4 * n,
    decreases n,
{
    if n > 0 {
        rows_have_lengths(lanes, (n - 1) as nat);
    }
}

/// Where two ranks name different numbers of lanes, every rank is refused before
/// anything is allocated.
pub proof fn differing_counts_fail_everywhere(
    counts: Seq<u64>,
    proposals: Seq<ProposalState>,
    a: int,
    b: int,
    r: int,
)
    requires
        gathers_counts(counts, proposals),
        0 <= a < proposals.len(),
        0 <= b < proposals.len(),
        0 <= r < proposals.len(),
        proposals[a].lanes.len() != proposals[b].lanes.len(),
    ensures
        proposals[r].count_fault(counts) == Some(
            Error::Ring("configuration differs between ranks"),
        ),
{
    assert(counts[a] != counts[b]);
    if counts[a] == proposals[r].lanes.len() {
        assert(counts[b] != proposals[r].lanes.len());
    }
}

/// Where two ranks name different lanes or modes, every rank is refused before
/// anything is allocated.
pub proof fn differing_lanes_fail_everywhere(
    all: Seq<u64>,
    proposals: Seq<ProposalState>,
    a: int,
    b: int,
    r: int,
)
    requires
        gathers_rows(all, proposals),
        0 <= a < proposals.len(),
        0 <= b < proposals.len(),
        0 <= r < proposals.len(),
        proposals[a].safe != proposals[b].safe || proposals[a].lanes != proposals[b].lanes,
    ensures
        proposals[r].row_fault(all) == Some(Error::Ring("configuration differs between ranks")),
{
    if proposals[a].row() == proposals[r].row() {
        modes_and_lanes_are_compared(proposals[a], proposals[r]);
        if proposals[b].row() == proposals[r].row() {
            modes_and_lanes_are_compared(proposals[b], proposals[r]);
        }
        assert(proposals[r].row_of(all, b) != proposals[r].row());
    } else {
        assert(proposals[r].row_of(all, a) != proposals[r].row());
    }
}

proof fn modes_and_lanes_are_compared(p: ProposalState, q: ProposalState)
    requires
        p.row() == q.row(),
        p.lanes.len() == q.lanes.len(),
    ensures
        p.safe == q.safe,
        p.lanes == q.lanes,
{
    assert(p.row()[0] == if p.safe {
        1u64
    } else {
        0u64
    });
    assert(q.row()[0] == if q.safe {
        1u64
    } else {
        0u64
    });
    let n = p.lanes.len();
    rows_have_lengths(p.lanes, n);
    rows_have_lengths(q.lanes, n);
    assert(lane_rows(p.lanes, n) =~= p.row().subrange(1, (1 + 4 * n) as int));
    assert(lane_rows(q.lanes, n) =~= q.row().subrange(1, (1 + 4 * n) as int));
    rows_tell_lanes_apart(p.lanes, q.lanes, n);
    assert(p.lanes =~= q.lanes);
}

/// Where all ranks name the same lanes and the same mode, none is refused.
pub proof fn agreeing_lanes_pass_everywhere(
    counts: Seq<u64>,
    all: Seq<u64>,
    proposals: Seq<ProposalState>,
    r: int,
)
    requires
        gathers_counts(counts, proposals),
        gathers_rows(all, proposals),
        0 <= r < proposals.len(),
        forall|k: int|
            0 <= k < proposals.len() ==> (#[trigger] proposals[k]).safe == proposals[r].safe
                && proposals[k].lanes == proposals[r].lanes,
    ensures
        proposals[r].count_fault(counts) is None,
        proposals[r].row_fault(all) is None,
{
    assert forall|k: int| 0 <= k < proposals.len() implies counts[k] == proposals[r].lanes.len() by {
        assert(proposals[k].lanes == proposals[r].lanes);
    }
    assert forall|k: int| 0 <= k < proposals[r].ranks implies #[trigger] proposals[r].row_of(
        all,
        k,
    ) == proposals[r].row() by {
        assert(proposals[k].row() == proposals[r].row());
    }
}

/// The sources of the lanes to a rank are those of all its lanes.
proof fn sources_hold(lanes: Seq<LaneConfig>, n: nat, destination: int, k: int)
    requires
        0 <= k < n <= lanes.len(),
        lanes[k].1 == destination,
    ensures
        sources(lanes, n, destination).contains(lanes[k].0),
    decreases n,
{
    let before = sources(lanes, (n - 1) as nat, destination);
    let after = sources(lanes, n, destination);
    if k == n - 1 {
        assert(after[after.len() - 1] == lanes[k].0);
    } else {
        sources_hold(lanes, (n - 1) as nat, destination, k);
        let i = choose|i: int| 0 <= i < before.len() && before[i] == lanes[k].0;
        assert(after[i] == lanes[k].0);
    }
}

/// A rank walks over every lane that leads to it, and over no other: the ranks that it
/// polls are exactly the sources of the lanes into it, each once.
pub proof fn every_incoming_lane_is_walked(proposal: ProposalState, s: i32)
    requires
        proposal.wf(),
        plan_fault(proposal.lanes, proposal.ranks) is None,
        0 <= s < proposal.ranks,
    ensures
        proposal.planned().incoming.contains(s) <==> exists|k: int|
            0 <= k < proposal.lanes.len() && (#[trigger] proposal.lanes[k]).0 == s
                && proposal.lanes[k].1 == proposal.rank,
        proposal.planned().incoming.contains(s) <==> proposal.planned().from[s as int] is Some,
        forall|k: int|
            0 <= k < proposal.lanes.len() && (#[trigger] proposal.lanes[k]).1 == proposal.rank
                ==> proposal.planned().incoming.contains(proposal.lanes[k].0),
        proposal.planned().incoming.no_duplicates(),
{
    let lanes = proposal.lanes;
    let n = lanes.len();
    let me = proposal.rank as int;
    let incoming = proposal.planned().incoming;
    sources_ascend(lanes, n, me);
    route_finds(lanes, n, s as int, me);
    assert forall|k: int| 0 <= k < n && (#[trigger] lanes[k]).1 == me implies incoming.contains(
        lanes[k].0,
    ) by {
        sources_hold(lanes, n, me, k);
    }
    if incoming.contains(s) {
        let i = choose|i: int| 0 <= i < incoming.len() && incoming[i] == s;
        let k = choose|k: int|
            0 <= k < n && (#[trigger] lanes[k]).0 == incoming[i] && lanes[k].1 == me;
        assert(lanes[k].0 == s);
    }
    if proposal.planned().from[s as int] is Some {
        let k = route_index(lanes, s as int, me);
        assert(lanes[k].0 == s);
    }
}

/// Both ends of a lane find it as it was named: with its depth and its capacity, in
/// slots of 28 bytes more than that.
pub proof fn lanes_are_found_as_named(proposal: ProposalState, k: int)
    requires
        proposal.wf(),
        plan_fault(proposal.lanes, proposal.ranks) is None,
        0 <= k < proposal.lanes.len(),
    ensures
        ({
            let (source, destination, depth, capacity) = proposal.lanes[k];
            let from = proposal.planned().from[source as int];
            let to = proposal.planned().to[destination as int];
            &&& destination == proposal.rank ==> from is Some && from->0.depth == depth
                && from->0.capacity == capacity && from->0.slot == capacity + 28
            &&& source == proposal.rank ==> to is Some && to->0.depth == depth && to->0.capacity
                == capacity && to->0.slot == capacity + 28
        }),
{
    let lanes = proposal.lanes;
    let n = lanes.len();
    let (source, destination, depth, capacity) = lanes[k];
    let me = proposal.rank as int;
    sound_lanes(lanes, n, proposal.ranks, k);
    packed_lanes_fit(lanes, n, k, destination as int);
    if destination == me {
        route_finds(lanes, n, source as int, me);
        assert(lanes[k].0 == source);
        let j = route_index(lanes, source as int, me);
        assert(same_ends(lanes[j], lanes[k]) && same_ends(lanes[k], lanes[j]));
        assert(j == k);
    }
    if source == me {
        route_finds(lanes, n, me, destination as int);
        assert(lanes[k].0 == me);
        let j = route_index(lanes, me, destination as int);
        assert(same_ends(lanes[j], lanes[k]) && same_ends(lanes[k], lanes[j]));
        assert(j == k);
    }
}

/// A lane that was not named is not found.
pub proof fn unnamed_lanes_are_not_found(proposal: ProposalState, peer: i32)
    requires
        proposal.wf(),
        0 <= peer < proposal.ranks,
    ensures
        (forall|k: int|
            0 <= k < proposal.lanes.len() ==> !((#[trigger] proposal.lanes[k]).0 == peer
                && proposal.lanes[k].1 == proposal.rank))
            <==> proposal.planned().from[peer as int] is None,
        (forall|k: int|
            0 <= k < proposal.lanes.len() ==> !((#[trigger] proposal.lanes[k]).0 == proposal.rank
                && proposal.lanes[k].1 == peer)) <==> proposal.planned().to[peer as int] is None,
{
    let lanes = proposal.lanes;
    let n = lanes.len();
    let me = proposal.rank as int;
    route_finds(lanes, n, peer as int, me);
    route_finds(lanes, n, me, peer as int);
    if proposal.planned().from[peer as int] is Some {
        let k = route_index(lanes, peer as int, me);
        assert(lanes[k].0 == peer);
    }
    if proposal.planned().to[peer as int] is Some {
        let k = route_index(lanes, me, peer as int);
        assert(lanes[k].0 == me);
    }
}

/// Nothing lies between two lanes with none of their destination between them.
proof fn nothing_between(lanes: Seq<LaneConfig>, i: nat, j: nat, rank: int)
    requires
        i <= j <= lanes.len(),
    ensures
        (forall|k: int| i <= k < j ==> (#[trigger] lanes[k]).1 != rank) ==> bytes_before(
            lanes,
            j,
            rank,
        ) == bytes_before(lanes, i, rank),
        (forall|k: int| i <= k < j ==> (#[trigger] lanes[k]).0 != rank) ==> counters_before(
            lanes,
            j,
            rank,
        ) == counters_before(lanes, i, rank),
    decreases j,
{
    if i < j {
        nothing_between(lanes, i, (j - 1) as nat, rank);
        assert(lanes[j - 1].1 != rank || lanes[j - 1].1 == rank);
    }
}

/// Lanes are packed without gaps, in the order of the list: the first lane into a rank
/// begins at its first byte, the next begins where the one before it ends, and the
/// window ends with the last. In the same way the first lane out of a rank has its
/// first counter, and the next lane the next counter.
pub proof fn lanes_are_packed_without_gaps(lanes: Seq<LaneConfig>, ranks: nat, i: int, j: int)
    requires
        lanes.len() <= usize::MAX,
        plan_fault(lanes, ranks) is None,
        0 <= i < j <= lanes.len(),
    ensures
        (forall|k: int| 0 <= k < i ==> (#[trigger] lanes[k]).1 != lanes[i].1) ==> lane_at(
            lanes,
            i,
        ).offset == 0,
        (forall|k: int| 0 <= k < i ==> (#[trigger] lanes[k]).0 != lanes[i].0) ==> lane_at(
            lanes,
            i,
        ).ack == 0,
        j < lanes.len() && lanes[j].1 == lanes[i].1 && (forall|k: int|
            i < k < j ==> (#[trigger] lanes[k]).1 != lanes[i].1) ==> lane_at(lanes, j).offset
            == lane_at(lanes, i).offset + lanes[i].2 * (28 + lanes[i].3),
        j < lanes.len() && lanes[j].0 == lanes[i].0 && (forall|k: int|
            i < k < j ==> (#[trigger] lanes[k]).0 != lanes[i].0) ==> lane_at(lanes, j).ack
            == lane_at(lanes, i).ack + 1,
        j == lanes.len() && (forall|k: int| i < k < j ==> (#[trigger] lanes[k]).1 != lanes[i].1)
            ==> bytes_before(lanes, lanes.len(), lanes[i].1 as int) == lane_at(lanes, i).offset
            + lanes[i].2 * (28 + lanes[i].3),
        j == lanes.len() && (forall|k: int| i < k < j ==> (#[trigger] lanes[k]).0 != lanes[i].0)
            ==> counters_before(lanes, lanes.len(), lanes[i].0 as int) == lane_at(lanes, i).ack + 1,
{
    let n = lanes.len();
    let d = lanes[i].1 as int;
    let s = lanes[i].0 as int;
    lanes_lie_in_their_windows(lanes, ranks, i);
    packed_lanes_fit(lanes, n, i, d);
    nothing_between(lanes, 0, i as nat, d);
    nothing_between(lanes, 0, i as nat, s);
    nothing_between(lanes, (i + 1) as nat, j as nat, d);
    nothing_between(lanes, (i + 1) as nat, j as nat, s);
    windows_hold_the_lanes_alone(lanes, (i + 1) as nat, d);
    packing_grows(lanes, i as nat, n, d);
    packing_grows(lanes, i as nat, n, s);
    if j < n {
        lanes_lie_in_their_windows(lanes, ranks, j);
        packing_grows(lanes, j as nat, n, d);
        packing_grows(lanes, j as nat, n, s);
    }
}

/// The windows of a rank are as long as its lanes need: it allocates what they were
/// packed into, on both ends.
pub proof fn windows_are_as_long_as_their_lanes(proposal: ProposalState)
    requires
        proposal.wf(),
        plan_fault(proposal.lanes, proposal.ranks) is None,
    ensures
        proposal.planned().slot_bytes == bytes_before(
            proposal.lanes,
            proposal.lanes.len(),
            proposal.rank as int,
        ),
        proposal.planned().counters == counters_before(
            proposal.lanes,
            proposal.lanes.len(),
            proposal.rank as int,
        ),
        proposal.planned().safe == proposal.safe,
        proposal.planned().ranks == proposal.ranks,
        proposal.planned().rank == proposal.rank,
{
    packed_lanes_fit(proposal.lanes, proposal.lanes.len(), 0, proposal.rank as int);
}

/// Sound lanes have no fault.
proof fn no_lane_fault(lanes: Seq<LaneConfig>, n: nat, ranks: nat)
    requires
        n <= lanes.len(),
        forall|k: int| 0 <= k < n ==> lane_fault(#[trigger] lanes[k], ranks) is None,
    ensures
        first_lane_fault(lanes, n, ranks) is None,
    decreases n,
{
    if n > 0 {
        no_lane_fault(lanes, (n - 1) as nat, ranks);
        assert(lane_fault(lanes[n - 1], ranks) is None);
    }
}

proof fn no_packing_fault(lanes: Seq<LaneConfig>, n: nat)
    requires
        n <= lanes.len(),
        forall|k: int| 0 <= k < n ==> (#[trigger] lanes[k]).3 + 28 <= i32::MAX,
        forall|k: int|
            0 <= k < n ==> bytes_before(lanes, lanes.len(), (#[trigger] lanes[k]).1 as int)
                <= usize::MAX,
    ensures
        first_packing_fault(lanes, n) is None,
    decreases n,
{
    if n > 0 {
        no_packing_fault(lanes, (n - 1) as nat);
        assert(lanes[n - 1].3 + 28 <= i32::MAX);
        packing_grows(lanes, n, lanes.len(), lanes[n - 1].1 as int);
    }
}

/// A ring is planned exactly where no two lanes have the same ends, every lane leads
/// from one rank to another and has slots with room for a payload, an image fits a
/// transfer count, and the lanes into each rank fit its window.
pub proof fn sound_lanes_are_planned(lanes: Seq<LaneConfig>, ranks: nat)
    ensures
        plan_fault(lanes, ranks) is None <==> {
            &&& forall|i: int, j: int|
                0 <= i < j < lanes.len() ==> (#[trigger] lanes[i]).0 != (#[trigger] lanes[j]).0
                    || lanes[i].1 != lanes[j].1
            &&& forall|k: int|
                0 <= k < lanes.len() ==> {
                    &&& 0 <= (#[trigger] lanes[k]).0 < ranks
                    &&& 0 <= lanes[k].1 < ranks
                    &&& lanes[k].0 != lanes[k].1
                    &&& lanes[k].2 > 0
                    &&& lanes[k].3 > 0
                    &&& lanes[k].3 + 28 <= i32::MAX
                    &&& bytes_before(lanes, lanes.len(), lanes[k].1 as int) <= usize::MAX
                }
        },
{
    let n = lanes.len();
    if plan_fault(lanes, ranks) is None {
        assert forall|i: int, j: int| 0 <= i < j < n implies (#[trigger] lanes[i]).0 != (
        #[trigger] lanes[j]).0 || lanes[i].1 != lanes[j].1 by {
            assert(!same_ends(lanes[i], lanes[j]));
        }
        assert forall|k: int| 0 <= k < n implies ({
            &&& 0 <= (#[trigger] lanes[k]).0 < ranks
            &&& 0 <= lanes[k].1 < ranks
            &&& lanes[k].0 != lanes[k].1
            &&& lanes[k].2 > 0
            &&& lanes[k].3 > 0
            &&& lanes[k].3 + 28 <= i32::MAX
            &&& bytes_before(lanes, n, lanes[k].1 as int) <= usize::MAX
        }) by {
            sound_lanes(lanes, n, ranks, k);
            packed_lanes_fit(lanes, n, k, lanes[k].1 as int);
        }
    } else if (forall|i: int, j: int|
        0 <= i < j < n ==> (#[trigger] lanes[i]).0 != (#[trigger] lanes[j]).0 || lanes[i].1
            != lanes[j].1) && (forall|k: int|
        0 <= k < n ==> {
            &&& 0 <= (#[trigger] lanes[k]).0 < ranks
            &&& 0 <= lanes[k].1 < ranks
            &&& lanes[k].0 != lanes[k].1
            &&& lanes[k].2 > 0
            &&& lanes[k].3 > 0
            &&& lanes[k].3 + 28 <= i32::MAX
            &&& bytes_before(lanes, n, lanes[k].1 as int) <= usize::MAX
        }) {
        no_lane_fault(lanes, n, ranks);
        no_packing_fault(lanes, n);
        assert(false);
    }
}

/// Lanes are refused for what is wrong with them. A repetition comes before all else;
/// then the first lane that cannot be decides, by its ranks, its ends, its depth or its
/// capacity, in this order.
pub proof fn faulty_lanes_are_refused_for_their_fault(
    lanes: Seq<LaneConfig>,
    ranks: nat,
    k: int,
)
    requires
        0 <= k < lanes.len(),
        forall|i: int|
            0 <= i < k ==> 0 <= (#[trigger] lanes[i]).0 < ranks && 0 <= lanes[i].1 < ranks
                && lanes[i].0 != lanes[i].1 && lanes[i].2 > 0 && lanes[i].3 > 0,
    ensures
        (exists|i: int, j: int|
            0 <= i < j < lanes.len() && (#[trigger] lanes[i]).0 == (#[trigger] lanes[j]).0
                && lanes[i].1 == lanes[j].1) ==> plan_fault(lanes, ranks) == Some(
            Error::Ring("a lane is configured twice"),
        ),
        !repeated(lanes) ==> {
            let (source, destination, depth, capacity) = lanes[k];
            let known = 0 <= source < ranks && 0 <= destination < ranks;
            let fault = plan_fault(lanes, ranks);
            &&& !known ==> fault == Some(Error::Ring("lane rank is outside the communicator"))
            &&& known && source == destination ==> fault == Some(
                Error::Ring("self lanes are not transport"),
            )
            &&& known && source != destination && depth == 0 ==> fault == Some(
                Error::Ring("depth must be positive"),
            )
            &&& known && source != destination && depth > 0 && capacity == 0 ==> fault == Some(
                Error::Ring("capacity must be positive"),
            )
        },
{
    let n = lanes.len();
    if exists|i: int, j: int|
        0 <= i < j < n && (#[trigger] lanes[i]).0 == (#[trigger] lanes[j]).0 && lanes[i].1
            == lanes[j].1 {
        let (i, j) = choose|i: int, j: int|
            0 <= i < j < n && (#[trigger] lanes[i]).0 == (#[trigger] lanes[j]).0 && lanes[i].1
                == lanes[j].1;
        assert(same_ends(lanes[i], lanes[j]));
    }
    assert forall|i: int| 0 <= i < k implies lane_fault(#[trigger] lanes[i], ranks) is None by {
        assert(0 <= lanes[i].0);
    }
    no_lane_fault(lanes, k as nat, ranks);
    if first_lane_fault(lanes, (k + 1) as nat, ranks) is Some {
        faults_stay(lanes, (k + 1) as nat, n, ranks);
    }
}

/// Sound lanes that cannot be laid out are refused for the first that does not fit: an
/// image that fits no transfer count, or an end that fits no `usize`.
pub proof fn lanes_that_do_not_fit_are_refused(lanes: Seq<LaneConfig>, ranks: nat, k: int)
    requires
        0 <= k < lanes.len(),
        !repeated(lanes),
        first_lane_fault(lanes, lanes.len(), ranks) is None,
        first_packing_fault(lanes, k as nat) is None,
    ensures
        i32::MAX < lanes[k].3 + 28 <= usize::MAX ==> plan_fault(lanes, ranks) == Some(
            Error::CountOverflow,
        ),
        lanes[k].3 + 28 > usize::MAX ==> plan_fault(lanes, ranks) == Some(Error::SizeOverflow),
        lanes[k].3 + 28 <= i32::MAX && bytes_before(lanes, (k + 1) as nat, lanes[k].1 as int)
            > usize::MAX ==> plan_fault(lanes, ranks) == Some(Error::SizeOverflow),
{
    if first_packing_fault(lanes, (k + 1) as nat) is Some {
        packing_faults_stay(lanes, (k + 1) as nat, lanes.len());
    }
}

/// What the ranks compare is the mode, and of each lane in its place the source, the
/// destination, the depth and the capacity.
pub proof fn rows_hold_the_mode_and_the_lanes(proposal: ProposalState, k: int)
    requires
        0 <= k < proposal.lanes.len(),
    ensures
        proposal.row().len() == 1 + 4 * proposal.lanes.len(),
        proposal.row()[0] == if proposal.safe {
            1u64
        } else {
            0u64
        },
        proposal.row()[1 + 4 * k] == proposal.lanes[k].0 as u64,
        proposal.row()[2 + 4 * k] == proposal.lanes[k].1 as u64,
        proposal.row()[3 + 4 * k] == proposal.lanes[k].2,
        proposal.row()[4 + 4 * k] == proposal.lanes[k].3,
{
    rows_have_lengths(proposal.lanes, proposal.lanes.len());
    rows_hold_lanes(proposal.lanes, proposal.lanes.len(), k);
}

proof fn rows_hold_lanes(lanes: Seq<LaneConfig>, n: nat, k: int)
    requires
        0 <= k < n <= lanes.len(),
    ensures
        lane_rows(lanes, n).len() == 4 * n,
        lane_rows(lanes, n)[4 * k] == lanes[k].0 as u64,
        lane_rows(lanes, n)[4 * k + 1] == lanes[k].1 as u64,
        lane_rows(lanes, n)[4 * k + 2] == lanes[k].2 as u64,
        lane_rows(lanes, n)[4 * k + 3] == lanes[k].3 as u64,
    decreases n,
{
    rows_have_lengths(lanes, n);
    rows_have_lengths(lanes, (n - 1) as nat);
    if k < n - 1 {
        rows_hold_lanes(lanes, (n - 1) as nat, k);
    }
}

/// A ring is proposed on every rank of every intracommunicator, and on no other.
pub proof fn rings_need_an_intracommunicator(inter: bool, size: i32, rank: i32)
    ensures
        proposal_fault(inter, size, rank) is None <==> !inter && size >= 0 && rank >= 0,
        inter ==> proposal_fault(inter, size, rank) == Some(Error::Intercommunicator),
        !inter && (size < 0 || rank < 0) ==> proposal_fault(inter, size, rank) == Some(
            Error::SizeOverflow,
        ),
{
}

/// A rank says that its memory is unified exactly where its slot window is, and its
/// counter window too if it has one. So no ring is made where a window of any rank
/// keeps local and remote memory apart: that rank contributes a zero.
pub proof fn separate_windows_are_told(slots: MemoryModel, acks: Option<MemoryModel>)
    ensures
        model_flag(slots, acks) != 0 <==> slots == MemoryModel::Unified && (acks is None || acks
            == Some(MemoryModel::Unified)),
        slots == MemoryModel::Separate ==> model_flag(slots, acks) == 0,
        acks == Some(MemoryModel::Separate) ==> model_flag(slots, acks) == 0,
{
    if let Some(model) = acks {
        assert(model == MemoryModel::Unified || model == MemoryModel::Separate);
    }
}

/// The lists of the ranks agree exactly where every rank gathered as many lanes as this
/// one, and then the same row, number for number.
pub proof fn lists_agree_where_every_number_does(
    proposal: ProposalState,
    counts: Seq<u64>,
    all: Seq<u64>,
)
    requires
        counts.len() == proposal.ranks,
        all.len() == proposal.ranks * proposal.row().len(),
    ensures
        proposal.count_fault(counts) is None <==> forall|r: int|
            0 <= r < counts.len() ==> counts[r] == proposal.lanes.len(),
        proposal.row_fault(all) is None <==> forall|r: int, i: int|
            0 <= r < proposal.ranks && 0 <= i < proposal.row().len() ==> #[trigger] all[r
                * proposal.row().len() + i] == proposal.row()[i],
{
    let width = proposal.row().len();
    assert forall|r: int| 0 <= r < proposal.ranks implies 0 <= #[trigger] (r * width) && r * width
        + width <= all.len() by {
        assert(0 <= r * width && r * width + width <= proposal.ranks * width) by (nonlinear_arith)
            requires
                0 <= r < proposal.ranks,
                width >= 0,
        ;
    }
    if proposal.row_fault(all) is None {
        assert forall|r: int, i: int|
            0 <= r < proposal.ranks && 0 <= i < width implies #[trigger] all[r * width + i]
            == proposal.row()[i] by {
            assert(proposal.row_of(all, r) == proposal.row());
            assert(proposal.row_of(all, r)[i] == all[r * width + i]);
        }
    } else if forall|r: int, i: int|
        0 <= r < proposal.ranks && 0 <= i < proposal.row().len() ==> #[trigger] all[r
            * proposal.row().len() + i] == proposal.row()[i] {
        assert forall|r: int| 0 <= r < proposal.ranks implies #[trigger] proposal.row_of(all, r)
            == proposal.row() by {
            assert forall|i: int| 0 <= i < width implies proposal.row_of(all, r)[i]
                == proposal.row()[i] by {
                assert(all[r * width + i] == proposal.row()[i]);
            }
            assert(proposal.row_of(all, r) =~= proposal.row());
        }
    }
}

} // verus!
