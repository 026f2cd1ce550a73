//! Allocating a window.
//!
//! Every rank proposes an element type and a length. The proposals are gathered
//! and compared; then the window is allocated, its memory model is queried, the
//! access epoch is entered, and the storage is zeroed and published inside it. The
//! epoch is left again unless the window is to stay in it. A window that cannot be
//! brought that far is freed.

use crate::element::Element;
use crate::error::{Error, Threading};
use crate::window::{check, MemoryModel, Window, WindowState};
use vstd::prelude::*;

verus! {

/// Numbers that a rank contributes to the comparison of proposals.
pub const CONFIG: usize = 3;

/// Why no proposal is made.
pub open spec fn proposal_fault(inter: bool, threading: Threading, size: i32) -> Option<Error> {
    if inter {
        Some(Error::Intercommunicator)
    } else if threading != Threading::Multiple {
        Some(Error::Threading(threading))
    } else if size < 0 {
        Some(Error::SizeOverflow)
    } else if size * CONFIG > usize::MAX {
        Some(Error::SizeOverflow)
    } else if size * CONFIG > i32::MAX {
        Some(Error::CountOverflow)
    } else {
        None
    }
}

/// What a rank wants its window to be.
pub struct Proposal {
    element: Element,
    rank: i32,
    ranks: usize,
    len: usize,
    enter: bool,
}

#[verifier::ext_equal]
pub struct ProposalState {
    pub element: Element,
    pub rank: i32,
    pub ranks: nat,
    pub len: usize,
    /// Whether the window is to be in its access epoch from the start.
    pub enter: bool,
}

impl ProposalState {
    /// The numbers that the ranks gather.
    pub open spec fn config(self) -> Seq<u64> {
        seq![self.len as u64, self.element.width() as u64, self.element.type_id() as u64]
    }

    /// The length that rank `r` proposes, in what was gathered.
    pub open spec fn length(self, configs: Seq<u64>, r: int) -> u64 {
        configs[CONFIG * r]
    }

    /// Whether rank `r` proposes another element type.
    pub open spec fn differs(self, configs: Seq<u64>, r: int) -> bool {
        configs[CONFIG * r + 1] != self.config()[1] || configs[CONFIG * r + 2] != self.config()[2]
    }

    /// Why the gathered proposals do not make a window.
    pub open spec fn agreement_fault(self, configs: Seq<u64>) -> Option<Error> {
        if exists|r: int| 0 <= r < self.ranks && self.differs(configs, r) {
            Some(Error::Window("element type differs between ranks"))
        } else if self.len * self.element.width() > isize::MAX || exists|r: int|
            0 <= r < self.ranks && (#[trigger] self.length(configs, r)) * self.element.width()
                > isize::MAX {
            Some(Error::SizeOverflow)
        } else {
            None
        }
    }
}

impl View for Proposal {
    type V = ProposalState;

    closed spec fn view(&self) -> ProposalState {
        ProposalState {
            element: self.element,
            rank: self.rank,
            ranks: self.ranks as nat,
            len: self.len,
            enter: self.enter,
        }
    }
}

impl Window {
    /// Proposes a window of `len` elements on `rank` of a communicator of `size`,
    /// in its access epoch from the start or not.
    pub fn allocate(
        inter: bool,
        threading: Threading,
        size: i32,
        rank: i32,
        element: Element,
        len: usize,
        enter: bool,
    ) -> (proposal: Result<Proposal, Error>)
        ensures
            match proposal_fault(inter, threading, size) {
                Some(error) => proposal == Err::<Proposal, Error>(error),
                None => {
                    &&& proposal matches Ok(made)
                    &&& made@ == (ProposalState {
                        element,
                        rank,
                        ranks: size as nat,
                        len,
                        enter,
                    })
                    &&& made@.ranks * CONFIG <= i32::MAX
                },
            },
    {
        if inter {
            return Err(Error::Intercommunicator);
        }
        if threading != Threading::Multiple {
            return Err(Error::Threading(threading));
        }
        if size < 0 {
            return Err(Error::SizeOverflow);
        }
        let ranks: usize = size as usize;
        match ranks.checked_mul(CONFIG) {
            None => {
                return Err(Error::SizeOverflow);
            },
            Some(gathered) => {
                if gathered > i32::MAX as usize {
                    return Err(Error::CountOverflow);
                }
            },
        }
        Ok(Proposal { element, rank, ranks, len, enter })
    }
}

impl Proposal {
    /// The numbers that the ranks gather.
    pub fn config(&self) -> (config: Vec<u64>)
        ensures
            config@ == self@.config(),
            config@.len() == CONFIG,
    {
        let mut config: Vec<u64> = Vec::with_capacity(CONFIG);
        config.push(self.len as u64);
        config.push(self.element.width() as u64);
        config.push(self.element.type_id() as u64);
        assert(config@ =~= self@.config());
        config
    }

    /// Compares what the ranks proposed.
    pub fn agree(self, configs: &[u64]) -> (allocation: Result<Allocation, Error>)
        requires
            configs@.len() == CONFIG * self@.ranks,
        ensures
            match self@.agreement_fault(configs@) {
                Some(error) => allocation == Err::<Allocation, Error>(error),
                None => {
                    &&& allocation matches Ok(made)
                    &&& made@ == (AllocationState {
                        element: self@.element,
                        rank: self@.rank,
                        len: self@.len,
                        lengths: Seq::new(
                            self@.ranks,
                            |r: int| self@.length(configs@, r) as usize,
                        ),
                        enter: self@.enter,
                        stage: Stage::Allocating,
                    })
                    &&& made@.wf()
                },
            },
    {
        let width: usize = self.element.width();
        let id: u64 = self.element.type_id() as u64;
        let gathered: usize = configs.len();
        let mut r: usize = 0;
        while r < self.ranks
            invariant
                r <= self.ranks,
                configs@.len() == gathered == CONFIG * self@.ranks,
                width == self@.element.width(),
                id == self@.element.type_id() as u64,
                forall|k: int| 0 <= k < r ==> !self@.differs(configs@, k),
            decreases self.ranks - r,
        {
            if configs[CONFIG * r + 1] != width as u64 || configs[CONFIG * r + 2] != id {
                assert(self@.differs(configs@, r as int));
                return Err(Error::Window("element type differs between ranks"));
            }
            r += 1;
        }
        let mut lengths: Vec<usize> = Vec::with_capacity(self.ranks);
        let mut r: usize = 0;
        while r < self.ranks
            invariant
                r <= self.ranks,
                configs@.len() == gathered == CONFIG * self@.ranks,
                1 <= width <= 8,
                width == self@.element.width(),
                forall|k: int| 0 <= k < self@.ranks ==> !self@.differs(configs@, k),
                forall|k: int|
                    0 <= k < r ==> (#[trigger] self@.length(configs@, k)) * width <= isize::MAX,
                lengths@ == Seq::new(r as nat, |k: int| self@.length(configs@, k) as usize),
            decreases self.ranks - r,
        {
            assert(configs@[CONFIG * r] * width <= u128::MAX) by (nonlinear_arith)
                requires
                    configs@[CONFIG * r] <= u64::MAX,
                    width <= 8,
            ;
            let wide: u128 = configs[CONFIG * r] as u128 * width as u128;
            assert(self@.length(configs@, r as int) * width == wide);
            if wide > isize::MAX as u128 {
                return Err(Error::SizeOverflow);
            }
            assert(configs@[CONFIG * r] <= configs@[CONFIG * r] * width) by (nonlinear_arith)
                requires
                    configs@[CONFIG * r] >= 0,
                    width >= 1,
            ;
            let length: usize = configs[CONFIG * r] as usize;
            lengths.push(length);
            r += 1;
            assert(lengths@ =~= Seq::new(
                r as nat,
                |k: int| self@.length(configs@, k) as usize,
            ));
        }
        assert(self.len * width <= u128::MAX) by (nonlinear_arith)
            requires
                self.len <= u64::MAX,
                width <= 8,
        ;
        let own: u128 = self.len as u128 * width as u128;
        if own > isize::MAX as u128 {
            return Err(Error::SizeOverflow);
        }
        Ok(
            Allocation {
                element: self.element,
                rank: self.rank,
                len: self.len,
                lengths,
                enter: self.enter,
                stage: Stage::Allocating,
            },
        )
    }
}

/// How far an allocation has come.
#[derive(Debug, Clone, Copy, PartialEq, Eq)]
pub enum Stage {
    /// The window is being allocated.
    Allocating,
    /// The memory model is being queried.
    Querying,
    /// The access epoch is being entered.
    Locking(MemoryModel),
    /// The storage is being zeroed.
    Zeroing(MemoryModel),
    /// Local and remote memory are being brought together.
    Syncing(MemoryModel),
    /// The access epoch is being left.
    Unlocking(MemoryModel),
    /// The window can be used.
    Ready(MemoryModel),
    Failed(Error),
}

/// What happened while a window is allocated.
#[derive(Debug, Clone, Copy, PartialEq, Eq, Structural)]
pub enum Event {
    /// The allocation returned this code, and a null base or not.
    Allocated { code: i32, null: bool },
    /// The query returned this code, and this attribute if there is one.
    Model { code: i32, attribute: Option<i32> },
    /// Entering the epoch returned this code.
    Locked { code: i32 },
    Zeroed,
    /// The synchronisation returned this code.
    Synced { code: i32 },
    /// Leaving the epoch returned this code.
    Unlocked { code: i32 },
}

/// What an allocation asks for next.
#[derive(Debug, Clone, Copy, PartialEq, Eq)]
pub enum Step {
    QueryModel,
    LockAll,
    /// Zero the storage of this rank.
    Zero,
    Sync,
    UnlockAll,
    /// Wait for the other ranks, then use the window.
    Barrier,
    /// Free the window and give up.
    Free(Error),
    /// Give up: there is no window to free.
    Fail(Error),
}

/// Codes by which calls are judged.
#[derive(Debug, Clone, Copy, PartialEq, Eq, Structural)]
pub struct Codes {
    /// What a call returns that succeeded.
    pub success: i32,
    /// The error of an unusable window.
    pub invalid: i32,
    /// The attribute of a window with the unified model.
    pub unified: i32,
}

#[verifier::ext_equal]
pub struct AllocationState {
    pub element: Element,
    pub rank: i32,
    pub len: usize,
    pub lengths: Seq<usize>,
    /// Whether the window is to be in its access epoch from the start.
    pub enter: bool,
    pub stage: Stage,
}

/// What the ends of a step make of the next stage.
pub open spec fn step_of(stage: Stage, allocated: bool) -> Step {
    match stage {
        Stage::Allocating | Stage::Querying => Step::QueryModel,
        Stage::Locking(_) => Step::LockAll,
        Stage::Zeroing(_) => Step::Zero,
        Stage::Syncing(_) => Step::Sync,
        Stage::Unlocking(_) => Step::UnlockAll,
        Stage::Ready(_) => Step::Barrier,
        Stage::Failed(error) => if allocated {
            Step::Free(error)
        } else {
            Step::Fail(error)
        },
    }
}

impl AllocationState {
    pub open spec fn wf(self) -> bool {
        &&& self.len * self.element.width() <= isize::MAX
        &&& forall|r: int|
            0 <= r < self.lengths.len() ==> (#[trigger] self.lengths[r]) * self.element.width()
                <= isize::MAX
    }

    /// Whether `event` is what the stage waits for.
    pub open spec fn awaits(self, event: Event) -> bool {
        match event {
            Event::Allocated { .. } => self.stage is Allocating,
            Event::Model { .. } => self.stage is Querying,
            Event::Locked { .. } => self.stage is Locking,
            Event::Zeroed => self.stage is Zeroing,
            Event::Synced { .. } => self.stage is Syncing,
            Event::Unlocked { .. } => self.stage is Unlocking,
        }
    }

    /// The stage after the zeros are published.
    pub open spec fn published(self, model: MemoryModel) -> Stage {
        if self.enter {
            Stage::Ready(model)
        } else {
            Stage::Unlocking(model)
        }
    }

    /// The stage after the storage is zeroed.
    pub open spec fn zeroed(self, model: MemoryModel) -> Stage {
        match model {
            MemoryModel::Separate => Stage::Syncing(model),
            MemoryModel::Unified => self.published(model),
        }
    }

    /// The stage after an event that was waited for.
    pub open spec fn after(self, event: Event, codes: Codes) -> Stage {
        match (self.stage, event) {
            (Stage::Allocating, Event::Allocated { code, null }) => if code != codes.success {
                Stage::Failed(Error::Mpi(code))
            } else if self.len > 0 && null {
                Stage::Failed(Error::Mpi(codes.invalid))
            } else {
                Stage::Querying
            },
            (Stage::Querying, Event::Model { code, attribute }) => if code != codes.success {
                Stage::Failed(Error::Mpi(code))
            } else {
                match attribute {
                    None => Stage::Failed(Error::Mpi(codes.invalid)),
                    Some(value) => Stage::Locking(
                        if value == codes.unified {
                            MemoryModel::Unified
                        } else {
                            MemoryModel::Separate
                        },
                    ),
                }
            },
            (Stage::Locking(model), Event::Locked { code }) => if code != codes.success {
                Stage::Failed(Error::Mpi(code))
            } else if self.len > 0 {
                Stage::Zeroing(model)
            } else {
                self.zeroed(model)
            },
            (Stage::Zeroing(model), Event::Zeroed) => self.zeroed(model),
            (Stage::Syncing(model), Event::Synced { code }) => if code != codes.success {
                Stage::Failed(Error::Mpi(code))
            } else {
                self.published(model)
            },
            (Stage::Unlocking(model), Event::Unlocked { code }) => if code != codes.success {
                Stage::Failed(Error::Mpi(code))
            } else {
                Stage::Ready(model)
            },
            _ => self.stage,
        }
    }

    /// Whether the window exists after `event`.
    pub open spec fn allocated(self, event: Event, codes: Codes) -> bool {
        match event {
            Event::Allocated { code, .. } => code == codes.success,
            _ => true,
        }
    }
}

/// A window on its way to use.
pub struct Allocation {
    element: Element,
    rank: i32,
    len: usize,
    lengths: Vec<usize>,
    enter: bool,
    stage: Stage,
}

impl View for Allocation {
    type V = AllocationState;

    closed spec fn view(&self) -> AllocationState {
        AllocationState {
            element: self.element,
            rank: self.rank,
            len: self.len,
            lengths: self.lengths@,
            enter: self.enter,
            stage: self.stage,
        }
    }
}

impl Allocation {
    /// The bytes that this rank allocates.
    pub fn bytes(&self) -> (bytes: usize)
        requires
            self@.wf(),
        ensures
            bytes == self@.len * self@.element.width() <= isize::MAX,
    {
        self.len * self.element.width()
    }

    /// The bytes of an element.
    pub fn width(&self) -> (width: i32)
        ensures
            width == self@.element.width(),
    {
        self.element.width() as i32
    }

    fn fail(&mut self, error: Error)
        ensures
            final(self)@ == (AllocationState { stage: Stage::Failed(error), ..old(self)@ }),
    {
        self.stage = Stage::Failed(error);
    }

    fn published(&mut self, model: MemoryModel) -> (step: Step)
        ensures
            final(self)@ == (AllocationState {
                stage: old(self)@.published(model),
                ..old(self)@
            }),
            step == step_of(final(self)@.stage, true),
    {
        if self.enter {
            self.stage = Stage::Ready(model);
            Step::Barrier
        } else {
            self.stage = Stage::Unlocking(model);
            Step::UnlockAll
        }
    }

    fn zeroed(&mut self, model: MemoryModel) -> (step: Step)
        ensures
            final(self)@ == (AllocationState { stage: old(self)@.zeroed(model), ..old(self)@ }),
            step == step_of(final(self)@.stage, true),
    {
        if model == MemoryModel::Separate {
            self.stage = Stage::Syncing(model);
            Step::Sync
        } else {
            self.published(model)
        }
    }

    /// Takes note of what happened and says what comes next.
    pub fn next(&mut self, event: Event, codes: Codes) -> (step: Step)
        requires
            old(self)@.awaits(event),
        ensures
            final(self)@ == (AllocationState {
                stage: old(self)@.after(event, codes),
                ..old(self)@
            }),
            step == step_of(
                old(self)@.after(event, codes),
                old(self)@.allocated(event, codes),
            ),
    {
        match event {
            Event::Allocated { code, null } => {
                if let Err(error) = check(code, codes.success) {
                    self.fail(error);
                    return Step::Fail(error);
                }
                if self.len > 0 && null {
                    self.fail(Error::Mpi(codes.invalid));
                    return Step::Free(Error::Mpi(codes.invalid));
                }
                self.stage = Stage::Querying;
                Step::QueryModel
            },
            Event::Model { code, attribute } => {
                if let Err(error) = check(code, codes.success) {
                    self.fail(error);
                    return Step::Free(error);
                }
                match attribute {
                    None => {
                        self.fail(Error::Mpi(codes.invalid));
                        Step::Free(Error::Mpi(codes.invalid))
                    },
                    Some(value) => {
                        let model: MemoryModel = if value == codes.unified {
                            MemoryModel::Unified
                        } else {
                            MemoryModel::Separate
                        };
                        self.stage = Stage::Locking(model);
                        Step::LockAll
                    },
                }
            },
            Event::Locked { code } => {
                if let Err(error) = check(code, codes.success) {
                    self.fail(error);
                    return Step::Free(error);
                }
                if let Stage::Locking(model) = self.stage {
                    if self.len > 0 {
                        self.stage = Stage::Zeroing(model);
                        return Step::Zero;
                    }
                    return self.zeroed(model);
                }
                Step::LockAll
            },
            Event::Zeroed => {
                if let Stage::Zeroing(model) = self.stage {
                    return self.zeroed(model);
                }
                Step::Zero
            },
            Event::Synced { code } => {
                if let Err(error) = check(code, codes.success) {
                    self.fail(error);
                    return Step::Free(error);
                }
                if let Stage::Syncing(model) = self.stage {
                    return self.published(model);
                }
                Step::Sync
            },
            Event::Unlocked { code } => {
                if let Err(error) = check(code, codes.success) {
                    self.fail(error);
                    return Step::Free(error);
                }
                if let Stage::Unlocking(model) = self.stage {
                    self.stage = Stage::Ready(model);
                }
                Step::Barrier
            },
        }
    }

    /// The window, once it can be used.
    pub fn finish(self) -> (window: Option<Window>)
        ensures
            match self@.stage {
                Stage::Ready(model) => {
                    &&& window matches Some(made)
                    &&& made@ == (WindowState {
                        element: self@.element,
                        rank: self@.rank,
                        len: self@.len,
                        lengths: self@.lengths,
                        model,
                        epoch: self@.enter,
                        closed: false,
                    })
                    &&& self@.wf() && 0 <= self@.rank < self@.lengths.len() <= i32::MAX
                        ==> made@.wf()
                },
                _ => window is None,
            },
    {
        if let Stage::Ready(model) = self.stage {
            Some(
                Window::new(
                    self.element,
                    self.rank,
                    self.len,
                    self.lengths,
                    model,
                    self.enter,
                ),
            )
        } else {
            None
        }
    }
}

/// What the ranks gather when each contributes its proposal.
pub open spec fn gathers(configs: Seq<u64>, proposals: Seq<ProposalState>) -> bool {
    &&& configs.len() == CONFIG * proposals.len()
    &&& forall|r: int|
        0 <= r < proposals.len() ==> (#[trigger] proposals[r]).ranks == proposals.len()
            && configs.subrange(CONFIG * r, CONFIG * r + CONFIG) == proposals[r].config()
}

/// Where two ranks propose different element types, every rank is refused, and
/// none goes on to allocate.
pub proof fn differing_elements_fail_everywhere(
    configs: Seq<u64>,
    proposals: Seq<ProposalState>,
    a: int,
    b: int,
    r: int,
)
    requires
        gathers(configs, proposals),
        0 <= a < proposals.len(),
        0 <= b < proposals.len(),
        proposals[a].element != proposals[b].element,
        0 <= r < proposals.len(),
    ensures
        proposals[r].agreement_fault(configs) == Some(
            Error::Window("element type differs between ranks"),
        ),
{
    let other = if proposals[a].element != proposals[r].element {
        a
    } else {
        b
    };
    crate::element::type_ids_tell_elements_apart(proposals[other].element, proposals[r].element);
    let row = configs.subrange(CONFIG * other, CONFIG * other + CONFIG);
    assert(row == proposals[other].config());
    assert(row[2] == configs[CONFIG * other + 2]);
    assert(proposals[r].differs(configs, other));
}

/// Where the element types agree and every length fits, every rank goes on, and
/// all of them know the same lengths: the proposed ones.
pub proof fn agreeing_proposals_succeed_everywhere(
    configs: Seq<u64>,
    proposals: Seq<ProposalState>,
    r: int,
    s: int,
)
    requires
        gathers(configs, proposals),
        forall|k: int|
            0 <= k < proposals.len() ==> (#[trigger] proposals[k]).element == proposals[r].element
                && proposals[k].len * proposals[k].element.width() <= isize::MAX,
        0 <= r < proposals.len(),
        0 <= s < proposals.len(),
    ensures
        proposals[r].agreement_fault(configs) is None,
        proposals[r].length(configs, s) == proposals[s].len,
{
    assert forall|k: int| 0 <= k < proposals.len() implies !proposals[r].differs(configs, k)
        && proposals[r].length(configs, k) == proposals[k].len by {
        let row = configs.subrange(CONFIG * k, CONFIG * k + CONFIG);
        assert(row == proposals[k].config());
        assert(row[0] == configs[CONFIG * k]);
        assert(row[1] == configs[CONFIG * k + 1]);
        assert(row[2] == configs[CONFIG * k + 2]);
    }
}

/// The state that a series of events leads to, if each of them was waited for.
pub open spec fn run(start: AllocationState, events: Seq<Event>, codes: Codes) -> Option<
    AllocationState,
>
    decreases events.len(),
{
    if events.len() == 0 {
        Some(start)
    } else {
        match run(start, events.drop_last(), codes) {
            None => None,
            Some(state) => if state.awaits(events.last()) {
                Some(AllocationState { stage: state.after(events.last(), codes), ..state })
            } else {
                None
            },
        }
    }
}

/// Whether `events` begins with an allocation, a query that found `model`, and
/// the entry of the epoch, each with success.
pub open spec fn entered(events: Seq<Event>, codes: Codes, model: MemoryModel) -> bool {
    &&& events.len() >= 3
    &&& queried(events, codes, model)
    &&& events[2] == (Event::Locked { code: codes.success })
}

/// Whether `events` begins with an allocation and a query that found `model`,
/// each with success.
pub open spec fn queried(events: Seq<Event>, codes: Codes, model: MemoryModel) -> bool {
    &&& events.len() >= 2
    &&& events[0] matches Event::Allocated { code, .. } && code == codes.success
    &&& events[1] matches Event::Model { code, attribute: Some(value) } && code == codes.success
        && (value == codes.unified <==> model == MemoryModel::Unified)
}

/// Whether `events` is the entry of the epoch, the zeroing where there is storage,
/// and, under the separate model, the publishing of the zeros, each with success.
pub open spec fn initialised(
    events: Seq<Event>,
    codes: Codes,
    model: MemoryModel,
    len: usize,
) -> bool {
    let zeroings: int = if len > 0 {
        1
    } else {
        0
    };
    &&& entered(events, codes, model)
    &&& len > 0 ==> events.len() > 3 && events[3] == Event::Zeroed
    &&& model == MemoryModel::Unified ==> events.len() == 3 + zeroings
    &&& model == MemoryModel::Separate ==> events.len() == 4 + zeroings && events.last() == (
    Event::Synced { code: codes.success })
}

/// What has happened by the time an allocation reaches a stage.
pub open spec fn history(
    events: Seq<Event>,
    stage: Stage,
    len: usize,
    enter: bool,
    codes: Codes,
) -> bool {
    match stage {
        Stage::Allocating => events.len() == 0,
        Stage::Querying => {
            &&& events.len() == 1
            &&& events[0] matches Event::Allocated { code, .. } && code == codes.success
        },
        Stage::Locking(model) => events.len() == 2 && queried(events, codes, model),
        Stage::Zeroing(model) => len > 0 && events.len() == 3 && entered(events, codes, model),
        Stage::Syncing(model) => {
            &&& model == MemoryModel::Separate
            &&& initialised(events.push(Event::Synced { code: codes.success }), codes, model, len)
        },
        Stage::Unlocking(model) => !enter && initialised(events, codes, model, len),
        Stage::Ready(model) => if enter {
            initialised(events, codes, model, len)
        } else {
            &&& events.len() > 0
            &&& events.last() == (Event::Unlocked { code: codes.success })
            &&& initialised(events.drop_last(), codes, model, len)
        },
        Stage::Failed(_) => events.len() > 0,
    }
}

/// A window is used only after its epoch was entered, its storage zeroed where
/// there is any, and, under the separate model, the zeros published, in that order
/// and inside the epoch. The epoch is left at the end exactly where the window is
/// not to stay in it.
pub proof fn stages_are_reached_in_order(
    start: AllocationState,
    events: Seq<Event>,
    codes: Codes,
)
    requires
        start.stage is Allocating,
        run(start, events, codes) is Some,
    ensures
        history(events, run(start, events, codes)->0.stage, start.len, start.enter, codes),
        run(start, events, codes)->0 == (AllocationState {
            stage: run(start, events, codes)->0.stage,
            ..start
        }),
    decreases events.len(),
{
    if events.len() > 0 {
        stages_are_reached_in_order(start, events.drop_last(), codes);
        assert(events =~= events.drop_last().push(events.last()));
        let synced = Event::Synced { code: codes.success };
        assert(events.push(synced).drop_last() =~= events);
    }
}

/// A window that was allocated and then failed is freed; one that was never
/// allocated is not.
pub proof fn failures_after_the_allocation_free(
    state: AllocationState,
    event: Event,
    codes: Codes,
    error: Error,
)
    requires
        state.awaits(event),
        state.after(event, codes) == Stage::Failed(error),
    ensures
        step_of(state.after(event, codes), state.allocated(event, codes)) == (if event is Allocated
            && event->Allocated_code != codes.success {
            Step::Fail(error)
        } else {
            Step::Free(error)
        }),
{
}

/// The events of an allocation in which every call succeeds.
pub open spec fn successes(
    len: usize,
    enter: bool,
    value: i32,
    null: bool,
    codes: Codes,
) -> Seq<Event> {
    let code = codes.success;
    let zeroing = if len > 0 {
        seq![Event::Zeroed]
    } else {
        Seq::<Event>::empty()
    };
    let publishing = if value == codes.unified {
        Seq::<Event>::empty()
    } else {
        seq![Event::Synced { code }]
    };
    let leaving = if enter {
        Seq::<Event>::empty()
    } else {
        seq![Event::Unlocked { code }]
    };
    seq![
        Event::Allocated { code, null },
        Event::Model { code, attribute: Some(value) },
        Event::Locked { code },
    ] + zeroing + publishing + leaving
}

/// One more event of a run.
proof fn runs_go_on(start: AllocationState, events: Seq<Event>, event: Event, codes: Codes)
    ensures
        run(start, events.push(event), codes) == match run(start, events, codes) {
            None => None::<AllocationState>,
            Some(state) => if state.awaits(event) {
                Some(AllocationState { stage: state.after(event, codes), ..state })
            } else {
                None
            },
        },
{
    assert(events.push(event).drop_last() =~= events);
}

/// Where every call succeeds, an allocation ends in a window that can be used, with the
/// memory model that the query found, whatever the lengths of the ranks: every event
/// is waited for in its turn.
pub proof fn successful_allocations_end_in_a_window(
    start: AllocationState,
    value: i32,
    null: bool,
    codes: Codes,
)
    requires
        start.stage is Allocating,
        start.len > 0 ==> !null,
    ensures
        ({
            let model = if value == codes.unified {
                MemoryModel::Unified
            } else {
                MemoryModel::Separate
            };
            run(start, successes(start.len, start.enter, value, null, codes), codes) == Some(
                AllocationState { stage: Stage::Ready(model), ..start },
            )
        }),
{
    let code = codes.success;
    let e0 = Seq::<Event>::empty();
    let e1 = e0.push(Event::Allocated { code, null });
    let e2 = e1.push(Event::Model { code, attribute: Some(value) });
    let e3 = e2.push(Event::Locked { code });
    let e4 = if start.len > 0 {
        e3.push(Event::Zeroed)
    } else {
        e3
    };
    let e5 = if value == codes.unified {
        e4
    } else {
        e4.push(Event::Synced { code })
    };
    let e6 = if start.enter {
        e5
    } else {
        e5.push(Event::Unlocked { code })
    };
    runs_go_on(start, e0, Event::Allocated { code, null }, codes);
    runs_go_on(start, e1, Event::Model { code, attribute: Some(value) }, codes);
    runs_go_on(start, e2, Event::Locked { code }, codes);
    runs_go_on(start, e3, Event::Zeroed, codes);
    runs_go_on(start, e4, Event::Synced { code }, codes);
    runs_go_on(start, e5, Event::Unlocked { code }, codes);
    assert(e6 =~= successes(start.len, start.enter, value, null, codes));
}

/// An allocation fails for a cause and only for a cause: a call that failed, with its
/// code; no memory where there should be some; no memory model. The lengths of the
/// ranks are none.
pub proof fn allocations_fail_for_a_cause(state: AllocationState, event: Event, codes: Codes)
    requires
        state.awaits(event),
    ensures
        ({
            let after = state.after(event, codes);
            match event {
                Event::Allocated { code, null } => {
                    &&& code != codes.success ==> after == Stage::Failed(Error::Mpi(code))
                    &&& code == codes.success && state.len > 0 && null ==> after == Stage::Failed(
                        Error::Mpi(codes.invalid),
                    )
                    &&& code == codes.success && (state.len == 0 || !null) ==> !(after is Failed)
                },
                Event::Model { code, attribute } => {
                    &&& code != codes.success ==> after == Stage::Failed(Error::Mpi(code))
                    &&& code == codes.success && attribute is None ==> after == Stage::Failed(
                        Error::Mpi(codes.invalid),
                    )
                    &&& code == codes.success && attribute is Some ==> !(after is Failed)
                },
                Event::Locked { code } | Event::Synced { code } | Event::Unlocked { code } => {
                    &&& code != codes.success ==> after == Stage::Failed(Error::Mpi(code))
                    &&& code == codes.success ==> !(after is Failed)
                },
                Event::Zeroed => !(after is Failed),
            }
        }),
{
}

/// What an allocation asks for is what it then waits for; only a window that can be used
/// asks for the barrier, and only a failed one is given up.
pub proof fn steps_ask_for_what_is_awaited(
    state: AllocationState,
    event: Event,
    codes: Codes,
    code: i32,
    attribute: Option<i32>,
)
    requires
        state.awaits(event),
    ensures
        ({
            let after = AllocationState { stage: state.after(event, codes), ..state };
            let step = step_of(state.after(event, codes), state.allocated(event, codes));
            &&& step is QueryModel <==> after.awaits(Event::Model { code, attribute })
            &&& step is LockAll <==> after.awaits(Event::Locked { code })
            &&& step is Zero <==> after.awaits(Event::Zeroed)
            &&& step is Sync <==> after.awaits(Event::Synced { code })
            &&& step is UnlockAll <==> after.awaits(Event::Unlocked { code })
            &&& step is Barrier <==> after.stage is Ready
            &&& step is Free || step is Fail <==> after.stage is Failed
        }),
{
}

/// A rank contributes its length, and the width and number of its element type.
pub proof fn proposals_contribute_their_length_and_type(proposal: ProposalState)
    ensures
        proposal.config().len() == 3,
        proposal.config()[0] == proposal.len,
        proposal.config()[1] == proposal.element.width(),
        proposal.config()[2] == proposal.element.type_id(),
{
}

/// A length whose bytes fit no address fails everywhere, where the types agree; nothing
/// else does.
pub proof fn lengths_that_do_not_fit_fail_everywhere(
    configs: Seq<u64>,
    proposals: Seq<ProposalState>,
    k: int,
    r: int,
)
    requires
        gathers(configs, proposals),
        0 <= r < proposals.len(),
        0 <= k < proposals.len(),
        forall|i: int|
            0 <= i < proposals.len() ==> (#[trigger] proposals[i]).element == proposals[r].element,
        proposals[k].len * proposals[k].element.width() > isize::MAX,
    ensures
        proposals[r].agreement_fault(configs) == Some(Error::SizeOverflow),
{
    assert forall|i: int| 0 <= i < proposals.len() implies !proposals[r].differs(configs, i)
        && proposals[r].length(configs, i) == proposals[i].len by {
        let row = configs.subrange(CONFIG * i, CONFIG * i + CONFIG);
        assert(row == proposals[i].config());
        assert(row[0] == configs[CONFIG * i]);
        assert(row[1] == configs[CONFIG * i + 1]);
        assert(row[2] == configs[CONFIG * i + 2]);
    }
    assert(proposals[k].element == proposals[r].element);
    assert(proposals[r].length(configs, k) == proposals[k].len);
}

/// A window is proposed over every intracommunicator under full threading whose
/// proposals can be gathered, and over no other.
pub proof fn windows_need_threading_and_an_intracommunicator(
    inter: bool,
    threading: Threading,
    size: i32,
)
    ensures
        ({
            let fault = proposal_fault(inter, threading, size);
            &&& !inter && threading == Threading::Multiple && 0 <= size && size * 3 <= i32::MAX
                <==> fault is None
            &&& inter ==> fault == Some(Error::Intercommunicator)
            &&& !inter && threading != Threading::Multiple ==> fault == Some(
                Error::Threading(threading),
            )
            &&& !inter && threading == Threading::Multiple && size < 0 ==> fault == Some(
                Error::SizeOverflow,
            )
            &&& !inter && threading == Threading::Multiple && i32::MAX < size * 3
                <= usize::MAX ==> fault == Some(Error::CountOverflow)
            &&& !inter && threading == Threading::Multiple && size * 3 > usize::MAX ==> fault == Some(
                Error::SizeOverflow,
            )
        }),
{
}

/// Proposals agree exactly where no rank gathered another width or another number of an
/// element type than this one, and all lengths fit an address. Lengths are compared
/// with nothing else, and each is known as it was gathered.
pub proof fn widths_and_types_are_compared_and_lengths_are_not(
    proposal: ProposalState,
    configs: Seq<u64>,
    r: int,
)
    requires
        configs.len() == 3 * proposal.ranks,
        0 <= r < proposal.ranks,
    ensures
        proposal.differs(configs, r) <==> configs[3 * r + 1] != proposal.element.width()
            || configs[3 * r + 2] != proposal.element.type_id(),
        proposal.length(configs, r) == configs[3 * r],
        proposal.differs(configs, r) ==> proposal.agreement_fault(configs) == Some(
            Error::Window("element type differs between ranks"),
        ),
        (forall|k: int| 0 <= k < proposal.ranks ==> !#[trigger] proposal.differs(configs, k)) ==> {
            let width = proposal.element.width();
            let fault = proposal.agreement_fault(configs);
            &&& proposal.length(configs, r) * width > isize::MAX || proposal.len * width > isize::MAX
                ==> fault == Some(Error::SizeOverflow)
            &&& (proposal.len * width <= isize::MAX && forall|k: int|
                0 <= k < proposal.ranks ==> (#[trigger] proposal.length(configs, k)) * width
                    <= isize::MAX) ==> fault is None
        },
{
    let config = proposal.config();
    assert(config[1] == proposal.element.width() && config[2] == proposal.element.type_id());
}

} // verus!
