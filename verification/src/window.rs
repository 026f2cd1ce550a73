//! Windows: memory that every rank of a communicator exposes to the others.
//!
//! A window has the same element type on every rank; lengths may differ. Remote
//! operations need an access epoch, which is entered once, when the window is
//! allocated or later, and left when the window is closed.

use crate::element::Element;
use crate::element::RmaElement;
use crate::error::Error;
use crate::layout::Indexed;
use vstd::prelude::*;

verus! {

/// How the memory that remote operations reach relates to local memory.
#[derive(Debug, Clone, Copy, PartialEq, Eq, Structural)]
pub enum MemoryModel {
    /// One memory: local loads see remote updates.
    Unified,
    /// Two copies, brought together by a synchronisation call.
    Separate,
}

/// What a window is known by.
#[verifier::ext_equal]
pub struct WindowState {
    pub element: Element,
    /// The rank that holds this end of the window.
    pub rank: i32,
    /// The elements allocated by this rank.
    pub len: usize,
    /// The elements allocated by each rank.
    pub lengths: Seq<usize>,
    pub model: MemoryModel,
    /// Whether the access epoch is entered.
    pub epoch: bool,
    pub closed: bool,
}

impl WindowState {
    pub open spec fn wf(self) -> bool {
        &&& 0 <= self.rank < self.lengths.len() <= i32::MAX
        &&& forall|r: int|
            0 <= r < self.lengths.len() ==> (#[trigger] self.lengths[r]) * self.element.width()
                <= isize::MAX
    }

    /// Why `start..start + len` cannot be accessed on `rank` by a remote operation.
    pub open spec fn reach_fault(self, rank: i32, start: usize, len: usize) -> Option<Error> {
        if rank < 0 || rank >= self.lengths.len() {
            Some(Error::Rank(rank))
        } else if start + len > self.lengths[rank as int] {
            Some(Error::Range { start, len, window: self.lengths[rank as int] })
        } else {
            None
        }
    }

    /// Why `start..start + len` does not lie in the window of `rank`. An end that
    /// fits no `usize` is told apart.
    pub open spec fn range_fault(self, rank: i32, start: usize, len: usize) -> Option<Error> {
        if 0 <= rank < self.lengths.len() && start + len > usize::MAX {
            Some(Error::SizeOverflow)
        } else {
            self.reach_fault(rank, start, len)
        }
    }

    /// Why `len` elements from `start` on cannot be transferred to or from `rank`.
    pub open spec fn transfer_fault(self, rank: i32, start: usize, len: usize) -> Option<Error> {
        if self.reach_fault(rank, start, len) is Some {
            self.reach_fault(rank, start, len)
        } else if len > i32::MAX {
            Some(Error::CountOverflow)
        } else if !self.epoch {
            Some(Error::Epoch("RMA operation outside lock_all epoch"))
        } else {
            None
        }
    }

    /// Why a layout cannot take `values` values to `rank`.
    pub open spec fn scatter_fault(self, rank: i32, values: usize, len: usize, bound: usize) -> Option<
        Error,
    > {
        if values != len {
            Some(Error::Layout("origin and target signatures differ"))
        } else if self.range_fault(rank, 0, bound) is Some {
            self.range_fault(rank, 0, bound)
        } else if values > i32::MAX {
            Some(Error::CountOverflow)
        } else if !self.epoch {
            Some(Error::Epoch("RMA operation outside lock_all epoch"))
        } else {
            None
        }
    }

    /// What closing does next, and what it leaves of the window.
    pub open spec fn closing(self, event: CloseEvent, success: i32) -> (WindowState, CloseStep) {
        if self.closed {
            (self, CloseStep::Done(Ok(())))
        } else {
            match event {
                CloseEvent::Start => if self.epoch {
                    (self, CloseStep::UnlockAll)
                } else {
                    (self, CloseStep::Free)
                },
                CloseEvent::Unlocked(code) => if code == success {
                    (WindowState { epoch: false, ..self }, CloseStep::Free)
                } else {
                    (
                        WindowState { closed: true, ..self },
                        CloseStep::Done(Err(Error::Mpi(code))),
                    )
                },
                CloseEvent::Freed(code) => (
                    WindowState { closed: true, ..self },
                    CloseStep::Done(
                        if code == success {
                            Ok(())
                        } else {
                            Err(Error::Mpi(code))
                        },
                    ),
                ),
            }
        }
    }
}

/// Judges the code that a communication call returned.
pub fn check(code: i32, success: i32) -> (result: Result<(), Error>)
    ensures
        result == if code == success {
            Ok::<(), Error>(())
        } else {
            Err(Error::Mpi(code))
        },
{
    if code == success {
        Ok(())
    } else {
        Err(Error::Mpi(code))
    }
}

/// A transfer that passed every check.
#[derive(Debug, Clone, Copy, PartialEq, Eq, Structural)]
pub struct Transfer {
    /// The rank whose window is accessed.
    pub rank: i32,
    /// The first element, counted from the start of that window.
    pub displacement: usize,
    pub count: i32,
}

/// What happened while a window is closed.
#[derive(Debug, Clone, Copy, PartialEq, Eq, Structural)]
pub enum CloseEvent {
    Start,
    /// Leaving the epoch returned this code.
    Unlocked(i32),
    /// Freeing the window returned this code.
    Freed(i32),
}

/// What closing a window asks for next.
#[derive(Debug, Clone, Copy, PartialEq, Eq)]
pub enum CloseStep {
    /// Leave the access epoch.
    UnlockAll,
    /// Free the window.
    Free,
    Done(Result<(), Error>),
}

/// One rank's end of a window.
pub struct Window {
    element: Element,
    rank: i32,
    len: usize,
    lengths: Vec<usize>,
    model: MemoryModel,
    epoch: bool,
    closed: bool,
}

impl View for Window {
    type V = WindowState;

    closed spec fn view(&self) -> WindowState {
        WindowState {
            element: self.element,
            rank: self.rank,
            len: self.len,
            lengths: self.lengths@,
            model: self.model,
            epoch: self.epoch,
            closed: self.closed,
        }
    }
}

impl Window {
    /// A window, inside its access epoch or not.
    pub fn new(
        element: Element,
        rank: i32,
        len: usize,
        lengths: Vec<usize>,
        model: MemoryModel,
        epoch: bool,
    ) -> (window: Window)
        ensures
            window@ == (WindowState {
                element,
                rank,
                len,
                lengths: lengths@,
                model,
                epoch,
                closed: false,
            }),
    {
        Window { element, rank, len, lengths, model, epoch, closed: false }
    }

    /// The number of elements that this rank allocated.
    pub fn len(&self) -> (len: usize)
        ensures
            len == self@.len,
    {
        self.len
    }

    /// Whether this rank allocated no element.
    pub fn is_empty(&self) -> (empty: bool)
        ensures
            empty == (self@.len == 0),
    {
        self.len == 0
    }

    /// The memory model of the window.
    pub fn memory_model(&self) -> (model: MemoryModel)
        ensures
            model == self@.model,
    {
        self.model
    }

    /// Whether the access epoch is entered.
    pub fn in_epoch(&self) -> (entered: bool)
        ensures
            entered == self@.epoch,
    {
        self.epoch
    }

    /// Takes note of the code that entering the access epoch returned.
    pub fn lock_all(&mut self, code: i32, success: i32) -> (result: Result<(), Error>)
        ensures
            result == if code == success {
                Ok::<(), Error>(())
            } else {
                Err(Error::Mpi(code))
            },
            final(self)@ == (WindowState {
                epoch: old(self)@.epoch || code == success,
                ..old(self)@
            }),
    {
        let result: Result<(), Error> = check(code, success);
        if code == success {
            self.epoch = true;
        }
        result
    }

    /// Judges the code that bringing local and remote memory together returned.
    ///
    /// Under the separate model that call comes between a remote put and a local
    /// read that is to observe it.
    pub fn sync(&self, code: i32, success: i32) -> (result: Result<(), Error>)
        ensures
            result == if code == success {
                Ok::<(), Error>(())
            } else {
                Err(Error::Mpi(code))
            },
    {
        check(code, success)
    }

    /// Checks that `start..start + len` lies in the window of `rank`.
    pub fn validate(&self, rank: i32, start: usize, len: usize) -> (result: Result<(), Error>)
        ensures
            result == match self@.range_fault(rank, start, len) {
                Some(error) => Err::<(), Error>(error),
                None => Ok(()),
            },
    {
        if rank < 0 || rank as usize >= self.lengths.len() {
            return Err(Error::Rank(rank));
        }
        let end: usize = match start.checked_add(len) {
            Some(end) => end,
            None => {
                return Err(Error::SizeOverflow);
            },
        };
        let window: usize = self.lengths[rank as usize];
        if end > window {
            return Err(Error::Range { start, len, window });
        }
        Ok(())
    }

    /// Checks a copy out of local window storage.
    pub fn read_local(&self, disp: usize, len: usize) -> (result: Result<(), Error>)
        ensures
            result == match self@.range_fault(self@.rank, disp, len) {
                Some(error) => Err::<(), Error>(error),
                None => Ok(()),
            },
    {
        self.validate(self.rank, disp, len)
    }

    /// Checks a volatile copy of scalars that a remote operation may be changing.
    pub fn read_local_volatile(&self, disp: usize, len: usize) -> (result: Result<(), Error>)
        ensures
            result == match self@.range_fault(self@.rank, disp, len) {
                Some(error) => Err::<(), Error>(error),
                None => Ok(()),
            },
    {
        self.validate(self.rank, disp, len)
    }

    fn transfer(&self, rank: i32, disp: usize, len: usize) -> (transfer: Result<Transfer, Error>)
        ensures
            transfer == match self@.transfer_fault(rank, disp, len) {
                Some(error) => Err::<Transfer, Error>(error),
                None => Ok(
                    Transfer { rank, displacement: disp, count: len as i32 },
                ),
            },
            transfer is Ok ==> transfer->Ok_0.count == len,
    {
        if rank < 0 || rank as usize >= self.lengths.len() {
            return Err(Error::Rank(rank));
        }
        let window: usize = self.lengths[rank as usize];
        if disp > window || len > window - disp {
            return Err(Error::Range { start: disp, len, window });
        }
        if len > i32::MAX as usize {
            return Err(Error::CountOverflow);
        }
        if !self.epoch {
            return Err(Error::Epoch("RMA operation outside lock_all epoch"));
        }
        Ok(Transfer { rank, displacement: disp, count: len as i32 })
    }

    /// Checks a put of `len` elements into the window of `dest`.
    pub fn put(&self, dest: i32, disp: usize, len: usize) -> (transfer: Result<Transfer, Error>)
        ensures
            transfer == match self@.transfer_fault(dest, disp, len) {
                Some(error) => Err::<Transfer, Error>(error),
                None => Ok(
                    Transfer { rank: dest, displacement: disp, count: len as i32 },
                ),
            },
            transfer is Ok ==> transfer->Ok_0.count == len,
            transfer is Ok <==> 0 <= dest < self@.lengths.len() && disp + len
                <= self@.lengths[dest as int] && len <= i32::MAX && self@.epoch,
    {
        self.transfer(dest, disp, len)
    }

    /// Checks a get of `len` elements from the window of `source`.
    pub fn get(&self, source: i32, disp: usize, len: usize) -> (transfer: Result<Transfer, Error>)
        ensures
            transfer == match self@.transfer_fault(source, disp, len) {
                Some(error) => Err::<Transfer, Error>(error),
                None => Ok(
                    Transfer { rank: source, displacement: disp, count: len as i32 },
                ),
            },
            transfer is Ok ==> transfer->Ok_0.count == len,
            transfer is Ok <==> 0 <= source < self@.lengths.len() && disp + len
                <= self@.lengths[source as int] && len <= i32::MAX && self@.epoch,
    {
        self.transfer(source, disp, len)
    }

    /// Checks an atomic addition to one element of the window of `dest`.
    pub fn fetch_add(&self, dest: i32, disp: usize) -> (transfer: Result<Transfer, Error>)
        ensures
            transfer == match self@.transfer_fault(dest, disp, 1) {
                Some(error) => Err::<Transfer, Error>(error),
                None => Ok(Transfer { rank: dest, displacement: disp, count: 1 }),
            },
            transfer is Ok <==> 0 <= dest < self@.lengths.len() && disp < self@.lengths[dest as int]
                && self@.epoch,
    {
        self.transfer(dest, disp, 1)
    }

    /// Checks a scatter of `values` values into the window of `dest`.
    pub fn put_indexed<T: RmaElement>(
        &self,
        dest: i32,
        values: usize,
        layout: &Indexed<T>,
    ) -> (transfer: Result<Transfer, Error>)
        requires
            self@.element.width() == T::spec_element().width(),
        ensures
            transfer == match self@.scatter_fault(dest, values, layout.len(), layout.bound()) {
                Some(error) => Err::<Transfer, Error>(error),
                None => Ok(Transfer { rank: dest, displacement: 0, count: values as i32 }),
            },
            transfer is Ok ==> transfer->Ok_0.count == values,
            transfer is Ok <==> values == layout.len() && 0 <= dest < self@.lengths.len()
                && layout.bound() <= self@.lengths[dest as int] && values <= i32::MAX
                && self@.epoch,
    {
        if values != layout.len() {
            return Err(Error::Layout("origin and target signatures differ"));
        }
        match self.validate(dest, 0, layout.bound()) {
            Ok(()) => {},
            Err(error) => {
                return Err(error);
            },
        }
        if values > i32::MAX as usize {
            return Err(Error::CountOverflow);
        }
        if !self.epoch {
            return Err(Error::Epoch("RMA operation outside lock_all epoch"));
        }
        Ok(Transfer { rank: dest, displacement: 0, count: values as i32 })
    }

    /// Says what closing the window needs next.
    ///
    /// The epoch is left, then the window is freed. A window that was closed,
    /// with success or not, needs nothing more.
    pub fn close(&mut self, event: CloseEvent, success: i32) -> (step: CloseStep)
        ensures
            (final(self)@, step) == old(self)@.closing(event, success),
    {
        if self.closed {
            return CloseStep::Done(Ok(()));
        }
        match event {
            CloseEvent::Start => {
                if self.epoch {
                    CloseStep::UnlockAll
                } else {
                    CloseStep::Free
                }
            },
            CloseEvent::Unlocked(code) => {
                match check(code, success) {
                    Ok(()) => {
                        self.epoch = false;
                        CloseStep::Free
                    },
                    Err(error) => {
                        self.closed = true;
                        CloseStep::Done(Err(error))
                    },
                }
            },
            CloseEvent::Freed(code) => {
                self.closed = true;
                CloseStep::Done(check(code, success))
            },
        }
    }
}

/// An operation that is let through lies in the target's window, fits a transfer
/// count and an address, and is made inside the access epoch.
pub proof fn transfers_stay_in_bounds(window: WindowState, rank: i32, start: usize, len: usize)
    requires
        window.wf(),
        window.transfer_fault(rank, start, len) is None,
    ensures
        0 <= rank < window.lengths.len(),
        start + len <= window.lengths[rank as int],
        (start + len) * window.element.width() <= isize::MAX,
        len <= i32::MAX,
        window.epoch,
{
    let length = window.lengths[rank as int];
    let width = window.element.width();
    assert((start + len) * width <= length * width) by (nonlinear_arith)
        requires
            start + len <= length,
            width >= 0,
    ;
}

/// No operation is let through once the epoch is left.
pub proof fn nothing_passes_outside_the_epoch(
    window: WindowState,
    rank: i32,
    start: usize,
    len: usize,
)
    requires
        !window.epoch,
    ensures
        window.transfer_fault(rank, start, len) is Some,
        forall|values: usize, bound: usize|
            window.scatter_fault(rank, values, len, bound) is Some,
{
}

/// Closing ends once: whatever the calls returned, a window that reported the
/// end of closing is closed, and a closed window asks for no further call.
pub proof fn closing_ends_once(
    window: WindowState,
    event: CloseEvent,
    later: CloseEvent,
    success: i32,
)
    ensures
        window.closing(event, success).1 is Done ==> window.closing(event, success).0.closed,
        window.closing(event, success).0.closed ==> window.closing(event, success).0.closing(
            later,
            success,
        ) == (window.closing(event, success).0, CloseStep::Done(Ok(()))),
{
}

/// Inside the epoch every transfer passes that lies in the window of a rank and fits
/// a count; each other one is refused for what is wrong with it: the rank first,
/// then the range, then the count, then the epoch.
pub proof fn transfers_in_bounds_pass(window: WindowState, rank: i32, start: usize, len: usize)
    ensures
        ({
            let fault = window.transfer_fault(rank, start, len);
            let known = 0 <= rank < window.lengths.len();
            let inside = start + len <= window.lengths[rank as int];
            &&& known && inside && len <= i32::MAX && window.epoch <==> fault is None
            &&& !known ==> fault == Some(Error::Rank(rank))
            &&& known && !inside ==> fault == Some(
                Error::Range { start, len, window: window.lengths[rank as int] },
            )
            &&& known && inside && len > i32::MAX ==> fault == Some(Error::CountOverflow)
            &&& known && inside && len <= i32::MAX && !window.epoch ==> fault == Some(
                Error::Epoch("RMA operation outside lock_all epoch"),
            )
        }),
{
}

/// A part of a transfer that passes passes too.
pub proof fn parts_of_transfers_pass(
    window: WindowState,
    rank: i32,
    start: usize,
    len: usize,
    part: usize,
    part_len: usize,
)
    requires
        window.transfer_fault(rank, start, len) is None,
        start <= part,
        part + part_len <= start + len,
    ensures
        window.transfer_fault(rank, part, part_len) is None,
        window.range_fault(rank, part, part_len) is None,
{
}

/// A local range passes exactly where it lies in the window. Else an end that fits no
/// `usize` and an end past the window are told apart.
pub proof fn ranges_in_bounds_pass(window: WindowState, rank: i32, start: usize, len: usize)
    ensures
        ({
            let fault = window.range_fault(rank, start, len);
            let known = 0 <= rank < window.lengths.len();
            &&& known && start + len <= window.lengths[rank as int] <==> fault is None
            &&& !known ==> fault == Some(Error::Rank(rank))
            &&& known && start + len > usize::MAX ==> fault == Some(Error::SizeOverflow)
            &&& known && window.lengths[rank as int] < start + len <= usize::MAX ==> fault == Some(
                Error::Range { start, len, window: window.lengths[rank as int] },
            )
        }),
{
}

/// A scatter passes exactly where every value has its target and every target lies in
/// the window, inside the epoch. Else it is refused for what is wrong with it.
pub proof fn scatters_in_bounds_pass(
    window: WindowState,
    rank: i32,
    values: usize,
    len: usize,
    bound: usize,
)
    ensures
        ({
            let fault = window.scatter_fault(rank, values, len, bound);
            let known = 0 <= rank < window.lengths.len();
            let inside = bound <= window.lengths[rank as int];
            &&& values == len && known && inside && values <= i32::MAX && window.epoch <==> fault is None
            &&& values != len ==> fault == Some(
                Error::Layout("origin and target signatures differ"),
            )
            &&& values == len && !known ==> fault == Some(Error::Rank(rank))
            &&& values == len && known && !inside ==> fault == Some(
                Error::Range { start: 0, len: bound, window: window.lengths[rank as int] },
            )
            &&& values == len && known && inside && values > i32::MAX ==> fault == Some(
                Error::CountOverflow,
            )
            &&& values == len && known && inside && values <= i32::MAX && !window.epoch
                ==> fault == Some(Error::Epoch("RMA operation outside lock_all epoch"))
        }),
{
}

/// An open window that is closed leaves its epoch if it is in it, and is then freed. A
/// call that fails ends the closing with its code. Nothing else of the window changes.
pub proof fn closing_leaves_the_epoch_and_frees(
    window: WindowState,
    event: CloseEvent,
    code: i32,
    success: i32,
)
    requires
        !window.closed,
    ensures
        window.closing(CloseEvent::Start, success).0 == window,
        window.epoch ==> window.closing(CloseEvent::Start, success).1 == CloseStep::UnlockAll,
        !window.epoch ==> window.closing(CloseEvent::Start, success).1 == CloseStep::Free,
        ({
            let (left, step) = window.closing(CloseEvent::Unlocked(code), success);
            &&& code == success ==> step == CloseStep::Free && !left.epoch && !left.closed
            &&& code != success ==> step == CloseStep::Done(Err(Error::Mpi(code))) && left.closed
        }),
        ({
            let (freed, step) = window.closing(CloseEvent::Freed(code), success);
            &&& freed.closed
            &&& code == success ==> step == CloseStep::Done(Ok(()))
            &&& code != success ==> step == CloseStep::Done(Err(Error::Mpi(code)))
        }),
        ({
            let after = window.closing(event, success).0;
            &&& after.element == window.element
            &&& after.rank == window.rank
            &&& after.len == window.len
            &&& after.lengths == window.lengths
            &&& after.model == window.model
        }),
{
}

} // verus!
