use mpi_rma::allocate::{Allocation, Codes, Event, Step};
use mpi_rma::window::{check, CloseEvent, CloseStep};
use mpi_rma::{Element, Error, Indexed, MemoryModel, Threading, Transfer, Window};

const CODES: Codes = Codes {
    success: 0,
    invalid: 45,
    unified: 1,
};

/// One rank's end of a window of `u64`, with the memory of every rank.
struct Memory {
    window: Window,
    ranks: Vec<Vec<u64>>,
}

impl Memory {
    fn put(&mut self, dest: i32, disp: usize, data: &[u64]) -> Result<(), Error> {
        let transfer = self.window.put(dest, disp, data.len())?;
        let end = transfer.displacement + transfer.count as usize;
        self.ranks[transfer.rank as usize][transfer.displacement..end].copy_from_slice(data);
        Ok(())
    }

    fn get(&self, source: i32, disp: usize, out: &mut [u64]) -> Result<(), Error> {
        let transfer = self.window.get(source, disp, out.len())?;
        let end = transfer.displacement + transfer.count as usize;
        out.copy_from_slice(&self.ranks[transfer.rank as usize][transfer.displacement..end]);
        Ok(())
    }

    fn fetch_add(&mut self, dest: i32, disp: usize, value: u64) -> Result<u64, Error> {
        let transfer = self.window.fetch_add(dest, disp)?;
        let target = &mut self.ranks[transfer.rank as usize][transfer.displacement];
        let previous = *target;
        *target = previous.wrapping_add(value);
        Ok(previous)
    }

    fn put_indexed(
        &mut self,
        dest: i32,
        values: &[u64],
        layout: &Indexed<u64>,
    ) -> Result<(), Error> {
        let transfer = self.window.put_indexed(dest, values.len(), layout)?;
        for (value, displacement) in values.iter().zip(layout.displacements()) {
            self.ranks[transfer.rank as usize][*displacement as usize / 8] = *value;
        }
        Ok(())
    }

    fn close(&mut self) -> Result<(), Error> {
        let mut step = self.window.close(CloseEvent::Start, 0);
        loop {
            step = match step {
                CloseStep::UnlockAll => self.window.close(CloseEvent::Unlocked(0), 0),
                CloseStep::Free => self.window.close(CloseEvent::Freed(0), 0),
                CloseStep::Done(result) => return result,
            };
        }
    }
}

/// Allocates on one rank alone.
fn begin(len: usize, enter: bool) -> Allocation {
    let proposal = Window::allocate(false, Threading::Multiple, 1, 0, Element::U64, len, enter)
        .ok()
        .unwrap();
    let config = proposal.config();
    proposal.agree(&config).ok().unwrap()
}

fn window(len: usize, enter: bool, unified: bool) -> Memory {
    let mut allocation = begin(len, enter);
    let mut memory = vec![u64::MAX; allocation.bytes() / allocation.width() as usize];
    let mut step = allocation.next(
        Event::Allocated {
            code: 0,
            null: false,
        },
        CODES,
    );
    loop {
        step = match step {
            Step::QueryModel => allocation.next(
                Event::Model {
                    code: 0,
                    attribute: Some(if unified { 1 } else { 2 }),
                },
                CODES,
            ),
            Step::LockAll => allocation.next(Event::Locked { code: 0 }, CODES),
            Step::Zero => {
                memory.fill(0);
                allocation.next(Event::Zeroed, CODES)
            }
            Step::Sync => allocation.next(Event::Synced { code: 0 }, CODES),
            Step::UnlockAll => allocation.next(Event::Unlocked { code: 0 }, CODES),
            Step::Barrier => {
                return Memory {
                    window: allocation.finish().unwrap(),
                    ranks: vec![memory],
                }
            }
            Step::Free(_) | Step::Fail(_) => unreachable!(),
        };
    }
}

#[test]
fn contiguous_and_indexed_roundtrip() {
    let rank = 0;
    let size = 1;
    let next = (rank + 1) % size;
    let prev = (rank + size - 1) % size;

    let mut win = window(8, false, true);
    assert!(matches!(
        win.get(rank, 0, &mut [0]),
        Err(Error::Epoch("RMA operation outside lock_all epoch"))
    ));
    win.window.lock_all(0, 0).unwrap();

    win.put(next, 0, &[rank as u64 + 10, rank as u64 + 20])
        .unwrap();

    let mut got = [0; 8];
    win.get(rank, 0, &mut got).unwrap();
    assert_eq!(got[0], prev as u64 + 10);
    assert_eq!(got[1], prev as u64 + 20);

    let layout = Indexed::new(&[2, 5], win.window.len()).ok().unwrap();
    win.put_indexed(next, &[rank as u64 + 100, rank as u64 + 200], &layout)
        .unwrap();

    win.get(rank, 0, &mut got).unwrap();
    assert_eq!(got[2], prev as u64 + 100);
    assert_eq!(got[5], prev as u64 + 200);
    assert!(matches!(
        win.put(rank, win.window.len(), &[1]),
        Err(Error::Range { .. })
    ));
    assert!(matches!(
        win.put_indexed(rank, &[1], &layout),
        Err(Error::Layout("origin and target signatures differ"))
    ));

    win.close().unwrap();
}

#[test]
fn windows_check_bounds_and_ranks() {
    let rank = 0;
    let size = 1;
    let mut win = window(8, true, true);
    assert!(win.window.in_epoch());
    win.put(rank, 0, &[10, 20]).unwrap();
    let mut got = [7; 8];
    win.get(rank, 0, &mut got).unwrap();
    assert_eq!(got, [10, 20, 0, 0, 0, 0, 0, 0]);

    assert_eq!(
        win.put(rank, 8, &[1]),
        Err(Error::Range {
            start: 8,
            len: 1,
            window: 8
        })
    );
    assert_eq!(win.put(-1, 0, &[1]), Err(Error::Rank(-1)));
    assert_eq!(win.put(size, 0, &[1]), Err(Error::Rank(1)));
    assert_eq!(
        win.get(rank, 8, &mut [0]),
        Err(Error::Range {
            start: 8,
            len: 1,
            window: 8
        })
    );
    assert_eq!(win.fetch_add(rank, 7, 1), Ok(0));
    assert_eq!(win.fetch_add(rank, 7, 0), Ok(1));
    assert_eq!(
        win.fetch_add(rank, 8, 0),
        Err(Error::Range {
            start: 8,
            len: 1,
            window: 8
        })
    );
    // An empty transfer at the very end is in bounds.
    assert_eq!(win.put(rank, 8, &[]), Ok(()));
}

#[test]
fn lengths_may_differ_between_ranks() {
    let window = Window::new(Element::U8, 1, 3, vec![5, 3, 0], MemoryModel::Unified, true);
    assert_eq!(window.len(), 3);
    assert!(!window.is_empty());
    assert_eq!(
        window.put(0, 2, 3),
        Ok(Transfer {
            rank: 0,
            displacement: 2,
            count: 3
        })
    );
    assert_eq!(
        window.put(1, 2, 3),
        Err(Error::Range {
            start: 2,
            len: 3,
            window: 3
        })
    );
    assert_eq!(
        window.get(2, 0, 1),
        Err(Error::Range {
            start: 0,
            len: 1,
            window: 0
        })
    );
    assert_eq!(window.read_local(0, 3), Ok(()));
    assert_eq!(
        window.read_local(1, 3),
        Err(Error::Range {
            start: 1,
            len: 3,
            window: 3
        })
    );
    assert_eq!(window.read_local_volatile(2, 1), Ok(()));
    assert_eq!(
        window.read_local_volatile(3, 1),
        Err(Error::Range {
            start: 3,
            len: 1,
            window: 3
        })
    );
}

#[test]
fn ranges_past_the_window_and_long_counts_are_refused() {
    let huge = Window::new(
        Element::U8,
        0,
        usize::MAX,
        vec![usize::MAX],
        MemoryModel::Unified,
        false,
    );
    // The end of a range may lie past every number.
    assert_eq!(
        huge.put(0, usize::MAX, 1),
        Err(Error::Range {
            start: usize::MAX,
            len: 1,
            window: usize::MAX
        })
    );
    let small = Window::new(Element::U64, 0, 8, vec![8], MemoryModel::Unified, true);
    let past = Error::Range {
        start: usize::MAX,
        len: 1,
        window: 8,
    };
    assert_eq!(small.put(0, usize::MAX, 1), Err(past));
    assert_eq!(small.get(0, usize::MAX, 1), Err(past));
    assert_eq!(small.fetch_add(0, usize::MAX), Err(past));
    // Local reads tell such an end apart.
    assert_eq!(small.validate(0, usize::MAX, 1), Err(Error::SizeOverflow));
    assert_eq!(small.read_local(usize::MAX, 1), Err(Error::SizeOverflow));
    assert_eq!(
        small.read_local_volatile(usize::MAX, 1),
        Err(Error::SizeOverflow)
    );
    assert_eq!(small.validate(1, usize::MAX, 1), Err(Error::Rank(1)));
    assert_eq!(
        small.put(0, 1, usize::MAX),
        Err(Error::Range {
            start: 1,
            len: usize::MAX,
            window: 8
        })
    );
    // The count is checked before the epoch.
    assert_eq!(
        huge.put(0, 0, i32::MAX as usize + 1),
        Err(Error::CountOverflow)
    );
    assert_eq!(
        huge.put(0, 0, i32::MAX as usize),
        Err(Error::Epoch("RMA operation outside lock_all epoch"))
    );
    // The rank is checked before the range.
    assert_eq!(huge.get(1, usize::MAX, 1), Err(Error::Rank(1)));
}

#[test]
fn local_reads_need_no_epoch() {
    let win = window(4, false, true);
    assert!(!win.window.in_epoch());
    assert_eq!(win.window.read_local(0, 4), Ok(()));
    assert_eq!(win.window.read_local_volatile(0, 4), Ok(()));
    assert_eq!(win.window.sync(0, 0), Ok(()));
    assert_eq!(win.window.sync(3, 0), Err(Error::Mpi(3)));
}

#[test]
fn epochs_are_entered_by_success_alone() {
    let mut win = window(4, false, true);
    assert_eq!(win.window.lock_all(6, 0), Err(Error::Mpi(6)));
    assert!(!win.window.in_epoch());
    assert_eq!(win.window.lock_all(0, 0), Ok(()));
    assert!(win.window.in_epoch());
    let layout = Indexed::<u64>::new(&[3], 4).ok().unwrap();
    assert_eq!(win.put_indexed(0, &[9], &layout), Ok(()));
    assert_eq!(win.ranks[0], vec![0, 0, 0, 9]);
    assert_eq!(win.put_indexed(4, &[9], &layout), Err(Error::Rank(4)));
}

#[test]
fn layouts_are_held_to_the_target() {
    let window = Window::new(Element::U64, 0, 8, vec![8, 3], MemoryModel::Unified, true);
    let layout = Indexed::<u64>::new(&[2, 5], 8).ok().unwrap();
    assert_eq!(
        window.put_indexed(0, 2, &layout),
        Ok(Transfer {
            rank: 0,
            displacement: 0,
            count: 2
        })
    );
    assert_eq!(
        window.put_indexed(1, 2, &layout),
        Err(Error::Range {
            start: 0,
            len: 6,
            window: 3
        })
    );
    let outside = Window::new(Element::U64, 0, 8, vec![8], MemoryModel::Unified, false);
    assert_eq!(
        outside.put_indexed(0, 2, &layout),
        Err(Error::Epoch("RMA operation outside lock_all epoch"))
    );
}

#[test]
fn memory_is_zeroed_and_published() {
    let win = window(4, true, false);
    assert_eq!(win.window.memory_model(), MemoryModel::Separate);
    assert_eq!(win.ranks[0], vec![0; 4]);
    let later = window(4, false, false);
    assert!(!later.window.in_epoch());
    assert_eq!(later.ranks[0], vec![0; 4]);
    let empty = window(0, true, true);
    assert!(empty.window.is_empty());
    assert_eq!(empty.window.memory_model(), MemoryModel::Unified);
}

#[test]
fn element_types_must_agree() {
    let gathered = [1, 1, 1, 2, 8, 4];
    for (rank, element, len) in [(0, Element::U8, 1), (1, Element::U64, 2)] {
        let proposal = Window::allocate(false, Threading::Multiple, 2, rank, element, len, true)
            .ok()
            .unwrap();
        let row = rank as usize * 3;
        assert_eq!(proposal.config(), gathered[row..row + 3].to_vec());
        assert!(matches!(
            proposal.agree(&gathered),
            Err(Error::Window("element type differs between ranks"))
        ));
    }
    // The same width is not the same type.
    let proposal = Window::allocate(false, Threading::Multiple, 2, 0, Element::U64, 1, true)
        .ok()
        .unwrap();
    assert!(matches!(
        proposal.agree(&[1, 8, 4, 1, 8, 12]),
        Err(Error::Window("element type differs between ranks"))
    ));
}

#[test]
fn communicators_and_threading_are_checked() {
    let refusal = |inter, threading, size| {
        Window::allocate(inter, threading, size, 0, Element::U8, 1, true).err()
    };
    assert_eq!(
        refusal(true, Threading::Single, -1),
        Some(Error::Intercommunicator)
    );
    for level in [
        Threading::Single,
        Threading::Funneled,
        Threading::Serialized,
    ] {
        assert_eq!(refusal(false, level, -1), Some(Error::Threading(level)));
    }
    assert_eq!(
        refusal(false, Threading::Multiple, -1),
        Some(Error::SizeOverflow)
    );
    assert_eq!(
        refusal(false, Threading::Multiple, i32::MAX),
        Some(Error::CountOverflow)
    );
    assert_eq!(refusal(false, Threading::Multiple, i32::MAX / 3), None);
}

#[test]
fn sizes_that_overflow_are_refused() {
    let propose = |len| {
        Window::allocate(false, Threading::Multiple, 2, 0, Element::U64, len, true)
            .ok()
            .unwrap()
    };
    assert!(matches!(
        propose(1).agree(&[1, 8, 4, u64::MAX, 8, 4]),
        Err(Error::SizeOverflow)
    ));
    let most = isize::MAX as usize / 8;
    assert!(propose(1).agree(&[1, 8, 4, most as u64, 8, 4]).is_ok());
    assert!(matches!(
        propose(1).agree(&[1, 8, 4, most as u64 + 1, 8, 4]),
        Err(Error::SizeOverflow)
    ));
    assert!(matches!(
        propose(most + 1).agree(&[1, 8, 4, 1, 8, 4]),
        Err(Error::SizeOverflow)
    ));
}

#[test]
fn failed_allocations_are_freed() {
    // Nothing was allocated, so nothing is freed.
    let mut allocation = begin(2, true);
    assert_eq!(
        allocation.next(Event::Allocated { code: 3, null: true }, CODES),
        Step::Fail(Error::Mpi(3))
    );
    assert!(allocation.finish().is_none());

    let mut allocation = begin(2, true);
    assert_eq!(
        allocation.next(Event::Allocated { code: 0, null: true }, CODES),
        Step::Free(Error::Mpi(45))
    );

    let allocated = Event::Allocated {
        code: 0,
        null: false,
    };
    let mut allocation = begin(2, true);
    allocation.next(allocated, CODES);
    assert_eq!(
        allocation.next(
            Event::Model {
                code: 8,
                attribute: Some(1)
            },
            CODES
        ),
        Step::Free(Error::Mpi(8))
    );

    let mut allocation = begin(2, true);
    allocation.next(allocated, CODES);
    assert_eq!(
        allocation.next(
            Event::Model {
                code: 0,
                attribute: None
            },
            CODES
        ),
        Step::Free(Error::Mpi(45))
    );

    let model = Event::Model {
        code: 0,
        attribute: Some(2),
    };
    let mut allocation = begin(2, true);
    allocation.next(allocated, CODES);
    assert_eq!(allocation.next(model, CODES), Step::LockAll);
    assert_eq!(
        allocation.next(Event::Locked { code: 7 }, CODES),
        Step::Free(Error::Mpi(7))
    );

    let mut allocation = begin(2, true);
    allocation.next(allocated, CODES);
    allocation.next(model, CODES);
    assert_eq!(
        allocation.next(Event::Locked { code: 0 }, CODES),
        Step::Zero
    );
    assert_eq!(allocation.next(Event::Zeroed, CODES), Step::Sync);
    assert_eq!(
        allocation.next(Event::Synced { code: 6 }, CODES),
        Step::Free(Error::Mpi(6))
    );
    assert!(allocation.finish().is_none());

    // A window that is not to stay in its epoch leaves it at the end.
    let mut allocation = begin(2, false);
    allocation.next(allocated, CODES);
    assert_eq!(allocation.next(model, CODES), Step::LockAll);
    allocation.next(Event::Locked { code: 0 }, CODES);
    assert_eq!(allocation.next(Event::Zeroed, CODES), Step::Sync);
    assert_eq!(
        allocation.next(Event::Synced { code: 0 }, CODES),
        Step::UnlockAll
    );
    assert_eq!(
        allocation.next(Event::Unlocked { code: 9 }, CODES),
        Step::Free(Error::Mpi(9))
    );
    assert!(allocation.finish().is_none());

    // An empty window needs no memory.
    let mut allocation = begin(0, true);
    assert_eq!(
        allocation.next(Event::Allocated { code: 0, null: true }, CODES),
        Step::QueryModel
    );
}

#[test]
fn closing_leaves_the_epoch_and_frees_once() {
    let mut win = window(1, true, true).window;
    assert_eq!(win.close(CloseEvent::Start, 0), CloseStep::UnlockAll);
    assert_eq!(win.close(CloseEvent::Unlocked(0), 0), CloseStep::Free);
    assert_eq!(
        win.put(0, 0, 1),
        Err(Error::Epoch("RMA operation outside lock_all epoch"))
    );
    assert_eq!(win.close(CloseEvent::Freed(0), 0), CloseStep::Done(Ok(())));
    assert_eq!(win.close(CloseEvent::Start, 0), CloseStep::Done(Ok(())));

    // A window that never entered the epoch does not leave it.
    let mut win = window(1, false, true).window;
    assert_eq!(win.close(CloseEvent::Start, 0), CloseStep::Free);

    // A failure ends closing too.
    let mut win = window(1, true, true).window;
    win.close(CloseEvent::Start, 0);
    assert_eq!(
        win.close(CloseEvent::Unlocked(4), 0),
        CloseStep::Done(Err(Error::Mpi(4)))
    );
    assert_eq!(win.close(CloseEvent::Start, 0), CloseStep::Done(Ok(())));

    let mut win = window(1, true, true).window;
    win.close(CloseEvent::Start, 0);
    win.close(CloseEvent::Unlocked(0), 0);
    assert_eq!(
        win.close(CloseEvent::Freed(5), 0),
        CloseStep::Done(Err(Error::Mpi(5)))
    );
    assert_eq!(win.close(CloseEvent::Start, 0), CloseStep::Done(Ok(())));
}

#[test]
fn codes_other_than_success_are_errors() {
    assert_eq!(check(0, 0), Ok(()));
    assert_eq!(check(1, 0), Err(Error::Mpi(1)));
    assert_eq!(check(1, 1), Ok(()));
}
