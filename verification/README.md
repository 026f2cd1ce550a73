# mpi-rma

Typed one-sided communication over MPI windows, with fixed-slot message rings on
top, written and verified in [Verus](https://github.com/verus-lang/verus).

- `src/` is the library: the rules of windows, scatter layouts and rings, each
  function with a contract that Verus proves. It makes no MPI call. Where a step
  needs one, the library says which, and takes the outcome as a plain value.
- `app/` makes those calls on `rsmpi` communicators.
- `tests/` runs the library over plain memory.

## Windows

A window has the same element type on every rank; lengths may differ. Elements are
scalars: `u8` to `u64`, `i8` to `i64`, `usize`, `isize`, `f32` and `f64`. Memory is
zeroed at allocation. Remote operations need an access epoch: a window is allocated
inside it or enters it later with `lock_all`, and leaves it when it is closed. The
rank, the range, the count and the epoch are checked before every operation.

`Indexed` is a scatter layout: origin value `i` goes to the index `i` of a fixed
list of distinct targets.

## Rings

A ring is a sparse set of directed lanes, `(source, destination, depth, capacity)`,
that all ranks name alike. A slot holds one message:

```text
[sequence: u64] [length: u64] [crc32: u32] [payload: u8; capacity] [guard: u64]
```

The message with sequence `s` occupies slot `(s - 1) % depth`. On a safe ring a
sender waits until the previous occupant was acknowledged. On a raw ring it never
waits, and a receiver that was lapped counts what it missed as lost.

## Where to look

| Module | Holds |
| --- | --- |
| `window`, `allocate`, `layout`, `element` | windows and layouts |
| `frame` | slot images and the checksum |
| `lane`, `config` | where lanes lie, and how ranks agree on them |
| `ring`, `receive`, `recovery`, `sort` | sending, polling, acknowledging |
| `link`, `transport` | what a lane promises from end to end |

The checksum is the CRC-32 of IEEE 802.3, computed by `crc32fast`, and sorting is done by the standard
library. What is assumed of them stands with the three functions that call them,
`frame::crc32_of`, `sort::sort_pairs` and `lane::sort_lanes`.
