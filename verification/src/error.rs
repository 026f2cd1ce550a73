//! Failures of windows, layouts and rings.
//!
//! - `Mpi`, `Threading`: what the communication library reported.
//! - `Intercommunicator`, `SizeOverflow`, `CountOverflow`, `Rank`, `Range`,
//!   `Window`, `Epoch`: windows.
//! - `Layout`: scatter layouts.
//! - `Ring`, `Payload`, `Ack`, `Lapped`: the ring transport.

use crate::decimal;
use crate::decimal::{push_integer, push_natural};
use vstd::prelude::*;
use vstd::string::StringExecFns;

verus! {

/// Threading support that a communication library can offer, weakest first.
#[derive(Debug, Clone, Copy, PartialEq, Eq, Structural)]
pub enum Threading {
    Single,
    Funneled,
    Serialized,
    Multiple,
}

#[derive(Debug, Clone, Copy, PartialEq, Eq)]
pub enum Error {
    /// A communication call returned this code.
    Mpi(i32),
    /// The communication library offers less than `Threading::Multiple`.
    Threading(Threading),
    Intercommunicator,
    SizeOverflow,
    CountOverflow,
    /// The rank is outside the communicator.
    Rank(i32),
    /// `start..start + len` does not lie in a window of length `window`.
    Range { start: usize, len: usize, window: usize },
    Window(&'static str),
    /// An operation needs another epoch state than the window's.
    Epoch(&'static str),
    Layout(&'static str),
    Ring(&'static str),
    /// The payload is longer than what a slot of the lane fits.
    Payload { len: usize, capacity: usize },
    /// `sequence` is past the last message received from `origin`.
    Ack { origin: i32, sequence: u64, received: u64 },
    /// A slot of a safe lane was overwritten before it was consumed.
    Lapped { origin: i32, expected: u64, found: u64 },
}

impl Threading {
    /// The name of the level.
    pub open spec fn label(self) -> Seq<char> {
        match self {
            Threading::Single => "Single"@,
            Threading::Funneled => "Funneled"@,
            Threading::Serialized => "Serialized"@,
            Threading::Multiple => "Multiple"@,
        }
    }

    pub fn name(self) -> (text: &'static str)
        ensures
            text@ == self.label(),
    {
        match self {
            Threading::Single => "Single",
            Threading::Funneled => "Funneled",
            Threading::Serialized => "Serialized",
            Threading::Multiple => "Multiple",
        }
    }
}

/// `a + b`, or the greatest `usize` where the sum is greater.
pub open spec fn saturating_sum(a: usize, b: usize) -> nat {
    if a + b > usize::MAX {
        usize::MAX as nat
    } else {
        (a + b) as nat
    }
}

impl Error {
    /// What the error says to a person.
    pub open spec fn text(self) -> Seq<char> {
        match self {
            Error::Mpi(code) => "MPI RMA error "@ + decimal::integer(code as int),
            Error::Threading(got) => "MPI RMA requires Threading::Multiple, got "@ + got.label(),
            Error::Intercommunicator => "MPI RMA requires an intracommunicator"@,
            Error::SizeOverflow => "RMA window size does not fit MPI_Aint"@,
            Error::CountOverflow => "RMA transfer count does not fit MPI Count"@,
            Error::Rank(rank) => "rank "@ + decimal::integer(rank as int)
                + " is outside the window communicator"@,
            Error::Range { start, len, window } => "RMA range "@ + decimal::natural(start as nat) + ".."@
                + decimal::natural(saturating_sum(start, len)) + " exceeds window length "@ + decimal::natural(
                window as nat,
            ),
            Error::Window(reason) => "invalid RMA window: "@ + reason@,
            Error::Epoch(reason) => "invalid RMA epoch: "@ + reason@,
            Error::Layout(reason) => "invalid RMA layout: "@ + reason@,
            Error::Ring(reason) => "invalid RMA ring state: "@ + reason@,
            Error::Payload { len, capacity } => "ring payload length "@ + decimal::natural(len as nat)
                + " exceeds capacity "@ + decimal::natural(capacity as nat),
            Error::Ack { origin, sequence, received } => "cannot acknowledge sequence "@ + decimal::natural(
                sequence as nat,
            ) + " from rank "@ + decimal::integer(origin as int) + "; received through "@ + decimal::natural(
                received as nat,
            ),
            Error::Lapped { origin, expected, found } => "safe lane from rank "@ + decimal::integer(
                origin as int,
            ) + " was overwritten: expected sequence "@ + decimal::natural(expected as nat) + ", found "@
                + decimal::natural(found as nat),
        }
    }

    /// The error in words.
    pub fn message(&self) -> (message: String)
        ensures
            message@ == self.text(),
    {
        let mut out: String = String::new();
        match *self {
            Error::Mpi(code) => {
                out.append("MPI RMA error ");
                push_integer(&mut out, code);
            },
            Error::Threading(got) => {
                out.append("MPI RMA requires Threading::Multiple, got ");
                out.append(got.name());
            },
            Error::Intercommunicator => {
                out.append("MPI RMA requires an intracommunicator");
            },
            Error::SizeOverflow => {
                out.append("RMA window size does not fit MPI_Aint");
            },
            Error::CountOverflow => {
                out.append("RMA transfer count does not fit MPI Count");
            },
            Error::Rank(rank) => {
                out.append("rank ");
                push_integer(&mut out, rank);
                out.append(" is outside the window communicator");
            },
            Error::Range { start, len, window } => {
                out.append("RMA range ");
                push_natural(&mut out, start as u128);
                out.append("..");
                push_natural(&mut out, start.saturating_add(len) as u128);
                out.append(" exceeds window length ");
                push_natural(&mut out, window as u128);
            },
            Error::Window(reason) => {
                out.append("invalid RMA window: ");
                out.append(reason);
            },
            Error::Epoch(reason) => {
                out.append("invalid RMA epoch: ");
                out.append(reason);
            },
            Error::Layout(reason) => {
                out.append("invalid RMA layout: ");
                out.append(reason);
            },
            Error::Ring(reason) => {
                out.append("invalid RMA ring state: ");
                out.append(reason);
            },
            Error::Payload { len, capacity } => {
                out.append("ring payload length ");
                push_natural(&mut out, len as u128);
                out.append(" exceeds capacity ");
                push_natural(&mut out, capacity as u128);
            },
            Error::Ack { origin, sequence, received } => {
                out.append("cannot acknowledge sequence ");
                push_natural(&mut out, sequence as u128);
                out.append(" from rank ");
                push_integer(&mut out, origin);
                out.append("; received through ");
                push_natural(&mut out, received as u128);
            },
            Error::Lapped { origin, expected, found } => {
                out.append("safe lane from rank ");
                push_integer(&mut out, origin);
                out.append(" was overwritten: expected sequence ");
                push_natural(&mut out, expected as u128);
                out.append(", found ");
                push_natural(&mut out, found as u128);
            },
        }
        assert(out@ =~= self.text());
        out
    }
}

/// What each error says, whatever numbers and reasons it carries.
pub proof fn errors_say_what_they_carry(
    code: i32,
    got: Threading,
    start: usize,
    len: usize,
    window: usize,
    reason: &'static str,
    origin: i32,
    first: u64,
    second: u64,
)
    ensures
        Error::Mpi(code).text() == "MPI RMA error "@ + decimal::integer(code as int),
        Error::Threading(got).text() == "MPI RMA requires Threading::Multiple, got "@ + got.label(),
        Error::Intercommunicator.text() == "MPI RMA requires an intracommunicator"@,
        Error::SizeOverflow.text() == "RMA window size does not fit MPI_Aint"@,
        Error::CountOverflow.text() == "RMA transfer count does not fit MPI Count"@,
        Error::Rank(code).text() == "rank "@ + decimal::integer(code as int)
            + " is outside the window communicator"@,
        start + len <= usize::MAX ==> (Error::Range { start, len, window }).text() == "RMA range "@
            + decimal::natural(start as nat) + ".."@ + decimal::natural((start + len) as nat)
            + " exceeds window length "@ + decimal::natural(window as nat),
        start + len > usize::MAX ==> (Error::Range { start, len, window }).text() == "RMA range "@
            + decimal::natural(start as nat) + ".."@ + decimal::natural(usize::MAX as nat)
            + " exceeds window length "@ + decimal::natural(window as nat),
        Error::Window(reason).text() == "invalid RMA window: "@ + reason@,
        Error::Epoch(reason).text() == "invalid RMA epoch: "@ + reason@,
        Error::Layout(reason).text() == "invalid RMA layout: "@ + reason@,
        Error::Ring(reason).text() == "invalid RMA ring state: "@ + reason@,
        (Error::Payload { len, capacity: window }).text() == "ring payload length "@
            + decimal::natural(len as nat) + " exceeds capacity "@ + decimal::natural(
            window as nat,
        ),
        (Error::Ack { origin, sequence: first, received: second }).text()
            == "cannot acknowledge sequence "@ + decimal::natural(first as nat) + " from rank "@
            + decimal::integer(origin as int) + "; received through "@ + decimal::natural(
            second as nat,
        ),
        (Error::Lapped { origin, expected: first, found: second }).text()
            == "safe lane from rank "@ + decimal::integer(origin as int)
            + " was overwritten: expected sequence "@ + decimal::natural(first as nat)
            + ", found "@ + decimal::natural(second as nat),
        Threading::Single.label() == "Single"@,
        Threading::Funneled.label() == "Funneled"@,
        Threading::Serialized.label() == "Serialized"@,
        Threading::Multiple.label() == "Multiple"@,
{
}

} // verus!
