use mpi_rma::{Error, Threading};

#[test]
fn every_error_has_its_message() {
    let expected = [
        (Error::Mpi(17), "MPI RMA error 17"),
        (Error::Mpi(-3), "MPI RMA error -3"),
        (Error::Mpi(0), "MPI RMA error 0"),
        (
            Error::Threading(Threading::Single),
            "MPI RMA requires Threading::Multiple, got Single",
        ),
        (
            Error::Threading(Threading::Funneled),
            "MPI RMA requires Threading::Multiple, got Funneled",
        ),
        (
            Error::Threading(Threading::Serialized),
            "MPI RMA requires Threading::Multiple, got Serialized",
        ),
        (
            Error::Threading(Threading::Multiple),
            "MPI RMA requires Threading::Multiple, got Multiple",
        ),
        (
            Error::Intercommunicator,
            "MPI RMA requires an intracommunicator",
        ),
        (
            Error::SizeOverflow,
            "RMA window size does not fit MPI_Aint",
        ),
        (
            Error::CountOverflow,
            "RMA transfer count does not fit MPI Count",
        ),
        (
            Error::Rank(-1),
            "rank -1 is outside the window communicator",
        ),
        (
            Error::Range {
                start: 8,
                len: 3,
                window: 10,
            },
            "RMA range 8..11 exceeds window length 10",
        ),
        (
            Error::Window("element type differs between ranks"),
            "invalid RMA window: element type differs between ranks",
        ),
        (
            Error::Epoch("RMA operation outside lock_all epoch"),
            "invalid RMA epoch: RMA operation outside lock_all epoch",
        ),
        (
            Error::Layout("layout is empty"),
            "invalid RMA layout: layout is empty",
        ),
        (
            Error::Ring("sequence number exhausted"),
            "invalid RMA ring state: sequence number exhausted",
        ),
        (
            Error::Payload {
                len: 9,
                capacity: 8,
            },
            "ring payload length 9 exceeds capacity 8",
        ),
        (
            Error::Ack {
                origin: 2,
                sequence: 100,
                received: 42,
            },
            "cannot acknowledge sequence 100 from rank 2; received through 42",
        ),
        (
            Error::Lapped {
                origin: 3,
                expected: 7,
                found: 11,
            },
            "safe lane from rank 3 was overwritten: expected sequence 7, found 11",
        ),
    ];
    for (error, text) in expected {
        assert_eq!(error.message(), text);
    }
}

#[test]
fn extreme_numbers_are_written_out() {
    assert_eq!(
        Error::Mpi(i32::MIN).message(),
        "MPI RMA error -2147483648"
    );
    assert_eq!(Error::Mpi(i32::MAX).message(), "MPI RMA error 2147483647");
    let message = Error::Ack {
        origin: 0,
        sequence: u64::MAX,
        received: 0,
    }
    .message();
    assert_eq!(
        message,
        "cannot acknowledge sequence 18446744073709551615 from rank 0; received through 0"
    );
}

#[test]
fn range_ends_saturate() {
    let message = Error::Range {
        start: usize::MAX,
        len: 5,
        window: 1,
    }
    .message();
    assert_eq!(
        message,
        format!(
            "RMA range {}..{} exceeds window length 1",
            usize::MAX,
            usize::MAX
        )
    );
}
