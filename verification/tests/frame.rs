use mpi_rma::frame::{checksum, decode, encode, probe, word, Frame, Probe, Snapshot, OVERHEAD};

fn image(slot: usize, sequence: u64, data: &[u8]) -> Vec<u8> {
    let mut image = Vec::new();
    encode(&mut image, slot, sequence, data);
    image
}

fn message(sequence: u64, data: &[u8]) -> Snapshot {
    Snapshot::Message(Frame {
        sequence,
        data: data.to_vec(),
    })
}

#[test]
fn checksums_are_crc32_of_sequence_length_and_payload() {
    assert_eq!(checksum(1, 5, b"hello"), 0x33c3_a49d);
    assert_eq!(checksum(2, 0, b""), 0x6b1b_6e36);
    assert_eq!(checksum(1, 1, &[1]), 0x2e35_1e2b);
}

/// CRC-32 (IEEE 802.3), bit by bit.
fn crc32(bytes: &[u8]) -> u32 {
    let mut register = u32::MAX;
    for byte in bytes {
        register ^= u32::from(*byte);
        for _ in 0..8 {
            register = if register & 1 == 1 {
                (register >> 1) ^ 0xedb8_8320
            } else {
                register >> 1
            };
        }
    }
    !register
}

#[test]
fn checksums_follow_the_definition_at_every_length() {
    assert_eq!(crc32(b"123456789"), 0xcbf4_3926);
    let data: Vec<u8> = (0..700u32).map(|i| (i * 31 + i / 7) as u8).collect();
    for len in (0..64).chain([127, 128, 129, 255, 256, 500, 700]) {
        let data = &data[..len];
        let sequence = 0x0102_0304_0506_0708 + len as u64;
        let mut bytes = sequence.to_le_bytes().to_vec();
        bytes.extend_from_slice(&(len as u64).to_le_bytes());
        bytes.extend_from_slice(data);
        assert_eq!(checksum(sequence, len as u64, data), crc32(&bytes));
    }
}

#[test]
fn images_have_the_documented_layout() {
    assert_eq!(OVERHEAD, 28);
    let image = image(28 + 8, 3, &[7, 8]);
    let expected = [
        vec![3, 0, 0, 0, 0, 0, 0, 0],
        vec![2, 0, 0, 0, 0, 0, 0, 0],
        vec![231, 220, 242, 200],
        vec![7, 8, 0, 0, 0, 0, 0, 0],
        vec![252, 255, 255, 255, 255, 255, 255, 255],
    ]
    .concat();
    assert_eq!(image, expected);
}

#[test]
fn decoding_gives_back_what_was_encoded() {
    for data in [&b""[..], &b"h"[..], &b"hello"[..], &[255; 8][..]] {
        let image = image(28 + 8, 9, data);
        assert_eq!(decode(&image, 8), message(9, data));
        assert_eq!(
            probe(&image[..8], &image[image.len() - 8..]),
            Probe::Sequence(9)
        );
    }
}

#[test]
fn padding_keeps_what_the_buffer_held() {
    let mut buffer = vec![0xaa; 28 + 8];
    encode(&mut buffer, 28 + 8, 1, b"hi");
    assert_eq!(&buffer[20..28], &[b'h', b'i', 0xaa, 0xaa, 0xaa, 0xaa, 0xaa, 0xaa]);
    assert_eq!(decode(&buffer, 8), message(1, b"hi"));

    // A buffer of another length is cut off or filled up with zeros.
    let mut long = vec![0xbb; 100];
    encode(&mut long, 28 + 4, 2, b"");
    assert_eq!(long.len(), 32);
    assert_eq!(&long[20..24], &[0xbb; 4]);
    let mut short = vec![0xcc; 22];
    encode(&mut short, 28 + 4, 2, b"");
    assert_eq!(&short[20..24], &[0xcc, 0xcc, 0, 0]);
}

#[test]
fn reused_buffers_leave_padding_that_nothing_reads() {
    let mut buffer = Vec::new();
    encode(&mut buffer, 28 + 8, 1, b"longest!");
    encode(&mut buffer, 28 + 8, 2, b"ab");
    assert_eq!(&buffer[20..28], b"abngest!");
    assert_eq!(decode(&buffer, 8), message(2, b"ab"));
}

#[test]
fn zeroed_slots_are_vacant() {
    let image = vec![0; 28 + 8];
    assert_eq!(decode(&image, 8), Snapshot::Vacant);
    assert_eq!(probe(&image[..8], &image[28..]), Probe::Vacant);
}

#[test]
fn a_torn_guard_is_corrupt() {
    let mut image = image(28 + 8, 9, b"hello");
    let last = image.len() - 1;
    image[last] ^= 1;
    assert_eq!(decode(&image, 8), Snapshot::Corrupt);
    assert_eq!(probe(&image[..8], &image[28..]), Probe::Corrupt);
}

#[test]
fn a_length_past_the_capacity_is_corrupt() {
    let mut image = image(28 + 8, 9, b"hello");
    image[8] = 9;
    assert_eq!(decode(&image, 8), Snapshot::Corrupt);
    image[15] = 255;
    assert_eq!(decode(&image, 8), Snapshot::Corrupt);
}

#[test]
fn altered_payloads_and_sums_are_corrupt() {
    let mut payload = image(28 + 8, 9, b"hello");
    payload[21] ^= 0x10;
    assert_eq!(decode(&payload, 8), Snapshot::Corrupt);

    let mut sum = image(28 + 8, 9, b"hello");
    sum[16] ^= 1;
    assert_eq!(decode(&sum, 8), Snapshot::Corrupt);

    // A shorter length covers other bytes.
    let mut shorter = image(28 + 8, 9, b"hello");
    shorter[8] = 4;
    assert_eq!(decode(&shorter, 8), Snapshot::Corrupt);

    // Padding is covered by nothing.
    let mut padding = image(28 + 8, 9, b"hello");
    padding[26] ^= 0xff;
    assert_eq!(decode(&padding, 8), message(9, b"hello"));
}

#[test]
fn words_are_little_endian() {
    assert_eq!(word(&[1, 2, 0, 0, 0, 0, 0, 0x80]), 0x8000_0000_0000_0201);
}
