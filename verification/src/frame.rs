//! Slot images.
//!
//! A slot holds one message:
//!
//! ```text
//! [sequence: u64]
//! [length: u64]
//! [crc32: u32]
//! [payload: u8; capacity]
//! [guard: u64]                 guard = !sequence
//! ```
//!
//! Words are little-endian. Sequence zero is unused, so a zeroed slot is vacant.
//! The checksum covers the sequence, the length and the first `length` payload
//! bytes. What lies between the payload and the guard is padding: it is neither
//! covered nor read.

use vstd::bytes::*;
use vstd::prelude::*;
use vstd::slice::slice_subrange;

verus! {

/// Bytes of a sequence number, a length or a guard.
pub const WORD: usize = 8;

/// Bytes of a checksum.
pub const CHECKSUM: usize = 4;

/// Bytes in front of the payload.
pub const HEADER: usize = 2 * WORD + CHECKSUM;

/// Bytes of a slot besides its payload capacity.
pub const OVERHEAD: usize = HEADER + WORD;

/// A CRC-32 register after `n` shifts: each drops the lowest bit and, where that
/// bit was set, takes the reflected polynomial of IEEE 802.3 out of the rest.
pub open spec fn crc_shifted(register: u32, n: nat) -> u32
    decreases n,
{
    if n == 0 {
        register
    } else {
        let before = crc_shifted(register, (n - 1) as nat);
        if before & 1 == 1 {
            (before >> 1) ^ 0xedb8_8320
        } else {
            before >> 1
        }
    }
}

/// The CRC-32 register after a byte string: it begins with all bits set, and every
/// byte is added to its low end and shifted through.
pub open spec fn crc_register(bytes: Seq<u8>) -> u32
    decreases bytes.len(),
{
    if bytes.len() == 0 {
        0xffff_ffff
    } else {
        crc_shifted(crc_register(bytes.drop_last()) ^ (bytes.last() as u32), 8)
    }
}

/// The CRC-32 (IEEE 802.3) of a byte string.
pub open spec fn crc32(bytes: Seq<u8>) -> u32 {
    !crc_register(bytes)
}

/// Runs a `crc32fast::Hasher` over three byte strings, one `update` each.
///
/// The sum is the CRC-32 (IEEE 802.3) of the bytes in a row: a hasher keeps the
/// register of what it was given so far, wherever one `update` ends and the next
/// begins.
#[verifier::external_body]
fn crc32_of(first: &[u8], second: &[u8], third: &[u8]) -> (sum: u32)
    requires
        first@.len() + second@.len() + third@.len() <= u64::MAX,
    ensures
        sum == crc32(first@ + second@ + third@),
{
    let mut hasher = crc32fast::Hasher::new();
    hasher.update(first);
    hasher.update(second);
    hasher.update(third);
    hasher.finalize()
}

/// The sum in the header of a message.
pub open spec fn checksum_of(sequence: u64, data: Seq<u8>) -> u32 {
    crc32(spec_u64_to_le_bytes(sequence) + spec_u64_to_le_bytes(data.len() as u64) + data)
}

/// The checksum of a message.
pub fn checksum(sequence: u64, len: u64, data: &[u8]) -> (sum: u32)
    requires
        len == data@.len(),
        len <= u64::MAX - 2 * WORD,
    ensures
        sum == checksum_of(sequence, data@),
{
    let sequence_bytes: Vec<u8> = u64_to_le_bytes(sequence);
    let len_bytes: Vec<u8> = u64_to_le_bytes(len);
    crc32_of(sequence_bytes.as_slice(), len_bytes.as_slice(), data)
}

/// The image of a message in a slot with the given padding.
pub open spec fn slot_image(sequence: u64, data: Seq<u8>, padding: Seq<u8>) -> Seq<u8> {
    spec_u64_to_le_bytes(sequence) + spec_u64_to_le_bytes(data.len() as u64)
        + spec_u32_to_le_bytes(checksum_of(sequence, data)) + data + padding
        + spec_u64_to_le_bytes(!sequence)
}

/// A scratch buffer at the length of a slot: cut off, or filled up with zeros.
pub open spec fn fitted(scratch: Seq<u8>, slot: nat) -> Seq<u8> {
    Seq::new(
        slot,
        |i: int|
            if i < scratch.len() {
                scratch[i]
            } else {
                0u8
            },
    )
}

/// What a message of `len` bytes leaves of a scratch buffer between its payload
/// and its guard.
pub open spec fn padding_of(scratch: Seq<u8>, slot: nat, len: nat) -> Seq<u8> {
    fitted(scratch, slot).subrange((HEADER + len) as int, slot - WORD)
}

/// `image` with `bytes` written over it from `at` on.
pub open spec fn overwritten(image: Seq<u8>, at: int, bytes: Seq<u8>) -> Seq<u8> {
    Seq::new(
        image.len(),
        |i: int|
            if at <= i < at + bytes.len() {
                bytes[i - at]
            } else {
                image[i]
            },
    )
}

fn overwrite(image: &mut Vec<u8>, at: usize, bytes: &[u8])
    requires
        at + bytes@.len() <= old(image)@.len(),
    ensures
        final(image)@ == overwritten(old(image)@, at as int, bytes@),
{
    let end: usize = image.len();
    let mut i: usize = 0;
    while i < bytes.len()
        invariant
            i <= bytes@.len(),
            at + bytes@.len() <= end == old(image)@.len(),
            image@ == overwritten(old(image)@, at as int, bytes@.subrange(0, i as int)),
        decreases bytes@.len() - i,
    {
        image[at + i] = bytes[i];
        i += 1;
        assert(image@ =~= overwritten(old(image)@, at as int, bytes@.subrange(0, i as int)));
    }
    assert(bytes@.subrange(0, i as int) =~= bytes@);
    assert(image@ =~= overwritten(old(image)@, at as int, bytes@));
}

/// Builds the image of a message in a scratch buffer. Only the header, the
/// payload and the guard are written.
pub fn encode(image: &mut Vec<u8>, slot: usize, sequence: u64, data: &[u8])
    requires
        data@.len() + OVERHEAD <= slot,
        slot <= i32::MAX,
    ensures
        final(image)@ == slot_image(
            sequence,
            data@,
            padding_of(old(image)@, slot as nat, data@.len()),
        ),
        final(image)@.len() == slot,
{
    if image.len() != slot {
        image.resize(slot, 0);
    }
    let ghost scratch = image@;
    assert(scratch =~= fitted(old(image)@, slot as nat));
    let len: u64 = data.len() as u64;
    let sequence_bytes: Vec<u8> = u64_to_le_bytes(sequence);
    let len_bytes: Vec<u8> = u64_to_le_bytes(len);
    let sum_bytes: Vec<u8> = u32_to_le_bytes(checksum(sequence, len, data));
    let guard_bytes: Vec<u8> = u64_to_le_bytes(!sequence);
    proof {
        lemma_auto_spec_u64_to_from_le_bytes();
        lemma_auto_spec_u32_to_from_le_bytes();
    }
    overwrite(image, 0, sequence_bytes.as_slice());
    overwrite(image, WORD, len_bytes.as_slice());
    overwrite(image, HEADER, data);
    overwrite(image, 2 * WORD, sum_bytes.as_slice());
    overwrite(image, slot - WORD, guard_bytes.as_slice());
    assert(image@ =~= slot_image(
        sequence,
        data@,
        padding_of(old(image)@, slot as nat, data@.len()),
    ));
}

/// What a slot holds, as a receiver judges it.
#[verifier::ext_equal]
pub enum Slot {
    /// Nothing was ever put into the slot.
    Vacant,
    /// The guard, the length or the checksum does not agree with the rest.
    Corrupt,
    Message { sequence: u64, data: Seq<u8> },
}

/// The word at `at`.
pub open spec fn word_at(image: Seq<u8>, at: int) -> u64 {
    spec_u64_from_le_bytes(image.subrange(at, at + WORD))
}

/// The checksum in the header.
pub open spec fn sum_at(image: Seq<u8>, at: int) -> u32 {
    spec_u32_from_le_bytes(image.subrange(at, at + CHECKSUM))
}

/// What the image of a slot with room for `capacity` payload bytes holds.
pub open spec fn decoded(image: Seq<u8>, capacity: nat) -> Slot {
    let sequence = word_at(image, 0);
    let len = word_at(image, WORD as int);
    let data = image.subrange(HEADER as int, HEADER + len);
    if sequence == 0 {
        Slot::Vacant
    } else if word_at(image, image.len() - WORD) != !sequence || len > capacity || sum_at(
        image,
        2 * WORD,
    ) != checksum_of(sequence, data) {
        Slot::Corrupt
    } else {
        Slot::Message { sequence, data }
    }
}

/// One message copied out of a slot.
#[derive(Debug, PartialEq, Eq)]
pub struct Frame {
    pub sequence: u64,
    pub data: Vec<u8>,
}

/// A slot, copied and judged.
#[derive(Debug, PartialEq, Eq)]
pub enum Snapshot {
    Vacant,
    Corrupt,
    Message(Frame),
}

impl View for Snapshot {
    type V = Slot;

    open spec fn view(&self) -> Slot {
        match self {
            Snapshot::Vacant => Slot::Vacant,
            Snapshot::Corrupt => Slot::Corrupt,
            Snapshot::Message(frame) => Slot::Message {
                sequence: frame.sequence,
                data: frame.data@,
            },
        }
    }
}

/// A word of a slot.
pub fn word(bytes: &[u8]) -> (value: u64)
    requires
        bytes@.len() == WORD,
    ensures
        value == spec_u64_from_le_bytes(bytes@),
{
    u64_from_le_bytes(bytes)
}

/// Judges the copied image of a slot with room for `capacity` payload bytes.
pub fn decode(image: &Vec<u8>, capacity: usize) -> (snapshot: Snapshot)
    requires
        image@.len() == capacity + OVERHEAD,
        capacity <= i32::MAX,
    ensures
        snapshot@ == decoded(image@, capacity as nat),
{
    let bytes: &[u8] = image.as_slice();
    let sequence: u64 = word(slice_subrange(bytes, 0, WORD));
    let guard: u64 = word(slice_subrange(bytes, image.len() - WORD, image.len()));
    if sequence == 0 {
        return Snapshot::Vacant;
    }
    if guard != !sequence {
        return Snapshot::Corrupt;
    }
    let len: u64 = word(slice_subrange(bytes, WORD, 2 * WORD));
    if len > capacity as u64 {
        return Snapshot::Corrupt;
    }
    let data: &[u8] = slice_subrange(bytes, HEADER, HEADER + len as usize);
    let sum: u32 = u32_from_le_bytes(slice_subrange(bytes, 2 * WORD, HEADER));
    if sum != checksum(sequence, len, data) {
        return Snapshot::Corrupt;
    }
    let mut copy: Vec<u8> = Vec::with_capacity(data.len());
    copy.extend_from_slice(data);
    assert(copy@ =~= data@);
    Snapshot::Message(Frame { sequence, data: copy })
}

/// What the two ends of a slot say.
#[derive(Debug, Clone, Copy, PartialEq, Eq, Structural)]
pub enum Probe {
    /// Nothing was ever put into the slot.
    Vacant,
    /// The guard does not match the sequence.
    Corrupt,
    /// Both ends name this sequence.
    Sequence(u64),
}

/// What the first and the last word of a slot say.
pub open spec fn probed(sequence: u64, guard: u64) -> Probe {
    if sequence == 0 {
        Probe::Vacant
    } else if guard != !sequence {
        Probe::Corrupt
    } else {
        Probe::Sequence(sequence)
    }
}

/// Judges the two ends of a slot.
pub fn probe(head: &[u8], tail: &[u8]) -> (probe: Probe)
    requires
        head@.len() == WORD,
        tail@.len() == WORD,
    ensures
        probe == probed(spec_u64_from_le_bytes(head@), spec_u64_from_le_bytes(tail@)),
{
    let sequence: u64 = word(head);
    if sequence == 0 {
        return Probe::Vacant;
    }
    if word(tail) != !sequence {
        return Probe::Corrupt;
    }
    Probe::Sequence(sequence)
}

/// A receiver reads out of an image what a sender put into it, whatever the
/// padding: the sequence and exactly the payload.
pub proof fn decode_gives_back_encode(
    sequence: u64,
    data: Seq<u8>,
    padding: Seq<u8>,
    capacity: nat,
)
    requires
        sequence > 0,
        data.len() <= capacity,
        capacity <= u64::MAX,
    ensures
        decoded(slot_image(sequence, data, padding), capacity) == (Slot::Message {
            sequence,
            data,
        }),
        probed(
            word_at(slot_image(sequence, data, padding), 0),
            word_at(
                slot_image(sequence, data, padding),
                slot_image(sequence, data, padding).len() - WORD,
            ),
        ) == Probe::Sequence(sequence),
{
    lemma_auto_spec_u64_to_from_le_bytes();
    lemma_auto_spec_u32_to_from_le_bytes();
    let image = slot_image(sequence, data, padding);
    assert(image.subrange(0, WORD as int) =~= spec_u64_to_le_bytes(sequence));
    assert(image.subrange(WORD as int, 2 * WORD) =~= spec_u64_to_le_bytes(data.len() as u64));
    assert(image.subrange(2 * WORD, HEADER as int) =~= spec_u32_to_le_bytes(
        checksum_of(sequence, data),
    ));
    assert(image.subrange(HEADER as int, HEADER + data.len()) =~= data);
    assert(image.subrange(image.len() - WORD, image.len() as int) =~= spec_u64_to_le_bytes(
        !sequence,
    ));
}

/// An image is as long as its payload, its padding, and 28 bytes.
pub proof fn images_have_lengths(sequence: u64, data: Seq<u8>, padding: Seq<u8>)
    ensures
        slot_image(sequence, data, padding).len() == data.len() + padding.len() + 28,
{
    lemma_auto_spec_u64_to_from_le_bytes();
    lemma_auto_spec_u32_to_from_le_bytes();
}

/// A zeroed slot is vacant.
pub proof fn zeroed_slots_are_vacant(image: Seq<u8>, capacity: nat)
    requires
        image.len() == capacity + OVERHEAD,
        forall|i: int| 0 <= i < image.len() ==> image[i] == 0,
    ensures
        decoded(image, capacity) == Slot::Vacant,
        probed(word_at(image, 0), word_at(image, image.len() - WORD)) == Probe::Vacant,
{
    lemma_auto_spec_u64_to_from_le_bytes();
    spec_u64_to_le_bytes_to_open(0);
    assert(forall|n: u64| n < 64 ==> #[trigger] (0u64 >> n) == 0) by (bit_vector);
    assert(0u64 & 0xff == 0) by (bit_vector);
    assert(image.subrange(0, WORD as int) =~= spec_u64_to_le_bytes(0));
}

/// What is delivered passed every check: the guard is the complement of the
/// sequence, the length lies within the capacity, and the checksum covers
/// exactly the sequence, the length and the delivered bytes.
pub proof fn delivered_images_agree(image: Seq<u8>, capacity: nat)
    requires
        image.len() == capacity + OVERHEAD,
        decoded(image, capacity) is Message,
    ensures
        ({
            let message = decoded(image, capacity);
            &&& message->sequence == word_at(image, 0)
            &&& message->sequence != 0
            &&& word_at(image, image.len() - WORD) == !message->sequence
            &&& message->data.len() == word_at(image, WORD as int) <= capacity
            &&& message->data == image.subrange(HEADER as int, HEADER + message->data.len())
            &&& sum_at(image, 2 * WORD) == checksum_of(message->sequence, message->data)
        }),
{
}

/// Where the parts of an image lie: the sequence, the length, the checksum, the payload,
/// the padding, and at the very end the complement of the sequence. The checksum is the
/// CRC-32 of the first two and the payload.
pub proof fn images_have_the_layout(sequence: u64, data: Seq<u8>, padding: Seq<u8>)
    requires
        data.len() <= u64::MAX,
    ensures
        ({
            let image = slot_image(sequence, data, padding);
            let end = 20 + data.len();
            &&& image.subrange(0, 8) == spec_u64_to_le_bytes(sequence)
            &&& image.subrange(8, 16) == spec_u64_to_le_bytes(data.len() as u64)
            &&& image.subrange(16, 20) == spec_u32_to_le_bytes(
                crc32(image.subrange(0, 16) + data),
            )
            &&& image.subrange(20, end as int) == data
            &&& image.subrange(end as int, (end + padding.len()) as int) == padding
            &&& image.subrange(image.len() - 8, image.len() as int) == spec_u64_to_le_bytes(
                !sequence,
            )
            &&& image.len() == end + padding.len() + 8
        }),
{
    lemma_auto_spec_u64_to_from_le_bytes();
    lemma_auto_spec_u32_to_from_le_bytes();
    let image = slot_image(sequence, data, padding);
    let end = 20 + data.len();
    let head = spec_u64_to_le_bytes(sequence) + spec_u64_to_le_bytes(data.len() as u64);
    assert(image.subrange(0, 8) =~= spec_u64_to_le_bytes(sequence));
    assert(image.subrange(8, 16) =~= spec_u64_to_le_bytes(data.len() as u64));
    assert(image.subrange(0, 16) =~= head);
    assert(image.subrange(16, 20) =~= spec_u32_to_le_bytes(checksum_of(sequence, data)));
    assert(image.subrange(20, end as int) =~= data);
    assert(image.subrange(end as int, (end + padding.len()) as int) =~= padding);
    assert(image.subrange(image.len() - 8, image.len() as int) =~= spec_u64_to_le_bytes(
        !sequence,
    ));
}

/// The padding is what the buffer held there, and zeros past its end.
pub proof fn padding_is_left_alone(scratch: Seq<u8>, slot: nat, len: nat, i: int)
    requires
        len + 28 <= slot,
        0 <= i < slot - 28 - len,
    ensures
        padding_of(scratch, slot, len).len() == slot - 28 - len,
        padding_of(scratch, slot, len)[i] == if 20 + len + i < scratch.len() {
            scratch[20 + len + i]
        } else {
            0u8
        },
{
}

/// A write changes the bytes that it covers and no other.
pub proof fn writes_change_what_they_cover(image: Seq<u8>, at: int, bytes: Seq<u8>, i: int)
    requires
        0 <= at,
        at + bytes.len() <= image.len(),
        0 <= i < image.len(),
    ensures
        overwritten(image, at, bytes).len() == image.len(),
        at <= i < at + bytes.len() ==> overwritten(image, at, bytes)[i] == bytes[i - at],
        i < at || at + bytes.len() <= i ==> overwritten(image, at, bytes)[i] == image[i],
        overwritten(image, at, bytes).subrange(at, at + bytes.len()) == bytes,
{
    assert(overwritten(image, at, bytes).subrange(at, at + bytes.len()) =~= bytes);
}

/// A slot is vacant exactly where its sequence is zero, and holds a message exactly
/// where the guard is the complement of the sequence, the length lies within the
/// capacity, and the checksum is the CRC-32 of the bytes of sequence and length and of
/// that many payload bytes. Every other slot is corrupt. The message is that sequence
/// and those payload bytes.
pub proof fn decoding_is_exact(image: Seq<u8>, capacity: nat)
    requires
        image.len() == capacity + 28,
    ensures
        ({
            let sequence = spec_u64_from_le_bytes(image.subrange(0, 8));
            let len = spec_u64_from_le_bytes(image.subrange(8, 16));
            let sum = spec_u32_from_le_bytes(image.subrange(16, 20));
            let guard = spec_u64_from_le_bytes(
                image.subrange(image.len() - 8, image.len() as int),
            );
            let slot = decoded(image, capacity);
            &&& sequence == 0 <==> slot is Vacant
            &&& slot is Message <==> sequence != 0 && guard == !sequence && len <= capacity && sum
                == crc32(image.subrange(0, 16) + image.subrange(20, 20 + len))
            &&& slot is Message ==> slot->sequence == sequence && slot->data == image.subrange(
                20,
                20 + len,
            )
        }),
{
    lemma_auto_spec_u64_to_from_le_bytes();
    let len = spec_u64_from_le_bytes(image.subrange(8, 16));
    assert(word_at(image, 8) == len);
    assert(image.subrange(0, 16) =~= image.subrange(0, 8) + image.subrange(8, 16));
    if len <= capacity {
        let data = image.subrange(20, 20 + len);
        assert(checksum_of(word_at(image, 0), data) == crc32(image.subrange(0, 16) + data)) by {
            assert(spec_u64_to_le_bytes(word_at(image, 0)) == image.subrange(0, 8));
            assert(spec_u64_to_le_bytes(len) == image.subrange(8, 16));
        }
    }
}

/// The ends of a slot say that it is vacant exactly where the first word is zero, and
/// name a sequence exactly where the last word is its complement.
pub proof fn probing_is_exact(sequence: u64, guard: u64)
    ensures
        sequence == 0 <==> probed(sequence, guard) == Probe::Vacant,
        sequence != 0 && guard == !sequence <==> probed(sequence, guard) == Probe::Sequence(
            sequence,
        ),
        sequence != 0 && guard != !sequence <==> probed(sequence, guard) == Probe::Corrupt,
{
}

} // verus!
