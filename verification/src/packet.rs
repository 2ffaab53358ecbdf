use vstd::prelude::*;
use vstd::bytes::{
    lemma_auto_spec_u16_to_from_le_bytes, lemma_auto_spec_u64_to_from_le_bytes,
    spec_u16_from_le_bytes, spec_u16_to_le_bytes, spec_u64_from_le_bytes, spec_u64_to_le_bytes,
    u16_from_le_bytes, u16_to_le_bytes, u64_from_le_bytes, u64_to_le_bytes,
};
use vstd::slice::slice_subrange;

use crate::config::{FRAMES_TO_SEND, FRAME_SIZE, HEADER_SIZE, MESSAGE_SIZE};

verus! {

/// An input message as it travels between the peers: the sender's drift and,
/// for each of its most recent frames, the frame number and the sender's
/// input in that frame, newest first.
#[derive(Debug, PartialEq, Eq)]
pub struct InputMessage {
    pub drift: i16,
    pub entries: Vec<(u64, u8)>,
}

impl View for InputMessage {
    type V = (i16, Seq<(u64, u8)>);

    open spec fn view(&self) -> (i16, Seq<(u64, u8)>) {
        (self.drift, self.entries@)
    }
}

// ——— The wire format ———
/// The bytes of one frame entry: the frame number as a little-endian `u64`,
/// then the input byte.
pub open spec fn entry_bytes(entry: (u64, u8)) -> Seq<u8> {
    spec_u64_to_le_bytes(entry.0).push(entry.1)
}

/// The bytes of a list of frame entries, one after the other.
pub open spec fn entries_bytes(entries: Seq<(u64, u8)>) -> Seq<u8>
    decreases entries.len(),
{
    if entries.len() == 0 {
        Seq::empty()
    } else {
        entries_bytes(entries.drop_last()) + entry_bytes(entries.last())
    }
}

/// The bytes of a message: the drift as a little-endian `i16`, then the entries.
pub open spec fn message_bytes(drift: i16, entries: Seq<(u64, u8)>) -> Seq<u8> {
    spec_u16_to_le_bytes(drift as u16) + entries_bytes(entries)
}

/// The drift in the header of a message.
pub open spec fn parse_drift(bytes: Seq<u8>) -> i16 {
    spec_u16_from_le_bytes(bytes.subrange(0, 2)) as i16
}

/// Entry `i` of a message.
pub open spec fn parse_entry(bytes: Seq<u8>, i: int) -> (u64, u8) {
    let offset = HEADER_SIZE + i * FRAME_SIZE;
    (spec_u64_from_le_bytes(bytes.subrange(offset, offset + 8)), bytes[offset + 8])
}

/// All entries of a message.
pub open spec fn parse_entries(bytes: Seq<u8>) -> Seq<(u64, u8)> {
    Seq::new(FRAMES_TO_SEND as nat, |i: int| parse_entry(bytes, i))
}

/// The message that a packet holds: `None` unless it has exactly
/// `MESSAGE_SIZE` bytes.
pub open spec fn parse_message(bytes: Seq<u8>) -> Option<(i16, Seq<(u64, u8)>)> {
    if bytes.len() == MESSAGE_SIZE {
        Some((parse_drift(bytes), parse_entries(bytes)))
    } else {
        None
    }
}

/// Encodes a message of `FRAMES_TO_SEND` entries.
pub fn encode_message(message: &InputMessage) -> (bytes: Vec<u8>)
    requires
        message.entries@.len() == FRAMES_TO_SEND,
    ensures
        bytes@ == message_bytes(message.drift, message.entries@),
        bytes@.len() == MESSAGE_SIZE,
{
    proof {
        lemma_auto_spec_u16_to_from_le_bytes();
        lemma_auto_spec_u64_to_from_le_bytes();
    }
    let mut bytes = u16_to_le_bytes(message.drift as u16);
    let mut i: usize = 0;
    while i < FRAMES_TO_SEND
        invariant
            i <= FRAMES_TO_SEND,
            message.entries@.len() == FRAMES_TO_SEND,
            bytes@ == spec_u16_to_le_bytes(message.drift as u16) + entries_bytes(
                message.entries@.take(i as int),
            ),
            bytes@.len() == HEADER_SIZE + i * FRAME_SIZE,
        decreases FRAMES_TO_SEND - i,
    {
        let (frame, input) = message.entries[i];
        let mut frame_bytes = u64_to_le_bytes(frame);
        proof {
            assert(message.entries@.take(i + 1).drop_last() =~= message.entries@.take(i as int));
        }
        bytes.append(&mut frame_bytes);
        bytes.push(input);
        i = i + 1;
    }
    assert(message.entries@.take(FRAMES_TO_SEND as int) =~= message.entries@);
    bytes
}

/// Decodes a packet: `None` unless it has exactly `MESSAGE_SIZE` bytes.
pub fn decode_message(packet: &[u8]) -> (message: Option<InputMessage>)
    ensures
        match message {
            None => parse_message(packet@) is None,
            Some(m) => parse_message(packet@) == Some(m@),
        },
{
    if packet.len() != MESSAGE_SIZE {
        return None;
    }
    let drift = u16_from_le_bytes(slice_subrange(packet, 0, 2)) as i16;
    let mut entries: Vec<(u64, u8)> = Vec::new();
    let mut i: usize = 0;
    while i < FRAMES_TO_SEND
        invariant
            i <= FRAMES_TO_SEND,
            packet@.len() == MESSAGE_SIZE,
            entries@ =~= parse_entries(packet@).take(i as int),
        decreases FRAMES_TO_SEND - i,
    {
        let offset = HEADER_SIZE + i * FRAME_SIZE;
        let frame = u64_from_le_bytes(slice_subrange(packet, offset, offset + 8));
        entries.push((frame, packet[offset + 8]));
        i = i + 1;
    }
    assert(entries@ =~= parse_entries(packet@));
    Some(InputMessage { drift, entries })
}


// ——— Laws of the wire format ———
proof fn lemma_entries_bytes_len(entries: Seq<(u64, u8)>)
    ensures
        entries_bytes(entries).len() == FRAME_SIZE * entries.len(),
    decreases entries.len(),
{
    lemma_auto_spec_u64_to_from_le_bytes();
    if entries.len() > 0 {
        lemma_entries_bytes_len(entries.drop_last());
    }
}

proof fn lemma_entries_bytes_at(entries: Seq<(u64, u8)>, i: int)
    requires
        0 <= i < entries.len(),
    ensures
        entries_bytes(entries).subrange(FRAME_SIZE * i, FRAME_SIZE * i + FRAME_SIZE) == entry_bytes(
            entries[i],
        ),
    decreases entries.len(),
{
    lemma_auto_spec_u64_to_from_le_bytes();
    let prefix = entries.drop_last();
    lemma_entries_bytes_len(prefix);
    if i < entries.len() - 1 {
        lemma_entries_bytes_at(prefix, i);
        lemma_entries_bytes_len(entries);
        assert(entries_bytes(entries).subrange(FRAME_SIZE * i, FRAME_SIZE * i + FRAME_SIZE)
            =~= entries_bytes(prefix).subrange(FRAME_SIZE * i, FRAME_SIZE * i + FRAME_SIZE));
    } else {
        assert(entries_bytes(entries).subrange(FRAME_SIZE * i, FRAME_SIZE * i + FRAME_SIZE)
            =~= entry_bytes(entries.last()));
    }
}

/// Decoding the bytes of a message gives the message back.
pub proof fn lemma_message_round_trip(drift: i16, entries: Seq<(u64, u8)>)
    requires
        entries.len() == FRAMES_TO_SEND,
    ensures
        parse_message(message_bytes(drift, entries)) == Some((drift, entries)),
{
    lemma_auto_spec_u16_to_from_le_bytes();
    lemma_auto_spec_u64_to_from_le_bytes();
    lemma_entries_bytes_len(entries);
    let bytes = message_bytes(drift, entries);
    let header = spec_u16_to_le_bytes(drift as u16);
    assert(bytes.subrange(0, 2) =~= header);
    assert((drift as u16) as i16 == drift) by (bit_vector);
    assert forall|i: int| 0 <= i < FRAMES_TO_SEND implies #[trigger] parse_entry(bytes, i)
        == entries[i] by {
        lemma_entries_bytes_at(entries, i);
        let offset = HEADER_SIZE + i * FRAME_SIZE;
        let body = entries_bytes(entries);
        assert(body.subrange(FRAME_SIZE * i, FRAME_SIZE * i + FRAME_SIZE) == entry_bytes(entries[i]));
        assert(bytes.subrange(offset, offset + 8) =~= spec_u64_to_le_bytes(entries[i].0)) by {
            assert(bytes.subrange(offset, offset + 8) =~= body.subrange(
                FRAME_SIZE * i,
                FRAME_SIZE * i + FRAME_SIZE,
            ).subrange(0, 8));
        }
        assert(bytes[offset + 8] == body.subrange(FRAME_SIZE * i, FRAME_SIZE * i + FRAME_SIZE)[8]);
    }
    assert(parse_entries(bytes) =~= entries);
}


/// The layout of a message of `FRAMES_TO_SEND` entries: `MESSAGE_SIZE`
/// bytes; the drift as a little-endian `i16` in bytes 0 and 1; then for entry
/// `i`, at offset `2 + 9 * i`, its frame as a little-endian `u64` followed by
/// its input byte.
pub proof fn lemma_message_layout(drift: i16, entries: Seq<(u64, u8)>)
    requires
        entries.len() == FRAMES_TO_SEND,
    ensures
        message_bytes(drift, entries).len() == MESSAGE_SIZE,
        message_bytes(drift, entries).subrange(0, 2) == spec_u16_to_le_bytes(drift as u16),
        forall|i: int|
            #![trigger entries[i]]
            0 <= i < FRAMES_TO_SEND ==> {
                &&& message_bytes(drift, entries).subrange(2 + 9 * i, 2 + 9 * i + 8)
                    == spec_u64_to_le_bytes(entries[i].0)
                &&& message_bytes(drift, entries)[2 + 9 * i + 8] == entries[i].1
            },
{
    lemma_auto_spec_u16_to_from_le_bytes();
    lemma_auto_spec_u64_to_from_le_bytes();
    lemma_entries_bytes_len(entries);
    let bytes = message_bytes(drift, entries);
    let body = entries_bytes(entries);
    assert(bytes.subrange(0, 2) =~= spec_u16_to_le_bytes(drift as u16));
    assert forall|i: int| #![trigger entries[i]] 0 <= i < FRAMES_TO_SEND implies {
        &&& bytes.subrange(2 + 9 * i, 2 + 9 * i + 8) == spec_u64_to_le_bytes(entries[i].0)
        &&& bytes[2 + 9 * i + 8] == entries[i].1
    } by {
        lemma_entries_bytes_at(entries, i);
        assert(bytes.subrange(2 + 9 * i, 2 + 9 * i + 8) =~= body.subrange(9 * i, 9 * i + 9).subrange(
            0,
            8,
        ));
        assert(bytes[2 + 9 * i + 8] == body.subrange(9 * i, 9 * i + 9)[8]);
    }
}

} // verus!
