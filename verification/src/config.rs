use vstd::prelude::*;

verus! {

/// Number of frames whose inputs and snapshots are remembered.
pub const BUFFER_SIZE: usize = 64;

/// Largest distance between the current frame and the last agreed frame
/// before the simulation stalls.
pub const MAX_ROLLBACK_FRAMES: u64 = 8;

/// Number of most recent frames whose local input is sent in every message.
pub const FRAMES_TO_SEND: usize = 8;

/// Bytes per frame entry in a message: 8 bytes frame number + 1 byte input.
pub const FRAME_SIZE: usize = 9;

/// Bytes of the message header: the sender's drift as a little-endian `i16`.
pub const HEADER_SIZE: usize = 2;

/// Total length of an input message.
pub const MESSAGE_SIZE: usize = HEADER_SIZE + FRAMES_TO_SEND * FRAME_SIZE;

/// The ring-buffer slot that holds `frame`.
pub open spec fn slot(frame: u64) -> int {
    (frame % 64) as int
}

/// The ring-buffer slot that holds `frame`.
pub fn slot_of(frame: u64) -> (idx: usize)
    ensures
        idx == slot(frame),
        idx < BUFFER_SIZE,
{
    (frame % 64) as usize
}


/// Two different frames less than `BUFFER_SIZE` apart use different slots.
pub proof fn lemma_slots_distinct(a: u64, b: u64)
    requires
        a != b,
        -64 < a - b < 64,
    ensures
        slot(a) != slot(b),
{
    if a % 64 == b % 64 {
        vstd::arithmetic::div_mod::lemma_fundamental_div_mod(a as int, 64);
        vstd::arithmetic::div_mod::lemma_fundamental_div_mod(b as int, 64);
        assert(a - b == 64 * ((a / 64) - (b / 64))) by (nonlinear_arith)
            requires
                a == 64 * (a / 64) + a % 64,
                b == 64 * (b / 64) + b % 64,
                a % 64 == b % 64,
        ;
        assert(a / 64 == b / 64) by (nonlinear_arith)
            requires
                a - b == 64 * ((a / 64) - (b / 64)),
                -64 < a - b < 64,
        ;
    }
}

} // verus!
