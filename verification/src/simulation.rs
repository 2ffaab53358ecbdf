use vstd::prelude::*;

use crate::config::{slot, slot_of, BUFFER_SIZE};
use crate::network::{LocalPlayer, NetworkState, Side};

verus! {

// ——— Encoding & decoding of input ———
/// Bit 0 of an input byte: the paddle moves up.
pub const INPUT_UP: u8 = 1;

/// Bit 1 of an input byte: the paddle moves down.
pub const INPUT_DOWN: u8 = 2;

/// The input byte for a pair of direction keys: bit 0 is up, bit 1 is down.
pub open spec fn key_input(up: bool, down: bool) -> u8 {
    ((if up { 1int } else { 0int }) + (if down { 2int } else { 0int })) as u8
}

/// Whether an input byte asks the paddle to move up.
pub open spec fn spec_is_up(input: u8) -> bool {
    input & INPUT_UP != 0
}

/// Whether an input byte asks the paddle to move down.
pub open spec fn spec_is_down(input: u8) -> bool {
    input & INPUT_DOWN != 0
}

/// Encodes the state of an up key and a down key as an input byte.
pub fn encode_input(up_pressed: bool, down_pressed: bool) -> (input: u8)
    ensures
        input == key_input(up_pressed, down_pressed),
        spec_is_up(input) == up_pressed,
        spec_is_down(input) == down_pressed,
{
    let mut input: u8 = 0;
    if up_pressed {
        input = input | INPUT_UP;
    }
    if down_pressed {
        input = input | INPUT_DOWN;
    }
    assert(0u8 | 1u8 == 1u8 && 0u8 | 2u8 == 2u8 && 1u8 | 2u8 == 3u8) by (bit_vector);
    assert(1u8 & 1u8 != 0 && 2u8 & 1u8 == 0 && 3u8 & 1u8 != 0 && 0u8 & 1u8 == 0) by (bit_vector);
    assert(1u8 & 2u8 == 0 && 2u8 & 2u8 != 0 && 3u8 & 2u8 != 0 && 0u8 & 2u8 == 0) by (bit_vector);
    input
}

/// Whether an input byte asks the paddle to move up.
pub fn is_up(input: u8) -> (r: bool)
    ensures
        r == spec_is_up(input),
{
    input & INPUT_UP != 0
}

/// Whether an input byte asks the paddle to move down.
pub fn is_down(input: u8) -> (r: bool)
    ensures
        r == spec_is_down(input),
{
    input & INPUT_DOWN != 0
}

/// Decoding an encoded pair of keys gives the keys back.
pub proof fn lemma_input_round_trip(up: bool, down: bool)
    ensures
        spec_is_up(key_input(up, down)) == up,
        spec_is_down(key_input(up, down)) == down,
{
    assert(1u8 & 1u8 != 0 && 2u8 & 1u8 == 0 && 3u8 & 1u8 != 0 && 0u8 & 1u8 == 0) by (bit_vector);
    assert(1u8 & 2u8 == 0 && 2u8 & 2u8 != 0 && 3u8 & 2u8 != 0 && 0u8 & 2u8 == 0) by (bit_vector);
}

/// The keys that move the local paddle, read once per frame.
/// Either key of a pair moves the paddle: `w` or `arrow_up` moves it up,
/// `s` or `arrow_down` moves it down.
#[derive(Clone, Copy, Debug, PartialEq, Eq, Structural)]
pub struct PressedKeys {
    pub w: bool,
    pub s: bool,
    pub arrow_up: bool,
    pub arrow_down: bool,
}

/// The input byte that the local player gives with these keys.
pub open spec fn keys_input(keys: PressedKeys) -> u8 {
    key_input(keys.w || keys.arrow_up, keys.s || keys.arrow_down)
}

/// The input byte that the local player gives with these keys: both key
/// pairs are encoded and their bits combined.
pub fn local_input(keys: PressedKeys) -> (input: u8)
    ensures
        input == keys_input(keys),
        input < 4,
        spec_is_up(input) == (keys.w || keys.arrow_up),
        spec_is_down(input) == (keys.s || keys.arrow_down),
{
    let a = encode_input(keys.w, keys.s);
    let b = encode_input(keys.arrow_up, keys.arrow_down);
    assert(0u8 | 0u8 == 0u8 && 0u8 | 1u8 == 1u8 && 0u8 | 2u8 == 2u8 && 0u8 | 3u8 == 3u8)
        by (bit_vector);
    assert(1u8 | 0u8 == 1u8 && 1u8 | 1u8 == 1u8 && 1u8 | 2u8 == 3u8 && 1u8 | 3u8 == 3u8)
        by (bit_vector);
    assert(2u8 | 0u8 == 2u8 && 2u8 | 1u8 == 3u8 && 2u8 | 2u8 == 2u8 && 2u8 | 3u8 == 3u8)
        by (bit_vector);
    assert(3u8 | 0u8 == 3u8 && 3u8 | 1u8 == 3u8 && 3u8 | 2u8 == 3u8 && 3u8 | 3u8 == 3u8)
        by (bit_vector);
    proof {
        lemma_input_round_trip(keys.w || keys.arrow_up, keys.s || keys.arrow_down);
    }
    a | b
}

// ——— Resources ———
/// One frame's worth of inputs for both players.
/// This drives the simulation.
#[derive(Clone, Copy, Debug, PartialEq, Eq, Structural)]
pub struct FrameInputs {
    pub left: u8,
    pub right: u8,
}

impl FrameInputs {
    /// The input of the player on `side`.
    pub open spec fn input_of(self, side: Side) -> u8 {
        match side {
            Side::Left => self.left,
            Side::Right => self.right,
        }
    }

    /// These inputs with the input of the player on `side` replaced.
    pub open spec fn with_input(self, side: Side, input: u8) -> FrameInputs {
        match side {
            Side::Left => FrameInputs { left: input, ..self },
            Side::Right => FrameInputs { right: input, ..self },
        }
    }

    /// The input of the player on `side`.
    pub fn get(&self, side: Side) -> (input: u8)
        ensures
            input == self.input_of(side),
    {
        match side {
            Side::Left => self.left,
            Side::Right => self.right,
        }
    }

    /// Replaces the input of the player on `side`.
    pub fn set(&mut self, side: Side, input: u8)
        ensures
            *final(self) == old(self).with_input(side, input),
    {
        match side {
            Side::Left => self.left = input,
            Side::Right => self.right = input,
        }
    }
}

impl Default for FrameInputs {
    fn default() -> (r: FrameInputs)
        ensures
            r == (FrameInputs { left: 0, right: 0 }),
    {
        FrameInputs { left: 0, right: 0 }
    }
}

/// Per-frame inputs, one slot per frame modulo `BUFFER_SIZE`.
#[derive(Debug)]
pub struct InputBuffer {
    pub inputs: [FrameInputs; BUFFER_SIZE],
}

impl View for InputBuffer {
    type V = Seq<FrameInputs>;

    open spec fn view(&self) -> Seq<FrameInputs> {
        self.inputs@
    }
}

impl InputBuffer {
    /// An input buffer in which every frame has no input from either player.
    pub fn new() -> (r: InputBuffer)
        ensures
            r@.len() == BUFFER_SIZE,
            forall|i: int| 0 <= i < BUFFER_SIZE ==> r@[i] == (FrameInputs { left: 0, right: 0 }),
    {
        InputBuffer { inputs: [FrameInputs { left: 0, right: 0 }; BUFFER_SIZE] }
    }

    /// Writes the input of the player on `side` into slot `idx`.
    pub fn set_input(&mut self, idx: usize, side: Side, input: u8)
        requires
            idx < BUFFER_SIZE,
        ensures
            final(self)@ == old(self)@.update(idx as int, old(self)@[idx as int].with_input(side, input)),
    {
        let mut entry = self.inputs[idx];
        entry.set(side, input);
        self.inputs[idx] = entry;
    }
}

/// Per-frame game states kept for rollback, one slot per frame modulo
/// `BUFFER_SIZE`; a slot is `None` until a state has been stored in it.
#[derive(Debug)]
pub struct SnapshotBuffer<S> {
    pub states: [Option<S>; BUFFER_SIZE],
}

impl<S> View for SnapshotBuffer<S> {
    type V = Seq<Option<S>>;

    open spec fn view(&self) -> Seq<Option<S>> {
        self.states@
    }
}

impl<S: Copy> SnapshotBuffer<S> {
    /// A snapshot buffer with every slot empty.
    pub fn new() -> (r: SnapshotBuffer<S>)
        ensures
            r@.len() == BUFFER_SIZE,
            forall|i: int| 0 <= i < BUFFER_SIZE ==> r@[i] is None,
    {
        SnapshotBuffer { states: [None; BUFFER_SIZE] }
    }
}

// ——— Systems ———
/// What the opponent is predicted to play in a frame whose input has not
/// arrived: its last confirmed input, or no input before any was confirmed.
pub open spec fn prediction(last_confirmed: Option<u8>) -> u8 {
    match last_confirmed {
        Some(input) => input,
        None => 0,
    }
}

/// The input buffer after the local input of `frame` was taken and the
/// opponent's input predicted, unless the simulation stalls.
pub open spec fn predicted_inputs(
    inputs: Seq<FrameInputs>,
    frame: u64,
    keys: PressedKeys,
    side: Side,
    network_state: NetworkState,
) -> Seq<FrameInputs> {
    if network_state.stalled {
        inputs
    } else {
        let idx = slot(frame);
        let with_local = inputs[idx].with_input(side, keys_input(keys));
        let entry = if network_state.confirmed_for@[idx] == frame {
            with_local
        } else {
            with_local.with_input(side.opponent(), prediction(network_state.last_confirmed_opponent_input))
        };
        inputs.update(idx, entry)
    }
}

/// Records the local player's input for `frame` and predicts the opponent's
/// input for it, unless that input is already confirmed. Does nothing while
/// the simulation stalls.
pub fn take_input_and_predict(
    input_buffer: &mut InputBuffer,
    frame: u64,
    keys: PressedKeys,
    local_player: LocalPlayer,
    network_state: &NetworkState,
)
    ensures
        final(input_buffer)@ == predicted_inputs(old(input_buffer)@, frame, keys, local_player.side, *network_state),
{
    // Don't register or predict input when stalling
    if network_state.stalled {
        return;
    }
    let idx = slot_of(frame);

    // Take local player's input this frame
    let input = local_input(keys);
    input_buffer.set_input(idx, local_player.side, input);

    // Predict opponent's input this frame.
    // If the input is already confirmed, skip.
    if network_state.confirmed_for[idx] == frame {
        return;
    }
    let prediction = match network_state.last_confirmed_opponent_input {
        Some(input) => input,
        None => 0u8,
    };
    input_buffer.set_input(idx, local_player.side.opponent(), prediction);
}

/// Whether `step` may be called on every state with any pair of inputs.
pub open spec fn step_total<S, F: Fn(&S, u8, u8) -> S>(step: F) -> bool {
    forall|s: S, left: u8, right: u8| call_requires(step, (&s, left, right))
}

/// Stores a snapshot of `state` in the slot of `frame`, then advances
/// `state` by one frame with the inputs recorded for `frame`.
pub fn tick_simulation<S: Copy, F: Fn(&S, u8, u8) -> S>(
    state: &mut S,
    frame: u64,
    snapshot_buffer: &mut SnapshotBuffer<S>,
    input_buffer: &InputBuffer,
    step: F,
)
    requires
        step_total(step),
    ensures
        final(snapshot_buffer)@ == old(snapshot_buffer)@.update(slot(frame), Some(*old(state))),
        call_ensures(
            step,
            (&*old(state), input_buffer@[slot(frame)].left, input_buffer@[slot(frame)].right),
            *final(state),
        ),
{
    let idx = slot_of(frame);

    // Snapshot before stepping
    snapshot_buffer.states[idx] = Some(*state);
    let inputs = input_buffer.inputs[idx];
    *state = step(&*state, inputs.left, inputs.right);
}

} // verus!
