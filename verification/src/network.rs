use vstd::prelude::*;

use crate::config::{slot, slot_of, BUFFER_SIZE, FRAMES_TO_SEND, MAX_ROLLBACK_FRAMES, MESSAGE_SIZE};
use crate::packet::{decode_message, encode_message, message_bytes, parse_message, InputMessage};
use crate::simulation::{step_total, FrameInputs, InputBuffer, SnapshotBuffer};
use crate::states::GameResult;

verus! {

// ——— Resources ———
/// The side of the arena a player's paddle is on.
#[derive(Clone, Copy, Debug, PartialEq, Eq, Structural)]
pub enum Side {
    Left,
    Right,
}

impl Side {
    /// The other side.
    pub open spec fn spec_opponent(self) -> Side {
        match self {
            Side::Left => Side::Right,
            Side::Right => Side::Left,
        }
    }

    /// The other side.
    #[verifier::when_used_as_spec(spec_opponent)]
    pub fn opponent(self) -> (r: Side)
        ensures
            r == self.spec_opponent(),
    {
        match self {
            Side::Left => Side::Right,
            Side::Right => Side::Left,
        }
    }
}

/// The side played on this machine.
#[derive(Clone, Copy, Debug, PartialEq, Eq, Structural)]
pub struct LocalPlayer {
    pub side: Side,
}

/// What this peer knows about the input exchange with its opponent.
#[derive(Debug)]
pub struct NetworkState {
    /// The earliest frame whose predicted input turned out wrong, if any.
    pub rollback_to: Option<u64>,
    /// The last frame up to which both peers agree on all inputs.
    pub agreed_frame: Option<u64>,
    /// For each slot, the frame whose opponent input in that slot is confirmed.
    pub confirmed_for: [u64; BUFFER_SIZE],
    /// The opponent's input in the agreed frame.
    pub last_confirmed_opponent_input: Option<u8>,
    /// Whether the simulation waits for the opponent.
    pub stalled: bool,
    /// How many frames this peer is ahead of its opponent.
    pub local_drift: i16,
    /// How many frames the opponent says it is ahead of this peer.
    pub remote_drift: i16,
}

/// The mathematical value of a `NetworkState`.
pub struct NetworkView {
    pub rollback_to: Option<u64>,
    pub agreed_frame: Option<u64>,
    pub confirmed_for: Seq<u64>,
    pub last_confirmed_opponent_input: Option<u8>,
    pub stalled: bool,
    pub local_drift: i16,
    pub remote_drift: i16,
}

impl View for NetworkState {
    type V = NetworkView;

    open spec fn view(&self) -> NetworkView {
        NetworkView {
            rollback_to: self.rollback_to,
            agreed_frame: self.agreed_frame,
            confirmed_for: self.confirmed_for@,
            last_confirmed_opponent_input: self.last_confirmed_opponent_input,
            stalled: self.stalled,
            local_drift: self.local_drift,
            remote_drift: self.remote_drift,
        }
    }
}

impl NetworkState {
    /// The state before any message was exchanged: nothing is confirmed
    /// (every slot holds `u64::MAX`), nothing agreed, no rollback pending.
    pub fn new() -> (r: NetworkState)
        ensures
            r.rollback_to is None,
            r.agreed_frame is None,
            forall|i: int| 0 <= i < BUFFER_SIZE ==> r.confirmed_for@[i] == u64::MAX,
            r.last_confirmed_opponent_input is None,
            !r.stalled,
            r.local_drift == 0,
            r.remote_drift == 0,
    {
        NetworkState {
            rollback_to: None,
            agreed_frame: None,
            confirmed_for: [u64::MAX; BUFFER_SIZE],
            last_confirmed_opponent_input: None,
            stalled: false,
            local_drift: 0,
            remote_drift: 0,
        }
    }
}


// ——— Sending input ———
/// `frame - i`, or 0 where that would be negative.
pub open spec fn saturating_back(frame: u64, i: int) -> u64 {
    if frame >= i { (frame - i) as u64 } else { 0 }
}

/// The entries that a peer at `frame` sends: for each of the last
/// `FRAMES_TO_SEND` frames (newest first, never before frame 0) the frame
/// number and the local player's input in it.
pub open spec fn sent_entries(frame: u64, inputs: Seq<FrameInputs>, side: Side) -> Seq<(u64, u8)> {
    Seq::new(
        FRAMES_TO_SEND as nat,
        |i: int|
            {
                let f = saturating_back(frame, i);
                (f, inputs[slot(f)].input_of(side))
            },
    )
}

/// The message that this peer sends at `frame`: its drift in the header and
/// its inputs of the last `FRAMES_TO_SEND` frames in the body.
pub fn send_input(
    frame: u64,
    input_buffer: &InputBuffer,
    local_player: LocalPlayer,
    network_state: &NetworkState,
) -> (bytes: Vec<u8>)
    ensures
        bytes@ == message_bytes(
            network_state.local_drift,
            sent_entries(frame, input_buffer@, local_player.side),
        ),
        bytes@.len() == MESSAGE_SIZE,
{
    let mut entries: Vec<(u64, u8)> = Vec::new();
    let mut i: u64 = 0;
    while i < FRAMES_TO_SEND as u64
        invariant
            i <= FRAMES_TO_SEND,
            entries@ =~= sent_entries(frame, input_buffer@, local_player.side).take(i as int),
        decreases FRAMES_TO_SEND - i,
    {
        let f = frame.saturating_sub(i);
        let idx = slot_of(f);
        let input = input_buffer.inputs[idx].get(local_player.side);
        entries.push((f, input));
        i = i + 1;
    }
    assert(entries@ =~= sent_entries(frame, input_buffer@, local_player.side));
    let message = InputMessage { drift: network_state.local_drift, entries };
    encode_message(&message)
}


// ——— Receiving input ———
/// The smaller of two frames.
pub open spec fn earlier(a: u64, b: u64) -> u64 {
    if a <= b { a } else { b }
}

/// Applies one received entry (frame number and the opponent's input in it)
/// to this peer's state and input buffer, at local frame `frame`.
///
/// An entry for a frame that is already confirmed in its slot, or that is not
/// after the agreed frame, is ignored. Otherwise the opponent's input is
/// written and confirmed; if the frame is already simulated and the input
/// differs from the one used (the prediction), a rollback to the earliest
/// such frame is requested.
pub open spec fn receive_entry(
    net: NetworkView,
    inputs: Seq<FrameInputs>,
    side: Side,
    frame: u64,
    entry: (u64, u8),
) -> (NetworkView, Seq<FrameInputs>) {
    let f = entry.0;
    let input = entry.1;
    let idx = slot(f);
    if f == net.confirmed_for[idx] {
        (net, inputs)
    } else if net.agreed_frame matches Some(a) && f <= a {
        (net, inputs)
    } else {
        let predicted = inputs[idx].input_of(side.opponent());
        let rollback_to = if f < frame && predicted != input {
            Some(
                match net.rollback_to {
                    Some(existing) => earlier(existing, f),
                    None => f,
                },
            )
        } else {
            net.rollback_to
        };
        (
            NetworkView { rollback_to, confirmed_for: net.confirmed_for.update(idx, f), ..net },
            inputs.update(idx, inputs[idx].with_input(side.opponent(), input)),
        )
    }
}

/// Applies the received entries in order.
pub open spec fn receive_entries(
    net: NetworkView,
    inputs: Seq<FrameInputs>,
    side: Side,
    frame: u64,
    entries: Seq<(u64, u8)>,
) -> (NetworkView, Seq<FrameInputs>)
    decreases entries.len(),
{
    if entries.len() == 0 {
        (net, inputs)
    } else {
        let before = receive_entries(net, inputs, side, frame, entries.drop_last());
        receive_entry(before.0, before.1, side, frame, entries.last())
    }
}

/// `frame - remote_frame`, both first read as `i64`.
pub open spec fn frame_difference(frame: u64, remote_frame: u64) -> int {
    (frame as i64) as int - (remote_frame as i64) as int
}

/// Whether `frame_difference` leaves the range of `i64`.
pub open spec fn difference_overflows(frame: u64, remote_frame: u64) -> bool {
    frame_difference(frame, remote_frame) < i64::MIN || frame_difference(frame, remote_frame)
        > i64::MAX
}

/// A drift clamped to the range of `i16`.
pub open spec fn clamp_drift(d: int) -> i16 {
    if d < i16::MIN {
        i16::MIN
    } else if d > i16::MAX {
        i16::MAX
    } else {
        d as i16
    }
}

/// Whether computing the drift against a packet's newest frame overflows
/// `i64` at local frame `frame`.
pub open spec fn packet_overflows(frame: u64, packet: Seq<u8>) -> bool {
    parse_message(packet) matches Some(m) && difference_overflows(frame, m.1[0].0)
}

/// Whether computing the drift against this packet's newest frame overflows
/// `i64` at local frame `frame`; such a packet cannot be received.
pub fn drift_would_overflow(frame: u64, packet: &[u8]) -> (r: bool)
    ensures
        r == packet_overflows(frame, packet@),
{
    match decode_message(packet) {
        None => false,
        Some(message) => {
            let remote_frame = message.entries[0].0;
            let d: i128 = (frame as i64) as i128 - (remote_frame as i64) as i128;
            d < i64::MIN as i128 || d > i64::MAX as i128
        },
    }
}

/// The state after a message's header was read at local frame `frame`: the
/// opponent's drift is stored and this peer's drift is how far `frame` is
/// ahead of the message's newest frame, clamped to `i16`.
pub open spec fn read_header(net: NetworkView, frame: u64, message: (i16, Seq<(u64, u8)>)) -> NetworkView {
    NetworkView {
        remote_drift: message.0,
        local_drift: clamp_drift(frame_difference(frame, message.1[0].0)),
        ..net
    }
}

/// Receives one packet at local frame `frame`. A packet of the wrong length
/// is rejected and changes nothing; otherwise the drifts are updated from
/// its header and its entries are applied in order.
pub fn receive_packet(
    frame: u64,
    input_buffer: &mut InputBuffer,
    local_player: LocalPlayer,
    network_state: &mut NetworkState,
    packet: &[u8],
) -> (accepted: bool)
    requires
        !packet_overflows(frame, packet@),
    ensures
        accepted == parse_message(packet@) is Some,
        match parse_message(packet@) {
            None => final(network_state)@ == old(network_state)@ && final(input_buffer)@ == old(
                input_buffer,
            )@,
            Some(m) => (final(network_state)@, final(input_buffer)@) == receive_entries(
                read_header(old(network_state)@, frame, m),
                old(input_buffer)@,
                local_player.side,
                frame,
                m.1,
            ),
        },
{
    let message = match decode_message(packet) {
        None => {
            return false;
        },
        Some(m) => m,
    };
    let ghost m = message@;
    // Read header
    network_state.remote_drift = message.drift;

    // The sender's latest frame is the first entry.
    let remote_frame = message.entries[0].0;
    let d: i128 = (frame as i64) as i128 - (remote_frame as i64) as i128;
    network_state.local_drift = if d < i16::MIN as i128 {
        i16::MIN
    } else if d > i16::MAX as i128 {
        i16::MAX
    } else {
        d as i16
    };
    let ghost net0 = network_state@;
    let ghost inputs0 = input_buffer@;
    assert(net0 == read_header(old(network_state)@, frame, m));
    let side = local_player.side;
    let opponent = side.opponent();

    // Fill input buffer with incoming frames
    let mut i: usize = 0;
    while i < FRAMES_TO_SEND
        invariant
            i <= FRAMES_TO_SEND,
            message.entries@.len() == FRAMES_TO_SEND,
            m.1 == message.entries@,
            opponent == side.opponent(),
            (network_state@, input_buffer@) == receive_entries(
                net0,
                inputs0,
                side,
                frame,
                message.entries@.take(i as int),
            ),
        decreases FRAMES_TO_SEND - i,
    {
        let (f, input) = message.entries[i];
        let idx = slot_of(f);
        proof {
            assert(message.entries@.take(i + 1).drop_last() =~= message.entries@.take(i as int));
        }
        let already_confirmed = f == network_state.confirmed_for[idx];
        let ancient = match network_state.agreed_frame {
            Some(agreed) => f <= agreed,
            None => false,
        };
        if !already_confirmed && !ancient {
            // Checking for rollback is only necessary for frames already simulated
            if f < frame {
                let predicted = input_buffer.inputs[idx].get(opponent);
                // The earliest mismatched frame is the one to roll back to.
                if predicted != input {
                    network_state.rollback_to = Some(
                        match network_state.rollback_to {
                            Some(existing) => if existing <= f {
                                existing
                            } else {
                                f
                            },
                            None => f,
                        },
                    );
                }
            }
            // Overwrite input and confirm it
            input_buffer.set_input(idx, opponent, input);
            network_state.confirmed_for[idx] = f;
        }
        i = i + 1;
    }
    assert(message.entries@.take(FRAMES_TO_SEND as int) =~= message.entries@);
    true
}


// ——— Agreement ———
/// Whether the opponent's input of frame `f` is confirmed in its slot.
pub open spec fn is_confirmed(confirmed_for: Seq<u64>, f: int) -> bool {
    0 <= f <= u64::MAX && confirmed_for[slot(f as u64)] == f
}

/// The first frame that is not yet agreed.
pub open spec fn agreement_start(agreed_frame: Option<u64>) -> int {
    match agreed_frame {
        Some(f) => f + 1,
        None => 0,
    }
}

/// Whether advancing the agreed frame would run past `u64::MAX`: the agreed
/// frame is already `u64::MAX`, or every frame from the first unagreed one up
/// to `u64::MAX` is confirmed.
pub open spec fn agreement_overflows(net: NetworkView) -> bool {
    let start = agreement_start(net.agreed_frame);
    start > u64::MAX || forall|f: int| start <= f <= u64::MAX ==> #[trigger] is_confirmed(net.confirmed_for, f)
}

/// `after` is `before` with the agreed frame advanced over the longest run of
/// confirmed frames that follows it, and the opponent's input in the new
/// agreed frame remembered; without such a run nothing changes.
pub open spec fn advanced_agreement(
    before: NetworkView,
    inputs: Seq<FrameInputs>,
    side: Side,
    after: NetworkView,
) -> bool {
    let start = agreement_start(before.agreed_frame);
    if !is_confirmed(before.confirmed_for, start) {
        after == before
    } else {
        &&& after.agreed_frame matches Some(a)
        &&& start <= a
        &&& forall|f: int| start <= f <= a ==> #[trigger] is_confirmed(before.confirmed_for, f)
        &&& !is_confirmed(before.confirmed_for, a + 1)
        &&& after == NetworkView {
            agreed_frame: Some(a),
            last_confirmed_opponent_input: Some(inputs[slot(a)].input_of(side.opponent())),
            ..before
        }
    }
}

proof fn lemma_slot_wraps(f: u64, g: u64)
    requires
        g == f + 64,
    ensures
        slot(f) == slot(g),
{
    vstd::arithmetic::div_mod::lemma_mod_add_multiples_vanish(f as int, 64);
}

/// A frame that is not confirmed, from the first unagreed one on, stops the
/// advance of the agreed frame before `u64::MAX`.
proof fn lemma_unconfirmed_blocks_overflow(net: NetworkView, g: int)
    requires
        agreement_start(net.agreed_frame) <= g <= u64::MAX,
        !is_confirmed(net.confirmed_for, g),
    ensures
        !agreement_overflows(net),
{
}

impl NetworkState {
    /// Whether advancing the agreed frame would run past `u64::MAX`; the
    /// agreed frame cannot be advanced then.
    pub fn agreement_would_overflow(&self) -> (r: bool)
        ensures
            r == agreement_overflows(self@),
    {
        let start: u64 = match self.agreed_frame {
            Some(f) => {
                if f == u64::MAX {
                    return true;
                }
                f + 1
            },
            None => 0,
        };
        if u64::MAX - start >= 64 {
            proof {
                let g = (start + 64) as u64;
                lemma_slot_wraps(start, g);
                if is_confirmed(self.confirmed_for@, start as int) {
                    lemma_unconfirmed_blocks_overflow(self@, g as int);
                } else {
                    lemma_unconfirmed_blocks_overflow(self@, start as int);
                }
            }
            return false;
        }
        let mut f: u64 = start;
        loop
            invariant
                start == agreement_start(self.agreed_frame),
                start <= f,
                forall|g: int| start <= g < f ==> #[trigger] is_confirmed(self.confirmed_for@, g),
            decreases u64::MAX - f,
        {
            let idx = slot_of(f);
            if self.confirmed_for[idx] != f {
                proof {
                    lemma_unconfirmed_blocks_overflow(self@, f as int);
                }
                return false;
            }
            if f == u64::MAX {
                assert forall|g: int| start <= g <= u64::MAX implies #[trigger] is_confirmed(
                    self.confirmed_for@,
                    g,
                ) by {
                    if g == f {
                        assert(is_confirmed(self.confirmed_for@, f as int));
                    }
                }
                return true;
            }
            f = f + 1;
        }
    }
}

/// Advances the agreed frame to the last frame up to which both peers agree
/// on every input, and remembers the opponent's input in that frame.
pub fn advance_agreed_frame(
    input_buffer: &InputBuffer,
    local_player: LocalPlayer,
    network_state: &mut NetworkState,
)
    requires
        !agreement_overflows(old(network_state)@),
    ensures
        advanced_agreement(old(network_state)@, input_buffer@, local_player.side, final(network_state)@),
{
    let ghost before = network_state@;
    let start: u64 = match network_state.agreed_frame {
        Some(f) => f + 1,
        None => 0,
    };
    let opponent = local_player.side.opponent();
    let mut f: u64 = start;
    loop
        invariant_except_break
            start == agreement_start(before.agreed_frame),
            start <= f,
            f - start <= 64,
            !agreement_overflows(before),
            opponent == local_player.side.opponent(),
            network_state@.confirmed_for == before.confirmed_for,
            forall|g: int| start <= g < f ==> #[trigger] is_confirmed(before.confirmed_for, g),
            f == start ==> network_state@ == before,
            f > start ==> network_state@ == (NetworkView {
                agreed_frame: Some((f - 1) as u64),
                last_confirmed_opponent_input: Some(input_buffer@[slot((f - 1) as u64)].input_of(opponent)),
                ..before
            }),
        ensures
            advanced_agreement(before, input_buffer@, local_player.side, network_state@),
        decreases 64 - (f - start),
    {
        let idx = slot_of(f);
        if network_state.confirmed_for[idx] == f {
            proof {
                if f - start == 64 {
                    lemma_slot_wraps(start, f);
                    assert(is_confirmed(before.confirmed_for, start as int));
                }
            }
            network_state.agreed_frame = Some(f);
            network_state.last_confirmed_opponent_input = Some(input_buffer.inputs[idx].get(opponent));
            if f == u64::MAX {
                proof {
                    assert forall|g: int| start <= g <= u64::MAX implies #[trigger] is_confirmed(
                        before.confirmed_for,
                        g,
                    ) by {
                        if g == f {
                            assert(is_confirmed(before.confirmed_for, f as int));
                        }
                    }
                }
                break;
            }
            f = f + 1;
        } else {
            assert(!is_confirmed(before.confirmed_for, f as int));
            break;
        }
    }
}


// ——— Stalling, winning, sides ———
/// Whether the simulation at `frame` must wait: no frame is agreed yet, or
/// the agreed frame is `MAX_ROLLBACK_FRAMES` or more frames behind.
pub open spec fn should_stall(frame: u64, agreed_frame: Option<u64>) -> bool {
    match agreed_frame {
        Some(confirmed) => saturating_back(frame, confirmed as int) >= MAX_ROLLBACK_FRAMES,
        None => true,
    }
}

/// Stalls the simulation when the agreed frame is too far behind `frame`
/// (so far that unrecoverable packet loss would occur), and resumes it
/// otherwise.
pub fn check_stall(frame: u64, network_state: &mut NetworkState)
    ensures
        final(network_state)@ == (NetworkView {
            stalled: should_stall(frame, old(network_state).agreed_frame),
            ..old(network_state)@
        }),
        final(network_state).stalled == match old(network_state).agreed_frame {
            Some(agreed) => frame - agreed >= MAX_ROLLBACK_FRAMES,
            None => true,
        },
{
    network_state.stalled = match network_state.agreed_frame {
        Some(confirmed) => frame.saturating_sub(confirmed) >= MAX_ROLLBACK_FRAMES,
        None => true,
    };
}

/// The result of the match for the local player. The game has no win
/// condition yet and lasts forever: no result is ever produced, whatever
/// the scores.
pub fn check_win(_score_left: u32, _score_right: u32, _local_player: LocalPlayer) -> (result: Option<
    GameResult,
>)
    ensures
        result is None,
{
    None
}

/// The side of a peer with id `my_id` against a peer with id `peer_id`:
/// the smaller id plays on the left.
pub open spec fn side_for(my_id: u128, peer_id: u128) -> Side {
    if my_id <= peer_id {
        Side::Left
    } else {
        Side::Right
    }
}

/// The side of the local player, from the two peers' ids in an order both
/// peers agree on: the smaller id plays on the left.
pub fn assign_sides(my_id: u128, peer_id: u128) -> (local_player: LocalPlayer)
    ensures
        local_player.side == side_for(my_id, peer_id),
{
    // Sort to get a deterministic order both clients agree on
    let first = if my_id <= peer_id { my_id } else { peer_id };
    if first == my_id {
        LocalPlayer { side: Side::Left }
    } else {
        LocalPlayer { side: Side::Right }
    }
}

/// Two peers with different ids play on opposite sides.
pub proof fn lemma_sides_differ(a: u128, b: u128)
    requires
        a != b,
    ensures
        side_for(a, b) == side_for(b, a).opponent(),
{
}


// ——— Rollback ———
/// Whether the agreed frame is so far behind `frame` that the whole input
/// buffer may have been overwritten by predictions; a rollback is then
/// abandoned.
pub open spec fn rollback_abandoned(frame: u64, agreed_frame: Option<u64>) -> bool {
    agreed_frame matches Some(agreed) && saturating_back(frame, agreed as int) >= BUFFER_SIZE
}

/// The inputs after the first `n` frames from `from` on were visited in
/// order, and the opponent's input of each one not confirmed was set to
/// `input`.
pub open spec fn repredict(
    inputs: Seq<FrameInputs>,
    confirmed_for: Seq<u64>,
    from: u64,
    n: nat,
    input: u8,
    side: Side,
) -> Seq<FrameInputs>
    decreases n,
{
    if n == 0 {
        inputs
    } else {
        let before = repredict(inputs, confirmed_for, from, (n - 1) as nat, input, side);
        let f = (from + n - 1) as u64;
        let idx = slot(f);
        if confirmed_for[idx] != f {
            before.update(idx, before[idx].with_input(side.opponent(), input))
        } else {
            before
        }
    }
}

/// The inputs after a rollback from `from` at frame `to`: every frame from
/// `from` to `to` whose opponent input is not confirmed is predicted again
/// with the last confirmed opponent input, if there is one.
pub open spec fn refreshed_predictions(
    inputs: Seq<FrameInputs>,
    confirmed_for: Seq<u64>,
    from: u64,
    to: u64,
    last_confirmed: Option<u8>,
    side: Side,
) -> Seq<FrameInputs> {
    match last_confirmed {
        Some(input) => if from <= to {
            repredict(inputs, confirmed_for, from, (to - from + 1) as nat, input, side)
        } else {
            inputs
        },
        None => inputs,
    }
}

/// The snapshot buffer after the first `n` states of `trace` were stored in
/// the slots of the frames `from`, `from + 1`, ... in order.
pub open spec fn record_trace<S>(snapshots: Seq<Option<S>>, from: u64, trace: Seq<S>, n: nat) -> Seq<
    Option<S>,
>
    decreases n,
{
    if n == 0 {
        snapshots
    } else {
        record_trace(snapshots, from, trace, (n - 1) as nat).update(
            slot((from + n - 1) as u64),
            Some(trace[n - 1]),
        )
    }
}

/// Each state of `trace` is what `step` returns on the one before it, with
/// the inputs of its frame, the first state being that of frame `from`.
pub open spec fn steps_through<S, F: Fn(&S, u8, u8) -> S>(
    step: F,
    inputs: Seq<FrameInputs>,
    from: u64,
    trace: Seq<S>,
) -> bool {
    forall|k: int|
        #![trigger trace[k]]
        0 <= k < trace.len() - 1 ==> call_ensures(
            step,
            (&trace[k], inputs[slot((from + k) as u64)].left, inputs[slot((from + k) as u64)].right),
            trace[k + 1],
        )
}

/// Resimulating from the snapshot of frame `from` up to frame `to`: `trace`
/// holds the states of the frames `from` to `to`, starting with `snapshot`
/// and stepping with `inputs`; the states of the frames before `to` are
/// stored as snapshots and the state of `to` is the result.
pub open spec fn resimulated<S, F: Fn(&S, u8, u8) -> S>(
    step: F,
    inputs: Seq<FrameInputs>,
    from: u64,
    to: u64,
    snapshot: S,
    snapshots_before: Seq<Option<S>>,
    snapshots_after: Seq<Option<S>>,
    result: S,
) -> bool {
    let n: nat = if from <= to { (to - from) as nat } else { 0 };
    exists|trace: Seq<S>|
        {
            &&& trace.len() == n + 1
            &&& trace[0] == snapshot
            &&& steps_through(step, inputs, from, trace)
            &&& result == trace[n as int]
            &&& snapshots_after == record_trace(snapshots_before, from, trace, n)
        }
}

proof fn lemma_record_trace_prefix<S>(snapshots: Seq<Option<S>>, from: u64, t1: Seq<S>, t2: Seq<S>, n: nat)
    requires
        n <= t1.len(),
        n <= t2.len(),
        forall|k: int| 0 <= k < n ==> t1[k] == t2[k],
    ensures
        record_trace(snapshots, from, t1, n) == record_trace(snapshots, from, t2, n),
    decreases n,
{
    if n > 0 {
        lemma_record_trace_prefix(snapshots, from, t1, t2, (n - 1) as nat);
    }
}

/// Rolls back to the frame requested by `rollback_to`, if any, and
/// re-simulates up to `frame`.
///
/// The request is always cleared. When the agreed frame is `BUFFER_SIZE` or
/// more frames behind `frame`, or no snapshot is stored for the rollback
/// frame's slot, nothing else changes. Otherwise the opponent's unconfirmed
/// inputs from the rollback frame to `frame` are predicted again from its
/// last confirmed input, the snapshot is stepped forward with the inputs of
/// each frame up to `frame`, storing each intermediate state as that frame's
/// snapshot, and the result becomes the current state.
pub fn rollback<S: Copy, F: Fn(&S, u8, u8) -> S>(
    state: &mut S,
    frame: u64,
    snapshot_buffer: &mut SnapshotBuffer<S>,
    input_buffer: &mut InputBuffer,
    local_player: LocalPlayer,
    network_state: &mut NetworkState,
    step: F,
)
    requires
        step_total(step),
    ensures
        final(network_state)@ == (NetworkView { rollback_to: None, ..old(network_state)@ }),
        ({
            let net = old(network_state)@;
            if rollback_abandoned(frame, net.agreed_frame) || net.rollback_to is None
                || old(snapshot_buffer)@[slot(net.rollback_to->0)] is None {
                &&& *final(state) == *old(state)
                &&& final(snapshot_buffer)@ == old(snapshot_buffer)@
                &&& final(input_buffer)@ == old(input_buffer)@
            } else {
                let from = net.rollback_to->0;
                &&& final(input_buffer)@ == refreshed_predictions(
                    old(input_buffer)@,
                    net.confirmed_for,
                    from,
                    frame,
                    net.last_confirmed_opponent_input,
                    local_player.side,
                )
                &&& resimulated(
                    step,
                    final(input_buffer)@,
                    from,
                    frame,
                    old(snapshot_buffer)@[slot(from)]->0,
                    old(snapshot_buffer)@,
                    final(snapshot_buffer)@,
                    *final(state),
                )
            }
        }),
{
    // Major packet loss (the entire buffer may have been overwritten by
    // predictions) may have desynchronised the game states; the rollback
    // is abandoned.
    if let Some(agreed) = network_state.agreed_frame {
        let gap = frame.saturating_sub(agreed);
        if gap >= BUFFER_SIZE as u64 {
            network_state.rollback_to = None;
            return;
        }
    }

    // Return early if there is no need for rollback
    let rollback_frame = match network_state.rollback_to {
        Some(f) => f,
        None => {
            return;
        },
    };
    network_state.rollback_to = None;

    // Load snapshot at rollback point
    let idx = slot_of(rollback_frame);
    let snapshot = match snapshot_buffer.states[idx] {
        Some(s) => s,
        None => {
            return;
        },
    };

    // Update predictions for all unconfirmed frames in the rollback range
    // (and the current frame) with the latest confirmed opponent input, so
    // that re-simulation is more accurate and rollbacks do not cascade.
    let opponent = local_player.side.opponent();
    let ghost inputs0 = input_buffer@;
    let ghost confirmed = network_state.confirmed_for@;
    if let Some(confirmed_input) = network_state.last_confirmed_opponent_input {
        if rollback_frame <= frame {
            let mut f: u64 = rollback_frame;
            loop
                invariant_except_break
                    rollback_frame <= f <= frame,
                    opponent == local_player.side.opponent(),
                    network_state.confirmed_for@ == confirmed,
                    input_buffer@ == repredict(
                        inputs0,
                        confirmed,
                        rollback_frame,
                        (f - rollback_frame) as nat,
                        confirmed_input,
                        local_player.side,
                    ),
                ensures
                    input_buffer@ == repredict(
                        inputs0,
                        confirmed,
                        rollback_frame,
                        (frame - rollback_frame + 1) as nat,
                        confirmed_input,
                        local_player.side,
                    ),
                decreases frame - f,
            {
                let idx = slot_of(f);
                if network_state.confirmed_for[idx] != f {
                    input_buffer.set_input(idx, opponent, confirmed_input);
                }
                if f == frame {
                    break;
                }
                f = f + 1;
            }
        }
    }

    // Re-simulate from rollback point to current frame
    let ghost inputs1 = input_buffer@;
    let ghost snapshots0 = snapshot_buffer@;
    let ghost mut trace: Seq<S> = seq![snapshot];
    let mut resim = snapshot;
    let mut f: u64 = rollback_frame;
    while f < frame
        invariant
            rollback_frame <= f,
            f <= frame || f == rollback_frame,
            step_total(step),
            input_buffer@ == inputs1,
            inputs1.len() == BUFFER_SIZE,
            trace.len() == f - rollback_frame + 1,
            trace[0] == snapshot,
            steps_through(step, inputs1, rollback_frame, trace),
            resim == trace[f - rollback_frame],
            snapshot_buffer@ == record_trace(
                snapshots0,
                rollback_frame,
                trace,
                (f - rollback_frame) as nat,
            ),
        decreases frame - f,
    {
        let idx = slot_of(f);
        let inputs = input_buffer.inputs[idx];
        snapshot_buffer.states[idx] = Some(resim);  // Overwrite snapshots
        let next = step(&resim, inputs.left, inputs.right);
        proof {
            let n = (f - rollback_frame) as nat;
            let t2 = trace.push(next);
            lemma_record_trace_prefix(snapshots0, rollback_frame, trace, t2, n);
            assert(snapshot_buffer@ == record_trace(snapshots0, rollback_frame, t2, n + 1));
            assert forall|k: int| #![trigger t2[k]] 0 <= k < t2.len() - 1 implies call_ensures(
                step,
                (&t2[k], inputs1[slot((rollback_frame + k) as u64)].left, inputs1[slot((rollback_frame + k) as u64)].right),
                t2[k + 1],
            ) by {
                if k < trace.len() - 1 {
                    assert(trace[k] == t2[k]);
                }
            }
            trace = t2;
        }
        resim = next;
        f = f + 1;
    }
    proof {
        let n: nat = if rollback_frame <= frame { (frame - rollback_frame) as nat } else { 0 };
        assert(f == rollback_frame + n);
    }
    *state = resim;
}

} // verus!
