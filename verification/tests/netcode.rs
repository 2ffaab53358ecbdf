use netpong::config::{BUFFER_SIZE, FRAMES_TO_SEND, MAX_ROLLBACK_FRAMES, MESSAGE_SIZE};
use netpong::network::{
    advance_agreed_frame, assign_sides, check_stall, check_win, drift_would_overflow,
    receive_packet, rollback, send_input, LocalPlayer, NetworkState, Side,
};
use netpong::packet::{decode_message, encode_message, InputMessage};
use netpong::simulation::{
    encode_input, is_down, is_up, local_input, take_input_and_predict, tick_simulation,
    FrameInputs, InputBuffer, PressedKeys, SnapshotBuffer,
};

const LEFT: LocalPlayer = LocalPlayer { side: Side::Left };
const RIGHT: LocalPlayer = LocalPlayer { side: Side::Right };

fn no_keys() -> PressedKeys {
    PressedKeys { w: false, s: false, arrow_up: false, arrow_down: false }
}

/// A packet holding `drift` and the given entries.
fn packet(drift: i16, entries: &[(u64, u8)]) -> Vec<u8> {
    encode_message(&InputMessage { drift, entries: entries.to_vec() })
}

/// A test game state: a frame counter and a running sum of the inputs.
#[derive(Clone, Copy, Debug, PartialEq)]
struct Counter {
    frame: u64,
    sum: u64,
}

fn counter_step(s: &Counter, left: u8, right: u8) -> Counter {
    Counter { frame: s.frame + 1, sum: s.sum * 10 + left as u64 + 2 * right as u64 }
}

// ——— Input encoding ———

#[test]
fn encode_input_sets_bits() {
    assert_eq!(encode_input(false, false), 0);
    assert_eq!(encode_input(true, false), 1);
    assert_eq!(encode_input(false, true), 2);
    assert_eq!(encode_input(true, true), 3);
}

#[test]
fn input_round_trip() {
    for up in [false, true] {
        for down in [false, true] {
            let input = encode_input(up, down);
            assert_eq!(is_up(input), up);
            assert_eq!(is_down(input), down);
        }
    }
}

#[test]
fn is_up_and_is_down_read_only_their_bit() {
    assert!(is_up(0b101));
    assert!(!is_down(0b101));
    assert!(!is_up(0b110));
    assert!(is_down(0b110));
}

#[test]
fn local_input_combines_both_key_pairs() {
    let keys = PressedKeys { w: true, s: false, arrow_up: false, arrow_down: true };
    assert_eq!(local_input(keys), 3);
    let keys = PressedKeys { w: false, s: false, arrow_up: true, arrow_down: false };
    assert_eq!(local_input(keys), 1);
    assert_eq!(local_input(no_keys()), 0);
}

// ——— Buffers ———

#[test]
fn new_buffers_are_empty() {
    let inputs = InputBuffer::new();
    assert!(inputs.inputs.iter().all(|f| *f == FrameInputs { left: 0, right: 0 }));
    let snapshots: SnapshotBuffer<Counter> = SnapshotBuffer::new();
    assert!(snapshots.states.iter().all(|s| s.is_none()));
    assert_eq!(FrameInputs::default(), FrameInputs { left: 0, right: 0 });
}

#[test]
fn new_network_state_confirms_nothing() {
    let net = NetworkState::new();
    assert!(net.confirmed_for.iter().all(|f| *f == u64::MAX));
    assert_eq!(net.rollback_to, None);
    assert_eq!(net.agreed_frame, None);
    assert_eq!(net.last_confirmed_opponent_input, None);
    assert!(!net.stalled);
    assert_eq!((net.local_drift, net.remote_drift), (0, 0));
}

// ——— Prediction ———

#[test]
fn take_input_records_local_and_predicts_zero_without_confirmation() {
    let mut inputs = InputBuffer::new();
    inputs.inputs[5].right = 3;
    let net = NetworkState::new();
    let keys = PressedKeys { w: true, s: false, arrow_up: false, arrow_down: false };
    take_input_and_predict(&mut inputs, 69, keys, LEFT, &net);
    assert_eq!(inputs.inputs[5], FrameInputs { left: 1, right: 0 });
}

#[test]
fn take_input_predicts_last_confirmed_input() {
    let mut inputs = InputBuffer::new();
    let mut net = NetworkState::new();
    net.last_confirmed_opponent_input = Some(2);
    let keys = PressedKeys { w: false, s: false, arrow_up: false, arrow_down: true };
    take_input_and_predict(&mut inputs, 10, keys, RIGHT, &net);
    assert_eq!(inputs.inputs[10], FrameInputs { left: 2, right: 2 });
}

#[test]
fn take_input_keeps_confirmed_opponent_input() {
    let mut inputs = InputBuffer::new();
    let mut net = NetworkState::new();
    net.confirmed_for[7] = 7;
    inputs.inputs[7].right = 1;
    net.last_confirmed_opponent_input = Some(2);
    take_input_and_predict(&mut inputs, 7, no_keys(), LEFT, &net);
    assert_eq!(inputs.inputs[7], FrameInputs { left: 0, right: 1 });
}

#[test]
fn take_input_does_nothing_while_stalled() {
    let mut inputs = InputBuffer::new();
    let mut net = NetworkState::new();
    net.stalled = true;
    net.last_confirmed_opponent_input = Some(2);
    let keys = PressedKeys { w: true, s: true, arrow_up: true, arrow_down: true };
    take_input_and_predict(&mut inputs, 3, keys, LEFT, &net);
    assert!(inputs.inputs.iter().all(|f| *f == FrameInputs { left: 0, right: 0 }));
}

// ——— Simulation tick ———

#[test]
fn tick_snapshots_then_steps() {
    let mut state = Counter { frame: 65, sum: 4 };
    let mut snapshots = SnapshotBuffer::new();
    let mut inputs = InputBuffer::new();
    inputs.inputs[1] = FrameInputs { left: 1, right: 2 };
    tick_simulation(&mut state, 65, &mut snapshots, &inputs, counter_step);
    assert_eq!(snapshots.states[1], Some(Counter { frame: 65, sum: 4 }));
    assert_eq!(state, Counter { frame: 66, sum: 45 });
    assert_eq!(snapshots.states.iter().filter(|s| s.is_some()).count(), 1);
}

// ——— Wire format ———

#[test]
fn message_layout_is_little_endian() {
    let mut entries = vec![(0x0102030405060708u64, 3u8)];
    entries.extend((1..FRAMES_TO_SEND as u64).map(|i| (i, 0u8)));
    let bytes = encode_message(&InputMessage { drift: -2, entries });
    assert_eq!(bytes.len(), MESSAGE_SIZE);
    assert_eq!(&bytes[0..2], &[0xFE, 0xFF]);
    assert_eq!(&bytes[2..11], &[8, 7, 6, 5, 4, 3, 2, 1, 3]);
    assert_eq!(&bytes[11..20], &[1, 0, 0, 0, 0, 0, 0, 0, 0]);
}

#[test]
fn message_round_trip() {
    let entries: Vec<(u64, u8)> = (0..FRAMES_TO_SEND as u64).map(|i| (u64::MAX - i * 1000, (i * 37) as u8)).collect();
    let message = InputMessage { drift: i16::MIN, entries };
    let decoded = decode_message(&encode_message(&message));
    assert_eq!(decoded, Some(message));
}

#[test]
fn decode_rejects_wrong_length() {
    assert_eq!(decode_message(&[0u8; MESSAGE_SIZE - 1]), None);
    assert_eq!(decode_message(&[0u8; MESSAGE_SIZE + 1]), None);
    assert_eq!(decode_message(&[]), None);
    assert!(decode_message(&[0u8; MESSAGE_SIZE]).is_some());
}

#[test]
fn send_input_packs_last_frames_newest_first() {
    let mut inputs = InputBuffer::new();
    for i in 0..BUFFER_SIZE {
        inputs.inputs[i] = FrameInputs { left: i as u8, right: 100 + i as u8 };
    }
    let mut net = NetworkState::new();
    net.local_drift = 5;
    let bytes = send_input(3, &inputs, RIGHT, &net);
    let message = decode_message(&bytes).unwrap();
    assert_eq!(message.drift, 5);
    assert_eq!(
        message.entries,
        vec![(3, 103), (2, 102), (1, 101), (0, 100), (0, 100), (0, 100), (0, 100), (0, 100)]
    );
    let bytes = send_input(70, &inputs, LEFT, &net);
    let message = decode_message(&bytes).unwrap();
    assert_eq!(message.entries[0], (70, 6));
    assert_eq!(message.entries[7], (63, 63));
}

// ——— Receiving ———

#[test]
fn receive_rejects_wrong_length() {
    let mut inputs = InputBuffer::new();
    let mut net = NetworkState::new();
    assert!(!receive_packet(10, &mut inputs, LEFT, &mut net, &[1, 2, 3]));
    assert_eq!(net.remote_drift, 0);
    assert!(net.confirmed_for.iter().all(|f| *f == u64::MAX));
}

#[test]
fn receive_confirms_inputs_and_reads_drift() {
    let mut inputs = InputBuffer::new();
    let mut net = NetworkState::new();
    let p = packet(-3, &[(12, 1), (11, 2), (10, 0), (9, 0), (8, 0), (7, 0), (6, 0), (5, 1)]);
    assert!(receive_packet(20, &mut inputs, LEFT, &mut net, &p));
    assert_eq!(net.remote_drift, -3);
    assert_eq!(net.local_drift, 8);
    assert_eq!(net.confirmed_for[12], 12);
    assert_eq!(net.confirmed_for[5], 5);
    assert_eq!(net.confirmed_for[4], u64::MAX);
    assert_eq!(inputs.inputs[12], FrameInputs { left: 0, right: 1 });
    assert_eq!(inputs.inputs[11], FrameInputs { left: 0, right: 2 });
    // Frames 11 and 5 were simulated with the predicted input 0 and differ:
    // the earliest of them is the rollback target.
    assert_eq!(net.rollback_to, Some(5));
}

#[test]
fn receive_requests_no_rollback_for_future_or_matching_frames() {
    let mut inputs = InputBuffer::new();
    let mut net = NetworkState::new();
    let p = packet(0, &[(30, 1), (29, 0), (28, 0), (27, 0), (26, 0), (25, 0), (24, 0), (23, 0)]);
    assert!(receive_packet(30, &mut inputs, RIGHT, &mut net, &p));
    assert_eq!(net.rollback_to, None);
    assert_eq!(inputs.inputs[30], FrameInputs { left: 1, right: 0 });
    assert_eq!(net.local_drift, 0);
}

#[test]
fn receive_keeps_earlier_rollback_target() {
    let mut inputs = InputBuffer::new();
    let mut net = NetworkState::new();
    net.rollback_to = Some(2);
    let p = packet(0, &[(9, 1), (8, 1), (7, 1), (6, 1), (5, 1), (4, 1), (3, 1), (2, 0)]);
    receive_packet(10, &mut inputs, LEFT, &mut net, &p);
    assert_eq!(net.rollback_to, Some(2));
}

#[test]
fn receive_skips_confirmed_and_ancient_frames() {
    let mut inputs = InputBuffer::new();
    let mut net = NetworkState::new();
    net.agreed_frame = Some(5);
    net.confirmed_for[9] = 9;
    inputs.inputs[9].right = 2;
    let p = packet(0, &[(9, 1), (8, 1), (7, 1), (6, 1), (5, 1), (4, 1), (3, 1), (2, 1)]);
    receive_packet(10, &mut inputs, LEFT, &mut net, &p);
    // Frame 9 was already confirmed: untouched.
    assert_eq!(inputs.inputs[9].right, 2);
    // Frames 6 to 8 are new: confirmed, and they trigger a rollback to 6.
    assert_eq!(net.confirmed_for[6], 6);
    assert_eq!(inputs.inputs[6].right, 1);
    assert_eq!(net.rollback_to, Some(6));
    // Frames 2 to 5 are at or before the agreed frame: skipped.
    assert_eq!(net.confirmed_for[5], u64::MAX);
    assert_eq!(inputs.inputs[5].right, 0);
}

#[test]
fn local_drift_is_clamped() {
    let mut inputs = InputBuffer::new();
    let mut net = NetworkState::new();
    let p = packet(0, &[(1, 0), (0, 0), (0, 0), (0, 0), (0, 0), (0, 0), (0, 0), (0, 0)]);
    receive_packet(100_000, &mut inputs, LEFT, &mut net, &p);
    assert_eq!(net.local_drift, i16::MAX);
    let p = packet(0, &[(100_000, 0), (0, 0), (0, 0), (0, 0), (0, 0), (0, 0), (0, 0), (0, 0)]);
    receive_packet(1, &mut inputs, LEFT, &mut net, &p);
    assert_eq!(net.local_drift, i16::MIN);
}

#[test]
fn drift_overflow_is_detected() {
    let p = packet(0, &[(1u64 << 63, 0), (0, 0), (0, 0), (0, 0), (0, 0), (0, 0), (0, 0), (0, 0)]);
    assert!(drift_would_overflow(0, &p));
    assert!(!drift_would_overflow(0, &packet(0, &[(5, 0); 8])));
    assert!(!drift_would_overflow(0, &[0u8; 3]));
}

// ——— Agreement ———

#[test]
fn agreement_advances_over_confirmed_run() {
    let mut inputs = InputBuffer::new();
    let mut net = NetworkState::new();
    for f in 0..5u64 {
        net.confirmed_for[f as usize] = f;
        inputs.inputs[f as usize].left = f as u8;
    }
    net.confirmed_for[6] = 6;
    advance_agreed_frame(&inputs, RIGHT, &mut net);
    assert_eq!(net.agreed_frame, Some(4));
    assert_eq!(net.last_confirmed_opponent_input, Some(4));
    // Frame 5 is missing: nothing more is agreed.
    advance_agreed_frame(&inputs, RIGHT, &mut net);
    assert_eq!(net.agreed_frame, Some(4));
}

#[test]
fn agreement_without_first_frame_stays_none() {
    let inputs = InputBuffer::new();
    let mut net = NetworkState::new();
    net.confirmed_for[1] = 1;
    advance_agreed_frame(&inputs, LEFT, &mut net);
    assert_eq!(net.agreed_frame, None);
    assert_eq!(net.last_confirmed_opponent_input, None);
}

#[test]
fn agreement_covers_whole_buffer_at_most() {
    let inputs = InputBuffer::new();
    let mut net = NetworkState::new();
    net.agreed_frame = Some(63);
    for f in 64..128u64 {
        net.confirmed_for[(f % 64) as usize] = f;
    }
    advance_agreed_frame(&inputs, LEFT, &mut net);
    assert_eq!(net.agreed_frame, Some(127));
}

#[test]
fn agreement_overflow_is_detected() {
    let mut net = NetworkState::new();
    assert!(!net.agreement_would_overflow());
    net.agreed_frame = Some(u64::MAX);
    assert!(net.agreement_would_overflow());
    // The initial slots hold u64::MAX, which is confirmed in its slot.
    net.agreed_frame = Some(u64::MAX - 1);
    assert!(net.agreement_would_overflow());
    net.agreed_frame = Some(u64::MAX - 2);
    assert!(!net.agreement_would_overflow());
    net.confirmed_for[((u64::MAX - 1) % 64) as usize] = u64::MAX - 1;
    assert!(net.agreement_would_overflow());
}

// ——— Stalling, winning, sides ———

#[test]
fn stall_without_agreement() {
    let mut net = NetworkState::new();
    check_stall(0, &mut net);
    assert!(net.stalled);
}

#[test]
fn stall_when_agreement_lags() {
    let mut net = NetworkState::new();
    net.agreed_frame = Some(10);
    check_stall(17, &mut net);
    assert!(!net.stalled);
    check_stall(18, &mut net);
    assert!(net.stalled);
    check_stall(5, &mut net);
    assert!(!net.stalled);
}

#[test]
fn no_win_condition() {
    assert_eq!(check_win(0, 0, LEFT), None);
    assert_eq!(check_win(11, 0, LEFT), None);
    assert_eq!(check_win(3, 100, RIGHT), None);
    assert_eq!(check_win(u32::MAX, u32::MAX, RIGHT), None);
}

#[test]
fn sides_are_opposite() {
    assert_eq!(assign_sides(1, 2).side, Side::Left);
    assert_eq!(assign_sides(2, 1).side, Side::Right);
    assert_eq!(assign_sides(7, 7).side, Side::Left);
    assert_eq!(Side::Left.opponent(), Side::Right);
}

// ——— Rollback ———

#[test]
fn rollback_abandoned_on_large_gap() {
    let mut state = Counter { frame: 100, sum: 0 };
    let mut snapshots = SnapshotBuffer::new();
    snapshots.states[40] = Some(Counter { frame: 40, sum: 0 });
    let mut inputs = InputBuffer::new();
    let mut net = NetworkState::new();
    net.agreed_frame = Some(36);
    net.rollback_to = Some(40);
    rollback(&mut state, 100, &mut snapshots, &mut inputs, LEFT, &mut net, counter_step);
    assert_eq!(net.rollback_to, None);
    assert_eq!(state, Counter { frame: 100, sum: 0 });
}

#[test]
fn rollback_without_request_or_snapshot_keeps_state() {
    let mut state = Counter { frame: 10, sum: 3 };
    let mut snapshots = SnapshotBuffer::new();
    let mut inputs = InputBuffer::new();
    let mut net = NetworkState::new();
    rollback(&mut state, 10, &mut snapshots, &mut inputs, LEFT, &mut net, counter_step);
    assert_eq!(state, Counter { frame: 10, sum: 3 });
    net.rollback_to = Some(8);
    rollback(&mut state, 10, &mut snapshots, &mut inputs, LEFT, &mut net, counter_step);
    assert_eq!(state, Counter { frame: 10, sum: 3 });
    assert_eq!(net.rollback_to, None);
}

#[test]
fn rollback_resimulates_with_corrected_inputs() {
    let mut snapshots = SnapshotBuffer::new();
    let mut inputs = InputBuffer::new();
    let mut net = NetworkState::new();
    let mut state = Counter { frame: 0, sum: 0 };
    // Simulate frames 0 to 3 with predicted (zero) opponent input.
    for f in 0..4u64 {
        inputs.inputs[f as usize].left = 1;
        tick_simulation(&mut state, f, &mut snapshots, &inputs, counter_step);
    }
    assert_eq!(state, Counter { frame: 4, sum: 1111 });
    // The opponent's real input of frame 1 was 1, that of frame 2 was 1 too.
    net.agreed_frame = Some(0);
    net.confirmed_for[0] = 0;
    net.confirmed_for[1] = 1;
    inputs.inputs[1].right = 1;
    net.last_confirmed_opponent_input = Some(1);
    net.rollback_to = Some(1);
    rollback(&mut state, 4, &mut snapshots, &mut inputs, LEFT, &mut net, counter_step);
    assert_eq!(net.rollback_to, None);
    // Unconfirmed frames 2 to 4 are predicted with the last confirmed input.
    assert_eq!(inputs.inputs[2].right, 1);
    assert_eq!(inputs.inputs[4].right, 1);
    assert_eq!(state, Counter { frame: 4, sum: 1333 });
    assert_eq!(snapshots.states[1], Some(Counter { frame: 1, sum: 1 }));
    assert_eq!(snapshots.states[2], Some(Counter { frame: 2, sum: 13 }));
    assert_eq!(snapshots.states[3], Some(Counter { frame: 3, sum: 133 }));
}

// ——— Two peers ———

#[test]
fn peer_receives_sent_inputs() {
    // Peer A plays left and is at frame 20.
    let mut inputs_a = InputBuffer::new();
    for f in 13..=20u64 {
        inputs_a.inputs[f as usize].left = (f % 4) as u8;
    }
    let net_a = NetworkState::new();
    let bytes = send_input(20, &inputs_a, LEFT, &net_a);
    // Peer B plays right and is at frame 18.
    let mut inputs_b = InputBuffer::new();
    let mut net_b = NetworkState::new();
    assert!(!drift_would_overflow(18, &bytes));
    assert!(receive_packet(18, &mut inputs_b, RIGHT, &mut net_b, &bytes));
    for f in 13..=20u64 {
        assert_eq!(net_b.confirmed_for[f as usize], f);
        assert_eq!(inputs_b.inputs[f as usize].left, inputs_a.inputs[f as usize].left);
    }
    assert_eq!(net_b.local_drift, -2);
}

#[test]
fn peer_receives_sent_inputs_at_start() {
    // Peer A plays left and is at frame 3: its message repeats frame 0.
    let mut inputs_a = InputBuffer::new();
    for f in 0..=3u64 {
        inputs_a.inputs[f as usize].left = (f + 1) as u8;
    }
    let mut net_a = NetworkState::new();
    net_a.local_drift = 4;
    let bytes = send_input(3, &inputs_a, LEFT, &net_a);
    // Peer B plays right and is at frame 5.
    let mut inputs_b = InputBuffer::new();
    let mut net_b = NetworkState::new();
    assert!(receive_packet(5, &mut inputs_b, RIGHT, &mut net_b, &bytes));
    for f in 0..=3u64 {
        assert_eq!(net_b.confirmed_for[f as usize], f);
        assert_eq!(inputs_b.inputs[f as usize].left, (f + 1) as u8);
    }
    assert_eq!(net_b.confirmed_for[4], u64::MAX);
    assert_eq!(net_b.remote_drift, 4);
    assert_eq!(net_b.local_drift, 2);
}

#[test]
fn running_keeps_rollback_in_window() {
    let mut inputs = InputBuffer::new();
    let mut net = NetworkState::new();
    net.agreed_frame = Some(10);
    check_stall(15, &mut net);
    assert!(!net.stalled);
    let p = packet(0, &[(15, 0), (14, 0), (13, 0), (12, 1), (11, 1), (10, 1), (9, 1), (8, 1)]);
    receive_packet(15, &mut inputs, LEFT, &mut net, &p);
    // Frames 10 and before are agreed and skipped; 11 is the earliest mismatch.
    assert_eq!(net.rollback_to, Some(11));
    assert!(15 - 11 < MAX_ROLLBACK_FRAMES);
}
