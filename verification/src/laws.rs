//! Properties of the netcode that relate several steps or hold of every state.
use vstd::prelude::*;

use crate::config::{lemma_slots_distinct, slot, BUFFER_SIZE, FRAMES_TO_SEND, MAX_ROLLBACK_FRAMES};
use crate::network::{
    advanced_agreement, agreement_overflows, clamp_drift, is_confirmed, frame_difference, read_header, receive_entries, receive_entry, refreshed_predictions,
    record_trace, repredict, resimulated, rollback_abandoned, saturating_back, sent_entries,
    should_stall, steps_through, NetworkState, NetworkView, Side,
};
use crate::packet::{lemma_message_round_trip, message_bytes, parse_message};
use crate::simulation::{
    keys_input, lemma_input_round_trip, predicted_inputs, prediction, spec_is_down, spec_is_up,
    FrameInputs, PressedKeys,
};

verus! {

/// Whether frame `f` is at or before the agreed frame.
pub open spec fn is_ancient(agreed_frame: Option<u64>, f: u64) -> bool {
    agreed_frame matches Some(a) && f <= a
}

proof fn lemma_receive_entry_frame(
    net: NetworkView,
    inputs: Seq<FrameInputs>,
    side: Side,
    frame: u64,
    entry: (u64, u8),
    k: int,
)
    requires
        net.confirmed_for.len() == BUFFER_SIZE,
        inputs.len() == BUFFER_SIZE,
        0 <= k < BUFFER_SIZE,
        slot(entry.0) != k,
    ensures
        ({
            let after = receive_entry(net, inputs, side, frame, entry);
            &&& after.0.confirmed_for.len() == BUFFER_SIZE
            &&& after.1.len() == BUFFER_SIZE
            &&& after.0.confirmed_for[k] == net.confirmed_for[k]
            &&& after.1[k] == inputs[k]
            &&& after.0.agreed_frame == net.agreed_frame
            &&& after.0.local_drift == net.local_drift
            &&& after.0.remote_drift == net.remote_drift
        }),
{
}

/// Receiving entries keeps the sizes of the buffers, the agreed frame and the
/// drifts, and leaves alone every slot that none of the entries' frames maps
/// to.
pub proof fn lemma_receive_untouched(
    net: NetworkView,
    inputs: Seq<FrameInputs>,
    side: Side,
    frame: u64,
    entries: Seq<(u64, u8)>,
    k: int,
)
    requires
        net.confirmed_for.len() == BUFFER_SIZE,
        inputs.len() == BUFFER_SIZE,
        0 <= k < BUFFER_SIZE,
    ensures
        ({
            let after = receive_entries(net, inputs, side, frame, entries);
            &&& after.0.confirmed_for.len() == BUFFER_SIZE
            &&& after.1.len() == BUFFER_SIZE
            &&& after.0.agreed_frame == net.agreed_frame
            &&& after.0.local_drift == net.local_drift
            &&& after.0.remote_drift == net.remote_drift
            &&& (forall|j: int| 0 <= j < entries.len() ==> slot(#[trigger] entries[j].0) != k)
                ==> after.0.confirmed_for[k] == net.confirmed_for[k] && after.1[k] == inputs[k]
        }),
    decreases entries.len(),
{
    if entries.len() > 0 {
        let prefix = entries.drop_last();
        lemma_receive_untouched(net, inputs, side, frame, prefix, k);
        let before = receive_entries(net, inputs, side, frame, prefix);
        let e = entries.last();
        if slot(e.0) != k {
            lemma_receive_entry_frame(before.0, before.1, side, frame, e, k);
        }
        if forall|j: int| 0 <= j < entries.len() ==> slot(#[trigger] entries[j].0) != k {
            assert forall|j: int| 0 <= j < prefix.len() implies slot(#[trigger] prefix[j].0) != k by {
                assert(prefix[j] == entries[j]);
            }
            assert(slot(entries[entries.len() - 1].0) != k);
        }
    }
}

/// Delivery: after the entries of a message are received, the frame of every
/// entry that is after the agreed frame, and whose slot later entries of the
/// message use only for that same frame, is confirmed in its slot. If that
/// frame was not confirmed before and no earlier entry of the message uses its
/// slot, the opponent's input stored for it is the input that the entry
/// carries.
pub proof fn lemma_received_input_delivered(
    net: NetworkView,
    inputs: Seq<FrameInputs>,
    side: Side,
    frame: u64,
    entries: Seq<(u64, u8)>,
    i: int,
)
    requires
        net.confirmed_for.len() == BUFFER_SIZE,
        inputs.len() == BUFFER_SIZE,
        0 <= i < entries.len(),
        !is_ancient(net.agreed_frame, entries[i].0),
        forall|j: int|
            i < j < entries.len() ==> slot(#[trigger] entries[j].0) != slot(entries[i].0)
                || entries[j].0 == entries[i].0,
    ensures
        ({
            let after = receive_entries(net, inputs, side, frame, entries);
            &&& after.0.confirmed_for[slot(entries[i].0)] == entries[i].0
            &&& (net.confirmed_for[slot(entries[i].0)] != entries[i].0 && forall|j: int|
                0 <= j < i ==> slot(#[trigger] entries[j].0) != slot(entries[i].0))
                ==> after.1[slot(entries[i].0)].input_of(side.opponent()) == entries[i].1
        }),
    decreases entries.len(),
{
    let prefix = entries.drop_last();
    let k = slot(entries[i].0);
    let before = receive_entries(net, inputs, side, frame, prefix);
    lemma_receive_untouched(net, inputs, side, frame, prefix, k);
    if i == entries.len() - 1 {
        if forall|j: int| 0 <= j < i ==> slot(#[trigger] entries[j].0) != k {
            assert forall|j: int| 0 <= j < prefix.len() implies slot(#[trigger] prefix[j].0) != k by {
                assert(prefix[j] == entries[j]);
            }
        }
    } else {
        assert forall|j: int| i < j < prefix.len() implies slot(#[trigger] prefix[j].0) != slot(
            prefix[i].0,
        ) || prefix[j].0 == prefix[i].0 by {
            assert(prefix[j] == entries[j]);
        }
        lemma_received_input_delivered(net, inputs, side, frame, prefix, i);
        if forall|j: int| 0 <= j < i ==> slot(#[trigger] entries[j].0) != k {
            assert forall|j: int| 0 <= j < i implies slot(#[trigger] prefix[j].0) != k by {
                assert(prefix[j] == entries[j]);
            }
        }
        let last = entries.last();
        assert(last == entries[entries.len() - 1]);
        if slot(last.0) != k {
            lemma_receive_entry_frame(before.0, before.1, side, frame, last, k);
        } else {
            // A later entry for the same frame finds it confirmed and is skipped.
            assert(last.0 == entries[i].0);
        }
    }
}

/// Rollback requests only move earlier: a pending rollback frame is never
/// replaced by a later one or dropped, and a newly requested rollback frame
/// is one that was already simulated (before `frame`) and is after the
/// agreed frame.
pub proof fn lemma_rollback_target_earliest(
    net: NetworkView,
    inputs: Seq<FrameInputs>,
    side: Side,
    frame: u64,
    entries: Seq<(u64, u8)>,
)
    ensures
        ({
            let after = receive_entries(net, inputs, side, frame, entries).0;
            &&& net.rollback_to matches Some(r) ==> (after.rollback_to matches Some(r2) && r2 <= r)
            &&& after.rollback_to != net.rollback_to ==> (after.rollback_to matches Some(r2) && r2
                < frame && !is_ancient(net.agreed_frame, r2))
        }),
    decreases entries.len(),
{
    if entries.len() > 0 {
        let prefix = entries.drop_last();
        lemma_rollback_target_earliest(net, inputs, side, frame, prefix);
        lemma_receive_agreed_unchanged(net, inputs, side, frame, prefix);
    }
}

proof fn lemma_receive_agreed_unchanged(
    net: NetworkView,
    inputs: Seq<FrameInputs>,
    side: Side,
    frame: u64,
    entries: Seq<(u64, u8)>,
)
    ensures
        receive_entries(net, inputs, side, frame, entries).0.agreed_frame == net.agreed_frame,
    decreases entries.len(),
{
    if entries.len() > 0 {
        lemma_receive_agreed_unchanged(net, inputs, side, frame, entries.drop_last());
    }
}

/// Stalling keeps rollbacks inside the buffer: while the simulation at
/// `frame` does not stall, a frame is agreed less than `MAX_ROLLBACK_FRAMES`
/// frames back, so a rollback is not abandoned, and any rollback that the
/// received entries request is to a frame less than `MAX_ROLLBACK_FRAMES`
/// (and so less than `BUFFER_SIZE`) frames back.
pub proof fn lemma_rollback_within_window(
    net: NetworkView,
    inputs: Seq<FrameInputs>,
    side: Side,
    frame: u64,
    entries: Seq<(u64, u8)>,
)
    requires
        !should_stall(frame, net.agreed_frame),
    ensures
        net.agreed_frame matches Some(a) && saturating_back(frame, a as int) < MAX_ROLLBACK_FRAMES,
        !rollback_abandoned(frame, net.agreed_frame),
        ({
            let after = receive_entries(net, inputs, side, frame, entries).0;
            after.rollback_to != net.rollback_to ==> (after.rollback_to matches Some(r) && r < frame
                && frame - r < MAX_ROLLBACK_FRAMES)
        }),
{
    lemma_rollback_target_earliest(net, inputs, side, frame, entries);
}

/// The agreed frame never moves back.
pub proof fn lemma_agreement_monotone(
    before: NetworkView,
    inputs: Seq<FrameInputs>,
    side: Side,
    after: NetworkView,
)
    requires
        advanced_agreement(before, inputs, side, after),
    ensures
        before.agreed_frame matches Some(b) ==> (after.agreed_frame matches Some(a) && b <= a),
        after.confirmed_for == before.confirmed_for,
        after.rollback_to == before.rollback_to,
{
}

/// Taking input changes only the slot of `frame`: there the local player's
/// input becomes that of the pressed keys, and the opponent's input becomes
/// the prediction unless it is confirmed, in which case it is kept. Nothing
/// is recorded or predicted while the simulation stalls.
pub proof fn lemma_prediction_keeps_confirmed(
    inputs: Seq<FrameInputs>,
    frame: u64,
    keys: PressedKeys,
    side: Side,
    network_state: NetworkState,
)
    requires
        inputs.len() == BUFFER_SIZE,
    ensures
        network_state.stalled ==> predicted_inputs(inputs, frame, keys, side, network_state)
            == inputs,
        ({
            let after = predicted_inputs(inputs, frame, keys, side, network_state);
            let idx = slot(frame);
            let opponent_before = match side {
                Side::Left => inputs[idx].right,
                Side::Right => inputs[idx].left,
            };
            let opponent_after = match side {
                Side::Left => after[idx].right,
                Side::Right => after[idx].left,
            };
            let own_after = match side {
                Side::Left => after[idx].left,
                Side::Right => after[idx].right,
            };
            !network_state.stalled ==> {
                &&& after.len() == BUFFER_SIZE
                &&& own_after == keys_input(keys)
                &&& network_state.confirmed_for@[idx] == frame ==> opponent_after
                    == opponent_before
                &&& network_state.confirmed_for@[idx] != frame ==> opponent_after == match network_state.last_confirmed_opponent_input {
                    Some(input) => input,
                    None => 0,
                }
                &&& forall|k: int| 0 <= k < BUFFER_SIZE && k != idx ==> after[k] == inputs[k]
            }
        }),
{
}

proof fn lemma_repredict(
    inputs: Seq<FrameInputs>,
    confirmed_for: Seq<u64>,
    from: u64,
    n: nat,
    input: u8,
    side: Side,
    f: int,
)
    requires
        inputs.len() == BUFFER_SIZE,
        confirmed_for.len() == BUFFER_SIZE,
        from + n <= u64::MAX + 1,
        from <= f < from + n,
        confirmed_for[slot(f as u64)] != f,
    ensures
        repredict(inputs, confirmed_for, from, n, input, side).len() == BUFFER_SIZE,
        repredict(inputs, confirmed_for, from, n, input, side)[slot(f as u64)].input_of(
            side.opponent(),
        ) == input,
    decreases n,
{
    lemma_repredict_len(inputs, confirmed_for, from, n, input, side);
    if f < from + n - 1 {
        lemma_repredict(inputs, confirmed_for, from, (n - 1) as nat, input, side, f);
    } else {
        lemma_repredict_len(inputs, confirmed_for, from, (n - 1) as nat, input, side);
    }
}

proof fn lemma_repredict_len(
    inputs: Seq<FrameInputs>,
    confirmed_for: Seq<u64>,
    from: u64,
    n: nat,
    input: u8,
    side: Side,
)
    requires
        inputs.len() == BUFFER_SIZE,
    ensures
        repredict(inputs, confirmed_for, from, n, input, side).len() == BUFFER_SIZE,
    decreases n,
{
    if n > 0 {
        lemma_repredict_len(inputs, confirmed_for, from, (n - 1) as nat, input, side);
    }
}

/// After a rollback from `from` at frame `to` with a confirmed opponent input,
/// every frame in between whose opponent input is not confirmed is predicted
/// with that input: rollbacks do not cascade on stale predictions.
pub proof fn lemma_rollback_refreshes_predictions(
    inputs: Seq<FrameInputs>,
    confirmed_for: Seq<u64>,
    from: u64,
    to: u64,
    input: u8,
    side: Side,
    f: u64,
)
    requires
        inputs.len() == BUFFER_SIZE,
        confirmed_for.len() == BUFFER_SIZE,
        from <= f <= to,
        confirmed_for[slot(f)] != f,
    ensures
        refreshed_predictions(inputs, confirmed_for, from, to, Some(input), side)[slot(f)].input_of(
            side.opponent(),
        ) == input,
{
    lemma_repredict(inputs, confirmed_for, from, (to - from + 1) as nat, input, side, f as int);
}


/// What one peer sends is what the other receives. When a peer on side
/// `side_a` at frame `frame_a` sends its message (with drift `drift`), the
/// other peer, playing the other side at frame `frame_b`, takes the sender's
/// drift as its remote drift and the clamped difference of the two frames as
/// its local drift (the plain difference `frame_b - frame_a` when both frames
/// are below 2^63). Each frame of the message (the last `FRAMES_TO_SEND`
/// frames, never before 0) that is after the receiver's agreed frame and that
/// the receiver had not confirmed becomes confirmed, with the sender's own
/// input in that frame as the receiver's opponent input.
pub proof fn lemma_peer_receives_sent_inputs(
    frame_a: u64,
    inputs_a: Seq<FrameInputs>,
    side_a: Side,
    drift: i16,
    net_b: NetworkView,
    inputs_b: Seq<FrameInputs>,
    side_b: Side,
    frame_b: u64,
    i: int,
)
    requires
        side_b == side_a.opponent(),
        inputs_a.len() == BUFFER_SIZE,
        inputs_b.len() == BUFFER_SIZE,
        net_b.confirmed_for.len() == BUFFER_SIZE,
        0 <= i < FRAMES_TO_SEND,
        !is_ancient(net_b.agreed_frame, saturating_back(frame_a, i)),
        net_b.confirmed_for[slot(saturating_back(frame_a, i))] != saturating_back(frame_a, i),
    ensures
        ({
            let f = saturating_back(frame_a, i);
            let entries = sent_entries(frame_a, inputs_a, side_a);
            let m = (drift, entries);
            let after = receive_entries(
                read_header(net_b, frame_b, m),
                inputs_b,
                side_b,
                frame_b,
                entries,
            );
            &&& parse_message(message_bytes(drift, entries)) == Some(m)
            &&& after.0.remote_drift == drift
            &&& after.0.local_drift == clamp_drift(frame_difference(frame_b, frame_a))
            &&& (frame_a < 0x8000_0000_0000_0000 && frame_b < 0x8000_0000_0000_0000)
                ==> frame_difference(frame_b, frame_a) == frame_b - frame_a
            &&& after.0.confirmed_for[slot(f)] == f
            &&& after.1[slot(f)].input_of(side_a) == inputs_a[slot(f)].input_of(side_a)
        }),
{
    let entries = sent_entries(frame_a, inputs_a, side_a);
    let m = (drift, entries);
    lemma_message_round_trip(drift, entries);
    let net0 = read_header(net_b, frame_b, m);
    let f = saturating_back(frame_a, i);
    // The first entry of the message that carries frame `f`.
    let i0: int = if frame_a >= i { i } else { frame_a as int };
    assert(entries[i0].0 == f);
    assert forall|j: int| i0 < j < entries.len() implies slot(#[trigger] entries[j].0) != slot(
        entries[i0].0,
    ) || entries[j].0 == entries[i0].0 by {
        if entries[j].0 != f {
            lemma_slots_distinct(entries[j].0, f);
        }
    }
    assert forall|j: int| 0 <= j < i0 implies slot(#[trigger] entries[j].0) != slot(
        entries[i0].0,
    ) by {
        lemma_slots_distinct(entries[j].0, f);
    }
    lemma_received_input_delivered(net0, inputs_b, side_b, frame_b, entries, i0);
    lemma_receive_untouched(net0, inputs_b, side_b, frame_b, entries, slot(f));
    assert(side_b.opponent() == side_a);
    assert(entries[0].0 == frame_a);
}


proof fn lemma_repredict_untouched(
    inputs: Seq<FrameInputs>,
    confirmed_for: Seq<u64>,
    from: u64,
    n: nat,
    input: u8,
    side: Side,
    k: int,
)
    requires
        inputs.len() == BUFFER_SIZE,
        0 <= k < BUFFER_SIZE,
        from + n <= u64::MAX + 1,
        forall|f: u64| from <= f < from + n ==> slot(f) != k,
    ensures
        repredict(inputs, confirmed_for, from, n, input, side)[k] == inputs[k],
    decreases n,
{
    lemma_repredict_len(inputs, confirmed_for, from, n, input, side);
    if n > 0 {
        lemma_repredict_untouched(inputs, confirmed_for, from, (n - 1) as nat, input, side, k);
        lemma_repredict_len(inputs, confirmed_for, from, (n - 1) as nat, input, side);
        let f = (from + n - 1) as u64;
        assert(slot(f) != k);
    }
}

/// Refreshing predictions leaves alone every slot that no frame from `from`
/// to `to` maps to.
pub proof fn lemma_refresh_untouched(
    inputs: Seq<FrameInputs>,
    confirmed_for: Seq<u64>,
    from: u64,
    to: u64,
    last_confirmed: Option<u8>,
    side: Side,
    k: int,
)
    requires
        inputs.len() == BUFFER_SIZE,
        0 <= k < BUFFER_SIZE,
        forall|f: u64| from <= f <= to ==> slot(f) != k,
    ensures
        refreshed_predictions(inputs, confirmed_for, from, to, last_confirmed, side)[k] == inputs[k],
{
    if let Some(input) = last_confirmed {
        if from <= to {
            lemma_repredict_untouched(inputs, confirmed_for, from, (to - from + 1) as nat, input, side, k);
        }
    }
}

// ——— Re-simulation with a deterministic step ———
/// Whether `step` gives one result for each state and pair of inputs.
pub open spec fn deterministic<S, F: Fn(&S, u8, u8) -> S>(step: F) -> bool {
    forall|s: S, left: u8, right: u8, x: S, y: S|
        #![trigger call_ensures(step, (&s, left, right), x), call_ensures(step, (&s, left, right), y)]
        call_ensures(step, (&s, left, right), x) && call_ensures(step, (&s, left, right), y) ==> x
            == y
}

/// A result of `step` on `s` with these inputs.
pub open spec fn step_result<S, F: Fn(&S, u8, u8) -> S>(step: F, s: S, left: u8, right: u8) -> S {
    choose|x: S| call_ensures(step, (&s, left, right), x)
}

/// The state `k` frames after `from`, starting from `s0` and stepping with
/// the inputs recorded for each frame.
pub open spec fn replay<S, F: Fn(&S, u8, u8) -> S>(
    step: F,
    inputs: Seq<FrameInputs>,
    from: u64,
    s0: S,
    k: nat,
) -> S
    decreases k,
{
    if k == 0 {
        s0
    } else {
        let prev = replay(step, inputs, from, s0, (k - 1) as nat);
        let idx = slot((from + k - 1) as u64);
        step_result(step, prev, inputs[idx].left, inputs[idx].right)
    }
}

proof fn lemma_trace_is_replay<S, F: Fn(&S, u8, u8) -> S>(
    step: F,
    inputs: Seq<FrameInputs>,
    from: u64,
    trace: Seq<S>,
)
    requires
        deterministic(step),
        steps_through(step, inputs, from, trace),
        trace.len() > 0,
    ensures
        forall|k: int| 0 <= k < trace.len() ==> #[trigger] trace[k] == replay(step, inputs, from, trace[0], k as nat),
    decreases trace.len(),
{
    if trace.len() > 1 {
        let prefix = trace.drop_last();
        assert forall|k: int| #![trigger prefix[k]] 0 <= k < prefix.len() - 1 implies call_ensures(
            step,
            (&prefix[k], inputs[slot((from + k) as u64)].left, inputs[slot((from + k) as u64)].right),
            prefix[k + 1],
        ) by {
            assert(prefix[k] == trace[k]);
            assert(prefix[k + 1] == trace[k + 1]);
        }
        lemma_trace_is_replay(step, inputs, from, prefix);
        let n = trace.len() - 1;
        assert(prefix[0] == trace[0]);
        assert forall|k: int| 0 <= k < trace.len() implies #[trigger] trace[k] == replay(
            step,
            inputs,
            from,
            trace[0],
            k as nat,
        ) by {
            if k < n {
                assert(prefix[k] == trace[k]);
            } else {
                let idx = slot((from + n - 1) as u64);
                assert(prefix[n - 1] == trace[n - 1]);
                let prev = replay(step, inputs, from, trace[0], (n - 1) as nat);
                assert(prev == trace[n - 1]);
                assert(call_ensures(step, (&trace[n - 1], inputs[idx].left, inputs[idx].right), trace[n]));
                let x = step_result(step, prev, inputs[idx].left, inputs[idx].right);
                assert(call_ensures(step, (&prev, inputs[idx].left, inputs[idx].right), x));
            }
        }
    }
}

proof fn lemma_slot_offset(from: u64, j: int)
    requires
        0 <= j < BUFFER_SIZE,
        from + j <= u64::MAX,
    ensures
        (slot((from + j) as u64) - slot(from)) % 64 == j,
{
    vstd::arithmetic::div_mod::lemma_add_mod_noop(from as int, j, 64);
    vstd::arithmetic::div_mod::lemma_small_mod(j as nat, 64);
}

proof fn lemma_record_trace_slots<S>(snapshots: Seq<Option<S>>, from: u64, trace: Seq<S>, n: nat)
    requires
        snapshots.len() == BUFFER_SIZE,
        n <= BUFFER_SIZE,
        n <= trace.len(),
        from + n <= u64::MAX + 1,
    ensures
        record_trace(snapshots, from, trace, n).len() == BUFFER_SIZE,
        forall|k: int| 0 <= k < n ==> record_trace(snapshots, from, trace, n)[slot((from + k) as u64)]
            == Some(#[trigger] trace[k]),
        forall|idx: int|
            0 <= idx < BUFFER_SIZE && (idx - slot(from)) % 64 >= n ==> #[trigger] record_trace(
                snapshots,
                from,
                trace,
                n,
            )[idx] == snapshots[idx],
    decreases n,
{
    if n > 0 {
        let m = (n - 1) as nat;
        lemma_record_trace_slots(snapshots, from, trace, m);
        let before = record_trace(snapshots, from, trace, m);
        let last = (from + m) as u64;
        lemma_slot_offset(from, m as int);
        assert forall|k: int| 0 <= k < n implies record_trace(snapshots, from, trace, n)[slot(
            (from + k) as u64,
        )] == Some(#[trigger] trace[k]) by {
            if k < m {
                lemma_slots_distinct((from + k) as u64, last);
                assert(before[slot((from + k) as u64)] == Some(trace[k]));
            }
        }
    }
}

/// With a deterministic step, re-simulation is replay: after a rollback
/// from `from` to `to` (less than `BUFFER_SIZE` frames apart), the state is
/// the snapshot stepped once per frame with the inputs recorded for it, the
/// snapshot of each frame from `from` to before `to` is the replayed state of
/// that frame, and every other snapshot slot is unchanged.
pub proof fn lemma_rollback_replays<S, F: Fn(&S, u8, u8) -> S>(
    step: F,
    inputs: Seq<FrameInputs>,
    from: u64,
    to: u64,
    snapshot: S,
    before: Seq<Option<S>>,
    after: Seq<Option<S>>,
    result: S,
)
    requires
        deterministic(step),
        resimulated(step, inputs, from, to, snapshot, before, after, result),
        before.len() == BUFFER_SIZE,
        from <= to,
        to - from < BUFFER_SIZE,
    ensures
        result == replay(step, inputs, from, snapshot, (to - from) as nat),
        forall|k: int|
            0 <= k < to - from ==> after[slot((from + k) as u64)] == Some(
                #[trigger] replay(step, inputs, from, snapshot, k as nat),
            ),
        forall|idx: int|
            0 <= idx < BUFFER_SIZE && (idx - slot(from)) % 64 >= to - from ==> #[trigger] after[idx]
                == before[idx],
{
    let n = (to - from) as nat;
    let trace = choose|trace: Seq<S>|
        {
            &&& trace.len() == n + 1
            &&& trace[0] == snapshot
            &&& steps_through(step, inputs, from, trace)
            &&& result == trace[n as int]
            &&& after == record_trace(before, from, trace, n)
        };
    lemma_trace_is_replay(step, inputs, from, trace);
    lemma_record_trace_slots(before, from, trace, n);
    assert(result == trace[n as int]);
    assert forall|k: int| 0 <= k < to - from implies after[slot((from + k) as u64)] == Some(
        #[trigger] replay(step, inputs, from, snapshot, k as nat),
    ) by {
        assert(trace[k] == replay(step, inputs, from, trace[0], k as nat));
    }
}


// ——— What each step is for ———
/// The local input moves the paddle up exactly when `w` or the up arrow is
/// pressed, and down exactly when `s` or the down arrow is pressed; no other
/// bit is set.
pub proof fn lemma_keys_move_paddle(keys: PressedKeys)
    ensures
        spec_is_up(keys_input(keys)) == (keys.w || keys.arrow_up),
        spec_is_down(keys_input(keys)) == (keys.s || keys.arrow_down),
        keys_input(keys) < 4,
{
    lemma_input_round_trip(keys.w || keys.arrow_up, keys.s || keys.arrow_down);
}

/// Unless the simulation stalls, taking input stores in the local player's
/// half of the frame's slot an input that moves up exactly when `w` or the
/// up arrow is pressed and down exactly when `s` or the down arrow is.
pub proof fn lemma_take_input_records_keys(
    inputs: Seq<FrameInputs>,
    frame: u64,
    keys: PressedKeys,
    side: Side,
    network_state: NetworkState,
)
    requires
        inputs.len() == BUFFER_SIZE,
        !network_state.stalled,
    ensures
        ({
            let own = match side {
                Side::Left => predicted_inputs(inputs, frame, keys, side, network_state)[slot(frame)].left,
                Side::Right => predicted_inputs(inputs, frame, keys, side, network_state)[slot(frame)].right,
            };
            &&& spec_is_up(own) == (keys.w || keys.arrow_up)
            &&& spec_is_down(own) == (keys.s || keys.arrow_down)
        }),
{
    lemma_keys_move_paddle(keys);
}

/// The simulation stalls exactly when no frame is agreed, or when the
/// current frame is `MAX_ROLLBACK_FRAMES` or more frames after the agreed
/// frame; an agreed frame at or close behind the current one never stalls.
pub proof fn lemma_stall_exactly_when_lagging(frame: u64, agreed_frame: Option<u64>)
    ensures
        should_stall(frame, agreed_frame) == match agreed_frame {
            Some(agreed) => frame - agreed >= MAX_ROLLBACK_FRAMES,
            None => true,
        },
{
}

/// When the agreed frame advances to `a`, the input remembered as the last
/// confirmed opponent input is the input of the other side than the local
/// player's in the slot of `a`: the right player's for a left local player,
/// the left player's for a right one.
pub proof fn lemma_agreement_remembers_opponent_input(
    before: NetworkView,
    inputs: Seq<FrameInputs>,
    side: Side,
    after: NetworkView,
)
    requires
        advanced_agreement(before, inputs, side, after),
        after.agreed_frame != before.agreed_frame,
    ensures
        after.agreed_frame matches Some(a) && after.last_confirmed_opponent_input == Some(
            match side {
                Side::Left => inputs[slot(a)].right,
                Side::Right => inputs[slot(a)].left,
            },
        ),
{
}

/// A misprediction is caught: when an entry of a received message carries,
/// for a frame `f` already simulated (before `frame`), after the agreed frame
/// and not yet confirmed, whose slot no earlier entry of the message uses, an
/// input different from the opponent's input stored for `f` (the prediction
/// that was simulated: the right player's for a left local player, the left
/// player's for a right one), a rollback to `f` or an earlier frame is
/// requested.
pub proof fn lemma_mismatch_requests_rollback(
    net: NetworkView,
    inputs: Seq<FrameInputs>,
    side: Side,
    frame: u64,
    entries: Seq<(u64, u8)>,
    i: int,
)
    requires
        net.confirmed_for.len() == BUFFER_SIZE,
        inputs.len() == BUFFER_SIZE,
        0 <= i < entries.len(),
        entries[i].0 < frame,
        net.confirmed_for[slot(entries[i].0)] != entries[i].0,
        !is_ancient(net.agreed_frame, entries[i].0),
        forall|j: int| 0 <= j < i ==> slot(#[trigger] entries[j].0) != slot(entries[i].0),
        entries[i].1 != match side {
            Side::Left => inputs[slot(entries[i].0)].right,
            Side::Right => inputs[slot(entries[i].0)].left,
        },
    ensures
        receive_entries(net, inputs, side, frame, entries).0.rollback_to matches Some(r) && r
            <= entries[i].0,
    decreases entries.len(),
{
    let prefix = entries.drop_last();
    let k = slot(entries[i].0);
    lemma_receive_untouched(net, inputs, side, frame, prefix, k);
    if i == entries.len() - 1 {
        assert forall|j: int| 0 <= j < prefix.len() implies slot(#[trigger] prefix[j].0) != k by {
            assert(prefix[j] == entries[j]);
        }
        assert(entries.last() == entries[i]);
    } else {
        assert forall|j: int| 0 <= j < i implies slot(#[trigger] prefix[j].0) != slot(
            prefix[i].0,
        ) by {
            assert(prefix[j] == entries[j]);
        }
        assert(prefix[i] == entries[i]);
        lemma_mismatch_requests_rollback(net, inputs, side, frame, prefix, i);
    }
}

proof fn lemma_repredict_keeps_confirmed(
    inputs: Seq<FrameInputs>,
    confirmed_for: Seq<u64>,
    from: u64,
    n: nat,
    input: u8,
    side: Side,
    f: u64,
)
    requires
        inputs.len() == BUFFER_SIZE,
        confirmed_for.len() == BUFFER_SIZE,
        n <= BUFFER_SIZE,
        from + n <= u64::MAX + 1,
        from <= f < from + BUFFER_SIZE,
        confirmed_for[slot(f)] == f,
    ensures
        repredict(inputs, confirmed_for, from, n, input, side)[slot(f)] == inputs[slot(f)],
    decreases n,
{
    if n > 0 {
        lemma_repredict_keeps_confirmed(inputs, confirmed_for, from, (n - 1) as nat, input, side, f);
        lemma_repredict_len(inputs, confirmed_for, from, (n - 1) as nat, input, side);
        let g = (from + n - 1) as u64;
        if g != f {
            lemma_slots_distinct(g, f);
        }
    }
}

/// A rollback over fewer than `BUFFER_SIZE` frames keeps every confirmed
/// opponent input: for each frame from `from` to `to` whose input is confirmed
/// in its slot, the inputs stored in that slot are the same after the
/// predictions are refreshed.
pub proof fn lemma_rollback_keeps_confirmed(
    inputs: Seq<FrameInputs>,
    confirmed_for: Seq<u64>,
    from: u64,
    to: u64,
    last_confirmed: Option<u8>,
    side: Side,
    f: u64,
)
    requires
        inputs.len() == BUFFER_SIZE,
        confirmed_for.len() == BUFFER_SIZE,
        from <= f <= to,
        to - from < BUFFER_SIZE,
        confirmed_for[slot(f)] == f,
    ensures
        refreshed_predictions(inputs, confirmed_for, from, to, last_confirmed, side)[slot(f)]
            == inputs[slot(f)],
{
    if let Some(input) = last_confirmed {
        lemma_repredict_keeps_confirmed(
            inputs,
            confirmed_for,
            from,
            (to - from + 1) as nat,
            input,
            side,
            f,
        );
    }
}


/// No misprediction, no rollback: when every entry of a received message
/// carries the opponent input already stored in its slot (the right player's
/// for a left local player, the left player's for a right one), and no two
/// entries share a slot, the requested rollback is unchanged.
pub proof fn lemma_matching_inputs_no_rollback(
    net: NetworkView,
    inputs: Seq<FrameInputs>,
    side: Side,
    frame: u64,
    entries: Seq<(u64, u8)>,
)
    requires
        net.confirmed_for.len() == BUFFER_SIZE,
        inputs.len() == BUFFER_SIZE,
        forall|i: int|
            0 <= i < entries.len() ==> #[trigger] entries[i].1 == match side {
                Side::Left => inputs[slot(entries[i].0)].right,
                Side::Right => inputs[slot(entries[i].0)].left,
            },
        forall|i: int, j: int|
            0 <= i < j < entries.len() ==> slot(#[trigger] entries[i].0) != slot(
                #[trigger] entries[j].0,
            ),
    ensures
        receive_entries(net, inputs, side, frame, entries).0.rollback_to == net.rollback_to,
    decreases entries.len(),
{
    if entries.len() > 0 {
        let prefix = entries.drop_last();
        let n = entries.len() - 1;
        let k = slot(entries[n].0);
        assert forall|i: int| 0 <= i < prefix.len() implies #[trigger] prefix[i].1 == match side {
            Side::Left => inputs[slot(prefix[i].0)].right,
            Side::Right => inputs[slot(prefix[i].0)].left,
        } by {
            assert(prefix[i] == entries[i]);
        }
        assert forall|i: int, j: int| 0 <= i < j < prefix.len() implies slot(
            #[trigger] prefix[i].0,
        ) != slot(#[trigger] prefix[j].0) by {
            assert(prefix[i] == entries[i]);
            assert(prefix[j] == entries[j]);
        }
        lemma_matching_inputs_no_rollback(net, inputs, side, frame, prefix);
        assert forall|j: int| 0 <= j < prefix.len() implies slot(#[trigger] prefix[j].0) != k by {
            assert(prefix[j] == entries[j]);
        }
        lemma_receive_untouched(net, inputs, side, frame, prefix, k);
        assert(entries.last() == entries[n]);
    }
}

/// The local drift is the frame difference when it fits in an `i16`, and
/// the nearest bound of `i16` otherwise.
pub proof fn lemma_drift_clamped(d: int)
    ensures
        -32768 <= d <= 32767 ==> clamp_drift(d) == d,
        d < -32768 ==> clamp_drift(d) == -32768,
        d > 32767 ==> clamp_drift(d) == 32767,
{
}

/// A rollback is abandoned exactly when a frame is agreed and the current
/// frame is `BUFFER_SIZE` or more frames after it.
pub proof fn lemma_rollback_abandoned_exactly(frame: u64, agreed_frame: Option<u64>)
    ensures
        rollback_abandoned(frame, agreed_frame) == match agreed_frame {
            Some(agreed) => frame - agreed >= BUFFER_SIZE,
            None => false,
        },
{
}

/// A message sent at `frame` holds `FRAMES_TO_SEND` entries; entry `i` is for
/// frame `frame - i` (0 once that would be negative) and carries the local
/// player's own input in that frame.
pub proof fn lemma_sent_entries(frame: u64, inputs: Seq<FrameInputs>, side: Side)
    ensures
        sent_entries(frame, inputs, side).len() == FRAMES_TO_SEND,
        forall|i: int|
            0 <= i < FRAMES_TO_SEND ==> {
                let f = if frame >= i {
                    frame - i
                } else {
                    0
                };
                &&& #[trigger] sent_entries(frame, inputs, side)[i].0 == f
                &&& sent_entries(frame, inputs, side)[i].1 == match side {
                    Side::Left => inputs[(f % 64) as int].left,
                    Side::Right => inputs[(f % 64) as int].right,
                }
            },
{
}

/// The agreed frame advances exactly over the confirmed frames: when the
/// first unagreed frame is confirmed in its slot, the new agreed frame `a` is
/// at least that frame, every frame from it up to `a` is confirmed in its
/// slot and `a + 1` is not; otherwise nothing changes.
pub proof fn lemma_agreement_covers_confirmed_run(
    before: NetworkView,
    inputs: Seq<FrameInputs>,
    side: Side,
    after: NetworkView,
)
    requires
        advanced_agreement(before, inputs, side, after),
        before.confirmed_for.len() == BUFFER_SIZE,
        !agreement_overflows(before),
    ensures
        ({
            let start: int = match before.agreed_frame {
                Some(f) => f + 1,
                None => 0,
            };
            if before.confirmed_for[start % 64] == start {
                &&& after.agreed_frame matches Some(a)
                &&& start <= a
                &&& forall|g: int| start <= g <= a ==> #[trigger] before.confirmed_for[g % 64] == g
                &&& before.confirmed_for[(a + 1) % 64] != a + 1
                &&& after.confirmed_for == before.confirmed_for
                &&& after.rollback_to == before.rollback_to
            } else {
                after == before
            }
        }),
{
    let start: int = match before.agreed_frame {
        Some(f) => f + 1,
        None => 0,
    };
    assert(start <= u64::MAX);
    if before.confirmed_for[start % 64] == start {
        assert(is_confirmed(before.confirmed_for, start));
        let a = after.agreed_frame->0;
        assert forall|g: int| start <= g <= a implies #[trigger] before.confirmed_for[g % 64] == g by {
            assert(is_confirmed(before.confirmed_for, g));
        }
        if a + 1 > u64::MAX {
            assert forall|g: int| start <= g <= u64::MAX implies #[trigger] is_confirmed(
                before.confirmed_for,
                g,
            ) by {
                assert(is_confirmed(before.confirmed_for, g));
            }
        }
    } else {
        assert(!is_confirmed(before.confirmed_for, start));
    }
}

} // verus!
