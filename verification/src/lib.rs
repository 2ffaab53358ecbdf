//! Deterministic rollback netcode for a two-player networked Pong game:
//! input encoding, per-frame input and snapshot ring buffers, the wire
//! format of input messages, input confirmation, prediction, rollback,
//! stalling and clock-drift bookkeeping.
//!
//! The floating-point physics of a frame is supplied by the caller as a
//! step function; everything here works on integers.

pub mod config;
pub mod laws;
pub mod network;
pub mod packet;
pub mod simulation;
pub mod states;
