# netpong

Rollback netcode for a two-player networked Pong game, verified with Verus.

- `src/` is the verified library: input encoding, the per-frame input and
  snapshot ring buffers, the wire format of input messages, receiving and
  confirming the opponent's inputs, prediction, agreement, stalling, rollback
  with re-simulation, the win check and side assignment. `src/laws.rs` holds
  the properties that relate several of these steps.
- The game's physics is floating point and is handed to the library as a step
  function; the library works on integers only.
- `app/` is the Bevy game around the library: windowing, rendering, the user
  interface, the Matchbox socket, the fixed-timestep loop and the physics.
- `tests/` exercises the library on concrete values.
