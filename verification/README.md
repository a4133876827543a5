# tutti

Reusable music state for peers that share a pitch set: sessions, radio framing,
round-table performance, replicas that converge, and the wire of the AMY
synthesizer. The library is written in Verus. What each function returns or
changes is stated in its contract and proved.

## Layout

- `src/session/` - authenticated ephemeral handshake, directional channel tags,
  replay window.
- `src/ble/` - hello and profile records, bootstrap, control frames, lane codec,
  fragmentation and bounded reassembly, the repair close handshake.
- `src/music/` - degrees, tunings, envelopes, the command alphabet, the
  round-table's pitch patterns and parameters, presence registers.
- `src/roundtable/` - run state, participants, rosters, pulses and their pitches.
- `src/realtime.rs` - compact realtime payloads.
- `src/replica/` - command framing, admission, causal history, the fold into a
  music view, projections, provisioning, repair.
- `src/windowed/` - the bounded-window store and its discard journal.
- `src/amy_wire.rs`, `src/amy/` - pitch sets as AMY wire messages, and the leaf
  that is driven along them.
- `src/crypto.rs` - the hash, signature and key-agreement functions that the
  library takes from other crates, with what is trusted of each.
- `src/bits.rs`, `src/bytes.rs`, `src/collections.rs`, `src/order.rs`,
  `src/text.rs` - what the rest is built from.
- `app/` - the audio engine, floating-point values, JSON, carriers, and the loops
  that ask a replica or a graph and hand its answers back.

Proof functions named `law_*` state what holds across several functions: that
replicas converge, that frames survive a carrier, that a sequence is accepted at
most once, that a released set is silent.
