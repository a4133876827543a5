//! Bounded, platform-neutral framing for a Tutti BLE GATT link.
//!
//! Nothing here opens a Bluetooth adapter. A phone, plugin host, or embedded
//! application owns discovery, connection policy, GATT callbacks, queues, and
//! reconnect supervision. This module owns only the byte-exact waist shared by
//! those hosts:
//!
//! - a fixed service and characteristic identity;
//! - a boot-scoped peer hello that session handshakes are bound to;
//! - bounded fragmentation below the GATT characteristic-value limit;
//! - authenticated multiplexing of control, realtime, and repair lanes;
//! - the close handshake of a repair attempt.
//!
//! Frames carry integrity and peer authentication, not confidentiality. Hosts
//! that deliberately avoid BLE pairing must not put secrets in them.

pub mod bootstrap;
pub mod codec;
pub mod control;
pub mod error;
pub mod fragment;
pub mod hello;
pub mod limits;
pub mod profile;
pub mod reassembly;
pub mod repair_close;
pub mod repair_stream;

pub use bootstrap::{decode_answer, decode_offer, encode_answer, encode_offer};
pub use codec::{AuthenticatedMessage, EncodedAuthenticatedMessage, Lane, SessionCodec};
pub use control::{
    decode_control_frame, encode_control_capability_bundle, encode_control_capability_ready,
    encode_control_profile, encode_control_repair_ack, encode_control_repair_fin, CapabilityReady,
    ControlFrame, CONTROL_CAPABILITY_READY_BYTES, CONTROL_FRAME_HEADER_BYTES,
    CONTROL_PROFILE_BYTES, CONTROL_REPAIR_LIFECYCLE_BYTES,
};
pub use error::BleWireError;
pub use fragment::{decode_fragment, Fragment, FragmentCursor, Fragmenter};
pub use hello::{
    channel_binding, PeerHello, CAPABILITY_BLE_MIDI_COEXISTENCE, CAPABILITY_HHHS_REPAIR,
    CAPABILITY_REALTIME, HELLO_BYTES,
};
pub use limits::{
    complete_wire_ceiling, session_protocol_id, AUTHENTICATED_FRAME_OVERHEAD_BYTES,
    AUTHENTICATED_HEADER_BYTES, DEFAULT_MAX_PAYLOAD_BYTES, FRAGMENT_HEADER_BYTES,
    HARD_MAX_PAYLOAD_BYTES, HARD_MAX_WIRE_BYTES, INFO_CHARACTERISTIC_UUID,
    MAX_BOOTSTRAP_WIRE_BYTES, MIN_FRAGMENT_VALUE_BYTES, RX_CHARACTERISTIC_UUID, SERVICE_UUID,
    SESSION_PROTOCOL_LABEL, TX_CHARACTERISTIC_UUID,
};
pub use profile::{
    realtime_generation, with_realtime_generation, LaneProfile, PROFILE_BYTES,
    PROFILE_CAP_HHHS_REPAIR, PROFILE_CAP_MUSIC, PROFILE_CAP_REALTIME, PROFILE_CAP_WALKIE_EXTENSION,
};
pub use reassembly::{Reassembler, ReassemblyBudget, MAX_INTERLEAVED_REASSEMBLIES};
pub use repair_close::{
    repair_attempt_id, RepairAck, RepairAttemptId, RepairCloseError, RepairCloseState, RepairFin,
    REPAIR_ATTEMPT_ID_BYTES,
};
pub use repair_stream::BleRepairStream;
