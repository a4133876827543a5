//! Identities and size limits that every BLE host shares.

use crate::session::handshake::ANSWER_BYTES;
use crate::session::keys::TAG_BYTES;
use crate::session::identity::ProtocolId;
use crate::crypto;
use vstd::prelude::*;

verus! {

/// Canonical, network-byte-order UUID for the Tutti bridge GATT service.
pub const SERVICE_UUID: u128 = 0x9de5_a180_6c44_4f43_a754_f44b_cf12_0201;

/// Phone/host to ESP characteristic: write or write-without-response.
pub const RX_CHARACTERISTIC_UUID: u128 = 0x9de5_a180_6c44_4f43_a754_f44b_cf12_0202;

/// ESP to phone/host characteristic: notify.
pub const TX_CHARACTERISTIC_UUID: u128 = 0x9de5_a180_6c44_4f43_a754_f44b_cf12_0203;

/// Read/notify bootstrap and status characteristic.
pub const INFO_CHARACTERISTIC_UUID: u128 = 0x9de5_a180_6c44_4f43_a754_f44b_cf12_0204;

/// The bytes of `TBL1`, with which every complete wire message begins.
pub const WIRE_MAGIC: [u8; 4] = [0x54, 0x42, 0x4c, 0x31];

pub const AUTHENTICATED_HEADER_BYTES: usize = 4 + 1 + 8 + 8 + 1 + 2;

pub const FRAGMENT_HEADER_BYTES: usize = 2 + 1 + 1 + 2 + 2 + 2;

pub const MIN_FRAGMENT_VALUE_BYTES: usize = FRAGMENT_HEADER_BYTES + 1;

/// The largest wire message: its length is sent in two bytes.
pub const HARD_MAX_WIRE_BYTES: usize = 65_535;

pub const AUTHENTICATED_FRAME_OVERHEAD_BYTES: usize = AUTHENTICATED_HEADER_BYTES + TAG_BYTES;

pub const MAX_BOOTSTRAP_WIRE_BYTES: usize = 5 + ANSWER_BYTES;

pub const HARD_MAX_PAYLOAD_BYTES: usize = HARD_MAX_WIRE_BYTES - AUTHENTICATED_FRAME_OVERHEAD_BYTES;

pub const DEFAULT_MAX_PAYLOAD_BYTES: usize = 4 * 1024;

/// The bytes of `tutti BLE bridge session v1`.
pub const SESSION_PROTOCOL_LABEL: [u8; 27] = [
    0x74, 0x75, 0x74, 0x74, 0x69, 0x20, 0x42, 0x4c, 0x45, 0x20, 0x62, 0x72,
    0x69, 0x64, 0x67, 0x65, 0x20, 0x73, 0x65, 0x73, 0x73, 0x69, 0x6f, 0x6e,
    0x20, 0x76, 0x31,
];

/// The size of the largest wire message on a link whose authenticated payloads
/// are bounded: a bootstrap message or an authenticated frame with a full
/// payload. `None` where that size exceeds the address space.
pub fn complete_wire_ceiling(max_payload_bytes: usize) -> (ceiling: Option<usize>)
    ensures
        ({
            let authenticated = max_payload_bytes + AUTHENTICATED_FRAME_OVERHEAD_BYTES;
            if authenticated > usize::MAX {
                ceiling is None
            } else {
                &&& ceiling is Some
                &&& ceiling->0 == if authenticated > MAX_BOOTSTRAP_WIRE_BYTES {
                    authenticated
                } else {
                    MAX_BOOTSTRAP_WIRE_BYTES as int
                }
            }
        }),
        max_payload_bytes + 40 <= usize::MAX <==> ceiling is Some,
        ceiling is Some ==> ceiling->0 >= 242 && ceiling->0 >= max_payload_bytes + 40 && (ceiling->0
            == 242 || ceiling->0 == max_payload_bytes + 40),
{
    let authenticated: usize = match max_payload_bytes.checked_add(
        AUTHENTICATED_FRAME_OVERHEAD_BYTES,
    ) {
        Some(value) => value,
        None => {
            return None;
        },
    };
    Some(
        if authenticated > MAX_BOOTSTRAP_WIRE_BYTES {
            authenticated
        } else {
            MAX_BOOTSTRAP_WIRE_BYTES
        },
    )
}

/// Exact signed-session protocol identifier shared by every Tutti BLE host.
pub fn session_protocol_id() -> (protocol: ProtocolId)
    ensures
        protocol@ == crypto::blake3_hash(SESSION_PROTOCOL_LABEL@),
{
    ProtocolId::derive(&SESSION_PROTOCOL_LABEL)
}

} // verus!
