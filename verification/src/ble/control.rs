//! The vocabulary of the authenticated control lane.

use crate::ble::error::BleWireError;
use crate::ble::limits::HARD_MAX_PAYLOAD_BYTES;
use crate::ble::profile;
use crate::ble::profile::{LaneProfile, PROFILE_BYTES};
use crate::ble::repair_close::{RepairAck, RepairAttemptId, RepairFin, REPAIR_ATTEMPT_ID_BYTES};
use crate::bytes;
use vstd::prelude::*;

verus! {

pub const CONTROL_FRAME_HEADER_BYTES: usize = 5;

pub const CONTROL_PROFILE_BYTES: usize = CONTROL_FRAME_HEADER_BYTES + PROFILE_BYTES;

pub const CONTROL_REPAIR_LIFECYCLE_BYTES: usize = CONTROL_FRAME_HEADER_BYTES
    + REPAIR_ATTEMPT_ID_BYTES + 8;

pub const CONTROL_CAPABILITY_READY_BYTES: usize = CONTROL_FRAME_HEADER_BYTES + 32;

/// The bytes of `TBC1`.
pub const CONTROL_MAGIC: [u8; 4] = [0x54, 0x42, 0x43, 0x31];

pub const CONTROL_PROFILE: u8 = 1;

pub const CONTROL_CAPABILITY_BUNDLE: u8 = 2;

pub const CONTROL_REPAIR_FIN: u8 = 3;

pub const CONTROL_REPAIR_ACK: u8 = 4;

pub const CONTROL_CAPABILITY_READY: u8 = 5;

/// Leaf acknowledgement that the exact receiver-bound bundle was imported,
/// every selected leaf is available, and the current device identity matches
/// the receiver proven by the authenticated session.
#[derive(Clone, Copy, PartialEq, Eq, Debug)]
pub struct CapabilityReady {
    pub bundle_digest: [u8; 32],
}

/// Versioned authenticated control-lane message.
#[derive(Clone, Copy, PartialEq, Eq, Debug)]
pub enum ControlFrame<'a> {
    Profile(LaneProfile),
    CapabilityBundle(&'a [u8]),
    RepairFin(RepairFin),
    RepairAck(RepairAck),
    CapabilityReady(CapabilityReady),
}

/// What a control message says.
pub enum ControlView {
    Profile(LaneProfile),
    CapabilityBundle(Seq<u8>),
    RepairFin(RepairFin),
    RepairAck(RepairAck),
    CapabilityReady(Seq<u8>),
}

impl<'a> View for ControlFrame<'a> {
    type V = ControlView;

    open spec fn view(&self) -> ControlView {
        match self {
            ControlFrame::Profile(profile) => ControlView::Profile(*profile),
            ControlFrame::CapabilityBundle(bundle) => ControlView::CapabilityBundle(bundle@),
            ControlFrame::RepairFin(fin) => ControlView::RepairFin(*fin),
            ControlFrame::RepairAck(ack) => ControlView::RepairAck(*ack),
            ControlFrame::CapabilityReady(ready) => ControlView::CapabilityReady(
                ready.bundle_digest@,
            ),
        }
    }
}

/// A control message of this kind on the wire.
pub open spec fn control_bytes(kind: u8, body: Seq<u8>) -> Seq<u8> {
    CONTROL_MAGIC@ + seq![kind] + body
}

impl ControlView {
    pub open spec fn kind(self) -> u8 {
        match self {
            ControlView::Profile(_) => CONTROL_PROFILE,
            ControlView::CapabilityBundle(_) => CONTROL_CAPABILITY_BUNDLE,
            ControlView::RepairFin(_) => CONTROL_REPAIR_FIN,
            ControlView::RepairAck(_) => CONTROL_REPAIR_ACK,
            ControlView::CapabilityReady(_) => CONTROL_CAPABILITY_READY,
        }
    }

    pub open spec fn body(self) -> Seq<u8> {
        match self {
            ControlView::Profile(profile) => profile.encoded(),
            ControlView::CapabilityBundle(bundle) => bundle,
            ControlView::RepairFin(fin) => fin.attempt@ + bytes::be(
                fin.last_repair_sequence as nat,
                8,
            ),
            ControlView::RepairAck(ack) => ack.attempt@ + bytes::be(ack.fin_sequence as nat, 8),
            ControlView::CapabilityReady(digest) => digest,
        }
    }

    /// The message on the wire.
    pub open spec fn encoded(self) -> Seq<u8> {
        control_bytes(self.kind(), self.body())
    }

    /// Whether the message is one that a peer may send.
    pub open spec fn valid(self) -> bool {
        match self {
            ControlView::Profile(profile) => profile.valid(),
            ControlView::CapabilityReady(digest) => digest.len() == 32,
            _ => true,
        }
    }
}

/// Whether `message` begins as control messages do.
pub open spec fn has_control_header(message: Seq<u8>) -> bool {
    message.len() >= CONTROL_FRAME_HEADER_BYTES && CONTROL_MAGIC@.is_prefix_of(message)
}

fn control_body(kind: u8, body: &[u8]) -> (out: Vec<u8>)
    ensures
        out@ == control_bytes(kind, body@),
{
    let mut out: Vec<u8> = bytes::to_vec(&CONTROL_MAGIC);
    out.push(kind);
    bytes::push_bytes(&mut out, body);
    assert(out@ =~= control_bytes(kind, body@));
    out
}

/// Refuses a body that no authenticated payload can hold.
fn encode_control_body(kind: u8, body: &[u8]) -> (result: Result<Vec<u8>, BleWireError>)
    ensures
        match result {
            Ok(out) => body@.len() + CONTROL_FRAME_HEADER_BYTES <= HARD_MAX_PAYLOAD_BYTES && out@
                == control_bytes(kind, body@),
            Err(error) => body@.len() + CONTROL_FRAME_HEADER_BYTES > HARD_MAX_PAYLOAD_BYTES
                && error == (BleWireError::PayloadTooLarge {
                actual: if body@.len() + CONTROL_FRAME_HEADER_BYTES > usize::MAX {
                    usize::MAX
                } else {
                    (body@.len() + CONTROL_FRAME_HEADER_BYTES) as usize
                },
                maximum: HARD_MAX_PAYLOAD_BYTES,
            }),
        },
{
    let total: usize = match CONTROL_FRAME_HEADER_BYTES.checked_add(body.len()) {
        Some(total) => total,
        None => {
            return Err(
                BleWireError::PayloadTooLarge {
                    actual: usize::MAX,
                    maximum: HARD_MAX_PAYLOAD_BYTES,
                },
            );
        },
    };
    if total > HARD_MAX_PAYLOAD_BYTES {
        return Err(
            BleWireError::PayloadTooLarge { actual: total, maximum: HARD_MAX_PAYLOAD_BYTES },
        );
    }
    Ok(control_body(kind, body))
}

pub fn encode_control_profile(profile: LaneProfile) -> (out: Vec<u8>)
    ensures
        out@ == ControlView::Profile(profile).encoded(),
        out@.len() == CONTROL_PROFILE_BYTES,
{
    control_body(CONTROL_PROFILE, &profile.encode())
}

/// Encodes a bundle, unless no authenticated payload can hold it.
pub fn encode_control_capability_bundle(bundle: &[u8]) -> (result: Result<Vec<u8>, BleWireError>)
    ensures
        match result {
            Ok(out) => bundle@.len() + CONTROL_FRAME_HEADER_BYTES <= HARD_MAX_PAYLOAD_BYTES && out@
                == ControlView::CapabilityBundle(bundle@).encoded(),
            Err(error) => bundle@.len() + CONTROL_FRAME_HEADER_BYTES > HARD_MAX_PAYLOAD_BYTES
                && error == (BleWireError::PayloadTooLarge {
                actual: if bundle@.len() + CONTROL_FRAME_HEADER_BYTES > usize::MAX {
                    usize::MAX
                } else {
                    (bundle@.len() + CONTROL_FRAME_HEADER_BYTES) as usize
                },
                maximum: HARD_MAX_PAYLOAD_BYTES,
            }),
        },
{
    encode_control_body(CONTROL_CAPABILITY_BUNDLE, bundle)
}

fn lifecycle_body(attempt: RepairAttemptId, sequence: u64) -> (body: Vec<u8>)
    ensures
        body@ == attempt@ + bytes::be(sequence as nat, 8),
{
    let mut body: Vec<u8> = bytes::to_vec(&attempt.as_bytes());
    bytes::push_be(&mut body, sequence, 8);
    body
}

pub fn encode_control_repair_fin(fin: RepairFin) -> (out: Vec<u8>)
    ensures
        out@ == ControlView::RepairFin(fin).encoded(),
        out@.len() == CONTROL_REPAIR_LIFECYCLE_BYTES,
{
    proof {
        fin.attempt.lemma_len();
        bytes::lemma_be_len(fin.last_repair_sequence as nat, 8);
    }
    let body: Vec<u8> = lifecycle_body(fin.attempt, fin.last_repair_sequence);
    control_body(CONTROL_REPAIR_FIN, body.as_slice())
}

pub fn encode_control_repair_ack(ack: RepairAck) -> (out: Vec<u8>)
    ensures
        out@ == ControlView::RepairAck(ack).encoded(),
        out@.len() == CONTROL_REPAIR_LIFECYCLE_BYTES,
{
    proof {
        ack.attempt.lemma_len();
        bytes::lemma_be_len(ack.fin_sequence as nat, 8);
    }
    let body: Vec<u8> = lifecycle_body(ack.attempt, ack.fin_sequence);
    control_body(CONTROL_REPAIR_ACK, body.as_slice())
}

pub fn encode_control_capability_ready(ready: CapabilityReady) -> (out: Vec<u8>)
    ensures
        out@ == ControlView::CapabilityReady(ready.bundle_digest@).encoded(),
        out@.len() == CONTROL_CAPABILITY_READY_BYTES,
{
    control_body(CONTROL_CAPABILITY_READY, &ready.bundle_digest)
}

/// Accepts exactly the encodings of valid messages. Of what it refuses it says
/// whether the kind is unknown, the profile malformed, or the frame itself.
pub fn decode_control_frame<'a>(bytes: &'a [u8]) -> (result: Result<ControlFrame<'a>, BleWireError>)
    ensures
        match result {
            Ok(frame) => frame@.valid() && bytes@ == frame@.encoded(),
            Err(BleWireError::UnknownControlFrame(kind)) => has_control_header(bytes@) && kind
                == bytes@[4] && !(CONTROL_PROFILE <= kind <= CONTROL_CAPABILITY_READY),
            Err(BleWireError::MalformedProfile) => has_control_header(bytes@) && bytes@[4]
                == CONTROL_PROFILE && forall|profile: LaneProfile|
                profile.valid() ==> #[trigger] profile.encoded() != bytes@.subrange(
                    5,
                    bytes@.len() as int,
                ),
            Err(error) => error == BleWireError::MalformedControlFrame && (!has_control_header(
                bytes@,
            ) || (bytes@[4] == CONTROL_REPAIR_FIN || bytes@[4] == CONTROL_REPAIR_ACK)
                && bytes@.len() != CONTROL_REPAIR_LIFECYCLE_BYTES || bytes@[4]
                == CONTROL_CAPABILITY_READY && bytes@.len() != CONTROL_CAPABILITY_READY_BYTES),
        },
{
    if bytes.len() < CONTROL_FRAME_HEADER_BYTES || !bytes::begins_with(bytes, &CONTROL_MAGIC) {
        return Err(BleWireError::MalformedControlFrame);
    }
    let kind: u8 = bytes[4];
    let body: &[u8] = &bytes[CONTROL_FRAME_HEADER_BYTES..bytes.len()];
    assert(bytes@ =~= control_bytes(kind, body@));
    if kind == CONTROL_PROFILE {
        return match LaneProfile::decode(body) {
            Ok(profile) => Ok(ControlFrame::Profile(profile)),
            Err(error) => Err(error),
        };
    }
    if kind == CONTROL_CAPABILITY_BUNDLE {
        return Ok(ControlFrame::CapabilityBundle(body));
    }
    if kind == CONTROL_REPAIR_FIN || kind == CONTROL_REPAIR_ACK {
        if body.len() != REPAIR_ATTEMPT_ID_BYTES + 8 {
            return Err(BleWireError::MalformedControlFrame);
        }
        let attempt: RepairAttemptId = RepairAttemptId::new(
            bytes::array_at::<REPAIR_ATTEMPT_ID_BYTES>(body, 0),
        );
        let sequence: u64 = bytes::read_u64(body, REPAIR_ATTEMPT_ID_BYTES);
        proof {
            bytes::lemma_be_canonical(body@.subrange(16, 24));
            assert(body@ =~= attempt@ + bytes::be(sequence as nat, 8));
        }
        return if kind == CONTROL_REPAIR_FIN {
            Ok(ControlFrame::RepairFin(RepairFin { attempt, last_repair_sequence: sequence }))
        } else {
            Ok(ControlFrame::RepairAck(RepairAck { attempt, fin_sequence: sequence }))
        };
    }
    if kind == CONTROL_CAPABILITY_READY {
        if body.len() != 32 {
            return Err(BleWireError::MalformedControlFrame);
        }
        return Ok(
            ControlFrame::CapabilityReady(
                CapabilityReady { bundle_digest: bytes::to_array::<32>(body) },
            ),
        );
    }
    Err(BleWireError::UnknownControlFrame(kind))
}

/// Different control messages have different encodings, so that what decodes is
/// what was encoded.
pub proof fn law_control_encoding_is_injective(a: ControlView, b: ControlView)
    requires
        a.encoded() == b.encoded(),
    ensures
        a == b,
{
    let (s, t) = (a.encoded(), b.encoded());
    assert(s[4] == a.kind());
    assert(t[4] == b.kind());
    assert(s.subrange(5, s.len() as int) =~= a.body());
    assert(t.subrange(5, t.len() as int) =~= b.body());
    match (a, b) {
        (ControlView::Profile(x), ControlView::Profile(y)) => {
            profile::law_profile_encoding_is_injective(x, y);
        },
        (ControlView::RepairFin(x), ControlView::RepairFin(y)) => {
            lemma_lifecycle_injective(
                x.attempt,
                x.last_repair_sequence,
                y.attempt,
                y.last_repair_sequence,
            );
        },
        (ControlView::RepairAck(x), ControlView::RepairAck(y)) => {
            lemma_lifecycle_injective(x.attempt, x.fin_sequence, y.attempt, y.fin_sequence);
        },
        _ => {},
    }
}

proof fn lemma_lifecycle_injective(a: RepairAttemptId, m: u64, b: RepairAttemptId, n: u64)
    requires
        a@ + bytes::be(m as nat, 8) == b@ + bytes::be(n as nat, 8),
    ensures
        a == b,
        m == n,
{
    a.lemma_len();
    b.lemma_len();
    bytes::lemma_be_len(m as nat, 8);
    bytes::lemma_be_len(n as nat, 8);
    let (s, t) = (a@ + bytes::be(m as nat, 8), b@ + bytes::be(n as nat, 8));
    assert(s.subrange(0, 16) =~= a@);
    assert(t.subrange(0, 16) =~= b@);
    assert(s.subrange(16, 24) =~= bytes::be(m as nat, 8));
    assert(t.subrange(16, 24) =~= bytes::be(n as nat, 8));
    RepairAttemptId::lemma_extensional(a, b);
    bytes::lemma_be_ranges();
    bytes::lemma_be_injective(m as nat, n as nat, 8);
}

/// A control frame is its magic, its kind, and what it carries.
pub proof fn law_control_frames_have_their_layout(frame: ControlView)
    ensures
        ({
            let s = frame.encoded();
            let body = s.subrange(5, s.len() as int);
            &&& s.len() >= 5
            &&& s.subrange(0, 4) == seq![0x54u8, 0x42, 0x43, 0x31]
            &&& match frame {
                ControlView::Profile(profile) => s[4] == 1 && body == profile.encoded(),
                ControlView::CapabilityBundle(bundle) => s[4] == 2 && body == bundle,
                ControlView::RepairFin(fin) => {
                    &&& s[4] == 3
                    &&& s.len() == 29
                    &&& s.subrange(5, 21) == fin.attempt@
                    &&& bytes::be_at(s, 21, 29) == fin.last_repair_sequence
                },
                ControlView::RepairAck(ack) => {
                    &&& s[4] == 4
                    &&& s.len() == 29
                    &&& s.subrange(5, 21) == ack.attempt@
                    &&& bytes::be_at(s, 21, 29) == ack.fin_sequence
                },
                ControlView::CapabilityReady(digest) => s[4] == 5 && body == digest,
            }
        }),
        frame.valid() <==> match frame {
            ControlView::Profile(profile) => profile.valid(),
            ControlView::CapabilityReady(digest) => digest.len() == 32,
            _ => true,
        },
{
    let s = frame.encoded();
    assert(s.subrange(0, 4) =~= seq![0x54u8, 0x42, 0x43, 0x31]);
    assert(s.subrange(5, s.len() as int) =~= frame.body());
    bytes::lemma_be_ranges();
    match frame {
        ControlView::RepairFin(fin) => {
            fin.attempt.lemma_len();
            bytes::lemma_be_len(fin.last_repair_sequence as nat, 8);
            bytes::lemma_be_round_trip(fin.last_repair_sequence as nat, 8);
            assert(s.subrange(5, 21) =~= fin.attempt@);
            assert(s.subrange(21, 29) =~= bytes::be(fin.last_repair_sequence as nat, 8));
        },
        ControlView::RepairAck(ack) => {
            ack.attempt.lemma_len();
            bytes::lemma_be_len(ack.fin_sequence as nat, 8);
            bytes::lemma_be_round_trip(ack.fin_sequence as nat, 8);
            assert(s.subrange(5, 21) =~= ack.attempt@);
            assert(s.subrange(21, 29) =~= bytes::be(ack.fin_sequence as nat, 8));
        },
        _ => {},
    }
}

/// Bytes have the header of a control frame where there are at least five and the
/// first four are the magic.
pub proof fn law_control_headers_are_five_bytes(message: Seq<u8>)
    ensures
        has_control_header(message) <==> message.len() >= 5 && message[0] == 0x54 && message[1]
            == 0x42 && message[2] == 0x43 && message[3] == 0x31,
{
    if message.len() >= 5 && message[0] == 0x54 && message[1] == 0x42 && message[2] == 0x43
        && message[3] == 0x31 {
        assert(CONTROL_MAGIC@ =~= message.subrange(0, 4));
    }
    if has_control_header(message) {
        assert(message[0] == CONTROL_MAGIC@[0] && message[1] == CONTROL_MAGIC@[1] && message[2]
            == CONTROL_MAGIC@[2] && message[3] == CONTROL_MAGIC@[3]);
    }
}

} // verus!
