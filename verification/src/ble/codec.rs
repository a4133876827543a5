//! Authenticated frames on one established BLE connection.

use crate::ble::error::BleWireError;
use crate::ble::limits::{
    AUTHENTICATED_FRAME_OVERHEAD_BYTES, AUTHENTICATED_HEADER_BYTES, HARD_MAX_PAYLOAD_BYTES,
    WIRE_MAGIC,
};
use crate::bytes;
use crate::session::error::SessionError;
use crate::session::identity::PeerIdentity;
use crate::session::keys;
use crate::session::keys::{KeysView, SessionKeys, TAG_BYTES};
use crate::session::replay;
use crate::session::replay::ReplayWindow;
use vstd::prelude::*;

verus! {

pub const WIRE_AUTHENTICATED: u8 = 3;

/// Which of the multiplexed streams a frame belongs to.
#[derive(Clone, Copy, PartialEq, Eq, Debug, Structural)]
pub enum Lane {
    /// Handshake extensions, liveness, and link supervision after admission.
    Control,
    /// Compact notes, pitch, tempo, gestures, and round-table pulses.
    Realtime,
    /// Byte-exact repair frames.
    HhhsRepair,
}

impl Lane {
    /// The byte that stands for the lane on the wire.
    pub open spec fn byte(self) -> u8 {
        match self {
            Lane::Control => 0,
            Lane::Realtime => 1,
            Lane::HhhsRepair => 2,
        }
    }

    pub fn to_byte(self) -> (value: u8)
        ensures
            value == self.byte(),
    {
        match self {
            Lane::Control => 0,
            Lane::Realtime => 1,
            Lane::HhhsRepair => 2,
        }
    }

    /// The lane that `value` stands for.
    pub open spec fn of_byte(value: u8) -> Result<Lane, BleWireError> {
        match value {
            0 => Ok(Lane::Control),
            1 => Ok(Lane::Realtime),
            2 => Ok(Lane::HhhsRepair),
            _ => Err(BleWireError::UnknownLane(value)),
        }
    }

    pub fn from_byte(value: u8) -> (result: Result<Self, BleWireError>)
        ensures
            result == Lane::of_byte(value),
    {
        match value {
            0 => Ok(Lane::Control),
            1 => Ok(Lane::Realtime),
            2 => Ok(Lane::HhhsRepair),
            _ => Err(BleWireError::UnknownLane(value)),
        }
    }
}

#[derive(PartialEq, Eq, Debug)]
pub struct AuthenticatedMessage {
    pub lane: Lane,
    pub sequence: u64,
    pub payload: Vec<u8>,
}

#[derive(PartialEq, Eq, Debug)]
pub struct EncodedAuthenticatedMessage {
    pub sequence: u64,
    pub wire: Vec<u8>,
}

/// What an authenticated frame says.
pub struct MessageView {
    pub lane: Lane,
    pub sequence: u64,
    pub payload: Seq<u8>,
}

impl View for AuthenticatedMessage {
    type V = MessageView;

    open spec fn view(&self) -> MessageView {
        MessageView { lane: self.lane, sequence: self.sequence, payload: self.payload@ }
    }
}

/// The part of a frame that its tag covers.
pub open spec fn signed_part(session_id: u64, message: MessageView) -> Seq<u8> {
    WIRE_MAGIC@ + seq![WIRE_AUTHENTICATED] + bytes::be(session_id as nat, 8) + bytes::be(
        message.sequence as nat,
        8,
    ) + seq![message.lane.byte()] + bytes::be(message.payload.len(), 2) + message.payload
}

/// The frame of a message under the sender's keys.
pub open spec fn frame(sender: KeysView, message: MessageView) -> Seq<u8> {
    let signed = signed_part(sender.session_id, message);
    signed + keys::frame_tag(sender.send, sender.session_id, signed)
}

/// The state of one end of a connection.
pub struct CodecView {
    pub keys: KeysView,
    pub next_send_sequence: u64,
    pub replay: ReplayWindow,
    pub max_payload_bytes: usize,
}

impl CodecView {
    /// Why a payload cannot be sent now, if it cannot.
    pub open spec fn send_verdict(self, payload_len: nat) -> Result<(), BleWireError> {
        if payload_len > self.max_payload_bytes {
            Err(
                BleWireError::PayloadTooLarge {
                    actual: payload_len as usize,
                    maximum: self.max_payload_bytes,
                },
            )
        } else if self.next_send_sequence == u64::MAX {
            Err(BleWireError::SequenceExhausted)
        } else {
            Ok(())
        }
    }

    /// The message that is sent next with this payload.
    pub open spec fn next_message(self, lane: Lane, payload: Seq<u8>) -> MessageView {
        MessageView { lane, sequence: self.next_send_sequence, payload }
    }

    /// What a frame says to this end before its replay window is asked, or why
    /// it is refused.
    pub open spec fn authentic(self, wire: Seq<u8>) -> Result<MessageView, BleWireError> {
        if wire.len() < AUTHENTICATED_FRAME_OVERHEAD_BYTES || !WIRE_MAGIC@.is_prefix_of(wire)
            || wire[4] != WIRE_AUTHENTICATED {
            Err(BleWireError::MalformedAuthenticatedFrame)
        } else if bytes::be_at(wire, 5, 13) != self.keys.session_id {
            Err(BleWireError::WrongSession)
        } else {
            match Lane::of_byte(wire[21]) {
                Err(error) => Err(error),
                Ok(lane) => {
                    let len = bytes::be_at(wire, 22, 24);
                    let signed = wire.subrange(0, AUTHENTICATED_HEADER_BYTES + len);
                    if len > self.max_payload_bytes {
                        Err(
                            BleWireError::PayloadTooLarge {
                                actual: len as usize,
                                maximum: self.max_payload_bytes,
                            },
                        )
                    } else if wire.len() != AUTHENTICATED_FRAME_OVERHEAD_BYTES + len {
                        Err(BleWireError::MalformedAuthenticatedFrame)
                    } else if wire.subrange(
                        AUTHENTICATED_HEADER_BYTES + len,
                        wire.len() as int,
                    ) != keys::frame_tag(self.keys.receive, self.keys.session_id, signed) {
                        Err(BleWireError::Session(SessionError::Authentication))
                    } else {
                        Ok(
                            MessageView {
                                lane,
                                sequence: bytes::be_at(wire, 13, 21) as u64,
                                payload: wire.subrange(
                                    AUTHENTICATED_HEADER_BYTES as int,
                                    AUTHENTICATED_HEADER_BYTES + len,
                                ),
                            },
                        )
                    }
                },
            }
        }
    }

    /// What a frame says to this end, or why it is refused.
    pub open spec fn receive_verdict(self, wire: Seq<u8>) -> Result<MessageView, BleWireError> {
        match self.authentic(wire) {
            Err(error) => Err(error),
            Ok(message) => match self.replay.verdict(message.sequence) {
                Err(error) => Err(BleWireError::Replay(error)),
                Ok(_) => Ok(message),
            },
        }
    }

    /// Whether `next` is this end once it was offered a frame: the number of a frame
    /// that it accepts is used up, and a frame that it refuses changes nothing.
    pub open spec fn offered(self, wire: Seq<u8>, next: CodecView) -> bool {
        match self.receive_verdict(wire) {
            Ok(message) => self.replay.advances_to(message.sequence, next.replay) && next == (
            CodecView { replay: next.replay, ..self }),
            Err(_) => next == self,
        }
    }
}

/// Stateful authenticated codec for one established BLE connection.
///
/// Sequence numbers and the replay window are directional. Create one codec
/// per connection and discard it on reconnect; never share one across peers.
pub struct SessionCodec {
    keys: SessionKeys,
    next_send_sequence: u64,
    receive_replay: ReplayWindow,
    max_payload_bytes: usize,
}

impl View for SessionCodec {
    type V = CodecView;

    closed spec fn view(&self) -> CodecView {
        CodecView {
            keys: self.keys@,
            next_send_sequence: self.next_send_sequence,
            replay: self.receive_replay,
            max_payload_bytes: self.max_payload_bytes,
        }
    }
}

impl SessionCodec {
    #[verifier::type_invariant]
    spec fn within_hard_limit(self) -> bool {
        self.max_payload_bytes <= HARD_MAX_PAYLOAD_BYTES
    }

    pub fn new(keys: SessionKeys, max_payload_bytes: usize) -> (result: Result<Self, BleWireError>)
        ensures
            match result {
                Ok(codec) => {
                    &&& max_payload_bytes <= HARD_MAX_PAYLOAD_BYTES
                    &&& codec@.keys == keys@
                    &&& codec@.next_send_sequence == 0
                    &&& codec@.replay.highest() is None
                    &&& codec@.max_payload_bytes == max_payload_bytes
                },
                Err(error) => max_payload_bytes > HARD_MAX_PAYLOAD_BYTES && error == (
                BleWireError::PayloadTooLarge {
                    actual: max_payload_bytes,
                    maximum: HARD_MAX_PAYLOAD_BYTES,
                }),
            },
            result is Ok <==> max_payload_bytes <= 65_495,
    {
        if max_payload_bytes > HARD_MAX_PAYLOAD_BYTES {
            return Err(
                BleWireError::PayloadTooLarge {
                    actual: max_payload_bytes,
                    maximum: HARD_MAX_PAYLOAD_BYTES,
                },
            );
        }
        Ok(
            SessionCodec {
                keys,
                next_send_sequence: 0,
                receive_replay: ReplayWindow::default(),
                max_payload_bytes,
            },
        )
    }

    pub fn session_id(&self) -> (session_id: u64)
        ensures
            session_id == self@.keys.session_id,
    {
        self.keys.session_id()
    }

    pub fn peer(&self) -> (peer: PeerIdentity)
        ensures
            peer@ == self@.keys.peer,
    {
        self.keys.peer()
    }

    pub fn max_payload_bytes(&self) -> (maximum: usize)
        ensures
            maximum == self@.max_payload_bytes,
            maximum <= HARD_MAX_PAYLOAD_BYTES,
    {
        proof {
            use_type_invariant(self);
        }
        self.max_payload_bytes
    }

    /// Reduce the accepted and emitted authenticated payload budget after the
    /// remote control profile is verified. The budget never grows.
    pub fn restrict_max_payload_bytes(&mut self, maximum: usize) -> (result: Result<
        (),
        BleWireError,
    >)
        ensures
            if 0 < maximum <= old(self)@.max_payload_bytes {
                result is Ok && final(self)@ == (CodecView {
                    max_payload_bytes: maximum,
                    ..old(self)@
                })
            } else {
                result == Err::<(), BleWireError>(
                    BleWireError::InvalidPayloadRestriction {
                        current: old(self)@.max_payload_bytes,
                        requested: maximum,
                    },
                ) && final(self)@ == old(self)@
            },
    {
        proof {
            use_type_invariant(&*self);
        }
        if maximum == 0 || maximum > self.max_payload_bytes {
            return Err(
                BleWireError::InvalidPayloadRestriction {
                    current: self.max_payload_bytes,
                    requested: maximum,
                },
            );
        }
        self.max_payload_bytes = maximum;
        Ok(())
    }

    pub fn encode(&mut self, lane: Lane, payload: &[u8]) -> (result: Result<Vec<u8>, BleWireError>)
        ensures
            match result {
                Ok(wire) => {
                    &&& old(self)@.send_verdict(payload@.len()) is Ok
                    &&& wire@ == frame(old(self)@.keys, old(self)@.next_message(lane, payload@))
                    &&& final(self)@ == (CodecView {
                        next_send_sequence: (old(self)@.next_send_sequence + 1) as u64,
                        ..old(self)@
                    })
                },
                Err(error) => old(self)@.send_verdict(payload@.len()) == Err::<(), BleWireError>(
                    error,
                ) && final(self)@ == old(self)@,
            },
    {
        match self.encode_with_sequence(lane, payload) {
            Ok(message) => Ok(message.wire),
            Err(error) => Err(error),
        }
    }

    /// Encode one authenticated message while retaining the sequence needed
    /// by repair FIN/ACK fencing. The sequence is carrier metadata and never
    /// enters repair-frame bytes.
    pub fn encode_with_sequence(&mut self, lane: Lane, payload: &[u8]) -> (result: Result<
        EncodedAuthenticatedMessage,
        BleWireError,
    >)
        ensures
            match result {
                Ok(message) => {
                    &&& old(self)@.send_verdict(payload@.len()) is Ok
                    &&& message.sequence == old(self)@.next_send_sequence
                    &&& message.wire@ == frame(
                        old(self)@.keys,
                        old(self)@.next_message(lane, payload@),
                    )
                    &&& final(self)@ == (CodecView {
                        next_send_sequence: (old(self)@.next_send_sequence + 1) as u64,
                        ..old(self)@
                    })
                },
                Err(error) => old(self)@.send_verdict(payload@.len()) == Err::<(), BleWireError>(
                    error,
                ) && final(self)@ == old(self)@,
            },
    {
        proof {
            use_type_invariant(&*self);
        }
        if payload.len() > self.max_payload_bytes {
            return Err(
                BleWireError::PayloadTooLarge {
                    actual: payload.len(),
                    maximum: self.max_payload_bytes,
                },
            );
        }
        let sequence: u64 = self.next_send_sequence;
        let next: u64 = match sequence.checked_add(1) {
            Some(next) => next,
            None => {
                return Err(BleWireError::SequenceExhausted);
            },
        };
        self.next_send_sequence = next;
        let mut wire: Vec<u8> = bytes::to_vec(&WIRE_MAGIC);
        wire.push(WIRE_AUTHENTICATED);
        bytes::push_be(&mut wire, self.keys.session_id(), 8);
        bytes::push_be(&mut wire, sequence, 8);
        wire.push(lane.to_byte());
        bytes::push_be(&mut wire, payload.len() as u64, 2);
        bytes::push_bytes(&mut wire, payload);
        proof {
            let message = old(self)@.next_message(lane, payload@);
            assert(wire@ =~= signed_part(old(self)@.keys.session_id, message));
        }
        let tag: [u8; TAG_BYTES] = self.keys.authenticate(wire.as_slice());
        bytes::push_bytes(&mut wire, &tag);
        Ok(EncodedAuthenticatedMessage { sequence, wire })
    }

    /// Accepts a frame exactly where it is made for this session and lane
    /// budget, carries the peer's tag over everything before the tag, and was
    /// not accepted before. A refused frame leaves the codec as it was.
    pub fn decode(&mut self, bytes: &[u8]) -> (result: Result<AuthenticatedMessage, BleWireError>)
        ensures
            match result {
                Ok(message) => {
                    &&& old(self)@.receive_verdict(bytes@) == Ok::<MessageView, BleWireError>(
                        message@,
                    )
                    &&& old(self)@.replay.advances_to(message.sequence, final(self)@.replay)
                    &&& final(self)@ == (CodecView { replay: final(self)@.replay, ..old(self)@ })
                },
                Err(error) => old(self)@.receive_verdict(bytes@) == Err::<
                    MessageView,
                    BleWireError,
                >(error) && final(self)@ == old(self)@,
            },
            old(self)@.offered(bytes@, final(self)@),
    {
        proof {
            use_type_invariant(&*self);
        }
        if bytes.len() < AUTHENTICATED_FRAME_OVERHEAD_BYTES || !bytes::begins_with(
            bytes,
            &WIRE_MAGIC,
        ) || bytes[4] != WIRE_AUTHENTICATED {
            return Err(BleWireError::MalformedAuthenticatedFrame);
        }
        let session_id: u64 = bytes::read_u64(bytes, 5);
        if session_id != self.keys.session_id() {
            return Err(BleWireError::WrongSession);
        }
        let sequence: u64 = bytes::read_u64(bytes, 13);
        let lane: Lane = match Lane::from_byte(bytes[21]) {
            Ok(lane) => lane,
            Err(error) => {
                return Err(error);
            },
        };
        let payload_len: usize = bytes::read_u16(bytes, 22) as usize;
        if payload_len > self.max_payload_bytes {
            return Err(
                BleWireError::PayloadTooLarge {
                    actual: payload_len,
                    maximum: self.max_payload_bytes,
                },
            );
        }
        let signed_len: usize = AUTHENTICATED_HEADER_BYTES + payload_len;
        if bytes.len() != signed_len + TAG_BYTES {
            return Err(BleWireError::MalformedAuthenticatedFrame);
        }
        match self.keys.verify(&bytes[0..signed_len], &bytes[signed_len..bytes.len()]) {
            Ok(_) => {},
            Err(error) => {
                return Err(BleWireError::Session(error));
            },
        }
        let mut replay: ReplayWindow = self.receive_replay;
        match replay.check_and_mark(sequence) {
            Ok(_) => {},
            Err(error) => {
                return Err(BleWireError::Replay(error));
            },
        }
        self.receive_replay = replay;
        let payload: Vec<u8> = bytes::to_vec(&bytes[AUTHENTICATED_HEADER_BYTES..signed_len]);
        Ok(AuthenticatedMessage { lane, sequence, payload })
    }
}

proof fn lemma_frame_fields(sender: KeysView, message: MessageView)
    requires
        message.payload.len() <= HARD_MAX_PAYLOAD_BYTES,
    ensures
        ({
            let wire = frame(sender, message);
            let n = message.payload.len() as int;
            &&& wire.len() == AUTHENTICATED_FRAME_OVERHEAD_BYTES + n
            &&& WIRE_MAGIC@.is_prefix_of(wire)
            &&& wire[4] == WIRE_AUTHENTICATED
            &&& bytes::be_at(wire, 5, 13) == sender.session_id
            &&& bytes::be_at(wire, 13, 21) == message.sequence
            &&& wire[21] == message.lane.byte()
            &&& bytes::be_at(wire, 22, 24) == n
            &&& wire.subrange(24, 24 + n) == message.payload
            &&& wire.subrange(0, 24 + n) == signed_part(sender.session_id, message)
            &&& wire.subrange(24 + n, wire.len() as int) == keys::frame_tag(
                sender.send,
                sender.session_id,
                signed_part(sender.session_id, message),
            )
        }),
{
    let wire = frame(sender, message);
    let n = message.payload.len();
    bytes::lemma_be_ranges();
    bytes::lemma_be_len(sender.session_id as nat, 8);
    bytes::lemma_be_len(message.sequence as nat, 8);
    bytes::lemma_be_len(n, 2);
    bytes::lemma_be_round_trip(sender.session_id as nat, 8);
    bytes::lemma_be_round_trip(message.sequence as nat, 8);
    bytes::lemma_be_round_trip(n, 2);
    assert(wire.subrange(0, 4) =~= WIRE_MAGIC@);
    assert(wire.subrange(5, 13) =~= bytes::be(sender.session_id as nat, 8));
    assert(wire.subrange(13, 21) =~= bytes::be(message.sequence as nat, 8));
    assert(wire.subrange(22, 24) =~= bytes::be(n, 2));
    assert(wire.subrange(24, 24 + n as int) =~= message.payload);
    assert(wire.subrange(0, 24 + n as int) =~= signed_part(sender.session_id, message));
    assert(wire.subrange(24 + n as int, wire.len() as int) =~= keys::frame_tag(
        sender.send,
        sender.session_id,
        signed_part(sender.session_id, message),
    ));
}

/// Whatever one end sends, the other end of the session receives: lane,
/// sequence and payload as they were sent, wherever the payload fits both
/// budgets and the number was not received before.
pub proof fn law_frames_round_trip(
    sender: CodecView,
    receiver: CodecView,
    lane: Lane,
    payload: Seq<u8>,
)
    requires
        sender.keys.mirrors(receiver.keys),
        sender.max_payload_bytes <= HARD_MAX_PAYLOAD_BYTES,
        sender.send_verdict(payload.len()) is Ok,
        payload.len() <= receiver.max_payload_bytes,
        receiver.replay.verdict(sender.next_send_sequence) is Ok,
    ensures
        receiver.receive_verdict(frame(sender.keys, sender.next_message(lane, payload))) == Ok::<
            MessageView,
            BleWireError,
        >(sender.next_message(lane, payload)),
{
    lemma_frame_fields(sender.keys, sender.next_message(lane, payload));
}

/// A frame that was accepted is refused when it comes again, however many
/// frames were accepted since.
pub proof fn law_replayed_frame_is_refused(
    receiver: CodecView,
    later: CodecView,
    wire: Seq<u8>,
    windows: Seq<ReplayWindow>,
    sequences: Seq<u64>,
)
    requires
        later.keys == receiver.keys,
        later.max_payload_bytes == receiver.max_payload_bytes,
        replay::window_run(windows, sequences),
        sequences.len() > 0,
        windows[0] == receiver.replay,
        windows.last() == later.replay,
    ensures
        receiver.receive_verdict(wire) is Ok && sequences[0] == receiver.receive_verdict(
            wire,
        )->Ok_0.sequence ==> (later.receive_verdict(wire) matches Err(BleWireError::Replay(_))),
{
    if receiver.receive_verdict(wire) is Ok && sequences[0] == receiver.receive_verdict(
        wire,
    )->Ok_0.sequence {
        assert(later.authentic(wire) == receiver.authentic(wire));
        replay::lemma_accepted_stays_refused(windows, sequences, 0, sequences.len() as int);
    }
}

/// The tag covers sequence, lane and payload: a frame that was altered in any of
/// these on its way is refused, unless the altered part happens to have the tag of
/// the genuine one. A forged frame uses up no number: whatever comes after it is
/// accepted or refused as if it had never come.
pub proof fn law_altered_frames_are_refused(
    sender: KeysView,
    receiver: CodecView,
    message: MessageView,
    altered: Seq<u8>,
    next: CodecView,
    later: Seq<u8>,
)
    requires
        sender.mirrors(receiver.keys),
        message.payload.len() <= HARD_MAX_PAYLOAD_BYTES,
        altered.len() == frame(sender, message).len(),
        forall|i: int|
            0 <= i < 13 || 22 <= i < 24 || AUTHENTICATED_HEADER_BYTES + message.payload.len() <= i
                < altered.len() ==> #[trigger] altered[i] == frame(sender, message)[i],
        keys::frame_tag(
            sender.send,
            sender.session_id,
            altered.subrange(0, AUTHENTICATED_HEADER_BYTES + message.payload.len()),
        ) != keys::frame_tag(
            sender.send,
            sender.session_id,
            signed_part(sender.session_id, message),
        ),
        receiver.offered(altered, next),
    ensures
        receiver.receive_verdict(altered) is Err,
        next == receiver,
        next.receive_verdict(later) == receiver.receive_verdict(later),
{
    lemma_frame_fields(sender, message);
    let wire = frame(sender, message);
    let n = message.payload.len() as int;
    assert(altered.subrange(0, 4) =~= wire.subrange(0, 4));
    assert(altered.subrange(5, 13) =~= wire.subrange(5, 13));
    assert(altered.subrange(22, 24) =~= wire.subrange(22, 24));
    assert(altered.subrange(24 + n, altered.len() as int) =~= wire.subrange(
        24 + n,
        wire.len() as int,
    ));
}

/// A frame of another session is refused.
pub proof fn law_other_sessions_are_refused(sender: KeysView, receiver: CodecView, message: MessageView)
    requires
        sender.session_id != receiver.keys.session_id,
        message.payload.len() <= HARD_MAX_PAYLOAD_BYTES,
    ensures
        receiver.receive_verdict(frame(sender, message)) == Err::<MessageView, BleWireError>(
            BleWireError::WrongSession,
        ),
{
    lemma_frame_fields(sender, message);
}

/// Lanes have the bytes under which peers know them, and no other byte is a lane.
pub proof fn law_lanes_have_fixed_bytes(lane: Lane, value: u8)
    ensures
        lane is Control <==> lane.byte() == 0,
        lane is Realtime <==> lane.byte() == 1,
        lane is HhhsRepair <==> lane.byte() == 2,
        Lane::of_byte(lane.byte()) == Ok::<Lane, BleWireError>(lane),
        value > 2 <==> Lane::of_byte(value) is Err,
        value > 2 ==> Lane::of_byte(value) == Err::<Lane, BleWireError>(
            BleWireError::UnknownLane(value),
        ),
{
}

/// Where every field of an authenticated frame stands, and what its tag is over.
pub proof fn law_frames_have_their_layout(sender: KeysView, message: MessageView)
    requires
        message.payload.len() <= 65_495,
    ensures
        ({
            let wire = frame(sender, message);
            let n = message.payload.len() as int;
            &&& wire.len() == 40 + n
            &&& wire.subrange(0, 5) == seq![0x54u8, 0x42, 0x4c, 0x31, 3]
            &&& bytes::be_at(wire, 5, 13) == sender.session_id
            &&& bytes::be_at(wire, 13, 21) == message.sequence
            &&& wire[21] == message.lane.byte()
            &&& bytes::be_at(wire, 22, 24) == n
            &&& wire.subrange(24, 24 + n) == message.payload
            &&& wire.subrange(24 + n, 40 + n) == keys::frame_tag(
                sender.send,
                sender.session_id,
                wire.subrange(0, 24 + n),
            )
        }),
{
    lemma_frame_fields(sender, message);
    let wire = frame(sender, message);
    assert(wire.subrange(0, 5) =~= seq![0x54u8, 0x42, 0x4c, 0x31, 3]);
}

/// A payload is refused where it is larger than the limit, and else where the last
/// number has been used. A message that is sent has the next number.
pub proof fn law_sending_uses_the_next_number(codec: CodecView, lane: Lane, payload: Seq<u8>)
    requires
        payload.len() <= usize::MAX,
    ensures
        codec.send_verdict(payload.len()) is Ok <==> payload.len() <= codec.max_payload_bytes
            && codec.next_send_sequence < u64::MAX,
        payload.len() > codec.max_payload_bytes ==> codec.send_verdict(payload.len()) == Err::<
            (),
            BleWireError,
        >(
            BleWireError::PayloadTooLarge {
                actual: payload.len() as usize,
                maximum: codec.max_payload_bytes,
            },
        ),
        payload.len() <= codec.max_payload_bytes && codec.next_send_sequence == u64::MAX
            ==> codec.send_verdict(payload.len()) == Err::<(), BleWireError>(
            BleWireError::SequenceExhausted,
        ),
        codec.next_message(lane, payload).sequence == codec.next_send_sequence,
        codec.next_message(lane, payload).lane == lane,
        codec.next_message(lane, payload).payload == payload,
{
}

/// What is received is taken exactly where it is an authenticated frame of this
/// session on a known lane, no larger than the limit, of the length that it states,
/// with the tag of the peer, and its number is new. The first of these that fails
/// names the refusal.
pub proof fn law_frames_are_checked(codec: CodecView, wire: Seq<u8>)
    ensures
        ({
            let len = bytes::be_at(wire, 22, 24) as int;
            let verdict = codec.receive_verdict(wire);
            let sequence = bytes::be_at(wire, 13, 21) as u64;
            if wire.len() < 40 || wire.subrange(0, 4) != seq![0x54u8, 0x42, 0x4c, 0x31] || wire[4]
                != 3 {
                verdict == Err::<MessageView, BleWireError>(
                    BleWireError::MalformedAuthenticatedFrame,
                )
            } else if bytes::be_at(wire, 5, 13) != codec.keys.session_id {
                verdict == Err::<MessageView, BleWireError>(BleWireError::WrongSession)
            } else if wire[21] > 2 {
                verdict == Err::<MessageView, BleWireError>(BleWireError::UnknownLane(wire[21]))
            } else if len > codec.max_payload_bytes {
                verdict == Err::<MessageView, BleWireError>(
                    BleWireError::PayloadTooLarge {
                        actual: len as usize,
                        maximum: codec.max_payload_bytes,
                    },
                )
            } else if wire.len() != 40 + len {
                verdict == Err::<MessageView, BleWireError>(
                    BleWireError::MalformedAuthenticatedFrame,
                )
            } else if wire.subrange(24 + len, 40 + len) != keys::frame_tag(
                codec.keys.receive,
                codec.keys.session_id,
                wire.subrange(0, 24 + len),
            ) {
                verdict == Err::<MessageView, BleWireError>(
                    BleWireError::Session(SessionError::Authentication),
                )
            } else if codec.replay.verdict(sequence) is Err {
                verdict == Err::<MessageView, BleWireError>(
                    BleWireError::Replay(codec.replay.verdict(sequence)->Err_0),
                )
            } else {
                &&& verdict is Ok
                &&& verdict->Ok_0.lane.byte() == wire[21]
                &&& verdict->Ok_0.sequence == sequence
                &&& verdict->Ok_0.payload == wire.subrange(24, 24 + len)
            }
        }),
{
    let magic = seq![0x54u8, 0x42, 0x4c, 0x31];
    assert(WIRE_MAGIC@ =~= magic);
    if wire.len() >= 40 {
        assert(WIRE_MAGIC@.is_prefix_of(wire) == (wire.subrange(0, 4) == magic));
    }
}

} // verus!
