//! The signed offer and answer that establish a session.
//!
//! An offer is `MAGIC`, its kind, the session id, the protocol, the channel
//! binding, the initiator's identity and ephemeral key, and a signature over
//! all of that. An answer repeats the layout for the responder, adds the digest
//! of the offer it answers, and is signed in turn.

use crate::bytes;
use crate::crypto;
use crate::session::error::SessionError;
use crate::session::identity;
use crate::session::identity::{
    ChannelBinding, EphemeralSecret, PeerIdentity, ProtocolId, SigningKey,
};
use crate::session::keys::{KeysView, SessionKeys};
use vstd::prelude::*;

verus! {

pub const OFFER_BYTES: usize = 4 + 1 + 8 + 32 + 32 + 32 + 32 + 64;

pub const ANSWER_BYTES: usize = 4 + 1 + 8 + 32 + 32 + 32 + 32 + 32 + 64;

pub const OFFER_KIND: u8 = 1;

pub const ANSWER_KIND: u8 = 2;

pub const KEY_DOMAIN: &'static str = "tutti authenticated session keys v1";

/// The bytes of `TSA1`.
pub const MAGIC: [u8; 4] = [
    0x54, 0x53, 0x41, 0x31,
];

/// The bytes of `tutti authenticated session offer v1\0`.
pub const OFFER_DOMAIN: [u8; 37] = [
    0x74, 0x75, 0x74, 0x74, 0x69, 0x20, 0x61, 0x75, 0x74, 0x68, 0x65, 0x6e,
    0x74, 0x69, 0x63, 0x61, 0x74, 0x65, 0x64, 0x20, 0x73, 0x65, 0x73, 0x73,
    0x69, 0x6f, 0x6e, 0x20, 0x6f, 0x66, 0x66, 0x65, 0x72, 0x20, 0x76, 0x31,
    0x00,
];

/// The bytes of `tutti authenticated session answer v1\0`.
pub const ANSWER_DOMAIN: [u8; 38] = [
    0x74, 0x75, 0x74, 0x74, 0x69, 0x20, 0x61, 0x75, 0x74, 0x68, 0x65, 0x6e,
    0x74, 0x69, 0x63, 0x61, 0x74, 0x65, 0x64, 0x20, 0x73, 0x65, 0x73, 0x73,
    0x69, 0x6f, 0x6e, 0x20, 0x61, 0x6e, 0x73, 0x77, 0x65, 0x72, 0x20, 0x76,
    0x31, 0x00,
];

/// The bytes of `initiator to responder`.
pub const INITIATOR_LABEL: [u8; 22] = [
    0x69, 0x6e, 0x69, 0x74, 0x69, 0x61, 0x74, 0x6f, 0x72, 0x20, 0x74, 0x6f,
    0x20, 0x72, 0x65, 0x73, 0x70, 0x6f, 0x6e, 0x64, 0x65, 0x72,
];

/// The bytes of `responder to initiator`.
pub const RESPONDER_LABEL: [u8; 22] = [
    0x72, 0x65, 0x73, 0x70, 0x6f, 0x6e, 0x64, 0x65, 0x72, 0x20, 0x74, 0x6f,
    0x20, 0x69, 0x6e, 0x69, 0x74, 0x69, 0x61, 0x74, 0x6f, 0x72,
];

/// The fields that offers and answers share, in the order in which they are
/// sent.
pub open spec fn head(
    kind: u8,
    session_id: u64,
    protocol: Seq<u8>,
    binding: Seq<u8>,
    identity: Seq<u8>,
    ephemeral: Seq<u8>,
) -> Seq<u8> {
    MAGIC@ + seq![kind] + bytes::be(session_id as nat, 8) + protocol + binding + identity
        + ephemeral
}

/// Whether `message` has the length, the magic and the kind of its sort.
pub open spec fn framed(message: Seq<u8>, kind: u8, len: nat) -> bool {
    &&& message.len() == len
    &&& message.subrange(0, 4) == MAGIC@
    &&& message[4] == kind
}

pub open spec fn session_id_of(message: Seq<u8>) -> nat {
    bytes::be_at(message, 5, 13)
}

pub open spec fn protocol_of(message: Seq<u8>) -> Seq<u8> {
    message.subrange(13, 45)
}

pub open spec fn binding_of(message: Seq<u8>) -> Seq<u8> {
    message.subrange(45, 77)
}

pub open spec fn identity_of(message: Seq<u8>) -> Seq<u8> {
    message.subrange(77, 109)
}

pub open spec fn ephemeral_of(message: Seq<u8>) -> Seq<u8> {
    message.subrange(109, 141)
}

/// The digest that the signature of an offer covers.
pub open spec fn offer_digest(offer: Seq<u8>) -> Seq<u8> {
    crypto::blake3_hash(OFFER_DOMAIN@ + offer.subrange(0, 141))
}

pub open spec fn offer_signature(offer: Seq<u8>) -> Seq<u8> {
    offer.subrange(141, 205)
}

/// The digest of the offer that an answer says it answers.
pub open spec fn answered_digest(answer: Seq<u8>) -> Seq<u8> {
    answer.subrange(141, 173)
}

/// The digest that the signature of an answer covers.
pub open spec fn answer_digest(answer: Seq<u8>) -> Seq<u8> {
    crypto::blake3_hash(ANSWER_DOMAIN@ + answer.subrange(0, 173))
}

pub open spec fn answer_signature(answer: Seq<u8>) -> Seq<u8> {
    answer.subrange(173, 237)
}

/// The verdict on a signature, from what the verifying key says of it.
pub open spec fn signature_verdict(key_valid: bool, accepted: bool) -> Result<(), SessionError> {
    if !key_valid {
        Err(SessionError::InvalidIdentity)
    } else if !accepted {
        Err(SessionError::Authentication)
    } else {
        Ok(())
    }
}

/// The verdict on an offer in a protocol and on a channel.
pub open spec fn offer_verdict(
    offer: Seq<u8>,
    protocol: Seq<u8>,
    binding: Seq<u8>,
) -> Result<(), SessionError> {
    if protocol_of(offer) != protocol {
        Err(SessionError::WrongProtocol)
    } else if binding_of(offer) != binding {
        Err(SessionError::WrongChannelBinding)
    } else {
        signature_verdict(
            crypto::ed25519_key_valid(identity_of(offer)),
            crypto::ed25519_accepts(
                identity_of(offer),
                offer_digest(offer),
                offer_signature(offer),
            ),
        )
    }
}

/// The verdict on the signature of an answer.
pub open spec fn answer_verdict(answer: Seq<u8>) -> Result<(), SessionError> {
    signature_verdict(
        crypto::ed25519_key_valid(identity_of(answer)),
        crypto::ed25519_accepts(
            identity_of(answer),
            answer_digest(answer),
            answer_signature(answer),
        ),
    )
}

/// The unsigned part of the offer that the holder of `seed` makes.
pub open spec fn offer_body(
    seed: Seq<u8>,
    protocol: Seq<u8>,
    binding: Seq<u8>,
    session_id: u64,
    secret: Seq<u8>,
) -> Seq<u8> {
    head(
        OFFER_KIND,
        session_id,
        protocol,
        binding,
        crypto::ed25519_public(seed),
        crypto::x25519_public(secret),
    )
}

/// The offer that the holder of `seed` makes.
pub open spec fn signed_offer(
    seed: Seq<u8>,
    protocol: Seq<u8>,
    binding: Seq<u8>,
    session_id: u64,
    secret: Seq<u8>,
) -> Seq<u8> {
    let body = offer_body(seed, protocol, binding, session_id, secret);
    body + crypto::ed25519_signature(seed, crypto::blake3_hash(OFFER_DOMAIN@ + body))
}

/// The unsigned part of the answer that the holder of `seed` gives to `offer`.
pub open spec fn answer_body(offer: Seq<u8>, seed: Seq<u8>, secret: Seq<u8>) -> Seq<u8> {
    head(
        ANSWER_KIND,
        session_id_of(offer) as u64,
        protocol_of(offer),
        binding_of(offer),
        crypto::ed25519_public(seed),
        crypto::x25519_public(secret),
    ) + offer_digest(offer)
}

/// The answer that the holder of `seed` gives to `offer`.
pub open spec fn signed_answer(offer: Seq<u8>, seed: Seq<u8>, secret: Seq<u8>) -> Seq<u8> {
    let body = answer_body(offer, seed, secret);
    body + crypto::ed25519_signature(seed, crypto::blake3_hash(ANSWER_DOMAIN@ + body))
}

/// What the session keys are derived from.
pub open spec fn key_material(offer: Seq<u8>, answer: Seq<u8>, shared: Seq<u8>) -> Seq<u8> {
    shared + offer_digest(offer) + answer_digest(answer) + bytes::be(session_id_of(offer), 8)
}

/// The key from which both directions are derived.
pub open spec fn master_key(offer: Seq<u8>, answer: Seq<u8>, shared: Seq<u8>) -> Seq<u8> {
    crypto::blake3_derive_key(KEY_DOMAIN@, key_material(offer, answer, shared))
}

/// Which end of the handshake a peer is.
#[derive(Clone, Copy, PartialEq, Eq, Debug, Structural)]
pub enum Role {
    Initiator,
    Responder,
}

/// The keys that an end holds, given the key of each direction.
pub open spec fn keys_for(
    role: Role,
    session_id: u64,
    initiator: Seq<u8>,
    responder: Seq<u8>,
    initiator_send: Seq<u8>,
    responder_send: Seq<u8>,
) -> KeysView {
    match role {
        Role::Initiator => KeysView {
            session_id,
            peer: responder,
            send: initiator_send,
            receive: responder_send,
        },
        Role::Responder => KeysView {
            session_id,
            peer: initiator,
            send: responder_send,
            receive: initiator_send,
        },
    }
}

/// The keys that an end derives from the transcript and the shared secret.
pub open spec fn derived_keys(
    role: Role,
    offer: Seq<u8>,
    answer: Seq<u8>,
    shared: Seq<u8>,
) -> KeysView {
    let master = master_key(offer, answer, shared);
    keys_for(
        role,
        session_id_of(offer) as u64,
        identity_of(offer),
        identity_of(answer),
        crypto::blake3_keyed_hash(master, INITIATOR_LABEL@),
        crypto::blake3_keyed_hash(master, RESPONDER_LABEL@),
    )
}

/// What comes of answering `offer`: the answer and the responder's keys.
pub open spec fn response(offer: Seq<u8>, seed: Seq<u8>, secret: Seq<u8>) -> Result<
    (Seq<u8>, KeysView),
    SessionError,
> {
    match identity::agreement(crypto::x25519_shared(secret, ephemeral_of(offer))) {
        Err(error) => Err(error),
        Ok(shared) => {
            let answer = signed_answer(offer, seed, secret);
            Ok((answer, derived_keys(Role::Responder, offer, answer, shared)))
        },
    }
}

/// Whether the answer is one to this offer.
pub open spec fn answers(answer: Seq<u8>, offer: Seq<u8>) -> bool {
    &&& session_id_of(answer) == session_id_of(offer)
    &&& protocol_of(answer) == protocol_of(offer)
    &&& binding_of(answer) == binding_of(offer)
    &&& answered_digest(answer) == offer_digest(offer)
}

/// What comes of receiving `answer` to `offer` from the expected peer.
pub open spec fn completion(
    offer: Seq<u8>,
    secret: Seq<u8>,
    answer: Seq<u8>,
    expected_peer: Seq<u8>,
) -> Result<KeysView, SessionError> {
    if !framed(answer, ANSWER_KIND, ANSWER_BYTES as nat) {
        Err(SessionError::Malformed)
    } else if !answers(answer, offer) {
        Err(SessionError::TranscriptMismatch)
    } else if identity_of(answer) != expected_peer {
        Err(SessionError::UnexpectedPeer)
    } else {
        match answer_verdict(answer) {
            Err(error) => Err(error),
            Ok(_) => match identity::agreement(
                crypto::x25519_shared(secret, ephemeral_of(answer)),
            ) {
                Err(error) => Err(error),
                Ok(shared) => Ok(derived_keys(Role::Initiator, offer, answer, shared)),
            },
        }
    }
}

/// The fields of a message that begins with [`head`].
pub proof fn lemma_head_fields(
    kind: u8,
    session_id: u64,
    protocol: Seq<u8>,
    binding: Seq<u8>,
    identity: Seq<u8>,
    ephemeral: Seq<u8>,
    rest: Seq<u8>,
)
    requires
        protocol.len() == 32,
        binding.len() == 32,
        identity.len() == 32,
        ephemeral.len() == 32,
    ensures
        head(kind, session_id, protocol, binding, identity, ephemeral).len() == 141,
        ({
            let body = head(kind, session_id, protocol, binding, identity, ephemeral);
            let message = body + rest;
            &&& framed(message, kind, 141 + rest.len())
            &&& session_id_of(message) == session_id
            &&& protocol_of(message) == protocol
            &&& binding_of(message) == binding
            &&& identity_of(message) == identity
            &&& ephemeral_of(message) == ephemeral
            &&& message.subrange(0, 141) == body
            &&& message.subrange(141, message.len() as int) == rest
        }),
{
    let id = bytes::be(session_id as nat, 8);
    bytes::lemma_be_len(session_id as nat, 8);
    bytes::lemma_be_ranges();
    bytes::lemma_be_round_trip(session_id as nat, 8);
    let body = head(kind, session_id, protocol, binding, identity, ephemeral);
    let message = body + rest;
    assert(message.subrange(0, 4) =~= MAGIC@);
    assert(message[4] == kind);
    assert(message.subrange(5, 13) =~= id);
    assert(message.subrange(13, 45) =~= protocol);
    assert(message.subrange(45, 77) =~= binding);
    assert(message.subrange(77, 109) =~= identity);
    assert(message.subrange(109, 141) =~= ephemeral);
    assert(message.subrange(0, 141) =~= body);
    assert(message.subrange(141, message.len() as int) =~= rest);
}

fn encode_head(
    kind: u8,
    session_id: u64,
    protocol: &[u8; 32],
    binding: &[u8; 32],
    identity: &[u8; 32],
    ephemeral: &[u8; 32],
) -> (out: Vec<u8>)
    ensures
        out@ == head(kind, session_id, protocol@, binding@, identity@, ephemeral@),
        out@.len() == 141,
{
    let mut out: Vec<u8> = bytes::to_vec(&MAGIC);
    out.push(kind);
    bytes::push_be(&mut out, session_id, 8);
    bytes::push_bytes(&mut out, protocol);
    bytes::push_bytes(&mut out, binding);
    bytes::push_bytes(&mut out, identity);
    bytes::push_bytes(&mut out, ephemeral);
    proof {
        bytes::lemma_be_len(session_id as nat, 8);
        assert(out@ =~= head(kind, session_id, protocol@, binding@, identity@, ephemeral@));
    }
    out
}

fn is_framed(message: &[u8], kind: u8, len: usize) -> (r: bool)
    requires
        len > 4,
    ensures
        r == framed(message@, kind, len as nat),
{
    message.len() == len && bytes::same_bytes(&message[0..4], &MAGIC) && message[4] == kind
}

/// The digest of a message body in a domain.
fn domain_digest(domain: &[u8], body: &[u8]) -> (digest: [u8; 32])
    ensures
        digest@ == crypto::blake3_hash(domain@ + body@),
{
    let mut input: Vec<u8> = bytes::to_vec(domain);
    bytes::push_bytes(&mut input, body);
    crypto::hash(input.as_slice())
}

/// Judges a signature from what the verifying key says of it.
pub fn judge_signature(key_valid: bool, accepted: bool) -> (verdict: Result<(), SessionError>)
    ensures
        verdict == signature_verdict(key_valid, accepted),
{
    if !key_valid {
        return Err(SessionError::InvalidIdentity);
    }
    if !accepted {
        return Err(SessionError::Authentication);
    }
    Ok(())
}

fn verify_signature(key: &[u8; 32], digest: &[u8; 32], signature: &[u8; 64]) -> (verdict: Result<
    (),
    SessionError,
>)
    ensures
        verdict == signature_verdict(
            crypto::ed25519_key_valid(key@),
            crypto::ed25519_accepts(key@, digest@, signature@),
        ),
{
    judge_signature(
        crypto::verifying_key_valid(key),
        crypto::verify_strict(key, digest, signature),
    )
}

/// The keys of one end, given the key of each direction.
pub fn assign_keys(
    role: Role,
    session_id: u64,
    initiator: PeerIdentity,
    responder: PeerIdentity,
    initiator_send: [u8; 32],
    responder_send: [u8; 32],
) -> (keys: SessionKeys)
    ensures
        keys@ == keys_for(
            role,
            session_id,
            initiator@,
            responder@,
            initiator_send@,
            responder_send@,
        ),
{
    match role {
        Role::Initiator => SessionKeys::from_parts(
            session_id,
            responder,
            initiator_send,
            responder_send,
        ),
        Role::Responder => SessionKeys::from_parts(
            session_id,
            initiator,
            responder_send,
            initiator_send,
        ),
    }
}

/// The material that the session keys are derived from.
pub fn encode_key_material(
    shared: &[u8; 32],
    offer_digest: &[u8; 32],
    answer_digest: &[u8; 32],
    session_id: u64,
) -> (material: Vec<u8>)
    ensures
        material@ == shared@ + offer_digest@ + answer_digest@ + bytes::be(session_id as nat, 8),
{
    let mut material: Vec<u8> = bytes::to_vec(shared);
    bytes::push_bytes(&mut material, offer_digest);
    bytes::push_bytes(&mut material, answer_digest);
    bytes::push_be(&mut material, session_id, 8);
    material
}

fn derive_keys(role: Role, shared: [u8; 32], offer: &Offer, answer: &Answer) -> (keys: SessionKeys)
    ensures
        keys@ == derived_keys(role, offer@, answer@, shared@),
{
    let session_id: u64 = offer.session_id();
    let material: Vec<u8> = encode_key_material(
        &shared,
        &offer.digest(),
        &answer.digest(),
        session_id,
    );
    let master: [u8; 32] = crypto::derive_key(KEY_DOMAIN, material.as_slice());
    let initiator_send: [u8; 32] = crypto::keyed_hash(&master, &INITIATOR_LABEL);
    let responder_send: [u8; 32] = crypto::keyed_hash(&master, &RESPONDER_LABEL);
    assign_keys(
        role,
        session_id,
        offer.identity(),
        answer.identity(),
        initiator_send,
        responder_send,
    )
}

/// A signed session offer.
#[derive(PartialEq, Eq)]
pub struct Offer([u8; OFFER_BYTES]);

impl View for Offer {
    type V = Seq<u8>;

    closed spec fn view(&self) -> Seq<u8> {
        self.0@
    }
}

impl Offer {
    #[verifier::type_invariant]
    spec fn well_framed(self) -> bool {
        framed(self.0@, OFFER_KIND, OFFER_BYTES as nat)
    }

    /// Accepts every message with the frame of an offer, as it stands.
    pub fn decode(bytes: &[u8]) -> (result: Result<Self, SessionError>)
        ensures
            match result {
                Ok(offer) => framed(bytes@, OFFER_KIND, OFFER_BYTES as nat) && offer@ == bytes@,
                Err(error) => !framed(bytes@, OFFER_KIND, OFFER_BYTES as nat) && error
                    == SessionError::Malformed,
            },
    {
        if !is_framed(bytes, OFFER_KIND, OFFER_BYTES) {
            return Err(SessionError::Malformed);
        }
        Ok(Offer(bytes::to_array::<OFFER_BYTES>(bytes)))
    }

    pub fn as_bytes(&self) -> (bytes: &[u8; OFFER_BYTES])
        ensures
            bytes@ == self@,
            framed(bytes@, OFFER_KIND, OFFER_BYTES as nat),
    {
        proof {
            use_type_invariant(self);
        }
        &self.0
    }

    pub fn session_id(&self) -> (session_id: u64)
        ensures
            session_id == session_id_of(self@),
    {
        bytes::read_u64(&self.0, 5)
    }

    pub fn protocol(&self) -> (protocol: ProtocolId)
        ensures
            protocol@ == protocol_of(self@),
    {
        ProtocolId::from_bytes(bytes::array_at::<32>(&self.0, 13))
    }

    pub fn channel_binding(&self) -> (binding: ChannelBinding)
        ensures
            binding@ == binding_of(self@),
    {
        ChannelBinding::from_bytes(bytes::array_at::<32>(&self.0, 45))
    }

    pub fn identity(&self) -> (identity: PeerIdentity)
        ensures
            identity@ == identity_of(self@),
    {
        PeerIdentity::from_bytes(bytes::array_at::<32>(&self.0, 77))
    }

    fn ephemeral_public(&self) -> (point: [u8; 32])
        ensures
            point@ == ephemeral_of(self@),
    {
        bytes::array_at::<32>(&self.0, 109)
    }

    fn digest(&self) -> (digest: [u8; 32])
        ensures
            digest@ == offer_digest(self@),
    {
        domain_digest(&OFFER_DOMAIN, &self.0[0..141])
    }

    /// Accepts the offer exactly where it is made in this protocol, on this
    /// channel, and signed by the identity that it names.
    pub fn verify(self, protocol: ProtocolId, binding: ChannelBinding) -> (result: Result<
        VerifiedOffer,
        SessionError,
    >)
        ensures
            match result {
                Ok(verified) => offer_verdict(self@, protocol@, binding@) is Ok && verified@
                    == self@,
                Err(error) => offer_verdict(self@, protocol@, binding@) == Err::<(), SessionError>(
                    error,
                ),
            },
    {
        let named: ProtocolId = self.protocol();
        if named != protocol {
            proof {
                if named@ == protocol@ {
                    ProtocolId::lemma_extensional(named, protocol);
                }
            }
            return Err(SessionError::WrongProtocol);
        }
        let bound: ChannelBinding = self.channel_binding();
        if bound != binding {
            proof {
                if bound@ == binding@ {
                    ChannelBinding::lemma_extensional(bound, binding);
                }
            }
            return Err(SessionError::WrongChannelBinding);
        }
        let signature: [u8; 64] = bytes::array_at::<64>(&self.0, 141);
        match verify_signature(self.identity().as_bytes(), &self.digest(), &signature) {
            Err(error) => Err(error),
            Ok(_) => Ok(VerifiedOffer { offer: self }),
        }
    }
}

impl Clone for Offer {
    fn clone(&self) -> (offer: Self)
        ensures
            offer == *self,
    {
        proof {
            use_type_invariant(self);
        }
        Offer(self.0)
    }
}

/// The initiator's side of a handshake that awaits its answer.
pub struct PendingInitiator {
    offer: Offer,
    secret: EphemeralSecret,
}

impl PendingInitiator {
    pub closed spec fn offer(self) -> Seq<u8> {
        self.offer@
    }

    pub closed spec fn secret(self) -> Seq<u8> {
        self.secret@
    }

    #[verifier::type_invariant]
    spec fn offers_its_secret(self) -> bool {
        ephemeral_of(self.offer@) == crypto::x25519_public(self.secret@)
    }

    /// Makes the offer. Its own verifier accepts it, unless the signature is
    /// degenerate.
    pub fn begin(
        identity: &SigningKey,
        protocol: ProtocolId,
        binding: ChannelBinding,
        session_id: u64,
        secret: EphemeralSecret,
    ) -> (started: (Self, Offer))
        ensures
            started.1@ == signed_offer(identity@, protocol@, binding@, session_id, secret@),
            started.0.offer() == started.1@,
            started.0.secret() == secret@,
            offer_verdict(started.1@, protocol@, binding@) is Ok || crypto::ed25519_degenerate(
                offer_signature(started.1@),
            ),
    {
        let public: PeerIdentity = PeerIdentity::from_signing_key(identity);
        let ephemeral: [u8; 32] = secret.public();
        let mut out: Vec<u8> = encode_head(
            OFFER_KIND,
            session_id,
            protocol.as_bytes(),
            binding.as_bytes(),
            public.as_bytes(),
            &ephemeral,
        );
        let digest: [u8; 32] = domain_digest(&OFFER_DOMAIN, out.as_slice());
        let signature: [u8; 64] = identity.sign(&digest);
        bytes::push_bytes(&mut out, &signature);
        proof {
            protocol.lemma_len();
            binding.lemma_len();
            lemma_head_fields(
                OFFER_KIND,
                session_id,
                protocol@,
                binding@,
                public@,
                ephemeral@,
                signature@,
            );
        }
        let offer = Offer(bytes::to_array::<OFFER_BYTES>(out.as_slice()));
        (PendingInitiator { offer: offer.clone(), secret }, offer)
    }

    /// Accepts the answer exactly where it answers this offer, comes from the
    /// expected peer and is signed by it, and derives the initiator's keys. Of
    /// an answer whose sender knows the secret behind its ephemeral key, the
    /// shared secret is the one that its sender computed.
    pub fn complete(self, answer_bytes: &[u8], expected_peer: PeerIdentity) -> (result: Result<
        SessionKeys,
        SessionError,
    >)
        ensures
            match result {
                Ok(keys) => completion(
                    self.offer(),
                    self.secret(),
                    answer_bytes@,
                    expected_peer@,
                ) == Ok::<KeysView, SessionError>(keys@),
                Err(error) => completion(
                    self.offer(),
                    self.secret(),
                    answer_bytes@,
                    expected_peer@,
                ) == Err::<KeysView, SessionError>(error),
            },
            result is Ok ==> forall|peer: Seq<u8>|
                peer.len() == 32 && #[trigger] crypto::x25519_public(peer) == ephemeral_of(
                    answer_bytes@,
                ) ==> crypto::x25519_shared(self.secret(), crypto::x25519_public(peer))
                    == crypto::x25519_shared(peer, ephemeral_of(self.offer())),
    {
        proof {
            use_type_invariant(&self);
        }
        let answer: Answer = match Answer::decode(answer_bytes) {
            Ok(answer) => answer,
            Err(error) => {
                return Err(error);
            },
        };
        if !answer.answers(&self.offer) {
            return Err(SessionError::TranscriptMismatch);
        }
        let peer: PeerIdentity = answer.identity();
        if peer != expected_peer {
            proof {
                if peer@ == expected_peer@ {
                    PeerIdentity::lemma_extensional(peer, expected_peer);
                }
            }
            return Err(SessionError::UnexpectedPeer);
        }
        match answer.verify() {
            Ok(_) => {},
            Err(error) => {
                return Err(error);
            },
        }
        let shared: [u8; 32] = match self.secret.agree(answer.ephemeral_public()) {
            Ok(shared) => shared,
            Err(error) => {
                return Err(error);
            },
        };
        Ok(derive_keys(Role::Initiator, shared, &self.offer, &answer))
    }
}

/// An offer whose signature, protocol and channel were checked.
pub struct VerifiedOffer {
    offer: Offer,
}

impl View for VerifiedOffer {
    type V = Seq<u8>;

    closed spec fn view(&self) -> Seq<u8> {
        self.offer@
    }
}

impl VerifiedOffer {
    pub fn identity(&self) -> (identity: PeerIdentity)
        ensures
            identity@ == identity_of(self@),
    {
        self.offer.identity()
    }

    pub fn session_id(&self) -> (session_id: u64)
        ensures
            session_id == session_id_of(self@),
    {
        self.offer.session_id()
    }

    /// Answers the offer and derives the responder's keys, unless the
    /// initiator's ephemeral key admits no agreement. The initiator accepts the
    /// answer's signature, unless it is degenerate.
    pub fn respond(self, identity: &SigningKey, secret: EphemeralSecret) -> (result: Result<
        (Answer, SessionKeys),
        SessionError,
    >)
        ensures
            match result {
                Ok((answer, keys)) => response(self@, identity@, secret@) == Ok::<
                    (Seq<u8>, KeysView),
                    SessionError,
                >((answer@, keys@)) && (answer_verdict(answer@) is Ok
                    || crypto::ed25519_degenerate(answer_signature(answer@))),
                Err(error) => response(self@, identity@, secret@) == Err::<
                    (Seq<u8>, KeysView),
                    SessionError,
                >(error),
            },
    {
        let protocol: ProtocolId = self.offer.protocol();
        let binding: ChannelBinding = self.offer.channel_binding();
        let public: PeerIdentity = PeerIdentity::from_signing_key(identity);
        let ephemeral: [u8; 32] = secret.public();
        let offer_digest: [u8; 32] = self.offer.digest();
        let session_id: u64 = self.offer.session_id();
        let mut out: Vec<u8> = encode_head(
            ANSWER_KIND,
            session_id,
            protocol.as_bytes(),
            binding.as_bytes(),
            public.as_bytes(),
            &ephemeral,
        );
        bytes::push_bytes(&mut out, &offer_digest);
        let digest: [u8; 32] = domain_digest(&ANSWER_DOMAIN, out.as_slice());
        let signature: [u8; 64] = identity.sign(&digest);
        bytes::push_bytes(&mut out, &signature);
        proof {
            lemma_answer_fields(
                session_id,
                protocol@,
                binding@,
                public@,
                ephemeral@,
                offer_digest@,
                signature@,
            );
        }
        let answer = Answer(bytes::to_array::<ANSWER_BYTES>(out.as_slice()));
        let shared: [u8; 32] = match secret.agree(self.offer.ephemeral_public()) {
            Ok(shared) => shared,
            Err(error) => {
                return Err(error);
            },
        };
        let keys: SessionKeys = derive_keys(Role::Responder, shared, &self.offer, &answer);
        Ok((answer, keys))
    }
}

/// The fields of an answer.
pub proof fn lemma_answer_fields(
    session_id: u64,
    protocol: Seq<u8>,
    binding: Seq<u8>,
    identity: Seq<u8>,
    ephemeral: Seq<u8>,
    digest: Seq<u8>,
    signature: Seq<u8>,
)
    requires
        protocol.len() == 32,
        binding.len() == 32,
        identity.len() == 32,
        ephemeral.len() == 32,
        digest.len() == 32,
        signature.len() == 64,
    ensures
        ({
            let body = head(ANSWER_KIND, session_id, protocol, binding, identity, ephemeral)
                + digest;
            let answer = body + signature;
            &&& framed(answer, ANSWER_KIND, ANSWER_BYTES as nat)
            &&& session_id_of(answer) == session_id
            &&& protocol_of(answer) == protocol
            &&& binding_of(answer) == binding
            &&& identity_of(answer) == identity
            &&& ephemeral_of(answer) == ephemeral
            &&& answered_digest(answer) == digest
            &&& answer.subrange(0, 173) == body
            &&& answer_signature(answer) == signature
        }),
{
    let first = head(ANSWER_KIND, session_id, protocol, binding, identity, ephemeral);
    let answer = first + digest + signature;
    lemma_head_fields(
        ANSWER_KIND,
        session_id,
        protocol,
        binding,
        identity,
        ephemeral,
        digest + signature,
    );
    assert(answer =~= first + (digest + signature));
    assert(answer.subrange(141, 173) =~= digest);
    assert(answer.subrange(0, 173) =~= first + digest);
    assert(answer.subrange(173, 237) =~= signature);
}

/// A signed session answer.
#[derive(PartialEq, Eq)]
pub struct Answer([u8; ANSWER_BYTES]);

impl View for Answer {
    type V = Seq<u8>;

    closed spec fn view(&self) -> Seq<u8> {
        self.0@
    }
}

impl Answer {
    #[verifier::type_invariant]
    spec fn well_framed(self) -> bool {
        framed(self.0@, ANSWER_KIND, ANSWER_BYTES as nat)
    }

    /// Accepts every message with the frame of an answer, as it stands.
    pub fn decode(bytes: &[u8]) -> (result: Result<Self, SessionError>)
        ensures
            match result {
                Ok(answer) => framed(bytes@, ANSWER_KIND, ANSWER_BYTES as nat) && answer@
                    == bytes@,
                Err(error) => !framed(bytes@, ANSWER_KIND, ANSWER_BYTES as nat) && error
                    == SessionError::Malformed,
            },
    {
        if !is_framed(bytes, ANSWER_KIND, ANSWER_BYTES) {
            return Err(SessionError::Malformed);
        }
        Ok(Answer(bytes::to_array::<ANSWER_BYTES>(bytes)))
    }

    pub fn as_bytes(&self) -> (bytes: &[u8; ANSWER_BYTES])
        ensures
            bytes@ == self@,
            framed(bytes@, ANSWER_KIND, ANSWER_BYTES as nat),
    {
        proof {
            use_type_invariant(self);
        }
        &self.0
    }

    pub fn session_id(&self) -> (session_id: u64)
        ensures
            session_id == session_id_of(self@),
    {
        bytes::read_u64(&self.0, 5)
    }

    pub fn protocol(&self) -> (protocol: ProtocolId)
        ensures
            protocol@ == protocol_of(self@),
    {
        ProtocolId::from_bytes(bytes::array_at::<32>(&self.0, 13))
    }

    pub fn channel_binding(&self) -> (binding: ChannelBinding)
        ensures
            binding@ == binding_of(self@),
    {
        ChannelBinding::from_bytes(bytes::array_at::<32>(&self.0, 45))
    }

    pub fn identity(&self) -> (identity: PeerIdentity)
        ensures
            identity@ == identity_of(self@),
    {
        PeerIdentity::from_bytes(bytes::array_at::<32>(&self.0, 77))
    }

    fn ephemeral_public(&self) -> (point: [u8; 32])
        ensures
            point@ == ephemeral_of(self@),
    {
        bytes::array_at::<32>(&self.0, 109)
    }

    fn digest(&self) -> (digest: [u8; 32])
        ensures
            digest@ == answer_digest(self@),
    {
        domain_digest(&ANSWER_DOMAIN, &self.0[0..173])
    }

    fn answers(&self, offer: &Offer) -> (r: bool)
        ensures
            r == answers(self@, offer@),
    {
        let digest: [u8; 32] = offer.digest();
        self.session_id() == offer.session_id() && bytes::same_bytes(
            &self.0[13..45],
            &offer.0[13..45],
        ) && bytes::same_bytes(&self.0[45..77], &offer.0[45..77]) && bytes::same_bytes(
            &self.0[141..173],
            &digest,
        )
    }

    fn verify(&self) -> (verdict: Result<(), SessionError>)
        ensures
            verdict == answer_verdict(self@),
    {
        let signature: [u8; 64] = bytes::array_at::<64>(&self.0, 173);
        verify_signature(self.identity().as_bytes(), &self.digest(), &signature)
    }
}

impl Clone for Answer {
    fn clone(&self) -> (answer: Self)
        ensures
            answer == *self,
    {
        proof {
            use_type_invariant(self);
        }
        Answer(self.0)
    }
}

/// The two ends of a completed handshake hold mirrored keys and know each
/// other: wherever the responder answered an offer with what the initiator then
/// completed, and both computed the same shared secret.
pub proof fn law_handshake_mirrors_keys(
    offer: Seq<u8>,
    secret: Seq<u8>,
    answer: Seq<u8>,
    expected_peer: Seq<u8>,
    peer_seed: Seq<u8>,
    peer_secret: Seq<u8>,
)
    ensures
        ({
            let completed = completion(offer, secret, answer, expected_peer);
            let responded = response(offer, peer_seed, peer_secret);
            completed is Ok && responded is Ok && responded->Ok_0.0 == answer
                && crypto::x25519_shared(secret, ephemeral_of(answer)) == crypto::x25519_shared(
                peer_secret,
                ephemeral_of(offer),
            ) ==> {
                &&& completed->Ok_0.mirrors(responded->Ok_0.1)
                &&& completed->Ok_0.peer == expected_peer
                &&& responded->Ok_0.1.peer == identity_of(offer)
            }
        }),
{
}

/// An honest answer completes the handshake: the initiator accepts what the
/// responder sends back, wherever it expects that responder, its signature is
/// accepted, and both compute the same shared secret.
pub proof fn law_honest_answer_completes(
    offer: Seq<u8>,
    secret: Seq<u8>,
    peer_seed: Seq<u8>,
    peer_secret: Seq<u8>,
)
    requires
        offer.len() == OFFER_BYTES,
    ensures
        ({
            let responded = response(offer, peer_seed, peer_secret);
            let completed = completion(
                offer,
                secret,
                responded->Ok_0.0,
                crypto::ed25519_public(peer_seed),
            );
            responded is Ok && answer_verdict(responded->Ok_0.0) is Ok && crypto::x25519_shared(
                secret,
                crypto::x25519_public(peer_secret),
            ) == crypto::x25519_shared(peer_secret, ephemeral_of(offer)) ==> completed is Ok
                && completed->Ok_0.mirrors(responded->Ok_0.1)
        }),
{
    bytes::lemma_be_value_bound(offer.subrange(5, 13));
    bytes::lemma_be_ranges();
    let body = answer_body(offer, peer_seed, peer_secret);
    lemma_answer_fields(
        session_id_of(offer) as u64,
        protocol_of(offer),
        binding_of(offer),
        crypto::ed25519_public(peer_seed),
        crypto::x25519_public(peer_secret),
        offer_digest(offer),
        crypto::ed25519_signature(peer_seed, crypto::blake3_hash(ANSWER_DOMAIN@ + body)),
    );
}

/// An offer has the frame of an offer, and every field that was put into it is
/// read back from it.
pub proof fn law_offer_fields_survive(
    seed: Seq<u8>,
    protocol: Seq<u8>,
    binding: Seq<u8>,
    session_id: u64,
    secret: Seq<u8>,
)
    requires
        protocol.len() == 32,
        binding.len() == 32,
    ensures
        ({
            let offer = signed_offer(seed, protocol, binding, session_id, secret);
            &&& framed(offer, OFFER_KIND, OFFER_BYTES as nat)
            &&& session_id_of(offer) == session_id
            &&& protocol_of(offer) == protocol
            &&& binding_of(offer) == binding
            &&& identity_of(offer) == crypto::ed25519_public(seed)
            &&& ephemeral_of(offer) == crypto::x25519_public(secret)
        }),
{
    let body = offer_body(seed, protocol, binding, session_id, secret);
    lemma_head_fields(
        OFFER_KIND,
        session_id,
        protocol,
        binding,
        crypto::ed25519_public(seed),
        crypto::x25519_public(secret),
        crypto::ed25519_signature(seed, crypto::blake3_hash(OFFER_DOMAIN@ + body)),
    );
}

/// An answer has the frame of an answer and repeats the session, the protocol
/// and the channel of the offer that it answers.
pub proof fn law_answer_repeats_the_offer(offer: Seq<u8>, seed: Seq<u8>, secret: Seq<u8>)
    requires
        offer.len() == OFFER_BYTES,
    ensures
        ({
            let answer = signed_answer(offer, seed, secret);
            &&& framed(answer, ANSWER_KIND, ANSWER_BYTES as nat)
            &&& answers(answer, offer)
            &&& identity_of(answer) == crypto::ed25519_public(seed)
            &&& ephemeral_of(answer) == crypto::x25519_public(secret)
        }),
{
    bytes::lemma_be_value_bound(offer.subrange(5, 13));
    bytes::lemma_be_ranges();
    let body = answer_body(offer, seed, secret);
    lemma_answer_fields(
        session_id_of(offer) as u64,
        protocol_of(offer),
        binding_of(offer),
        crypto::ed25519_public(seed),
        crypto::x25519_public(secret),
        offer_digest(offer),
        crypto::ed25519_signature(seed, crypto::blake3_hash(ANSWER_DOMAIN@ + body)),
    );
}

/// Where every field of an offer stands, and what its signature is over.
pub proof fn law_offers_have_their_layout(
    seed: Seq<u8>,
    protocol: Seq<u8>,
    binding: Seq<u8>,
    session_id: u64,
    secret: Seq<u8>,
)
    requires
        protocol.len() == 32,
        binding.len() == 32,
    ensures
        ({
            let offer = signed_offer(seed, protocol, binding, session_id, secret);
            let domain = seq![
                0x74u8, 0x75, 0x74, 0x74, 0x69, 0x20, 0x61, 0x75, 0x74, 0x68, 0x65, 0x6e,
                0x74, 0x69, 0x63, 0x61, 0x74, 0x65, 0x64, 0x20, 0x73, 0x65, 0x73, 0x73,
                0x69, 0x6f, 0x6e, 0x20, 0x6f, 0x66, 0x66, 0x65, 0x72, 0x20, 0x76, 0x31,
                0x00,
            ];
            &&& offer.len() == 205
            &&& offer.subrange(0, 5) == seq![0x54u8, 0x53, 0x41, 0x31, 1]
            &&& bytes::be_at(offer, 5, 13) == session_id
            &&& offer.subrange(13, 45) == protocol
            &&& offer.subrange(45, 77) == binding
            &&& offer.subrange(77, 109) == crypto::ed25519_public(seed)
            &&& offer.subrange(109, 141) == crypto::x25519_public(secret)
            &&& offer.subrange(141, 205) == crypto::ed25519_signature(
                seed,
                crypto::blake3_hash(domain + offer.subrange(0, 141)),
            )
        }),
{
    law_offer_fields_survive(seed, protocol, binding, session_id, secret);
    let offer = signed_offer(seed, protocol, binding, session_id, secret);
    let body = offer_body(seed, protocol, binding, session_id, secret);
    let domain = seq![
        0x74u8, 0x75, 0x74, 0x74, 0x69, 0x20, 0x61, 0x75, 0x74, 0x68, 0x65, 0x6e,
        0x74, 0x69, 0x63, 0x61, 0x74, 0x65, 0x64, 0x20, 0x73, 0x65, 0x73, 0x73,
        0x69, 0x6f, 0x6e, 0x20, 0x6f, 0x66, 0x66, 0x65, 0x72, 0x20, 0x76, 0x31,
        0x00,
    ];
    assert(OFFER_DOMAIN@ =~= domain);
    bytes::lemma_be_len(session_id as nat, 8);
    assert(body.len() == 141);
    assert(offer.subrange(0, 141) =~= body);
    assert(offer.subrange(0, 5) =~= seq![0x54u8, 0x53, 0x41, 0x31, 1]);
    assert(offer.subrange(141, 205) =~= crypto::ed25519_signature(
        seed,
        crypto::blake3_hash(OFFER_DOMAIN@ + body),
    ));
}

/// Where every field of an answer stands, what it repeats of the offer, and what its
/// signature is over.
pub proof fn law_answers_have_their_layout(offer: Seq<u8>, seed: Seq<u8>, secret: Seq<u8>)
    requires
        offer.len() == 205,
    ensures
        ({
            let answer = signed_answer(offer, seed, secret);
            let offered = seq![
                0x74u8, 0x75, 0x74, 0x74, 0x69, 0x20, 0x61, 0x75, 0x74, 0x68, 0x65, 0x6e,
                0x74, 0x69, 0x63, 0x61, 0x74, 0x65, 0x64, 0x20, 0x73, 0x65, 0x73, 0x73,
                0x69, 0x6f, 0x6e, 0x20, 0x6f, 0x66, 0x66, 0x65, 0x72, 0x20, 0x76, 0x31,
                0x00,
            ];
            let domain = seq![
                0x74u8, 0x75, 0x74, 0x74, 0x69, 0x20, 0x61, 0x75, 0x74, 0x68, 0x65, 0x6e,
                0x74, 0x69, 0x63, 0x61, 0x74, 0x65, 0x64, 0x20, 0x73, 0x65, 0x73, 0x73,
                0x69, 0x6f, 0x6e, 0x20, 0x61, 0x6e, 0x73, 0x77, 0x65, 0x72, 0x20, 0x76,
                0x31, 0x00,
            ];
            &&& answer.len() == 237
            &&& answer.subrange(0, 5) == seq![0x54u8, 0x53, 0x41, 0x31, 2]
            &&& bytes::be_at(answer, 5, 13) == bytes::be_at(offer, 5, 13)
            &&& answer.subrange(13, 45) == offer.subrange(13, 45)
            &&& answer.subrange(45, 77) == offer.subrange(45, 77)
            &&& answer.subrange(77, 109) == crypto::ed25519_public(seed)
            &&& answer.subrange(109, 141) == crypto::x25519_public(secret)
            &&& answer.subrange(141, 173) == crypto::blake3_hash(offered + offer.subrange(0, 141))
            &&& answer.subrange(173, 237) == crypto::ed25519_signature(
                seed,
                crypto::blake3_hash(domain + answer.subrange(0, 173)),
            )
        }),
{
    law_answer_repeats_the_offer(offer, seed, secret);
    let answer = signed_answer(offer, seed, secret);
    let body = answer_body(offer, seed, secret);
    let offered = seq![
        0x74u8, 0x75, 0x74, 0x74, 0x69, 0x20, 0x61, 0x75, 0x74, 0x68, 0x65, 0x6e,
        0x74, 0x69, 0x63, 0x61, 0x74, 0x65, 0x64, 0x20, 0x73, 0x65, 0x73, 0x73,
        0x69, 0x6f, 0x6e, 0x20, 0x6f, 0x66, 0x66, 0x65, 0x72, 0x20, 0x76, 0x31,
        0x00,
    ];
    let domain = seq![
        0x74u8, 0x75, 0x74, 0x74, 0x69, 0x20, 0x61, 0x75, 0x74, 0x68, 0x65, 0x6e,
        0x74, 0x69, 0x63, 0x61, 0x74, 0x65, 0x64, 0x20, 0x73, 0x65, 0x73, 0x73,
        0x69, 0x6f, 0x6e, 0x20, 0x61, 0x6e, 0x73, 0x77, 0x65, 0x72, 0x20, 0x76,
        0x31, 0x00,
    ];
    assert(OFFER_DOMAIN@ =~= offered);
    assert(ANSWER_DOMAIN@ =~= domain);
    bytes::lemma_be_len(session_id_of(offer) as u64 as nat, 8);
    assert(body.len() == 173);
    assert(answer.subrange(0, 173) =~= body);
    assert(answer.subrange(0, 5) =~= seq![0x54u8, 0x53, 0x41, 0x31, 2]);
    assert(answer.subrange(173, 237) =~= crypto::ed25519_signature(
        seed,
        crypto::blake3_hash(ANSWER_DOMAIN@ + body),
    ));
}

/// An offer is taken exactly where it is for this protocol and this channel, its key
/// is a key, and its signature is that key's over the offer. The first of these that
/// fails names the refusal.
pub proof fn law_offers_are_checked(offer: Seq<u8>, protocol: Seq<u8>, binding: Seq<u8>)
    requires
        offer.len() == 205,
    ensures
        ({
            let domain = seq![
                0x74u8, 0x75, 0x74, 0x74, 0x69, 0x20, 0x61, 0x75, 0x74, 0x68, 0x65, 0x6e,
                0x74, 0x69, 0x63, 0x61, 0x74, 0x65, 0x64, 0x20, 0x73, 0x65, 0x73, 0x73,
                0x69, 0x6f, 0x6e, 0x20, 0x6f, 0x66, 0x66, 0x65, 0x72, 0x20, 0x76, 0x31,
                0x00,
            ];
            let key = offer.subrange(77, 109);
            let signed = crypto::ed25519_accepts(
                key,
                crypto::blake3_hash(domain + offer.subrange(0, 141)),
                offer.subrange(141, 205),
            );
            offer_verdict(offer, protocol, binding) == (if offer.subrange(13, 45) != protocol {
                Err::<(), SessionError>(SessionError::WrongProtocol)
            } else if offer.subrange(45, 77) != binding {
                Err(SessionError::WrongChannelBinding)
            } else if !crypto::ed25519_key_valid(key) {
                Err(SessionError::InvalidIdentity)
            } else if !signed {
                Err(SessionError::Authentication)
            } else {
                Ok(())
            })
        }),
{
    let domain = seq![
        0x74u8, 0x75, 0x74, 0x74, 0x69, 0x20, 0x61, 0x75, 0x74, 0x68, 0x65, 0x6e,
        0x74, 0x69, 0x63, 0x61, 0x74, 0x65, 0x64, 0x20, 0x73, 0x65, 0x73, 0x73,
        0x69, 0x6f, 0x6e, 0x20, 0x6f, 0x66, 0x66, 0x65, 0x72, 0x20, 0x76, 0x31,
        0x00,
    ];
    assert(OFFER_DOMAIN@ =~= domain);
}

/// An answer completes a handshake exactly where it is an answer, repeats the offer
/// and its digest, comes from the expected peer, is signed by it, and gives a shared
/// secret that is not zero. The first of these that fails names the refusal.
pub proof fn law_answers_are_checked(
    offer: Seq<u8>,
    secret: Seq<u8>,
    answer: Seq<u8>,
    expected_peer: Seq<u8>,
)
    requires
        offer.len() == 205,
    ensures
        ({
            let offered = seq![
                0x74u8, 0x75, 0x74, 0x74, 0x69, 0x20, 0x61, 0x75, 0x74, 0x68, 0x65, 0x6e,
                0x74, 0x69, 0x63, 0x61, 0x74, 0x65, 0x64, 0x20, 0x73, 0x65, 0x73, 0x73,
                0x69, 0x6f, 0x6e, 0x20, 0x6f, 0x66, 0x66, 0x65, 0x72, 0x20, 0x76, 0x31,
                0x00,
            ];
            let domain = seq![
                0x74u8, 0x75, 0x74, 0x74, 0x69, 0x20, 0x61, 0x75, 0x74, 0x68, 0x65, 0x6e,
                0x74, 0x69, 0x63, 0x61, 0x74, 0x65, 0x64, 0x20, 0x73, 0x65, 0x73, 0x73,
                0x69, 0x6f, 0x6e, 0x20, 0x61, 0x6e, 0x73, 0x77, 0x65, 0x72, 0x20, 0x76,
                0x31, 0x00,
            ];
            let completed = completion(offer, secret, answer, expected_peer);
            let repeats = bytes::be_at(answer, 5, 13) == bytes::be_at(offer, 5, 13)
                && answer.subrange(13, 77) == offer.subrange(13, 77) && answer.subrange(141, 173)
                == crypto::blake3_hash(offered + offer.subrange(0, 141));
            let signed = crypto::ed25519_accepts(
                answer.subrange(77, 109),
                crypto::blake3_hash(domain + answer.subrange(0, 173)),
                answer.subrange(173, 237),
            );
            let shared = crypto::x25519_shared(secret, answer.subrange(109, 141));
            if answer.len() != 237 || answer.subrange(0, 5) != seq![0x54u8, 0x53, 0x41, 0x31, 2] {
                completed == Err::<KeysView, SessionError>(SessionError::Malformed)
            } else if !repeats {
                completed == Err::<KeysView, SessionError>(SessionError::TranscriptMismatch)
            } else if answer.subrange(77, 109) != expected_peer {
                completed == Err::<KeysView, SessionError>(SessionError::UnexpectedPeer)
            } else if !crypto::ed25519_key_valid(expected_peer) {
                completed == Err::<KeysView, SessionError>(SessionError::InvalidIdentity)
            } else if !signed {
                completed == Err::<KeysView, SessionError>(SessionError::Authentication)
            } else if shared == Seq::new(32, |i: int| 0u8) {
                completed == Err::<KeysView, SessionError>(SessionError::InvalidKeyAgreement)
            } else {
                &&& completed is Ok
                &&& completed->Ok_0 == derived_keys(Role::Initiator, offer, answer, shared)
            }
        }),
{
    let offered = seq![
        0x74u8, 0x75, 0x74, 0x74, 0x69, 0x20, 0x61, 0x75, 0x74, 0x68, 0x65, 0x6e,
        0x74, 0x69, 0x63, 0x61, 0x74, 0x65, 0x64, 0x20, 0x73, 0x65, 0x73, 0x73,
        0x69, 0x6f, 0x6e, 0x20, 0x6f, 0x66, 0x66, 0x65, 0x72, 0x20, 0x76, 0x31,
        0x00,
    ];
    let domain = seq![
        0x74u8, 0x75, 0x74, 0x74, 0x69, 0x20, 0x61, 0x75, 0x74, 0x68, 0x65, 0x6e,
        0x74, 0x69, 0x63, 0x61, 0x74, 0x65, 0x64, 0x20, 0x73, 0x65, 0x73, 0x73,
        0x69, 0x6f, 0x6e, 0x20, 0x61, 0x6e, 0x73, 0x77, 0x65, 0x72, 0x20, 0x76,
        0x31, 0x00,
    ];
    assert(OFFER_DOMAIN@ =~= offered);
    assert(ANSWER_DOMAIN@ =~= domain);
    assert(crypto::zeros(32) =~= Seq::new(32, |i: int| 0u8));
    if answer.len() == 237 {
        let start = seq![0x54u8, 0x53, 0x41, 0x31, 2];
        if answer.subrange(0, 5) == start {
            assert(answer.subrange(0, 4) =~= start.subrange(0, 4));
            assert(start.subrange(0, 4) =~= MAGIC@);
            assert(answer[4] == answer.subrange(0, 5)[4]);
        }
        if framed(answer, ANSWER_KIND, ANSWER_BYTES as nat) {
            assert forall|i: int| 0 <= i < 4 implies answer[i] == MAGIC@[i] by {
                assert(answer.subrange(0, 4)[i] == answer[i]);
            }
            assert(answer.subrange(0, 5) =~= start);
        }
        if answer.subrange(13, 77) == offer.subrange(13, 77) {
            assert(answer.subrange(13, 45) =~= answer.subrange(13, 77).subrange(0, 32));
            assert(offer.subrange(13, 45) =~= offer.subrange(13, 77).subrange(0, 32));
            assert(answer.subrange(45, 77) =~= answer.subrange(13, 77).subrange(32, 64));
            assert(offer.subrange(45, 77) =~= offer.subrange(13, 77).subrange(32, 64));
        }
        if protocol_of(answer) == protocol_of(offer) && binding_of(answer) == binding_of(offer) {
            assert(answer.subrange(13, 77) =~= answer.subrange(13, 45) + answer.subrange(45, 77));
            assert(offer.subrange(13, 77) =~= offer.subrange(13, 45) + offer.subrange(45, 77));
        }
    }
}

/// A response is refused exactly where the shared secret is zero.
pub proof fn law_responses_need_a_secret(offer: Seq<u8>, seed: Seq<u8>, secret: Seq<u8>)
    ensures
        ({
            let shared = crypto::x25519_shared(secret, offer.subrange(109, 141));
            if shared == Seq::new(32, |i: int| 0u8) {
                response(offer, seed, secret) == Err::<(Seq<u8>, KeysView), SessionError>(
                    SessionError::InvalidKeyAgreement,
                )
            } else {
                &&& response(offer, seed, secret) is Ok
                &&& response(offer, seed, secret)->Ok_0.0 == signed_answer(offer, seed, secret)
                &&& response(offer, seed, secret)->Ok_0.1 == derived_keys(
                    Role::Responder,
                    offer,
                    signed_answer(offer, seed, secret),
                    shared,
                )
            }
        }),
{
    assert(crypto::zeros(32) =~= Seq::new(32, |i: int| 0u8));
}

/// Keys rest on the shared secret, on both messages and on the session. Each end
/// sends under the key of its own direction, receives under that of the other, and
/// names the other as its peer.
pub proof fn law_keys_have_a_direction(offer: Seq<u8>, answer: Seq<u8>, shared: Seq<u8>)
    ensures
        ({
            let offered = seq![
                0x74u8, 0x75, 0x74, 0x74, 0x69, 0x20, 0x61, 0x75, 0x74, 0x68, 0x65, 0x6e,
                0x74, 0x69, 0x63, 0x61, 0x74, 0x65, 0x64, 0x20, 0x73, 0x65, 0x73, 0x73,
                0x69, 0x6f, 0x6e, 0x20, 0x6f, 0x66, 0x66, 0x65, 0x72, 0x20, 0x76, 0x31,
                0x00,
            ];
            let answered = seq![
                0x74u8, 0x75, 0x74, 0x74, 0x69, 0x20, 0x61, 0x75, 0x74, 0x68, 0x65, 0x6e,
                0x74, 0x69, 0x63, 0x61, 0x74, 0x65, 0x64, 0x20, 0x73, 0x65, 0x73, 0x73,
                0x69, 0x6f, 0x6e, 0x20, 0x61, 0x6e, 0x73, 0x77, 0x65, 0x72, 0x20, 0x76,
                0x31, 0x00,
            ];
            let forth = seq![
                0x69u8, 0x6e, 0x69, 0x74, 0x69, 0x61, 0x74, 0x6f, 0x72, 0x20, 0x74, 0x6f,
                0x20, 0x72, 0x65, 0x73, 0x70, 0x6f, 0x6e, 0x64, 0x65, 0x72,
            ];
            let back = seq![
                0x72u8, 0x65, 0x73, 0x70, 0x6f, 0x6e, 0x64, 0x65, 0x72, 0x20, 0x74, 0x6f,
                0x20, 0x69, 0x6e, 0x69, 0x74, 0x69, 0x61, 0x74, 0x6f, 0x72,
            ];
            let master = crypto::blake3_derive_key(
                "tutti authenticated session keys v1"@,
                shared + crypto::blake3_hash(offered + offer.subrange(0, 141))
                    + crypto::blake3_hash(answered + answer.subrange(0, 173)) + bytes::be(
                    bytes::be_at(offer, 5, 13),
                    8,
                ),
            );
            let initiator = derived_keys(Role::Initiator, offer, answer, shared);
            let responder = derived_keys(Role::Responder, offer, answer, shared);
            &&& initiator.session_id == bytes::be_at(offer, 5, 13) as u64
            &&& initiator.peer == answer.subrange(77, 109)
            &&& initiator.send == crypto::blake3_keyed_hash(master, forth)
            &&& initiator.receive == crypto::blake3_keyed_hash(master, back)
            &&& responder.session_id == bytes::be_at(offer, 5, 13) as u64
            &&& responder.peer == offer.subrange(77, 109)
            &&& responder.send == crypto::blake3_keyed_hash(master, back)
            &&& responder.receive == crypto::blake3_keyed_hash(master, forth)
        }),
{
    let offered = seq![
        0x74u8, 0x75, 0x74, 0x74, 0x69, 0x20, 0x61, 0x75, 0x74, 0x68, 0x65, 0x6e,
        0x74, 0x69, 0x63, 0x61, 0x74, 0x65, 0x64, 0x20, 0x73, 0x65, 0x73, 0x73,
        0x69, 0x6f, 0x6e, 0x20, 0x6f, 0x66, 0x66, 0x65, 0x72, 0x20, 0x76, 0x31,
        0x00,
    ];
    let answered = seq![
        0x74u8, 0x75, 0x74, 0x74, 0x69, 0x20, 0x61, 0x75, 0x74, 0x68, 0x65, 0x6e,
        0x74, 0x69, 0x63, 0x61, 0x74, 0x65, 0x64, 0x20, 0x73, 0x65, 0x73, 0x73,
        0x69, 0x6f, 0x6e, 0x20, 0x61, 0x6e, 0x73, 0x77, 0x65, 0x72, 0x20, 0x76,
        0x31, 0x00,
    ];
    let forth = seq![
        0x69u8, 0x6e, 0x69, 0x74, 0x69, 0x61, 0x74, 0x6f, 0x72, 0x20, 0x74, 0x6f,
        0x20, 0x72, 0x65, 0x73, 0x70, 0x6f, 0x6e, 0x64, 0x65, 0x72,
    ];
    let back = seq![
        0x72u8, 0x65, 0x73, 0x70, 0x6f, 0x6e, 0x64, 0x65, 0x72, 0x20, 0x74, 0x6f,
        0x20, 0x69, 0x6e, 0x69, 0x74, 0x69, 0x61, 0x74, 0x6f, 0x72,
    ];
    assert(OFFER_DOMAIN@ =~= offered);
    assert(ANSWER_DOMAIN@ =~= answered);
    assert(INITIATOR_LABEL@ =~= forth);
    assert(RESPONDER_LABEL@ =~= back);
}

} // verus!
