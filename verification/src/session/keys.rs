//! Directional channel keys: frame tags and exported secrets.

use crate::bytes;
use crate::crypto;
use crate::session::error::SessionError;
use crate::session::identity::PeerIdentity;
use vstd::prelude::*;

verus! {

pub const TAG_BYTES: usize = 16;

/// The bytes of `tutti authenticated channel frame v1\0`.
pub const TAG_DOMAIN: [u8; 37] = [
    0x74, 0x75, 0x74, 0x74, 0x69, 0x20, 0x61, 0x75, 0x74, 0x68, 0x65, 0x6e,
    0x74, 0x69, 0x63, 0x61, 0x74, 0x65, 0x64, 0x20, 0x63, 0x68, 0x61, 0x6e,
    0x6e, 0x65, 0x6c, 0x20, 0x66, 0x72, 0x61, 0x6d, 0x65, 0x20, 0x76, 0x31,
    0x00,
];

/// The bytes of `tutti authenticated session directional exporter v1\0`.
pub const EXPORT_DOMAIN: [u8; 52] = [
    0x74, 0x75, 0x74, 0x74, 0x69, 0x20, 0x61, 0x75, 0x74, 0x68, 0x65, 0x6e,
    0x74, 0x69, 0x63, 0x61, 0x74, 0x65, 0x64, 0x20, 0x73, 0x65, 0x73, 0x73,
    0x69, 0x6f, 0x6e, 0x20, 0x64, 0x69, 0x72, 0x65, 0x63, 0x74, 0x69, 0x6f,
    0x6e, 0x61, 0x6c, 0x20, 0x65, 0x78, 0x70, 0x6f, 0x72, 0x74, 0x65, 0x72,
    0x20, 0x76, 0x31, 0x00,
];

/// What a session's keys are: who is at the other end, and one key for each
/// direction.
pub struct KeysView {
    pub session_id: u64,
    pub peer: Seq<u8>,
    pub send: Seq<u8>,
    pub receive: Seq<u8>,
}

impl KeysView {
    /// Whether the two ends hold the same session, each with the other's keys
    /// the other way round.
    pub open spec fn mirrors(self, other: KeysView) -> bool {
        &&& self.session_id == other.session_id
        &&& self.send == other.receive
        &&& self.receive == other.send
    }
}

/// What the tag of `frame` is taken over.
pub open spec fn tag_input(session_id: u64, frame: Seq<u8>) -> Seq<u8> {
    TAG_DOMAIN@ + bytes::be(session_id as nat, 8) + frame
}

/// The tag of `frame` under `key`: the first bytes of a keyed digest.
pub open spec fn frame_tag(key: Seq<u8>, session_id: u64, frame: Seq<u8>) -> Seq<u8> {
    crypto::blake3_keyed_hash(key, tag_input(session_id, frame)).subrange(0, TAG_BYTES as int)
}

/// What an exported secret is derived from, besides the key.
pub open spec fn export_input(session_id: u64, context: Seq<u8>) -> Seq<u8> {
    EXPORT_DOMAIN@ + bytes::be(session_id as nat, 8) + bytes::be(context.len(), 8) + context
}

/// The secret that `key` yields for `context`.
pub open spec fn exported(key: Seq<u8>, session_id: u64, context: Seq<u8>) -> Seq<u8> {
    crypto::blake3_keyed_hash(key, export_input(session_id, context))
}

/// The bytes that the tag of `frame` is taken over.
pub fn encode_tag_input(session_id: u64, frame: &[u8]) -> (input: Vec<u8>)
    ensures
        input@ == tag_input(session_id, frame@),
{
    let mut input: Vec<u8> = bytes::to_vec(&TAG_DOMAIN);
    bytes::push_be(&mut input, session_id, 8);
    bytes::push_bytes(&mut input, frame);
    input
}

/// The bytes that a secret for `context` is derived from.
pub fn encode_export_input(session_id: u64, context: &[u8]) -> (input: Vec<u8>)
    ensures
        input@ == export_input(session_id, context@),
{
    let mut input: Vec<u8> = bytes::to_vec(&EXPORT_DOMAIN);
    bytes::push_be(&mut input, session_id, 8);
    bytes::push_be(&mut input, context.len() as u64, 8);
    bytes::push_bytes(&mut input, context);
    input
}

/// The tag that a frame's digest gives.
pub fn tag_of_digest(digest: &[u8; 32]) -> (tag: [u8; TAG_BYTES])
    ensures
        tag@ == digest@.subrange(0, TAG_BYTES as int),
{
    bytes::array_at::<TAG_BYTES>(digest, 0)
}

/// Accepts `tag` exactly where it is the expected one.
pub fn check_tag(expected: &[u8; TAG_BYTES], tag: &[u8]) -> (result: Result<(), SessionError>)
    ensures
        result == if tag@ == expected@ {
            Ok::<(), SessionError>(())
        } else {
            Err(SessionError::Authentication)
        },
{
    if tag.len() != TAG_BYTES || !crypto::constant_time_eq(expected, tag) {
        return Err(SessionError::Authentication);
    }
    Ok(())
}

fn compute_frame_tag(key: &[u8; 32], session_id: u64, frame: &[u8]) -> (tag: [u8; TAG_BYTES])
    ensures
        tag@ == frame_tag(key@, session_id, frame@),
{
    let input: Vec<u8> = encode_tag_input(session_id, frame);
    let digest: [u8; 32] = crypto::keyed_hash(key, input.as_slice());
    tag_of_digest(&digest)
}

/// The channel keys of one end of an established session.
pub struct SessionKeys {
    session_id: u64,
    peer: PeerIdentity,
    send: [u8; 32],
    receive: [u8; 32],
}

impl View for SessionKeys {
    type V = KeysView;

    closed spec fn view(&self) -> KeysView {
        KeysView {
            session_id: self.session_id,
            peer: self.peer@,
            send: self.send@,
            receive: self.receive@,
        }
    }
}

impl SessionKeys {
    pub(crate) fn from_parts(
        session_id: u64,
        peer: PeerIdentity,
        send: [u8; 32],
        receive: [u8; 32],
    ) -> (keys: Self)
        ensures
            keys@ == (KeysView { session_id, peer: peer@, send: send@, receive: receive@ }),
    {
        SessionKeys { session_id, peer, send, receive }
    }

    pub fn session_id(&self) -> (session_id: u64)
        ensures
            session_id == self@.session_id,
    {
        self.session_id
    }

    pub fn peer(&self) -> (peer: PeerIdentity)
        ensures
            peer@ == self@.peer,
    {
        self.peer
    }

    /// The tag with which the peer recognises `bytes` as sent by this end.
    pub fn authenticate(&self, bytes: &[u8]) -> (tag: [u8; TAG_BYTES])
        ensures
            tag@ == frame_tag(self@.send, self@.session_id, bytes@),
    {
        compute_frame_tag(&self.send, self.session_id, bytes)
    }

    /// Accepts `bytes` exactly where `tag` is the tag that the peer gives them.
    pub fn verify(&self, bytes: &[u8], tag: &[u8]) -> (result: Result<(), SessionError>)
        ensures
            result == if tag@ == frame_tag(self@.receive, self@.session_id, bytes@) {
                Ok::<(), SessionError>(())
            } else {
                Err(SessionError::Authentication)
            },
    {
        let expected: [u8; TAG_BYTES] = compute_frame_tag(&self.receive, self.session_id, bytes);
        check_tag(&expected, tag)
    }

    /// Derive one pair of direction-specific secrets for a higher-level
    /// protocol bound to `context`.
    ///
    /// This is the only bridge from the authenticated ephemeral handshake into
    /// another packet-protection protocol. Callers must bind the exact
    /// higher-level manifest and carrier channel; the handshake keys themselves
    /// are never exposed. The transcript keys already separate directions, so
    /// what one end sends with the other end receives with.
    pub fn export_directional(&self, context: &[u8]) -> (secrets: DirectionalSecrets)
        ensures
            secrets.send_secret() == exported(self@.send, self@.session_id, context@),
            secrets.receive_secret() == exported(self@.receive, self@.session_id, context@),
    {
        let input: Vec<u8> = encode_export_input(self.session_id, context);
        DirectionalSecrets {
            send: crypto::keyed_hash(&self.send, input.as_slice()),
            receive: crypto::keyed_hash(&self.receive, input.as_slice()),
        }
    }
}

impl Clone for SessionKeys {
    fn clone(&self) -> (keys: Self)
        ensures
            keys@ == self@,
    {
        SessionKeys {
            session_id: self.session_id,
            peer: self.peer,
            send: self.send,
            receive: self.receive,
        }
    }
}

/// Erasable directional output from one authenticated key-establishment
/// transcript. It is intended to be consumed immediately by the negotiated
/// packet-protection implementation.
pub struct DirectionalSecrets {
    send: [u8; 32],
    receive: [u8; 32],
}

impl DirectionalSecrets {
    pub closed spec fn send_secret(self) -> Seq<u8> {
        self.send@
    }

    pub closed spec fn receive_secret(self) -> Seq<u8> {
        self.receive@
    }

    /// Hands out the secret for sending and leaves zeros in its place.
    pub fn take_send(&mut self) -> (secret: [u8; 32])
        ensures
            secret@ == old(self).send_secret(),
            final(self).send_secret() == crypto::zeros(32),
            final(self).receive_secret() == old(self).receive_secret(),
    {
        let secret: [u8; 32] = self.send;
        self.send = [0u8; 32];
        assert(self.send@ =~= crypto::zeros(32));
        secret
    }

    /// Hands out the secret for receiving and leaves zeros in its place.
    pub fn take_receive(&mut self) -> (secret: [u8; 32])
        ensures
            secret@ == old(self).receive_secret(),
            final(self).receive_secret() == crypto::zeros(32),
            final(self).send_secret() == old(self).send_secret(),
    {
        let secret: [u8; 32] = self.receive;
        self.receive = [0u8; 32];
        assert(self.receive@ =~= crypto::zeros(32));
        secret
    }
}

impl Drop for DirectionalSecrets {
    fn drop(&mut self)
        opens_invariants none
        no_unwind
    {
        crypto::wipe(&mut self.send);
        crypto::wipe(&mut self.receive);
    }
}

/// What one end authenticates, the other end of the session accepts.
pub proof fn law_mirrored_keys_accept_each_other(a: KeysView, b: KeysView, frame: Seq<u8>)
    requires
        a.mirrors(b),
    ensures
        frame_tag(a.send, a.session_id, frame) == frame_tag(b.receive, b.session_id, frame),
        frame_tag(b.send, b.session_id, frame) == frame_tag(a.receive, a.session_id, frame),
{
}

/// Both ends of a session export the same pair of secrets for a context, each
/// with the directions the other way round.
pub proof fn law_mirrored_keys_export_mirrored_secrets(
    a: KeysView,
    b: KeysView,
    context: Seq<u8>,
)
    requires
        a.mirrors(b),
    ensures
        exported(a.send, a.session_id, context) == exported(b.receive, b.session_id, context),
        exported(a.receive, a.session_id, context) == exported(b.send, b.session_id, context),
{
}

/// The tag of a frame is the first sixteen bytes of a keyed digest of the frame and
/// its session.
pub proof fn law_tags_cover_the_session_and_the_frame(
    key: Seq<u8>,
    session_id: u64,
    frame: Seq<u8>,
)
    ensures
        ({
            let domain = seq![
                0x74u8, 0x75, 0x74, 0x74, 0x69, 0x20, 0x61, 0x75, 0x74, 0x68, 0x65, 0x6e,
                0x74, 0x69, 0x63, 0x61, 0x74, 0x65, 0x64, 0x20, 0x63, 0x68, 0x61, 0x6e,
                0x6e, 0x65, 0x6c, 0x20, 0x66, 0x72, 0x61, 0x6d, 0x65, 0x20, 0x76, 0x31,
                0x00,
            ];
            &&& frame_tag(key, session_id, frame).len() == 16
            &&& frame_tag(key, session_id, frame) == crypto::blake3_keyed_hash(
                key,
                domain + bytes::be(session_id as nat, 8) + frame,
            ).subrange(0, 16)
        }),
{
    let domain = seq![
        0x74u8, 0x75, 0x74, 0x74, 0x69, 0x20, 0x61, 0x75, 0x74, 0x68, 0x65, 0x6e,
        0x74, 0x69, 0x63, 0x61, 0x74, 0x65, 0x64, 0x20, 0x63, 0x68, 0x61, 0x6e,
        0x6e, 0x65, 0x6c, 0x20, 0x66, 0x72, 0x61, 0x6d, 0x65, 0x20, 0x76, 0x31,
        0x00,
    ];
    assert(TAG_DOMAIN@ =~= domain);
}

/// An exported secret is a keyed digest of the session and of the context, whose
/// length comes first.
pub proof fn law_exports_cover_the_session_and_the_context(
    key: Seq<u8>,
    session_id: u64,
    context: Seq<u8>,
)
    ensures
        ({
            let domain = seq![
                0x74u8, 0x75, 0x74, 0x74, 0x69, 0x20, 0x61, 0x75, 0x74, 0x68, 0x65, 0x6e,
                0x74, 0x69, 0x63, 0x61, 0x74, 0x65, 0x64, 0x20, 0x73, 0x65, 0x73, 0x73,
                0x69, 0x6f, 0x6e, 0x20, 0x64, 0x69, 0x72, 0x65, 0x63, 0x74, 0x69, 0x6f,
                0x6e, 0x61, 0x6c, 0x20, 0x65, 0x78, 0x70, 0x6f, 0x72, 0x74, 0x65, 0x72,
                0x20, 0x76, 0x31, 0x00,
            ];
            exported(key, session_id, context) == crypto::blake3_keyed_hash(
                key,
                domain + bytes::be(session_id as nat, 8) + bytes::be(context.len(), 8) + context,
            )
        }),
{
    let domain = seq![
        0x74u8, 0x75, 0x74, 0x74, 0x69, 0x20, 0x61, 0x75, 0x74, 0x68, 0x65, 0x6e,
        0x74, 0x69, 0x63, 0x61, 0x74, 0x65, 0x64, 0x20, 0x73, 0x65, 0x73, 0x73,
        0x69, 0x6f, 0x6e, 0x20, 0x64, 0x69, 0x72, 0x65, 0x63, 0x74, 0x69, 0x6f,
        0x6e, 0x61, 0x6c, 0x20, 0x65, 0x78, 0x70, 0x6f, 0x72, 0x74, 0x65, 0x72,
        0x20, 0x76, 0x31, 0x00,
    ];
    assert(EXPORT_DOMAIN@ =~= domain);
}

/// Different frames, and frames of different sessions, have different tag inputs.
pub proof fn law_tag_inputs_tell_frames_apart(a: u64, b: u64, x: Seq<u8>, y: Seq<u8>)
    requires
        tag_input(a, x) == tag_input(b, y),
    ensures
        a == b,
        x == y,
{
    bytes::lemma_be_len(a as nat, 8);
    bytes::lemma_be_len(b as nat, 8);
    bytes::lemma_be_ranges();
    bytes::lemma_be_round_trip(a as nat, 8);
    bytes::lemma_be_round_trip(b as nat, 8);
    let (s, t) = (tag_input(a, x), tag_input(b, y));
    assert(s.subrange(37, 45) =~= bytes::be(a as nat, 8));
    assert(t.subrange(37, 45) =~= bytes::be(b as nat, 8));
    assert(s.subrange(45, s.len() as int) =~= x);
    assert(t.subrange(45, t.len() as int) =~= y);
}

} // verus!
