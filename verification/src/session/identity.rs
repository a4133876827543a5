//! Identities, protocol and channel identifiers, and secret keys.

use crate::bytes;
use crate::crypto;
use crate::session::error::SessionError;
use vstd::prelude::*;

verus! {

/// A peer's persistent Ed25519 verifying key.
#[derive(Clone, Copy, Eq, PartialOrd, Ord, Hash, Debug)]
pub struct PeerIdentity([u8; 32]);

impl View for PeerIdentity {
    type V = Seq<u8>;

    closed spec fn view(&self) -> Seq<u8> {
        self.0@
    }
}

impl PeerIdentity {
    pub fn from_bytes(bytes: [u8; 32]) -> (identity: Self)
        ensures
            identity@ == bytes@,
    {
        PeerIdentity(bytes)
    }

    pub fn as_bytes(&self) -> (bytes: &[u8; 32])
        ensures
            bytes@ == self@,
    {
        &self.0
    }

    pub fn from_signing_key(key: &SigningKey) -> (identity: Self)
        ensures
            identity@ == crypto::ed25519_public(key@),
            crypto::ed25519_key_valid(identity@),
    {
        PeerIdentity(crypto::signing_public(&key.seed))
    }

    /// Identities with the same bytes are the same identity.
    pub proof fn lemma_extensional(a: Self, b: Self)
        requires
            a@ == b@,
        ensures
            a == b,
    {
        bytes::lemma_array_ext(a.0, b.0);
    }

    pub proof fn lemma_len(self)
        ensures
            self@.len() == 32,
    {
    }
}

impl PartialEq for PeerIdentity {
    fn eq(&self, other: &Self) -> (equal: bool) {
        let equal = bytes::same_bytes(&self.0, &other.0);
        proof {
            if self.0@ == other.0@ {
                bytes::lemma_array_ext(self.0, other.0);
            }
        }
        equal
    }
}

impl vstd::std_specs::cmp::PartialEqSpecImpl for PeerIdentity {
    open spec fn obeys_eq_spec() -> bool {
        true
    }

    open spec fn eq_spec(&self, other: &Self) -> bool {
        *self == *other
    }
}

/// Which protocol a session speaks.
#[derive(Clone, Copy, Eq, Hash, Debug)]
pub struct ProtocolId([u8; 32]);

impl View for ProtocolId {
    type V = Seq<u8>;

    closed spec fn view(&self) -> Seq<u8> {
        self.0@
    }
}

impl ProtocolId {
    pub fn from_bytes(bytes: [u8; 32]) -> (protocol: Self)
        ensures
            protocol@ == bytes@,
    {
        ProtocolId(bytes)
    }

    /// The identifier of the protocol that `label` names.
    pub fn derive(label: &[u8]) -> (protocol: Self)
        ensures
            protocol@ == crypto::blake3_hash(label@),
    {
        ProtocolId(crypto::hash(label))
    }

    pub fn as_bytes(&self) -> (bytes: &[u8; 32])
        ensures
            bytes@ == self@,
    {
        &self.0
    }

    pub proof fn lemma_extensional(a: Self, b: Self)
        requires
            a@ == b@,
        ensures
            a == b,
    {
        bytes::lemma_array_ext(a.0, b.0);
    }

    pub proof fn lemma_len(self)
        ensures
            self@.len() == 32,
    {
    }
}

impl PartialEq for ProtocolId {
    fn eq(&self, other: &Self) -> (equal: bool) {
        let equal = bytes::same_bytes(&self.0, &other.0);
        proof {
            if self.0@ == other.0@ {
                bytes::lemma_array_ext(self.0, other.0);
            }
        }
        equal
    }
}

impl vstd::std_specs::cmp::PartialEqSpecImpl for ProtocolId {
    open spec fn obeys_eq_spec() -> bool {
        true
    }

    open spec fn eq_spec(&self, other: &Self) -> bool {
        *self == *other
    }
}

/// Caller-defined binding for the concrete channel endpoints and boot epochs.
/// A transport should bind both endpoint addresses and both fresh boot nonces,
/// so that a handshake cannot be replayed onto another link or process.
#[derive(Clone, Copy, Eq, Hash, Debug)]
pub struct ChannelBinding([u8; 32]);

impl View for ChannelBinding {
    type V = Seq<u8>;

    closed spec fn view(&self) -> Seq<u8> {
        self.0@
    }
}

impl ChannelBinding {
    pub fn from_bytes(bytes: [u8; 32]) -> (binding: Self)
        ensures
            binding@ == bytes@,
    {
        ChannelBinding(bytes)
    }

    /// The binding to the channel that `context` describes.
    pub fn derive(context: &[u8]) -> (binding: Self)
        ensures
            binding@ == crypto::blake3_hash(context@),
    {
        ChannelBinding(crypto::hash(context))
    }

    pub fn as_bytes(&self) -> (bytes: &[u8; 32])
        ensures
            bytes@ == self@,
    {
        &self.0
    }

    pub proof fn lemma_extensional(a: Self, b: Self)
        requires
            a@ == b@,
        ensures
            a == b,
    {
        bytes::lemma_array_ext(a.0, b.0);
    }

    pub proof fn lemma_len(self)
        ensures
            self@.len() == 32,
    {
    }
}

impl PartialEq for ChannelBinding {
    fn eq(&self, other: &Self) -> (equal: bool) {
        let equal = bytes::same_bytes(&self.0, &other.0);
        proof {
            if self.0@ == other.0@ {
                bytes::lemma_array_ext(self.0, other.0);
            }
        }
        equal
    }
}

impl vstd::std_specs::cmp::PartialEqSpecImpl for ChannelBinding {
    open spec fn obeys_eq_spec() -> bool {
        true
    }

    open spec fn eq_spec(&self, other: &Self) -> bool {
        *self == *other
    }
}

/// A persistent Ed25519 signing key, held as its 32-byte seed and erased when
/// dropped.
pub struct SigningKey {
    seed: [u8; 32],
}

impl View for SigningKey {
    type V = Seq<u8>;

    closed spec fn view(&self) -> Seq<u8> {
        self.seed@
    }
}

impl SigningKey {
    pub fn from_bytes(seed: &[u8; 32]) -> (key: Self)
        ensures
            key@ == seed@,
    {
        SigningKey { seed: *seed }
    }

    /// Signs `message` with this key.
    pub fn sign(&self, message: &[u8]) -> (signature: [u8; 64])
        ensures
            signature@ == crypto::ed25519_signature(self@, message@),
            crypto::ed25519_accepts(crypto::ed25519_public(self@), message@, signature@)
                || crypto::ed25519_degenerate(signature@),
    {
        crypto::sign(&self.seed, message)
    }
}

impl Drop for SigningKey {
    fn drop(&mut self)
        opens_invariants none
        no_unwind
    {
        crypto::wipe(&mut self.seed);
    }
}

/// Fresh 32-byte randomness supplied by the platform for one handshake, erased
/// when dropped.
pub struct EphemeralSecret([u8; 32]);

impl View for EphemeralSecret {
    type V = Seq<u8>;

    closed spec fn view(&self) -> Seq<u8> {
        self.0@
    }
}

/// The outcome of a key agreement that produced `shared`: a peer whose point
/// annihilates the secret is refused.
pub open spec fn agreement(shared: Seq<u8>) -> Result<Seq<u8>, SessionError> {
    if shared == crypto::zeros(32) {
        Err(SessionError::InvalidKeyAgreement)
    } else {
        Ok(shared)
    }
}

/// Refuses the all-zero shared key.
pub fn accept_shared(shared: [u8; 32]) -> (result: Result<[u8; 32], SessionError>)
    ensures
        match result {
            Ok(accepted) => agreement(shared@) == Ok::<Seq<u8>, SessionError>(accepted@),
            Err(error) => agreement(shared@) == Err::<Seq<u8>, SessionError>(error),
        },
{
    let zero: [u8; 32] = [0u8; 32];
    assert(zero@ =~= crypto::zeros(32));
    if crypto::constant_time_eq(&shared, &zero) {
        return Err(SessionError::InvalidKeyAgreement);
    }
    Ok(shared)
}

impl EphemeralSecret {
    pub fn from_bytes(bytes: [u8; 32]) -> (secret: Self)
        ensures
            secret@ == bytes@,
    {
        EphemeralSecret(bytes)
    }

    pub(crate) fn public(&self) -> (point: [u8; 32])
        ensures
            point@ == crypto::x25519_public(self@),
    {
        crypto::mul_base_clamped(&self.0)
    }

    pub(crate) fn agree(&self, peer: [u8; 32]) -> (result: Result<[u8; 32], SessionError>)
        ensures
            match result {
                Ok(shared) => agreement(crypto::x25519_shared(self@, peer@)) == Ok::<
                    Seq<u8>,
                    SessionError,
                >(shared@),
                Err(error) => agreement(crypto::x25519_shared(self@, peer@)) == Err::<
                    Seq<u8>,
                    SessionError,
                >(error),
            },
            forall|other: Seq<u8>|
                other.len() == 32 && #[trigger] crypto::x25519_public(other) == peer@
                    ==> crypto::x25519_shared(self@, peer@) == crypto::x25519_shared(
                    other,
                    crypto::x25519_public(self@),
                ),
    {
        let shared: [u8; 32] = crypto::mul_clamped(&self.0, &peer);
        accept_shared(shared)
    }
}

impl Drop for EphemeralSecret {
    fn drop(&mut self)
        opens_invariants none
        no_unwind
    {
        crypto::wipe(&mut self.0);
    }
}

/// A shared secret is refused exactly where all its bytes are zero, and is else taken
/// as it is.
pub proof fn law_zero_secrets_are_refused(shared: Seq<u8>)
    requires
        shared.len() == 32,
    ensures
        agreement(shared) == Err::<Seq<u8>, SessionError>(SessionError::InvalidKeyAgreement) <==> (
        forall|i: int| 0 <= i < 32 ==> #[trigger] shared[i] == 0),
        agreement(shared) is Ok ==> agreement(shared)->Ok_0 == shared,
        agreement(shared) is Err ==> agreement(shared)->Err_0 == SessionError::InvalidKeyAgreement,
{
    if forall|i: int| 0 <= i < 32 ==> #[trigger] shared[i] == 0 {
        assert(shared =~= crypto::zeros(32));
    }
}

/// Identities, protocols and bindings are the same exactly where their bytes are.
pub proof fn law_identities_are_their_bytes(
    a: PeerIdentity,
    b: PeerIdentity,
    c: ProtocolId,
    d: ProtocolId,
    e: ChannelBinding,
    f: ChannelBinding,
)
    ensures
        vstd::std_specs::cmp::PartialEqSpec::eq_spec(&a, &b) <==> a@ == b@,
        vstd::std_specs::cmp::PartialEqSpec::eq_spec(&c, &d) <==> c@ == d@,
        vstd::std_specs::cmp::PartialEqSpec::eq_spec(&e, &f) <==> e@ == f@,
{
    if a@ == b@ {
        bytes::lemma_array_ext(a.0, b.0);
    }
    if c@ == d@ {
        bytes::lemma_array_ext(c.0, d.0);
    }
    if e@ == f@ {
        bytes::lemma_array_ext(e.0, f.0);
    }
}

} // verus!
