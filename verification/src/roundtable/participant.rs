//! Who takes part, and which run is meant.

use crate::bytes;
use crate::order;
use vstd::prelude::*;

verus! {

#[derive(Clone, Copy, Eq, PartialOrd, Ord, Hash, Debug)]
pub struct ParticipantId([u8; 32]);

impl View for ParticipantId {
    type V = Seq<u8>;

    closed spec fn view(&self) -> Seq<u8> {
        self.0@
    }
}

impl ParticipantId {
    pub fn from_bytes(bytes: [u8; 32]) -> (id: Self)
        ensures
            id@ == bytes@,
    {
        ParticipantId(bytes)
    }

    pub fn as_bytes(&self) -> (bytes: &[u8; 32])
        ensures
            bytes@ == self@,
    {
        &self.0
    }

    pub open spec fn key(self) -> Seq<int> {
        order::byte_key(self@)
    }

    /// Whether this participant comes before `other` in the total order on
    /// participants.
    pub fn precedes(&self, other: &Self) -> (r: bool)
        ensures
            r == order::before(self.key(), other.key()),
    {
        order::bytes_before(&self.0, &other.0)
    }

    pub proof fn lemma_len(self)
        ensures
            self@.len() == 32,
    {
    }

    /// Participants with the same bytes are the same participant.
    pub proof fn lemma_extensional(a: Self, b: Self)
        requires
            a@ == b@,
        ensures
            a == b,
    {
        bytes::lemma_array_ext(a.0, b.0);
    }

    /// Participants with the same key are the same participant.
    pub proof fn lemma_key_injective(a: Self, b: Self)
        requires
            a.key() == b.key(),
        ensures
            a == b,
    {
        order::lemma_byte_key_injective(a@, b@);
        ParticipantId::lemma_extensional(a, b);
    }
}

impl PartialEq for ParticipantId {
    fn eq(&self, other: &Self) -> (equal: bool) {
        let equal = bytes::same_bytes(&self.0, &other.0);
        proof {
            if self.0@ == other.0@ {
                bytes::lemma_array_ext(self.0, other.0);
            }
        }
        equal
    }
}

impl vstd::std_specs::cmp::PartialEqSpecImpl for ParticipantId {
    open spec fn obeys_eq_spec() -> bool {
        true
    }

    open spec fn eq_spec(&self, other: &Self) -> bool {
        *self == *other
    }
}

/// A start nonce plus its authenticated origin. Concurrent starts therefore
/// have a deterministic total order without consulting a wall clock.
#[derive(Clone, Copy, Eq, PartialOrd, Ord, Hash, Debug)]
pub struct RunEpoch {
    pub nonce: u64,
    pub origin: ParticipantId,
}

impl RunEpoch {
    pub open spec fn key(self) -> Seq<int> {
        seq![self.nonce as int] + self.origin.key()
    }

    /// Whether this epoch comes before `other` in the total order on epochs: by
    /// nonce, then by origin.
    pub fn precedes(&self, other: &Self) -> (r: bool)
        ensures
            r == order::before(self.key(), other.key()),
    {
        proof {
            let (s, t) = (self.key(), other.key());
            assert(s.drop_first() =~= self.origin.key());
            assert(t.drop_first() =~= other.origin.key());
        }
        if self.nonce != other.nonce {
            return self.nonce < other.nonce;
        }
        self.origin.precedes(&other.origin)
    }

    /// Epochs with the same key are the same epoch.
    pub proof fn lemma_key_injective(a: Self, b: Self)
        requires
            a.key() == b.key(),
        ensures
            a == b,
    {
        let (s, t) = (a.key(), b.key());
        assert(s[0] == t[0]);
        assert(s.drop_first() =~= a.origin.key());
        assert(t.drop_first() =~= b.origin.key());
        ParticipantId::lemma_key_injective(a.origin, b.origin);
    }
}

impl PartialEq for RunEpoch {
    fn eq(&self, other: &Self) -> (equal: bool) {
        self.nonce == other.nonce && self.origin == other.origin
    }
}

impl vstd::std_specs::cmp::PartialEqSpecImpl for RunEpoch {
    open spec fn obeys_eq_spec() -> bool {
        true
    }

    open spec fn eq_spec(&self, other: &Self) -> bool {
        *self == *other
    }
}

/// Epochs are ordered by their nonces, and by the bytes of their origins where the
/// nonces agree.
pub proof fn law_epochs_are_ordered_by_nonce(a: RunEpoch, b: RunEpoch)
    ensures
        order::before(a.key(), b.key()) <==> a.nonce < b.nonce || a.nonce == b.nonce
            && order::before(order::byte_key(a.origin@), order::byte_key(b.origin@)),
{
    assert(a.key().drop_first() =~= a.origin.key());
    assert(b.key().drop_first() =~= b.origin.key());
    assert(a.key()[0] == a.nonce && b.key()[0] == b.nonce);
}

/// Participants are ordered by the first byte in which they differ.
pub proof fn law_participants_are_ordered_by_their_bytes(
    a: ParticipantId,
    b: ParticipantId,
    at: int,
)
    requires
        0 <= at < 32,
        forall|i: int| 0 <= i < at ==> #[trigger] a@[i] == b@[i],
        a@[at] < b@[at],
    ensures
        order::before(a.key(), b.key()),
        !order::before(b.key(), a.key()),
{
    a.lemma_len();
    b.lemma_len();
    assert forall|i: int| 0 <= i < at implies a.key()[i] == b.key()[i] by {
        assert(a@[i] == b@[i]);
    }
    order::law_the_first_difference_decides(a.key(), b.key(), at);
    order::law_the_first_difference_decides(b.key(), a.key(), at);
}

/// Participants are the same exactly where their bytes are, and epochs where their
/// nonces and their origins are.
pub proof fn law_epochs_are_their_fields(a: RunEpoch, b: RunEpoch)
    ensures
        vstd::std_specs::cmp::PartialEqSpec::eq_spec(&a.origin, &b.origin) <==> a.origin@
            == b.origin@,
        vstd::std_specs::cmp::PartialEqSpec::eq_spec(&a, &b) <==> a.nonce == b.nonce && a.origin@
            == b.origin@,
{
    if a.origin@ == b.origin@ {
        ParticipantId::lemma_extensional(a.origin, b.origin);
    }
}

} // verus!
