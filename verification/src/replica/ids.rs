//! The identifiers that a replica's entries and members go by.

use crate::bytes;
use crate::collections::Ordered;
use crate::crypto;
use crate::order;
use crate::session::identity::{PeerIdentity, SigningKey};
use crate::text;
use vstd::prelude::*;

verus! {

/// A content digest. Namespaces are digests.
#[derive(Clone, Copy, PartialEq, Eq, PartialOrd, Ord, Hash, Debug)]
pub struct Digest([u8; 32]);

impl View for Digest {
    type V = Seq<u8>;

    closed spec fn view(&self) -> Seq<u8> {
        self.0@
    }
}

impl Digest {
    pub fn from_bytes(bytes: [u8; 32]) -> (id: Self)
        ensures
            id@ == bytes@,
    {
        Digest(bytes)
    }

    pub fn as_bytes(&self) -> (bytes: &[u8; 32])
        ensures
            bytes@ == self@,
    {
        &self.0
    }

    pub fn same(&self, other: &Self) -> (r: bool)
        ensures
            r == (*self == *other),
    {
        let r: bool = bytes::same_bytes(&self.0, &other.0);
        proof {
            if self.0@ == other.0@ {
                bytes::lemma_array_ext(self.0, other.0);
            }
        }
        r
    }

    pub proof fn lemma_len(self)
        ensures
            self@.len() == 32,
    {
    }

    pub proof fn lemma_extensional(a: Self, b: Self)
        requires
            a@ == b@,
        ensures
            a == b,
    {
        bytes::lemma_array_ext(a.0, b.0);
    }
}

/// The content hash of a history entry.
#[derive(Clone, Copy, PartialEq, Eq, PartialOrd, Ord, Hash, Debug)]
pub struct EntryHash([u8; 32]);

impl View for EntryHash {
    type V = Seq<u8>;

    closed spec fn view(&self) -> Seq<u8> {
        self.0@
    }
}

impl EntryHash {
    pub fn from_bytes(bytes: [u8; 32]) -> (id: Self)
        ensures
            id@ == bytes@,
    {
        EntryHash(bytes)
    }

    pub fn as_bytes(&self) -> (bytes: &[u8; 32])
        ensures
            bytes@ == self@,
    {
        &self.0
    }

    pub fn same(&self, other: &Self) -> (r: bool)
        ensures
            r == (*self == *other),
    {
        let r: bool = bytes::same_bytes(&self.0, &other.0);
        proof {
            if self.0@ == other.0@ {
                bytes::lemma_array_ext(self.0, other.0);
            }
        }
        r
    }

    pub proof fn lemma_len(self)
        ensures
            self@.len() == 32,
    {
    }

    pub proof fn lemma_extensional(a: Self, b: Self)
        requires
            a@ == b@,
        ensures
            a == b,
    {
        bytes::lemma_array_ext(a.0, b.0);
    }
}

impl Ordered for EntryHash {
    open spec fn key(self) -> Seq<int> {
        order::byte_key(self@)
    }

    proof fn lemma_key_injective(a: Self, b: Self) {
        order::lemma_byte_key_injective(a@, b@);
        EntryHash::lemma_extensional(a, b);
    }

    fn precedes(&self, other: &Self) -> (r: bool) {
        order::bytes_before(&self.0, &other.0)
    }
}

/// Stable actor identity used by music commands and holder views.
///
/// Capability authority binds these bytes to an Ed25519 receiver. Open-session
/// authority treats them as an application-level identity supplied by an
/// already-authenticated channel.
#[derive(Clone, Copy, PartialEq, Eq, PartialOrd, Ord, Hash, Debug)]
pub struct ActorId([u8; 32]);

impl View for ActorId {
    type V = Seq<u8>;

    closed spec fn view(&self) -> Seq<u8> {
        self.0@
    }
}

impl ActorId {
    pub fn from_bytes(bytes: [u8; 32]) -> (id: Self)
        ensures
            id@ == bytes@,
    {
        ActorId(bytes)
    }

    pub fn as_bytes(&self) -> (bytes: &[u8; 32])
        ensures
            bytes@ == self@,
    {
        &self.0
    }

    pub fn same(&self, other: &Self) -> (r: bool)
        ensures
            r == (*self == *other),
    {
        let r: bool = bytes::same_bytes(&self.0, &other.0);
        proof {
            if self.0@ == other.0@ {
                bytes::lemma_array_ext(self.0, other.0);
            }
        }
        r
    }

    pub proof fn lemma_len(self)
        ensures
            self@.len() == 32,
    {
    }

    pub proof fn lemma_extensional(a: Self, b: Self)
        requires
            a@ == b@,
        ensures
            a == b,
    {
        bytes::lemma_array_ext(a.0, b.0);
    }

    pub fn from_signing_key(key: &SigningKey) -> (actor: Self)
        ensures
            actor@ == crypto::ed25519_public(key@),
    {
        let identity = PeerIdentity::from_signing_key(key);
        ActorId(*identity.as_bytes())
    }

    /// The receiver bytes that a capability grant names for this actor.
    pub fn receiver(self) -> (receiver: Vec<u8>)
        ensures
            receiver@ == self@,
    {
        bytes::to_vec(&self.0)
    }

    pub fn to_hex(self) -> (encoded: String)
        ensures
            encoded@ == hex(self@),
    {
        hex_of(&self.0)
    }
}

impl Ordered for ActorId {
    open spec fn key(self) -> Seq<int> {
        order::byte_key(self@)
    }

    proof fn lemma_key_injective(a: Self, b: Self) {
        order::lemma_byte_key_injective(a@, b@);
        ActorId::lemma_extensional(a, b);
    }

    fn precedes(&self, other: &Self) -> (r: bool) {
        order::bytes_before(&self.0, &other.0)
    }
}

/// A hexadecimal digit.
pub open spec fn hex_digit(d: int) -> char {
    if d < 10 {
        (('0' as u32) + d) as char
    } else {
        (('a' as u32) + (d - 10)) as char
    }
}

/// Bytes in lower-case hexadecimal, two digits each.
pub open spec fn hex(data: Seq<u8>) -> Seq<char>
    decreases data.len(),
{
    if data.len() == 0 {
        Seq::empty()
    } else {
        hex(data.drop_last()).push(hex_digit(data.last() as int / 16)).push(
            hex_digit(data.last() as int % 16),
        )
    }
}

fn push_hex_digit(out: &mut String, d: u8)
    requires
        d < 16,
    ensures
        final(out)@ == old(out)@.push(hex_digit(d as int)),
{
    if d < 10 {
        text::push_digit(out, d as u64);
        assert(text::digit(d as nat) == hex_digit(d as int));
    } else {
        let piece: &str = if d == 10 {
            "a"
        } else if d == 11 {
            "b"
        } else if d == 12 {
            "c"
        } else if d == 13 {
            "d"
        } else if d == 14 {
            "e"
        } else {
            "f"
        };
        proof {
            reveal_strlit("a");
            reveal_strlit("b");
            reveal_strlit("c");
            reveal_strlit("d");
            reveal_strlit("e");
            reveal_strlit("f");
            assert(piece@ =~= seq![hex_digit(d as int)]);
        }
        text::push_str(out, piece);
    }
    assert(out@ =~= old(out)@.push(hex_digit(d as int)));
}

/// Bytes in lower-case hexadecimal.
pub fn hex_of(data: &[u8]) -> (encoded: String)
    ensures
        encoded@ == hex(data@),
{
    let mut encoded: String = String::new();
    let mut i: usize = 0;
    assert(data@.subrange(0, 0).len() == 0);
    assert(encoded@ =~= hex(data@.subrange(0, 0)));
    while i < data.len()
        invariant
            i <= data@.len(),
            encoded@ == hex(data@.subrange(0, i as int)),
        decreases data@.len() - i,
    {
        assert(data@.subrange(0, i + 1).drop_last() =~= data@.subrange(0, i as int));
        push_hex_digit(&mut encoded, data[i] / 16);
        push_hex_digit(&mut encoded, data[i] % 16);
        i = i + 1;
    }
    assert(data@.subrange(0, i as int) =~= data@);
    encoded
}

/// Hexadecimal text has two digits for each byte, the upper half first, and its
/// digits are the sixteen usual ones in lower case.
pub proof fn law_hex_spells_each_byte(data: Seq<u8>, i: int)
    requires
        0 <= i < data.len(),
    ensures
        hex(data).len() == 2 * data.len(),
        hex(data)[2 * i] == "0123456789abcdef"@[data[i] as int / 16],
        hex(data)[2 * i + 1] == "0123456789abcdef"@[data[i] as int % 16],
    decreases data.len(),
{
    reveal_strlit("0123456789abcdef");
    lemma_hex_len(data);
    let front = data.drop_last();
    lemma_hex_len(front);
    if i < front.len() {
        law_hex_spells_each_byte(front, i);
        assert(hex(data)[2 * i] == hex(front)[2 * i]);
        assert(hex(data)[2 * i + 1] == hex(front)[2 * i + 1]);
    } else {
        lemma_hex_digits(data[i] as int / 16);
        lemma_hex_digits(data[i] as int % 16);
    }
}

proof fn lemma_hex_len(data: Seq<u8>)
    ensures
        hex(data).len() == 2 * data.len(),
    decreases data.len(),
{
    if data.len() > 0 {
        lemma_hex_len(data.drop_last());
    }
}

proof fn lemma_hex_digits(d: int)
    requires
        0 <= d < 16,
    ensures
        hex_digit(d) == "0123456789abcdef"@[d],
{
    reveal_strlit("0123456789abcdef");
    let s = "0123456789abcdef"@;
    assert(s[0] == '0' && s[1] == '1' && s[2] == '2' && s[3] == '3' && s[4] == '4' && s[5] == '5'
        && s[6] == '6' && s[7] == '7');
    assert(s[8] == '8' && s[9] == '9' && s[10] == 'a' && s[11] == 'b' && s[12] == 'c' && s[13]
        == 'd' && s[14] == 'e' && s[15] == 'f');
}

/// Hashes and actors are ordered by the first byte in which they differ.
pub proof fn law_hashes_are_ordered_by_their_bytes(
    a: EntryHash,
    b: EntryHash,
    c: ActorId,
    d: ActorId,
    at: int,
)
    requires
        0 <= at < 32,
    ensures
        (forall|i: int| 0 <= i < at ==> #[trigger] a@[i] == b@[i]) && a@[at] < b@[at]
            ==> order::before(a.key(), b.key()) && !order::before(b.key(), a.key()),
        (forall|i: int| 0 <= i < at ==> #[trigger] c@[i] == d@[i]) && c@[at] < d@[at]
            ==> order::before(c.key(), d.key()) && !order::before(d.key(), c.key()),
{
    a.lemma_len();
    b.lemma_len();
    c.lemma_len();
    d.lemma_len();
    if (forall|i: int| 0 <= i < at ==> #[trigger] a@[i] == b@[i]) && a@[at] < b@[at] {
        assert forall|i: int| 0 <= i < at implies a.key()[i] == b.key()[i] by {
            assert(a@[i] == b@[i]);
        }
        order::law_the_first_difference_decides(a.key(), b.key(), at);
        order::law_the_first_difference_decides(b.key(), a.key(), at);
    }
    if (forall|i: int| 0 <= i < at ==> #[trigger] c@[i] == d@[i]) && c@[at] < d@[at] {
        assert forall|i: int| 0 <= i < at implies c.key()[i] == d.key()[i] by {
            assert(c@[i] == d@[i]);
        }
        order::law_the_first_difference_decides(c.key(), d.key(), at);
        order::law_the_first_difference_decides(d.key(), c.key(), at);
    }
}

} // verus!
