//! The boot-scoped hello and the channel binding made of two of them.

use crate::ble::error::BleWireError;
use crate::ble::limits::MIN_FRAGMENT_VALUE_BYTES;
use crate::bytes;
use crate::crypto;
use crate::session::identity::{ChannelBinding, PeerIdentity};
use vstd::prelude::*;

verus! {

pub const CAPABILITY_REALTIME: u32 = 1;

pub const CAPABILITY_HHHS_REPAIR: u32 = 2;

pub const CAPABILITY_BLE_MIDI_COEXISTENCE: u32 = 4;

pub const HELLO_BYTES: usize = 4 + 32 + 8 + 2 + 4;

/// The bytes of `TBH1`.
pub const HELLO_MAGIC: [u8; 4] = [0x54, 0x42, 0x48, 0x31];

/// The bytes of `TCB1`.
pub const BINDING_MAGIC: [u8; 4] = [0x54, 0x43, 0x42, 0x31];

/// One boot-scoped endpoint description exchanged before the signed session
/// offer. The hello is not trusted on its own: the subsequent signed offer or
/// answer must contain the same persistent identity.
#[derive(Clone, Copy, PartialEq, Eq, Debug)]
pub struct PeerHello {
    pub identity: PeerIdentity,
    pub boot_nonce: u64,
    /// Largest complete GATT characteristic value this endpoint accepts,
    /// including the fragment header.
    pub max_fragment_value_bytes: u16,
    pub capabilities: u32,
}

impl PeerHello {
    /// The hello on the wire.
    pub open spec fn encoded(self) -> Seq<u8> {
        HELLO_MAGIC@ + self.identity@ + bytes::be(self.boot_nonce as nat, 8) + bytes::be(
            self.max_fragment_value_bytes as nat,
            2,
        ) + bytes::be(self.capabilities as nat, 4)
    }

    /// Whether the endpoint accepts fragments that carry anything at all.
    pub open spec fn valid(self) -> bool {
        self.max_fragment_value_bytes >= MIN_FRAGMENT_VALUE_BYTES
    }

    pub fn encode(self) -> (out: [u8; HELLO_BYTES])
        ensures
            out@ == self.encoded(),
    {
        let mut out: Vec<u8> = bytes::to_vec(&HELLO_MAGIC);
        bytes::push_bytes(&mut out, self.identity.as_bytes());
        bytes::push_be(&mut out, self.boot_nonce, 8);
        bytes::push_be(&mut out, self.max_fragment_value_bytes as u64, 2);
        bytes::push_be(&mut out, self.capabilities as u64, 4);
        proof {
            lemma_hello_fields(self);
        }
        bytes::to_array::<HELLO_BYTES>(out.as_slice())
    }

    /// Accepts exactly the encodings of valid hellos, and says of the encoding
    /// of any other hello that its fragments are too small.
    pub fn decode(bytes: &[u8]) -> (result: Result<Self, BleWireError>)
        ensures
            match result {
                Ok(hello) => hello.valid() && bytes@ == hello.encoded(),
                Err(BleWireError::FragmentValueTooSmall { actual, minimum }) => minimum
                    == MIN_FRAGMENT_VALUE_BYTES && exists|hello: PeerHello|
                    !hello.valid() && actual == hello.max_fragment_value_bytes && bytes@
                        == #[trigger] hello.encoded(),
                Err(error) => error == BleWireError::MalformedHello && forall|hello: PeerHello|
                    #[trigger]
                    hello.encoded() != bytes@,
            },
    {
        if bytes.len() != HELLO_BYTES || !bytes::begins_with(bytes, &HELLO_MAGIC) {
            proof {
                assert forall|hello: PeerHello| #[trigger] hello.encoded() != bytes@ by {
                    lemma_hello_fields(hello);
                }
            }
            return Err(BleWireError::MalformedHello);
        }
        let hello = PeerHello {
            identity: PeerIdentity::from_bytes(bytes::array_at::<32>(bytes, 4)),
            boot_nonce: bytes::read_u64(bytes, 36),
            max_fragment_value_bytes: bytes::read_u16(bytes, 44),
            capabilities: bytes::read_u32(bytes, 46),
        };
        proof {
            let s = bytes@;
            bytes::lemma_be_canonical(s.subrange(36, 44));
            bytes::lemma_be_canonical(s.subrange(44, 46));
            bytes::lemma_be_canonical(s.subrange(46, 50));
            assert(s =~= hello.encoded());
        }
        if (hello.max_fragment_value_bytes as usize) < MIN_FRAGMENT_VALUE_BYTES {
            return Err(
                BleWireError::FragmentValueTooSmall {
                    actual: hello.max_fragment_value_bytes as usize,
                    minimum: MIN_FRAGMENT_VALUE_BYTES,
                },
            );
        }
        Ok(hello)
    }

    /// Whether the endpoint has every capability in `capability`.
    pub fn supports(self, capability: u32) -> (r: bool)
        ensures
            r == (self.capabilities & capability == capability),
    {
        self.capabilities & capability == capability
    }
}

proof fn lemma_hello_fields(hello: PeerHello)
    ensures
        hello.encoded().len() == HELLO_BYTES,
        HELLO_MAGIC@.is_prefix_of(hello.encoded()),
        hello.encoded().subrange(4, 36) == hello.identity@,
        bytes::be_at(hello.encoded(), 36, 44) == hello.boot_nonce,
        bytes::be_at(hello.encoded(), 44, 46) == hello.max_fragment_value_bytes,
        bytes::be_at(hello.encoded(), 46, 50) == hello.capabilities,
{
    let s = hello.encoded();
    hello.identity.lemma_len();
    bytes::lemma_be_len(hello.boot_nonce as nat, 8);
    bytes::lemma_be_len(hello.max_fragment_value_bytes as nat, 2);
    bytes::lemma_be_len(hello.capabilities as nat, 4);
    bytes::lemma_be_ranges();
    bytes::lemma_be_round_trip(hello.boot_nonce as nat, 8);
    bytes::lemma_be_round_trip(hello.max_fragment_value_bytes as nat, 2);
    bytes::lemma_be_round_trip(hello.capabilities as nat, 4);
    assert(s.subrange(0, 4) =~= HELLO_MAGIC@);
    assert(s.subrange(4, 36) =~= hello.identity@);
    assert(s.subrange(36, 44) =~= bytes::be(hello.boot_nonce as nat, 8));
    assert(s.subrange(44, 46) =~= bytes::be(hello.max_fragment_value_bytes as nat, 2));
    assert(s.subrange(46, 50) =~= bytes::be(hello.capabilities as nat, 4));
}

/// Different hellos have different encodings, so that what decodes is what was
/// encoded.
pub proof fn law_hello_encoding_is_injective(a: PeerHello, b: PeerHello)
    requires
        a.encoded() == b.encoded(),
    ensures
        a == b,
{
    lemma_hello_fields(a);
    lemma_hello_fields(b);
    PeerIdentity::lemma_extensional(a.identity, b.identity);
}

/// What the channel of two endpoints is bound to.
pub open spec fn binding_context(initiator: PeerHello, responder: PeerHello) -> Seq<u8> {
    BINDING_MAGIC@ + initiator.encoded() + responder.encoded()
}

/// The bytes that the channel of two endpoints is bound to.
pub fn encode_binding_context(initiator: PeerHello, responder: PeerHello) -> (context: Vec<u8>)
    ensures
        context@ == binding_context(initiator, responder),
{
    let mut context: Vec<u8> = bytes::to_vec(&BINDING_MAGIC);
    bytes::push_bytes(&mut context, &initiator.encode());
    bytes::push_bytes(&mut context, &responder.encode());
    context
}

/// Bind the signed session transcript to both persistent identities, both
/// fresh boot epochs, and the exact BLE service generation. Roles are ordered:
/// swapping initiator and responder produces another binding context.
pub fn channel_binding(initiator: PeerHello, responder: PeerHello) -> (binding: ChannelBinding)
    ensures
        binding@ == crypto::blake3_hash(binding_context(initiator, responder)),
{
    let context: Vec<u8> = encode_binding_context(initiator, responder);
    ChannelBinding::derive(context.as_slice())
}

/// No two ordered pairs of endpoints share a binding context: another role,
/// another boot or another identity gives another context.
pub proof fn law_binding_context_tells_endpoints_apart(
    a: PeerHello,
    b: PeerHello,
    c: PeerHello,
    d: PeerHello,
)
    requires
        binding_context(a, b) == binding_context(c, d),
    ensures
        a == c,
        b == d,
{
    lemma_hello_fields(a);
    lemma_hello_fields(b);
    lemma_hello_fields(c);
    lemma_hello_fields(d);
    let (x, y) = (binding_context(a, b), binding_context(c, d));
    assert(x.subrange(4, 54) =~= a.encoded());
    assert(y.subrange(4, 54) =~= c.encoded());
    assert(x.subrange(54, 104) =~= b.encoded());
    assert(y.subrange(54, 104) =~= d.encoded());
    law_hello_encoding_is_injective(a, c);
    law_hello_encoding_is_injective(b, d);
}

/// Where every field of a greeting stands. It is valid where a fragment has room for
/// its header and one byte.
pub proof fn law_greetings_have_their_layout(hello: PeerHello)
    ensures
        ({
            let s = hello.encoded();
            &&& s.len() == 50
            &&& s.subrange(0, 4) == seq![0x54u8, 0x42, 0x48, 0x31]
            &&& s.subrange(4, 36) == hello.identity@
            &&& bytes::be_at(s, 36, 44) == hello.boot_nonce
            &&& bytes::be_at(s, 44, 46) == hello.max_fragment_value_bytes
            &&& bytes::be_at(s, 46, 50) == hello.capabilities
        }),
        hello.valid() <==> hello.max_fragment_value_bytes >= 11,
{
    lemma_hello_fields(hello);
    assert(hello.encoded().subrange(0, 4) =~= seq![0x54u8, 0x42, 0x48, 0x31]);
}

/// A channel is bound to both greetings, the initiator's first.
pub proof fn law_bindings_hold_both_greetings(initiator: PeerHello, responder: PeerHello)
    ensures
        ({
            let s = binding_context(initiator, responder);
            &&& s.len() == 104
            &&& s.subrange(0, 4) == seq![0x54u8, 0x43, 0x42, 0x31]
            &&& s.subrange(4, 54) == initiator.encoded()
            &&& s.subrange(54, 104) == responder.encoded()
        }),
{
    lemma_hello_fields(initiator);
    lemma_hello_fields(responder);
    let s = binding_context(initiator, responder);
    assert(s.subrange(0, 4) =~= seq![0x54u8, 0x43, 0x42, 0x31]);
    assert(s.subrange(4, 54) =~= initiator.encoded());
    assert(s.subrange(54, 104) =~= responder.encoded());
}

} // verus!
