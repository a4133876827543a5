//! Offers and answers on the wire.

use crate::ble::error::BleWireError;
use crate::ble::limits::WIRE_MAGIC;
use crate::bytes;
use crate::session::error::SessionError;
use crate::session::handshake;
use crate::session::handshake::{Answer, Offer, ANSWER_BYTES, OFFER_BYTES};
use vstd::prelude::*;

verus! {

pub const WIRE_OFFER: u8 = 1;

pub const WIRE_ANSWER: u8 = 2;

/// A handshake message on the wire.
pub open spec fn bootstrap(kind: u8, body: Seq<u8>) -> Seq<u8> {
    WIRE_MAGIC@ + seq![kind] + body
}

/// Whether `wire` is a handshake message of this kind and size.
pub open spec fn is_bootstrap(wire: Seq<u8>, kind: u8, body_bytes: nat) -> bool {
    &&& wire.len() == 5 + body_bytes
    &&& WIRE_MAGIC@.is_prefix_of(wire)
    &&& wire[4] == kind
}

fn encode_bootstrap(kind: u8, body: &[u8]) -> (wire: Vec<u8>)
    ensures
        wire@ == bootstrap(kind, body@),
{
    let mut wire: Vec<u8> = bytes::to_vec(&WIRE_MAGIC);
    wire.push(kind);
    bytes::push_bytes(&mut wire, body);
    assert(wire@ =~= bootstrap(kind, body@));
    wire
}

fn decode_bootstrap<'a>(wire: &'a [u8], kind: u8, body_bytes: usize) -> (result: Result<
    &'a [u8],
    BleWireError,
>)
    requires
        body_bytes <= usize::MAX - 5,
    ensures
        match result {
            Ok(body) => is_bootstrap(wire@, kind, body_bytes as nat) && body@ == wire@.subrange(
                5,
                wire@.len() as int,
            ),
            Err(error) => !is_bootstrap(wire@, kind, body_bytes as nat) && error
                == BleWireError::MalformedBootstrap,
        },
{
    if wire.len() != 5 + body_bytes || !bytes::begins_with(wire, &WIRE_MAGIC) || wire[4] != kind {
        return Err(BleWireError::MalformedBootstrap);
    }
    Ok(&wire[5..wire.len()])
}

pub fn encode_offer(offer: &Offer) -> (wire: Vec<u8>)
    ensures
        wire@ == bootstrap(WIRE_OFFER, offer@),
{
    encode_bootstrap(WIRE_OFFER, offer.as_bytes())
}

/// Accepts exactly the offers on the wire.
pub fn decode_offer(bytes: &[u8]) -> (result: Result<Offer, BleWireError>)
    ensures
        match result {
            Ok(offer) => handshake::framed(
                offer@,
                handshake::OFFER_KIND,
                OFFER_BYTES as nat,
            ) && bytes@ == bootstrap(WIRE_OFFER, offer@),
            Err(BleWireError::Session(error)) => error == SessionError::Malformed && is_bootstrap(
                bytes@,
                WIRE_OFFER,
                OFFER_BYTES as nat,
            ) && !handshake::framed(
                bytes@.subrange(5, bytes@.len() as int),
                handshake::OFFER_KIND,
                OFFER_BYTES as nat,
            ),
            Err(error) => error == BleWireError::MalformedBootstrap && !is_bootstrap(
                bytes@,
                WIRE_OFFER,
                OFFER_BYTES as nat,
            ),
        },
{
    let body: &[u8] = match decode_bootstrap(bytes, WIRE_OFFER, OFFER_BYTES) {
        Ok(body) => body,
        Err(error) => {
            return Err(error);
        },
    };
    match Offer::decode(body) {
        Ok(offer) => {
            assert(bytes@ =~= bootstrap(WIRE_OFFER, offer@));
            Ok(offer)
        },
        Err(error) => Err(BleWireError::Session(error)),
    }
}

pub fn encode_answer(answer: &Answer) -> (wire: Vec<u8>)
    ensures
        wire@ == bootstrap(WIRE_ANSWER, answer@),
{
    encode_bootstrap(WIRE_ANSWER, answer.as_bytes())
}

/// Accepts exactly the answers on the wire.
pub fn decode_answer(bytes: &[u8]) -> (result: Result<Answer, BleWireError>)
    ensures
        match result {
            Ok(answer) => handshake::framed(
                answer@,
                handshake::ANSWER_KIND,
                ANSWER_BYTES as nat,
            ) && bytes@ == bootstrap(WIRE_ANSWER, answer@),
            Err(BleWireError::Session(error)) => error == SessionError::Malformed && is_bootstrap(
                bytes@,
                WIRE_ANSWER,
                ANSWER_BYTES as nat,
            ) && !handshake::framed(
                bytes@.subrange(5, bytes@.len() as int),
                handshake::ANSWER_KIND,
                ANSWER_BYTES as nat,
            ),
            Err(error) => error == BleWireError::MalformedBootstrap && !is_bootstrap(
                bytes@,
                WIRE_ANSWER,
                ANSWER_BYTES as nat,
            ),
        },
{
    let body: &[u8] = match decode_bootstrap(bytes, WIRE_ANSWER, ANSWER_BYTES) {
        Ok(body) => body,
        Err(error) => {
            return Err(error);
        },
    };
    match Answer::decode(body) {
        Ok(answer) => {
            assert(bytes@ =~= bootstrap(WIRE_ANSWER, answer@));
            Ok(answer)
        },
        Err(error) => Err(BleWireError::Session(error)),
    }
}

/// A handshake message survives the wire, and is never taken for one of the
/// other kind.
pub proof fn law_bootstrap_survives(kind: u8, body: Seq<u8>)
    ensures
        is_bootstrap(bootstrap(kind, body), kind, body.len()),
        bootstrap(kind, body).subrange(5, bootstrap(kind, body).len() as int) == body,
        forall|other: u8, len: nat|
            #[trigger] is_bootstrap(bootstrap(kind, body), other, len) ==> other == kind && len
                == body.len(),
{
    let wire = bootstrap(kind, body);
    assert(wire.subrange(0, 4) =~= WIRE_MAGIC@);
    assert(wire.subrange(5, wire.len() as int) =~= body);
}

/// A bootstrap message is the magic of the wire, its kind, and the message of the
/// handshake that it carries.
pub proof fn law_bootstraps_have_their_layout(kind: u8, body: Seq<u8>, wire: Seq<u8>)
    ensures
        bootstrap(kind, body) == seq![0x54u8, 0x42, 0x4c, 0x31, kind] + body,
        is_bootstrap(wire, kind, body.len()) <==> wire.len() == 5 + body.len() && wire[0] == 0x54
            && wire[1] == 0x42 && wire[2] == 0x4c && wire[3] == 0x31 && wire[4] == kind,
        WIRE_OFFER == 1,
        WIRE_ANSWER == 2,
{
    assert(bootstrap(kind, body) =~= seq![0x54u8, 0x42, 0x4c, 0x31, kind] + body);
    if wire.len() == 5 + body.len() && wire[0] == 0x54 && wire[1] == 0x42 && wire[2] == 0x4c
        && wire[3] == 0x31 {
        assert(WIRE_MAGIC@ =~= wire.subrange(0, 4));
    }
    if wire.len() == 5 + body.len() && WIRE_MAGIC@.is_prefix_of(wire) {
        assert(wire[0] == WIRE_MAGIC@[0] && wire[1] == WIRE_MAGIC@[1] && wire[2] == WIRE_MAGIC@[2]
            && wire[3] == WIRE_MAGIC@[3]);
    }
}

} // verus!
