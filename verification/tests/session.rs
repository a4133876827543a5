use tutti::session::handshake::judge_signature;
use tutti::session::identity::accept_shared;
use tutti::session::keys::{check_tag, encode_export_input, encode_tag_input, tag_of_digest};
use tutti::session::{
    Answer, ChannelBinding, EphemeralSecret, Offer, PeerIdentity, PendingInitiator, ProtocolId,
    ReplayError, ReplayWindow, SessionError, SessionKeys, SigningKey, ANSWER_BYTES, OFFER_BYTES,
};

fn establish() -> (SessionKeys, SessionKeys) {
    let initiator_key = SigningKey::from_bytes(&[1; 32]);
    let responder_key = SigningKey::from_bytes(&[2; 32]);
    let protocol = ProtocolId::derive(b"tutti test repair lane");
    let binding = ChannelBinding::derive(b"mac-a/boot-a/mac-b/boot-b");
    let (pending, offer) = PendingInitiator::begin(
        &initiator_key,
        protocol,
        binding,
        77,
        EphemeralSecret::from_bytes([3; 32]),
    );
    let verified = Offer::decode(offer.as_bytes())
        .unwrap()
        .verify(protocol, binding)
        .unwrap();
    assert_eq!(
        verified.identity(),
        PeerIdentity::from_signing_key(&initiator_key)
    );
    let (answer, responder) = verified
        .respond(&responder_key, EphemeralSecret::from_bytes([4; 32]))
        .unwrap();
    let initiator = pending
        .complete(
            answer.as_bytes(),
            PeerIdentity::from_signing_key(&responder_key),
        )
        .unwrap();
    (initiator, responder)
}

fn responder_identity() -> PeerIdentity {
    PeerIdentity::from_signing_key(&SigningKey::from_bytes(&[2; 32]))
}

#[test]
fn handshake_derives_directional_interoperable_keys() {
    let (initiator, responder) = establish();
    assert_eq!(initiator.peer(), responder_identity());
    let frame = b"one ordinary HHHS repair frame";
    let tag = initiator.authenticate(frame);
    responder.verify(frame, &tag).unwrap();
    assert!(responder.verify(b"tampered", &tag).is_err());
    assert!(initiator.verify(frame, &tag).is_err());

    let reply = b"repair reply";
    initiator
        .verify(reply, &responder.authenticate(reply))
        .unwrap();

    let context = b"exact hhhs manifest digest plus channel binding";
    let mut initiator_export = initiator.export_directional(context);
    let mut responder_export = responder.export_directional(context);
    assert_eq!(
        initiator_export.take_send(),
        responder_export.take_receive()
    );
    assert_eq!(
        initiator_export.take_receive(),
        responder_export.take_send()
    );
    assert_ne!(
        initiator.export_directional(context).take_send(),
        initiator
            .export_directional(b"another hhhs manifest")
            .take_send()
    );
}

#[test]
fn handshake_binds_protocol_channel_peer_and_transcript() {
    let initiator_key = SigningKey::from_bytes(&[11; 32]);
    let responder_key = SigningKey::from_bytes(&[12; 32]);
    let protocol = ProtocolId::derive(b"expected protocol");
    let binding = ChannelBinding::derive(b"expected endpoints and boots");
    let (pending, offer) = PendingInitiator::begin(
        &initiator_key,
        protocol,
        binding,
        91,
        EphemeralSecret::from_bytes([13; 32]),
    );
    assert_eq!(
        Offer::decode(offer.as_bytes())
            .unwrap()
            .verify(ProtocolId::derive(b"other protocol"), binding)
            .err(),
        Some(SessionError::WrongProtocol)
    );
    let verified = Offer::decode(offer.as_bytes())
        .unwrap()
        .verify(protocol, binding)
        .unwrap();
    let (answer, _) = verified
        .respond(&responder_key, EphemeralSecret::from_bytes([14; 32]))
        .unwrap();
    let mut tampered = *answer.as_bytes();
    tampered[141] ^= 1;
    assert_eq!(
        pending
            .complete(&tampered, PeerIdentity::from_signing_key(&responder_key))
            .err(),
        Some(SessionError::TranscriptMismatch)
    );
}

#[test]
fn replay_window_accepts_reordering_once() {
    let mut window = ReplayWindow::default();
    window.check_and_mark(100).unwrap();
    window.check_and_mark(102).unwrap();
    window.check_and_mark(101).unwrap();
    assert_eq!(window.check_and_mark(101), Err(ReplayError::Duplicate));
    assert_eq!(window.check_and_mark(1), Err(ReplayError::TooOld));
    window.check_and_mark(200).unwrap();
}

fn begun() -> (PendingInitiator, Offer) {
    PendingInitiator::begin(
        &SigningKey::from_bytes(&[21; 32]),
        ProtocolId::derive(b"p"),
        ChannelBinding::derive(b"c"),
        5,
        EphemeralSecret::from_bytes([23; 32]),
    )
}

#[test]
fn offers_of_another_channel_or_with_a_broken_signature_are_refused() {
    let (_, offer) = begun();
    let protocol = ProtocolId::derive(b"p");
    let binding = ChannelBinding::derive(b"c");
    assert_eq!(offer.session_id(), 5);
    assert_eq!(offer.protocol(), protocol);
    assert_eq!(offer.channel_binding(), binding);
    assert_eq!(
        Offer::decode(offer.as_bytes())
            .unwrap()
            .verify(protocol, ChannelBinding::derive(b"d"))
            .err(),
        Some(SessionError::WrongChannelBinding)
    );
    let mut bytes = *offer.as_bytes();
    bytes[OFFER_BYTES - 1] ^= 1;
    assert_eq!(
        Offer::decode(&bytes)
            .unwrap()
            .verify(protocol, binding)
            .err(),
        Some(SessionError::Authentication)
    );
}

#[test]
fn malformed_session_messages_are_refused() {
    let (_, offer) = begun();
    assert_eq!(
        Offer::decode(&offer.as_bytes()[..OFFER_BYTES - 1]).err(),
        Some(SessionError::Malformed)
    );
    let mut bytes = *offer.as_bytes();
    bytes[0] ^= 1;
    assert_eq!(Offer::decode(&bytes).err(), Some(SessionError::Malformed));
    assert_eq!(
        Answer::decode(&[0; ANSWER_BYTES]).err(),
        Some(SessionError::Malformed)
    );
}

#[test]
fn answers_of_another_peer_are_refused() {
    let (pending, offer) = begun();
    let (answer, _) = Offer::decode(offer.as_bytes())
        .unwrap()
        .verify(ProtocolId::derive(b"p"), ChannelBinding::derive(b"c"))
        .unwrap()
        .respond(
            &SigningKey::from_bytes(&[22; 32]),
            EphemeralSecret::from_bytes([24; 32]),
        )
        .unwrap();
    assert_eq!(
        pending
            .complete(answer.as_bytes(), PeerIdentity::from_bytes([9; 32]))
            .err(),
        Some(SessionError::UnexpectedPeer)
    );
}

#[test]
fn an_invalid_identity_and_a_refused_signature_are_told_apart() {
    assert_eq!(judge_signature(false, true), Err(SessionError::InvalidIdentity));
    assert_eq!(judge_signature(true, false), Err(SessionError::Authentication));
    assert_eq!(judge_signature(true, true), Ok(()));
}

#[test]
fn an_all_zero_shared_secret_is_refused() {
    assert_eq!(
        accept_shared([0; 32]),
        Err(SessionError::InvalidKeyAgreement)
    );
    assert_eq!(accept_shared([7; 32]), Ok([7; 32]));
}

#[test]
fn signing_and_identity_match_the_published_ed25519_vector() {
    let seed = [
        0x9d, 0x61, 0xb1, 0x9d, 0xef, 0xfd, 0x5a, 0x60, 0xba, 0x84, 0x4a, 0xf4, 0x92, 0xec, 0x2c,
        0xc4, 0x44, 0x49, 0xc5, 0x69, 0x7b, 0x32, 0x69, 0x19, 0x70, 0x3b, 0xac, 0x03, 0x1c, 0xae,
        0x7f, 0x60,
    ];
    let key = SigningKey::from_bytes(&seed);
    assert_eq!(
        PeerIdentity::from_signing_key(&key).as_bytes(),
        &[
            0xd7, 0x5a, 0x98, 0x01, 0x82, 0xb1, 0x0a, 0xb7, 0xd5, 0x4b, 0xfe, 0xd3, 0xc9, 0x64,
            0x07, 0x3a, 0x0e, 0xe1, 0x72, 0xf3, 0xda, 0xa6, 0x23, 0x25, 0xaf, 0x02, 0x1a, 0x68,
            0xf7, 0x07, 0x51, 0x1a,
        ]
    );
    let signature = key.sign(b"");
    assert_eq!(&signature[..4], &[0xe5, 0x56, 0x43, 0x00]);
    assert_eq!(&signature[60..], &[0x8e, 0x7a, 0x10, 0x0b]);
}

#[test]
fn protocol_identifiers_are_digests_of_their_label() {
    assert_eq!(
        ProtocolId::derive(b"").as_bytes(),
        &[
            0xaf, 0x13, 0x49, 0xb9, 0xf5, 0xf9, 0xa1, 0xa6, 0xa0, 0x40, 0x4d, 0xea, 0x36, 0xdc,
            0xc9, 0x49, 0x9b, 0xcb, 0x25, 0xc9, 0xad, 0xc1, 0x12, 0xb7, 0xcc, 0x9a, 0x93, 0xca,
            0xe4, 0x1f, 0x32, 0x62,
        ]
    );
    assert_ne!(ProtocolId::derive(b"a"), ProtocolId::derive(b"b"));
}

#[test]
fn tags_are_the_front_of_a_digest_and_compare_exactly() {
    let mut digest = [0u8; 32];
    for (i, byte) in digest.iter_mut().enumerate() {
        *byte = i as u8;
    }
    let tag = tag_of_digest(&digest);
    assert_eq!(tag, [0, 1, 2, 3, 4, 5, 6, 7, 8, 9, 10, 11, 12, 13, 14, 15]);
    assert_eq!(check_tag(&tag, &tag), Ok(()));
    let mut other = tag;
    other[15] ^= 1;
    assert_eq!(check_tag(&tag, &other), Err(SessionError::Authentication));
    assert_eq!(
        check_tag(&tag, &tag[..15]),
        Err(SessionError::Authentication)
    );
}

#[test]
fn tag_and_export_inputs_bind_the_session_and_the_content() {
    assert_ne!(encode_tag_input(1, b"x"), encode_tag_input(2, b"x"));
    assert_ne!(encode_tag_input(1, b"x"), encode_tag_input(1, b"y"));
    assert_ne!(encode_export_input(1, b"x"), encode_export_input(2, b"x"));
    assert!(encode_tag_input(0x0102, b"frame").ends_with(b"frame"));
}

#[test]
fn exported_secrets_are_handed_out_once() {
    let (initiator, _) = establish();
    let mut secrets = initiator.export_directional(b"context");
    assert_ne!(secrets.take_send(), [0; 32]);
    assert_eq!(secrets.take_send(), [0; 32]);
    assert_ne!(secrets.take_receive(), [0; 32]);
    assert_eq!(secrets.take_receive(), [0; 32]);
}

#[test]
fn a_window_slides_past_large_gaps() {
    let mut window = ReplayWindow::default();
    window.check_and_mark(0).unwrap();
    window.check_and_mark(63).unwrap();
    window.check_and_mark(1).unwrap();
    window.check_and_mark(u64::MAX).unwrap();
    assert_eq!(window.check_and_mark(0), Err(ReplayError::TooOld));
    window.check_and_mark(u64::MAX - 63).unwrap();
    assert_eq!(
        window.check_and_mark(u64::MAX - 64),
        Err(ReplayError::TooOld)
    );
}

#[test]
fn session_errors_have_their_messages() {
    assert_eq!(
        SessionError::Malformed.message(),
        "malformed session message"
    );
    assert_eq!(
        SessionError::UnexpectedPeer.message(),
        "the responder is not the expected peer"
    );
    assert_eq!(
        ReplayError::Duplicate.message(),
        "message was already accepted"
    );
}

#[test]
fn an_offer_under_no_curve_point_has_an_invalid_identity() {
    let (_, offer) = begun();
    let identity = PeerIdentity::from_signing_key(&SigningKey::from_bytes(&[21; 32]));
    let bytes = offer.as_bytes();
    let at = bytes
        .windows(32)
        .position(|window| window == identity.as_bytes())
        .unwrap();
    let answers: Vec<_> = (0..=255u8)
        .map(|first| {
            let mut forged = bytes.to_vec();
            forged[at..at + 32].copy_from_slice(&[0; 32]);
            forged[at] = first;
            Offer::decode(&forged)
                .unwrap()
                .verify(ProtocolId::derive(b"p"), ChannelBinding::derive(b"c"))
                .err()
        })
        .collect();
    assert!(answers.contains(&Some(SessionError::InvalidIdentity)));
    assert!(answers.contains(&Some(SessionError::Authentication)));
    assert!(!answers.contains(&None));
}
