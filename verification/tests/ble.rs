use std::collections::BTreeMap;

use tutti::ble::fragment::decode_fragment;
use tutti::ble::repair_close::{attempt_of_digest, encode_attempt_input};
use tutti::ble::{
    channel_binding, complete_wire_ceiling, decode_answer, decode_control_frame, decode_offer,
    encode_answer, encode_control_capability_bundle, encode_control_capability_ready,
    encode_control_profile, encode_control_repair_ack, encode_control_repair_fin, encode_offer,
    realtime_generation, repair_attempt_id, session_protocol_id, with_realtime_generation,
    BleRepairStream, BleWireError, CapabilityReady, ControlFrame, Fragment, FragmentCursor, Fragmenter, Lane,
    LaneProfile, PeerHello, Reassembler, ReassemblyBudget, RepairAck, RepairAttemptId,
    RepairCloseError, RepairCloseState, RepairFin, SessionCodec, AUTHENTICATED_HEADER_BYTES,
    CAPABILITY_BLE_MIDI_COEXISTENCE, CAPABILITY_HHHS_REPAIR, CAPABILITY_REALTIME,
    CONTROL_CAPABILITY_READY_BYTES, CONTROL_PROFILE_BYTES, CONTROL_REPAIR_LIFECYCLE_BYTES,
    DEFAULT_MAX_PAYLOAD_BYTES, FRAGMENT_HEADER_BYTES, HARD_MAX_PAYLOAD_BYTES, HARD_MAX_WIRE_BYTES,
    MIN_FRAGMENT_VALUE_BYTES, PROFILE_CAP_MUSIC, REPAIR_ATTEMPT_ID_BYTES,
};
use tutti::session::{
    EphemeralSecret, PeerIdentity, PendingInitiator, ProtocolId, ReplayError, SessionError,
    SessionKeys, SigningKey,
};

fn establish() -> (SessionKeys, SessionKeys, PeerHello, PeerHello) {
    let initiator_key = SigningKey::from_bytes(&[1; 32]);
    let responder_key = SigningKey::from_bytes(&[2; 32]);
    let initiator_hello = PeerHello {
        identity: PeerIdentity::from_signing_key(&initiator_key),
        boot_nonce: 11,
        max_fragment_value_bytes: 185,
        capabilities: CAPABILITY_REALTIME | CAPABILITY_HHHS_REPAIR,
    };
    let responder_hello = PeerHello {
        identity: PeerIdentity::from_signing_key(&responder_key),
        boot_nonce: 22,
        max_fragment_value_bytes: 185,
        capabilities: CAPABILITY_REALTIME
            | CAPABILITY_HHHS_REPAIR
            | CAPABILITY_BLE_MIDI_COEXISTENCE,
    };
    let binding = channel_binding(initiator_hello, responder_hello);
    let (pending, offer) = PendingInitiator::begin(
        &initiator_key,
        ProtocolId::derive(b"tutti BLE bridge test"),
        binding,
        77,
        EphemeralSecret::from_bytes([3; 32]),
    );
    let offer_wire = encode_offer(&offer);
    let verified = decode_offer(&offer_wire)
        .unwrap()
        .verify(ProtocolId::derive(b"tutti BLE bridge test"), binding)
        .unwrap();
    assert_eq!(verified.identity(), initiator_hello.identity);
    let (answer, responder) = verified
        .respond(&responder_key, EphemeralSecret::from_bytes([4; 32]))
        .unwrap();
    let answer_wire = encode_answer(&answer);
    let initiator = pending
        .complete(
            decode_answer(&answer_wire).unwrap().as_bytes(),
            responder_hello.identity,
        )
        .unwrap();
    (initiator, responder, initiator_hello, responder_hello)
}

#[test]
fn hello_round_trips_and_binds_roles_and_boots() {
    let (_, _, initiator, responder) = establish();
    assert_eq!(PeerHello::decode(&initiator.encode()).unwrap(), initiator);
    assert!(responder.supports(CAPABILITY_BLE_MIDI_COEXISTENCE));
    assert_ne!(
        channel_binding(initiator, responder),
        channel_binding(responder, initiator)
    );
    let mut rebooted = responder;
    rebooted.boot_nonce += 1;
    assert_ne!(
        channel_binding(initiator, responder),
        channel_binding(initiator, rebooted)
    );
}

#[test]
fn session_protocol_and_lane_profile_are_frozen() {
    assert_eq!(
        session_protocol_id().as_bytes(),
        &[
            0xe8, 0x2a, 0xc5, 0x74, 0x1b, 0x59, 0xbc, 0x35, 0x60, 0x78, 0xdd, 0x97, 0x52, 0xd9,
            0x14, 0x55, 0x62, 0xe3, 0x91, 0x3a, 0xc2, 0x68, 0xf3, 0x5f, 0xcd, 0x5b, 0xa8, 0x4d,
            0x93, 0x01, 0x6f, 0x8c,
        ]
    );
    let capabilities = with_realtime_generation(3, 7);
    assert_eq!(realtime_generation(capabilities), 7);
    assert_eq!(capabilities & 0x00ff_ffff, 3);
    let profile = LaneProfile {
        music_generation: 7,
        music_vocabulary_generation: 1,
        max_replica_record_bytes: 1456,
        hhhs_strategy_version: 1,
        hhhs_repair_generation: 2,
        application_generation: 5,
        capabilities,
        max_authenticated_payload_bytes: 4_096,
        max_repair_frame_bytes: 60 * 1_024,
    };
    let bytes = profile.encode();
    assert_eq!(&bytes[..4], b"TBP3");
    assert_eq!(LaneProfile::decode(&bytes).unwrap(), profile);
    let mut legacy = bytes;
    legacy[..4].copy_from_slice(b"TBP1");
    assert!(matches!(
        LaneProfile::decode(&legacy),
        Err(BleWireError::MalformedProfile)
    ));
    let mut invalid = bytes;
    invalid[32..36].fill(0);
    assert!(matches!(
        LaneProfile::decode(&invalid),
        Err(BleWireError::MalformedProfile)
    ));
}

#[test]
fn authenticated_control_vocabulary_is_tagged_and_versioned() {
    let profile = LaneProfile {
        music_generation: 8,
        music_vocabulary_generation: 1,
        max_replica_record_bytes: 1456,
        hhhs_strategy_version: 1,
        hhhs_repair_generation: 2,
        application_generation: 5,
        capabilities: with_realtime_generation(PROFILE_CAP_MUSIC, 3),
        max_authenticated_payload_bytes: 1541,
        max_repair_frame_bytes: 1536,
    };
    let encoded_profile = encode_control_profile(profile);
    assert_eq!(encoded_profile.len(), CONTROL_PROFILE_BYTES);
    assert_eq!(&encoded_profile[..5], b"TBC1\x01");
    assert_eq!(
        decode_control_frame(&encoded_profile).unwrap(),
        ControlFrame::Profile(profile)
    );
    assert!(matches!(
        decode_control_frame(&profile.encode()),
        Err(BleWireError::MalformedControlFrame)
    ));

    let bundle = vec![0x42; 1118];
    let encoded_bundle = encode_control_capability_bundle(&bundle).unwrap();
    assert_eq!(&encoded_bundle[..5], b"TBC1\x02");
    assert_eq!(
        decode_control_frame(&encoded_bundle).unwrap(),
        ControlFrame::CapabilityBundle(&bundle)
    );

    let attempt = RepairAttemptId::new([0xa5; REPAIR_ATTEMPT_ID_BYTES]);
    let fin = RepairFin {
        attempt,
        last_repair_sequence: 41,
    };
    let ack = RepairAck {
        attempt,
        fin_sequence: 42,
    };
    let encoded_fin = encode_control_repair_fin(fin);
    let encoded_ack = encode_control_repair_ack(ack);
    assert_eq!(encoded_fin.len(), CONTROL_REPAIR_LIFECYCLE_BYTES);
    assert_eq!(encoded_ack.len(), CONTROL_REPAIR_LIFECYCLE_BYTES);
    assert_eq!(
        decode_control_frame(&encoded_fin).unwrap(),
        ControlFrame::RepairFin(fin)
    );
    assert_eq!(
        decode_control_frame(&encoded_ack).unwrap(),
        ControlFrame::RepairAck(ack)
    );
    let ready = CapabilityReady {
        bundle_digest: [0x5a; 32],
    };
    let encoded_ready = encode_control_capability_ready(ready);
    assert_eq!(encoded_ready.len(), CONTROL_CAPABILITY_READY_BYTES);
    assert_eq!(
        decode_control_frame(&encoded_ready).unwrap(),
        ControlFrame::CapabilityReady(ready)
    );

    let mut unknown = encoded_profile;
    unknown[4] = 0xff;
    assert!(matches!(
        decode_control_frame(&unknown),
        Err(BleWireError::UnknownControlFrame(0xff))
    ));
}

#[test]
fn repair_attempt_identity_binds_link_and_opening_frame() {
    let first = repair_attempt_id(7, b"hhhs hello");
    assert_eq!(first, repair_attempt_id(7, b"hhhs hello"));
    assert_ne!(first, repair_attempt_id(8, b"hhhs hello"));
    assert_ne!(first, repair_attempt_id(7, b"another hello"));
}

#[test]
fn repair_close_requires_both_terminal_prefixes_and_confirmed_acks() {
    let attempt = repair_attempt_id(17, b"opening");
    let mut left = RepairCloseState::new(attempt);
    let mut right = RepairCloseState::new(attempt);

    left.observe_local_repair(10).unwrap();
    right.observe_remote_repair(10).unwrap();
    right.observe_local_repair(11).unwrap();
    left.observe_remote_repair(11).unwrap();
    left.mark_local_terminal();
    right.mark_local_terminal();

    let left_fin = left.local_fin().unwrap();
    left.observe_local_fin_encoded(12).unwrap();
    right.observe_remote_fin(left_fin, 12).unwrap();
    let right_fin = right.local_fin().unwrap();
    right.observe_local_fin_encoded(13).unwrap();
    left.observe_remote_fin(right_fin, 13).unwrap();

    let left_ack = left.remote_ack().unwrap();
    left.observe_remote_ack_encoded(14).unwrap();
    let right_ack = right.remote_ack().unwrap();
    right.observe_remote_ack_encoded(15).unwrap();
    right.observe_local_fin_ack(left_ack).unwrap();
    left.observe_local_fin_ack(right_ack).unwrap();

    assert!(!left.is_confirmed_closed());
    assert!(!right.is_confirmed_closed());
    left.confirm_remote_ack_sent(14).unwrap();
    right.confirm_remote_ack_sent(15).unwrap();
    assert!(left.is_confirmed_closed());
    assert!(right.is_confirmed_closed());
}

#[test]
fn repair_close_refuses_early_stale_and_truncated_lifecycle_messages() {
    let attempt = RepairAttemptId::new([0x31; REPAIR_ATTEMPT_ID_BYTES]);
    let other = RepairAttemptId::new([0x32; REPAIR_ATTEMPT_ID_BYTES]);
    let mut state = RepairCloseState::new(attempt);
    state.observe_local_repair(4).unwrap();
    assert_eq!(state.local_fin(), Err(RepairCloseError::FinBeforeTerminal));
    state.mark_local_terminal();
    assert_eq!(
        state.observe_remote_fin(
            RepairFin {
                attempt: other,
                last_repair_sequence: 8,
            },
            9,
        ),
        Err(RepairCloseError::WrongAttempt)
    );

    state.observe_remote_repair(7).unwrap();
    state
        .observe_remote_fin(
            RepairFin {
                attempt,
                last_repair_sequence: 8,
            },
            9,
        )
        .unwrap();
    assert_eq!(
        state.remote_ack(),
        Err(RepairCloseError::MissingRepairPrefix)
    );
    assert_eq!(
        state.observe_remote_repair(9),
        Err(RepairCloseError::RepairAfterFin)
    );
    assert_eq!(
        state.observe_local_fin_ack(RepairAck {
            attempt,
            fin_sequence: 99,
        }),
        Err(RepairCloseError::WrongAckSequence)
    );
}

#[test]
fn duplicate_local_fin_is_failure_atomic() {
    let attempt = RepairAttemptId::new([0x41; REPAIR_ATTEMPT_ID_BYTES]);
    let mut state = RepairCloseState::new(attempt);
    state.observe_local_repair(4).unwrap();
    state.mark_local_terminal();
    state.observe_local_fin_encoded(5).unwrap();
    assert_eq!(
        state.observe_local_fin_encoded(6),
        Err(RepairCloseError::DuplicateFin)
    );
    state
        .observe_local_fin_ack(RepairAck {
            attempt,
            fin_sequence: 5,
        })
        .expect("duplicate refusal must preserve the original FIN sequence");
}

#[test]
fn authenticated_lanes_round_trip_and_replays_fail() {
    let (initiator, responder, _, _) = establish();
    let mut sender = SessionCodec::new(initiator, DEFAULT_MAX_PAYLOAD_BYTES).unwrap();
    let mut receiver = SessionCodec::new(responder, DEFAULT_MAX_PAYLOAD_BYTES).unwrap();
    let encoded = sender
        .encode(Lane::HhhsRepair, b"one canonical HHHS frame")
        .unwrap();
    assert_eq!(
        encoded,
        [
            0x54, 0x42, 0x4c, 0x31, 0x03, 0x00, 0x00, 0x00, 0x00, 0x00, 0x00, 0x00, 0x4d, 0x00,
            0x00, 0x00, 0x00, 0x00, 0x00, 0x00, 0x00, 0x02, 0x00, 0x18, 0x6f, 0x6e, 0x65, 0x20,
            0x63, 0x61, 0x6e, 0x6f, 0x6e, 0x69, 0x63, 0x61, 0x6c, 0x20, 0x48, 0x48, 0x48, 0x53,
            0x20, 0x66, 0x72, 0x61, 0x6d, 0x65, 0x70, 0x8a, 0xea, 0x89, 0x78, 0x10, 0xee, 0x2a,
            0x0f, 0x1e, 0x51, 0x3b, 0xbb, 0x48, 0x0e, 0x98,
        ]
    );
    let decoded = receiver.decode(&encoded).unwrap();
    assert_eq!(decoded.lane, Lane::HhhsRepair);
    assert_eq!(decoded.sequence, 0);
    assert_eq!(decoded.payload, b"one canonical HHHS frame");
    assert!(matches!(
        receiver.decode(&encoded),
        Err(BleWireError::Replay(ReplayError::Duplicate))
    ));
}

#[test]
fn negotiated_payload_budget_can_only_decrease() {
    let (initiator, _, _, _) = establish();
    let mut codec = SessionCodec::new(initiator, 4_096).unwrap();
    codec.restrict_max_payload_bytes(512).unwrap();
    assert_eq!(codec.max_payload_bytes(), 512);
    assert!(matches!(
        codec.restrict_max_payload_bytes(513),
        Err(BleWireError::InvalidPayloadRestriction { .. })
    ));
}

#[test]
fn authentication_covers_lane_sequence_and_payload() {
    let (initiator, responder, _, _) = establish();
    let mut sender = SessionCodec::new(initiator, 128).unwrap();
    let mut receiver = SessionCodec::new(responder, 128).unwrap();
    let encoded = sender.encode(Lane::Realtime, b"note on").unwrap();
    for offset in [13, 21, AUTHENTICATED_HEADER_BYTES] {
        let mut tampered = encoded.clone();
        tampered[offset] ^= 1;
        assert!(receiver.decode(&tampered).is_err());
    }
}

fn fragmented_round_trip(value_bytes: usize, payload: &[u8]) {
    let mut reassembler = Reassembler::new(HARD_MAX_WIRE_BYTES).unwrap();
    let mut completed = None;
    let mut fragments = Fragmenter::new(41, payload, value_bytes).unwrap();
    while let Some(fragment) = fragments.next() {
        let mut packet = vec![0; value_bytes];
        let used = fragment.encode_into(&mut packet).unwrap();
        assert!(used <= value_bytes);
        let next = reassembler.push(&packet[..used]).unwrap();
        if next.is_some() {
            assert!(completed.is_none());
            completed = next;
        }
    }
    assert_eq!(completed.as_deref(), Some(payload));
}

#[test]
fn fragments_round_trip_at_minimum_and_larger_gatt_values() {
    let payload = (0_u16..600).flat_map(u16::to_be_bytes).collect::<Vec<_>>();
    fragmented_round_trip(MIN_FRAGMENT_VALUE_BYTES, &payload);
    fragmented_round_trip(20, &payload);
    fragmented_round_trip(185, &payload);
    fragmented_round_trip(512, &payload);
    fragmented_round_trip(20, &[]);
}

#[test]
fn incremental_fragmentation_interleaves_two_bounded_messages() {
    let repair = vec![0x52; 1_536];
    let realtime = vec![0x4d; 52];
    let mut repair_cursor = FragmentCursor::new(70, repair.clone(), 20).unwrap();
    let mut realtime_cursor = FragmentCursor::new(71, realtime.clone(), 20).unwrap();
    assert_eq!(repair_cursor.retained_wire_bytes(), repair.len());
    assert_eq!(realtime_cursor.retained_wire_bytes(), realtime.len());
    let mut receiver =
        Reassembler::with_budget(ReassemblyBudget::new(1_536, 2, 1_536 * 2).unwrap()).unwrap();
    let mut packet = [0_u8; 20];
    let mut completed = BTreeMap::new();

    while !repair_cursor.is_complete() || !realtime_cursor.is_complete() {
        for (id, cursor) in [(70_u16, &mut repair_cursor), (71_u16, &mut realtime_cursor)] {
            if let Some(used) = cursor.encode_next(&mut packet).unwrap() {
                if let Some(message) = receiver.push(&packet[..used]).unwrap() {
                    completed.insert(id, message);
                }
            }
        }
    }

    assert_eq!(completed.remove(&70), Some(repair));
    assert_eq!(completed.remove(&71), Some(realtime));
}

fn encoded_test_fragment(
    message_id: u16,
    total_bytes: u16,
    offset: u16,
    start: bool,
    end: bool,
    payload: &[u8],
) -> Vec<u8> {
    let mut packet =
        vec![0; MIN_FRAGMENT_VALUE_BYTES.max(FRAGMENT_HEADER_BYTES + payload.len())];
    let used = Fragment {
        message_id,
        total_bytes,
        offset,
        start,
        end,
        payload,
    }
    .encode_into(&mut packet)
    .unwrap();
    packet.truncate(used);
    packet
}

#[test]
fn partial_assembly_budget_refuses_declared_byte_dos_and_recovers() {
    let mut receiver =
        Reassembler::with_budget(ReassemblyBudget::new(1_536, 3, 1_600).unwrap()).unwrap();
    let first = encoded_test_fragment(80, 1_536, 0, true, false, &[1; 8]);
    assert!(receiver.push(&first).unwrap().is_none());
    assert_eq!(receiver.retained_partial_bytes(), 1_536);

    let over_budget = encoded_test_fragment(81, 100, 0, true, false, &[2; 8]);
    assert!(matches!(
        receiver.push(&over_budget),
        Err(BleWireError::PartialAssemblyBudgetExceeded {
            requested: 1_636,
            maximum: 1_600,
        })
    ));
    assert_eq!(receiver.retained_partial_bytes(), 0);

    let complete = encoded_test_fragment(82, 3, 0, true, true, b"new");
    assert_eq!(
        receiver.push(&complete).unwrap().as_deref(),
        Some(&b"new"[..])
    );
}

#[test]
fn duplicate_start_or_discontinuity_resets_all_partial_messages() {
    let mut receiver =
        Reassembler::with_budget(ReassemblyBudget::new(64, 2, 128).unwrap()).unwrap();
    let a_start = encoded_test_fragment(90, 20, 0, true, false, b"aaaa");
    assert!(receiver.push(&a_start).unwrap().is_none());
    assert!(matches!(
        receiver.push(&a_start),
        Err(BleWireError::InterleavedMessages)
    ));
    assert_eq!(receiver.retained_partial_bytes(), 0);

    assert!(receiver.push(&a_start).unwrap().is_none());
    let b_start = encoded_test_fragment(91, 10, 0, true, false, b"bb");
    assert!(receiver.push(&b_start).unwrap().is_none());
    let discontinuous = encoded_test_fragment(90, 20, 5, false, false, b"c");
    assert!(matches!(
        receiver.push(&discontinuous),
        Err(BleWireError::FragmentDiscontinuity)
    ));
    assert_eq!(receiver.retained_partial_bytes(), 0);

    let complete = encoded_test_fragment(92, 2, 0, true, true, b"ok");
    assert_eq!(
        receiver.push(&complete).unwrap().as_deref(),
        Some(&b"ok"[..])
    );
}

#[test]
fn hello_and_fragment_vectors_are_frozen() {
    let identity = PeerIdentity::from_bytes([0x11; 32]);
    let hello = PeerHello {
        identity,
        boot_nonce: 0x0102_0304_0506_0708,
        max_fragment_value_bytes: 0x00b9,
        capabilities: CAPABILITY_REALTIME | CAPABILITY_HHHS_REPAIR,
    };
    assert_eq!(
        hello.encode(),
        [
            0x54, 0x42, 0x48, 0x31, 0x11, 0x11, 0x11, 0x11, 0x11, 0x11, 0x11, 0x11, 0x11, 0x11,
            0x11, 0x11, 0x11, 0x11, 0x11, 0x11, 0x11, 0x11, 0x11, 0x11, 0x11, 0x11, 0x11, 0x11,
            0x11, 0x11, 0x11, 0x11, 0x11, 0x11, 0x11, 0x11, 0x01, 0x02, 0x03, 0x04, 0x05, 0x06,
            0x07, 0x08, 0x00, 0xb9, 0x00, 0x00, 0x00, 0x03,
        ]
    );

    let fragment = Fragment {
        message_id: 0x1234,
        total_bytes: 3,
        offset: 0,
        start: true,
        end: true,
        payload: &[0xaa, 0xbb, 0xcc],
    };
    let mut encoded = [0; 13];
    assert_eq!(fragment.encode_into(&mut encoded).unwrap(), 13);
    assert_eq!(
        encoded,
        [
            0x54, 0x42, 0x01, 0x03, 0x12, 0x34, 0x00, 0x03, 0x00, 0x00, 0xaa, 0xbb, 0xcc,
        ]
    );
}

#[test]
fn reassembly_is_bounded_and_resets_after_discontinuity() {
    let payload = vec![7; 128];
    let mut fragments = Fragmenter::new(8, &payload, 32).unwrap();
    let first = fragments.next().unwrap();
    let second = fragments.next().unwrap();
    let mut packet = [0; 32];
    let used = first.encode_into(&mut packet).unwrap();
    let mut reassembler = Reassembler::new(64).unwrap();
    assert!(matches!(
        reassembler.push(&packet[..used]),
        Err(BleWireError::WireMessageTooLarge { .. })
    ));

    let mut reassembler = Reassembler::new(128).unwrap();
    let used = first.encode_into(&mut packet).unwrap();
    assert!(reassembler.push(&packet[..used]).unwrap().is_none());
    let mut discontinuous = second;
    discontinuous.offset += 1;
    let used = discontinuous.encode_into(&mut packet).unwrap();
    assert!(matches!(
        reassembler.push(&packet[..used]),
        Err(BleWireError::FragmentDiscontinuity)
    ));
    let used = first.encode_into(&mut packet).unwrap();
    assert!(reassembler.push(&packet[..used]).unwrap().is_none());
}

#[test]
fn a_profile_with_an_unusable_limit_is_refused() {
    assert!(matches!(
        LaneProfile::decode(&[0; 3]),
        Err(BleWireError::MalformedProfile)
    ));
    assert!(matches!(
        PeerHello::decode(&[0; 50]),
        Err(BleWireError::MalformedHello)
    ));
}

#[test]
fn bootstrap_frames_of_another_kind_are_refused() {
    let (_, offer) = PendingInitiator::begin(
        &SigningKey::from_bytes(&[5; 32]),
        session_protocol_id(),
        channel_binding(hello(1), hello(2)),
        1,
        EphemeralSecret::from_bytes([6; 32]),
    );
    let wire = encode_offer(&offer);
    assert!(matches!(
        decode_answer(&wire).err(),
        Some(BleWireError::MalformedBootstrap)
    ));
    assert_eq!(decode_offer(&wire).unwrap().as_bytes(), offer.as_bytes());
    assert!(matches!(
        decode_offer(&wire[..wire.len() - 1]).err(),
        Some(BleWireError::MalformedBootstrap) | Some(BleWireError::Session(SessionError::Malformed))
    ));
}

fn hello(byte: u8) -> PeerHello {
    PeerHello {
        identity: PeerIdentity::from_bytes([byte; 32]),
        boot_nonce: u64::from(byte),
        max_fragment_value_bytes: 185,
        capabilities: CAPABILITY_REALTIME,
    }
}

#[test]
fn frames_of_another_session_lane_or_length_are_refused() {
    let (initiator, responder, _, _) = establish();
    let mut sender = SessionCodec::new(initiator, 64).unwrap();
    let mut receiver = SessionCodec::new(responder, 64).unwrap();
    let encoded = sender.encode(Lane::Control, b"hello").unwrap();
    assert!(matches!(
        receiver.decode(&encoded[..AUTHENTICATED_HEADER_BYTES]),
        Err(BleWireError::MalformedAuthenticatedFrame)
    ));
    let mut elsewhere = encoded.clone();
    elsewhere[12] ^= 1;
    assert!(matches!(
        receiver.decode(&elsewhere),
        Err(BleWireError::WrongSession)
    ));
    let mut tagged = encoded.clone();
    let last = tagged.len() - 1;
    tagged[last] ^= 1;
    assert!(matches!(
        receiver.decode(&tagged),
        Err(BleWireError::Session(SessionError::Authentication))
    ));
    assert!(matches!(
        sender.encode(Lane::Realtime, &[0; 65]),
        Err(BleWireError::PayloadTooLarge {
            actual: 65,
            maximum: 64
        })
    ));
    assert_eq!(receiver.decode(&encoded).unwrap().payload, b"hello");
}

#[test]
fn lanes_have_stable_numbers() {
    for (lane, number) in [
        (Lane::Control, 0u8),
        (Lane::Realtime, 1),
        (Lane::HhhsRepair, 2),
    ] {
        assert_eq!(lane.to_byte(), number);
        assert_eq!(Lane::from_byte(number), Ok(lane));
    }
    assert_eq!(Lane::from_byte(9), Err(BleWireError::UnknownLane(9)));
}

#[test]
fn fragments_below_the_minimum_value_are_refused() {
    assert!(matches!(
        Fragmenter::new(1, b"abc", MIN_FRAGMENT_VALUE_BYTES - 1).err(),
        Some(BleWireError::FragmentValueTooSmall { .. })
    ));
    assert!(matches!(
        FragmentCursor::new(1, vec![0; HARD_MAX_WIRE_BYTES + 1], 20).err(),
        Some(BleWireError::WireMessageTooLarge { .. })
    ));
    let fragment = Fragment {
        message_id: 1,
        total_bytes: 3,
        offset: 0,
        start: true,
        end: true,
        payload: b"abc",
    };
    let mut small = [0; 12];
    assert!(matches!(
        fragment.encode_into(&mut small),
        Err(BleWireError::FragmentOutputTooSmall {
            required: 13,
            actual: 12
        })
    ));
    assert!(matches!(
        decode_fragment(&[0; 13]).err(),
        Some(BleWireError::MalformedFragment)
    ));
}

#[test]
fn a_continuation_without_a_start_is_refused() {
    let mut receiver = Reassembler::new(64).unwrap();
    let middle = encoded_test_fragment(7, 20, 4, false, false, b"zz");
    assert!(matches!(
        receiver.push(&middle),
        Err(BleWireError::MissingFragmentStart)
    ));
    assert!(matches!(
        ReassemblyBudget::new(10, 0, 10).err(),
        Some(BleWireError::InvalidReassemblyBudget)
    ));
    assert!(ReassemblyBudget::new(10, 1, 0).is_err());
}

#[test]
fn a_reassembly_budget_can_only_be_restricted() {
    let mut receiver = Reassembler::new(64).unwrap();
    assert_eq!(receiver.budget().max_wire_bytes(), 64);
    let start = encoded_test_fragment(3, 20, 0, true, false, b"aa");
    assert!(receiver.push(&start).unwrap().is_none());
    receiver.reset();
    assert_eq!(receiver.retained_partial_bytes(), 0);
    receiver
        .restrict_budget(ReassemblyBudget::new(32, 1, 32).unwrap())
        .unwrap();
    assert_eq!(receiver.budget().max_wire_bytes(), 32);
    assert!(receiver
        .restrict_budget(ReassemblyBudget::new(64, 1, 64).unwrap())
        .is_err());
}

#[test]
fn attempts_are_the_front_of_a_digest_of_their_input() {
    let mut digest = [0u8; 32];
    for (i, byte) in digest.iter_mut().enumerate() {
        *byte = i as u8;
    }
    assert_eq!(
        attempt_of_digest(&digest).as_bytes(),
        [0, 1, 2, 3, 4, 5, 6, 7, 8, 9, 10, 11, 12, 13, 14, 15]
    );
    assert_ne!(encode_attempt_input(1, b"a"), encode_attempt_input(2, b"a"));
    assert_ne!(
        repair_attempt_id(1, b"a").as_bytes(),
        [0; REPAIR_ATTEMPT_ID_BYTES]
    );
}

#[test]
fn wire_ceilings_are_checked() {
    assert_eq!(complete_wire_ceiling(0), Some(242));
    assert_eq!(
        complete_wire_ceiling(HARD_MAX_PAYLOAD_BYTES),
        Some(HARD_MAX_WIRE_BYTES)
    );
    assert_eq!(complete_wire_ceiling(usize::MAX), None);
}

#[test]
fn a_capability_bundle_has_to_fit_its_frame() {
    assert!(matches!(
        encode_control_capability_bundle(&vec![0; HARD_MAX_PAYLOAD_BYTES + 1]),
        Err(BleWireError::PayloadTooLarge { .. })
    ));
}

#[test]
fn an_acknowledgement_needs_a_fin() {
    let attempt = RepairAttemptId::new([7; REPAIR_ATTEMPT_ID_BYTES]);
    let mut state = RepairCloseState::new(attempt);
    state.mark_local_terminal();
    assert_eq!(state.remote_ack(), Err(RepairCloseError::MissingRemoteFin));
    assert!(!state.is_confirmed_closed());
    assert_eq!(state.attempt(), attempt);
}

#[test]
fn wire_errors_have_their_messages() {
    assert_eq!(
        BleWireError::UnknownLane(9).message(),
        "unknown authenticated lane 9"
    );
    assert_eq!(
        BleWireError::WireMessageTooLarge {
            actual: 70,
            maximum: 64
        }
        .message(),
        "wire message is 70 bytes; maximum is 64"
    );
    assert_eq!(
        BleWireError::Replay(ReplayError::TooOld).message(),
        "replay error: message is older than the replay window"
    );
}

#[test]
fn a_message_begins_only_where_there_is_memory() {
    let message = [7_u8; 30];
    let mut fragmenter = Fragmenter::new(3, &message, 24).unwrap();
    let mut fragments: Vec<Vec<u8>> = Vec::new();
    while let Some(fragment) = fragmenter.next() {
        let mut packet = vec![0; 24];
        let used = fragment.encode_into(&mut packet).unwrap();
        fragments.push(packet[..used].to_vec());
    }
    let mut reassembler = Reassembler::new(64).unwrap();
    assert!(matches!(
        reassembler.push_reserved(&fragments[0], None),
        Err(BleWireError::AllocationFailed(_))
    ));
    assert_eq!(
        reassembler
            .push_reserved(&fragments[0], Some(Vec::new()))
            .unwrap(),
        None
    );
    let mut whole = None;
    for fragment in &fragments[1..] {
        whole = reassembler.push_reserved(fragment, None).unwrap();
    }
    assert_eq!(whole.as_deref(), Some(&message[..]));
}

#[test]
fn a_repair_stream_holds_its_endpoint() {
    let mut stream = BleRepairStream::new(vec![1_u8]);
    stream.inner_mut().push(2);
    assert_eq!(stream.inner(), &[1, 2]);
    assert_eq!(stream.into_inner(), [1, 2]);
}

#[test]
fn messages_under_way_together_all_arrive() {
    let messages: [&[u8]; 3] = [b"a first message", b"", b"another one"];
    let budget = ReassemblyBudget::new(15, 3, 26).unwrap();
    let mut reassembler = Reassembler::with_budget(budget).unwrap();
    let mut packets: Vec<Vec<Vec<u8>>> = Vec::new();
    for (index, message) in messages.iter().enumerate() {
        let value_bytes = 14 + index;
        let mut fragments = Fragmenter::new(index as u16, message, value_bytes).unwrap();
        let mut sent = Vec::new();
        while let Some(fragment) = fragments.next() {
            let mut packet = vec![0; value_bytes];
            let used = fragment.encode_into(&mut packet).unwrap();
            sent.push(packet[..used].to_vec());
        }
        packets.push(sent);
    }
    let mut arrived: Vec<Option<Vec<u8>>> = vec![None; 3];
    let mut turn = 0;
    while packets.iter().any(|left| !left.is_empty()) {
        let index = [2, 0, 2, 1, 0][turn % 5];
        turn += 1;
        if packets[index].is_empty() {
            continue;
        }
        let packet = packets[index].remove(0);
        let result = reassembler.push(&packet).unwrap();
        assert_eq!(result.is_some(), packets[index].is_empty());
        arrived[index] = result;
    }
    for (message, whole) in messages.iter().zip(&arrived) {
        assert_eq!(whole.as_deref(), Some(*message));
    }
    assert_eq!(reassembler.retained_partial_bytes(), 0);
}

#[test]
fn a_forged_frame_uses_up_no_number() {
    let (initiator, responder, _, _) = establish();
    let mut sender = SessionCodec::new(initiator, 128).unwrap();
    let mut receiver = SessionCodec::new(responder, 128).unwrap();
    let genuine = sender.encode(Lane::Realtime, b"note on").unwrap();
    for offset in [20, 21, AUTHENTICATED_HEADER_BYTES] {
        let mut forged = genuine.clone();
        forged[offset] ^= 2;
        assert!(receiver.decode(&forged).is_err());
    }
    assert_eq!(receiver.decode(&genuine).unwrap().payload, b"note on");
}
