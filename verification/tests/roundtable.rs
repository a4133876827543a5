use tutti::music::roundtable::{MAX_PLAYABLE_MILLIHZ, MIN_PLAYABLE_MILLIHZ};
use tutti::music::{
    RoundTableConfig, RoundTablePattern, RoundTablePitchMode, RoundTableScale,
};
use tutti::realtime;
use tutti::realtime::{MidiFrame, MidiKind};
use tutti::roundtable::pitch::{center_key, key_millihz};
use tutti::roundtable::{
    decode, encode, plan_pulse, resolve_run_state, ConfigState, Frame, FrameError, ParticipantId,
    Pulse, Roster, RunEpoch, RunState,
};

fn id(byte: u8) -> ParticipantId {
    ParticipantId::from_bytes([byte; 32])
}

#[test]
fn frame_codec_is_exact_and_rejects_trailing_bytes() {
    let epoch = RunEpoch {
        nonce: 0x1234,
        origin: id(1),
    };
    let frames = [
        Frame::Run(RunState {
            epoch,
            config_version: epoch,
            running: true,
            config: RoundTableConfig::default(),
        }),
        Frame::Pulse(Pulse {
            epoch,
            sequence: 9,
            target: id(2),
            frequency_millihz: 80_000,
            level_per_mille: 300,
            duration_ms: 500,
        }),
        Frame::Config(ConfigState {
            config: RoundTableConfig::default(),
        }),
    ];
    for frame in frames {
        let encoded = encode(frame);
        assert_eq!(decode(encoded.as_bytes()), Ok(frame));
        let mut trailing = encoded.as_bytes().to_vec();
        trailing.push(0);
        assert_eq!(decode(&trailing), Err(FrameError::Malformed));
    }
}

#[test]
fn roster_is_stable_and_turns_include_self() {
    let mut roster = Roster::<4>::default();
    assert!(roster.insert(id(3)));
    assert!(roster.insert(id(1)));
    assert!(roster.insert(id(2)));
    assert!(!roster.insert(id(2)));
    assert_eq!(roster.iter(), [id(1), id(2), id(3)]);
    assert_eq!(roster.leader(), Some(id(1)));
    assert_eq!(roster.target(4), Some(id(2)));
    assert!(roster.remove(&id(2)));
    assert_eq!(roster.iter(), [id(1), id(3)]);
}

#[test]
fn random_mode_is_deterministic_and_never_leaves_the_shared_note_set() {
    let mut roster = Roster::<8>::default();
    roster.insert(id(3));
    roster.insert(id(1));
    let config = RoundTableConfig {
        pitch_mode: RoundTablePitchMode::Random,
        ..RoundTableConfig::default()
    };
    let epoch = RunEpoch {
        nonce: 99,
        origin: id(3),
    };
    for sequence in 0..256 {
        let first = plan_pulse(config, &roster, epoch, sequence).unwrap();
        let second = plan_pulse(config, &roster, epoch, sequence).unwrap();
        assert_eq!(first, second);
        assert!(
            (MIN_PLAYABLE_MILLIHZ..=MAX_PLAYABLE_MILLIHZ).contains(&first.frequency_millihz)
        );
        assert_eq!(first.target, roster.target(sequence).unwrap());
        let midi = (69.0 + 12.0 * (f64::from(first.frequency_millihz) / 440_000.0).log2())
            .round() as u8;
        assert!(config.pattern.contains_pitch_class(midi));
    }
}

#[test]
fn ascending_mode_walks_only_latched_pitch_classes_in_the_shared_register() {
    let mut roster = Roster::<2>::default();
    roster.insert(id(1));
    let config = RoundTableConfig::default();
    let epoch = RunEpoch {
        nonce: 7,
        origin: id(1),
    };
    let expected = [58_270, 65_406, 77_782, 97_999, 58_270];
    for (sequence, frequency) in expected.into_iter().enumerate() {
        let pulse = plan_pulse(config, &roster, epoch, sequence as u32).unwrap();
        assert_eq!(pulse.frequency_millihz, frequency);
        assert_eq!(pulse.target, id(1));
    }
    let empty = RoundTableConfig {
        pattern: RoundTablePattern::from_words([0; 2]),
        ..config
    };
    assert_eq!(plan_pulse(empty, &roster, epoch, 0), None);
}

#[test]
fn palette_metadata_cannot_filter_or_introduce_notes() {
    let mut roster = Roster::<1>::default();
    roster.insert(id(1));
    let epoch = RunEpoch {
        nonce: 17,
        origin: id(1),
    };
    let mut root = RoundTableConfig::default();
    root.scale = RoundTableScale::Root;
    let mut chromatic = root;
    chromatic.scale = RoundTableScale::Chromatic;
    for mode in [RoundTablePitchMode::Ascending, RoundTablePitchMode::Random] {
        root.pitch_mode = mode;
        chromatic.pitch_mode = mode;
        for sequence in 0..32 {
            assert_eq!(
                plan_pulse(root, &roster, epoch, sequence),
                plan_pulse(chromatic, &roster, epoch, sequence)
            );
        }
    }
}

#[test]
fn run_state_is_order_independent_and_stale_start_cannot_resurrect() {
    let low = RunEpoch {
        nonce: 10,
        origin: id(1),
    };
    let high = RunEpoch {
        nonce: 11,
        origin: id(2),
    };
    let config = RoundTableConfig::default();
    let stale_start = RunState {
        epoch: low,
        config_version: low,
        running: true,
        config,
    };
    let high_start = RunState {
        epoch: high,
        config_version: high,
        running: true,
        config,
    };
    let high_stop = RunState {
        epoch: high,
        config_version: high,
        running: false,
        config,
    };
    for order in [
        [stale_start, high_start, high_stop],
        [high_stop, stale_start, high_start],
        [high_start, high_stop, stale_start],
    ] {
        let resolved = order
            .into_iter()
            .fold(None, |current, incoming| {
                Some(resolve_run_state(current, incoming))
            })
            .unwrap();
        assert_eq!(resolved, high_stop);
    }
    assert_eq!(resolve_run_state(Some(high_stop), stale_start), high_stop);
    assert_eq!(resolve_run_state(Some(high_stop), high_start), high_stop);
}

#[test]
fn same_epoch_stop_keeps_the_started_configuration() {
    let epoch = RunEpoch {
        nonce: 42,
        origin: id(1),
    };
    let started = RunState {
        epoch,
        config_version: RunEpoch {
            nonce: 5,
            origin: id(1),
        },
        running: true,
        config: RoundTableConfig::default(),
    };
    let mut conflicting = RoundTableConfig::default();
    conflicting.center_millihz = 90_000;
    let stopped = resolve_run_state(
        Some(started),
        RunState {
            epoch,
            config_version: RunEpoch {
                nonce: 4,
                origin: id(2),
            },
            running: false,
            config: conflicting,
        },
    );
    assert!(!stopped.running);
    assert_eq!(stopped.config, started.config);
}

#[test]
fn config_update_preserves_run_epoch_and_advances_the_pattern_at_the_next_sequence() {
    let epoch = RunEpoch {
        nonce: 42,
        origin: id(1),
    };
    let started = RunState {
        epoch,
        config_version: RunEpoch {
            nonce: 1,
            origin: id(1),
        },
        running: true,
        config: RoundTableConfig::default(),
    };
    let mut pattern = RoundTablePattern::default().cleared();
    pattern = pattern.toggled(60).unwrap();
    pattern = pattern.toggled(67).unwrap();
    let updated = resolve_run_state(
        Some(started),
        RunState {
            epoch,
            config_version: RunEpoch {
                nonce: 2,
                origin: id(2),
            },
            running: true,
            config: RoundTableConfig {
                pattern,
                ..started.config
            },
        },
    );
    assert!(updated.running);
    assert_eq!(updated.epoch, epoch);

    let mut roster = Roster::<1>::default();
    assert!(roster.insert(id(1)));
    let pulse = plan_pulse(updated.config, &roster, epoch, 5).unwrap();
    // Sequence 5 continues from the old run; it is not reset to zero.
    assert_eq!(pulse.sequence, 5);
    assert_eq!(pulse.frequency_millihz, 97_999);
}

#[test]
fn midi_frame_is_compact_strict_and_stable() {
    let value = (0.5_f32 * 65_535.0).round() as u16;
    let midi = MidiFrame::from_value(0x0102_0304, 2, 67, MidiKind::PitchBend, value).unwrap();
    let encoded = realtime::encode(realtime::Frame::Midi(midi)).unwrap();
    assert_eq!(
        encoded.as_bytes(),
        &[0x54, 0x4d, 0x49, 0x31, 5, 1, 2, 3, 4, 2, 67, 0x80, 0x00]
    );
    assert_eq!(
        realtime::decode(encoded.as_bytes()),
        Ok(realtime::Frame::Midi(midi))
    );

    let mut trailing = encoded.as_bytes().to_vec();
    trailing.push(0);
    assert_eq!(
        realtime::decode(&trailing),
        Err(realtime::FrameError::Malformed)
    );
}

#[test]
fn round_table_wire_is_embedded_byte_for_byte() {
    let epoch = RunEpoch {
        nonce: 9,
        origin: ParticipantId::from_bytes([7; 32]),
    };
    let round_table = Frame::Run(RunState {
        epoch,
        config_version: epoch,
        running: true,
        config: Default::default(),
    });
    let canonical = encode(round_table);
    let realtime = realtime::encode(realtime::Frame::RoundTable(round_table)).unwrap();
    assert_eq!(realtime.as_bytes(), canonical.as_bytes());
    assert_eq!(
        realtime::decode(realtime.as_bytes()),
        Ok(realtime::Frame::RoundTable(round_table))
    );
}

#[test]
fn midi_values_out_of_range_are_refused() {
    assert_eq!(
        MidiFrame::from_value(0, 16, 60, MidiKind::NoteOn, 1),
        Err(realtime::FrameError::Malformed)
    );
    assert_eq!(
        MidiFrame::from_value(0, 0, 128, MidiKind::NoteOn, 1),
        Err(realtime::FrameError::Malformed)
    );
    for byte in 0..=255u8 {
        if let Ok(kind) = MidiKind::from_byte(byte) {
            assert_eq!(kind.to_byte(), byte);
        }
    }
}

#[test]
fn key_frequencies_are_those_of_equal_temperament() {
    for key in 23..=59u8 {
        let hz = 440.0 * 2.0_f64.powf((f64::from(key) - 69.0) / 12.0);
        assert_eq!(key_millihz(key), (hz * 1_000.0).round() as u32);
    }
}

#[test]
fn center_keys_are_the_nearest() {
    let mut millihz = 60_000;
    while millihz <= 120_000 {
        let key = 69.0 + 12.0 * (f64::from(millihz) / 440_000.0).log2();
        assert_eq!(center_key(millihz), key.round() as u8);
        millihz += 7;
    }
}

#[test]
fn a_full_roster_takes_no_more() {
    let mut roster = Roster::<1>::default();
    assert!(roster.is_empty());
    assert_eq!(roster.leader(), None);
    assert_eq!(roster.target(3), None);
    assert!(roster.insert(id(5)));
    assert!(!roster.insert(id(6)));
    assert!(!roster.remove(&id(6)));
    assert_eq!(roster.len(), 1);
    assert_eq!(roster.member(0), Some(id(5)));
    assert_eq!(roster.member(1), None);
}

#[test]
fn frames_with_invalid_settings_are_refused() {
    let encoded = encode(Frame::Config(ConfigState {
        config: RoundTableConfig::default(),
    }));
    let mut bytes = encoded.as_bytes().to_vec();
    bytes[0] ^= 1;
    assert_eq!(decode(&bytes), Err(FrameError::Malformed));
    assert_eq!(decode(&[]), Err(FrameError::Malformed));
    assert_eq!(FrameError::Malformed.message(), "round-table frame is malformed");
}

#[test]
fn a_run_wins_only_with_a_newer_epoch() {
    let epoch = |nonce| RunEpoch {
        nonce,
        origin: id(1),
    };
    let state = |nonce, running| RunState {
        epoch: epoch(nonce),
        config_version: epoch(nonce),
        running,
        config: RoundTableConfig::default(),
    };
    assert_eq!(resolve_run_state(None, state(3, true)), state(3, true));
    assert_eq!(
        resolve_run_state(Some(state(3, false)), state(4, true)),
        state(4, true)
    );
    assert_eq!(
        resolve_run_state(Some(state(4, true)), state(3, false)),
        state(4, true)
    );
}

#[test]
fn a_key_above_the_playable_range_is_still_heard_as_itself() {
    let mut roster = Roster::<1>::default();
    roster.insert(id(1));
    let epoch = RunEpoch {
        nonce: 1,
        origin: id(1),
    };
    for pitch_mode in [RoundTablePitchMode::Ascending, RoundTablePitchMode::Random] {
        let config = RoundTableConfig {
            pitch_mode,
            pattern: RoundTableConfig::default().pattern.cleared().toggled(59).unwrap(),
            center_millihz: 120_000,
            spread_semitones: 12,
            ..RoundTableConfig::default()
        };
        for sequence in 0..16 {
            let pulse = plan_pulse(config, &roster, epoch, sequence).unwrap();
            assert!([61_735, 123_471, 240_000].contains(&pulse.frequency_millihz));
            let midi = (69.0 + 12.0 * (f64::from(pulse.frequency_millihz) / 440_000.0).log2())
                .round() as u8;
            assert_eq!(midi % 12, 11);
        }
    }
}
