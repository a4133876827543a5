use tutti::collections::SortedSet;
use tutti::music::fixed::FixedBitSetIter;
use tutti::music::ops::validate;
use tutti::music::tuning::PeriodicPitch;
use tutti::music::{
    Envelope, FixedBitSet, FixedPresenceApply, FixedPresenceRegisters, FixedPresenceSet, Interp,
    MusicOp, OpLimits, PitchSetDiff, PresenceApply, PresenceError, PresenceLimits,
    PresenceRegisters, PresenceSet, RoundTableConfig, RoundTableConfigError, RoundTableInputGate,
    RoundTablePattern, RoundTablePitchMode, RoundTableScale, SharedPitchSet, TunedDegree,
    TunedPeriodicPitch, Tuning, TuningDefinition, TuningId, LANE_STRATEGY_VERSION,
    MAX_PATTERN_NOTES, MUSIC_RBSR_ALPN, MUSIC_STRATEGY_NAME,
};

fn twelve_tet() -> Tuning {
    let degrees = (0..12).map(|index| index * 1_000_000_000).collect();
    Tuning::new(TuningId::from_bytes([12; 32]), 60_000_000_000, 12_000_000_000, degrees)
}

fn degree(index: u16) -> TunedDegree {
    TunedDegree::new(&twelve_tet(), index).unwrap()
}

fn set(indices: &[u16]) -> SortedSet<TunedDegree> {
    let mut set = SortedSet::new();
    for index in indices {
        set.insert(degree(*index));
    }
    set
}

#[test]
fn shared_degree_survives_one_source_release() {
    let mut presence = PresenceSet::new(PresenceLimits::new(2, 4));
    assert_eq!(
        presence
            .replace("web", set(&[7]))
            .unwrap()
            .added,
        set(&[7])
    );
    assert!(
        presence
            .replace("midi", set(&[7]))
            .unwrap()
            .is_empty()
    );
    assert!(presence.release("web").unwrap().is_empty());
    assert_eq!(
        presence.release("midi").unwrap().retracted,
        set(&[7])
    );
    assert!(presence.live().is_empty());
}

#[test]
fn exact_replacement_emits_only_union_changes() {
    let mut presence = PresenceSet::new(PresenceLimits::new(2, 4));
    presence
        .replace("web", set(&[0, 4]))
        .unwrap();
    let diff = presence
        .replace("web", set(&[4, 7]))
        .unwrap();
    assert_eq!(diff.retracted, set(&[0]));
    assert_eq!(diff.added, set(&[7]));
}

#[test]
fn source_and_held_bounds_are_enforced_without_partial_mutation() {
    let mut presence = PresenceSet::new(PresenceLimits::new(1, 1));
    presence.replace(1, set(&[0])).unwrap();
    assert_eq!(
        presence.replace(2, set(&[4])),
        Err(PresenceError::SourceLimit(1))
    );
    assert_eq!(
        presence.replace(1, set(&[0, 4])),
        Err(PresenceError::HeldLimit(1))
    );
    assert_eq!(presence.live(), &set(&[0]));
}

#[test]
fn register_rejects_stale_snapshots_and_expiry_fences_resurrection() {
    let mut registers = PresenceRegisters::new(PresenceLimits::new(2, 4));
    assert!(matches!(
        registers
            .apply("peer", 8, set(&[4]))
            .unwrap(),
        PresenceApply::Applied(_)
    ));
    assert_eq!(
        registers
            .apply("peer", 7, set(&[7]))
            .unwrap(),
        PresenceApply::Stale
    );
    assert_eq!(
        registers.expire("peer").unwrap().retracted,
        set(&[4])
    );
    assert_eq!(
        registers
            .apply("peer", 8, set(&[4]))
            .unwrap(),
        PresenceApply::Stale
    );
    registers.reset_source("peer").unwrap();
    assert!(matches!(
        registers
            .apply("peer", 1, set(&[7]))
            .unwrap(),
        PresenceApply::Applied(_)
    ));
}

fn bits<const WORDS: usize>(indices: &[usize]) -> FixedBitSet<WORDS> {
    let mut bits = FixedBitSet::default();
    for index in indices {
        bits.insert(*index).unwrap();
    }
    bits
}

#[test]
fn fixed_bit_set_is_bounded_and_iterates_in_order() {
    let mut set = bits::<2>(&[0, 63, 64, 127]);
    assert_eq!(set.len(), 4);
    assert_eq!(set.to_vec(), vec![0, 63, 64, 127]);
    assert!(set.remove(64));
    assert!(!set.remove(64));
    assert_eq!(set.insert(128), Err(PresenceError::IndexLimit(128)));
}

#[test]
fn fixed_presence_preserves_shared_degrees_without_allocating_nodes() {
    let mut presence = FixedPresenceSet::<u8, 2, 1>::new(4).unwrap();
    assert_eq!(presence.replace(1, bits(&[7])).unwrap().added, bits(&[7]));
    assert!(presence.replace(2, bits(&[7])).unwrap().is_empty());
    assert!(presence.release(&1).unwrap().is_empty());
    assert_eq!(presence.release(&2).unwrap().retracted, bits(&[7]));
    assert!(presence.live().is_empty());
}

#[test]
fn fixed_presence_limits_are_transactional() {
    let mut presence = FixedPresenceSet::<u8, 1, 1>::new(1).unwrap();
    presence.replace(1, bits(&[4])).unwrap();
    assert_eq!(
        presence.replace(2, bits(&[7])),
        Err(PresenceError::SourceLimit(1))
    );
    assert_eq!(
        presence.replace(1, bits(&[4, 7])),
        Err(PresenceError::HeldLimit(1))
    );
    assert_eq!(presence.live(), &bits(&[4]));
}

#[test]
fn fixed_register_expiry_retains_revision_fence() {
    let mut registers = FixedPresenceRegisters::<u8, 2, 1>::new(4).unwrap();
    assert!(matches!(
        registers.apply(3, 8, bits(&[4])).unwrap(),
        FixedPresenceApply::Applied(_)
    ));
    assert_eq!(registers.expire(&3).retracted, bits(&[4]));
    assert_eq!(
        registers.apply(3, 8, bits(&[4])).unwrap(),
        FixedPresenceApply::Stale
    );
    registers.reset_source(&3);
    assert!(matches!(
        registers.apply(3, 1, bits(&[7])).unwrap(),
        FixedPresenceApply::Applied(_)
    ));
}

#[test]
fn fixed_backend_has_static_compact_storage() {
    // Two 128-bit source sets plus the cached union and small metadata.
    // This guards against accidentally replacing the slots with heap-backed
    // collections while allowing normal target-dependent alignment.
    assert!(std::mem::size_of::<FixedPresenceSet<u8, 2, 2>>() <= 96);
}

#[test]
fn legacy_defaults_are_valid_and_stable() {
    let config = RoundTableConfig::default().validate().unwrap();
    assert_eq!(config.pitch_mode, RoundTablePitchMode::Ascending);
    assert_eq!(config.pattern.iter(), [48, 51, 55, 58]);
    assert_eq!(config.center_millihz, 80_000);
    assert_eq!(config.scale.mask(), 0x4a9);
    assert_eq!(config.spread_semitones, 5);
    assert_eq!(config.pulse_ms, 80);
    assert_eq!(config.gap_ms, 10);
}

#[test]
fn every_scale_has_root_and_a_unique_id() {
    for scale in RoundTableScale::ALL {
        assert_ne!(scale.mask() & 1, 0);
        assert_eq!(RoundTableScale::from_id(scale.id()), Some(scale));
    }
}

#[test]
fn named_preset_materializes_directly_into_the_note_set() {
    let pattern = RoundTableScale::MinorPentatonic.pattern(48).unwrap();
    assert_eq!(pattern.iter(), [48, 51, 53, 55, 58]);
}

#[test]
fn pattern_toggle_is_sorted_bounded_and_reversible() {
    let mut pattern = RoundTablePattern::from_words([0; 2]);
    for note in (0..MAX_PATTERN_NOTES as u8).rev() {
        pattern = pattern.toggled(note).unwrap();
    }
    assert_eq!(
        pattern.iter(),
        (0..24).collect::<Vec<_>>()
    );
    assert_eq!(pattern.toggled(24), Err(RoundTableConfigError::Pattern));
    pattern = pattern.toggled(7).unwrap();
    assert!(!pattern.contains(7));
    assert_eq!(pattern.len(), MAX_PATTERN_NOTES - 1);
    assert!(pattern.cleared().is_empty());
}

#[test]
fn pattern_pitch_classes_ignore_duplicate_registers() {
    let mut pattern = RoundTablePattern::default().cleared();
    pattern = pattern.toggled(36).unwrap();
    pattern = pattern.toggled(48).unwrap();
    pattern = pattern.toggled(55).unwrap();
    assert_eq!(pattern.pitch_class_mask(), (1 << 0) | (1 << 7));
    assert!(pattern.contains_pitch_class(60));
    assert!(pattern.contains_pitch_class(67));
    assert!(!pattern.contains_pitch_class(61));
    assert_eq!(
        pattern
            .canonical_pitch_classes(48)
            .unwrap()
            .iter(),
        [48, 55]
    );
}

#[test]
fn octave_aliases_toggle_the_same_shared_member() {
    let empty = RoundTablePattern::default().cleared();
    let c = empty.toggled_pitch_class(48, 48).unwrap();
    assert_eq!(c.iter(), [48]);
    let empty_again = c.toggled_pitch_class(60, 48).unwrap();
    assert!(empty_again.is_empty());
}

#[test]
fn input_gate_toggles_once_per_physical_press_and_rearms_on_release() {
    let mut gate = RoundTableInputGate::default();
    assert!(gate.press(60));
    assert!(
        !gate.press(60),
        "key repeat must not toggle the latch again"
    );
    assert!(gate.release(60));
    assert!(!gate.release(60));
    assert!(gate.press(60), "note-off rearms the next physical press");
    gate.clear();
    assert!(
        gate.press(60),
        "mode changes and disconnects forget what is held"
    );
    assert!(!gate.press(128));
}

#[test]
fn out_of_domain_notes_never_index_outside_the_fixed_pattern() {
    let pattern = RoundTablePattern::default();
    assert!(!pattern.contains(128));
    assert_eq!(pattern.toggled(255), Err(RoundTableConfigError::Pattern));
}

#[test]
fn fixed_iteration_goes_member_by_member() {
    let set = bits::<2>(&[3, 64]);
    let mut iter: FixedBitSetIter<'_, 2> = set.iter();
    assert_eq!(iter.next(), Some(3));
    assert_eq!(iter.next(), Some(64));
    assert_eq!(iter.next(), None);
    assert_eq!(FixedBitSet::<2>::capacity(), 128);
}

#[test]
fn fixed_sets_join_and_differ() {
    let mut left = bits::<1>(&[1, 2]);
    let right = bits::<1>(&[2, 5]);
    assert_eq!(left.difference(&right), bits(&[1]));
    left.union_with(&right);
    assert_eq!(left, bits(&[1, 2, 5]));
    assert_eq!(left.words(), &[0b100110]);
}

#[test]
fn fixed_presence_slots_start_empty_and_clear_empties_them() {
    let mut presence = FixedPresenceSet::<u8, 3, 1>::new(4).unwrap();
    assert_eq!(presence.source_count(), 0);
    assert!(presence.source(&1).is_none());
    presence.replace(1, bits(&[0])).unwrap();
    presence.replace(2, bits(&[9])).unwrap();
    assert_eq!(presence.source_count(), 2);
    assert_eq!(presence.source(&2), Some(&bits(&[9])));
    assert_eq!(presence.clear().retracted, bits(&[0, 9]));
    assert_eq!(presence.source_count(), 0);
}

#[test]
fn presence_reports_what_is_held_and_clears_it() {
    let mut presence = PresenceSet::new(PresenceLimits::new(2, 4));
    presence.replace("web".to_string(), set(&[1])).unwrap();
    presence.replace("midi".to_string(), set(&[1, 2])).unwrap();
    assert_eq!(presence.source_count(), 2);
    assert_eq!(presence.limits(), PresenceLimits::new(2, 4));
    assert_eq!(presence.clear().retracted, set(&[1, 2]));
    assert!(presence.live().is_empty());
}

#[test]
fn a_difference_leads_from_before_to_after() {
    let diff = PitchSetDiff::between(&set(&[0, 4]), &set(&[4, 7]));
    assert_eq!(diff.retracted, set(&[0]));
    assert_eq!(diff.added, set(&[7]));
    assert!(PitchSetDiff::between(&set(&[3]), &set(&[3])).is_empty());
}

#[test]
fn presence_errors_have_their_messages() {
    assert_eq!(
        PresenceError::SourceLimit(4).message(),
        "presence source limit reached (4)"
    );
}

const LIMITS: OpLimits = OpLimits {
    max_scale_degrees: 128,
    max_env_points: 3,
};

fn envelope(points: &[(u16, u8)]) -> MusicOp {
    MusicOp::SetEnvelope {
        degree: degree(0),
        env: Envelope {
            points: points.to_vec(),
            interp: Interp::Linear,
        },
    }
}

#[test]
fn ops_are_validated_at_ingress() {
    assert_eq!(
        validate(&MusicOp::AddDegree { degree: degree(3) }, LIMITS, None),
        Ok(())
    );
    let far = TunedDegree {
        tuning_id: TuningId::from_bytes([1; 32]),
        degree: 128,
    };
    assert_eq!(
        validate(&MusicOp::RemoveDegree { degree: far }, LIMITS, None),
        Err("degree 128 exceeds the supported bound".to_string())
    );
    assert_eq!(validate(&envelope(&[(0, 127)]), LIMITS, None), Ok(()));
    assert_eq!(
        validate(&envelope(&[]), LIMITS, None),
        Err("envelope must carry 1..=3 breakpoints (got 0)".to_string())
    );
    assert_eq!(
        validate(&envelope(&[(0, 1), (0, 128)]), LIMITS, None),
        Err("envelope level 128 exceeds MAX_ENV_LEVEL=127".to_string())
    );
    let tuning = MusicOp::SetTuning {
        definition: TuningDefinition {
            scl: String::new(),
            kbm: None,
        },
    };
    assert_eq!(
        validate(&tuning, LIMITS, Some("no scale".to_string())),
        Err("no scale".to_string())
    );
    assert_eq!(validate(&tuning, LIMITS, None), Ok(()));
    let mut config = RoundTableConfig::default();
    config.pulse_ms = 1;
    assert!(validate(&MusicOp::SetRoundTable { config }, LIMITS, None).is_err());
}

#[test]
fn every_config_field_is_bounded() {
    let valid = RoundTableConfig::default();
    let faults = [
        (
            RoundTableConfig {
                center_millihz: 59_999,
                ..valid
            },
            RoundTableConfigError::Center,
        ),
        (
            RoundTableConfig {
                spread_semitones: 13,
                ..valid
            },
            RoundTableConfigError::Spread,
        ),
        (
            RoundTableConfig {
                level_per_mille: 451,
                ..valid
            },
            RoundTableConfigError::Level,
        ),
    ];
    for (config, error) in faults {
        assert_eq!(config.validate(), Err(error));
    }
}

#[test]
fn modes_and_scales_survive_their_numbers() {
    for mode in [RoundTablePitchMode::Ascending, RoundTablePitchMode::Random] {
        assert_eq!(RoundTablePitchMode::from_id(mode.id()), Some(mode));
    }
    assert_eq!(RoundTablePitchMode::from_id(9), None);
    assert_eq!(RoundTableScale::from_id(255), None);
}

#[test]
fn patterns_unite_without_the_population_limit() {
    let low = RoundTablePattern::from_words([0xffff, 0]);
    let high = RoundTablePattern::from_words([0, 0xffff]);
    assert_eq!(low.union(high).len(), 32);
    assert_eq!(low.union(high).words(), [0xffff, 0xffff]);
}

#[test]
fn keys_lie_where_the_tuning_puts_them() {
    let tuning = twelve_tet();
    assert_eq!(tuning.key_billionths(PeriodicPitch::from_degree(7, 0)), 67_000_000_000);
    assert_eq!(tuning.key_billionths(PeriodicPitch::from_degree(0, -1)), 48_000_000_000);
    assert!(TunedDegree::new(&tuning, 12).is_none());
    let pitch = TunedPeriodicPitch::new(&tuning, 4, 2).unwrap();
    assert_eq!(pitch.degree(), degree(4));
}

#[test]
fn the_shared_set_is_empty_without_either_kind_of_pitch() {
    let mut shared = SharedPitchSet::default();
    assert!(shared.is_empty());
    shared.pitch_classes.insert(degree(1));
    assert!(!shared.is_empty());
}

#[test]
fn the_music_lane_is_named() {
    assert_eq!(&MUSIC_RBSR_ALPN, b"tutti/music/rbsr/3");
    assert_eq!(MUSIC_STRATEGY_NAME, "tutti-music-entryhash");
    assert_eq!(LANE_STRATEGY_VERSION, 3);
}
