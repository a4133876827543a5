use tutti::amy::drive::parse_event;
use tutti::amy::room::{degree, edo_scl, EDO31_KBM};
use tutti::amy::scenario::{expected_union, indices};
use tutti::amy::{
    envelope_chain, envelope_note_on_wire, held_degree_events, ledger, osc_of, peak, plan_drive,
    pluck, room_definition, room_tuning, run_envelope_scenario, run_scenario, script_a, script_b,
    swell, wav_bytes, EDO, MAX_OSCS,
};
use tutti::amy_wire::{
    degrees_to_amy_events, envelope_to_amy, pitches_to_amy_events, AmyVoiceCapacityError,
};
use tutti::collections::{SortedMap, SortedSet};
use tutti::music::{
    Envelope, Interp, MusicOp, TunedDegree, TunedPeriodicPitch, Tuning, TuningId,
};
use tutti::replica::{
    materialize_commands, ActorId, Command, EntryHash, History, MusicView,
};

fn equal_division(count: u16) -> Tuning {
    let degrees = (0..i32::from(count))
        .map(|step| (f64::from(step) * 12e9 / f64::from(count)).round() as i64)
        .collect();
    Tuning::new(
        TuningId::from_bytes([count as u8; 32]),
        60_000_000_000,
        12_000_000_000,
        degrees,
    )
}

fn set(tuning: &Tuning, indices: &[u16]) -> SortedSet<TunedDegree> {
    let mut set = SortedSet::new();
    for index in indices {
        set.insert(TunedDegree::new(tuning, *index).unwrap());
    }
    set
}

#[test]
fn ordinary_chord_preserves_compact_degree_mapping() {
    let tuning = equal_division(12);
    let events = degrees_to_amy_events(
        &SortedSet::new(),
        &set(&tuning, &[0, 4, 7]),
        &SortedMap::new(),
        &tuning,
        40,
    )
    .unwrap();
    assert_eq!(events, ["v0n60l1", "v4n64l1", "v7n67l1"]);
}

#[test]
fn sparse_degree_collision_gets_a_distinct_voice() {
    let tuning = equal_division(41);
    let events = degrees_to_amy_events(
        &SortedSet::new(),
        &set(&tuning, &[0, 40]),
        &SortedMap::new(),
        &tuning,
        40,
    )
    .unwrap();
    assert!(events[0].starts_with("v0n"));
    assert!(events[1].starts_with("v1n"));
}

#[test]
fn removing_a_colliding_degree_revoices_without_a_stuck_note() {
    let tuning = equal_division(41);
    let events = degrees_to_amy_events(
        &set(&tuning, &[0, 40]),
        &set(&tuning, &[40]),
        &SortedMap::new(),
        &tuning,
        40,
    )
    .unwrap();
    assert_eq!(&events[..2], ["v0l0", "v1l0"]);
    assert!(events[2].starts_with("v0n"));
}

#[test]
fn oversubscription_is_an_error_not_partial_wire() {
    let tuning = equal_division(41);
    let error = degrees_to_amy_events(
        &SortedSet::new(),
        &set(&tuning, &(0..41).collect::<Vec<_>>()),
        &SortedMap::new(),
        &tuning,
        40,
    )
    .unwrap_err();
    assert_eq!(
        error,
        AmyVoiceCapacityError {
            required: 41,
            available: 40,
        }
    );
}

#[test]
fn absolute_pitch_keeps_midi_octaves_distinct() {
    let tuning = equal_division(12);
    let pitch = |midi: i32| {
        let degree = (midi - 60).rem_euclid(12) as u16;
        TunedPeriodicPitch::new(&tuning, degree, (midi - 60).div_euclid(12)).unwrap()
    };
    let mut pitches = SortedSet::new();
    pitches.insert(pitch(48));
    pitches.insert(pitch(72));
    let events = pitches_to_amy_events(
        &SortedSet::new(),
        &pitches,
        &SortedMap::new(),
        &tuning,
        31,
    )
    .unwrap();
    assert!(events.iter().any(|event| event.contains("n48")));
    assert!(events.iter().any(|event| event.contains("n72")));
}

#[test]
fn envelope_projection_preserves_amy_grammar() {
    let envelope = Envelope {
        points: vec![(0, 127), (120, 12), (40, 0)],
        interp: Interp::Exp,
    };
    assert_eq!(envelope_to_amy(&envelope), "A0,1,120,0.0945,40,0T3");
}

#[test]
fn an_envelope_rides_on_the_note_that_it_shapes() {
    let tuning = equal_division(12);
    let mut envelopes = SortedMap::new();
    envelopes.insert(
        TunedDegree::new(&tuning, 4).unwrap(),
        Envelope {
            points: vec![(10, 127), (20, 0)],
            interp: Interp::Linear,
        },
    );
    let events = degrees_to_amy_events(
        &SortedSet::new(),
        &set(&tuning, &[4]),
        &envelopes,
        &tuning,
        40,
    )
    .unwrap();
    assert_eq!(events.len(), 1);
    assert!(events[0].starts_with("v4n64A10,1,20,0T"));
    assert!(events[0].ends_with("l1"));
}

#[test]
fn a_voice_capacity_error_has_its_message() {
    let error = AmyVoiceCapacityError {
        required: 41,
        available: 40,
    };
    assert!(error.message().contains("41"));
    assert!(error.message().contains("40"));
}

#[test]
fn peaks_are_the_largest_magnitude() {
    assert_eq!(peak(&[]), 0);
    assert_eq!(peak(&[3, -7, 5]), 7);
    assert_eq!(peak(&[i16::MIN, 1]), i16::MAX);
}

#[test]
fn wav_files_have_a_riff_header_and_little_endian_samples() {
    let bytes = wav_bytes(&[1, -2], 44_100, 2);
    assert_eq!(
        bytes,
        [
            b'R', b'I', b'F', b'F', 40, 0, 0, 0, b'W', b'A', b'V', b'E', b'f', b'm', b't', b' ',
            16, 0, 0, 0, 1, 0, 2, 0, 0x44, 0xac, 0, 0, 0x10, 0xb1, 0x02, 0, 4, 0, 16, 0, b'd',
            b'a', b't', b'a', 4, 0, 0, 0, 1, 0, 0xfe, 0xff,
        ]
    );
}

#[test]
fn the_room_is_thirty_one_equal_divisions() {
    let mut expected = String::from("! generated\n31-tone equal temperament\n31\n");
    for step in 1..=31 {
        expected.push_str(&format!("{:.6}\n", f64::from(step) * 1200.0 / 31.0));
    }
    assert_eq!(edo_scl(EDO), expected);
    let definition = room_definition();
    assert_eq!(definition.scl, expected);
    assert_eq!(definition.kbm.as_deref(), Some(EDO31_KBM));
    let room = room_tuning(TuningId::from_bytes([31; 32]));
    assert_eq!(room.degree_count(), 31);
    for pc in 0..31 {
        let degree = degree(&room, pc);
        assert_eq!(degree.degree, pc);
    }
}

#[test]
fn oscillators_wrap_around_the_pool() {
    assert_eq!(osc_of(7, 250), 7);
    assert_eq!(osc_of(251, 250), 1);
    assert_eq!(osc_of(9, 0), 0);
    assert_eq!(MAX_OSCS, 250);
}

#[test]
fn wire_messages_are_read_back() {
    assert_eq!(parse_event("v8n63.097l1"), Some((8, true)));
    assert_eq!(parse_event("v8l0"), Some((8, false)));
    assert_eq!(parse_event("v65535l0"), Some((65_535, false)));
    assert_eq!(parse_event("v65536l0"), None);
    assert_eq!(parse_event("n60"), None);
    assert_eq!(parse_event("v"), None);
    assert_eq!(parse_event(""), None);
}

fn indices_set(values: &[u16]) -> SortedSet<u16> {
    let mut set = SortedSet::new();
    for value in values {
        set.insert(*value);
    }
    set
}

#[test]
fn a_drive_ends_in_silence() {
    let tuning = equal_division(31);
    let timeline = vec![
        indices_set(&[]),
        indices_set(&[8]),
        indices_set(&[8, 25]),
        indices_set(&[5, 8, 25]),
        indices_set(&[8, 25]),
        indices_set(&[0, 8, 10, 18, 25]),
    ];
    let plan = plan_drive(&timeline, &tuning).unwrap();
    assert_eq!(plan.step_ends, [0, 1, 2, 3, 4, 7]);
    assert_eq!(plan.events.len(), 12);
    let report = ledger(&plan.events);
    assert_eq!(report.note_ons, 6);
    assert_eq!(report.note_offs, 6);
    assert_eq!(report.unmatched_offs, 0);
    assert!(report.stuck_oscs.is_empty());

    let cut = plan.events[..4].to_vec();
    let partial = ledger(&cut);
    assert_eq!(partial.stuck_oscs, indices_set(&[8, 25]));
}

#[test]
fn an_end_without_a_note_is_counted() {
    let report = ledger(&vec!["v3l0".to_string(), "v4n60l1".to_string()]);
    assert_eq!(report.unmatched_offs, 1);
    assert_eq!(report.stuck_oscs, indices_set(&[4]));
}

#[test]
fn a_timeline_that_needs_too_many_voices_is_an_error() {
    let tuning = equal_division(255);
    let all: Vec<u16> = (0..251).collect();
    let timeline = vec![indices_set(&[1]), indices_set(&all)];
    let error = plan_drive(&timeline, &tuning).unwrap_err();
    assert_eq!(
        error,
        AmyVoiceCapacityError {
            required: 251,
            available: 250
        }
    );
}

#[test]
fn held_degrees_start_with_their_envelope_and_end() {
    let tuning = equal_division(31);
    let degree = TunedDegree::new(&tuning, 10).unwrap();
    let wire = envelope_note_on_wire(degree, &pluck(), &tuning).unwrap();
    assert_eq!(wire.len(), 1);
    assert!(wire[0].starts_with("v10n63.871A0,1,120,0.0945,40,0T3"));
    let (on, off) = held_degree_events(degree, &swell(), &tuning).unwrap();
    assert!(on[0].contains("A0,"));
    assert_eq!(off, ["v10l0"]);
}

fn hash(byte: u8) -> EntryHash {
    EntryHash::from_bytes([byte; 32])
}

fn play(
    history: &mut History,
    commands: &mut Vec<Command>,
    tip: &mut Option<EntryHash>,
    base: u8,
    ops: Vec<MusicOp>,
) {
    for (i, op) in ops.into_iter().enumerate() {
        let id = hash(base + i as u8);
        let parents: Vec<EntryHash> = tip.iter().copied().collect();
        history.append(id, &parents).unwrap();
        commands.push(Command {
            id,
            actor: ActorId::from_bytes([base; 32]),
            op,
        });
        *tip = Some(id);
    }
}

fn view_of(scripts: Vec<(u8, Vec<MusicOp>)>, room: &Tuning) -> MusicView {
    let mut history = History::new();
    let mut commands = Vec::new();
    for (base, ops) in scripts {
        let mut tip = None;
        play(&mut history, &mut commands, &mut tip, base, ops);
    }
    materialize_commands(&history, &commands, Some(room))
}

#[test]
fn partitioned_peers_converge_to_the_union() {
    let room = room_tuning(TuningId::from_bytes([31; 32]));
    let a_partition = view_of(vec![(10, script_a(&room))], &room);
    let mut steps = Vec::new();
    for count in 2..=5 {
        let mut ops = script_b(&room);
        ops.truncate(count);
        steps.push(view_of(vec![(50, ops)], &room));
    }
    let a_converged = view_of(vec![(10, script_a(&room)), (50, script_b(&room))], &room);
    let b_converged = view_of(vec![(50, script_b(&room)), (10, script_a(&room))], &room);
    let scenario = run_scenario(&a_partition, &steps, &a_converged, &b_converged, 0, 0);
    assert_eq!(scenario.a_partition, indices_set(&[0, 10, 18]));
    assert_eq!(scenario.b_partition, indices_set(&[8, 25]));
    assert_eq!(scenario.a_converged, expected_union());
    assert_eq!(scenario.b_converged, expected_union());
    assert_eq!(scenario.expected_union, indices_set(&[0, 8, 10, 18, 25]));
    assert_eq!(scenario.removed_degree, 5);
    assert_eq!(
        scenario.timeline,
        [
            indices_set(&[]),
            indices_set(&[8]),
            indices_set(&[8, 25]),
            indices_set(&[5, 8, 25]),
            indices_set(&[8, 25]),
            indices_set(&[0, 8, 10, 18, 25]),
        ]
    );
    assert_eq!(scenario.edo, 31);
    let plan = plan_drive(&scenario.timeline, &room).unwrap();
    assert!(ledger(&plan.events).stuck_oscs.is_empty());
}

#[test]
fn concurrent_envelopes_resolve_to_one_of_them() {
    let room = room_tuning(TuningId::from_bytes([31; 32]));
    let a = || envelope_chain(&room, 10, &swell());
    let b = || envelope_chain(&room, 18, &pluck());
    let a_converged = view_of(vec![(10, a()), (50, b())], &room);
    let b_converged = view_of(vec![(50, b()), (10, a())], &room);
    let scenario = run_envelope_scenario(&room, a_converged, b_converged, 0, 0).unwrap();
    assert_eq!(scenario.winner, pluck());
    assert_eq!(scenario.loser, swell());
    assert_eq!(
        scenario.b_converged.envelopes.get(&degree(&room, 0)),
        Some(&pluck())
    );
    assert_eq!(
        scenario.a_converged.envelopes.get(&degree(&room, 10)),
        Some(&swell())
    );
    assert_eq!(
        indices(&scenario.a_converged),
        indices(&scenario.b_converged)
    );
}

fn keyed(period: i64, degrees: Vec<i64>, pitch: (u16, i32)) -> String {
    let tuning = Tuning::new(TuningId::from_bytes([3; 32]), 60_000_000_000, period, degrees);
    let mut after = SortedSet::new();
    after.insert(TunedPeriodicPitch::new(&tuning, pitch.0, pitch.1).unwrap());
    let events =
        pitches_to_amy_events(&SortedSet::new(), &after, &SortedMap::new(), &tuning, 250).unwrap();
    let event = events[0].clone();
    let key = event.split('n').nth(1).unwrap();
    key.trim_end_matches("l1").to_string()
}

#[test]
fn keys_are_rounded_once() {
    // Three tritaves of 19.019550008654 semitones above middle C.
    assert_eq!(keyed(19_019_550_009, vec![0], (0, 3)), "117.059");
    assert_eq!(keyed(12_000_000_000, vec![0, 62_500_000], (1, 0)), "60.062");
    assert_eq!(keyed(12_000_000_000, vec![0, 187_500_000], (1, 0)), "60.188");
    assert_eq!(keyed(12_000_000_000, vec![0, 999_600_000], (1, 0)), "61");
    assert_eq!(keyed(12_000_000_000, vec![0, 99_999], (1, 0)), "60");
    assert_eq!(keyed(12_000_000_000, vec![0, -250_000_000], (1, -6)), "-12.25");
    assert_eq!(keyed(12_000_000_000, vec![0, -50_000], (1, -5)), "0");
}
