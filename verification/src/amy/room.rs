//! The room: 31 equal divisions of the octave, anchored so that degree zero
//! sounds middle C.

use crate::amy_wire;
use crate::amy_wire::{degrees_to_amy_events, AmyVoiceCapacityError, VoiceEvent};
use crate::collections;
use crate::collections::{SortedMap, SortedSet};
use crate::music::facets::{Envelope, EnvelopeView, Interp};
use crate::music::tuning::{
    TunedDegree, TunedPeriodicPitch, Tuning, TuningDefinition, TuningId, TuningView,
};
use crate::text;
use vstd::prelude::*;

verus! {

/// The room's tuning: how many divisions the octave has.
pub const EDO: u16 = 31;

/// AMY oscillator address space bound (well under the desktop default of 250).
pub const MAX_OSCS: u16 = 250;

/// The keyboard mapping that anchors MIDI 60 to C4.
pub const EDO31_KBM: &'static str = "0\n0\n127\n60\n60\n261.6255653005986\n0\n";

/// A step of an equal division of the octave in millionths of a cent, to the
/// nearest.
pub open spec fn step_units(step: nat, divisions: nat) -> nat {
    (2 * step * 1_200_000_000 + divisions) / (2 * divisions)
}

/// The cents of the steps from 1 to `steps`, a line each, with six decimals.
pub open spec fn step_lines(steps: nat, divisions: nat) -> Seq<char>
    decreases steps,
{
    if steps == 0 {
        Seq::empty()
    } else {
        let units = step_units(steps, divisions);
        step_lines((steps - 1) as nat, divisions) + text::decimal(units / 1_000_000) + "."@
            + amy_wire::padded(units % 1_000_000, 6) + "\n"@
    }
}

/// The scale file of an equal division of the octave.
pub open spec fn scale_file(divisions: nat) -> Seq<char> {
    "! generated\n"@ + text::decimal(divisions) + "-tone equal temperament\n"@ + text::decimal(
        divisions,
    ) + "\n"@ + step_lines(divisions, divisions)
}

/// The scale file of an equal division of the octave.
pub fn edo_scl(divisions: u16) -> (scl: String)
    requires
        divisions > 0,
    ensures
        scl@ == scale_file(divisions as nat),
{
    let mut scl: String = text::string_of("! generated\n");
    text::push_decimal(&mut scl, divisions as u64);
    text::push_str(&mut scl, "-tone equal temperament\n");
    text::push_decimal(&mut scl, divisions as u64);
    text::push_str(&mut scl, "\n");
    let ghost head = scl@;
    let mut step: u16 = 0;
    assert(scl@ =~= head + step_lines(0, divisions as nat));
    while step < divisions
        invariant
            step <= divisions,
            divisions > 0,
            scl@ == head + step_lines(step as nat, divisions as nat),
        decreases divisions - step,
    {
        step = step + 1;
        let units: u64 = (2 * step as u64 * 1_200_000_000 + divisions as u64) / (2
            * divisions as u64);
        text::push_decimal(&mut scl, units / 1_000_000);
        text::push_str(&mut scl, ".");
        amy_wire::push_padded(&mut scl, units % 1_000_000, 6);
        text::push_str(&mut scl, "\n");
        assert(scl@ =~= head + step_lines(step as nat, divisions as nat));
    }
    assert(scl@ =~= scale_file(divisions as nat));
    scl
}

/// The canonical room tuning definition.
pub fn room_definition() -> (definition: TuningDefinition)
    ensures
        definition.scl@ == scale_file(EDO as nat),
        definition.kbm is Some,
        definition.kbm->0@ == EDO31_KBM@,
{
    TuningDefinition { scl: edo_scl(EDO), kbm: Some(text::string_of(EDO31_KBM)) }
}

/// A degree of an equal division above degree zero, in billionths of a semitone,
/// to the nearest.
pub open spec fn degree_offset(degree: int, divisions: int) -> int {
    (2 * degree * 12_000_000_000 + divisions) / (2 * divisions)
}

/// The room tuning, known by the content hash of its definition.
pub fn room_tuning(id: TuningId) -> (tuning: Tuning)
    ensures
        tuning@.id == id,
        tuning@.reference == 60_000_000_000,
        tuning@.period == 12_000_000_000,
        tuning@.degrees.len() == EDO,
        forall|d: int|
            0 <= d < EDO ==> #[trigger] tuning@.degrees[d] == degree_offset(d, EDO as int),
        tuning@.degrees.len() == 31,
{
    let mut degrees: Vec<i64> = Vec::new();
    let mut d: i64 = 0;
    while d < EDO as i64
        invariant
            0 <= d <= EDO,
            degrees@.len() == d,
            forall|k: int| 0 <= k < d ==> #[trigger] degrees@[k] == degree_offset(k, EDO as int),
        decreases EDO - d,
    {
        degrees.push((2 * d * 12_000_000_000 + EDO as i64) / (2 * EDO as i64));
        d = d + 1;
    }
    Tuning::new(id, 60_000_000_000, 12_000_000_000, degrees)
}

/// One room degree, by index.
pub fn degree(room: &Tuning, pc: u16) -> (degree: TunedDegree)
    requires
        pc < room@.degrees.len(),
    ensures
        degree == (TunedDegree { tuning_id: room@.id, degree: pc }),
{
    TunedDegree { tuning_id: room.id(), degree: pc }
}

/// The AMY oscillator that a room degree would like.
pub fn osc_of(pc: u16, max_oscs: u16) -> (oscillator: u16)
    ensures
        oscillator == pc % (if max_oscs == 0 {
            1
        } else {
            max_oscs
        }),
{
    let pool: u16 = if max_oscs == 0 {
        1
    } else {
        max_oscs
    };
    pc % pool
}

/// The oscillator of a degree that sounds alone is the one it would like.
pub proof fn law_lone_degree_gets_its_oscillator(
    pitch: TunedPeriodicPitch,
    max_oscs: u16,
)
    requires
        max_oscs > 0,
        pitch.pitch.period == 0,
    ensures
        amy_wire::oscillators(seq![pitch], max_oscs as int) == seq![
            (pitch.pitch.degree % max_oscs) as u16,
        ],
{
    let one = seq![pitch];
    assert(one.drop_last() =~= Seq::empty());
    let used = amy_wire::oscillators(one.drop_last(), max_oscs as int);
    assert(used =~= Seq::<u16>::empty());
    assert(amy_wire::preferred(pitch, max_oscs as int) == pitch.pitch.degree % max_oscs);
    assert(amy_wire::oscillators(one, max_oscs as int) =~= seq![
        (pitch.pitch.degree % max_oscs) as u16,
    ]);
}

/// A slow swell: jump to a whisper, ramp to full over 350 ms, then release.
/// While held, the level rises. (The last pair is the note-off release.)
pub fn swell() -> (envelope: Envelope)
    ensures
        envelope@ == (EnvelopeView {
            points: seq![(0u16, 8u8), (350u16, 127u8), (60u16, 0u8)],
            interp: Interp::Linear,
        }),
{
    let envelope = Envelope {
        points: vec![(0u16, 8u8), (350u16, 127u8), (60u16, 0u8)],
        interp: Interp::Linear,
    };
    assert(envelope@.points =~= seq![(0u16, 8u8), (350u16, 127u8), (60u16, 0u8)]);
    envelope
}

/// A fast pluck: jump to full, decay exponentially to a whisper over 120 ms, then
/// release. While held, the level falls.
pub fn pluck() -> (envelope: Envelope)
    ensures
        envelope@ == (EnvelopeView {
            points: seq![(0u16, 127u8), (120u16, 12u8), (40u16, 0u8)],
            interp: Interp::Exp,
        }),
{
    let envelope = Envelope {
        points: vec![(0u16, 127u8), (120u16, 12u8), (40u16, 0u8)],
        interp: Interp::Exp,
    };
    assert(envelope@.points =~= seq![(0u16, 127u8), (120u16, 12u8), (40u16, 0u8)]);
    envelope
}

/// The pitches of one degree, sounding alone.
pub open spec fn lone(degree: TunedDegree) -> Seq<TunedPeriodicPitch> {
    seq![TunedPeriodicPitch::of_degree(degree)]
}

/// Messages depend on the shape of the envelopes alone.
proof fn lemma_same_shapes_spell_alike(
    messages: Seq<String>,
    events: Seq<VoiceEvent>,
    a: Map<TunedDegree, Envelope>,
    b: Map<TunedDegree, Envelope>,
    tuning: TuningView,
)
    requires
        a.dom() == b.dom(),
        forall|degree: TunedDegree| #[trigger]
            a.dom().contains(degree) ==> a[degree]@ == b[degree]@,
        amy_wire::spells(messages, events, a, tuning),
    ensures
        amy_wire::spells(messages, events, b, tuning),
{
    assert forall|i: int| 0 <= i < events.len() implies (#[trigger] messages[i])@
        == amy_wire::event_text(events[i], b, tuning) by {
        assert(amy_wire::event_text(events[i], a, tuning) == amy_wire::event_text(
            events[i],
            b,
            tuning,
        ));
    }
}

/// The messages that a held degree's note-on takes under an envelope, and the
/// messages of its note-off.
pub fn held_degree_events(degree: TunedDegree, env: &Envelope, tuning: &Tuning) -> (result: Result<
    (Vec<String>, Vec<String>),
    AmyVoiceCapacityError,
>)
    ensures
        result is Ok,
        amy_wire::spells(
            result->Ok_0.0@,
            amy_wire::transition(Seq::empty(), lone(degree), MAX_OSCS),
            map![degree => *env],
            tuning@,
        ),
        amy_wire::spells(
            result->Ok_0.1@,
            amy_wire::transition(lone(degree), Seq::empty(), MAX_OSCS),
            map![degree => *env],
            tuning@,
        ),
{
    let mut envelopes: SortedMap<TunedDegree, Envelope> = SortedMap::new();
    envelopes.insert(degree, env.clone());
    let before: SortedSet<TunedDegree> = SortedSet::new();
    let mut after: SortedSet<TunedDegree> = SortedSet::new();
    after.insert(degree);
    proof {
        let none = Seq::<TunedPeriodicPitch>::empty();
        assert(amy_wire::degree_pitches(before@) =~= Set::empty());
        assert(amy_wire::degree_pitches(before@) =~= none.to_set());
        collections::lemma_ascending_of(none);
        let pitch = TunedPeriodicPitch::of_degree(degree);
        assert(lone(degree)[0] == pitch);
        assert(lone(degree).to_set() =~= set![pitch]);
        assert forall|other: TunedDegree|
            TunedPeriodicPitch::of_degree(other) == pitch implies other == degree by {}
        assert(amy_wire::degree_pitches(after@) =~= set![pitch]);
        collections::lemma_ascending_of(lone(degree));
    }
    let on: Vec<String> = match degrees_to_amy_events(
        &before,
        &after,
        &envelopes,
        tuning,
        MAX_OSCS,
    ) {
        Ok(on) => on,
        Err(error) => {
            return Err(error);
        },
    };
    let off: Vec<String> = match degrees_to_amy_events(
        &after,
        &before,
        &envelopes,
        tuning,
        MAX_OSCS,
    ) {
        Ok(off) => off,
        Err(error) => {
            return Err(error);
        },
    };
    proof {
        let shape = map![degree => *env];
        assert(envelopes@.dom() =~= shape.dom());
        lemma_same_shapes_spell_alike(
            on@,
            amy_wire::transition(Seq::empty(), lone(degree), MAX_OSCS),
            envelopes@,
            shape,
            tuning@,
        );
        lemma_same_shapes_spell_alike(
            off@,
            amy_wire::transition(lone(degree), Seq::empty(), MAX_OSCS),
            envelopes@,
            shape,
            tuning@,
        );
    }
    Ok((on, off))
}

/// The wire events that a held degree's note-on emits under an envelope.
pub fn envelope_note_on_wire(degree: TunedDegree, env: &Envelope, tuning: &Tuning) -> (result: Result<
    Vec<String>,
    AmyVoiceCapacityError,
>)
    ensures
        result is Ok,
        amy_wire::spells(
            result->Ok_0@,
            amy_wire::transition(Seq::empty(), lone(degree), MAX_OSCS),
            map![degree => *env],
            tuning@,
        ),
{
    match held_degree_events(degree, env, tuning) {
        Ok((on, _)) => Ok(on),
        Err(error) => Err(error),
    }
}

/// A step of an equal division lies at the nearest millionth of a cent, and a degree at
/// the nearest billionth of a semitone.
pub proof fn law_steps_are_nearest(step: nat, divisions: nat)
    requires
        divisions > 0,
    ensures
        -divisions <= 2 * (divisions * step_units(step, divisions) - step * 1_200_000_000)
            <= divisions,
        -divisions <= 2 * (divisions * degree_offset(step as int, divisions as int) - step
            * 12_000_000_000) <= divisions,
{
    let (d, n) = (divisions as int, 2 * divisions as int);
    let (a, b) = (2 * step * 1_200_000_000 + d, 2 * step * 12_000_000_000 + d);
    let (q, r) = (a / n, b / n);
    vstd::arithmetic::div_mod::lemma_fundamental_div_mod(a, n);
    vstd::arithmetic::div_mod::lemma_fundamental_div_mod(b, n);
    vstd::arithmetic::div_mod::lemma_mod_bound(a, n);
    vstd::arithmetic::div_mod::lemma_mod_bound(b, n);
    assert(n * q == 2 * (d * q)) by (nonlinear_arith)
        requires
            n == 2 * d,
    ;
    assert(n * r == 2 * (d * r)) by (nonlinear_arith)
        requires
            n == 2 * d,
    ;
    assert(step_units(step, divisions) == q);
    assert(degree_offset(step as int, divisions as int) == r);
}

/// A scale file names itself, counts its steps, and lists them, each on a line of its
/// own in cents with six decimal places.
pub proof fn law_scale_files_list_their_steps(steps: nat, divisions: nat)
    requires
        steps > 0,
    ensures
        step_lines(0, divisions) == Seq::<char>::empty(),
        ({
            let units = step_units(steps, divisions);
            step_lines(steps, divisions) == step_lines((steps - 1) as nat, divisions)
                + text::decimal(units / 1_000_000) + seq!['.'] + amy_wire::padded(
                units % 1_000_000,
                6,
            ) + seq!['\n']
        }),
        scale_file(divisions) == "! generated\n"@ + text::decimal(divisions)
            + "-tone equal temperament\n"@ + text::decimal(divisions) + "\n"@ + step_lines(
            divisions,
            divisions,
        ),
{
    reveal_strlit(".");
    reveal_strlit("\n");
    assert("."@ =~= seq!['.']);
    assert("\n"@ =~= seq!['\n']);
}

/// A degree by itself sounds in period zero.
pub proof fn law_a_lone_degree_is_one_pitch(degree: TunedDegree)
    ensures
        lone(degree).len() == 1,
        lone(degree)[0].tuning_id == degree.tuning_id,
        lone(degree)[0].pitch.degree == degree.degree,
        lone(degree)[0].pitch.period == 0,
{
}

} // verus!
