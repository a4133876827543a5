//! What a room shows, told command by command.

use crate::collections::Ordered;
use crate::music::facets::EnvelopeView;
use crate::music::ops::OpView;
use crate::music::roundtable::RoundTableConfig;
use crate::music::tuning::{DefinitionView, TunedDegree, TunedPeriodicPitch, TuningView};
use crate::order;
use crate::replica::causal;
use crate::replica::causal::CommandView;
use crate::replica::fold;
use crate::replica::fold::FoldView;
use crate::replica::ids::{ActorId, EntryHash};
use crate::replica::view;
use crate::replica::view::MusicView;
use vstd::prelude::*;

verus! {

/// A degree of the active tuning is live exactly where some command adds it that no
/// command removing it has observed, and its holders are the actors of such adds.
pub proof fn law_live_degrees(
    commands: Seq<CommandView>,
    active: TuningView,
    past: spec_fn(EntryHash, EntryHash) -> bool,
    shown: MusicView,
    degree: TunedDegree,
    actor: ActorId,
)
    requires
        causal::ordered(commands, past),
        shown.shows(view::music_of(fold::fold_of(commands, Some(active), past), true)),
    ensures
        shown.live@.contains(degree) <==> (exists|i: int|
            {
                &&& 0 <= i < commands.len()
                &&& (#[trigger] commands[i]).op == OpView::AddDegree(degree)
                &&& degree.tuning_id == active.id
                &&& degree.degree < active.degrees.len()
                &&& forall|j: int|
                    0 <= j < commands.len() && (#[trigger] commands[j]).op
                        == OpView::RemoveDegree(degree) ==> !past(commands[i].id, commands[j].id)
            }),
        shown.holders@.dom() == shown.live@,
        shown.shared_pitches.pitch_classes@ == shown.live@,
        shown.live@.contains(degree) ==> (shown.holders@[degree]@.contains(actor) <==> (exists|
            i: int,
        |
            {
                &&& 0 <= i < commands.len()
                &&& (#[trigger] commands[i]).op == OpView::AddDegree(degree)
                &&& commands[i].actor == actor
                &&& forall|j: int|
                    0 <= j < commands.len() && (#[trigger] commands[j]).op
                        == OpView::RemoveDegree(degree) ==> !past(commands[i].id, commands[j].id)
            })),
{
    view::law_fold_matches_the_reference(commands, Some(active), past);
    let (adds, removes) = (causal::degree_adds(active), causal::degree_removes());
    let music = view::reference(commands, Some(active), past);
    assert(shown.holders@.dom() =~= music.holders.dom());
    if shown.live@.contains(degree) {
        let i = choose|i: int| #[trigger] causal::lives(commands, adds, removes, past, degree, i);
        assert(commands[i].op == OpView::AddDegree(degree));
        assert forall|j: int|
            0 <= j < commands.len() && (#[trigger] commands[j]).op == OpView::RemoveDegree(
                degree,
            ) implies !past(commands[i].id, commands[j].id) by {
            assert(removes(commands[j]) == Some(degree));
        }
        assert(shown.holders@[degree]@ == music.holders[degree]) by {
            assert(shown.holders@.map_values(
                |actors: crate::collections::SortedSet<ActorId>| actors@,
            )[degree] == shown.holders@[degree]@);
        }
        if causal::holds(commands, adds, removes, past, degree, actor) {
            let k = choose|k: int|
                #[trigger] causal::lives(commands, adds, removes, past, degree, k)
                    && commands[k].actor == actor;
            assert(commands[k].op == OpView::AddDegree(degree));
            assert forall|j: int|
                0 <= j < commands.len() && (#[trigger] commands[j]).op == OpView::RemoveDegree(
                    degree,
                ) implies !past(commands[k].id, commands[j].id) by {
                assert(removes(commands[j]) == Some(degree));
            }
        }
    }
    assert forall|i: int|
        {
            &&& 0 <= i < commands.len()
            &&& (#[trigger] commands[i]).op == OpView::AddDegree(degree)
            &&& active.has(degree)
            &&& forall|j: int|
                0 <= j < commands.len() && (#[trigger] commands[j]).op == OpView::RemoveDegree(
                    degree,
                ) ==> !past(commands[i].id, commands[j].id)
        } implies causal::lives(commands, adds, removes, past, degree, i) by {
        assert(adds(commands[i]) == Some(degree));
        assert forall|j: int|
            0 <= j < commands.len() && removes(#[trigger] commands[j]) == Some(
                degree,
            ) implies !past(commands[i].id, commands[j].id) by {
            assert(commands[j].op == OpView::RemoveDegree(degree));
        }
    }
}

/// An absolute pitch is live exactly where some command adds it that no command
/// removing it has observed, and its holders are the actors of such adds.
pub proof fn law_live_pitches(
    commands: Seq<CommandView>,
    active: TuningView,
    past: spec_fn(EntryHash, EntryHash) -> bool,
    shown: MusicView,
    pitch: TunedPeriodicPitch,
    actor: ActorId,
)
    requires
        causal::ordered(commands, past),
        shown.shows(view::music_of(fold::fold_of(commands, Some(active), past), true)),
    ensures
        shown.live_pitches@.contains(pitch) <==> (exists|i: int|
            {
                &&& 0 <= i < commands.len()
                &&& (#[trigger] commands[i]).op == OpView::AddPitch(pitch)
                &&& pitch.tuning_id == active.id
                &&& pitch.pitch.degree < active.degrees.len()
                &&& forall|j: int|
                    0 <= j < commands.len() && (#[trigger] commands[j]).op == OpView::RemovePitch(
                        pitch,
                    ) ==> !past(commands[i].id, commands[j].id)
            }),
        shown.pitch_holders@.dom() == shown.live_pitches@,
        shown.shared_pitches.pitches@ == shown.live_pitches@,
        shown.live_pitches@.contains(pitch) ==> (shown.pitch_holders@[pitch]@.contains(actor)
            <==> (exists|i: int|
            {
                &&& 0 <= i < commands.len()
                &&& (#[trigger] commands[i]).op == OpView::AddPitch(pitch)
                &&& commands[i].actor == actor
                &&& forall|j: int|
                    0 <= j < commands.len() && (#[trigger] commands[j]).op == OpView::RemovePitch(
                        pitch,
                    ) ==> !past(commands[i].id, commands[j].id)
            })),
{
    view::law_fold_matches_the_reference(commands, Some(active), past);
    let (adds, removes) = (causal::pitch_adds(active), causal::pitch_removes());
    let music = view::reference(commands, Some(active), past);
    assert(shown.pitch_holders@.dom() =~= music.pitch_holders.dom());
    if shown.live_pitches@.contains(pitch) {
        let i = choose|i: int| #[trigger] causal::lives(commands, adds, removes, past, pitch, i);
        assert(commands[i].op == OpView::AddPitch(pitch));
        assert forall|j: int|
            0 <= j < commands.len() && (#[trigger] commands[j]).op == OpView::RemovePitch(
                pitch,
            ) implies !past(commands[i].id, commands[j].id) by {
            assert(removes(commands[j]) == Some(pitch));
        }
        assert(shown.pitch_holders@[pitch]@ == music.pitch_holders[pitch]) by {
            assert(shown.pitch_holders@.map_values(
                |actors: crate::collections::SortedSet<ActorId>| actors@,
            )[pitch] == shown.pitch_holders@[pitch]@);
        }
        if causal::holds(commands, adds, removes, past, pitch, actor) {
            let k = choose|k: int|
                #[trigger] causal::lives(commands, adds, removes, past, pitch, k)
                    && commands[k].actor == actor;
            assert(commands[k].op == OpView::AddPitch(pitch));
            assert forall|j: int|
                0 <= j < commands.len() && (#[trigger] commands[j]).op == OpView::RemovePitch(
                    pitch,
                ) implies !past(commands[k].id, commands[j].id) by {
                assert(removes(commands[j]) == Some(pitch));
            }
        }
    }
    assert forall|i: int|
        {
            &&& 0 <= i < commands.len()
            &&& (#[trigger] commands[i]).op == OpView::AddPitch(pitch)
            &&& active.has(pitch.class())
            &&& forall|j: int|
                0 <= j < commands.len() && (#[trigger] commands[j]).op == OpView::RemovePitch(
                    pitch,
                ) ==> !past(commands[i].id, commands[j].id)
        } implies causal::lives(commands, adds, removes, past, pitch, i) by {
        assert(adds(commands[i]) == Some(pitch));
        assert forall|j: int|
            0 <= j < commands.len() && removes(#[trigger] commands[j]) == Some(
                pitch,
            ) implies !past(commands[i].id, commands[j].id) by {
            assert(commands[j].op == OpView::RemovePitch(pitch));
        }
    }
}

/// A room shows the envelope that was written for a degree by the command that
/// decides: one that no other command writing an envelope of that degree has
/// observed, and among such commands the one with the largest hash. A degree for
/// which none was written has none.
pub proof fn law_shown_envelopes(
    commands: Seq<CommandView>,
    active: TuningView,
    past: spec_fn(EntryHash, EntryHash) -> bool,
    shown: MusicView,
    degree: TunedDegree,
    env: EnvelopeView,
    i: int,
)
    requires
        causal::ordered(commands, past),
        shown.shows(view::music_of(fold::fold_of(commands, Some(active), past), true)),
        degree.tuning_id == active.id,
        degree.degree < active.degrees.len(),
    ensures
        ({
            &&& 0 <= i < commands.len()
            &&& commands[i].op == OpView::SetEnvelope(degree, env)
            &&& forall|j: int|
                0 <= j < commands.len() && ((#[trigger] commands[j]).op matches OpView::SetEnvelope(
                    target,
                    _,
                ) && target == degree) ==> !past(commands[i].id, commands[j].id)
            &&& forall|j: int|
                0 <= j < commands.len() && ((#[trigger] commands[j]).op matches OpView::SetEnvelope(
                    target,
                    _,
                ) && target == degree) && (forall|k: int|
                    0 <= k < commands.len() && ((#[trigger] commands[k]).op
                        matches OpView::SetEnvelope(target, _) && target == degree) ==> !past(
                        commands[j].id,
                        commands[k].id,
                    )) ==> !order::before(commands[i].id.key(), commands[j].id.key())
        }) ==> shown.envelopes@.dom().contains(degree) && shown.envelopes@[degree]@ == env,
        shown.envelopes@.dom().contains(degree) ==> exists|j: int|
            0 <= j < commands.len() && ((#[trigger] commands[j]).op matches OpView::SetEnvelope(
                target,
                written,
            ) && target == degree && written == shown.envelopes@[degree]@),
{
    view::law_fold_matches_the_reference(commands, Some(active), past);
    let writes = causal::envelope_writes(active, degree);
    let music = view::reference(commands, Some(active), past);
    let said = shown.envelopes@.map_values(|env: crate::music::facets::Envelope| env@);
    assert(said.dom() =~= shown.envelopes@.dom());
    if shown.envelopes@.dom().contains(degree) {
        assert(said[degree] == shown.envelopes@[degree]@);
        let j = choose|j: int| #[trigger] causal::decides(commands, writes, past, j);
        assert(commands[j].op is SetEnvelope);
    }
    if {
        &&& 0 <= i < commands.len()
        &&& commands[i].op == OpView::SetEnvelope(degree, env)
        &&& forall|j: int|
            0 <= j < commands.len() && ((#[trigger] commands[j]).op matches OpView::SetEnvelope(
                target,
                _,
            ) && target == degree) ==> !past(commands[i].id, commands[j].id)
        &&& forall|j: int|
            0 <= j < commands.len() && ((#[trigger] commands[j]).op matches OpView::SetEnvelope(
                target,
                _,
            ) && target == degree) && (forall|k: int|
                0 <= k < commands.len() && ((#[trigger] commands[k]).op matches OpView::SetEnvelope(
                    target,
                    _,
                ) && target == degree) ==> !past(commands[j].id, commands[k].id))
                ==> !order::before(commands[i].id.key(), commands[j].id.key())
    } {
        assert(writes(commands[i]) == Some(env));
        assert forall|j: int|
            0 <= j < commands.len() && writes(#[trigger] commands[j]) is Some implies !past(
            commands[i].id,
            commands[j].id,
        ) by {}
        assert(causal::stands(commands, writes, past, i));
        assert forall|j: int| #[trigger] causal::stands(
            commands,
            writes,
            past,
            j,
        ) implies !order::before(commands[i].id.key(), commands[j].id.key()) by {
            assert forall|k: int|
                0 <= k < commands.len() && ((#[trigger] commands[k]).op matches OpView::SetEnvelope(
                    target,
                    _,
                ) && target == degree) implies !past(commands[j].id, commands[k].id) by {
                assert(writes(commands[k]) is Some);
            }
        }
        assert(causal::decides(commands, writes, past, i));
        causal::lemma_decider_is_read(commands, writes, past, i);
        assert(music.envelopes.dom().contains(degree));
        assert(said[degree] == env);
    }
}

/// A room shows the settings of the settings command that decides, whether or not
/// the tuning is valid, with every field as it was written but for the pattern,
/// which is empty. A room in which none was made shows the built-in ones.
pub proof fn law_shown_settings(
    commands: Seq<CommandView>,
    active: Option<TuningView>,
    past: spec_fn(EntryHash, EntryHash) -> bool,
    shown: MusicView,
    config: RoundTableConfig,
    i: int,
)
    requires
        causal::ordered(commands, past),
        shown.shows(view::music_of(fold::fold_of(commands, active, past), active is Some)),
    ensures
        ({
            &&& 0 <= i < commands.len()
            &&& commands[i].op == OpView::SetRoundTable(config)
            &&& forall|j: int|
                0 <= j < commands.len() && (#[trigger] commands[j]).op is SetRoundTable ==> !past(
                    commands[i].id,
                    commands[j].id,
                )
            &&& forall|j: int|
                0 <= j < commands.len() && (#[trigger] commands[j]).op is SetRoundTable && (forall|
                    k: int,
                |
                    0 <= k < commands.len() && (#[trigger] commands[k]).op is SetRoundTable
                        ==> !past(commands[j].id, commands[k].id)) ==> !order::before(
                    commands[i].id.key(),
                    commands[j].id.key(),
                )
        }) ==> {
            &&& shown.round_table.pitch_mode == config.pitch_mode
            &&& shown.round_table.pattern@ == Set::<u8>::empty()
            &&& shown.round_table.center_millihz == config.center_millihz
            &&& shown.round_table.scale == config.scale
            &&& shown.round_table.spread_semitones == config.spread_semitones
            &&& shown.round_table.level_per_mille == config.level_per_mille
            &&& shown.round_table.pulse_ms == config.pulse_ms
            &&& shown.round_table.gap_ms == config.gap_ms
        },
        (forall|j: int|
            0 <= j < commands.len() ==> (#[trigger] commands[j]).op !is SetRoundTable)
            ==> shown.round_table.is_default(),
{
    view::law_fold_matches_the_reference(commands, active, past);
    crate::music::pattern::RoundTablePattern::lemma_none_is_empty();
    let writes = causal::round_table_writes();
    if forall|j: int| 0 <= j < commands.len() ==> (#[trigger] commands[j]).op !is SetRoundTable {
        if exists|j: int| #[trigger] causal::decides(commands, writes, past, j) {
            let j = choose|j: int| #[trigger] causal::decides(commands, writes, past, j);
            assert(commands[j].op is SetRoundTable);
        }
    }
    if {
        &&& 0 <= i < commands.len()
        &&& commands[i].op == OpView::SetRoundTable(config)
        &&& forall|j: int|
            0 <= j < commands.len() && (#[trigger] commands[j]).op is SetRoundTable ==> !past(
                commands[i].id,
                commands[j].id,
            )
        &&& forall|j: int|
            0 <= j < commands.len() && (#[trigger] commands[j]).op is SetRoundTable && (forall|
                k: int,
            |
                0 <= k < commands.len() && (#[trigger] commands[k]).op is SetRoundTable ==> !past(
                    commands[j].id,
                    commands[k].id,
                )) ==> !order::before(commands[i].id.key(), commands[j].id.key())
    } {
        assert(writes(commands[i]) is Some);
        assert forall|j: int|
            0 <= j < commands.len() && writes(#[trigger] commands[j]) is Some implies !past(
            commands[i].id,
            commands[j].id,
        ) by {}
        assert(causal::stands(commands, writes, past, i));
        assert forall|j: int| #[trigger] causal::stands(
            commands,
            writes,
            past,
            j,
        ) implies !order::before(commands[i].id.key(), commands[j].id.key()) by {
            assert forall|k: int|
                0 <= k < commands.len() && (#[trigger] commands[k]).op is SetRoundTable implies !past(
                commands[j].id,
                commands[k].id,
            ) by {
                assert(writes(commands[k]) is Some);
            }
        }
        assert(causal::decides(commands, writes, past, i));
        causal::lemma_decider_is_read(commands, writes, past, i);
    }
}

/// A room shows the tuning of the tuning command that decides, whether or not it is
/// valid, and none where none was set.
pub proof fn law_shown_tuning(
    commands: Seq<CommandView>,
    active: Option<TuningView>,
    past: spec_fn(EntryHash, EntryHash) -> bool,
    shown: MusicView,
    definition: DefinitionView,
    i: int,
)
    requires
        causal::ordered(commands, past),
        shown.shows(view::music_of(fold::fold_of(commands, active, past), active is Some)),
    ensures
        ({
            &&& 0 <= i < commands.len()
            &&& commands[i].op == OpView::SetTuning(definition)
            &&& forall|j: int|
                0 <= j < commands.len() && (#[trigger] commands[j]).op is SetTuning ==> !past(
                    commands[i].id,
                    commands[j].id,
                )
            &&& forall|j: int|
                0 <= j < commands.len() && (#[trigger] commands[j]).op is SetTuning && (forall|
                    k: int,
                |
                    0 <= k < commands.len() && (#[trigger] commands[k]).op is SetTuning ==> !past(
                        commands[j].id,
                        commands[k].id,
                    )) ==> !order::before(commands[i].id.key(), commands[j].id.key())
        }) ==> shown.tuning is Some && shown.tuning->0@ == definition,
        (forall|j: int| 0 <= j < commands.len() ==> (#[trigger] commands[j]).op !is SetTuning)
            ==> shown.tuning is None,
{
    view::law_fold_matches_the_reference(commands, active, past);
    let writes = causal::tuning_writes();
    if forall|j: int| 0 <= j < commands.len() ==> (#[trigger] commands[j]).op !is SetTuning {
        if exists|j: int| #[trigger] causal::decides(commands, writes, past, j) {
            let j = choose|j: int| #[trigger] causal::decides(commands, writes, past, j);
            assert(commands[j].op is SetTuning);
        }
    }
    if {
        &&& 0 <= i < commands.len()
        &&& commands[i].op == OpView::SetTuning(definition)
        &&& forall|j: int|
            0 <= j < commands.len() && (#[trigger] commands[j]).op is SetTuning ==> !past(
                commands[i].id,
                commands[j].id,
            )
        &&& forall|j: int|
            0 <= j < commands.len() && (#[trigger] commands[j]).op is SetTuning && (forall|k: int|
                0 <= k < commands.len() && (#[trigger] commands[k]).op is SetTuning ==> !past(
                    commands[j].id,
                    commands[k].id,
                )) ==> !order::before(commands[i].id.key(), commands[j].id.key())
    } {
        assert(writes(commands[i]) == Some(definition));
        assert forall|j: int|
            0 <= j < commands.len() && writes(#[trigger] commands[j]) is Some implies !past(
            commands[i].id,
            commands[j].id,
        ) by {}
        assert(causal::stands(commands, writes, past, i));
        assert forall|j: int| #[trigger] causal::stands(
            commands,
            writes,
            past,
            j,
        ) implies !order::before(commands[i].id.key(), commands[j].id.key()) by {
            assert forall|k: int|
                0 <= k < commands.len() && (#[trigger] commands[k]).op is SetTuning implies !past(
                commands[j].id,
                commands[k].id,
            ) by {
                assert(writes(commands[k]) is Some);
            }
        }
        assert(causal::decides(commands, writes, past, i));
        causal::lemma_decider_is_read(commands, writes, past, i);
    }
}

/// Where the tuning is not valid no pitch is live, nobody holds one and no envelope
/// shows.
pub proof fn law_invalid_tunings_silence(
    commands: Seq<CommandView>,
    past: spec_fn(EntryHash, EntryHash) -> bool,
    shown: MusicView,
)
    requires
        shown.shows(view::music_of(fold::fold_of(commands, None, past), false)),
    ensures
        shown.live@ == Set::<TunedDegree>::empty(),
        shown.live_pitches@ == Set::<TunedPeriodicPitch>::empty(),
        shown.holders@.dom() == Set::<TunedDegree>::empty(),
        shown.pitch_holders@.dom() == Set::<TunedPeriodicPitch>::empty(),
        shown.envelopes@.dom() == Set::<TunedDegree>::empty(),
        shown.shared_pitches.pitch_classes@ == Set::<TunedDegree>::empty(),
        shown.shared_pitches.pitches@ == Set::<TunedPeriodicPitch>::empty(),
{
    assert(shown.live@ =~= Set::<TunedDegree>::empty());
    assert(shown.live_pitches@ =~= Set::<TunedPeriodicPitch>::empty());
    assert(shown.holders@.dom() =~= shown.holders@.map_values(
        |actors: crate::collections::SortedSet<ActorId>| actors@,
    ).dom());
    assert(shown.pitch_holders@.dom() =~= shown.pitch_holders@.map_values(
        |actors: crate::collections::SortedSet<ActorId>| actors@,
    ).dom());
    assert(shown.envelopes@.dom() =~= shown.envelopes@.map_values(
        |env: crate::music::facets::Envelope| env@,
    ).dom());
    assert(shown.holders@.dom() =~= Set::<TunedDegree>::empty());
    assert(shown.pitch_holders@.dom() =~= Set::<TunedPeriodicPitch>::empty());
    assert(shown.envelopes@.dom() =~= Set::<TunedDegree>::empty());
}

/// One command changes what it speaks of and nothing else. An add of a degree or a
/// pitch of the tuning joins the adds of that one; a remove takes away those that it
/// has observed. An envelope of a degree of the tuning, and settings whatever the
/// tuning, take the place of those that they have observed and stand beside the
/// others.
pub proof fn law_a_command_changes_what_it_speaks_of(
    start: FoldView,
    command: CommandView,
    active: TuningView,
    past: spec_fn(EntryHash, EntryHash) -> bool,
    degree: TunedDegree,
    pitch: TunedPeriodicPitch,
)
    ensures
        ({
            let after = fold::folded(start, seq![command], active, past);
            let unobserved = |kept: (EntryHash, ActorId)| !past(kept.0, command.id);
            let degree_fits = degree.tuning_id == active.id && degree.degree < active.degrees.len();
            let pitch_fits = pitch.tuning_id == active.id && pitch.pitch.degree
                < active.degrees.len();
            &&& after.tuning_maxima == start.tuning_maxima
            &&& after.live_adds.dom().contains(degree) <==> start.live_adds.dom().contains(degree)
                || command.op == OpView::AddDegree(degree) && degree_fits
            &&& fold::listed(after.live_adds, degree) == (if command.op == OpView::AddDegree(degree)
                && degree_fits {
                fold::listed(start.live_adds, degree).push((command.id, command.actor))
            } else if command.op == OpView::RemoveDegree(degree) {
                fold::listed(start.live_adds, degree).filter(unobserved)
            } else {
                fold::listed(start.live_adds, degree)
            })
            &&& after.live_pitch_adds.dom().contains(pitch)
                <==> start.live_pitch_adds.dom().contains(pitch) || command.op == OpView::AddPitch(
                pitch,
            ) && pitch_fits
            &&& fold::listed(after.live_pitch_adds, pitch) == (if command.op == OpView::AddPitch(pitch)
                && pitch_fits {
                fold::listed(start.live_pitch_adds, pitch).push((command.id, command.actor))
            } else if command.op == OpView::RemovePitch(pitch) {
                fold::listed(start.live_pitch_adds, pitch).filter(unobserved)
            } else {
                fold::listed(start.live_pitch_adds, pitch)
            })
        }),
{
    let one = seq![command];
    assert(one.drop_last() =~= Seq::<CommandView>::empty());
    assert(one[0] == command);
    reveal_with_fuel(causal::survivors, 2);
    let empty = Seq::<(EntryHash, ActorId)>::empty();
    let (adds, removes) = (causal::degree_adds(active), causal::degree_removes());
    let (pitch_adds, pitch_removes) = (causal::pitch_adds(active), causal::pitch_removes());
    reveal(Seq::filter);
    if causal::named(one, adds, degree) {
        assert(adds(command) == Some(degree));
    }
    if adds(command) == Some(degree) {
        assert(causal::named(one, adds, degree));
    }
    if causal::named(one, pitch_adds, pitch) {
        assert(pitch_adds(command) == Some(pitch));
    }
    if pitch_adds(command) == Some(pitch) {
        assert(causal::named(one, pitch_adds, pitch));
    }
    assert(empty.filter(|kept: (EntryHash, ActorId)| !past(kept.0, command.id)) =~= empty);
}

/// One settings command and one envelope command as registers keep them.
pub proof fn law_a_write_replaces_what_it_observed(
    start: FoldView,
    command: CommandView,
    active: Option<TuningView>,
    past: spec_fn(EntryHash, EntryHash) -> bool,
    degree: TunedDegree,
)
    ensures
        ({
            let after = fold::folded_under(start, seq![command], active, past);
            &&& after.tuning_maxima == start.tuning_maxima
            &&& match command.op {
                OpView::SetRoundTable(config) => {
                    let kept = start.round_table_maxima.filter(
                        |kept: (EntryHash, RoundTableConfig)| !past(kept.0, command.id),
                    );
                    &&& after.round_table_maxima.len() == kept.len() + 1
                    &&& after.round_table_maxima.drop_last() == kept
                    &&& after.round_table_maxima.last().0 == command.id
                    &&& after.round_table_maxima.last().1.pattern@ == Set::<u8>::empty()
                    &&& after.round_table_maxima.last().1.pitch_mode == config.pitch_mode
                    &&& after.round_table_maxima.last().1.center_millihz == config.center_millihz
                    &&& after.round_table_maxima.last().1.scale == config.scale
                    &&& after.round_table_maxima.last().1.spread_semitones
                        == config.spread_semitones
                    &&& after.round_table_maxima.last().1.level_per_mille == config.level_per_mille
                    &&& after.round_table_maxima.last().1.pulse_ms == config.pulse_ms
                    &&& after.round_table_maxima.last().1.gap_ms == config.gap_ms
                },
                _ => after.round_table_maxima == start.round_table_maxima,
            }
            &&& active is None ==> {
                &&& after.live_adds == start.live_adds
                &&& after.live_pitch_adds == start.live_pitch_adds
                &&& after.envelope_maxima == start.envelope_maxima
            }
            &&& active matches Some(tuning) ==> {
                let fits = degree.tuning_id == tuning.id && degree.degree < tuning.degrees.len();
                match command.op {
                    OpView::SetEnvelope(target, env) if target == degree && fits => {
                        &&& after.envelope_maxima.dom().contains(degree)
                        &&& after.envelope_maxima[degree] == fold::listed(
                            start.envelope_maxima,
                            degree,
                        ).filter(
                            |kept: (EntryHash, EnvelopeView)| !past(kept.0, command.id),
                        ).push((command.id, env))
                    },
                    _ => {
                        &&& after.envelope_maxima.dom().contains(degree)
                            == start.envelope_maxima.dom().contains(degree)
                        &&& fold::listed(after.envelope_maxima, degree) == fold::listed(
                            start.envelope_maxima,
                            degree,
                        )
                    },
                }
            }
        }),
{
    let one = seq![command];
    assert(one.drop_last() =~= Seq::<CommandView>::empty());
    assert(one[0] == command);
    reveal_with_fuel(causal::maxima, 2);
    crate::music::pattern::RoundTablePattern::lemma_none_is_empty();
    let after = fold::folded_under(start, one, active, past);
    if let OpView::SetRoundTable(config) = command.op {
        let kept = start.round_table_maxima.filter(
            |kept: (EntryHash, RoundTableConfig)| !past(kept.0, command.id),
        );
        assert(after.round_table_maxima == kept.push((command.id, causal::settings_of(config))));
        assert(after.round_table_maxima.drop_last() =~= kept);
    }
    if let Some(tuning) = active {
        let targets = causal::envelope_targets(tuning);
        if causal::named(one, targets, degree) {
            assert(targets(command) == Some(degree));
        }
        if targets(command) == Some(degree) {
            assert(causal::named(one, targets, degree));
        }
    }
}

/// Of concurrent values the one with the largest hash is read, and none only where
/// there is none.
pub proof fn law_the_largest_hash_is_read<V>(list: Seq<(EntryHash, V)>, i: int)
    requires
        0 <= i < list.len(),
    ensures
        causal::winner(list) is Some,
        (forall|j: int|
            0 <= j < list.len() && j != i ==> order::before(
                (#[trigger] list[j]).0.key(),
                list[i].0.key(),
            )) ==> causal::winner(list) == Some(list[i].1),
{
    causal::lemma_top(list, i);
}

/// A room in which nothing was said shows nothing, and the built-in settings.
pub proof fn law_an_unspoken_room_is_quiet(shown: MusicView)
    requires
        shown.shows(view::quiet()),
    ensures
        shown.live@ == Set::<TunedDegree>::empty(),
        shown.live_pitches@ == Set::<TunedPeriodicPitch>::empty(),
        shown.holders@.dom() == Set::<TunedDegree>::empty(),
        shown.pitch_holders@.dom() == Set::<TunedPeriodicPitch>::empty(),
        shown.envelopes@.dom() == Set::<TunedDegree>::empty(),
        shown.tuning is None,
        shown.round_table.is_default(),
        shown.shared_pitches.pitch_classes@ == Set::<TunedDegree>::empty(),
        shown.shared_pitches.pitches@ == Set::<TunedPeriodicPitch>::empty(),
{
    assert(shown.live@ =~= Set::<TunedDegree>::empty());
    assert(shown.live_pitches@ =~= Set::<TunedPeriodicPitch>::empty());
    assert(shown.holders@.dom() =~= shown.holders@.map_values(
        |actors: crate::collections::SortedSet<ActorId>| actors@,
    ).dom());
    assert(shown.pitch_holders@.dom() =~= shown.pitch_holders@.map_values(
        |actors: crate::collections::SortedSet<ActorId>| actors@,
    ).dom());
    assert(shown.envelopes@.dom() =~= shown.envelopes@.map_values(
        |env: crate::music::facets::Envelope| env@,
    ).dom());
    assert(shown.holders@.dom() =~= Set::<TunedDegree>::empty());
    assert(shown.pitch_holders@.dom() =~= Set::<TunedPeriodicPitch>::empty());
    assert(shown.envelopes@.dom() =~= Set::<TunedDegree>::empty());
}

/// Before any command nothing is kept.
pub proof fn law_a_fold_starts_empty(degree: TunedDegree, pitch: TunedPeriodicPitch)
    ensures
        fold::nothing().tuning_maxima.len() == 0,
        fold::nothing().round_table_maxima.len() == 0,
        !fold::nothing().live_adds.dom().contains(degree),
        !fold::nothing().live_pitch_adds.dom().contains(pitch),
        !fold::nothing().envelope_maxima.dom().contains(degree),
{
}

} // verus!
