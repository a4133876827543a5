//! What a room's music amounts to: the live pitches and who holds them, the
//! envelopes, the tuning and the round-table settings.

use crate::collections;
use crate::collections::{Ordered, SortedMap, SortedSet};
use crate::music::facets::{Envelope, EnvelopeView};
use crate::music::roundtable::RoundTableConfig;
use crate::music::shared_set::SharedPitchSet;
use crate::music::tuning::{
    DefinitionView, TunedDegree, TunedPeriodicPitch, Tuning, TuningDefinition, TuningView,
};
use crate::replica::causal;
use crate::replica::causal::{Command, CommandView};
use crate::replica::fold;
use crate::replica::fold::{fold_state, FoldState, FoldView};
use crate::replica::history;
use crate::replica::history::{History, HistoryView};
use crate::replica::ids::{ActorId, EntryHash};
use vstd::prelude::*;

verus! {

#[derive(Debug, PartialEq, Eq)]
pub struct MusicView {
    pub live: SortedSet<TunedDegree>,
    pub holders: SortedMap<TunedDegree, SortedSet<ActorId>>,
    pub live_pitches: SortedSet<TunedPeriodicPitch>,
    pub pitch_holders: SortedMap<TunedPeriodicPitch, SortedSet<ActorId>>,
    pub envelopes: SortedMap<TunedDegree, Envelope>,
    /// The tuning that was set; where none was, the built-in twelve-tone equal
    /// temperament holds.
    pub tuning: Option<TuningDefinition>,
    pub round_table: RoundTableConfig,
    /// One room-owned pitch set. Any authorized peer may edit any member.
    pub shared_pitches: SharedPitchSet,
}

/// The music that a view shows.
#[verifier::ext_equal]
pub struct MusicModel {
    /// The live degrees, and who holds each.
    pub holders: Map<TunedDegree, Set<ActorId>>,
    /// The live absolute pitches, and who holds each.
    pub pitch_holders: Map<TunedPeriodicPitch, Set<ActorId>>,
    pub envelopes: Map<TunedDegree, EnvelopeView>,
    pub tuning: Option<DefinitionView>,
    /// The settings that were made, if any were.
    pub round_table: Option<RoundTableConfig>,
}

impl MusicView {
    pub open spec fn shows(self, music: MusicModel) -> bool {
        &&& self.live@ == music.holders.dom()
        &&& self.holders@.map_values(|actors: SortedSet<ActorId>| actors@) == music.holders
        &&& self.live_pitches@ == music.pitch_holders.dom()
        &&& self.pitch_holders@.map_values(|actors: SortedSet<ActorId>| actors@)
            == music.pitch_holders
        &&& self.envelopes@.map_values(|env: Envelope| env@) == music.envelopes
        &&& match self.tuning {
            Some(tuning) => music.tuning == Some(tuning@),
            None => music.tuning is None,
        }
        &&& match music.round_table {
            Some(settings) => self.round_table == settings,
            None => self.round_table.is_default(),
        }
        &&& self.shared_pitches.pitch_classes@ == music.holders.dom()
        &&& self.shared_pitches.pitches@ == music.pitch_holders.dom()
    }
}

/// A room in which nothing has happened.
pub open spec fn quiet() -> MusicModel {
    MusicModel {
        holders: Map::empty(),
        pitch_holders: Map::empty(),
        envelopes: Map::empty(),
        tuning: None,
        round_table: None,
    }
}

impl Default for MusicView {
    fn default() -> (view: Self)
        ensures
            view.shows(quiet()),
    {
        let view = MusicView {
            live: SortedSet::new(),
            holders: SortedMap::new(),
            live_pitches: SortedSet::new(),
            pitch_holders: SortedMap::new(),
            envelopes: SortedMap::new(),
            tuning: None,
            round_table: RoundTableConfig::default(),
            shared_pitches: SharedPitchSet::default(),
        };
        proof {
            assert(view.live@ =~= quiet().holders.dom());
            assert(view.live_pitches@ =~= quiet().pitch_holders.dom());
            assert(view.holders@.map_values(|actors: SortedSet<ActorId>| actors@)
                =~= quiet().holders);
            assert(view.pitch_holders@.map_values(|actors: SortedSet<ActorId>| actors@)
                =~= quiet().pitch_holders);
            assert(view.envelopes@.map_values(|env: Envelope| env@) =~= quiet().envelopes);
        }
        view
    }
}

/// Whose adds a list holds.
pub open spec fn actors_of(adds: Seq<(EntryHash, ActorId)>) -> Set<ActorId> {
    Set::new(|actor: ActorId| exists|i: int| 0 <= i < adds.len() && #[trigger] adds[i].1 == actor)
}

/// Who holds each member whose adds were not all taken away.
pub open spec fn holders_in<K>(live: Map<K, Seq<(EntryHash, ActorId)>>) -> Map<K, Set<ActorId>> {
    Map::new(
        |member: K| live.dom().contains(member) && live[member].len() > 0,
        |member: K| actors_of(live[member]),
    )
}

/// The music of a fold state. Where the tuning is not valid no pitch is live and
/// no envelope holds.
pub open spec fn music_of(state: FoldView, valid: bool) -> MusicModel {
    let (tuning, round_table) = (
        causal::winner(state.tuning_maxima),
        causal::winner(state.round_table_maxima),
    );
    if valid {
        MusicModel {
            holders: holders_in(state.live_adds),
            pitch_holders: holders_in(state.live_pitch_adds),
            envelopes: Map::new(
                |degree: TunedDegree|
                    state.envelope_maxima.dom().contains(degree)
                        && state.envelope_maxima[degree].len() > 0,
                |degree: TunedDegree| causal::winner(state.envelope_maxima[degree])->0,
            ),
            tuning,
            round_table,
        }
    } else {
        MusicModel { tuning, round_table, ..quiet() }
    }
}

/// The music of commands, every one compared with every other: the all-pairs
/// meaning of the fold.
pub open spec fn reference(
    commands: Seq<CommandView>,
    active: Option<TuningView>,
    past: spec_fn(EntryHash, EntryHash) -> bool,
) -> MusicModel {
    let tuning = causal::register(commands, causal::tuning_writes(), past);
    let round_table = causal::register(commands, causal::round_table_writes(), past);
    match active {
        Some(active) => MusicModel {
            holders: Map::new(
                |degree: TunedDegree|
                    causal::is_live(
                        commands,
                        causal::degree_adds(active),
                        causal::degree_removes(),
                        past,
                        degree,
                    ),
                |degree: TunedDegree|
                    Set::new(
                        |actor: ActorId|
                            causal::holds(
                                commands,
                                causal::degree_adds(active),
                                causal::degree_removes(),
                                past,
                                degree,
                                actor,
                            ),
                    ),
            ),
            pitch_holders: Map::new(
                |pitch: TunedPeriodicPitch|
                    causal::is_live(
                        commands,
                        causal::pitch_adds(active),
                        causal::pitch_removes(),
                        past,
                        pitch,
                    ),
                |pitch: TunedPeriodicPitch|
                    Set::new(
                        |actor: ActorId|
                            causal::holds(
                                commands,
                                causal::pitch_adds(active),
                                causal::pitch_removes(),
                                past,
                                pitch,
                                actor,
                            ),
                    ),
            ),
            envelopes: Map::new(
                |degree: TunedDegree|
                    causal::register(
                        commands,
                        causal::envelope_writes(active, degree),
                        past,
                    ) is Some,
                |degree: TunedDegree|
                    causal::register(
                        commands,
                        causal::envelope_writes(active, degree),
                        past,
                    )->0,
            ),
            tuning,
            round_table,
        },
        None => MusicModel { tuning, round_table, ..quiet() },
    }
}

proof fn lemma_holders_match<K>(
    commands: Seq<CommandView>,
    adds: spec_fn(CommandView) -> Option<K>,
    removes: spec_fn(CommandView) -> Option<K>,
    past: spec_fn(EntryHash, EntryHash) -> bool,
)
    requires
        causal::ordered(commands, past),
        forall|command: CommandView| #[trigger]
            adds(command) is Some ==> removes(command) is None,
    ensures
        holders_in(fold::folded_adds(Map::empty(), commands, adds, removes, past)) == Map::new(
            |member: K| causal::is_live(commands, adds, removes, past, member),
            |member: K|
                Set::new(
                    |actor: ActorId|
                        causal::holds(commands, adds, removes, past, member, actor),
                ),
        ),
{
    let live = fold::folded_adds(Map::empty(), commands, adds, removes, past);
    let sparse = holders_in(live);
    let full = Map::new(
        |member: K| causal::is_live(commands, adds, removes, past, member),
        |member: K|
            Set::new(
                |actor: ActorId| causal::holds(commands, adds, removes, past, member, actor),
            ),
    );
    assert forall|member: K| #[trigger]
        sparse.dom().contains(member) == full.dom().contains(member) by {
        let list = causal::survivors(Seq::empty(), commands, adds, removes, past, member);
        assert(fold::listed(Map::<K, Seq<(EntryHash, ActorId)>>::empty(), member)
            == Seq::<(EntryHash, ActorId)>::empty());
        if sparse.dom().contains(member) {
            assert(list.contains(list[0]));
            causal::lemma_survivors_live(commands, adds, removes, past, member, list[0]);
            assert(full.dom().contains(member));
        }
        if full.dom().contains(member) {
            let i = choose|i: int| #[trigger]
                causal::lives(commands, adds, removes, past, member, i);
            assert(causal::named(commands, adds, member)) by {
                assert(adds(commands[i]) == Some(member));
            }
            let item = (commands[i].id, commands[i].actor);
            causal::lemma_survivors_live(commands, adds, removes, past, member, item);
            assert(list.contains(item));
            assert(live.dom().contains(member) && live[member] == list);
        }
    }
    assert(sparse.dom() =~= full.dom());
    assert forall|member: K| full.dom().contains(member) implies #[trigger] sparse[member]
        == full[member] by {
        let list = causal::survivors(Seq::empty(), commands, adds, removes, past, member);
        assert(fold::listed(Map::<K, Seq<(EntryHash, ActorId)>>::empty(), member)
            == Seq::<(EntryHash, ActorId)>::empty());
        assert(sparse.dom().contains(member));
        assert(live[member] == list);
        assert forall|actor: ActorId|
            actors_of(list).contains(actor) == causal::holds(
                commands,
                adds,
                removes,
                past,
                member,
                actor,
            ) by {
            if actors_of(list).contains(actor) {
                let k = choose|k: int| 0 <= k < list.len() && #[trigger] list[k].1 == actor;
                assert(list.contains(list[k]));
                causal::lemma_survivors_live(commands, adds, removes, past, member, list[k]);
            }
            if causal::holds(commands, adds, removes, past, member, actor) {
                let i = choose|i: int|
                    #[trigger] causal::lives(commands, adds, removes, past, member, i)
                        && commands[i].actor == actor;
                let item = (commands[i].id, commands[i].actor);
                causal::lemma_survivors_live(commands, adds, removes, past, member, item);
                let k = list.index_of(item);
                assert(list[k].1 == actor);
            }
        }
        assert(sparse[member] =~= full[member]);
    }
    assert(sparse =~= full);
}

/// The sparse fold means what comparing all commands with all means.
pub proof fn law_fold_matches_the_reference(
    commands: Seq<CommandView>,
    active: Option<TuningView>,
    past: spec_fn(EntryHash, EntryHash) -> bool,
)
    requires
        causal::ordered(commands, past),
    ensures
        music_of(fold::fold_of(commands, active, past), active is Some) == reference(
            commands,
            active,
            past,
        ),
{
    causal::lemma_winner_is_the_register(commands, causal::tuning_writes(), past);
    causal::lemma_winner_is_the_register(commands, causal::round_table_writes(), past);
    let sparse = music_of(fold::fold_of(commands, active, past), active is Some);
    let full = reference(commands, active, past);
    match active {
        Some(active) => {
            lemma_holders_match(
                commands,
                causal::degree_adds(active),
                causal::degree_removes(),
                past,
            );
            lemma_holders_match(
                commands,
                causal::pitch_adds(active),
                causal::pitch_removes(),
                past,
            );
            let kept = fold::folded_envelopes(Map::empty(), commands, active, past);
            let targets = causal::envelope_targets(active);
            assert forall|degree: TunedDegree|
                #![trigger sparse.envelopes.dom().contains(degree)]
                {
                    &&& sparse.envelopes.dom().contains(degree)
                        == full.envelopes.dom().contains(degree)
                    &&& full.envelopes.dom().contains(degree) ==> sparse.envelopes[degree]
                        == full.envelopes[degree]
                } by {
                let writes = causal::envelope_writes(active, degree);
                causal::lemma_winner_is_the_register(commands, writes, past);
                assert(fold::listed(
                    Map::<TunedDegree, Seq<(EntryHash, EnvelopeView)>>::empty(),
                    degree,
                ) == Seq::<(EntryHash, EnvelopeView)>::empty());
                let list = causal::maxima(Seq::empty(), commands, writes, past);
                if !causal::named(commands, targets, degree) {
                    assert forall|i: int| 0 <= i < commands.len() implies writes(
                        #[trigger] commands[i],
                    ) is None by {
                        assert(targets(commands[i]) != Some(degree));
                    }
                    causal::lemma_unwritten_has_no_writes(commands, writes, past);
                }
            }
            assert(sparse.envelopes.dom() =~= full.envelopes.dom());
            assert(sparse.envelopes =~= full.envelopes);
            assert(sparse =~= full);
        },
        None => {
            assert(sparse =~= full);
        },
    }
}

/// Replicas converge: whatever order the same commands came in, they leave the
/// same music.
pub proof fn law_replicas_converge(
    a: Seq<CommandView>,
    b: Seq<CommandView>,
    active: Option<TuningView>,
    past: spec_fn(EntryHash, EntryHash) -> bool,
)
    requires
        causal::ordered(a, past),
        causal::ordered(b, past),
        causal::same_commands(a, b),
    ensures
        music_of(fold::fold_of(a, active, past), active is Some) == music_of(
            fold::fold_of(b, active, past),
            active is Some,
        ),
        causal::register(a, causal::tuning_writes(), past) == causal::register(
            b,
            causal::tuning_writes(),
            past,
        ),
{
    law_fold_matches_the_reference(a, active, past);
    law_fold_matches_the_reference(b, active, past);
    causal::law_registers_converge(a, b, causal::tuning_writes(), past);
    causal::law_registers_converge(a, b, causal::round_table_writes(), past);
    let (x, y) = (reference(a, active, past), reference(b, active, past));
    match active {
        Some(active) => {
            assert forall|degree: TunedDegree|
                causal::register(
                    a,
                    causal::envelope_writes(active, degree),
                    past,
                ) == #[trigger] causal::register(
                    b,
                    causal::envelope_writes(active, degree),
                    past,
                ) by {
                causal::law_registers_converge(
                    a,
                    b,
                    causal::envelope_writes(active, degree),
                    past,
                );
            }
            assert forall|degree: TunedDegree, actor: ActorId|
                causal::holds(
                    a,
                    causal::degree_adds(active),
                    causal::degree_removes(),
                    past,
                    degree,
                    actor,
                ) == #[trigger] causal::holds(
                    b,
                    causal::degree_adds(active),
                    causal::degree_removes(),
                    past,
                    degree,
                    actor,
                ) by {
                causal::law_sets_converge(
                    a,
                    b,
                    causal::degree_adds(active),
                    causal::degree_removes(),
                    past,
                    degree,
                    actor,
                );
            }
            assert forall|degree: TunedDegree|
                causal::is_live(
                    a,
                    causal::degree_adds(active),
                    causal::degree_removes(),
                    past,
                    degree,
                ) == #[trigger] causal::is_live(
                    b,
                    causal::degree_adds(active),
                    causal::degree_removes(),
                    past,
                    degree,
                ) by {
                causal::law_sets_converge(
                    a,
                    b,
                    causal::degree_adds(active),
                    causal::degree_removes(),
                    past,
                    degree,
                    arbitrary(),
                );
            }
            assert forall|pitch: TunedPeriodicPitch, actor: ActorId|
                causal::holds(
                    a,
                    causal::pitch_adds(active),
                    causal::pitch_removes(),
                    past,
                    pitch,
                    actor,
                ) == #[trigger] causal::holds(
                    b,
                    causal::pitch_adds(active),
                    causal::pitch_removes(),
                    past,
                    pitch,
                    actor,
                ) by {
                causal::law_sets_converge(
                    a,
                    b,
                    causal::pitch_adds(active),
                    causal::pitch_removes(),
                    past,
                    pitch,
                    actor,
                );
            }
            assert forall|pitch: TunedPeriodicPitch|
                causal::is_live(
                    a,
                    causal::pitch_adds(active),
                    causal::pitch_removes(),
                    past,
                    pitch,
                ) == #[trigger] causal::is_live(
                    b,
                    causal::pitch_adds(active),
                    causal::pitch_removes(),
                    past,
                    pitch,
                ) by {
                causal::law_sets_converge(
                    a,
                    b,
                    causal::pitch_adds(active),
                    causal::pitch_removes(),
                    past,
                    pitch,
                    arbitrary(),
                );
            }
            assert forall|degree: TunedDegree| x.holders.dom().contains(degree) implies
                #[trigger] x.holders[degree] == y.holders[degree] by {
                assert(x.holders[degree] =~= y.holders[degree]);
            }
            assert forall|pitch: TunedPeriodicPitch| x.pitch_holders.dom().contains(
                pitch,
            ) implies #[trigger] x.pitch_holders[pitch] == y.pitch_holders[pitch] by {
                assert(x.pitch_holders[pitch] =~= y.pitch_holders[pitch]);
            }
            assert(x.holders =~= y.holders);
            assert(x.pitch_holders =~= y.pitch_holders);
            assert(x.envelopes =~= y.envelopes);
            assert(x =~= y);
        },
        None => {},
    }
}

/// Peers converge: two replicas that hold the same entries, however each came by
/// them, and that take the same commands from them, each in its own order, show
/// the same music.
pub proof fn law_peers_converge(
    a: HistoryView,
    b: HistoryView,
    commands_a: Seq<CommandView>,
    commands_b: Seq<CommandView>,
    active: Option<TuningView>,
)
    requires
        history::same_entries(a, b),
        causal::ordered(commands_a, a.past_of()),
        causal::ordered(commands_b, b.past_of()),
        causal::same_commands(commands_a, commands_b),
    ensures
        music_of(fold::fold_of(commands_a, active, a.past_of()), active is Some) == music_of(
            fold::fold_of(commands_b, active, b.past_of()),
            active is Some,
        ),
{
    assert forall|x: EntryHash, y: EntryHash| #[trigger]
        (a.past_of())(x, y) == (b.past_of())(x, y) by {
        history::law_the_past_is_shared(a, b, x, y);
    }
    assert(a.past_of() =~= b.past_of());
    law_replicas_converge(commands_a, commands_b, active, a.past_of());
}

/// Collects whose adds a list holds.
fn collect_actors(adds: &Vec<(EntryHash, ActorId)>) -> (actors: SortedSet<ActorId>)
    ensures
        actors@ == actors_of(adds@),
{
    let mut actors: SortedSet<ActorId> = SortedSet::new();
    let mut i: usize = 0;
    assert(actors@ =~= actors_of(adds@.subrange(0, 0)));
    while i < adds.len()
        invariant
            i <= adds@.len(),
            actors@ == actors_of(adds@.subrange(0, i as int)),
        decreases adds@.len() - i,
    {
        proof {
            let (front, next) = (adds@.subrange(0, i as int), adds@.subrange(0, i + 1));
            let grown = actors_of(front).insert(adds@[i as int].1);
            assert forall|actor: ActorId| grown.contains(actor) == actors_of(next).contains(actor)
                by {
                if actors_of(front).contains(actor) {
                    let k = choose|k: int| 0 <= k < front.len() && #[trigger] front[k].1 == actor;
                    assert(next[k].1 == actor);
                }
                assert(next[i as int].1 == adds@[i as int].1);
                if actors_of(next).contains(actor) {
                    let k = choose|k: int| 0 <= k < next.len() && #[trigger] next[k].1 == actor;
                    if k < i {
                        assert(front[k].1 == actor);
                    }
                }
            }
            assert(grown =~= actors_of(next));
        }
        actors.insert(adds[i].1);
        i = i + 1;
    }
    assert(adds@.subrange(0, i as int) =~= adds@);
    actors
}

/// Collects who holds each member.
fn collect_holders<K: Ordered>(live: &SortedMap<K, Vec<(EntryHash, ActorId)>>) -> (holders:
    SortedMap<K, SortedSet<ActorId>>)
    ensures
        holders@.map_values(|actors: SortedSet<ActorId>| actors@) == holders_in(
            live@.map_values(|adds: Vec<(EntryHash, ActorId)>| adds@),
        ),
{
    let ghost lists = live@.map_values(|adds: Vec<(EntryHash, ActorId)>| adds@);
    live.expose();
    let mut holders: SortedMap<K, SortedSet<ActorId>> = SortedMap::new();
    let mut i: usize = 0;
    while i < live.len()
        invariant
            i <= live.keys().len(),
            lists == live@.map_values(|adds: Vec<(EntryHash, ActorId)>| adds@),
            live.keys().no_duplicates(),
            live.keys().to_set() == live@.dom(),
            live.keys().len() == live@.dom().len(),
            forall|member: K| #[trigger]
                holders@.dom().contains(member) <==> holders_in(lists).dom().contains(member)
                    && live.keys().subrange(0, i as int).contains(member),
            forall|member: K| #[trigger]
                holders@.dom().contains(member) ==> holders@[member]@ == actors_of(
                    lists[member],
                ),
        decreases live.keys().len() - i,
    {
        let key: K = live.key_at(i);
        let adds: &Vec<(EntryHash, ActorId)> = live.value_at(i);
        proof {
            let keys = live.keys();
            assert(keys.to_set().contains(keys[i as int]));
            assert(lists[key] == adds@);
            assert forall|member: K| #[trigger]
                keys.subrange(0, i + 1).contains(member) == (keys.subrange(0, i as int).contains(
                    member,
                ) || member == key) by {
                let (front, next) = (keys.subrange(0, i as int), keys.subrange(0, i + 1));
                if front.contains(member) {
                    assert(next[front.index_of(member)] == member);
                }
                assert(next[i as int] == key);
                if next.contains(member) && member != key {
                    assert(front[next.index_of(member)] == member);
                }
            }
        }
        if adds.len() > 0 {
            holders.insert(key, collect_actors(adds));
        }
        i = i + 1;
    }
    proof {
        let keys = live.keys();
        assert(keys.subrange(0, i as int) =~= keys);
        let shown = holders@.map_values(|actors: SortedSet<ActorId>| actors@);
        let wanted = holders_in(lists);
        assert forall|member: K| #[trigger]
            shown.dom().contains(member) == wanted.dom().contains(member) by {
            assert(shown.dom().contains(member) == holders@.dom().contains(member));
            if wanted.dom().contains(member) {
                assert(live@.dom().contains(member));
                assert(keys.to_set().contains(member));
            }
        }
        assert(shown =~= wanted);
    }
    holders
}

/// The keys of a map.
fn key_set<K: Ordered, V>(map: &SortedMap<K, V>) -> (keys: SortedSet<K>)
    ensures
        keys@ == map@.dom(),
{
    map.expose();
    let mut keys: SortedSet<K> = SortedSet::new();
    let mut i: usize = 0;
    assert(map.keys().subrange(0, 0).to_set() =~= Set::<K>::empty());
    while i < map.len()
        invariant
            i <= map.keys().len(),
            map.keys().to_set() == map@.dom(),
            map.keys().len() == map@.dom().len(),
            keys@ == map.keys().subrange(0, i as int).to_set(),
        decreases map.keys().len() - i,
    {
        proof {
            collections::lemma_prefix_set(map.keys(), i as int);
        }
        keys.insert(map.key_at(i));
        i = i + 1;
    }
    assert(map.keys().subrange(0, i as int) =~= map.keys());
    keys
}

/// Collects the envelope that each degree's writes leave.
fn collect_envelopes(maxima: &SortedMap<TunedDegree, Vec<(EntryHash, Envelope)>>) -> (envelopes:
    SortedMap<TunedDegree, Envelope>)
    ensures
        ({
            let lists = maxima@.map_values(
                |values: Vec<(EntryHash, Envelope)>| fold::viewed(values@),
            );
            envelopes@.map_values(|env: Envelope| env@) == Map::new(
                |degree: TunedDegree| lists.dom().contains(degree) && lists[degree].len() > 0,
                |degree: TunedDegree| causal::winner(lists[degree])->0,
            )
        }),
{
    let ghost lists = maxima@.map_values(
        |values: Vec<(EntryHash, Envelope)>| fold::viewed(values@),
    );
    maxima.expose();
    let mut envelopes: SortedMap<TunedDegree, Envelope> = SortedMap::new();
    let mut i: usize = 0;
    while i < maxima.len()
        invariant
            i <= maxima.keys().len(),
            lists == maxima@.map_values(
                |values: Vec<(EntryHash, Envelope)>| fold::viewed(values@),
            ),
            maxima.keys().no_duplicates(),
            maxima.keys().to_set() == maxima@.dom(),
            maxima.keys().len() == maxima@.dom().len(),
            forall|degree: TunedDegree| #[trigger]
                envelopes@.dom().contains(degree) <==> lists.dom().contains(degree)
                    && lists[degree].len() > 0 && maxima.keys().subrange(0, i as int).contains(
                    degree,
                ),
            forall|degree: TunedDegree| #[trigger]
                envelopes@.dom().contains(degree) ==> Some(envelopes@[degree]@)
                    == causal::winner(lists[degree]),
        decreases maxima.keys().len() - i,
    {
        let key: TunedDegree = maxima.key_at(i);
        let values: &Vec<(EntryHash, Envelope)> = maxima.value_at(i);
        proof {
            let keys = maxima.keys();
            assert(keys.to_set().contains(keys[i as int]));
            assert(lists[key] == fold::viewed(values@));
            assert forall|degree: TunedDegree| #[trigger]
                keys.subrange(0, i + 1).contains(degree) == (keys.subrange(0, i as int).contains(
                    degree,
                ) || degree == key) by {
                let (front, next) = (keys.subrange(0, i as int), keys.subrange(0, i + 1));
                if front.contains(degree) {
                    assert(next[front.index_of(degree)] == degree);
                }
                assert(next[i as int] == key);
                if next.contains(degree) && degree != key {
                    assert(front[next.index_of(degree)] == degree);
                }
            }
            fold::lemma_top_of_viewed(values@);
        }
        match fold::resolve_maxima(values) {
            Some(place) => {
                envelopes.insert(key, values[place].1.clone());
            },
            None => {},
        }
        i = i + 1;
    }
    proof {
        let keys = maxima.keys();
        assert(keys.subrange(0, i as int) =~= keys);
        let shown = envelopes@.map_values(|env: Envelope| env@);
        let wanted = Map::new(
            |degree: TunedDegree| lists.dom().contains(degree) && lists[degree].len() > 0,
            |degree: TunedDegree| causal::winner(lists[degree])->0,
        );
        assert forall|degree: TunedDegree| #[trigger]
            shown.dom().contains(degree) == wanted.dom().contains(degree) by {
            assert(shown.dom().contains(degree) == envelopes@.dom().contains(degree));
            if wanted.dom().contains(degree) {
                assert(maxima@.dom().contains(degree));
                assert(keys.to_set().contains(degree));
            }
        }
        assert(shown =~= wanted);
    }
    envelopes
}

impl FoldState {
    /// The music of the state. `valid` says whether the tuning that the state
    /// leaves is valid; where it is not, no pitch is live.
    pub fn view_music(&self, valid: bool) -> (view: MusicView)
        ensures
            view.shows(music_of(self@, valid)),
    {
        let tuning: Option<TuningDefinition> = self.tuning();
        let round_table: RoundTableConfig = self.round_table();
        if !valid {
            let quiet: MusicView = MusicView::default();
            return MusicView { tuning, round_table, ..quiet };
        }
        let holders: SortedMap<TunedDegree, SortedSet<ActorId>> = collect_holders(&self.live_adds);
        let pitch_holders: SortedMap<TunedPeriodicPitch, SortedSet<ActorId>> = collect_holders(
            &self.live_pitch_adds,
        );
        let envelopes: SortedMap<TunedDegree, Envelope> = collect_envelopes(&self.envelope_maxima);
        let live: SortedSet<TunedDegree> = key_set(&holders);
        let live_pitches: SortedSet<TunedPeriodicPitch> = key_set(&pitch_holders);
        let shared_pitches = SharedPitchSet {
            pitch_classes: live.clone(),
            pitches: live_pitches.clone(),
        };
        proof {
            let music = music_of(self@, valid);
            assert(holders@.map_values(|actors: SortedSet<ActorId>| actors@).dom()
                =~= holders@.dom());
            assert(pitch_holders@.map_values(|actors: SortedSet<ActorId>| actors@).dom()
                =~= pitch_holders@.dom());
            assert(holders@.map_values(|actors: SortedSet<ActorId>| actors@) == music.holders);
            assert(envelopes@.map_values(|env: Envelope| env@) =~= music.envelopes);
        }
        MusicView {
            live,
            holders,
            live_pitches,
            pitch_holders,
            envelopes,
            tuning,
            round_table,
            shared_pitches,
        }
    }
}

/// The music of commands, given the tuning that they leave as its parser made it
/// out: `None` where it is not valid.
pub fn materialize_commands(
    history: &History,
    commands: &Vec<Command>,
    active: Option<&Tuning>,
) -> (view: MusicView)
    ensures
        ({
            let all = causal::command_views(commands@);
            let past = history@.past_of();
            let tuning = match active {
                Some(active) => Some(active@),
                None => None,
            };
            &&& view.shows(music_of(fold::fold_of(all, tuning, past), active is Some))
            &&& causal::ordered(all, past) ==> view.shows(reference(all, tuning, past))
        }),
{
    let state = fold_state(history, commands, active);
    proof {
        let all = causal::command_views(commands@);
        let past = history@.past_of();
        let tuning = match active {
            Some(active) => Some(active@),
            None => None,
        };
        if causal::ordered(all, past) {
            law_fold_matches_the_reference(all, tuning, past);
        }
    }
    state.view_music(active.is_some())
}

} // verus!
