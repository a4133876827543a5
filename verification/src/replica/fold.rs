//! The sparse fold: what a replica keeps of its commands, and how it advances.

use crate::collections::{Ordered, SortedMap};
use crate::music::facets::{Envelope, EnvelopeView};
use crate::music::ops::MusicOp;
use crate::music::roundtable::RoundTableConfig;
use crate::music::tuning::{
    DefinitionView, TunedDegree, TunedPeriodicPitch, Tuning, TuningDefinition, TuningView,
};
use crate::replica::causal;
use crate::replica::causal::{Command, CommandView};
use crate::replica::history::History;
use crate::replica::ids::{ActorId, EntryHash};
use vstd::prelude::*;

verus! {

/// What is kept: of each register the writes that no other write has replaced,
/// and of each member the adds that no remove has observed.
#[derive(Debug, PartialEq, Eq)]
pub struct FoldState {
    pub tuning_maxima: Vec<(EntryHash, TuningDefinition)>,
    pub round_table_maxima: Vec<(EntryHash, RoundTableConfig)>,
    pub live_adds: SortedMap<TunedDegree, Vec<(EntryHash, ActorId)>>,
    pub live_pitch_adds: SortedMap<TunedPeriodicPitch, Vec<(EntryHash, ActorId)>>,
    pub envelope_maxima: SortedMap<TunedDegree, Vec<(EntryHash, Envelope)>>,
}

/// What a fold state says.
#[verifier::ext_equal]
pub struct FoldView {
    pub tuning_maxima: Seq<(EntryHash, DefinitionView)>,
    pub round_table_maxima: Seq<(EntryHash, RoundTableConfig)>,
    pub live_adds: Map<TunedDegree, Seq<(EntryHash, ActorId)>>,
    pub live_pitch_adds: Map<TunedPeriodicPitch, Seq<(EntryHash, ActorId)>>,
    pub envelope_maxima: Map<TunedDegree, Seq<(EntryHash, EnvelopeView)>>,
}

/// A list of values by entry, each value taken for what it says.
pub open spec fn viewed<T: View>(list: Seq<(EntryHash, T)>) -> Seq<(EntryHash, T::V)> {
    list.map_values(|item: (EntryHash, T)| (item.0, item.1@))
}

impl View for FoldState {
    type V = FoldView;

    open spec fn view(&self) -> FoldView {
        FoldView {
            tuning_maxima: viewed(self.tuning_maxima@),
            round_table_maxima: viewed(self.round_table_maxima@),
            live_adds: self.live_adds@.map_values(|adds: Vec<(EntryHash, ActorId)>| adds@),
            live_pitch_adds: self.live_pitch_adds@.map_values(
                |adds: Vec<(EntryHash, ActorId)>| adds@,
            ),
            envelope_maxima: self.envelope_maxima@.map_values(
                |values: Vec<(EntryHash, Envelope)>| viewed(values@),
            ),
        }
    }
}

/// What a map holds for a key: nothing where the key is missing.
pub open spec fn listed<K, T>(map: Map<K, Seq<(EntryHash, T)>>, key: K) -> Seq<(EntryHash, T)> {
    if map.dom().contains(key) {
        map[key]
    } else {
        Seq::empty()
    }
}

/// The adds of every member after commands.
pub open spec fn folded_adds<K>(
    start: Map<K, Seq<(EntryHash, ActorId)>>,
    commands: Seq<CommandView>,
    adds: spec_fn(CommandView) -> Option<K>,
    removes: spec_fn(CommandView) -> Option<K>,
    past: spec_fn(EntryHash, EntryHash) -> bool,
) -> Map<K, Seq<(EntryHash, ActorId)>> {
    Map::new(
        |member: K| start.dom().contains(member) || causal::named(commands, adds, member),
        |member: K|
            causal::survivors(listed(start, member), commands, adds, removes, past, member),
    )
}

/// The envelope writes of every degree after commands.
pub open spec fn folded_envelopes(
    start: Map<TunedDegree, Seq<(EntryHash, EnvelopeView)>>,
    commands: Seq<CommandView>,
    active: TuningView,
    past: spec_fn(EntryHash, EntryHash) -> bool,
) -> Map<TunedDegree, Seq<(EntryHash, EnvelopeView)>> {
    Map::new(
        |degree: TunedDegree|
            start.dom().contains(degree) || causal::named(
                commands,
                causal::envelope_targets(active),
                degree,
            ),
        |degree: TunedDegree|
            causal::maxima(
                listed(start, degree),
                commands,
                causal::envelope_writes(active, degree),
                past,
            ),
    )
}

/// A state after commands under an active tuning. Tunings are not folded here:
/// a new one changes what every other command means.
pub open spec fn folded(
    start: FoldView,
    commands: Seq<CommandView>,
    active: TuningView,
    past: spec_fn(EntryHash, EntryHash) -> bool,
) -> FoldView {
    FoldView {
        tuning_maxima: start.tuning_maxima,
        round_table_maxima: causal::maxima(
            start.round_table_maxima,
            commands,
            causal::round_table_writes(),
            past,
        ),
        live_adds: folded_adds(
            start.live_adds,
            commands,
            causal::degree_adds(active),
            causal::degree_removes(),
            past,
        ),
        live_pitch_adds: folded_adds(
            start.live_pitch_adds,
            commands,
            causal::pitch_adds(active),
            causal::pitch_removes(),
            past,
        ),
        envelope_maxima: folded_envelopes(start.envelope_maxima, commands, active, past),
    }
}

/// A state after commands where the tuning is not valid: pitches and envelopes mean
/// nothing without one, and only the round-table settings are folded.
pub open spec fn settled(
    start: FoldView,
    commands: Seq<CommandView>,
    past: spec_fn(EntryHash, EntryHash) -> bool,
) -> FoldView {
    FoldView {
        round_table_maxima: causal::maxima(
            start.round_table_maxima,
            commands,
            causal::round_table_writes(),
            past,
        ),
        ..start
    }
}

/// A state after commands, given the active tuning if it is valid.
pub open spec fn folded_under(
    start: FoldView,
    commands: Seq<CommandView>,
    active: Option<TuningView>,
    past: spec_fn(EntryHash, EntryHash) -> bool,
) -> FoldView {
    match active {
        Some(active) => folded(start, commands, active, past),
        None => settled(start, commands, past),
    }
}

/// The state of no command.
pub open spec fn nothing() -> FoldView {
    FoldView {
        tuning_maxima: Seq::empty(),
        round_table_maxima: Seq::empty(),
        live_adds: Map::empty(),
        live_pitch_adds: Map::empty(),
        envelope_maxima: Map::empty(),
    }
}

/// The state of a list of commands, given whether the tuning they leave is valid
/// and what it is.
pub open spec fn fold_of(
    commands: Seq<CommandView>,
    active: Option<TuningView>,
    past: spec_fn(EntryHash, EntryHash) -> bool,
) -> FoldView {
    let start = FoldView {
        tuning_maxima: causal::maxima(Seq::empty(), commands, causal::tuning_writes(), past),
        ..nothing()
    };
    folded_under(start, commands, active, past)
}

/// Round-table settings hold no pitches: the shared pitch set does.
pub fn round_table_settings(config: RoundTableConfig) -> (settings: RoundTableConfig)
    ensures
        settings == causal::settings_of(config),
{
    RoundTableConfig { pattern: config.pattern.cleared(), ..config }
}

/// Drops from a list what is in the past of an entry.
fn drop_past<T>(history: &History, list: &mut Vec<(EntryHash, T)>, id: &EntryHash)
    ensures
        final(list)@ == causal::outlived(old(list)@, history@.past_of(), *id),
{
    let ghost whole = list@;
    let ghost keeps = |kept: (EntryHash, T)| !(history@.past_of())(kept.0, *id);
    let ghost mut seen: int = 0;
    let mut i: usize = 0;
    proof {
        reveal(Seq::filter);
        assert(whole.subrange(0, 0).filter(keeps) =~= Seq::empty());
        assert(list@ =~= whole.subrange(0, 0).filter(keeps) + whole.subrange(
            0,
            whole.len() as int,
        ));
    }
    while i < list.len()
        invariant
            0 <= seen <= whole.len(),
            keeps == (|kept: (EntryHash, T)| !(history@.past_of())(kept.0, *id)),
            list@ == whole.subrange(0, seen).filter(keeps) + whole.subrange(
                seen,
                whole.len() as int,
            ),
            i == whole.subrange(0, seen).filter(keeps).len(),
        decreases whole.len() - seen,
    {
        let ghost before = whole.subrange(0, seen).filter(keeps);
        proof {
            assert(list@[i as int] == whole[seen]);
            reveal(Seq::filter);
            assert(whole.subrange(0, seen + 1).drop_last() =~= whole.subrange(0, seen));
            assert(whole.subrange(0, seen + 1).last() == whole[seen]);
            assert(keeps(whole[seen]) == !history@.past(whole[seen].0, *id));
        }
        if history.is_ancestor(&list[i].0, id) {
            list.remove(i);
            assert(list@ =~= before + whole.subrange(seen + 1, whole.len() as int));
        } else {
            i = i + 1;
            assert(list@ =~= before.push(whole[seen]) + whole.subrange(
                seen + 1,
                whole.len() as int,
            ));
        }
        proof {
            seen = seen + 1;
        }
    }
    proof {
        assert(whole.subrange(0, seen).filter(keeps) =~= list@) by {
            assert(list@.len() == i);
        }
        assert(seen == whole.len());
        assert(whole.subrange(0, seen) =~= whole);
    }
}

proof fn lemma_viewed_outlived<T: View>(
    list: Seq<(EntryHash, T)>,
    past: spec_fn(EntryHash, EntryHash) -> bool,
    id: EntryHash,
)
    ensures
        viewed(causal::outlived(list, past, id)) == causal::outlived(viewed(list), past, id),
    decreases list.len(),
{
    reveal(Seq::filter);
    if list.len() > 0 {
        let front = list.drop_last();
        lemma_viewed_outlived(front, past, id);
        assert(viewed(list).drop_last() =~= viewed(front));
        assert(viewed(list).last() == (list.last().0, list.last().1@));
        assert(viewed(causal::outlived(front, past, id).push(list.last())) =~= viewed(
            causal::outlived(front, past, id),
        ).push((list.last().0, list.last().1@)));
    } else {
        assert(viewed(list) =~= Seq::empty());
        assert(causal::outlived(list, past, id) =~= Seq::empty());
        assert(viewed(causal::outlived(list, past, id)) =~= Seq::empty());
        assert(causal::outlived(viewed(list), past, id) =~= Seq::empty());
    }
}

/// Advances causal maxima while consuming entries in topological order.
///
/// Any existing candidate in the new entry's past has been superseded. The
/// remaining candidates are concurrent with the new one, so retaining only these
/// maxima bounds common-case work by actual concurrency instead of total retained
/// history.
fn advance_maxima<T: View>(
    history: &History,
    maxima: &mut Vec<(EntryHash, T)>,
    id: EntryHash,
    value: T,
)
    ensures
        viewed(final(maxima)@) == causal::outlived(
            viewed(old(maxima)@),
            history@.past_of(),
            id,
        ).push((id, value@)),
{
    drop_past(history, maxima, &id);
    proof {
        lemma_viewed_outlived(old(maxima)@, history@.past_of(), id);
    }
    let ghost left = maxima@;
    maxima.push((id, value));
    assert(viewed(maxima@) =~= viewed(left).push((id, value@)));
}

/// The place of the value that concurrent writes leave.
pub fn resolve_maxima<T>(values: &Vec<(EntryHash, T)>) -> (place: Option<usize>)
    ensures
        match place {
            Some(place) => {
                &&& values@.len() > 0
                &&& place == causal::top(values@)
                &&& place < values@.len()
            },
            None => values@.len() == 0,
        },
{
    if values.len() == 0 {
        return None;
    }
    let mut best: usize = 0;
    let mut i: usize = 1;
    assert(values@.subrange(0, 1).len() == 1);
    while i < values.len()
        invariant
            1 <= i <= values@.len(),
            best < i,
            best == causal::top(values@.subrange(0, i as int)),
        decreases values@.len() - i,
    {
        proof {
            assert(values@.subrange(0, i + 1).drop_last() =~= values@.subrange(0, i as int));
        }
        if values[best].0.precedes(&values[i].0) {
            best = i;
        }
        i = i + 1;
    }
    assert(values@.subrange(0, i as int) =~= values@);
    Some(best)
}

pub proof fn lemma_top_of_viewed<T: View>(list: Seq<(EntryHash, T)>)
    ensures
        causal::top(viewed(list)) == causal::top(list),
        list.len() > 0 ==> 0 <= causal::top(list) < list.len(),
    decreases list.len(),
{
    if list.len() > 1 {
        lemma_top_of_viewed(list.drop_last());
        assert(viewed(list).drop_last() =~= viewed(list.drop_last()));
    }
}

proof fn lemma_adds_join<K>(
    start: Map<K, Seq<(EntryHash, ActorId)>>,
    a: Seq<CommandView>,
    b: Seq<CommandView>,
    adds: spec_fn(CommandView) -> Option<K>,
    removes: spec_fn(CommandView) -> Option<K>,
    past: spec_fn(EntryHash, EntryHash) -> bool,
)
    ensures
        folded_adds(folded_adds(start, a, adds, removes, past), b, adds, removes, past)
            == folded_adds(start, a + b, adds, removes, past),
{
    let middle = folded_adds(start, a, adds, removes, past);
    let (two, one) = (
        folded_adds(middle, b, adds, removes, past),
        folded_adds(start, a + b, adds, removes, past),
    );
    assert forall|member: K| #[trigger]
        two.dom().contains(member) == one.dom().contains(member) by {
        causal::lemma_named_join(a, b, adds, member);
    }
    assert(two.dom() =~= one.dom());
    assert forall|member: K| one.dom().contains(member) implies #[trigger] two[member]
        == one[member] by {
        causal::lemma_survivors_join(listed(start, member), a, b, adds, removes, past, member);
        if !middle.dom().contains(member) {
            causal::lemma_unnamed_has_no_adds(a, adds, removes, past, member);
        }
    }
    assert(two =~= one);
}

proof fn lemma_envelopes_join(
    start: Map<TunedDegree, Seq<(EntryHash, EnvelopeView)>>,
    a: Seq<CommandView>,
    b: Seq<CommandView>,
    active: TuningView,
    past: spec_fn(EntryHash, EntryHash) -> bool,
)
    ensures
        folded_envelopes(folded_envelopes(start, a, active, past), b, active, past)
            == folded_envelopes(start, a + b, active, past),
{
    let middle = folded_envelopes(start, a, active, past);
    let (two, one) = (
        folded_envelopes(middle, b, active, past),
        folded_envelopes(start, a + b, active, past),
    );
    let targets = causal::envelope_targets(active);
    assert forall|degree: TunedDegree| #[trigger]
        two.dom().contains(degree) == one.dom().contains(degree) by {
        causal::lemma_named_join(a, b, targets, degree);
    }
    assert(two.dom() =~= one.dom());
    assert forall|degree: TunedDegree| one.dom().contains(degree) implies #[trigger] two[degree]
        == one[degree] by {
        let writes = causal::envelope_writes(active, degree);
        causal::lemma_maxima_join(listed(start, degree), a, b, writes, past);
        if !middle.dom().contains(degree) {
            assert forall|i: int| 0 <= i < a.len() implies writes(#[trigger] a[i]) is None by {
                assert(targets(a[i]) != Some(degree));
            }
            causal::lemma_unwritten_has_no_writes(a, writes, past);
        }
    }
    assert(two =~= one);
}

/// Folding commands into a state, and then more of them, leaves what folding all
/// of them at once leaves: a replica that advances step by step never differs
/// from one that starts over.
pub proof fn law_folding_continues(
    start: FoldView,
    a: Seq<CommandView>,
    b: Seq<CommandView>,
    active: TuningView,
    past: spec_fn(EntryHash, EntryHash) -> bool,
)
    ensures
        folded(folded(start, a, active, past), b, active, past) == folded(
            start,
            a + b,
            active,
            past,
        ),
{
    causal::lemma_maxima_join(
        start.round_table_maxima,
        a,
        b,
        causal::round_table_writes(),
        past,
    );
    lemma_adds_join(
        start.live_adds,
        a,
        b,
        causal::degree_adds(active),
        causal::degree_removes(),
        past,
    );
    lemma_adds_join(
        start.live_pitch_adds,
        a,
        b,
        causal::pitch_adds(active),
        causal::pitch_removes(),
        past,
    );
    lemma_envelopes_join(start.envelope_maxima, a, b, active, past);
}

/// One command and the adds of every member.
proof fn lemma_one_command_and_adds<K>(
    start: Map<K, Seq<(EntryHash, ActorId)>>,
    command: CommandView,
    adds: spec_fn(CommandView) -> Option<K>,
    removes: spec_fn(CommandView) -> Option<K>,
    past: spec_fn(EntryHash, EntryHash) -> bool,
)
    requires
        adds(command) is None || removes(command) is None,
    ensures
        folded_adds(start, seq![command], adds, removes, past) == match adds(command) {
            Some(member) => start.insert(
                member,
                listed(start, member).push((command.id, command.actor)),
            ),
            None => match removes(command) {
                Some(member) => if start.dom().contains(member) {
                    start.insert(member, causal::outlived(start[member], past, command.id))
                } else {
                    start
                },
                None => start,
            },
        },
{
    let one = seq![command];
    let after = folded_adds(start, one, adds, removes, past);
    assert(one.drop_last() =~= Seq::empty());
    assert forall|member: K| causal::named(one, adds, member) == (adds(command) == Some(member)) by {
        assert(one[0] == command);
    }
    assert forall|member: K| #[trigger]
        causal::survivors(listed(start, member), one, adds, removes, past, member) == if adds(
            command,
        ) == Some(member) {
            listed(start, member).push((command.id, command.actor))
        } else if removes(command) == Some(member) {
            causal::outlived(listed(start, member), past, command.id)
        } else {
            listed(start, member)
        } by {
        assert(causal::survivors(
            listed(start, member),
            one.drop_last(),
            adds,
            removes,
            past,
            member,
        ) == listed(start, member));
    }
    let expected = match adds(command) {
        Some(member) => start.insert(
            member,
            listed(start, member).push((command.id, command.actor)),
        ),
        None => match removes(command) {
            Some(member) => if start.dom().contains(member) {
                start.insert(member, causal::outlived(start[member], past, command.id))
            } else {
                start
            },
            None => start,
        },
    };
    assert(after =~= expected);
}

/// One command and the writes of a register.
proof fn lemma_one_command_and_maxima<V>(
    start: Seq<(EntryHash, V)>,
    command: CommandView,
    writes: spec_fn(CommandView) -> Option<V>,
    past: spec_fn(EntryHash, EntryHash) -> bool,
)
    ensures
        causal::maxima(start, seq![command], writes, past) == match writes(command) {
            Some(value) => causal::outlived(start, past, command.id).push((command.id, value)),
            None => start,
        },
{
    let one = seq![command];
    assert(one.drop_last() =~= Seq::empty());
    assert(causal::maxima(start, one.drop_last(), writes, past) == start);
}

/// One command and the envelope writes of every degree.
proof fn lemma_one_command_and_envelopes(
    start: Map<TunedDegree, Seq<(EntryHash, EnvelopeView)>>,
    command: CommandView,
    active: TuningView,
    past: spec_fn(EntryHash, EntryHash) -> bool,
)
    ensures
        folded_envelopes(start, seq![command], active, past) == match (causal::envelope_targets(
            active,
        ))(command) {
            Some(degree) => start.insert(
                degree,
                causal::outlived(listed(start, degree), past, command.id).push(
                    (command.id, (causal::envelope_writes(active, degree))(command)->0),
                ),
            ),
            None => start,
        },
{
    let one = seq![command];
    let targets = causal::envelope_targets(active);
    let after = folded_envelopes(start, one, active, past);
    assert forall|degree: TunedDegree|
        causal::named(one, targets, degree) == (targets(command) == Some(degree)) by {
        assert(one[0] == command);
    }
    assert forall|degree: TunedDegree| #[trigger]
        causal::maxima(
            listed(start, degree),
            one,
            causal::envelope_writes(active, degree),
            past,
        ) == if targets(command) == Some(degree) {
            causal::outlived(listed(start, degree), past, command.id).push(
                (command.id, (causal::envelope_writes(active, degree))(command)->0),
            )
        } else {
            listed(start, degree)
        } by {
        lemma_one_command_and_maxima(
            listed(start, degree),
            command,
            causal::envelope_writes(active, degree),
            past,
        );
    }
    let expected = match targets(command) {
        Some(degree) => start.insert(
            degree,
            causal::outlived(listed(start, degree), past, command.id).push(
                (command.id, (causal::envelope_writes(active, degree))(command)->0),
            ),
        ),
        None => start,
    };
    assert(after =~= expected);
}

/// Adds to a member's list.
fn record_add<K: Ordered>(
    live: &mut SortedMap<K, Vec<(EntryHash, ActorId)>>,
    member: K,
    id: EntryHash,
    actor: ActorId,
)
    ensures
        ({
            let start = old(live)@.map_values(|adds: Vec<(EntryHash, ActorId)>| adds@);
            final(live)@.map_values(|adds: Vec<(EntryHash, ActorId)>| adds@) == start.insert(
                member,
                listed(start, member).push((id, actor)),
            )
        }),
{
    let ghost start = live@.map_values(|adds: Vec<(EntryHash, ActorId)>| adds@);
    let mut adds: Vec<(EntryHash, ActorId)> = match live.remove(&member) {
        Some(adds) => adds,
        None => Vec::new(),
    };
    assert(adds@ =~= listed(start, member));
    adds.push((id, actor));
    live.insert(member, adds);
    assert(live@.map_values(|adds: Vec<(EntryHash, ActorId)>| adds@) =~= start.insert(
        member,
        listed(start, member).push((id, actor)),
    ));
}

/// Takes from a member's list what a remove observed.
fn record_remove<K: Ordered>(
    history: &History,
    live: &mut SortedMap<K, Vec<(EntryHash, ActorId)>>,
    member: K,
    id: EntryHash,
)
    ensures
        ({
            let start = old(live)@.map_values(|adds: Vec<(EntryHash, ActorId)>| adds@);
            final(live)@.map_values(|adds: Vec<(EntryHash, ActorId)>| adds@)
                == if start.dom().contains(member) {
                start.insert(
                    member,
                    causal::outlived(start[member], history@.past_of(), id),
                )
            } else {
                start
            }
        }),
{
    let ghost start = live@.map_values(|adds: Vec<(EntryHash, ActorId)>| adds@);
    match live.remove(&member) {
        Some(found) => {
            let mut adds: Vec<(EntryHash, ActorId)> = found;
            drop_past(history, &mut adds, &id);
            live.insert(member, adds);
            assert(live@.map_values(|adds: Vec<(EntryHash, ActorId)>| adds@) =~= start.insert(
                member,
                causal::outlived(start[member], history@.past_of(), id),
            ));
        },
        None => {
            assert(live@ =~= old(live)@);
        },
    }
}

impl FoldState {
    pub fn new() -> (state: Self)
        ensures
            state@ == nothing(),
    {
        let state = FoldState {
            tuning_maxima: Vec::new(),
            round_table_maxima: Vec::new(),
            live_adds: SortedMap::new(),
            live_pitch_adds: SortedMap::new(),
            envelope_maxima: SortedMap::new(),
        };
        assert(state@ =~= nothing());
        state
    }

    /// The tuning that was set, if one was. Where none was, the built-in
    /// twelve-tone equal temperament holds.
    pub fn tuning(&self) -> (tuning: Option<TuningDefinition>)
        ensures
            match tuning {
                Some(tuning) => causal::winner(self@.tuning_maxima) == Some(tuning@),
                None => causal::winner(self@.tuning_maxima) is None,
            },
    {
        proof {
            lemma_top_of_viewed(self.tuning_maxima@);
        }
        match resolve_maxima(&self.tuning_maxima) {
            Some(place) => Some(self.tuning_maxima[place].1.clone()),
            None => None,
        }
    }

    pub fn round_table(&self) -> (config: RoundTableConfig)
        ensures
            match causal::winner(self@.round_table_maxima) {
                Some(settings) => config == settings,
                None => config.is_default(),
            },
    {
        proof {
            lemma_top_of_viewed(self.round_table_maxima@);
        }
        match resolve_maxima(&self.round_table_maxima) {
            Some(place) => self.round_table_maxima[place].1,
            None => RoundTableConfig::default(),
        }
    }

    /// Folds one command into the state.
    fn apply(&mut self, history: &History, active: &Tuning, command: &Command)
        ensures
            final(self)@ == folded(
                old(self)@,
                seq![command@],
                active@,
                history@.past_of(),
            ),
    {
        let ghost start = self@;
        let ghost past = history@.past_of();
        proof {
            lemma_one_command_and_adds(
                start.live_adds,
                command@,
                causal::degree_adds(active@),
                causal::degree_removes(),
                past,
            );
            lemma_one_command_and_adds(
                start.live_pitch_adds,
                command@,
                causal::pitch_adds(active@),
                causal::pitch_removes(),
                past,
            );
            lemma_one_command_and_maxima(
                start.round_table_maxima,
                command@,
                causal::round_table_writes(),
                past,
            );
            lemma_one_command_and_envelopes(start.envelope_maxima, command@, active@, past);
        }
        match &command.op {
            MusicOp::AddDegree { degree } => {
                if active.has(*degree) {
                    record_add(&mut self.live_adds, *degree, command.id, command.actor);
                }
            },
            MusicOp::RemoveDegree { degree } => {
                record_remove(history, &mut self.live_adds, *degree, command.id);
            },
            MusicOp::AddPitch { pitch } => {
                if active.has(pitch.degree()) {
                    record_add(&mut self.live_pitch_adds, *pitch, command.id, command.actor);
                }
            },
            MusicOp::RemovePitch { pitch } => {
                record_remove(history, &mut self.live_pitch_adds, *pitch, command.id);
            },
            MusicOp::SetEnvelope { degree, env } => {
                if active.has(*degree) {
                    let mut values: Vec<(EntryHash, Envelope)> = match self.envelope_maxima.remove(
                        degree,
                    ) {
                        Some(values) => values,
                        None => Vec::new(),
                    };
                    assert(viewed(values@) =~= listed(start.envelope_maxima, *degree));
                    advance_maxima(history, &mut values, command.id, env.clone());
                    self.envelope_maxima.insert(*degree, values);
                }
            },
            MusicOp::SetRoundTable { config } => {
                advance_maxima(
                    history,
                    &mut self.round_table_maxima,
                    command.id,
                    round_table_settings(*config),
                );
            },
            MusicOp::SetTuning { .. } => {},
        }
        assert(self@ =~= folded(start, seq![command@], active@, past));
    }

    /// Folds the round-table settings of commands, in topological order, into the
    /// state.
    fn apply_settings(&mut self, history: &History, commands: &Vec<Command>)
        ensures
            final(self)@ == settled(
                old(self)@,
                causal::command_views(commands@),
                history@.past_of(),
            ),
    {
        let ghost all = causal::command_views(commands@);
        let ghost past = history@.past_of();
        let mut i: usize = 0;
        assert(all.subrange(0, 0) =~= Seq::empty());
        while i < commands.len()
            invariant
                i <= commands@.len(),
                all == causal::command_views(commands@),
                past == history@.past_of(),
                self@ == settled(old(self)@, all.subrange(0, i as int), past),
            decreases commands@.len() - i,
        {
            proof {
                assert(all.subrange(0, i + 1).drop_last() =~= all.subrange(0, i as int));
                assert(all.subrange(0, i + 1).last() == commands@[i as int]@);
            }
            match &commands[i].op {
                MusicOp::SetRoundTable { config } => {
                    advance_maxima(
                        history,
                        &mut self.round_table_maxima,
                        commands[i].id,
                        round_table_settings(*config),
                    );
                },
                _ => {},
            }
            i = i + 1;
        }
        assert(all.subrange(0, i as int) =~= all);
    }

    /// Folds commands, in topological order, into the state. Where the active
    /// tuning is not valid only the round-table settings are folded.
    pub fn apply_commands(
        &mut self,
        history: &History,
        active: Option<&Tuning>,
        commands: &Vec<Command>,
    )
        ensures
            final(self)@ == folded_under(
                old(self)@,
                causal::command_views(commands@),
                match active {
                    Some(active) => Some(active@),
                    None => None,
                },
                history@.past_of(),
            ),
    {
        let active: &Tuning = match active {
            Some(active) => active,
            None => {
                self.apply_settings(history, commands);
                return ;
            },
        };
        let ghost all = causal::command_views(commands@);
        let ghost past = history@.past_of();
        let mut i: usize = 0;
        proof {
            lemma_folding_nothing(self@, active@, past);
            assert(all.subrange(0, 0) =~= Seq::empty());
        }
        while i < commands.len()
            invariant
                i <= commands@.len(),
                all == causal::command_views(commands@),
                past == history@.past_of(),
                self@ == folded(old(self)@, all.subrange(0, i as int), active@, past),
            decreases commands@.len() - i,
        {
            self.apply(history, active, &commands[i]);
            proof {
                law_folding_continues(
                    old(self)@,
                    all.subrange(0, i as int),
                    seq![all[i as int]],
                    active@,
                    past,
                );
                assert(all.subrange(0, i as int) + seq![all[i as int]] =~= all.subrange(
                    0,
                    i + 1,
                ));
            }
            i = i + 1;
        }
        assert(all.subrange(0, i as int) =~= all);
    }
}

proof fn lemma_folding_nothing(
    start: FoldView,
    active: TuningView,
    past: spec_fn(EntryHash, EntryHash) -> bool,
)
    ensures
        folded(start, Seq::empty(), active, past) == start,
{
    assert(folded(start, Seq::empty(), active, past) =~= start);
}

/// The state of commands before any but their tunings is folded: which tuning
/// they leave decides what the others mean.
pub fn fold_tunings(history: &History, commands: &Vec<Command>) -> (state: FoldState)
    ensures
        state@ == (FoldView {
            tuning_maxima: causal::maxima(
                Seq::empty(),
                causal::command_views(commands@),
                causal::tuning_writes(),
                history@.past_of(),
            ),
            ..nothing()
        }),
{
    let ghost all = causal::command_views(commands@);
    let ghost past = history@.past_of();
    let mut state = FoldState::new();
    let mut i: usize = 0;
    assert(all.subrange(0, 0) =~= Seq::empty());
    while i < commands.len()
        invariant
            i <= commands@.len(),
            all == causal::command_views(commands@),
            past == history@.past_of(),
            state@ == (FoldView {
                tuning_maxima: causal::maxima(
                    Seq::empty(),
                    all.subrange(0, i as int),
                    causal::tuning_writes(),
                    past,
                ),
                ..nothing()
            }),
        decreases commands@.len() - i,
    {
        proof {
            assert(all.subrange(0, i + 1).drop_last() =~= all.subrange(0, i as int));
            assert(all.subrange(0, i + 1).last() == commands@[i as int]@);
        }
        match &commands[i].op {
            MusicOp::SetTuning { definition } => {
                advance_maxima(
                    history,
                    &mut state.tuning_maxima,
                    commands[i].id,
                    definition.clone(),
                );
            },
            _ => {},
        }
        i = i + 1;
    }
    assert(all.subrange(0, i as int) =~= all);
    state
}

/// The state of commands, given the tuning that they leave as its parser made it
/// out: `None` where it is not valid.
pub fn fold_state(history: &History, commands: &Vec<Command>, active: Option<&Tuning>) -> (state:
    FoldState)
    ensures
        state@ == fold_of(
            causal::command_views(commands@),
            match active {
                Some(active) => Some(active@),
                None => None,
            },
            history@.past_of(),
        ),
{
    let mut state = fold_tunings(history, commands);
    state.apply_commands(history, active, commands);
    state
}

} // verus!
