//! What a set of commands means, given which is in the past of which: the
//! add-wins sets and the registers that they leave.
//!
//! The meaning is stated twice. Folding the commands one by one gives the sparse
//! state that a replica keeps; comparing all of them with each other says what
//! that state amounts to, whatever order the commands came in.

use crate::collections::Ordered;
use crate::music::facets::EnvelopeView;
use crate::music::ops::{MusicOp, OpView};
use crate::music::pattern::RoundTablePattern;
use crate::music::roundtable::RoundTableConfig;
use crate::music::tuning::{DefinitionView, TunedDegree, TunedPeriodicPitch, TuningView};
use crate::order;
use crate::replica::ids::{ActorId, EntryHash};
use vstd::prelude::*;

verus! {

/// A command that was accepted, by the entry that carries it.
#[derive(Debug, PartialEq, Eq)]
pub struct Command {
    pub id: EntryHash,
    pub actor: ActorId,
    pub op: MusicOp,
}

/// What a command says.
pub struct CommandView {
    pub id: EntryHash,
    pub actor: ActorId,
    pub op: OpView,
}

impl View for Command {
    type V = CommandView;

    open spec fn view(&self) -> CommandView {
        CommandView { id: self.id, actor: self.actor, op: self.op@ }
    }
}

pub open spec fn command_views(commands: Seq<Command>) -> Seq<CommandView> {
    commands.map_values(|command: Command| command@)
}

/// The degree that a command adds. A degree of another tuning is not added.
pub open spec fn degree_adds(active: TuningView) -> spec_fn(CommandView) -> Option<TunedDegree> {
    |command: CommandView|
        match command.op {
            OpView::AddDegree(degree) => if active.has(degree) {
                Some(degree)
            } else {
                None
            },
            _ => None,
        }
}

/// The degree that a command removes.
pub open spec fn degree_removes() -> spec_fn(CommandView) -> Option<TunedDegree> {
    |command: CommandView|
        match command.op {
            OpView::RemoveDegree(degree) => Some(degree),
            _ => None,
        }
}

/// The absolute pitch that a command adds.
pub open spec fn pitch_adds(active: TuningView) -> spec_fn(CommandView) -> Option<
    TunedPeriodicPitch,
> {
    |command: CommandView|
        match command.op {
            OpView::AddPitch(pitch) => if active.has(pitch.class()) {
                Some(pitch)
            } else {
                None
            },
            _ => None,
        }
}

/// The absolute pitch that a command removes.
pub open spec fn pitch_removes() -> spec_fn(CommandView) -> Option<TunedPeriodicPitch> {
    |command: CommandView|
        match command.op {
            OpView::RemovePitch(pitch) => Some(pitch),
            _ => None,
        }
}

/// The degree whose envelope a command writes.
pub open spec fn envelope_targets(active: TuningView) -> spec_fn(CommandView) -> Option<
    TunedDegree,
> {
    |command: CommandView|
        match command.op {
            OpView::SetEnvelope(degree, _) => if active.has(degree) {
                Some(degree)
            } else {
                None
            },
            _ => None,
        }
}

/// The envelope that a command writes for a degree.
pub open spec fn envelope_writes(active: TuningView, degree: TunedDegree) -> spec_fn(
    CommandView,
) -> Option<EnvelopeView> {
    |command: CommandView|
        match command.op {
            OpView::SetEnvelope(target, env) => if active.has(target) && target == degree {
                Some(env)
            } else {
                None
            },
            _ => None,
        }
}

/// Round-table settings hold no pitches: the shared pitch set does.
pub open spec fn settings_of(config: RoundTableConfig) -> RoundTableConfig {
    RoundTableConfig { pattern: RoundTablePattern::none(), ..config }
}

/// The round-table settings that a command writes.
pub open spec fn round_table_writes() -> spec_fn(CommandView) -> Option<RoundTableConfig> {
    |command: CommandView|
        match command.op {
            OpView::SetRoundTable(config) => Some(settings_of(config)),
            _ => None,
        }
}

/// The tuning that a command writes.
pub open spec fn tuning_writes() -> spec_fn(CommandView) -> Option<DefinitionView> {
    |command: CommandView|
        match command.op {
            OpView::SetTuning(definition) => Some(definition),
            _ => None,
        }
}

/// Those of a list that are not in the past of an entry.
pub open spec fn outlived<T>(
    list: Seq<(EntryHash, T)>,
    past: spec_fn(EntryHash, EntryHash) -> bool,
    id: EntryHash,
) -> Seq<(EntryHash, T)> {
    list.filter(|kept: (EntryHash, T)| !past(kept.0, id))
}

/// The adds of a member that are left after commands: a remove takes away those
/// in its past.
pub open spec fn survivors<K>(
    start: Seq<(EntryHash, ActorId)>,
    commands: Seq<CommandView>,
    adds: spec_fn(CommandView) -> Option<K>,
    removes: spec_fn(CommandView) -> Option<K>,
    past: spec_fn(EntryHash, EntryHash) -> bool,
    member: K,
) -> Seq<(EntryHash, ActorId)>
    decreases commands.len(),
{
    if commands.len() == 0 {
        start
    } else {
        let rest = survivors(start, commands.drop_last(), adds, removes, past, member);
        let command = commands.last();
        if adds(command) == Some(member) {
            rest.push((command.id, command.actor))
        } else if removes(command) == Some(member) {
            outlived(rest, past, command.id)
        } else {
            rest
        }
    }
}

/// The writes of a register that are left after commands: a write replaces those
/// in its past.
pub open spec fn maxima<V>(
    start: Seq<(EntryHash, V)>,
    commands: Seq<CommandView>,
    writes: spec_fn(CommandView) -> Option<V>,
    past: spec_fn(EntryHash, EntryHash) -> bool,
) -> Seq<(EntryHash, V)>
    decreases commands.len(),
{
    if commands.len() == 0 {
        start
    } else {
        let rest = maxima(start, commands.drop_last(), writes, past);
        let command = commands.last();
        match writes(command) {
            Some(value) => outlived(rest, past, command.id).push((command.id, value)),
            None => rest,
        }
    }
}

/// Whether some command names a member.
pub open spec fn named<K>(
    commands: Seq<CommandView>,
    names: spec_fn(CommandView) -> Option<K>,
    member: K,
) -> bool {
    exists|i: int| 0 <= i < commands.len() && names(#[trigger] commands[i]) == Some(member)
}

/// The place of the largest hash in a list.
pub open spec fn top<V>(list: Seq<(EntryHash, V)>) -> int
    decreases list.len(),
{
    if list.len() <= 1 {
        0
    } else {
        let rest = top(list.drop_last());
        if order::before(list[rest].0.key(), list.last().0.key()) {
            list.len() - 1
        } else {
            rest
        }
    }
}

/// The value that concurrent writes leave: that of the largest hash.
pub open spec fn winner<V>(list: Seq<(EntryHash, V)>) -> Option<V> {
    if list.len() == 0 {
        None
    } else {
        Some(list[top(list)].1)
    }
}

// What the commands mean when all are compared with all.

/// Commands in an order in which none stands before one of its past, each once.
pub open spec fn ordered(
    commands: Seq<CommandView>,
    past: spec_fn(EntryHash, EntryHash) -> bool,
) -> bool {
    &&& forall|i: int, j: int|
        #![trigger commands[i], commands[j]]
        0 <= i <= j < commands.len() ==> !past(commands[j].id, commands[i].id)
    &&& forall|i: int, j: int|
        #![trigger commands[i], commands[j]]
        0 <= i < j < commands.len() ==> commands[i].id != commands[j].id
}

/// Whether the add at `i` of a member is in the past of no remove of it.
pub open spec fn lives<K>(
    commands: Seq<CommandView>,
    adds: spec_fn(CommandView) -> Option<K>,
    removes: spec_fn(CommandView) -> Option<K>,
    past: spec_fn(EntryHash, EntryHash) -> bool,
    member: K,
    i: int,
) -> bool {
    &&& 0 <= i < commands.len()
    &&& adds(commands[i]) == Some(member)
    &&& forall|j: int|
        0 <= j < commands.len() && removes(#[trigger] commands[j]) == Some(member) ==> !past(
            commands[i].id,
            commands[j].id,
        )
}

/// Whether a member is live: some add of it was not observed by any remove.
pub open spec fn is_live<K>(
    commands: Seq<CommandView>,
    adds: spec_fn(CommandView) -> Option<K>,
    removes: spec_fn(CommandView) -> Option<K>,
    past: spec_fn(EntryHash, EntryHash) -> bool,
    member: K,
) -> bool {
    exists|i: int| #[trigger] lives(commands, adds, removes, past, member, i)
}

/// Whether an actor holds a member: one of the actor's adds lives.
pub open spec fn holds<K>(
    commands: Seq<CommandView>,
    adds: spec_fn(CommandView) -> Option<K>,
    removes: spec_fn(CommandView) -> Option<K>,
    past: spec_fn(EntryHash, EntryHash) -> bool,
    member: K,
    actor: ActorId,
) -> bool {
    exists|i: int|
        #[trigger] lives(commands, adds, removes, past, member, i) && commands[i].actor == actor
}

/// Whether the write at `i` is in the past of no other write.
pub open spec fn stands<V>(
    commands: Seq<CommandView>,
    writes: spec_fn(CommandView) -> Option<V>,
    past: spec_fn(EntryHash, EntryHash) -> bool,
    i: int,
) -> bool {
    &&& 0 <= i < commands.len()
    &&& writes(commands[i]) is Some
    &&& forall|j: int|
        0 <= j < commands.len() && writes(#[trigger] commands[j]) is Some ==> !past(
            commands[i].id,
            commands[j].id,
        )
}

/// Whether the write at `i` decides: of those that stand, it has the largest hash.
pub open spec fn decides<V>(
    commands: Seq<CommandView>,
    writes: spec_fn(CommandView) -> Option<V>,
    past: spec_fn(EntryHash, EntryHash) -> bool,
    i: int,
) -> bool {
    &&& stands(commands, writes, past, i)
    &&& forall|j: int| #[trigger]
        stands(commands, writes, past, j) ==> !order::before(
            commands[i].id.key(),
            commands[j].id.key(),
        )
}

/// The value of a register.
pub open spec fn register<V>(
    commands: Seq<CommandView>,
    writes: spec_fn(CommandView) -> Option<V>,
    past: spec_fn(EntryHash, EntryHash) -> bool,
) -> Option<V> {
    if exists|i: int| #[trigger] decides(commands, writes, past, i) {
        writes(commands[choose|i: int| #[trigger] decides(commands, writes, past, i)])
    } else {
        None
    }
}

// That the two agree.

proof fn lemma_ordered_front(
    commands: Seq<CommandView>,
    past: spec_fn(EntryHash, EntryHash) -> bool,
)
    requires
        ordered(commands, past),
        commands.len() > 0,
    ensures
        ordered(commands.drop_last(), past),
{
    let front = commands.drop_last();
    assert forall|i: int, j: int|
        #![trigger front[i], front[j]]
        0 <= i <= j < front.len() implies !past(front[j].id, front[i].id) by {
        assert(front[i] == commands[i] && front[j] == commands[j]);
    }
    assert forall|i: int, j: int|
        #![trigger front[i], front[j]]
        0 <= i < j < front.len() implies front[i].id != front[j].id by {
        assert(front[i] == commands[i] && front[j] == commands[j]);
    }
}

proof fn lemma_outlived<T>(
    list: Seq<(EntryHash, T)>,
    past: spec_fn(EntryHash, EntryHash) -> bool,
    id: EntryHash,
    item: (EntryHash, T),
)
    ensures
        outlived(list, past, id).contains(item) == (list.contains(item) && !past(item.0, id)),
{
    let keeps = |kept: (EntryHash, T)| !past(kept.0, id);
    let left = list.filter(keeps);
    if left.contains(item) {
        list.lemma_filter_contains_rev(keeps, item);
        list.lemma_filter_pred(keeps, left.index_of(item));
    }
    if list.contains(item) && keeps(item) {
        list.lemma_filter_contains(keeps, list.index_of(item));
    }
}

/// The adds that are left are those that live.
pub proof fn lemma_survivors_live<K>(
    commands: Seq<CommandView>,
    adds: spec_fn(CommandView) -> Option<K>,
    removes: spec_fn(CommandView) -> Option<K>,
    past: spec_fn(EntryHash, EntryHash) -> bool,
    member: K,
    item: (EntryHash, ActorId),
)
    requires
        ordered(commands, past),
        forall|command: CommandView| #[trigger]
            adds(command) is Some ==> removes(command) is None,
    ensures
        survivors(Seq::empty(), commands, adds, removes, past, member).contains(item) <==> exists|
            i: int,
        | #[trigger]
            lives(commands, adds, removes, past, member, i) && item == (
                commands[i].id,
                commands[i].actor,
            ),
    decreases commands.len(),
{
    let found = survivors(Seq::empty(), commands, adds, removes, past, member);
    if commands.len() > 0 {
        let front = commands.drop_last();
        let last = commands.last();
        let n = front.len() as int;
        let rest = survivors(Seq::empty(), front, adds, removes, past, member);
        lemma_ordered_front(commands, past);
        lemma_survivors_live(front, adds, removes, past, member, item);
        assert(commands[n] == last);
        if adds(last) == Some(member) {
            assert(found == rest.push((last.id, last.actor)));
            assert(found[rest.len() as int] == (last.id, last.actor));
            assert(found.contains(item) <==> rest.contains(item) || item == (last.id, last.actor))
                by {
                if rest.contains(item) {
                    assert(found[rest.index_of(item)] == item);
                }
                if found.contains(item) && item != (last.id, last.actor) {
                    assert(rest[found.index_of(item)] == item);
                }
            }
        } else if removes(last) == Some(member) {
            lemma_outlived(rest, past, last.id, item);
        }
        if found.contains(item) {
            if rest.contains(item) {
                let i = choose|i: int| #[trigger]
                    lives(front, adds, removes, past, member, i) && item == (
                        front[i].id,
                        front[i].actor,
                    );
                assert(commands[i] == front[i]);
                assert forall|j: int|
                    0 <= j < commands.len() && removes(#[trigger] commands[j]) == Some(
                        member,
                    ) implies !past(commands[i].id, commands[j].id) by {
                    if j < n {
                        assert(commands[j] == front[j]);
                    }
                }
                assert(lives(commands, adds, removes, past, member, i));
            } else {
                assert forall|j: int|
                    0 <= j < commands.len() && removes(#[trigger] commands[j]) == Some(
                        member,
                    ) implies !past(commands[n].id, commands[j].id) by {}
                assert(lives(commands, adds, removes, past, member, n));
            }
        }
        if exists|i: int| #[trigger]
            lives(commands, adds, removes, past, member, i) && item == (
                commands[i].id,
                commands[i].actor,
            ) {
            let i = choose|i: int| #[trigger]
                lives(commands, adds, removes, past, member, i) && item == (
                    commands[i].id,
                    commands[i].actor,
                );
            if i < n {
                assert(commands[i] == front[i]);
                assert forall|j: int|
                    0 <= j < front.len() && removes(#[trigger] front[j]) == Some(
                        member,
                    ) implies !past(front[i].id, front[j].id) by {
                    assert(commands[j] == front[j]);
                }
                assert(lives(front, adds, removes, past, member, i));
                assert(rest.contains(item));
            }
        }
    }
}

/// The writes that are left are those that stand.
pub proof fn lemma_maxima_stand<V>(
    commands: Seq<CommandView>,
    writes: spec_fn(CommandView) -> Option<V>,
    past: spec_fn(EntryHash, EntryHash) -> bool,
    item: (EntryHash, V),
)
    requires
        ordered(commands, past),
    ensures
        maxima(Seq::empty(), commands, writes, past).contains(item) <==> exists|i: int| #[trigger]
            stands(commands, writes, past, i) && item == (
                commands[i].id,
                writes(commands[i])->0,
            ),
    decreases commands.len(),
{
    let found = maxima(Seq::empty(), commands, writes, past);
    if commands.len() > 0 {
        let front = commands.drop_last();
        let last = commands.last();
        let n = front.len() as int;
        let rest = maxima(Seq::empty(), front, writes, past);
        lemma_ordered_front(commands, past);
        lemma_maxima_stand(front, writes, past, item);
        assert(commands[n] == last);
        if writes(last) is Some {
            let added = (last.id, writes(last)->0);
            let left = outlived(rest, past, last.id);
            lemma_outlived(rest, past, last.id, item);
            assert(found == left.push(added));
            assert(found[left.len() as int] == added);
            assert(found.contains(item) <==> left.contains(item) || item == added) by {
                if left.contains(item) {
                    assert(found[left.index_of(item)] == item);
                }
                if found.contains(item) && item != added {
                    assert(left[found.index_of(item)] == item);
                }
            }
        }
        if found.contains(item) {
            if rest.contains(item) && (writes(last) is None || !past(item.0, last.id)) {
                let i = choose|i: int| #[trigger]
                    stands(front, writes, past, i) && item == (
                        front[i].id,
                        writes(front[i])->0,
                    );
                assert(commands[i] == front[i]);
                assert forall|j: int|
                    0 <= j < commands.len() && writes(#[trigger] commands[j]) is Some implies !past(
                    commands[i].id,
                    commands[j].id,
                ) by {
                    if j < n {
                        assert(commands[j] == front[j]);
                    }
                }
                assert(stands(commands, writes, past, i));
            } else {
                assert forall|j: int|
                    0 <= j < commands.len() && writes(#[trigger] commands[j]) is Some implies !past(
                    commands[n].id,
                    commands[j].id,
                ) by {}
                assert(stands(commands, writes, past, n));
            }
        }
        if exists|i: int| #[trigger]
            stands(commands, writes, past, i) && item == (
                commands[i].id,
                writes(commands[i])->0,
            ) {
            let i = choose|i: int| #[trigger]
                stands(commands, writes, past, i) && item == (
                    commands[i].id,
                    writes(commands[i])->0,
                );
            if i < n {
                assert(commands[i] == front[i]);
                assert forall|j: int|
                    0 <= j < front.len() && writes(#[trigger] front[j]) is Some implies !past(
                    front[i].id,
                    front[j].id,
                ) by {
                    assert(commands[j] == front[j]);
                }
                assert(stands(front, writes, past, i));
                assert(rest.contains(item));
                if writes(last) is Some {
                    assert(!past(commands[i].id, commands[n].id));
                }
            }
        }
    }
}

/// The top of a list is in it, and no hash of the list is larger.
pub proof fn lemma_top<V>(list: Seq<(EntryHash, V)>, i: int)
    requires
        0 <= i < list.len(),
    ensures
        0 <= top(list) < list.len(),
        !order::before(list[top(list)].0.key(), list[i].0.key()),
    decreases list.len(),
{
    let last = list.last();
    if list.len() == 1 {
        order::lemma_irreflexive(list[0].0.key());
    } else {
        let front = list.drop_last();
        let t = top(front);
        lemma_top(front, 0);
        assert(front[t] == list[t]);
        if i < front.len() {
            lemma_top(front, i);
            assert(front[i] == list[i]);
            if order::before(list[t].0.key(), last.0.key()) && order::before(
                last.0.key(),
                list[i].0.key(),
            ) {
                order::lemma_transitive(list[t].0.key(), last.0.key(), list[i].0.key());
            }
        } else {
            order::lemma_irreflexive(last.0.key());
        }
    }
}

/// What the fold keeps of a register gives the register's value.
pub proof fn lemma_winner_is_the_register<V>(
    commands: Seq<CommandView>,
    writes: spec_fn(CommandView) -> Option<V>,
    past: spec_fn(EntryHash, EntryHash) -> bool,
)
    requires
        ordered(commands, past),
    ensures
        winner(maxima(Seq::empty(), commands, writes, past)) == register(commands, writes, past),
{
    let list = maxima(Seq::empty(), commands, writes, past);
    if list.len() > 0 {
        lemma_top(list, 0);
        let best = list[top(list)];
        assert(list.contains(best));
        lemma_maxima_stand(commands, writes, past, best);
        let i = choose|i: int| #[trigger]
            stands(commands, writes, past, i) && best == (commands[i].id, writes(commands[i])->0);
        assert forall|j: int| #[trigger] stands(commands, writes, past, j) implies !order::before(
            commands[i].id.key(),
            commands[j].id.key(),
        ) by {
            let item = (commands[j].id, writes(commands[j])->0);
            lemma_maxima_stand(commands, writes, past, item);
            lemma_top(list, list.index_of(item));
        }
        assert(decides(commands, writes, past, i));
        let d = choose|i: int| #[trigger] decides(commands, writes, past, i);
        lemma_one_decides(commands, writes, past, commands, i, d);
    } else {
        if exists|i: int| #[trigger] decides(commands, writes, past, i) {
            let d = choose|i: int| #[trigger] decides(commands, writes, past, i);
            let item = (commands[d].id, writes(commands[d])->0);
            lemma_maxima_stand(commands, writes, past, item);
            assert(list.contains(item));
        }
    }
}

/// Commands that two lists share.
pub open spec fn same_commands(a: Seq<CommandView>, b: Seq<CommandView>) -> bool {
    &&& forall|i: int| 0 <= i < a.len() ==> b.contains(#[trigger] a[i])
    &&& forall|i: int| 0 <= i < b.len() ==> a.contains(#[trigger] b[i])
}

proof fn lemma_one_decides<V>(
    commands: Seq<CommandView>,
    writes: spec_fn(CommandView) -> Option<V>,
    past: spec_fn(EntryHash, EntryHash) -> bool,
    others: Seq<CommandView>,
    i: int,
    j: int,
)
    requires
        same_commands(commands, others) || commands == others,
        ordered(commands, past),
        decides(commands, writes, past, i),
        decides(others, writes, past, j),
    ensures
        commands[i] == others[j],
{
    if commands != others {
        lemma_standing_is_shared(others, writes, past, commands, j);
        lemma_standing_is_shared(commands, writes, past, others, i);
    }
    let m = if commands == others {
        j
    } else {
        commands.index_of(others[j])
    };
    let n = if commands == others {
        i
    } else {
        others.index_of(commands[i])
    };
    assert(stands(commands, writes, past, m) && commands[m] == others[j]);
    assert(stands(others, writes, past, n) && others[n] == commands[i]);
    let (x, y) = (commands[i].id, others[j].id);
    order::lemma_total(x.key(), y.key());
    assert(x.key() == y.key());
    EntryHash::lemma_key_injective(x, y);
    if i != m {
        assert(commands[i].id == commands[m].id);
        if i < m {
            assert(commands[i].id != commands[m].id);
        } else {
            assert(commands[m].id != commands[i].id);
        }
    }
}

/// The write that decides is what a register holds.
pub proof fn lemma_decider_is_read<V>(
    commands: Seq<CommandView>,
    writes: spec_fn(CommandView) -> Option<V>,
    past: spec_fn(EntryHash, EntryHash) -> bool,
    i: int,
)
    requires
        ordered(commands, past),
        decides(commands, writes, past, i),
    ensures
        register(commands, writes, past) == writes(commands[i]),
{
    let j = choose|j: int| #[trigger] decides(commands, writes, past, j);
    lemma_one_decides(commands, writes, past, commands, i, j);
}

/// A write that stands among commands stands among the same commands in another
/// order.
proof fn lemma_standing_is_shared<V>(
    commands: Seq<CommandView>,
    writes: spec_fn(CommandView) -> Option<V>,
    past: spec_fn(EntryHash, EntryHash) -> bool,
    others: Seq<CommandView>,
    i: int,
)
    requires
        same_commands(commands, others),
        stands(commands, writes, past, i),
    ensures
        others.contains(commands[i]),
        stands(others, writes, past, others.index_of(commands[i])),
{
    let m = others.index_of(commands[i]);
    assert(others.contains(commands[i]));
    assert forall|j: int|
        0 <= j < others.len() && writes(#[trigger] others[j]) is Some implies !past(
        others[m].id,
        others[j].id,
    ) by {
        assert(commands.contains(others[j]));
        let n = commands.index_of(others[j]);
        assert(writes(commands[n]) is Some);
    }
}

proof fn lemma_life_is_shared<K>(
    commands: Seq<CommandView>,
    adds: spec_fn(CommandView) -> Option<K>,
    removes: spec_fn(CommandView) -> Option<K>,
    past: spec_fn(EntryHash, EntryHash) -> bool,
    member: K,
    others: Seq<CommandView>,
    i: int,
)
    requires
        same_commands(commands, others),
        lives(commands, adds, removes, past, member, i),
    ensures
        others.contains(commands[i]),
        lives(others, adds, removes, past, member, others.index_of(commands[i])),
{
    let m = others.index_of(commands[i]);
    assert(others.contains(commands[i]));
    assert forall|j: int|
        0 <= j < others.len() && removes(#[trigger] others[j]) == Some(member) implies !past(
        others[m].id,
        others[j].id,
    ) by {
        assert(commands.contains(others[j]));
        let n = commands.index_of(others[j]);
        assert(removes(commands[n]) == Some(member));
    }
}

/// A register converges: the same commands in another order leave the same value.
pub proof fn law_registers_converge<V>(
    a: Seq<CommandView>,
    b: Seq<CommandView>,
    writes: spec_fn(CommandView) -> Option<V>,
    past: spec_fn(EntryHash, EntryHash) -> bool,
)
    requires
        ordered(a, past),
        ordered(b, past),
        same_commands(a, b),
    ensures
        register(a, writes, past) == register(b, writes, past),
{
    lemma_decision_is_shared(a, b, writes, past);
    lemma_decision_is_shared(b, a, writes, past);
    if exists|i: int| #[trigger] decides(a, writes, past, i) {
        let i = choose|i: int| #[trigger] decides(a, writes, past, i);
        let j = choose|j: int| #[trigger] decides(b, writes, past, j);
        lemma_one_decides(a, writes, past, b, i, j);
    }
}

proof fn lemma_decision_is_shared<V>(
    a: Seq<CommandView>,
    b: Seq<CommandView>,
    writes: spec_fn(CommandView) -> Option<V>,
    past: spec_fn(EntryHash, EntryHash) -> bool,
)
    requires
        same_commands(a, b),
    ensures
        (exists|i: int| #[trigger] decides(a, writes, past, i)) ==> (exists|i: int| #[trigger]
            decides(b, writes, past, i)),
{
    if exists|i: int| #[trigger] decides(a, writes, past, i) {
        let i = choose|i: int| #[trigger] decides(a, writes, past, i);
        lemma_standing_is_shared(a, writes, past, b, i);
        let m = b.index_of(a[i]);
        assert forall|j: int| #[trigger] stands(b, writes, past, j) implies !order::before(
            b[m].id.key(),
            b[j].id.key(),
        ) by {
            lemma_standing_is_shared(b, writes, past, a, j);
        }
        assert(decides(b, writes, past, m));
    }
}

/// An add-wins set converges: the same commands in another order leave the same
/// holders.
pub proof fn law_sets_converge<K>(
    a: Seq<CommandView>,
    b: Seq<CommandView>,
    adds: spec_fn(CommandView) -> Option<K>,
    removes: spec_fn(CommandView) -> Option<K>,
    past: spec_fn(EntryHash, EntryHash) -> bool,
    member: K,
    actor: ActorId,
)
    requires
        same_commands(a, b),
    ensures
        holds(a, adds, removes, past, member, actor) == holds(
            b,
            adds,
            removes,
            past,
            member,
            actor,
        ),
        is_live(a, adds, removes, past, member) == is_live(b, adds, removes, past, member),
{
    assert forall|i: int| #[trigger] lives(a, adds, removes, past, member, i) implies lives(
        b,
        adds,
        removes,
        past,
        member,
        b.index_of(a[i]),
    ) && b[b.index_of(a[i])] == a[i] by {
        lemma_life_is_shared(a, adds, removes, past, member, b, i);
    }
    assert forall|i: int| #[trigger] lives(b, adds, removes, past, member, i) implies lives(
        a,
        adds,
        removes,
        past,
        member,
        a.index_of(b[i]),
    ) && a[a.index_of(b[i])] == b[i] by {
        lemma_life_is_shared(b, adds, removes, past, member, a, i);
    }
}

/// A remove cancels the adds that it observed and no other: an add that is not in
/// the past of any remove keeps its member live.
pub proof fn law_concurrent_adds_win<K>(
    commands: Seq<CommandView>,
    adds: spec_fn(CommandView) -> Option<K>,
    removes: spec_fn(CommandView) -> Option<K>,
    past: spec_fn(EntryHash, EntryHash) -> bool,
    member: K,
    i: int,
)
    requires
        0 <= i < commands.len(),
        adds(commands[i]) == Some(member),
        forall|j: int|
            0 <= j < commands.len() && removes(#[trigger] commands[j]) == Some(member) ==> !past(
                commands[i].id,
                commands[j].id,
            ),
    ensures
        is_live(commands, adds, removes, past, member),
        holds(commands, adds, removes, past, member, commands[i].actor),
{
    assert(lives(commands, adds, removes, past, member, i));
}

/// Once a remove has observed every add of a member, nobody holds it: any member
/// of the room may remove what another added.
pub proof fn law_observed_adds_are_removed<K>(
    commands: Seq<CommandView>,
    adds: spec_fn(CommandView) -> Option<K>,
    removes: spec_fn(CommandView) -> Option<K>,
    past: spec_fn(EntryHash, EntryHash) -> bool,
    member: K,
    j: int,
)
    requires
        0 <= j < commands.len(),
        removes(commands[j]) == Some(member),
        forall|i: int|
            0 <= i < commands.len() && adds(#[trigger] commands[i]) == Some(member) ==> past(
                commands[i].id,
                commands[j].id,
            ),
    ensures
        !is_live(commands, adds, removes, past, member),
{
    assert forall|i: int| !#[trigger] lives(commands, adds, removes, past, member, i) by {
        if lives(commands, adds, removes, past, member, i) {
            assert(adds(commands[i]) == Some(member));
            assert(removes(commands[j]) == Some(member));
        }
    }
}

/// Folding commands and then more of them is folding all of them: adds.
pub proof fn lemma_survivors_join<K>(
    start: Seq<(EntryHash, ActorId)>,
    a: Seq<CommandView>,
    b: Seq<CommandView>,
    adds: spec_fn(CommandView) -> Option<K>,
    removes: spec_fn(CommandView) -> Option<K>,
    past: spec_fn(EntryHash, EntryHash) -> bool,
    member: K,
)
    ensures
        survivors(
            survivors(start, a, adds, removes, past, member),
            b,
            adds,
            removes,
            past,
            member,
        ) == survivors(start, a + b, adds, removes, past, member),
    decreases b.len(),
{
    if b.len() == 0 {
        assert(a + b =~= a);
    } else {
        lemma_survivors_join(start, a, b.drop_last(), adds, removes, past, member);
        assert((a + b).drop_last() =~= a + b.drop_last());
    }
}

/// Folding commands and then more of them is folding all of them: writes.
pub proof fn lemma_maxima_join<V>(
    start: Seq<(EntryHash, V)>,
    a: Seq<CommandView>,
    b: Seq<CommandView>,
    writes: spec_fn(CommandView) -> Option<V>,
    past: spec_fn(EntryHash, EntryHash) -> bool,
)
    ensures
        maxima(maxima(start, a, writes, past), b, writes, past) == maxima(
            start,
            a + b,
            writes,
            past,
        ),
    decreases b.len(),
{
    if b.len() == 0 {
        assert(a + b =~= a);
    } else {
        lemma_maxima_join(start, a, b.drop_last(), writes, past);
        assert((a + b).drop_last() =~= a + b.drop_last());
    }
}

/// A member that no command adds has no adds.
pub proof fn lemma_unnamed_has_no_adds<K>(
    commands: Seq<CommandView>,
    adds: spec_fn(CommandView) -> Option<K>,
    removes: spec_fn(CommandView) -> Option<K>,
    past: spec_fn(EntryHash, EntryHash) -> bool,
    member: K,
)
    requires
        !named(commands, adds, member),
    ensures
        survivors(Seq::empty(), commands, adds, removes, past, member) == Seq::<
            (EntryHash, ActorId),
        >::empty(),
    decreases commands.len(),
{
    if commands.len() > 0 {
        let front = commands.drop_last();
        assert(!named(front, adds, member)) by {
            if named(front, adds, member) {
                let i = choose|i: int|
                    0 <= i < front.len() && adds(#[trigger] front[i]) == Some(member);
                assert(adds(commands[i]) == Some(member));
            }
        }
        lemma_unnamed_has_no_adds(front, adds, removes, past, member);
        assert(commands.last() == commands[commands.len() - 1]);
        reveal(Seq::filter);
        assert(outlived(Seq::<(EntryHash, ActorId)>::empty(), past, commands.last().id)
            =~= Seq::empty());
    }
}

/// A register that no command writes has no writes.
pub proof fn lemma_unwritten_has_no_writes<V>(
    commands: Seq<CommandView>,
    writes: spec_fn(CommandView) -> Option<V>,
    past: spec_fn(EntryHash, EntryHash) -> bool,
)
    requires
        forall|i: int| 0 <= i < commands.len() ==> writes(#[trigger] commands[i]) is None,
    ensures
        maxima(Seq::empty(), commands, writes, past) == Seq::<(EntryHash, V)>::empty(),
    decreases commands.len(),
{
    if commands.len() > 0 {
        let front = commands.drop_last();
        assert forall|i: int| 0 <= i < front.len() implies writes(#[trigger] front[i]) is None by {
            assert(front[i] == commands[i]);
        }
        lemma_unwritten_has_no_writes(front, writes, past);
        assert(commands.last() == commands[commands.len() - 1]);
    }
}

/// Whether some command of two lists names a member.
pub proof fn lemma_named_join<K>(
    a: Seq<CommandView>,
    b: Seq<CommandView>,
    names: spec_fn(CommandView) -> Option<K>,
    member: K,
)
    ensures
        named(a + b, names, member) == (named(a, names, member) || named(b, names, member)),
{
    let all = a + b;
    if named(a, names, member) {
        let i = choose|i: int| 0 <= i < a.len() && names(#[trigger] a[i]) == Some(member);
        assert(all[i] == a[i]);
    }
    if named(b, names, member) {
        let i = choose|i: int| 0 <= i < b.len() && names(#[trigger] b[i]) == Some(member);
        assert(all[a.len() + i] == b[i]);
    }
    if named(all, names, member) {
        let i = choose|i: int| 0 <= i < all.len() && names(#[trigger] all[i]) == Some(member);
        if i < a.len() {
            assert(a[i] == all[i]);
        } else {
            assert(b[i - a.len()] == all[i]);
        }
    }
}

} // verus!
