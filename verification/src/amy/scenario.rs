//! The two-peer partition and rejoin scenarios: what each peer commits, and what
//! is reported of the views that the replicas then show.

use crate::amy::room;
use crate::amy::room::{pluck, room_definition, swell, EDO};
use crate::collections;
use crate::collections::SortedSet;
use crate::music::facets::{Envelope, EnvelopeView};
use crate::music::ops::{MusicOp, OpView};
use crate::music::tuning::{TunedDegree, Tuning, TuningView};
use crate::replica::causal;
use crate::replica::causal::CommandView;
use crate::replica::fold;
use crate::replica::ids::EntryHash;
use crate::replica::view;
use crate::replica::view::MusicView;
use vstd::prelude::*;

verus! {

/// The degree that both peers write an envelope on.
pub const ENV_PC_CONTESTED: u16 = 0;

/// The degree that only the first peer writes an envelope on.
pub const ENV_PC_A_ONLY: u16 = 10;

/// The degree that only the second peer writes an envelope on.
pub const ENV_PC_B_ONLY: u16 = 18;

/// The degree that the second peer adds and then retracts.
pub const REMOVED_DEGREE: u16 = 5;

/// The outcome of the partition and rejoin scenario. Degree sets are reported as
/// plain indices in the room.
#[derive(Debug)]
pub struct Scenario {
    /// Peer A's view while partitioned.
    pub a_partition: SortedSet<u16>,
    /// Peer B's view while partitioned.
    pub b_partition: SortedSet<u16>,
    /// Peer A's view after the rejoin.
    pub a_converged: SortedSet<u16>,
    /// Peer B's view after the rejoin.
    pub b_converged: SortedSet<u16>,
    /// The add-wins union, worked out by hand: what both peers converge to.
    pub expected_union: SortedSet<u16>,
    /// The degree that was added and retracted in one causal chain.
    pub removed_degree: u16,
    /// The views along the way, whose consecutive differences drive AMY.
    pub timeline: Vec<SortedSet<u16>>,
    /// Divisions per octave of the room.
    pub edo: u16,
    /// Repair records that were still unresolved.
    pub a_unresolved: usize,
    pub b_unresolved: usize,
}

/// The outcome of the scenario in which both peers write envelopes.
#[derive(Debug)]
pub struct EnvelopeScenario {
    pub a_converged: MusicView,
    pub b_converged: MusicView,
    pub pc_contested: u16,
    pub pc_a_only: u16,
    pub pc_b_only: u16,
    /// A's envelope for the contested degree.
    pub env_a: Envelope,
    /// B's envelope for the contested degree.
    pub env_b: Envelope,
    /// The one that the register resolved to.
    pub winner: Envelope,
    /// The other one.
    pub loser: Envelope,
    pub a_unresolved: usize,
    pub b_unresolved: usize,
}

/// The room's degree with an index.
pub open spec fn at(room: TuningView, pc: u16) -> TunedDegree {
    TunedDegree { tuning_id: room.id, degree: pc }
}

/// What sets the room's tuning.
pub open spec fn sets_room(op: OpView) -> bool {
    match op {
        OpView::SetTuning(definition) => {
            &&& definition.scl == room::scale_file(EDO as nat)
            &&& definition.kbm == Some(room::EDO31_KBM@)
        },
        _ => false,
    }
}

/// What the first peer commits while partitioned: the room's tuning, then a
/// near-just triad.
pub fn script_a(tuning: &Tuning) -> (ops: Vec<MusicOp>)
    requires
        tuning@.degrees.len() == EDO,
    ensures
        ops@.len() == 4,
        sets_room(ops@[0]@),
        ops@[1]@ == OpView::AddDegree(at(tuning@, 0)),
        ops@[2]@ == OpView::AddDegree(at(tuning@, 10)),
        ops@[3]@ == OpView::AddDegree(at(tuning@, 18)),
{
    let mut ops: Vec<MusicOp> = Vec::new();
    ops.push(MusicOp::SetTuning { definition: room_definition() });
    ops.push(MusicOp::AddDegree { degree: room::degree(tuning, 0) });
    ops.push(MusicOp::AddDegree { degree: room::degree(tuning, 10) });
    ops.push(MusicOp::AddDegree { degree: room::degree(tuning, 18) });
    ops
}

/// What the second peer commits while partitioned: the same tuning, two degrees,
/// and a third that it retracts.
pub fn script_b(tuning: &Tuning) -> (ops: Vec<MusicOp>)
    requires
        tuning@.degrees.len() == EDO,
    ensures
        ops@.len() == 5,
        sets_room(ops@[0]@),
        ops@[1]@ == OpView::AddDegree(at(tuning@, 8)),
        ops@[2]@ == OpView::AddDegree(at(tuning@, 25)),
        ops@[3]@ == OpView::AddDegree(at(tuning@, REMOVED_DEGREE)),
        ops@[4]@ == OpView::RemoveDegree(at(tuning@, REMOVED_DEGREE)),
{
    let mut ops: Vec<MusicOp> = Vec::new();
    ops.push(MusicOp::SetTuning { definition: room_definition() });
    ops.push(MusicOp::AddDegree { degree: room::degree(tuning, 8) });
    ops.push(MusicOp::AddDegree { degree: room::degree(tuning, 25) });
    ops.push(MusicOp::AddDegree { degree: room::degree(tuning, REMOVED_DEGREE) });
    ops.push(MusicOp::RemoveDegree { degree: room::degree(tuning, REMOVED_DEGREE) });
    ops
}

/// What a peer commits in the envelope scenario: the room's tuning, then the
/// contested degree and a degree of its own, each with the peer's envelope.
pub fn envelope_chain(tuning: &Tuning, own_pc: u16, env: &Envelope) -> (ops: Vec<MusicOp>)
    requires
        tuning@.degrees.len() == EDO,
        own_pc < EDO,
    ensures
        ops@.len() == 5,
        sets_room(ops@[0]@),
        ops@[1]@ == OpView::AddDegree(at(tuning@, ENV_PC_CONTESTED)),
        ops@[2]@ == OpView::SetEnvelope(at(tuning@, ENV_PC_CONTESTED), env@),
        ops@[3]@ == OpView::AddDegree(at(tuning@, own_pc)),
        ops@[4]@ == OpView::SetEnvelope(at(tuning@, own_pc), env@),
{
    let contested: TunedDegree = room::degree(tuning, ENV_PC_CONTESTED);
    let own: TunedDegree = room::degree(tuning, own_pc);
    let mut ops: Vec<MusicOp> = Vec::new();
    ops.push(MusicOp::SetTuning { definition: room_definition() });
    ops.push(MusicOp::AddDegree { degree: contested });
    ops.push(MusicOp::SetEnvelope { degree: contested, env: env.clone() });
    ops.push(MusicOp::AddDegree { degree: own });
    ops.push(MusicOp::SetEnvelope { degree: own, env: env.clone() });
    ops
}

/// The indices of degrees.
pub open spec fn indices_of(degrees: Set<TunedDegree>) -> Set<u16> {
    Set::new(|pc: u16| exists|degree: TunedDegree| #[trigger]
        degrees.contains(degree) && degree.degree == pc)
}

/// A view's live set as plain degree indices.
pub fn indices(view: &MusicView) -> (indices: SortedSet<u16>)
    ensures
        indices@ == indices_of(view.live@),
{
    let live: &[TunedDegree] = view.live.as_slice();
    view.live.expose();
    let mut indices: SortedSet<u16> = SortedSet::new();
    let mut i: usize = 0;
    assert(indices@ =~= indices_of(live@.subrange(0, 0).to_set()));
    while i < live.len()
        invariant
            i <= live@.len(),
            indices@ == indices_of(live@.subrange(0, i as int).to_set()),
        decreases live@.len() - i,
    {
        proof {
            collections::lemma_prefix_set(live@, i as int);
            let (front, next) = (
                live@.subrange(0, i as int).to_set(),
                live@.subrange(0, i + 1).to_set(),
            );
            let added = live@[i as int];
            assert(next == front.insert(added));
            assert forall|pc: u16|
                indices_of(next).contains(pc) == indices_of(front).insert(added.degree).contains(
                    pc,
                ) by {
                assert(next.contains(added));
                if indices_of(front).contains(pc) {
                    let degree = choose|degree: TunedDegree| #[trigger]
                        front.contains(degree) && degree.degree == pc;
                    assert(next.contains(degree));
                }
                if indices_of(next).contains(pc) {
                    let degree = choose|degree: TunedDegree| #[trigger]
                        next.contains(degree) && degree.degree == pc;
                    assert(degree == added || front.contains(degree));
                }
            }
            assert(indices_of(next) =~= indices_of(front).insert(added.degree));
        }
        indices.insert(live[i].degree);
        i = i + 1;
    }
    assert(live@.subrange(0, i as int) =~= live@);
    indices
}

/// What both peers converge to: every degree that was added and not retracted.
pub fn expected_union() -> (union: SortedSet<u16>)
    ensures
        union@ == set![0u16, 8u16, 10u16, 18u16, 25u16],
{
    let mut union: SortedSet<u16> = SortedSet::new();
    union.insert(0);
    union.insert(8);
    union.insert(10);
    union.insert(18);
    union.insert(25);
    assert(union@ =~= set![0u16, 8u16, 10u16, 18u16, 25u16]);
    union
}

/// Reports the scenario from the views that the replicas showed: A's while
/// partitioned, B's after each degree that it committed, and both after the
/// rejoin.
pub fn run_scenario(
    a_partition: &MusicView,
    b_steps: &Vec<MusicView>,
    a_converged: &MusicView,
    b_converged: &MusicView,
    a_unresolved: usize,
    b_unresolved: usize,
) -> (scenario: Scenario)
    requires
        b_steps@.len() > 0,
    ensures
        scenario.a_partition@ == indices_of(a_partition.live@),
        scenario.b_partition@ == indices_of(b_steps@.last().live@),
        scenario.a_converged@ == indices_of(a_converged.live@),
        scenario.b_converged@ == indices_of(b_converged.live@),
        scenario.expected_union@ == set![0u16, 8u16, 10u16, 18u16, 25u16],
        scenario.removed_degree == REMOVED_DEGREE,
        scenario.timeline@.len() == b_steps@.len() + 2,
        scenario.timeline@[0]@ == Set::<u16>::empty(),
        forall|i: int|
            0 <= i < b_steps@.len() ==> (#[trigger] scenario.timeline@[i + 1])@ == indices_of(
                b_steps@[i].live@,
            ),
        scenario.timeline@.last()@ == indices_of(b_converged.live@),
        scenario.edo == EDO,
        scenario.a_unresolved == a_unresolved,
        scenario.b_unresolved == b_unresolved,
{
    let mut timeline: Vec<SortedSet<u16>> = Vec::new();
    timeline.push(SortedSet::new());
    let mut i: usize = 0;
    while i < b_steps.len()
        invariant
            i <= b_steps@.len(),
            timeline@.len() == i + 1,
            timeline@[0]@ == Set::<u16>::empty(),
            forall|k: int|
                1 <= k < timeline@.len() ==> (#[trigger] timeline@[k])@ == indices_of(
                    b_steps@[k - 1].live@,
                ),
        decreases b_steps@.len() - i,
    {
        timeline.push(indices(&b_steps[i]));
        i = i + 1;
    }
    timeline.push(indices(b_converged));
    Scenario {
        a_partition: indices(a_partition),
        b_partition: indices(&b_steps[b_steps.len() - 1]),
        a_converged: indices(a_converged),
        b_converged: indices(b_converged),
        expected_union: expected_union(),
        removed_degree: REMOVED_DEGREE,
        timeline,
        edo: EDO,
        a_unresolved,
        b_unresolved,
    }
}

fn same_envelope(a: &Envelope, b: &Envelope) -> (r: bool)
    ensures
        r == (a@ == b@),
{
    if a.interp != b.interp || a.points.len() != b.points.len() {
        proof {
            if a@ == b@ {
                assert(a@.points.len() == b@.points.len());
            }
        }
        return false;
    }
    let mut i: usize = 0;
    while i < a.points.len()
        invariant
            i <= a.points@.len(),
            a.points@.len() == b.points@.len(),
            a.interp == b.interp,
            forall|k: int| 0 <= k < i ==> #[trigger] a.points@[k] == b.points@[k],
        decreases a.points@.len() - i,
    {
        if a.points[i].0 != b.points[i].0 || a.points[i].1 != b.points[i].1 {
            assert(a@.points[i as int] != b@.points[i as int]);
            return false;
        }
        assert(a.points@[i as int] == b.points@[i as int]);
        i = i + 1;
    }
    assert(a@ =~= b@);
    true
}

/// Reports the envelope scenario from the views that both replicas converged to:
/// which of the two envelopes the contested degree's register resolved to.
/// `None` where the first view holds no envelope for that degree.
pub fn run_envelope_scenario(
    tuning: &Tuning,
    a_converged: MusicView,
    b_converged: MusicView,
    a_unresolved: usize,
    b_unresolved: usize,
) -> (scenario: Option<EnvelopeScenario>)
    requires
        tuning@.degrees.len() == EDO,
    ensures
        ({
            let contested = at(tuning@, ENV_PC_CONTESTED);
            let swelling = EnvelopeView {
                points: seq![(0u16, 8u8), (350u16, 127u8), (60u16, 0u8)],
                interp: crate::music::facets::Interp::Linear,
            };
            let plucking = EnvelopeView {
                points: seq![(0u16, 127u8), (120u16, 12u8), (40u16, 0u8)],
                interp: crate::music::facets::Interp::Exp,
            };
            match scenario {
                Some(scenario) => {
                    &&& a_converged.envelopes@.dom().contains(contested)
                    &&& scenario.a_converged == a_converged
                    &&& scenario.b_converged == b_converged
                    &&& scenario.pc_contested == ENV_PC_CONTESTED
                    &&& scenario.pc_a_only == ENV_PC_A_ONLY
                    &&& scenario.pc_b_only == ENV_PC_B_ONLY
                    &&& scenario.env_a@ == swelling
                    &&& scenario.env_b@ == plucking
                    &&& scenario.winner@ == a_converged.envelopes@[contested]@
                    &&& scenario.loser@ == if scenario.winner@ == swelling {
                        plucking
                    } else {
                        swelling
                    }
                    &&& scenario.a_unresolved == a_unresolved
                    &&& scenario.b_unresolved == b_unresolved
                },
                None => !a_converged.envelopes@.dom().contains(contested),
            }
        }),
{
    let env_a: Envelope = swell();
    let env_b: Envelope = pluck();
    let contested: TunedDegree = room::degree(tuning, ENV_PC_CONTESTED);
    let winner: Envelope = match a_converged.envelopes.get(&contested) {
        Some(winner) => winner.clone(),
        None => {
            return None;
        },
    };
    let loser: Envelope = if same_envelope(&winner, &env_a) {
        env_b.clone()
    } else {
        env_a.clone()
    };
    Some(
        EnvelopeScenario {
            a_converged,
            b_converged,
            pc_contested: ENV_PC_CONTESTED,
            pc_a_only: ENV_PC_A_ONLY,
            pc_b_only: ENV_PC_B_ONLY,
            env_a,
            env_b,
            winner,
            loser,
            a_unresolved,
            b_unresolved,
        },
    )
}

/// Whether commands are what the first peer commits while partitioned.
pub open spec fn follows_a(room: TuningView, commands: Seq<CommandView>) -> bool {
    &&& commands.len() == 4
    &&& sets_room(commands[0].op)
    &&& commands[1].op == OpView::AddDegree(at(room, 0))
    &&& commands[2].op == OpView::AddDegree(at(room, 10))
    &&& commands[3].op == OpView::AddDegree(at(room, 18))
}

/// Whether commands are what the second peer commits while partitioned.
pub open spec fn follows_b(room: TuningView, commands: Seq<CommandView>) -> bool {
    &&& commands.len() == 5
    &&& sets_room(commands[0].op)
    &&& commands[1].op == OpView::AddDegree(at(room, 8))
    &&& commands[2].op == OpView::AddDegree(at(room, 25))
    &&& commands[3].op == OpView::AddDegree(at(room, REMOVED_DEGREE))
    &&& commands[4].op == OpView::RemoveDegree(at(room, REMOVED_DEGREE))
}

/// The indices of the degrees that are live after commands in the room.
pub open spec fn heard(
    room: TuningView,
    commands: Seq<CommandView>,
    past: spec_fn(EntryHash, EntryHash) -> bool,
) -> Set<u16> {
    indices_of(view::music_of(fold::fold_of(commands, Some(room), past), true).holders.dom())
}

/// Whether a degree of the room is live after commands.
spec fn is_heard(
    room: TuningView,
    commands: Seq<CommandView>,
    past: spec_fn(EntryHash, EntryHash) -> bool,
    pc: u16,
) -> bool {
    causal::is_live(
        commands,
        causal::degree_adds(room),
        causal::degree_removes(),
        past,
        at(room, pc),
    )
}

proof fn lemma_heard(
    room: TuningView,
    commands: Seq<CommandView>,
    past: spec_fn(EntryHash, EntryHash) -> bool,
    pcs: Set<u16>,
)
    requires
        causal::ordered(commands, past),
        forall|pc: u16| #[trigger] is_heard(room, commands, past, pc) == pcs.contains(pc),
    ensures
        heard(room, commands, past) == pcs,
{
    view::law_fold_matches_the_reference(commands, Some(room), past);
    let live = view::reference(commands, Some(room), past).holders.dom();
    let (adds, removes) = (causal::degree_adds(room), causal::degree_removes());
    assert forall|pc: u16| indices_of(live).contains(pc) == pcs.contains(pc) by {
        if indices_of(live).contains(pc) {
            let degree = choose|degree: TunedDegree| #[trigger]
                live.contains(degree) && degree.degree == pc;
            let i = choose|i: int| #[trigger]
                causal::lives(commands, adds, removes, past, degree, i);
            assert(room.has(degree));
            assert(degree == at(room, pc));
            assert(is_heard(room, commands, past, pc));
        }
        if pcs.contains(pc) {
            assert(is_heard(room, commands, past, pc));
            assert(live.contains(at(room, pc)));
        }
    }
    assert(heard(room, commands, past) =~= pcs);
}

/// A degree that a command adds and none removes is heard.
proof fn lemma_added_is_heard(
    room: TuningView,
    commands: Seq<CommandView>,
    past: spec_fn(EntryHash, EntryHash) -> bool,
    pc: u16,
    i: int,
)
    requires
        0 <= i < commands.len(),
        commands[i].op == OpView::AddDegree(at(room, pc)),
        pc < room.degrees.len(),
        forall|j: int|
            0 <= j < commands.len() ==> (#[trigger] commands[j]).op != OpView::RemoveDegree(
                at(room, pc),
            ),
    ensures
        is_heard(room, commands, past, pc),
{
    let (adds, removes) = (causal::degree_adds(room), causal::degree_removes());
    assert(adds(commands[i]) == Some(at(room, pc)));
    assert forall|j: int|
        0 <= j < commands.len() && removes(#[trigger] commands[j]) == Some(
            at(room, pc),
        ) implies !past(commands[i].id, commands[j].id) by {
        assert(commands[j].op != OpView::RemoveDegree(at(room, pc)));
    }
    assert(causal::lives(commands, adds, removes, past, at(room, pc), i));
}

/// What is heard was added.
proof fn lemma_heard_was_added(
    room: TuningView,
    commands: Seq<CommandView>,
    past: spec_fn(EntryHash, EntryHash) -> bool,
    pc: u16,
) -> (i: int)
    requires
        is_heard(room, commands, past, pc),
    ensures
        0 <= i < commands.len(),
        commands[i].op == OpView::AddDegree(at(room, pc)),
        forall|j: int|
            0 <= j < commands.len() && (#[trigger] commands[j]).op == OpView::RemoveDegree(
                at(room, pc),
            ) ==> !past(commands[i].id, commands[j].id),
{
    let (adds, removes) = (causal::degree_adds(room), causal::degree_removes());
    let i = choose|i: int| #[trigger]
        causal::lives(commands, adds, removes, past, at(room, pc), i);
    assert forall|j: int|
        0 <= j < commands.len() && (#[trigger] commands[j]).op == OpView::RemoveDegree(
            at(room, pc),
        ) implies !past(commands[i].id, commands[j].id) by {
        assert(removes(commands[j]) == Some(at(room, pc)));
    }
    i
}

/// While partitioned the first peer hears its triad.
pub proof fn law_the_first_peer_hears_its_triad(
    room: TuningView,
    a: Seq<CommandView>,
    past: spec_fn(EntryHash, EntryHash) -> bool,
)
    requires
        room.degrees.len() == EDO,
        follows_a(room, a),
        causal::ordered(a, past),
    ensures
        heard(room, a, past) == set![0u16, 10u16, 18u16],
{
    let pcs = set![0u16, 10u16, 18u16];
    assert forall|pc: u16| #[trigger] is_heard(room, a, past, pc) == pcs.contains(pc) by {
        if is_heard(room, a, past, pc) {
            let i = lemma_heard_was_added(room, a, past, pc);
        }
        if pcs.contains(pc) {
            let i: int = if pc == 0 {
                1
            } else if pc == 10 {
                2
            } else {
                3
            };
            lemma_added_is_heard(room, a, past, pc, i);
        }
    }
    lemma_heard(room, a, past, pcs);
}

/// While partitioned the second peer hears, command by command, its first degree,
/// its second, the third, and again the first two once the third is retracted.
pub proof fn law_the_second_peer_hears_its_timeline(
    room: TuningView,
    b: Seq<CommandView>,
    past: spec_fn(EntryHash, EntryHash) -> bool,
)
    requires
        room.degrees.len() == EDO,
        follows_b(room, b),
        causal::ordered(b, past),
        past(b[3].id, b[4].id),
    ensures
        heard(room, b.take(1), past) == Set::<u16>::empty(),
        heard(room, b.take(2), past) == set![8u16],
        heard(room, b.take(3), past) == set![8u16, 25u16],
        heard(room, b.take(4), past) == set![8u16, 25u16, REMOVED_DEGREE],
        heard(room, b, past) == set![8u16, 25u16],
{
    lemma_second_step(room, b, past, 1, Set::empty());
    lemma_second_step(room, b, past, 2, set![8u16]);
    lemma_second_step(room, b, past, 3, set![8u16, 25u16]);
    lemma_second_step(room, b, past, 4, set![8u16, 25u16, REMOVED_DEGREE]);
    lemma_second_step(room, b, past, 5, set![8u16, 25u16]);
    assert(b.take(5) =~= b);
}

proof fn lemma_second_step(
    room: TuningView,
    b: Seq<CommandView>,
    past: spec_fn(EntryHash, EntryHash) -> bool,
    n: int,
    pcs: Set<u16>,
)
    requires
        room.degrees.len() == EDO,
        follows_b(room, b),
        causal::ordered(b, past),
        past(b[3].id, b[4].id),
        1 <= n <= 5,
        forall|pc: u16| #[trigger]
            pcs.contains(pc) == ((pc == 8 && n >= 2) || (pc == 25 && n >= 3) || (pc
                == REMOVED_DEGREE && n == 4)),
    ensures
        heard(room, b.take(n), past) == pcs,
{
    let front = b.take(n);
    assert forall|i: int| 0 <= i < n implies #[trigger] front[i] == b[i] by {}
    assert(causal::ordered(front, past)) by {
        assert forall|i: int, j: int|
            #![trigger front[i], front[j]]
            0 <= i <= j < front.len() implies !past(front[j].id, front[i].id) by {
            assert(front[i] == b[i] && front[j] == b[j]);
        }
        assert forall|i: int, j: int|
            #![trigger front[i], front[j]]
            0 <= i < j < front.len() implies front[i].id != front[j].id by {
            assert(front[i] == b[i] && front[j] == b[j]);
        }
    }
    assert forall|pc: u16| #[trigger] is_heard(room, front, past, pc) == pcs.contains(pc) by {
        if is_heard(room, front, past, pc) {
            let i = lemma_heard_was_added(room, front, past, pc);
            assert(front[i] == b[i]);
            if n == 5 {
                assert(front[4] == b[4]);
            }
        }
        if pcs.contains(pc) {
            let i: int = if pc == 8 {
                1
            } else if pc == 25 {
                2
            } else {
                3
            };
            assert(front[i] == b[i]);
            lemma_added_is_heard(room, front, past, pc, i);
        }
    }
    lemma_heard(room, front, past, pcs);
}

/// After the rejoin both peers hear the add-wins union: whatever order the two
/// branches come in, the degree that the second peer retracted is gone, and every
/// other that was added is there.
pub proof fn law_the_peers_converge_to_the_union(
    room: TuningView,
    a: Seq<CommandView>,
    b: Seq<CommandView>,
    merged: Seq<CommandView>,
    past: spec_fn(EntryHash, EntryHash) -> bool,
)
    requires
        room.degrees.len() == EDO,
        follows_a(room, a),
        follows_b(room, b),
        past(b[3].id, b[4].id),
        causal::same_commands(merged, a + b),
        causal::ordered(merged, past),
    ensures
        heard(room, merged, past) == set![0u16, 8u16, 10u16, 18u16, 25u16],
{
    let pcs = set![0u16, 8u16, 10u16, 18u16, 25u16];
    let both = a + b;
    assert forall|pc: u16| #[trigger] is_heard(room, merged, past, pc) == pcs.contains(pc) by {
        if is_heard(room, merged, past, pc) {
            let i = lemma_heard_was_added(room, merged, past, pc);
            assert(both.contains(merged[i]));
            let k = both.index_of(merged[i]);
            assert(both[k] == merged[i]);
            if k >= 4 {
                assert(both[k] == b[k - 4]);
                if k == 7 {
                    assert(merged.contains(both[8]));
                    let j = merged.index_of(both[8]);
                    assert(merged[j].op == OpView::RemoveDegree(at(room, pc)));
                }
            } else {
                assert(both[k] == a[k]);
            }
        }
        if pcs.contains(pc) {
            let k: int = if pc == 0 {
                1
            } else if pc == 10 {
                2
            } else if pc == 18 {
                3
            } else if pc == 8 {
                5
            } else {
                6
            };
            assert(merged.contains(both[k]));
            let i = merged.index_of(both[k]);
            assert forall|j: int| 0 <= j < merged.len() implies (#[trigger] merged[j]).op
                != OpView::RemoveDegree(at(room, pc)) by {
                assert(both.contains(merged[j]));
                let m = both.index_of(merged[j]);
                assert(both[m] == merged[j]);
                if m >= 4 {
                    assert(both[m] == b[m - 4]);
                } else {
                    assert(both[m] == a[m]);
                }
            }
            lemma_added_is_heard(room, merged, past, pc, i);
        }
    }
    lemma_heard(room, merged, past, pcs);
}

} // verus!
