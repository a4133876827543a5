//! The materializer: which entries of a history count, and when a kept state can
//! be advanced instead of being rebuilt.

use crate::bytes;
use crate::collections;
use crate::collections::SortedSet;
use crate::music::ops;
use crate::music::ops::MusicOp;
use crate::music::tuning::{Tuning, TuningView};
use crate::replica::admission::{AdmissionBounds, Right};
use crate::replica::causal;
use crate::replica::causal::{Command, CommandView};
use crate::replica::command;
use crate::replica::command::{command_area, Area, CommandEnvelope, CommandEnvelopeView};
use crate::replica::fold;
use crate::replica::fold::{fold_state, FoldState};
use crate::replica::history;
use crate::replica::history::{History, HistoryView};
use crate::replica::ids;
use crate::replica::ids::{Digest, EntryHash};
use crate::replica::view;
use crate::replica::view::{materialize_commands, MusicView};
use crate::text;
use vstd::prelude::*;

verus! {

/// The generation of the state that a projection keeps.
pub const PROJECTION_SCHEMA: u32 = 6;

/// The bytes of `capabilities` and a zero byte.
pub const CAPABILITIES_TAG: [u8; 13] = [
    0x63, 0x61, 0x70, 0x61, 0x62, 0x69, 0x6c, 0x69, 0x74, 0x69, 0x65, 0x73, 0x00,
];

/// The bytes of `open-session` and a zero byte.
pub const OPEN_SESSION_TAG: [u8; 13] = [
    0x6f, 0x70, 0x65, 0x6e, 0x2d, 0x73, 0x65, 0x73, 0x73, 0x69, 0x6f, 0x6e, 0x00,
];

#[derive(Debug)]
enum MaterializationAuthority {
    Capabilities(Vec<EntryHash>),
    OpenSession(Digest),
}

#[derive(Debug)]
pub struct MusicMaterializer {
    authority: MaterializationAuthority,
}

/// By what authority entries count: that of capabilities under trusted roots, or
/// that of one authenticated session.
pub enum ProjectionAuthority {
    Capabilities(Seq<EntryHash>),
    OpenSession(Digest),
}

impl View for MusicMaterializer {
    type V = ProjectionAuthority;

    closed spec fn view(&self) -> ProjectionAuthority {
        match self.authority {
            MaterializationAuthority::Capabilities(roots) => ProjectionAuthority::Capabilities(
                roots@,
            ),
            MaterializationAuthority::OpenSession(namespace) => ProjectionAuthority::OpenSession(
                namespace,
            ),
        }
    }
}

/// An entry of a history, read and judged.
#[derive(Debug)]
pub struct JudgedEntry {
    pub id: EntryHash,
    /// Whether it is a capability operation.
    pub is_capability: bool,
    /// The command that it carries, if it carries one.
    pub envelope: Option<CommandEnvelope>,
    /// Whether the capabilities of the history allow the command.
    pub authorized: bool,
    /// What the tuning parser says against the definition of a tuning command.
    pub definition_fault: Option<String>,
}

/// What a judged entry says.
pub struct JudgedView {
    pub id: EntryHash,
    pub is_capability: bool,
    pub envelope: Option<CommandEnvelopeView>,
    pub authorized: bool,
    pub definition_fault: Option<Seq<char>>,
}

impl View for JudgedEntry {
    type V = JudgedView;

    open spec fn view(&self) -> JudgedView {
        JudgedView {
            id: self.id,
            is_capability: self.is_capability,
            envelope: match self.envelope {
                Some(envelope) => Some(envelope@),
                None => None,
            },
            authorized: self.authorized,
            definition_fault: match self.definition_fault {
                Some(fault) => Some(fault@),
                None => None,
            },
        }
    }
}

pub open spec fn judged_views(entries: Seq<JudgedEntry>) -> Seq<JudgedView> {
    entries.map_values(|entry: JudgedEntry| entry@)
}

/// Whether a command counts in an authenticated session.
pub open spec fn open_command(
    namespace: Digest,
    envelope: CommandEnvelopeView,
    bounds: AdmissionBounds,
    definition_fault: Option<Seq<char>>,
) -> bool {
    &&& envelope.namespace == namespace
    &&& envelope.presented.len() == 0
    &&& envelope.command.fault(bounds.ops, definition_fault) is None
}

/// The command of an entry, if it counts.
pub open spec fn accepted(
    authority: ProjectionAuthority,
    entry: JudgedView,
    bounds: AdmissionBounds,
) -> Option<CommandView> {
    match entry.envelope {
        None => None,
        Some(envelope) => {
            let counts = match authority {
                ProjectionAuthority::Capabilities(_) => command::capability_fault(
                    envelope.presented,
                    bounds.max_presented as int,
                ) is None && entry.authorized,
                ProjectionAuthority::OpenSession(namespace) => open_command(
                    namespace,
                    envelope,
                    bounds,
                    entry.definition_fault,
                ),
            };
            if counts {
                Some(CommandView { id: entry.id, actor: envelope.actor, op: envelope.command })
            } else {
                None
            }
        },
    }
}

/// The commands of those entries that count, in order.
pub open spec fn accepted_of(
    authority: ProjectionAuthority,
    entries: Seq<JudgedView>,
    bounds: AdmissionBounds,
) -> Seq<CommandView>
    decreases entries.len(),
{
    if entries.len() == 0 {
        Seq::empty()
    } else {
        let rest = accepted_of(authority, entries.drop_last(), bounds);
        match accepted(authority, entries.last(), bounds) {
            Some(command) => rest.push(command),
            None => rest,
        }
    }
}

/// Whether an appended entry can change what earlier entries mean.
pub open spec fn rebuilds(authority: ProjectionAuthority, entry: JudgedView) -> bool {
    ||| authority is Capabilities && entry.is_capability
    ||| match entry.envelope {
        Some(envelope) => envelope.command is SetTuning,
        None => true,
    }
}

/// Whether a state has to be built anew: there is none to advance, or one of the
/// appended entries can change what earlier ones mean.
pub open spec fn needs_rebuild(
    authority: ProjectionAuthority,
    incremental: bool,
    has_prior: bool,
    appended: Seq<JudgedView>,
) -> bool {
    ||| !incremental
    ||| !has_prior
    ||| exists|i: int| 0 <= i < appended.len() && rebuilds(authority, #[trigger] appended[i])
}

/// How a projection is brought up to date.
#[derive(Debug)]
pub enum UpdatePlan {
    /// Fold the whole history.
    Rebuild,
    /// Fold these commands into the state that is there.
    Advance(Vec<Command>),
}

/// What is asked of the capabilities of a history on behalf of a command.
#[derive(Debug)]
pub struct AuthorizationQuestion {
    pub receiver: Vec<u8>,
    pub area: Area,
    pub right: Right,
    pub presented: Vec<EntryHash>,
    /// The entry at which the command stands.
    pub at: EntryHash,
}

/// What to ask of the capabilities of a history about a command: nothing where it
/// does not present grants as it should.
pub fn authorization_question(envelope: &CommandEnvelope, entry: EntryHash, most: usize) -> (question:
    Option<AuthorizationQuestion>)
    ensures
        match question {
            Some(question) => {
                &&& command::capability_fault(envelope@.presented, most as int) is None
                &&& question.receiver@ == envelope@.actor@
                &&& question.area@ == command::area_of(envelope@.namespace, envelope@.command)
                &&& question.right == Right::Invoke
                &&& question.presented@ == envelope@.presented
                &&& question.at == entry
            },
            None => command::capability_fault(envelope@.presented, most as int) is Some,
        },
{
    match envelope.capability_ids(most) {
        Ok(presented) => Some(
            AuthorizationQuestion {
                receiver: envelope.actor().receiver(),
                area: command_area(envelope.namespace(), envelope.command()),
                right: Right::Invoke,
                presented,
                at: entry,
            },
        ),
        Err(_) => None,
    }
}

fn copy_fault(fault: &Option<String>) -> (copy: Option<String>)
    ensures
        copy == *fault,
{
    match fault {
        Some(message) => Some(message.clone()),
        None => None,
    }
}

fn valid_open_command(
    namespace: Digest,
    envelope: &CommandEnvelope,
    bounds: AdmissionBounds,
    definition_fault: &Option<String>,
) -> (r: bool)
    ensures
        r == open_command(
            namespace,
            envelope@,
            bounds,
            match *definition_fault {
                Some(fault) => Some(fault@),
                None => None,
            },
        ),
{
    envelope.namespace().same(&namespace) && envelope.presented_raw().len() == 0 && ops::validate(
        envelope.command(),
        bounds.ops,
        copy_fault(definition_fault),
    ).is_ok()
}

/// The roots, one after the other.
pub open spec fn hash_bytes(roots: Seq<EntryHash>) -> Seq<u8>
    decreases roots.len(),
{
    if roots.len() == 0 {
        Seq::empty()
    } else {
        hash_bytes(roots.drop_last()) + roots.last()@
    }
}

/// The bytes that a projection's identity is bound to.
pub open spec fn binding_of(authority: ProjectionAuthority) -> Seq<u8> {
    match authority {
        ProjectionAuthority::Capabilities(roots) => CAPABILITIES_TAG@ + hash_bytes(roots),
        ProjectionAuthority::OpenSession(namespace) => OPEN_SESSION_TAG@ + namespace@,
    }
}

proof fn lemma_hash_bytes_injective(a: Seq<EntryHash>, b: Seq<EntryHash>)
    requires
        hash_bytes(a) == hash_bytes(b),
    ensures
        a == b,
    decreases a.len(),
{
    lemma_hash_bytes_len(a);
    lemma_hash_bytes_len(b);
    assert(a.len() == b.len()) by (nonlinear_arith)
        requires
            32 * a.len() == 32 * b.len(),
    ;
    if a.len() > 0 {
        let (x, y) = (hash_bytes(a), hash_bytes(b));
        lemma_hash_bytes_len(a.drop_last());
        lemma_hash_bytes_len(b.drop_last());
        a.last().lemma_len();
        b.last().lemma_len();
        let n = hash_bytes(a.drop_last()).len() as int;
        assert(hash_bytes(a.drop_last()) =~= x.subrange(0, n));
        assert(hash_bytes(b.drop_last()) =~= y.subrange(0, n));
        assert(a.last()@ =~= x.subrange(n, n + 32));
        assert(b.last()@ =~= y.subrange(n, n + 32));
        lemma_hash_bytes_injective(a.drop_last(), b.drop_last());
        EntryHash::lemma_extensional(a.last(), b.last());
        assert(a =~= a.drop_last().push(a.last()));
        assert(b =~= b.drop_last().push(b.last()));
    } else {
        assert(a =~= b);
    }
}

proof fn lemma_hash_bytes_len(roots: Seq<EntryHash>)
    ensures
        hash_bytes(roots).len() == 32 * roots.len(),
    decreases roots.len(),
{
    if roots.len() > 0 {
        lemma_hash_bytes_len(roots.drop_last());
        roots.last().lemma_len();
    }
}

/// Projections under different authority have different identities to bind.
pub proof fn law_projection_bindings_differ(a: ProjectionAuthority, b: ProjectionAuthority)
    requires
        binding_of(a) == binding_of(b),
    ensures
        a == b,
{
    let (x, y) = (binding_of(a), binding_of(b));
    assert(CAPABILITIES_TAG@[0] != OPEN_SESSION_TAG@[0]);
    match (a, b) {
        (ProjectionAuthority::Capabilities(p), ProjectionAuthority::Capabilities(q)) => {
            assert(hash_bytes(p) =~= x.subrange(13, x.len() as int));
            assert(hash_bytes(q) =~= y.subrange(13, y.len() as int));
            lemma_hash_bytes_injective(p, q);
        },
        (ProjectionAuthority::OpenSession(p), ProjectionAuthority::OpenSession(q)) => {
            assert(p@ =~= x.subrange(13, x.len() as int));
            assert(q@ =~= y.subrange(13, y.len() as int));
            Digest::lemma_extensional(p, q);
        },
        (ProjectionAuthority::Capabilities(_), ProjectionAuthority::OpenSession(_)) => {
            assert(x[0] == CAPABILITIES_TAG@[0]);
            assert(y[0] == OPEN_SESSION_TAG@[0]);
        },
        (ProjectionAuthority::OpenSession(_), ProjectionAuthority::Capabilities(_)) => {
            assert(x[0] == OPEN_SESSION_TAG@[0]);
            assert(y[0] == CAPABILITIES_TAG@[0]);
        },
    }
}

impl MusicMaterializer {
    pub fn new(root: EntryHash) -> (materializer: Self)
        ensures
            materializer@ == ProjectionAuthority::Capabilities(seq![root]),
    {
        let mut roots: Vec<EntryHash> = Vec::new();
        roots.push(root);
        assert(roots@ =~= seq![root]);
        MusicMaterializer { authority: MaterializationAuthority::Capabilities(roots) }
    }

    /// Materialize a federated room whose accepted commands may descend from more
    /// than one explicitly trusted capability root. Roots are sorted and
    /// deduplicated so every peer derives the same projection identity.
    pub fn from_roots(roots: &[EntryHash]) -> (materializer: Self)
        ensures
            materializer@ == ProjectionAuthority::Capabilities(
                collections::ascending_of(roots@.to_set()),
            ),
    {
        let mut all: SortedSet<EntryHash> = SortedSet::new();
        let mut i: usize = 0;
        assert(roots@.subrange(0, 0).to_set() =~= Set::<EntryHash>::empty());
        while i < roots.len()
            invariant
                i <= roots@.len(),
                all@ == roots@.subrange(0, i as int).to_set(),
            decreases roots@.len() - i,
        {
            proof {
                collections::lemma_prefix_set(roots@, i as int);
            }
            all.insert(roots[i]);
            i = i + 1;
        }
        assert(roots@.subrange(0, i as int) =~= roots@);
        all.expose();
        let items: &[EntryHash] = all.as_slice();
        let mut sorted: Vec<EntryHash> = Vec::new();
        let mut k: usize = 0;
        while k < items.len()
            invariant
                k <= items@.len(),
                sorted@ == items@.subrange(0, k as int),
            decreases items@.len() - k,
        {
            sorted.push(items[k]);
            k = k + 1;
            assert(sorted@ =~= items@.subrange(0, k as int));
        }
        assert(sorted@ =~= items@);
        MusicMaterializer { authority: MaterializationAuthority::Capabilities(sorted) }
    }

    /// Materialize open-authority entries from one authenticated session
    /// namespace. The namespace is part of the projection identity.
    pub fn open_session(namespace: Digest) -> (materializer: Self)
        ensures
            materializer@ == ProjectionAuthority::OpenSession(namespace),
    {
        MusicMaterializer { authority: MaterializationAuthority::OpenSession(namespace) }
    }

    pub fn roots(&self) -> (roots: &[EntryHash])
        ensures
            roots@ == match self@ {
                ProjectionAuthority::Capabilities(roots) => roots,
                ProjectionAuthority::OpenSession(_) => Seq::empty(),
            },
    {
        match &self.authority {
            MaterializationAuthority::Capabilities(roots) => roots.as_slice(),
            MaterializationAuthority::OpenSession(_) => &[],
        }
    }

    /// The bytes whose digest names the projection.
    pub fn projection_binding(&self) -> (binding: Vec<u8>)
        ensures
            binding@ == binding_of(self@),
    {
        match &self.authority {
            MaterializationAuthority::Capabilities(roots) => {
                let mut binding: Vec<u8> = bytes::to_vec(&CAPABILITIES_TAG);
                let mut i: usize = 0;
                assert(binding@ =~= CAPABILITIES_TAG@ + hash_bytes(roots@.subrange(0, 0)));
                while i < roots.len()
                    invariant
                        i <= roots@.len(),
                        binding@ == CAPABILITIES_TAG@ + hash_bytes(roots@.subrange(0, i as int)),
                    decreases roots@.len() - i,
                {
                    proof {
                        assert(roots@.subrange(0, i + 1).drop_last() =~= roots@.subrange(
                            0,
                            i as int,
                        ));
                    }
                    bytes::push_bytes(&mut binding, roots[i].as_bytes());
                    i = i + 1;
                    assert(binding@ =~= CAPABILITIES_TAG@ + hash_bytes(
                        roots@.subrange(0, i as int),
                    ));
                }
                assert(roots@.subrange(0, i as int) =~= roots@);
                binding
            },
            MaterializationAuthority::OpenSession(namespace) => {
                let mut binding: Vec<u8> = bytes::to_vec(&OPEN_SESSION_TAG);
                bytes::push_bytes(&mut binding, namespace.as_bytes());
                binding
            },
        }
    }

    fn accepts(&self, entry: &JudgedEntry, bounds: AdmissionBounds) -> (command: Option<Command>)
        ensures
            match command {
                Some(command) => accepted(self@, entry@, bounds) == Some(command@),
                None => accepted(self@, entry@, bounds) is None,
            },
    {
        let envelope: &CommandEnvelope = match &entry.envelope {
            Some(envelope) => envelope,
            None => {
                return None;
            },
        };
        let counts: bool = match &self.authority {
            MaterializationAuthority::Capabilities(_) => envelope.capability_ids(
                bounds.max_presented,
            ).is_ok() && entry.authorized,
            MaterializationAuthority::OpenSession(namespace) => valid_open_command(
                *namespace,
                envelope,
                bounds,
                &entry.definition_fault,
            ),
        };
        if counts {
            Some(
                Command {
                    id: entry.id,
                    actor: envelope.actor(),
                    op: envelope.command().clone(),
                },
            )
        } else {
            None
        }
    }

    /// The commands of those entries that count, in the order of the entries.
    pub fn commands(&self, entries: &Vec<JudgedEntry>, bounds: AdmissionBounds) -> (commands: Vec<
        Command,
    >)
        ensures
            causal::command_views(commands@) == accepted_of(
                self@,
                judged_views(entries@),
                bounds,
            ),
    {
        let ghost all = judged_views(entries@);
        let mut commands: Vec<Command> = Vec::new();
        let mut i: usize = 0;
        assert(causal::command_views(commands@) =~= Seq::empty());
        assert(all.subrange(0, 0).len() == 0);
        while i < entries.len()
            invariant
                i <= entries@.len(),
                all == judged_views(entries@),
                causal::command_views(commands@) == accepted_of(
                    self@,
                    all.subrange(0, i as int),
                    bounds,
                ),
            decreases entries@.len() - i,
        {
            proof {
                assert(all.subrange(0, i + 1).drop_last() =~= all.subrange(0, i as int));
                assert(all.subrange(0, i + 1).last() == entries@[i as int]@);
            }
            let ghost before = commands@;
            match self.accepts(&entries[i], bounds) {
                Some(command) => {
                    commands.push(command);
                    assert(causal::command_views(commands@) =~= causal::command_views(
                        before,
                    ).push(command@));
                },
                None => {},
            }
            i = i + 1;
        }
        assert(all.subrange(0, i as int) =~= all);
        commands
    }

    /// Decides how the projection is brought up to date: whether the entries were
    /// appended to a history whose state is there, and what they are.
    pub fn plan_update(
        &self,
        incremental: bool,
        has_prior: bool,
        appended: &Vec<JudgedEntry>,
        bounds: AdmissionBounds,
    ) -> (plan: UpdatePlan)
        ensures
            ({
                let entries = judged_views(appended@);
                match plan {
                    UpdatePlan::Rebuild => needs_rebuild(self@, incremental, has_prior, entries),
                    UpdatePlan::Advance(commands) => {
                        &&& !needs_rebuild(self@, incremental, has_prior, entries)
                        &&& causal::command_views(commands@) == accepted_of(
                            self@,
                            entries,
                            bounds,
                        )
                    },
                }
            }),
    {
        if !incremental || !has_prior {
            return UpdatePlan::Rebuild;
        }
        let capabilities: bool = match &self.authority {
            MaterializationAuthority::Capabilities(_) => true,
            MaterializationAuthority::OpenSession(_) => false,
        };
        let ghost entries = judged_views(appended@);
        let mut i: usize = 0;
        while i < appended.len()
            invariant
                i <= appended@.len(),
                capabilities == (self@ is Capabilities),
                entries == judged_views(appended@),
                forall|k: int| 0 <= k < i ==> !rebuilds(self@, #[trigger] entries[k]),
            decreases appended@.len() - i,
        {
            let entry: &JudgedEntry = &appended[i];
            let tunes: bool = match &entry.envelope {
                Some(envelope) => match envelope.command() {
                    MusicOp::SetTuning { .. } => true,
                    _ => false,
                },
                None => true,
            };
            assert(entries[i as int] == entry@);
            if (capabilities && entry.is_capability) || tunes {
                assert(rebuilds(self@, entries[i as int]));
                return UpdatePlan::Rebuild;
            }
            i = i + 1;
        }
        UpdatePlan::Advance(self.commands(appended, bounds))
    }

    /// The state of a history, from its judged entries in topological order and
    /// the tuning that they leave, as its parser made it out.
    pub fn project(
        &self,
        history: &History,
        entries: &Vec<JudgedEntry>,
        bounds: AdmissionBounds,
        active: Option<&Tuning>,
    ) -> (state: FoldState)
        ensures
            state@ == fold::fold_of(
                accepted_of(self@, judged_views(entries@), bounds),
                match active {
                    Some(active) => Some(active@),
                    None => None,
                },
                history@.past_of(),
            ),
    {
        let commands: Vec<Command> = self.commands(entries, bounds);
        fold_state(history, &commands, active)
    }

    /// Brings a projection up to date. `prior` is the state that is there, and
    /// `appended` the entries that came since, where they came on top of it;
    /// `entries` is the whole history. The state is advanced where nothing that
    /// came since can change what was there, and rebuilt where something can.
    pub fn update(
        &self,
        history: &History,
        prior: Option<FoldState>,
        appended: Option<&Vec<JudgedEntry>>,
        entries: &Vec<JudgedEntry>,
        bounds: AdmissionBounds,
        active: Option<&Tuning>,
    ) -> (state: FoldState)
        ensures
            ({
                let tuning = match active {
                    Some(active) => Some(active@),
                    None => None,
                };
                let rebuilt = fold::fold_of(
                    accepted_of(self@, judged_views(entries@), bounds),
                    tuning,
                    history@.past_of(),
                );
                match (prior, appended) {
                    (Some(prior), Some(appended)) => {
                        let since = judged_views(appended@);
                        if needs_rebuild(self@, true, true, since) {
                            state@ == rebuilt
                        } else {
                            state@ == fold::folded_under(
                                prior@,
                                accepted_of(self@, since, bounds),
                                tuning,
                                history@.past_of(),
                            )
                        }
                    },
                    _ => state@ == rebuilt,
                }
            }),
    {
        let mut state: FoldState = match prior {
            Some(state) => state,
            None => {
                return self.project(history, entries, bounds, active);
            },
        };
        let appended: &Vec<JudgedEntry> = match appended {
            Some(appended) => appended,
            None => {
                return self.project(history, entries, bounds, active);
            },
        };
        match self.plan_update(true, true, appended, bounds) {
            UpdatePlan::Rebuild => self.project(history, entries, bounds, active),
            UpdatePlan::Advance(commands) => {
                state.apply_commands(history, active, &commands);
                state
            },
        }
    }
}

/// The music of a history whose commands descend from trusted roots.
pub fn materialize(
    history: &History,
    roots: &[EntryHash],
    entries: &Vec<JudgedEntry>,
    bounds: AdmissionBounds,
    active: Option<&Tuning>,
) -> (view: MusicView)
    ensures
        view.shows(
            view::music_of(
                fold::fold_of(
                    accepted_of(
                        ProjectionAuthority::Capabilities(
                            collections::ascending_of(roots@.to_set()),
                        ),
                        judged_views(entries@),
                        bounds,
                    ),
                    match active {
                        Some(active) => Some(active@),
                        None => None,
                    },
                    history@.past_of(),
                ),
                active is Some,
            ),
        ),
{
    let materializer = MusicMaterializer::from_roots(roots);
    let commands: Vec<Command> = materializer.commands(entries, bounds);
    materialize_commands(history, &commands, active)
}

/// The music of a history whose commands come from one authenticated session.
pub fn materialize_open(
    history: &History,
    namespace: Digest,
    entries: &Vec<JudgedEntry>,
    bounds: AdmissionBounds,
    active: Option<&Tuning>,
) -> (view: MusicView)
    ensures
        view.shows(
            view::music_of(
                fold::fold_of(
                    accepted_of(
                        ProjectionAuthority::OpenSession(namespace),
                        judged_views(entries@),
                        bounds,
                    ),
                    match active {
                        Some(active) => Some(active@),
                        None => None,
                    },
                    history@.past_of(),
                ),
                active is Some,
            ),
        ),
{
    let materializer = MusicMaterializer::open_session(namespace);
    let commands: Vec<Command> = materializer.commands(entries, bounds);
    materialize_commands(history, &commands, active)
}

/// Commands that advance a state set no tuning, so that the tuning that the
/// state was folded under still holds.
pub proof fn law_advances_set_no_tuning(
    authority: ProjectionAuthority,
    appended: Seq<JudgedView>,
    bounds: AdmissionBounds,
    k: int,
)
    requires
        !needs_rebuild(authority, true, true, appended),
        0 <= k < accepted_of(authority, appended, bounds).len(),
    ensures
        accepted_of(authority, appended, bounds)[k].op !is SetTuning,
    decreases appended.len(),
{
    let front = appended.drop_last();
    assert(appended.last() == appended[appended.len() - 1]);
    assert(!rebuilds(authority, appended[appended.len() - 1]));
    assert(!needs_rebuild(authority, true, true, front)) by {
        if needs_rebuild(authority, true, true, front) {
            let i = choose|i: int| 0 <= i < front.len() && rebuilds(authority, #[trigger] front[i]);
            assert(rebuilds(authority, appended[i]));
        }
    }
    if k < accepted_of(authority, front, bounds).len() {
        law_advances_set_no_tuning(authority, front, bounds, k);
    }
}

/// The name of a projection, from the digest of its binding.
pub fn projection_name(digest: &Digest) -> (name: String)
    ensures
        name@ == "tutti/music/"@ + ids::hex(digest@),
{
    let mut name: String = text::string_of("tutti/music/");
    let suffix: String = ids::hex_of(digest.as_bytes());
    text::push_str(&mut name, suffix.as_str());
    name
}

/// The commands of a history's entries, taken in its order, are in an order in
/// which none stands before one of its past.
pub proof fn law_history_commands_are_ordered(
    authority: ProjectionAuthority,
    entries: Seq<JudgedView>,
    bounds: AdmissionBounds,
    history: HistoryView,
)
    requires
        history.sound(),
        entries.len() == history.hashes.len(),
        forall|i: int| 0 <= i < entries.len() ==> (#[trigger] entries[i]).id == history.hashes[i],
    ensures
        causal::ordered(accepted_of(authority, entries, bounds), history.past_of()),
{
    let commands = accepted_of(authority, entries, bounds);
    let places = lemma_accepted_places(authority, entries, bounds);
    let past = history.past_of();
    assert forall|i: int, j: int|
        #![trigger commands[i], commands[j]]
        0 <= i <= j < commands.len() implies !past(commands[j].id, commands[i].id) by {
        assert(entries[places[i]].id == commands[i].id);
        assert(entries[places[j]].id == commands[j].id);
        history::law_history_is_ordered(history, places[i], places[j]);
    }
    assert forall|i: int, j: int|
        #![trigger commands[i], commands[j]]
        0 <= i < j < commands.len() implies commands[i].id != commands[j].id by {
        assert(entries[places[i]].id == commands[i].id);
        assert(entries[places[j]].id == commands[j].id);
        assert(history.hashes[places[i]] != history.hashes[places[j]]);
    }
}

/// Where the commands that count come from.
proof fn lemma_accepted_places(
    authority: ProjectionAuthority,
    entries: Seq<JudgedView>,
    bounds: AdmissionBounds,
) -> (places: Seq<int>)
    ensures
        places.len() == accepted_of(authority, entries, bounds).len(),
        forall|i: int|
            0 <= i < places.len() ==> 0 <= #[trigger] places[i] < entries.len()
                && entries[places[i]].id == accepted_of(authority, entries, bounds)[i].id,
        forall|i: int, j: int|
            0 <= i < j < places.len() ==> #[trigger] places[i] < #[trigger] places[j],
    decreases entries.len(),
{
    if entries.len() == 0 {
        Seq::empty()
    } else {
        let rest = lemma_accepted_places(authority, entries.drop_last(), bounds);
        match accepted(authority, entries.last(), bounds) {
            Some(_) => rest.push(entries.len() - 1),
            None => rest,
        }
    }
}

proof fn lemma_same_outlived<T>(
    list: Seq<(EntryHash, T)>,
    p: spec_fn(EntryHash, EntryHash) -> bool,
    q: spec_fn(EntryHash, EntryHash) -> bool,
    id: EntryHash,
)
    requires
        forall|i: int| 0 <= i < list.len() ==> p((#[trigger] list[i]).0, id) == q(list[i].0, id),
    ensures
        causal::outlived(list, p, id) == causal::outlived(list, q, id),
    decreases list.len(),
{
    reveal(Seq::filter);
    if list.len() > 0 {
        let front = list.drop_last();
        assert forall|i: int| 0 <= i < front.len() implies p((#[trigger] front[i]).0, id) == q(
            front[i].0,
            id,
        ) by {
            assert(front[i] == list[i]);
        }
        lemma_same_outlived(front, p, q, id);
        assert(list.last() == list[list.len() - 1]);
    }
}

/// Whether two relations agree on the commands.
spec fn agree(
    commands: Seq<CommandView>,
    p: spec_fn(EntryHash, EntryHash) -> bool,
    q: spec_fn(EntryHash, EntryHash) -> bool,
) -> bool {
    forall|i: int, j: int|
        #![trigger commands[i], commands[j]]
        0 <= i < commands.len() && 0 <= j < commands.len() ==> p(commands[i].id, commands[j].id)
            == q(commands[i].id, commands[j].id)
}

proof fn lemma_agree_front(
    commands: Seq<CommandView>,
    p: spec_fn(EntryHash, EntryHash) -> bool,
    q: spec_fn(EntryHash, EntryHash) -> bool,
)
    requires
        agree(commands, p, q),
        commands.len() > 0,
    ensures
        agree(commands.drop_last(), p, q),
{
    let front = commands.drop_last();
    assert forall|i: int, j: int|
        #![trigger front[i], front[j]]
        0 <= i < front.len() && 0 <= j < front.len() implies p(front[i].id, front[j].id) == q(
        front[i].id,
        front[j].id,
    ) by {
        assert(front[i] == commands[i] && front[j] == commands[j]);
    }
}

/// Folds under relations that agree leave the same writes, all of them commands'.
proof fn lemma_same_maxima<V>(
    commands: Seq<CommandView>,
    writes: spec_fn(CommandView) -> Option<V>,
    p: spec_fn(EntryHash, EntryHash) -> bool,
    q: spec_fn(EntryHash, EntryHash) -> bool,
)
    requires
        agree(commands, p, q),
    ensures
        causal::maxima(Seq::empty(), commands, writes, p) == causal::maxima(
            Seq::empty(),
            commands,
            writes,
            q,
        ),
        forall|k: int|
            0 <= k < causal::maxima(Seq::empty(), commands, writes, p).len() ==> exists|i: int|
                0 <= i < commands.len() && (#[trigger] commands[i]).id == (
                #[trigger] causal::maxima(Seq::empty(), commands, writes, p)[k]).0,
    decreases commands.len(),
{
    if commands.len() > 0 {
        let front = commands.drop_last();
        let last = commands.last();
        lemma_agree_front(commands, p, q);
        lemma_same_maxima(front, writes, p, q);
        let rest = causal::maxima(Seq::empty(), front, writes, p);
        let all = causal::maxima(Seq::empty(), commands, writes, p);
        assert(last == commands[commands.len() - 1]);
        assert forall|k: int| 0 <= k < rest.len() implies p((#[trigger] rest[k]).0, last.id) == q(
            rest[k].0,
            last.id,
        ) by {
            let i = choose|i: int|
                0 <= i < front.len() && (#[trigger] front[i]).id == rest[k].0;
            assert(commands[i] == front[i]);
        }
        lemma_same_outlived(rest, p, q, last.id);
        assert forall|k: int| 0 <= k < all.len() implies exists|i: int|
            0 <= i < commands.len() && (#[trigger] commands[i]).id == (#[trigger] all[k]).0 by {
            let item = all[k];
            if writes(last) is Some && k == all.len() - 1 {
                assert(commands[commands.len() - 1].id == item.0);
            } else {
                let left = causal::outlived(rest, p, last.id);
                if writes(last) is Some {
                    assert(left[k] == item);
                    assert(left.contains(item));
                    rest.lemma_filter_contains_rev(
                        |kept: (EntryHash, V)| !p(kept.0, last.id),
                        item,
                    );
                } else {
                    assert(rest[k] == item);
                }
                let m = rest.index_of(item);
                assert(rest[m] == item);
                let i = choose|i: int|
                    0 <= i < front.len() && (#[trigger] front[i]).id == rest[m].0;
                assert(commands[i] == front[i]);
            }
        }
    }
}

/// Folds under relations that agree leave the same adds, all of them commands'.
proof fn lemma_same_survivors<K>(
    commands: Seq<CommandView>,
    adds: spec_fn(CommandView) -> Option<K>,
    removes: spec_fn(CommandView) -> Option<K>,
    p: spec_fn(EntryHash, EntryHash) -> bool,
    q: spec_fn(EntryHash, EntryHash) -> bool,
    member: K,
)
    requires
        agree(commands, p, q),
    ensures
        causal::survivors(Seq::empty(), commands, adds, removes, p, member) == causal::survivors(
            Seq::empty(),
            commands,
            adds,
            removes,
            q,
            member,
        ),
        forall|k: int|
            0 <= k < causal::survivors(
                Seq::empty(),
                commands,
                adds,
                removes,
                p,
                member,
            ).len() ==> exists|i: int|
                0 <= i < commands.len() && (#[trigger] commands[i]).id == (
                #[trigger] causal::survivors(
                    Seq::empty(),
                    commands,
                    adds,
                    removes,
                    p,
                    member,
                )[k]).0,
    decreases commands.len(),
{
    if commands.len() > 0 {
        let front = commands.drop_last();
        let last = commands.last();
        lemma_agree_front(commands, p, q);
        lemma_same_survivors(front, adds, removes, p, q, member);
        let rest = causal::survivors(Seq::empty(), front, adds, removes, p, member);
        let all = causal::survivors(Seq::empty(), commands, adds, removes, p, member);
        assert(last == commands[commands.len() - 1]);
        assert forall|k: int| 0 <= k < rest.len() implies p((#[trigger] rest[k]).0, last.id) == q(
            rest[k].0,
            last.id,
        ) by {
            let i = choose|i: int|
                0 <= i < front.len() && (#[trigger] front[i]).id == rest[k].0;
            assert(commands[i] == front[i]);
        }
        lemma_same_outlived(rest, p, q, last.id);
        assert forall|k: int| 0 <= k < all.len() implies exists|i: int|
            0 <= i < commands.len() && (#[trigger] commands[i]).id == (#[trigger] all[k]).0 by {
            let item = all[k];
            if adds(last) == Some(member) && k == all.len() - 1 {
                assert(commands[commands.len() - 1].id == item.0);
            } else {
                if adds(last) == Some(member) {
                    assert(rest[k] == item);
                } else if removes(last) == Some(member) {
                    assert(all.contains(item));
                    rest.lemma_filter_contains_rev(
                        |kept: (EntryHash, crate::replica::ids::ActorId)| !p(kept.0, last.id),
                        item,
                    );
                } else {
                    assert(rest[k] == item);
                }
                let m = rest.index_of(item);
                assert(rest[m] == item);
                let i = choose|i: int|
                    0 <= i < front.len() && (#[trigger] front[i]).id == rest[m].0;
                assert(commands[i] == front[i]);
            }
        }
    }
}

/// A state does not change when the history that it was folded from grows.
pub proof fn law_states_survive_growth(
    before: HistoryView,
    after: HistoryView,
    commands: Seq<CommandView>,
    active: Option<TuningView>,
)
    requires
        history::extends(before, after),
        forall|i: int| 0 <= i < commands.len() ==> before.contains((#[trigger] commands[i]).id),
    ensures
        fold::fold_of(commands, active, before.past_of()) == fold::fold_of(
            commands,
            active,
            after.past_of(),
        ),
{
    let (p, q) = (before.past_of(), after.past_of());
    assert forall|i: int, j: int|
        #![trigger commands[i], commands[j]]
        0 <= i < commands.len() && 0 <= j < commands.len() implies p(
        commands[i].id,
        commands[j].id,
    ) == q(commands[i].id, commands[j].id) by {
        history::law_growing_keeps_the_past(before, after, commands[i].id, commands[j].id);
    }
    assert(agree(commands, p, q));
    lemma_same_maxima(commands, causal::tuning_writes(), p, q);
    lemma_same_maxima(commands, causal::round_table_writes(), p, q);
    let (x, y) = (fold::fold_of(commands, active, p), fold::fold_of(commands, active, q));
    match active {
        Some(active) => {
            assert forall|member: crate::music::tuning::TunedDegree| x.live_adds.dom().contains(
                member,
            ) implies #[trigger] x.live_adds[member] == y.live_adds[member] by {
                lemma_same_survivors(
                    commands,
                    causal::degree_adds(active),
                    causal::degree_removes(),
                    p,
                    q,
                    member,
                );
            }
            assert(x.live_adds =~= y.live_adds);
            assert forall|member: crate::music::tuning::TunedPeriodicPitch|
                x.live_pitch_adds.dom().contains(member) implies #[trigger] x.live_pitch_adds[member]
                == y.live_pitch_adds[member] by {
                lemma_same_survivors(
                    commands,
                    causal::pitch_adds(active),
                    causal::pitch_removes(),
                    p,
                    q,
                    member,
                );
            }
            assert(x.live_pitch_adds =~= y.live_pitch_adds);
            assert forall|degree: crate::music::tuning::TunedDegree|
                x.envelope_maxima.dom().contains(degree) implies #[trigger] x.envelope_maxima[degree]
                == y.envelope_maxima[degree] by {
                lemma_same_maxima(commands, causal::envelope_writes(active, degree), p, q);
            }
            assert(x.envelope_maxima =~= y.envelope_maxima);
            assert(x =~= y);
        },
        None => {
            assert(x =~= y);
        },
    }
}

/// An incremental update leaves the state that a rebuild would: commands that set
/// no tuning, folded into the state of the earlier ones, give the state of all.
pub proof fn law_updates_equal_rebuilds(
    before: HistoryView,
    after: HistoryView,
    earlier: Seq<CommandView>,
    appended: Seq<CommandView>,
    active: Option<TuningView>,
)
    requires
        history::extends(before, after),
        forall|i: int| 0 <= i < earlier.len() ==> before.contains((#[trigger] earlier[i]).id),
        forall|i: int| 0 <= i < appended.len() ==> (#[trigger] appended[i]).op !is SetTuning,
    ensures
        ({
            let prior = fold::fold_of(earlier, active, before.past_of());
            fold::folded_under(prior, appended, active, after.past_of()) == fold::fold_of(earlier + appended, active, after.past_of())
        }),
{
    law_states_survive_growth(before, after, earlier, active);
    let past = after.past_of();
    let writes = causal::tuning_writes();
    lemma_unwritten_keeps(
        causal::maxima(Seq::empty(), earlier, writes, past),
        appended,
        writes,
        past,
    );
    causal::lemma_maxima_join(Seq::empty(), earlier, appended, writes, past);
    match active {
        Some(active) => {
            let start = fold::FoldView {
                tuning_maxima: causal::maxima(Seq::empty(), earlier, writes, past),
                ..fold::nothing()
            };
            fold::law_folding_continues(start, earlier, appended, active, past);
        },
        None => {
            causal::lemma_maxima_join(
                Seq::empty(),
                earlier,
                appended,
                causal::round_table_writes(),
                past,
            );
        },
    }
}

proof fn lemma_unwritten_keeps<V>(
    start: Seq<(EntryHash, V)>,
    commands: Seq<CommandView>,
    writes: spec_fn(CommandView) -> Option<V>,
    past: spec_fn(EntryHash, EntryHash) -> bool,
)
    requires
        forall|i: int| 0 <= i < commands.len() ==> writes(#[trigger] commands[i]) is None,
    ensures
        causal::maxima(start, commands, writes, past) == start,
    decreases commands.len(),
{
    if commands.len() > 0 {
        let front = commands.drop_last();
        assert forall|i: int| 0 <= i < front.len() implies writes(#[trigger] front[i]) is None by {
            assert(front[i] == commands[i]);
        }
        lemma_unwritten_keeps(start, front, writes, past);
        assert(commands.last() == commands[commands.len() - 1]);
    }
}

/// Under capabilities a command counts where it presents some, each once and not too
/// many, and was authorized. In an open session it counts where it is for the
/// namespace, presents none, and its op has no fault. A command that counts keeps its
/// entry, its actor and its op.
pub proof fn law_commands_that_count(
    authority: ProjectionAuthority,
    entry: JudgedView,
    bounds: AdmissionBounds,
)
    ensures
        accepted(authority, entry, bounds) is Some <==> (entry.envelope matches Some(envelope)
            && match authority {
            ProjectionAuthority::Capabilities(_) => {
                &&& 1 <= envelope.presented.len() <= bounds.max_presented
                &&& envelope.presented.no_duplicates()
                &&& entry.authorized
            },
            ProjectionAuthority::OpenSession(namespace) => {
                &&& envelope.namespace == namespace
                &&& envelope.presented.len() == 0
                &&& envelope.command.fault(bounds.ops, entry.definition_fault) is None
            },
        }),
        accepted(authority, entry, bounds) matches Some(command) ==> command.id == entry.id
            && command.actor == entry.envelope->0.actor && command.op == entry.envelope->0.command,
{
}

/// The commands of a history are those of its entries that count, in its order.
pub proof fn law_commands_keep_the_order_of_entries(
    authority: ProjectionAuthority,
    entries: Seq<JudgedView>,
    bounds: AdmissionBounds,
)
    ensures
        accepted_of(authority, entries, bounds) == entries.map_values(
            |entry: JudgedView| accepted(authority, entry, bounds),
        ).filter(|command: Option<CommandView>| command is Some).map_values(
            |command: Option<CommandView>| command->0,
        ),
    decreases entries.len(),
{
    reveal(Seq::filter);
    let judge = |entry: JudgedView| accepted(authority, entry, bounds);
    let counts = |command: Option<CommandView>| command is Some;
    let said = |command: Option<CommandView>| command->0;
    if entries.len() > 0 {
        law_commands_keep_the_order_of_entries(authority, entries.drop_last(), bounds);
        assert(entries.map_values(judge).drop_last() =~= entries.drop_last().map_values(judge));
    }
    assert(accepted_of(authority, entries, bounds) =~= entries.map_values(judge).filter(
        counts,
    ).map_values(said));
}

/// A projection is rebuilt where there is nothing to advance from, and where what is
/// new holds a tuning, an entry that is no command, or under capabilities a change of
/// capabilities. In every other case it advances.
pub proof fn law_changes_of_meaning_rebuild(
    authority: ProjectionAuthority,
    incremental: bool,
    has_prior: bool,
    appended: Seq<JudgedView>,
)
    ensures
        needs_rebuild(authority, incremental, has_prior, appended) <==> {
            ||| !incremental
            ||| !has_prior
            ||| exists|i: int|
                0 <= i < appended.len() && {
                    ||| (#[trigger] appended[i]).envelope is None
                    ||| appended[i].envelope->0.command is SetTuning
                    ||| appended[i].is_capability && authority is Capabilities
                }
        },
{
    if exists|i: int| 0 <= i < appended.len() && rebuilds(authority, #[trigger] appended[i]) {
        let i = choose|i: int| 0 <= i < appended.len() && rebuilds(authority, #[trigger] appended[i]);
        assert(appended[i].envelope is None || appended[i].envelope->0.command is SetTuning
            || appended[i].is_capability && authority is Capabilities);
    }
    if exists|i: int|
        0 <= i < appended.len() && {
            ||| (#[trigger] appended[i]).envelope is None
            ||| appended[i].envelope->0.command is SetTuning
            ||| appended[i].is_capability && authority is Capabilities
        } {
        let i = choose|i: int|
            0 <= i < appended.len() && {
                ||| (#[trigger] appended[i]).envelope is None
                ||| appended[i].envelope->0.command is SetTuning
                ||| appended[i].is_capability && authority is Capabilities
            };
        assert(rebuilds(authority, appended[i]));
    }
}

/// A binding is the name of the kind of authority, a zero byte, and what the
/// authority rests on: the roots one after the other, or the namespace.
pub proof fn law_bindings_name_their_authority(
    roots: Seq<EntryHash>,
    namespace: Digest,
    i: int,
)
    requires
        0 <= i < roots.len(),
    ensures
        ({
            let binding = binding_of(ProjectionAuthority::Capabilities(roots));
            &&& binding.len() == 13 + 32 * roots.len()
            &&& binding.subrange(0, 13) == seq![
                0x63u8, 0x61, 0x70, 0x61, 0x62, 0x69, 0x6c, 0x69, 0x74, 0x69, 0x65, 0x73, 0x00,
            ]
            &&& binding.subrange(13 + 32 * i, 45 + 32 * i) == roots[i]@
        }),
        binding_of(ProjectionAuthority::OpenSession(namespace)) == seq![
            0x6fu8, 0x70, 0x65, 0x6e, 0x2d, 0x73, 0x65, 0x73, 0x73, 0x69, 0x6f, 0x6e, 0x00,
        ] + namespace@,
{
    let binding = binding_of(ProjectionAuthority::Capabilities(roots));
    lemma_hash_bytes_len(roots);
    lemma_hash_bytes_at(roots, i);
    assert(CAPABILITIES_TAG@ =~= seq![
        0x63u8, 0x61, 0x70, 0x61, 0x62, 0x69, 0x6c, 0x69, 0x74, 0x69, 0x65, 0x73, 0x00,
    ]);
    assert(OPEN_SESSION_TAG@ =~= seq![
        0x6fu8, 0x70, 0x65, 0x6e, 0x2d, 0x73, 0x65, 0x73, 0x73, 0x69, 0x6f, 0x6e, 0x00,
    ]);
    assert(binding.subrange(0, 13) =~= CAPABILITIES_TAG@);
    assert(binding.subrange(13 + 32 * i, 45 + 32 * i) =~= hash_bytes(roots).subrange(
        32 * i,
        32 * i + 32,
    ));
}

proof fn lemma_hash_bytes_at(roots: Seq<EntryHash>, i: int)
    requires
        0 <= i < roots.len(),
    ensures
        hash_bytes(roots).len() == 32 * roots.len(),
        hash_bytes(roots).subrange(32 * i, 32 * i + 32) == roots[i]@,
    decreases roots.len(),
{
    let front = roots.drop_last();
    lemma_hash_bytes_len(roots);
    lemma_hash_bytes_len(front);
    roots.last().lemma_len();
    if i < front.len() {
        lemma_hash_bytes_at(front, i);
        assert(hash_bytes(roots).subrange(32 * i, 32 * i + 32) =~= hash_bytes(front).subrange(
            32 * i,
            32 * i + 32,
        ));
    } else {
        assert(hash_bytes(roots).subrange(32 * i, 32 * i + 32) =~= roots[i]@);
    }
}

} // verus!
