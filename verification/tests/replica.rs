use std::collections::{BTreeMap, BTreeSet};

use tutti::collections::{Ordered, SortedMap, SortedSet};
use tutti::music::{
    Envelope, Interp, MusicOp, OpLimits, RoundTableConfig, RoundTablePattern, RoundTablePitchMode,
    RoundTableScale, SharedPitchSet, TunedDegree, TunedPeriodicPitch, Tuning, TuningDefinition, TuningId,
};
use tutti::replica::{
    author, author_open, authorization_question, decode_command, delegation_grant, encode_command,
    fold_state, fold_tunings, materialize, materialize_commands, materialize_open, notes_area,
    performance_area,
    possession_probe, preflight_embedded_capability_bundle, projection_name,
    prove_embedded_capability_possession, require_selected_leaves, root_grant,
    round_table_settings, strip_domain, tuning_area, ActorId, AdmissionBounds, AdmittedAuthority,
    Area, CapabilityOp, Command, CommandCodecError, CommandEnvelope, Digest,
    EmbeddedProvisioningError, EntryHash, FoldState, Grant, History, HistoryError, JudgedEntry,
    MusicAdmissionPolicy, MusicAuthority, MusicMaterializer, MusicView, MusicVocabularyProfile,
    Payload, Presentation, PresentedError, RepairQueue, Revoke, Right, Rights, UpdatePlan,
    COMMAND_DOMAIN, EMBEDDED_CAPABILITY_BUNDLE_BYTES, PROTOCOL_GENERATION, REPAIR_ALPN,
};
use tutti::session::SigningKey;

fn digest_of(label: &[u8]) -> Digest {
    Digest::from_bytes(*blake3::hash(label).as_bytes())
}

fn entry_of(label: &[u8]) -> EntryHash {
    EntryHash::from_bytes(*blake3::hash(label).as_bytes())
}

fn twelve_tet() -> Tuning {
    let degrees = (0..12).map(|index| index * 1_000_000_000).collect();
    Tuning::new(TuningId::from_bytes([12; 32]), 60_000_000_000, 12_000_000_000, degrees)
}

fn degree(index: u16) -> TunedDegree {
    TunedDegree::new(&twelve_tet(), index).unwrap()
}

fn set(indices: &[u16]) -> SortedSet<TunedDegree> {
    let mut set = SortedSet::new();
    for index in indices {
        set.insert(degree(*index));
    }
    set
}

fn actors(members: &[ActorId]) -> SortedSet<ActorId> {
    let mut set = SortedSet::new();
    for member in members {
        set.insert(*member);
    }
    set
}

fn bounds() -> AdmissionBounds {
    AdmissionBounds {
        ops: OpLimits {
            max_scale_degrees: 128,
            max_env_points: 16,
        },
        max_presented: 4,
    }
}

/// One entry as a replica keeps it: what it is written on top of, who may
/// vouch for it, and the command that it carries.
#[derive(Clone)]
struct Record {
    hash: EntryHash,
    parents: Vec<EntryHash>,
    actor: ActorId,
    presented: Vec<EntryHash>,
    op: Option<MusicOp>,
}

/// A replica in memory: its history, and the records in the order they came.
#[derive(Clone)]
struct Peer {
    namespace: Digest,
    records: Vec<Record>,
    frontier: BTreeSet<EntryHash>,
}

impl Peer {
    fn new(namespace: Digest) -> Self {
        Peer {
            namespace,
            records: Vec::new(),
            frontier: BTreeSet::new(),
        }
    }

    fn hold(&mut self, record: Record) {
        if self.records.iter().any(|held| held.hash == record.hash) {
            return;
        }
        for parent in &record.parents {
            self.frontier.remove(parent);
        }
        self.frontier.insert(record.hash);
        self.records.push(record);
    }

    fn write(&mut self, actor: ActorId, presented: &[EntryHash], op: Option<MusicOp>) -> EntryHash {
        let parents: Vec<EntryHash> = self.frontier.iter().copied().collect();
        let mut label = actor.as_bytes().to_vec();
        label.push(self.records.len() as u8);
        for parent in &parents {
            label.extend_from_slice(parent.as_bytes());
        }
        let hash = entry_of(&label);
        self.hold(Record {
            hash,
            parents,
            actor,
            presented: presented.to_vec(),
            op,
        });
        hash
    }

    fn repair_from(&mut self, other: &Peer) {
        for record in &other.records {
            self.hold(record.clone());
        }
    }

    fn history(&self) -> History {
        let mut history = History::new();
        for record in &self.records {
            history.append(record.hash, &record.parents).unwrap();
        }
        history
    }

    fn judged(&self, from: usize) -> Vec<JudgedEntry> {
        self.records[from..]
            .iter()
            .map(|record| JudgedEntry {
                id: record.hash,
                is_capability: record.op.is_none(),
                envelope: record.op.clone().map(|op| {
                    CommandEnvelope::compose(self.namespace, record.actor, &record.presented, op)
                }),
                authorized: true,
                definition_fault: None,
            })
            .collect()
    }

    fn view(&self, materializer: &MusicMaterializer) -> MusicView {
        let commands = materializer.commands(&self.judged(0), bounds());
        materialize_commands(&self.history(), &commands, Some(&twelve_tet()))
    }

    fn root(&self) -> BTreeSet<EntryHash> {
        self.records.iter().map(|record| record.hash).collect()
    }
}

#[test]
fn repair_alpn_names_the_exact_hhhs_wire_generation() {
    assert!(REPAIR_ALPN.windows(9).any(|window| window == b"/repair-2"));
    assert!(REPAIR_ALPN.ends_with(b"/vocabulary-1"));
}

#[test]
fn standalone_replica_authors_and_materializes_music() {
    let key = SigningKey::from_bytes(&[1; 32]);
    let owner = ActorId::from_signing_key(&key);
    let namespace = digest_of(b"independent tutti music object");
    let mut peer = Peer::new(namespace);
    let root = peer.write(owner, &[], None);
    let authored = author(
        namespace,
        &key,
        &[root],
        MusicOp::AddDegree { degree: degree(4) },
    );
    assert_eq!(authored.envelope.actor(), owner);
    assert_eq!(authored.area, notes_area(namespace));
    peer.write(owner, &[root], Some(authored.envelope.command().clone()));
    assert_eq!(peer.view(&MusicMaterializer::new(root)).live, set(&[4]));
}

#[test]
fn open_session_replica_keeps_crdt_semantics_without_per_entry_proofs() {
    let namespace = digest_of(b"authenticated channel open music object");
    let actor = ActorId::from_bytes([0x51; 32]);
    let mut peer = Peer::new(namespace);
    let projection = MusicMaterializer::open_session(namespace);
    let initial = projection.project(
        &peer.history(),
        &peer.judged(0),
        bounds(),
        Some(&twelve_tet()),
    );

    let added_op = author_open(namespace, actor, MusicOp::AddDegree { degree: degree(5) });
    peer.write(actor, &[], Some(added_op.envelope.command().clone()));
    let added = advance(&projection, &peer, initial, 0);
    let added_view = added.view_music(true);
    assert_eq!(added_view.live, set(&[5]));
    assert_eq!(added_view.holders.get(&degree(5)), Some(&actors(&[actor])));

    peer.write(actor, &[], Some(MusicOp::RemoveDegree { degree: degree(5) }));
    let removed = advance(&projection, &peer, added, 1);
    let rebuilt = projection.project(
        &peer.history(),
        &peer.judged(0),
        bounds(),
        Some(&twelve_tet()),
    );
    assert!(removed.view_music(true).live.is_empty());
    assert_eq!(removed, rebuilt);
}

/// Brings a state up to date with the entries from `from` on.
fn advance(
    projection: &MusicMaterializer,
    peer: &Peer,
    mut state: FoldState,
    from: usize,
) -> FoldState {
    match projection.plan_update(true, true, &peer.judged(from), bounds()) {
        UpdatePlan::Advance(commands) => {
            state.apply_commands(&peer.history(), Some(&twelve_tet()), &commands);
            state
        }
        UpdatePlan::Rebuild => panic!("ordinary commands advance the state"),
    }
}

fn json_bytes(bytes: &[u8]) -> String {
    serde_json::to_string(bytes).unwrap()
}

/// The JSON of a settings command.
fn settings_json(envelope: &CommandEnvelope) -> Vec<u8> {
    let MusicOp::SetRoundTable { config } = envelope.command() else {
        panic!("only settings are written here");
    };
    assert!(envelope.presented_raw().is_empty());
    let [low, high] = config.pattern.words();
    let settings = format!(
        "{{\"pitch_mode\":\"{:?}\",\"pattern\":{{\"words\":[{low},{high}]}},\
         \"center_millihz\":{},\"scale\":\"{:?}\",\"spread_semitones\":{},\
         \"level_per_mille\":{},\"pulse_ms\":{},\"gap_ms\":{}}}",
        config.pitch_mode,
        config.center_millihz,
        config.scale,
        config.spread_semitones,
        config.level_per_mille,
        config.pulse_ms,
        config.gap_ms
    );
    format!(
        "{{\"generation\":{},\"namespace\":{},\"actor\":{},\"presented\":[],\
         \"command\":{{\"SetRoundTable\":{{\"config\":{settings}}}}}}}",
        envelope.generation(),
        json_bytes(envelope.namespace().as_bytes()),
        json_bytes(envelope.actor().as_bytes()),
    )
    .into_bytes()
}

fn read_hash(value: &serde_json::Value) -> Option<[u8; 32]> {
    let bytes: Vec<u8> = value
        .as_array()?
        .iter()
        .map(|byte| byte.as_u64().unwrap() as u8)
        .collect();
    bytes.try_into().ok()
}

/// The settings command of JSON.
fn read_settings(json: &[u8]) -> Option<CommandEnvelope> {
    let value: serde_json::Value = serde_json::from_slice(json).ok()?;
    let config = value.get("command")?.get("SetRoundTable")?.get("config")?;
    let number = |name: &str| config.get(name).and_then(|field| field.as_u64());
    let words = config.get("pattern")?.get("words")?.as_array()?;
    let pitch_mode = [RoundTablePitchMode::Ascending, RoundTablePitchMode::Random]
        .into_iter()
        .find(|mode| config.get("pitch_mode").unwrap() == &format!("{mode:?}"))?;
    let scale = RoundTableScale::ALL
        .into_iter()
        .find(|scale| config.get("scale").unwrap() == &format!("{scale:?}"))?;
    Some(CommandEnvelope::from_parts(
        value.get("generation")?.as_u64()? as u32,
        Digest::from_bytes(read_hash(value.get("namespace")?)?),
        ActorId::from_bytes(read_hash(value.get("actor")?)?),
        Vec::new(),
        MusicOp::SetRoundTable {
            config: RoundTableConfig {
                pitch_mode,
                pattern: RoundTablePattern::from_words([words[0].as_u64()?, words[1].as_u64()?]),
                center_millihz: number("center_millihz")? as u32,
                scale,
                spread_semitones: number("spread_semitones")? as u8,
                level_per_mille: number("level_per_mille")? as u16,
                pulse_ms: number("pulse_ms")? as u16,
                gap_ms: number("gap_ms")? as u16,
            },
        },
    ))
}

#[test]
fn round_table_command_encoding_never_authors_a_second_pitch_set() {
    let namespace = digest_of(b"round-table settings have one pitch authority");
    let actor = ActorId::from_bytes([0x66; 32]);
    let mut config = RoundTableConfig::default();
    config.pattern = config.pattern.toggled(60).unwrap().toggled(64).unwrap();
    config.center_millihz = 96_000;

    let envelope =
        CommandEnvelope::compose(namespace, actor, &[], MusicOp::SetRoundTable { config });
    let encoded = encode_command(&settings_json(&envelope)).unwrap();
    let read = read_settings(strip_domain(&encoded).unwrap()).unwrap();
    let written = settings_json(&read);
    let decoded = decode_command(&encoded, Some((read, written))).unwrap();
    assert_eq!(decoded, envelope);
    let MusicOp::SetRoundTable { config: stored } = decoded.command() else {
        panic!("round-table command changed variant");
    };
    assert!(stored.pattern.is_empty());
    assert_eq!(stored.center_millihz, 96_000);
}

#[test]
fn authority_profiles_refuse_implicit_downgrades() {
    let namespace = digest_of(b"no implicit music authority downgrade");
    let actor = ActorId::from_bytes([0x61; 32]);
    let grant = delegation_grant(namespace, entry_of(b"absent parent"), actor, actor);
    assert_eq!(
        validate(
            &MusicAdmissionPolicy::open_session(namespace),
            &Payload::Capability(CapabilityOp::Grant(grant)),
            &AdmittedAuthority::Open,
        ),
        Err("capability operation is disabled for open-session music".to_string())
    );

    let key = SigningKey::from_bytes(&[0x62; 32]);
    let owner = ActorId::from_signing_key(&key);
    let envelope = CommandEnvelope::compose(
        namespace,
        owner,
        &[],
        MusicOp::AddDegree { degree: degree(1) },
    );
    assert_eq!(
        validate(
            &MusicAdmissionPolicy::new(namespace),
            &Payload::Command(envelope),
            &AdmittedAuthority::Open,
        ),
        Err("music commands require a verified capability presentation".to_string())
    );
}

fn validate(
    policy: &MusicAdmissionPolicy,
    payload: &Payload,
    authority: &AdmittedAuthority,
) -> Result<(), String> {
    policy.validate(
        payload,
        &entry_of(b"entry"),
        &History::new(),
        &SortedMap::new(),
        authority,
        bounds(),
        None,
    )
}

#[test]
fn federated_materializer_accepts_explicitly_trusted_peer_roots() {
    let first = ActorId::from_signing_key(&SigningKey::from_bytes(&[31; 32]));
    let second = ActorId::from_signing_key(&SigningKey::from_bytes(&[32; 32]));
    let namespace = digest_of(b"federated embedded music room");
    let mut peer = Peer::new(namespace);
    let first_root = peer.write(first, &[], None);
    let second_root = peer.write(second, &[], None);
    peer.write(
        first,
        &[first_root],
        Some(MusicOp::AddDegree { degree: degree(2) }),
    );
    peer.write(
        second,
        &[second_root],
        Some(MusicOp::AddDegree { degree: degree(9) }),
    );

    let projection = MusicMaterializer::from_roots(&[second_root, first_root, second_root]);
    assert_eq!(
        projection.roots(),
        &[first_root.min(second_root), first_root.max(second_root)]
    );
    assert_eq!(peer.view(&projection).live, set(&[2, 9]));
}

#[test]
fn projection_checkpoint_incrementally_tracks_note_on_and_off() {
    let owner = ActorId::from_signing_key(&SigningKey::from_bytes(&[41; 32]));
    let namespace = digest_of(b"incremental tutti materializer");
    let mut peer = Peer::new(namespace);
    let root = peer.write(owner, &[], None);
    let projection = MusicMaterializer::new(root);
    let initial = projection.project(
        &peer.history(),
        &peer.judged(0),
        bounds(),
        Some(&twelve_tet()),
    );
    peer.write(
        owner,
        &[root],
        Some(MusicOp::AddDegree { degree: degree(7) }),
    );
    let added = advance(&projection, &peer, initial, 1);
    assert_eq!(added.view_music(true).live, set(&[7]));
    peer.write(
        owner,
        &[root],
        Some(MusicOp::RemoveDegree { degree: degree(7) }),
    );
    let incremental = advance(&projection, &peer, added, 2);
    let rebuilt = projection.project(
        &peer.history(),
        &peer.judged(0),
        bounds(),
        Some(&twelve_tet()),
    );
    assert!(incremental.view_music(true).live.is_empty());
    assert_eq!(incremental, rebuilt);
}

#[test]
fn typed_delegation_authorizes_the_receiver_without_an_acl() {
    let owner = ActorId::from_signing_key(&SigningKey::from_bytes(&[1; 32]));
    let member = ActorId::from_signing_key(&SigningKey::from_bytes(&[2; 32]));
    let namespace = digest_of(b"delegated tutti music object");
    let mut peer = Peer::new(namespace);
    let root = peer.write(owner, &[], None);
    let grant = delegation_grant(namespace, root, owner, member);
    let presentation = Presentation {
        receiver: owner.receiver(),
        presented: vec![root],
        area: Area::root(namespace),
        right: Right::Invoke,
    };
    assert_eq!(
        validate(
            &MusicAdmissionPolicy::capabilities(namespace),
            &Payload::Capability(CapabilityOp::Grant(grant)),
            &AdmittedAuthority::Presented(presentation),
        ),
        Ok(())
    );
    let grant_entry = peer.write(owner, &[], None);
    peer.write(
        member,
        &[grant_entry],
        Some(MusicOp::AddDegree { degree: degree(7) }),
    );
    let view = peer.view(&MusicMaterializer::new(root));
    assert_eq!(view.live, set(&[7]));
    assert_eq!(view.holders.get(&degree(7)), Some(&actors(&[member])));
}

/// The fold in which every command is compared with every other.
fn resolve_reference<T: Clone>(history: &History, values: &[(EntryHash, T)]) -> Option<T> {
    let winner = values
        .iter()
        .map(|(id, _)| *id)
        .filter(|candidate| {
            !values
                .iter()
                .any(|(other, _)| history.is_ancestor(candidate, other))
        })
        .max()?;
    values
        .iter()
        .find(|(id, _)| *id == winner)
        .map(|(_, value)| value.clone())
}

/// The members that some add leaves live, each with those whose adds do, every
/// command compared with every other.
fn holders_by_comparison<K: Copy + Ord + Ordered>(
    history: &History,
    commands: &[Command],
    added: impl Fn(&MusicOp) -> Option<K>,
    removed: impl Fn(&MusicOp) -> Option<K>,
) -> BTreeMap<K, BTreeSet<ActorId>> {
    let mut holders: BTreeMap<K, BTreeSet<ActorId>> = BTreeMap::new();
    for command in commands {
        let Some(member) = added(&command.op) else {
            continue;
        };
        let killed = commands.iter().any(|other| {
            removed(&other.op) == Some(member) && history.is_ancestor(&command.id, &other.id)
        });
        if !killed {
            holders.entry(member).or_default().insert(command.actor);
        }
    }
    holders
}

fn keys<K: Copy + Ordered, V>(map: &BTreeMap<K, V>) -> SortedSet<K> {
    let mut set = SortedSet::new();
    for key in map.keys() {
        set.insert(*key);
    }
    set
}

fn sorted_holders<K: Copy + Ordered>(
    holders: &BTreeMap<K, BTreeSet<ActorId>>,
) -> SortedMap<K, SortedSet<ActorId>> {
    let mut map = SortedMap::new();
    for (member, who) in holders {
        let who: Vec<ActorId> = who.iter().copied().collect();
        map.insert(*member, actors(&who));
    }
    map
}

/// The whole view, every command compared with every other.
fn materialize_reference(
    history: &History,
    commands: &[Command],
    active: Option<&Tuning>,
) -> MusicView {
    let mut tunings = Vec::new();
    let mut settings = Vec::new();
    let mut slots: BTreeMap<TunedDegree, Vec<(EntryHash, Envelope)>> = BTreeMap::new();
    for command in commands {
        match &command.op {
            MusicOp::SetTuning { definition } => tunings.push((command.id, definition.clone())),
            MusicOp::SetRoundTable { config } => {
                settings.push((command.id, round_table_settings(*config)));
            }
            MusicOp::SetEnvelope { degree, env } => {
                if active.map_or(false, |tuning| tuning.has(*degree)) {
                    slots
                        .entry(*degree)
                        .or_default()
                        .push((command.id, env.clone()));
                }
            }
            _ => {}
        }
    }
    let tuning = resolve_reference(history, &tunings);
    let round_table = resolve_reference(history, &settings).unwrap_or_default();
    let Some(active) = active else {
        return MusicView {
            tuning,
            round_table,
            ..MusicView::default()
        };
    };
    let degrees = holders_by_comparison(
        history,
        commands,
        |op| match op {
            MusicOp::AddDegree { degree } if active.has(*degree) => Some(*degree),
            _ => None,
        },
        |op| match op {
            MusicOp::RemoveDegree { degree } => Some(*degree),
            _ => None,
        },
    );
    let pitches = holders_by_comparison(
        history,
        commands,
        |op| match op {
            MusicOp::AddPitch { pitch } if active.has(pitch.degree()) => Some(*pitch),
            _ => None,
        },
        |op| match op {
            MusicOp::RemovePitch { pitch } => Some(*pitch),
            _ => None,
        },
    );
    let mut envelopes = SortedMap::new();
    for (degree, values) in &slots {
        if let Some(env) = resolve_reference(history, values) {
            envelopes.insert(*degree, env);
        }
    }
    MusicView {
        live: keys(&degrees),
        holders: sorted_holders(&degrees),
        live_pitches: keys(&pitches),
        pitch_holders: sorted_holders(&pitches),
        envelopes,
        tuning,
        round_table,
        shared_pitches: SharedPitchSet {
            pitch_classes: keys(&degrees),
            pitches: keys(&pitches),
        },
    }
}

#[test]
fn sparse_fold_matches_reference_for_linear_history() {
    let owner = ActorId::from_signing_key(&SigningKey::from_bytes(&[3; 32]));
    let namespace = digest_of(b"linear music fold equivalence");
    let mut peer = Peer::new(namespace);
    let root = peer.write(owner, &[], None);
    for index in 0..48 {
        let degree = degree((index / 2) % 12);
        let command = if index % 2 == 0 {
            MusicOp::AddDegree { degree }
        } else {
            MusicOp::RemoveDegree { degree }
        };
        peer.write(owner, &[root], Some(command));
    }
    let history = peer.history();
    let commands = MusicMaterializer::new(root).commands(&peer.judged(0), bounds());
    assert_eq!(commands.len(), 48);
    let view = materialize_commands(&history, &commands, Some(&twelve_tet()));
    assert_eq!(
        view,
        materialize_reference(&history, &commands, Some(&twelve_tet()))
    );
}

#[test]
fn sparse_fold_matches_reference_across_concurrent_add_remove_and_registers() {
    let hashes: Vec<EntryHash> = (0..6u8).map(|byte| entry_of(&[byte])).collect();
    let (root, left_add, left_remove, right_add, left_envelope, right_envelope) = (
        hashes[0], hashes[1], hashes[2], hashes[3], hashes[4], hashes[5],
    );
    let mut history = History::new();
    history.append(root, &[]).unwrap();
    history.append(left_add, &[root]).unwrap();
    history.append(left_remove, &[left_add]).unwrap();
    history.append(right_add, &[root]).unwrap();
    history.append(left_envelope, &[left_add]).unwrap();
    history.append(right_envelope, &[right_add]).unwrap();
    let degree = degree(7);
    let left_actor = ActorId::from_bytes([4; 32]);
    let right_actor = ActorId::from_bytes([5; 32]);
    let envelope = |points: &[(u16, u8)]| Envelope {
        points: points.to_vec(),
        interp: Interp::Linear,
    };
    let commands = vec![
        Command {
            id: left_add,
            actor: left_actor,
            op: MusicOp::AddDegree { degree },
        },
        Command {
            id: left_remove,
            actor: left_actor,
            op: MusicOp::RemoveDegree { degree },
        },
        Command {
            id: right_add,
            actor: right_actor,
            op: MusicOp::AddDegree { degree },
        },
        Command {
            id: left_envelope,
            actor: left_actor,
            op: MusicOp::SetEnvelope {
                degree,
                env: envelope(&[(10, 40)]),
            },
        },
        Command {
            id: right_envelope,
            actor: right_actor,
            op: MusicOp::SetEnvelope {
                degree,
                env: envelope(&[(20, 80)]),
            },
        },
    ];
    let sparse = materialize_commands(&history, &commands, Some(&twelve_tet()));
    assert_eq!(
        sparse,
        materialize_reference(&history, &commands, Some(&twelve_tet()))
    );
    assert_eq!(sparse.live, set(&[7]));
    assert_eq!(sparse.holders.get(&degree), Some(&actors(&[right_actor])));
    let winner = if left_envelope > right_envelope {
        envelope(&[(10, 40)])
    } else {
        envelope(&[(20, 80)])
    };
    assert_eq!(sparse.envelopes.get(&degree), Some(&winner));
    assert_eq!(sparse.shared_pitches.pitch_classes, set(&[7]));
}

#[test]
fn open_session_peers_repair_concurrent_music_without_signatures() {
    let namespace = digest_of(b"tutti open-session two-board repair");
    let mut first = Peer::new(namespace);
    let mut second = Peer::new(namespace);
    let first_actor = ActorId::from_bytes([1; 32]);
    let second_actor = ActorId::from_bytes([2; 32]);
    let projection = MusicMaterializer::open_session(namespace);
    first.write(first_actor, &[], Some(MusicOp::AddDegree { degree: degree(2) }));
    second.write(second_actor, &[], Some(MusicOp::AddDegree { degree: degree(9) }));

    second.repair_from(&first);
    first.repair_from(&second);
    assert_eq!(first.view(&projection).live, set(&[2, 9]));
    assert_eq!(second.view(&projection).live, set(&[2, 9]));
    assert_eq!(first.root(), second.root());

    first.write(
        first_actor,
        &[],
        Some(MusicOp::RemoveDegree { degree: degree(2) }),
    );
    second.repair_from(&first);
    assert_eq!(second.view(&projection).live, set(&[9]));
    assert_eq!(first.root(), second.root());
}

#[test]
fn any_peer_can_remove_a_shared_pitch_and_concurrent_add_still_wins() {
    let namespace = digest_of(b"tutti shared pitch cross-peer editing");
    let mut first = Peer::new(namespace);
    let mut second = Peer::new(namespace);
    let first_actor = ActorId::from_bytes([0x21; 32]);
    let second_actor = ActorId::from_bytes([0x22; 32]);
    let projection = MusicMaterializer::open_session(namespace);
    let pitch = TunedPeriodicPitch::new(&twelve_tet(), 7, 0).unwrap();

    first.write(first_actor, &[], Some(MusicOp::AddPitch { pitch }));
    second.repair_from(&first);

    // A removal by another actor observes and clears the first actor's add.
    second.write(second_actor, &[], Some(MusicOp::RemovePitch { pitch }));
    first.repair_from(&second);
    assert!(first.view(&projection).shared_pitches.pitches.is_empty());

    // A genuinely concurrent add is not observed by this remove, so add-wins.
    first.write(first_actor, &[], Some(MusicOp::AddPitch { pitch }));
    second.write(second_actor, &[], Some(MusicOp::RemovePitch { pitch }));
    second.repair_from(&first);
    first.repair_from(&second);
    let mut expected = SortedSet::new();
    expected.insert(pitch);
    assert_eq!(first.view(&projection).shared_pitches.pitches, expected);

    // Once the second peer has observed that add, it can turn the note off.
    second.write(second_actor, &[], Some(MusicOp::RemovePitch { pitch }));
    first.repair_from(&second);
    assert!(first.view(&projection).shared_pitches.pitches.is_empty());
    assert_eq!(first.root(), second.root());
}

#[test]
fn round_table_settings_converge_as_durable_hhhs_state() {
    let namespace = digest_of(b"tutti durable round-table settings");
    let mut first = Peer::new(namespace);
    let mut second = Peer::new(namespace);
    let first_actor = ActorId::from_bytes([0x31; 32]);
    let second_actor = ActorId::from_bytes([0x32; 32]);
    let projection = MusicMaterializer::open_session(namespace);
    let left = RoundTableConfig {
        pitch_mode: RoundTablePitchMode::Random,
        center_millihz: 72_000,
        scale: RoundTableScale::Dorian,
        ..RoundTableConfig::default()
    };
    let mut right_pattern = RoundTableConfig::default().pattern;
    right_pattern = right_pattern.toggled(60).unwrap();
    let right = RoundTableConfig {
        pitch_mode: RoundTablePitchMode::Ascending,
        pattern: right_pattern,
        center_millihz: 96_000,
        spread_semitones: 9,
        ..RoundTableConfig::default()
    };
    first.write(
        first_actor,
        &[],
        Some(MusicOp::SetRoundTable { config: left }),
    );
    second.write(
        second_actor,
        &[],
        Some(MusicOp::SetRoundTable { config: right }),
    );
    second.repair_from(&first);
    first.repair_from(&second);

    let first_view = first.view(&projection);
    let second_view = second.view(&projection);
    assert_eq!(first_view.round_table, second_view.round_table);
    let mut left_settings = left;
    left_settings.pattern = RoundTableConfig::default().pattern.cleared();
    let mut right_settings = right;
    right_settings.pattern = RoundTableConfig::default().pattern.cleared();
    assert!([left_settings, right_settings].contains(&first_view.round_table));
    assert!(first_view.round_table.pattern.is_empty());
    assert_eq!(first.root(), second.root());
    assert_eq!(round_table_settings(left), left_settings);
}

#[test]
fn embedded_bundle_refuses_deeper_closure_above_control_budget() {
    assert_eq!(
        preflight_embedded_capability_bundle(EMBEDDED_CAPABILITY_BUNDLE_BYTES + 1),
        Err(EmbeddedProvisioningError::BundleTooLarge {
            maximum: EMBEDDED_CAPABILITY_BUNDLE_BYTES,
            actual: EMBEDDED_CAPABILITY_BUNDLE_BYTES + 1,
        })
    );
    assert_eq!(preflight_embedded_capability_bundle(1118), Ok(()));
    assert_eq!(
        EmbeddedProvisioningError::BundleTooLarge {
            maximum: 1536,
            actual: 1600
        }
        .message(),
        "capability bundle is 1600 bytes; embedded profile permits 1536"
    );
}

#[test]
fn the_embedded_vocabulary_is_fixed() {
    let vocabulary = MusicVocabularyProfile::embedded_compatible();
    assert_eq!(vocabulary.max_replica_record_bytes, 1456);
    assert_eq!(vocabulary.generation, 1);
}

#[test]
fn only_the_bound_receiver_can_prove_possession() {
    let namespace = digest_of(b"possession");
    let key = SigningKey::from_bytes(&[0x72; 32]);
    let leaf = ActorId::from_signing_key(&key);
    let selected = [entry_of(b"leaf")];
    let authored =
        prove_embedded_capability_possession(namespace, &leaf.receiver(), &selected, &key).unwrap();
    assert_eq!(authored.area, performance_area(namespace));
    assert_eq!(authored.envelope.presented_raw(), &selected);
    assert!(matches!(
        authored.envelope.command(),
        MusicOp::SetRoundTable { .. }
    ));
    let wrong = SigningKey::from_bytes(&[0x73; 32]);
    assert_eq!(
        prove_embedded_capability_possession(namespace, &leaf.receiver(), &selected, &wrong).err(),
        Some(EmbeddedProvisioningError::ReceiverMismatch)
    );
    assert!(possession_probe(namespace, leaf.as_bytes(), &selected, leaf).is_ok());
}

#[test]
fn every_selected_leaf_has_to_be_available() {
    let (a, b) = (entry_of(b"a"), entry_of(b"b"));
    assert_eq!(require_selected_leaves(&[a, b], &[b, a]), Ok(()));
    assert_eq!(
        require_selected_leaves(&[a, b], &[a]),
        Err(EmbeddedProvisioningError::SelectedLeafUnavailable(b))
    );
}

#[test]
fn actors_are_spelled_in_hexadecimal() {
    let mut bytes = [0u8; 32];
    bytes[0] = 0x0a;
    bytes[31] = 0xf9;
    let spelled = ActorId::from_bytes(bytes).to_hex();
    assert_eq!(spelled.len(), 64);
    assert!(spelled.starts_with("0a00"));
    assert!(spelled.ends_with("00f9"));
}

#[test]
fn commands_have_one_framing() {
    let namespace = digest_of(b"framing");
    let actor = ActorId::from_bytes([1; 32]);
    let envelope = |generation| {
        CommandEnvelope::from_parts(
            generation,
            namespace,
            actor,
            vec![],
            MusicOp::AddDegree { degree: degree(1) },
        )
    };
    let json = b"{}".to_vec();
    let framed = encode_command(&json).unwrap();
    assert_eq!(&framed[..23], b"tutti music command v8\0");
    assert_eq!(&COMMAND_DOMAIN, b"tutti music command v8\0");
    assert_eq!(strip_domain(&framed).unwrap(), b"{}");
    let accepted = decode_command(&framed, Some((envelope(PROTOCOL_GENERATION), json.clone())));
    assert_eq!(accepted.unwrap().generation(), 8);
    assert_eq!(
        decode_command(&framed, None).err(),
        Some(CommandCodecError::Malformed)
    );
    assert_eq!(
        decode_command(&framed, Some((envelope(7), json.clone()))).err(),
        Some(CommandCodecError::UnsupportedGeneration(7))
    );
    assert_eq!(
        decode_command(&framed, Some((envelope(8), b"{ }".to_vec()))).err(),
        Some(CommandCodecError::NonCanonical)
    );
    assert_eq!(
        strip_domain(b"tutti music command v7\0{}"),
        Err(CommandCodecError::WrongDomain)
    );
    assert_eq!(
        encode_command(&vec![b' '; 1024 * 1024]),
        Err(CommandCodecError::TooLarge(1024 * 1024 + 23))
    );
    assert_eq!(
        CommandCodecError::TooLarge(5).message(),
        "command is too large: 5 bytes"
    );
    assert_eq!(
        CommandCodecError::UnsupportedGeneration(7).message(),
        "unsupported command generation 7"
    );
}

#[test]
fn presented_grants_are_few_and_distinct() {
    let namespace = digest_of(b"presented");
    let actor = ActorId::from_bytes([1; 32]);
    let presenting = |ids: &[EntryHash]| {
        CommandEnvelope::compose(
            namespace,
            actor,
            ids,
            MusicOp::AddDegree { degree: degree(1) },
        )
    };
    let (a, b) = (entry_of(b"a"), entry_of(b"b"));
    assert_eq!(presenting(&[a, b]).presented(2), Ok(vec![a, b]));
    assert_eq!(
        presenting(&[a, b]).presented(1),
        Err(PresentedError::TooMany)
    );
    assert_eq!(
        presenting(&[a, a]).presented(2),
        Err(PresentedError::Repeated)
    );
    assert_eq!(presenting(&[]).presented(2), Ok(vec![]));
    assert_eq!(
        presenting(&[]).capability_ids(2),
        Err(PresentedError::Empty)
    );
    assert_eq!(
        PresentedError::Empty.message(),
        "capability-authorized command presents no grants"
    );
    let question = authorization_question(&presenting(&[a]), b, 4).unwrap();
    assert_eq!(question.receiver, actor.receiver());
    assert_eq!(question.area, notes_area(namespace));
    assert_eq!(question.at, b);
    assert!(authorization_question(&presenting(&[]), b, 4).is_none());
}

#[test]
fn areas_follow_the_kind_of_command() {
    let namespace = digest_of(b"areas");
    let authored = author_open(
        namespace,
        ActorId::from_bytes([1; 32]),
        MusicOp::SetTuning {
            definition: TuningDefinition {
                scl: "s".to_string(),
                kbm: None,
            },
        },
    );
    assert_eq!(authored.area, tuning_area(namespace));
    assert_eq!(
        authored.area.path,
        [b"music".to_vec(), b"tuning".to_vec()]
    );
    assert!(authored.area.same(&tuning_area(namespace)));
    assert!(!authored.area.same(&Area::root(namespace)));
}

#[test]
fn root_grants_are_the_owners_alone() {
    let namespace = digest_of(b"roots");
    let owner = ActorId::from_bytes([9; 32]);
    let policy = MusicAdmissionPolicy::capabilities(namespace);
    assert_eq!(policy.authority(), MusicAuthority::Capabilities);
    assert_eq!(
        validate(
            &policy,
            &Payload::Capability(CapabilityOp::Grant(root_grant(namespace, owner))),
            &AdmittedAuthority::TrustedRoot,
        ),
        Ok(())
    );
    let mut narrow = root_grant(namespace, owner);
    narrow.rights = Rights::Invoke;
    assert_eq!(
        validate(
            &policy,
            &Payload::Capability(CapabilityOp::Grant(narrow)),
            &AdmittedAuthority::TrustedRoot,
        ),
        Err("invalid music Replica top-level capability grant".to_string())
    );
}

fn presentation(receiver: ActorId, presented: &[EntryHash], area: Area) -> AdmittedAuthority {
    AdmittedAuthority::Presented(Presentation {
        receiver: receiver.receiver(),
        presented: presented.to_vec(),
        area,
        right: Right::Invoke,
    })
}

#[test]
fn delegations_need_their_parent() {
    let namespace = digest_of(b"delegations");
    let (owner, member) = (ActorId::from_bytes([1; 32]), ActorId::from_bytes([2; 32]));
    let policy = MusicAdmissionPolicy::capabilities(namespace);
    let root = entry_of(b"root");
    let grant = |parent: Option<EntryHash>| {
        let mut grant = delegation_grant(namespace, root, owner, member);
        grant.parent = parent;
        Payload::Capability(CapabilityOp::Grant(grant))
    };
    let authority = presentation(owner, &[root], Area::root(namespace));
    assert_eq!(validate(&policy, &grant(Some(root)), &authority), Ok(()));
    assert_eq!(
        validate(&policy, &grant(None), &authority),
        Err("delegation is missing its parent".to_string())
    );
    assert_eq!(
        validate(&policy, &grant(Some(entry_of(b"other"))), &authority),
        Err("invalid music capability delegation".to_string())
    );
    assert_eq!(
        validate(&policy, &grant(Some(root)), &AdmittedAuthority::Open),
        Err("capability operation used the wrong authority path".to_string())
    );
}

#[test]
fn revocations_need_an_observed_grant_of_the_revokers() {
    let namespace = digest_of(b"revocations");
    let (owner, member) = (ActorId::from_bytes([1; 32]), ActorId::from_bytes([2; 32]));
    let policy = MusicAdmissionPolicy::capabilities(namespace);
    let (root, granted, revoking, other) = (
        entry_of(b"root"),
        entry_of(b"granted"),
        entry_of(b"revoking"),
        entry_of(b"other"),
    );
    let mut history = History::new();
    history.append(root, &[]).unwrap();
    history.append(granted, &[root]).unwrap();
    history.append(other, &[root]).unwrap();
    history.append(revoking, &[granted]).unwrap();
    let mut grants: SortedMap<EntryHash, Grant> = SortedMap::new();
    grants.insert(granted, delegation_grant(namespace, root, owner, member));
    grants.insert(other, delegation_grant(namespace, root, owner, member));
    let judge = |revoker: ActorId, target: EntryHash, presenter: ActorId| {
        policy.validate(
            &Payload::Capability(CapabilityOp::Revoke(Revoke {
                revoker: revoker.receiver(),
                target,
            })),
            &revoking,
            &history,
            &grants,
            &presentation(presenter, &[root], Area::root(namespace)),
            bounds(),
            None,
        )
    };
    assert_eq!(judge(owner, granted, owner), Ok(()));
    assert_eq!(judge(member, granted, member), Ok(()));
    assert_eq!(
        judge(owner, granted, member),
        Err("revoker does not equal proof receiver".to_string())
    );
    assert_eq!(
        judge(owner, entry_of(b"absent"), owner),
        Err("revocation target is missing".to_string())
    );
    assert_eq!(
        judge(owner, root, owner),
        Err("revocation target is not a grant".to_string())
    );
    assert_eq!(
        judge(owner, other, owner),
        Err("invalid music capability revocation".to_string())
    );
}

#[test]
fn commands_need_the_presentation_that_they_name() {
    let namespace = digest_of(b"commands");
    let actor = ActorId::from_bytes([1; 32]);
    let policy = MusicAdmissionPolicy::capabilities(namespace);
    let grant = entry_of(b"grant");
    let command = |presented: &[EntryHash]| {
        Payload::Command(CommandEnvelope::compose(
            namespace,
            actor,
            presented,
            MusicOp::AddDegree { degree: degree(1) },
        ))
    };
    let authority = presentation(actor, &[grant], notes_area(namespace));
    assert_eq!(validate(&policy, &command(&[grant]), &authority), Ok(()));
    assert_eq!(
        validate(&policy, &command(&[]), &authority),
        Err("capability-authorized command presents no grants".to_string())
    );
    let mismatch = Err("music command presentation does not match its envelope".to_string());
    assert_eq!(
        validate(&policy, &command(&[entry_of(b"x")]), &authority),
        mismatch
    );
    assert_eq!(
        validate(
            &policy,
            &command(&[grant]),
            &presentation(actor, &[grant], tuning_area(namespace)),
        ),
        mismatch
    );
    assert_eq!(
        validate(
            &MusicAdmissionPolicy::capabilities(digest_of(b"elsewhere")),
            &command(&[grant]),
            &authority,
        ),
        Err("command namespace does not match this Replica".to_string())
    );
    let open = MusicAdmissionPolicy::open_session(namespace);
    assert_eq!(
        validate(&open, &command(&[]), &AdmittedAuthority::Open),
        Ok(())
    );
    assert_eq!(
        validate(&open, &command(&[grant]), &AdmittedAuthority::Open),
        Err("open-session command must not present capability grants".to_string())
    );
    assert_eq!(
        validate(&open, &command(&[]), &authority),
        Err("open-session music requires HHHS open authority".to_string())
    );
    assert_eq!(
        validate(
            &open,
            &Payload::Malformed("command JSON is malformed".to_string()),
            &AdmittedAuthority::Open,
        ),
        Err("command JSON is malformed".to_string())
    );
}

#[test]
fn updates_are_rebuilt_when_an_entry_can_change_the_rest() {
    let namespace = digest_of(b"updates");
    let actor = ActorId::from_bytes([1; 32]);
    let entry = |is_capability: bool, op: Option<MusicOp>| JudgedEntry {
        id: entry_of(b"e"),
        is_capability,
        envelope: op.map(|op| CommandEnvelope::compose(namespace, actor, &[], op)),
        authorized: true,
        definition_fault: None,
    };
    let add = || MusicOp::AddDegree { degree: degree(1) };
    let open = MusicMaterializer::open_session(namespace);
    let rebuilds = |incremental: bool, prior: bool, entry: JudgedEntry| {
        matches!(
            open.plan_update(incremental, prior, &vec![entry], bounds()),
            UpdatePlan::Rebuild
        )
    };
    assert!(!rebuilds(true, true, entry(false, Some(add()))));
    assert!(rebuilds(false, true, entry(false, Some(add()))));
    assert!(rebuilds(true, false, entry(false, Some(add()))));
    assert!(rebuilds(true, true, entry(false, None)));
    let tuning = MusicOp::SetTuning {
        definition: TuningDefinition {
            scl: "s".to_string(),
            kbm: None,
        },
    };
    assert!(rebuilds(true, true, entry(false, Some(tuning))));
    let capabilities = MusicMaterializer::new(entry_of(b"root"));
    assert!(matches!(
        capabilities.plan_update(
            true,
            true,
            &vec![entry(true, Some(add()))],
            bounds()
        ),
        UpdatePlan::Rebuild
    ));
}

#[test]
fn projections_are_named_by_the_digest_of_their_authority() {
    let namespace = digest_of(b"n");
    let open = MusicMaterializer::open_session(namespace);
    let mut expected = b"open-session\0".to_vec();
    expected.extend_from_slice(namespace.as_bytes());
    assert_eq!(open.projection_binding(), expected);
    assert!(open.roots().is_empty());
    let root = entry_of(b"r");
    let mut rooted = b"capabilities\0".to_vec();
    rooted.extend_from_slice(root.as_bytes());
    assert_eq!(MusicMaterializer::new(root).projection_binding(), rooted);
    assert_eq!(
        projection_name(&Digest::from_bytes([0xab; 32])),
        format!("tutti/music/{}", "ab".repeat(32))
    );
}

#[test]
fn an_invalid_tuning_silences_the_room() {
    let actor = ActorId::from_bytes([1; 32]);
    let id = entry_of(b"t");
    let mut history = History::new();
    history.append(id, &[]).unwrap();
    let add = entry_of(b"a");
    history.append(add, &[id]).unwrap();
    let set_table = entry_of(b"s");
    history.append(set_table, &[add]).unwrap();
    let mut config = RoundTableConfig::default();
    config.gap_ms = 77;
    let commands = vec![
        Command {
            id,
            actor,
            op: MusicOp::SetTuning {
                definition: TuningDefinition {
                    scl: "broken".to_string(),
                    kbm: None,
                },
            },
        },
        Command {
            id: add,
            actor,
            op: MusicOp::AddDegree { degree: degree(1) },
        },
        Command {
            id: set_table,
            actor,
            op: MusicOp::SetRoundTable { config },
        },
    ];
    assert_eq!(
        fold_tunings(&history, &commands).tuning().unwrap().scl,
        "broken"
    );
    let view = materialize_commands(&history, &commands, None);
    assert_eq!(view, materialize_reference(&history, &commands, None));
    assert!(view.live.is_empty());
    assert_eq!(view.tuning.unwrap().scl, "broken");
    assert_eq!(view.round_table.gap_ms, 77);
    assert!(view.round_table.pattern.is_empty());
    let state = fold_state(&history, &commands, Some(&twelve_tet()));
    assert_eq!(state.view_music(true).live, set(&[1]));
    assert!(MusicView::default().live.is_empty());
}

#[test]
fn a_degree_of_another_tuning_is_not_added() {
    let actor = ActorId::from_bytes([1; 32]);
    let id = entry_of(b"x");
    let mut history = History::new();
    history.append(id, &[]).unwrap();
    let commands = vec![Command {
        id,
        actor,
        op: MusicOp::AddDegree {
            degree: TunedDegree {
                tuning_id: TuningId::from_bytes([9; 32]),
                degree: 1,
            },
        },
    }];
    let view = materialize_commands(&history, &commands, Some(&twelve_tet()));
    assert!(view.live.is_empty());
    assert!(view.tuning.is_none());
}

#[test]
fn histories_answer_ancestry() {
    let hashes: Vec<EntryHash> = (0..5u8).map(|byte| entry_of(&[byte])).collect();
    let mut history = History::new();
    assert!(history.is_empty());
    history.append(hashes[0], &[]).unwrap();
    history.append(hashes[1], &[hashes[0]]).unwrap();
    history.append(hashes[2], &[hashes[0]]).unwrap();
    history.append(hashes[3], &[hashes[1], hashes[2]]).unwrap();
    assert!(history.is_ancestor(&hashes[0], &hashes[3]));
    assert!(history.is_ancestor(&hashes[2], &hashes[3]));
    assert!(!history.is_ancestor(&hashes[1], &hashes[2]));
    assert!(!history.is_ancestor(&hashes[3], &hashes[3]));
    assert!(!history.is_ancestor(&hashes[4], &hashes[3]));
    assert_eq!(
        history.append(hashes[1], &[]),
        Err(HistoryError::Duplicate)
    );
    let stranger = entry_of(b"stranger");
    assert_eq!(
        history.append(hashes[4], &[hashes[0], stranger]),
        Err(HistoryError::MissingParent(stranger))
    );
    assert_eq!(history.len(), 4);
    assert_eq!(history.hash_at(2), hashes[2]);
    assert!(history.contains(&hashes[3]));
}

#[test]
fn repair_runs_until_a_pass_admits_nothing() {
    let (a, b, c) = (entry_of(b"a"), entry_of(b"b"), entry_of(b"c"));
    let mut queue = RepairQueue::new(&[b, a, b, c]);
    assert_eq!(queue.remaining(), &[b, a, c]);
    assert!(queue.absorb(&[a]));
    assert_eq!(queue.remaining(), &[b, c]);
    assert!(!queue.absorb(&[]));
    assert_eq!(queue.remaining(), &[b, c]);
    assert!(!queue.absorb(&[c, b]));
    assert!(queue.remaining().is_empty());
}

#[test]
fn an_update_gives_what_a_rebuild_gives() {
    let key = SigningKey::from_bytes(&[9; 32]);
    let owner = ActorId::from_signing_key(&key);
    let mut peer = Peer::new(digest_of(b"updates and rebuilds"));
    let root = peer.write(owner, &[], None);
    peer.write(owner, &[root], Some(MusicOp::AddDegree { degree: degree(3) }));
    let projection = MusicMaterializer::new(root);
    let tuning = twelve_tet();
    let project = |peer: &Peer| {
        projection.project(&peer.history(), &peer.judged(0), bounds(), Some(&tuning))
    };
    let update = |peer: &Peer, prior: Option<FoldState>, from: usize| {
        projection.update(
            &peer.history(),
            prior,
            Some(&peer.judged(from)),
            &peer.judged(0),
            bounds(),
            Some(&tuning),
        )
    };
    let before = project(&peer);
    peer.write(owner, &[root], Some(MusicOp::AddDegree { degree: degree(7) }));
    let advanced = update(&peer, Some(before), 2);
    assert_eq!(advanced, project(&peer));
    assert_eq!(advanced.view_music(true).live, set(&[3, 7]));

    // Without a prior state, and at a capability, everything is folded anew.
    assert_eq!(update(&peer, None, 2), advanced);
    peer.write(owner, &[root], None);
    peer.write(owner, &[root], Some(MusicOp::RemoveDegree { degree: degree(3) }));
    let rebuilt = update(&peer, Some(advanced), 3);
    assert_eq!(rebuilt, project(&peer));
    assert_eq!(rebuilt.view_music(true).live, set(&[7]));
}

#[test]
fn materializing_reads_what_the_authority_accepts() {
    let key = SigningKey::from_bytes(&[10; 32]);
    let owner = ActorId::from_signing_key(&key);
    let namespace = digest_of(b"materialized rooms");
    let mut peer = Peer::new(namespace);
    let root = peer.write(owner, &[], None);
    peer.write(owner, &[root], Some(MusicOp::AddDegree { degree: degree(2) }));
    peer.write(owner, &[], Some(MusicOp::AddDegree { degree: degree(6) }));
    peer.write(owner, &[root], Some(MusicOp::AddDegree { degree: degree(9) }));
    let tuning = twelve_tet();
    let mut entries = peer.judged(0);
    let all = materialize(&peer.history(), &[root], &entries, bounds(), Some(&tuning));
    assert_eq!(all.live, set(&[2, 9]));
    entries[3].authorized = false;
    let granted = materialize(&peer.history(), &[root], &entries, bounds(), Some(&tuning));
    assert_eq!(granted.live, set(&[2]));

    // An open room takes only commands that present no grant, and only its own.
    let open = materialize_open(&peer.history(), namespace, &entries, bounds(), Some(&tuning));
    assert_eq!(open.live, set(&[6]));
    let other = digest_of(b"another room");
    let foreign = materialize_open(&peer.history(), other, &entries, bounds(), Some(&tuning));
    assert!(foreign.live.is_empty());
}
