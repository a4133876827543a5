//! Authoring commands, and the bounded provisioning of an embedded receiver.

use crate::bytes;
use crate::crypto;
use crate::music::ops::{MusicOp, OpView};
use crate::music::roundtable::RoundTableConfig;
use crate::replica::causal;
use crate::replica::command;
use crate::replica::command::{command_area, Area, CommandEnvelope, CommandEnvelopeView};
use crate::replica::ids::{ActorId, Digest, EntryHash};
use crate::session::identity::SigningKey;
use crate::text;
use vstd::prelude::*;

verus! {

/// Deterministic application vocabulary used by rooms that must remain repairable
/// by the bounded embedded carrier.
pub const EMBEDDED_VOCABULARY_GENERATION: u32 = 1;

/// Maximum complete repair frame supported by the current embedded profile. This
/// is not negotiated into a per-peer admission limit.
pub const EMBEDDED_REPAIR_FRAME_BYTES: usize = 1536;

/// How many bytes of a repair frame are left for one entry record.
pub const EMBEDDED_RECORD_BYTES: usize = 1456;

/// Maximum complete receiver-bound provisioning bundle accepted by the embedded
/// room profile.
pub const EMBEDDED_CAPABILITY_BUNDLE_BYTES: usize = EMBEDDED_REPAIR_FRAME_BYTES;

/// Admission vocabulary bound by a room profile before any music edit.
///
/// Transport negotiation may choose a smaller frame size and consequently refuse
/// to carry the room, but it must never mutate this canonical admission ceiling
/// for one peer. Every replica expected to converge uses the same value.
#[derive(Debug, Clone, Copy, PartialEq, Eq, Structural)]
pub struct MusicVocabularyProfile {
    pub generation: u32,
    pub max_replica_record_bytes: usize,
}

impl MusicVocabularyProfile {
    pub fn embedded_compatible() -> (profile: Self)
        ensures
            profile == (MusicVocabularyProfile {
                generation: EMBEDDED_VOCABULARY_GENERATION,
                max_replica_record_bytes: EMBEDDED_RECORD_BYTES,
            }),
            profile.max_replica_record_bytes < EMBEDDED_REPAIR_FRAME_BYTES,
            profile.generation == 1,
            profile.max_replica_record_bytes == 1456,
    {
        MusicVocabularyProfile {
            generation: EMBEDDED_VOCABULARY_GENERATION,
            max_replica_record_bytes: EMBEDDED_RECORD_BYTES,
        }
    }
}

/// Failure at the bounded capability-provisioning boundary.
#[derive(Debug, Clone, Copy, PartialEq, Eq)]
pub enum EmbeddedProvisioningError {
    BundleTooLarge { maximum: usize, actual: usize },
    /// The bundle is bound to another receiver.
    ReceiverMismatch,
    SelectedLeafUnavailable(EntryHash),
}

impl EmbeddedProvisioningError {
    pub open spec fn text(self) -> Seq<char> {
        match self {
            EmbeddedProvisioningError::BundleTooLarge { maximum, actual } =>
                "capability bundle is "@ + text::decimal(actual as nat)
                    + " bytes; embedded profile permits "@ + text::decimal(maximum as nat),
            EmbeddedProvisioningError::ReceiverMismatch =>
                "the capability bundle is bound to another receiver"@,
            EmbeddedProvisioningError::SelectedLeafUnavailable(leaf) =>
                "selected capability leaf "@ + crate::replica::ids::hex(leaf@)
                    + " is not yet available"@,
        }
    }

    pub fn message(&self) -> (message: String)
        ensures
            message@ == self.text(),
    {
        match self {
            EmbeddedProvisioningError::BundleTooLarge { maximum, actual } => {
                let mut message: String = text::string_of("capability bundle is ");
                text::push_decimal(&mut message, *actual as u64);
                text::push_str(&mut message, " bytes; embedded profile permits ");
                text::push_decimal(&mut message, *maximum as u64);
                message
            },
            EmbeddedProvisioningError::ReceiverMismatch => text::string_of(
                "the capability bundle is bound to another receiver",
            ),
            EmbeddedProvisioningError::SelectedLeafUnavailable(leaf) => {
                let mut message: String = text::string_of("selected capability leaf ");
                let hash: String = crate::replica::ids::hex_of(leaf.as_bytes());
                text::push_str(&mut message, hash.as_str());
                text::push_str(&mut message, " is not yet available");
                message
            },
        }
    }
}

/// Checks the length of a bundle before anything is allocated for it.
pub fn preflight_embedded_capability_bundle(encoded_len: usize) -> (result: Result<
    (),
    EmbeddedProvisioningError,
>)
    ensures
        result == if encoded_len > EMBEDDED_CAPABILITY_BUNDLE_BYTES {
            Err(
                EmbeddedProvisioningError::BundleTooLarge {
                    maximum: EMBEDDED_CAPABILITY_BUNDLE_BYTES,
                    actual: encoded_len,
                },
            )
        } else {
            Ok(())
        },
        result is Ok <==> encoded_len <= 1536,
{
    if encoded_len > EMBEDDED_CAPABILITY_BUNDLE_BYTES {
        return Err(
            EmbeddedProvisioningError::BundleTooLarge {
                maximum: EMBEDDED_CAPABILITY_BUNDLE_BYTES,
                actual: encoded_len,
            },
        );
    }
    Ok(())
}

fn contains(hashes: &[EntryHash], hash: &EntryHash) -> (r: bool)
    ensures
        r == hashes@.contains(*hash),
{
    let mut i: usize = 0;
    while i < hashes.len()
        invariant
            i <= hashes@.len(),
            forall|k: int| 0 <= k < i ==> hashes@[k] != *hash,
        decreases hashes@.len() - i,
    {
        if hashes[i].same(hash) {
            assert(hashes@[i as int] == *hash);
            return true;
        }
        i = i + 1;
    }
    false
}

/// The first selected leaf from `from` on that is not available.
pub open spec fn first_unavailable(
    selected: Seq<EntryHash>,
    available: Seq<EntryHash>,
    from: int,
) -> Option<EntryHash>
    decreases selected.len() - from,
{
    if from >= selected.len() {
        None
    } else if !available.contains(selected[from]) {
        Some(selected[from])
    } else {
        first_unavailable(selected, available, from + 1)
    }
}

/// Requires every selected leaf to be available: a deferred partial import is not
/// authority.
pub fn require_selected_leaves(selected: &[EntryHash], available: &[EntryHash]) -> (result: Result<
    (),
    EmbeddedProvisioningError,
>)
    ensures
        result == match first_unavailable(selected@, available@, 0) {
            Some(leaf) => Err(EmbeddedProvisioningError::SelectedLeafUnavailable(leaf)),
            None => Ok(()),
        },
{
    let mut i: usize = 0;
    while i < selected.len()
        invariant
            i <= selected@.len(),
            first_unavailable(selected@, available@, 0) == first_unavailable(
                selected@,
                available@,
                i as int,
            ),
        decreases selected@.len() - i,
    {
        if !contains(available, &selected[i]) {
            return Err(EmbeddedProvisioningError::SelectedLeafUnavailable(selected[i]));
        }
        i = i + 1;
    }
    Ok(())
}

/// A command ready to be signed: its envelope, and the area of authority that it
/// is exercised over.
#[derive(Debug)]
pub struct AuthoredCommand {
    pub envelope: CommandEnvelope,
    pub area: Area,
}

/// Whether a command was authored from these parts.
pub open spec fn authored_from(
    authored: AuthoredCommand,
    namespace: Digest,
    actor: ActorId,
    presented: Seq<EntryHash>,
    op: OpView,
) -> bool {
    &&& authored.envelope@ == (CommandEnvelopeView {
        generation: command::PROTOCOL_GENERATION,
        namespace,
        actor,
        presented,
        command: command::authored(op),
    })
    &&& authored.area@ == command::area_of(namespace, op)
}

/// Authors a command for an actor that was identified already.
pub fn author_as(
    namespace: Digest,
    actor: ActorId,
    presented: &[EntryHash],
    op: MusicOp,
) -> (authored: AuthoredCommand)
    ensures
        authored_from(authored, namespace, actor, presented@, op@),
{
    let area: Area = command_area(namespace, &op);
    AuthoredCommand { envelope: CommandEnvelope::compose(namespace, actor, presented, op), area }
}

/// Authors a command for the actor that holds a signing key.
pub fn author(
    namespace: Digest,
    key: &SigningKey,
    presented: &[EntryHash],
    op: MusicOp,
) -> (authored: AuthoredCommand)
    ensures
        authored.envelope@.actor@ == crypto::ed25519_public(key@),
        authored_from(authored, namespace, authored.envelope@.actor, presented@, op@),
{
    author_as(namespace, ActorId::from_signing_key(key), presented, op)
}

/// Authors a command under open authority, after the caller's session boundary
/// has authenticated the actor. This performs no public-key operation.
pub fn author_open(namespace: Digest, actor: ActorId, op: MusicOp) -> (authored: AuthoredCommand)
    ensures
        authored_from(authored, namespace, actor, Seq::empty(), op@),
{
    let none: [EntryHash; 0] = [];
    let authored = author_as(namespace, actor, &none, op);
    assert(none@ =~= Seq::empty());
    authored
}

/// Whether an op sets the round-table settings that hold before any were made.
pub open spec fn is_probe(op: OpView) -> bool {
    match op {
        OpView::SetRoundTable(config) => config.is_default(),
        _ => false,
    }
}

/// Whether a command proves possession of selected leaves.
pub open spec fn probes(
    authored: AuthoredCommand,
    namespace: Digest,
    actor: ActorId,
    selected: Seq<EntryHash>,
) -> bool {
    exists|op: OpView|
        is_probe(op) && #[trigger] authored_from(authored, namespace, actor, selected, op)
}

/// The command that an actor prepares, but never commits, to prove that it can
/// exercise the selected leaves of a bundle bound to `expected_receiver`.
pub fn possession_probe(
    namespace: Digest,
    expected_receiver: &[u8],
    selected: &[EntryHash],
    actor: ActorId,
) -> (result: Result<AuthoredCommand, EmbeddedProvisioningError>)
    ensures
        match result {
            Ok(authored) => expected_receiver@ == actor@ && probes(
                authored,
                namespace,
                actor,
                selected@,
            ),
            Err(error) => expected_receiver@ != actor@ && error
                == EmbeddedProvisioningError::ReceiverMismatch,
        },
{
    if !bytes::same_bytes(expected_receiver, actor.as_bytes()) {
        return Err(EmbeddedProvisioningError::ReceiverMismatch);
    }
    let op = MusicOp::SetRoundTable { config: RoundTableConfig::default() };
    let ghost said = op@;
    let authored = author_as(namespace, actor, selected, op);
    assert(is_probe(said) && authored_from(authored, namespace, actor, selected@, said));
    Ok(authored)
}

/// The command with which the holder of a signing key proves that it can exercise
/// the selected leaves of a bundle.
pub fn prove_embedded_capability_possession(
    namespace: Digest,
    expected_receiver: &[u8],
    selected: &[EntryHash],
    key: &SigningKey,
) -> (result: Result<AuthoredCommand, EmbeddedProvisioningError>)
    ensures
        match result {
            Ok(authored) => {
                &&& expected_receiver@ == crypto::ed25519_public(key@)
                &&& authored.envelope@.actor@ == expected_receiver@
                &&& probes(authored, namespace, authored.envelope@.actor, selected@)
            },
            Err(error) => expected_receiver@ != crypto::ed25519_public(key@) && error
                == EmbeddedProvisioningError::ReceiverMismatch,
        },
{
    possession_probe(namespace, expected_receiver, selected, ActorId::from_signing_key(key))
}

/// The probe is one settings command: it carries no pitch and needs authority
/// over the performance alone.
pub proof fn law_probe_is_a_settings_command(
    authored: AuthoredCommand,
    namespace: Digest,
    actor: ActorId,
    presented: Seq<EntryHash>,
    op: OpView,
)
    requires
        is_probe(op),
        authored_from(authored, namespace, actor, presented, op),
    ensures
        authored.area@ == command::music_part(namespace, command::PERFORMANCE@),
        authored.envelope@.command == OpView::SetRoundTable(
            causal::settings_of(op->SetRoundTable_0),
        ),
{
}

/// The leaf that is named as unavailable is the first of those selected that is, and
/// where none is named all are available.
pub proof fn law_the_first_missing_leaf_is_named(
    selected: Seq<EntryHash>,
    available: Seq<EntryHash>,
    from: int,
)
    requires
        0 <= from <= selected.len(),
    ensures
        match first_unavailable(selected, available, from) {
            Some(leaf) => exists|i: int|
                from <= i < selected.len() && #[trigger] selected[i] == leaf
                    && !available.contains(leaf) && (forall|j: int|
                    from <= j < i ==> available.contains(#[trigger] selected[j])),
            None => forall|i: int|
                from <= i < selected.len() ==> available.contains(#[trigger] selected[i]),
        },
    decreases selected.len() - from,
{
    if from < selected.len() {
        if available.contains(selected[from]) {
            law_the_first_missing_leaf_is_named(selected, available, from + 1);
            if let Some(leaf) = first_unavailable(selected, available, from) {
                let i = choose|i: int|
                    from + 1 <= i < selected.len() && #[trigger] selected[i] == leaf
                        && !available.contains(leaf) && (forall|j: int|
                        from + 1 <= j < i ==> available.contains(#[trigger] selected[j]));
                assert(selected[i] == leaf);
                assert forall|j: int| from <= j < i implies available.contains(
                    #[trigger] selected[j],
                ) by {}
            }
        } else {
            assert(selected[from] == first_unavailable(selected, available, from)->0);
        }
    }
}

/// An authored command says who authored it, for which namespace, with which
/// capabilities, and its op. It is written for the area that the op belongs to.
pub proof fn law_authored_commands_say_their_op(
    authored: AuthoredCommand,
    namespace: Digest,
    actor: ActorId,
    presented: Seq<EntryHash>,
    op: OpView,
)
    requires
        authored_from(authored, namespace, actor, presented, op),
    ensures
        authored.envelope@.generation == 8,
        authored.envelope@.namespace == namespace,
        authored.envelope@.actor == actor,
        authored.envelope@.presented == presented,
        authored.envelope@.command == command::authored(op),
        authored.area@ == command::area_of(namespace, op),
{
}

/// A probe asks for the built-in settings and presents the selected capabilities.
pub proof fn law_probes_present_the_selection(
    authored: AuthoredCommand,
    namespace: Digest,
    actor: ActorId,
    selected: Seq<EntryHash>,
)
    requires
        probes(authored, namespace, actor, selected),
    ensures
        authored.envelope@.namespace == namespace,
        authored.envelope@.actor == actor,
        authored.envelope@.presented == selected,
        exists|config: crate::music::roundtable::RoundTableConfig|
            config.is_default() && #[trigger] command::authored(OpView::SetRoundTable(config))
                == authored.envelope@.command,
{
    let op = choose|op: OpView|
        is_probe(op) && #[trigger] authored_from(authored, namespace, actor, selected, op);
    if let OpView::SetRoundTable(config) = op {
        assert(command::authored(OpView::SetRoundTable(config)) == authored.envelope@.command);
    }
}

/// Every refusal of a provisioning says in words what was wrong.
pub proof fn law_provisioning_refusals_are_worded(maximum: usize, actual: usize, leaf: EntryHash)
    ensures
        (EmbeddedProvisioningError::BundleTooLarge { maximum, actual }).text()
            == "capability bundle is "@ + text::decimal(actual as nat)
            + " bytes; embedded profile permits "@ + text::decimal(maximum as nat),
        EmbeddedProvisioningError::ReceiverMismatch.text()
            == "the capability bundle is bound to another receiver"@,
        EmbeddedProvisioningError::SelectedLeafUnavailable(leaf).text()
            == "selected capability leaf "@ + crate::replica::ids::hex(leaf@)
            + " is not yet available"@,
{
}

} // verus!
