//! What a music replica admits: capability operations on the paths meant for
//! them, and commands with the authority that their mode asks for.

use crate::bytes;
use crate::collections::SortedMap;
use crate::music::ops;
use crate::music::ops::OpLimits;
use crate::replica::command;
use crate::replica::command::{command_area, Area, CommandEnvelope, CommandEnvelopeView};
use crate::replica::history::{History, HistoryView};
use crate::replica::ids::{ActorId, Digest, EntryHash};
use crate::text;
use vstd::prelude::*;

verus! {

/// What may be done in an area.
#[derive(Debug, Clone, Copy, PartialEq, Eq, Structural)]
pub enum Right {
    Invoke,
    Other,
}

/// What a grant gives.
#[derive(Debug, Clone, Copy, PartialEq, Eq, Structural)]
pub enum Rights {
    All,
    Invoke,
    Other,
}

/// A capability: rights over an area, given by an issuer to a receiver, and
/// taken from a parent grant unless it is a root.
#[derive(Debug, PartialEq, Eq)]
pub struct Grant {
    pub issuer: Vec<u8>,
    pub receiver: Vec<u8>,
    pub area: Area,
    pub rights: Rights,
    pub parent: Option<EntryHash>,
}

/// The withdrawal of a grant.
#[derive(Debug, PartialEq, Eq)]
pub struct Revoke {
    pub revoker: Vec<u8>,
    pub target: EntryHash,
}

#[derive(Debug, PartialEq, Eq)]
pub enum CapabilityOp {
    Grant(Grant),
    Revoke(Revoke),
}

/// What a verified presentation of grants shows: who presented which grants, and
/// for what.
#[derive(Debug, PartialEq, Eq)]
pub struct Presentation {
    pub receiver: Vec<u8>,
    pub presented: Vec<EntryHash>,
    pub area: Area,
    pub right: Right,
}

/// The authority with which an entry arrives.
#[derive(Debug)]
pub enum AdmittedAuthority {
    TrustedRoot,
    Presented(Presentation),
    Open,
}

/// What an entry carries, as far as it could be read.
#[derive(Debug)]
pub enum Payload {
    Capability(CapabilityOp),
    Command(CommandEnvelope),
    Malformed(String),
}

/// The authority contract of a music replica.
///
/// This is intentionally explicit and forms part of the protocol profile: peers
/// configured for different modes refuse one another's entries instead of
/// silently downgrading authentication.
#[derive(Debug, Clone, Copy, PartialEq, Eq, Structural)]
pub enum MusicAuthority {
    Capabilities,
    OpenSession,
}

/// The bounds on what is admitted.
#[derive(Debug, Clone, Copy, PartialEq, Eq, Structural)]
pub struct AdmissionBounds {
    pub ops: OpLimits,
    /// How many grants a command may present.
    pub max_presented: usize,
}

/// Admission policy shared by full and music-only replicas.
#[derive(Debug, Clone, Copy)]
pub struct MusicAdmissionPolicy {
    namespace: Digest,
    authority: MusicAuthority,
}

/// What a policy is bound to.
pub struct PolicyView {
    pub namespace: Digest,
    pub authority: MusicAuthority,
}

impl View for MusicAdmissionPolicy {
    type V = PolicyView;

    closed spec fn view(&self) -> PolicyView {
        PolicyView { namespace: self.namespace, authority: self.authority }
    }
}

/// What is wrong with a grant that arrives as a trusted root, if anything.
pub open spec fn root_fault(namespace: Digest, grant: Grant) -> Option<Seq<char>> {
    if grant.parent is Some || grant.issuer@ != grant.receiver@ || grant.area@
        != command::root_of(namespace) || grant.rights != Rights::All || grant.receiver@.len()
        != 32 {
        Some("invalid music Replica top-level capability grant"@)
    } else {
        None
    }
}

/// What is wrong with a grant that arrives with a presentation, if anything.
pub open spec fn delegation_fault(grant: Grant, presentation: Presentation) -> Option<Seq<char>> {
    match grant.parent {
        None => Some("delegation is missing its parent"@),
        Some(parent) => if grant.issuer@ != presentation.receiver@
            || !presentation.presented@.contains(parent) || presentation.area@ != grant.area@
            || presentation.right != Right::Invoke || grant.receiver@.len() != 32 {
            Some("invalid music capability delegation"@)
        } else {
            None
        },
    }
}

/// What is wrong with a revocation, if anything. `held` says whether the history
/// holds the target, `target` the grant that the target is, and `observed`
/// whether the target is in the past of the revocation.
pub open spec fn revocation_fault(
    revoke: Revoke,
    presentation: Presentation,
    held: bool,
    target: Option<Grant>,
    observed: bool,
) -> Option<Seq<char>> {
    if revoke.revoker@ != presentation.receiver@ {
        Some("revoker does not equal proof receiver"@)
    } else if !held {
        Some("revocation target is missing"@)
    } else {
        match target {
            None => Some("revocation target is not a grant"@),
            Some(target) => if (revoke.revoker@ != target.issuer@ && revoke.revoker@
                != target.receiver@) || presentation.area@ != target.area@ || presentation.right
                != Right::Invoke || !observed {
                Some("invalid music capability revocation"@)
            } else {
                None
            },
        }
    }
}

/// A map's value, if it has one.
pub open spec fn found<V>(map: Map<EntryHash, V>, key: EntryHash) -> Option<V> {
    if map.dom().contains(key) {
        Some(map[key])
    } else {
        None
    }
}

impl PolicyView {
    /// What is wrong with a capability operation, if anything.
    pub open spec fn capability_fault(
        self,
        op: CapabilityOp,
        entry: EntryHash,
        history: HistoryView,
        grants: Map<EntryHash, Grant>,
        authority: AdmittedAuthority,
    ) -> Option<Seq<char>> {
        if self.authority != MusicAuthority::Capabilities {
            Some("capability operation is disabled for open-session music"@)
        } else {
            match (op, authority) {
                (CapabilityOp::Grant(grant), AdmittedAuthority::TrustedRoot) => root_fault(
                    self.namespace,
                    grant,
                ),
                (
                    CapabilityOp::Grant(grant),
                    AdmittedAuthority::Presented(presentation),
                ) => delegation_fault(grant, presentation),
                (
                    CapabilityOp::Revoke(revoke),
                    AdmittedAuthority::Presented(presentation),
                ) => revocation_fault(
                    revoke,
                    presentation,
                    history.contains(revoke.target),
                    found(grants, revoke.target),
                    history.past(revoke.target, entry),
                ),
                _ => Some("capability operation used the wrong authority path"@),
            }
        }
    }

    /// What is wrong with the authority of a command, if anything.
    pub open spec fn authority_fault(
        self,
        envelope: CommandEnvelopeView,
        authority: AdmittedAuthority,
        most: int,
    ) -> Option<Seq<char>> {
        match (self.authority, authority) {
            (MusicAuthority::Capabilities, AdmittedAuthority::Presented(presentation)) => {
                if presentation.receiver@ != envelope.actor@ {
                    Some("music command presentation does not match its envelope"@)
                } else {
                    match command::capability_fault(envelope.presented, most) {
                        Some(fault) => Some(fault.text()),
                        None => if presentation.presented@ != envelope.presented
                            || presentation.area@ != command::area_of(
                            self.namespace,
                            envelope.command,
                        ) || presentation.right != Right::Invoke {
                            Some("music command presentation does not match its envelope"@)
                        } else {
                            None
                        },
                    }
                }
            },
            (MusicAuthority::OpenSession, AdmittedAuthority::Open) => {
                if envelope.presented.len() > 0 {
                    Some("open-session command must not present capability grants"@)
                } else {
                    None
                }
            },
            (MusicAuthority::Capabilities, _) => Some(
                "music commands require a verified capability presentation"@,
            ),
            (MusicAuthority::OpenSession, _) => Some(
                "open-session music requires HHHS open authority"@,
            ),
        }
    }

    /// What is wrong with a command, if anything, `op_fault` being what is wrong
    /// with the op itself.
    pub open spec fn command_fault(
        self,
        envelope: CommandEnvelopeView,
        authority: AdmittedAuthority,
        most: int,
        op_fault: Option<Seq<char>>,
    ) -> Option<Seq<char>> {
        if envelope.namespace != self.namespace {
            Some("command namespace does not match this Replica"@)
        } else {
            match self.authority_fault(envelope, authority, most) {
                Some(fault) => Some(fault),
                None => op_fault,
            }
        }
    }

    /// What is wrong with an entry, if anything.
    pub open spec fn fault(
        self,
        payload: Payload,
        entry: EntryHash,
        history: HistoryView,
        grants: Map<EntryHash, Grant>,
        authority: AdmittedAuthority,
        bounds: AdmissionBounds,
        definition_fault: Option<Seq<char>>,
    ) -> Option<Seq<char>> {
        match payload {
            Payload::Capability(op) => self.capability_fault(
                op,
                entry,
                history,
                grants,
                authority,
            ),
            Payload::Malformed(message) => Some(message@),
            Payload::Command(envelope) => self.command_fault(
                envelope@,
                authority,
                bounds.max_presented as int,
                envelope@.command.fault(bounds.ops, definition_fault),
            ),
        }
    }
}

fn contains_hash(hashes: &Vec<EntryHash>, hash: &EntryHash) -> (r: bool)
    ensures
        r == hashes@.contains(*hash),
{
    let mut i: usize = 0;
    while i < hashes.len()
        invariant
            i <= hashes@.len(),
            forall|k: int| 0 <= k < i ==> hashes@[k] != *hash,
        decreases hashes@.len() - i,
    {
        if hashes[i].same(hash) {
            assert(hashes@[i as int] == *hash);
            return true;
        }
        i = i + 1;
    }
    false
}

fn same_hashes(a: &[EntryHash], b: &[EntryHash]) -> (r: bool)
    ensures
        r == (a@ == b@),
{
    if a.len() != b.len() {
        assert(a.len() == a@.len());
        return false;
    }
    let mut i: usize = 0;
    while i < a.len()
        invariant
            i <= a@.len(),
            a@.len() == b@.len(),
            forall|k: int| 0 <= k < i ==> a@[k] == b@[k],
        decreases a@.len() - i,
    {
        if !a[i].same(&b[i]) {
            assert(a@[i as int] != b@[i as int]);
            return false;
        }
        i = i + 1;
    }
    assert(a@ =~= b@);
    true
}

impl MusicAdmissionPolicy {
    /// Capability-authorized policy retained as the conservative default.
    pub fn new(namespace: Digest) -> (policy: Self)
        ensures
            policy@ == (PolicyView { namespace, authority: MusicAuthority::Capabilities }),
    {
        Self::capabilities(namespace)
    }

    pub fn capabilities(namespace: Digest) -> (policy: Self)
        ensures
            policy@ == (PolicyView { namespace, authority: MusicAuthority::Capabilities }),
    {
        MusicAdmissionPolicy { namespace, authority: MusicAuthority::Capabilities }
    }

    pub fn open_session(namespace: Digest) -> (policy: Self)
        ensures
            policy@ == (PolicyView { namespace, authority: MusicAuthority::OpenSession }),
    {
        MusicAdmissionPolicy { namespace, authority: MusicAuthority::OpenSession }
    }

    pub fn authority(&self) -> (authority: MusicAuthority)
        ensures
            authority == self@.authority,
    {
        self.authority
    }

    fn validate_root(&self, grant: &Grant) -> (result: Result<(), String>)
        ensures
            match result {
                Ok(_) => root_fault(self@.namespace, *grant) is None,
                Err(message) => root_fault(self@.namespace, *grant) == Some(message@),
            },
    {
        if grant.parent.is_some() || !bytes::same_bytes(
            grant.issuer.as_slice(),
            grant.receiver.as_slice(),
        ) || !grant.area.same(&Area::root(self.namespace)) || grant.rights != Rights::All
            || grant.receiver.len() != 32 {
            return Err(text::string_of("invalid music Replica top-level capability grant"));
        }
        Ok(())
    }

    fn validate_delegation(&self, grant: &Grant, presentation: &Presentation) -> (result: Result<
        (),
        String,
    >)
        ensures
            match result {
                Ok(_) => delegation_fault(*grant, *presentation) is None,
                Err(message) => delegation_fault(*grant, *presentation) == Some(message@),
            },
    {
        let parent: EntryHash = match grant.parent {
            Some(parent) => parent,
            None => {
                return Err(text::string_of("delegation is missing its parent"));
            },
        };
        if !bytes::same_bytes(grant.issuer.as_slice(), presentation.receiver.as_slice())
            || !contains_hash(&presentation.presented, &parent) || !presentation.area.same(
            &grant.area,
        ) || presentation.right != Right::Invoke || grant.receiver.len() != 32 {
            return Err(text::string_of("invalid music capability delegation"));
        }
        Ok(())
    }

    fn validate_revocation(
        &self,
        revoke: &Revoke,
        presentation: &Presentation,
        entry: &EntryHash,
        history: &History,
        grants: &SortedMap<EntryHash, Grant>,
    ) -> (result: Result<(), String>)
        ensures
            ({
                let fault = revocation_fault(
                    *revoke,
                    *presentation,
                    history@.contains(revoke.target),
                    found(grants@, revoke.target),
                    history@.past(revoke.target, *entry),
                );
                match result {
                    Ok(_) => fault is None,
                    Err(message) => fault == Some(message@),
                }
            }),
    {
        if !bytes::same_bytes(revoke.revoker.as_slice(), presentation.receiver.as_slice()) {
            return Err(text::string_of("revoker does not equal proof receiver"));
        }
        if !history.contains(&revoke.target) {
            return Err(text::string_of("revocation target is missing"));
        }
        let target: &Grant = match grants.get(&revoke.target) {
            Some(target) => target,
            None => {
                return Err(text::string_of("revocation target is not a grant"));
            },
        };
        if (!bytes::same_bytes(revoke.revoker.as_slice(), target.issuer.as_slice())
            && !bytes::same_bytes(revoke.revoker.as_slice(), target.receiver.as_slice()))
            || !presentation.area.same(&target.area) || presentation.right != Right::Invoke
            || !history.is_ancestor(&revoke.target, entry) {
            return Err(text::string_of("invalid music capability revocation"));
        }
        Ok(())
    }

    /// Validates a capability operation. `grants` are the grants of the history by
    /// the entries that carry them.
    pub fn validate_capability(
        &self,
        op: &CapabilityOp,
        entry: &EntryHash,
        history: &History,
        grants: &SortedMap<EntryHash, Grant>,
        authority: &AdmittedAuthority,
    ) -> (result: Result<(), String>)
        ensures
            ({
                let fault = self@.capability_fault(*op, *entry, history@, grants@, *authority);
                match result {
                    Ok(_) => fault is None,
                    Err(message) => fault == Some(message@),
                }
            }),
    {
        if self.authority != MusicAuthority::Capabilities {
            return Err(
                text::string_of("capability operation is disabled for open-session music"),
            );
        }
        match op {
            CapabilityOp::Grant(grant) => match authority {
                AdmittedAuthority::TrustedRoot => self.validate_root(grant),
                AdmittedAuthority::Presented(presentation) => self.validate_delegation(
                    grant,
                    presentation,
                ),
                AdmittedAuthority::Open => Err(
                    text::string_of("capability operation used the wrong authority path"),
                ),
            },
            CapabilityOp::Revoke(revoke) => match authority {
                AdmittedAuthority::Presented(presentation) => self.validate_revocation(
                    revoke,
                    presentation,
                    entry,
                    history,
                    grants,
                ),
                AdmittedAuthority::TrustedRoot => Err(
                    text::string_of("capability operation used the wrong authority path"),
                ),
                AdmittedAuthority::Open => Err(
                    text::string_of("capability operation used the wrong authority path"),
                ),
            },
        }
    }

    fn validate_authority(
        &self,
        envelope: &CommandEnvelope,
        authority: &AdmittedAuthority,
        most: usize,
    ) -> (result: Result<(), String>)
        ensures
            ({
                let fault = self@.authority_fault(envelope@, *authority, most as int);
                match result {
                    Ok(_) => fault is None,
                    Err(message) => fault == Some(message@),
                }
            }),
    {
        match self.authority {
            MusicAuthority::Capabilities => match authority {
                AdmittedAuthority::Presented(presentation) => {
                    let actor: ActorId = envelope.actor();
                    if !bytes::same_bytes(presentation.receiver.as_slice(), actor.as_bytes()) {
                        return Err(
                            text::string_of(
                                "music command presentation does not match its envelope",
                            ),
                        );
                    }
                    let ids: Vec<EntryHash> = match envelope.capability_ids(most) {
                        Ok(ids) => ids,
                        Err(error) => {
                            return Err(text::string_of(error.message()));
                        },
                    };
                    if !same_hashes(presentation.presented.as_slice(), ids.as_slice())
                        || !presentation.area.same(
                        &command_area(self.namespace, envelope.command()),
                    ) || presentation.right != Right::Invoke {
                        return Err(
                            text::string_of(
                                "music command presentation does not match its envelope",
                            ),
                        );
                    }
                    Ok(())
                },
                _ => Err(
                    text::string_of("music commands require a verified capability presentation"),
                ),
            },
            MusicAuthority::OpenSession => match authority {
                AdmittedAuthority::Open => {
                    if envelope.presented_raw().len() > 0 {
                        return Err(
                            text::string_of(
                                "open-session command must not present capability grants",
                            ),
                        );
                    }
                    Ok(())
                },
                _ => Err(text::string_of("open-session music requires HHHS open authority")),
            },
        }
    }

    /// Validates an entry against the history that holds it and the authority
    /// that it arrived with. `definition_fault` is what the tuning parser says
    /// against the definition of a tuning command; of any other it is not read.
    pub fn validate(
        &self,
        payload: &Payload,
        entry: &EntryHash,
        history: &History,
        grants: &SortedMap<EntryHash, Grant>,
        authority: &AdmittedAuthority,
        bounds: AdmissionBounds,
        definition_fault: Option<String>,
    ) -> (result: Result<(), String>)
        ensures
            ({
                let against = match definition_fault {
                    Some(fault) => Some(fault@),
                    None => None,
                };
                let fault = self@.fault(
                    *payload,
                    *entry,
                    history@,
                    grants@,
                    *authority,
                    bounds,
                    against,
                );
                match result {
                    Ok(_) => fault is None,
                    Err(message) => fault == Some(message@),
                }
            }),
    {
        match payload {
            Payload::Capability(op) => self.validate_capability(
                op,
                entry,
                history,
                grants,
                authority,
            ),
            Payload::Malformed(message) => Err(message.clone()),
            Payload::Command(envelope) => {
                if !envelope.namespace().same(&self.namespace) {
                    return Err(
                        text::string_of("command namespace does not match this Replica"),
                    );
                }
                match self.validate_authority(envelope, authority, bounds.max_presented) {
                    Ok(_) => ops::validate(envelope.command(), bounds.ops, definition_fault),
                    Err(message) => Err(message),
                }
            },
        }
    }
}

/// The deterministic grant that a room begins with: its owner holds everything.
pub fn root_grant(namespace: Digest, owner: ActorId) -> (grant: Grant)
    ensures
        grant.issuer@ == owner@,
        grant.receiver@ == owner@,
        grant.area@ == command::root_of(namespace),
        grant.rights == Rights::All,
        grant.parent is None,
        root_fault(namespace, grant) is None,
{
    proof {
        owner.lemma_len();
    }
    Grant {
        issuer: owner.receiver(),
        receiver: owner.receiver(),
        area: Area::root(namespace),
        rights: Rights::All,
        parent: None,
    }
}

/// The grant that hands music invocation on to one receiver.
pub fn delegation_grant(
    namespace: Digest,
    parent: EntryHash,
    issuer: ActorId,
    receiver: ActorId,
) -> (grant: Grant)
    ensures
        grant.issuer@ == issuer@,
        grant.receiver@ == receiver@,
        grant.area@ == command::root_of(namespace),
        grant.rights == Rights::Invoke,
        grant.parent == Some(parent),
{
    Grant {
        issuer: issuer.receiver(),
        receiver: receiver.receiver(),
        area: Area::root(namespace),
        rights: Rights::Invoke,
        parent: Some(parent),
    }
}

/// A delegation is admitted when its issuer presents the parent for the area that
/// is handed on.
pub proof fn law_delegations_are_admitted(
    policy: PolicyView,
    grant: Grant,
    parent: EntryHash,
    presentation: Presentation,
    entry: EntryHash,
    history: HistoryView,
    grants: Map<EntryHash, Grant>,
)
    requires
        policy.authority == MusicAuthority::Capabilities,
        grant.parent == Some(parent),
        grant.receiver@.len() == 32,
        presentation.receiver@ == grant.issuer@,
        presentation.presented@ == seq![parent],
        presentation.area@ == grant.area@,
        presentation.right == Right::Invoke,
    ensures
        policy.capability_fault(
            CapabilityOp::Grant(grant),
            entry,
            history,
            grants,
            AdmittedAuthority::Presented(presentation),
        ) is None,
{
    assert(presentation.presented@[0] == parent);
}

/// Authority is never downgraded: an open-session replica takes no capability
/// operation, a capability replica takes no command without a presentation, and
/// an open-session replica takes a command on open authority alone.
pub proof fn law_authority_is_never_downgraded(
    policy: PolicyView,
    op: CapabilityOp,
    envelope: CommandEnvelopeView,
    entry: EntryHash,
    history: HistoryView,
    grants: Map<EntryHash, Grant>,
    authority: AdmittedAuthority,
    most: int,
    op_fault: Option<Seq<char>>,
)
    ensures
        policy.authority == MusicAuthority::OpenSession ==> policy.capability_fault(
            op,
            entry,
            history,
            grants,
            authority,
        ) is Some,
        policy.authority == MusicAuthority::Capabilities && authority !is Presented
            ==> policy.command_fault(envelope, authority, most, op_fault) is Some,
        policy.authority == MusicAuthority::OpenSession && authority !is Open
            ==> policy.command_fault(envelope, authority, most, op_fault) is Some,
        authority is Open ==> policy.capability_fault(
            op,
            entry,
            history,
            grants,
            authority,
        ) is Some,
{
}

/// A command that is authored with the grants it presents, over its own area, by
/// the actor it names, is admitted if its op is valid.
pub proof fn law_authored_commands_are_admitted(
    policy: PolicyView,
    envelope: CommandEnvelopeView,
    presentation: Presentation,
    most: int,
    op_fault: Option<Seq<char>>,
)
    requires
        policy.authority == MusicAuthority::Capabilities,
        envelope.namespace == policy.namespace,
        presentation.receiver@ == envelope.actor@,
        presentation.presented@ == envelope.presented,
        presentation.area@ == command::area_of(policy.namespace, envelope.command),
        presentation.right == Right::Invoke,
        0 < envelope.presented.len() <= most,
        envelope.presented.no_duplicates(),
    ensures
        policy.command_fault(
            envelope,
            AdmittedAuthority::Presented(presentation),
            most,
            op_fault,
        ) == op_fault,
{
}

/// A grant at the root is taken exactly where a capability replica trusts it as such
/// and it is one by which an owner of the whole namespace grants every right to
/// themselves.
pub proof fn law_root_grants_are_self_issued(
    policy: PolicyView,
    grant: Grant,
    entry: EntryHash,
    history: HistoryView,
    grants: Map<EntryHash, Grant>,
)
    ensures
        policy.capability_fault(
            CapabilityOp::Grant(grant),
            entry,
            history,
            grants,
            AdmittedAuthority::TrustedRoot,
        ) is None <==> {
            &&& policy.authority == MusicAuthority::Capabilities
            &&& grant.parent is None
            &&& grant.issuer@ == grant.receiver@
            &&& grant.receiver@.len() == 32
            &&& grant.area@.namespace == policy.namespace
            &&& grant.area@.path.len() == 0
            &&& grant.rights == Rights::All
        },
{
    if grant.area@.path.len() == 0 {
        assert(grant.area@.path =~= Seq::<Seq<u8>>::empty());
    }
}

/// A delegation is taken exactly where a capability replica is shown its parent by
/// the one who issues it, for the area that it grants and the right to act.
pub proof fn law_delegations_show_their_parent(
    policy: PolicyView,
    grant: Grant,
    presentation: Presentation,
    entry: EntryHash,
    history: HistoryView,
    grants: Map<EntryHash, Grant>,
)
    ensures
        policy.capability_fault(
            CapabilityOp::Grant(grant),
            entry,
            history,
            grants,
            AdmittedAuthority::Presented(presentation),
        ) is None <==> {
            &&& policy.authority == MusicAuthority::Capabilities
            &&& grant.parent is Some
            &&& presentation.presented@.contains(grant.parent->0)
            &&& presentation.receiver@ == grant.issuer@
            &&& presentation.area@ == grant.area@
            &&& presentation.right == Right::Invoke
            &&& grant.receiver@.len() == 32
        },
        policy.authority == MusicAuthority::Capabilities && grant.parent is None
            ==> policy.capability_fault(
            CapabilityOp::Grant(grant),
            entry,
            history,
            grants,
            AdmittedAuthority::Presented(presentation),
        ) == Some("delegation is missing its parent"@),
{
}

/// A revocation is taken exactly where a capability replica has the grant in the past
/// of the entry that revokes it, and the one who revokes it issued or received it and
/// shows the right to act over its area.
pub proof fn law_revocations_come_from_the_parties(
    policy: PolicyView,
    revoke: Revoke,
    presentation: Presentation,
    entry: EntryHash,
    history: HistoryView,
    grants: Map<EntryHash, Grant>,
)
    ensures
        ({
            let fault = policy.capability_fault(
                CapabilityOp::Revoke(revoke),
                entry,
                history,
                grants,
                AdmittedAuthority::Presented(presentation),
            );
            &&& fault is None <==> {
                &&& policy.authority == MusicAuthority::Capabilities
                &&& presentation.receiver@ == revoke.revoker@
                &&& history.contains(revoke.target)
                &&& grants.dom().contains(revoke.target)
                &&& revoke.revoker@ == grants[revoke.target].issuer@ || revoke.revoker@
                    == grants[revoke.target].receiver@
                &&& presentation.area@ == grants[revoke.target].area@
                &&& presentation.right == Right::Invoke
                &&& history.past(revoke.target, entry)
            }
            &&& policy.authority == MusicAuthority::Capabilities ==> {
                &&& presentation.receiver@ != revoke.revoker@ ==> fault == Some(
                    "revoker does not equal proof receiver"@,
                )
                &&& presentation.receiver@ == revoke.revoker@ && !history.contains(revoke.target)
                    ==> fault == Some("revocation target is missing"@)
                &&& presentation.receiver@ == revoke.revoker@ && history.contains(revoke.target)
                    && !grants.dom().contains(revoke.target) ==> fault == Some(
                    "revocation target is not a grant"@,
                )
            }
        }),
        policy.capability_fault(
            CapabilityOp::Revoke(revoke),
            entry,
            history,
            grants,
            AdmittedAuthority::TrustedRoot,
        ) is Some,
{
}

/// A command is taken on capabilities exactly where it is for this namespace, its
/// actor shows the capabilities that it names, each once and not too many, for the
/// area of its op and the right to act, and the op itself has no fault.
pub proof fn law_commands_match_their_presentation(
    policy: PolicyView,
    envelope: CommandEnvelopeView,
    presentation: Presentation,
    most: int,
    op_fault: Option<Seq<char>>,
)
    requires
        policy.authority == MusicAuthority::Capabilities,
    ensures
        policy.command_fault(
            envelope,
            AdmittedAuthority::Presented(presentation),
            most,
            op_fault,
        ) is None <==> {
            &&& envelope.namespace == policy.namespace
            &&& presentation.receiver@ == envelope.actor@
            &&& 1 <= envelope.presented.len() <= most
            &&& envelope.presented.no_duplicates()
            &&& presentation.presented@ == envelope.presented
            &&& presentation.area@ == command::area_of(policy.namespace, envelope.command)
            &&& presentation.right == Right::Invoke
            &&& op_fault is None
        },
        envelope.namespace != policy.namespace ==> policy.command_fault(
            envelope,
            AdmittedAuthority::Presented(presentation),
            most,
            op_fault,
        ) == Some("command namespace does not match this Replica"@),
{
}

/// In an open session a command is taken exactly where it is for this namespace, came
/// on open authority, presents no capability, and its op has no fault.
pub proof fn law_open_commands_present_nothing(
    policy: PolicyView,
    envelope: CommandEnvelopeView,
    authority: AdmittedAuthority,
    most: int,
    op_fault: Option<Seq<char>>,
)
    requires
        policy.authority == MusicAuthority::OpenSession,
    ensures
        policy.command_fault(envelope, authority, most, op_fault) is None <==> {
            &&& envelope.namespace == policy.namespace
            &&& authority is Open
            &&& envelope.presented.len() == 0
            &&& op_fault is None
        },
        envelope.namespace == policy.namespace && authority is Open && envelope.presented.len() > 0
            ==> policy.command_fault(envelope, authority, most, op_fault) == Some(
            "open-session command must not present capability grants"@,
        ),
        envelope.namespace == policy.namespace && authority !is Open ==> policy.command_fault(
            envelope,
            authority,
            most,
            op_fault,
        ) == Some("open-session music requires HHHS open authority"@),
{
}

/// What is admitted is judged by what it is: a capability operation by the rules for
/// those, a command by its envelope and the rules for its op. What could not be read
/// is refused with the reader's words.
pub proof fn law_payloads_are_judged_by_their_kind(
    policy: PolicyView,
    payload: Payload,
    entry: EntryHash,
    history: HistoryView,
    grants: Map<EntryHash, Grant>,
    authority: AdmittedAuthority,
    bounds: AdmissionBounds,
    definition_fault: Option<Seq<char>>,
)
    ensures
        ({
            let fault = policy.fault(
                payload,
                entry,
                history,
                grants,
                authority,
                bounds,
                definition_fault,
            );
            match payload {
                Payload::Capability(op) => fault == policy.capability_fault(
                    op,
                    entry,
                    history,
                    grants,
                    authority,
                ),
                Payload::Malformed(message) => fault == Some(message@),
                Payload::Command(envelope) => {
                    &&& fault is None ==> envelope@.command.fault(
                        bounds.ops,
                        definition_fault,
                    ) is None
                    &&& fault is None ==> envelope@.namespace == policy.namespace
                    &&& fault == policy.command_fault(
                        envelope@,
                        authority,
                        bounds.max_presented as int,
                        envelope@.command.fault(bounds.ops, definition_fault),
                    )
                },
            }
        }),
{
}

} // verus!
