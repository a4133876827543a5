//! Music commands: the envelope they travel in, its framing, and the area of
//! authority that each of them needs.

use crate::bytes;
use crate::collections::SortedSet;
use crate::music::ops::{MusicOp, OpView};
use crate::music::pattern::RoundTablePattern;
use crate::music::roundtable::RoundTableConfig;
use crate::replica::causal;
use crate::replica::fold::round_table_settings;
use crate::replica::ids::{ActorId, Digest, EntryHash};
use crate::text;
use vstd::prelude::*;

verus! {

pub const PROTOCOL_GENERATION: u32 = 8;

/// Outer carrier discriminator for music schema 8 over repair wire 2, as the
/// bytes of `tutti/music/hhhs-replica/8/repair-2/vocabulary-1`.
///
/// This must change whenever either generation changes; peers refuse the ALPN
/// before attempting to decode an incompatible message.
pub const REPAIR_ALPN: [u8; 48] = [
    0x74, 0x75, 0x74, 0x74, 0x69, 0x2f, 0x6d, 0x75, 0x73, 0x69, 0x63, 0x2f, 0x68, 0x68, 0x68, 0x73,
    0x2d, 0x72, 0x65, 0x70, 0x6c, 0x69, 0x63, 0x61, 0x2f, 0x38, 0x2f, 0x72, 0x65, 0x70, 0x61, 0x69,
    0x72, 0x2d, 0x32, 0x2f, 0x76, 0x6f, 0x63, 0x61, 0x62, 0x75, 0x6c, 0x61, 0x72, 0x79, 0x2d, 0x31,
];

pub const STRATEGY_VERSION: u32 = 1;

pub const STRATEGY_NAME: &'static str = "tutti-music-hhhs-entry";

/// What a command's bytes begin with: `tutti music command v8` and a zero byte.
pub const COMMAND_DOMAIN: [u8; 23] = [
    0x74, 0x75, 0x74, 0x74, 0x69, 0x20, 0x6d, 0x75, 0x73, 0x69, 0x63, 0x20, 0x63, 0x6f, 0x6d, 0x6d,
    0x61, 0x6e, 0x64, 0x20, 0x76, 0x38, 0x00,
];

/// How many bytes a framed command may have.
pub const MAX_COMMAND_BYTES: usize = 1_048_576;

#[derive(Debug, PartialEq, Eq)]
pub struct CommandEnvelope {
    generation: u32,
    namespace: Digest,
    actor: ActorId,
    presented: Vec<EntryHash>,
    command: MusicOp,
}

/// What a command envelope says.
pub struct CommandEnvelopeView {
    pub generation: u32,
    pub namespace: Digest,
    pub actor: ActorId,
    pub presented: Seq<EntryHash>,
    pub command: OpView,
}

impl View for CommandEnvelope {
    type V = CommandEnvelopeView;

    closed spec fn view(&self) -> CommandEnvelopeView {
        CommandEnvelopeView {
            generation: self.generation,
            namespace: self.namespace,
            actor: self.actor,
            presented: self.presented@,
            command: self.command@,
        }
    }
}

/// What is wrong with the grants that a command presents.
#[derive(Debug, Clone, Copy, PartialEq, Eq, Structural)]
pub enum PresentedError {
    TooMany,
    Repeated,
    Empty,
}

impl PresentedError {
    pub open spec fn text(self) -> Seq<char> {
        match self {
            PresentedError::TooMany => "command presents too many capability grants"@,
            PresentedError::Repeated => "command repeats a presented capability grant"@,
            PresentedError::Empty => "capability-authorized command presents no grants"@,
        }
    }

    pub fn message(self) -> (message: &'static str)
        ensures
            message@ == self.text(),
    {
        match self {
            PresentedError::TooMany => "command presents too many capability grants",
            PresentedError::Repeated => "command repeats a presented capability grant",
            PresentedError::Empty => "capability-authorized command presents no grants",
        }
    }
}

/// What is wrong with presented grants, if anything.
pub open spec fn presented_fault(presented: Seq<EntryHash>, most: int) -> Option<PresentedError> {
    if presented.len() > most {
        Some(PresentedError::TooMany)
    } else if !presented.no_duplicates() {
        Some(PresentedError::Repeated)
    } else {
        None
    }
}

/// What is wrong with presented grants where some are needed, if anything.
pub open spec fn capability_fault(presented: Seq<EntryHash>, most: int) -> Option<PresentedError> {
    match presented_fault(presented, most) {
        Some(fault) => Some(fault),
        None => if presented.len() == 0 {
            Some(PresentedError::Empty)
        } else {
            None
        },
    }
}

fn repeats(ids: &Vec<EntryHash>) -> (r: bool)
    ensures
        r == !ids@.no_duplicates(),
{
    let mut seen: SortedSet<EntryHash> = SortedSet::new();
    let mut i: usize = 0;
    assert(ids@.subrange(0, 0).to_set() =~= Set::<EntryHash>::empty());
    while i < ids.len()
        invariant
            i <= ids@.len(),
            seen@ == ids@.subrange(0, i as int).to_set(),
            ids@.subrange(0, i as int).no_duplicates(),
        decreases ids@.len() - i,
    {
        let ghost front = ids@.subrange(0, i as int);
        if !seen.insert(ids[i]) {
            proof {
                assert(front.contains(ids@[i as int]));
                let k = front.index_of(ids@[i as int]);
                assert(ids@[k] == ids@[i as int]);
            }
            return true;
        }
        proof {
            crate::collections::lemma_prefix_set(ids@, i as int);
            let next = ids@.subrange(0, i + 1);
            assert forall|m: int, n: int|
                0 <= m < next.len() && 0 <= n < next.len() && m != n implies next[m] != next[n] by {
                if m < i && n == i {
                    assert(front.contains(front[m]));
                }
                if n < i && m == i {
                    assert(front.contains(front[n]));
                }
                if m < i && n < i {
                    assert(front[m] != front[n]);
                }
            }
        }
        i = i + 1;
    }
    assert(ids@.subrange(0, i as int) =~= ids@);
    false
}

fn copy_hashes(ids: &[EntryHash]) -> (copy: Vec<EntryHash>)
    ensures
        copy@ == ids@,
{
    let mut copy: Vec<EntryHash> = Vec::new();
    let mut i: usize = 0;
    while i < ids.len()
        invariant
            i <= ids@.len(),
            copy@ == ids@.subrange(0, i as int),
        decreases ids@.len() - i,
    {
        copy.push(ids[i]);
        i = i + 1;
        assert(copy@ =~= ids@.subrange(0, i as int));
    }
    assert(copy@ =~= ids@);
    copy
}

/// What is authored of an op. Pitch membership has one authority, the adds and
/// removes of degrees and pitches, so settings never carry a second pitch set.
pub open spec fn authored(op: OpView) -> OpView {
    match op {
        OpView::SetRoundTable(config) => OpView::SetRoundTable(causal::settings_of(config)),
        op => op,
    }
}

impl CommandEnvelope {
    /// An envelope as it was read.
    pub fn from_parts(
        generation: u32,
        namespace: Digest,
        actor: ActorId,
        presented: Vec<EntryHash>,
        command: MusicOp,
    ) -> (envelope: Self)
        ensures
            envelope@ == (CommandEnvelopeView {
                generation,
                namespace,
                actor,
                presented: presented@,
                command: command@,
            }),
    {
        CommandEnvelope { generation, namespace, actor, presented, command }
    }

    /// The envelope of a new command.
    pub fn compose(
        namespace: Digest,
        actor: ActorId,
        presented: &[EntryHash],
        command: MusicOp,
    ) -> (envelope: Self)
        ensures
            envelope@ == composed(namespace, actor, presented@, command@),
    {
        let command: MusicOp = match command {
            MusicOp::SetRoundTable { config } => MusicOp::SetRoundTable {
                config: round_table_settings(config),
            },
            command => command,
        };
        CommandEnvelope {
            generation: PROTOCOL_GENERATION,
            namespace,
            actor,
            presented: copy_hashes(presented),
            command,
        }
    }

    pub fn generation(&self) -> (generation: u32)
        ensures
            generation == self@.generation,
    {
        self.generation
    }

    pub fn actor(&self) -> (actor: ActorId)
        ensures
            actor == self@.actor,
    {
        self.actor
    }

    pub fn command(&self) -> (command: &MusicOp)
        ensures
            command@ == self@.command,
    {
        &self.command
    }

    pub fn namespace(&self) -> (namespace: Digest)
        ensures
            namespace == self@.namespace,
    {
        self.namespace
    }

    /// The grants as they stand in the envelope.
    pub fn presented_raw(&self) -> (presented: &[EntryHash])
        ensures
            presented@ == self@.presented,
    {
        self.presented.as_slice()
    }

    /// The presented grants, of which there may be `most`.
    pub fn presented(&self, most: usize) -> (result: Result<Vec<EntryHash>, PresentedError>)
        ensures
            match result {
                Ok(ids) => presented_fault(self@.presented, most as int) is None && ids@
                    == self@.presented,
                Err(error) => presented_fault(self@.presented, most as int) == Some(error),
            },
    {
        if self.presented.len() > most {
            return Err(PresentedError::TooMany);
        }
        if repeats(&self.presented) {
            return Err(PresentedError::Repeated);
        }
        Ok(copy_hashes(self.presented.as_slice()))
    }

    /// The presented grants of a command that needs some.
    pub fn capability_ids(&self, most: usize) -> (result: Result<Vec<EntryHash>, PresentedError>)
        ensures
            match result {
                Ok(ids) => capability_fault(self@.presented, most as int) is None && ids@
                    == self@.presented,
                Err(error) => capability_fault(self@.presented, most as int) == Some(error),
            },
    {
        match self.presented(most) {
            Ok(ids) => {
                if ids.len() == 0 {
                    return Err(PresentedError::Empty);
                }
                Ok(ids)
            },
            Err(error) => Err(error),
        }
    }
}

#[derive(Debug, Clone, Copy, PartialEq, Eq, Structural)]
pub enum CommandCodecError {
    TooLarge(usize),
    WrongDomain,
    Malformed,
    NonCanonical,
    UnsupportedGeneration(u32),
}

impl CommandCodecError {
    pub open spec fn text(self) -> Seq<char> {
        match self {
            CommandCodecError::TooLarge(len) => "command is too large: "@ + text::decimal(
                len as nat,
            ) + " bytes"@,
            CommandCodecError::WrongDomain => "command belongs to another protocol domain"@,
            CommandCodecError::Malformed => "command JSON is malformed"@,
            CommandCodecError::NonCanonical => "command encoding is not canonical"@,
            CommandCodecError::UnsupportedGeneration(generation) =>
                "unsupported command generation "@ + text::decimal(generation as nat),
        }
    }

    pub fn message(self) -> (message: String)
        ensures
            message@ == self.text(),
    {
        match self {
            CommandCodecError::TooLarge(len) => {
                let mut message: String = text::string_of("command is too large: ");
                text::push_decimal(&mut message, len as u64);
                text::push_str(&mut message, " bytes");
                message
            },
            CommandCodecError::WrongDomain => text::string_of(
                "command belongs to another protocol domain",
            ),
            CommandCodecError::Malformed => text::string_of("command JSON is malformed"),
            CommandCodecError::NonCanonical => text::string_of(
                "command encoding is not canonical",
            ),
            CommandCodecError::UnsupportedGeneration(generation) => {
                let mut message: String = text::string_of("unsupported command generation ");
                text::push_decimal(&mut message, generation as u64);
                message
            },
        }
    }
}

/// The bytes of a command: its domain, then its JSON.
pub open spec fn framed(json: Seq<u8>) -> Seq<u8> {
    COMMAND_DOMAIN@ + json
}

/// Frames the JSON of an envelope as a command.
pub fn encode_command(json: &[u8]) -> (result: Result<Vec<u8>, CommandCodecError>)
    requires
        framed(json@).len() <= usize::MAX,
    ensures
        match result {
            Ok(bytes) => framed(json@).len() <= MAX_COMMAND_BYTES && bytes@ == framed(json@),
            Err(error) => framed(json@).len() > MAX_COMMAND_BYTES && error
                == CommandCodecError::TooLarge(framed(json@).len() as usize),
        },
{
    let mut framed: Vec<u8> = bytes::to_vec(&COMMAND_DOMAIN);
    bytes::push_bytes(&mut framed, json);
    if framed.len() > MAX_COMMAND_BYTES {
        return Err(CommandCodecError::TooLarge(framed.len()));
    }
    Ok(framed)
}

/// What is wrong with the framing of a command, if anything.
pub open spec fn framing_fault(data: Seq<u8>) -> Option<CommandCodecError> {
    if data.len() > MAX_COMMAND_BYTES {
        Some(CommandCodecError::TooLarge(data.len() as usize))
    } else if !COMMAND_DOMAIN@.is_prefix_of(data) {
        Some(CommandCodecError::WrongDomain)
    } else {
        None
    }
}

/// The JSON of a framed command.
pub fn strip_domain(data: &[u8]) -> (result: Result<&[u8], CommandCodecError>)
    ensures
        match result {
            Ok(json) => framing_fault(data@) is None && data@ == framed(json@),
            Err(error) => framing_fault(data@) == Some(error),
        },
{
    assert(data.len() == data@.len());
    if data.len() > MAX_COMMAND_BYTES {
        return Err(CommandCodecError::TooLarge(data.len()));
    }
    if !bytes::begins_with(data, &COMMAND_DOMAIN) {
        return Err(CommandCodecError::WrongDomain);
    }
    let json: &[u8] = vstd::slice::slice_subrange(data, 23, data.len());
    assert(data@ =~= framed(json@));
    Ok(json)
}

/// What is wrong with a framed command, if anything, given what its JSON was read
/// as and how that is written.
pub open spec fn command_fault(
    data: Seq<u8>,
    parsed: Option<(CommandEnvelopeView, Seq<u8>)>,
) -> Option<CommandCodecError> {
    match framing_fault(data) {
        Some(fault) => Some(fault),
        None => match parsed {
            None => Some(CommandCodecError::Malformed),
            Some((envelope, written)) => if envelope.generation != PROTOCOL_GENERATION {
                Some(CommandCodecError::UnsupportedGeneration(envelope.generation))
            } else if framed(written).len() > MAX_COMMAND_BYTES {
                Some(CommandCodecError::TooLarge(framed(written).len() as usize))
            } else if framed(written) != data {
                Some(CommandCodecError::NonCanonical)
            } else {
                None
            },
        },
    }
}

/// Accepts a framed command whose JSON was read as an envelope, `written` being
/// the JSON of that envelope. Any other spelling of it is refused: a command has
/// one encoding. Where the JSON could not be read, `parsed` is `None`.
pub fn decode_command(data: &[u8], parsed: Option<(CommandEnvelope, Vec<u8>)>) -> (result: Result<
    CommandEnvelope,
    CommandCodecError,
>)
    requires
        parsed matches Some((_, written)) ==> framed(written@).len() <= usize::MAX,
    ensures
        ({
            let read = match parsed {
                Some((envelope, written)) => Some((envelope@, written@)),
                None => None,
            };
            match result {
                Ok(envelope) => command_fault(data@, read) is None && match parsed {
                    Some((found, _)) => envelope == found,
                    None => false,
                },
                Err(error) => command_fault(data@, read) == Some(error),
            }
        }),
{
    match strip_domain(data) {
        Ok(_) => {},
        Err(error) => {
            return Err(error);
        },
    }
    let (envelope, written): (CommandEnvelope, Vec<u8>) = match parsed {
        Some(parts) => parts,
        None => {
            return Err(CommandCodecError::Malformed);
        },
    };
    if envelope.generation != PROTOCOL_GENERATION {
        return Err(CommandCodecError::UnsupportedGeneration(envelope.generation));
    }
    let canonical: Vec<u8> = match encode_command(written.as_slice()) {
        Ok(canonical) => canonical,
        Err(error) => {
            return Err(error);
        },
    };
    if !bytes::same_bytes(canonical.as_slice(), data) {
        return Err(CommandCodecError::NonCanonical);
    }
    Ok(envelope)
}

/// A command that was composed and framed is accepted as what was composed.
pub proof fn law_composed_commands_are_accepted(envelope: CommandEnvelopeView, json: Seq<u8>)
    requires
        envelope.generation == PROTOCOL_GENERATION,
        framed(json).len() <= MAX_COMMAND_BYTES,
    ensures
        command_fault(framed(json), Some((envelope, json))) is None,
{
    assert(COMMAND_DOMAIN@.is_prefix_of(framed(json)));
}

/// A command has one encoding: bytes that are accepted for the same JSON are the
/// same bytes.
pub proof fn law_commands_have_one_encoding(
    a: Seq<u8>,
    b: Seq<u8>,
    envelope: CommandEnvelopeView,
    json: Seq<u8>,
)
    requires
        command_fault(a, Some((envelope, json))) is None,
        command_fault(b, Some((envelope, json))) is None,
    ensures
        a == b,
{
}

/// The envelope of a new command.
pub open spec fn composed(
    namespace: Digest,
    actor: ActorId,
    presented: Seq<EntryHash>,
    op: OpView,
) -> CommandEnvelopeView {
    CommandEnvelopeView {
        generation: PROTOCOL_GENERATION,
        namespace,
        actor,
        presented,
        command: authored(op),
    }
}

/// The bytes of an envelope, given how its JSON is written.
pub open spec fn encoded(
    envelope: CommandEnvelopeView,
    write: spec_fn(CommandEnvelopeView) -> Seq<u8>,
) -> Result<Seq<u8>, CommandCodecError> {
    let data = framed(write(envelope));
    if data.len() > MAX_COMMAND_BYTES {
        Err(CommandCodecError::TooLarge(data.len() as usize))
    } else {
        Ok(data)
    }
}

/// The envelope of bytes, given how JSON is read and written.
pub open spec fn decoded(
    data: Seq<u8>,
    write: spec_fn(CommandEnvelopeView) -> Seq<u8>,
    read: spec_fn(Seq<u8>) -> Option<CommandEnvelopeView>,
) -> Result<CommandEnvelopeView, CommandCodecError> {
    let found = read(data.skip(COMMAND_DOMAIN@.len() as int));
    let parsed = match found {
        Some(envelope) => Some((envelope, write(envelope))),
        None => None,
    };
    match command_fault(data, parsed) {
        Some(fault) => Err(fault),
        None => Ok(found->0),
    }
}

/// What was encoded is decoded as it was composed, wherever JSON reads back what it
/// wrote: namespace, actor, grants and command are those that were given, except
/// that round-table settings come back without a pattern.
pub proof fn law_commands_round_trip(
    namespace: Digest,
    actor: ActorId,
    presented: Seq<EntryHash>,
    op: OpView,
    write: spec_fn(CommandEnvelopeView) -> Seq<u8>,
    read: spec_fn(Seq<u8>) -> Option<CommandEnvelopeView>,
)
    requires
        ({
            let envelope = composed(namespace, actor, presented, op);
            read(write(envelope)) == Some(envelope)
        }),
    ensures
        ({
            let envelope = composed(namespace, actor, presented, op);
            match encoded(envelope, write) {
                Ok(data) => decoded(data, write, read) == Ok::<
                    CommandEnvelopeView,
                    CommandCodecError,
                >(envelope),
                Err(error) => error is TooLarge && framed(write(envelope)).len()
                    > MAX_COMMAND_BYTES,
            }
        }),
        composed(namespace, actor, presented, op).command == (match op {
            OpView::SetRoundTable(config) => OpView::SetRoundTable(
                RoundTableConfig { pattern: RoundTablePattern::none(), ..config },
            ),
            op => op,
        }),
        RoundTablePattern::none()@ == Set::<u8>::empty(),
{
    let envelope = composed(namespace, actor, presented, op);
    let json = write(envelope);
    let data = framed(json);
    assert(data.skip(COMMAND_DOMAIN@.len() as int) =~= json);
    assert(COMMAND_DOMAIN@.is_prefix_of(data));
    RoundTablePattern::lemma_none_is_empty();
}

/// Bytes are decoded only where they are the one encoding of what they say: those
/// over the limit and those of another domain are refused as such, whatever else
/// they hold.
pub proof fn law_only_canonical_bytes_are_decoded(
    data: Seq<u8>,
    write: spec_fn(CommandEnvelopeView) -> Seq<u8>,
    read: spec_fn(Seq<u8>) -> Option<CommandEnvelopeView>,
)
    ensures
        data.len() > MAX_COMMAND_BYTES ==> decoded(data, write, read) == Err::<
            CommandEnvelopeView,
            CommandCodecError,
        >(CommandCodecError::TooLarge(data.len() as usize)),
        data.len() <= MAX_COMMAND_BYTES && !COMMAND_DOMAIN@.is_prefix_of(data) ==> decoded(
            data,
            write,
            read,
        ) == Err::<CommandEnvelopeView, CommandCodecError>(CommandCodecError::WrongDomain),
        decoded(data, write, read) matches Ok(envelope) ==> envelope.generation
            == PROTOCOL_GENERATION && encoded(envelope, write) == Ok::<
            Seq<u8>,
            CommandCodecError,
        >(data),
{
}

/// A part of the room that authority is given over: a namespace, and a path in
/// it.
#[derive(Debug, PartialEq, Eq)]
pub struct Area {
    pub namespace: Digest,
    pub path: Vec<Vec<u8>>,
}

/// What an area says.
#[verifier::ext_equal]
pub struct AreaView {
    pub namespace: Digest,
    pub path: Seq<Seq<u8>>,
}

impl View for Area {
    type V = AreaView;

    open spec fn view(&self) -> AreaView {
        AreaView {
            namespace: self.namespace,
            path: self.path@.map_values(|part: Vec<u8>| part@),
        }
    }
}

/// The bytes of `music`.
pub const MUSIC: [u8; 5] = [0x6d, 0x75, 0x73, 0x69, 0x63];

/// The bytes of `notes`.
pub const NOTES: [u8; 5] = [0x6e, 0x6f, 0x74, 0x65, 0x73];

/// The bytes of `tuning`.
pub const TUNING: [u8; 6] = [0x74, 0x75, 0x6e, 0x69, 0x6e, 0x67];

/// The bytes of `performance`.
pub const PERFORMANCE: [u8; 11] = [0x70, 0x65, 0x72, 0x66, 0x6f, 0x72, 0x6d, 0x61, 0x6e, 0x63, 0x65];

/// The whole of a namespace.
pub open spec fn root_of(namespace: Digest) -> AreaView {
    AreaView { namespace, path: Seq::empty() }
}

/// The part of the music that `part` names.
pub open spec fn music_part(namespace: Digest, part: Seq<u8>) -> AreaView {
    AreaView { namespace, path: seq![MUSIC@, part] }
}

/// The area that a command needs authority over.
pub open spec fn area_of(namespace: Digest, op: OpView) -> AreaView {
    match op {
        OpView::SetTuning(_) => music_part(namespace, TUNING@),
        OpView::SetRoundTable(_) => music_part(namespace, PERFORMANCE@),
        _ => music_part(namespace, NOTES@),
    }
}

fn music_area(namespace: Digest, part: &[u8]) -> (area: Area)
    ensures
        area@ == music_part(namespace, part@),
{
    let mut path: Vec<Vec<u8>> = Vec::new();
    path.push(bytes::to_vec(&MUSIC));
    path.push(bytes::to_vec(part));
    let area = Area { namespace, path };
    assert(area@.path =~= seq![MUSIC@, part@]);
    area
}

pub fn notes_area(namespace: Digest) -> (area: Area)
    ensures
        area@ == music_part(namespace, NOTES@),
{
    music_area(namespace, &NOTES)
}

pub fn tuning_area(namespace: Digest) -> (area: Area)
    ensures
        area@ == music_part(namespace, TUNING@),
{
    music_area(namespace, &TUNING)
}

pub fn performance_area(namespace: Digest) -> (area: Area)
    ensures
        area@ == music_part(namespace, PERFORMANCE@),
{
    music_area(namespace, &PERFORMANCE)
}

pub fn command_area(namespace: Digest, command: &MusicOp) -> (area: Area)
    ensures
        area@ == area_of(namespace, command@),
{
    match command {
        MusicOp::SetTuning { .. } => tuning_area(namespace),
        MusicOp::SetRoundTable { .. } => performance_area(namespace),
        _ => notes_area(namespace),
    }
}

impl Area {
    /// The whole of a namespace.
    pub fn root(namespace: Digest) -> (area: Self)
        ensures
            area@ == root_of(namespace),
    {
        let area = Area { namespace, path: Vec::new() };
        assert(area@.path =~= Seq::empty());
        area
    }

    pub fn same(&self, other: &Self) -> (r: bool)
        ensures
            r == (self@ == other@),
    {
        if !self.namespace.same(&other.namespace) || self.path.len() != other.path.len() {
            proof {
                if self@ == other@ {
                    assert(self@.path.len() == other@.path.len());
                }
            }
            return false;
        }
        let mut i: usize = 0;
        while i < self.path.len()
            invariant
                i <= self.path@.len(),
                self.path@.len() == other.path@.len(),
                self.namespace == other.namespace,
                forall|k: int| 0 <= k < i ==> #[trigger] self.path@[k]@ == other.path@[k]@,
            decreases self.path@.len() - i,
        {
            if !bytes::same_bytes(self.path[i].as_slice(), other.path[i].as_slice()) {
                proof {
                    if self@ == other@ {
                        assert(self@.path[i as int] == other@.path[i as int]);
                    }
                }
                return false;
            }
            i = i + 1;
        }
        assert(self@.path =~= other@.path);
        true
    }
}

/// An op belongs to the part of the room that it changes: a tuning to the tuning,
/// settings to the performance, and everything else to the notes.
pub proof fn law_ops_belong_to_their_area(namespace: Digest, op: OpView)
    ensures
        area_of(namespace, op).namespace == namespace,
        area_of(namespace, op).path.len() == 2,
        area_of(namespace, op).path[0] == seq![0x6du8, 0x75, 0x73, 0x69, 0x63],
        area_of(namespace, op).path[1] == (match op {
            OpView::AddDegree(_) => seq![0x6eu8, 0x6f, 0x74, 0x65, 0x73],
            OpView::RemoveDegree(_) => seq![0x6eu8, 0x6f, 0x74, 0x65, 0x73],
            OpView::SetEnvelope(_, _) => seq![0x6eu8, 0x6f, 0x74, 0x65, 0x73],
            OpView::AddPitch(_) => seq![0x6eu8, 0x6f, 0x74, 0x65, 0x73],
            OpView::RemovePitch(_) => seq![0x6eu8, 0x6f, 0x74, 0x65, 0x73],
            OpView::SetTuning(_) => seq![0x74u8, 0x75, 0x6e, 0x69, 0x6e, 0x67],
            OpView::SetRoundTable(_) =>
                seq![0x70u8, 0x65, 0x72, 0x66, 0x6f, 0x72, 0x6d, 0x61, 0x6e, 0x63, 0x65],
        }),
        root_of(namespace).namespace == namespace,
        root_of(namespace).path.len() == 0,
{
    assert(MUSIC@ =~= seq![0x6du8, 0x75, 0x73, 0x69, 0x63]);
    assert(NOTES@ =~= seq![0x6eu8, 0x6f, 0x74, 0x65, 0x73]);
    assert(TUNING@ =~= seq![0x74u8, 0x75, 0x6e, 0x69, 0x6e, 0x67]);
    assert(PERFORMANCE@ =~= seq![
        0x70u8, 0x65, 0x72, 0x66, 0x6f, 0x72, 0x6d, 0x61, 0x6e, 0x63, 0x65,
    ]);
}

/// A new command says what it was made of. Settings keep every field but the
/// pattern, which they leave empty; every other op is said as it is.
pub proof fn law_new_commands_say_what_was_meant(
    namespace: Digest,
    actor: ActorId,
    presented: Seq<EntryHash>,
    op: OpView,
)
    ensures
        ({
            let envelope = composed(namespace, actor, presented, op);
            &&& envelope.generation == 8
            &&& envelope.namespace == namespace
            &&& envelope.actor == actor
            &&& envelope.presented == presented
            &&& op !is SetRoundTable ==> envelope.command == op
            &&& op matches OpView::SetRoundTable(config) ==> (
            envelope.command matches OpView::SetRoundTable(said) && {
                &&& said.pattern@ == Set::<u8>::empty()
                &&& said.pitch_mode == config.pitch_mode
                &&& said.center_millihz == config.center_millihz
                &&& said.scale == config.scale
                &&& said.spread_semitones == config.spread_semitones
                &&& said.level_per_mille == config.level_per_mille
                &&& said.pulse_ms == config.pulse_ms
                &&& said.gap_ms == config.gap_ms
            })
        }),
{
    RoundTablePattern::lemma_none_is_empty();
}

/// The capabilities that a command presents are refused where there are too many,
/// then where one is repeated, and where capabilities are asked for, then where there
/// is none.
pub proof fn law_presented_capabilities_are_counted(presented: Seq<EntryHash>, most: int)
    ensures
        presented_fault(presented, most) == Some(PresentedError::TooMany) <==> presented.len()
            > most,
        presented_fault(presented, most) == Some(PresentedError::Repeated) <==> presented.len()
            <= most && exists|i: int, j: int|
            0 <= i < j < presented.len() && #[trigger] presented[i] == #[trigger] presented[j],
        presented_fault(presented, most) != Some(PresentedError::Empty),
        capability_fault(presented, most) == Some(PresentedError::TooMany) <==> presented.len()
            > most,
        capability_fault(presented, most) == Some(PresentedError::Repeated) <==> presented.len()
            <= most && exists|i: int, j: int|
            0 <= i < j < presented.len() && #[trigger] presented[i] == #[trigger] presented[j],
        capability_fault(presented, most) == Some(PresentedError::Empty) <==> presented.len() == 0
            && most >= 0,
        PresentedError::TooMany.text() == "command presents too many capability grants"@,
        PresentedError::Repeated.text() == "command repeats a presented capability grant"@,
        PresentedError::Empty.text() == "capability-authorized command presents no grants"@,
{
    if !presented.no_duplicates() {
        let (i, j) = choose|i: int, j: int|
            0 <= i < presented.len() && 0 <= j < presented.len() && i != j
                && #[trigger] presented[i] == #[trigger] presented[j];
        if i < j {
            assert(presented[i] == presented[j]);
        } else {
            assert(presented[j] == presented[i]);
        }
    }
}

/// A command on the wire is the domain of this generation and then the JSON, and it
/// has at most a mebibyte.
pub proof fn law_commands_begin_with_their_domain(
    json: Seq<u8>,
    envelope: CommandEnvelopeView,
    write: spec_fn(CommandEnvelopeView) -> Seq<u8>,
)
    ensures
        framed(json).len() == json.len() + 23,
        framed(json).subrange(0, 23) == seq![
            0x74u8, 0x75, 0x74, 0x74, 0x69, 0x20, 0x6d, 0x75, 0x73, 0x69, 0x63, 0x20, 0x63, 0x6f,
            0x6d, 0x6d, 0x61, 0x6e, 0x64, 0x20, 0x76, 0x38, 0x00,
        ],
        framed(json).subrange(23, framed(json).len() as int) == json,
        encoded(envelope, write) == if write(envelope).len() + 23 > 1_048_576 {
            Err(CommandCodecError::TooLarge((write(envelope).len() + 23) as usize))
        } else {
            Ok(framed(write(envelope)))
        },
{
    assert(framed(json).subrange(0, 23) =~= COMMAND_DOMAIN@);
    assert(COMMAND_DOMAIN@ =~= seq![
        0x74u8, 0x75, 0x74, 0x74, 0x69, 0x20, 0x6d, 0x75, 0x73, 0x69, 0x63, 0x20, 0x63, 0x6f, 0x6d,
        0x6d, 0x61, 0x6e, 0x64, 0x20, 0x76, 0x38, 0x00,
    ]);
    assert(framed(json).subrange(23, framed(json).len() as int) =~= json);
}

/// Bytes are accepted as a command exactly where they are no more than a mebibyte,
/// begin with the domain, were read as an envelope of this generation, and are what
/// that envelope is written as. The first of these that fails names the fault.
pub proof fn law_commands_are_read_strictly(
    data: Seq<u8>,
    parsed: Option<(CommandEnvelopeView, Seq<u8>)>,
)
    ensures
        command_fault(data, parsed) is None <==> data.len() <= 1_048_576
            && COMMAND_DOMAIN@.is_prefix_of(data) && (parsed matches Some((envelope, written))
            && envelope.generation == 8 && data == framed(written)),
        data.len() > 1_048_576 ==> command_fault(data, parsed) == Some(
            CommandCodecError::TooLarge(data.len() as usize),
        ),
        data.len() <= 1_048_576 && !COMMAND_DOMAIN@.is_prefix_of(data) ==> command_fault(
            data,
            parsed,
        ) == Some(CommandCodecError::WrongDomain),
        data.len() <= 1_048_576 && COMMAND_DOMAIN@.is_prefix_of(data) ==> match parsed {
            None => command_fault(data, parsed) == Some(CommandCodecError::Malformed),
            Some((envelope, written)) => {
                &&& envelope.generation != 8 ==> command_fault(data, parsed) == Some(
                    CommandCodecError::UnsupportedGeneration(envelope.generation),
                )
                &&& envelope.generation == 8 && framed(written).len() <= 1_048_576 && framed(written)
                    != data ==> command_fault(data, parsed) == Some(CommandCodecError::NonCanonical)
            },
        },
{
}

/// Every refusal of a command's bytes says in words what was wrong.
pub proof fn law_codec_refusals_are_worded(len: usize, generation: u32)
    ensures
        CommandCodecError::TooLarge(len).text() == "command is too large: "@ + text::decimal(
            len as nat,
        ) + " bytes"@,
        CommandCodecError::WrongDomain.text() == "command belongs to another protocol domain"@,
        CommandCodecError::Malformed.text() == "command JSON is malformed"@,
        CommandCodecError::NonCanonical.text() == "command encoding is not canonical"@,
        CommandCodecError::UnsupportedGeneration(generation).text()
            == "unsupported command generation "@ + text::decimal(generation as nat),
{
}

} // verus!
