//! The close handshake of one repair attempt.

use crate::bytes;
use crate::crypto;
use vstd::prelude::*;

verus! {

pub const REPAIR_ATTEMPT_ID_BYTES: usize = 16;

/// The bytes of `tutti BLE HHHS repair attempt v1`.
pub const REPAIR_ATTEMPT_DOMAIN: [u8; 32] = [
    0x74, 0x75, 0x74, 0x74, 0x69, 0x20, 0x42, 0x4c, 0x45, 0x20, 0x48, 0x48,
    0x48, 0x53, 0x20, 0x72, 0x65, 0x70, 0x61, 0x69, 0x72, 0x20, 0x61, 0x74,
    0x74, 0x65, 0x6d, 0x70, 0x74, 0x20, 0x76, 0x31,
];

/// Link/session-bound identifier for one BLE repair attempt.
#[derive(Clone, Copy, Eq, PartialOrd, Ord, Hash, Debug)]
pub struct RepairAttemptId([u8; REPAIR_ATTEMPT_ID_BYTES]);

impl View for RepairAttemptId {
    type V = Seq<u8>;

    closed spec fn view(&self) -> Seq<u8> {
        self.0@
    }
}

impl RepairAttemptId {
    pub fn new(bytes: [u8; REPAIR_ATTEMPT_ID_BYTES]) -> (id: Self)
        ensures
            id@ == bytes@,
    {
        RepairAttemptId(bytes)
    }

    pub fn as_bytes(self) -> (bytes: [u8; REPAIR_ATTEMPT_ID_BYTES])
        ensures
            bytes@ == self@,
    {
        self.0
    }

    /// Identifiers with the same bytes are the same identifier.
    pub proof fn lemma_extensional(a: Self, b: Self)
        requires
            a@ == b@,
        ensures
            a == b,
    {
        bytes::lemma_array_ext(a.0, b.0);
    }

    pub proof fn lemma_len(self)
        ensures
            self@.len() == REPAIR_ATTEMPT_ID_BYTES,
    {
    }
}

impl PartialEq for RepairAttemptId {
    fn eq(&self, other: &Self) -> (equal: bool) {
        let equal = bytes::same_bytes(&self.0, &other.0);
        proof {
            if self.0@ == other.0@ {
                bytes::lemma_array_ext(self.0, other.0);
            }
        }
        equal
    }
}

impl vstd::std_specs::cmp::PartialEqSpecImpl for RepairAttemptId {
    open spec fn obeys_eq_spec() -> bool {
        true
    }

    open spec fn eq_spec(&self, other: &Self) -> bool {
        *self == *other
    }
}

/// Carrier close declaration sent only after the local repair attempt reaches a
/// terminal outcome. The sequence names the final authenticated repair-lane
/// message belonging to this attempt.
#[derive(Clone, Copy, Eq, Debug)]
pub struct RepairFin {
    pub attempt: RepairAttemptId,
    pub last_repair_sequence: u64,
}

impl PartialEq for RepairFin {
    fn eq(&self, other: &Self) -> (equal: bool) {
        self.attempt == other.attempt && self.last_repair_sequence == other.last_repair_sequence
    }
}

impl vstd::std_specs::cmp::PartialEqSpecImpl for RepairFin {
    open spec fn obeys_eq_spec() -> bool {
        true
    }

    open spec fn eq_spec(&self, other: &Self) -> bool {
        *self == *other
    }
}

/// Symmetric carrier acknowledgement for the peer's authenticated FIN.
#[derive(Clone, Copy, Eq, Debug)]
pub struct RepairAck {
    pub attempt: RepairAttemptId,
    pub fin_sequence: u64,
}

impl PartialEq for RepairAck {
    fn eq(&self, other: &Self) -> (equal: bool) {
        self.attempt == other.attempt && self.fin_sequence == other.fin_sequence
    }
}

impl vstd::std_specs::cmp::PartialEqSpecImpl for RepairAck {
    open spec fn obeys_eq_spec() -> bool {
        true
    }

    open spec fn eq_spec(&self, other: &Self) -> bool {
        *self == *other
    }
}

#[derive(Clone, Copy, PartialEq, Eq, Debug, Structural)]
pub enum RepairCloseError {
    WrongAttempt,
    NonMonotonicRepairSequence,
    RepairAfterFin,
    FinBeforeTerminal,
    MissingRepairPrefix,
    DuplicateFin,
    ConflictingFin,
    MissingRemoteFin,
    DuplicateAck,
    WrongAckSequence,
}

impl RepairCloseError {
    /// The error in words.
    pub open spec fn text(self) -> Seq<char> {
        match self {
            RepairCloseError::WrongAttempt =>
                "repair lifecycle message belongs to another attempt"@,
            RepairCloseError::NonMonotonicRepairSequence =>
                "repair sequence did not advance monotonically"@,
            RepairCloseError::RepairAfterFin => "repair frame arrived after FIN"@,
            RepairCloseError::FinBeforeTerminal =>
                "repair FIN was requested before the HHHS attempt became terminal"@,
            RepairCloseError::MissingRepairPrefix =>
                "repair attempt has no authenticated frame prefix"@,
            RepairCloseError::DuplicateFin => "repair FIN is duplicated"@,
            RepairCloseError::ConflictingFin =>
                "repair FIN conflicts with the previously authenticated FIN"@,
            RepairCloseError::MissingRemoteFin => "remote repair FIN has not arrived"@,
            RepairCloseError::DuplicateAck => "repair ACK is duplicated"@,
            RepairCloseError::WrongAckSequence =>
                "repair ACK names another authenticated FIN sequence"@,
        }
    }

    pub fn message(&self) -> (message: &'static str)
        ensures
            message@ == self.text(),
    {
        match self {
            RepairCloseError::WrongAttempt => "repair lifecycle message belongs to another attempt",
            RepairCloseError::NonMonotonicRepairSequence =>
                "repair sequence did not advance monotonically",
            RepairCloseError::RepairAfterFin => "repair frame arrived after FIN",
            RepairCloseError::FinBeforeTerminal =>
                "repair FIN was requested before the HHHS attempt became terminal",
            RepairCloseError::MissingRepairPrefix =>
                "repair attempt has no authenticated frame prefix",
            RepairCloseError::DuplicateFin => "repair FIN is duplicated",
            RepairCloseError::ConflictingFin =>
                "repair FIN conflicts with the previously authenticated FIN",
            RepairCloseError::MissingRemoteFin => "remote repair FIN has not arrived",
            RepairCloseError::DuplicateAck => "repair ACK is duplicated",
            RepairCloseError::WrongAckSequence =>
                "repair ACK names another authenticated FIN sequence",
        }
    }
}

/// What one end knows of the close of a repair attempt.
pub struct CloseView {
    pub attempt: RepairAttemptId,
    pub local_terminal: bool,
    pub local_last_repair: Option<u64>,
    pub local_fin: Option<u64>,
    pub local_fin_acked: bool,
    pub remote_last_repair: Option<u64>,
    pub remote_fin: Option<RepairFin>,
    pub remote_fin_sequence: Option<u64>,
    pub remote_ack: Option<u64>,
    pub remote_ack_confirmed: bool,
}

/// What can happen to a repair attempt at one end.
pub enum CloseEvent {
    LocalRepair(u64),
    RemoteRepair(u64),
    LocalTerminal,
    LocalFinEncoded(u64),
    RemoteFin(RepairFin, u64),
    RemoteAckEncoded(u64),
    RemoteAckSent(u64),
    LocalFinAck(RepairAck),
}

impl CloseView {
    pub open spec fn initial(attempt: RepairAttemptId) -> CloseView {
        CloseView {
            attempt,
            local_terminal: false,
            local_last_repair: None,
            local_fin: None,
            local_fin_acked: false,
            remote_last_repair: None,
            remote_fin: None,
            remote_fin_sequence: None,
            remote_ack: None,
            remote_ack_confirmed: false,
        }
    }

    /// What holds of every state that events lead to.
    pub open spec fn coherent(self) -> bool {
        &&& self.local_fin is Some ==> self.local_terminal
        &&& self.local_fin_acked ==> self.local_fin is Some
        &&& self.remote_fin is Some <==> self.remote_fin_sequence is Some
        &&& self.remote_fin is Some ==> self.remote_fin->0.attempt == self.attempt
        &&& self.remote_fin is Some && self.remote_last_repair is Some
            ==> self.remote_last_repair->0 <= self.remote_fin->0.last_repair_sequence
        &&& self.remote_ack is Some ==> self.local_terminal && self.remote_prefix_complete()
        &&& self.remote_ack_confirmed ==> self.remote_ack is Some
    }

    /// Whether the peer declared its last repair frame, and that frame arrived.
    pub open spec fn remote_prefix_complete(self) -> bool {
        self.remote_fin is Some && self.remote_last_repair == Some(
            self.remote_fin->0.last_repair_sequence,
        )
    }

    pub open spec fn confirmed_closed(self) -> bool {
        self.local_terminal && self.local_fin_acked && self.remote_fin is Some
            && self.remote_ack_confirmed
    }

    /// The FIN that this end may send.
    pub open spec fn local_fin_due(self) -> Result<RepairFin, RepairCloseError> {
        if !self.local_terminal {
            Err(RepairCloseError::FinBeforeTerminal)
        } else if self.local_last_repair is None {
            Err(RepairCloseError::MissingRepairPrefix)
        } else if self.local_fin is Some {
            Err(RepairCloseError::DuplicateFin)
        } else {
            Ok(
                RepairFin {
                    attempt: self.attempt,
                    last_repair_sequence: self.local_last_repair->0,
                },
            )
        }
    }

    /// The acknowledgement that this end may send.
    pub open spec fn remote_ack_due(self) -> Result<RepairAck, RepairCloseError> {
        if !self.local_terminal {
            Err(RepairCloseError::FinBeforeTerminal)
        } else if self.remote_fin is None {
            Err(RepairCloseError::MissingRemoteFin)
        } else if !self.remote_prefix_complete() {
            Err(RepairCloseError::MissingRepairPrefix)
        } else if self.remote_ack is Some {
            Err(RepairCloseError::DuplicateAck)
        } else {
            Ok(RepairAck { attempt: self.attempt, fin_sequence: self.remote_fin_sequence->0 })
        }
    }

    /// The state after an event, or why the event is refused.
    pub open spec fn after(self, event: CloseEvent) -> Result<CloseView, RepairCloseError> {
        match event {
            CloseEvent::LocalRepair(sequence) => if self.local_fin is Some {
                Err(RepairCloseError::RepairAfterFin)
            } else if self.local_last_repair is Some && sequence <= self.local_last_repair->0 {
                Err(RepairCloseError::NonMonotonicRepairSequence)
            } else {
                Ok(CloseView { local_last_repair: Some(sequence), ..self })
            },
            CloseEvent::RemoteRepair(sequence) => if self.remote_last_repair is Some && sequence
                <= self.remote_last_repair->0 {
                Err(RepairCloseError::NonMonotonicRepairSequence)
            } else if self.remote_fin is Some && sequence
                > self.remote_fin->0.last_repair_sequence {
                Err(RepairCloseError::RepairAfterFin)
            } else {
                Ok(CloseView { remote_last_repair: Some(sequence), ..self })
            },
            CloseEvent::LocalTerminal => Ok(CloseView { local_terminal: true, ..self }),
            CloseEvent::LocalFinEncoded(sequence) => if !self.local_terminal {
                Err(RepairCloseError::FinBeforeTerminal)
            } else if self.local_fin is Some {
                Err(RepairCloseError::DuplicateFin)
            } else {
                Ok(CloseView { local_fin: Some(sequence), ..self })
            },
            CloseEvent::RemoteFin(fin, sequence) => if fin.attempt != self.attempt {
                Err(RepairCloseError::WrongAttempt)
            } else if self.remote_fin is Some {
                if self.remote_fin == Some(fin) && self.remote_fin_sequence == Some(sequence) {
                    Ok(self)
                } else {
                    Err(RepairCloseError::ConflictingFin)
                }
            } else if self.remote_last_repair is Some && self.remote_last_repair->0
                > fin.last_repair_sequence {
                Err(RepairCloseError::RepairAfterFin)
            } else {
                Ok(
                    CloseView {
                        remote_fin: Some(fin),
                        remote_fin_sequence: Some(sequence),
                        ..self
                    },
                )
            },
            CloseEvent::RemoteAckEncoded(sequence) => match self.remote_ack_due() {
                Err(error) => Err(error),
                Ok(_) => Ok(CloseView { remote_ack: Some(sequence), ..self }),
            },
            CloseEvent::RemoteAckSent(sequence) => if self.remote_ack != Some(sequence) {
                Err(RepairCloseError::WrongAckSequence)
            } else {
                Ok(CloseView { remote_ack_confirmed: true, ..self })
            },
            CloseEvent::LocalFinAck(ack) => if ack.attempt != self.attempt {
                Err(RepairCloseError::WrongAttempt)
            } else if self.local_fin != Some(ack.fin_sequence) {
                Err(RepairCloseError::WrongAckSequence)
            } else {
                Ok(CloseView { local_fin_acked: true, ..self })
            },
        }
    }
}

/// Authenticated BLE close state for one repair attempt.
///
/// The repair protocol establishes the causal result; this state establishes
/// that both BLE directions carried the complete terminal prefix. End of
/// stream, disconnect, queue acceptance, or a FIN for another attempt never
/// closes an attempt successfully.
#[derive(PartialEq, Eq, Debug)]
pub struct RepairCloseState {
    attempt: RepairAttemptId,
    local_terminal: bool,
    local_last_repair_sequence: Option<u64>,
    local_fin_sequence: Option<u64>,
    local_fin_acked: bool,
    remote_last_repair_sequence: Option<u64>,
    remote_fin: Option<RepairFin>,
    remote_fin_sequence: Option<u64>,
    remote_ack_sequence: Option<u64>,
    remote_ack_confirmed: bool,
}

impl View for RepairCloseState {
    type V = CloseView;

    closed spec fn view(&self) -> CloseView {
        CloseView {
            attempt: self.attempt,
            local_terminal: self.local_terminal,
            local_last_repair: self.local_last_repair_sequence,
            local_fin: self.local_fin_sequence,
            local_fin_acked: self.local_fin_acked,
            remote_last_repair: self.remote_last_repair_sequence,
            remote_fin: self.remote_fin,
            remote_fin_sequence: self.remote_fin_sequence,
            remote_ack: self.remote_ack_sequence,
            remote_ack_confirmed: self.remote_ack_confirmed,
        }
    }
}

/// What a call that offers an event to a state returns and leaves behind.
pub open spec fn close_step(
    before: CloseView,
    event: CloseEvent,
    after: CloseView,
    result: Result<(), RepairCloseError>,
) -> bool {
    match before.after(event) {
        Ok(next) => result is Ok && after == next,
        Err(error) => result == Err::<(), RepairCloseError>(error) && after == before,
    }
}

impl RepairCloseState {
    #[verifier::type_invariant]
    spec fn coherent(self) -> bool {
        self@.coherent()
    }

    pub fn new(attempt: RepairAttemptId) -> (state: Self)
        ensures
            state@ == CloseView::initial(attempt),
    {
        RepairCloseState {
            attempt,
            local_terminal: false,
            local_last_repair_sequence: None,
            local_fin_sequence: None,
            local_fin_acked: false,
            remote_last_repair_sequence: None,
            remote_fin: None,
            remote_fin_sequence: None,
            remote_ack_sequence: None,
            remote_ack_confirmed: false,
        }
    }

    pub fn attempt(&self) -> (attempt: RepairAttemptId)
        ensures
            attempt == self@.attempt,
    {
        self.attempt
    }

    pub fn has_local_fin(&self) -> (r: bool)
        ensures
            r == self@.local_fin is Some,
    {
        self.local_fin_sequence.is_some()
    }

    pub fn has_remote_ack(&self) -> (r: bool)
        ensures
            r == self@.remote_ack is Some,
    {
        self.remote_ack_sequence.is_some()
    }

    /// Whether this end can send its FIN now.
    pub fn local_fin_pending(&self) -> (r: bool)
        ensures
            r == self@.local_fin_due() is Ok,
    {
        self.local_terminal && self.local_last_repair_sequence.is_some()
            && self.local_fin_sequence.is_none()
    }

    /// Whether this end can acknowledge the peer's FIN now.
    pub fn remote_ack_pending(&self) -> (r: bool)
        ensures
            r == self@.remote_ack_due() is Ok,
    {
        self.local_terminal && match self.remote_fin {
            Some(fin) => self.remote_last_repair_sequence == Some(fin.last_repair_sequence)
                && self.remote_ack_sequence.is_none(),
            None => false,
        }
    }

    pub fn observe_local_repair(&mut self, sequence: u64) -> (result: Result<(), RepairCloseError>)
        ensures
            close_step(old(self)@, CloseEvent::LocalRepair(sequence), final(self)@, result),
    {
        proof {
            use_type_invariant(&*self);
        }
        if self.local_fin_sequence.is_some() {
            return Err(RepairCloseError::RepairAfterFin);
        }
        if let Some(previous) = self.local_last_repair_sequence {
            if sequence <= previous {
                return Err(RepairCloseError::NonMonotonicRepairSequence);
            }
        }
        self.local_last_repair_sequence = Some(sequence);
        Ok(())
    }

    pub fn observe_remote_repair(&mut self, sequence: u64) -> (result: Result<
        (),
        RepairCloseError,
    >)
        ensures
            close_step(old(self)@, CloseEvent::RemoteRepair(sequence), final(self)@, result),
    {
        proof {
            use_type_invariant(&*self);
        }
        if let Some(previous) = self.remote_last_repair_sequence {
            if sequence <= previous {
                return Err(RepairCloseError::NonMonotonicRepairSequence);
            }
        }
        if let Some(fin) = self.remote_fin {
            if sequence > fin.last_repair_sequence {
                return Err(RepairCloseError::RepairAfterFin);
            }
        }
        self.remote_last_repair_sequence = Some(sequence);
        Ok(())
    }

    pub fn mark_local_terminal(&mut self)
        ensures
            close_step(
                old(self)@,
                CloseEvent::LocalTerminal,
                final(self)@,
                Ok::<(), RepairCloseError>(()),
            ),
    {
        proof {
            use_type_invariant(&*self);
        }
        self.local_terminal = true;
    }

    pub fn local_fin(&self) -> (result: Result<RepairFin, RepairCloseError>)
        ensures
            result == self@.local_fin_due(),
    {
        if !self.local_terminal {
            return Err(RepairCloseError::FinBeforeTerminal);
        }
        let last_repair_sequence: u64 = match self.local_last_repair_sequence {
            Some(sequence) => sequence,
            None => {
                return Err(RepairCloseError::MissingRepairPrefix);
            },
        };
        if self.local_fin_sequence.is_some() {
            return Err(RepairCloseError::DuplicateFin);
        }
        Ok(RepairFin { attempt: self.attempt, last_repair_sequence })
    }

    pub fn observe_local_fin_encoded(&mut self, sequence: u64) -> (result: Result<
        (),
        RepairCloseError,
    >)
        ensures
            close_step(old(self)@, CloseEvent::LocalFinEncoded(sequence), final(self)@, result),
    {
        proof {
            use_type_invariant(&*self);
        }
        if !self.local_terminal {
            return Err(RepairCloseError::FinBeforeTerminal);
        }
        if self.local_fin_sequence.is_some() {
            return Err(RepairCloseError::DuplicateFin);
        }
        self.local_fin_sequence = Some(sequence);
        Ok(())
    }

    pub fn observe_remote_fin(&mut self, fin: RepairFin, fin_sequence: u64) -> (result: Result<
        (),
        RepairCloseError,
    >)
        ensures
            close_step(
                old(self)@,
                CloseEvent::RemoteFin(fin, fin_sequence),
                final(self)@,
                result,
            ),
    {
        proof {
            use_type_invariant(&*self);
        }
        if fin.attempt != self.attempt {
            return Err(RepairCloseError::WrongAttempt);
        }
        if let Some(current) = self.remote_fin {
            return if current == fin && self.remote_fin_sequence == Some(fin_sequence) {
                Ok(())
            } else {
                Err(RepairCloseError::ConflictingFin)
            };
        }
        if let Some(sequence) = self.remote_last_repair_sequence {
            if sequence > fin.last_repair_sequence {
                return Err(RepairCloseError::RepairAfterFin);
            }
        }
        let next = RepairCloseState {
            attempt: self.attempt,
            local_terminal: self.local_terminal,
            local_last_repair_sequence: self.local_last_repair_sequence,
            local_fin_sequence: self.local_fin_sequence,
            local_fin_acked: self.local_fin_acked,
            remote_last_repair_sequence: self.remote_last_repair_sequence,
            remote_fin: Some(fin),
            remote_fin_sequence: Some(fin_sequence),
            remote_ack_sequence: self.remote_ack_sequence,
            remote_ack_confirmed: self.remote_ack_confirmed,
        };
        *self = next;
        Ok(())
    }

    pub fn remote_ack(&self) -> (result: Result<RepairAck, RepairCloseError>)
        ensures
            result == self@.remote_ack_due(),
    {
        proof {
            use_type_invariant(self);
        }
        if !self.local_terminal {
            return Err(RepairCloseError::FinBeforeTerminal);
        }
        let fin: RepairFin = match self.remote_fin {
            Some(fin) => fin,
            None => {
                return Err(RepairCloseError::MissingRemoteFin);
            },
        };
        if self.remote_last_repair_sequence != Some(fin.last_repair_sequence) {
            return Err(RepairCloseError::MissingRepairPrefix);
        }
        if self.remote_ack_sequence.is_some() {
            return Err(RepairCloseError::DuplicateAck);
        }
        match self.remote_fin_sequence {
            Some(fin_sequence) => Ok(RepairAck { attempt: self.attempt, fin_sequence }),
            None => Err(RepairCloseError::MissingRemoteFin),
        }
    }

    /// Records that the acknowledgement was encoded, if it may be sent at all.
    pub fn observe_remote_ack_encoded(&mut self, sequence: u64) -> (result: Result<
        (),
        RepairCloseError,
    >)
        ensures
            close_step(old(self)@, CloseEvent::RemoteAckEncoded(sequence), final(self)@, result),
    {
        proof {
            use_type_invariant(&*self);
        }
        match self.remote_ack() {
            Ok(_) => {},
            Err(error) => {
                return Err(error);
            },
        }
        self.remote_ack_sequence = Some(sequence);
        Ok(())
    }

    pub fn confirm_remote_ack_sent(&mut self, sequence: u64) -> (result: Result<
        (),
        RepairCloseError,
    >)
        ensures
            close_step(old(self)@, CloseEvent::RemoteAckSent(sequence), final(self)@, result),
    {
        proof {
            use_type_invariant(&*self);
        }
        if self.remote_ack_sequence != Some(sequence) {
            return Err(RepairCloseError::WrongAckSequence);
        }
        self.remote_ack_confirmed = true;
        Ok(())
    }

    pub fn observe_local_fin_ack(&mut self, ack: RepairAck) -> (result: Result<
        (),
        RepairCloseError,
    >)
        ensures
            close_step(old(self)@, CloseEvent::LocalFinAck(ack), final(self)@, result),
    {
        proof {
            use_type_invariant(&*self);
        }
        if ack.attempt != self.attempt {
            return Err(RepairCloseError::WrongAttempt);
        }
        if self.local_fin_sequence != Some(ack.fin_sequence) {
            return Err(RepairCloseError::WrongAckSequence);
        }
        self.local_fin_acked = true;
        Ok(())
    }

    /// Whether the attempt is closed. It is only where this end finished and
    /// its FIN was acknowledged, and the peer's FIN arrived, after every repair
    /// frame that it declares, and was acknowledged.
    pub fn is_confirmed_closed(&self) -> (closed: bool)
        ensures
            closed == self@.confirmed_closed(),
            closed ==> self@.local_fin is Some && self@.remote_prefix_complete()
                && self@.remote_ack is Some,
    {
        proof {
            use_type_invariant(self);
        }
        self.local_terminal && self.local_fin_acked && self.remote_fin.is_some()
            && self.remote_ack_confirmed
    }
}

impl Clone for RepairCloseState {
    fn clone(&self) -> (state: Self)
        ensures
            state == *self,
    {
        proof {
            use_type_invariant(self);
        }
        RepairCloseState {
            attempt: self.attempt,
            local_terminal: self.local_terminal,
            local_last_repair_sequence: self.local_last_repair_sequence,
            local_fin_sequence: self.local_fin_sequence,
            local_fin_acked: self.local_fin_acked,
            remote_last_repair_sequence: self.remote_last_repair_sequence,
            remote_fin: self.remote_fin,
            remote_fin_sequence: self.remote_fin_sequence,
            remote_ack_sequence: self.remote_ack_sequence,
            remote_ack_confirmed: self.remote_ack_confirmed,
        }
    }
}

/// Events lead from coherent states to coherent states.
pub proof fn law_close_events_keep_coherence(state: CloseView, event: CloseEvent)
    requires
        state.coherent(),
        state.after(event) is Ok,
    ensures
        state.after(event)->Ok_0.coherent(),
{
}

/// An attempt that is closed stays closed, whatever else arrives.
pub proof fn law_closed_stays_closed(state: CloseView, event: CloseEvent)
    requires
        state.coherent(),
        state.confirmed_closed(),
        state.after(event) is Ok,
    ensures
        state.after(event)->Ok_0.confirmed_closed(),
{
}

/// A message of another attempt is refused in every state.
pub proof fn law_other_attempts_are_refused(
    state: CloseView,
    fin: RepairFin,
    ack: RepairAck,
    sequence: u64,
)
    requires
        fin.attempt != state.attempt,
        ack.attempt != state.attempt,
    ensures
        state.after(CloseEvent::RemoteFin(fin, sequence)) == Err::<CloseView, RepairCloseError>(
            RepairCloseError::WrongAttempt,
        ),
        state.after(CloseEvent::LocalFinAck(ack)) == Err::<CloseView, RepairCloseError>(
            RepairCloseError::WrongAttempt,
        ),
{
}

/// What the identity of a repair attempt is derived from.
pub open spec fn attempt_input(session_id: u64, opening_frame: Seq<u8>) -> Seq<u8> {
    REPAIR_ATTEMPT_DOMAIN@ + bytes::be(session_id as nat, 8) + opening_frame
}

/// The bytes that the identity of a repair attempt is derived from.
pub fn encode_attempt_input(session_id: u64, opening_frame: &[u8]) -> (input: Vec<u8>)
    ensures
        input@ == attempt_input(session_id, opening_frame@),
{
    let mut input: Vec<u8> = bytes::to_vec(&REPAIR_ATTEMPT_DOMAIN);
    bytes::push_be(&mut input, session_id, 8);
    bytes::push_bytes(&mut input, opening_frame);
    input
}

/// The identity that a digest gives.
pub fn attempt_of_digest(digest: &[u8; 32]) -> (id: RepairAttemptId)
    ensures
        id@ == digest@.subrange(0, REPAIR_ATTEMPT_ID_BYTES as int),
{
    RepairAttemptId::new(bytes::array_at::<REPAIR_ATTEMPT_ID_BYTES>(digest, 0))
}

/// Derive the carrier attempt identity from the authenticated link placement
/// and the byte-exact opening frame. Both endpoints therefore agree without
/// adding an unauthenticated repair-begin message.
pub fn repair_attempt_id(session_id: u64, opening_frame: &[u8]) -> (id: RepairAttemptId)
    ensures
        id@ == crypto::blake3_hash(attempt_input(session_id, opening_frame@)).subrange(
            0,
            REPAIR_ATTEMPT_ID_BYTES as int,
        ),
{
    let input: Vec<u8> = encode_attempt_input(session_id, opening_frame);
    let digest: [u8; 32] = crypto::hash(input.as_slice());
    attempt_of_digest(&digest)
}

/// No two attempts on links or with opening frames of their own are derived
/// from the same bytes.
pub proof fn law_attempt_input_tells_attempts_apart(a: u64, x: Seq<u8>, b: u64, y: Seq<u8>)
    requires
        attempt_input(a, x) == attempt_input(b, y),
    ensures
        a == b,
        x == y,
{
    bytes::lemma_be_len(a as nat, 8);
    bytes::lemma_be_len(b as nat, 8);
    let (s, t) = (attempt_input(a, x), attempt_input(b, y));
    assert(s.subrange(32, 40) =~= bytes::be(a as nat, 8));
    assert(t.subrange(32, 40) =~= bytes::be(b as nat, 8));
    assert(s.subrange(40, s.len() as int) =~= x);
    assert(t.subrange(40, t.len() as int) =~= y);
    bytes::lemma_be_ranges();
    bytes::lemma_be_injective(a as nat, b as nat, 8);
}

/// A repair frame of ours is taken where we have not finished and its number is higher
/// than the last; one of the peer where its number is higher than the last and not
/// beyond what the peer finished with. Each moves its own last number and nothing
/// else.
pub proof fn law_repair_frames_advance(state: CloseView, sequence: u64)
    ensures
        state.after(CloseEvent::LocalRepair(sequence)) is Ok <==> state.local_fin is None && (
        state.local_last_repair is None || state.local_last_repair->0 < sequence),
        state.local_fin is Some ==> state.after(CloseEvent::LocalRepair(sequence)) == Err::<
            CloseView,
            RepairCloseError,
        >(RepairCloseError::RepairAfterFin),
        state.after(CloseEvent::LocalRepair(sequence)) is Err && state.local_fin is None
            ==> state.after(CloseEvent::LocalRepair(sequence))->Err_0
            == RepairCloseError::NonMonotonicRepairSequence,
        state.after(CloseEvent::LocalRepair(sequence)) matches Ok(next) ==> next == (CloseView {
            local_last_repair: Some(sequence),
            ..state
        }),
        state.after(CloseEvent::RemoteRepair(sequence)) is Ok <==> (state.remote_last_repair is None
            || state.remote_last_repair->0 < sequence) && (state.remote_fin is None || sequence
            <= state.remote_fin->0.last_repair_sequence),
        state.remote_last_repair is Some && sequence <= state.remote_last_repair->0 ==> state.after(
            CloseEvent::RemoteRepair(sequence),
        ) == Err::<CloseView, RepairCloseError>(RepairCloseError::NonMonotonicRepairSequence),
        state.after(CloseEvent::RemoteRepair(sequence)) is Err && !(
        state.remote_last_repair is Some && sequence <= state.remote_last_repair->0)
            ==> state.after(CloseEvent::RemoteRepair(sequence))->Err_0
            == RepairCloseError::RepairAfterFin,
        state.after(CloseEvent::RemoteRepair(sequence)) matches Ok(next) ==> next == (CloseView {
            remote_last_repair: Some(sequence),
            ..state
        }),
        state.after(CloseEvent::LocalTerminal) == Ok::<CloseView, RepairCloseError>(
            CloseView { local_terminal: true, ..state },
        ),
{
}

/// We finish once our attempt has ended and something was repaired, and once only,
/// naming the last number that we sent.
pub proof fn law_we_finish_once(state: CloseView, sequence: u64)
    ensures
        state.local_fin_due() is Ok <==> state.local_terminal && state.local_last_repair is Some
            && state.local_fin is None,
        state.local_fin_due() matches Ok(fin) ==> fin.attempt == state.attempt
            && state.local_last_repair == Some(fin.last_repair_sequence),
        !state.local_terminal ==> state.local_fin_due() == Err::<RepairFin, RepairCloseError>(
            RepairCloseError::FinBeforeTerminal,
        ),
        state.local_terminal && state.local_last_repair is None ==> state.local_fin_due() == Err::<
            RepairFin,
            RepairCloseError,
        >(RepairCloseError::MissingRepairPrefix),
        state.local_terminal && state.local_last_repair is Some && state.local_fin is Some
            ==> state.local_fin_due() == Err::<RepairFin, RepairCloseError>(
            RepairCloseError::DuplicateFin,
        ),
        state.after(CloseEvent::LocalFinEncoded(sequence)) is Ok <==> state.local_terminal
            && state.local_fin is None,
        state.after(CloseEvent::LocalFinEncoded(sequence)) matches Ok(next) ==> next == (CloseView {
            local_fin: Some(sequence),
            ..state
        }),
        !state.local_terminal ==> state.after(CloseEvent::LocalFinEncoded(sequence)) == Err::<
            CloseView,
            RepairCloseError,
        >(RepairCloseError::FinBeforeTerminal),
        state.local_terminal && state.local_fin is Some ==> state.after(
            CloseEvent::LocalFinEncoded(sequence),
        ) == Err::<CloseView, RepairCloseError>(RepairCloseError::DuplicateFin),
{
}

/// The peer's end is taken where it is of this attempt, is the first or the same as
/// the first, and nothing beyond it has arrived.
pub proof fn law_the_peer_finishes_once(state: CloseView, fin: RepairFin, sequence: u64)
    ensures
        ({
            let next = state.after(CloseEvent::RemoteFin(fin, sequence));
            &&& fin.attempt != state.attempt ==> next == Err::<CloseView, RepairCloseError>(
                RepairCloseError::WrongAttempt,
            )
            &&& fin.attempt == state.attempt && state.remote_fin is Some ==> next == if
                state.remote_fin == Some(fin) && state.remote_fin_sequence == Some(sequence) {
                Ok::<CloseView, RepairCloseError>(state)
            } else {
                Err(RepairCloseError::ConflictingFin)
            }
            &&& fin.attempt == state.attempt && state.remote_fin is None ==> next == if
                state.remote_last_repair is Some && state.remote_last_repair->0
                > fin.last_repair_sequence {
                Err::<CloseView, RepairCloseError>(RepairCloseError::RepairAfterFin)
            } else {
                Ok(
                    CloseView {
                        remote_fin: Some(fin),
                        remote_fin_sequence: Some(sequence),
                        ..state
                    },
                )
            }
        }),
{
}

/// We acknowledge the peer's end once ours has come and everything before the peer's
/// end has arrived, and once only, naming the number under which that end came. The
/// acknowledgement counts when it was sent.
pub proof fn law_we_acknowledge_once(state: CloseView, sequence: u64)
    ensures
        state.remote_ack_due() is Ok <==> state.local_terminal && state.remote_fin is Some
            && state.remote_last_repair == Some(state.remote_fin->0.last_repair_sequence)
            && state.remote_ack is None,
        state.remote_ack_due() matches Ok(ack) ==> ack.attempt == state.attempt && ack.fin_sequence
            == state.remote_fin_sequence->0,
        !state.local_terminal ==> state.remote_ack_due() == Err::<RepairAck, RepairCloseError>(
            RepairCloseError::FinBeforeTerminal,
        ),
        state.local_terminal && state.remote_fin is None ==> state.remote_ack_due() == Err::<
            RepairAck,
            RepairCloseError,
        >(RepairCloseError::MissingRemoteFin),
        state.local_terminal && state.remote_fin is Some && state.remote_last_repair != Some(
            state.remote_fin->0.last_repair_sequence,
        ) ==> state.remote_ack_due() == Err::<RepairAck, RepairCloseError>(
            RepairCloseError::MissingRepairPrefix,
        ),
        state.after(CloseEvent::RemoteAckEncoded(sequence)) == (match state.remote_ack_due() {
            Ok(_) => Ok::<CloseView, RepairCloseError>(
                CloseView { remote_ack: Some(sequence), ..state },
            ),
            Err(error) => Err(error),
        }),
        state.after(CloseEvent::RemoteAckSent(sequence)) == if state.remote_ack == Some(sequence) {
            Ok::<CloseView, RepairCloseError>(CloseView { remote_ack_confirmed: true, ..state })
        } else {
            Err(RepairCloseError::WrongAckSequence)
        },
{
}

/// The peer's acknowledgement counts where it is of this attempt and names the number
/// of our end. An attempt is closed once both ends are known to both.
pub proof fn law_both_ends_close(state: CloseView, ack: RepairAck)
    ensures
        state.after(CloseEvent::LocalFinAck(ack)) == if ack.attempt != state.attempt {
            Err::<CloseView, RepairCloseError>(RepairCloseError::WrongAttempt)
        } else if state.local_fin != Some(ack.fin_sequence) {
            Err(RepairCloseError::WrongAckSequence)
        } else {
            Ok(CloseView { local_fin_acked: true, ..state })
        },
        state.confirmed_closed() <==> state.local_terminal && state.local_fin_acked
            && state.remote_fin is Some && state.remote_ack_confirmed,
        ({
            let fresh = CloseView::initial(state.attempt);
            &&& fresh.attempt == state.attempt
            &&& !fresh.local_terminal
            &&& fresh.local_last_repair is None
            &&& fresh.local_fin is None
            &&& !fresh.local_fin_acked
            &&& fresh.remote_last_repair is None
            &&& fresh.remote_fin is None
            &&& fresh.remote_fin_sequence is None
            &&& fresh.remote_ack is None
            &&& !fresh.remote_ack_confirmed
        }),
{
}

/// A refused event leaves everything as it was.
pub proof fn law_refused_events_change_nothing(
    before: CloseView,
    event: CloseEvent,
    after: CloseView,
    result: Result<(), RepairCloseError>,
)
    requires
        close_step(before, event, after, result),
    ensures
        result is Err ==> after == before && before.after(event) == Err::<
            CloseView,
            RepairCloseError,
        >(result->Err_0),
        result is Ok ==> before.after(event) == Ok::<CloseView, RepairCloseError>(after),
{
}

/// An attempt is known by a digest over its session and the frame that opened it.
pub proof fn law_attempts_are_named_by_their_opening(session_id: u64, opening_frame: Seq<u8>)
    ensures
        ({
            let domain = seq![
                0x74u8, 0x75, 0x74, 0x74, 0x69, 0x20, 0x42, 0x4c, 0x45, 0x20, 0x48, 0x48,
                0x48, 0x53, 0x20, 0x72, 0x65, 0x70, 0x61, 0x69, 0x72, 0x20, 0x61, 0x74,
                0x74, 0x65, 0x6d, 0x70, 0x74, 0x20, 0x76, 0x31,
            ];
            attempt_input(session_id, opening_frame) == domain + bytes::be(session_id as nat, 8)
                + opening_frame
        }),
{
    let domain = seq![
        0x74u8, 0x75, 0x74, 0x74, 0x69, 0x20, 0x42, 0x4c, 0x45, 0x20, 0x48, 0x48,
        0x48, 0x53, 0x20, 0x72, 0x65, 0x70, 0x61, 0x69, 0x72, 0x20, 0x61, 0x74,
        0x74, 0x65, 0x6d, 0x70, 0x74, 0x20, 0x76, 0x31,
    ];
    assert(REPAIR_ATTEMPT_DOMAIN@ =~= domain);
}

/// Every refusal of the close says in words what was wrong.
pub proof fn law_close_refusals_are_worded()
    ensures
        RepairCloseError::WrongAttempt.text()
            == "repair lifecycle message belongs to another attempt"@,
        RepairCloseError::NonMonotonicRepairSequence.text()
            == "repair sequence did not advance monotonically"@,
        RepairCloseError::RepairAfterFin.text() == "repair frame arrived after FIN"@,
        RepairCloseError::FinBeforeTerminal.text()
            == "repair FIN was requested before the HHHS attempt became terminal"@,
        RepairCloseError::MissingRepairPrefix.text()
            == "repair attempt has no authenticated frame prefix"@,
        RepairCloseError::DuplicateFin.text() == "repair FIN is duplicated"@,
        RepairCloseError::ConflictingFin.text()
            == "repair FIN conflicts with the previously authenticated FIN"@,
        RepairCloseError::MissingRemoteFin.text() == "remote repair FIN has not arrived"@,
        RepairCloseError::DuplicateAck.text() == "repair ACK is duplicated"@,
        RepairCloseError::WrongAckSequence.text()
            == "repair ACK names another authenticated FIN sequence"@,
{
}

/// Attempts are the same exactly where their bytes are, and messages of the close where
/// their attempts and their numbers are.
pub proof fn law_close_messages_are_their_fields(
    a: RepairAttemptId,
    b: RepairAttemptId,
    m: u64,
    n: u64,
)
    ensures
        vstd::std_specs::cmp::PartialEqSpec::eq_spec(&a, &b) <==> a@ == b@,
        vstd::std_specs::cmp::PartialEqSpec::eq_spec(
            &(RepairFin { attempt: a, last_repair_sequence: m }),
            &(RepairFin { attempt: b, last_repair_sequence: n }),
        ) <==> a@ == b@ && m == n,
        vstd::std_specs::cmp::PartialEqSpec::eq_spec(
            &(RepairAck { attempt: a, fin_sequence: m }),
            &(RepairAck { attempt: b, fin_sequence: n }),
        ) <==> a@ == b@ && m == n,
{
    if a@ == b@ {
        RepairAttemptId::lemma_extensional(a, b);
    }
}

} // verus!
