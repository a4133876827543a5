//! What can go wrong on a BLE link.

use crate::session::error::{ReplayError, SessionError};
use crate::text;
use vstd::prelude::*;

verus! {

#[derive(Clone, Copy, PartialEq, Eq, Debug, Structural)]
pub enum BleWireError {
    MalformedHello,
    MalformedBootstrap,
    MalformedAuthenticatedFrame,
    MalformedProfile,
    MalformedControlFrame,
    UnknownControlFrame(u8),
    MalformedFragment,
    FragmentValueTooSmall { actual: usize, minimum: usize },
    FragmentOutputTooSmall { required: usize, actual: usize },
    WireMessageTooLarge { actual: usize, maximum: usize },
    PayloadTooLarge { actual: usize, maximum: usize },
    InvalidReassemblyBudget,
    InterleavedMessages,
    PartialAssemblyBudgetExceeded { requested: usize, maximum: usize },
    MissingFragmentStart,
    FragmentDiscontinuity,
    AllocationFailed(usize),
    WrongSession,
    UnknownLane(u8),
    SequenceExhausted,
    InvalidPayloadRestriction { current: usize, requested: usize },
    Session(SessionError),
    Replay(ReplayError),
}

impl BleWireError {
    /// The error in words.
    pub open spec fn text(self) -> Seq<char> {
        match self {
            BleWireError::MalformedHello => "malformed Tutti BLE peer hello"@,
            BleWireError::MalformedBootstrap => "malformed Tutti BLE bootstrap frame"@,
            BleWireError::MalformedAuthenticatedFrame => "malformed authenticated Tutti BLE frame"@,
            BleWireError::MalformedProfile => "malformed Tutti BLE control profile"@,
            BleWireError::MalformedControlFrame => "malformed authenticated Tutti BLE control frame"@,
            BleWireError::UnknownControlFrame(kind) => "unknown authenticated Tutti BLE control frame "@ + text::decimal(kind as nat),
            BleWireError::MalformedFragment => "malformed Tutti BLE fragment"@,
            BleWireError::FragmentValueTooSmall { actual, minimum } => "fragment value is "@ + text::decimal(actual as nat) + " bytes; minimum is "@ + text::decimal(minimum as nat),
            BleWireError::FragmentOutputTooSmall { required, actual } => "fragment output has "@ + text::decimal(actual as nat) + " bytes; "@ + text::decimal(required as nat) + " required"@,
            BleWireError::WireMessageTooLarge { actual, maximum } => "wire message is "@ + text::decimal(actual as nat) + " bytes; maximum is "@ + text::decimal(maximum as nat),
            BleWireError::PayloadTooLarge { actual, maximum } => "payload is "@ + text::decimal(actual as nat) + " bytes; maximum is "@ + text::decimal(maximum as nat),
            BleWireError::InvalidReassemblyBudget => "invalid BLE reassembly budget"@,
            BleWireError::InterleavedMessages => "fragment stream started another message before finishing the current one"@,
            BleWireError::PartialAssemblyBudgetExceeded { requested, maximum } => "partial BLE assemblies retain "@ + text::decimal(requested as nat) + " declared bytes; maximum is "@ + text::decimal(maximum as nat),
            BleWireError::MissingFragmentStart => "fragment arrived without a start fragment"@,
            BleWireError::FragmentDiscontinuity => "fragment id, size, or offset is discontinuous"@,
            BleWireError::AllocationFailed(bytes) => "could not reserve "@ + text::decimal(bytes as nat) + " bytes for a bounded wire message"@,
            BleWireError::WrongSession => "authenticated frame belongs to another session"@,
            BleWireError::UnknownLane(lane) => "unknown authenticated lane "@ + text::decimal(lane as nat),
            BleWireError::SequenceExhausted => "outbound sequence space is exhausted"@,
            BleWireError::InvalidPayloadRestriction { current, requested } => "payload restriction "@ + text::decimal(requested as nat) + " must be within 1..="@ + text::decimal(current as nat),
            BleWireError::Session(error) => "session error: "@ + error.text(),
            BleWireError::Replay(error) => "replay error: "@ + error.text(),
        }
    }

    pub fn message(&self) -> (message: String)
        ensures
            message@ == self.text(),
    {
        match self {
            BleWireError::MalformedHello => text::string_of("malformed Tutti BLE peer hello"),
            BleWireError::MalformedBootstrap => text::string_of("malformed Tutti BLE bootstrap frame"),
            BleWireError::MalformedAuthenticatedFrame => text::string_of("malformed authenticated Tutti BLE frame"),
            BleWireError::MalformedProfile => text::string_of("malformed Tutti BLE control profile"),
            BleWireError::MalformedControlFrame => text::string_of("malformed authenticated Tutti BLE control frame"),
            BleWireError::UnknownControlFrame(kind) => {
                let mut out: String = text::string_of("unknown authenticated Tutti BLE control frame ");
                text::push_decimal(&mut out, *kind as u64);
                out
            },
            BleWireError::MalformedFragment => text::string_of("malformed Tutti BLE fragment"),
            BleWireError::FragmentValueTooSmall { actual, minimum } => {
                let mut out: String = text::string_of("fragment value is ");
                text::push_decimal(&mut out, *actual as u64);
                text::push_str(&mut out, " bytes; minimum is ");
                text::push_decimal(&mut out, *minimum as u64);
                out
            },
            BleWireError::FragmentOutputTooSmall { required, actual } => {
                let mut out: String = text::string_of("fragment output has ");
                text::push_decimal(&mut out, *actual as u64);
                text::push_str(&mut out, " bytes; ");
                text::push_decimal(&mut out, *required as u64);
                text::push_str(&mut out, " required");
                out
            },
            BleWireError::WireMessageTooLarge { actual, maximum } => {
                let mut out: String = text::string_of("wire message is ");
                text::push_decimal(&mut out, *actual as u64);
                text::push_str(&mut out, " bytes; maximum is ");
                text::push_decimal(&mut out, *maximum as u64);
                out
            },
            BleWireError::PayloadTooLarge { actual, maximum } => {
                let mut out: String = text::string_of("payload is ");
                text::push_decimal(&mut out, *actual as u64);
                text::push_str(&mut out, " bytes; maximum is ");
                text::push_decimal(&mut out, *maximum as u64);
                out
            },
            BleWireError::InvalidReassemblyBudget => text::string_of("invalid BLE reassembly budget"),
            BleWireError::InterleavedMessages => text::string_of("fragment stream started another message before finishing the current one"),
            BleWireError::PartialAssemblyBudgetExceeded { requested, maximum } => {
                let mut out: String = text::string_of("partial BLE assemblies retain ");
                text::push_decimal(&mut out, *requested as u64);
                text::push_str(&mut out, " declared bytes; maximum is ");
                text::push_decimal(&mut out, *maximum as u64);
                out
            },
            BleWireError::MissingFragmentStart => text::string_of("fragment arrived without a start fragment"),
            BleWireError::FragmentDiscontinuity => text::string_of("fragment id, size, or offset is discontinuous"),
            BleWireError::AllocationFailed(bytes) => {
                let mut out: String = text::string_of("could not reserve ");
                text::push_decimal(&mut out, *bytes as u64);
                text::push_str(&mut out, " bytes for a bounded wire message");
                out
            },
            BleWireError::WrongSession => text::string_of("authenticated frame belongs to another session"),
            BleWireError::UnknownLane(lane) => {
                let mut out: String = text::string_of("unknown authenticated lane ");
                text::push_decimal(&mut out, *lane as u64);
                out
            },
            BleWireError::SequenceExhausted => text::string_of("outbound sequence space is exhausted"),
            BleWireError::InvalidPayloadRestriction { current, requested } => {
                let mut out: String = text::string_of("payload restriction ");
                text::push_decimal(&mut out, *requested as u64);
                text::push_str(&mut out, " must be within 1..=");
                text::push_decimal(&mut out, *current as u64);
                out
            },
            BleWireError::Session(error) => {
                let mut out: String = text::string_of("session error: ");
                text::push_str(&mut out, error.message());
                out
            },
            BleWireError::Replay(error) => {
                let mut out: String = text::string_of("replay error: ");
                text::push_str(&mut out, error.message());
                out
            },
        }
    }
}

/// Every refusal of the wire says in words what was wrong, and the numbers that show
/// it.
pub proof fn law_wire_refusals_are_worded(
    actual: usize,
    limit: usize,
    byte: u8,
    session: SessionError,
    replay: ReplayError,
)
    ensures
        BleWireError::MalformedHello.text() == "malformed Tutti BLE peer hello"@,
        BleWireError::MalformedBootstrap.text() == "malformed Tutti BLE bootstrap frame"@,
        BleWireError::MalformedAuthenticatedFrame.text()
            == "malformed authenticated Tutti BLE frame"@,
        BleWireError::MalformedProfile.text() == "malformed Tutti BLE control profile"@,
        BleWireError::MalformedControlFrame.text()
            == "malformed authenticated Tutti BLE control frame"@,
        BleWireError::UnknownControlFrame(byte).text()
            == "unknown authenticated Tutti BLE control frame "@ + text::decimal(byte as nat),
        BleWireError::MalformedFragment.text() == "malformed Tutti BLE fragment"@,
        (BleWireError::FragmentValueTooSmall { actual, minimum: limit }).text()
            == "fragment value is "@ + text::decimal(actual as nat) + " bytes; minimum is "@
            + text::decimal(limit as nat),
        (BleWireError::FragmentOutputTooSmall { required: limit, actual }).text()
            == "fragment output has "@ + text::decimal(actual as nat) + " bytes; "@ + text::decimal(
            limit as nat,
        ) + " required"@,
        (BleWireError::WireMessageTooLarge { actual, maximum: limit }).text() == "wire message is "@
            + text::decimal(actual as nat) + " bytes; maximum is "@ + text::decimal(limit as nat),
        (BleWireError::PayloadTooLarge { actual, maximum: limit }).text() == "payload is "@
            + text::decimal(actual as nat) + " bytes; maximum is "@ + text::decimal(limit as nat),
        BleWireError::InvalidReassemblyBudget.text() == "invalid BLE reassembly budget"@,
        BleWireError::InterleavedMessages.text()
            == "fragment stream started another message before finishing the current one"@,
        (BleWireError::PartialAssemblyBudgetExceeded { requested: actual, maximum: limit }).text()
            == "partial BLE assemblies retain "@ + text::decimal(actual as nat)
            + " declared bytes; maximum is "@ + text::decimal(limit as nat),
        BleWireError::MissingFragmentStart.text() == "fragment arrived without a start fragment"@,
        BleWireError::FragmentDiscontinuity.text()
            == "fragment id, size, or offset is discontinuous"@,
        BleWireError::AllocationFailed(actual).text() == "could not reserve "@ + text::decimal(
            actual as nat,
        ) + " bytes for a bounded wire message"@,
        BleWireError::WrongSession.text() == "authenticated frame belongs to another session"@,
        BleWireError::UnknownLane(byte).text() == "unknown authenticated lane "@ + text::decimal(
            byte as nat,
        ),
        BleWireError::SequenceExhausted.text() == "outbound sequence space is exhausted"@,
        (BleWireError::InvalidPayloadRestriction { current: limit, requested: actual }).text()
            == "payload restriction "@ + text::decimal(actual as nat) + " must be within 1..="@
            + text::decimal(limit as nat),
        BleWireError::Session(session).text() == "session error: "@ + session.text(),
        BleWireError::Replay(replay).text() == "replay error: "@ + replay.text(),
{
}

} // verus!
