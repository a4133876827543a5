//! What can go wrong with a session message.

use vstd::prelude::*;

verus! {

#[derive(Clone, Copy, PartialEq, Eq, Debug, Structural)]
pub enum ReplayError {
    TooOld,
    Duplicate,
}

impl ReplayError {
    /// The error in words.
    pub open spec fn text(self) -> Seq<char> {
        match self {
            ReplayError::TooOld => "message is older than the replay window"@,
            ReplayError::Duplicate => "message was already accepted"@,
        }
    }

    pub fn message(&self) -> (message: &'static str)
        ensures
            message@ == self.text(),
    {
        match self {
            ReplayError::TooOld => "message is older than the replay window",
            ReplayError::Duplicate => "message was already accepted",
        }
    }
}

#[derive(Clone, Copy, PartialEq, Eq, Debug, Structural)]
pub enum SessionError {
    Malformed,
    WrongProtocol,
    WrongChannelBinding,
    TranscriptMismatch,
    InvalidIdentity,
    Authentication,
    UnexpectedPeer,
    InvalidKeyAgreement,
}

impl SessionError {
    /// The error in words.
    pub open spec fn text(self) -> Seq<char> {
        match self {
            SessionError::Malformed => "malformed session message"@,
            SessionError::WrongProtocol => "session message belongs to another protocol"@,
            SessionError::WrongChannelBinding =>
                "session message belongs to another channel binding"@,
            SessionError::TranscriptMismatch => "session transcript fields do not match"@,
            SessionError::InvalidIdentity => "peer identity key is invalid"@,
            SessionError::Authentication => "session message authentication failed"@,
            SessionError::UnexpectedPeer => "the responder is not the expected peer"@,
            SessionError::InvalidKeyAgreement =>
                "ephemeral key agreement produced an invalid shared key"@,
        }
    }

    pub fn message(&self) -> (message: &'static str)
        ensures
            message@ == self.text(),
    {
        match self {
            SessionError::Malformed => "malformed session message",
            SessionError::WrongProtocol => "session message belongs to another protocol",
            SessionError::WrongChannelBinding =>
                "session message belongs to another channel binding",
            SessionError::TranscriptMismatch => "session transcript fields do not match",
            SessionError::InvalidIdentity => "peer identity key is invalid",
            SessionError::Authentication => "session message authentication failed",
            SessionError::UnexpectedPeer => "the responder is not the expected peer",
            SessionError::InvalidKeyAgreement =>
                "ephemeral key agreement produced an invalid shared key",
        }
    }
}

/// Every refusal of a session or of a replay says in words what was wrong.
pub proof fn law_session_refusals_are_worded()
    ensures
        ReplayError::TooOld.text() == "message is older than the replay window"@,
        ReplayError::Duplicate.text() == "message was already accepted"@,
        SessionError::Malformed.text() == "malformed session message"@,
        SessionError::WrongProtocol.text() == "session message belongs to another protocol"@,
        SessionError::WrongChannelBinding.text()
            == "session message belongs to another channel binding"@,
        SessionError::TranscriptMismatch.text() == "session transcript fields do not match"@,
        SessionError::InvalidIdentity.text() == "peer identity key is invalid"@,
        SessionError::Authentication.text() == "session message authentication failed"@,
        SessionError::UnexpectedPeer.text() == "the responder is not the expected peer"@,
        SessionError::InvalidKeyAgreement.text()
            == "ephemeral key agreement produced an invalid shared key"@,
{
}

} // verus!
