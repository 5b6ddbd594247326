//! Errors of the multiparty protocol components.

use vstd::prelude::*;

verus! {

/// Errors emitted by multiparty protocol components.
#[derive(Clone, Copy, Debug, PartialEq, Eq)]
pub enum MultipartyError {
    /// Parameters or message contents are invalid.
    InvalidParameters(&'static str),
    /// A participant appears more than once.
    DuplicateParticipant,
    /// A required participant or share is missing.
    MissingShare,
    /// A share was submitted by a participant outside the session.
    UnknownParticipant,
    /// A share belongs to a stale or unrelated session.
    StaleShare,
    /// A share or transcript message is malformed.
    MalformedMessage,
    /// The threshold cannot be met with the available shares.
    ThresholdNotMet,
    /// A share for this exact session, round, protocol and participant was
    /// already produced.
    ReplayedShare,
}

} // verus!
