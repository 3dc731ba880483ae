//! The failures that relay operations report.

use vstd::prelude::*;

verus! {

/// Why an operation of the relay core was refused or could not be carried out.
#[derive(Clone, Copy, Debug, PartialEq, Eq, Structural)]
pub enum RelayError {
    /// An identifier pool has no free identifier left.
    ResourceExhausted,
    /// The room already holds as many members as its configuration allows.
    RoomFull,
    /// The client identifier is already registered.
    DuplicateClient,
    /// No client is registered under the identifier.
    UnknownClient,
    /// The password or the token that was presented does not match.
    AuthFailed,
    /// The application name or the version differs from the room's.
    VersionMismatch,
    /// The directory service could not be reached.
    BackendUnavailable,
    /// A datagram was malformed or could not be decoded.
    ProtocolError,
    /// The shared socket failed.
    SocketFatal,
    /// The registry has no member.
    Empty,
    /// The room is closed and takes part in nothing any more.
    RoomClosed,
    /// No room is known under the identifier.
    UnknownRoom,
    /// A room record names no server.
    MissingServer,
    /// The identifier lies outside the range that can be allocated.
    OutOfRange,
    /// The identifier is allocated already.
    IdInUse,
    /// The identifier is not allocated.
    IdNotInUse,
    /// The service does not offer the operation.
    Unsupported,
}

/// How far a failure reaches.
#[derive(Clone, Copy, Debug, PartialEq, Eq, Structural)]
pub enum Reach {
    /// The failure is handed to the caller of the operation and touches
    /// nothing else.
    Caller,
    /// The session on which it happened is torn down; the others go on.
    Session,
    /// It is noted and otherwise ignored: relaying goes on.
    Logged,
    /// The process ends.
    Process,
}

/// How far each failure reaches.
pub open spec fn reach_of(error: RelayError) -> Reach {
    match error {
        RelayError::ProtocolError => Reach::Session,
        RelayError::BackendUnavailable => Reach::Logged,
        RelayError::SocketFatal => Reach::Process,
        _ => Reach::Caller,
    }
}

impl RelayError {
    /// How far the failure reaches.
    pub fn reach(&self) -> (reach: Reach)
        ensures
            reach == reach_of(*self),
    {
        match self {
            RelayError::ProtocolError => Reach::Session,
            RelayError::BackendUnavailable => Reach::Logged,
            RelayError::SocketFatal => Reach::Process,
            _ => Reach::Caller,
        }
    }

    /// Whether the failure ends the whole process rather than one session,
    /// one room or one publication.
    pub fn is_fatal(&self) -> (fatal: bool)
        ensures
            fatal == (reach_of(*self) == Reach::Process),
    {
        match self {
            RelayError::SocketFatal => true,
            _ => false,
        }
    }
}

} // verus!
