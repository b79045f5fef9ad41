use vstd::prelude::*;

verus! {

/// Why a byte buffer could not be read back as a record.
#[derive(Debug, Clone, Copy, PartialEq, Eq, Structural)]
pub enum FormatError {
    /// The buffer ends before a field is complete.
    Truncated,
    /// A width tag names no width class.
    InvalidTag,
    /// The number of value bytes does not match the width that the tag declares.
    WidthMismatch,
    /// The buffer ends before every recipient's username has been read.
    CorrelationMismatch,
    /// Bytes are left over after the record.
    TrailingBytes,
    /// Two receive streams carry the same identifier.
    DuplicatePeer,
    /// The key windows are not contiguous, or one of them ends before it starts.
    InvalidWindow,
}

/// Misuse of a receive stream cursor.
#[derive(Debug, Clone, Copy, PartialEq, Eq, Structural)]
pub enum StreamError {
    /// No receive stream has the given identifier.
    UnknownPeer,
    /// The new position is below the current one.
    PositionRegression,
    /// A receive stream with this identifier already exists.
    DuplicatePeer,
}

/// Failure to append to, or look up in, the key window table.
#[derive(Debug, Clone, Copy, PartialEq, Eq, Structural)]
pub enum KeyRatchetError {
    /// The window does not start where the newest window ends, or ends before it starts.
    InvalidWindow,
    /// No window contains the position.
    KeyNotFound,
}

} // verus!
