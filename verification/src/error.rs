use vstd::prelude::*;

verus! {

/// Connection-fatal protocol failures. Every one of these terminates the
/// affected connection; recoverable conditions (bad credentials, syntax
/// errors) are not errors but kick outcomes of the session handlers.
#[derive(Debug, Clone, Copy, PartialEq, Eq, Structural)]
pub enum ProtoError {
    /// A variable-length integer ran past its 5-byte limit.
    MalformedVarInt,
    /// The input ended in the middle of a frame or field.
    Truncated,
    /// A string field does not hold valid UTF-8.
    InvalidUtf8,
    /// The session phase is outside the defined set.
    UnknownPhase,
}

} // verus!
