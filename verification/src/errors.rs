//! The engine's error kinds. All of them are unrecoverable at the point of
//! occurrence; the caller terminates rather than degrade.

use vstd::prelude::*;

verus! {

/// Every fault the round engine can report.
#[derive(Debug, PartialEq, Eq, Structural, Clone, Copy)]
pub enum EngineError {
    /// Missing or unusable startup configuration (a zero stake).
    ConfigError,
    /// Store creation failure at startup.
    SchemaError,
    /// Malformed persisted data on read, or a failure to encode on write.
    SerializationError,
    /// A read of a canonical height that should exist under the protocol's
    /// invariants.
    MissingHeight,
    /// A second commit to an already-populated canonical height.
    DuplicateHeight,
    /// A lottery run over a pool whose combined weight is zero.
    ZeroTotalStake,
}

} // verus!
