//! Error taxonomy of the core: request-local failures (validation,
//! lookup), engine failures passed through, and persistence failures.

use vstd::prelude::*;

verus! {

/// A failure reported by the core to its caller.
///
/// `Validation` covers malformed requests (dimension mismatch, missing
/// sub-queries, an empty batch); `NotFound`, `Ambiguous` and `Conflict`
/// are index-lookup and lifecycle failures; `Engine` wraps a failure of
/// either external engine; `Persistence` covers log and snapshot failures,
/// including a checksum mismatch on replay; `Io` is a generic I/O failure.
#[derive(Debug, Clone)]
pub enum BridgeError {
    Validation(String),
    NotFound(String),
    Ambiguous(String),
    Conflict(String),
    Engine(String),
    Persistence(String),
    Io(String),
}

impl BridgeError {
    /// The human-readable message carried by the error.
    pub fn message(&self) -> (r: String)
        ensures
            r@ == self.spec_message(),
    {
        match self {
            BridgeError::Validation(m) => m.clone(),
            BridgeError::NotFound(m) => m.clone(),
            BridgeError::Ambiguous(m) => m.clone(),
            BridgeError::Conflict(m) => m.clone(),
            BridgeError::Engine(m) => m.clone(),
            BridgeError::Persistence(m) => m.clone(),
            BridgeError::Io(m) => m.clone(),
        }
    }

    pub open spec fn spec_message(&self) -> Seq<char> {
        match self {
            BridgeError::Validation(m) => m@,
            BridgeError::NotFound(m) => m@,
            BridgeError::Ambiguous(m) => m@,
            BridgeError::Conflict(m) => m@,
            BridgeError::Engine(m) => m@,
            BridgeError::Persistence(m) => m@,
            BridgeError::Io(m) => m@,
        }
    }
}

} // verus!
