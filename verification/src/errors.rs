//! Error taxonomy of the buffer: store-level failures propagate, encode
//! failures propagate from push, decode failures are handled per element.

use vstd::prelude::*;

verus! {

/// The ways a buffer operation can fail.
///
/// `ConnectionError` and `LockError` arise only at a live store connection
/// and always propagate to the caller. `EncodingError` means a record could
/// not be serialized (ill-formed shape). `DecodingError` means a stored blob
/// was malformed, truncated, or of a mismatched shape.
#[derive(Clone, Copy, Debug, PartialEq, Eq, Structural)]
pub enum BufferError {
    ConnectionError,
    LockError,
    EncodingError,
    DecodingError,
}

impl BufferError {
    /// A short human-readable description of the error.
    pub fn describe(&self) -> &'static str {
        match self {
            BufferError::ConnectionError => "store unreachable or timed out",
            BufferError::LockError => "connection guard acquisition failed",
            BufferError::EncodingError => "record could not be encoded",
            BufferError::DecodingError => "stored blob could not be decoded",
        }
    }
}

} // verus!
