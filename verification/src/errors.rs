use vstd::prelude::*;

verus! {

/// Why a payload failed to decode.
#[derive(Debug, PartialEq, Eq)]
pub enum DecodeError {
    /// The payload ended before the encoding it began was complete.
    Truncated,
    /// The payload is not a well-formed encoding.
    Malformed,
    /// An integer in the payload does not fit the machine representation.
    OutOfRange,
}

/// One failure domain for all backends.  Absence of a key is never an
/// error: it is `Ok(None)` from `get` and `Ok(false)` from `exists`.
#[derive(Debug, PartialEq, Eq)]
pub enum KVError {
    /// A stored payload does not decode back into a value.
    Decode(DecodeError),
    /// A backend-native record exists but lacks the shape this layer
    /// expects; the field names the attribute that was missing or malformed.
    Schema(String),
    /// A non-blocking lock acquisition failed; the caller may retry.
    LockContention,
    /// A native failure of the underlying engine or service, carried
    /// through opaquely.
    Backend(String),
}

} // verus!
