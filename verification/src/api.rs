//! What every request message declares about itself.
use vstd::prelude::*;

verus! {

/// A protocol version number.
pub type Version = i16;

/// A Kafka error code as carried on the wire; 0 means no error.
pub type ErrorCode = i16;

/// A request message: its API key, the versions it is defined for, and the
/// message that answers it.
pub trait Request {
    const API_KEY: u16;
    const MIN_API_VERSION: i16;
    const MAX_API_VERSION: i16;
    const DEFAULT_API_VERSION: i16;
    type Response;
}

} // verus!
