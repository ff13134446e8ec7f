#![allow(unused_imports)]
use vstd::prelude::*;

pub mod backend;
pub mod codec;
pub mod cookie;
pub mod digits;
pub mod session;
pub mod store;

verus! {

/// Failure modes of the session store, as surfaced to the calling middleware.
#[derive(Clone, Copy, Debug, PartialEq, Eq, Structural)]
pub enum StoreError {
    /// The backend could not be reached or replied with a protocol error.
    BackendUnavailable,
    /// The cookie value handed to `load_session` does not decode to a session identifier.
    InvalidCookie,
    /// A stored value failed to deserialize into a session.
    CorruptSessionData,
}

} // verus!
