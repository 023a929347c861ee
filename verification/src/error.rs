//! What can go wrong with a lookup. A miss is no error: it is the signal
//! to consult the store and then the resource.

use vstd::prelude::*;

verus! {

/// The errors of the cache. None of them is fatal.
#[derive(Clone, Copy, Debug, PartialEq, Eq, Structural)]
pub enum CacheError {
    /// The resource returned nothing usable or failed. Every waiter of the
    /// flight gets this error; nothing is cached, and the next lookup of the
    /// key may try again at once.
    FetchFailed,
    /// The durable store could not be reached. The cache goes on in memory
    /// alone and fails no lookup on this account.
    StoreUnavailable,
    /// The caller gave up before a slot of the admission gate was granted.
    /// Only that caller gets this error.
    GateTimeout,
}

impl CacheError {
    /// Whether the error is handed to a caller. An unreachable store is
    /// absorbed; the other two fail the lookup of the callers they concern.
    pub fn is_surfaced(&self) -> (yes: bool)
        ensures
            yes == !(*self is StoreUnavailable),
    {
        match self {
            CacheError::StoreUnavailable => false,
            CacheError::FetchFailed => true,
            CacheError::GateTimeout => true,
        }
    }

    /// The error in words.
    pub fn message(&self) -> (text: String)
        ensures
            *self is FetchFailed ==> text@ == "the fetch failed"@,
            *self is StoreUnavailable ==> text@ == "the durable store is unavailable"@,
            *self is GateTimeout ==> text@ == "gave up waiting for a slot"@,
    {
        match self {
            CacheError::FetchFailed => "the fetch failed".to_owned(),
            CacheError::StoreUnavailable => "the durable store is unavailable".to_owned(),
            CacheError::GateTimeout => "gave up waiting for a slot".to_owned(),
        }
    }
}

} // verus!
