//! Error taxonomy of the watch core.
//!
//! Construction-time errors are surfaced synchronously to the caller that
//! starts a watch; steady-state per-event errors are logged and swallowed so
//! the watcher stays alive, and consumer-side delivery failures never
//! propagate back into the watch loop.

use vstd::prelude::*;

verus! {

/// Why a watch could not be started, or why a single delivery failed.
#[derive(Clone, Copy, PartialEq, Eq, Structural, Debug)]
pub enum WatchError {
    /// The watch root does not exist: fatal, reported before any state is
    /// created.
    NotFound,
    /// The native change-notification subscription could not be
    /// established: fatal.
    WatcherInitFailed,
    /// The native source reported a transient error for a single event:
    /// logged and skipped, the loop continues.
    RawEventError,
    /// A consumer-side remote delivery failed: logged by the consumer,
    /// never propagated into the watch loop.
    PublishFailed,
}

impl WatchError {
    /// Whether the error ends the watch before it produces anything.
    pub open spec fn spec_is_fatal(self) -> bool {
        self == WatchError::NotFound || self == WatchError::WatcherInitFailed
    }

    /// Executable form of `spec_is_fatal`.
    pub fn is_fatal(&self) -> (r: bool)
        ensures
            r == self.spec_is_fatal(),
    {
        match self {
            WatchError::NotFound => true,
            WatchError::WatcherInitFailed => true,
            WatchError::RawEventError => false,
            WatchError::PublishFailed => false,
        }
    }

    /// A short description of the error.
    pub fn message(&self) -> (r: String)
        ensures
            self == WatchError::NotFound ==> r@ == "watch path does not exist"@,
            self == WatchError::WatcherInitFailed ==> r@ == "could not establish the native watch subscription"@,
            self == WatchError::RawEventError ==> r@ == "the native source reported an event error"@,
            self == WatchError::PublishFailed ==> r@ == "a consumer failed to deliver a notification"@,
    {
        match self {
            WatchError::NotFound => String::from_str("watch path does not exist"),
            WatchError::WatcherInitFailed => String::from_str(
                "could not establish the native watch subscription",
            ),
            WatchError::RawEventError => String::from_str(
                "the native source reported an event error",
            ),
            WatchError::PublishFailed => String::from_str(
                "a consumer failed to deliver a notification",
            ),
        }
    }
}

} // verus!
