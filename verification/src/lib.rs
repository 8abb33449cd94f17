//! A debounced directory-watch library.
//!
//! The core turns a noisy, possibly duplicated stream of raw filesystem
//! change notifications into a clean, deduplicated stream of "stable new
//! entry" events: a path created directly under the watch root is reported
//! exactly once, after it has been pending for at least the configured
//! debounce window.

pub mod clients;
pub mod dashboard;
pub mod debounce;
pub mod emit;
pub mod errors;
pub mod event;
pub mod models;
pub mod recommend;
pub mod trace;

use vstd::prelude::*;

verus! {

/// Period, in milliseconds, at which pending candidates are swept for
/// promotion when the caller does not choose another one.
pub const DEFAULT_TICK_MS: u64 = 250;

/// Default debounce window: two seconds.
pub const DEFAULT_DEBOUNCE_MS: u64 = 2000;

} // verus!
