//! The flag by which a caller asks a running operation to stop.

use vstd::prelude::*;
use std::sync::atomic::AtomicBool;
use std::sync::atomic::Ordering;

verus! {

/// Whether the caller has asked to stop: the flag says `true` while the
/// operation is to go on. The flag belongs to the caller and may change at
/// any time, so two looks at it may differ.
pub fn is_cancelled(running: &AtomicBool) -> bool {
    flag_says_stop(running.load(Ordering::SeqCst))
}

/// Whether the caller has asked to stop, where there is a flag to ask by.
/// Without a flag nobody can ask.
pub fn stop_requested(running: Option<&AtomicBool>) -> (r: bool)
    ensures
        running is None ==> !r,
{
    match running {
        Some(flag) => is_cancelled(flag),
        None => false,
    }
}

/// What a look at the flag means: the caller has asked to stop exactly when
/// the flag no longer says `true`.
pub fn flag_says_stop(running: bool) -> (r: bool)
    ensures
        r == !running,
{
    !running
}

} // verus!
