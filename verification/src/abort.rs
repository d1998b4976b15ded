//! The flag that stops a running search.
use vstd::prelude::*;
use std::sync::atomic::AtomicBool;

verus! {

/// Whether the search was asked to stop. The flag is set by another thread,
/// so any answer is possible.
pub fn should_abort(flag: &AtomicBool) -> bool {
    flag.load(std::sync::atomic::Ordering::Relaxed)
}

} // verus!
