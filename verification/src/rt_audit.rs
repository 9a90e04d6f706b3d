//! Audio-thread allocation auditing: while a thread is inside audio work
//! (its audit depth is above zero), every allocation it makes is counted.
//! Allocations are counted rather than refused, because reporting them
//! could itself allocate.
//!
//! The counter is a process-wide atomic and the depth a thread-local value;
//! both live with the host (the global allocator and thread-local storage),
//! which hands them to these functions.

use vstd::prelude::*;
use std::sync::atomic::{AtomicUsize, Ordering};

verus! {

/// Marks a scope as audio-thread work. Each `enter` is matched by one
/// `leave_audio_scope` when the scope ends.
#[derive(Debug)]
pub struct AudioThreadGuard;

impl AudioThreadGuard {
    /// Enters audio work: the thread's depth goes one level deeper.
    pub fn enter(depth: &mut usize) -> (g: Self)
        requires
            *old(depth) < usize::MAX,
        ensures
            *final(depth) == *old(depth) + 1,
    {
        *depth = *depth + 1;
        AudioThreadGuard
    }
}

/// Leaves one level of audio work; the depth never drops below zero.
pub fn leave_audio_scope(depth: &mut usize)
    ensures
        *final(depth) == if *old(depth) > 0 {
            *old(depth) - 1
        } else {
            0
        },
{
    *depth = depth.saturating_sub(1);
}

/// Counts one allocation made by a thread at `depth`, if it is inside audio
/// work. Returns whether it was counted.
pub fn record_allocation(depth: usize, counter: &AtomicUsize) -> (counted: bool)
    ensures
        counted == (depth > 0),
{
    if depth > 0 {
        counter.fetch_add(1, Ordering::Relaxed);
        true
    } else {
        false
    }
}

/// Starts a new count.
pub fn reset_audio_allocation_count(counter: &AtomicUsize) {
    counter.store(0, Ordering::Relaxed);
}

/// Allocations counted since the last reset. Other threads may count
/// concurrently, so nothing is promised of the value read.
pub fn audio_allocation_count(counter: &AtomicUsize) -> usize {
    counter.load(Ordering::Relaxed)
}

/// Entering and leaving audio work returns a thread to the depth it had,
/// and a thread outside audio work never has its allocations counted.
pub proof fn law_enter_leave_balance(depth: usize)
    requires
        depth < usize::MAX,
    ensures
        ({
            let inside = (depth + 1) as usize;
            &&& inside > 0
            &&& (if inside > 0 { inside - 1 } else { 0 }) == depth
        }),
{
}

} // verus!
