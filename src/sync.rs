use vstd::prelude::*;
use core::sync::atomic::{AtomicBool, Ordering};

verus! {

/// A raw mutex that never waits: acquiring it while it is held is a logic
/// error, which `try_lock` reports as `false`.
pub struct PanickingRawMutex {
    locked: AtomicBool,
}

impl PanickingRawMutex {
    /// A mutex that is not held.
    pub fn new() -> (r: Self) {
        PanickingRawMutex { locked: AtomicBool::new(false) }
    }

    /// Takes the mutex if it is free; returns whether it was taken.
    pub fn try_lock(&self) -> (r: bool) {
        let was_locked = self.locked.swap(true, Ordering::Acquire);
        !was_locked
    }

    /// Frees the mutex.
    pub fn unlock(&self) {
        self.locked.store(false, Ordering::Release)
    }
}

} // verus!
