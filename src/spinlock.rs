use std::sync::atomic::{AtomicBool, Ordering};
use vstd::prelude::*;

verus! {

/// A spin lock: one boolean flag, `true` while the lock is held.
pub struct SpinLock {
    inner: AtomicBool,
}

impl SpinLock {
    /// An unlocked spin lock.
    pub fn new() -> (r: Self) {
        SpinLock { inner: AtomicBool::new(false) }
    }

    /// Takes the lock if it is free at this instant; `Err(())` if another holder has it.
    /// Which of the two comes back depends on the other threads, so nothing more is promised.
    pub fn try_lock(&self) -> (r: Result<(), ()>) {
        match self.inner.compare_exchange(false, true, Ordering::Acquire, Ordering::Relaxed) {
            Ok(_) => Ok(()),
            Err(_) => Err(()),
        }
    }

    /// Releases the lock. The caller must be its holder.
    pub fn unlock(&self) {
        self.inner.store(false, Ordering::Release);
    }
}

impl Default for SpinLock {
    fn default() -> (r: Self) {
        SpinLock::new()
    }
}

} // verus!
