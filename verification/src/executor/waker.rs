use vstd::prelude::*;

use core::sync::atomic::AtomicBool;
use core::sync::atomic::Ordering;

verus! {

/// The wake-up flag of the executor. It is set by wakers, possibly from an
/// interrupt handler, and taken by the executor, so its value at any moment is
/// decided by the environment.
pub struct EmbedWaker {
    woken: AtomicBool,
}

impl EmbedWaker {
    /// A waker whose flag is clear.
    pub fn new() -> Self {
        EmbedWaker { woken: AtomicBool::new(false) }
    }

    /// Sets the flag (with release ordering), so that the executor polls again.
    /// Waking a core that sleeps waiting for an event is left to the caller.
    pub fn wake(&self) {
        self.woken.store(true, Ordering::Release);
    }

    /// Takes the flag: clears it and returns whether it was set, in one atomic
    /// step (acquire-release ordering).
    pub fn test_and_clear(&self) -> bool {
        self.woken.swap(false, Ordering::AcqRel)
    }
}

} // verus!
