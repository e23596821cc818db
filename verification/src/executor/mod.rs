use vstd::prelude::*;

use crate::poll::Poll;

pub mod waker;

pub use self::waker::EmbedWaker;

verus! {

/// A `no_std` compatible, allocation-less, single-threaded futures executor,
/// targeted at supporting embedded use-cases.
///
/// `block_on` is a loop that a driver runs: poll the future, and while it is
/// pending, wait for a wake-up. The decisions of that loop are the methods
/// below; the driver performs the poll and the sleep.
pub struct Executor {
    waker: EmbedWaker,
}

/// What the driver of `block_on` does next.
#[derive(Debug, PartialEq, Eq)]
pub enum BlockOn<T> {
    /// Poll the future once more.
    Poll,
    /// Nothing woke the executor: sleep until an event arrives, then ask again.
    Sleep,
    /// The future completed with this output: `block_on` returns it.
    Done(T),
}

/// What `block_on` does after a poll that gave `out`.
pub open spec fn after_poll<T>(out: Poll<T>, woken: bool) -> BlockOn<T> {
    match out {
        Poll::Ready(v) => BlockOn::Done(v),
        Poll::Pending => resume_spec(woken),
    }
}

/// What `block_on` does while it waits, given whether a wake-up was pending.
pub open spec fn resume_spec<T>(woken: bool) -> BlockOn<T> {
    if woken {
        BlockOn::Poll
    } else {
        BlockOn::Sleep
    }
}

/// Decides, from the wake-up flag that was just taken, whether to poll again
/// or to sleep.
pub fn resume<T>(woken: bool) -> (next: BlockOn<T>)
    ensures
        next == resume_spec::<T>(woken),
{
    if woken {
        BlockOn::Poll
    } else {
        BlockOn::Sleep
    }
}

impl Executor {
    /// Create a new instance of [`Executor`].
    pub fn new() -> Executor {
        Executor { waker: EmbedWaker::new() }
    }

    /// The waker that this executor owns.
    pub closed spec fn own_waker(&self) -> EmbedWaker {
        self.waker
    }

    /// The waker that wakes this executor.
    pub fn waker(&self) -> (w: &EmbedWaker)
        ensures
            *w == self.own_waker(),
    {
        &self.waker
    }

    /// The first thing `block_on` does: poll the future.
    pub fn start<T>(&self) -> (next: BlockOn<T>)
        ensures
            next == BlockOn::<T>::Poll,
    {
        BlockOn::Poll
    }

    /// The decision after a poll: a ready future ends `block_on` with its
    /// output; a pending one makes the executor take its wake-up flag and
    /// either poll again (it was woken meanwhile) or sleep.
    pub fn polled<T>(&self, out: Poll<T>) -> (next: BlockOn<T>)
        ensures
            exists|woken: bool| next == after_poll(out, woken),
    {
        match out {
            Poll::Ready(v) => {
                let next = BlockOn::Done(v);
                assert(next == after_poll(out, true));
                next
            },
            Poll::Pending => {
                let next = self.idle();
                let ghost w = choose|w: bool| next == resume_spec::<T>(w);
                assert(next == after_poll(out, w));
                next
            },
        }
    }

    /// The decision after a sleep: take the wake-up flag, and poll again when
    /// it was set, else sleep once more.
    pub fn idle<T>(&self) -> (next: BlockOn<T>)
        ensures
            exists|woken: bool| next == resume_spec::<T>(woken),
    {
        let woken = self.waker.test_and_clear();
        let next = resume(woken);
        assert(next == resume_spec::<T>(woken));
        next
    }
}

/// Law: `block_on` ends exactly when a poll finds the future ready, and then
/// returns that poll's output; while the future is pending it polls again
/// only when a wake-up was taken, and otherwise sleeps.
pub proof fn lemma_block_on_returns_ready_output<T>(out: Poll<T>, woken: bool)
    ensures
        after_poll(out, woken) is Done <==> out is Ready,
        out matches Poll::Ready(v) ==> after_poll(out, woken) == BlockOn::Done(v),
        out is Pending ==> after_poll(out, woken) == (if woken {
            BlockOn::<T>::Poll
        } else {
            BlockOn::<T>::Sleep
        }),
{
}

} // verus!
