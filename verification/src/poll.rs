use vstd::prelude::*;

verus! {

/// The outcome of one attempt to make progress: either a value is ready, or the
/// caller has to come back after it was woken.
#[derive(Debug, Clone, Copy, PartialEq, Eq)]
pub enum Poll<T> {
    Ready(T),
    Pending,
}

} // verus!
