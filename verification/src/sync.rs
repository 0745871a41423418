use vstd::prelude::*;

verus! {

/// A cancellation signal shared between the scheduler and a worker.
///
/// The scheduler keeps one token per scheduled task and signals it when the
/// task can no longer contribute (its branch was pruned or overtaken).
/// Whether a token reads as cancelled depends on every holder of it, so no
/// method states what it returns.
pub trait Canceable {
    fn cancel(&self);

    fn is_cancelled(&self) -> bool;
}

} // verus!
