use crate::scheduled::ScheduledStep;
use vstd::prelude::*;

verus! {

/// A source of tasks for workers: hands out steps, takes back their
/// interpretations, and tells whether a handed-out step is still wanted.
pub trait StepScheduler<T, C> {
    type StateInterpretation;

    type ItemMeta;

    /// The scheduler's invariant holds.
    spec fn ready(&self) -> bool;

    /// The scheduler can hand out another step.
    spec fn can_hand_out(&self) -> bool;

    fn next(&mut self, token: C) -> (r: Result<ScheduledStep<T, Self::ItemMeta>, C>)
        requires
            old(self).ready(),
            old(self).can_hand_out(),
        ensures
            final(self).ready(),
    ;

    fn put_result(&mut self, path: ScheduledStep<T, Self::ItemMeta>, event: Self::StateInterpretation)
        requires
            old(self).ready(),
        ensures
            final(self).ready(),
    ;

    fn notify_done(&mut self)
        requires
            old(self).ready(),
        ensures
            final(self).ready(),
    ;

    fn is_cancelled(&self, item: &ScheduledStep<T, Self::ItemMeta>) -> bool
        requires
            self.ready(),
    ;
}

} // verus!
