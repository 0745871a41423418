use vstd::prelude::*;

verus! {

/// One unit of work handed to a worker: the full event path to replay,
/// together with scheduler-private metadata that identifies the task.
#[derive(Debug, Default, PartialEq, Eq, Clone)]
pub struct ScheduledStep<T, M> {
    recording: T,
    meta: M,
}

impl<T, M> ScheduledStep<T, M> {
    /// The path that a worker replays.
    pub closed spec fn recorded(&self) -> T {
        self.recording
    }

    /// The scheduler's metadata for this step.
    pub closed spec fn metadata(&self) -> M {
        self.meta
    }

    pub fn new(recording: T, meta: M) -> (r: Self)
        ensures
            r.recorded() == recording,
            r.metadata() == meta,
    {
        Self { recording, meta }
    }

    pub fn meta(&self) -> (r: &M)
        ensures
            *r == self.metadata(),
    {
        &self.meta
    }

    pub fn path(&self) -> (r: &T)
        ensures
            *r == self.recorded(),
    {
        &self.recording
    }
}

} // verus!
