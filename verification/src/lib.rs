//! A breadth-first scheduler that hands out the nodes of a speculative
//! reduction tree to workers and advances its root as results come back.

pub mod breadth_first;
pub mod acceptors;
pub mod ddmin;
pub mod dry;
pub mod reduce;
pub mod relative_path;
pub mod scheduled;
pub mod step_scheduler;
pub mod sync;
pub mod tape;

pub use breadth_first::{Advanceable, BFScheduler, Tree, TreeNode};
pub use relative_path::RelativePath;
pub use scheduled::ScheduledStep;
pub use step_scheduler::StepScheduler;
pub use sync::Canceable;
pub use tape::{DynamicEventReplay, EventReplay, SelectionPolicy, StaticEvent};
pub use dry::{mock_oracle, MockEvent, MockInterpretation, MockPath};
pub use acceptors::{BooleanAcceptor, DDMinPolicy, MockResultInterpretor};
pub use reduce::{
    algo, do_algo, next_seed, oracle, place_critical, seed_index, Minimal, MockInterpretationResult,
    CRITICAL_TOKENS,
};
pub use ddmin::{DDMinEvent, DDMinPath};
