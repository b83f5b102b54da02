//! Decision engine of a deterministic concurrency tester: the schedule data
//! model, the `Scheduler` interface and the scheduling strategies.
pub mod task;
pub mod rng;
pub mod schedule;
pub mod scheduler;
pub mod replay;
pub mod round_robin;
pub mod random;
pub mod dfs;
pub mod pct;
pub mod determinism_check;

pub use determinism_check::DeterminismCheckScheduler;
pub use dfs::DfsScheduler;
pub use pct::PctScheduler;
pub use random::RandomScheduler;
pub use replay::ReplayScheduler;
pub use round_robin::RoundRobinScheduler;
pub use schedule::{Schedule, ScheduleRecord, ScheduleStep};
pub use scheduler::Scheduler;
pub use task::TaskId;
