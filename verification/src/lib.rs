//! Process schedulers: a round-robin scheduler and a completely fair
//! scheduler, both driven through `next` (which process runs) and `stop`
//! (what a stopped process asked for).
pub mod process;
pub mod queue;
pub mod shared;
pub mod round_robin;
pub mod cfs;
pub mod laws;
pub mod pids;
pub mod outcomes;

pub use cfs::Cfs;
pub use process::{
    MyProcess, NonZeroUsize, Pid, ProcessState, SchedulingDecision, StopReason, Syscall,
    SyscallResult,
};
pub use round_robin::RoundRobin;
