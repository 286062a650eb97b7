//! Scheduling and resource core of an agent runtime: a bounded priority
//! queue of tasks with per-task outcome statistics, and a byte-budgeted
//! keyed store with time-to-live expiry, beside a small registry of the
//! agents that use them.

pub mod clock;
pub mod memory;
pub mod runtime;
pub mod scheduler;
pub mod seq_facts;
