//! A minimal, manually-driven task executor.
//!
//! The executor keeps a registry of suspended computations and advances
//! ("polls") a computation only when a caller explicitly asks for it, either
//! for one task (`wake`) or for every registered task (`wake_all`). There is
//! no background scheduler: all progress happens inside those calls.

pub mod countdown;
pub mod executor;
pub mod task_wake;

pub use countdown::Countdown;
pub use executor::Computation;
pub use executor::ManualExecutor;
pub use task_wake::TaskWake;
