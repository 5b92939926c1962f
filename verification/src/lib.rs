//! Ternary task scheduler: tasks carry a priority in {-1 = deferred, 0 = normal,
//! +1 = urgent}; a scheduler orders them by priority and deadline, escalates
//! normal tasks that near their deadline, and a work-stealing pool moves
//! non-urgent tasks from the busiest worker to the idlest one.
pub mod balance;
pub mod loads;
pub mod order;
pub mod pool;
pub mod scheduler;
pub mod task;

pub use balance::LoadBalancer;
pub use pool::WorkStealingPool;
pub use scheduler::Scheduler;
pub use task::Task;
