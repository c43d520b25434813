//! A single-threaded cooperative task scheduler ("mini executor") together
//! with a deadline-based suspension primitive.
//!
//! The scheduler owns a FIFO queue of tasks, repeatedly polls the head task,
//! records its value when it completes, and re-queues it while it is still
//! pending. A task is a small state machine that awaits one suspension
//! primitive: a wait that becomes ready once a logical wall clock reaches its
//! deadline. The clock advances by one time unit per polling step, which
//! models a scheduler that discovers readiness only by re-polling.

pub mod clock;
pub mod delay;
pub mod executor;

pub use clock::Clock;
pub use delay::Delay;
pub use delay::PollResult;
pub use executor::MiniTokio;
pub use executor::Task;
