//! A cooperative, single-threaded task scheduler with two event sources:
//! a deadline-ordered timer and a FIFO-fair resource pool of queued,
//! amount-based withdrawal requests.
//!
//! The scheduler owns every task outright; suspended computations are woken
//! through explicitly reference-counted resumption handles, and the run loop
//! drives a virtual clock forward to the nearest registered deadline.

pub mod money_pool;


pub mod runtime;
pub mod task;
pub mod timer;
