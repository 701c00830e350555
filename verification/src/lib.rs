//! A small hardware-assisted asynchronous kernel: message queues, channels,
//! message pools, a priority run-queue executor and a hierarchical timer.
//!
//! Objects that wait in queues (actors, messages, waiting tasks) are named
//! by `usize` identifiers; each queue links them through its own table of
//! link records.
use vstd::prelude::*;

pub mod utils;
pub mod list;
pub mod bits;
pub mod timer;
pub mod msg;
pub mod channel;
pub mod pool;
pub mod actor;
pub mod executor;

pub use crate::actor::Actor;
pub use crate::channel::Channel;
pub use crate::executor::{Executor, Pic};
pub use crate::msg::{Envelope, Message};
pub use crate::pool::Pool;
pub use crate::timer::Timer;

verus! {

} // verus!
