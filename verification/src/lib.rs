//! Cooperative/preemptible task scheduler for a small single-core kernel.
//!
//! The scheduler tracks tasks in a table it owns, keeps ready tasks in a
//! priority run queue (one FIFO per priority level plus a bitmap of non-empty
//! levels), ages effective priorities with a multilevel-feedback penalty, and
//! defers reclamation of finished tasks until their stack is no longer the
//! active execution stack.  The architecture-specific context switch itself is
//! outside this crate: `Scheduler::schedule` returns the hand-off the platform
//! must perform.

use vstd::prelude::*;

pub mod console;
pub mod frame;
pub mod queue;
pub mod scheduler;
pub mod serial;
pub mod task;

verus! {

} // verus!
