//! A scheduler for systems that share a resource store.
//!
//! A system declares which resources it reads and which it writes. The
//! builder plans the systems into stages whose members never conflict, and
//! the scheduler lets a stage start only while no running stage holds a
//! resource in a way that conflicts with it: many readers or one writer.
//!
//! The scheduler takes the decisions of a dispatch and keeps the books. It
//! runs nothing itself: `Scheduler::step` says which task to start or that
//! a completion has to come first, and `Scheduler::complete` takes the
//! completion messages in.
//!
//! - `resources`: resource ids and the store.
//! - `mappings`: dense ids for types.
//! - `system`: system ids, what a system declares, and the handles that
//!   declare it.
//! - `access`: declarations and conflicts, as the contracts speak of them.
//! - `ledger`: the reader counts and the set of held writes.
//! - `scheduler`: the plan, the planner, the builder and the dispatcher.
//! - `id_list`, `id_set`: the collections that the dispatcher keeps its
//!   books in.
pub mod access;
pub mod id_list;
pub mod id_set;
pub mod ledger;
pub mod mappings;
pub mod resources;
pub mod scheduler;
pub mod system;

pub use mappings::Mappings;
pub use resources::{resource_id_for, ResourceId, ResourceMissing, Resources};
pub use scheduler::builder::{PlannerError, SchedulerBuilder};
pub use scheduler::{
    DispatchError, Scheduler, StageId, Step, Task, TaskMessage, UsageError,
};
pub use system::{
    system_id_for, CachedSystem, Declared, RawSystem, Read, SystemData, SystemId, Write,
};
