//! Moving directories to the repository and back, as state machines: each
//! machine says what is to be done next, the caller does it and reports what
//! became of it.

pub mod migrate;
pub mod plan;
pub mod restore;
pub mod round_trip;
pub mod stage;
pub mod unlink;

pub use migrate::{MigratePlan, MigrateRun};
pub use plan::{transfer_event, Action, Event, Place, SrcResolver};
pub use restore::RestoreRun;
pub use unlink::BreakLinkRun;
