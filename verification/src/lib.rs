//! Verified core of a stacked-branch manager: validated branch names, the
//! persistent stack model, the sync planning and recovery state machine, and
//! the on-disk state codec.

use vstd::prelude::*;

pub mod branch_name;
pub mod codec;
pub mod errors;
pub mod forge;
pub mod merge;
pub mod remote;
pub mod stack;
pub mod state;
pub mod sync;
pub mod text;

verus! {

pub use crate::branch_name::{slugify, validate_branch_name, BranchName};
pub use crate::errors::Error;
pub use crate::stack::{Stack, StackBranch};
pub use crate::state::{Backup, BackupEntry, SyncState};
pub use crate::sync::{
    abort_sync, continue_sync, create_sync_plan, execute_sync, undo_sync, SyncAction, SyncPlan,
    SyncResult,
};

} // verus!
