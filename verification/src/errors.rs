//! Error kinds raised by the core.

use vstd::prelude::*;

verus! {

/// Everything that can go wrong inside the core operations.
///
/// Failures that only the surrounding program can encounter — file
/// handling, authentication, transport, a dirty working copy — are raised
/// and reported there, not represented here.
#[derive(Debug)]
pub enum Error {
    /// A branch name failed validation; `reason` says which rule it broke.
    InvalidBranchName { name: String, reason: String },
    /// A branch the operation needs is missing from the repository view.
    BranchNotFound(String),
    /// The named branch is not part of the stack.
    NotInStack(String),
    /// The named branch has no pull request yet.
    NoPullRequest(String),
    /// A rebase failed outright: the branch, then the details.
    RebaseFailed(String, String),
    /// No sync is recorded as in progress.
    NoSyncInProgress,
    /// No backup exists to restore from.
    NoBackup,
    /// The remote URL has neither the canonical SSH nor HTTPS shape.
    InvalidRemoteUrl(String),
    /// A persisted state file does not parse as the expected document.
    Corrupted(String),
}

} // verus!
