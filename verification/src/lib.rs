//! Reconciles work-time annotations found in commit messages with an ordered
//! tabular journal: commit messages are parsed into structured entries, and a
//! batch of entries is merged into an existing grid of rows without
//! duplicating entries already recorded and without disturbing existing rows.

pub mod grid;
pub mod laws;
pub mod merge;
pub mod model;
pub mod parser;
pub mod time;

use vstd::prelude::*;

verus! {

/// The caller's configuration: which repository to read, which file to
/// update, and whether to back the file up before writing.
pub struct JournalInputs {
    /// Repository owner.
    pub owner: String,
    /// Repository name.
    pub repo: String,
    /// Path to the target tabular file.
    pub file: String,
    /// Branch name.
    pub branch: String,
    /// Personal access token for protected repositories.
    pub pat: Option<String>,
    /// Back the target file up before updating it.
    pub backup: bool,
}

} // verus!
