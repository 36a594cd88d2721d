//! Data model: what the repository/commit-graph provider reports about
//! refs and commits (input records), and the presentation records this
//! core derives from them (output records).
//!
//! Commit identifiers are stringified hex object ids; commit messages are
//! carried as raw bytes, since a message need not be valid text.

use vstd::prelude::*;
use crate::metrics::CommitMetrics;
use crate::refname::{Refname, RemoteRefname};

verus! {

/// A commit author: display name and contact address.
#[derive(Debug, Clone, PartialEq)]
pub struct Author {
    pub name: String,
    pub email: String,
}

/// The repository's designated upstream/base reference: the divergence
/// baseline. Created and updated externally; read-only here.
#[derive(Debug, Clone, PartialEq)]
pub struct Target {
    /// The remote branch the target points at.
    pub branch: RemoteRefname,
    /// The target commit identifier.
    pub sha: String,
}

/// What the provider reports about the tip commit of an enumerated ref,
/// after peeling tags and symbolic refs down to a commit.
#[derive(Debug, Clone, PartialEq)]
pub struct CommitTip {
    /// Commit time, seconds since the epoch (may be negative in
    /// pathological repositories).
    pub timestamp_seconds: i64,
    /// Author display name, absent when not determinable.
    pub author_name: Option<String>,
}

/// One enumerated branch ref as the provider reports it. Each field is
/// absent exactly when the corresponding per-branch lookup failed; any
/// absence makes the enumeration skip the branch.
#[derive(Debug, Clone, PartialEq)]
pub struct BranchEntry {
    /// The ref's direct commit id; absent for an unborn or symbolic ref.
    pub sha: Option<String>,
    /// The classified ref name; absent when the name fits no known form.
    pub name: Option<Refname>,
    /// Summary of the peeled tip commit; absent when peeling failed.
    pub tip: Option<CommitTip>,
}

/// The provider's raw projection of one commit.
#[derive(Debug, Clone, PartialEq)]
pub struct CommitEntry {
    /// Stringified hex object id.
    pub id: String,
    /// Raw message bytes.
    pub message: Vec<u8>,
    /// Commit time, seconds since the epoch.
    pub timestamp_seconds: i64,
    pub author: Author,
    /// Stable cross-rewrite logical identity, when the repository format
    /// provides one; carried through opaquely.
    pub change_id: Option<String>,
    /// Direct parent ids, first parent first.
    pub parent_ids: Vec<String>,
    /// File paths the commit touches; empty when extraction failed or
    /// the commit touches none.
    pub file_paths: Vec<String>,
}

/// The provider's divergence report for one selected branch against the
/// target commit: the bounded ancestor walk and the distance query.
#[derive(Debug, Clone, PartialEq)]
pub struct BranchWalk {
    /// The branch tip id; absent for an unborn branch.
    pub sha: Option<String>,
    /// The branch's classified name.
    pub name: Refname,
    /// Commits reachable from the tip but not from the target commit,
    /// newest first; the walk stops upon reaching the target.
    pub ahead: Vec<CommitEntry>,
    /// Count of commits reachable from the target but not from the tip.
    pub behind: u32,
}

/// Presentation record for one branch not yet converted into a managed
/// branch. Constructed fresh per enumeration call, never persisted.
#[derive(Debug, Clone, PartialEq)]
pub struct RemoteBranch {
    pub sha: String,
    pub name: Refname,
    /// Remote-tracking counterpart of a local branch, when configured.
    pub upstream: Option<RemoteRefname>,
    /// Tip commit time in milliseconds since the epoch; absent when the
    /// source timestamp does not fit the target numeric range.
    pub last_commit_timestamp_ms: Option<u128>,
    /// Tip commit author display name, absent if not determinable.
    pub last_commit_author: Option<String>,
}

/// Extended presentation record for one selected branch: its divergence
/// from the target at call time. Computed on demand, never cached.
#[derive(Debug, Clone, PartialEq)]
pub struct RemoteBranchData {
    pub sha: String,
    pub name: Refname,
    /// Remote-tracking counterpart of a local branch, when configured.
    pub upstream: Option<RemoteRefname>,
    /// Commits reachable from the target but not from this branch.
    pub behind: u32,
    /// The ahead set, projected, newest first.
    pub commits: Vec<RemoteCommit>,
    /// First parent of the oldest ahead commit, when both exist.
    pub fork_point: Option<String>,
    /// Ranked author frequency table over `commits`.
    pub recent_authors: Vec<CommitMetrics>,
    /// Ranked file frequency table over `commits`.
    pub recent_files: Vec<CommitMetrics>,
}

/// One commit's projected fields, for presentation.
#[derive(Debug, Clone, PartialEq)]
pub struct RemoteCommit {
    pub id: String,
    /// Raw message bytes; a consumer converts lossily to text.
    pub description: Vec<u8>,
    /// Commit time, seconds since the epoch.
    pub created_at: u128,
    pub author: Author,
    pub change_id: Option<String>,
    pub parent_ids: Vec<String>,
    pub file_paths: Vec<String>,
}

} // verus!
