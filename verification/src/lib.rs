//! Analytical and persistence core of a branch-management tool.
//!
//! Three subsystems, all pure over plain values handed in by the caller:
//!
//! - branch divergence analysis: how a branch diverges from the configured
//!   target reference (ahead commits, behind count, fork point);
//! - commit metrics aggregation: ranked author and file frequency tables
//!   over a commit list;
//! - session delta persistence: a path-addressed store of serialized edit
//!   deltas, each write fully replacing the previous content at its path.

pub mod refname;
pub mod model;
pub mod metrics;
pub mod remote;
pub mod json;
pub mod writer;
