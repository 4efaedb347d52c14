//! Core of a deterministic real-time pipeline framework: a declarative task
//! graph with per-node configuration, a plan compiler that derives a safe
//! execution order, and a bounded history buffer keeping the most recent
//! iteration results.
#![verifier::loop_isolation(false)]

use vstd::prelude::*;

pub mod codec;
pub mod common;
pub mod curuntime;
pub mod wt901;
pub mod config;

verus! {

/// Error taxonomy of the framework.
///
/// Startup errors (`ConfigParseError`, `UnresolvedNodeReference`,
/// `InvalidNodeReference`, `CycleDetected`, `TaskInstantiationError`) are
/// unrecoverable; `ParamTypeMismatch` is reported to the reader of a
/// configuration parameter.
#[derive(Debug, PartialEq, Eq)]
pub enum CuError {
    /// The configuration text is malformed.
    ConfigParseError,
    /// A connection record names a node id absent from the declared node set.
    UnresolvedNodeReference(String),
    /// A programmatic call was given an out-of-range node index.
    InvalidNodeReference(u32),
    /// The graph is cyclic, so no execution order exists.
    CycleDetected,
    /// The task factory failed; carries the underlying cause.
    TaskInstantiationError(Box<CuError>),
    /// A configuration value exists but has a different type than requested.
    ParamTypeMismatch,
    /// A failure reported by an external collaborator (task, driver, sink).
    Message(String),
}

pub type CuResult<T> = Result<T, CuError>;

} // verus!
