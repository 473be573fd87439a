//! Verified core of a per-function serverless container autoscaler.
//!
//! The library holds the data structures and decision logic of the control
//! plane: the per-container state machine, the container pool with its
//! selection and scaling rules, the autoscaler that routes invocations and
//! drives the periodic scaling loop, the metrics cache and sample
//! interpretation, and the persistence codec that serializes pool state for
//! crash recovery.  All I/O (container engine, metrics store, key-value
//! store) is performed by callers, which hand the results to the verified
//! functions here as plain values.

pub mod autoscaler;
pub mod builder;
pub mod codec;
pub mod container;
pub mod errors;
pub mod logs;
pub mod naming;
pub mod metrics;
pub mod persistence;
pub mod pool;
pub mod provision;
pub mod text;
