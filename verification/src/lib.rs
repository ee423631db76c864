//! Session and sandbox lifecycle engine with an integrated preview proxy.
//!
//! The library holds the verified core of a multi-tenant sandbox execution
//! service: the session registry and its lifecycle rules, run-configuration
//! construction (environment and working-directory merging, resource-limit
//! defaults, port allocation), sandbox-relative path resolution, a reference
//! model of the per-session file area, and the routing and translation rules
//! of the preview proxy. The surrounding binary performs the operating-system
//! work (process spawning, file storage, network traffic) and feeds the
//! results back into these functions as plain values.

pub mod env_map;
pub mod errors;
pub mod codec;
pub mod files;
pub mod paths;
pub mod proxy;
pub mod registry;
pub mod run;
pub mod session;
pub mod strutil;
