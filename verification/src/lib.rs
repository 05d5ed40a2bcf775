//! A TCP reverse-proxy load balancer core: round-robin host selection with
//! per-host cooldowns, a per-connection tunnel state machine, worker-side
//! registries and timeout policy, and least-loaded admission.
//!
//! All socket and timer I/O is performed by the surrounding application; the
//! functions here operate on plain values (endpoints, millisecond clock
//! readings, I/O outcome summaries) and are verified.

use vstd::prelude::*;

pub mod balancer;
pub mod client;
pub mod endpoint;
pub mod host_manager;
pub mod round_robin;
pub mod selector_laws;

verus! {

/// How long an errored host is excluded from selection, in milliseconds.
pub const TARGET_DOWN_COOLDOWN_MS: u64 = 30000;

/// Per-attempt upstream connect deadline, in milliseconds.
pub const CONNECTION_TIMEOUT_MS: u64 = 400;

/// Overall connect-phase deadline, measured from the last loss of service,
/// in milliseconds.
pub const TOTAL_CONNECTION_TIMEOUT_MS: u64 = 4000;

/// Bound on each worker's readiness poll, in milliseconds, so the shutdown
/// flag is observed within this bound.
pub const POLL_TIMEOUT_MS: u64 = 10;

/// Size of a tunnel's fixed forwarding buffer, in bytes.
pub const BUFFER_SIZE: usize = 4096;

/// The poller token reserved for the listening socket.
pub const SERVER_TOKEN: usize = 0;

/// The token the listener's poller uses for accepted client sockets.
pub const CLIENT_TOKEN: usize = 1;

} // verus!
