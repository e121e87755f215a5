//! A coordinator/worker pool that distributes a population-growth
//! simulation over a byte-oriented request/response protocol.
//!
//! The crate holds the verified core: the wire protocol and its framing,
//! the growth simulation (single run and split-phase run), the shared
//! work queue with its completed set, the worker-side state machine and
//! the coordinator-side session state machine. Sockets, threads and the
//! command line live outside, in the surrounding application.

use vstd::prelude::*;

pub mod engine;
pub mod protocol;
pub mod queue;
pub mod session;
pub mod worker;

verus! {

/// Hands out the next session identifier from a shared counter.
pub fn new_client_id(counter: &mut u64) -> (id: u64)
    requires
        *old(counter) < u64::MAX,
    ensures
        id == *old(counter),
        *final(counter) == *old(counter) + 1,
{
    let id: u64 = *counter;
    *counter = *counter + 1;
    id
}

} // verus!
