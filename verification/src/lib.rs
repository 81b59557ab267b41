//! A configurable mock HTTP endpoint registry.
//!
//! The crate holds the core of a mock HTTP server: validated route
//! configurations, a keyed store with last-write-wins upsert, the admin
//! operations over it, request dispatch, and the persistence codec for
//! the route file.  The transport layer around it supplies sockets,
//! request parsing and timers, and hands this crate plain values.

pub mod codec;
pub mod config;
pub mod dispatch;
pub mod error;
pub mod registry;
pub mod route;
pub mod storage;
pub mod store;
pub mod text;

use vstd::prelude::*;

verus! {

/// The default HTTP status for a newly added route when none is given.
pub fn default_status() -> (r: u16)
    ensures
        r == 200,
{
    200
}

} // verus!
