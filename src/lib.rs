//! Replication of identity-bearing repositories between peers.
//!
//! A run fetches from one remote peer the refs of one identity: a peek at
//! the identity layer, then the data that signed refs and tracking call for.
//! Its updates gather in a speculative state, are validated against the
//! signed refs, and are committed once at the end.
//!
//! - [`name`], [`refs`], [`parsed`]: reference names and their taxonomy.
//! - [`refdb`]: reference updates and an in-memory transactional store.
//! - [`sigrefs`]: signed refs and their combination.
//! - [`transmit`], [`steps`], [`net`]: what a negotiation round exchanges.
//! - [`state`], [`eval`]: the speculative state and the run's decisions.
//! - [`activation`], [`args`]: inherited sockets and the node's command line.
use vstd::prelude::*;

pub mod name;
pub mod ids;
pub mod refs;
pub mod parsed;
pub mod refdb;
pub mod transmit;
pub mod sigrefs;
pub mod steps;
pub mod net;
pub mod state;
pub mod eval;
pub mod run;
pub mod activation;
pub mod args;

verus! {

} // verus!
