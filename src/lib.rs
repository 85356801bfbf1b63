//! Two-way synchronisation between a local directory tree and a remote
//! store: classification of every path against the last synchronised
//! state, the ledger that keeps that state between runs, and the planning
//! and bookkeeping around the concurrent execution of the resulting actions.
pub mod action;
pub mod ledger;
pub mod rclone;
pub mod laws;
pub mod configs;
pub mod sync;
