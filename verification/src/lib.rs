//! The learning and inference core of an adaptive read-ahead daemon.
//!
//! The crate keeps a model of which executables run together: the known
//! executables, the file regions they map, and one four-state Markov chain for
//! every pair of executables. Periodic scans of the process table train the
//! model; a prediction pass turns it into an ordered list of regions to
//! prefetch under a memory budget.
//!
//! Everything here works on plain values. Reading the process table, stating
//! files, talking to the state store, evaluating the real-valued probability
//! formulas and issuing the advisory reads are the caller's business.

pub mod common;
pub mod database;
pub mod event;
pub mod logging;
pub mod markov;
pub mod model;
pub mod path;
pub mod persist;
pub mod proc;
pub mod prophet;
pub mod readahead;
pub mod region;
pub mod remove;
pub mod roundtrip;
pub mod spy;
pub mod state;
